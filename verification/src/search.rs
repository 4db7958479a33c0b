//! The ranking pipeline: per-query search context, bucket computation per
//! ranking rule (simple and graph-based), the bucket sort that composes
//! the rules into one paginated result, and the search entry point.

use vstd::prelude::*;
use vstd::set_lib::lemma_len_subset;

use crate::cheapest_paths::{PathHandler, PathVisitor, VisitorContext, VisitorControl};
use crate::criteria::{
    get_ranking_rules_for_placeholder_search, get_ranking_rules_for_query_graph_search,
    has_sort_position, member_sortable, check_sort_criteria, AscDesc, Criterion, RankingRule,
    TermsMatchingStrategy, UserError,
};
use crate::dead_ends_cache::DeadEndsCache;
use crate::doc_ids::{
    doc_set, rb_and_assign, rb_clone, rb_contains, rb_insert, rb_len, rb_new, rb_or_assign,
    rb_sub_assign, rb_to_vec,
};
use crate::matching_words::{entry_in, sorted_by_len_desc, MatchingWords, Operation, Query, QueryKind};
use crate::query_graph::{LocatedQueryTerm, QueryGraph};
use crate::ranking_rule_graph::{Edge, RankingRuleGraph};
use crate::small_bitmap::SmallBitmap;
use crate::MAX_EDGE_COST;
use crate::MAX_NODES;

verus! {

/// A disjoint finite union: `|a| + |b| == |a U b|`.
proof fn lemma_len_disjoint_union(a: Set<u32>, b: Set<u32>)
    requires
        a.finite(),
        b.finite(),
        a.disjoint(b),
    ensures
        a.union(b).finite(),
        a.union(b).len() == a.len() + b.len(),
    decreases a.len(),
{
    if a.is_empty() {
        assert(a.union(b) =~= b);
    } else {
        let x = a.choose();
        assert(a.union(b).remove(x) =~= a.remove(x).union(b));
        lemma_len_disjoint_union(a.remove(x), b);
        assert(a.union(b) =~= a.union(b).remove(x).insert(x));
    }
}

/// A per-query facade over the read snapshot: the whole document universe,
/// the configured criteria and sortable fields, and the posting lists the
/// ranking rules consume — all immutable for the query's lifetime.
pub struct SearchContext {
    /// Every document identifier of the index.
    pub documents: roaring::RoaringBitmap,
    /// The configured ranking criteria, in order.
    pub criteria: Vec<Criterion>,
    /// Fields declared sortable.
    pub sortable_fields: Vec<String>,
    /// Documents holding a word, by word.
    pub word_docids: Vec<(String, roaring::RoaringBitmap)>,
    /// Documents matching a word at exactly a number of typos.
    pub typo_docids: Vec<(String, u8, roaring::RoaringBitmap)>,
    /// Documents whose pair of adjacent words occurs at a distance.
    pub proximity_docids: Vec<(String, String, u8, roaring::RoaringBitmap)>,
    /// Documents whose searched attribute equals the whole query exactly.
    pub exact_attribute_docids: roaring::RoaringBitmap,
    /// Documents matching every query word exactly.
    pub exact_word_docids: Vec<(String, roaring::RoaringBitmap)>,
    /// Per field, the documents carrying a sortable value, with the value.
    pub sort_values: Vec<(String, Vec<(u32, i64)>)>,
}

impl SearchContext {
    pub open spec fn wf(&self) -> bool {
        &&& doc_set(self.documents).finite()
        &&& forall|i: int|
            0 <= i < self.word_docids@.len() ==> doc_set(
                (#[trigger] self.word_docids@[i]).1,
            ).finite()
        &&& forall|i: int|
            0 <= i < self.typo_docids@.len() ==> doc_set(
                (#[trigger] self.typo_docids@[i]).2,
            ).finite()
        &&& forall|i: int|
            0 <= i < self.proximity_docids@.len() ==> doc_set(
                (#[trigger] self.proximity_docids@[i]).3,
            ).finite()
        &&& doc_set(self.exact_attribute_docids).finite()
        &&& forall|i: int|
            0 <= i < self.exact_word_docids@.len() ==> doc_set(
                (#[trigger] self.exact_word_docids@[i]).1,
            ).finite()
    }

    /// A context over a document universe, with everything else empty.
    pub fn new(documents: roaring::RoaringBitmap) -> (r: SearchContext)
        requires
            doc_set(documents).finite(),
        ensures
            r.wf(),
            r.documents == documents,
    {
        SearchContext {
            documents,
            criteria: Vec::new(),
            sortable_fields: Vec::new(),
            word_docids: Vec::new(),
            typo_docids: Vec::new(),
            proximity_docids: Vec::new(),
            exact_attribute_docids: rb_new(),
            exact_word_docids: Vec::new(),
            sort_values: Vec::new(),
        }
    }
}

/// The buckets split the universe: each is a finite part of it, no two
/// overlap, and together they cover it.
pub open spec fn bucket_partition(universe: Set<u32>, bs: Seq<roaring::RoaringBitmap>) -> bool {
    &&& forall|i: int|
        0 <= i < bs.len() ==> doc_set(#[trigger] bs[i]).finite() && doc_set(bs[i]).subset_of(
            universe,
        )
    &&& forall|i: int, j: int|
        0 <= i < j < bs.len() ==> doc_set(#[trigger] bs[i]).disjoint(doc_set(#[trigger] bs[j]))
    &&& forall|x: u32|
        universe.contains(x) ==> exists|i: int| 0 <= i < bs.len() && doc_set(
            #[trigger] bs[i],
        ).contains(x)
}

/// Splits the not-yet-covered remainder into what intersects `marker` and
/// the rest; pushing both onto `buckets` keeps the partition shape.
#[verifier::loop_isolation(false)]
fn push_two_way_split(
    buckets: Vec<roaring::RoaringBitmap>,
    remaining: roaring::RoaringBitmap,
    marker: &roaring::RoaringBitmap,
) -> (r: Vec<roaring::RoaringBitmap>)
    requires
        doc_set(remaining).finite(),
        doc_set(*marker).finite(),
    ensures
        r@.len() == buckets@.len() + 2,
        forall|i: int| 0 <= i < buckets@.len() ==> r@[i] == buckets@[i],
        doc_set(r@[r@.len() - 2]) == doc_set(remaining).intersect(doc_set(*marker)),
        doc_set(r@[r@.len() - 1]) == doc_set(remaining).difference(doc_set(*marker)),
        doc_set(r@[r@.len() - 2]).finite(),
        doc_set(r@[r@.len() - 1]).finite(),
{
    let mut buckets = buckets;
    let mut inside = rb_clone(&remaining);
    rb_and_assign(&mut inside, marker);
    let mut outside = remaining;
    rb_sub_assign(&mut outside, marker);
    proof {
        assert(doc_set(outside) =~= doc_set(inside).union(doc_set(outside)).difference(
            doc_set(inside),
        ).union(doc_set(outside).difference(doc_set(inside))));
    }
    buckets.push(inside);
    buckets.push(outside);
    buckets
}

/// The documents matching the word `w` within `budget` typos: its exact
/// posting list united with its typo posting lists at admissible counts.
pub open spec fn term_doc_set(ctx: &SearchContext, w: Seq<char>, budget: u8) -> Set<u32> {
    Set::new(
        |x: u32|
            {
                ||| exists|i: int|
                    0 <= i < ctx.word_docids@.len() && (#[trigger] ctx.word_docids@[i]).0@ == w
                        && doc_set(ctx.word_docids@[i].1).contains(x)
                ||| exists|i: int|
                    0 <= i < ctx.typo_docids@.len() && (#[trigger] ctx.typo_docids@[i]).0@ == w
                        && ctx.typo_docids@[i].1 <= budget && doc_set(
                        ctx.typo_docids@[i].2,
                    ).contains(x)
            },
    )
}

/// The documents matching a located term within its typo budget: the union
/// of the typo posting lists of its word at each admissible typo count.
#[verifier::loop_isolation(false)]
fn term_docids(ctx: &SearchContext, term: &LocatedQueryTerm) -> (r: roaring::RoaringBitmap)
    requires
        ctx.wf(),
    ensures
        doc_set(r).finite(),
        doc_set(r) == term_doc_set(ctx, term.word@, term.nbr_typos),
{
    let mut acc = rb_new();
    let nw = ctx.word_docids.len();
    let mut w: usize = 0;
    while w < nw
        invariant
            ctx.wf(),
            doc_set(acc).finite(),
            w <= nw,
            nw == ctx.word_docids@.len(),
            forall|x: u32|
                doc_set(acc).contains(x) <==> exists|i: int|
                    0 <= i < w && (#[trigger] ctx.word_docids@[i]).0@ == term.word@ && doc_set(
                        ctx.word_docids@[i].1,
                    ).contains(x),
        decreases nw - w,
    {
        let entry = &ctx.word_docids[w];
        if crate::matching_words::str_eq(entry.0.as_str(), term.word.as_str()) {
            rb_or_assign(&mut acc, &entry.1);
        }
        w += 1;
    }
    let n = ctx.typo_docids.len();
    let mut k: usize = 0;
    while k < n
        invariant
            ctx.wf(),
            doc_set(acc).finite(),
            k <= n,
            n == ctx.typo_docids@.len(),
            forall|x: u32|
                doc_set(acc).contains(x) <==> {
                    ||| exists|i: int|
                        0 <= i < ctx.word_docids@.len() && (#[trigger] ctx.word_docids@[i]).0@
                            == term.word@ && doc_set(ctx.word_docids@[i].1).contains(x)
                    ||| exists|i: int|
                        0 <= i < k && (#[trigger] ctx.typo_docids@[i]).0@ == term.word@
                            && ctx.typo_docids@[i].1 <= term.nbr_typos && doc_set(
                            ctx.typo_docids@[i].2,
                        ).contains(x)
                },
        decreases n - k,
    {
        let entry = &ctx.typo_docids[k];
        if entry.1 <= term.nbr_typos && crate::matching_words::str_eq(
            entry.0.as_str(),
            term.word.as_str(),
        ) {
            rb_or_assign(&mut acc, &entry.2);
        }
        k += 1;
    }
    proof {
        assert(doc_set(acc) =~= term_doc_set(ctx, term.word@, term.nbr_typos));
    }
    acc
}

/// The documents of the universe matching every one of the first `upto`
/// terms within its typo budget.
pub open spec fn terms_doc_set(
    ctx: &SearchContext,
    terms: Seq<LocatedQueryTerm>,
    upto: int,
    universe: Set<u32>,
) -> Set<u32> {
    Set::new(
        |x: u32|
            universe.contains(x) && forall|i: int|
                0 <= i < upto ==> term_doc_set(ctx, (#[trigger] terms[i]).word@, terms[i].nbr_typos).contains(x),
    )
}

/// The documents matching every term of the first `upto` terms.
#[verifier::loop_isolation(false)]
fn docids_matching_terms(
    ctx: &SearchContext,
    terms: &Vec<LocatedQueryTerm>,
    upto: usize,
    universe: &roaring::RoaringBitmap,
) -> (r: roaring::RoaringBitmap)
    requires
        ctx.wf(),
        upto <= terms@.len(),
        doc_set(*universe).finite(),
    ensures
        doc_set(r).finite(),
        doc_set(r).subset_of(doc_set(*universe)),
        doc_set(r) == terms_doc_set(ctx, terms@, upto as int, doc_set(*universe)),
{
    let mut acc = rb_clone(universe);
    let mut k: usize = 0;
    while k < upto
        invariant
            ctx.wf(),
            doc_set(acc).finite(),
            doc_set(acc).subset_of(doc_set(*universe)),
            k <= upto,
            upto <= terms@.len(),
            doc_set(acc) == terms_doc_set(ctx, terms@, k as int, doc_set(*universe)),
        decreases upto - k,
    {
        let td = term_docids(ctx, &terms[k]);
        rb_and_assign(&mut acc, &td);
        proof {
            assert(doc_set(acc) =~= terms_doc_set(
                ctx,
                terms@,
                k + 1,
                doc_set(*universe),
            ));
        }
        k += 1;
    }
    proof {
        if upto == 0 {
            assert(doc_set(acc) =~= terms_doc_set(ctx, terms@, 0, doc_set(*universe)));
        }
    }
    acc
}

/// How many buckets of required-term matches the strategy yields: one per
/// droppable suffix where terms are dropped from the end, a single one
/// where every term is kept.
pub open spec fn words_rounds(strategy: TermsMatchingStrategy, n: int) -> int {
    match strategy {
        TermsMatchingStrategy::All => if n == 0 {
            0int
        } else {
            1int
        },
        TermsMatchingStrategy::Last => n,
    }
}

/// What is still unranked before round `j` of the words rule: the universe
/// minus every earlier round's matches.
pub open spec fn words_remaining(
    ctx: &SearchContext,
    terms: Seq<LocatedQueryTerm>,
    j: int,
    u: Set<u32>,
) -> Set<u32>
    decreases j,
{
    if j <= 0 {
        u
    } else {
        let prev = words_remaining(ctx, terms, j - 1, u);
        prev.difference(terms_doc_set(ctx, terms, terms.len() - (j - 1), prev))
    }
}

/// Buckets of the words rule: documents matching all terms first, then —
/// dropping terms from the end where the strategy allows it — ever fewer,
/// and finally everything left.
#[verifier::loop_isolation(false)]
fn words_buckets(
    ctx: &SearchContext,
    terms: &Vec<LocatedQueryTerm>,
    strategy: TermsMatchingStrategy,
    universe: &roaring::RoaringBitmap,
) -> (r: Vec<roaring::RoaringBitmap>)
    requires
        ctx.wf(),
        doc_set(*universe).finite(),
    ensures
        bucket_partition(doc_set(*universe), r@),
        r@.len() == words_rounds(strategy, terms@.len() as int) + 1,
        forall|j: int|
            0 <= j < r@.len() - 1 ==> doc_set(#[trigger] r@[j]) == terms_doc_set(
                ctx,
                terms@,
                terms@.len() - j,
                words_remaining(ctx, terms@, j, doc_set(*universe)),
            ),
        doc_set(r@[r@.len() - 1]) == words_remaining(
            ctx,
            terms@,
            words_rounds(strategy, terms@.len() as int),
            doc_set(*universe),
        ),
{
    let mut buckets: Vec<roaring::RoaringBitmap> = Vec::new();
    let mut remaining = rb_clone(universe);
    let ghost u = doc_set(*universe);
    let n = terms.len();
    let rounds: usize = match strategy {
        TermsMatchingStrategy::All => {
            if n == 0 {
                0
            } else {
                1
            }
        },
        TermsMatchingStrategy::Last => n,
    };
    let mut j: usize = 0;
    while j < rounds
        invariant
            ctx.wf(),
            rounds <= n == terms@.len(),
            j <= rounds,
            doc_set(remaining).finite(),
            doc_set(remaining).subset_of(u),
            forall|i: int|
                0 <= i < buckets@.len() ==> doc_set(#[trigger] buckets@[i]).finite() && doc_set(
                    buckets@[i],
                ).subset_of(u),
            forall|i: int, i2: int|
                0 <= i < i2 < buckets@.len() ==> doc_set(#[trigger] buckets@[i]).disjoint(
                    doc_set(#[trigger] buckets@[i2]),
                ),
            forall|i: int|
                0 <= i < buckets@.len() ==> doc_set(#[trigger] buckets@[i]).disjoint(
                    doc_set(remaining),
                ),
            forall|x: u32|
                u.contains(x) ==> doc_set(remaining).contains(x) || exists|i: int|
                    0 <= i < buckets@.len() && doc_set(#[trigger] buckets@[i]).contains(x),
            buckets@.len() == j,
            doc_set(remaining) == words_remaining(ctx, terms@, j as int, u),
            forall|jj: int|
                0 <= jj < j ==> doc_set(#[trigger] buckets@[jj]) == terms_doc_set(
                    ctx,
                    terms@,
                    n - jj,
                    words_remaining(ctx, terms@, jj, u),
                ),
        decreases rounds - j,
    {
        let ghost pre_remaining = doc_set(remaining);
        let ghost pre_buckets = buckets@;
        let matched = docids_matching_terms(ctx, terms, n - j, &remaining);
        let mut rest = remaining;
        rb_sub_assign(&mut rest, &matched);
        buckets.push(matched);
        remaining = rest;
        proof {
            assert forall|x: u32|
                u.contains(x) implies doc_set(remaining).contains(x) || exists|i: int|
                0 <= i < buckets@.len() && doc_set(#[trigger] buckets@[i]).contains(x) by {
                if !doc_set(remaining).contains(x) {
                    if pre_remaining.contains(x) {
                        assert(doc_set(buckets@[buckets@.len() - 1]).contains(x));
                    } else {
                        let i = choose|i: int|
                            0 <= i < pre_buckets.len() && doc_set(
                                #[trigger] pre_buckets[i],
                            ).contains(x);
                        assert(doc_set(buckets@[i]).contains(x));
                    }
                }
            }
        }
        j += 1;
    }
    let ghost final_pre = buckets@;
    let ghost final_rem = doc_set(remaining);
    buckets.push(remaining);
    proof {
        assert forall|x: u32| u.contains(x) implies exists|i: int|
            0 <= i < buckets@.len() && doc_set(#[trigger] buckets@[i]).contains(x) by {
            if final_rem.contains(x) {
                assert(doc_set(buckets@[buckets@.len() - 1]).contains(x));
            } else {
                let i = choose|i: int|
                    0 <= i < final_pre.len() && doc_set(#[trigger] final_pre[i]).contains(x);
                assert(doc_set(buckets@[i]).contains(x));
            }
        }
    }
    buckets
}

/// The field carries a sortable value for this document.
pub open spec fn field_keyed(ctx: &SearchContext, field: Seq<char>, d: u32) -> bool {
    exists|i: int, k: int|
        0 <= i < ctx.sort_values@.len() && (#[trigger] ctx.sort_values@[i]).0@ == field && 0 <= k
            < ctx.sort_values@[i].1@.len() && (#[trigger] ctx.sort_values@[i].1@[k]).0 == d
}

/// The listed pairs hold a key for this document.
pub open spec fn pair_listed(pairs: Seq<(u32, i64)>, d: u32) -> bool {
    exists|t: int| 0 <= t < pairs.len() && (#[trigger] pairs[t]).0 == d
}

/// Buckets of a sort rule: documents carrying the extreme key first, group
/// by group, and the documents without a key last.
#[verifier::loop_isolation(false)]
fn sort_buckets(
    ctx: &SearchContext,
    field: &String,
    ascending: bool,
    universe: &roaring::RoaringBitmap,
) -> (r: Vec<roaring::RoaringBitmap>)
    requires
        ctx.wf(),
        doc_set(*universe).finite(),
    ensures
        bucket_partition(doc_set(*universe), r@),
        forall|j: int, d: u32|
            0 <= j < r@.len() - 1 && #[trigger] doc_set(r@[j]).contains(d) ==> field_keyed(
                ctx,
                field@,
                d,
            ),
        forall|d: u32|
            #[trigger] doc_set(r@[r@.len() - 1]).contains(d) ==> !field_keyed(ctx, field@, d),
{
    // The sortable values of the field, if any are declared.
    let mut pairs: Vec<(u32, i64)> = Vec::new();
    let nf = ctx.sort_values.len();
    let mut k: usize = 0;
    while k < nf
        invariant
            k <= nf,
            nf == ctx.sort_values@.len(),
            forall|t2: int|
                0 <= t2 < pairs@.len() ==> field_keyed(ctx, field@, (#[trigger] pairs@[t2]).0),
            forall|i: int, k2: int|
                0 <= i < k && ctx.sort_values@[i].0@ == field@ && 0 <= k2
                    < ctx.sort_values@[i].1@.len() ==> pair_listed(
                    pairs@,
                    (#[trigger] ctx.sort_values@[i].1@[k2]).0,
                ),
        decreases nf - k,
    {
        let ghost row_pre = pairs@;
        if crate::matching_words::str_eq(ctx.sort_values[k].0.as_str(), field.as_str()) {
            let src = &ctx.sort_values[k].1;
            let m = src.len();
            let mut t: usize = 0;
            while t < m
                invariant
                    t <= m,
                    m == src@.len(),
                    k < nf,
                    src@ == ctx.sort_values@[k as int].1@,
                    ctx.sort_values@[k as int].0@ == field@,
                    pairs@.len() >= row_pre.len(),
                    forall|t2: int| 0 <= t2 < row_pre.len() ==> pairs@[t2] == row_pre[t2],
                    forall|t2: int|
                        0 <= t2 < pairs@.len() ==> field_keyed(
                            ctx,
                            field@,
                            (#[trigger] pairs@[t2]).0,
                        ),
                    forall|k2: int|
                        0 <= k2 < t ==> pair_listed(
                            pairs@,
                            (#[trigger] ctx.sort_values@[k as int].1@[k2]).0,
                        ),
                decreases m - t,
            {
                let ghost pre = pairs@;
                pairs.push(src[t]);
                proof {
                    assert(pairs@[pairs@.len() - 1] == ctx.sort_values@[k as int].1@[t as int]);
                    assert forall|k2: int| 0 <= k2 < t + 1 implies pair_listed(
                        pairs@,
                        (#[trigger] ctx.sort_values@[k as int].1@[k2]).0,
                    ) by {
                        if k2 < t {
                            let t2 = choose|t2: int|
                                0 <= t2 < pre.len() && (#[trigger] pre[t2]).0
                                    == ctx.sort_values@[k as int].1@[k2].0;
                            assert(pairs@[t2] == pre[t2]);
                        } else {
                            assert(pairs@[pairs@.len() - 1].0
                                == ctx.sort_values@[k as int].1@[k2].0);
                        }
                    }
                }
                t += 1;
            }
        }
        proof {
            assert forall|i: int, k2: int|
                0 <= i < k + 1 && ctx.sort_values@[i].0@ == field@ && 0 <= k2
                    < ctx.sort_values@[i].1@.len() implies pair_listed(
                pairs@,
                (#[trigger] ctx.sort_values@[i].1@[k2]).0,
            ) by {
                if i < k {
                    let t2 = choose|t2: int|
                        0 <= t2 < row_pre.len() && (#[trigger] row_pre[t2]).0
                            == ctx.sort_values@[i].1@[k2].0;
                    assert(pairs@[t2] == row_pre[t2]);
                }
            }
        }
        k += 1;
    }
    proof {
        assert forall|d: u32| field_keyed(ctx, field@, d) implies pair_listed(pairs@, d) by {
            let (i, k2): (int, int) = choose|i: int, k2: int|
                0 <= i < ctx.sort_values@.len() && (#[trigger] ctx.sort_values@[i]).0@ == field@
                    && 0 <= k2 < ctx.sort_values@[i].1@.len() && (
                #[trigger] ctx.sort_values@[i].1@[k2]).0 == d;
        }
    }

    let mut buckets: Vec<roaring::RoaringBitmap> = Vec::new();
    let mut remaining = rb_clone(universe);
    let ghost u = doc_set(*universe);
    let mut more: bool = true;
    while more
        invariant
            doc_set(remaining).finite(),
            doc_set(remaining).subset_of(u),
            forall|i: int|
                0 <= i < buckets@.len() ==> doc_set(#[trigger] buckets@[i]).finite() && doc_set(
                    buckets@[i],
                ).subset_of(u),
            forall|i: int, i2: int|
                0 <= i < i2 < buckets@.len() ==> doc_set(#[trigger] buckets@[i]).disjoint(
                    doc_set(#[trigger] buckets@[i2]),
                ),
            forall|i: int|
                0 <= i < buckets@.len() ==> doc_set(#[trigger] buckets@[i]).disjoint(
                    doc_set(remaining),
                ),
            forall|x: u32|
                u.contains(x) ==> doc_set(remaining).contains(x) || exists|i: int|
                    0 <= i < buckets@.len() && doc_set(#[trigger] buckets@[i]).contains(x),
            forall|j: int, d: u32|
                0 <= j < buckets@.len() && #[trigger] doc_set(buckets@[j]).contains(d)
                    ==> pair_listed(pairs@, d),
            !more ==> forall|t2: int|
                0 <= t2 < pairs@.len() ==> !doc_set(remaining).contains(
                    (#[trigger] pairs@[t2]).0,
                ),
        decreases doc_set(remaining).len(), if more {
            1int
        } else {
            0int
        },
    {
        // Find the extreme key among the documents still unranked.
        let np = pairs.len();
        let mut best: Option<(u32, i64)> = None;
        let mut k2: usize = 0;
        while k2 < np
            invariant
                k2 <= np,
                np == pairs@.len(),
                best matches Some(p) ==> doc_set(remaining).contains(p.0) && pair_listed(
                    pairs@,
                    p.0,
                ),
                best is None ==> forall|t2: int|
                    0 <= t2 < k2 ==> !doc_set(remaining).contains((#[trigger] pairs@[t2]).0),
            decreases np - k2,
        {
            let (d, key) = pairs[k2];
            proof {
                assert(pairs@[k2 as int].0 == d);
            }
            if rb_contains(&remaining, d) {
                best = match best {
                    None => Some((d, key)),
                    Some((bd, bk)) => {
                        if (ascending && key < bk) || (!ascending && key > bk) {
                            Some((d, key))
                        } else {
                            Some((bd, bk))
                        }
                    },
                };
            }
            k2 += 1;
        }
        let (wd, wk) = match best {
            None => {
                more = false;
                continue ;
            },
            Some(p) => p,
        };

        // Gather the group of documents carrying the extreme key.
        let mut bucket = rb_new();
        let mut k3: usize = 0;
        while k3 < np
            invariant
                k3 <= np,
                np == pairs@.len(),
                doc_set(bucket).finite(),
                doc_set(bucket).subset_of(doc_set(remaining)),
                forall|d2: u32|
                    #[trigger] doc_set(bucket).contains(d2) ==> pair_listed(pairs@, d2),
            decreases np - k3,
        {
            let (d, key) = pairs[k3];
            proof {
                assert(pairs@[k3 as int].0 == d);
            }
            if key == wk && rb_contains(&remaining, d) {
                rb_insert(&mut bucket, d);
            }
            k3 += 1;
        }
        rb_insert(&mut bucket, wd);
        let ghost pre_remaining = doc_set(remaining);
        let ghost pre_buckets = buckets@;
        rb_sub_assign(&mut remaining, &bucket);
        proof {
            assert(doc_set(bucket).contains(wd));
            assert(!doc_set(remaining).contains(wd));
            lemma_len_subset(doc_set(remaining), pre_remaining);
            if doc_set(remaining).len() == pre_remaining.len() {
                lemma_same_len_subset_eq(doc_set(remaining), pre_remaining);
                assert(false);
            }
        }
        buckets.push(bucket);
        proof {
            assert forall|x: u32|
                u.contains(x) implies doc_set(remaining).contains(x) || exists|i: int|
                0 <= i < buckets@.len() && doc_set(#[trigger] buckets@[i]).contains(x) by {
                if !doc_set(remaining).contains(x) {
                    if pre_remaining.contains(x) {
                        assert(doc_set(buckets@[buckets@.len() - 1]).contains(x));
                    } else {
                        let i = choose|i: int|
                            0 <= i < pre_buckets.len() && doc_set(
                                #[trigger] pre_buckets[i],
                            ).contains(x);
                        assert(doc_set(buckets@[i]).contains(x));
                    }
                }
            }
        }
    }
    let ghost final_pre = buckets@;
    let ghost final_rem = doc_set(remaining);
    buckets.push(remaining);
    proof {
        assert forall|x: u32| u.contains(x) implies exists|i: int|
            0 <= i < buckets@.len() && doc_set(#[trigger] buckets@[i]).contains(x) by {
            if final_rem.contains(x) {
                assert(doc_set(buckets@[buckets@.len() - 1]).contains(x));
            } else {
                let i = choose|i: int|
                    0 <= i < final_pre.len() && doc_set(#[trigger] final_pre[i]).contains(x);
                assert(doc_set(buckets@[i]).contains(x));
            }
        }
        assert forall|j: int, d: u32|
            0 <= j < buckets@.len() - 1 && #[trigger] doc_set(buckets@[j]).contains(
                d,
            ) implies field_keyed(ctx, field@, d) by {
            assert(doc_set(final_pre[j]).contains(d));
            assert(pair_listed(pairs@, d));
            let t2 = choose|t2: int| 0 <= t2 < pairs@.len() && (#[trigger] pairs@[t2]).0 == d;
            assert(field_keyed(ctx, field@, pairs@[t2].0));
        }
        assert forall|d: u32|
            #[trigger] doc_set(buckets@[buckets@.len() - 1]).contains(d) implies !field_keyed(
            ctx,
            field@,
            d,
        ) by {
            if field_keyed(ctx, field@, d) {
                assert(pair_listed(pairs@, d));
                let t2 = choose|t2: int| 0 <= t2 < pairs@.len() && (#[trigger] pairs@[t2]).0 == d;
                assert(!final_rem.contains(pairs@[t2].0));
            }
        }
    }
    buckets
}

/// A proper subset of a finite set is strictly smaller.
pub proof fn lemma_same_len_subset_eq(a: Set<u32>, b: Set<u32>)
    requires
        b.finite(),
        a.subset_of(b),
        a.len() == b.len(),
    ensures
        a == b,
    decreases b.len(),
{
    if b.is_empty() {
        assert(a =~= b);
    } else {
        let x = b.choose();
        if a.contains(x) {
            lemma_same_len_subset_eq(a.remove(x), b.remove(x));
            assert(a =~= a.remove(x).insert(x));
            assert(b =~= b.remove(x).insert(x));
        } else {
            lemma_len_subset(a, b.remove(x));
            lemma_len_subset(a, b);
            assert(false);
        }
    }
}

/// The handler the graph-based rules hand to the path visitor: it unions,
/// over every delivered path, the documents satisfying all of the path's
/// conditions, never leaving the universe it was given.
struct CollectHandler {
    bucket: roaring::RoaringBitmap,
    bucket_universe: roaring::RoaringBitmap,
    condition_docids: Vec<roaring::RoaringBitmap>,
    base: Ghost<RankingRuleGraph>,
    cost: Ghost<u64>,
    log: Ghost<Seq<Seq<usize>>>,
}

impl PathHandler for CollectHandler {
    closed spec fn base_graph(&self) -> RankingRuleGraph {
        self.base@
    }

    closed spec fn budget(&self) -> u64 {
        self.cost@
    }

    closed spec fn inv(&self) -> bool {
        &&& doc_set(self.bucket).finite()
        &&& doc_set(self.bucket_universe).finite()
        &&& doc_set(self.bucket).subset_of(doc_set(self.bucket_universe))
        &&& self.condition_docids@.len() == self.base@.num_conditions
        &&& forall|c: int|
            0 <= c < self.condition_docids@.len() ==> doc_set(
                #[trigger] self.condition_docids@[c],
            ).finite()
    }

    closed spec fn universe(&self) -> Set<u32> {
        doc_set(self.bucket_universe)
    }

    closed spec fn deliveries(&self) -> Seq<Seq<usize>> {
        self.log@
    }

    closed spec fn stopped(&self) -> bool {
        false
    }

    fn handle_path(&mut self, path: &Vec<usize>, ctx: VisitorContext) -> (r: (
        VisitorControl,
        VisitorContext,
    )) {
        proof {
            self.log@ = self.log@.push(path@);
        }
        let mut docids = rb_clone(&self.bucket_universe);
        let n = path.len();
        let mut k: usize = 0;
        while k < n
            invariant
                n == path@.len(),
                doc_set(docids).finite(),
                doc_set(docids).subset_of(doc_set(self.bucket_universe)),
                self.inv(),
                self.bucket == old(self).bucket,
                self.bucket_universe == old(self).bucket_universe,
                self.condition_docids == old(self).condition_docids,
                self.base == old(self).base,
                self.cost == old(self).cost,
                self.log@ == old(self).log@.push(path@),
            decreases n - k,
        {
            let c = path[k];
            if c < self.condition_docids.len() {
                rb_and_assign(&mut docids, &self.condition_docids[c]);
            }
            k += 1;
        }
        rb_or_assign(&mut self.bucket, &docids);
        (VisitorControl::Continue, ctx)
    }
}

/// Buckets of a graph-based rule (typo or proximity): for each total cost
/// in increasing order, the documents reachable through some path of that
/// cost that are not yet ranked; the documents reached by no path last.
#[verifier::loop_isolation(false)]
fn graph_rule_buckets(
    terms: &Vec<LocatedQueryTerm>,
    edge_options: Vec<Vec<(u64, roaring::RoaringBitmap)>>,
    universe: &roaring::RoaringBitmap,
) -> (r: Vec<roaring::RoaringBitmap>)
    requires
        terms@.len() + 2 <= MAX_NODES,
        edge_options@.len() == terms@.len() + 1,
        doc_set(*universe).finite(),
        forall|i: int, k: int|
            0 <= i < edge_options@.len() && 0 <= k < edge_options@[i]@.len() ==> doc_set(
                (#[trigger] edge_options@[i]@[k]).1,
            ).finite(),
    ensures
        bucket_partition(doc_set(*universe), r@),
{
    let query_graph = QueryGraph::from_query(terms);
    let n_nodes = query_graph.nodes.len();

    // Assemble the edge arena: conditioned edges per option, and a free
    // edge wherever a hop offers no option — the last hop, into `End`,
    // always free.
    let mut edges: Vec<Edge> = Vec::new();
    let mut condition_docids: Vec<roaring::RoaringBitmap> = Vec::new();
    let n_hops = edge_options.len();
    let mut edge_options = edge_options;
    let mut i: usize = 0;
    while i < n_hops
        invariant
            n_hops == terms@.len() + 1,
            n_nodes == terms@.len() + 2,
            n_nodes == query_graph.num_nodes(),
            query_graph.wf(),
            forall|a: int, b: int|
                query_graph.edge(a, b) <==> (0 <= a && b == a + 1 && b < query_graph.num_nodes()),
            edge_options@.len() == n_hops,
            i <= n_hops,
            forall|e: int|
                0 <= e < edges@.len() ==> crate::ranking_rule_graph::edge_ok(
                    &query_graph,
                    #[trigger] edges@[e],
                    condition_docids@.len() as int,
                ),
            forall|c: int|
                0 <= c < condition_docids@.len() ==> doc_set(
                    #[trigger] condition_docids@[c],
                ).finite(),
            forall|i2: int, k: int|
                0 <= i2 < edge_options@.len() && 0 <= k < edge_options@[i2]@.len() ==> doc_set(
                    (#[trigger] edge_options@[i2]@[k]).1,
                ).finite(),
        decreases n_hops - i,
    {
        let opts = &edge_options[i];
        let n_opts = opts.len();
        if n_opts == 0 || i + 1 == n_hops {
            edges.push(
                Edge {
                    source_node: i,
                    dest_node: i + 1,
                    cost: 0,
                    condition: None,
                    nodes_to_skip: SmallBitmap::new(n_nodes),
                },
            );
        } else {
            let mut k: usize = 0;
            while k < n_opts
                invariant
                    n_hops == terms@.len() + 1,
                    n_nodes == terms@.len() + 2,
                    n_nodes == query_graph.num_nodes(),
                    query_graph.wf(),
                    forall|a: int, b: int|
                        query_graph.edge(a, b) <==> (0 <= a && b == a + 1 && b
                            < query_graph.num_nodes()),
                    i + 1 < n_hops,
                    i < edge_options@.len(),
                    k <= n_opts,
                    n_opts == edge_options@[i as int]@.len(),
                    forall|e: int|
                        0 <= e < edges@.len() ==> crate::ranking_rule_graph::edge_ok(
                            &query_graph,
                            #[trigger] edges@[e],
                            condition_docids@.len() as int,
                        ),
                    forall|c: int|
                        0 <= c < condition_docids@.len() ==> doc_set(
                            #[trigger] condition_docids@[c],
                        ).finite(),
                    forall|i2: int, k2: int|
                        0 <= i2 < edge_options@.len() && 0 <= k2 < edge_options@[i2]@.len()
                            ==> doc_set((#[trigger] edge_options@[i2]@[k2]).1).finite(),
                decreases n_opts - k,
            {
                let cost_raw = edge_options[i][k].0;
                let cost = if cost_raw > MAX_EDGE_COST {
                    MAX_EDGE_COST
                } else {
                    cost_raw
                };
                let cond_id = condition_docids.len();
                condition_docids.push(rb_clone(&edge_options[i][k].1));
                edges.push(
                    Edge {
                        source_node: i,
                        dest_node: i + 1,
                        cost,
                        condition: Some(cond_id),
                        nodes_to_skip: SmallBitmap::new(n_nodes),
                    },
                );
                k += 1;
            }
        }
        i += 1;
    }

    let num_conditions = condition_docids.len();
    let built = RankingRuleGraph::build(query_graph, edges, num_conditions);
    let mut graph = match built {
        Ok(g) => g,
        Err(_) => {
            // Unreachable: every assembled edge is admissible.
            let mut only: Vec<roaring::RoaringBitmap> = Vec::new();
            only.push(rb_clone(universe));
            proof {
                assert forall|x: u32| doc_set(*universe).contains(x) implies exists|b: int|
                    0 <= b < only@.len() && doc_set(#[trigger] only@[b]).contains(x) by {
                    assert(doc_set(only@[0]).contains(x));
                }
            }
            return only;
        },
    };

    // Enumerate the costs in increasing order; each productive cost forms
    // the next bucket out of the documents its paths can still claim.
    let initial_table = graph.find_all_costs_to_end();
    let root_costs = &initial_table[0];
    let max_cost: u64 = if root_costs.len() == 0 {
        0
    } else {
        root_costs[root_costs.len() - 1]
    };

    let mut buckets: Vec<roaring::RoaringBitmap> = Vec::new();
    let mut remaining = rb_clone(universe);
    let ghost u = doc_set(*universe);
    let mut cache = DeadEndsCache::new(num_conditions);
    proof {
        if initial_table@.len() > 0 && initial_table@[0]@.len() > 0 {
            let mapped = initial_table@.map_values(|row: Vec<u64>| row@);
            assert(mapped[0] == initial_table@[0]@);
        }
    }
    let mut cost: u64 = 0;
    let mut more: bool = true;
    while more
        invariant
            doc_set(remaining).finite(),
            doc_set(remaining).subset_of(u),
            u == doc_set(*universe),
            graph.wf(),
            graph.num_conditions == num_conditions,
            cache.wf(),
            cache.num_conditions == num_conditions,
            condition_docids@.len() == num_conditions,
            forall|c: int|
                0 <= c < condition_docids@.len() ==> doc_set(
                    #[trigger] condition_docids@[c],
                ).finite(),
            cost <= max_cost,
            more ==> cost <= max_cost,
            forall|i2: int|
                0 <= i2 < buckets@.len() ==> doc_set(#[trigger] buckets@[i2]).finite() && doc_set(
                    buckets@[i2],
                ).subset_of(u),
            forall|i2: int, j2: int|
                0 <= i2 < j2 < buckets@.len() ==> doc_set(#[trigger] buckets@[i2]).disjoint(
                    doc_set(#[trigger] buckets@[j2]),
                ),
            forall|i2: int|
                0 <= i2 < buckets@.len() ==> doc_set(#[trigger] buckets@[i2]).disjoint(
                    doc_set(remaining),
                ),
            forall|x: u32|
                u.contains(x) ==> doc_set(remaining).contains(x) || exists|i2: int|
                    0 <= i2 < buckets@.len() && doc_set(#[trigger] buckets@[i2]).contains(x),
        decreases max_cost - cost, if more {
            1int
        } else {
            0int
        },
    {
        let table = graph.find_all_costs_to_end();
        let visitor = PathVisitor::new(cost, graph, table, cache);
        let handler = CollectHandler {
            bucket: rb_new(),
            bucket_universe: rb_clone(&remaining),
            condition_docids,
            base: Ghost(visitor.base_graph()),
            cost: Ghost(cost),
            log: Ghost(Seq::empty()),
        };
        let (handler, graph2, cache2) = visitor.visit_paths(handler);
        let CollectHandler { bucket, bucket_universe: _, condition_docids: cd, .. } = handler;
        condition_docids = cd;
        graph = graph2;
        cache = cache2;

        let ghost pre_remaining = doc_set(remaining);
        let ghost pre_buckets = buckets@;
        let mut rest = remaining;
        rb_sub_assign(&mut rest, &bucket);
        buckets.push(bucket);
        remaining = rest;
        proof {
            assert forall|x: u32|
                u.contains(x) implies doc_set(remaining).contains(x) || exists|i2: int|
                0 <= i2 < buckets@.len() && doc_set(#[trigger] buckets@[i2]).contains(x) by {
                if !doc_set(remaining).contains(x) {
                    if pre_remaining.contains(x) {
                        assert(doc_set(buckets@[buckets@.len() - 1]).contains(x));
                    } else {
                        let i2 = choose|i2: int|
                            0 <= i2 < pre_buckets.len() && doc_set(
                                #[trigger] pre_buckets[i2],
                            ).contains(x);
                        assert(doc_set(buckets@[i2]).contains(x));
                    }
                }
            }
        }
        if cost >= max_cost {
            more = false;
        } else {
            cost = cost + 1;
        }
    }
    let ghost final_pre = buckets@;
    let ghost final_rem = doc_set(remaining);
    buckets.push(remaining);
    proof {
        assert forall|x: u32| u.contains(x) implies exists|i2: int|
            0 <= i2 < buckets@.len() && doc_set(#[trigger] buckets@[i2]).contains(x) by {
            if final_rem.contains(x) {
                assert(doc_set(buckets@[buckets@.len() - 1]).contains(x));
            } else {
                let i2 = choose|i2: int|
                    0 <= i2 < final_pre.len() && doc_set(#[trigger] final_pre[i2]).contains(x);
                assert(doc_set(buckets@[i2]).contains(x));
            }
        }
    }
    buckets
}

/// The edge options of the typo rule: entering a term costs its accepted
/// typo count, one option per admissible count.
#[verifier::loop_isolation(false)]
fn typo_edge_options(ctx: &SearchContext, terms: &Vec<LocatedQueryTerm>) -> (r: Vec<
    Vec<(u64, roaring::RoaringBitmap)>,
>)
    requires
        ctx.wf(),
    ensures
        r@.len() == terms@.len() + 1,
        forall|i: int, k: int|
            0 <= i < r@.len() && 0 <= k < r@[i]@.len() ==> doc_set(
                (#[trigger] r@[i]@[k]).1,
            ).finite(),
{
    let n = terms.len();
    let mut r: Vec<Vec<(u64, roaring::RoaringBitmap)>> = Vec::new();
    let mut i: usize = 0;
    while i < n
        invariant
            ctx.wf(),
            n == terms@.len(),
            i <= n,
            r@.len() == i,
            forall|i2: int, k: int|
                0 <= i2 < r@.len() && 0 <= k < r@[i2]@.len() ==> doc_set(
                    (#[trigger] r@[i2]@[k]).1,
                ).finite(),
        decreases n - i,
    {
        let mut opts: Vec<(u64, roaring::RoaringBitmap)> = Vec::new();
        let m = ctx.typo_docids.len();
        let mut k: usize = 0;
        while k < m
            invariant
                ctx.wf(),
                i < n == terms@.len(),
                k <= m,
                m == ctx.typo_docids@.len(),
                forall|k2: int|
                    0 <= k2 < opts@.len() ==> doc_set((#[trigger] opts@[k2]).1).finite(),
            decreases m - k,
        {
            let entry = &ctx.typo_docids[k];
            if entry.1 <= terms[i].nbr_typos && crate::matching_words::str_eq(
                entry.0.as_str(),
                terms[i].word.as_str(),
            ) {
                opts.push((entry.1 as u64, rb_clone(&entry.2)));
            }
            k += 1;
        }
        r.push(opts);
        i += 1;
    }
    r.push(Vec::new());
    r
}

/// The edge options of the proximity rule: entering a term after its
/// predecessor costs the distance at which the pair occurs, one option per
/// recorded distance.
#[verifier::loop_isolation(false)]
fn proximity_edge_options(ctx: &SearchContext, terms: &Vec<LocatedQueryTerm>) -> (r: Vec<
    Vec<(u64, roaring::RoaringBitmap)>,
>)
    requires
        ctx.wf(),
    ensures
        r@.len() == terms@.len() + 1,
        forall|i: int, k: int|
            0 <= i < r@.len() && 0 <= k < r@[i]@.len() ==> doc_set(
                (#[trigger] r@[i]@[k]).1,
            ).finite(),
{
    let n = terms.len();
    let mut r: Vec<Vec<(u64, roaring::RoaringBitmap)>> = Vec::new();
    // Entering the first term has no preceding pair: a free hop.
    r.push(Vec::new());
    let mut i: usize = 1;
    while i < n
        invariant
            ctx.wf(),
            n == terms@.len(),
            1 <= i,
            n > 0 ==> i <= n,
            n == 0 ==> i == 1,
            r@.len() == i,
            forall|i2: int, k: int|
                0 <= i2 < r@.len() && 0 <= k < r@[i2]@.len() ==> doc_set(
                    (#[trigger] r@[i2]@[k]).1,
                ).finite(),
        decreases n - i,
    {
        let mut opts: Vec<(u64, roaring::RoaringBitmap)> = Vec::new();
        let m = ctx.proximity_docids.len();
        let mut k: usize = 0;
        while k < m
            invariant
                ctx.wf(),
                1 <= i < n == terms@.len(),
                k <= m,
                m == ctx.proximity_docids@.len(),
                forall|k2: int|
                    0 <= k2 < opts@.len() ==> doc_set((#[trigger] opts@[k2]).1).finite(),
            decreases m - k,
        {
            let entry = &ctx.proximity_docids[k];
            if crate::matching_words::str_eq(entry.0.as_str(), terms[i - 1].word.as_str())
                && crate::matching_words::str_eq(entry.1.as_str(), terms[i].word.as_str()) {
                opts.push((entry.2 as u64, rb_clone(&entry.3)));
            }
            k += 1;
        }
        r.push(opts);
        i += 1;
    }
    if n > 0 {
        // Entering `End` is always free.
        r.push(Vec::new());
    }
    r
}

/// The documents matching every query word exactly.
#[verifier::loop_isolation(false)]
fn exact_words_docids(
    ctx: &SearchContext,
    terms: &Vec<LocatedQueryTerm>,
    universe: &roaring::RoaringBitmap,
) -> (r: roaring::RoaringBitmap)
    requires
        ctx.wf(),
        doc_set(*universe).finite(),
    ensures
        doc_set(r).finite(),
{
    let mut acc = rb_clone(universe);
    let n = terms.len();
    let mut i: usize = 0;
    while i < n
        invariant
            ctx.wf(),
            n == terms@.len(),
            i <= n,
            doc_set(acc).finite(),
        decreases n - i,
    {
        let mut word_docs = rb_new();
        let m = ctx.exact_word_docids.len();
        let mut k: usize = 0;
        while k < m
            invariant
                ctx.wf(),
                i < n == terms@.len(),
                k <= m,
                m == ctx.exact_word_docids@.len(),
                doc_set(word_docs).finite(),
            decreases m - k,
        {
            let entry = &ctx.exact_word_docids[k];
            if crate::matching_words::str_eq(entry.0.as_str(), terms[i].word.as_str()) {
                rb_or_assign(&mut word_docs, &entry.1);
            }
            k += 1;
        }
        rb_and_assign(&mut acc, &word_docs);
        i += 1;
    }
    acc
}

/// The ordered buckets of one ranking rule over a universe.
fn buckets_of_rule(
    ctx: &SearchContext,
    rule: &RankingRule,
    terms: &Vec<LocatedQueryTerm>,
    universe: &roaring::RoaringBitmap,
) -> (r: Vec<roaring::RoaringBitmap>)
    requires
        ctx.wf(),
        doc_set(*universe).finite(),
        terms@.len() + 2 <= MAX_NODES,
    ensures
        bucket_partition(doc_set(*universe), r@),
{
    match rule {
        RankingRule::Words(strategy) => words_buckets(ctx, terms, *strategy, universe),
        RankingRule::Typo => {
            let options = typo_edge_options(ctx, terms);
            graph_rule_buckets(terms, options, universe)
        },
        RankingRule::Proximity => {
            let options = proximity_edge_options(ctx, terms);
            graph_rule_buckets(terms, options, universe)
        },
        RankingRule::ExactAttribute => {
            let empty: Vec<roaring::RoaringBitmap> = Vec::new();
            let r = push_two_way_split(
                empty,
                rb_clone(universe),
                &ctx.exact_attribute_docids,
            );
            proof {
                lemma_two_way_partition(doc_set(*universe), r@);
            }
            r
        },
        RankingRule::Exactness => {
            let marker = exact_words_docids(ctx, terms, universe);
            let empty: Vec<roaring::RoaringBitmap> = Vec::new();
            let r = push_two_way_split(empty, rb_clone(universe), &marker);
            proof {
                lemma_two_way_partition(doc_set(*universe), r@);
            }
            r
        },
        RankingRule::Sort { field, ascending } => sort_buckets(ctx, field, *ascending, universe),
    }
}

/// A two-element split into "inside" and "outside" is a partition.
proof fn lemma_two_way_partition(universe: Set<u32>, bs: Seq<roaring::RoaringBitmap>)
    requires
        universe.finite(),
        bs.len() == 2,
        doc_set(bs[0]).finite(),
        doc_set(bs[1]).finite(),
        exists|m: Set<u32>|
            doc_set(bs[0]) == universe.intersect(m) && doc_set(bs[1]) == universe.difference(m),
    ensures
        bucket_partition(universe, bs),
{
    let m = choose|m: Set<u32>|
        doc_set(bs[0]) == universe.intersect(m) && doc_set(bs[1]) == universe.difference(m);
    assert forall|x: u32| universe.contains(x) implies exists|i: int|
        0 <= i < bs.len() && doc_set(#[trigger] bs[i]).contains(x) by {
        if m.contains(x) {
            assert(doc_set(bs[0]).contains(x));
        } else {
            assert(doc_set(bs[1]).contains(x));
        }
    }
}

/// How much of the window `[from, from + length)` the first `pos` ranked
/// documents fill.
pub open spec fn win(from: int, length: int, pos: int) -> int {
    if pos <= from {
        0
    } else if pos >= from + length {
        length
    } else {
        pos - from
    }
}

pub open spec fn distinct_ids(v: Seq<u32>) -> bool {
    forall|i: int, j: int| 0 <= i < j < v.len() ==> v[i] != v[j]
}

/// The part of the universe covered by the first `k` buckets.
pub open spec fn set_union_prefix(bs: Seq<roaring::RoaringBitmap>, k: int) -> Set<u32>
    decreases k,
{
    if k <= 0 {
        Set::empty()
    } else {
        set_union_prefix(bs, k - 1).union(doc_set(bs[k - 1]))
    }
}

proof fn lemma_union_prefix_contains(bs: Seq<roaring::RoaringBitmap>, k: int, x: u32)
    requires
        0 <= k <= bs.len(),
    ensures
        set_union_prefix(bs, k).contains(x) <==> exists|i: int|
            0 <= i < k && doc_set(#[trigger] bs[i]).contains(x),
    decreases k,
{
    if k > 0 {
        lemma_union_prefix_contains(bs, k - 1, x);
    }
}

proof fn lemma_union_prefix_finite(bs: Seq<roaring::RoaringBitmap>, k: int)
    requires
        0 <= k <= bs.len(),
        forall|i: int| 0 <= i < bs.len() ==> doc_set(#[trigger] bs[i]).finite(),
    ensures
        set_union_prefix(bs, k).finite(),
    decreases k,
{
    if k > 0 {
        lemma_union_prefix_finite(bs, k - 1);
    }
}

/// Ranks the whole universe at rule `level` and below into logical
/// positions starting at `cur_offset`, appending to `results` the
/// documents that land in the window; documents past the window's end are
/// counted, never ranked further.
#[verifier::loop_isolation(false)]
fn rank_universe(
    ctx: &SearchContext,
    rules: &Vec<RankingRule>,
    level: usize,
    universe: roaring::RoaringBitmap,
    terms: &Vec<LocatedQueryTerm>,
    from: u64,
    length: u64,
    cur_offset: u64,
    results: Vec<u32>,
) -> (r: (Vec<u32>, u64))
    requires
        ctx.wf(),
        doc_set(universe).finite(),
        terms@.len() + 2 <= MAX_NODES,
        level <= rules@.len(),
        from + length <= u64::MAX,
        cur_offset + doc_set(universe).len() <= u64::MAX,
        results@.len() == win(from as int, length as int, cur_offset as int),
        distinct_ids(results@),
        forall|i: int|
            0 <= i < results@.len() ==> !doc_set(universe).contains(#[trigger] results@[i]),
    ensures
        r.1 == cur_offset + doc_set(universe).len(),
        r.0@.len() == win(from as int, length as int, r.1 as int),
        distinct_ids(r.0@),
        forall|i: int| 0 <= i < results@.len() ==> r.0@[i] == results@[i],
        forall|i: int|
            results@.len() <= i < r.0@.len() ==> doc_set(universe).contains(#[trigger] r.0@[i]),
    decreases rules@.len() - level, doc_set(universe).len(),
{
    let mut results = results;
    let ghost orig_results = results@;
    let u_len = rb_len(&universe);
    if u_len == 0 {
        return (results, cur_offset);
    }
    if cur_offset >= from + length {
        // The window is already filled; the rest is only counted.
        return (results, cur_offset + u_len);
    }
    if level == rules.len() || u_len == 1 {
        // Default tie-break: ascending document id.
        let ids = rb_to_vec(&universe);
        let n = ids.len();
        let mut k: usize = 0;
        let mut pos: u64 = cur_offset;
        while k < n
            invariant
                n == ids@.len(),
                k <= n,
                pos == cur_offset + k,
                results@.len() == win(from as int, length as int, pos as int),
                distinct_ids(results@),
                forall|i: int, j: int|
                    0 <= i < results@.len() && k <= j < n ==> results@[i] != ids@[j],
                forall|i: int|
                    orig_results.len() <= i < results@.len() ==> doc_set(universe).contains(
                        #[trigger] results@[i],
                    ),
                forall|i: int| 0 <= i < orig_results.len() ==> results@[i] == orig_results[i],
            decreases n - k,
        {
            let id = ids[k];
            if pos >= from && pos < from + length {
                results.push(id);
            }
            pos = pos + 1;
            k += 1;
        }
        return (results, cur_offset + u_len);
    }

    let buckets = buckets_of_rule(ctx, &rules[level], terms, &universe);
    let nb = buckets.len();
    let ghost u = doc_set(universe);
    let mut k: usize = 0;
    let mut offset: u64 = cur_offset;
    let ghost mut covered: Set<u32> = Set::empty();
    while k < nb
        invariant
            nb == buckets@.len(),
            k <= nb,
            bucket_partition(u, buckets@),
            covered.finite(),
            covered.subset_of(u),
            offset == cur_offset + covered.len(),
            covered == set_union_prefix(buckets@, k as int),
            results@.len() == win(from as int, length as int, offset as int),
            distinct_ids(results@),
            forall|i: int, x: u32|
                0 <= i < results@.len() && u.contains(x) && !covered.contains(x)
                    ==> results@[i] != x,
            forall|i: int|
                orig_results.len() <= i < results@.len() ==> u.contains(#[trigger] results@[i]),
            forall|i: int| 0 <= i < orig_results.len() ==> results@[i] == orig_results[i],
        decreases nb - k,
    {
        let bucket_copy = rb_clone(&buckets[k]);
        let ghost b = doc_set(buckets@[k as int]);
        proof {
            // The bucket is untouched by the earlier ones, so its documents
            // extend the covered region by exactly its own size.
            assert forall|x: u32| b.contains(x) implies !covered.contains(x) by {
                if covered.contains(x) {
                    lemma_union_prefix_contains(buckets@, k as int, x);
                    let i = choose|i: int|
                        0 <= i < k && doc_set(#[trigger] buckets@[i]).contains(x);
                    assert(doc_set(buckets@[i]).disjoint(doc_set(buckets@[k as int])));
                }
            }
            lemma_len_disjoint_union(covered, b);
            lemma_len_subset(covered.union(b), u);
            assert forall|i: int| 0 <= i < results@.len() implies !b.contains(
                #[trigger] results@[i],
            ) by {
                if b.contains(results@[i]) {
                    assert(u.contains(results@[i]) && !covered.contains(results@[i]));
                }
            }
        }
        let ghost pre_results = results@;
        let (res2, off2) = rank_universe(
            ctx,
            rules,
            level + 1,
            bucket_copy,
            terms,
            from,
            length,
            offset,
            results,
        );
        results = res2;
        offset = off2;
        proof {
            covered = covered.union(b);
            assert forall|i: int, x: u32|
                0 <= i < results@.len() && u.contains(x) && !covered.contains(x) implies results@[i]
                != x by {
                if i < pre_results.len() {
                    assert(results@[i] == pre_results[i]);
                } else {
                    assert(b.contains(results@[i]));
                }
            }
            assert forall|i: int|
                orig_results.len() <= i < results@.len() implies u.contains(
                #[trigger] results@[i],
            ) by {
                if i >= pre_results.len() {
                    assert(b.contains(results@[i]));
                } else {
                    assert(results@[i] == pre_results[i]);
                    assert(u.contains(pre_results[i]));
                }
            }
        }
        k += 1;
    }
    proof {
        assert forall|x: u32| u.contains(x) implies covered.contains(x) by {
            let i = choose|i: int| 0 <= i < buckets@.len() && doc_set(#[trigger] buckets@[i]).contains(x);
            lemma_union_prefix_contains(buckets@, nb as int, x);
        }
        assert(covered =~= u);
    }
    (results, offset)
}

/// Composes the ordered ranking rules into the requested page of a fully
/// ranked ordering: rule by rule, each bucket is refined by the next rule
/// until the window `[from, from + length)` is filled, and nothing past
/// the window is ranked further. At most `length` documents come back,
/// all distinct members of the universe; a universe no larger than `from`
/// yields an empty window, and a large enough one fills it exactly.
pub fn bucket_sort(
    ctx: &SearchContext,
    ranking_rules: &Vec<RankingRule>,
    query_terms: &Vec<LocatedQueryTerm>,
    universe: &roaring::RoaringBitmap,
    from: usize,
    length: usize,
) -> (r: Vec<u32>)
    requires
        ctx.wf(),
        doc_set(*universe).finite(),
        query_terms@.len() + 2 <= MAX_NODES,
        from + length <= usize::MAX,
    ensures
        r@.len() == win(from as int, length as int, doc_set(*universe).len() as int),
        r@.len() <= length,
        doc_set(*universe).len() <= from ==> r@.len() == 0,
        distinct_ids(r@),
        forall|i: int| 0 <= i < r@.len() ==> doc_set(*universe).contains(#[trigger] r@[i]),
{
    // `rb_len` pins the universe's cardinality below `u64::MAX`, which the
    // offset arithmetic of the ranking recursion needs.
    let universe_len = rb_len(universe);
    proof {
        assert(doc_set(*universe).len() == universe_len);
    }
    let copy = rb_clone(universe);
    let (results, _) = rank_universe(
        ctx,
        ranking_rules,
        0,
        copy,
        query_terms,
        from as u64,
        length as u64,
        0,
        Vec::new(),
    );
    results
}

/// The final output of one search: the ranked window of document ids, the
/// full candidate set, and the matcher used to highlight snippets.
pub struct SearchResult {
    pub documents_ids: Vec<u32>,
    pub candidates: roaring::RoaringBitmap,
    pub matching_words: MatchingWords,
}

/// Applies the terms-matching strategy to the query graph and resolves the
/// reduced graph against the universe: the documents every non-dropped
/// term matches. Node removal keeps `Start` connected to `End`, so an
/// over-reduced query degrades to matching the whole universe, never to
/// matching nothing by accident.
#[verifier::loop_isolation(false)]
pub fn resolve_maximally_reduced_query_graph(
    ctx: &SearchContext,
    universe: &roaring::RoaringBitmap,
    terms: &Vec<LocatedQueryTerm>,
    matching_strategy: TermsMatchingStrategy,
) -> (r: roaring::RoaringBitmap)
    requires
        ctx.wf(),
        doc_set(*universe).finite(),
        terms@.len() + 2 <= MAX_NODES,
    ensures
        doc_set(r).finite(),
        doc_set(r).subset_of(doc_set(*universe)),
        matching_strategy is All ==> doc_set(r) == terms_doc_set(
            ctx,
            terms@,
            terms@.len() as int,
            doc_set(*universe),
        ),
        matching_strategy is Last ==> doc_set(r) == terms_doc_set(
            ctx,
            terms@,
            if terms@.len() == 0 {
                0int
            } else {
                1int
            },
            doc_set(*universe),
        ),
{
    let mut graph = QueryGraph::from_query(terms);
    let kept_terms: usize = match matching_strategy {
        TermsMatchingStrategy::All => terms.len(),
        TermsMatchingStrategy::Last => {
            // Drop optional terms from the end until one is left.
            let mut nodes_to_remove: Vec<usize> = Vec::new();
            let n = terms.len();
            let mut t: usize = 2;
            while t < n + 1
                invariant
                    n == terms@.len(),
                    n + 2 == graph.num_nodes(),
                    2 <= t,
                    n > 0 ==> t <= n + 1,
                    graph.wf(),
                    graph.connected(),
                    forall|i: int|
                        0 <= i < nodes_to_remove@.len() ==> 1 < (
                        #[trigger] nodes_to_remove@[i] as int) < graph.end(),
                decreases n + 1 - t,
            {
                nodes_to_remove.push(t);
                t += 1;
            }
            graph.remove_nodes_keep_edges(&nodes_to_remove);
            if n == 0 {
                0
            } else {
                1
            }
        },
    };
    docids_matching_terms(ctx, terms, kept_terms, universe)
}

/// Whether the requested sort passes `check_sort_criteria`.
pub open spec fn sort_request_ok(
    criteria: Seq<Criterion>,
    sortable_fields: Seq<String>,
    sort_criteria: Option<Vec<AscDesc>>,
) -> bool {
    match sort_criteria {
        None => true,
        Some(sc) => sc@.len() == 0 || (has_sort_position(criteria) && forall|i: int|
            0 <= i < sc@.len() ==> member_sortable(
                sortable_fields,
                (#[trigger] sc@[i]).spec_member(),
            )),
    }
}

/// Truncates the query to at most `limit` terms, keeping their order.
#[verifier::loop_isolation(false)]
fn truncate_terms(terms: &Vec<LocatedQueryTerm>, limit: usize) -> (r: Vec<LocatedQueryTerm>)
    ensures
        r@.len() == if limit <= terms@.len() {
            limit as int
        } else {
            terms@.len() as int
        },
        forall|i: int|
            0 <= i < r@.len() ==> (#[trigger] r@[i]).word@ == terms@[i].word@ && r@[i].nbr_typos
                == terms@[i].nbr_typos && r@[i].is_prefix == terms@[i].is_prefix,
{
    let take = if limit < terms.len() {
        limit
    } else {
        terms.len()
    };
    let mut r: Vec<LocatedQueryTerm> = Vec::new();
    let mut k: usize = 0;
    while k < take
        invariant
            take <= terms@.len(),
            k <= take,
            r@.len() == k,
            forall|i: int|
                0 <= i < k ==> (#[trigger] r@[i]).word@ == terms@[i].word@ && r@[i].nbr_typos
                    == terms@[i].nbr_typos && r@[i].is_prefix == terms@[i].is_prefix,
        decreases take - k,
    {
        let t = &terms[k];
        r.push(
            LocatedQueryTerm {
                word: t.word.clone(),
                nbr_typos: t.nbr_typos,
                is_prefix: t.is_prefix,
            },
        );
        k += 1;
    }
    r
}

/// How many of the query's terms the matching strategy requires.
pub open spec fn strategy_upto(strategy: TermsMatchingStrategy, n: int) -> int {
    match strategy {
        TermsMatchingStrategy::All => n,
        TermsMatchingStrategy::Last => if n == 0 {
            0int
        } else {
            1int
        },
    }
}

/// How many query terms take part once the word-count limit is applied.
pub open spec fn effective_terms(terms: Seq<LocatedQueryTerm>, words_limit: Option<usize>) -> int {
    match words_limit {
        None => terms.len() as int,
        Some(l) => if l <= terms.len() {
            l as int
        } else {
            terms.len() as int
        },
    }
}

/// The document universe a search starts from: the pre-evaluated filter,
/// or every document.
pub open spec fn base_universe(ctx: &SearchContext, filters: Option<roaring::RoaringBitmap>) -> Set<
    u32,
> {
    match filters {
        Some(f) => doc_set(f),
        None => doc_set(ctx.documents),
    }
}

/// The matched document set only reads each term's word and typo budget.
proof fn lemma_terms_doc_set_congruent(
    ctx: &SearchContext,
    a: Seq<LocatedQueryTerm>,
    b: Seq<LocatedQueryTerm>,
    upto: int,
    u: Set<u32>,
)
    requires
        upto <= a.len(),
        upto <= b.len(),
        forall|i: int|
            0 <= i < upto ==> (#[trigger] a[i]).word@ == b[i].word@ && a[i].nbr_typos
                == b[i].nbr_typos,
    ensures
        terms_doc_set(ctx, a, upto, u) == terms_doc_set(ctx, b, upto, u),
{
    assert forall|x: u32|
        terms_doc_set(ctx, a, upto, u).contains(x) == terms_doc_set(ctx, b, upto, u).contains(
        x,
    ) by {
        assert forall|i: int|
            0 <= i < upto implies term_doc_set(ctx, (#[trigger] a[i]).word@, a[i].nbr_typos)
            == term_doc_set(ctx, b[i].word@, b[i].nbr_typos) by {}
        if terms_doc_set(ctx, a, upto, u).contains(x) {
            assert forall|i: int|
                0 <= i < upto implies term_doc_set(
                ctx,
                (#[trigger] b[i]).word@,
                b[i].nbr_typos,
            ).contains(x) by {
                assert(term_doc_set(ctx, a[i].word@, a[i].nbr_typos).contains(x));
            }
        }
        if terms_doc_set(ctx, b, upto, u).contains(x) {
            assert forall|i: int|
                0 <= i < upto implies term_doc_set(
                ctx,
                (#[trigger] a[i]).word@,
                a[i].nbr_typos,
            ).contains(x) by {
                assert(term_doc_set(ctx, b[i].word@, b[i].nbr_typos).contains(x));
            }
        }
    }
    assert(terms_doc_set(ctx, a, upto, u) =~= terms_doc_set(ctx, b, upto, u));
}

/// A query term listed among the first `upto` terms, by word, typo budget
/// and prefix flag.
pub open spec fn term_entry(
    terms: Seq<LocatedQueryTerm>,
    upto: int,
    w: Seq<char>,
    t: u8,
    p: bool,
) -> bool {
    exists|i: int|
        0 <= i < upto && (#[trigger] terms[i]).word@ == w && terms[i].nbr_typos == t
            && terms[i].is_prefix == p
}

/// One query leaf per term, so the highlighter matches exactly the words
/// the query resolved to.
#[verifier::loop_isolation(false)]
fn query_tree_of_terms(terms: &Vec<LocatedQueryTerm>) -> (r: Operation)
    ensures
        forall|w: Seq<char>, t: u8, p: bool|
            crate::matching_words::query_in_tree(r, w, t, p) <==> term_entry(
                terms@,
                terms@.len() as int,
                w,
                t,
                p,
            ),
{
    let n = terms.len();
    let mut leaves: Vec<Operation> = Vec::new();
    let mut k: usize = 0;
    while k < n
        invariant
            n == terms@.len(),
            k <= n,
            leaves@.len() == k,
            forall|i: int|
                0 <= i < k ==> ((#[trigger] leaves@[i]) matches Operation::Query(q) && q.prefix
                    == terms@[i].is_prefix && q.kind.spec_word() == terms@[i].word@
                    && q.kind.spec_typo() == terms@[i].nbr_typos),
        decreases n - k,
    {
        let t = &terms[k];
        let kind = if t.nbr_typos == 0 {
            QueryKind::Exact { word: t.word.clone() }
        } else {
            QueryKind::Tolerant { typo: t.nbr_typos, word: t.word.clone() }
        };
        leaves.push(Operation::Query(Query { prefix: t.is_prefix, kind }));
        k += 1;
    }
    let r = Operation::And(leaves);
    proof {
        assert forall|w: Seq<char>, t2: u8, p: bool|
            crate::matching_words::query_in_tree(r, w, t2, p) == term_entry(
            terms@,
            terms@.len() as int,
            w,
            t2,
            p,
        ) by {
            if crate::matching_words::query_in_tree(r, w, t2, p) {
                let i = choose|i: int|
                    0 <= i < r->And_0@.len() && crate::matching_words::query_in_tree(
                        #[trigger] r->And_0@[i],
                        w,
                        t2,
                        p,
                    );
                assert(terms@[i].word@ == w && terms@[i].nbr_typos == t2 && terms@[i].is_prefix
                    == p);
            }
            if term_entry(terms@, terms@.len() as int, w, t2, p) {
                let i = choose|i: int|
                    0 <= i < terms@.len() && (#[trigger] terms@[i]).word@ == w
                        && terms@[i].nbr_typos == t2 && terms@[i].is_prefix == p;
                assert(crate::matching_words::query_in_tree(r->And_0@[i], w, t2, p));
                assert(exists|j: int|
                    0 <= j < r->And_0@.len() && crate::matching_words::query_in_tree(
                        #[trigger] r->And_0@[j],
                        w,
                        t2,
                        p,
                    ));
            }
        }
    }
    r
}

/// Executes one search over the per-query context: an optional tokenized
/// query, a matching strategy, an optional pre-evaluated filter, optional
/// sort directives, the requested window and an optional cap on the number
/// of query words considered. A query search first checks the sort
/// request, reduces the universe by the matching strategy, and
/// bucket-sorts with the query-graph rules; a placeholder search
/// bucket-sorts the plain universe with the sort-type rules only.
pub fn execute_search(
    ctx: &SearchContext,
    query: &Option<Vec<LocatedQueryTerm>>,
    terms_matching_strategy: TermsMatchingStrategy,
    filters: &Option<roaring::RoaringBitmap>,
    sort_criteria: &Option<Vec<AscDesc>>,
    from: usize,
    length: usize,
    words_limit: Option<usize>,
) -> (r: Result<SearchResult, UserError>)
    requires
        ctx.wf(),
        filters matches Some(f) ==> doc_set(*f).finite(),
        query matches Some(terms) ==> terms@.len() + 2 <= MAX_NODES,
        // A geo directive that survives the sort check is unsupported by
        // this pipeline; one that the check rejects is an ordinary user
        // error and is admitted.
        query is Some ==> (sort_criteria matches Some(sc) ==> forall|i: int|
            0 <= i < sc@.len() && ((#[trigger] sc@[i]).spec_member() is Geo)
                ==> !member_sortable(ctx.sortable_fields@, sc@[i].spec_member())),
        query is None ==> (sort_criteria matches Some(sc) ==> forall|i: int|
            0 <= i < sc@.len() ==> !((#[trigger] sc@[i]).spec_member() is Geo)),
        from + length <= usize::MAX,
    ensures
        query is None ==> r is Ok,
        query is Some ==> (r is Ok <==> sort_request_ok(
            ctx.criteria@,
            ctx.sortable_fields@,
            *sort_criteria,
        )),
        r matches Ok(res) ==> {
            &&& res.documents_ids@.len() == win(
                from as int,
                length as int,
                doc_set(res.candidates).len() as int,
            )
            &&& res.documents_ids@.len() <= length
            &&& doc_set(res.candidates).len() <= from ==> res.documents_ids@.len() == 0
            &&& distinct_ids(res.documents_ids@)
            &&& forall|i: int|
                0 <= i < res.documents_ids@.len() ==> doc_set(res.candidates).contains(
                    #[trigger] res.documents_ids@[i],
                )
        },
        query is None ==> (r matches Ok(res) ==> doc_set(res.candidates) == base_universe(
            ctx,
            *filters,
        ) && res.matching_words.words@.len() == 0),
        query matches Some(terms) ==> (r matches Ok(res) ==> {
            &&& doc_set(res.candidates) == terms_doc_set(
                ctx,
                terms@,
                strategy_upto(terms_matching_strategy, effective_terms(terms@, words_limit)),
                base_universe(ctx, *filters),
            )
            &&& sorted_by_len_desc(res.matching_words.words@)
            &&& forall|w: Seq<char>, t: u8, p: bool|
                entry_in(res.matching_words.words@, w, t, p) <==> term_entry(
                    terms@,
                    effective_terms(terms@, words_limit),
                    w,
                    t,
                    p,
                )
        }),
{
    let universe = match filters {
        Some(f) => rb_clone(f),
        None => rb_clone(&ctx.documents),
    };

    match query {
        Some(all_terms) => {
            match check_sort_criteria(&ctx.criteria, &ctx.sortable_fields, sort_criteria.as_ref()) {
                Ok(()) => {},
                Err(e) => {
                    return Err(e);
                },
            }
            proof {
                // The sort check passed, so any geo directive would have to
                // be sortable — which the precondition rules out: no geo
                // directive reaches the rule composition.
                match sort_criteria {
                    Some(sc) => {
                        assert forall|i: int| 0 <= i < sc@.len() implies !((
                        #[trigger] sc@[i]).spec_member() is Geo) by {
                            if sc@[i].spec_member() is Geo {
                                assert(member_sortable(
                                    ctx.sortable_fields@,
                                    sc@[i].spec_member(),
                                ));
                            }
                        }
                    },
                    None => {},
                }
            }
            let terms = match words_limit {
                Some(limit) => truncate_terms(all_terms, limit),
                None => truncate_terms(all_terms, all_terms.len()),
            };
            let universe = resolve_maximally_reduced_query_graph(
                ctx,
                &universe,
                &terms,
                terms_matching_strategy,
            );
            proof {
                lemma_terms_doc_set_congruent(
                    ctx,
                    terms@,
                    all_terms@,
                    strategy_upto(
                        terms_matching_strategy,
                        effective_terms(all_terms@, words_limit),
                    ),
                    base_universe(ctx, *filters),
                );
            }
            let rules = get_ranking_rules_for_query_graph_search(
                &ctx.criteria,
                sort_criteria,
                terms_matching_strategy,
            );
            let documents_ids = bucket_sort(ctx, &rules, &terms, &universe, from, length);
            let tree = query_tree_of_terms(&terms);
            let matching_words = MatchingWords::from_query_tree(&tree);
            proof {
                assert forall|w: Seq<char>, t: u8, p: bool|
                    entry_in(matching_words.words@, w, t, p) == term_entry(
                    all_terms@,
                    effective_terms(all_terms@, words_limit),
                    w,
                    t,
                    p,
                ) by {
                    if entry_in(matching_words.words@, w, t, p) {
                        assert(crate::matching_words::query_in_tree(tree, w, t, p));
                        assert(term_entry(terms@, terms@.len() as int, w, t, p));
                        let i = choose|i: int|
                            0 <= i < terms@.len() && (#[trigger] terms@[i]).word@ == w
                                && terms@[i].nbr_typos == t && terms@[i].is_prefix == p;
                        assert(all_terms@[i].word@ == w && all_terms@[i].nbr_typos == t
                            && all_terms@[i].is_prefix == p);
                        assert(term_entry(
                            all_terms@,
                            effective_terms(all_terms@, words_limit),
                            w,
                            t,
                            p,
                        ));
                    }
                    if term_entry(all_terms@, effective_terms(all_terms@, words_limit), w, t, p) {
                        let i = choose|i: int|
                            0 <= i < effective_terms(all_terms@, words_limit) && (
                            #[trigger] all_terms@[i]).word@ == w && all_terms@[i].nbr_typos == t
                                && all_terms@[i].is_prefix == p;
                        assert(terms@[i].word@ == w && terms@[i].nbr_typos == t
                            && terms@[i].is_prefix == p);
                        assert(term_entry(terms@, terms@.len() as int, w, t, p));
                        assert(crate::matching_words::query_in_tree(tree, w, t, p));
                        assert(entry_in(matching_words.words@, w, t, p));
                    }
                }
            }
            Ok(SearchResult { documents_ids, candidates: universe, matching_words })
        },
        None => {
            let rules = get_ranking_rules_for_placeholder_search(&ctx.criteria, sort_criteria);
            let no_terms: Vec<LocatedQueryTerm> = Vec::new();
            let documents_ids = bucket_sort(ctx, &rules, &no_terms, &universe, from, length);
            Ok(
                SearchResult {
                    documents_ids,
                    candidates: universe,
                    matching_words: MatchingWords::empty(),
                },
            )
        },
    }
}

} // verus!
