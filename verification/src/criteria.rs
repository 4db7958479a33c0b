//! Ranking criteria as configured per index, sort directives, and the
//! composition of both into the ordered list of ranking rules that the
//! bucket sort runs. Composition deduplicates rules and always places a
//! `Words` rule before the first criterion that assumes term dropping.

use vstd::prelude::*;

verus! {

/// What a sort directive points at: a document field, or the geo point.
pub enum Member {
    Field(String),
    Geo,
}

/// A sort directive of the query.
pub enum AscDesc {
    Asc(Member),
    Desc(Member),
}

impl AscDesc {
    pub fn member(&self) -> (r: &Member)
        ensures
            r == self.spec_member(),
    {
        match self {
            AscDesc::Asc(m) => m,
            AscDesc::Desc(m) => m,
        }
    }

    pub open spec fn spec_member(&self) -> Member {
        match self {
            AscDesc::Asc(m) => *m,
            AscDesc::Desc(m) => *m,
        }
    }
}

/// A named ranking criterion of the index settings.
pub enum Criterion {
    Words,
    Typo,
    Proximity,
    Attribute,
    Sort,
    Exactness,
    Asc(String),
    Desc(String),
}

/// How aggressively optional terms are dropped from the query.
#[derive(Debug, Clone, Copy, PartialEq, Eq, Structural)]
pub enum TermsMatchingStrategy {
    /// Drop terms from the end until at least one is required.
    Last,
    /// Keep every term.
    All,
}

/// A caller-correctable error.
#[derive(Debug)]
pub enum UserError {
    /// A sort criterion was requested while the ranking rules hold no sort
    /// position.
    SortRankingRuleMissing,
    /// A sort was requested on a field not declared sortable.
    InvalidSortableAttribute { field: String, valid_fields: Vec<String> },
}

/// One initialised ranking rule of the pipeline.
pub enum RankingRule {
    Words(TermsMatchingStrategy),
    Typo,
    Proximity,
    ExactAttribute,
    Exactness,
    Sort { field: String, ascending: bool },
}

/// The two rules are the same rule: same simple kind, or a sort on the
/// same field in the same direction.
pub open spec fn same_rule(a: RankingRule, b: RankingRule) -> bool {
    ||| (a is Words && b is Words)
    ||| (a is Typo && b is Typo)
    ||| (a is Proximity && b is Proximity)
    ||| (a is ExactAttribute && b is ExactAttribute)
    ||| (a is Exactness && b is Exactness)
    ||| (a matches RankingRule::Sort { field: f1, ascending: a1 } && b matches RankingRule::Sort {
        field: f2,
        ascending: a2,
    } && f1@ == f2@ && a1 == a2)
}

/// No rule appears twice.
pub open spec fn dup_free(rules: Seq<RankingRule>) -> bool {
    forall|i: int, j: int|
        0 <= i < j < rules.len() ==> !same_rule(#[trigger] rules[i], #[trigger] rules[j])
}

/// A graph-based criterion assumes term dropping has already happened.
pub open spec fn rule_needs_words(r: RankingRule) -> bool {
    r is Typo || r is Proximity || r is ExactAttribute || r is Exactness
}

/// Every criterion that assumes term dropping stands after a `Words` rule.
pub open spec fn words_first(rules: Seq<RankingRule>) -> bool {
    forall|j: int|
        0 <= j < rules.len() && rule_needs_words(#[trigger] rules[j]) ==> exists|i: int|
            0 <= i < j && (#[trigger] rules[i]) is Words
}

/// The list already holds the same rule.
pub open spec fn holds_same_rule(rules: Seq<RankingRule>, r: RankingRule) -> bool {
    exists|i: int| 0 <= i < rules.len() && same_rule(#[trigger] rules[i], r)
}

/// Appends the rule unless the same rule is already listed.
pub open spec fn spec_push_rule(rules: Seq<RankingRule>, r: RankingRule) -> Seq<RankingRule> {
    if holds_same_rule(rules, r) {
        rules
    } else {
        rules.push(r)
    }
}

/// The two rules agree up to the string value of a sort field.
pub open spec fn rule_like(a: RankingRule, b: RankingRule) -> bool {
    match (a, b) {
        (RankingRule::Words(s1), RankingRule::Words(s2)) => s1 == s2,
        (RankingRule::Typo, RankingRule::Typo) => true,
        (RankingRule::Proximity, RankingRule::Proximity) => true,
        (RankingRule::ExactAttribute, RankingRule::ExactAttribute) => true,
        (RankingRule::Exactness, RankingRule::Exactness) => true,
        (
            RankingRule::Sort { field: f1, ascending: a1 },
            RankingRule::Sort { field: f2, ascending: a2 },
        ) => f1@ == f2@ && a1 == a2,
        _ => false,
    }
}

/// The two rule lists agree pointwise up to sort-field string values.
pub open spec fn rules_like(a: Seq<RankingRule>, b: Seq<RankingRule>) -> bool {
    a.len() == b.len() && forall|i: int| 0 <= i < a.len() ==> rule_like(#[trigger] a[i], b[i])
}

/// The sort rules of the first `j` directives, folded onto `acc` in input
/// order, geo members skipped, duplicates dropped.
pub open spec fn spec_sort_rules(sc: Seq<AscDesc>, j: int, acc: Seq<RankingRule>) -> Seq<
    RankingRule,
>
    decreases j,
{
    if j <= 0 {
        acc
    } else {
        let acc2 = spec_sort_rules(sc, j - 1, acc);
        match sc[j - 1].spec_member() {
            Member::Field(f) => spec_push_rule(
                acc2,
                RankingRule::Sort { field: f, ascending: sc[j - 1] is Asc },
            ),
            Member::Geo => acc2,
        }
    }
}

/// One criterion's contribution to the query-search rule list.
pub open spec fn spec_query_step(
    acc: Seq<RankingRule>,
    c: Criterion,
    sort_criteria: Option<Vec<AscDesc>>,
    strategy: TermsMatchingStrategy,
) -> Seq<RankingRule> {
    let acc1 = if c is Typo || c is Attribute || c is Proximity || c is Exactness {
        spec_push_rule(acc, RankingRule::Words(strategy))
    } else {
        acc
    };
    match c {
        Criterion::Words => spec_push_rule(acc1, RankingRule::Words(strategy)),
        Criterion::Typo => spec_push_rule(acc1, RankingRule::Typo),
        Criterion::Proximity => spec_push_rule(acc1, RankingRule::Proximity),
        Criterion::Attribute => acc1,
        Criterion::Sort => match sort_criteria {
            Some(v) => spec_sort_rules(v@, v@.len() as int, acc1),
            None => acc1,
        },
        Criterion::Exactness => spec_push_rule(
            spec_push_rule(acc1, RankingRule::ExactAttribute),
            RankingRule::Exactness,
        ),
        Criterion::Asc(f) => spec_push_rule(acc1, RankingRule::Sort { field: f, ascending: true }),
        Criterion::Desc(f) => spec_push_rule(
            acc1,
            RankingRule::Sort { field: f, ascending: false },
        ),
    }
}

/// The query-search rule list of the first `k` criteria.
pub open spec fn spec_query_rules(
    cs: Seq<Criterion>,
    k: int,
    sort_criteria: Option<Vec<AscDesc>>,
    strategy: TermsMatchingStrategy,
) -> Seq<RankingRule>
    decreases k,
{
    if k <= 0 {
        Seq::empty()
    } else {
        spec_query_step(
            spec_query_rules(cs, k - 1, sort_criteria, strategy),
            cs[k - 1],
            sort_criteria,
            strategy,
        )
    }
}

/// One criterion's contribution to the placeholder rule list: only
/// sort-type criteria have an effect without a query.
pub open spec fn spec_placeholder_step(
    acc: Seq<RankingRule>,
    c: Criterion,
    sort_criteria: Option<Vec<AscDesc>>,
) -> Seq<RankingRule> {
    match c {
        Criterion::Sort => match sort_criteria {
            Some(v) => spec_sort_rules(v@, v@.len() as int, acc),
            None => acc,
        },
        Criterion::Asc(f) => spec_push_rule(acc, RankingRule::Sort { field: f, ascending: true }),
        Criterion::Desc(f) => spec_push_rule(acc, RankingRule::Sort { field: f, ascending: false }),
        _ => acc,
    }
}

/// The placeholder rule list of the first `k` criteria.
pub open spec fn spec_placeholder_rules(
    cs: Seq<Criterion>,
    k: int,
    sort_criteria: Option<Vec<AscDesc>>,
) -> Seq<RankingRule>
    decreases k,
{
    if k <= 0 {
        Seq::empty()
    } else {
        spec_placeholder_step(spec_placeholder_rules(cs, k - 1, sort_criteria), cs[k - 1], sort_criteria)
    }
}

/// Likeness carries through a deduplicating push: like lists take like
/// rules to like lists.
proof fn lemma_push_like(a: Seq<RankingRule>, b: Seq<RankingRule>, ra: RankingRule, rb: RankingRule)
    requires
        rules_like(a, b),
        rule_like(ra, rb),
    ensures
        rules_like(spec_push_rule(a, ra), spec_push_rule(b, rb)),
{
    assert forall|i: int| 0 <= i < a.len() implies (same_rule(#[trigger] a[i], ra) == same_rule(
        b[i],
        rb,
    )) by {
        assert(rule_like(a[i], b[i]));
    }
    if holds_same_rule(a, ra) {
        let i = choose|i: int| 0 <= i < a.len() && same_rule(#[trigger] a[i], ra);
        assert(same_rule(b[i], rb));
        assert(holds_same_rule(b, rb));
    } else if holds_same_rule(b, rb) {
        let i = choose|i: int| 0 <= i < b.len() && same_rule(#[trigger] b[i], rb);
        assert(same_rule(a[i], ra));
        assert(false);
    } else {
        assert(rules_like(a.push(ra), b.push(rb))) by {
            assert forall|i: int| 0 <= i < a.len() + 1 implies rule_like(
                #[trigger] a.push(ra)[i],
                b.push(rb)[i],
            ) by {
                if i < a.len() {
                    assert(a.push(ra)[i] == a[i] && b.push(rb)[i] == b[i]);
                } else {
                    assert(a.push(ra)[i] == ra && b.push(rb)[i] == rb);
                }
            }
        }
    }
}

/// Likeness carries through the sort-directive fold.
proof fn lemma_sort_rules_like(sc: Seq<AscDesc>, j: int, a: Seq<RankingRule>, b: Seq<RankingRule>)
    requires
        rules_like(a, b),
    ensures
        rules_like(spec_sort_rules(sc, j, a), spec_sort_rules(sc, j, b)),
    decreases j,
{
    if j > 0 {
        lemma_sort_rules_like(sc, j - 1, a, b);
        match sc[j - 1].spec_member() {
            Member::Field(f) => {
                lemma_push_like(
                    spec_sort_rules(sc, j - 1, a),
                    spec_sort_rules(sc, j - 1, b),
                    RankingRule::Sort { field: f, ascending: sc[j - 1] is Asc },
                    RankingRule::Sort { field: f, ascending: sc[j - 1] is Asc },
                );
            },
            Member::Geo => {},
        }
    }
}

/// Likeness is transitive.
proof fn lemma_rules_like_trans(a: Seq<RankingRule>, b: Seq<RankingRule>, c: Seq<RankingRule>)
    requires
        rules_like(a, b),
        rules_like(b, c),
    ensures
        rules_like(a, c),
{
    assert forall|i: int| 0 <= i < a.len() implies rule_like(#[trigger] a[i], c[i]) by {
        assert(rule_like(a[i], b[i]) && rule_like(b[i], c[i]));
    }
}

/// The settings hold a sort position.
pub open spec fn has_sort_position(cs: Seq<Criterion>) -> bool {
    exists|i: int| 0 <= i < cs.len() && (#[trigger] cs[i]) is Sort
}

/// The field name `f` is declared sortable.
pub open spec fn field_sortable(fields: Seq<String>, f: Seq<char>) -> bool {
    exists|i: int| 0 <= i < fields.len() && (#[trigger] fields[i])@ == f
}

/// The field a member sorts by, as the error message names it.
pub open spec fn member_field_name(m: Member) -> Seq<char> {
    match m {
        Member::Field(f) => f@,
        Member::Geo => "_geo"@,
    }
}

/// The member sorts by something declared sortable.
pub open spec fn member_sortable(fields: Seq<String>, m: Member) -> bool {
    field_sortable(fields, member_field_name(m))
}

/// True when the two strings hold the same characters.
fn string_eq_str(a: &String, b: &str) -> (r: bool)
    ensures
        r == (a@ == b@),
{
    crate::matching_words::str_eq(a.as_str(), b)
}

/// Whether `f` is one of the declared sortable fields.
fn is_field_sortable(fields: &Vec<String>, f: &str) -> (r: bool)
    ensures
        r == field_sortable(fields@, f@),
{
    let n = fields.len();
    let mut k: usize = 0;
    while k < n
        invariant
            n == fields@.len(),
            k <= n,
            forall|i: int| 0 <= i < k ==> (#[trigger] fields@[i])@ != f@,
        decreases n - k,
    {
        if string_eq_str(&fields[k], f) {
            return true;
        }
        k += 1;
    }
    false
}

/// An independent copy of a field list.
fn copy_fields(v: &Vec<String>) -> (r: Vec<String>)
    ensures
        r@.len() == v@.len(),
        forall|i: int| 0 <= i < v@.len() ==> (#[trigger] r@[i])@ == v@[i]@,
{
    let n = v.len();
    let mut r: Vec<String> = Vec::new();
    let mut k: usize = 0;
    while k < n
        invariant
            n == v@.len(),
            k <= n,
            r@.len() == k,
            forall|i: int| 0 <= i < k ==> (#[trigger] r@[i])@ == v@[i]@,
        decreases n - k,
    {
        r.push(v[k].clone());
        k += 1;
    }
    r
}

/// Rejects a sort request that the settings or the schema cannot honour:
/// an error exactly when the settings hold no sort position, or when some
/// requested member is not declared sortable — never a silently dropped
/// sort.
#[verifier::loop_isolation(false)]
pub fn check_sort_criteria(
    criteria: &Vec<Criterion>,
    sortable_fields: &Vec<String>,
    sort_criteria: Option<&Vec<AscDesc>>,
) -> (r: Result<(), UserError>)
    ensures
        sort_criteria is None ==> r is Ok,
        sort_criteria matches Some(sc) && sc@.len() == 0 ==> r is Ok,
        sort_criteria matches Some(sc) && sc@.len() > 0 && !has_sort_position(criteria@) ==> r
            == Err::<(), UserError>(UserError::SortRankingRuleMissing),
        sort_criteria matches Some(sc) ==> ((sc@.len() > 0 && has_sort_position(criteria@)) ==> (
        r is Ok <==> forall|i: int|
            0 <= i < sc@.len() ==> member_sortable(
                sortable_fields@,
                (#[trigger] sc@[i]).spec_member(),
            ))),
        sort_criteria matches Some(sc) ==> (r matches Err(e) ==> (e
            matches UserError::InvalidSortableAttribute { field, valid_fields } ==> {
            &&& exists|i: int|
                {
                    &&& 0 <= i < sc@.len()
                    &&& !member_sortable(sortable_fields@, (#[trigger] sc@[i]).spec_member())
                    &&& field@ == member_field_name(sc@[i].spec_member())
                    &&& forall|i2: int|
                        0 <= i2 < i ==> member_sortable(
                            sortable_fields@,
                            (#[trigger] sc@[i2]).spec_member(),
                        )
                }
            &&& valid_fields@.len() == sortable_fields@.len()
            &&& forall|i2: int|
                0 <= i2 < valid_fields@.len() ==> (#[trigger] valid_fields@[i2])@
                    == sortable_fields@[i2]@
        })),
{
    let sc = match sort_criteria {
        Some(sc) => sc,
        None => {
            return Ok(());
        },
    };
    if sc.len() == 0 {
        return Ok(());
    }

    // The sort ranking rule must exist before any sort criterion is obeyed.
    let n = criteria.len();
    let mut k: usize = 0;
    let mut found: bool = false;
    while k < n
        invariant
            n == criteria@.len(),
            k <= n,
            found == exists|i: int| 0 <= i < k && (#[trigger] criteria@[i]) is Sort,
        decreases n - k,
    {
        match &criteria[k] {
            Criterion::Sort => {
                found = true;
            },
            _ => {},
        }
        k += 1;
    }
    if !found {
        return Err(UserError::SortRankingRuleMissing);
    }

    // Every requested member must be declared sortable.
    let m = sc.len();
    let mut j: usize = 0;
    while j < m
        invariant
            m == sc@.len(),
            j <= m,
            forall|i: int|
                0 <= i < j ==> member_sortable(sortable_fields@, (#[trigger] sc@[i]).spec_member()),
        decreases m - j,
    {
        match sc[j].member() {
            Member::Field(field) => {
                if !is_field_sortable(sortable_fields, field.as_str()) {
                    proof {
                        assert(sc@[j as int].spec_member() matches Member::Field(f) && f@
                            == field@);
                        assert(!member_sortable(sortable_fields@, sc@[j as int].spec_member()));
                        assert(member_field_name(sc@[j as int].spec_member()) == field@);
                    }
                    return Err(
                        UserError::InvalidSortableAttribute {
                            field: field.clone(),
                            valid_fields: copy_fields(sortable_fields),
                        },
                    );
                }
            },
            Member::Geo => {
                if !is_field_sortable(sortable_fields, "_geo") {
                    let geo = geo_field_name();
                    proof {
                        assert(sc@[j as int].spec_member() is Geo);
                        assert(!member_sortable(sortable_fields@, sc@[j as int].spec_member()));
                        assert(member_field_name(sc@[j as int].spec_member()) == geo@);
                    }
                    return Err(
                        UserError::InvalidSortableAttribute {
                            field: geo,
                            valid_fields: copy_fields(sortable_fields),
                        },
                    );
                }
            },
        }
        j += 1;
    }
    Ok(())
}

/// The name under which the geo point must be declared sortable.
fn geo_field_name() -> (r: String)
    ensures
        r@ == "_geo"@,
{
    let s = "_geo";
    s.to_owned()
}

/// The rule list already holds this rule.
fn contains_same_rule(rules: &Vec<RankingRule>, probe: &RankingRule) -> (r: bool)
    ensures
        r == exists|i: int| 0 <= i < rules@.len() && same_rule(#[trigger] rules@[i], *probe),
{
    let n = rules.len();
    let mut k: usize = 0;
    while k < n
        invariant
            n == rules@.len(),
            k <= n,
            forall|i: int| 0 <= i < k ==> !same_rule(#[trigger] rules@[i], *probe),
        decreases n - k,
    {
        let hit = match (&rules[k], probe) {
            (RankingRule::Words(_), RankingRule::Words(_)) => true,
            (RankingRule::Typo, RankingRule::Typo) => true,
            (RankingRule::Proximity, RankingRule::Proximity) => true,
            (RankingRule::ExactAttribute, RankingRule::ExactAttribute) => true,
            (RankingRule::Exactness, RankingRule::Exactness) => true,
            (
                RankingRule::Sort { field: f1, ascending: a1 },
                RankingRule::Sort { field: f2, ascending: a2 },
            ) => *a1 == *a2 && string_eq_str(f1, f2.as_str()),
            _ => false,
        };
        if hit {
            return true;
        }
        k += 1;
    }
    false
}

/// Pushes the rule unless the same rule already stands in the list.
fn push_rule_dedup(rules: &mut Vec<RankingRule>, rule: RankingRule)
    requires
        dup_free(old(rules)@),
        words_first(old(rules)@),
        rule_needs_words(rule) ==> exists|i: int|
            0 <= i < old(rules)@.len() && (#[trigger] old(rules)@[i]) is Words,
    ensures
        dup_free(final(rules)@),
        words_first(final(rules)@),
        final(rules)@.len() >= old(rules)@.len(),
        forall|i: int| 0 <= i < old(rules)@.len() ==> final(rules)@[i] == old(rules)@[i],
        final(rules)@.len() <= old(rules)@.len() + 1,
        forall|i: int|
            old(rules)@.len() <= i < final(rules)@.len() ==> final(rules)@[i] == rule,
        exists|i: int| 0 <= i < final(rules)@.len() && same_rule(#[trigger] final(rules)@[i], rule),
        (rule is Words) ==> exists|i: int|
            0 <= i < final(rules)@.len() && (#[trigger] final(rules)@[i]) is Words,
        final(rules)@ == spec_push_rule(old(rules)@, rule),
{
    let ghost orig = rules@;
    if contains_same_rule(rules, &rule) {
        return ;
    }
    rules.push(rule);
    proof {
        assert(rules@[rules@.len() - 1] == rule);
        assert forall|i: int, j: int| 0 <= i < j < rules@.len() implies !same_rule(
            #[trigger] rules@[i],
            #[trigger] rules@[j],
        ) by {
            if j == rules@.len() - 1 {
                assert(!same_rule(orig[i], rule));
                assert(same_rule(rules@[i], rule) ==> same_rule(orig[i], rule));
            }
        }
        assert forall|j: int|
            0 <= j < rules@.len() && rule_needs_words(#[trigger] rules@[j]) implies exists|i: int|
            0 <= i < j && (#[trigger] rules@[i]) is Words by {
            if j < rules@.len() - 1 {
                let i = choose|i: int| 0 <= i < j && (#[trigger] orig[i]) is Words;
                assert(rules@[i] is Words);
            } else {
                if rule_needs_words(rule) {
                    let i = choose|i: int| 0 <= i < orig.len() && (#[trigger] orig[i]) is Words;
                    assert(rules@[i] is Words);
                }
            }
        }
    }
}

/// Expands the query's sort directives into sort rules, deduplicating
/// against the rules already composed. Geo members are not handled by this
/// pipeline and must not reach it.
fn resolve_sort_criteria(
    sort_criteria: &Option<Vec<AscDesc>>,
    ranking_rules: &mut Vec<RankingRule>,
)
    requires
        dup_free(old(ranking_rules)@),
        words_first(old(ranking_rules)@),
        sort_criteria matches Some(sc) ==> forall|i: int|
            0 <= i < sc@.len() ==> !((#[trigger] sc@[i]).spec_member() is Geo),
    ensures
        dup_free(final(ranking_rules)@),
        words_first(final(ranking_rules)@),
        final(ranking_rules)@.len() >= old(ranking_rules)@.len(),
        forall|i: int|
            0 <= i < old(ranking_rules)@.len() ==> final(ranking_rules)@[i] == old(
                ranking_rules,
            )@[i],
        forall|i: int|
            old(ranking_rules)@.len() <= i < final(ranking_rules)@.len()
                ==> (#[trigger] final(ranking_rules)@[i]) is Sort,
        sort_criteria is None ==> final(ranking_rules)@ == old(ranking_rules)@,
        sort_criteria matches Some(v) ==> rules_like(
            final(ranking_rules)@,
            spec_sort_rules(v@, v@.len() as int, old(ranking_rules)@),
        ),
{
    let sc = match sort_criteria {
        Some(sc) => sc,
        None => {
            return ;
        },
    };
    let ghost orig = ranking_rules@;
    let n = sc.len();
    let mut k: usize = 0;
    while k < n
        invariant
            n == sc@.len(),
            k <= n,
            dup_free(ranking_rules@),
            words_first(ranking_rules@),
            ranking_rules@.len() >= orig.len(),
            forall|i: int| 0 <= i < orig.len() ==> ranking_rules@[i] == orig[i],
            forall|i: int|
                orig.len() <= i < ranking_rules@.len() ==> (#[trigger] ranking_rules@[i]) is Sort,
            forall|i: int| 0 <= i < n ==> !((#[trigger] sc@[i]).spec_member() is Geo),
            rules_like(ranking_rules@, spec_sort_rules(sc@, k as int, orig)),
        decreases n - k,
    {
        let ghost pre = ranking_rules@;
        let ghost spec_pre = spec_sort_rules(sc@, k as int, orig);
        let (field, ascending) = match &sc[k] {
            AscDesc::Asc(Member::Field(f)) => (f.clone(), true),
            AscDesc::Desc(Member::Field(f)) => (f.clone(), false),
            AscDesc::Asc(Member::Geo) => (geo_field_name(), true),
            AscDesc::Desc(Member::Geo) => (geo_field_name(), false),
        };
        let ghost exec_rule = RankingRule::Sort { field: field, ascending: ascending };
        push_rule_dedup(ranking_rules, RankingRule::Sort { field, ascending });
        proof {
            let m = sc@[k as int].spec_member();
            assert(m is Field);
            let spec_rule = RankingRule::Sort {
                field: m->Field_0,
                ascending: sc@[k as int] is Asc,
            };
            assert(rule_like(exec_rule, spec_rule));
            lemma_push_like(pre, spec_pre, exec_rule, spec_rule);
            assert(spec_sort_rules(sc@, k + 1, orig) == spec_push_rule(spec_pre, spec_rule));
        }
        k += 1;
    }
}

/// The ordered ranking rules of a placeholder search: only sort-type rules
/// have an effect without a query, so every other criterion is skipped.
pub fn get_ranking_rules_for_placeholder_search(
    criteria: &Vec<Criterion>,
    sort_criteria: &Option<Vec<AscDesc>>,
) -> (rules: Vec<RankingRule>)
    requires
        sort_criteria matches Some(sc) ==> forall|i: int|
            0 <= i < sc@.len() ==> !((#[trigger] sc@[i]).spec_member() is Geo),
    ensures
        dup_free(rules@),
        forall|i: int| 0 <= i < rules@.len() ==> (#[trigger] rules@[i]) is Sort,
        rules_like(rules@, spec_placeholder_rules(criteria@, criteria@.len() as int, *sort_criteria)),
{
    let mut rules: Vec<RankingRule> = Vec::new();
    let n = criteria.len();
    let mut k: usize = 0;
    while k < n
        invariant
            n == criteria@.len(),
            k <= n,
            dup_free(rules@),
            words_first(rules@),
            forall|i: int| 0 <= i < rules@.len() ==> (#[trigger] rules@[i]) is Sort,
            sort_criteria matches Some(sc) ==> forall|i: int|
                0 <= i < sc@.len() ==> !((#[trigger] sc@[i]).spec_member() is Geo),
            rules_like(rules@, spec_placeholder_rules(criteria@, k as int, *sort_criteria)),
        decreases n - k,
    {
        let ghost pre = rules@;
        let ghost spec_pre = spec_placeholder_rules(criteria@, k as int, *sort_criteria);
        match &criteria[k] {
            Criterion::Words
            | Criterion::Typo
            | Criterion::Attribute
            | Criterion::Proximity
            | Criterion::Exactness => {},
            Criterion::Sort => {
                resolve_sort_criteria(sort_criteria, &mut rules);
                proof {
                    assert forall|i: int| 0 <= i < rules@.len() implies (
                    #[trigger] rules@[i]) is Sort by {
                        if i < pre.len() {
                            assert(rules@[i] == pre[i]);
                        }
                    }
                    match sort_criteria {
                        Some(v) => {
                            lemma_sort_rules_like(v@, v@.len() as int, pre, spec_pre);
                            lemma_rules_like_trans(
                                rules@,
                                spec_sort_rules(v@, v@.len() as int, pre),
                                spec_sort_rules(v@, v@.len() as int, spec_pre),
                            );
                        },
                        None => {},
                    }
                }
            },
            Criterion::Asc(field) => {
                let ghost f = criteria@[k as int]->Asc_0;
                let exec_field = field.clone();
                let ghost exec_rule = RankingRule::Sort { field: exec_field, ascending: true };
                push_rule_dedup(
                    &mut rules,
                    RankingRule::Sort { field: exec_field, ascending: true },
                );
                proof {
                    lemma_push_like(
                        pre,
                        spec_pre,
                        exec_rule,
                        RankingRule::Sort { field: f, ascending: true },
                    );
                }
            },
            Criterion::Desc(field) => {
                let ghost f = criteria@[k as int]->Desc_0;
                let exec_field = field.clone();
                let ghost exec_rule = RankingRule::Sort { field: exec_field, ascending: false };
                push_rule_dedup(
                    &mut rules,
                    RankingRule::Sort { field: exec_field, ascending: false },
                );
                proof {
                    lemma_push_like(
                        pre,
                        spec_pre,
                        exec_rule,
                        RankingRule::Sort { field: f, ascending: false },
                    );
                }
            },
        }
        k += 1;
    }
    rules
}

/// The ordered ranking rules of a query search: every configured criterion
/// once, a `Words` rule inserted before the first criterion that assumes
/// term dropping, the query's sort directives expanded at the sort
/// position, and no rule twice.
pub fn get_ranking_rules_for_query_graph_search(
    criteria: &Vec<Criterion>,
    sort_criteria: &Option<Vec<AscDesc>>,
    terms_matching_strategy: TermsMatchingStrategy,
) -> (rules: Vec<RankingRule>)
    requires
        sort_criteria matches Some(sc) ==> forall|i: int|
            0 <= i < sc@.len() ==> !((#[trigger] sc@[i]).spec_member() is Geo),
    ensures
        dup_free(rules@),
        words_first(rules@),
        rules_like(
            rules@,
            spec_query_rules(criteria@, criteria@.len() as int, *sort_criteria, terms_matching_strategy),
        ),
{
    let mut rules: Vec<RankingRule> = Vec::new();
    let n = criteria.len();
    let mut k: usize = 0;
    while k < n
        invariant
            n == criteria@.len(),
            k <= n,
            dup_free(rules@),
            words_first(rules@),
            sort_criteria matches Some(sc) ==> forall|i: int|
                0 <= i < sc@.len() ==> !((#[trigger] sc@[i]).spec_member() is Geo),
            rules_like(
                rules@,
                spec_query_rules(criteria@, k as int, *sort_criteria, terms_matching_strategy),
            ),
        decreases n - k,
    {
        let ghost pre = rules@;
        let ghost spec_pre = spec_query_rules(
            criteria@,
            k as int,
            *sort_criteria,
            terms_matching_strategy,
        );
        // A `Words` rule must precede any criterion that assumes terms have
        // already been dropped.
        let needs_words = match &criteria[k] {
            Criterion::Typo | Criterion::Attribute | Criterion::Proximity
            | Criterion::Exactness => true,
            _ => false,
        };
        if needs_words {
            push_rule_dedup(&mut rules, RankingRule::Words(terms_matching_strategy));
        }
        let ghost mid = rules@;
        let ghost spec_mid = if criteria@[k as int] is Typo || criteria@[k as int] is Attribute
            || criteria@[k as int] is Proximity || criteria@[k as int] is Exactness {
            spec_push_rule(spec_pre, RankingRule::Words(terms_matching_strategy))
        } else {
            spec_pre
        };
        proof {
            if needs_words {
                lemma_push_like(
                    pre,
                    spec_pre,
                    RankingRule::Words(terms_matching_strategy),
                    RankingRule::Words(terms_matching_strategy),
                );
            }
            assert(rules_like(mid, spec_mid));
        }
        match &criteria[k] {
            Criterion::Words => {
                push_rule_dedup(&mut rules, RankingRule::Words(terms_matching_strategy));
                proof {
                    lemma_push_like(
                        mid,
                        spec_mid,
                        RankingRule::Words(terms_matching_strategy),
                        RankingRule::Words(terms_matching_strategy),
                    );
                }
            },
            Criterion::Typo => {
                push_rule_dedup(&mut rules, RankingRule::Typo);
                proof {
                    lemma_push_like(mid, spec_mid, RankingRule::Typo, RankingRule::Typo);
                }
            },
            Criterion::Proximity => {
                push_rule_dedup(&mut rules, RankingRule::Proximity);
                proof {
                    lemma_push_like(mid, spec_mid, RankingRule::Proximity, RankingRule::Proximity);
                }
            },
            Criterion::Attribute => {
                // The attribute criterion is a defined extension point with
                // no behaviour yet; it contributes no rule.
            },
            Criterion::Sort => {
                resolve_sort_criteria(sort_criteria, &mut rules);
                proof {
                    match sort_criteria {
                        Some(v) => {
                            lemma_sort_rules_like(v@, v@.len() as int, mid, spec_mid);
                            lemma_rules_like_trans(
                                rules@,
                                spec_sort_rules(v@, v@.len() as int, mid),
                                spec_sort_rules(v@, v@.len() as int, spec_mid),
                            );
                        },
                        None => {},
                    }
                }
            },
            Criterion::Exactness => {
                push_rule_dedup(&mut rules, RankingRule::ExactAttribute);
                let ghost mid2 = rules@;
                push_rule_dedup(&mut rules, RankingRule::Exactness);
                proof {
                    lemma_push_like(
                        mid,
                        spec_mid,
                        RankingRule::ExactAttribute,
                        RankingRule::ExactAttribute,
                    );
                    lemma_push_like(
                        mid2,
                        spec_push_rule(spec_mid, RankingRule::ExactAttribute),
                        RankingRule::Exactness,
                        RankingRule::Exactness,
                    );
                }
            },
            Criterion::Asc(field) => {
                let ghost f = criteria@[k as int]->Asc_0;
                let exec_field = field.clone();
                let ghost exec_rule = RankingRule::Sort { field: exec_field, ascending: true };
                push_rule_dedup(
                    &mut rules,
                    RankingRule::Sort { field: exec_field, ascending: true },
                );
                proof {
                    lemma_push_like(
                        mid,
                        spec_mid,
                        exec_rule,
                        RankingRule::Sort { field: f, ascending: true },
                    );
                }
            },
            Criterion::Desc(field) => {
                let ghost f = criteria@[k as int]->Desc_0;
                let exec_field = field.clone();
                let ghost exec_rule = RankingRule::Sort { field: exec_field, ascending: false };
                push_rule_dedup(
                    &mut rules,
                    RankingRule::Sort { field: exec_field, ascending: false },
                );
                proof {
                    lemma_push_like(
                        mid,
                        spec_mid,
                        exec_rule,
                        RankingRule::Sort { field: f, ascending: false },
                    );
                }
            },
        }
        k += 1;
    }
    rules
}

} // verus!
