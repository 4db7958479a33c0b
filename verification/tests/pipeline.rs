use ranked_search::criteria::{
    check_sort_criteria, get_ranking_rules_for_placeholder_search,
    get_ranking_rules_for_query_graph_search, AscDesc, Criterion, Member, RankingRule,
    TermsMatchingStrategy, UserError,
};
use ranked_search::matching_words::Token;
use ranked_search::query_graph::LocatedQueryTerm;
use ranked_search::search::{bucket_sort, execute_search, SearchContext};
use roaring::RoaringBitmap;

fn docs(ids: &[u32]) -> RoaringBitmap {
    let mut rb = RoaringBitmap::new();
    for &d in ids {
        rb.insert(d);
    }
    rb
}

fn term(word: &str, typos: u8) -> LocatedQueryTerm {
    LocatedQueryTerm { word: word.to_string(), nbr_typos: typos, is_prefix: false }
}

fn shoe_context() -> SearchContext {
    let mut ctx = SearchContext::new(docs(&[1, 2, 3]));
    ctx.criteria = vec![Criterion::Words, Criterion::Typo, Criterion::Sort];
    ctx.sortable_fields = vec!["price".to_string()];
    // No typos found for document 3; one typo for documents 1 and 2.
    ctx.typo_docids = vec![
        ("shoe".to_string(), 0, docs(&[3])),
        ("shoe".to_string(), 1, docs(&[1, 2])),
    ];
    ctx.sort_values = vec![("price".to_string(), vec![(1, 10), (2, 20), (3, 5)])];
    ctx
}

// Ranking rules `[Words, Typo, Sort(asc price)]` over the universe
// `{1, 2, 3}`: the typo-free document first, then the one-typo documents
// ordered ascending by price.
#[test]
fn typo_then_sort_buckets() {
    let ctx = shoe_context();
    let query = Some(vec![term("shoe", 1)]);
    let sort = Some(vec![AscDesc::Asc(Member::Field("price".to_string()))]);
    let result = execute_search(
        &ctx,
        &query,
        TermsMatchingStrategy::Last,
        &None,
        &sort,
        0,
        20,
        None,
    )
    .unwrap();
    assert_eq!(result.documents_ids, vec![3, 1, 2]);
}

// A sort criterion while the settings omit a sort position is a user
// error, never a silently ignored sort.
#[test]
fn sort_without_sort_position_is_an_error() {
    let mut ctx = shoe_context();
    ctx.criteria = vec![Criterion::Words, Criterion::Typo];
    let query = Some(vec![term("shoe", 1)]);
    let sort = Some(vec![AscDesc::Asc(Member::Field("price".to_string()))]);
    let r = execute_search(&ctx, &query, TermsMatchingStrategy::Last, &None, &sort, 0, 20, None);
    assert!(matches!(r, Err(UserError::SortRankingRuleMissing)));
}

// Sorting on a field not declared sortable names the field in the error.
#[test]
fn sort_on_unsortable_field_is_an_error() {
    let ctx = shoe_context();
    let sort = vec![AscDesc::Desc(Member::Field("weight".to_string()))];
    let r = check_sort_criteria(&ctx.criteria, &ctx.sortable_fields, Some(&sort));
    match r {
        Err(UserError::InvalidSortableAttribute { field, valid_fields }) => {
            assert_eq!(field, "weight");
            assert_eq!(valid_fields, vec!["price".to_string()]);
        },
        _ => panic!("expected an invalid-sortable-attribute error"),
    }
}

// A window past the universe is empty; a shorter window is clipped.
#[test]
fn pagination_clips_the_window() {
    let ctx = shoe_context();
    let query = Some(vec![term("shoe", 1)]);
    let all = execute_search(&ctx, &query, TermsMatchingStrategy::Last, &None, &None, 0, 20, None)
        .unwrap()
        .documents_ids;
    assert_eq!(all.len(), 3);
    let empty = execute_search(&ctx, &query, TermsMatchingStrategy::Last, &None, &None, 3, 20, None)
        .unwrap()
        .documents_ids;
    assert_eq!(empty, Vec::<u32>::new());
    let middle = execute_search(&ctx, &query, TermsMatchingStrategy::Last, &None, &None, 1, 1, None)
        .unwrap()
        .documents_ids;
    assert_eq!(middle.len(), 1);
    assert_eq!(middle[0], all[1]);
}

// A placeholder search ranks by the sort rule alone and falls back to
// ascending document ids.
#[test]
fn placeholder_search_sorts_by_field() {
    let ctx = shoe_context();
    let sort = Some(vec![AscDesc::Asc(Member::Field("price".to_string()))]);
    let result = execute_search(&ctx, &None, TermsMatchingStrategy::Last, &None, &sort, 0, 20, None)
        .unwrap();
    // Prices: 3 -> 5, 1 -> 10, 2 -> 20.
    assert_eq!(result.documents_ids, vec![3, 1, 2]);

    let unsorted = execute_search(&ctx, &None, TermsMatchingStrategy::Last, &None, &None, 0, 20, None)
        .unwrap();
    assert_eq!(unsorted.documents_ids, vec![1, 2, 3]);
}

// A filter restricts the universe before any ranking happens.
#[test]
fn filter_restricts_the_universe() {
    let ctx = shoe_context();
    let query = Some(vec![term("shoe", 1)]);
    let filter = Some(docs(&[1, 3]));
    let result = execute_search(&ctx, &query, TermsMatchingStrategy::Last, &filter, &None, 0, 20, None)
        .unwrap();
    assert_eq!(result.documents_ids, vec![3, 1]);
}

// Rule composition deduplicates and inserts the words rule before the
// first graph-based criterion.
#[test]
fn rule_composition() {
    let criteria = vec![
        Criterion::Typo,
        Criterion::Words,
        Criterion::Typo,
        Criterion::Proximity,
        Criterion::Asc("price".to_string()),
        Criterion::Asc("price".to_string()),
    ];
    let rules =
        get_ranking_rules_for_query_graph_search(&criteria, &None, TermsMatchingStrategy::Last);
    assert!(matches!(rules[0], RankingRule::Words(_)));
    assert!(matches!(rules[1], RankingRule::Typo));
    assert!(matches!(rules[2], RankingRule::Proximity));
    assert!(matches!(
        rules[3],
        RankingRule::Sort { ascending: true, .. }
    ));
    assert_eq!(rules.len(), 4);

    let placeholder = get_ranking_rules_for_placeholder_search(&criteria, &None);
    assert_eq!(placeholder.len(), 1);
    assert!(matches!(placeholder[0], RankingRule::Sort { .. }));
}

// The bucket sort never returns more than `length` documents and never a
// document from outside the universe.
#[test]
fn bucket_sort_window() {
    let ctx = shoe_context();
    let rules = vec![RankingRule::Typo];
    let terms = vec![term("shoe", 1)];
    let universe = docs(&[1, 2, 3]);
    let window = bucket_sort(&ctx, &rules, &terms, &universe, 0, 2);
    assert_eq!(window.len(), 2);
    assert_eq!(window[0], 3);
    let none = bucket_sort(&ctx, &rules, &terms, &universe, 5, 2);
    assert!(none.is_empty());
}

// The proximity rule prefers documents where the pair of adjacent words
// occurs at a smaller distance.
#[test]
fn proximity_orders_by_pair_distance() {
    let mut ctx = SearchContext::new(docs(&[1, 2, 3]));
    ctx.criteria = vec![Criterion::Proximity];
    ctx.typo_docids = vec![
        ("new".to_string(), 0, docs(&[1, 2, 3])),
        ("york".to_string(), 0, docs(&[1, 2, 3])),
    ];
    ctx.proximity_docids = vec![
        ("new".to_string(), "york".to_string(), 1, docs(&[2])),
        ("new".to_string(), "york".to_string(), 3, docs(&[1, 3])),
    ];
    let query = Some(vec![term("new", 0), term("york", 0)]);
    let result = execute_search(&ctx, &query, TermsMatchingStrategy::All, &None, &None, 0, 10, None)
        .unwrap();
    // Distance 1 beats distance 3; ties fall back to ascending ids.
    assert_eq!(result.documents_ids, vec![2, 1, 3]);
}

// The word-count limit caps how many query terms take part.
#[test]
fn words_limit_truncates_the_query() {
    let mut ctx = shoe_context();
    // "boot" matches nothing, so the full two-term query matches nothing.
    ctx.typo_docids.push(("boot".to_string(), 0, docs(&[])));
    let query = Some(vec![term("shoe", 1), term("boot", 0)]);
    let strict = execute_search(
        &ctx,
        &query,
        TermsMatchingStrategy::All,
        &None,
        &None,
        0,
        20,
        None,
    )
    .unwrap();
    // All terms required: the reduced universe is empty.
    assert_eq!(strict.documents_ids, Vec::<u32>::new());
    let limited = execute_search(
        &ctx,
        &query,
        TermsMatchingStrategy::All,
        &None,
        &None,
        0,
        20,
        Some(1),
    )
    .unwrap();
    // Limited to one word, the query degenerates to "shoe".
    assert_eq!(limited.documents_ids, vec![3, 1, 2]);
}

// The query path builds the highlighter from the resolved query words.
#[test]
fn search_result_carries_the_highlighter() {
    let ctx = shoe_context();
    let query = Some(vec![term("shoe", 1)]);
    let result = execute_search(
        &ctx,
        &query,
        TermsMatchingStrategy::Last,
        &None,
        &None,
        0,
        20,
        None,
    )
    .unwrap();
    assert_eq!(
        result.matching_words.matching_bytes(&Token { text: "shoe".to_string() }),
        Some(4)
    );
    assert_eq!(
        result.matching_words.matching_bytes(&Token { text: "zzz".to_string() }),
        None
    );

    // A placeholder search resolves no words, so nothing is highlighted.
    let placeholder = execute_search(
        &ctx,
        &None,
        TermsMatchingStrategy::Last,
        &None,
        &None,
        0,
        20,
        None,
    )
    .unwrap();
    assert_eq!(
        placeholder.matching_words.matching_bytes(&Token { text: "shoe".to_string() }),
        None
    );
}
