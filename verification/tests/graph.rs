use ranked_search::query_graph::{LocatedQueryTerm, QueryGraph};
use ranked_search::ranking_rule_graph::{Edge, RankingRuleGraph};
use ranked_search::small_bitmap::SmallBitmap;

fn term(word: &str) -> LocatedQueryTerm {
    LocatedQueryTerm { word: word.to_string(), nbr_typos: 0, is_prefix: false }
}

fn two_term_graph() -> RankingRuleGraph {
    // Start -> t0 -> t1 -> End, with two typo alternatives per term hop.
    let terms = vec![term("quick"), term("brown")];
    let qg = QueryGraph::from_query(&terms);
    let n = 4;
    let edges = vec![
        Edge {
            source_node: 0,
            dest_node: 1,
            cost: 0,
            condition: Some(0),
            nodes_to_skip: SmallBitmap::new(n),
        },
        Edge {
            source_node: 0,
            dest_node: 1,
            cost: 1,
            condition: Some(1),
            nodes_to_skip: SmallBitmap::new(n),
        },
        Edge {
            source_node: 1,
            dest_node: 2,
            cost: 0,
            condition: Some(2),
            nodes_to_skip: SmallBitmap::new(n),
        },
        Edge {
            source_node: 1,
            dest_node: 2,
            cost: 2,
            condition: Some(3),
            nodes_to_skip: SmallBitmap::new(n),
        },
        Edge { source_node: 2, dest_node: 3, cost: 0, condition: None, nodes_to_skip: SmallBitmap::new(n) },
    ];
    RankingRuleGraph::build(qg, edges, 4).ok().unwrap()
}

// The cost table of the two-term graph: from the root, the achievable
// total costs are every sum of one alternative per hop.
#[test]
fn cost_table_of_two_term_graph() {
    let g = two_term_graph();
    let table = g.find_all_costs_to_end();
    assert_eq!(table[3], vec![0]);
    assert_eq!(table[2], vec![0]);
    assert_eq!(table[1], vec![0, 2]);
    assert_eq!(table[0], vec![0, 1, 2, 3]);
}

// Pruning the edges of one condition and patching the table from the
// changed node onward agrees with recomputation from scratch.
#[test]
fn incremental_update_agrees_with_recomputation() {
    let mut g = two_term_graph();
    let mut table = g.find_all_costs_to_end();
    // Remove the cost-2 alternative of the second hop.
    g.remove_edges_with_condition(3);
    g.update_all_costs_before_node(1, &mut table);
    let fresh = g.find_all_costs_to_end();
    assert_eq!(table, fresh);
    assert_eq!(table[0], vec![0, 1]);
    assert_eq!(table[1], vec![0]);
}

// Removing an interior node keeps `Start` connected to `End` by
// contracting the edges through it.
#[test]
fn node_removal_keeps_connectivity() {
    let terms = vec![term("a"), term("b"), term("c")];
    let mut qg = QueryGraph::from_query(&terms);
    assert_eq!(qg.root_node(), 0);
    assert_eq!(qg.end_node(), 4);
    qg.remove_nodes_keep_edges(&vec![2, 3]);
    // The remaining parse hops straight from the first term to `End`.
    assert!(qg.successors[1].contains(4));
    assert!(!qg.successors[1].contains(2));
    assert!(qg.successors[0].contains(1));
}

// An empty query yields the two-node graph that matches everything.
#[test]
fn empty_query_graph() {
    let qg = QueryGraph::from_query(&Vec::new());
    assert_eq!(qg.root_node(), 0);
    assert_eq!(qg.end_node(), 1);
    assert!(qg.successors[0].contains(1));
}

use ranked_search::dead_ends_cache::DeadEndsCache;
use ranked_search::matching_words::Token;

// The dead-ends cache only grows: conditions forbidden for a prefix stay
// forbidden, and broader prefixes see the root's set too.
#[test]
fn dead_ends_cache_grows() {
    let mut cache = DeadEndsCache::new(4);
    assert!(cache.forbidden_conditions_after_prefix(&vec![0]).is_none());
    cache.forbid_condition_after_prefix(&vec![0], 2);
    let after = cache.forbidden_conditions_after_prefix(&vec![0]).unwrap();
    assert!(after.contains(2));
    assert!(!after.contains(1));
    cache.forbid_condition(1);
    let walked = cache.forbidden_conditions_for_all_prefixes_up_to(&vec![0, 3]);
    assert!(walked.contains(1));
    assert!(walked.contains(2));
    assert!(!walked.contains(3));
}

// A bitmap is a set over a fixed universe.
#[test]
fn small_bitmap_operations() {
    let mut a = SmallBitmap::new(8);
    let mut b = SmallBitmap::new(8);
    a.insert(1);
    b.insert(3);
    assert!(!a.intersects(&b));
    a.union(&b);
    assert!(a.contains(1) && a.contains(3));
    assert!(a.intersects(&b));
    a.remove(3);
    assert!(!a.intersects(&b));
    let c = a.duplicate();
    assert!(c.contains(1) && !c.contains(3));
}

// Byte offsets into a token convert back to whole characters.
#[test]
fn token_chars_from_bytes() {
    let token = Token { text: "chäräcters".to_string() };
    // "chä" spans four bytes; only whole characters count.
    assert_eq!(token.num_chars_from_bytes(4), 3);
    assert_eq!(token.num_chars_from_bytes(3), 2);
    assert_eq!(token.num_chars_from_bytes(0), 0);
    assert_eq!(token.num_chars_from_bytes(100), 10);
}

// A nested prefix keeps its own forbidden set, separate from shorter
// prefixes.
#[test]
fn dead_ends_cache_nested_prefixes() {
    let mut cache = DeadEndsCache::new(5);
    cache.forbid_condition_after_prefix(&vec![1, 2], 4);
    cache.forbid_condition_after_prefix(&vec![1], 3);
    let deep = cache.forbidden_conditions_after_prefix(&vec![1, 2]).unwrap();
    assert!(deep.contains(4) && !deep.contains(3));
    let shallow = cache.forbidden_conditions_after_prefix(&vec![1]).unwrap();
    assert!(shallow.contains(3) && !shallow.contains(4));
    let union = cache.forbidden_conditions_for_all_prefixes_up_to(&vec![1, 2, 0]);
    assert!(union.contains(3) && union.contains(4));
}
