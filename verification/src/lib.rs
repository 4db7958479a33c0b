//! Query resolution and ranking core for a full-text search engine.
//!
//! Given a tokenized query and an in-memory read snapshot of an index, the
//! crate builds a query graph of term alternatives, lays criterion-specific
//! weighted graphs over it, enumerates cheapest paths under a cost budget,
//! composes the configured ranking rules into one paginated result, and
//! builds the fuzzy matcher used to highlight result snippets.

pub mod cheapest_paths;
pub mod criteria;
pub mod dead_ends_cache;
pub mod doc_ids;
pub mod features;
pub mod features_update;
pub mod matching_words;
pub mod query_graph;
pub mod ranking_rule_graph;
pub mod search;
pub mod small_bitmap;

use vstd::prelude::*;

verus! {

/// Largest admissible number of nodes in a query graph. Keeping the node
/// count and the edge costs bounded keeps every cost sum well under `u64`.
pub const MAX_NODES: usize = 65536;

/// Largest admissible cost of a single ranking-rule-graph edge.
pub const MAX_EDGE_COST: u64 = 65536;

} // verus!
