//! The ranking-rule graph: a weighted graph laid over a query graph, whose
//! edges carry an integer cost, an optional criterion-specific condition,
//! and a set of term nodes made incompatible by taking the edge.
//!
//! The module also computes the cost table `all_costs_from_node`: for every
//! node, the sorted, deduplicated list of total costs achievable on a path
//! from that node to `End`, obtained by a reverse dynamic program and
//! patched incrementally when edges are pruned.

use vstd::prelude::*;

use crate::query_graph::QueryGraph;
use crate::small_bitmap::SmallBitmap;
use crate::MAX_EDGE_COST;

verus! {

/// One edge of a ranking-rule graph.
pub struct Edge {
    pub source_node: usize,
    pub dest_node: usize,
    pub cost: u64,
    /// Handle of the criterion-specific condition, if the edge has one.
    pub condition: Option<usize>,
    /// Term nodes rendered incompatible once this edge is chosen.
    pub nodes_to_skip: SmallBitmap,
}

/// The two edges agree in every observable field.
pub open spec fn same_edge(a: Edge, b: Edge) -> bool {
    &&& a.source_node == b.source_node
    &&& a.dest_node == b.dest_node
    &&& a.cost == b.cost
    &&& a.condition == b.condition
    &&& a.nodes_to_skip@ == b.nodes_to_skip@
}

impl Edge {
    pub fn duplicate(&self) -> (r: Edge)
        ensures
            same_edge(r, *self),
    {
        Edge {
            source_node: self.source_node,
            dest_node: self.dest_node,
            cost: self.cost,
            condition: self.condition,
            nodes_to_skip: self.nodes_to_skip.duplicate(),
        }
    }
}

/// A ranking-rule graph over a query graph. Edges live in an arena and are
/// referenced by index so they can be soft-deleted (slot set to `None`)
/// without invalidating other references.
pub struct RankingRuleGraph {
    pub query_graph: QueryGraph,
    pub edges_store: Vec<Option<Edge>>,
    /// For every node, the arena indices of the edges leaving it.
    pub edges_of_node: Vec<Vec<usize>>,
    /// Number of interned conditions; condition handles lie below it.
    pub num_conditions: usize,
}

impl RankingRuleGraph {
    pub open spec fn num_nodes(&self) -> int {
        self.query_graph.num_nodes()
    }

    pub open spec fn end(&self) -> int {
        self.query_graph.end()
    }

    /// Edge slot `id` currently holds an edge.
    pub open spec fn present(&self, id: int) -> bool {
        &&& 0 <= id < self.edges_store@.len()
        &&& self.edges_store@[id] is Some
    }

    pub open spec fn edge_at(&self, id: int) -> Edge {
        self.edges_store@[id]->0
    }

    /// The edge id stored at position `k` of node `i`'s edge list.
    pub open spec fn eid(&self, i: int, k: int) -> int {
        self.edges_of_node@[i]@[k] as int
    }

    /// Edge id `id` is listed among the edges leaving node `i`.
    pub open spec fn listed_at(&self, i: int, id: int) -> bool {
        &&& 0 <= i < self.edges_of_node@.len()
        &&& exists|k: int| 0 <= k < self.edges_of_node@[i]@.len() && #[trigger] self.eid(i, k) == id
    }

    /// Number of nodes of the underlying query graph.
    pub fn nodes_len(&self) -> (r: usize)
        ensures
            r == self.num_nodes(),
    {
        self.query_graph.nodes.len()
    }

    pub open spec fn wf(&self) -> bool {
        &&& self.query_graph.wf()
        &&& self.edges_of_node@.len() == self.num_nodes()
        &&& forall|i: int, k: int|
            0 <= i < self.num_nodes() && 0 <= k < self.edges_of_node@[i]@.len()
                ==> (#[trigger] self.eid(i, k)) < self.edges_store@.len()
        &&& forall|i: int, k: int|
            (0 <= i < self.num_nodes() && 0 <= k < self.edges_of_node@[i]@.len() && self.present(
                #[trigger] self.eid(i, k),
            )) ==> self.edge_at(self.eid(i, k)).source_node == i
        &&& forall|id: int|
            self.present(id) ==> {
                let e = #[trigger] self.edge_at(id);
                &&& 0 <= e.source_node < e.dest_node < self.num_nodes()
                &&& self.query_graph.edge(e.source_node as int, e.dest_node as int)
                &&& e.cost <= MAX_EDGE_COST
                &&& (e.condition matches Some(c) ==> c < self.num_conditions && e.dest_node
                    != self.end())
                &&& e.nodes_to_skip@.len() == self.num_nodes()
                &&& self.listed_at(e.source_node as int, id)
            }
    }

    /// `es` is a sequence of adjacent, present edges leading from node
    /// `from` to node `to`.
    pub open spec fn edge_chain(&self, es: Seq<int>, from: int, to: int) -> bool
        decreases es.len(),
    {
        if es.len() == 0 {
            from == to
        } else {
            &&& self.present(es[0])
            &&& self.edge_at(es[0]).source_node == from
            &&& self.edge_chain(es.drop_first(), self.edge_at(es[0]).dest_node as int, to)
        }
    }

    /// Total cost of a sequence of edges.
    pub open spec fn chain_cost(&self, es: Seq<int>) -> int
        decreases es.len(),
    {
        if es.len() == 0 {
            0
        } else {
            self.edge_at(es[0]).cost + self.chain_cost(es.drop_first())
        }
    }

    /// The conditions carried by a sequence of edges, in order.
    pub open spec fn chain_conditions(&self, es: Seq<int>) -> Seq<usize>
        decreases es.len(),
    {
        if es.len() == 0 {
            Seq::empty()
        } else {
            match self.edge_at(es[0]).condition {
                Some(c) => seq![c] + self.chain_conditions(es.drop_first()),
                None => self.chain_conditions(es.drop_first()),
            }
        }
    }

    /// The set of total costs achievable on a path from `n` to `End`.
    pub open spec fn cost_set(&self, n: int) -> Set<int> {
        Set::new(
            |c: int|
                exists|es: Seq<int>|
                    self.edge_chain(es, n, self.end()) && #[trigger] self.chain_cost(es) == c,
        )
    }
}

/// The set of values held by a row of the cost table.
pub open spec fn row_set(row: Seq<u64>) -> Set<int> {
    Set::new(|c: int| exists|k: int| 0 <= k < row.len() && #[trigger] row[k] == c)
}

pub open spec fn strictly_sorted(s: Seq<u64>) -> bool {
    forall|i: int, j: int| 0 <= i < j < s.len() ==> #[trigger] s[i] < #[trigger] s[j]
}

/// The cost table is correct: each row is the sorted, deduplicated list of
/// the costs achievable from that node to `End`.
pub open spec fn table_ok(g: &RankingRuleGraph, t: Seq<Seq<u64>>) -> bool {
    &&& t.len() == g.num_nodes()
    &&& forall|n: int|
        0 <= n < t.len() ==> strictly_sorted(#[trigger] t[n]) && row_set(t[n]) == g.cost_set(n)
}

impl RankingRuleGraph {
    /// A chain to `End` is never longer than the number of nodes it can
    /// still cross, and its cost is bounded by that length.
    pub proof fn lemma_chain_bounds(&self, es: Seq<int>, from: int)
        requires
            self.wf(),
            0 <= from < self.num_nodes(),
            self.edge_chain(es, from, self.end()),
        ensures
            es.len() <= self.num_nodes() - 1 - from,
            0 <= self.chain_cost(es) <= es.len() * MAX_EDGE_COST,
        decreases es.len(),
    {
        if es.len() == 0 {
        } else {
            let e = self.edge_at(es[0]);
            self.lemma_chain_bounds(es.drop_first(), e.dest_node as int);
            assert(self.chain_cost(es) == e.cost + self.chain_cost(es.drop_first()));
            assert(es.len() * MAX_EDGE_COST == MAX_EDGE_COST + (es.len() - 1) * MAX_EDGE_COST) by (
            nonlinear_arith);
        }
    }

    /// Every achievable cost is bounded by the worst full-length path.
    pub proof fn lemma_cost_set_bounds(&self, n: int, c: int)
        requires
            self.wf(),
            0 <= n < self.num_nodes(),
            self.cost_set(n).contains(c),
        ensures
            0 <= c <= (self.num_nodes() - 1 - n) * MAX_EDGE_COST,
    {
        let es = choose|es: Seq<int>|
            self.edge_chain(es, n, self.end()) && #[trigger] self.chain_cost(es) == c;
        self.lemma_chain_bounds(es, n);
        assert(es.len() * MAX_EDGE_COST <= (self.num_nodes() - 1 - n) * MAX_EDGE_COST) by (
        nonlinear_arith)
            requires
                0 <= es.len() <= self.num_nodes() - 1 - n,
        ;
    }

    /// From `End` itself only the empty path, of cost zero, reaches `End`.
    pub proof fn lemma_cost_set_end(&self)
        requires
            self.wf(),
        ensures
            self.cost_set(self.end()) =~= set![0int],
    {
        let empty: Seq<int> = Seq::empty();
        assert(self.edge_chain(empty, self.end(), self.end()) && self.chain_cost(empty) == 0);
        assert forall|c: int| self.cost_set(self.end()).contains(c) implies c == 0 by {
            let es = choose|es: Seq<int>|
                self.edge_chain(es, self.end(), self.end()) && #[trigger] self.chain_cost(es) == c;
            if es.len() > 0 {
                let e = self.edge_at(es[0]);
                assert(e.source_node == self.end() && e.dest_node > e.source_node);
            }
        }
    }

    /// The defining recurrence of the cost table: away from `End`, a node's
    /// cost set is the union, over its outgoing edges, of the destination's
    /// costs shifted by the edge cost.
    pub proof fn lemma_cost_set_unfold(&self, n: int, c: int)
        requires
            self.wf(),
            0 <= n < self.num_nodes(),
            n != self.end(),
        ensures
            self.cost_set(n).contains(c) <==> exists|k: int|
                {
                    &&& 0 <= k < self.edges_of_node@[n]@.len()
                    &&& self.present(#[trigger] self.eid(n, k))
                    &&& self.cost_set(self.edge_at(self.eid(n, k)).dest_node as int).contains(
                        c - self.edge_at(self.eid(n, k)).cost,
                    )
                },
    {
        if self.cost_set(n).contains(c) {
            let es = choose|es: Seq<int>|
                self.edge_chain(es, n, self.end()) && #[trigger] self.chain_cost(es) == c;
            assert(es.len() > 0);
            let id = es[0];
            let e = self.edge_at(id);
            assert(self.listed_at(n, id));
            let k = choose|k: int|
                0 <= k < self.edges_of_node@[n]@.len() && #[trigger] self.eid(n, k) == id;
            let rest = es.drop_first();
            assert(self.edge_chain(rest, e.dest_node as int, self.end()));
            assert(self.chain_cost(rest) == c - e.cost);
            assert(self.cost_set(e.dest_node as int).contains(c - e.cost));
        }
        if exists|k: int|
            {
                &&& 0 <= k < self.edges_of_node@[n]@.len()
                &&& self.present(#[trigger] self.eid(n, k))
                &&& self.cost_set(self.edge_at(self.eid(n, k)).dest_node as int).contains(
                    c - self.edge_at(self.eid(n, k)).cost,
                )
            } {
            let k = choose|k: int|
                {
                    &&& 0 <= k < self.edges_of_node@[n]@.len()
                    &&& self.present(#[trigger] self.eid(n, k))
                    &&& self.cost_set(self.edge_at(self.eid(n, k)).dest_node as int).contains(
                        c - self.edge_at(self.eid(n, k)).cost,
                    )
                };
            let id = self.eid(n, k);
            let e = self.edge_at(id);
            let rest = choose|rest: Seq<int>|
                self.edge_chain(rest, e.dest_node as int, self.end())
                    && #[trigger] self.chain_cost(rest) == c - e.cost;
            let es = seq![id] + rest;
            assert(es.drop_first() =~= rest);
            assert(self.edge_chain(es, n, self.end()));
            assert(self.chain_cost(es) == c);
            assert(self.cost_set(n).contains(c));
        }
    }
}

/// True when `v` holds value `x` somewhere.
pub open spec fn holds_value(v: Seq<u64>, x: u64) -> bool {
    exists|k: int| 0 <= k < v.len() && #[trigger] v[k] == x
}

/// Inserts `x` into a strictly sorted vector, keeping it strictly sorted;
/// a value already present is left alone.
fn sorted_insert(v: &mut Vec<u64>, x: u64)
    requires
        strictly_sorted(old(v)@),
    ensures
        strictly_sorted(final(v)@),
        row_set(final(v)@) =~= row_set(old(v)@).insert(x as int),
{
    let ghost orig = v@;
    let n = v.len();
    let mut k: usize = 0;
    while k < n && v[k] < x
        invariant
            v@ == orig,
            n == orig.len(),
            strictly_sorted(orig),
            k <= n,
            forall|i: int| 0 <= i < k ==> orig[i] < x,
        decreases n - k,
    {
        k += 1;
    }
    if k < n && v[k] == x {
        proof {
            assert(row_set(orig).insert(x as int) =~= row_set(orig));
        }
        return ;
    }
    // x belongs at position k: everything before it is smaller, and the
    // element at k (if any) is larger.
    proof {
        if k < n {
            assert(orig[k as int] > x);
        }
        assert forall|j: int| k <= j < n implies #[trigger] orig[j] > x by {
            if j > k {
                assert(orig[k as int] < orig[j]);
            }
        }
    }
    v.insert(k, x);
    proof {
        let updated = v@;
        assert(updated.len() == orig.len() + 1);
        assert forall|i: int, j: int| 0 <= i < j < updated.len() implies #[trigger] updated[i] < #[trigger] updated[j] by {
            if j < k {
                assert(updated[i] == orig[i] && updated[j] == orig[j]);
            } else if j == k {
                assert(updated[j] == x && updated[i] == orig[i]);
            } else if i < k {
                assert(updated[i] == orig[i] && updated[j] == orig[j - 1]);
                if j - 1 >= k {
                    assert(orig[j - 1] > x);
                }
            } else if i == k {
                assert(updated[i] == x && updated[j] == orig[j - 1]);
                assert(orig[j - 1] > x);
            } else {
                assert(updated[i] == orig[i - 1] && updated[j] == orig[j - 1]);
            }
        }
        assert forall|c: int| row_set(updated).contains(c) implies row_set(orig).insert(
            x as int,
        ).contains(c) by {
            let i = choose|i: int| 0 <= i < updated.len() && #[trigger] updated[i] == c;
            if i < k {
                assert(orig[i] == c);
            } else if i > k {
                assert(orig[i - 1] == c);
            }
        }
        assert forall|c: int| row_set(orig).insert(x as int).contains(c) implies row_set(
            updated,
        ).contains(c) by {
            if c == x as int {
                assert(updated[k as int] == x);
            } else {
                let i = choose|i: int| 0 <= i < orig.len() && #[trigger] orig[i] == c;
                if i < k {
                    assert(updated[i] == c);
                } else {
                    assert(updated[i + 1] == c);
                }
            }
        }
        assert(row_set(updated) =~= row_set(orig).insert(x as int));
    }
}

impl RankingRuleGraph {
    /// Computes one row of the cost table from the rows of the nodes that
    /// `n`'s edges lead to.
    fn compute_row(&self, n: usize, table: &Vec<Vec<u64>>) -> (row: Vec<u64>)
        requires
            self.wf(),
            0 <= n < self.num_nodes(),
            n != self.end(),
            table@.len() == self.num_nodes(),
            forall|m: int|
                n < m < table@.len() ==> strictly_sorted(#[trigger] table@[m]@) && row_set(
                    table@[m]@,
                ) == self.cost_set(m),
        ensures
            strictly_sorted(row@),
            row_set(row@) == self.cost_set(n as int),
    {
        let mut row: Vec<u64> = Vec::new();
        let ids_len = self.edges_of_node[n].len();
        let mut k: usize = 0;
        while k < ids_len
            invariant
                self.wf(),
                0 <= n < self.num_nodes(),
                n != self.end(),
                table@.len() == self.num_nodes(),
                forall|m: int|
                    n < m < table@.len() ==> strictly_sorted(#[trigger] table@[m]@) && row_set(
                        table@[m]@,
                    ) == self.cost_set(m),
                ids_len == self.edges_of_node@[n as int]@.len(),
                k <= ids_len,
                strictly_sorted(row@),
                forall|c: int|
                    row_set(row@).contains(c) ==> self.cost_set(n as int).contains(c),
                forall|kk: int, ci: int|
                    {
                        (0 <= kk < k && self.present(#[trigger] self.eid(n as int, kk)) && 0 <= ci
                            < table@[self.edge_at(self.eid(n as int, kk)).dest_node as int]@.len())
                            ==> row_set(row@).contains(
                            #[trigger] table@[self.edge_at(
                                self.eid(n as int, kk),
                            ).dest_node as int]@[ci] + self.edge_at(self.eid(n as int, kk)).cost,
                        )
                    },
            decreases ids_len - k,
        {
            let id = self.edges_of_node[n][k];
            proof {
                assert(id as int == self.eid(n as int, k as int));
                assert(self.eid(n as int, k as int) < self.edges_store@.len());
            }
            match &self.edges_store[id] {
                Some(edge) => {
                    proof {
                        assert(self.present(id as int));
                        assert(*edge == self.edge_at(id as int));
                    }
                    let dest = edge.dest_node;
                    let cost = edge.cost;
                    let dlen = table[dest].len();
                    let mut ci: usize = 0;
                    while ci < dlen
                        invariant
                            self.wf(),
                            0 <= n < self.num_nodes(),
                            n != self.end(),
                            table@.len() == self.num_nodes(),
                            forall|m: int|
                                n < m < table@.len() ==> strictly_sorted(#[trigger] table@[m]@)
                                    && row_set(table@[m]@) == self.cost_set(m),
                            ids_len == self.edges_of_node@[n as int]@.len(),
                            k < ids_len,
                            id as int == self.eid(n as int, k as int),
                            self.present(id as int),
                            dest == self.edge_at(id as int).dest_node,
                            cost == self.edge_at(id as int).cost,
                            n < dest < self.num_nodes(),
                            dlen == table@[dest as int]@.len(),
                            ci <= dlen,
                            strictly_sorted(row@),
                            forall|c: int|
                                row_set(row@).contains(c) ==> self.cost_set(n as int).contains(c),
                            forall|kk: int, cj: int|
                                {
                                    (0 <= kk < k && self.present(#[trigger] self.eid(n as int, kk))
                                        && 0 <= cj < table@[self.edge_at(
                                        self.eid(n as int, kk),
                                    ).dest_node as int]@.len()) ==> row_set(row@).contains(
                                        #[trigger] table@[self.edge_at(
                                            self.eid(n as int, kk),
                                        ).dest_node as int]@[cj] + self.edge_at(
                                            self.eid(n as int, kk),
                                        ).cost,
                                    )
                                },
                            forall|cj: int|
                                0 <= cj < ci ==> row_set(row@).contains(
                                    #[trigger] table@[dest as int]@[cj] + cost,
                                ),
                        decreases dlen - ci,
                    {
                        let c_val = table[dest][ci];
                        proof {
                            assert(holds_value(table@[dest as int]@, c_val));
                            assert(row_set(table@[dest as int]@).contains(c_val as int));
                            assert(self.cost_set(dest as int).contains(c_val as int));
                            self.lemma_cost_set_bounds(dest as int, c_val as int);
                            assert(c_val + cost <= (self.num_nodes() - 1 - dest) * MAX_EDGE_COST
                                + MAX_EDGE_COST);
                            assert((self.num_nodes() - 1 - dest) * MAX_EDGE_COST + MAX_EDGE_COST
                                <= 65536 * 65536 + 65536) by (nonlinear_arith)
                                requires
                                    0 <= self.num_nodes() - 1 - dest <= 65536,
                            ;
                        }
                        let x = c_val + cost;
                        sorted_insert(&mut row, x);
                        proof {
                            self.lemma_cost_set_unfold(n as int, x as int);
                            assert(self.cost_set(n as int).contains(x as int));
                        }
                        ci += 1;
                    }
                },
                None => {},
            }
            k += 1;
        }
        proof {
            assert forall|c: int| self.cost_set(n as int).contains(c) implies row_set(
                row@,
            ).contains(c) by {
                self.lemma_cost_set_unfold(n as int, c);
                let kk = choose|kk: int|
                    {
                        &&& 0 <= kk < self.edges_of_node@[n as int]@.len()
                        &&& self.present(#[trigger] self.eid(n as int, kk))
                        &&& self.cost_set(
                            self.edge_at(self.eid(n as int, kk)).dest_node as int,
                        ).contains(c - self.edge_at(self.eid(n as int, kk)).cost)
                    };
                let id = self.eid(n as int, kk);
                let e = self.edge_at(id);
                let d = e.dest_node as int;
                assert(row_set(table@[d]@) == self.cost_set(d));
                assert(row_set(table@[d]@).contains(c - e.cost));
                let cj = choose|cj: int|
                    0 <= cj < table@[d]@.len() && #[trigger] table@[d]@[cj] == c - e.cost;
                self.lemma_cost_set_bounds(d, c - e.cost);
                assert(table@[d]@[cj] + e.cost == c);
            }
            assert(row_set(row@) =~= self.cost_set(n as int));
        }
        row
    }

    /// Builds the whole cost table by the reverse dynamic program: `End`
    /// costs zero, and every other node's costs are the union, over its
    /// outgoing edges, of the destination's costs shifted by the edge cost.
    pub fn find_all_costs_to_end(&self) -> (table: Vec<Vec<u64>>)
        requires
            self.wf(),
        ensures
            table_ok(self, table@.map_values(|row: Vec<u64>| row@)),
    {
        let n_nodes = self.edges_of_node.len();
        let mut table: Vec<Vec<u64>> = Vec::new();
        let mut i: usize = 0;
        while i < n_nodes
            invariant
                n_nodes == self.num_nodes(),
                i <= n_nodes,
                table@.len() == i,
            decreases n_nodes - i,
        {
            table.push(Vec::new());
            i += 1;
        }
        let mut n = n_nodes;
        while n > 0
            invariant
                self.wf(),
                n_nodes == self.num_nodes(),
                table@.len() == n_nodes,
                n <= n_nodes,
                forall|m: int|
                    n <= m < n_nodes ==> strictly_sorted(#[trigger] table@[m]@) && row_set(
                        table@[m]@,
                    ) == self.cost_set(m),
            decreases n,
        {
            n -= 1;
            if n == n_nodes - 1 {
                let mut row: Vec<u64> = Vec::new();
                row.push(0);
                proof {
                    self.lemma_cost_set_end();
                    assert(row@ =~= seq![0u64]);
                    assert(row@[0] == 0u64);
                    assert(row_set(row@).contains(0int));
                    assert forall|c: int| row_set(row@).contains(c) implies c == 0 by {
                        let k = choose|k: int| 0 <= k < row@.len() && #[trigger] row@[k] == c;
                    }
                    assert(row_set(row@) =~= set![0int]);
                }
                table.set(n, row);
            } else {
                let row = self.compute_row(n, &table);
                table.set(n, row);
            }
        }
        proof {
            let t = table@.map_values(|row: Vec<u64>| row@);
            assert forall|m: int| 0 <= m < t.len() implies strictly_sorted(#[trigger] t[m])
                && row_set(t[m]) == self.cost_set(m) by {
                assert(t[m] == table@[m]@);
            }
        }
        table
    }

    /// Patches the cost table after the edges leaving `node` changed:
    /// recomputes the rows of `node` and of every node before it — the only
    /// rows an edge change at `node` can affect — from the untouched rows
    /// behind it.
    pub fn update_all_costs_before_node(&self, node: usize, costs: &mut Vec<Vec<u64>>)
        requires
            self.wf(),
            0 <= node < self.end(),
            old(costs)@.len() == self.num_nodes(),
            forall|m: int|
                node < m < old(costs)@.len() ==> strictly_sorted(#[trigger] old(costs)@[m]@)
                    && row_set(old(costs)@[m]@) == self.cost_set(m),
        ensures
            table_ok(self, final(costs)@.map_values(|row: Vec<u64>| row@)),
    {
        let mut table: Vec<Vec<u64>> = Vec::new();
        core::mem::swap(costs, &mut table);
        let mut n = node + 1;
        while n > 0
            invariant
                self.wf(),
                0 <= node < self.end(),
                table@.len() == self.num_nodes(),
                n <= node + 1,
                forall|m: int|
                    n <= m < table@.len() ==> strictly_sorted(#[trigger] table@[m]@) && row_set(
                        table@[m]@,
                    ) == self.cost_set(m),
            decreases n,
        {
            n -= 1;
            let row = self.compute_row(n, &table);
            table.set(n, row);
        }
        proof {
            let t = table@.map_values(|row: Vec<u64>| row@);
            assert forall|m: int| 0 <= m < t.len() implies strictly_sorted(#[trigger] t[m])
                && row_set(t[m]) == self.cost_set(m) by {
                assert(t[m] == table@[m]@);
            }
        }
        core::mem::swap(costs, &mut table);
    }
}

/// Two strictly sorted rows holding the same values are the same row.
proof fn lemma_sorted_rows_unique(a: Seq<u64>, b: Seq<u64>)
    requires
        strictly_sorted(a),
        strictly_sorted(b),
        row_set(a) == row_set(b),
    ensures
        a == b,
    decreases a.len(),
{
    if a.len() == 0 {
        if b.len() > 0 {
            assert(row_set(b).contains(b[0] as int));
            assert(row_set(a).contains(b[0] as int));
            assert(false);
        }
        assert(a =~= b);
    } else {
        assert(row_set(a).contains(a[0] as int));
        assert(row_set(b).contains(a[0] as int));
        if b.len() == 0 {
            assert(false);
        }
        // The heads are both the unique minimum of the shared value set.
        let ka = choose|k: int| 0 <= k < b.len() && #[trigger] b[k] == a[0];
        assert(b[0] <= a[0]) by {
            if ka > 0 {
                assert(b[0] < b[ka]);
            }
        }
        assert(row_set(b).contains(b[0] as int));
        assert(row_set(a).contains(b[0] as int));
        let kb = choose|k: int| 0 <= k < a.len() && #[trigger] a[k] == b[0];
        assert(a[0] <= b[0]) by {
            if kb > 0 {
                assert(a[0] < a[kb]);
            }
        }
        assert(a[0] == b[0]);
        let ta = a.drop_first();
        let tb = b.drop_first();
        assert forall|c: int| row_set(ta).contains(c) implies row_set(tb).contains(c) by {
            let k = choose|k: int| 0 <= k < ta.len() && #[trigger] ta[k] == c;
            assert(a[k + 1] == c);
            assert(a[0] < a[k + 1]);
            assert(row_set(b).contains(c));
            let j = choose|j: int| 0 <= j < b.len() && #[trigger] b[j] == c;
            assert(j != 0);
            assert(tb[j - 1] == c);
        }
        assert forall|c: int| row_set(tb).contains(c) implies row_set(ta).contains(c) by {
            let k = choose|k: int| 0 <= k < tb.len() && #[trigger] tb[k] == c;
            assert(b[k + 1] == c);
            assert(b[0] < b[k + 1]);
            assert(row_set(a).contains(c));
            let j = choose|j: int| 0 <= j < a.len() && #[trigger] a[j] == c;
            assert(j != 0);
            assert(ta[j - 1] == c);
        }
        assert(row_set(ta) =~= row_set(tb));
        lemma_sorted_rows_unique(ta, tb);
        assert(a =~= seq![a[0]] + ta);
        assert(b =~= seq![b[0]] + tb);
    }
}

/// Recomputing the cost table from scratch and patching it incrementally
/// agree: any two correct tables for the same graph are equal, so
/// `find_all_costs_to_end` after any sequence of edge prunings yields
/// exactly the table maintained by `update_all_costs_before_node`.
pub proof fn lemma_cost_table_unique(g: &RankingRuleGraph, t1: Seq<Seq<u64>>, t2: Seq<Seq<u64>>)
    requires
        g.wf(),
        table_ok(g, t1),
        table_ok(g, t2),
    ensures
        t1 == t2,
{
    assert forall|n: int| 0 <= n < t1.len() implies t1[n] == t2[n] by {
        lemma_sorted_rows_unique(t1[n], t2[n]);
    }
    assert(t1 =~= t2);
}

/// Everything the path search relies on survives a callback's pruning: the
/// graph keeps its shape and edge lists, and every edge still present is
/// the edge the enumeration started from. Slots may only have been emptied.
pub open spec fn shrinks(base: &RankingRuleGraph, g: &RankingRuleGraph) -> bool {
    &&& g.wf()
    &&& g.num_nodes() == base.num_nodes()
    &&& g.num_conditions == base.num_conditions
    &&& g.edges_store@.len() == base.edges_store@.len()
    &&& g.edges_of_node@.len() == base.edges_of_node@.len()
    &&& forall|i: int|
        0 <= i < g.edges_of_node@.len() ==> (#[trigger] g.edges_of_node@[i])@
            == base.edges_of_node@[i]@
    &&& forall|id: int|
        #[trigger] g.present(id) ==> base.present(id) && same_edge(
            g.edge_at(id),
            base.edge_at(id),
        )
}

/// An edge proposal is admissible over `qg`: it follows an edge of the
/// query graph, keeps the bounded cost, points a conditioned edge away
/// from `End`, and sizes its skip set to the node universe.
pub open spec fn edge_ok(qg: &QueryGraph, e: Edge, num_conditions: int) -> bool {
    &&& e.source_node < e.dest_node < qg.num_nodes()
    &&& qg.edge(e.source_node as int, e.dest_node as int)
    &&& e.cost <= MAX_EDGE_COST
    &&& (e.condition matches Some(c) ==> c < num_conditions && e.dest_node != qg.end())
    &&& e.nodes_to_skip@.len() == qg.num_nodes()
}

impl RankingRuleGraph {
    /// Lays a ranking-rule graph over `query_graph` from the criterion's
    /// edge proposals. Succeeds exactly when every proposal is admissible.
    pub fn build(query_graph: QueryGraph, edges: Vec<Edge>, num_conditions: usize) -> (r: Result<
        RankingRuleGraph,
        (),
    >)
        requires
            query_graph.wf(),
        ensures
            r matches Ok(g) ==> {
                &&& g.wf()
                &&& g.num_conditions == num_conditions
                &&& g.query_graph.nodes@ == query_graph.nodes@
                &&& g.num_nodes() == query_graph.num_nodes()
                &&& g.edges_store@.len() == edges@.len()
                &&& forall|id: int|
                    0 <= id < edges@.len() ==> g.present(id) && same_edge(
                        g.edge_at(id),
                        edges@[id],
                    )
            },
            r is Ok <==> forall|id: int|
                0 <= id < edges@.len() ==> edge_ok(&query_graph, #[trigger] edges@[id], num_conditions as int),
    {
        let n_edges = edges.len();
        let mut id: usize = 0;
        while id < n_edges
            invariant
                query_graph.wf(),
                n_edges == edges@.len(),
                id <= n_edges,
                forall|k: int|
                    0 <= k < id ==> edge_ok(&query_graph, #[trigger] edges@[k], num_conditions as int),
            decreases n_edges - id,
        {
            let e = &edges[id];
            let n = query_graph.nodes.len();
            let admissible = e.source_node < e.dest_node && e.dest_node < n
                && query_graph.successors[e.source_node].contains(e.dest_node)
                && e.cost <= MAX_EDGE_COST && e.nodes_to_skip.len() == n && (match e.condition {
                Some(c) => c < num_conditions && e.dest_node != n - 1,
                None => true,
            });
            if !admissible {
                return Err(());
            }
            id += 1;
        }

        let n_nodes = query_graph.nodes.len();
        let mut edges_of_node: Vec<Vec<usize>> = Vec::new();
        let mut i: usize = 0;
        while i < n_nodes
            invariant
                query_graph.wf(),
                n_edges == edges@.len(),
                n_nodes == query_graph.num_nodes(),
                forall|k: int|
                    0 <= k < n_edges ==> edge_ok(&query_graph, #[trigger] edges@[k], num_conditions as int),
                i <= n_nodes,
                edges_of_node@.len() == i,
                forall|a: int, k: int|
                    0 <= a < i && 0 <= k < edges_of_node@[a]@.len()
                        ==> (#[trigger] edges_of_node@[a]@[k]) < n_edges && edges@[edges_of_node@[a]@[k] as int].source_node == a,
                forall|id2: int|
                    0 <= id2 < n_edges && edges@[id2].source_node < i ==> exists|k: int|
                        0 <= k < edges_of_node@[edges@[id2].source_node as int]@.len()
                            && (#[trigger] edges_of_node@[edges@[id2].source_node as int]@[k])
                            == id2,
            decreases n_nodes - i,
        {
            let mut row: Vec<usize> = Vec::new();
            let mut k: usize = 0;
            while k < n_edges
                invariant
                    n_edges == edges@.len(),
                    i < n_nodes,
                    k <= n_edges,
                    forall|j: int|
                        0 <= j < row@.len() ==> (#[trigger] row@[j]) < n_edges && edges@[row@[j] as int].source_node == i,
                    forall|id2: int|
                        0 <= id2 < k && edges@[id2].source_node == i ==> exists|j: int|
                            0 <= j < row@.len() && (#[trigger] row@[j]) == id2,
                decreases n_edges - k,
            {
                if edges[k].source_node == i {
                    let ghost row0 = row@;
                    row.push(k);
                    proof {
                        assert(row@[row@.len() - 1] == k);
                        assert forall|id2: int|
                            0 <= id2 < k + 1 && edges@[id2].source_node == i implies exists|j: int|
                            0 <= j < row@.len() && (#[trigger] row@[j]) == id2 by {
                            if id2 < k {
                                let j = choose|j: int|
                                    0 <= j < row0.len() && (#[trigger] row0[j]) == id2;
                                assert(row@[j] == id2);
                            } else {
                                assert(row@[row@.len() - 1] == id2);
                            }
                        }
                    }
                }
                k += 1;
            }
            let ghost before_push = edges_of_node@;
            edges_of_node.push(row);
            proof {
                assert(edges_of_node@[i as int]@ == row@);
                assert forall|id2: int|
                    0 <= id2 < n_edges && edges@[id2].source_node < i + 1 implies exists|j: int|
                    0 <= j < edges_of_node@[edges@[id2].source_node as int]@.len()
                        && (#[trigger] edges_of_node@[edges@[id2].source_node as int]@[j])
                        == id2 by {
                    let a = edges@[id2].source_node as int;
                    if a < i {
                        let j = choose|j: int|
                            0 <= j < before_push[a]@.len() && (#[trigger] before_push[a]@[j])
                                == id2;
                        assert(edges_of_node@[a]@[j] == id2);
                    } else {
                        let j = choose|j: int| 0 <= j < row@.len() && (#[trigger] row@[j]) == id2;
                        assert(edges_of_node@[a]@[j] == id2);
                    }
                }
            }
            i += 1;
        }

        let mut edges_store: Vec<Option<Edge>> = Vec::new();
        let mut k: usize = 0;
        while k < n_edges
            invariant
                n_edges == edges@.len(),
                k <= n_edges,
                edges_store@.len() == k,
                forall|j: int|
                    0 <= j < k ==> (#[trigger] edges_store@[j]) is Some && same_edge(
                        edges_store@[j]->0,
                        edges@[j],
                    ),
            decreases n_edges - k,
        {
            edges_store.push(Some(edges[k].duplicate()));
            k += 1;
        }

        let g = RankingRuleGraph { query_graph, edges_store, edges_of_node, num_conditions };
        proof {
            assert forall|id2: int| g.present(id2) implies {
                let e = #[trigger] g.edge_at(id2);
                &&& 0 <= e.source_node < e.dest_node < g.num_nodes()
                &&& g.query_graph.edge(e.source_node as int, e.dest_node as int)
                &&& e.cost <= MAX_EDGE_COST
                &&& (e.condition matches Some(c) ==> c < g.num_conditions && e.dest_node
                    != g.end())
                &&& e.nodes_to_skip@.len() == g.num_nodes()
                &&& g.listed_at(e.source_node as int, id2)
            } by {
                let e = g.edge_at(id2);
                assert(same_edge(e, edges@[id2]));
                assert(edge_ok(&g.query_graph, edges@[id2], num_conditions as int));
                let j = choose|j: int|
                    0 <= j < g.edges_of_node@[edges@[id2].source_node as int]@.len()
                        && (#[trigger] g.edges_of_node@[edges@[id2].source_node as int]@[j]) == id2;
                assert(g.eid(e.source_node as int, j) == id2);
            }
            assert forall|a: int, k2: int|
                (0 <= a < g.num_nodes() && 0 <= k2 < g.edges_of_node@[a]@.len() && g.present(
                    #[trigger] g.eid(a, k2),
                )) implies g.edge_at(g.eid(a, k2)).source_node == a by {
                let id2 = g.eid(a, k2);
                assert(same_edge(g.edge_at(id2), edges@[id2]));
            }
            assert(g.wf());
        }
        Ok(g)
    }

    /// Soft-deletes every edge whose condition is `cond`: the slot is
    /// emptied in place, so outstanding edge references stay valid.
    pub fn remove_edges_with_condition(&mut self, cond: usize)
        requires
            old(self).wf(),
        ensures
            shrinks(old(self), final(self)),
            forall|id: int|
                0 <= id < final(self).edges_store@.len() ==> (final(self).present(id) <==> (old(
                    self,
                ).present(id) && old(self).edge_at(id).condition != Some(cond))),
    {
        let n = self.edges_store.len();
        let mut new_store: Vec<Option<Edge>> = Vec::new();
        let mut k: usize = 0;
        while k < n
            invariant
                self == old(self),
                self.wf(),
                n == self.edges_store@.len(),
                k <= n,
                new_store@.len() == k,
                forall|j: int|
                    0 <= j < k ==> ((#[trigger] new_store@[j]) is Some <==> (self.edges_store@[j]
                        is Some && self.edges_store@[j]->0.condition != Some(cond))),
                forall|j: int|
                    0 <= j < k && new_store@[j] is Some ==> same_edge(
                        (#[trigger] new_store@[j])->0,
                        self.edges_store@[j]->0,
                    ),
            decreases n - k,
        {
            match &self.edges_store[k] {
                Some(e) => {
                    let keep = match e.condition {
                        Some(c) => c != cond,
                        None => true,
                    };
                    if keep {
                        new_store.push(Some(e.duplicate()));
                    } else {
                        new_store.push(None);
                    }
                },
                None => {
                    new_store.push(None);
                },
            }
            k += 1;
        }
        self.edges_store = new_store;
        proof {
            assert forall|id: int| #[trigger] self.present(id) implies {
                let e = self.edge_at(id);
                &&& 0 <= e.source_node < e.dest_node < self.num_nodes()
                &&& self.query_graph.edge(e.source_node as int, e.dest_node as int)
                &&& e.cost <= MAX_EDGE_COST
                &&& (e.condition matches Some(c) ==> c < self.num_conditions && e.dest_node
                    != self.end())
                &&& e.nodes_to_skip@.len() == self.num_nodes()
                &&& self.listed_at(e.source_node as int, id)
            } by {
                assert(old(self).present(id));
                assert(same_edge(self.edge_at(id), old(self).edge_at(id)));
                let src = old(self).edge_at(id).source_node as int;
                assert(old(self).listed_at(src, id));
                let j = choose|j: int|
                    0 <= j < old(self).edges_of_node@[src]@.len() && #[trigger] old(self).eid(
                        src,
                        j,
                    ) == id;
                assert(self.eid(src, j) == id);
            }
            assert forall|a: int, k2: int|
                (0 <= a < self.num_nodes() && 0 <= k2 < self.edges_of_node@[a]@.len()
                    && self.present(#[trigger] self.eid(a, k2))) implies self.edge_at(
                self.eid(a, k2),
            ).source_node == a by {
                let id = self.eid(a, k2);
                assert(old(self).eid(a, k2) == id);
                assert(id < old(self).edges_store@.len());
                assert(self.edges_store@[id] is Some);
                assert(old(self).edges_store@[id] is Some);
                assert(old(self).present(id));
                assert(old(self).edge_at(id).source_node == a);
                assert(same_edge(self.edge_at(id), old(self).edge_at(id)));
            }
            assert(self.edges_store@.len() == old(self).edges_store@.len());
            assert forall|a: int, k2: int|
                0 <= a < self.num_nodes() && 0 <= k2 < self.edges_of_node@[a]@.len() implies (
            #[trigger] self.eid(a, k2)) < self.edges_store@.len() by {
                assert(old(self).eid(a, k2) == self.eid(a, k2));
                assert(old(self).eid(a, k2) < old(self).edges_store@.len());
            }
            assert(self.wf());
        }
    }
}

} // verus!
