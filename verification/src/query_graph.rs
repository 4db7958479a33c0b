//! The query graph: a directed acyclic graph over term alternatives whose
//! paths from `Start` to `End` are the admissible parses of the query.
//!
//! Nodes are stored in an arena and referenced by index; acyclicity is kept
//! as a structural invariant: every edge goes from a lower index to a higher
//! one. Node removal contracts edges through the removed node so that the
//! remaining paths are exactly those that skip only removed nodes; it never
//! disconnects `Start` from `End`.

use vstd::prelude::*;

use crate::small_bitmap::SmallBitmap;
use crate::MAX_NODES;

verus! {

/// One located term of the tokenized query.
pub struct LocatedQueryTerm {
    /// The underlying word.
    pub word: String,
    /// How many edits are tolerated when matching this term.
    pub nbr_typos: u8,
    /// Whether the term matches any continuation of the word.
    pub is_prefix: bool,
}

/// A node of the query graph.
pub enum QueryNode {
    Start,
    End,
    /// A term alternative; the payload is an index into the located terms.
    Term(usize),
}

/// The query graph itself. `nodes[0]` is `Start`, the last node is `End`,
/// and every edge goes from a lower node index to a higher one.
pub struct QueryGraph {
    pub nodes: Vec<QueryNode>,
    pub successors: Vec<SmallBitmap>,
    pub predecessors: Vec<SmallBitmap>,
}

impl QueryGraph {
    pub open spec fn num_nodes(&self) -> int {
        self.nodes@.len() as int
    }

    pub open spec fn root(&self) -> int {
        0
    }

    pub open spec fn end(&self) -> int {
        self.num_nodes() - 1
    }

    /// There is an edge from node `i` to node `j`.
    pub open spec fn edge(&self, i: int, j: int) -> bool {
        &&& 0 <= i < self.successors@.len()
        &&& 0 <= j < self.successors@[i]@.len()
        &&& self.successors@[i]@[j]
    }

    /// Structural well-formedness: arena sizes agree, `Start` and `End`
    /// frame the term nodes, edges go forward, and the predecessor sets
    /// mirror the successor sets.
    pub open spec fn wf(&self) -> bool {
        &&& 2 <= self.num_nodes() <= MAX_NODES
        &&& self.nodes@[0] is Start
        &&& self.nodes@[self.end()] is End
        &&& forall|i: int| 0 < i < self.end() ==> self.nodes@[i] is Term
        &&& self.successors@.len() == self.num_nodes()
        &&& self.predecessors@.len() == self.num_nodes()
        &&& forall|i: int|
            0 <= i < self.num_nodes() ==> (#[trigger] self.successors@[i])@.len()
                == self.num_nodes()
        &&& forall|i: int|
            0 <= i < self.num_nodes() ==> (#[trigger] self.predecessors@[i])@.len()
                == self.num_nodes()
        &&& forall|i: int, j: int| #[trigger] self.edge(i, j) ==> i < j
        &&& forall|i: int, j: int|
            0 <= i < self.num_nodes() && 0 <= j < self.num_nodes() ==> ((#[trigger] self.successors@[i]@[j])
                == self.predecessors@[j]@[i])
    }

    /// `p` is a sequence of adjacent nodes.
    pub open spec fn is_path(&self, p: Seq<int>) -> bool {
        &&& p.len() >= 1
        &&& forall|k: int| 0 <= k < p.len() ==> 0 <= #[trigger] p[k] < self.num_nodes()
        &&& forall|k: int| 0 <= k < p.len() - 1 ==> self.edge(#[trigger] p[k], p[k + 1])
    }

    /// `p` leads from `Start` to `End`.
    pub open spec fn is_full_path(&self, p: Seq<int>) -> bool {
        &&& self.is_path(p)
        &&& p[0] == self.root()
        &&& p[p.len() - 1] == self.end()
    }

    /// `Start` still reaches `End`.
    pub open spec fn connected(&self) -> bool {
        exists|p: Seq<int>| self.is_full_path(p)
    }

    pub fn root_node(&self) -> (r: usize)
        ensures
            r == self.root(),
    {
        0
    }

    pub fn end_node(&self) -> (r: usize)
        requires
            self.wf(),
        ensures
            r == self.end(),
    {
        self.nodes.len() - 1
    }

    /// Builds the graph of a tokenized query: a chain
    /// `Start -> Term(0) -> ... -> Term(k-1) -> End`. An empty token stream
    /// yields the graph `Start -> End`, which matches everything.
    pub fn from_query(terms: &Vec<LocatedQueryTerm>) -> (r: QueryGraph)
        requires
            terms@.len() + 2 <= MAX_NODES,
        ensures
            r.wf(),
            r.connected(),
            r.num_nodes() == terms@.len() + 2,
            forall|i: int| 0 < i < r.end() ==> r.nodes@[i] == QueryNode::Term((i - 1) as usize),
            forall|i: int, j: int| r.edge(i, j) <==> (0 <= i && j == i + 1 && j < r.num_nodes()),
    {
        let n = terms.len() + 2;
        let mut nodes: Vec<QueryNode> = Vec::new();
        nodes.push(QueryNode::Start);
        let mut t: usize = 0;
        while t < terms.len()
            invariant
                t <= terms@.len(),
                nodes@.len() == t + 1,
                nodes@[0] is Start,
                forall|i: int| 0 < i <= t ==> nodes@[i] == QueryNode::Term((i - 1) as usize),
            decreases terms@.len() - t,
        {
            nodes.push(QueryNode::Term(t));
            t += 1;
        }
        nodes.push(QueryNode::End);

        let mut successors: Vec<SmallBitmap> = Vec::new();
        let mut predecessors: Vec<SmallBitmap> = Vec::new();
        let mut i: usize = 0;
        while i < n
            invariant
                i <= n,
                2 <= n <= MAX_NODES,
                successors@.len() == i,
                predecessors@.len() == i,
                forall|k: int| 0 <= k < i ==> (#[trigger] successors@[k])@.len() == n,
                forall|k: int| 0 <= k < i ==> (#[trigger] predecessors@[k])@.len() == n,
                forall|k: int, j: int|
                    0 <= k < i && 0 <= j < n ==> ((#[trigger] successors@[k]@[j]) <==> j == k + 1
                        && j < n),
                forall|k: int, j: int|
                    0 <= k < i && 0 <= j < n ==> ((#[trigger] predecessors@[k]@[j]) <==> j == k - 1),
            decreases n - i,
        {
            let mut succ = SmallBitmap::new(n);
            if i + 1 < n {
                succ.insert(i + 1);
            }
            let mut pred = SmallBitmap::new(n);
            if i > 0 {
                pred.insert(i - 1);
            }
            successors.push(succ);
            predecessors.push(pred);
            i += 1;
        }

        let r = QueryGraph { nodes, successors, predecessors };
        proof {
            assert(r.num_nodes() == n);
            assert forall|a: int, b: int| r.edge(a, b) implies a < b by {}
            let chain = Seq::new(n as nat, |k: int| k);
            assert(r.is_full_path(chain));
        }
        r
    }
}

/// `x` is one of the handles in `list`.
pub open spec fn listed(list: Seq<usize>, x: int) -> bool {
    exists|k: int| 0 <= k < list.len() && list[k] == x
}

/// The edge relation that results from contracting edges through one
/// removed node `r`: every edge not touching `r` survives, and each pair of
/// edges `u -> r -> v` is replaced by a direct edge `u -> v`.
pub open spec fn contracted(old_g: &QueryGraph, new_g: &QueryGraph, r: int) -> bool {
    &&& new_g.nodes@ == old_g.nodes@
    &&& new_g.num_nodes() == old_g.num_nodes()
    &&& forall|u: int, v: int|
        #[trigger] new_g.edge(u, v) <==> (u != r && v != r && (old_g.edge(u, v) || (old_g.edge(
            u,
            r,
        ) && old_g.edge(r, v))))
}

/// Contracting edges through a removed interior node keeps every path whose
/// endpoints survive: the path that merely skips the removed node exists in
/// the new graph.
pub proof fn lemma_contraction_preserves_paths(
    old_g: &QueryGraph,
    new_g: &QueryGraph,
    r: int,
    p: Seq<int>,
)
    requires
        old_g.wf(),
        new_g.wf(),
        contracted(old_g, new_g, r),
        old_g.is_path(p),
        p[0] != r,
        p[p.len() - 1] != r,
    ensures
        exists|q: Seq<int>|
            {
                &&& new_g.is_path(q)
                &&& q[0] == p[0]
                &&& q[q.len() - 1] == p[p.len() - 1]
            },
    decreases p.len(),
{
    if p.len() == 1 {
        let q = p;
        assert(new_g.is_path(q));
    } else if p[1] != r {
        let rest = p.drop_first();
        assert(old_g.is_path(rest));
        assert(rest[0] == p[1]);
        assert(rest[rest.len() - 1] == p[p.len() - 1]);
        lemma_contraction_preserves_paths(old_g, new_g, r, rest);
        let q0 = choose|q0: Seq<int>|
            {
                &&& new_g.is_path(q0)
                &&& q0[0] == rest[0]
                &&& q0[q0.len() - 1] == rest[rest.len() - 1]
            };
        let q = seq![p[0]] + q0;
        assert(old_g.edge(p[0], p[1]));
        assert(new_g.edge(p[0], p[1]));
        assert forall|k: int| 0 <= k < q.len() - 1 implies new_g.edge(#[trigger] q[k], q[k + 1]) by {
            if k == 0 {
                assert(q[0] == p[0] && q[1] == q0[0]);
            } else {
                assert(q[k] == q0[k - 1] && q[k + 1] == q0[k]);
            }
        }
        assert(new_g.is_path(q));
        assert(q[q.len() - 1] == p[p.len() - 1]);
    } else {
        // p visits r right after its head; r is not the last node, so the
        // contracted edge p[0] -> p[2] bridges the gap.
        assert(p.len() >= 3) by {
            assert(p[p.len() - 1] != r);
        }
        let rest = p.subrange(2, p.len() as int);
        assert(old_g.is_path(rest)) by {
            assert forall|k: int| 0 <= k < rest.len() - 1 implies old_g.edge(
                #[trigger] rest[k],
                rest[k + 1],
            ) by {
                assert(rest[k] == p[k + 2] && rest[k + 1] == p[k + 3]);
            }
        }
        assert(rest[0] == p[2]);
        assert(old_g.edge(p[1], p[2]));
        assert(p[2] > r);
        lemma_contraction_preserves_paths(old_g, new_g, r, rest);
        let q0 = choose|q0: Seq<int>|
            {
                &&& new_g.is_path(q0)
                &&& q0[0] == rest[0]
                &&& q0[q0.len() - 1] == rest[rest.len() - 1]
            };
        let q = seq![p[0]] + q0;
        assert(old_g.edge(p[0], r) && old_g.edge(r, p[2]));
        assert(new_g.edge(p[0], p[2]));
        assert forall|k: int| 0 <= k < q.len() - 1 implies new_g.edge(#[trigger] q[k], q[k + 1]) by {
            if k == 0 {
                assert(q[0] == p[0] && q[1] == q0[0]);
            } else {
                assert(q[k] == q0[k - 1] && q[k + 1] == q0[k]);
            }
        }
        assert(new_g.is_path(q));
        assert(q[q.len() - 1] == p[p.len() - 1]);
    }
}

impl QueryGraph {
    /// Removes one interior node, contracting the edges through it.
    fn remove_one_node(&mut self, r: usize)
        requires
            old(self).wf(),
            0 < r < old(self).end(),
        ensures
            final(self).wf(),
            contracted(old(self), final(self), r as int),
    {
        let n = self.nodes.len();
        let succ_r = self.successors[r].duplicate();
        let pred_r = self.predecessors[r].duplicate();

        let mut new_succ: Vec<SmallBitmap> = Vec::new();
        let mut i: usize = 0;
        while i < n
            invariant
                old(self).wf(),
                self == old(self),
                n == old(self).num_nodes(),
                0 < r < n - 1,
                succ_r@ == old(self).successors@[r as int]@,
                pred_r@ == old(self).predecessors@[r as int]@,
                i <= n,
                new_succ@.len() == i,
                forall|k: int| 0 <= k < i ==> (#[trigger] new_succ@[k])@.len() == n,
                forall|k: int, j: int|
                    0 <= k < i && 0 <= j < n ==> ((#[trigger] new_succ@[k]@[j]) <==> (k != r && j
                        != r && (old(self).edge(k, j) || (old(self).edge(k, r as int) && old(self).edge(
                        r as int,
                        j,
                    ))))),
            decreases n - i,
        {
            if i == r {
                new_succ.push(SmallBitmap::new(n));
            } else {
                let mut row = self.successors[i].duplicate();
                if pred_r.contains(i) {
                    row.union(&succ_r);
                }
                row.remove(r);
                proof {
                    assert forall|j: int| 0 <= j < n implies ((#[trigger] row@[j]) <==> (j != r && (
                    old(self).edge(i as int, j) || (old(self).edge(i as int, r as int) && old(
                        self,
                    ).edge(r as int, j))))) by {
                        assert(old(self).successors@[r as int]@[j] == old(self).edge(r as int, j));
                        assert(old(self).predecessors@[r as int]@[i as int] == old(
                            self,
                        ).successors@[i as int]@[r as int]);
                    }
                }
                new_succ.push(row);
            }
            i += 1;
        }

        let mut new_pred: Vec<SmallBitmap> = Vec::new();
        let mut j: usize = 0;
        while j < n
            invariant
                old(self).wf(),
                self == old(self),
                n == old(self).num_nodes(),
                0 < r < n - 1,
                succ_r@ == old(self).successors@[r as int]@,
                pred_r@ == old(self).predecessors@[r as int]@,
                j <= n,
                new_pred@.len() == j,
                forall|k: int| 0 <= k < j ==> (#[trigger] new_pred@[k])@.len() == n,
                forall|k: int, u: int|
                    0 <= k < j && 0 <= u < n ==> ((#[trigger] new_pred@[k]@[u]) <==> (k != r && u
                        != r && (old(self).edge(u, k) || (old(self).edge(u, r as int) && old(self).edge(
                        r as int,
                        k,
                    ))))),
            decreases n - j,
        {
            if j == r {
                new_pred.push(SmallBitmap::new(n));
            } else {
                let mut row = self.predecessors[j].duplicate();
                if succ_r.contains(j) {
                    row.union(&pred_r);
                }
                row.remove(r);
                proof {
                    assert forall|u: int| 0 <= u < n implies ((#[trigger] row@[u]) <==> (u != r && (
                    old(self).edge(u, j as int) || (old(self).edge(u, r as int) && old(self).edge(
                        r as int,
                        j as int,
                    ))))) by {
                        assert(old(self).predecessors@[r as int]@[u] == old(
                            self,
                        ).successors@[u]@[r as int]);
                        assert(old(self).predecessors@[j as int]@[u] == old(
                            self,
                        ).successors@[u]@[j as int]);
                        assert(old(self).successors@[r as int]@[j as int] == old(self).edge(
                            r as int,
                            j as int,
                        ));
                    }
                }
                new_pred.push(row);
            }
            j += 1;
        }

        self.successors = new_succ;
        self.predecessors = new_pred;
        proof {
            assert forall|u: int, v: int| #[trigger] self.edge(u, v) implies u < v by {
                if u != r && v != r && !old(self).edge(u, v) {
                    assert(old(self).edge(u, r as int) && old(self).edge(r as int, v));
                }
            }
            assert(contracted(old(self), self, r as int));
            assert(self.wf());
        }
    }

    /// Applies a terms-matching strategy: removes the given interior nodes
    /// while contracting edges through them, so that exactly the parses that
    /// skip only removed terms remain. `Start` stays connected to `End`.
    pub fn remove_nodes_keep_edges(&mut self, nodes_to_remove: &Vec<usize>)
        requires
            old(self).wf(),
            old(self).connected(),
            forall|k: int|
                0 <= k < nodes_to_remove@.len() ==> 0 < (#[trigger] nodes_to_remove@[k] as int)
                    && nodes_to_remove@[k] < old(self).end(),
        ensures
            final(self).wf(),
            final(self).connected(),
            final(self).nodes@ == old(self).nodes@,
            forall|u: int, v: int|
                #[trigger] final(self).edge(u, v) ==> !listed(nodes_to_remove@, u) && !listed(
                    nodes_to_remove@,
                    v,
                ),
    {
        let mut g = QueryGraph {
            nodes: Vec::new(),
            successors: Vec::new(),
            predecessors: Vec::new(),
        };
        core::mem::swap(self, &mut g);
        let m = nodes_to_remove.len();
        let mut t: usize = 0;
        while t < m
            invariant
                m == nodes_to_remove@.len(),
                t <= m,
                g.wf(),
                g.connected(),
                g.nodes@ == old(self).nodes@,
                g.num_nodes() == old(self).num_nodes(),
                forall|k: int|
                    0 <= k < m ==> 0 < (#[trigger] nodes_to_remove@[k] as int)
                        && nodes_to_remove@[k] < g.end(),
                forall|u: int, v: int|
                    #[trigger] g.edge(u, v) ==> !listed(nodes_to_remove@.take(t as int), u)
                        && !listed(nodes_to_remove@.take(t as int), v),
            decreases m - t,
        {
            let ghost pre = g;
            let r = nodes_to_remove[t];
            g.remove_one_node(r);
            proof {
                let p = choose|p: Seq<int>| pre.is_full_path(p);
                assert(p[0] == 0 && p[0] != r as int);
                assert(p[p.len() - 1] == pre.end() && p[p.len() - 1] != r as int);
                lemma_contraction_preserves_paths(&pre, &g, r as int, p);
                let q = choose|q: Seq<int>|
                    {
                        &&& g.is_path(q)
                        &&& q[0] == p[0]
                        &&& q[q.len() - 1] == p[p.len() - 1]
                    };
                assert(g.is_full_path(q));
                assert forall|u: int, v: int| #[trigger] g.edge(u, v) implies !listed(
                    nodes_to_remove@.take(t + 1),
                    u,
                ) && !listed(nodes_to_remove@.take(t + 1), v) by {
                    assert(u != r && v != r);
                    assert(pre.edge(u, v) || (pre.edge(u, r as int) && pre.edge(r as int, v)));
                    assert(!listed(nodes_to_remove@.take(t as int), u));
                    assert(!listed(nodes_to_remove@.take(t as int), v));
                    assert forall|x: int| listed(nodes_to_remove@.take(t + 1), x) && x != r
                        as int implies listed(nodes_to_remove@.take(t as int), x) by {
                        let k = choose|k: int|
                            0 <= k < nodes_to_remove@.take(t + 1).len() && #[trigger] nodes_to_remove@.take(
                                t + 1,
                            )[k] == x;
                        assert(k < t);
                        assert(nodes_to_remove@.take(t as int)[k] == x);
                    }
                }
            }
            t += 1;
        }
        proof {
            assert(nodes_to_remove@.take(m as int) =~= nodes_to_remove@);
        }
        core::mem::swap(self, &mut g);
    }
}

/// Every full path of a well-formed query graph visits at least one node
/// besides nothing: it has length at least two, `Start` and `End` included.
pub proof fn lemma_full_path_visits_a_node(g: &QueryGraph, p: Seq<int>)
    requires
        g.wf(),
        g.is_full_path(p),
    ensures
        p.len() >= 2,
        0 <= p[0] < g.num_nodes(),
{
    if p.len() < 2 {
        assert(p[0] == g.root());
        assert(p[p.len() - 1] == g.end());
        assert(g.end() >= 1);
    }
}

} // verus!
