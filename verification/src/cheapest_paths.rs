//! Cost-bounded depth-first enumeration of ranking-rule-graph paths.
//!
//! `PathVisitor` walks the graph from `Start` under a fixed total cost
//! budget, pruning with the dead-ends cache, the forbidden-node sets
//! accumulated from the taken edges, and the cost table (a cheap
//! reachability pre-check). Every complete path is handed to a
//! `PathHandler` together with the graph and the dead-ends cache, so the
//! handler can consume documents, prune edges and record new dead ends
//! before the traversal continues or halts.
//!
//! The handler's contract carries the central soundness guarantee: a
//! delivered condition sequence always comes from a start-to-end chain of
//! the starting graph whose edge costs sum exactly to the requested budget.

use vstd::prelude::*;

use crate::dead_ends_cache::DeadEndsCache;
use crate::ranking_rule_graph::{
    holds_value, row_set, same_edge, shrinks, table_ok, Edge, RankingRuleGraph,
};
use crate::small_bitmap::SmallBitmap;

verus! {

/// The signal a handler returns: go on enumerating, or stop entirely.
pub enum VisitorControl {
    Continue,
    Break,
}

/// The mutable state a handler may react on: the graph (to prune edges)
/// and the dead-ends cache (to record newly discovered dead ends).
pub struct VisitorContext {
    pub graph: RankingRuleGraph,
    pub dead_ends_cache: DeadEndsCache,
}

/// The context is sound with respect to the graph the enumeration started
/// from: the graph has only shrunk, and the cache speaks of its conditions.
pub open spec fn ctx_ok(base: &RankingRuleGraph, ctx: &VisitorContext) -> bool {
    &&& shrinks(base, &ctx.graph)
    &&& ctx.dead_ends_cache.wf()
    &&& ctx.dead_ends_cache.num_conditions == base.num_conditions
}

/// `conds` is the condition sequence of some start-to-end chain of `base`
/// whose edge costs sum exactly to `budget`.
pub open spec fn is_delivered_path(
    base: &RankingRuleGraph,
    budget: u64,
    conds: Seq<usize>,
) -> bool {
    exists|es: Seq<int>|
        {
            &&& #[trigger] base.edge_chain(es, base.query_graph.root(), base.end())
            &&& base.chain_cost(es) == budget
            &&& base.chain_conditions(es) == conds
        }
}

/// What a caller of `PathVisitor` supplies: a visitor callback with spec
/// anchors naming the graph and budget the enumeration started from. The
/// `requires` of `handle_path` is the visitor's promise: only condition
/// sequences of full paths costing exactly the budget are delivered.
pub trait PathHandler: Sized {
    spec fn base_graph(&self) -> RankingRuleGraph;

    spec fn budget(&self) -> u64;

    /// The handler's own data invariant; the visitor preserves it.
    spec fn inv(&self) -> bool;

    /// The document universe the handler consumes from; fixed during one
    /// enumeration.
    spec fn universe(&self) -> Set<u32>;

    /// Every condition sequence delivered so far, in delivery order.
    spec fn deliveries(&self) -> Seq<Seq<usize>>;

    /// The handler has answered `Break`: the enumeration must not call it
    /// again.
    spec fn stopped(&self) -> bool;

    fn handle_path(&mut self, path: &Vec<usize>, ctx: VisitorContext) -> (r: (
        VisitorControl,
        VisitorContext,
    ))
        requires
            old(self).base_graph().wf(),
            old(self).inv(),
            !old(self).stopped(),
            is_delivered_path(&old(self).base_graph(), old(self).budget(), path@),
            ctx_ok(&old(self).base_graph(), &ctx),
        ensures
            final(self).base_graph() == old(self).base_graph(),
            final(self).budget() == old(self).budget(),
            final(self).inv(),
            final(self).universe() == old(self).universe(),
            final(self).deliveries() == old(self).deliveries().push(path@),
            final(self).stopped() == (r.0 is Break),
            ctx_ok(&final(self).base_graph(), &r.1),
    ;
}

/// `post` extends `pre` and every addition is the condition sequence of a
/// full path of `base` costing exactly `budget`.
pub open spec fn deliveries_extended(
    pre: Seq<Seq<usize>>,
    post: Seq<Seq<usize>>,
    base: &RankingRuleGraph,
    budget: u64,
) -> bool {
    &&& post.len() >= pre.len()
    &&& forall|i: int| 0 <= i < pre.len() ==> post[i] == pre[i]
    &&& forall|i: int|
        pre.len() <= i < post.len() ==> is_delivered_path(base, budget, #[trigger] post[i])
}

/// The backtracking state of one traversal.
struct VisitorState {
    remaining_cost: u64,
    path: Vec<usize>,
    visited_conditions: SmallBitmap,
    visited_nodes: SmallBitmap,
    forbidden_conditions: SmallBitmap,
    forbidden_conditions_to_nodes: SmallBitmap,
    trail: Ghost<Seq<int>>,
}

/// The state is positioned at node `at`: the ghost trail of taken edges
/// leads from `Start` to `at`, spends what the budget has lost, and spells
/// exactly the recorded conditions.
spec fn state_ok(st: &VisitorState, base: &RankingRuleGraph, budget: u64, at: int) -> bool {
    &&& st.visited_conditions@.len() == base.num_conditions
    &&& st.forbidden_conditions@.len() == base.num_conditions
    &&& st.visited_nodes@.len() == base.num_nodes()
    &&& st.forbidden_conditions_to_nodes@.len() == base.num_nodes()
    &&& base.edge_chain(st.trail@, base.query_graph.root(), at)
    &&& base.chain_cost(st.trail@) + st.remaining_cost == budget
    &&& base.chain_conditions(st.trail@) == st.path@
}

/// A chain's cost is a sum of edge costs, hence never negative.
proof fn lemma_chain_cost_nonneg(g: &RankingRuleGraph, es: Seq<int>)
    ensures
        g.chain_cost(es) >= 0,
    decreases es.len(),
{
    if es.len() > 0 {
        lemma_chain_cost_nonneg(g, es.drop_first());
    }
}

/// Extending a chain by one adjacent edge extends its endpoint, adds the
/// edge's cost, and appends the edge's condition, if any.
proof fn lemma_chain_snoc(g: &RankingRuleGraph, es: Seq<int>, from: int, to: int, id: int)
    requires
        g.edge_chain(es, from, to),
        g.present(id),
        g.edge_at(id).source_node == to,
    ensures
        g.edge_chain(es.push(id), from, g.edge_at(id).dest_node as int),
        g.chain_cost(es.push(id)) == g.chain_cost(es) + g.edge_at(id).cost,
        g.chain_conditions(es.push(id)) == g.chain_conditions(es) + (match g.edge_at(
            id,
        ).condition {
            Some(c) => seq![c],
            None => Seq::<usize>::empty(),
        }),
    decreases es.len(),
{
    if es.len() == 0 {
        let single = es.push(id);
        let dest = g.edge_at(id).dest_node as int;
        assert(single[0] == id);
        assert(single.drop_first() =~= Seq::<int>::empty());
        assert(g.edge_chain(Seq::<int>::empty(), dest, dest));
        assert(g.chain_cost(Seq::<int>::empty()) == 0);
        assert(g.chain_conditions(Seq::<int>::empty()) =~= Seq::<usize>::empty());
        assert(g.edge_chain(single, from, dest));
        assert(g.chain_cost(single) == g.edge_at(id).cost + g.chain_cost(single.drop_first()));
        assert(g.chain_conditions(single) =~= g.chain_conditions(es) + (match g.edge_at(
            id,
        ).condition {
            Some(c) => seq![c],
            None => Seq::<usize>::empty(),
        }));
    } else {
        let pushed = es.push(id);
        assert(pushed[0] == es[0]);
        assert(pushed.drop_first() =~= es.drop_first().push(id));
        lemma_chain_snoc(g, es.drop_first(), g.edge_at(es[0]).dest_node as int, to, id);
        assert(g.chain_conditions(pushed) =~= g.chain_conditions(es) + (match g.edge_at(
            id,
        ).condition {
            Some(c) => seq![c],
            None => Seq::<usize>::empty(),
        }));
    }
}

/// True when `v` holds `x`; the cheap reachability pre-check of the
/// traversal.
fn vec_contains_u64(v: &Vec<u64>, x: u64) -> (r: bool)
    ensures
        r == holds_value(v@, x),
{
    let n = v.len();
    let mut k: usize = 0;
    while k < n
        invariant
            n == v@.len(),
            k <= n,
            forall|i: int| 0 <= i < k ==> v@[i] != x,
        decreases n - k,
    {
        if v[k] == x {
            return true;
        }
        k += 1;
    }
    false
}

/// An independent copy of an edge-id list.
fn copy_ids(v: &Vec<usize>) -> (r: Vec<usize>)
    ensures
        r@ == v@,
{
    let n = v.len();
    let mut r: Vec<usize> = Vec::new();
    let mut k: usize = 0;
    while k < n
        invariant
            n == v@.len(),
            k <= n,
            r@.len() == k,
            forall|i: int| 0 <= i < k ==> r@[i] == v@[i],
        decreases n - k,
    {
        r.push(v[k]);
        k += 1;
    }
    proof {
        assert(r@ =~= v@);
    }
    r
}

/// The cost-bounded path enumerator.
pub struct PathVisitor {
    state: VisitorState,
    ctx: VisitorContext,
    all_costs_from_node: Vec<Vec<u64>>,
    cost: u64,
    base: Ghost<RankingRuleGraph>,
}

impl PathVisitor {
    /// The graph the enumeration starts from.
    pub closed spec fn base_graph(&self) -> RankingRuleGraph {
        self.base@
    }

    /// The fixed total cost every delivered path must spend.
    pub closed spec fn budget(&self) -> u64 {
        self.cost
    }

    pub closed spec fn inv(&self) -> bool {
        &&& self.base@.wf()
        &&& ctx_ok(&self.base@, &self.ctx)
        &&& table_ok(&self.base@, self.all_costs_from_node@.map_values(|row: Vec<u64>| row@))
        &&& state_ok(&self.state, &self.base@, self.cost, self.base@.query_graph.root())
    }

    /// Prepares a traversal of `graph` at total cost `cost`, pruning with
    /// the cost table and the dead-ends cache.
    pub fn new(
        cost: u64,
        graph: RankingRuleGraph,
        all_costs_from_node: Vec<Vec<u64>>,
        dead_ends_cache: DeadEndsCache,
    ) -> (r: PathVisitor)
        requires
            graph.wf(),
            table_ok(&graph, all_costs_from_node@.map_values(|row: Vec<u64>| row@)),
            dead_ends_cache.wf(),
            dead_ends_cache.num_conditions == graph.num_conditions,
        ensures
            r.inv(),
            r.base_graph() == graph,
            r.budget() == cost,
    {
        let num_conditions = graph.num_conditions;
        let num_nodes = graph.nodes_len();
        let state = VisitorState {
            remaining_cost: cost,
            path: Vec::new(),
            visited_conditions: SmallBitmap::new(num_conditions),
            visited_nodes: SmallBitmap::new(num_nodes),
            forbidden_conditions: SmallBitmap::new(num_conditions),
            forbidden_conditions_to_nodes: SmallBitmap::new(num_nodes),
            trail: Ghost(Seq::empty()),
        };
        let ghost base = graph;
        let r = PathVisitor {
            state,
            ctx: VisitorContext { graph, dead_ends_cache },
            all_costs_from_node,
            cost,
            base: Ghost(base),
        };
        proof {
            assert(r.base@.edge_chain(Seq::empty(), 0, 0));
            assert(r.base@.chain_conditions(Seq::<int>::empty()) =~= Seq::<usize>::empty());
        }
        r
    }

    /// Visits every admissible path of total cost equal to the budget, in
    /// edge-declaration order, delivering each to the handler until the
    /// handler breaks or the graph is exhausted; the graph and the cache,
    /// as the handler left them, are handed back.
    pub fn visit_paths<H: PathHandler>(self, handler: H) -> (r: (
        H,
        RankingRuleGraph,
        DeadEndsCache,
    ))
        requires
            self.inv(),
            handler.base_graph() == self.base_graph(),
            handler.budget() == self.budget(),
            handler.inv(),
            !handler.stopped(),
        ensures
            r.0.base_graph() == self.base_graph(),
            r.0.budget() == self.budget(),
            r.0.inv(),
            r.0.universe() == handler.universe(),
            deliveries_extended(
                handler.deliveries(),
                r.0.deliveries(),
                &self.base_graph(),
                self.budget(),
            ),
            shrinks(&self.base_graph(), &r.1),
            r.2.wf(),
            r.2.num_conditions == self.base_graph().num_conditions,
    {
        let PathVisitor { state, ctx, all_costs_from_node, cost, base } = self;
        let (_, _, _, handler, ctx) = visit_node(
            state,
            0,
            handler,
            ctx,
            &all_costs_from_node,
            Ghost(base@),
            cost,
        );
        let VisitorContext { graph, dead_ends_cache } = ctx;
        (handler, graph, dead_ends_cache)
    }
}

/// One backtracking step: tries every edge leaving `from_node` within the
/// remaining budget. Returns the control signal, whether any continuation
/// below this node produced a delivered path, the state as it was found
/// (except the learned forbidden-condition set), and the context.
#[verifier::loop_isolation(false)]
fn visit_node<H: PathHandler>(
    st: VisitorState,
    from_node: usize,
    handler: H,
    ctx: VisitorContext,
    all_costs: &Vec<Vec<u64>>,
    Ghost(base): Ghost<RankingRuleGraph>,
    cost: u64,
) -> (r: (VisitorControl, bool, VisitorState, H, VisitorContext))
    requires
        base.wf(),
        table_ok(&base, all_costs@.map_values(|row: Vec<u64>| row@)),
        ctx_ok(&base, &ctx),
        state_ok(&st, &base, cost, from_node as int),
        from_node < base.num_nodes(),
        handler.base_graph() == base,
        handler.budget() == cost,
        handler.inv(),
        !handler.stopped(),
    ensures
        ctx_ok(&base, &r.4),
        r.3.base_graph() == base,
        r.3.budget() == cost,
        r.3.inv(),
        r.3.universe() == handler.universe(),
        deliveries_extended(handler.deliveries(), r.3.deliveries(), &base, cost),
        r.3.stopped() == (r.0 is Break),
        state_ok(&r.2, &base, cost, from_node as int),
        r.2.remaining_cost == st.remaining_cost,
        r.2.path@ == st.path@,
        r.2.trail@ == st.trail@,
        r.2.visited_conditions@ == st.visited_conditions@,
        r.2.visited_nodes@ == st.visited_nodes@,
        r.2.forbidden_conditions_to_nodes@ == st.forbidden_conditions_to_nodes@,
    decreases base.num_nodes() - from_node, 1int,
{
    let mut st = st;
    let mut handler = handler;
    let mut ctx = ctx;
    let mut any_valid = false;
    let ghost st0 = st;
    let ghost st0_universe: Set<u32> = handler.universe();
    let ghost st0_log = handler.deliveries();

    let ids = copy_ids(&ctx.graph.edges_of_node[from_node]);
    let n_ids = ids.len();
    let mut k: usize = 0;
    while k < n_ids
        invariant
            base.wf(),
            table_ok(&base, all_costs@.map_values(|row: Vec<u64>| row@)),
            ctx_ok(&base, &ctx),
            state_ok(&st, &base, cost, from_node as int),
            from_node < base.num_nodes(),
            handler.base_graph() == base,
            handler.budget() == cost,
            handler.inv(),
            handler.universe() == st0_universe,
            !handler.stopped(),
            deliveries_extended(st0_log, handler.deliveries(), &base, cost),
            ids@ == base.edges_of_node@[from_node as int]@,
            n_ids == ids@.len(),
            k <= n_ids,
            st.remaining_cost == st0.remaining_cost,
            st.path@ == st0.path@,
            st.trail@ == st0.trail@,
            st.visited_conditions@ == st0.visited_conditions@,
            st.visited_nodes@ == st0.visited_nodes@,
            st.forbidden_conditions_to_nodes@ == st0.forbidden_conditions_to_nodes@,
        decreases n_ids - k,
    {
        let id = ids[k];
        proof {
            assert(base.eid(from_node as int, k as int) == id);
            assert(id < base.edges_store@.len());
        }
        let mut taken: Option<Edge> = None;
        match &ctx.graph.edges_store[id] {
            Some(edge) => {
                taken = Some(edge.duplicate());
            },
            None => {},
        }
        match taken {
            Some(edge) => {
                proof {
                    assert(ctx.graph.present(id as int));
                    assert(base.present(id as int));
                    assert(same_edge(edge, base.edge_at(id as int)));
                    assert(base.edge_at(id as int).source_node == from_node);
                }
                if st.remaining_cost >= edge.cost {
                    st.remaining_cost = st.remaining_cost - edge.cost;
                    proof {
                        lemma_chain_cost_nonneg(&base, st.trail@);
                    }
                    let has_condition = match edge.condition {
                        Some(_) => true,
                        None => false,
                    };
                    let (cf, next_any, st2, handler2, ctx2) = if has_condition {
                        visit_condition(
                            st,
                            &edge,
                            Ghost(id as int),
                            handler,
                            ctx,
                            all_costs,
                            Ghost(base),
                            cost,
                        )
                    } else {
                        visit_no_condition(
                            st,
                            &edge,
                            Ghost(id as int),
                            handler,
                            ctx,
                            all_costs,
                            Ghost(base),
                            cost,
                        )
                    };
                    st = st2;
                    handler = handler2;
                    ctx = ctx2;
                    st.remaining_cost = st.remaining_cost + edge.cost;
                    match cf {
                        VisitorControl::Break => {
                            return (VisitorControl::Break, false, st, handler, ctx);
                        },
                        VisitorControl::Continue => {},
                    }
                    if next_any {
                        any_valid = true;
                        // A productive path may just have extended the
                        // dead-ends cache: recompute the forbidden set for
                        // the current prefix and backtrack eagerly if the
                        // taken conditions are now forbidden.
                        st.forbidden_conditions =
                            ctx.dead_ends_cache.forbidden_conditions_for_all_prefixes_up_to(
                            &st.path,
                        );
                        if st.visited_conditions.intersects(&st.forbidden_conditions) {
                            return (VisitorControl::Continue, true, st, handler, ctx);
                        }
                    }
                }
            },
            None => {},
        }
        k += 1;
    }
    (VisitorControl::Continue, any_valid, st, handler, ctx)
}

/// Takes a conditioned edge: admissible only when its condition is not
/// forbidden, its destination not excluded by the taken edges, and the
/// remaining budget is still spendable from the destination.
fn visit_condition<H: PathHandler>(
    st: VisitorState,
    edge: &Edge,
    Ghost(edge_id): Ghost<int>,
    handler: H,
    ctx: VisitorContext,
    all_costs: &Vec<Vec<u64>>,
    Ghost(base): Ghost<RankingRuleGraph>,
    cost: u64,
) -> (r: (VisitorControl, bool, VisitorState, H, VisitorContext))
    requires
        base.wf(),
        table_ok(&base, all_costs@.map_values(|row: Vec<u64>| row@)),
        ctx_ok(&base, &ctx),
        base.present(edge_id),
        same_edge(*edge, base.edge_at(edge_id)),
        edge.condition is Some,
        st.visited_conditions@.len() == base.num_conditions,
        st.forbidden_conditions@.len() == base.num_conditions,
        st.visited_nodes@.len() == base.num_nodes(),
        st.forbidden_conditions_to_nodes@.len() == base.num_nodes(),
        base.edge_chain(st.trail@, base.query_graph.root(), edge.source_node as int),
        base.chain_cost(st.trail@) + edge.cost + st.remaining_cost == cost,
        base.chain_conditions(st.trail@) == st.path@,
        handler.base_graph() == base,
        handler.budget() == cost,
        handler.inv(),
        !handler.stopped(),
    ensures
        ctx_ok(&base, &r.4),
        r.3.base_graph() == base,
        r.3.budget() == cost,
        r.3.inv(),
        r.3.universe() == handler.universe(),
        deliveries_extended(handler.deliveries(), r.3.deliveries(), &base, cost),
        r.3.stopped() == (r.0 is Break),
        r.2.remaining_cost == st.remaining_cost,
        r.2.path@ == st.path@,
        r.2.trail@ == st.trail@,
        r.2.visited_conditions@ == st.visited_conditions@,
        r.2.visited_nodes@ == st.visited_nodes@,
        r.2.forbidden_conditions_to_nodes@ == st.forbidden_conditions_to_nodes@,
        r.2.forbidden_conditions@.len() == base.num_conditions,
    decreases base.num_nodes() - edge.source_node, 0int,
{
    let mut st = st;
    let mut handler = handler;
    let mut ctx = ctx;
    let condition = match edge.condition {
        Some(c) => c,
        None => 0,
    };
    let dest_node = edge.dest_node;
    proof {
        assert(base.edge_at(edge_id).condition == Some(condition));
        assert(condition < base.num_conditions);
        assert(dest_node != base.end());
        assert(edge.source_node < dest_node < base.num_nodes());
    }

    if st.forbidden_conditions.contains(condition) || st.forbidden_conditions_to_nodes.contains(
        dest_node,
    ) || edge.nodes_to_skip.intersects(&st.visited_nodes) {
        return (VisitorControl::Continue, false, st, handler, ctx);
    }

    // The destination must still be able to spend exactly the remaining
    // budget on its way to `End`.
    if !vec_contains_u64(&all_costs[dest_node], st.remaining_cost) {
        return (VisitorControl::Continue, false, st, handler, ctx);
    }

    let ghost st_in = st;
    let old_vc = st.visited_conditions.duplicate();
    let old_vn = st.visited_nodes.duplicate();
    st.path.push(condition);
    st.visited_nodes.insert(dest_node);
    st.visited_conditions.insert(condition);
    proof {
        lemma_chain_snoc(
            &base,
            st.trail@,
            base.query_graph.root(),
            edge.source_node as int,
            edge_id,
        );
        st.trail@ = st.trail@.push(edge_id);
        assert(base.chain_conditions(st.trail@) =~= st.path@);
    }

    let old_fc = st.forbidden_conditions.duplicate();
    match ctx.dead_ends_cache.forbidden_conditions_after_prefix(&st.path) {
        Some(next_forbidden) => {
            st.forbidden_conditions.union(&next_forbidden);
        },
        None => {},
    }
    let old_fctn = st.forbidden_conditions_to_nodes.duplicate();
    st.forbidden_conditions_to_nodes.union(&edge.nodes_to_skip);

    let (cf, any_valid, st2, handler2, ctx2) = visit_node(
        st,
        dest_node,
        handler,
        ctx,
        all_costs,
        Ghost(base),
        cost,
    );
    st = st2;
    handler = handler2;
    ctx = ctx2;

    st.forbidden_conditions_to_nodes = old_fctn;
    st.forbidden_conditions = old_fc;
    st.visited_conditions = old_vc;
    st.visited_nodes = old_vn;
    st.path.pop();
    proof {
        st.trail@ = st.trail@.drop_last();
        assert(st.trail@ =~= st_in.trail@);
        assert(st.path@ =~= st_in.path@);
    }
    (cf, any_valid, st, handler, ctx)
}

/// Takes an unconditioned edge; reaching `End` through one delivers the
/// accumulated conditions to the handler.
fn visit_no_condition<H: PathHandler>(
    st: VisitorState,
    edge: &Edge,
    Ghost(edge_id): Ghost<int>,
    handler: H,
    ctx: VisitorContext,
    all_costs: &Vec<Vec<u64>>,
    Ghost(base): Ghost<RankingRuleGraph>,
    cost: u64,
) -> (r: (VisitorControl, bool, VisitorState, H, VisitorContext))
    requires
        base.wf(),
        table_ok(&base, all_costs@.map_values(|row: Vec<u64>| row@)),
        ctx_ok(&base, &ctx),
        base.present(edge_id),
        same_edge(*edge, base.edge_at(edge_id)),
        edge.condition is None,
        st.visited_conditions@.len() == base.num_conditions,
        st.forbidden_conditions@.len() == base.num_conditions,
        st.visited_nodes@.len() == base.num_nodes(),
        st.forbidden_conditions_to_nodes@.len() == base.num_nodes(),
        base.edge_chain(st.trail@, base.query_graph.root(), edge.source_node as int),
        base.chain_cost(st.trail@) + edge.cost + st.remaining_cost == cost,
        base.chain_conditions(st.trail@) == st.path@,
        handler.base_graph() == base,
        handler.budget() == cost,
        handler.inv(),
        !handler.stopped(),
    ensures
        ctx_ok(&base, &r.4),
        r.3.base_graph() == base,
        r.3.budget() == cost,
        r.3.inv(),
        r.3.universe() == handler.universe(),
        deliveries_extended(handler.deliveries(), r.3.deliveries(), &base, cost),
        r.3.stopped() == (r.0 is Break),
        r.2.remaining_cost == st.remaining_cost,
        r.2.path@ == st.path@,
        r.2.trail@ == st.trail@,
        r.2.visited_conditions@ == st.visited_conditions@,
        r.2.visited_nodes@ == st.visited_nodes@,
        r.2.forbidden_conditions_to_nodes@ == st.forbidden_conditions_to_nodes@,
        r.2.forbidden_conditions@.len() == base.num_conditions,
    decreases base.num_nodes() - edge.source_node, 0int,
{
    let mut st = st;
    let mut handler = handler;
    let mut ctx = ctx;
    let dest_node = edge.dest_node;
    proof {
        assert(edge.source_node < dest_node < base.num_nodes());
    }

    if !vec_contains_u64(&all_costs[dest_node], st.remaining_cost) {
        return (VisitorControl::Continue, false, st, handler, ctx);
    }

    let is_end = dest_node == ctx.graph.nodes_len() - 1;
    if is_end {
        proof {
            // The cost table pins the remaining budget: from `End` only
            // zero can still be spent, so the trail extended by this edge
            // costs exactly the budget.
            assert(row_set(all_costs@.map_values(|row: Vec<u64>| row@)[dest_node as int]).contains(
                st.remaining_cost as int,
            ));
            base.lemma_cost_set_end();
            assert(st.remaining_cost == 0);
            lemma_chain_snoc(
                &base,
                st.trail@,
                base.query_graph.root(),
                edge.source_node as int,
                edge_id,
            );
            let delivered = st.trail@.push(edge_id);
            assert(base.chain_cost(delivered) == cost);
            assert(base.chain_conditions(delivered) =~= st.path@);
            assert(is_delivered_path(&base, cost, st.path@));
        }
        let (control, ctx2) = handler.handle_path(&st.path, ctx);
        ctx = ctx2;
        match control {
            VisitorControl::Continue => (VisitorControl::Continue, true, st, handler, ctx),
            VisitorControl::Break => (VisitorControl::Break, false, st, handler, ctx),
        }
    } else {
        let ghost st_in = st;
        let old_fctn = st.forbidden_conditions_to_nodes.duplicate();
        st.forbidden_conditions_to_nodes.union(&edge.nodes_to_skip);
        proof {
            lemma_chain_snoc(
                &base,
                st.trail@,
                base.query_graph.root(),
                edge.source_node as int,
                edge_id,
            );
            st.trail@ = st.trail@.push(edge_id);
            assert(base.chain_conditions(st.trail@) =~= st.path@);
        }
        let (cf, any_valid, st2, handler2, ctx2) = visit_node(
            st,
            dest_node,
            handler,
            ctx,
            all_costs,
            Ghost(base),
            cost,
        );
        st = st2;
        handler = handler2;
        ctx = ctx2;
        st.forbidden_conditions_to_nodes = old_fctn;
        proof {
            st.trail@ = st.trail@.drop_last();
            assert(st.trail@ =~= st_in.trail@);
        }
        (cf, any_valid, st, handler, ctx)
    }
}

} // verus!
