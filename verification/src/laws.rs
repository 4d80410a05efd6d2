//! What holds of every query.

use crate::model::{
    edges_closed, has_node, hop_edge, index_of, is_walk, nonnegative, reachable, walk_cost,
    well_formed, Hop, NodeView,
};
use crate::route::{edge_costs, no_route, render, RouteView, WayView};
use crate::search::{
    done_count, done_weight, final_marks, initial, lemma_depth_bound, lemma_initial_inv, lemma_pick,
    lemma_run_inv, lemma_trace_walk, lemma_walk_reaches, ones, pick, relax, relax_edge, route, run,
    settle, waiting, Mark,
};
use vstd::prelude::*;

verus! {

/// Whether the answer `r` is a way through the graph from `start` to `goal`:
/// some walk between the two is shown by its elements and has its cost.
pub open spec fn follows(g: Seq<NodeView>, start: Seq<char>, goal: Seq<char>, r: RouteView) -> bool {
    exists|w: Seq<Hop>|
        {
            &&& #[trigger] is_walk(g, index_of(g, start), w, index_of(g, goal))
            &&& r.passages == render(g, index_of(g, start), w)
            &&& r.total_cost == walk_cost(g, w)
        }
}

/// Whether no walk from `start` to `goal` is shorter than `cost`.
pub open spec fn minimal(g: Seq<NodeView>, start: Seq<char>, goal: Seq<char>, cost: int) -> bool {
    forall|w: Seq<Hop>| #[trigger]
        is_walk(g, index_of(g, start), w, index_of(g, goal)) ==> cost <= walk_cost(g, w)
}

/// Whether `r` is a shortest way from `start` to `goal`.
pub open spec fn is_shortest(
    g: Seq<NodeView>,
    start: Seq<char>,
    goal: Seq<char>,
    r: RouteView,
) -> bool {
    follows(g, start, goal, r) && minimal(g, start, goal, r.total_cost)
}

/// A query from a node that the graph does not have finds no way.
pub proof fn law_unknown_start(g: Seq<NodeView>, start: Seq<char>, goal: Seq<char>)
    requires
        !has_node(g, start),
    ensures
        route(g, start, goal) == no_route(),
{
}

/// Where the goal can be reached from the start, the answer is a shortest
/// way between the two: a walk through the graph that costs what the answer
/// says, and no walk from the start to the goal costs less.
pub proof fn law_shortest(g: Seq<NodeView>, start: Seq<char>, goal: Seq<char>)
    requires
        well_formed(g),
        nonnegative(g),
        reachable(g, start, goal),
    ensures
        is_shortest(g, start, goal, route(g, start, goal)),
        route(g, start, goal).total_cost >= 0,
{
    let n = g.len();
    let s = index_of(g, start);
    let t = index_of(g, goal);
    let r = route(g, start, goal);
    lemma_initial_inv(g, s);
    let depth0 = Seq::new(n, |i: int| 0nat);
    let m0 = initial(n, s);
    lemma_sum_zero_done(g, s);
    let d = lemma_run_inv(g, s, m0, depth0, t, n);
    let m = final_marks(g, start, goal);
    assert(m == run(g, m0, t, n));
    let w0 = choose|w: Seq<Hop>| is_walk(g, s, w, t);
    lemma_walk_reaches(g, s, m, d, w0, t);
    assert(m[t].done);
    lemma_depth_bound(g, s, m, d, t);
    let w = lemma_trace_walk(g, s, m, d, t, n);
    assert(is_walk(g, s, w, t) && r.passages == render(g, s, w) && r.total_cost == walk_cost(g, w));
    assert forall|o: Seq<Hop>| #[trigger] is_walk(g, s, o, t) implies r.total_cost <= walk_cost(
        g,
        o,
    ) by {
        lemma_walk_reaches(g, s, m, d, o, t);
        if !(m[t].done && m[t].costed <= walk_cost(g, o)) {
            let y = choose|y: int|
                0 <= y < m.len() && waiting(#[trigger] m[y]) && m[y].costed <= walk_cost(g, o);
            assert(m[t].costed <= m[y].costed);
        }
    }
}

/// At the beginning of a query no node is final.
proof fn lemma_sum_zero_done(g: Seq<NodeView>, s: int)
    ensures
        done_count(initial(g.len(), s)) == 0,
{
    lemma_none_done(initial(g.len(), s), g.len());
}

proof fn lemma_none_done(marks: Seq<Mark>, k: nat)
    requires
        k <= marks.len(),
        forall|i: int| 0 <= i < marks.len() ==> !(#[trigger] marks[i]).done,
    ensures
        done_weight(marks, ones(marks.len()), k) == 0,
    decreases k,
{
    if k > 0 {
        lemma_none_done(marks, (k - 1) as nat);
    }
}

/// Where the goal cannot be reached from the start, be it that one of the
/// two is no node of the graph or that no walk leads from one to the other,
/// the query finds no way.
pub proof fn law_unreachable(g: Seq<NodeView>, start: Seq<char>, goal: Seq<char>)
    requires
        well_formed(g),
        nonnegative(g),
        !reachable(g, start, goal),
    ensures
        route(g, start, goal) == no_route(),
{
    if has_node(g, start) && has_node(g, goal) {
        let n = g.len();
        let s = index_of(g, start);
        let t = index_of(g, goal);
        lemma_initial_inv(g, s);
        let depth0 = Seq::new(n, |i: int| 0nat);
        lemma_sum_zero_done(g, s);
        let d = lemma_run_inv(g, s, initial(n, s), depth0, t, n);
        let m = final_marks(g, start, goal);
        if m[t].costed >= 0 {
            lemma_depth_bound(g, s, m, d, t);
            let w = lemma_trace_walk(g, s, m, d, t, n);
            assert(is_walk(g, s, w, t));
        }
    }
}

/// A query from a node to itself finds the way that consists of that node
/// alone, at no cost.
pub proof fn law_same_node(g: Seq<NodeView>, start: Seq<char>)
    requires
        well_formed(g),
        nonnegative(g),
        has_node(g, start),
    ensures
        route(g, start, start) == (RouteView {
            passages: seq![WayView::Node(start)],
            total_cost: 0,
        }),
{
    let n = g.len();
    let s = index_of(g, start);
    lemma_initial_inv(g, s);
    let depth0 = Seq::new(n, |i: int| 0nat);
    lemma_sum_zero_done(g, s);
    let d = lemma_run_inv(g, s, initial(n, s), depth0, s, n);
}

/// The edges on a walk's way weigh together what the walk costs.
pub proof fn lemma_render_cost(g: Seq<NodeView>, from: int, w: Seq<Hop>)
    ensures
        edge_costs(render(g, from, w)) == walk_cost(g, w),
    decreases w.len(),
{
    let way = render(g, from, w);
    if w.len() == 0 {
        assert(way.drop_last() =~= Seq::<WayView>::empty());
        assert(edge_costs(way) == edge_costs(way.drop_last()));
    } else {
        let e = hop_edge(g, w.last());
        let inner = render(g, from, w.drop_last());
        let mid = inner.push(WayView::Edge(e.name, e.cost));
        lemma_render_cost(g, from, w.drop_last());
        assert(way == mid.push(WayView::Node(e.next)));
        assert(way.drop_last() =~= mid);
        assert(mid.drop_last() =~= inner);
        assert(edge_costs(way) == edge_costs(mid));
        assert(edge_costs(mid) == edge_costs(inner) + e.cost);
    }
}

/// Where the goal can be reached, the answer's cost is the weights of the
/// edges on its way, added up.
pub proof fn law_cost_is_sum(g: Seq<NodeView>, start: Seq<char>, goal: Seq<char>)
    requires
        well_formed(g),
        nonnegative(g),
        reachable(g, start, goal),
    ensures
        route(g, start, goal).total_cost == edge_costs(route(g, start, goal).passages),
{
    law_shortest(g, start, goal);
    let r = route(g, start, goal);
    let w = choose|w: Seq<Hop>|
        {
            &&& #[trigger] is_walk(g, index_of(g, start), w, index_of(g, goal))
            &&& r.passages == render(g, index_of(g, start), w)
            &&& r.total_cost == walk_cost(g, w)
        };
    lemma_render_cost(g, index_of(g, start), w);
}

/// A query's answer depends on nothing but the nodes and edges of the
/// graph: asked again of a graph with the same nodes and edges, whatever
/// earlier queries have left behind in it, it is the same.
pub proof fn law_repeatable(
    before: Seq<NodeView>,
    after: Seq<NodeView>,
    start: Seq<char>,
    goal: Seq<char>,
)
    requires
        after == before,
    ensures
        route(after, start, goal) == route(before, start, goal),
{
}

/// Looking at the edges of a node that has been reached never raises a
/// distance that is known, nor makes it unknown again.
pub proof fn law_relax_never_raises(g: Seq<NodeView>, marks: Seq<Mark>, u: int, k: nat)
    requires
        edges_closed(g),
        nonnegative(g),
        marks.len() == g.len(),
        0 <= u < g.len(),
        marks[u].costed >= 0,
        k <= g[u].edges.len(),
    ensures
        relax(g, marks, u, k).len() == marks.len(),
        forall|a: int|
            0 <= a < marks.len() && marks[a].costed >= 0 ==> 0 <= (#[trigger] relax(
                g,
                marks,
                u,
                k,
            )[a]).costed <= marks[a].costed,
    decreases k,
{
    if k > 0 {
        law_relax_never_raises(g, marks, u, (k - 1) as nat);
        let m1 = relax(g, marks, u, (k - 1) as nat);
        let e = g[u].edges[k - 1];
        assert(has_node(g, e.next));
        assert(e.cost >= 0);
        let m2 = relax_edge(g, m1, u, e);
        assert(0 <= m1[u].costed);
        assert forall|a: int| 0 <= a < marks.len() && marks[a].costed >= 0 implies 0 <= (
        #[trigger] m2[a]).costed <= marks[a].costed by {
            assert(0 <= m1[a].costed <= marks[a].costed);
        }
    }
}

/// Throughout a search, no distance that is known is ever raised, nor made
/// unknown again.
pub proof fn law_never_raises(g: Seq<NodeView>, marks: Seq<Mark>, goal: int, fuel: nat)
    requires
        edges_closed(g),
        nonnegative(g),
        marks.len() == g.len(),
    ensures
        run(g, marks, goal, fuel).len() == marks.len(),
        forall|a: int|
            0 <= a < marks.len() && marks[a].costed >= 0 ==> 0 <= (#[trigger] run(
                g,
                marks,
                goal,
                fuel,
            )[a]).costed <= marks[a].costed,
    decreases fuel,
{
    lemma_pick(marks);
    let u = pick(marks);
    if fuel == 0 || u < 0 {
    } else {
        law_relax_never_raises(g, marks, u, g[u].edges.len());
        let m1 = settle(g, marks, u);
        assert forall|a: int| 0 <= a < marks.len() && marks[a].costed >= 0 implies 0 <= (
        #[trigger] m1[a]).costed <= marks[a].costed by {
            assert(0 <= relax(g, marks, u, g[u].edges.len())[a].costed <= marks[a].costed);
        }
        if u != goal {
            law_never_raises(g, m1, goal, (fuel - 1) as nat);
            let m2 = run(g, m1, goal, (fuel - 1) as nat);
            assert forall|a: int| 0 <= a < marks.len() && marks[a].costed >= 0 implies 0 <= (
            #[trigger] m2[a]).costed <= marks[a].costed by {
                assert(0 <= m1[a].costed <= marks[a].costed);
            }
        }
    }
}

} // verus!
