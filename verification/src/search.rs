//! The search as mathematics: the bookkeeping that a query keeps per node,
//! the steps that change it, and what holds of it while the search runs.

use crate::model::{
    has_node, hop_edge, index_of, is_walk, lemma_index_of, lemma_out_weight,
    lemma_weights_nonnegative, nonnegative, sum, total_weight, walk_cost, weights, well_formed,
    EdgeView, Hop, NodeView,
};
use crate::route::{no_route, render, RouteView, WayView};
use vstd::prelude::*;

verus! {

/// What a query notes down for one node.
pub struct Mark {
    /// The best distance from the start found so far; -1 while none is known.
    pub costed: int,
    /// Whether the distance is final.
    pub done: bool,
    /// The node before this one on the best way found so far.
    pub prev: Option<Seq<char>>,
    /// The edge that leads here from `prev`.
    pub passage: Option<EdgeView>,
}

pub open spec fn fresh() -> Mark {
    Mark { costed: -1, done: false, prev: None, passage: None }
}

/// The mark of a node that was first mentioned as the target of an edge from
/// `src`: nothing is known of it, and `src` stands in for the node before it.
pub open spec fn fresh_after(src: Seq<char>) -> Mark {
    Mark { costed: -1, done: false, prev: Some(src), passage: None }
}

/// The marks of a graph that makes sure of a node called `name`: those it
/// had, and `mark` behind them where the node is new.
pub open spec fn with_mark(
    g: Seq<NodeView>,
    marks: Seq<Mark>,
    name: Seq<char>,
    mark: Mark,
) -> Seq<Mark> {
    if has_node(g, name) {
        marks
    } else {
        marks.push(mark)
    }
}

/// The marks at the beginning of a query that starts at node `s`.
pub open spec fn initial(n: nat, s: int) -> Seq<Mark> {
    Seq::new(
        n,
        |i: int|
            if i == s {
                Mark { costed: 0, done: false, prev: None, passage: None }
            } else {
                fresh()
            },
    )
}

/// Reached, but not final yet.
pub open spec fn waiting(m: Mark) -> bool {
    !m.done && m.costed >= 0
}

pub open spec fn none_waiting(marks: Seq<Mark>) -> bool {
    forall|j: int| 0 <= j < marks.len() ==> !waiting(#[trigger] marks[j])
}

/// Whether node `i` is, of the first `k` nodes, the nearest that is waiting,
/// and the first of them where several are equally near.
pub open spec fn is_pick_among(marks: Seq<Mark>, i: int, k: int) -> bool {
    &&& 0 <= i < k
    &&& waiting(marks[i])
    &&& forall|j: int| 0 <= j < k && waiting(#[trigger] marks[j]) ==> marks[i].costed <= marks[j].costed
    &&& forall|j: int| 0 <= j < i && waiting(#[trigger] marks[j]) ==> marks[i].costed < marks[j].costed
}

/// Whether node `i` is the one to settle next: the nearest of the waiting
/// nodes, and the first of them where several are equally near.
pub open spec fn is_pick(marks: Seq<Mark>, i: int) -> bool {
    is_pick_among(marks, i, marks.len() as int)
}

/// The node to settle next, or -1 where none is waiting.
pub open spec fn pick(marks: Seq<Mark>) -> int {
    if exists|i: int| is_pick(marks, i) {
        choose|i: int| is_pick(marks, i)
    } else {
        -1
    }
}

/// Whether edge `e`, leaving node `u`, gives its target a distance where it
/// had none, or a smaller one.
pub open spec fn improves(g: Seq<NodeView>, marks: Seq<Mark>, u: int, e: EdgeView) -> bool {
    let v = index_of(g, e.next);
    !marks[v].done && (marks[v].costed == -1 || marks[u].costed + e.cost < marks[v].costed)
}

/// The marks after edge `e`, leaving node `u`, has been looked at.
pub open spec fn relax_edge(g: Seq<NodeView>, marks: Seq<Mark>, u: int, e: EdgeView) -> Seq<
    Mark,
> {
    if improves(g, marks, u, e) {
        marks.update(
            index_of(g, e.next),
            Mark {
                costed: marks[u].costed + e.cost,
                done: false,
                prev: Some(g[u].name),
                passage: Some(e),
            },
        )
    } else {
        marks
    }
}

/// The marks after the first `k` edges of node `u` have been looked at, in
/// their order.
pub open spec fn relax(g: Seq<NodeView>, marks: Seq<Mark>, u: int, k: nat) -> Seq<Mark>
    decreases k,
{
    if k == 0 {
        marks
    } else {
        relax_edge(g, relax(g, marks, u, (k - 1) as nat), u, g[u].edges[k - 1])
    }
}

/// `marks` with node `u` final.
pub open spec fn finish(marks: Seq<Mark>, u: int) -> Seq<Mark> {
    marks.update(
        u,
        Mark {
            costed: marks[u].costed,
            done: true,
            prev: marks[u].prev,
            passage: marks[u].passage,
        },
    )
}

/// The marks after node `u` has been settled: all its edges looked at, then
/// the node made final.
pub open spec fn settle(g: Seq<NodeView>, marks: Seq<Mark>, u: int) -> Seq<Mark> {
    finish(relax(g, marks, u, g[u].edges.len()), u)
}

/// The marks when the search stops: no node is waiting, node `goal` has just
/// been settled, or `fuel` rounds have been made.
pub open spec fn run(g: Seq<NodeView>, marks: Seq<Mark>, goal: int, fuel: nat) -> Seq<Mark>
    decreases fuel,
{
    let u = pick(marks);
    if fuel == 0 || u < 0 {
        marks
    } else if u == goal {
        settle(g, marks, u)
    } else {
        run(g, settle(g, marks, u), goal, (fuel - 1) as nat)
    }
}

/// Of the first `n` nodes, the numbers `w` of those that are final, added up.
pub open spec fn done_weight(marks: Seq<Mark>, w: Seq<int>, n: nat) -> int
    decreases n,
{
    if n == 0 {
        0
    } else {
        done_weight(marks, w, (n - 1) as nat) + if marks[n - 1].done {
            w[n - 1]
        } else {
            0
        }
    }
}

pub open spec fn ones(n: nat) -> Seq<int> {
    Seq::new(n, |i: int| 1int)
}

/// How many of the nodes are final.
pub open spec fn done_count(marks: Seq<Mark>) -> int {
    done_weight(marks, ones(marks.len()), marks.len())
}

/// The weights of all edges that leave final nodes, added up.
pub open spec fn spent(g: Seq<NodeView>, marks: Seq<Mark>) -> int {
    done_weight(marks, weights(g), g.len())
}

pub proof fn lemma_done_weight_bounds(marks: Seq<Mark>, w: Seq<int>, n: nat)
    requires
        n <= w.len(),
        forall|i: int| 0 <= i < n ==> #[trigger] w[i] >= 0,
    ensures
        0 <= done_weight(marks, w, n) <= sum(w, n),
    decreases n,
{
    if n > 0 {
        lemma_done_weight_bounds(marks, w, (n - 1) as nat);
    }
}

/// A node that is not final leaves room for its number.
pub proof fn lemma_done_weight_room(marks: Seq<Mark>, w: Seq<int>, n: nat, u: int)
    requires
        n <= w.len(),
        forall|i: int| 0 <= i < n ==> #[trigger] w[i] >= 0,
        0 <= u < n,
        !marks[u].done,
    ensures
        done_weight(marks, w, n) + w[u] <= sum(w, n),
    decreases n,
{
    if n - 1 == u {
        lemma_done_weight_bounds(marks, w, (n - 1) as nat);
    } else {
        lemma_done_weight_room(marks, w, (n - 1) as nat, u);
    }
}

pub proof fn lemma_done_weight_same(a: Seq<Mark>, b: Seq<Mark>, w: Seq<int>, n: nat)
    requires
        forall|i: int| 0 <= i < n ==> (#[trigger] b[i]).done == a[i].done,
    ensures
        done_weight(b, w, n) == done_weight(a, w, n),
    decreases n,
{
    if n > 0 {
        lemma_done_weight_same(a, b, w, (n - 1) as nat);
    }
}

/// Making node `u` final adds its number.
pub proof fn lemma_done_weight_finish(a: Seq<Mark>, w: Seq<int>, n: nat, u: int)
    requires
        n <= a.len(),
        0 <= u < a.len(),
        !a[u].done,
    ensures
        done_weight(finish(a, u), w, n) == done_weight(a, w, n) + if u < n {
            w[u]
        } else {
            0
        },
    decreases n,
{
    if n > 0 {
        lemma_done_weight_finish(a, w, (n - 1) as nat, u);
    }
}

pub proof fn lemma_sum_ones(n: nat, k: nat)
    requires
        k <= n,
    ensures
        sum(ones(n), k) == k,
    decreases k,
{
    if k > 0 {
        lemma_sum_ones(n, (k - 1) as nat);
    }
}

/// Node `v` hangs on a node that is final, or on node `x`, by an edge of the
/// graph that accounts for its distance.
pub open spec fn linked(
    g: Seq<NodeView>,
    marks: Seq<Mark>,
    depth: Seq<nat>,
    x: int,
    v: int,
) -> bool {
    match (marks[v].prev, marks[v].passage) {
        (Some(p), Some(e)) => {
            let u = index_of(g, p);
            &&& has_node(g, p)
            &&& (marks[u].done || u == x)
            &&& g[u].edges.contains(e)
            &&& e.next == g[v].name
            &&& marks[v].costed == marks[u].costed + e.cost
            &&& depth[v] == depth[u] + 1
        },
        _ => false,
    }
}

/// Edge `j` of node `u` offers its target nothing better than it has.
pub open spec fn relaxed(g: Seq<NodeView>, marks: Seq<Mark>, u: int, j: int) -> bool {
    let e = g[u].edges[j];
    let v = index_of(g, e.next);
    0 <= marks[v].costed <= marks[u].costed + e.cost
}

pub open spec fn shape(
    g: Seq<NodeView>,
    s: int,
    marks: Seq<Mark>,
    depth: Seq<nat>,
    x: int,
    k: int,
) -> bool {
    &&& marks.len() == g.len()
    &&& depth.len() == g.len()
    &&& 0 <= s < g.len()
    &&& -1 <= x < g.len()
    &&& x >= 0 ==> waiting(marks[x]) && 0 <= k <= g[x].edges.len()
    &&& marks[s].costed == 0
    &&& forall|v: int| 0 <= v < marks.len() ==> (#[trigger] marks[v]).costed >= -1
    &&& forall|v: int| 0 <= v < marks.len() && (#[trigger] marks[v]).done ==> marks[v].costed >= 0
}

pub open spec fn tree(g: Seq<NodeView>, s: int, marks: Seq<Mark>, depth: Seq<nat>, x: int) -> bool {
    forall|v: int|
        0 <= v < marks.len() && v != s && (#[trigger] marks[v]).costed >= 0 ==> linked(
            g,
            marks,
            depth,
            x,
            v,
        )
}

pub open spec fn closed(g: Seq<NodeView>, marks: Seq<Mark>, x: int, k: int) -> bool {
    forall|u: int, j: int|
        0 <= u < g.len() && 0 <= j < g[u].edges.len() && (marks[u].done || (u == x && j < k))
            ==> #[trigger] relaxed(g, marks, u, j)
}

pub open spec fn sorted(marks: Seq<Mark>, x: int) -> bool {
    &&& forall|u: int, v: int|
        0 <= u < marks.len() && 0 <= v < marks.len() && (#[trigger] marks[u]).done && waiting(
            #[trigger] marks[v],
        ) ==> marks[u].costed <= marks[v].costed
    &&& x >= 0 ==> forall|v: int|
        0 <= v < marks.len() && waiting(#[trigger] marks[v]) ==> marks[x].costed
            <= marks[v].costed
}

pub open spec fn bounded(g: Seq<NodeView>, marks: Seq<Mark>, depth: Seq<nat>, x: int) -> bool {
    &&& forall|v: int|
        0 <= v < marks.len() ==> (#[trigger] marks[v]).costed <= spent(g, marks) + if x >= 0 {
            weights(g)[x]
        } else {
            0
        }
    &&& forall|v: int|
        0 <= v < marks.len() && (#[trigger] marks[v]).costed >= 0 ==> depth[v] <= done_count(marks)
            + if x >= 0 {
            1int
        } else {
            0
        }
    &&& x >= 0 ==> marks[x].costed <= spent(g, marks) && depth[x] <= done_count(marks)
}

/// What holds of the marks between two rounds (`x` is -1), and within the
/// round that settles node `x`, after `k` of its edges.
pub open spec fn inv(
    g: Seq<NodeView>,
    s: int,
    marks: Seq<Mark>,
    depth: Seq<nat>,
    x: int,
    k: int,
) -> bool {
    &&& shape(g, s, marks, depth, x, k)
    &&& tree(g, s, marks, depth, x)
    &&& closed(g, marks, x, k)
    &&& sorted(marks, x)
    &&& bounded(g, marks, depth, x)
}

pub proof fn lemma_initial_inv(g: Seq<NodeView>, s: int)
    requires
        0 <= s < g.len(),
        nonnegative(g),
    ensures
        inv(g, s, initial(g.len(), s), Seq::new(g.len(), |i: int| 0nat), -1, 0),
{
    let marks = initial(g.len(), s);
    let w = weights(g);
    lemma_weights_nonnegative(g);
    lemma_done_weight_bounds(marks, w, g.len());
    lemma_done_weight_bounds(marks, ones(g.len()), g.len());
}

pub proof fn lemma_pick_inv(g: Seq<NodeView>, s: int, marks: Seq<Mark>, depth: Seq<nat>, u: int)
    requires
        inv(g, s, marks, depth, -1, 0),
        nonnegative(g),
        is_pick(marks, u),
    ensures
        inv(g, s, marks, depth, u, 0),
{
    lemma_out_weight(g[u].edges, g[u].edges.len(), 0);
    assert forall|a: int, j: int|
        0 <= a < g.len() && 0 <= j < g[a].edges.len() && (marks[a].done || (a == u && j < 0))
        implies #[trigger] relaxed(g, marks, a, j) by {}
}

/// The depths that go with `relax_edge`: a node that the edge improves lies
/// one step below the node that the edge leaves.
pub open spec fn relax_depth(
    g: Seq<NodeView>,
    marks: Seq<Mark>,
    depth: Seq<nat>,
    u: int,
    e: EdgeView,
) -> Seq<nat> {
    if improves(g, marks, u, e) {
        depth.update(index_of(g, e.next), depth[u] + 1)
    } else {
        depth
    }
}

/// Looking at the next edge of the node that is being settled keeps what
/// holds of the marks, changes no node but the edge's target, makes no node
/// final, and raises no distance.
pub proof fn lemma_relax_edge_inv(
    g: Seq<NodeView>,
    s: int,
    marks: Seq<Mark>,
    depth: Seq<nat>,
    x: int,
    k: int,
)
    requires
        well_formed(g),
        nonnegative(g),
        inv(g, s, marks, depth, x, k),
        0 <= x,
        k < g[x].edges.len(),
    ensures
        inv(
            g,
            s,
            relax_edge(g, marks, x, g[x].edges[k]),
            relax_depth(g, marks, depth, x, g[x].edges[k]),
            x,
            k + 1,
        ),
        0 <= index_of(g, g[x].edges[k].next) < g.len(),
        g[index_of(g, g[x].edges[k].next)].name == g[x].edges[k].next,
        marks[x].costed + g[x].edges[k].cost <= spent(g, marks) + weights(g)[x],
        relax_edge(g, marks, x, g[x].edges[k])[x] == marks[x],
        forall|a: int|
            0 <= a < marks.len() ==> (#[trigger] relax_edge(g, marks, x, g[x].edges[k])[a]).done
                == marks[a].done,
{
    let e = g[x].edges[k];
    let v = index_of(g, e.next);
    let n = g.len();
    assert(has_node(g, e.next));
    assert(e.cost >= 0);
    let m2 = relax_edge(g, marks, x, e);
    let d2 = relax_depth(g, marks, depth, x, e);
    lemma_index_of(g, x);
    lemma_out_weight(g[x].edges, g[x].edges.len(), k);
    lemma_done_weight_same(marks, m2, weights(g), n);
    lemma_done_weight_same(marks, m2, ones(n), n);
    assert(spent(g, m2) == spent(g, marks));
    assert(done_count(m2) == done_count(marks));
    if improves(g, marks, x, e) {
        assert(v != x);
        assert(v != s);
        assert forall|a: int|
            0 <= a < m2.len() && a != s && (#[trigger] m2[a]).costed >= 0 implies linked(
            g,
            m2,
            d2,
            x,
            a,
        ) by {
            if a == v {
                assert(g[x].edges[k] == e);
            } else {
                assert(m2[a] == marks[a]);
                assert(linked(g, marks, depth, x, a));
                let u = index_of(g, marks[a].prev->0);
                assert(u != v);
            }
        }
        assert forall|u: int, j: int|
            0 <= u < g.len() && 0 <= j < g[u].edges.len() && (m2[u].done || (u == x && j < k
                + 1)) implies #[trigger] relaxed(g, m2, u, j) by {
            if u == x && j == k {
            } else {
                assert(relaxed(g, marks, u, j));
            }
        }
        assert(sorted(m2, x));
        assert(bounded(g, m2, d2, x));
    } else {
        assert(m2 == marks);
        assert forall|u: int, j: int|
            0 <= u < g.len() && 0 <= j < g[u].edges.len() && (m2[u].done || (u == x && j < k
                + 1)) implies #[trigger] relaxed(g, m2, u, j) by {
            if u == x && j == k {
                assert(marks[v].costed >= -1);
            } else {
                assert(relaxed(g, marks, u, j));
            }
        }
    }
}

/// What the next edge of the node that is being settled offers is neither
/// negative nor more than all edges of the graph weigh together.
pub proof fn lemma_offer_fits(
    g: Seq<NodeView>,
    s: int,
    marks: Seq<Mark>,
    depth: Seq<nat>,
    x: int,
    k: int,
)
    requires
        well_formed(g),
        nonnegative(g),
        inv(g, s, marks, depth, x, k),
        0 <= x,
        k < g[x].edges.len(),
    ensures
        0 <= marks[x].costed + g[x].edges[k].cost <= total_weight(g),
{
    let w = weights(g);
    lemma_weights_nonnegative(g);
    lemma_out_weight(g[x].edges, g[x].edges.len(), k);
    lemma_done_weight_room(marks, w, g.len(), x);
    assert(g[x].edges[k].cost >= 0);
}

/// Making the node final whose edges have all been looked at ends the round.
pub proof fn lemma_finish_inv(
    g: Seq<NodeView>,
    s: int,
    marks: Seq<Mark>,
    depth: Seq<nat>,
    x: int,
)
    requires
        well_formed(g),
        nonnegative(g),
        0 <= x,
        inv(g, s, marks, depth, x, g[x].edges.len() as int),
    ensures
        inv(g, s, finish(marks, x), depth, -1, 0),
        done_count(finish(marks, x)) == done_count(marks) + 1,
        spent(g, finish(marks, x)) == spent(g, marks) + weights(g)[x],
{
    let n = g.len();
    let m2 = finish(marks, x);
    lemma_done_weight_finish(marks, weights(g), n, x);
    lemma_done_weight_finish(marks, ones(n), n, x);
    assert forall|a: int|
        0 <= a < m2.len() && a != s && (#[trigger] m2[a]).costed >= 0 implies linked(
        g,
        m2,
        depth,
        -1,
        a,
    ) by {
        assert(marks[a].costed >= 0);
        assert(linked(g, marks, depth, x, a));
    }
    assert forall|u: int, j: int|
        0 <= u < g.len() && 0 <= j < g[u].edges.len() && (m2[u].done || (u == -1 && j < 0))
        implies #[trigger] relaxed(g, m2, u, j) by {
        assert(relaxed(g, marks, u, j));
    }
    assert(sorted(m2, -1));
    assert(bounded(g, m2, depth, -1));
}

/// The choice among the first `k` nodes, found by going through them in
/// order; -1 where none of them is waiting.
pub open spec fn scan(marks: Seq<Mark>, k: nat) -> int
    decreases k,
{
    if k == 0 {
        -1
    } else {
        let b = scan(marks, (k - 1) as nat);
        if waiting(marks[k - 1]) && (b < 0 || marks[k - 1].costed < marks[b].costed) {
            k - 1
        } else {
            b
        }
    }
}

pub proof fn lemma_scan(marks: Seq<Mark>, k: nat)
    requires
        k <= marks.len(),
    ensures
        scan(marks, k) == -1 || is_pick_among(marks, scan(marks, k), k as int),
        scan(marks, k) == -1 ==> forall|j: int| 0 <= j < k ==> !waiting(#[trigger] marks[j]),
    decreases k,
{
    if k > 0 {
        lemma_scan(marks, (k - 1) as nat);
    }
}

/// At most one node is the one to settle next, and `pick` names it; where
/// `pick` names none, no node is waiting.
pub proof fn lemma_pick(marks: Seq<Mark>)
    ensures
        pick(marks) == -1 ==> none_waiting(marks),
        pick(marks) != -1 ==> is_pick(marks, pick(marks)),
        forall|i: int| is_pick(marks, i) ==> pick(marks) == i,
{
    lemma_scan(marks, marks.len());
    let b = scan(marks, marks.len());
    if b != -1 {
        assert(is_pick(marks, b));
    }
    assert forall|i: int| is_pick(marks, i) implies pick(marks) == i by {
        let p = pick(marks);
        assert(is_pick(marks, p));
        if i < p {
            assert(waiting(marks[i]));
        } else if p < i {
            assert(waiting(marks[p]));
        }
    }
}

/// Looking at the first `k` edges of the node that is being settled keeps
/// what holds of the marks. The depths that go with the new marks are
/// returned.
pub proof fn lemma_relax_inv(
    g: Seq<NodeView>,
    s: int,
    marks: Seq<Mark>,
    depth: Seq<nat>,
    x: int,
    k: nat,
) -> (d: Seq<nat>)
    requires
        well_formed(g),
        nonnegative(g),
        inv(g, s, marks, depth, x, 0),
        0 <= x,
        k <= g[x].edges.len(),
    ensures
        inv(g, s, relax(g, marks, x, k), d, x, k as int),
        relax(g, marks, x, k)[x] == marks[x],
        spent(g, relax(g, marks, x, k)) == spent(g, marks),
        done_count(relax(g, marks, x, k)) == done_count(marks),
        forall|a: int|
            0 <= a < marks.len() ==> (#[trigger] relax(g, marks, x, k)[a]).done == marks[a].done,
    decreases k,
{
    if k == 0 {
        depth
    } else {
        let d1 = lemma_relax_inv(g, s, marks, depth, x, (k - 1) as nat);
        let m1 = relax(g, marks, x, (k - 1) as nat);
        lemma_relax_edge_inv(g, s, m1, d1, x, k - 1);
        let m2 = relax(g, marks, x, k);
        lemma_done_weight_same(m1, m2, weights(g), g.len());
        lemma_done_weight_same(m1, m2, ones(g.len()), g.len());
        relax_depth(g, m1, d1, x, g[x].edges[k - 1])
    }
}

/// A round keeps what holds of the marks, and makes one more node final.
pub proof fn lemma_settle_inv(
    g: Seq<NodeView>,
    s: int,
    marks: Seq<Mark>,
    depth: Seq<nat>,
    u: int,
) -> (d: Seq<nat>)
    requires
        well_formed(g),
        nonnegative(g),
        inv(g, s, marks, depth, -1, 0),
        is_pick(marks, u),
    ensures
        inv(g, s, settle(g, marks, u), d, -1, 0),
        done_count(settle(g, marks, u)) == done_count(marks) + 1,
        settle(g, marks, u)[u].done,
{
    lemma_pick_inv(g, s, marks, depth, u);
    let d = lemma_relax_inv(g, s, marks, depth, u, g[u].edges.len());
    lemma_finish_inv(g, s, relax(g, marks, u, g[u].edges.len()), d, u);
    d
}

/// The search has stopped for good: nothing is left to settle, or the goal
/// has been settled.
pub open spec fn stopped(marks: Seq<Mark>, goal: int) -> bool {
    none_waiting(marks) || (0 <= goal < marks.len() && marks[goal].done)
}

/// Where every node is final, none is waiting.
pub proof fn lemma_all_done(marks: Seq<Mark>)
    requires
        done_count(marks) >= marks.len(),
    ensures
        none_waiting(marks),
{
    let n = marks.len();
    lemma_sum_ones(n, n);
    assert forall|j: int| 0 <= j < marks.len() implies !waiting(#[trigger] marks[j]) by {
        if !marks[j].done {
            lemma_done_weight_room(marks, ones(n), n, j);
        }
    }
}

/// With as many rounds allowed as nodes are not final yet, the search keeps
/// what holds of the marks and stops for good.
pub proof fn lemma_run_inv(
    g: Seq<NodeView>,
    s: int,
    marks: Seq<Mark>,
    depth: Seq<nat>,
    goal: int,
    fuel: nat,
) -> (d: Seq<nat>)
    requires
        well_formed(g),
        nonnegative(g),
        inv(g, s, marks, depth, -1, 0),
        done_count(marks) + fuel >= g.len(),
    ensures
        inv(g, s, run(g, marks, goal, fuel), d, -1, 0),
        stopped(run(g, marks, goal, fuel), goal),
    decreases fuel,
{
    lemma_pick(marks);
    let u = pick(marks);
    if fuel == 0 {
        lemma_all_done(marks);
        depth
    } else if u < 0 {
        depth
    } else {
        let d1 = lemma_settle_inv(g, s, marks, depth, u);
        if u == goal {
            d1
        } else {
            lemma_run_inv(g, s, settle(g, marks, u), d1, goal, (fuel - 1) as nat)
        }
    }
}

/// Whatever walk leads from the start to a node, either that node is final
/// and no farther than the walk is long, or some waiting node is no farther
/// than that.
pub proof fn lemma_walk_reaches(
    g: Seq<NodeView>,
    s: int,
    marks: Seq<Mark>,
    depth: Seq<nat>,
    w: Seq<Hop>,
    v: int,
)
    requires
        well_formed(g),
        nonnegative(g),
        inv(g, s, marks, depth, -1, 0),
        is_walk(g, s, w, v),
    ensures
        0 <= v < g.len(),
        0 <= walk_cost(g, w),
        (marks[v].done && marks[v].costed <= walk_cost(g, w)) || exists|y: int|
            0 <= y < marks.len() && waiting(#[trigger] marks[y]) && marks[y].costed <= walk_cost(
                g,
                w,
            ),
    decreases w.len(),
{
    if w.len() == 0 {
        assert(marks[s].costed == 0);
        if !marks[s].done {
            assert(waiting(marks[s]));
        }
    } else {
        let h = w.last();
        let e = hop_edge(g, h);
        lemma_walk_reaches(g, s, marks, depth, w.drop_last(), h.node);
        assert(e.cost >= 0);
        lemma_index_of(g, v);
        if marks[h.node].done && marks[h.node].costed <= walk_cost(g, w.drop_last()) {
            assert(relaxed(g, marks, h.node, h.edge));
            if !marks[v].done {
                assert(waiting(marks[v]));
            }
        } else {
            let y = choose|y: int|
                0 <= y < marks.len() && waiting(#[trigger] marks[y]) && marks[y].costed
                    <= walk_cost(g, w.drop_last());
            assert(waiting(marks[y]));
        }
    }
}

/// The way from the start `s` to node `v` that the marks record, found by
/// going back from `v` over at most `fuel` nodes.
pub open spec fn trace(g: Seq<NodeView>, marks: Seq<Mark>, s: int, v: int, fuel: nat) -> Seq<
    WayView,
>
    decreases fuel,
{
    if v == s || fuel == 0 {
        seq![WayView::Node(g[v].name)]
    } else {
        match (marks[v].prev, marks[v].passage) {
            (Some(p), Some(e)) => trace(g, marks, s, index_of(g, p), (fuel - 1) as nat).push(
                WayView::Edge(e.name, e.cost),
            ).push(WayView::Node(g[v].name)),
            _ => seq![WayView::Node(g[v].name)],
        }
    }
}

/// The position of the goal, or -1 where the graph has no such node.
pub open spec fn goal_index(g: Seq<NodeView>, goal: Seq<char>) -> int {
    if has_node(g, goal) {
        index_of(g, goal)
    } else {
        -1
    }
}

/// The marks at the end of a query from `start` to `goal`.
pub open spec fn final_marks(g: Seq<NodeView>, start: Seq<char>, goal: Seq<char>) -> Seq<Mark> {
    run(g, initial(g.len(), index_of(g, start)), goal_index(g, goal), g.len())
}

/// The answer to a query from `start` to `goal`. It depends on the nodes and
/// edges of the graph alone.
pub open spec fn route(g: Seq<NodeView>, start: Seq<char>, goal: Seq<char>) -> RouteView {
    if !has_node(g, start) || !has_node(g, goal) {
        no_route()
    } else {
        let marks = final_marks(g, start, goal);
        let t = index_of(g, goal);
        if marks[t].costed < 0 {
            no_route()
        } else {
            RouteView {
                passages: trace(g, marks, index_of(g, start), t, g.len()),
                total_cost: marks[t].costed,
            }
        }
    }
}

/// The way that the marks record to a node that has been reached is a walk
/// from the start to that node, as long as the node's distance says.
pub proof fn lemma_trace_walk(
    g: Seq<NodeView>,
    s: int,
    marks: Seq<Mark>,
    depth: Seq<nat>,
    v: int,
    fuel: nat,
) -> (w: Seq<Hop>)
    requires
        well_formed(g),
        inv(g, s, marks, depth, -1, 0),
        0 <= v < g.len(),
        marks[v].costed >= 0,
        depth[v] <= fuel,
    ensures
        is_walk(g, s, w, v),
        render(g, s, w) == trace(g, marks, s, v, fuel),
        walk_cost(g, w) == marks[v].costed,
    decreases fuel,
{
    if v == s {
        Seq::empty()
    } else {
        assert(linked(g, marks, depth, -1, v));
        let p = marks[v].prev->0;
        let e = marks[v].passage->0;
        let u = index_of(g, p);
        assert(marks[u].done);
        let w1 = lemma_trace_walk(g, s, marks, depth, u, (fuel - 1) as nat);
        let k = choose|k: int| 0 <= k < g[u].edges.len() && g[u].edges[k] == e;
        let w = w1.push(Hop { node: u, edge: k });
        assert(w.drop_last() =~= w1);
        assert(w.last() == Hop { node: u, edge: k });
        w
    }
}

/// What holds of the marks between rounds, as a whole.
pub closed spec fn at_rest(g: Seq<NodeView>, s: int, marks: Seq<Mark>, depth: Seq<nat>) -> bool {
    inv(g, s, marks, depth, -1, 0)
}

pub proof fn lemma_at_rest(g: Seq<NodeView>, s: int, marks: Seq<Mark>, depth: Seq<nat>)
    ensures
        at_rest(g, s, marks, depth) == inv(g, s, marks, depth, -1, 0),
{
}

/// A node that has been reached and is not the start hangs on a node that
/// has been reached too and lies less deep, and its way is the way to that
/// node, then the edge between the two, then the node itself.
pub proof fn lemma_trace_step(
    g: Seq<NodeView>,
    s: int,
    marks: Seq<Mark>,
    depth: Seq<nat>,
    v: int,
    fuel: nat,
)
    requires
        at_rest(g, s, marks, depth),
        0 <= v < g.len(),
        v != s,
        marks[v].costed >= 0,
        depth[v] <= fuel,
    ensures
        marks[v].prev is Some,
        marks[v].passage is Some,
        has_node(g, marks[v].prev->0),
        0 <= index_of(g, marks[v].prev->0) < g.len(),
        marks[index_of(g, marks[v].prev->0)].costed >= 0,
        fuel >= 1,
        depth[index_of(g, marks[v].prev->0)] <= fuel - 1,
        trace(g, marks, s, v, fuel) == trace(
            g,
            marks,
            s,
            index_of(g, marks[v].prev->0),
            (fuel - 1) as nat,
        ).push(WayView::Edge(marks[v].passage->0.name, marks[v].passage->0.cost)).push(
            WayView::Node(g[v].name),
        ),
{
    assert(linked(g, marks, depth, -1, v));
    let u = index_of(g, marks[v].prev->0);
    assert(marks[u].done);
}

/// The marks between rounds say of every node how deep it hangs, and no
/// node hangs deeper than there are nodes.
pub proof fn lemma_depth_bound(g: Seq<NodeView>, s: int, marks: Seq<Mark>, depth: Seq<nat>, v: int)
    requires
        inv(g, s, marks, depth, -1, 0),
        0 <= v < g.len(),
        marks[v].costed >= 0,
    ensures
        depth[v] <= g.len(),
{
    let n = g.len();
    lemma_sum_ones(n, n);
    lemma_done_weight_bounds(marks, ones(n), n);
}

} // verus!
