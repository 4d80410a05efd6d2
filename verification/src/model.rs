//! The mathematical model of a graph: a sequence of named nodes, in the order
//! in which they were first mentioned, each with its outgoing edges in the
//! order in which they were added.

use vstd::prelude::*;

verus! {

/// One directed connection: where it leads, its label and its weight.
pub struct EdgeView {
    pub next: Seq<char>,
    pub name: Seq<char>,
    pub cost: int,
}

/// A node's name and the edges that leave it.
pub struct NodeView {
    pub name: Seq<char>,
    pub edges: Seq<EdgeView>,
}

/// Whether `g` has a node called `name`.
pub open spec fn has_node(g: Seq<NodeView>, name: Seq<char>) -> bool {
    exists|i: int| 0 <= i < g.len() && (#[trigger] g[i]).name == name
}

/// The position of the node called `name`; meaningful when `has_node`.
pub open spec fn index_of(g: Seq<NodeView>, name: Seq<char>) -> int {
    choose|i: int| 0 <= i < g.len() && (#[trigger] g[i]).name == name
}

/// No two nodes share a name.
pub open spec fn names_unique(g: Seq<NodeView>) -> bool {
    forall|i: int, j: int|
        0 <= i < j < g.len() ==> (#[trigger] g[i]).name != (#[trigger] g[j]).name
}

/// Every edge leads to a node of the graph.
pub open spec fn edges_closed(g: Seq<NodeView>) -> bool {
    forall|i: int, k: int|
        0 <= i < g.len() && 0 <= k < g[i].edges.len() ==> has_node(
            g,
            (#[trigger] g[i].edges[k]).next,
        )
}

pub open spec fn well_formed(g: Seq<NodeView>) -> bool {
    names_unique(g) && edges_closed(g)
}

/// `g`, with a node called `name` appended unless it has one already.
pub open spec fn with_node(g: Seq<NodeView>, name: Seq<char>) -> Seq<NodeView> {
    if has_node(g, name) {
        g
    } else {
        g.push(NodeView { name, edges: Seq::empty() })
    }
}

/// `g` after one more edge from `src` to `dst`: both nodes exist afterwards
/// (`dst` is created first), and the edge is the last one leaving `src`.
pub open spec fn with_edge(
    g: Seq<NodeView>,
    src: Seq<char>,
    dst: Seq<char>,
    cost: int,
    label: Seq<char>,
) -> Seq<NodeView> {
    let h = with_node(with_node(g, dst), src);
    let i = index_of(h, src);
    h.update(
        i,
        NodeView { name: src, edges: h[i].edges.push(EdgeView { next: dst, name: label, cost }) },
    )
}

/// No edge has a negative weight.
pub open spec fn nonnegative(g: Seq<NodeView>) -> bool {
    forall|i: int, k: int|
        0 <= i < g.len() && 0 <= k < g[i].edges.len() ==> (#[trigger] g[i].edges[k]).cost >= 0
}

/// The weights of the first `k` of `edges`, added up.
pub open spec fn out_weight(edges: Seq<EdgeView>, k: nat) -> int
    decreases k,
{
    if k == 0 {
        0
    } else {
        out_weight(edges, (k - 1) as nat) + edges[k - 1].cost
    }
}

/// For each node, the weights of its edges added up.
pub open spec fn weights(g: Seq<NodeView>) -> Seq<int> {
    Seq::new(g.len(), |i: int| out_weight(g[i].edges, g[i].edges.len()))
}

/// The first `n` numbers of `w`, added up.
pub open spec fn sum(w: Seq<int>, n: nat) -> int
    decreases n,
{
    if n == 0 {
        0
    } else {
        sum(w, (n - 1) as nat) + w[n - 1]
    }
}

/// The weights of all edges of the graph, added up.
pub open spec fn total_weight(g: Seq<NodeView>) -> int {
    sum(weights(g), g.len())
}

/// One step of a walk: the node it leaves and which of that node's edges it
/// takes.
pub struct Hop {
    pub node: int,
    pub edge: int,
}

pub open spec fn hop_edge(g: Seq<NodeView>, h: Hop) -> EdgeView {
    g[h.node].edges[h.edge]
}

/// Whether `w` leads from node `from` to node `to` along edges of `g`. The
/// empty walk leads from a node to itself.
pub open spec fn is_walk(g: Seq<NodeView>, from: int, w: Seq<Hop>, to: int) -> bool
    decreases w.len(),
{
    if w.len() == 0 {
        0 <= from < g.len() && to == from
    } else {
        let h = w.last();
        &&& 0 <= h.node < g.len()
        &&& 0 <= h.edge < g[h.node].edges.len()
        &&& 0 <= to < g.len()
        &&& g[to].name == hop_edge(g, h).next
        &&& is_walk(g, from, w.drop_last(), h.node)
    }
}

/// The weights of the edges that `w` takes, added up.
pub open spec fn walk_cost(g: Seq<NodeView>, w: Seq<Hop>) -> int
    decreases w.len(),
{
    if w.len() == 0 {
        0
    } else {
        walk_cost(g, w.drop_last()) + hop_edge(g, w.last()).cost
    }
}

/// Whether some walk leads from the node called `start` to the one called
/// `goal`.
pub open spec fn reachable(g: Seq<NodeView>, start: Seq<char>, goal: Seq<char>) -> bool {
    &&& has_node(g, start)
    &&& has_node(g, goal)
    &&& exists|w: Seq<Hop>| is_walk(g, index_of(g, start), w, index_of(g, goal))
}

/// In a graph with unique names, a node is found at its own position.
pub proof fn lemma_index_of(g: Seq<NodeView>, i: int)
    requires
        names_unique(g),
        0 <= i < g.len(),
    ensures
        has_node(g, g[i].name),
        index_of(g, g[i].name) == i,
{
    let j = index_of(g, g[i].name);
    assert(0 <= j < g.len() && g[j].name == g[i].name);
}

/// A name stays known when nodes are appended or keep their names.
pub proof fn lemma_has_node_stable(g: Seq<NodeView>, h: Seq<NodeView>, name: Seq<char>)
    requires
        g.len() <= h.len(),
        forall|i: int| 0 <= i < g.len() ==> (#[trigger] h[i]).name == g[i].name,
        has_node(g, name),
    ensures
        has_node(h, name),
{
    let i = index_of(g, name);
    assert(h[i].name == name);
}

/// Appending a node that is missing keeps the graph valid.
pub proof fn lemma_with_node(g: Seq<NodeView>, name: Seq<char>)
    requires
        well_formed(g),
    ensures
        well_formed(with_node(g, name)),
        has_node(with_node(g, name), name),
        g.len() <= with_node(g, name).len(),
        forall|i: int| 0 <= i < g.len() ==> #[trigger] with_node(g, name)[i] == g[i],
{
    let h = with_node(g, name);
    if !has_node(g, name) {
        assert(h[g.len() as int].name == name);
        assert forall|i: int, k: int| 0 <= i < h.len() && 0 <= k < h[i].edges.len() implies has_node(
            h,
            (#[trigger] h[i].edges[k]).next,
        ) by {
            assert(i < g.len());
            assert(has_node(g, g[i].edges[k].next));
            lemma_has_node_stable(g, h, g[i].edges[k].next);
        }
    }
}

/// Adding an edge keeps the graph valid.
pub proof fn lemma_with_edge(
    g: Seq<NodeView>,
    src: Seq<char>,
    dst: Seq<char>,
    cost: int,
    label: Seq<char>,
)
    requires
        well_formed(g),
    ensures
        well_formed(with_edge(g, src, dst, cost, label)),
        has_node(with_edge(g, src, dst, cost, label), src),
        has_node(with_edge(g, src, dst, cost, label), dst),
        forall|name: Seq<char>| #[trigger]
            has_node(with_edge(g, src, dst, cost, label), name) <==> has_node(g, name) || name
                == src || name == dst,
{
    let g1 = with_node(g, dst);
    let h = with_node(g1, src);
    lemma_with_node(g, dst);
    lemma_with_node(g1, src);
    lemma_has_node_stable(g1, h, dst);
    let i = index_of(h, src);
    let e = EdgeView { next: dst, name: label, cost };
    let r = with_edge(g, src, dst, cost, label);
    assert(r == h.update(i, NodeView { name: src, edges: h[i].edges.push(e) }));
    assert forall|a: int| 0 <= a < h.len() implies (#[trigger] r[a]).name == h[a].name by {}
    lemma_has_node_stable(h, r, src);
    lemma_has_node_stable(h, r, dst);
    assert forall|name: Seq<char>| #[trigger]
        has_node(r, name) <==> has_node(g, name) || name == src || name == dst by {
        if has_node(g, name) {
            lemma_has_node_stable(g, g1, name);
            lemma_has_node_stable(g1, h, name);
            lemma_has_node_stable(h, r, name);
        }
        if has_node(r, name) {
            let a = index_of(r, name);
            assert(h[a].name == name);
            if a >= g1.len() {
                assert(name == src);
            } else if a >= g.len() {
                assert(g1[a].name == name);
                assert(name == dst);
            } else {
                assert(g[a].name == name);
            }
        }
    }
    assert forall|a: int, k: int| 0 <= a < r.len() && 0 <= k < r[a].edges.len() implies has_node(
        r,
        (#[trigger] r[a].edges[k]).next,
    ) by {
        if a == i && k == h[i].edges.len() {
            assert(r[a].edges[k].next == dst);
        } else {
            assert(r[a].edges[k] == h[a].edges[k]);
            assert(has_node(h, h[a].edges[k].next));
            lemma_has_node_stable(h, r, h[a].edges[k].next);
        }
    }
    assert forall|a: int, b: int| 0 <= a < b < r.len() implies (#[trigger] r[a]).name != (
    #[trigger] r[b]).name by {
        assert(r[a].name == h[a].name);
        assert(r[b].name == h[b].name);
    }
}

/// Sums over sequences that agree on their first `n` numbers are equal.
pub proof fn lemma_sum_same(a: Seq<int>, b: Seq<int>, n: nat)
    requires
        forall|i: int| 0 <= i < n ==> #[trigger] a[i] == b[i],
    ensures
        sum(a, n) == sum(b, n),
    decreases n,
{
    if n > 0 {
        lemma_sum_same(a, b, (n - 1) as nat);
    }
}

/// Raising one number by `d` raises the sum by `d`.
pub proof fn lemma_sum_raise(a: Seq<int>, b: Seq<int>, n: nat, at: int, d: int)
    requires
        0 <= at < n,
        b[at] == a[at] + d,
        forall|i: int| 0 <= i < n && i != at ==> #[trigger] a[i] == b[i],
    ensures
        sum(b, n) == sum(a, n) + d,
    decreases n,
{
    if n - 1 == at {
        lemma_sum_same(a, b, (n - 1) as nat);
    } else {
        lemma_sum_raise(a, b, (n - 1) as nat, at, d);
    }
}

/// Where no number is negative, a sum does not shrink as it goes on.
pub proof fn lemma_sum_grows(w: Seq<int>, a: nat, b: nat)
    requires
        a <= b,
        forall|i: int| 0 <= i < b ==> #[trigger] w[i] >= 0,
    ensures
        0 <= sum(w, a) <= sum(w, b),
    decreases b,
{
    if a < b {
        lemma_sum_grows(w, a, (b - 1) as nat);
    } else if b > 0 {
        lemma_sum_grows(w, (a - 1) as nat, (b - 1) as nat);
    }
}

/// Edge lists that agree on their first `k` edges weigh the same up to there.
pub proof fn lemma_out_weight_same(a: Seq<EdgeView>, b: Seq<EdgeView>, k: nat)
    requires
        forall|i: int| 0 <= i < k ==> #[trigger] a[i] == b[i],
    ensures
        out_weight(a, k) == out_weight(b, k),
    decreases k,
{
    if k > 0 {
        lemma_out_weight_same(a, b, (k - 1) as nat);
    }
}

/// Where weights are not negative, the edges up to some point weigh no more
/// than the edges up to a later point, and a single edge no more than the
/// edges up to it and beyond.
pub proof fn lemma_out_weight(edges: Seq<EdgeView>, k: nat, j: int)
    requires
        k <= edges.len(),
        forall|i: int| 0 <= i < edges.len() ==> (#[trigger] edges[i]).cost >= 0,
    ensures
        0 <= out_weight(edges, k),
        0 <= j < k ==> edges[j].cost <= out_weight(edges, k),
        0 <= j <= k ==> out_weight(edges, j as nat) <= out_weight(edges, k),
    decreases k,
{
    if k > 0 {
        lemma_out_weight(edges, (k - 1) as nat, j);
    }
}

/// In a graph without negative weights, no node's edges weigh less than
/// nothing.
pub proof fn lemma_weights_nonnegative(g: Seq<NodeView>)
    requires
        nonnegative(g),
    ensures
        forall|i: int| 0 <= i < g.len() ==> #[trigger] weights(g)[i] >= 0,
{
    assert forall|i: int| 0 <= i < g.len() implies #[trigger] weights(g)[i] >= 0 by {
        lemma_out_weight(g[i].edges, g[i].edges.len(), 0);
    }
}

/// In a graph without negative weights, the edges of the nodes before node
/// `i` and the first `k` edges of node `i` weigh together no more than all
/// edges of the graph.
pub proof fn lemma_partial_weight(g: Seq<NodeView>, i: int, k: nat)
    requires
        nonnegative(g),
        0 <= i < g.len(),
        k <= g[i].edges.len(),
    ensures
        0 <= sum(weights(g), i as nat),
        0 <= out_weight(g[i].edges, k),
        sum(weights(g), i as nat) + out_weight(g[i].edges, k) <= total_weight(g),
{
    lemma_weights_nonnegative(g);
    lemma_out_weight(g[i].edges, g[i].edges.len(), k as int);
    lemma_out_weight(g[i].edges, k, 0);
    lemma_sum_grows(weights(g), (i + 1) as nat, g.len());
    lemma_sum_grows(weights(g), i as nat, (i + 1) as nat);
}

/// A node that is appended brings no weight.
pub proof fn lemma_with_node_weight(g: Seq<NodeView>, name: Seq<char>)
    ensures
        total_weight(with_node(g, name)) == total_weight(g),
        nonnegative(g) ==> nonnegative(with_node(g, name)),
{
    let h = with_node(g, name);
    if !has_node(g, name) {
        lemma_sum_same(weights(g), weights(h), g.len());
        assert(weights(h)[g.len() as int] == 0);
        if nonnegative(g) {
            assert forall|i: int, k: int|
                0 <= i < h.len() && 0 <= k < h[i].edges.len() implies (#[trigger] h[i].edges[k]).cost
                >= 0 by {
                assert(h[i].edges[k] == g[i].edges[k]);
            }
        }
    }
}

/// An edge that is added brings its own weight, and where neither it nor an
/// edge before it is negative, none is afterwards.
pub proof fn lemma_with_edge_weight(
    g: Seq<NodeView>,
    src: Seq<char>,
    dst: Seq<char>,
    cost: int,
    label: Seq<char>,
)
    requires
        well_formed(g),
    ensures
        total_weight(with_edge(g, src, dst, cost, label)) == total_weight(g) + cost,
        nonnegative(g) && cost >= 0 ==> nonnegative(with_edge(g, src, dst, cost, label)),
{
    let g1 = with_node(g, dst);
    let h = with_node(g1, src);
    lemma_with_node(g, dst);
    lemma_with_node(g1, src);
    lemma_with_node_weight(g, dst);
    lemma_with_node_weight(g1, src);
    let i = index_of(h, src);
    let e = EdgeView { next: dst, name: label, cost };
    let r = with_edge(g, src, dst, cost, label);
    assert(r == h.update(i, NodeView { name: src, edges: h[i].edges.push(e) }));
    lemma_out_weight_same(h[i].edges, r[i].edges, h[i].edges.len());
    assert(r[i].edges[h[i].edges.len() as int] == e);
    assert(weights(r)[i] == weights(h)[i] + cost);
    lemma_sum_raise(weights(h), weights(r), h.len(), i, cost);
    if nonnegative(g) && cost >= 0 {
        assert forall|a: int, k: int|
            0 <= a < r.len() && 0 <= k < r[a].edges.len() implies (#[trigger] r[a].edges[k]).cost
            >= 0 by {
            if a == i && k == h[i].edges.len() {
            } else {
                assert(r[a].edges[k] == h[a].edges[k]);
            }
        }
    }
}

} // verus!
