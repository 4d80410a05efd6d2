//! The graph itself: nodes kept in the order of first mention, each owning
//! its outgoing edges.

use crate::laws::{is_shortest, law_cost_is_sum, law_same_node, law_shortest, law_unreachable};
use crate::model::{
    has_node, index_of, lemma_index_of, lemma_partial_weight, lemma_with_edge,
    lemma_with_edge_weight, lemma_with_node, nonnegative, out_weight, reachable, sum, total_weight,
    weights, well_formed, with_edge, with_node, EdgeView, NodeView,
};
use crate::route::{
    edge_costs, lemma_reverse_push, no_route, reversed, way_views, RouteView, ShortestPath,
    WayKind, WayView,
};
use crate::search::{
    at_rest, final_marks, fresh, fresh_after, goal_index, initial, inv, is_pick, is_pick_among,
    lemma_at_rest, lemma_depth_bound, lemma_initial_inv, lemma_offer_fits, lemma_pick,
    lemma_pick_inv, lemma_relax_edge_inv, lemma_relax_inv, lemma_settle_inv, lemma_trace_step,
    none_waiting, relax, relax_edge, route, run, settle, trace, waiting, with_mark, Mark,
};
use vstd::prelude::*;

verus! {

/// The key that identifies a node.
pub type GraphIndex = String;

#[derive(Debug)]
pub struct Edge {
    next: GraphIndex,
    name: String,
    cost: i32,
}

#[derive(Debug)]
pub struct Node {
    name: GraphIndex,
    done: bool,
    edges: Vec<Edge>,
    costed: i32,
    prev: Option<GraphIndex>,
    passage: Option<Edge>,
}

#[derive(Debug)]
pub struct Graph {
    nodes: Vec<Node>,
}

impl View for Edge {
    type V = EdgeView;

    closed spec fn view(&self) -> EdgeView {
        EdgeView { next: self.next@, name: self.name@, cost: self.cost as int }
    }
}

impl Clone for Edge {
    fn clone(&self) -> (copy: Self)
        ensures
            copy == *self,
    {
        Edge { next: self.next.clone(), name: self.name.clone(), cost: self.cost }
    }
}

impl View for Node {
    type V = NodeView;

    closed spec fn view(&self) -> NodeView {
        NodeView { name: self.name@, edges: Seq::new(self.edges@.len(), |k: int| self.edges@[k]@) }
    }
}

/// What each of the edges is to the contracts.
pub open spec fn edge_views(v: Seq<Edge>) -> Seq<EdgeView> {
    Seq::new(v.len(), |k: int| v[k]@)
}

impl Node {
    /// What a query has noted down for this node.
    spec fn mark(&self) -> Mark {
        Mark {
            costed: self.costed as int,
            done: self.done,
            prev: match self.prev {
                Some(p) => Some(p@),
                None => None,
            },
            passage: match self.passage {
                Some(e) => Some(e@),
                None => None,
            },
        }
    }
}

impl View for Graph {
    type V = Seq<NodeView>;

    closed spec fn view(&self) -> Seq<NodeView> {
        Seq::new(self.nodes@.len(), |i: int| self.nodes@[i]@)
    }
}

/// An empty graph.
pub fn new_graph() -> (g: Graph)
    ensures
        g@ == Seq::<NodeView>::empty(),
        g.marks() == Seq::<Mark>::empty(),
        g.wf(),
{
    let g = Graph { nodes: Vec::new() };
    assert(g.marks() =~= Seq::<Mark>::empty());
    assert(g@ =~= Seq::<NodeView>::empty());
    g
}

impl Graph {
    /// The graph's validity: names are unique and every edge leads to a node.
    pub open spec fn wf(&self) -> bool {
        well_formed(self@)
    }

    /// What the latest query has noted down, node by node. It stays in the
    /// graph afterwards; the next query begins by wiping it.
    pub closed spec fn marks(&self) -> Seq<Mark> {
        Seq::new(self.nodes@.len(), |i: int| self.nodes@[i].mark())
    }

    /// Every node has its mark.
    pub proof fn lemma_marks_len(&self)
        ensures
            self.marks().len() == self@.len(),
    {
    }

    /// The position of the node called `name`, if there is one.
    fn find(&self, name: &str) -> (found: Option<usize>)
        ensures
            match found {
                Some(i) => i < self@.len() && self@[i as int].name == name@,
                None => !has_node(self@, name@),
            },
    {
        let key = name.to_owned();
        let mut i: usize = 0;
        while i < self.nodes.len()
            invariant
                i <= self.nodes.len(),
                key@ == name@,
                forall|j: int| 0 <= j < i ==> (#[trigger] self@[j]).name != name@,
            decreases self.nodes.len() - i,
        {
            if self.nodes[i].name == key {
                return Some(i);
            }
            i += 1;
        }
        None
    }

    /// Adds an edge called `edge_name` from `src` to `dst` with weight `cost`.
    /// Nodes that the graph does not have yet are created, `dst` first. An
    /// edge between two nodes that are connected already is one more edge
    /// beside the others. Any weight is taken; a query asks for more.
    pub fn add(&mut self, src: &str, dst: &str, cost: i32, edge_name: &str)
        requires
            old(self).wf(),
        ensures
            final(self).wf(),
            final(self)@ == with_edge(old(self)@, src@, dst@, cost as int, edge_name@),
            forall|name: Seq<char>| #[trigger]
                has_node(final(self)@, name) <==> has_node(old(self)@, name) || name == src@
                    || name == dst@,
            total_weight(final(self)@) == total_weight(old(self)@) + cost,
            nonnegative(old(self)@) && cost >= 0 ==> nonnegative(final(self)@),
            final(self).marks() == with_mark(
                with_node(old(self)@, dst@),
                with_mark(old(self)@, old(self).marks(), dst@, fresh_after(src@)),
                src@,
                fresh(),
            ),
    {
        let ghost m0 = self.marks();
        let ghost m1 = with_mark(self@, m0, dst@, fresh_after(src@));
        let ghost g0 = self@;
        let ghost g1 = with_node(g0, dst@);
        let ghost h = with_node(g1, src@);
        proof {
            lemma_with_node(g0, dst@);
            lemma_with_node(g1, src@);
        }
        if self.find(dst).is_none() {
            self.nodes.push(
                Node {
                    name: dst.to_owned(),
                    done: false,
                    edges: Vec::new(),
                    costed: -1,
                    prev: Some(src.to_owned()),
                    passage: None,
                },
            );
            assert(self.nodes@[g0.len() as int]@.edges =~= Seq::<EdgeView>::empty());
        }
        assert(self@ =~= g1);
        assert(self.marks() =~= m1);
        let found = self.find(src);
        let i: usize = match found {
            Some(i) => i,
            None => {
                self.nodes.push(
                    Node {
                        name: src.to_owned(),
                        done: false,
                        edges: Vec::new(),
                        costed: -1,
                        prev: None,
                        passage: None,
                    },
                );
                assert(self.nodes@[g1.len() as int]@.edges =~= Seq::<EdgeView>::empty());
                self.nodes.len() - 1
            },
        };
        assert(self@ =~= h);
        assert(self.marks() =~= with_mark(g1, m1, src@, fresh()));
        let ghost m2 = self.marks();
        proof {
            lemma_index_of(h, i as int);
        }
        let edge = Edge { next: dst.to_owned(), name: edge_name.to_owned(), cost };
        let ghost e = edge@;
        self.nodes[i].edges.push(edge);
        proof {
            assert(self.nodes@[i as int]@.edges =~= h[i as int].edges.push(e));
            assert(self@ =~= with_edge(g0, src@, dst@, cost as int, edge_name@));
            assert(self.marks() =~= m2);
            lemma_with_edge(g0, src@, dst@, cost as int, edge_name@);
            lemma_with_edge_weight(g0, src@, dst@, cost as int, edge_name@);
        }
    }

    /// Whether a query may be asked of the graph: no weight is negative, and
    /// all weights together fit the type of a cost.
    pub fn weights_fit(&self) -> (fit: bool)
        ensures
            fit == (nonnegative(self@) && total_weight(self@) <= i32::MAX),
    {
        let ghost g = self@;
        let mut total: i32 = 0;
        let mut i: usize = 0;
        while i < self.nodes.len()
            invariant
                i <= self.nodes.len(),
                self@ == g,
                0 <= total,
                total == sum(weights(g), i as nat),
                forall|a: int, k: int|
                    0 <= a < i && 0 <= k < g[a].edges.len() ==> (#[trigger] g[a].edges[k]).cost
                        >= 0,
            decreases self.nodes.len() - i,
        {
            let ghost base = total;
            let mut k: usize = 0;
            while k < self.nodes[i].edges.len()
                invariant
                    i < self.nodes.len(),
                    k <= self.nodes[i as int].edges.len(),
                    self@ == g,
                    0 <= base <= total,
                    base == sum(weights(g), i as nat),
                    total == base + out_weight(g[i as int].edges, k as nat),
                    forall|j: int| 0 <= j < k ==> (#[trigger] g[i as int].edges[j]).cost >= 0,
                decreases self.nodes[i as int].edges.len() - k,
            {
                let cost = self.nodes[i].edges[k].cost;
                assert(cost == g[i as int].edges[k as int].cost);
                if cost < 0 {
                    return false;
                }
                if cost > i32::MAX - total {
                    proof {
                        if nonnegative(g) {
                            lemma_partial_weight(g, i as int, (k + 1) as nat);
                        }
                    }
                    return false;
                }
                total = total + cost;
                k += 1;
            }
            assert(g[i as int].edges.len() == self.nodes[i as int].edges.len());
            i += 1;
        }
        true
    }
    /// The node before `name` on the best way found so far.
    fn node_prev(&self, name: &str) -> (prev: Option<String>)
        requires
            self.wf(),
        ensures
            match prev {
                Some(p) => has_node(self@, name@) && self.marks()[index_of(self@, name@)].prev
                    == Some(p@),
                None => !has_node(self@, name@) || self.marks()[index_of(self@, name@)].prev
                    is None,
            },
    {
        match self.find(name) {
            Some(i) => {
                proof {
                    lemma_index_of(self@, i as int);
                }
                match &self.nodes[i].prev {
                    Some(p) => Some(p.clone()),
                    None => None,
                }
            },
            None => None,
        }
    }

    /// The distance noted down for `name`; -1 where there is none, or no
    /// such node.
    fn node_costed(&self, name: &str) -> (costed: i32)
        requires
            self.wf(),
        ensures
            costed == if has_node(self@, name@) {
                self.marks()[index_of(self@, name@)].costed
            } else {
                -1
            },
    {
        match self.find(name) {
            Some(i) => {
                proof {
                    lemma_index_of(self@, i as int);
                }
                self.nodes[i].costed
            },
            None => -1,
        }
    }

    /// The edges that leave `name`, copied.
    fn node_edges(&self, name: &str) -> (edges: Vec<Edge>)
        requires
            self.wf(),
        ensures
            has_node(self@, name@) ==> edge_views(edges@) == self@[index_of(self@, name@)].edges,
            !has_node(self@, name@) ==> edges@.len() == 0,
    {
        match self.find(name) {
            Some(i) => {
                proof {
                    lemma_index_of(self@, i as int);
                }
                let mut edges: Vec<Edge> = Vec::new();
                let mut k: usize = 0;
                while k < self.nodes[i].edges.len()
                    invariant
                        i < self.nodes.len(),
                        k <= self.nodes[i as int].edges.len(),
                        edges.len() == k,
                        forall|j: int| 0 <= j < k ==> (#[trigger] edges[j])@ == self.nodes[i as int].edges[j]@,
                    decreases self.nodes[i as int].edges.len() - k,
                {
                    edges.push(self.nodes[i].edges[k].clone());
                    k += 1;
                }
                assert(edge_views(edges@) =~= self@[i as int].edges);
                edges
            },
            None => Vec::new(),
        }
    }

    /// Whether the distance of `name` is final.
    fn is_done_node(&self, name: &str) -> (done: bool)
        requires
            self.wf(),
        ensures
            done == (has_node(self@, name@) && self.marks()[index_of(self@, name@)].done),
    {
        match self.find(name) {
            Some(i) => {
                proof {
                    lemma_index_of(self@, i as int);
                }
                self.nodes[i].done
            },
            None => false,
        }
    }

    /// Notes down that `next_node_name` is reached at distance `cost` from
    /// `done_node_name` over `passed_edge`.
    fn update_node_edge(
        &mut self,
        next_node_name: &str,
        cost: i32,
        done_node_name: &str,
        passed_edge: Edge,
    )
        requires
            old(self).wf(),
        ensures
            final(self)@ == old(self)@,
            final(self).marks() == if has_node(old(self)@, next_node_name@) {
                let v = index_of(old(self)@, next_node_name@);
                old(self).marks().update(
                    v,
                    Mark {
                        costed: cost as int,
                        done: old(self).marks()[v].done,
                        prev: Some(done_node_name@),
                        passage: Some(passed_edge@),
                    },
                )
            } else {
                old(self).marks()
            },
    {
        let ghost g = self@;
        let ghost m = self.marks();
        match self.find(next_node_name) {
            Some(i) => {
                proof {
                    lemma_index_of(self@, i as int);
                }
                let ghost e = passed_edge@;
                self.nodes[i].costed = cost;
                self.nodes[i].prev = Some(done_node_name.to_owned());
                self.nodes[i].passage = Some(passed_edge);
                assert(self@ =~= g);
                assert(self.marks() =~= m.update(
                    i as int,
                    Mark {
                        costed: cost as int,
                        done: m[i as int].done,
                        prev: Some(done_node_name@),
                        passage: Some(e),
                    },
                ));
            },
            None => {},
        }
    }

    /// Notes down whether the distance of `node_name` is final.
    fn update_node_done(&mut self, node_name: &str, done: bool)
        requires
            old(self).wf(),
        ensures
            final(self)@ == old(self)@,
            final(self).marks() == if has_node(old(self)@, node_name@) {
                let v = index_of(old(self)@, node_name@);
                old(self).marks().update(
                    v,
                    Mark {
                        costed: old(self).marks()[v].costed,
                        done,
                        prev: old(self).marks()[v].prev,
                        passage: old(self).marks()[v].passage,
                    },
                )
            } else {
                old(self).marks()
            },
    {
        let ghost g = self@;
        let ghost m = self.marks();
        match self.find(node_name) {
            Some(i) => {
                proof {
                    lemma_index_of(self@, i as int);
                }
                self.nodes[i].done = done;
                assert(self@ =~= g);
                assert(self.marks() =~= m.update(
                    i as int,
                    Mark {
                        costed: m[i as int].costed,
                        done,
                        prev: m[i as int].prev,
                        passage: m[i as int].passage,
                    },
                ));
            },
            None => {},
        }
    }

    /// Wipes what earlier queries have noted down, and puts the node at
    /// position `s` at distance 0.
    fn reset(&mut self, s: usize)
        requires
            s < old(self)@.len(),
        ensures
            final(self)@ == old(self)@,
            final(self).marks() == initial(old(self)@.len(), s as int),
    {
        let ghost g = self@;
        let n = self.nodes.len();
        let mut i: usize = 0;
        while i < n
            invariant
                i <= n,
                n == self.nodes.len(),
                n == g.len(),
                self@ == g,
                forall|j: int| 0 <= j < i ==> (#[trigger] self.marks()[j]) == initial(g.len(), s as int)[j],
            decreases n - i,
        {
            let ghost m = self.marks();
            self.nodes[i].done = false;
            self.nodes[i].costed = if i == s {
                0
            } else {
                -1
            };
            self.nodes[i].prev = None;
            self.nodes[i].passage = None;
            assert(self@ =~= g);
            assert forall|j: int| 0 <= j < i + 1 implies (#[trigger] self.marks()[j]) == initial(
                g.len(),
                s as int,
            )[j] by {
                if j < i {
                    assert(self.marks()[j] == m[j]);
                }
            }
            i += 1;
        }
        assert(self.marks() =~= initial(g.len(), s as int));
    }

    /// The node to settle next: the nearest that is reached and not final,
    /// the first of them where several are equally near.
    fn nearest(&self) -> (best: Option<usize>)
        ensures
            match best {
                Some(u) => is_pick(self.marks(), u as int),
                None => none_waiting(self.marks()),
            },
    {
        let mut best: Option<usize> = None;
        let mut i: usize = 0;
        while i < self.nodes.len()
            invariant
                i <= self.nodes.len(),
                match best {
                    Some(b) => is_pick_among(self.marks(), b as int, i as int),
                    None => forall|j: int| 0 <= j < i ==> !waiting(#[trigger] self.marks()[j]),
                },
            decreases self.nodes.len() - i,
        {
            if !(self.nodes[i].done || self.nodes[i].costed < 0) {
                match best {
                    None => {
                        best = Some(i);
                    },
                    Some(b) => {
                        if self.nodes[i].costed < self.nodes[b].costed {
                            best = Some(i);
                        }
                    },
                }
            }
            i += 1;
        }
        best
    }

    /// Looks at the edges that leave the node at position `u`, in their
    /// order: each gives its target a distance where that has none, or a
    /// smaller one.
    fn relax_from(&mut self, u: usize, Ghost(s): Ghost<int>, Ghost(depth): Ghost<Seq<nat>>)
        requires
            old(self).wf(),
            nonnegative(old(self)@),
            total_weight(old(self)@) <= i32::MAX,
            inv(old(self)@, s, old(self).marks(), depth, u as int, 0),
        ensures
            final(self)@ == old(self)@,
            final(self).marks() == relax(
                old(self)@,
                old(self).marks(),
                u as int,
                old(self)@[u as int].edges.len(),
            ),
    {
        let ghost g = self@;
        let ghost m0 = self.marks();
        let done_node_name = self.nodes[u].name.clone();
        proof {
            lemma_index_of(g, u as int);
        }
        let edges = self.node_edges(done_node_name.as_str());
        let mut k: usize = 0;
        while k < edges.len()
            invariant
                k <= edges.len(),
                self@ == g,
                well_formed(g),
                nonnegative(g),
                total_weight(g) <= i32::MAX,
                inv(g, s, m0, depth, u as int, 0),
                edge_views(edges@) == g[u as int].edges,
                done_node_name@ == g[u as int].name,
                self.marks() == relax(g, m0, u as int, k as nat),
            decreases edges.len() - k,
        {
            let ghost mk = self.marks();
            let ghost e = g[u as int].edges[k as int];
            proof {
                let dk = lemma_relax_inv(g, s, m0, depth, u as int, k as nat);
                lemma_relax_edge_inv(g, s, mk, dk, u as int, k as int);
                lemma_offer_fits(g, s, mk, dk, u as int, k as int);
                lemma_index_of(g, u as int);
                lemma_index_of(g, index_of(g, e.next));
                assert(edge_views(edges@)[k as int] == edges@[k as int]@);
            }
            let edge = &edges[k];
            if !self.is_done_node(edge.next.as_str()) {
                let new_cost = self.node_costed(done_node_name.as_str()) + edge.cost;
                let next_node_costed = self.node_costed(edge.next.as_str());
                if next_node_costed == -1 || new_cost < next_node_costed {
                    self.update_node_edge(
                        edge.next.as_str(),
                        new_cost,
                        done_node_name.as_str(),
                        edge.clone(),
                    );
                }
            }
            assert(self.marks() == relax_edge(g, mk, u as int, e));
            k += 1;
        }
    }

    /// Settles node after node, the nearest first, until none is left that
    /// is reached and not final, or the node called `goal` has been settled.
    fn settle_all(&mut self, s: usize, goal: &str) -> (depth: Ghost<Seq<nat>>)
        requires
            old(self).wf(),
            nonnegative(old(self)@),
            total_weight(old(self)@) <= i32::MAX,
            s < old(self)@.len(),
            old(self).marks() == initial(old(self)@.len(), s as int),
        ensures
            final(self)@ == old(self)@,
            final(self).marks() == run(
                old(self)@,
                old(self).marks(),
                goal_index(old(self)@, goal@),
                old(self)@.len(),
            ),
            inv(old(self)@, s as int, final(self).marks(), depth@, -1, 0),
    {
        let ghost g = self@;
        let ghost m0 = self.marks();
        let ghost t = goal_index(g, goal@);
        let ghost mut depth = Seq::new(g.len(), |i: int| 0nat);
        proof {
            lemma_initial_inv(g, s as int);
        }
        let goal_key = goal.to_owned();
        let mut fuel: usize = self.nodes.len();
        let mut going = true;
        while going && fuel > 0
            invariant
                self@ == g,
                well_formed(g),
                nonnegative(g),
                total_weight(g) <= i32::MAX,
                goal_key@ == goal@,
                t == goal_index(g, goal@),
                fuel <= g.len(),
                inv(g, s as int, self.marks(), depth, -1, 0),
                going ==> run(g, self.marks(), t, fuel as nat) == run(g, m0, t, g.len()),
                !going ==> self.marks() == run(g, m0, t, g.len()),
            decreases fuel + if going { 1int } else { 0 },
        {
            let ghost m = self.marks();
            proof {
                lemma_pick(m);
            }
            match self.nearest() {
                None => {
                    going = false;
                },
                Some(u) => {
                    let done_node_name = self.nodes[u].name.clone();
                    proof {
                        lemma_index_of(g, u as int);
                        lemma_pick_inv(g, s as int, m, depth, u as int);
                    }
                    self.relax_from(u, Ghost(s as int), Ghost(depth));
                    self.update_node_done(done_node_name.as_str(), true);
                    proof {
                        assert(self.marks() == settle(g, m, u as int));
                        depth = lemma_settle_inv(g, s as int, m, depth, u as int);
                        if has_node(g, goal@) {
                            lemma_index_of(g, index_of(g, goal@));
                        }
                    }
                    if done_node_name == goal_key {
                        going = false;
                    } else {
                        fuel = fuel - 1;
                    }
                },
            }
        }
        Ghost(depth)
    }

    /// Reads the way from the node at position `s` to the node called
    /// `goal` off what the search has noted down, going back from `goal`.
    fn retrace(&self, s: usize, goal: &str, Ghost(depth): Ghost<Seq<nat>>) -> (path: ShortestPath)
        requires
            self.wf(),
            inv(self@, s as int, self.marks(), depth, -1, 0),
        ensures
            path@ == if !has_node(self@, goal@) || self.marks()[index_of(self@, goal@)].costed < 0 {
                no_route()
            } else {
                RouteView {
                    passages: trace(
                        self@,
                        self.marks(),
                        s as int,
                        index_of(self@, goal@),
                        self@.len(),
                    ),
                    total_cost: self.marks()[index_of(self@, goal@)].costed,
                }
            },
    {
        let ghost g = self@;
        let ghost m = self.marks();
        let total_cost = self.node_costed(goal);
        if total_cost < 0 {
            let empty: Vec<WayKind> = Vec::new();
            assert(way_views(empty@) =~= Seq::<WayView>::empty());
            return ShortestPath::new(empty, -1);
        }
        let ghost t = index_of(g, goal@);
        let ghost full = trace(g, m, s as int, t, g.len());
        let mut back: Vec<WayKind> = Vec::new();
        let mut cur: usize = self.find(goal).unwrap();
        let ghost mut fuel: nat = g.len();
        proof {
            lemma_index_of(g, cur as int);
            lemma_depth_bound(g, s as int, m, depth, t);
            lemma_at_rest(g, s as int, m, depth);
            assert(way_views(back@).reverse() =~= Seq::<WayView>::empty());
            assert(full =~= full + Seq::<WayView>::empty());
        }
        while cur != s
            invariant
                self@ == g,
                self.marks() == m,
                well_formed(g),
                at_rest(g, s as int, m, depth),
                cur < g.len(),
                m[cur as int].costed >= 0,
                depth[cur as int] <= fuel,
                full == trace(g, m, s as int, cur as int, fuel) + way_views(back@).reverse(),
            decreases fuel,
        {
            let ghost before = way_views(back@);
            let ghost here = WayView::Node(g[cur as int].name);
            let ghost e = m[cur as int].passage->0;
            let ghost over = WayView::Edge(e.name, e.cost);
            let ghost rest = trace(
                g,
                m,
                s as int,
                index_of(g, m[cur as int].prev->0),
                (fuel - 1) as nat,
            );
            proof {
                lemma_trace_step(g, s as int, m, depth, cur as int, fuel);
                lemma_index_of(g, cur as int);
            }
            back.push(WayKind::Node(self.nodes[cur].name.clone()));
            match &self.nodes[cur].passage {
                Some(passed_edge) => {
                    back.push(WayKind::Edge(passed_edge.name.clone(), passed_edge.cost));
                },
                None => {},
            }
            proof {
                assert(way_views(back@) =~= before.push(here).push(over));
                lemma_reverse_push(before, here);
                lemma_reverse_push(before.push(here), over);
                assert(rest.push(over).push(here) + before.reverse() =~= rest + (seq![over] + (
                seq![here] + before.reverse())));
            }
            let prev_name = self.node_prev(self.nodes[cur].name.as_str()).unwrap();
            cur = self.find(prev_name.as_str()).unwrap();
            proof {
                lemma_index_of(g, cur as int);
                fuel = (fuel - 1) as nat;
            }
        }
        let ghost before = way_views(back@);
        let ghost here = WayView::Node(g[cur as int].name);
        back.push(WayKind::Node(self.nodes[cur].name.clone()));
        proof {
            assert(way_views(back@) =~= before.push(here));
            lemma_reverse_push(before, here);
            assert(trace(g, m, s as int, cur as int, fuel) =~= seq![here]);
        }
        ShortestPath::new(reversed(back), total_cost)
    }

    /// Finds the shortest way from the node called `start` to the node
    /// called `goal`.
    ///
    /// The answer is the way with its cost, or no way and the cost -1 where
    /// `start` is no node of the graph or `goal` cannot be reached from it.
    /// It depends on the nodes and edges alone: what an earlier query has
    /// noted down in the graph is wiped first. Weights must not be negative,
    /// and all of them together must fit the cost's type.
    pub fn shortest_path(&mut self, start: &str, goal: &str) -> (path: ShortestPath)
        requires
            old(self).wf(),
            nonnegative(old(self)@),
            total_weight(old(self)@) <= i32::MAX,
        ensures
            final(self).wf(),
            final(self)@ == old(self)@,
            final(self).marks() == if has_node(old(self)@, start@) {
                final_marks(old(self)@, start@, goal@)
            } else {
                old(self).marks()
            },
            path@ == route(old(self)@, start@, goal@),
            !has_node(old(self)@, start@) ==> path@ == no_route(),
            !reachable(old(self)@, start@, goal@) ==> path@ == no_route(),
            reachable(old(self)@, start@, goal@) ==> is_shortest(
                old(self)@,
                start@,
                goal@,
                path@,
            ),
            reachable(old(self)@, start@, goal@) ==> path@.total_cost == edge_costs(
                path@.passages,
            ),
            has_node(old(self)@, start@) && goal@ == start@ ==> path@ == (RouteView {
                passages: seq![WayView::Node(start@)],
                total_cost: 0,
            }),
    {
        let ghost g = self@;
        proof {
            if reachable(g, start@, goal@) {
                law_shortest(g, start@, goal@);
                law_cost_is_sum(g, start@, goal@);
            } else {
                law_unreachable(g, start@, goal@);
            }
            if has_node(g, start@) && goal@ == start@ {
                law_same_node(g, start@);
            }
        }
        match self.find(start) {
            Some(s) => {
                proof {
                    lemma_index_of(g, s as int);
                }
                self.reset(s);
                let depth = self.settle_all(s, goal);
                self.retrace(s, goal, depth)
            },
            None => {
                let empty: Vec<WayKind> = Vec::new();
                assert(way_views(empty@) =~= Seq::<WayView>::empty());
                ShortestPath::new(empty, -1)
            },
        }
    }
}

} // verus!
