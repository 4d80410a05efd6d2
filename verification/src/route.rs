//! The answer to a query: the way found, as node visits and edge traversals
//! in turn, and what it costs.

use crate::model::{hop_edge, Hop, NodeView};
use crate::text::{join, joined, texts};
use vstd::prelude::*;

verus! {

/// One element of a way.
#[derive(Debug)]
pub enum WayKind {
    /// A node that the way visits, by name.
    Node(String),
    /// An edge that the way takes, by label, with its weight.
    Edge(String, i32),
    /// Neither; it stands for nothing on the way and is never shown.
    Nothing,
}

pub enum WayView {
    Node(Seq<char>),
    Edge(Seq<char>, int),
    Nothing,
}

impl View for WayKind {
    type V = WayView;

    open spec fn view(&self) -> WayView {
        match self {
            WayKind::Node(name) => WayView::Node(name@),
            WayKind::Edge(label, cost) => WayView::Edge(label@, *cost as int),
            WayKind::Nothing => WayView::Nothing,
        }
    }
}

pub open spec fn way_views(v: Seq<WayKind>) -> Seq<WayView> {
    Seq::new(v.len(), |i: int| v[i]@)
}

/// A way and its cost; the cost is -1 where there is no way.
pub struct RouteView {
    pub passages: Seq<WayView>,
    pub total_cost: int,
}

/// The answer where the goal cannot be reached.
pub open spec fn no_route() -> RouteView {
    RouteView { passages: Seq::empty(), total_cost: -1 }
}

/// The way that walk `w` takes from node `from`: the node, then for each hop
/// the edge and the node it leads to.
pub open spec fn render(g: Seq<NodeView>, from: int, w: Seq<Hop>) -> Seq<WayView>
    decreases w.len(),
{
    if w.len() == 0 {
        seq![WayView::Node(g[from].name)]
    } else {
        let e = hop_edge(g, w.last());
        render(g, from, w.drop_last()).push(WayView::Edge(e.name, e.cost)).push(
            WayView::Node(e.next),
        )
    }
}

/// The weights of the edges on a way, added up.
pub open spec fn edge_costs(way: Seq<WayView>) -> int
    decreases way.len(),
{
    if way.len() == 0 {
        0
    } else {
        edge_costs(way.drop_last()) + match way.last() {
            WayView::Edge(_, cost) => cost,
            _ => 0,
        }
    }
}

/// An edge's label as it is shown between nodes.
pub open spec fn bracketed(label: Seq<char>) -> Seq<char> {
    seq!['(', '('] + label + seq![')', ')']
}

/// The names of the nodes on a way, in order.
pub open spec fn node_labels(way: Seq<WayView>) -> Seq<Seq<char>>
    decreases way.len(),
{
    if way.len() == 0 {
        Seq::empty()
    } else {
        match way.last() {
            WayView::Node(name) => node_labels(way.drop_last()).push(name),
            _ => node_labels(way.drop_last()),
        }
    }
}

/// The names of the nodes and the bracketed labels of the edges on a way, in
/// order.
pub open spec fn all_labels(way: Seq<WayView>) -> Seq<Seq<char>>
    decreases way.len(),
{
    if way.len() == 0 {
        Seq::empty()
    } else {
        match way.last() {
            WayView::Node(name) => all_labels(way.drop_last()).push(name),
            WayView::Edge(label, _) => all_labels(way.drop_last()).push(bracketed(label)),
            WayView::Nothing => all_labels(way.drop_last()),
        }
    }
}

/// Read backwards, a sequence with one more element at its end begins with
/// that element.
pub proof fn lemma_reverse_push(way: Seq<WayView>, last: WayView)
    ensures
        way.push(last).reverse() == seq![last] + way.reverse(),
{
    assert(way.push(last).reverse() =~= seq![last] + way.reverse());
}

/// The elements of `back` in the opposite order.
pub fn reversed(back: Vec<WayKind>) -> (out: Vec<WayKind>)
    ensures
        way_views(out@) == way_views(back@).reverse(),
{
    let ghost target = way_views(back@).reverse();
    let mut back = back;
    let mut out: Vec<WayKind> = Vec::new();
    while back.len() > 0
        invariant
            way_views(out@) + way_views(back@).reverse() =~= target,
        decreases back.len(),
    {
        let ghost before = way_views(back@);
        let ghost so_far = way_views(out@);
        let last = back.pop().unwrap();
        assert(way_views(back@) =~= before.drop_last());
        assert(before.reverse() =~= seq![last@] + before.drop_last().reverse());
        out.push(last);
        assert(way_views(out@) =~= so_far.push(last@));
    }
    assert(way_views(back@).reverse() =~= Seq::<WayView>::empty());
    out
}

#[derive(Debug)]
pub struct ShortestPath {
    passages: Vec<WayKind>,
    total_cost: i32,
}

impl View for ShortestPath {
    type V = RouteView;

    closed spec fn view(&self) -> RouteView {
        RouteView { passages: way_views(self.passages@), total_cost: self.total_cost as int }
    }
}

impl ShortestPath {
    pub(crate) fn new(passages: Vec<WayKind>, total_cost: i32) -> (path: ShortestPath)
        ensures
            path@ == (RouteView {
                passages: way_views(passages@),
                total_cost: total_cost as int,
            }),
    {
        ShortestPath { passages, total_cost }
    }

    /// The way, element by element.
    pub fn get_node_path(&self) -> (way: &Vec<WayKind>)
        ensures
            way_views(way@) == self@.passages,
    {
        &self.passages
    }

    /// The names of the nodes on the way, with `connector` between them.
    pub fn get_node_path_string(&self, connector: &str) -> (line: String)
        ensures
            line@ == joined(node_labels(self@.passages), connector@),
    {
        let ghost way = self@.passages;
        let mut stock: Vec<String> = Vec::new();
        let mut i: usize = 0;
        while i < self.passages.len()
            invariant
                i <= self.passages.len(),
                way == way_views(self.passages@),
                texts(stock@) == node_labels(way.take(i as int)),
            decreases self.passages.len() - i,
        {
            assert(way.take(i + 1).drop_last() =~= way.take(i as int));
            match &self.passages[i] {
                WayKind::Node(node_name) => {
                    stock.push(node_name.clone());
                    assert(texts(stock@) =~= node_labels(way.take(i + 1)));
                },
                _ => {},
            }
            i += 1;
        }
        assert(way.take(i as int) =~= way);
        join(&stock, connector)
    }

    /// The names of the nodes on the way and, between them, the labels of
    /// the edges in double round brackets, with `connector` between all of
    /// them.
    pub fn get_node_edge_path_string(&self, connector: &str) -> (line: String)
        ensures
            line@ == joined(all_labels(self@.passages), connector@),
    {
        let ghost way = self@.passages;
        let mut stock: Vec<String> = Vec::new();
        let mut i: usize = 0;
        while i < self.passages.len()
            invariant
                i <= self.passages.len(),
                way == way_views(self.passages@),
                texts(stock@) == all_labels(way.take(i as int)),
            decreases self.passages.len() - i,
        {
            assert(way.take(i + 1).drop_last() =~= way.take(i as int));
            match &self.passages[i] {
                WayKind::Edge(edge_name, _) => {
                    let mut label = String::from_str("((");
                    label.append(edge_name.as_str());
                    label.append("))");
                    proof {
                        reveal_strlit("((");
                        reveal_strlit("))");
                        assert(label@ =~= bracketed(edge_name@));
                    }
                    stock.push(label);
                    assert(texts(stock@) =~= all_labels(way.take(i + 1)));
                },
                WayKind::Node(node_name) => {
                    stock.push(node_name.clone());
                    assert(texts(stock@) =~= all_labels(way.take(i + 1)));
                },
                WayKind::Nothing => {},
            }
            i += 1;
        }
        assert(way.take(i as int) =~= way);
        join(&stock, connector)
    }

    /// What the way costs; -1 where there is none.
    pub fn cost(&self) -> (total: i32)
        ensures
            total == self@.total_cost,
    {
        self.total_cost
    }
}

} // verus!
