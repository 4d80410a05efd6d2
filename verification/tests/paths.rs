use shortestpath::{new_graph, Graph, ShortestPath, WayKind};

fn example() -> Graph {
    let mut g = new_graph();
    g.add("s", "a", 2, "edge1");
    g.add("s", "b", 5, "edge2");
    g.add("a", "b", 2, "edge3");
    g.add("a", "c", 5, "edge4");
    g.add("b", "c", 4, "edge5");
    g.add("b", "d", 2, "edge6");
    g.add("c", "z", 7, "edge7");
    g.add("d", "c", 5, "edge8");
    g.add("d", "z", 2, "edge9");
    g
}

fn edge_sum(path: &ShortestPath) -> i32 {
    let mut sum = 0;
    for way in path.get_node_path() {
        if let WayKind::Edge(_, cost) = way {
            sum += *cost;
        }
    }
    sum
}

#[test]
fn new_graph_success() {
    let mut g = new_graph();
    g.add("s", "a", 2, "edge1");
    g.add("s", "b", 5, "edge2");
    g.add("a", "b", 2, "edge3");
    g.add("a", "c", 5, "edge4");
    g.add("b", "c", 4, "edge5");
    g.add("b", "d", 2, "edge6");
    g.add("c", "z", 7, "edge7");
    g.add("d", "c", 5, "edge8");
    g.add("d", "z", 2, "edge9");
    let result = g.shortest_path("s", "z");

    assert_eq!(8, result.cost());
    assert_eq!("s->a->b->d->z", result.get_node_path_string("->"));
    assert_eq!(
        "s->((edge1))->a->((edge3))->b->((edge6))->d->((edge9))->z",
        result.get_node_edge_path_string("->")
    );
}

#[test]
fn way_alternates_nodes_and_edges() {
    let mut g = example();
    let result = g.shortest_path("s", "z");
    let way = result.get_node_path();
    assert_eq!(9, way.len());
    let names = ["s", "edge1", "a", "edge3", "b", "edge6", "d", "edge9", "z"];
    let costs = [0, 2, 0, 2, 0, 2, 0, 2, 0];
    for i in 0..way.len() {
        match &way[i] {
            WayKind::Node(name) => {
                assert_eq!(0, i % 2);
                assert_eq!(names[i], name);
            }
            WayKind::Edge(label, cost) => {
                assert_eq!(1, i % 2);
                assert_eq!(names[i], label);
                assert_eq!(costs[i], *cost);
            }
            WayKind::Nothing => panic!("a way holds nodes and edges only"),
        }
    }
}

#[test]
fn cost_is_the_sum_of_the_edges_on_the_way() {
    let mut g = example();
    for goal in ["a", "b", "c", "d", "z"] {
        let result = g.shortest_path("s", goal);
        assert_eq!(result.cost(), edge_sum(&result));
    }
    assert_eq!(2, g.shortest_path("s", "a").cost());
    assert_eq!(4, g.shortest_path("s", "b").cost());
    assert_eq!(7, g.shortest_path("s", "c").cost());
    assert_eq!(6, g.shortest_path("s", "d").cost());
}

#[test]
fn start_equal_to_goal_costs_nothing() {
    let mut g = example();
    let result = g.shortest_path("s", "s");
    assert_eq!(0, result.cost());
    assert_eq!("s", result.get_node_path_string("->"));
    assert_eq!("s", result.get_node_edge_path_string("->"));
    assert_eq!(1, result.get_node_path().len());

    let result = g.shortest_path("b", "b");
    assert_eq!(0, result.cost());
    assert_eq!("b", result.get_node_path_string("->"));
}

#[test]
fn start_equal_to_goal_ignores_loops_back() {
    let mut g = new_graph();
    g.add("s", "s", 0, "self");
    g.add("s", "a", 0, "out");
    g.add("a", "s", 0, "back");
    let result = g.shortest_path("s", "s");
    assert_eq!(0, result.cost());
    assert_eq!("s", result.get_node_edge_path_string("->"));
}

#[test]
fn unknown_start_gives_no_way() {
    let mut g = example();
    let result = g.shortest_path("nowhere", "z");
    assert_eq!(-1, result.cost());
    assert_eq!(0, result.get_node_path().len());
    assert_eq!("", result.get_node_path_string("->"));
    assert_eq!("", result.get_node_edge_path_string("->"));
}

#[test]
fn empty_graph_gives_no_way() {
    let mut g = new_graph();
    let result = g.shortest_path("s", "s");
    assert_eq!(-1, result.cost());
    assert_eq!(0, result.get_node_path().len());
}

#[test]
fn unreachable_goal_gives_no_way() {
    let mut g = example();
    let result = g.shortest_path("z", "s");
    assert_eq!(-1, result.cost());
    assert_eq!(0, result.get_node_path().len());
    assert_eq!("", result.get_node_path_string("->"));

    let result = g.shortest_path("c", "d");
    assert_eq!(-1, result.cost());
    assert_eq!("", result.get_node_edge_path_string("->"));
}

#[test]
fn unknown_goal_gives_no_way() {
    let mut g = example();
    let result = g.shortest_path("s", "nowhere");
    assert_eq!(-1, result.cost());
    assert_eq!(0, result.get_node_path().len());
}

#[test]
fn asking_again_gives_the_same_answer() {
    let mut g = example();
    let first = g.shortest_path("s", "z");
    let second = g.shortest_path("s", "z");
    assert_eq!(first.cost(), second.cost());
    assert_eq!(8, second.cost());
    assert_eq!(
        first.get_node_edge_path_string("->"),
        second.get_node_edge_path_string("->")
    );
    assert_eq!("s->a->b->d->z", second.get_node_path_string("->"));
}

#[test]
fn an_earlier_query_leaves_nothing_behind() {
    let mut g = example();
    assert_eq!(8, g.shortest_path("s", "z").cost());
    let from_a = g.shortest_path("a", "z");
    assert_eq!(6, from_a.cost());
    assert_eq!("a->b->d->z", from_a.get_node_path_string("->"));
    let back = g.shortest_path("z", "a");
    assert_eq!(-1, back.cost());
    let again = g.shortest_path("s", "z");
    assert_eq!(8, again.cost());
    assert_eq!("s->a->b->d->z", again.get_node_path_string("->"));
}

#[test]
fn a_graph_grows_between_queries() {
    let mut g = new_graph();
    g.add("s", "a", 10, "slow");
    assert_eq!(10, g.shortest_path("s", "a").cost());
    g.add("s", "b", 1, "hop1");
    g.add("b", "a", 1, "hop2");
    let result = g.shortest_path("s", "a");
    assert_eq!(2, result.cost());
    assert_eq!("s->((hop1))->b->((hop2))->a", result.get_node_edge_path_string("->"));
}

#[test]
fn a_later_offer_lowers_a_known_distance() {
    let mut g = new_graph();
    g.add("s", "t", 9, "direct");
    g.add("s", "m", 1, "first");
    g.add("m", "n", 1, "second");
    g.add("n", "t", 1, "third");
    let result = g.shortest_path("s", "t");
    assert_eq!(3, result.cost());
    assert_eq!("s->m->n->t", result.get_node_path_string("->"));
}

#[test]
fn parallel_edges_stay_apart() {
    let mut g = new_graph();
    g.add("s", "t", 7, "dear");
    g.add("s", "t", 3, "cheap");
    g.add("s", "t", 5, "middling");
    let result = g.shortest_path("s", "t");
    assert_eq!(3, result.cost());
    assert_eq!("s->((cheap))->t", result.get_node_edge_path_string("->"));
}

#[test]
fn of_equal_edges_the_first_is_taken() {
    let mut g = new_graph();
    g.add("s", "t", 4, "one");
    g.add("s", "t", 4, "two");
    let result = g.shortest_path("s", "t");
    assert_eq!(4, result.cost());
    assert_eq!("s->((one))->t", result.get_node_edge_path_string("->"));
}

#[test]
fn of_equal_ways_the_one_settled_first_is_taken() {
    let mut g = new_graph();
    g.add("s", "a", 1, "sa");
    g.add("s", "b", 1, "sb");
    g.add("a", "t", 1, "at");
    g.add("b", "t", 1, "bt");
    let result = g.shortest_path("s", "t");
    assert_eq!(2, result.cost());
    assert_eq!("s->((sa))->a->((at))->t", result.get_node_edge_path_string("->"));
}

#[test]
fn edges_of_weight_zero_are_followed() {
    let mut g = new_graph();
    g.add("s", "a", 0, "e1");
    g.add("a", "b", 0, "e2");
    g.add("b", "t", 0, "e3");
    g.add("s", "t", 1, "long");
    let result = g.shortest_path("s", "t");
    assert_eq!(0, result.cost());
    assert_eq!("s->a->b->t", result.get_node_path_string("->"));
}

#[test]
fn a_loop_on_a_node_changes_nothing() {
    let mut g = new_graph();
    g.add("s", "s", 1, "round");
    g.add("s", "t", 2, "on");
    g.add("t", "t", 0, "idle");
    let result = g.shortest_path("s", "t");
    assert_eq!(2, result.cost());
    assert_eq!("s->((on))->t", result.get_node_edge_path_string("->"));
}

#[test]
fn a_cycle_is_left_at_the_right_node() {
    let mut g = new_graph();
    g.add("a", "b", 1, "ab");
    g.add("b", "c", 1, "bc");
    g.add("c", "a", 1, "ca");
    g.add("c", "d", 1, "cd");
    let result = g.shortest_path("b", "a");
    assert_eq!(2, result.cost());
    assert_eq!("b->c->a", result.get_node_path_string("->"));
    let result = g.shortest_path("a", "d");
    assert_eq!(3, result.cost());
    assert_eq!("a->((ab))->b->((bc))->c->((cd))->d", result.get_node_edge_path_string("->"));
}

#[test]
fn the_connector_is_free() {
    let mut g = example();
    let result = g.shortest_path("s", "z");
    assert_eq!("s, a, b, d, z", result.get_node_path_string(", "));
    assert_eq!("sabdz", result.get_node_path_string(""));
    assert_eq!(
        "s ((edge1)) a ((edge3)) b ((edge6)) d ((edge9)) z",
        result.get_node_edge_path_string(" ")
    );
}

#[test]
fn names_need_not_be_ascii() {
    let mut g = new_graph();
    g.add("東京", "大阪", 500, "新幹線");
    g.add("大阪", "福岡", 600, "");
    let result = g.shortest_path("東京", "福岡");
    assert_eq!(1100, result.cost());
    assert_eq!("東京→大阪→福岡", result.get_node_path_string("→"));
    assert_eq!(
        "東京→((新幹線))→大阪→(())→福岡",
        result.get_node_edge_path_string("→")
    );
}

#[test]
fn large_weights_add_up() {
    let mut g = new_graph();
    g.add("s", "a", 1_000_000_000, "e1");
    g.add("a", "t", 1_000_000_000, "e2");
    let result = g.shortest_path("s", "t");
    assert_eq!(2_000_000_000, result.cost());
    assert_eq!(result.cost(), edge_sum(&result));
}

#[test]
fn a_node_is_known_once_an_edge_names_it() {
    let mut g = new_graph();
    g.add("s", "t", 1, "e");
    let to_self = g.shortest_path("t", "t");
    assert_eq!(0, to_self.cost());
    assert_eq!("t", to_self.get_node_path_string("->"));
    let back = g.shortest_path("t", "s");
    assert_eq!(-1, back.cost());
}

#[test]
fn weights_fit_where_none_is_negative_and_the_sum_is_small() {
    let g = new_graph();
    assert!(g.weights_fit());
    let g = example();
    assert!(g.weights_fit());
    let mut g = new_graph();
    g.add("s", "a", 0, "nothing");
    g.add("a", "s", i32::MAX, "everything");
    assert!(g.weights_fit());
}

#[test]
fn weights_do_not_fit_where_one_is_negative() {
    let mut g = example();
    g.add("z", "s", -1, "back");
    assert!(!g.weights_fit());
    let mut g = new_graph();
    g.add("s", "a", i32::MIN, "deep");
    assert!(!g.weights_fit());
}

#[test]
fn weights_do_not_fit_where_the_sum_is_too_large() {
    let mut g = new_graph();
    g.add("s", "a", i32::MAX, "everything");
    assert!(g.weights_fit());
    g.add("a", "b", 1, "one more");
    assert!(!g.weights_fit());
    let mut g = new_graph();
    g.add("s", "a", 1_500_000_000, "e1");
    g.add("t", "b", 1_500_000_000, "e2");
    assert!(!g.weights_fit());
}
