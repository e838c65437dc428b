use graph_sessions::algorithms::{bfs_by, dijkstra};
use graph_sessions::graph::{DiGraph, SimpleGraph, WeightedGraph};
use graph_sessions::node::Node;
use std::cell::RefCell;

fn n(id: &str) -> Node {
    Node::new(id.to_string())
}

fn chain() -> SimpleGraph {
    SimpleGraph::from_edge_list(vec![(n("1"), n("2")), (n("2"), n("3")), (n("3"), n("4"))])
}

fn route_keys(path: &[Node]) -> Vec<&str> {
    path.iter().map(|x| x.id.as_str()).collect()
}

#[test]
fn bfs_finds_node_on_chain() {
    let g = chain();
    let found = bfs_by(&g, n("1"), |x: &Node| x.id == "3");
    assert_eq!(found.map(|x| x.id), Some("3".to_string()));
}

#[test]
fn bfs_without_match_tests_every_reachable_node() {
    let g = chain();
    let seen = RefCell::new(Vec::new());
    let found = bfs_by(&g, n("1"), |x: &Node| {
        seen.borrow_mut().push(x.id.clone());
        x.id == "99"
    });
    assert!(found.is_none());
    let mut seen = seen.into_inner();
    seen.sort();
    seen.dedup();
    assert_eq!(seen, vec!["1", "2", "3", "4"]);
}

#[test]
fn bfs_tests_root_first() {
    let g = chain();
    let calls = RefCell::new(0u32);
    let found = bfs_by(&g, n("1"), |x: &Node| {
        *calls.borrow_mut() += 1;
        x.id == "1"
    });
    assert_eq!(found.map(|x| x.id), Some("1".to_string()));
    assert_eq!(*calls.borrow(), 1);
}

#[test]
fn bfs_root_outside_graph() {
    let g = chain();
    assert!(bfs_by(&g, n("7"), |x: &Node| x.id == "1").is_none());
    assert_eq!(bfs_by(&g, n("7"), |x: &Node| x.id == "7").map(|x| x.id), Some("7".to_string()));
}

#[test]
fn bfs_follows_direction() {
    let g = DiGraph::from_edge_list(vec![(n("a"), n("b")), (n("c"), n("a"))]);
    assert!(bfs_by(&g, n("a"), |x: &Node| x.id == "c").is_none());
    assert_eq!(bfs_by(&g, n("c"), |x: &Node| x.id == "b").map(|x| x.id), Some("b".to_string()));
}

#[test]
fn dijkstra_single_route() {
    let g = WeightedGraph::from_edge_list(vec![
        (n("1"), n("2"), 3),
        (n("2"), n("4"), 1),
        (n("1"), n("6"), 2),
        (n("6"), n("8"), 7),
        (n("8"), n("10"), 1),
    ]);
    let (path, cost) = dijkstra(&g, &n("1"), &n("10")).unwrap();
    assert_eq!(route_keys(&path), vec!["1", "6", "8", "10"]);
    assert_eq!(cost, 10);
}

#[test]
fn dijkstra_picks_cheapest_route() {
    let g = WeightedGraph::from_edge_list(vec![
        (n("1"), n("5"), 3),
        (n("1"), n("2"), 3),
        (n("2"), n("3"), 3),
        (n("2"), n("4"), 1),
        (n("4"), n("9"), 2),
        (n("9"), n("8"), 1),
        (n("1"), n("6"), 2),
        (n("6"), n("7"), 3),
        (n("6"), n("8"), 7),
        (n("8"), n("10"), 1),
        (n("11"), n("12"), 3),
    ]);
    let (path, cost) = dijkstra(&g, &n("1"), &n("10")).unwrap();
    assert_eq!(route_keys(&path), vec!["1", "2", "4", "9", "8", "10"]);
    assert_eq!(cost, 8);
    assert!(dijkstra(&g, &n("1"), &n("12")).is_none());
    assert!(dijkstra(&g, &n("10"), &n("1")).is_none());
}

#[test]
fn dijkstra_unreachable_component() {
    let g = WeightedGraph::from_edge_list(vec![(n("1"), n("2"), 3), (n("11"), n("12"), 3)]);
    assert!(dijkstra(&g, &n("1"), &n("12")).is_none());
    assert!(dijkstra(&g, &n("1"), &n("99")).is_none());
    assert!(dijkstra(&g, &n("99"), &n("1")).is_none());
}

#[test]
fn dijkstra_root_is_target() {
    let g = WeightedGraph::from_edge_list(vec![(n("1"), n("2"), 3)]);
    let (path, cost) = dijkstra(&g, &n("1"), &n("1")).unwrap();
    assert_eq!(route_keys(&path), vec!["1"]);
    assert_eq!(cost, 0);
}

#[test]
fn dijkstra_overflowing_route_is_unreachable() {
    let g = WeightedGraph::from_edge_list(vec![
        (n("a"), n("b"), u64::MAX),
        (n("b"), n("c"), 1),
    ]);
    let (_, cost) = dijkstra(&g, &n("a"), &n("b")).unwrap();
    assert_eq!(cost, u64::MAX);
    assert!(dijkstra(&g, &n("a"), &n("c")).is_none());
}

#[test]
fn dijkstra_equal_costs_take_smaller_key() {
    let g = WeightedGraph::from_edge_list(vec![
        (n("s"), n("x"), 1),
        (n("s"), n("y"), 1),
        (n("x"), n("t"), 1),
        (n("y"), n("t"), 1),
    ]);
    let (path, cost) = dijkstra(&g, &n("s"), &n("t")).unwrap();
    assert_eq!(route_keys(&path), vec!["s", "x", "t"]);
    assert_eq!(cost, 2);
}

#[test]
fn dijkstra_tie_break_ignores_build_order() {
    let g = WeightedGraph::from_edge_list(vec![
        (n("s"), n("y"), 1),
        (n("y"), n("t"), 1),
        (n("s"), n("x"), 1),
        (n("x"), n("t"), 1),
    ]);
    let (path, cost) = dijkstra(&g, &n("s"), &n("t")).unwrap();
    assert_eq!(route_keys(&path), vec!["s", "x", "t"]);
    assert_eq!(cost, 2);
}

#[test]
fn dijkstra_zero_weight_cycle_keeps_root_path() {
    let g = WeightedGraph::from_edge_list(vec![(n("a"), n("b"), 0), (n("b"), n("a"), 0)]);
    let (path, cost) = dijkstra(&g, &n("a"), &n("a")).unwrap();
    assert_eq!(route_keys(&path), vec!["a"]);
    assert_eq!(cost, 0);
    let (path, cost) = dijkstra(&g, &n("a"), &n("b")).unwrap();
    assert_eq!(route_keys(&path), vec!["a", "b"]);
    assert_eq!(cost, 0);
}
