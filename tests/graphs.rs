use graph_sessions::graph::{DiGraph, Graph, SimpleGraph, WeightedGraph};
use graph_sessions::node::{key_lt, Node};
use std::collections::HashMap;

fn n(id: &str) -> Node {
    Node::new(id.to_string())
}

fn keys(nodes: &[Node]) -> Vec<String> {
    let mut v: Vec<String> = nodes.iter().map(|x| x.id.clone()).collect();
    v.sort();
    v
}

#[test]
fn node_new_has_empty_attributes() {
    let a = n("a");
    assert_eq!(a.id, "a");
    assert_eq!(a.data.as_ref().map(|m| m.len()), Some(0));
}

#[test]
fn nodes_with_equal_keys_are_equal() {
    let mut attrs = HashMap::new();
    attrs.insert("colour".to_string(), "red".to_string());
    let a = Node::with_data("a".to_string(), attrs);
    assert!(a == n("a"));
    assert!(a != n("b"));
    let copy = a.duplicate();
    assert_eq!(copy.id, "a");
    assert_eq!(copy.data.unwrap().get("colour").map(|s| s.as_str()), Some("red"));
}

#[test]
fn simple_edges_are_symmetric() {
    let g = SimpleGraph::from_edge_list(vec![(n("1"), n("2")), (n("2"), n("3"))]);
    assert_eq!(keys(&g.neighbors(&n("1")).unwrap()), vec!["2"]);
    assert_eq!(keys(&g.neighbors(&n("2")).unwrap()), vec!["1", "3"]);
    assert_eq!(keys(&g.neighbors(&n("3")).unwrap()), vec!["2"]);
    assert!(g.neighbors(&n("4")).is_none());
    assert!(g.has_node(&n("3")));
    assert!(!g.has_node(&n("4")));
}

#[test]
fn simple_repeated_edge_is_kept_once() {
    let g = SimpleGraph::from_edge_list(vec![(n("1"), n("2")), (n("2"), n("1")), (n("1"), n("2"))]);
    assert_eq!(keys(&g.neighbors(&n("1")).unwrap()), vec!["2"]);
    assert_eq!(keys(&g.neighbors(&n("2")).unwrap()), vec!["1"]);
}

#[test]
fn directed_edge_adds_target_without_out_edges() {
    let g = DiGraph::from_edge_list(vec![(n("a"), n("b"))]);
    assert_eq!(keys(&g.neighbors(&n("a")).unwrap()), vec!["b"]);
    assert_eq!(g.neighbors(&n("b")).unwrap().len(), 0);
    assert!(g.has_node(&n("b")));
}

#[test]
fn add_node_keeps_first_attributes() {
    let mut g = DiGraph::new();
    let mut attrs = HashMap::new();
    attrs.insert("k".to_string(), "first".to_string());
    g.add_node(Node::with_data("a".to_string(), attrs));
    g.add_node(n("a"));
    assert_eq!(g.data.nodes.len(), 1);
    assert_eq!(
        g.data.nodes[0].data.as_ref().unwrap().get("k").map(|s| s.as_str()),
        Some("first")
    );
}

#[test]
fn from_node_list_dedups_keys() {
    let g = SimpleGraph::from_node_list(vec![n("a"), n("a")]);
    assert_eq!(g.data.nodes.len(), 1);
    assert!(g.has_node(&n("a")));
    assert_eq!(g.neighbors(&n("a")).unwrap().len(), 0);
    let d = DiGraph::from_node_list(vec![n("a"), n("b"), n("a")]);
    assert_eq!(d.data.nodes.len(), 2);
    let w = WeightedGraph::from_node_list(vec![n("x"), n("x"), n("x")]);
    assert_eq!(w.data.nodes.len(), 1);
}

#[test]
fn weighted_add_edge_twice_keeps_last_weight() {
    let mut g = WeightedGraph::new();
    g.add_edge(n("a"), n("b"), 5);
    g.add_edge(n("a"), n("b"), 9);
    assert_eq!(g.get_edge_weight(&n("a"), &n("b")), Some(9));
    let ws = g.neighbor_weights(&n("a")).unwrap();
    assert_eq!(ws.len(), 1);
    assert_eq!(ws[0].0.id, "b");
    assert_eq!(ws[0].1, 9);
    assert_eq!(g.get_edge_weight(&n("b"), &n("a")), None);
    assert!(g.neighbor_weights(&n("z")).is_none());
}

#[test]
fn weighted_edge_list_round_trip() {
    let edges = vec![
        (n("1"), n("2"), 3),
        (n("2"), n("4"), 1),
        (n("1"), n("6"), 2),
        (n("1"), n("2"), 7),
        (n("6"), n("8"), 0),
    ];
    let g = WeightedGraph::from_edge_list(edges);
    assert_eq!(g.get_edge_weight(&n("1"), &n("2")), Some(7));
    assert_eq!(g.get_edge_weight(&n("2"), &n("4")), Some(1));
    assert_eq!(g.get_edge_weight(&n("1"), &n("6")), Some(2));
    assert_eq!(g.get_edge_weight(&n("6"), &n("8")), Some(0));
    assert_eq!(g.get_edge_weight(&n("4"), &n("2")), None);
    assert_eq!(g.get_edge_weight(&n("9"), &n("2")), None);
}

#[test]
fn neighbors_never_dangle() {
    let g = SimpleGraph::from_edge_list(vec![(n("1"), n("2")), (n("2"), n("3")), (n("3"), n("1"))]);
    for root in ["1", "2", "3"] {
        for m in g.neighbors(&n(root)).unwrap() {
            assert!(g.has_node(&m));
        }
    }
    let w = WeightedGraph::from_edge_list(vec![(n("a"), n("b"), 1), (n("b"), n("c"), 2)]);
    for root in ["a", "b", "c"] {
        for m in w.neighbors(&n(root)).unwrap() {
            assert!(w.has_node(&m));
        }
    }
}

#[test]
fn from_node_list_keeps_first_occurrence() {
    let mut first = HashMap::new();
    first.insert("rank".to_string(), "first".to_string());
    let mut second = HashMap::new();
    second.insert("rank".to_string(), "second".to_string());
    let g = WeightedGraph::from_node_list(vec![
        Node::with_data("a".to_string(), first),
        n("b"),
        Node::with_data("a".to_string(), second),
    ]);
    assert_eq!(g.data.nodes.len(), 2);
    let a = g.data.nodes.iter().find(|x| x.id == "a").unwrap();
    assert_eq!(a.data.as_ref().unwrap().get("rank").map(|s| s.as_str()), Some("first"));
}

fn ordered_keys(nodes: &[Node]) -> Vec<&str> {
    nodes.iter().map(|x| x.id.as_str()).collect()
}

#[test]
fn neighbor_lists_are_in_key_order() {
    let g = SimpleGraph::from_edge_list(vec![(n("b"), n("a")), (n("b"), n("c")), (n("a"), n("b"))]);
    assert_eq!(g.data.nodes.len(), 3);
    assert_eq!(ordered_keys(&g.neighbors(&n("b")).unwrap()), vec!["a", "c"]);
    assert_eq!(ordered_keys(&g.neighbors(&n("a")).unwrap()), vec!["b"]);
    assert_eq!(ordered_keys(&g.neighbors(&n("c")).unwrap()), vec!["b"]);
    let d = DiGraph::from_edge_list(vec![(n("r"), n("z")), (n("r"), n("m")), (n("r"), n("a")), (n("r"), n("m"))]);
    assert_eq!(ordered_keys(&d.neighbors(&n("r")).unwrap()), vec!["a", "m", "z"]);
    let w = WeightedGraph::from_edge_list(vec![(n("r"), n("q"), 2), (n("r"), n("b"), 1)]);
    let ws = w.neighbor_weights(&n("r")).unwrap();
    assert_eq!(ws.iter().map(|(x, c)| (x.id.as_str(), *c)).collect::<Vec<_>>(), vec![("b", 1), ("q", 2)]);
}

#[test]
fn weighted_repeated_edge_listed_once() {
    let mut g = WeightedGraph::new();
    g.add_edge(n("a"), n("b"), 1);
    g.add_edge(n("a"), n("b"), 2);
    assert_eq!(g.data.nodes.len(), 2);
    assert_eq!(g.neighbors(&n("a")).unwrap().len(), 1);
    assert_eq!(g.get_edge_weight(&n("a"), &n("b")), Some(2));
}

#[test]
fn key_order_is_lexicographic() {
    let s = |x: &str| x.to_string();
    assert!(key_lt(&s("a"), &s("b")));
    assert!(key_lt(&s("ab"), &s("b")));
    assert!(key_lt(&s(""), &s("a")));
    assert!(key_lt(&s("10"), &s("9")));
    assert!(!key_lt(&s("a"), &s("a")));
    assert!(!key_lt(&s("b"), &s("ab")));
    assert!(key_lt(&s("abc"), &s("abd")));
}
