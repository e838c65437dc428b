use graph_sessions::manager::{AnyGraph, Manager, QueryError};
use graph_sessions::node::Node;

fn n(id: &str) -> Node {
    Node::new(id.to_string())
}

#[test]
fn sessions_are_stored_and_found() {
    let mut m = Manager::new();
    let a = m.create_simple_from_nodes(vec![n("a"), n("a"), n("b")]);
    let b = m.create_weighted_from_edges(vec![(n("1"), n("2"), 4)]);
    assert_eq!(a.chars().count(), 10);
    assert_eq!(b.chars().count(), 10);
    assert_ne!(a, b);
    match m.get(&a) {
        Some(AnyGraph::Simple(g)) => assert_eq!(g.data.nodes.len(), 2),
        _ => panic!("expected the undirected graph"),
    }
    match m.get(&b) {
        Some(AnyGraph::Weighted(g)) => assert_eq!(g.get_edge_weight(&n("1"), &n("2")), Some(4)),
        _ => panic!("expected the weighted graph"),
    }
    assert!(m.get(&"missing".to_string()).is_none());
}

#[test]
fn every_constructor_registers_its_variant() {
    let mut m = Manager::new();
    let ids = vec![
        m.create_simple_from_edges(vec![(n("a"), n("b"))]),
        m.create_di_from_nodes(vec![n("a")]),
        m.create_di_from_edges(vec![(n("a"), n("b"))]),
        m.create_weighted_from_nodes(vec![n("a")]),
    ];
    assert!(matches!(m.get(&ids[0]), Some(AnyGraph::Simple(_))));
    assert!(matches!(m.get(&ids[1]), Some(AnyGraph::Directed(_))));
    assert!(matches!(m.get(&ids[2]), Some(AnyGraph::Directed(_))));
    assert!(matches!(m.get(&ids[3]), Some(AnyGraph::Weighted(_))));
    assert_eq!(m.sessions.len(), 4);
}

#[test]
fn new_session_returns_fresh_id() {
    let mut m = Manager::new();
    let id = m.new_session(AnyGraph::Directed(graph_sessions::graph::DiGraph::new()));
    assert_eq!(id.len(), 10);
    assert!(id.chars().all(|c| c.is_ascii_alphanumeric() || c == '_' || c == '-'));
    assert!(m.get(&id).is_some());
}

#[test]
fn queries_report_unknown_session() {
    let m = Manager::new();
    let missing = "nope".to_string();
    assert_eq!(m.search(&missing, n("a"), |_: &Node| true).err(), Some(QueryError::UnknownSession));
    assert_eq!(m.shortest_path(&missing, &n("a"), &n("b")).err(), Some(QueryError::UnknownSession));
}

#[test]
fn shortest_path_needs_weights() {
    let mut m = Manager::new();
    let id = m.create_di_from_edges(vec![(n("a"), n("b"))]);
    assert_eq!(m.shortest_path(&id, &n("a"), &n("b")).err(), Some(QueryError::NotWeighted));
}

#[test]
fn queries_run_on_stored_graphs() {
    let mut m = Manager::new();
    let chain = m.create_simple_from_edges(vec![(n("1"), n("2")), (n("2"), n("3")), (n("3"), n("4"))]);
    let found = m.search(&chain, n("1"), |x: &Node| x.id == "3").unwrap();
    assert_eq!(found.map(|x| x.id), Some("3".to_string()));
    assert!(m.search(&chain, n("1"), |x: &Node| x.id == "99").unwrap().is_none());
    let w = m.create_weighted_from_edges(vec![
        (n("1"), n("2"), 3),
        (n("2"), n("4"), 1),
        (n("1"), n("6"), 2),
        (n("6"), n("8"), 7),
        (n("8"), n("10"), 1),
        (n("11"), n("12"), 3),
    ]);
    let (path, cost) = m.shortest_path(&w, &n("1"), &n("10")).unwrap().unwrap();
    let keys: Vec<&str> = path.iter().map(|x| x.id.as_str()).collect();
    assert_eq!(keys, vec!["1", "6", "8", "10"]);
    assert_eq!(cost, 10);
    assert!(m.shortest_path(&w, &n("1"), &n("12")).unwrap().is_none());
}
