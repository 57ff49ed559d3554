use dotgraph::attributes::Attributes;
use dotgraph::engine::EngineGraph;
use dotgraph::graph::{Direction, DotGraph, Edge, GraphType, Node};

fn attrs(pairs: &[(&str, &str)]) -> Attributes {
    let mut a = Attributes::new();
    for (k, v) in pairs {
        a.insert(k.to_string(), v.to_string());
    }
    a
}

fn node(id: &str, pairs: &[(&str, &str)]) -> Node {
    Node::new(id.to_string(), attrs(pairs))
}

fn empty(kind: GraphType) -> DotGraph {
    DotGraph::new(
        false,
        kind,
        None,
        Attributes::new(),
        Attributes::new(),
        Attributes::new(),
        EngineGraph::new(),
    )
}

#[test]
fn constructors_store_what_they_are_given() {
    let n = Node::new("n".to_string(), attrs(&[("label", "N")]));
    assert_eq!(n.id, "n");
    assert_eq!(n.attributes.get("label"), Some(&"N".to_string()));
    let e = Edge::new(attrs(&[("color", "red")]));
    assert_eq!(e.attributes.get("color"), Some(&"red".to_string()));
    let g = DotGraph::new(
        true,
        GraphType::Graph,
        Some("g".to_string()),
        attrs(&[("a", "1")]),
        attrs(&[("b", "2")]),
        attrs(&[("c", "3")]),
        EngineGraph::new(),
    );
    assert!(g.strict);
    assert_eq!(g._type, GraphType::Graph);
    assert_eq!(g.id, Some("g".to_string()));
    assert_eq!(g.graph_attributes.get("a"), Some(&"1".to_string()));
    assert_eq!(g.node_attributes.get("b"), Some(&"2".to_string()));
    assert_eq!(g.edge_attributes.get("c"), Some(&"3".to_string()));
    assert_eq!(g.node_count(), 0);
    assert_eq!(g.edge_count(), 0);
}

#[test]
fn new_takes_over_the_engine_graph() {
    let mut engine = EngineGraph::new();
    let a = engine.add_node(node("a", &[]));
    let b = engine.add_node(node("b", &[]));
    engine.add_edge(a, b, Edge::new(attrs(&[("w", "1")])));
    let mut g = DotGraph::new(
        false,
        GraphType::Digraph,
        None,
        Attributes::new(),
        Attributes::new(),
        Attributes::new(),
        engine,
    );
    assert_eq!(g.node_count(), 2);
    assert_eq!(g.edge_count(), 1);
    assert_eq!(g.edge_endpoints(0), Some((0, 1)));
    assert_eq!(g.edge_weight(0).unwrap().attributes.get("w"), Some(&"1".to_string()));
    assert_eq!(g.id_map().get("b"), Some(&1));
}

#[test]
fn add_node_and_add_edge_number_in_order() {
    let mut g = empty(GraphType::Digraph);
    assert_eq!(g.add_node(node("a", &[])), 0);
    assert_eq!(g.add_node(node("b", &[("label", "B")])), 1);
    assert_eq!(g.add_node(node("c", &[])), 2);
    assert_eq!(g.add_edge(0, 1, Edge::new(attrs(&[("k", "v")]))), 0);
    assert_eq!(g.add_edge(2, 1, Edge::new(Attributes::new())), 1);
    assert_eq!(g.node_count(), 3);
    assert_eq!(g.edge_count(), 2);
    assert_eq!(g.node_weight(1).unwrap().id, "b");
    assert_eq!(g.node_weight(1).unwrap().attributes.get("label"), Some(&"B".to_string()));
    assert!(g.node_weight(3).is_none());
    assert_eq!(g.edge_endpoints(0), Some((0, 1)));
    assert_eq!(g.edge_endpoints(1), Some((2, 1)));
    assert_eq!(g.edge_endpoints(2), None);
    assert_eq!(g.edge_weight(0).unwrap().attributes.get("k"), Some(&"v".to_string()));
    assert!(g.edge_weight(1).unwrap().attributes.is_empty());
    assert!(g.edge_weight(2).is_none());
}

#[test]
fn neighbors_follow_the_edges() {
    let mut g = empty(GraphType::Digraph);
    for id in ["a", "b", "c", "d"] {
        g.add_node(node(id, &[]));
    }
    g.add_edge(0, 1, Edge::new(Attributes::new()));
    g.add_edge(0, 2, Edge::new(Attributes::new()));
    g.add_edge(3, 0, Edge::new(Attributes::new()));
    g.add_edge(0, 0, Edge::new(Attributes::new()));
    let mut out = g.neighbors_directed(0, Direction::Outgoing);
    out.sort();
    assert_eq!(out, vec![0, 1, 2]);
    let mut inc = g.neighbors_directed(0, Direction::Incoming);
    inc.sort();
    assert_eq!(inc, vec![0, 3]);
    let mut both = g.neighbors_undirected(0);
    both.sort();
    assert_eq!(both, vec![0, 1, 2, 3]);
    assert_eq!(g.neighbors_directed(1, Direction::Outgoing), Vec::<usize>::new());
    assert_eq!(g.neighbors_directed(1, Direction::Incoming), vec![0]);
    assert_eq!(g.neighbors_undirected(7), Vec::<usize>::new());
    assert_eq!(g.neighbors_directed(7, Direction::Outgoing), Vec::<usize>::new());
}

#[test]
fn id_map_finds_every_node() {
    let mut g = empty(GraphType::Digraph);
    g.add_node(node("a", &[]));
    g.add_node(node("b", &[]));
    let map = g.id_map();
    assert_eq!(map.len(), 2);
    assert_eq!(map.get("a"), Some(&0));
    assert_eq!(map.get("b"), Some(&1));
    assert_eq!(map.get("c"), None);
}

#[test]
fn label_map_holds_only_labelled_nodes() {
    let mut g = empty(GraphType::Digraph);
    g.add_node(node("a", &[("label", "Alpha")]));
    g.add_node(node("b", &[("color", "red")]));
    g.add_node(node("c", &[("color", "red"), ("label", "Gamma")]));
    let map = g.label_map();
    assert_eq!(map.len(), 2);
    assert_eq!(map.get("Alpha"), Some(&0));
    assert_eq!(map.get("Gamma"), Some(&2));
    assert_eq!(map.get("b"), None);
}

#[test]
fn tables_follow_every_change() {
    let mut g = empty(GraphType::Digraph);
    assert_eq!(g.id_map().len(), 0);
    assert_eq!(g.label_map().len(), 0);
    g.add_node(node("a", &[("label", "A")]));
    assert_eq!(g.id_map().get("a"), Some(&0));
    assert_eq!(g.label_map().get("A"), Some(&0));
    assert_eq!(g.id_map().get("b"), None);
    g.add_node(node("b", &[("label", "B")]));
    assert_eq!(g.id_map().get("b"), Some(&1));
    assert_eq!(g.id_map().get("a"), Some(&0));
    assert_eq!(g.label_map().get("B"), Some(&1));
    g.add_edge(0, 1, Edge::new(Attributes::new()));
    assert_eq!(g.id_map().len(), 2);
    assert_eq!(g.label_map().len(), 2);
    g.add_node(node("c", &[]));
    assert_eq!(g.id_map().len(), 3);
    assert_eq!(g.id_map().get("c"), Some(&2));
    assert_eq!(g.label_map().len(), 2);
}

#[test]
fn of_two_nodes_with_one_id_the_later_is_found() {
    let mut g = empty(GraphType::Digraph);
    g.add_node(node("a", &[("label", "same")]));
    g.add_node(node("a", &[("label", "same")]));
    assert_eq!(g.id_map().get("a"), Some(&1));
    assert_eq!(g.label_map().get("same"), Some(&1));
}

#[test]
fn write_gives_the_whole_text() {
    let mut g = DotGraph::new(
        true,
        GraphType::Digraph,
        Some("g".to_string()),
        attrs(&[("rankdir", "LR")]),
        Attributes::new(),
        attrs(&[("color", "grey"), ("pen width", "2")]),
        EngineGraph::new(),
    );
    g.add_node(node("a", &[("label", "A")]));
    g.add_node(node("b", &[]));
    g.add_edge(0, 1, Edge::new(attrs(&[("color", "red")])));
    let expected = "strict digraph \"g\" {\n  graph [\n    rankdir = \"LR\"\n  ]\n  edge [\n    color = \"grey\"\n    \"pen width\" = \"2\"\n  ]\n  \"a\" [\n    label = \"A\"\n  ]\n  \"b\" [\n  ]\n  \"a\" -> \"b\"[\n    color = \"red\"\n  ]\n}\n";
    assert_eq!(g.write(), expected);
}

#[test]
fn write_of_an_empty_undirected_graph() {
    let g = empty(GraphType::Graph);
    assert_eq!(g.write(), "graph {\n}\n");
}

#[test]
fn write_uses_the_sign_of_the_kind_and_escapes() {
    let mut g = empty(GraphType::Graph);
    g.add_node(node("say \"hi\"", &[("node", "back\\slash")]));
    g.add_node(node("-1.5", &[("1", "2")]));
    g.add_edge(1, 0, Edge::new(Attributes::new()));
    let expected = "graph {\n  \"say \\\"hi\\\"\" [\n    \"node\" = \"back\\\\slash\"\n  ]\n  \"-1.5\" [\n    1 = \"2\"\n  ]\n  \"-1.5\" -- \"say \\\"hi\\\"\"[\n  ]\n}\n";
    assert_eq!(g.write(), expected);
}

#[test]
fn remove_edge_moves_the_last_edge_into_its_place() {
    let mut g = empty(GraphType::Digraph);
    for id in ["a", "b", "c"] {
        g.add_node(node(id, &[]));
    }
    g.add_edge(0, 1, Edge::new(attrs(&[("n", "first")])));
    g.add_edge(1, 2, Edge::new(attrs(&[("n", "second")])));
    g.add_edge(2, 0, Edge::new(attrs(&[("n", "third")])));
    let removed = g.remove_edge(0).unwrap();
    assert_eq!(removed.attributes.get("n"), Some(&"first".to_string()));
    assert_eq!(g.edge_count(), 2);
    assert_eq!(g.node_count(), 3);
    assert_eq!(g.edge_endpoints(0), Some((2, 0)));
    assert_eq!(g.edge_weight(0).unwrap().attributes.get("n"), Some(&"third".to_string()));
    assert_eq!(g.edge_endpoints(1), Some((1, 2)));
    assert!(g.remove_edge(2).is_none());
    assert_eq!(g.edge_count(), 2);
    let removed = g.remove_edge(1).unwrap();
    assert_eq!(removed.attributes.get("n"), Some(&"second".to_string()));
    assert_eq!(g.edge_count(), 1);
    assert_eq!(g.edge_endpoints(0), Some((2, 0)));
    assert_eq!(g.neighbors_directed(1, Direction::Outgoing), Vec::<usize>::new());
}

#[test]
fn remove_node_takes_its_edges_along() {
    let mut g = empty(GraphType::Digraph);
    for id in ["a", "b", "c", "d"] {
        g.add_node(node(id, &[("label", id)]));
    }
    g.add_edge(0, 1, Edge::new(attrs(&[("n", "ab")])));
    g.add_edge(1, 2, Edge::new(attrs(&[("n", "bc")])));
    g.add_edge(3, 2, Edge::new(attrs(&[("n", "dc")])));
    g.add_edge(3, 3, Edge::new(attrs(&[("n", "dd")])));
    g.add_edge(0, 0, Edge::new(attrs(&[("n", "aa")])));
    assert_eq!(g.id_map().get("d"), Some(&3));
    assert_eq!(g.label_map().get("a"), Some(&0));
    let removed = g.remove_node(0).unwrap();
    assert_eq!(removed.id, "a");
    assert_eq!(g.node_count(), 3);
    assert_eq!(g.node_weight(0).unwrap().id, "d");
    assert_eq!(g.node_weight(1).unwrap().id, "b");
    assert_eq!(g.node_weight(2).unwrap().id, "c");
    assert_eq!(g.edge_count(), 3);
    let mut left: Vec<(usize, usize, String)> = (0..g.edge_count())
        .map(|i| {
            let (s, t) = g.edge_endpoints(i).unwrap();
            (s, t, g.edge_weight(i).unwrap().attributes.get("n").unwrap().clone())
        })
        .collect();
    left.sort();
    assert_eq!(
        left,
        vec![(0, 0, "dd".to_string()), (0, 2, "dc".to_string()), (1, 2, "bc".to_string())]
    );
    assert_eq!(g.id_map().get("a"), None);
    assert_eq!(g.id_map().get("d"), Some(&0));
    assert_eq!(g.id_map().len(), 3);
    assert_eq!(g.label_map().get("a"), None);
    assert_eq!(g.label_map().get("d"), Some(&0));
    assert!(g.remove_node(3).is_none());
    let removed = g.remove_node(2).unwrap();
    assert_eq!(removed.id, "c");
    assert_eq!(g.node_count(), 2);
    assert_eq!(g.edge_count(), 1);
    assert_eq!(g.edge_endpoints(0), Some((0, 0)));
}
