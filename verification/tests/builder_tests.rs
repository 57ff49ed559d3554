use dotgraph::attributes::Attributes;
use dotgraph::builder::{DotGraphBuilder, EdgesFn};
use dotgraph::engine::EngineGraph;
use dotgraph::graph::{DotGraph, Edge, GraphType, Node, NodeIndex};

struct JoinByIds {
    pairs: Vec<(String, String)>,
}

impl EdgesFn for JoinByIds {
    fn derive(self, graph: &mut DotGraph) -> Vec<(Edge, NodeIndex, NodeIndex)> {
        let map = graph.id_map();
        let mut edges = Vec::new();
        for (from, to) in self.pairs.iter() {
            let a = *map.get(from).unwrap();
            let b = *map.get(to).unwrap();
            edges.push((Edge::new(Attributes::new()), a, b));
        }
        edges
    }
}

struct CountWhatIsThere;

impl EdgesFn for CountWhatIsThere {
    fn derive(self, graph: &mut DotGraph) -> Vec<(Edge, NodeIndex, NodeIndex)> {
        assert_eq!(graph.node_count(), 3);
        assert_eq!(graph.edge_count(), 2);
        assert_eq!(graph.id_map().len(), 3);
        Vec::new()
    }
}

fn plain(id: &str) -> Node {
    Node::new(id.to_string(), Attributes::new())
}

#[test]
fn defaults_of_an_empty_builder() {
    let g = DotGraphBuilder::new(GraphType::Graph).build();
    assert!(!g.strict);
    assert_eq!(g._type, GraphType::Graph);
    assert_eq!(g.id, None);
    assert!(g.graph_attributes.is_empty());
    assert!(g.node_attributes.is_empty());
    assert!(g.edge_attributes.is_empty());
    assert_eq!(g.node_count(), 0);
    assert_eq!(g.edge_count(), 0);
}

#[test]
fn fields_are_taken_over() {
    let mut ga = Attributes::new();
    ga.insert("a".to_string(), "1".to_string());
    let mut na = Attributes::new();
    na.insert("b".to_string(), "2".to_string());
    let mut ea = Attributes::new();
    ea.insert("c".to_string(), "3".to_string());
    let g = DotGraphBuilder::new(GraphType::Digraph)
        .strict(true)
        .id(Some("name".to_string()))
        .graph_attributes(ga)
        .node_attributes(na)
        .edge_attributes(ea)
        .build();
    assert!(g.strict);
    assert_eq!(g._type, GraphType::Digraph);
    assert_eq!(g.id, Some("name".to_string()));
    assert_eq!(g.graph_attributes.get("a"), Some(&"1".to_string()));
    assert_eq!(g.node_attributes.get("b"), Some(&"2".to_string()));
    assert_eq!(g.edge_attributes.get("c"), Some(&"3".to_string()));
}

#[test]
fn listed_nodes_and_edges_come_after_the_given_graph() {
    let mut engine = EngineGraph::new();
    let x = engine.add_node(plain("x"));
    let y = engine.add_node(plain("y"));
    engine.add_edge(x, y, Edge::new(Attributes::new()));
    let mut g = DotGraphBuilder::new(GraphType::Digraph)
        .graph(engine)
        .nodes(vec![plain("z")])
        .edges(vec![(Edge::new(Attributes::new()), 2, 0)])
        .build();
    assert_eq!(g.node_count(), 3);
    assert_eq!(g.edge_count(), 2);
    assert_eq!(g.node_weight(0).unwrap().id, "x");
    assert_eq!(g.node_weight(2).unwrap().id, "z");
    assert_eq!(g.edge_endpoints(0), Some((0, 1)));
    assert_eq!(g.edge_endpoints(1), Some((2, 0)));
    assert_eq!(g.id_map().get("z"), Some(&2));
}

#[test]
fn derived_edges_resolve_listed_nodes() {
    let nodes = vec![plain("a"), plain("b")];
    let step = JoinByIds { pairs: vec![("a".to_string(), "b".to_string())] };
    let mut graph = DotGraphBuilder::new(GraphType::Digraph).nodes(nodes).edges_fn(step).build();
    assert_eq!(graph.node_count(), 2);
    assert_eq!(graph.edge_count(), 1);
    assert_eq!(graph.edge_endpoints(0), Some((0, 1)));
    assert_eq!(graph.id_map().get("b"), Some(&1));
}

#[test]
fn the_deriving_step_sees_nodes_and_listed_edges() {
    let g = DotGraphBuilder::new(GraphType::Digraph)
        .nodes(vec![plain("a"), plain("b"), plain("c")])
        .edges(vec![
            (Edge::new(Attributes::new()), 0, 1),
            (Edge::new(Attributes::new()), 1, 2),
        ])
        .edges_fn(CountWhatIsThere)
        .build();
    assert_eq!(g.edge_count(), 2);
}

#[test]
fn derived_edges_come_after_listed_edges() {
    let step = JoinByIds { pairs: vec![("c".to_string(), "a".to_string())] };
    let g = DotGraphBuilder::new(GraphType::Digraph)
        .nodes(vec![plain("a"), plain("b"), plain("c")])
        .edges(vec![(Edge::new(Attributes::new()), 0, 1)])
        .edges_fn(step)
        .build();
    assert_eq!(g.edge_count(), 2);
    assert_eq!(g.edge_endpoints(0), Some((0, 1)));
    assert_eq!(g.edge_endpoints(1), Some((2, 0)));
}
