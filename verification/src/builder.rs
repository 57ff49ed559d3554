//! A builder that assembles a graph from optional parts and then lets one
//! step derive further edges from the graph built so far.

use vstd::prelude::*;
use crate::attributes::Attributes;
use crate::engine::{
    engine_add_edge, engine_add_node, engine_edges, engine_new, engine_nodes,
    ends_within, EngineGraph, ENGINE_LIMIT,
};
use crate::graph::{
    id_index, lemma_id_index_has, option_view, DotGraph, Edge, EdgeView, GraphType, GraphView,
    Node, NodeIndex, NodeView,
};

verus! {

/// What a list of nodes holds.
pub open spec fn node_views(nodes: Seq<Node>) -> Seq<NodeView> {
    nodes.map_values(|n: Node| n@)
}

/// What a list of edges with their ends holds.
pub open spec fn edge_views(edges: Seq<(Edge, NodeIndex, NodeIndex)>) -> Seq<EdgeView> {
    edges.map_values(
        |t: (Edge, NodeIndex, NodeIndex)| EdgeView { source: t.1, target: t.2, attributes: t.0@ },
    )
}

/// A step that derives edges from a graph whose nodes and listed edges are
/// in place. It may ask the graph for its tables, and leaves what the graph
/// holds as it is.
pub trait EdgesFn: Sized {
    /// Whether the step can run on a graph that holds `graph`. Unless an
    /// implementation says otherwise, it always can.
    open spec fn applies(&self, graph: GraphView) -> bool {
        true
    }

    /// Whether `edges` is what the step derives from a graph that holds
    /// `graph`. Unless an implementation says more, nothing is known of the
    /// edges but what `derive` promises of every step.
    open spec fn derives(&self, graph: GraphView, edges: Seq<EdgeView>) -> bool {
        true
    }

    /// Derives the edges. Each joins two nodes of the graph, and the graph
    /// has room for them.
    fn derive(self, graph: &mut DotGraph) -> (edges: Vec<(Edge, NodeIndex, NodeIndex)>)
        requires
            self.applies(old(graph)@),
        ensures
            final(graph)@ == old(graph)@,
            self.derives(old(graph)@, edge_views(edges@)),
            ends_within(edge_views(edges@), old(graph)@.nodes.len()),
            old(graph)@.edges.len() + edges@.len() <= ENGINE_LIMIT,
    ;
}

/// The step that derives no edge.
pub struct NoEdges;

impl EdgesFn for NoEdges {
    open spec fn applies(&self, graph: GraphView) -> bool {
        graph.edges.len() <= ENGINE_LIMIT
    }

    open spec fn derives(&self, graph: GraphView, edges: Seq<EdgeView>) -> bool {
        edges == Seq::<EdgeView>::empty()
    }

    fn derive(self, graph: &mut DotGraph) -> (edges: Vec<(Edge, NodeIndex, NodeIndex)>) {
        let edges: Vec<(Edge, NodeIndex, NodeIndex)> = Vec::new();
        assert(edge_views(edges@) =~= Seq::<EdgeView>::empty());
        edges
    }
}

/// Builder to easily create a [`DotGraph`]. Each part is absent until it is
/// set; `F` is the kind of step that derives further edges.
pub struct DotGraphBuilder<F: EdgesFn> {
    pub strict: Option<bool>,
    pub _type: GraphType,
    pub id: Option<Option<String>>,
    pub graph_attributes: Option<Attributes>,
    pub node_attributes: Option<Attributes>,
    pub edge_attributes: Option<Attributes>,
    pub nodes: Option<Vec<Node>>,
    pub edges: Option<Vec<(Edge, NodeIndex, NodeIndex)>>,
    pub edges_fn: Option<F>,
    pub graph: Option<EngineGraph>,
}

/// The pairs of an optional attribute list; none when it is absent.
pub open spec fn pairs_or_empty(attrs: Option<Attributes>) -> Seq<(Seq<char>, Seq<char>)> {
    match attrs {
        Some(a) => a@,
        None => Seq::empty(),
    }
}

impl DotGraphBuilder<NoEdges> {
    /// Creates a new Builder and initializes it with default values.
    pub fn new(_type: GraphType) -> (builder: DotGraphBuilder<NoEdges>)
        ensures
            builder == (DotGraphBuilder::<NoEdges> {
                strict: None,
                _type: _type,
                id: None,
                graph_attributes: None,
                node_attributes: None,
                edge_attributes: None,
                nodes: None,
                edges: None,
                edges_fn: None,
                graph: None,
            }),
    {
        DotGraphBuilder {
            strict: None,
            _type: _type,
            id: None,
            graph_attributes: None,
            node_attributes: None,
            edge_attributes: None,
            nodes: None,
            edges: None,
            edges_fn: None,
            graph: None,
        }
    }
}

impl<F: EdgesFn> DotGraphBuilder<F> {
    /// Sets or unsets this graph's `strict` attribute.
    pub fn strict(self, strict: bool) -> (builder: DotGraphBuilder<F>)
        ensures
            builder == (DotGraphBuilder { strict: Some(strict), ..self }),
    {
        let mut builder = self;
        builder.strict = Some(strict);
        builder
    }

    /// Sets the id / name of the graph.
    pub fn id(self, id: Option<String>) -> (builder: DotGraphBuilder<F>)
        ensures
            builder == (DotGraphBuilder { id: Some(id), ..self }),
    {
        let mut builder = self;
        builder.id = Some(id);
        builder
    }

    /// Sets this graph's global `graph` attributes.
    pub fn graph_attributes(self, attrs: Attributes) -> (builder: DotGraphBuilder<F>)
        ensures
            builder == (DotGraphBuilder { graph_attributes: Some(attrs), ..self }),
    {
        let mut builder = self;
        builder.graph_attributes = Some(attrs);
        builder
    }

    /// Sets this graph's global `node` attributes.
    pub fn node_attributes(self, attrs: Attributes) -> (builder: DotGraphBuilder<F>)
        ensures
            builder == (DotGraphBuilder { node_attributes: Some(attrs), ..self }),
    {
        let mut builder = self;
        builder.node_attributes = Some(attrs);
        builder
    }

    /// Sets this graph's global `edge` attributes.
    pub fn edge_attributes(self, attrs: Attributes) -> (builder: DotGraphBuilder<F>)
        ensures
            builder == (DotGraphBuilder { edge_attributes: Some(attrs), ..self }),
    {
        let mut builder = self;
        builder.edge_attributes = Some(attrs);
        builder
    }

    /// Sets the engine's graph with the nodes and edges to start from.
    pub fn graph(self, graph: EngineGraph) -> (builder: DotGraphBuilder<F>)
        ensures
            builder == (DotGraphBuilder { graph: Some(graph), ..self }),
    {
        let mut builder = self;
        builder.graph = Some(graph);
        builder
    }

    /// Sets the list of nodes, which will be added to the given or default graph.
    pub fn nodes(self, nodes: Vec<Node>) -> (builder: DotGraphBuilder<F>)
        ensures
            builder == (DotGraphBuilder { nodes: Some(nodes), ..self }),
    {
        let mut builder = self;
        builder.nodes = Some(nodes);
        builder
    }

    /// Sets the list of edges, which will be added to the given or default graph.
    pub fn edges(self, edges: Vec<(Edge, NodeIndex, NodeIndex)>) -> (builder: DotGraphBuilder<F>)
        ensures
            builder == (DotGraphBuilder { edges: Some(edges), ..self }),
    {
        let mut builder = self;
        builder.edges = Some(edges);
        builder
    }

    /// Sets the step that derives further edges. It runs last, on the graph
    /// that holds everything else the builder was given, and the edges it
    /// returns are added to that graph.
    pub fn edges_fn<G: EdgesFn>(self, edges_fn: G) -> (builder: DotGraphBuilder<G>)
        ensures
            builder == (DotGraphBuilder::<G> {
                strict: self.strict,
                _type: self._type,
                id: self.id,
                graph_attributes: self.graph_attributes,
                node_attributes: self.node_attributes,
                edge_attributes: self.edge_attributes,
                nodes: self.nodes,
                edges: self.edges,
                edges_fn: Some(edges_fn),
                graph: self.graph,
            }),
    {
        DotGraphBuilder {
            strict: self.strict,
            _type: self._type,
            id: self.id,
            graph_attributes: self.graph_attributes,
            node_attributes: self.node_attributes,
            edge_attributes: self.edge_attributes,
            nodes: self.nodes,
            edges: self.edges,
            edges_fn: Some(edges_fn),
            graph: self.graph,
        }
    }

    /// The nodes that the builder was given in a list.
    pub open spec fn listed_nodes(&self) -> Seq<NodeView> {
        match self.nodes {
            Some(nodes) => node_views(nodes@),
            None => Seq::empty(),
        }
    }

    /// The edges that the builder was given in a list.
    pub open spec fn listed_edges(&self) -> Seq<EdgeView> {
        match self.edges {
            Some(edges) => edge_views(edges@),
            None => Seq::empty(),
        }
    }

    /// The nodes of the engine's graph that the builder was given.
    pub open spec fn given_nodes(&self) -> Seq<NodeView> {
        match self.graph {
            Some(graph) => engine_nodes(graph),
            None => Seq::empty(),
        }
    }

    /// The edges of the engine's graph that the builder was given.
    pub open spec fn given_edges(&self) -> Seq<EdgeView> {
        match self.graph {
            Some(graph) => engine_edges(graph),
            None => Seq::empty(),
        }
    }

    /// What the graph holds when the deriving step runs: the fields with
    /// their defaults, the given graph's nodes followed by the listed nodes,
    /// and the given graph's edges followed by the listed edges.
    pub open spec fn base(&self) -> GraphView {
        GraphView {
            strict: match self.strict {
                Some(strict) => strict,
                None => false,
            },
            kind: self._type,
            id: match self.id {
                Some(id) => option_view(id),
                None => None,
            },
            graph_attributes: pairs_or_empty(self.graph_attributes),
            node_attributes: pairs_or_empty(self.node_attributes),
            edge_attributes: pairs_or_empty(self.edge_attributes),
            nodes: self.given_nodes() + self.listed_nodes(),
            edges: self.given_edges() + self.listed_edges(),
        }
    }

    /// Whether the built graph may hold `derived` beyond the given and the
    /// listed edges: what the deriving step may derive, and nothing where
    /// there is no such step.
    pub open spec fn may_derive(&self, derived: Seq<EdgeView>) -> bool {
        match self.edges_fn {
            Some(f) => f.derives(self.base(), derived),
            None => derived == Seq::<EdgeView>::empty(),
        }
    }

    /// Whether the builder can build: the engine can number all nodes and
    /// edges, the listed edges join nodes that will be there, and the
    /// deriving step, if there is one, can run.
    pub open spec fn can_build(&self) -> bool {
        &&& self.base().nodes.len() <= ENGINE_LIMIT
        &&& self.base().edges.len() <= ENGINE_LIMIT
        &&& ends_within(self.listed_edges(), self.base().nodes.len())
        &&& self.edges_fn matches Some(f) ==> f.applies(self.base())
    }

    /// Builds and returns the graph: takes the given engine graph or an
    /// empty one, adds the listed nodes and then the listed edges, and makes
    /// the graph with the flags and attributes that were set (not strict, no
    /// id and no attributes where none were set). Then the deriving step, if
    /// there is one, derives edges from that graph, and they are added to it.
    pub fn build(self) -> (dot: DotGraph)
        requires
            self.can_build(),
        ensures
            exists|derived: Seq<EdgeView>|
                #![trigger self.may_derive(derived)]
                self.may_derive(derived) && ends_within(derived, self.base().nodes.len()) && dot@
                    == (GraphView { edges: self.base().edges + derived, ..self.base() }),
    {
        let mut graph = match self.graph {
            Some(graph) => graph,
            None => engine_new(),
        };
        if let Some(nodes) = self.nodes {
            let mut i: usize = 0;
            while i < nodes.len()
                invariant
                    i <= nodes@.len(),
                    self.given_nodes().len() + nodes@.len() <= ENGINE_LIMIT,
                    engine_nodes(graph) == self.given_nodes() + node_views(nodes@.take(i as int)),
                    engine_edges(graph) == self.given_edges(),
                decreases nodes@.len() - i,
            {
                let node = nodes[i].clone();
                proof {
                    assert(node_views(nodes@.take(i + 1)) =~= node_views(nodes@.take(i as int)).push(
                        node@,
                    ));
                    assert(self.given_nodes() + node_views(nodes@.take(i as int)).push(node@)
                        =~= (self.given_nodes() + node_views(nodes@.take(i as int))).push(node@));
                }
                engine_add_node(&mut graph, node);
                i += 1;
            }
            proof {
                assert(nodes@.take(i as int) =~= nodes@);
            }
        }
        assert(engine_nodes(graph) =~= self.base().nodes);
        if let Some(edges) = self.edges {
            let mut i: usize = 0;
            while i < edges.len()
                invariant
                    i <= edges@.len(),
                    self.given_edges().len() + edges@.len() <= ENGINE_LIMIT,
                    ends_within(edge_views(edges@), engine_nodes(graph).len()),
                    engine_nodes(graph) == self.base().nodes,
                    engine_edges(graph) == self.given_edges() + edge_views(edges@.take(i as int)),
                decreases edges@.len() - i,
            {
                let edge = edges[i].0.clone();
                let source = edges[i].1;
                let target = edges[i].2;
                proof {
                    let added = EdgeView { source: source, target: target, attributes: edge@ };
                    assert(edge_views(edges@)[i as int] == added);
                    assert(edge_views(edges@.take(i + 1)) =~= edge_views(
                        edges@.take(i as int),
                    ).push(added));
                    assert(self.given_edges() + edge_views(edges@.take(i as int)).push(added)
                        =~= (self.given_edges() + edge_views(edges@.take(i as int))).push(added));
                }
                engine_add_edge(&mut graph, source, target, edge);
                i += 1;
            }
            proof {
                assert(edges@.take(i as int) =~= edges@);
            }
        }
        assert(engine_edges(graph) =~= self.base().edges);
        let mut dot_graph = DotGraph::new(
            match self.strict {
                Some(strict) => strict,
                None => false,
            },
            self._type,
            match self.id {
                Some(id) => id,
                None => None,
            },
            match self.graph_attributes {
                Some(attrs) => attrs,
                None => Attributes::new(),
            },
            match self.node_attributes {
                Some(attrs) => attrs,
                None => Attributes::new(),
            },
            match self.edge_attributes {
                Some(attrs) => attrs,
                None => Attributes::new(),
            },
            graph,
        );
        assert(dot_graph@ == self.base());
        if let Some(edges_fn) = self.edges_fn {
            let ghost f = edges_fn;
            let edges = edges_fn.derive(&mut dot_graph);
            let mut i: usize = 0;
            while i < edges.len()
                invariant
                    i <= edges@.len(),
                    self.base().edges.len() + edges@.len() <= ENGINE_LIMIT,
                    ends_within(edge_views(edges@), self.base().nodes.len()),
                    f.derives(self.base(), edge_views(edges@)),
                    dot_graph@ == (GraphView {
                        edges: self.base().edges + edge_views(edges@.take(i as int)),
                        ..self.base()
                    }),
                decreases edges@.len() - i,
            {
                let edge = edges[i].0.clone();
                let source = edges[i].1;
                let target = edges[i].2;
                proof {
                    let added = EdgeView { source: source, target: target, attributes: edge@ };
                    assert(edge_views(edges@)[i as int] == added);
                    assert(edge_views(edges@.take(i + 1)) =~= edge_views(
                        edges@.take(i as int),
                    ).push(added));
                    assert(self.base().edges + edge_views(edges@.take(i as int)).push(added)
                        =~= (self.base().edges + edge_views(edges@.take(i as int))).push(added));
                }
                dot_graph.add_edge(source, target, edge);
                i += 1;
            }
            proof {
                assert(edges@.take(i as int) =~= edges@);
                assert(self.may_derive(edge_views(edges@)));
            }
        } else {
            proof {
                let none = Seq::<EdgeView>::empty();
                assert(self.base().edges + none =~= self.base().edges);
                assert(self.may_derive(none));
            }
        }
        dot_graph
    }
}

/// The deriving step runs after the nodes are in place: on the graph that it
/// sees, the table of ids resolves the id of every node that the builder was
/// given in its list, to a node with that id.
pub proof fn lemma_listed_nodes_resolve<F: EdgesFn>(builder: DotGraphBuilder<F>, i: int)
    requires
        0 <= i < builder.listed_nodes().len(),
        builder.base().nodes.len() <= ENGINE_LIMIT,
    ensures
        id_index(builder.base().nodes).contains_key(builder.listed_nodes()[i].id),
        id_index(builder.base().nodes)[builder.listed_nodes()[i].id] < builder.base().nodes.len(),
        builder.base().nodes[id_index(builder.base().nodes)[builder.listed_nodes()[i].id] as int].id
            == builder.listed_nodes()[i].id,
{
    lemma_id_index_has(builder.base().nodes, builder.given_nodes().len() + i);
}

} // verus!
