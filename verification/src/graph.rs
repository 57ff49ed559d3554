//! Attributed nodes and edges, and the graph that holds them together with
//! the graph's own attributes and two cached lookup tables.

use vstd::prelude::*;
use vstd::hash_map::StringHashMap;
use crate::attributes::{lookup, Attributes};
use crate::render::{
    document, edge_block, edge_blocks, header, lemma_edge_blocks_push, lemma_node_blocks_push,
    node_block, node_blocks, put_default_block, put_edge_block, put_header, put_node_block,
    put_str,
};
use crate::engine::{
    apart_from, engine_add_edge, engine_add_node, engine_edge, engine_new, engine_remove_edge,
    engine_remove_node, renumbered, swap_removed, engine_edge_count, engine_edge_endpoints,
    engine_edges, engine_neighbors_directed, engine_neighbors_undirected, engine_node,
    engine_node_count, engine_nodes, adjacent, ends_within, in_sources, lemma_neighbors_within,
    out_targets, EngineGraph, ENGINE_LIMIT,
};

verus! {

/// The way an edge points, seen from one of its ends.
#[derive(Debug, Hash, PartialEq, Eq, Clone, Copy, Structural)]
pub enum Direction {
    /// An edge from the node.
    Outgoing,
    /// An edge to the node.
    Incoming,
}

/// The other ends of the edges that leave `a`, or that enter it, in the
/// order of the edges.
pub open spec fn directed_neighbors(edges: Seq<EdgeView>, a: usize, dir: Direction) -> Seq<usize> {
    match dir {
        Direction::Outgoing => out_targets(edges, a),
        Direction::Incoming => in_sources(edges, a),
    }
}

/// A node's handle: its index in the graph.
pub type NodeIndex = usize;

/// An edge's handle: its index in the graph.
pub type EdgeIndex = usize;

/// Defines the type of a graph.
#[derive(Debug, Hash, PartialEq, Eq, Clone, Copy, Structural)]
pub enum GraphType {
    /// An undirected graph, where an edge between A and B is also one between
    /// B and A.
    Graph,
    /// A directed graph, where an edge from A to B says nothing of one from B
    /// to A.
    Digraph,
}

/// What a node holds: its id and its attributes in order.
pub struct NodeView {
    pub id: Seq<char>,
    pub attributes: Seq<(Seq<char>, Seq<char>)>,
}

/// What an edge holds: its two ends and its attributes in order.
pub struct EdgeView {
    pub source: usize,
    pub target: usize,
    pub attributes: Seq<(Seq<char>, Seq<char>)>,
}

/// A node inside the graph.
#[derive(Debug)]
pub struct Node {
    /// Id / name of the node.
    pub id: String,
    /// Attributes of this node.
    pub attributes: Attributes,
}

impl View for Node {
    type V = NodeView;

    open spec fn view(&self) -> NodeView {
        NodeView { id: self.id@, attributes: self.attributes@ }
    }
}

impl Node {
    /// Creates a new node with given id and attributes.
    pub fn new(id: String, attributes: Attributes) -> (node: Node)
        ensures
            node.id == id,
            node.attributes == attributes,
    {
        Node { id, attributes }
    }
}

impl Clone for Node {
    fn clone(&self) -> (copy: Node)
        ensures
            copy@ == self@,
    {
        Node { id: self.id.clone(), attributes: self.attributes.clone() }
    }
}

/// An edge between two nodes inside the graph.
///
/// Which nodes it joins is kept by the graph; the edge itself holds its
/// attributes only.
#[derive(Debug)]
pub struct Edge {
    /// Attributes of this edge.
    pub attributes: Attributes,
}

impl View for Edge {
    type V = Seq<(Seq<char>, Seq<char>)>;

    open spec fn view(&self) -> Seq<(Seq<char>, Seq<char>)> {
        self.attributes@
    }
}

impl Edge {
    /// Creates a new edge with given attributes.
    pub fn new(attributes: Attributes) -> (edge: Edge)
        ensures
            edge.attributes == attributes,
    {
        Edge { attributes }
    }
}

impl Clone for Edge {
    fn clone(&self) -> (copy: Edge)
        ensures
            copy@ == self@,
    {
        Edge { attributes: self.attributes.clone() }
    }
}

/// The table from each node's id to its index. Of two nodes with one id the
/// later one is found.
pub open spec fn id_index(nodes: Seq<NodeView>) -> Map<Seq<char>, usize>
    decreases nodes.len(),
{
    if nodes.len() == 0 {
        Map::empty()
    } else {
        id_index(nodes.drop_last()).insert(nodes.last().id, (nodes.len() - 1) as usize)
    }
}

/// Whether no two of `nodes` have the same id.
pub open spec fn ids_distinct(nodes: Seq<NodeView>) -> bool {
    forall|i: int, j: int| 0 <= i < j < nodes.len() ==> nodes[i].id != nodes[j].id
}

/// Every id in a list of nodes has an entry in the table of ids.
pub proof fn lemma_id_index_has(nodes: Seq<NodeView>, i: int)
    requires
        0 <= i < nodes.len() <= usize::MAX,
    ensures
        id_index(nodes).contains_key(nodes[i].id),
        id_index(nodes)[nodes[i].id] < nodes.len(),
        nodes[id_index(nodes)[nodes[i].id] as int].id == nodes[i].id,
    decreases nodes.len(),
{
    let last = nodes.len() - 1;
    if i < last {
        lemma_id_index_has(nodes.drop_last(), i);
        if nodes[last].id != nodes[i].id {
            let at = id_index(nodes.drop_last())[nodes[i].id];
            assert(id_index(nodes)[nodes[i].id] == at);
            assert(nodes.drop_last()[at as int] == nodes[at as int]);
        }
    }
}

/// Every entry of the table of ids is a node.
pub proof fn lemma_id_index_range(nodes: Seq<NodeView>, id: Seq<char>)
    requires
        nodes.len() <= usize::MAX,
        id_index(nodes).contains_key(id),
    ensures
        id_index(nodes)[id] < nodes.len(),
    decreases nodes.len(),
{
    if nodes.len() > 0 {
        if nodes.last().id != id {
            lemma_id_index_range(nodes.drop_last(), id);
        }
    }
}

/// In a list of nodes with distinct ids, the table of ids gives each node
/// its own index.
pub proof fn lemma_id_index_own(nodes: Seq<NodeView>, i: int)
    requires
        ids_distinct(nodes),
        0 <= i < nodes.len() <= usize::MAX,
    ensures
        id_index(nodes).contains_key(nodes[i].id),
        id_index(nodes)[nodes[i].id] == i,
{
    lemma_id_index_has(nodes, i);
    let j = id_index(nodes)[nodes[i].id] as int;
    if j < i {
        assert(nodes[j].id != nodes[i].id);
    } else if i < j {
        assert(nodes[i].id != nodes[j].id);
    }
}

/// The key under which a node's label stands among its attributes.
pub open spec fn label_key() -> Seq<char> {
    "label"@
}

/// The table from each node's label to its index. A node without a label
/// has no entry; of two nodes with one label the later one is found.
pub open spec fn label_index(nodes: Seq<NodeView>) -> Map<Seq<char>, usize>
    decreases nodes.len(),
{
    if nodes.len() == 0 {
        Map::empty()
    } else {
        match lookup(nodes.last().attributes, label_key()) {
            Some(label) => label_index(nodes.drop_last()).insert(
                label,
                (nodes.len() - 1) as usize,
            ),
            None => label_index(nodes.drop_last()),
        }
    }
}

/// The engine's graph with the two tables computed from it, each either
/// absent or up to date.
pub struct GraphStore {
    graph: EngineGraph,
    label_map: Option<StringHashMap<NodeIndex>>,
    id_map: Option<StringHashMap<NodeIndex>>,
}

impl GraphStore {
    /// Every edge joins two nodes, and each table that is there is the one
    /// that a walk over the nodes would give now.
    #[verifier::type_invariant]
    pub closed spec fn well_formed(&self) -> bool {
        &&& ends_within(engine_edges(self.graph), engine_nodes(self.graph).len())
        &&& self.id_map matches Some(m) ==> m@ == id_index(engine_nodes(self.graph))
        &&& self.label_map matches Some(m) ==> m@ == label_index(engine_nodes(self.graph))
    }

    /// The nodes in the store, by index.
    pub closed spec fn nodes(&self) -> Seq<NodeView> {
        engine_nodes(self.graph)
    }

    /// The edges in the store, by index.
    pub closed spec fn edges(&self) -> Seq<EdgeView> {
        engine_edges(self.graph)
    }
}

/// What a graph holds.
pub struct GraphView {
    pub strict: bool,
    pub kind: GraphType,
    pub id: Option<Seq<char>>,
    pub graph_attributes: Seq<(Seq<char>, Seq<char>)>,
    pub node_attributes: Seq<(Seq<char>, Seq<char>)>,
    pub edge_attributes: Seq<(Seq<char>, Seq<char>)>,
    pub nodes: Seq<NodeView>,
    pub edges: Seq<EdgeView>,
}

/// The characters of an optional string.
pub open spec fn option_view(s: Option<String>) -> Option<Seq<char>> {
    match s {
        Some(text) => Some(text@),
        None => None,
    }
}

/// A graph of attributed nodes and edges with the fields and default
/// attributes of the dot language.
pub struct DotGraph {
    /// Specifies if this graph is strict.
    pub strict: bool,
    /// Defines the type of this graph.
    pub _type: GraphType,
    /// Id / Name
    pub id: Option<String>,
    /// Global `graph` attributes
    pub graph_attributes: Attributes,
    /// Global `node` attributes
    pub node_attributes: Attributes,
    /// Global `edge` attributes
    pub edge_attributes: Attributes,
    /// The nodes and edges, with the lazily generated tables.
    pub store: GraphStore,
}

impl View for DotGraph {
    type V = GraphView;

    open spec fn view(&self) -> GraphView {
        GraphView {
            strict: self.strict,
            kind: self._type,
            id: option_view(self.id),
            graph_attributes: self.graph_attributes@,
            node_attributes: self.node_attributes@,
            edge_attributes: self.edge_attributes@,
            nodes: self.store.nodes(),
            edges: self.store.edges(),
        }
    }
}

impl DotGraph {
    /// The nodes of the graph, by index.
    pub open spec fn nodes(&self) -> Seq<NodeView> {
        self.store.nodes()
    }

    /// The edges of the graph, by index.
    pub open spec fn edges(&self) -> Seq<EdgeView> {
        self.store.edges()
    }

    /// Creates a new graph given all attributes and the engine's graph.
    pub fn new(
        strict: bool,
        _type: GraphType,
        id: Option<String>,
        graph_attributes: Attributes,
        node_attributes: Attributes,
        edge_attributes: Attributes,
        graph: EngineGraph,
    ) -> (dot: DotGraph)
        ensures
            dot.strict == strict,
            dot._type == _type,
            dot.id == id,
            dot.graph_attributes == graph_attributes,
            dot.node_attributes == node_attributes,
            dot.edge_attributes == edge_attributes,
            dot.nodes() == engine_nodes(graph),
            dot.edges() == engine_edges(graph),
    {
        // Asked for what it tells of the edges: each joins two nodes.
        let _ = engine_node_count(&graph);
        DotGraph {
            strict,
            _type,
            id,
            graph_attributes,
            node_attributes,
            edge_attributes,
            store: GraphStore { graph, label_map: None, id_map: None },
        }
    }

    /// The number of nodes. Every edge joins two of them.
    pub fn node_count(&self) -> (n: usize)
        ensures
            n == self.nodes().len(),
            ends_within(self.edges(), n as nat),
    {
        engine_node_count(&self.store.graph)
    }

    /// The number of edges.
    pub fn edge_count(&self) -> (n: usize)
        ensures
            n == self.edges().len(),
    {
        engine_edge_count(&self.store.graph)
    }

    /// The node at `index`, if there is one.
    pub fn node_weight(&self, index: NodeIndex) -> (node: Option<&Node>)
        ensures
            match node {
                Some(n) => index < self.nodes().len() && n@ == self.nodes()[index as int],
                None => index >= self.nodes().len(),
            },
    {
        if index < engine_node_count(&self.store.graph) {
            Some(engine_node(&self.store.graph, index))
        } else {
            None
        }
    }

    /// Computes the table from ids to indices by one walk over the nodes.
    fn compute_id_map(&self) -> (map: StringHashMap<NodeIndex>)
        ensures
            map@ == id_index(self.nodes()),
    {
        let mut map: StringHashMap<NodeIndex> = StringHashMap::new();
        let n = engine_node_count(&self.store.graph);
        let mut i: usize = 0;
        while i < n
            invariant
                n == self.nodes().len(),
                i <= n,
                map@ == id_index(self.nodes().take(i as int)),
            decreases n - i,
        {
            let node = engine_node(&self.store.graph, i);
            proof {
                assert(self.nodes().take(i + 1).drop_last() =~= self.nodes().take(i as int));
            }
            map.insert(node.id.clone(), i);
            i += 1;
        }
        proof {
            assert(self.nodes().take(n as int) =~= self.nodes());
        }
        map
    }

    /// Computes the table from labels to indices by one walk over the nodes.
    fn compute_label_map(&self) -> (map: StringHashMap<NodeIndex>)
        ensures
            map@ == label_index(self.nodes()),
    {
        let mut map: StringHashMap<NodeIndex> = StringHashMap::new();
        let n = engine_node_count(&self.store.graph);
        let mut i: usize = 0;
        while i < n
            invariant
                n == self.nodes().len(),
                i <= n,
                map@ == label_index(self.nodes().take(i as int)),
            decreases n - i,
        {
            let node = engine_node(&self.store.graph, i);
            proof {
                assert(self.nodes().take(i + 1).drop_last() =~= self.nodes().take(i as int));
            }
            match node.attributes.get("label") {
                Some(label) => {
                    map.insert(label.clone(), i);
                },
                None => {},
            }
            i += 1;
        }
        proof {
            assert(self.nodes().take(n as int) =~= self.nodes());
        }
        map
    }

    /// The table from node ids to indices. It is computed on the first call
    /// and on the first call after the graph changed, and kept until the
    /// graph changes again.
    pub fn id_map(&mut self) -> (map: &StringHashMap<NodeIndex>)
        ensures
            map@ == id_index(old(self).nodes()),
            final(self)@ == old(self)@,
    {
        proof {
            use_type_invariant(&self.store);
        }
        if self.store.id_map.is_none() {
            let fresh = self.compute_id_map();
            self.store.id_map = Some(fresh);
        }
        self.store.id_map.as_ref().unwrap()
    }

    /// The table from node labels to indices, of the nodes that have the
    /// attribute `label`. It is computed on the first call and on the first
    /// call after the graph changed, and kept until the graph changes again.
    pub fn label_map(&mut self) -> (map: &StringHashMap<NodeIndex>)
        ensures
            map@ == label_index(old(self).nodes()),
            final(self)@ == old(self)@,
    {
        proof {
            use_type_invariant(&self.store);
        }
        if self.store.label_map.is_none() {
            let fresh = self.compute_label_map();
            self.store.label_map = Some(fresh);
        }
        self.store.label_map.as_ref().unwrap()
    }

    /// Adds a node and returns its index. Both tables are discarded.
    pub fn add_node(&mut self, node: Node) -> (index: NodeIndex)
        requires
            old(self).nodes().len() < ENGINE_LIMIT,
        ensures
            index == old(self).nodes().len(),
            final(self)@ == (GraphView { nodes: old(self).nodes().push(node@), ..old(self)@ }),
    {
        proof {
            use_type_invariant(&self.store);
        }
        self.store.label_map = None;
        self.store.id_map = None;
        let mut graph = engine_new();
        core::mem::swap(&mut self.store.graph, &mut graph);
        let index = engine_add_node(&mut graph, node);
        core::mem::swap(&mut self.store.graph, &mut graph);
        index
    }

    /// Adds an edge from `source` to `target` and returns its index. Both
    /// tables are discarded.
    pub fn add_edge(&mut self, source: NodeIndex, target: NodeIndex, edge: Edge) -> (index:
        EdgeIndex)
        requires
            source < old(self).nodes().len(),
            target < old(self).nodes().len(),
            old(self).edges().len() < ENGINE_LIMIT,
        ensures
            index == old(self).edges().len(),
            final(self)@ == (GraphView {
                edges: old(self).edges().push(
                    EdgeView { source: source, target: target, attributes: edge@ },
                ),
                ..old(self)@
            }),
    {
        proof {
            use_type_invariant(&self.store);
        }
        self.store.label_map = None;
        self.store.id_map = None;
        let mut graph = engine_new();
        core::mem::swap(&mut self.store.graph, &mut graph);
        let index = engine_add_edge(&mut graph, source, target, edge);
        core::mem::swap(&mut self.store.graph, &mut graph);
        index
    }

    /// Removes the edge at `index`, if there is one, and gives it back. The
    /// last edge gets the index of the removed one. Both tables are
    /// discarded.
    pub fn remove_edge(&mut self, index: EdgeIndex) -> (removed: Option<Edge>)
        ensures
            match removed {
                Some(edge) => index < old(self).edges().len() && edge@
                    == old(self).edges()[index as int].attributes && final(self)@ == (GraphView {
                    edges: swap_removed(old(self).edges(), index as int),
                    ..old(self)@
                }),
                None => index >= old(self).edges().len() && final(self)@ == old(self)@,
            },
    {
        proof {
            use_type_invariant(&self.store);
        }
        if index >= engine_edge_count(&self.store.graph) {
            return None;
        }
        self.store.label_map = None;
        self.store.id_map = None;
        let mut graph = engine_new();
        core::mem::swap(&mut self.store.graph, &mut graph);
        let removed = engine_remove_edge(&mut graph, index);
        // Asked for what it tells of the edges: each joins two nodes.
        let _ = engine_node_count(&graph);
        core::mem::swap(&mut self.store.graph, &mut graph);
        removed
    }

    /// Removes the node at `index`, if there is one, with every edge that
    /// touches it, and gives the node back. The last node gets the index of
    /// the removed one, at the ends of its edges too; the other edges stay,
    /// in an order that the engine chooses. Both tables are discarded.
    pub fn remove_node(&mut self, index: NodeIndex) -> (removed: Option<Node>)
        ensures
            match removed {
                Some(node) => index < old(self).nodes().len() && node@
                    == old(self).nodes()[index as int] && final(self)@ == (GraphView {
                    nodes: swap_removed(old(self).nodes(), index as int),
                    edges: final(self).edges(),
                    ..old(self)@
                }) && final(self).edges().to_multiset() == renumbered(
                    apart_from(old(self).edges(), index),
                    (old(self).nodes().len() - 1) as usize,
                    index,
                ).to_multiset(),
                None => index >= old(self).nodes().len() && final(self)@ == old(self)@,
            },
    {
        proof {
            use_type_invariant(&self.store);
        }
        if index >= engine_node_count(&self.store.graph) {
            return None;
        }
        self.store.label_map = None;
        self.store.id_map = None;
        let mut graph = engine_new();
        core::mem::swap(&mut self.store.graph, &mut graph);
        let removed = engine_remove_node(&mut graph, index);
        // Asked for what it tells of the edges: each joins two nodes.
        let _ = engine_node_count(&graph);
        core::mem::swap(&mut self.store.graph, &mut graph);
        removed
    }

    /// The attributes of the edge at `index`, if there is one.
    pub fn edge_weight(&self, index: EdgeIndex) -> (edge: Option<&Edge>)
        ensures
            match edge {
                Some(e) => index < self.edges().len() && e@ == self.edges()[index as int].attributes,
                None => index >= self.edges().len(),
            },
    {
        if index < engine_edge_count(&self.store.graph) {
            Some(engine_edge(&self.store.graph, index))
        } else {
            None
        }
    }

    /// The source and the target of the edge at `index`, if there is one.
    /// Both are nodes of the graph.
    pub fn edge_endpoints(&self, index: EdgeIndex) -> (ends: Option<(NodeIndex, NodeIndex)>)
        ensures
            match ends {
                Some((source, target)) => index < self.edges().len() && source
                    == self.edges()[index as int].source && target
                    == self.edges()[index as int].target && source < self.nodes().len() && target
                    < self.nodes().len(),
                None => index >= self.edges().len(),
            },
    {
        proof {
            use_type_invariant(&self.store);
        }
        if index < engine_edge_count(&self.store.graph) {
            Some(engine_edge_endpoints(&self.store.graph, index))
        } else {
            None
        }
    }

    /// The nodes that `node` has an edge to, or, in the direction
    /// `Incoming`, an edge from: one entry for each such edge, in the
    /// engine's order. Empty when `node` is no node of the graph.
    pub fn neighbors_directed(&self, node: NodeIndex, dir: Direction) -> (found: Vec<NodeIndex>)
        ensures
            found@.to_multiset() == directed_neighbors(self.edges(), node, dir).to_multiset(),
            forall|i: int| 0 <= i < found@.len() ==> found@[i] < self.nodes().len(),
    {
        proof {
            use_type_invariant(&self.store);
            lemma_neighbors_within(self.edges(), node, self.nodes().len());
        }
        if node < engine_node_count(&self.store.graph) {
            let found = engine_neighbors_directed(&self.store.graph, node, dir);
            proof {
                let all = directed_neighbors(self.edges(), node, dir);
                assert forall|i: int| 0 <= i < found@.len() implies found@[i]
                    < self.nodes().len() by {
                    assert(found@.contains(found@[i]));
                    vstd::seq_lib::to_multiset_contains(found@, found@[i]);
                    vstd::seq_lib::to_multiset_contains(all, found@[i]);
                }
            }
            found
        } else {
            let found: Vec<NodeIndex> = Vec::new();
            assert(found@ =~= directed_neighbors(self.edges(), node, dir));
            found
        }
    }

    /// The nodes that share an edge with `node`, whichever way it points:
    /// one entry for each such edge (a loop counts once), in the engine's
    /// order. Empty when `node` is no node of the graph.
    pub fn neighbors_undirected(&self, node: NodeIndex) -> (found: Vec<NodeIndex>)
        ensures
            found@.to_multiset() == adjacent(self.edges(), node).to_multiset(),
            forall|i: int| 0 <= i < found@.len() ==> found@[i] < self.nodes().len(),
    {
        proof {
            use_type_invariant(&self.store);
            lemma_neighbors_within(self.edges(), node, self.nodes().len());
        }
        if node < engine_node_count(&self.store.graph) {
            let found = engine_neighbors_undirected(&self.store.graph, node);
            proof {
                let all = adjacent(self.edges(), node);
                assert forall|i: int| 0 <= i < found@.len() implies found@[i]
                    < self.nodes().len() by {
                    assert(found@.contains(found@[i]));
                    vstd::seq_lib::to_multiset_contains(found@, found@[i]);
                    vstd::seq_lib::to_multiset_contains(all, found@[i]);
                }
            }
            found
        } else {
            let found: Vec<NodeIndex> = Vec::new();
            assert(found@ =~= adjacent(self.edges(), node));
            found
        }
    }

    /// The text of this graph in the dot language: `strict` where the graph
    /// is so, the word of its kind, its quoted id where it has one; inside
    /// the braces the default attributes of graph, node and edge, each block
    /// only where there are any; then each node by index with its
    /// attributes, and each edge by index with the quoted ids of its ends
    /// and its attributes. Keys stand bare where they can, and ids and
    /// values between quotes, with a backslash before each quote and each
    /// backslash.
    pub fn write(&self) -> (text: String)
        ensures
            text@ == document(self@),
    {
        let ghost g = self@;
        let mut out = String::new();
        put_header(&mut out, self.strict, self._type, &self.id);
        assert(out@ =~= header(g));
        put_default_block(&mut out, "graph", &self.graph_attributes);
        put_default_block(&mut out, "node", &self.node_attributes);
        put_default_block(&mut out, "edge", &self.edge_attributes);
        let ghost top = out@;
        let n = self.node_count();
        let mut i: usize = 0;
        assert(out@ =~= top + node_blocks(g.nodes.take(0)));
        while i < n
            invariant
                i <= n,
                n == g.nodes.len(),
                g == self@,
                out@ == top + node_blocks(g.nodes.take(i as int)),
            decreases n - i,
        {
            let ghost so_far = out@;
            let node = engine_node(&self.store.graph, i);
            put_node_block(&mut out, node.id.as_str(), &node.attributes);
            proof {
                assert(out@ == so_far + node_block(node@));
                assert(g.nodes.take(i + 1) =~= g.nodes.take(i as int).push(node@));
                lemma_node_blocks_push(g.nodes.take(i as int), node@);
                assert(out@ =~= top + node_blocks(g.nodes.take(i + 1)));
            }
            i += 1;
        }
        assert(g.nodes.take(i as int) =~= g.nodes);
        let ghost middle = out@;
        let m = self.edge_count();
        let mut j: usize = 0;
        assert(out@ =~= middle + edge_blocks(g.kind, g.nodes, g.edges.take(0)));
        while j < m
            invariant
                j <= m,
                m == g.edges.len(),
                n == g.nodes.len(),
                g == self@,
                out@ == middle + edge_blocks(g.kind, g.nodes, g.edges.take(j as int)),
            decreases m - j,
        {
            let ghost so_far = out@;
            proof {
                use_type_invariant(&self.store);
            }
            let ends = engine_edge_endpoints(&self.store.graph, j);
            let edge = engine_edge(&self.store.graph, j);
            let source = engine_node(&self.store.graph, ends.0);
            let target = engine_node(&self.store.graph, ends.1);
            put_edge_block(
                &mut out,
                self._type,
                source.id.as_str(),
                target.id.as_str(),
                &edge.attributes,
            );
            proof {
                let e = g.edges[j as int];
                assert(out@ == so_far + edge_block(g.kind, g.nodes, e));
                assert(g.edges.take(j + 1) =~= g.edges.take(j as int).push(e));
                lemma_edge_blocks_push(g.kind, g.nodes, g.edges.take(j as int), e);
                assert(out@ =~= middle + edge_blocks(g.kind, g.nodes, g.edges.take(j + 1)));
            }
            j += 1;
        }
        assert(g.edges.take(j as int) =~= g.edges);
        put_str(&mut out, "}\n");
        assert(out@ =~= document(g));
        out
    }
}

} // verus!
