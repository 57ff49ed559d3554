//! The statements of a graph in the dot language, and the graph they make.

use vstd::prelude::*;
use vstd::hash_map::StringHashMap;
use vstd::hash_set::StringHashSet;
use crate::attributes::{merge, Attributes};
use crate::builder::{edge_views, node_views, DotGraphBuilder, EdgesFn};
use crate::engine::{ends_within, ENGINE_LIMIT};
use crate::grammar::{graph, graph_spec};
use crate::graph::{
    id_index, lemma_id_index_has, lemma_id_index_range, option_view, DotGraph, Edge, EdgeView,
    GraphType, GraphView, Node, NodeIndex, NodeView,
};
use crate::lexer::ParseError;

verus! {

/// Which of the three lists of default attributes a statement sets.
#[derive(Debug, Hash, PartialEq, Eq, Clone, Copy, Structural)]
pub enum AttributeType {
    Graph,
    Node,
    Edge,
}

/// A statement that sets default attributes.
#[derive(Debug)]
pub struct GlobalAttribute {
    pub _type: AttributeType,
    pub attributes: Attributes,
}

/// What a statement of default attributes holds.
pub struct GlobalAttributeView {
    pub kind: AttributeType,
    pub attributes: Seq<(Seq<char>, Seq<char>)>,
}

impl View for GlobalAttribute {
    type V = GlobalAttributeView;

    open spec fn view(&self) -> GlobalAttributeView {
        GlobalAttributeView { kind: self._type, attributes: self.attributes@ }
    }
}

impl GlobalAttribute {
    /// Creates a statement that sets the given default attributes.
    pub fn new(_type: AttributeType, attributes: Attributes) -> (attr: GlobalAttribute)
        ensures
            attr._type == _type,
            attr.attributes == attributes,
    {
        GlobalAttribute { _type, attributes }
    }
}

/// An edge statement: a chain of node ids, each joined to the next, with the
/// attributes that every edge of the chain gets.
#[derive(Debug)]
pub struct EdgeInternal {
    pub attributes: Attributes,
    pub nodes: Vec<String>,
}

/// What an edge statement holds.
pub struct EdgeInternalView {
    pub attributes: Seq<(Seq<char>, Seq<char>)>,
    pub nodes: Seq<Seq<char>>,
}

/// The characters of each string of a list.
pub open spec fn string_views(strings: Seq<String>) -> Seq<Seq<char>> {
    strings.map_values(|s: String| s@)
}

impl View for EdgeInternal {
    type V = EdgeInternalView;

    open spec fn view(&self) -> EdgeInternalView {
        EdgeInternalView { attributes: self.attributes@, nodes: string_views(self.nodes@) }
    }
}

/// A dot language `stmt`
#[derive(Debug)]
pub enum Statement {
    Node(Node),
    Edge(EdgeInternal),
    GlobalAttribute(GlobalAttribute),
}

/// What a statement holds.
pub enum StatementView {
    Node(NodeView),
    Edge(EdgeInternalView),
    GlobalAttribute(GlobalAttributeView),
}

impl View for Statement {
    type V = StatementView;

    open spec fn view(&self) -> StatementView {
        match self {
            Statement::Node(node) => StatementView::Node(node@),
            Statement::Edge(edge) => StatementView::Edge(edge@),
            Statement::GlobalAttribute(attr) => StatementView::GlobalAttribute(attr@),
        }
    }
}

/// A graph as a text states it: its header and its statements in order.
#[derive(Debug)]
pub struct GraphInternal {
    pub strict: bool,
    pub _type: GraphType,
    pub id: Option<String>,
    pub statements: Vec<Statement>,
}

/// What a graph holds as a text states it.
pub struct GraphInternalView {
    pub strict: bool,
    pub kind: GraphType,
    pub id: Option<Seq<char>>,
    pub statements: Seq<StatementView>,
}

/// What each statement of a list holds.
pub open spec fn statement_views(statements: Seq<Statement>) -> Seq<StatementView> {
    statements.map_values(|s: Statement| s@)
}

impl View for GraphInternal {
    type V = GraphInternalView;

    open spec fn view(&self) -> GraphInternalView {
        GraphInternalView {
            strict: self.strict,
            kind: self._type,
            id: option_view(self.id),
            statements: statement_views(self.statements@),
        }
    }
}

/// The default attributes of one kind that the statements set: the lists of
/// that kind merged in their order, so that of two values for one key the
/// later stays.
pub open spec fn defaults_of(statements: Seq<StatementView>, kind: AttributeType) -> Seq<
    (Seq<char>, Seq<char>),
>
    decreases statements.len(),
{
    if statements.len() == 0 {
        Seq::empty()
    } else {
        let before = defaults_of(statements.drop_last(), kind);
        match statements.last() {
            StatementView::GlobalAttribute(attr) => if attr.kind == kind {
                merge(before, attr.attributes)
            } else {
                before
            },
            _ => before,
        }
    }
}

/// Whether one of `nodes` has the id `id`.
pub open spec fn has_id(nodes: Seq<NodeView>, id: Seq<char>) -> bool {
    exists|i: int| 0 <= i < nodes.len() && (#[trigger] nodes[i]).id == id
}

/// The nodes that the statements declare, in their order. Of two
/// declarations of one id the first stays.
pub open spec fn declared_nodes(statements: Seq<StatementView>) -> Seq<NodeView>
    decreases statements.len(),
{
    if statements.len() == 0 {
        Seq::empty()
    } else {
        let before = declared_nodes(statements.drop_last());
        match statements.last() {
            StatementView::Node(node) => if has_id(before, node.id) {
                before
            } else {
                before.push(node)
            },
            _ => before,
        }
    }
}

/// `nodes`, and after them a node without attributes for each id of `ids`
/// that no node before it has, in the order of `ids`.
pub open spec fn with_ids(nodes: Seq<NodeView>, ids: Seq<Seq<char>>) -> Seq<NodeView>
    decreases ids.len(),
{
    if ids.len() == 0 {
        nodes
    } else {
        let before = with_ids(nodes, ids.drop_last());
        if has_id(before, ids.last()) {
            before
        } else {
            before.push(NodeView { id: ids.last(), attributes: Seq::empty() })
        }
    }
}

/// `nodes`, and after them the nodes that the chains of the statements name
/// without a declaration, in the order of the chains.
pub open spec fn with_chains(nodes: Seq<NodeView>, statements: Seq<StatementView>) -> Seq<NodeView>
    decreases statements.len(),
{
    if statements.len() == 0 {
        nodes
    } else {
        let before = with_chains(nodes, statements.drop_last());
        match statements.last() {
            StatementView::Edge(edge) => with_ids(before, edge.nodes),
            _ => before,
        }
    }
}

/// The nodes of the graph that the statements state: the declared nodes,
/// then the nodes that only chains name.
pub open spec fn all_nodes(statements: Seq<StatementView>) -> Seq<NodeView> {
    with_chains(declared_nodes(statements), statements)
}

/// The edges of one chain: from each of its nodes to the next, each with the
/// attributes of the chain. The table `index` gives the node of each id.
pub open spec fn chain_edges(index: Map<Seq<char>, usize>, chain: EdgeInternalView) -> Seq<
    EdgeView,
> {
    if chain.nodes.len() >= 2 {
        Seq::new(
            (chain.nodes.len() - 1) as nat,
            |i: int|
                EdgeView {
                    source: index[chain.nodes[i]],
                    target: index[chain.nodes[i + 1]],
                    attributes: chain.attributes,
                },
        )
    } else {
        Seq::empty()
    }
}

/// The edges of all chains of the statements, in their order.
pub open spec fn all_edges(index: Map<Seq<char>, usize>, statements: Seq<StatementView>) -> Seq<
    EdgeView,
>
    decreases statements.len(),
{
    if statements.len() == 0 {
        Seq::empty()
    } else {
        let before = all_edges(index, statements.drop_last());
        match statements.last() {
            StatementView::Edge(chain) => before + chain_edges(index, chain),
            _ => before,
        }
    }
}

/// Whether `index` has an entry for every id that a chain of the statements
/// names.
pub open spec fn chains_resolve(index: Map<Seq<char>, usize>, statements: Seq<StatementView>) -> bool {
    forall|k: int, j: int|
        0 <= k < statements.len() && (#[trigger] statements[k]) is Edge && 0 <= j
            < statements[k]->Edge_0.nodes.len() ==> index.contains_key(
            #[trigger] statements[k]->Edge_0.nodes[j],
        )
}

/// The graph that a stated graph makes: its header; the default attributes
/// of each kind; its nodes; and the edges of its chains, each end found by
/// its id among the nodes.
pub open spec fn assembled(g: GraphInternalView) -> GraphView {
    GraphView {
        strict: g.strict,
        kind: g.kind,
        id: g.id,
        graph_attributes: defaults_of(g.statements, AttributeType::Graph),
        node_attributes: defaults_of(g.statements, AttributeType::Node),
        edge_attributes: defaults_of(g.statements, AttributeType::Edge),
        nodes: all_nodes(g.statements),
        edges: all_edges(id_index(all_nodes(g.statements)), g.statements),
    }
}

/// Whether the engine can number the nodes and the edges of `g`.
pub open spec fn fits(g: GraphView) -> bool {
    g.nodes.len() <= ENGINE_LIMIT && g.edges.len() <= ENGINE_LIMIT
}

/// What reading the text `s` gives: the graph it states, or why it gives
/// none.
pub open spec fn parse_spec(s: Seq<char>) -> Result<GraphView, ParseError> {
    match graph_spec(s) {
        None => Err(ParseError::Syntax),
        Some(g) => if fits(assembled(g)) {
            Ok(assembled(g))
        } else {
            Err(ParseError::TooLarge)
        },
    }
}

/// A node more keeps the ids that were there.
pub proof fn lemma_has_id_push(nodes: Seq<NodeView>, node: NodeView, id: Seq<char>)
    ensures
        has_id(nodes.push(node), id) <==> (has_id(nodes, id) || node.id == id),
{
    let more = nodes.push(node);
    if has_id(nodes, id) {
        let i = choose|i: int| 0 <= i < nodes.len() && (#[trigger] nodes[i]).id == id;
        assert(more[i].id == id);
    }
    if node.id == id {
        assert(more[nodes.len() as int].id == id);
    }
    if has_id(more, id) {
        let i = choose|i: int| 0 <= i < more.len() && (#[trigger] more[i]).id == id;
        if i < nodes.len() {
            assert(nodes[i].id == id);
        }
    }
}

/// The step that resolves the chains of edge statements: it finds both ends
/// of each edge by their ids in the graph's table.
pub struct ChainResolver {
    pub statements: Vec<Statement>,
}

/// The edges of the chains of `statements`, each end found in `map`.
fn resolve_chains(map: &StringHashMap<NodeIndex>, statements: &Vec<Statement>) -> (edges: Vec<
    (Edge, NodeIndex, NodeIndex),
>)
    requires
        chains_resolve(map@, statement_views(statements@)),
    ensures
        edge_views(edges@) == all_edges(map@, statement_views(statements@)),
{
    let ghost all = statement_views(statements@);
    let mut edges: Vec<(Edge, NodeIndex, NodeIndex)> = Vec::new();
    let mut k: usize = 0;
    assert(edge_views(edges@) =~= all_edges(map@, all.take(0)));
    while k < statements.len()
        invariant
            k <= statements@.len(),
            all == statement_views(statements@),
            chains_resolve(map@, all),
            edge_views(edges@) == all_edges(map@, all.take(k as int)),
        decreases statements@.len() - k,
    {
        proof {
            assert(all.take(k + 1).drop_last() =~= all.take(k as int));
            assert(all.take(k + 1).last() == all[k as int]);
            assert(all[k as int] == statements@[k as int]@);
        }
        match &statements[k] {
            Statement::Edge(chain) => {
                let ghost before = edge_views(edges@);
                let ghost links = chain_edges(map@, chain@);
                let count: usize = if chain.nodes.len() >= 2 {
                    chain.nodes.len() - 1
                } else {
                    0
                };
                let mut j: usize = 0;
                assert(before + links.take(0) =~= before);
                while j < count
                    invariant
                        j <= count,
                        count == links.len(),
                        count > 0 ==> count + 1 == chain.nodes@.len(),
                        k < statements@.len(),
                        all == statement_views(statements@),
                        all[k as int] == StatementView::Edge(chain@),
                        chains_resolve(map@, all),
                        links == chain_edges(map@, chain@),
                        edge_views(edges@) == before + links.take(j as int),
                    decreases count - j,
                {
                    proof {
                        assert(chain@.nodes[j as int] == chain.nodes@[j as int]@);
                        assert(chain@.nodes[j + 1] == chain.nodes@[j + 1]@);
                        assert(map@.contains_key(all[k as int]->Edge_0.nodes[j as int]));
                        assert(map@.contains_key(all[k as int]->Edge_0.nodes[j + 1]));
                    }
                    let source = map.get(chain.nodes[j].as_str());
                    let target = map.get(chain.nodes[j + 1].as_str());
                    match (source, target) {
                        (Some(a), Some(b)) => {
                            let edge = Edge::new(chain.attributes.clone());
                            proof {
                                let link = EdgeView { source: *a, target: *b, attributes: edge@ };
                                assert(links[j as int] == link);
                                assert(links.take(j + 1) =~= links.take(j as int).push(link));
                                assert(edge_views(edges@.push((edge, *a, *b))) =~= edge_views(
                                    edges@,
                                ).push(link));
                                assert(before + links.take(j as int).push(link) =~= (before
                                    + links.take(j as int)).push(link));
                            }
                            edges.push((edge, *a, *b));
                        },
                        _ => {
                            assert(false);
                        },
                    }
                    j += 1;
                }
                assert(links.take(j as int) =~= links);
            },
            _ => {},
        }
        k += 1;
    }
    assert(all.take(k as int) =~= all);
    edges
}

impl EdgesFn for ChainResolver {
    /// The step can run where the table of ids has every id of every chain
    /// and the engine can number the nodes and all edges.
    open spec fn applies(&self, graph: GraphView) -> bool {
        &&& graph.nodes.len() <= ENGINE_LIMIT
        &&& chains_resolve(id_index(graph.nodes), statement_views(self.statements@))
        &&& graph.edges.len() + all_edges(
            id_index(graph.nodes),
            statement_views(self.statements@),
        ).len() <= ENGINE_LIMIT
    }

    /// The step derives the edges of the chains, each end found in the
    /// table of ids.
    open spec fn derives(&self, graph: GraphView, edges: Seq<EdgeView>) -> bool {
        edges == all_edges(id_index(graph.nodes), statement_views(self.statements@))
    }

    fn derive(self, graph: &mut DotGraph) -> (edges: Vec<(Edge, NodeIndex, NodeIndex)>) {
        let ghost nodes = graph@.nodes;
        let ghost all = statement_views(self.statements@);
        let map = graph.id_map();
        let edges = resolve_chains(map, &self.statements);
        proof {
            lemma_chain_ends(nodes, all);
        }
        edges
    }
}

/// Where the table of ids has every id of every chain, every edge of the
/// chains joins two nodes.
pub proof fn lemma_chain_ends(nodes: Seq<NodeView>, statements: Seq<StatementView>)
    requires
        nodes.len() <= usize::MAX,
        chains_resolve(id_index(nodes), statements),
    ensures
        ends_within(all_edges(id_index(nodes), statements), nodes.len()),
    decreases statements.len(),
{
    let index = id_index(nodes);
    if statements.len() > 0 {
        let d = statements.drop_last();
        assert forall|k: int, j: int|
            0 <= k < d.len() && (#[trigger] d[k]) is Edge && 0 <= j
                < d[k]->Edge_0.nodes.len() implies index.contains_key(
            #[trigger] d[k]->Edge_0.nodes[j],
        ) by {
            assert(d[k] == statements[k]);
            assert(index.contains_key(statements[k]->Edge_0.nodes[j]));
        }
        lemma_chain_ends(nodes, d);
        let last = statements[statements.len() - 1];
        match last {
            StatementView::Edge(chain) => {
                let links = chain_edges(index, chain);
                let before = all_edges(index, d);
                assert forall|i: int| 0 <= i < links.len() implies links[i].source < nodes.len()
                    && links[i].target < nodes.len() by {
                    assert(index.contains_key(last->Edge_0.nodes[i]));
                    assert(index.contains_key(last->Edge_0.nodes[i + 1]));
                    lemma_id_index_range(nodes, chain.nodes[i]);
                    lemma_id_index_range(nodes, chain.nodes[i + 1]);
                }
                assert forall|i: int| 0 <= i < (before + links).len() implies (before + links)[i].source
                    < nodes.len() && (before + links)[i].target < nodes.len() by {
                    if i < before.len() {
                        assert((before + links)[i] == before[i]);
                    } else {
                        assert((before + links)[i] == links[i - before.len()]);
                    }
                }
            },
            _ => {},
        }
    }
}

/// Where every id of every chain is the id of a node, the table of ids has
/// every id of every chain.
pub proof fn lemma_chains_resolve(nodes: Seq<NodeView>, statements: Seq<StatementView>)
    requires
        nodes.len() <= usize::MAX,
        forall|k: int, j: int|
            0 <= k < statements.len() && (#[trigger] statements[k]) is Edge && 0 <= j
                < statements[k]->Edge_0.nodes.len() ==> has_id(
                nodes,
                #[trigger] statements[k]->Edge_0.nodes[j],
            ),
    ensures
        chains_resolve(id_index(nodes), statements),
{
    assert forall|k: int, j: int|
        0 <= k < statements.len() && (#[trigger] statements[k]) is Edge && 0 <= j
            < statements[k]->Edge_0.nodes.len() implies id_index(nodes).contains_key(
        #[trigger] statements[k]->Edge_0.nodes[j],
    ) by {
        let id = statements[k]->Edge_0.nodes[j];
        assert(has_id(nodes, id));
        let i = choose|i: int| 0 <= i < nodes.len() && (#[trigger] nodes[i]).id == id;
        lemma_id_index_has(nodes, i);
    }
}

/// The graph that a stated graph makes: the default attributes of each kind
/// merged in the order of the statements; the declared nodes, of each id the
/// first; a node without attributes for each id that only a chain names; and
/// an edge from each node of a chain to the next, with the attributes of the
/// chain. No graph is made where the engine cannot number the nodes or the
/// edges.
pub fn assemble(g: GraphInternal) -> (found: Result<DotGraph, ParseError>)
    ensures
        match found {
            Ok(dot) => fits(assembled(g@)) && dot@ == assembled(g@),
            Err(e) => !fits(assembled(g@)) && e == ParseError::TooLarge,
        },
{
    let ghost stated = g@;
    let ghost all = g@.statements;
    let GraphInternal { strict, _type, id, statements } = g;
    let len = statements.len();
    let mut graph_attributes = Attributes::new();
    let mut node_attributes = Attributes::new();
    let mut edge_attributes = Attributes::new();
    let mut i: usize = 0;
    while i < len
        invariant
            i <= len,
            len == statements@.len(),
            all == statement_views(statements@),
            graph_attributes@ == defaults_of(all.take(i as int), AttributeType::Graph),
            node_attributes@ == defaults_of(all.take(i as int), AttributeType::Node),
            edge_attributes@ == defaults_of(all.take(i as int), AttributeType::Edge),
        decreases len - i,
    {
        proof {
            assert(all.take(i + 1).drop_last() =~= all.take(i as int));
            assert(all.take(i + 1).last() == statements@[i as int]@);
        }
        match &statements[i] {
            Statement::GlobalAttribute(attr) => {
                match attr._type {
                    AttributeType::Graph => graph_attributes.extend(&attr.attributes),
                    AttributeType::Node => node_attributes.extend(&attr.attributes),
                    AttributeType::Edge => edge_attributes.extend(&attr.attributes),
                }
            },
            _ => {},
        }
        i += 1;
    }
    assert(all.take(len as int) =~= all);
    let mut nodes: Vec<Node> = Vec::new();
    let mut seen = StringHashSet::new();
    let mut i: usize = 0;
    assert(node_views(nodes@) =~= declared_nodes(all.take(0)));
    while i < len
        invariant
            i <= len,
            len == statements@.len(),
            all == statement_views(statements@),
            node_views(nodes@) == declared_nodes(all.take(i as int)),
            forall|id: Seq<char>| seen@.contains(id) <==> has_id(node_views(nodes@), id),
        decreases len - i,
    {
        proof {
            assert(all.take(i + 1).drop_last() =~= all.take(i as int));
            assert(all.take(i + 1).last() == statements@[i as int]@);
        }
        match &statements[i] {
            Statement::Node(node) => {
                if !seen.contains(node.id.as_str()) {
                    let ghost before = node_views(nodes@);
                    let copy = node.clone();
                    proof {
                        assert(node_views(nodes@.push(copy)) =~= before.push(node@));
                        assert forall|id: Seq<char>|
                            seen@.insert(node.id@).contains(id) <==> has_id(
                                before.push(node@),
                                id,
                            ) by {
                            lemma_has_id_push(before, node@, id);
                        }
                    }
                    seen.insert(node.id.clone());
                    nodes.push(copy);
                }
            },
            _ => {},
        }
        i += 1;
    }
    assert(all.take(len as int) =~= all);
    let ghost declared = node_views(nodes@);
    let mut k: usize = 0;
    while k < len
        invariant
            k <= len,
            len == statements@.len(),
            all == statement_views(statements@),
            node_views(nodes@) == with_chains(declared, all.take(k as int)),
            forall|id: Seq<char>| seen@.contains(id) <==> has_id(node_views(nodes@), id),
            forall|a: int, b: int|
                0 <= a < k && (#[trigger] all[a]) is Edge && 0 <= b < all[a]->Edge_0.nodes.len()
                    ==> has_id(node_views(nodes@), #[trigger] all[a]->Edge_0.nodes[b]),
        decreases len - k,
    {
        proof {
            assert(all.take(k + 1).drop_last() =~= all.take(k as int));
            assert(all.take(k + 1).last() == statements@[k as int]@);
        }
        match &statements[k] {
            Statement::Edge(chain) => {
                let ghost start = node_views(nodes@);
                let ghost ids = chain@.nodes;
                let count = chain.nodes.len();
                let mut j: usize = 0;
                assert(ids.take(0) =~= Seq::<Seq<char>>::empty());
                while j < count
                    invariant
                        j <= count,
                        count == chain.nodes@.len(),
                        k < len,
                        len == statements@.len(),
                        all == statement_views(statements@),
                        all[k as int] == StatementView::Edge(chain@),
                        ids == chain@.nodes,
                        node_views(nodes@) == with_ids(start, ids.take(j as int)),
                        forall|id: Seq<char>|
                            seen@.contains(id) <==> has_id(node_views(nodes@), id),
                        forall|a: int, b: int|
                            0 <= a < k && (#[trigger] all[a]) is Edge && 0 <= b
                                < all[a]->Edge_0.nodes.len() ==> has_id(
                                node_views(nodes@),
                                #[trigger] all[a]->Edge_0.nodes[b],
                            ),
                        forall|b: int| 0 <= b < j ==> has_id(node_views(nodes@), #[trigger] ids[b]),
                    decreases count - j,
                {
                    let name = &chain.nodes[j];
                    proof {
                        assert(ids.take(j + 1).drop_last() =~= ids.take(j as int));
                        assert(ids.take(j + 1).last() == name@);
                        assert(ids[j as int] == name@);
                    }
                    if !seen.contains(name.as_str()) {
                        let ghost before = node_views(nodes@);
                        let node = Node::new(name.clone(), Attributes::new());
                        proof {
                            assert(node@ == NodeView { id: name@, attributes: Seq::empty() });
                            assert(node_views(nodes@.push(node)) =~= before.push(node@));
                            assert forall|id: Seq<char>|
                                seen@.insert(name@).contains(id) <==> has_id(
                                    before.push(node@),
                                    id,
                                ) by {
                                lemma_has_id_push(before, node@, id);
                            }
                            assert forall|a: int, b: int|
                                0 <= a < k && (#[trigger] all[a]) is Edge && 0 <= b
                                    < all[a]->Edge_0.nodes.len() implies has_id(
                                before.push(node@),
                                #[trigger] all[a]->Edge_0.nodes[b],
                            ) by {
                                lemma_has_id_push(before, node@, all[a]->Edge_0.nodes[b]);
                            }
                            assert forall|b: int| 0 <= b < j + 1 implies has_id(
                                before.push(node@),
                                #[trigger] ids[b],
                            ) by {
                                lemma_has_id_push(before, node@, ids[b]);
                            }
                        }
                        seen.insert(name.clone());
                        nodes.push(node);
                    }
                    j += 1;
                }
                proof {
                    assert(ids.take(j as int) =~= ids);
                    assert forall|a: int, b: int|
                        0 <= a < k + 1 && (#[trigger] all[a]) is Edge && 0 <= b
                            < all[a]->Edge_0.nodes.len() implies has_id(
                        node_views(nodes@),
                        #[trigger] all[a]->Edge_0.nodes[b],
                    ) by {
                        if a == k {
                            assert(all[a]->Edge_0.nodes[b] == ids[b]);
                        }
                    }
                }
            },
            _ => {},
        }
        k += 1;
    }
    assert(all.take(len as int) =~= all);
    let ghost index = id_index(node_views(nodes@));
    let mut total: usize = 0;
    let mut over = false;
    let mut k: usize = 0;
    while k < len
        invariant
            k <= len,
            len == statements@.len(),
            all == statement_views(statements@),
            !over ==> total == all_edges(index, all.take(k as int)).len() && total <= ENGINE_LIMIT,
            over ==> all_edges(index, all.take(k as int)).len() > ENGINE_LIMIT,
        decreases len - k,
    {
        proof {
            assert(all.take(k + 1).drop_last() =~= all.take(k as int));
            assert(all.take(k + 1).last() == statements@[k as int]@);
        }
        match &statements[k] {
            Statement::Edge(chain) => {
                if chain.nodes.len() >= 2 && !over {
                    let links = chain.nodes.len() - 1;
                    if links > ENGINE_LIMIT - total {
                        over = true;
                    } else {
                        total += links;
                    }
                }
            },
            _ => {},
        }
        k += 1;
    }
    assert(all.take(len as int) =~= all);
    if over || nodes.len() > ENGINE_LIMIT {
        return Err(ParseError::TooLarge);
    }
    proof {
        lemma_chains_resolve(node_views(nodes@), all);
    }
    let ghost found_nodes = node_views(nodes@);
    let resolver = ChainResolver { statements: statements };
    let builder = DotGraphBuilder::new(_type);
    let builder = builder.strict(strict);
    let builder = builder.id(id);
    let builder = builder.graph_attributes(graph_attributes);
    let builder = builder.node_attributes(node_attributes);
    let builder = builder.edge_attributes(edge_attributes);
    let builder = builder.nodes(nodes);
    let builder = builder.edges_fn(resolver);
    proof {
        assert(builder.base().nodes =~= found_nodes);
        assert(builder.base().edges =~= Seq::<EdgeView>::empty());
        assert(builder.listed_edges() =~= Seq::<EdgeView>::empty());
    }
    let dot = builder.build();
    proof {
        let derived = choose|derived: Seq<EdgeView>|
            #![trigger builder.may_derive(derived)]
            builder.may_derive(derived) && ends_within(derived, builder.base().nodes.len()) && dot@
                == (GraphView { edges: builder.base().edges + derived, ..builder.base() });
        assert(derived == all_edges(index, all));
        assert(builder.base().edges + derived =~= derived);
        assert(dot@.nodes == all_nodes(all));
    }
    Ok(dot)
}

/// Reads a graph in the dot language, without subgraphs and ports, and makes
/// the graph that the text states.
pub fn parse(s: &str) -> (found: Result<DotGraph, ParseError>)
    ensures
        match parse_spec(s@) {
            Ok(g) => found matches Ok(dot) && dot@ == g,
            Err(e) => found matches Err(x) && x == e,
        },
{
    match graph(s) {
        Ok(g) => assemble(g),
        Err(e) => Err(e),
    }
}

} // verus!
