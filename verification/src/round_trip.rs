//! Reading the text of a graph gives the graph back.

use vstd::prelude::*;
use crate::attributes::{keys_distinct, lemma_merge_identity, merge};
use crate::dot::{
    all_edges, all_nodes, assembled, chain_edges, declared_nodes, defaults_of, fits, has_id,
    parse_spec, with_chains, with_ids, AttributeType, EdgeInternalView, GlobalAttributeView,
    StatementView,
};
use crate::engine::ends_within;
use crate::grammar::graph_spec;
use crate::grammar_law::{
    attributes_distinct, default_statements, document_graph, document_statements, edge_statement,
    edge_statements, lemma_graph_of_document, node_statements,
};
use crate::graph::{id_index, ids_distinct, lemma_id_index_own, EdgeView, GraphView, NodeView};
use crate::lex_law::lemma_lex_document;
use crate::lexer::ParseError;
use crate::render::document;

verus! {

/// Whether `g` is what a graph can hold: each list of attributes has its
/// keys once, each edge joins two of the nodes, and the engine can number
/// the nodes and the edges.
pub open spec fn graph_valid(g: GraphView) -> bool {
    &&& attributes_distinct(g)
    &&& ends_within(g.edges, g.nodes.len())
    &&& fits(g)
}

/// What a walk over statements builds: it starts from `init` and lets
/// `step` take each statement in turn.
pub open spec fn walk<A>(
    statements: Seq<StatementView>,
    init: A,
    step: spec_fn(A, StatementView) -> A,
) -> A
    decreases statements.len(),
{
    if statements.len() == 0 {
        init
    } else {
        step(walk(statements.drop_last(), init, step), statements.last())
    }
}

/// A walk over one list and then another is a walk over the second that
/// starts from what the first built.
pub proof fn lemma_walk_append<A>(
    a: Seq<StatementView>,
    b: Seq<StatementView>,
    init: A,
    step: spec_fn(A, StatementView) -> A,
)
    ensures
        walk(a + b, init, step) == walk(b, walk(a, init, step), step),
    decreases b.len(),
{
    if b.len() == 0 {
        assert(a + b =~= a);
    } else {
        lemma_walk_append(a, b.drop_last(), init, step);
        assert((a + b).drop_last() =~= a + b.drop_last());
        assert((a + b).last() == b.last());
    }
}

/// A walk over statements that the step passes over builds nothing.
pub proof fn lemma_walk_passes<A>(
    statements: Seq<StatementView>,
    init: A,
    step: spec_fn(A, StatementView) -> A,
)
    requires
        forall|i: int, x: A|
            0 <= i < statements.len() ==> #[trigger] step(x, statements[i]) == x,
    ensures
        walk(statements, init, step) == init,
    decreases statements.len(),
{
    if statements.len() > 0 {
        let d = statements.drop_last();
        assert forall|i: int, x: A| 0 <= i < d.len() implies #[trigger] step(x, d[i]) == x by {
            assert(d[i] == statements[i]);
        }
        lemma_walk_passes(d, init, step);
        assert(step(init, statements[statements.len() - 1]) == init);
    }
}

/// The step that collects the default attributes of one kind.
pub open spec fn defaults_step(kind: AttributeType) -> spec_fn(
    Seq<(Seq<char>, Seq<char>)>,
    StatementView,
) -> Seq<(Seq<char>, Seq<char>)> {
    |before: Seq<(Seq<char>, Seq<char>)>, st: StatementView|
        match st {
            StatementView::GlobalAttribute(attr) => if attr.kind == kind {
                merge(before, attr.attributes)
            } else {
                before
            },
            _ => before,
        }
}

/// The step that collects the declared nodes.
pub open spec fn declared_step() -> spec_fn(Seq<NodeView>, StatementView) -> Seq<NodeView> {
    |before: Seq<NodeView>, st: StatementView|
        match st {
            StatementView::Node(node) => if has_id(before, node.id) {
                before
            } else {
                before.push(node)
            },
            _ => before,
        }
}

/// The step that adds the nodes that only chains name.
pub open spec fn chains_step() -> spec_fn(Seq<NodeView>, StatementView) -> Seq<NodeView> {
    |before: Seq<NodeView>, st: StatementView|
        match st {
            StatementView::Edge(edge) => with_ids(before, edge.nodes),
            _ => before,
        }
}

/// The step that collects the edges of the chains.
pub open spec fn edges_step(index: Map<Seq<char>, usize>) -> spec_fn(
    Seq<EdgeView>,
    StatementView,
) -> Seq<EdgeView> {
    |before: Seq<EdgeView>, st: StatementView|
        match st {
            StatementView::Edge(chain) => before + chain_edges(index, chain),
            _ => before,
        }
}

/// The parts of a stated graph are built by walks over its statements.
pub proof fn lemma_walks(
    statements: Seq<StatementView>,
    kind: AttributeType,
    base: Seq<NodeView>,
    index: Map<Seq<char>, usize>,
)
    ensures
        defaults_of(statements, kind) == walk(statements, Seq::empty(), defaults_step(kind)),
        declared_nodes(statements) == walk(statements, Seq::empty(), declared_step()),
        with_chains(base, statements) == walk(statements, base, chains_step()),
        all_edges(index, statements) == walk(statements, Seq::empty(), edges_step(index)),
    decreases statements.len(),
{
    if statements.len() > 0 {
        lemma_walks(statements.drop_last(), kind, base, index);
    }
}

/// A walk over the statements of nodes with distinct ids, none of which is
/// there yet, declares those nodes.
pub proof fn lemma_walk_nodes(before: Seq<NodeView>, nodes: Seq<NodeView>)
    requires
        ids_distinct(before + nodes),
    ensures
        walk(node_statements(nodes), before, declared_step()) == before + nodes,
    decreases nodes.len(),
{
    if nodes.len() == 0 {
        assert(before + nodes =~= before);
    } else {
        let first = nodes[0];
        let more = nodes.skip(1);
        let all = before + nodes;
        lemma_walk_append(
            seq![StatementView::Node(first)],
            node_statements(more),
            before,
            declared_step(),
        );
        let one = seq![StatementView::Node(first)];
        assert(one.drop_last() =~= Seq::<StatementView>::empty());
        assert(walk(one.drop_last(), before, declared_step()) == before);
        assert(one.last() == StatementView::Node(first));
        if has_id(before, first.id) {
            let i = choose|i: int| 0 <= i < before.len() && (#[trigger] before[i]).id == first.id;
            assert(all[i].id == all[before.len() as int].id);
        }
        assert(walk(one, before, declared_step()) == before.push(first));
        assert(before.push(first) + more =~= all);
        lemma_walk_nodes(before.push(first), more);
    }
}

/// A walk over the statements of edges between nodes that are there adds no
/// node.
pub proof fn lemma_walk_chains(nodes: Seq<NodeView>, edges: Seq<EdgeView>)
    requires
        ends_within(edges, nodes.len()),
    ensures
        walk(edge_statements(nodes, edges), nodes, chains_step()) == nodes,
    decreases edges.len(),
{
    if edges.len() > 0 {
        let first = edges[0];
        let more = edges.skip(1);
        let one = seq![edge_statement(nodes, first)];
        lemma_walk_append(one, edge_statements(nodes, more), nodes, chains_step());
        assert(one.drop_last() =~= Seq::<StatementView>::empty());
        assert(walk(one.drop_last(), nodes, chains_step()) == nodes);
        let ids = seq![nodes[first.source as int].id, nodes[first.target as int].id];
        assert(one.last() == edge_statement(nodes, first));
        assert(edges[0].source < nodes.len() && edges[0].target < nodes.len());
        assert(has_id(nodes, nodes[first.source as int].id));
        assert(has_id(nodes, nodes[first.target as int].id));
        assert(ids.drop_last() =~= seq![nodes[first.source as int].id]);
        assert(ids.drop_last().drop_last() =~= Seq::<Seq<char>>::empty());
        assert(with_ids(nodes, ids.drop_last().drop_last()) == nodes);
        assert(with_ids(nodes, ids.drop_last()) == nodes);
        assert(with_ids(nodes, ids) == nodes);
        assert(walk(one, nodes, chains_step()) == nodes);
        assert forall|i: int| 0 <= i < more.len() implies (#[trigger] more[i]).source < nodes.len()
            && more[i].target < nodes.len() by {
            assert(more[i] == edges[i + 1]);
        }
        lemma_walk_chains(nodes, more);
    }
}

/// A walk over the statements of edges between nodes with distinct ids
/// collects those edges.
pub proof fn lemma_walk_edges(nodes: Seq<NodeView>, before: Seq<EdgeView>, edges: Seq<EdgeView>)
    requires
        ids_distinct(nodes),
        nodes.len() <= usize::MAX,
        ends_within(edges, nodes.len()),
    ensures
        walk(edge_statements(nodes, edges), before, edges_step(id_index(nodes))) == before + edges,
    decreases edges.len(),
{
    let index = id_index(nodes);
    if edges.len() == 0 {
        assert(before + edges =~= before);
    } else {
        let first = edges[0];
        let more = edges.skip(1);
        let one = seq![edge_statement(nodes, first)];
        lemma_walk_append(one, edge_statements(nodes, more), before, edges_step(index));
        assert(one.drop_last() =~= Seq::<StatementView>::empty());
        assert(walk(one.drop_last(), before, edges_step(index)) == before);
        assert(one.last() == edge_statement(nodes, first));
        assert(edges[0].source < nodes.len() && edges[0].target < nodes.len());
        lemma_id_index_own(nodes, first.source as int);
        lemma_id_index_own(nodes, first.target as int);
        let chain = EdgeInternalView {
            attributes: first.attributes,
            nodes: seq![nodes[first.source as int].id, nodes[first.target as int].id],
        };
        assert(chain_edges(index, chain) =~= seq![first]);
        assert(walk(one, before, edges_step(index)) == before + seq![first]);
        assert((before + seq![first]) + more =~= before + edges);
        assert forall|i: int| 0 <= i < more.len() implies (#[trigger] more[i]).source < nodes.len()
            && more[i].target < nodes.len() by {
            assert(more[i] == edges[i + 1]);
        }
        lemma_walk_edges(nodes, before + seq![first], more);
    }
}

/// A walk that collects the default attributes of one kind passes over the
/// statements of nodes and edges, and over the default attributes of
/// another kind.
pub proof fn lemma_defaults_pass(
    kind: AttributeType,
    init: Seq<(Seq<char>, Seq<char>)>,
    other: AttributeType,
    attrs: Seq<(Seq<char>, Seq<char>)>,
    nodes: Seq<NodeView>,
    edges: Seq<EdgeView>,
)
    ensures
        other != kind ==> walk(default_statements(other, attrs), init, defaults_step(kind)) == init,
        walk(node_statements(nodes), init, defaults_step(kind)) == init,
        walk(edge_statements(nodes, edges), init, defaults_step(kind)) == init,
{
    lemma_node_statements_index(nodes);
    lemma_edge_statements_index(nodes, edges);
    if other != kind {
        lemma_walk_passes(default_statements(other, attrs), init, defaults_step(kind));
    }
    lemma_walk_passes(node_statements(nodes), init, defaults_step(kind));
    lemma_walk_passes(edge_statements(nodes, edges), init, defaults_step(kind));
}

/// The statements of a list of nodes are one for each node, in order.
pub proof fn lemma_node_statements_index(nodes: Seq<NodeView>)
    ensures
        node_statements(nodes).len() == nodes.len(),
        forall|i: int|
            0 <= i < nodes.len() ==> #[trigger] node_statements(nodes)[i] == StatementView::Node(
                nodes[i],
            ),
    decreases nodes.len(),
{
    if nodes.len() > 0 {
        lemma_node_statements_index(nodes.skip(1));
        assert forall|i: int| 0 <= i < nodes.len() implies #[trigger] node_statements(nodes)[i]
            == StatementView::Node(nodes[i]) by {
            if i > 0 {
                assert(node_statements(nodes)[i] == node_statements(nodes.skip(1))[i - 1]);
                assert(nodes.skip(1)[i - 1] == nodes[i]);
            }
        }
    }
}

/// The statements of a list of edges are one for each edge, in order.
pub proof fn lemma_edge_statements_index(nodes: Seq<NodeView>, edges: Seq<EdgeView>)
    ensures
        edge_statements(nodes, edges).len() == edges.len(),
        forall|i: int|
            0 <= i < edges.len() ==> #[trigger] edge_statements(nodes, edges)[i] == edge_statement(
                nodes,
                edges[i],
            ),
    decreases edges.len(),
{
    if edges.len() > 0 {
        lemma_edge_statements_index(nodes, edges.skip(1));
        assert forall|i: int| 0 <= i < edges.len() implies #[trigger] edge_statements(
            nodes,
            edges,
        )[i] == edge_statement(nodes, edges[i]) by {
            if i > 0 {
                assert(edge_statements(nodes, edges)[i] == edge_statements(nodes, edges.skip(1))[i
                    - 1]);
                assert(edges.skip(1)[i - 1] == edges[i]);
            }
        }
    }
}

/// A walk that collects the default attributes of one kind takes the list
/// of that kind as it is, where its keys are distinct.
pub proof fn lemma_defaults_take(kind: AttributeType, attrs: Seq<(Seq<char>, Seq<char>)>)
    requires
        keys_distinct(attrs),
    ensures
        walk(default_statements(kind, attrs), Seq::empty(), defaults_step(kind)) == attrs,
{
    if attrs.len() == 0 {
        assert(attrs =~= Seq::<(Seq<char>, Seq<char>)>::empty());
    } else {
        let one = default_statements(kind, attrs);
        assert(one.drop_last() =~= Seq::<StatementView>::empty());
        assert(walk(one.drop_last(), Seq::<(Seq<char>, Seq<char>)>::empty(), defaults_step(kind))
            == Seq::<(Seq<char>, Seq<char>)>::empty());
        assert(one.last() == StatementView::GlobalAttribute(
            GlobalAttributeView { kind: kind, attributes: attrs },
        ));
        lemma_merge_identity(attrs);
    }
}

/// A walk that collects nodes or edges passes over the statements that it
/// has no part in.
pub proof fn lemma_others_pass(
    kind: AttributeType,
    attrs: Seq<(Seq<char>, Seq<char>)>,
    nodes: Seq<NodeView>,
    edges: Seq<EdgeView>,
    some_nodes: Seq<NodeView>,
    some_edges: Seq<EdgeView>,
    index: Map<Seq<char>, usize>,
)
    ensures
        walk(default_statements(kind, attrs), some_nodes, declared_step()) == some_nodes,
        walk(default_statements(kind, attrs), some_nodes, chains_step()) == some_nodes,
        walk(default_statements(kind, attrs), some_edges, edges_step(index)) == some_edges,
        walk(edge_statements(nodes, edges), some_nodes, declared_step()) == some_nodes,
        walk(node_statements(nodes), some_nodes, chains_step()) == some_nodes,
        walk(node_statements(nodes), some_edges, edges_step(index)) == some_edges,
{
    lemma_node_statements_index(nodes);
    lemma_edge_statements_index(nodes, edges);
    lemma_walk_passes(default_statements(kind, attrs), some_nodes, declared_step());
    lemma_walk_passes(default_statements(kind, attrs), some_nodes, chains_step());
    lemma_walk_passes(default_statements(kind, attrs), some_edges, edges_step(index));
    lemma_walk_passes(edge_statements(nodes, edges), some_nodes, declared_step());
    lemma_walk_passes(node_statements(nodes), some_nodes, chains_step());
    lemma_walk_passes(node_statements(nodes), some_edges, edges_step(index));
}

/// A walk over the statements of the text of a graph goes over the default
/// attributes of graph, node and edge, then over the nodes, then over the
/// edges.
pub proof fn lemma_walk_document<A>(g: GraphView, init: A, step: spec_fn(A, StatementView) -> A)
    ensures
        walk(document_statements(g), init, step) == walk(
            edge_statements(g.nodes, g.edges),
            walk(
                node_statements(g.nodes),
                walk(
                    default_statements(AttributeType::Edge, g.edge_attributes),
                    walk(
                        default_statements(AttributeType::Node, g.node_attributes),
                        walk(
                            default_statements(AttributeType::Graph, g.graph_attributes),
                            init,
                            step,
                        ),
                        step,
                    ),
                    step,
                ),
                step,
            ),
            step,
        ),
{
    let a = default_statements(AttributeType::Graph, g.graph_attributes);
    let b = default_statements(AttributeType::Node, g.node_attributes);
    let c = default_statements(AttributeType::Edge, g.edge_attributes);
    let d = node_statements(g.nodes);
    let e = edge_statements(g.nodes, g.edges);
    lemma_walk_append(a, b, init, step);
    lemma_walk_append(a + b, c, init, step);
    lemma_walk_append(a + b + c, d, init, step);
    lemma_walk_append(a + b + c + d, e, init, step);
}

/// The default attributes that the text of a graph states are those of the
/// graph.
pub proof fn lemma_document_defaults(g: GraphView)
    requires
        attributes_distinct(g),
    ensures
        defaults_of(document_statements(g), AttributeType::Graph) == g.graph_attributes,
        defaults_of(document_statements(g), AttributeType::Node) == g.node_attributes,
        defaults_of(document_statements(g), AttributeType::Edge) == g.edge_attributes,
{
    let none = Seq::<(Seq<char>, Seq<char>)>::empty();
    let all = document_statements(g);
    let index = Map::<Seq<char>, usize>::empty();
    lemma_walks(all, AttributeType::Graph, Seq::empty(), index);
    lemma_walks(all, AttributeType::Node, Seq::empty(), index);
    lemma_walks(all, AttributeType::Edge, Seq::empty(), index);
    lemma_walk_document(g, none, defaults_step(AttributeType::Graph));
    lemma_walk_document(g, none, defaults_step(AttributeType::Node));
    lemma_walk_document(g, none, defaults_step(AttributeType::Edge));
    lemma_defaults_take(AttributeType::Graph, g.graph_attributes);
    lemma_defaults_take(AttributeType::Node, g.node_attributes);
    lemma_defaults_take(AttributeType::Edge, g.edge_attributes);
    // graph
    lemma_defaults_pass(
        AttributeType::Graph,
        g.graph_attributes,
        AttributeType::Node,
        g.node_attributes,
        g.nodes,
        g.edges,
    );
    lemma_defaults_pass(
        AttributeType::Graph,
        g.graph_attributes,
        AttributeType::Edge,
        g.edge_attributes,
        g.nodes,
        g.edges,
    );
    // node
    lemma_defaults_pass(
        AttributeType::Node,
        none,
        AttributeType::Graph,
        g.graph_attributes,
        g.nodes,
        g.edges,
    );
    lemma_defaults_pass(
        AttributeType::Node,
        g.node_attributes,
        AttributeType::Edge,
        g.edge_attributes,
        g.nodes,
        g.edges,
    );
    // edge
    lemma_defaults_pass(
        AttributeType::Edge,
        none,
        AttributeType::Graph,
        g.graph_attributes,
        g.nodes,
        g.edges,
    );
    lemma_defaults_pass(
        AttributeType::Edge,
        none,
        AttributeType::Node,
        g.node_attributes,
        g.nodes,
        g.edges,
    );
    lemma_defaults_pass(
        AttributeType::Edge,
        g.edge_attributes,
        AttributeType::Graph,
        g.graph_attributes,
        g.nodes,
        g.edges,
    );
}

/// The nodes and the edges that the text of a graph states are those of the
/// graph.
pub proof fn lemma_document_nodes_edges(g: GraphView)
    requires
        ids_distinct(g.nodes),
        ends_within(g.edges, g.nodes.len()),
        g.nodes.len() <= usize::MAX,
    ensures
        all_nodes(document_statements(g)) == g.nodes,
        all_edges(id_index(g.nodes), document_statements(g)) == g.edges,
{
    let all = document_statements(g);
    let index = id_index(g.nodes);
    let no_nodes = Seq::<NodeView>::empty();
    let no_edges = Seq::<EdgeView>::empty();
    lemma_walks(all, AttributeType::Graph, g.nodes, index);
    lemma_walk_document(g, no_nodes, declared_step());
    lemma_walk_document(g, g.nodes, chains_step());
    lemma_walk_document(g, no_edges, edges_step(index));
    lemma_others_pass(
        AttributeType::Graph,
        g.graph_attributes,
        g.nodes,
        g.edges,
        no_nodes,
        no_edges,
        index,
    );
    lemma_others_pass(
        AttributeType::Node,
        g.node_attributes,
        g.nodes,
        g.edges,
        no_nodes,
        no_edges,
        index,
    );
    lemma_others_pass(
        AttributeType::Edge,
        g.edge_attributes,
        g.nodes,
        g.edges,
        no_nodes,
        no_edges,
        index,
    );
    lemma_others_pass(
        AttributeType::Graph,
        g.graph_attributes,
        g.nodes,
        g.edges,
        g.nodes,
        no_edges,
        index,
    );
    lemma_others_pass(
        AttributeType::Node,
        g.node_attributes,
        g.nodes,
        g.edges,
        g.nodes,
        no_edges,
        index,
    );
    lemma_others_pass(
        AttributeType::Edge,
        g.edge_attributes,
        g.nodes,
        g.edges,
        g.nodes,
        no_edges,
        index,
    );
    assert(no_nodes + g.nodes =~= g.nodes);
    lemma_walk_nodes(no_nodes, g.nodes);
    lemma_walk_chains(g.nodes, g.edges);
    lemma_walk_edges(g.nodes, no_edges, g.edges);
    assert(no_edges + g.edges =~= g.edges);
    assert(declared_nodes(all) == g.nodes);
}

/// The graph that the text of a graph states is that graph.
pub proof fn lemma_assembled_document(g: GraphView)
    requires
        graph_valid(g),
        ids_distinct(g.nodes),
    ensures
        assembled(document_graph(g)) == g,
{
    lemma_document_defaults(g);
    lemma_document_nodes_edges(g);
}

/// Reading the text of a graph gives the graph back: the same header, the
/// same default attributes in the same order, the same nodes with the same
/// ids and attributes at the same indices, and the same edges with the same
/// ends and attributes at the same indices. This holds of every graph whose
/// nodes have distinct ids.
pub proof fn lemma_round_trip(g: GraphView)
    requires
        graph_valid(g),
        ids_distinct(g.nodes),
    ensures
        parse_spec(document(g)) == Ok::<GraphView, ParseError>(g),
{
    lemma_lex_document(g);
    lemma_graph_of_document(g);
    lemma_assembled_document(g);
    assert(graph_spec(document(g)) == Some(document_graph(g)));
}

} // verus!
