//! What the words of a written text state: the statements that the text was
//! written from.

use vstd::prelude::*;
use crate::attributes::{keys_distinct, lemma_merge_front, lemma_merge_identity, merge, put};
use crate::dot::{
    AttributeType, EdgeInternalView, GlobalAttributeView, GraphInternalView, StatementView,
};
use crate::grammar::{
    a_list, attr_lists, chain_rest, default_kind, graph_kind, graph_of, id_value,
    is_edge_op, statement, statements,
};
use crate::graph::{EdgeView, GraphType, GraphView, NodeView};
use crate::lex_law::{
    attr_lines_tokens, bracket_tokens, default_block_tokens, document_tokens,
    edge_block_tokens, edge_blocks_tokens, edge_op_token, header_tokens, key_token, kind_word,
    node_block_tokens, node_blocks_tokens,
};
use crate::lexer::TokenView;

verus! {

/// Whether the words `tail` begin with a word that can begin a statement, or
/// with the closing brace.
pub open spec fn starts_clean(tail: Seq<TokenView>) -> bool {
    tail.len() > 0 && (tail[0] is Word || tail[0] is Quoted || tail[0] is RBrace)
}

/// Whether the words `ts` are empty or begin with a word that can begin a
/// statement.
pub open spec fn starts_statement(ts: Seq<TokenView>) -> bool {
    ts.len() == 0 || ts[0] is Word || ts[0] is Quoted
}

/// `first` before the statements of `r`, and `n` words more.
pub open spec fn prefixed(
    first: Seq<StatementView>,
    n: int,
    r: Option<(Seq<StatementView>, int)>,
) -> Option<(Seq<StatementView>, int)> {
    match r {
        Some((rest, m)) => Some((first + rest, n + m)),
        None => None,
    }
}

/// Whether the words `ts` state the statements `sts` whatever follows them,
/// as long as a statement or the closing brace follows.
pub open spec fn states(ts: Seq<TokenView>, sts: Seq<StatementView>) -> bool {
    forall|tail: Seq<TokenView>|
        starts_clean(tail) ==> #[trigger] statements(ts + tail) == prefixed(
            sts,
            ts.len() as int,
            statements(tail),
        )
}

/// No words state no statement.
pub proof fn lemma_states_empty()
    ensures
        states(Seq::<TokenView>::empty(), Seq::<StatementView>::empty()),
{
    assert forall|tail: Seq<TokenView>| starts_clean(tail) implies #[trigger] statements(
        Seq::<TokenView>::empty() + tail,
    ) == prefixed(Seq::<StatementView>::empty(), 0, statements(tail)) by {
        assert(Seq::<TokenView>::empty() + tail =~= tail);
        match statements(tail) {
            Some((rest, m)) => {
                assert(Seq::<StatementView>::empty() + rest =~= rest);
            },
            None => {},
        }
    }
}

/// Words after words state the statements of the first and then those of the
/// second.
pub proof fn lemma_states_concat(
    a: Seq<TokenView>,
    sa: Seq<StatementView>,
    b: Seq<TokenView>,
    sb: Seq<StatementView>,
)
    requires
        states(a, sa),
        states(b, sb),
        starts_statement(b),
    ensures
        states(a + b, sa + sb),
{
    assert forall|tail: Seq<TokenView>| starts_clean(tail) implies #[trigger] statements(
        (a + b) + tail,
    ) == prefixed(sa + sb, (a + b).len() as int, statements(tail)) by {
        assert((a + b) + tail =~= a + (b + tail));
        assert(starts_clean(b + tail)) by {
            if b.len() > 0 {
                assert((b + tail)[0] == b[0]);
            } else {
                assert(b + tail =~= tail);
            }
        }
        assert(statements(a + (b + tail)) == prefixed(sa, a.len() as int, statements(b + tail)));
        assert(statements(b + tail) == prefixed(sb, b.len() as int, statements(tail)));
        match statements(tail) {
            Some((rest, m)) => {
                assert(sa + (sb + rest) =~= (sa + sb) + rest);
            },
            None => {},
        }
    }
}

/// The words of one statement state that statement.
pub proof fn lemma_states_one(c: Seq<TokenView>, st: StatementView)
    requires
        c.len() > 0,
        !(c[0] is RBrace),
        forall|tail: Seq<TokenView>|
            starts_clean(tail) ==> #[trigger] statement(c + tail) == Some((st, c.len() as int)),
    ensures
        states(c, seq![st]),
{
    assert forall|tail: Seq<TokenView>| starts_clean(tail) implies #[trigger] statements(c + tail)
        == prefixed(seq![st], c.len() as int, statements(tail)) by {
        let ts = c + tail;
        assert(ts[0] == c[0]);
        assert(statement(c + tail) == Some((st, c.len() as int)));
        assert(ts[c.len() as int] == tail[0]);
        assert(ts.skip(c.len() as int) =~= tail);
    }
}

/// The word of a key stands for the key.
pub proof fn lemma_key_token(key: Seq<char>)
    ensures
        id_value(key_token(key)) == Some(key),
        !(key_token(key) is RBracket),
        !(key_token(key) is Semicolon),
        !(key_token(key) is Comma),
{
}

/// The words of the lines of a list of attributes and the closing bracket
/// are read as the inside of a bracketed list, and give the attributes
/// merged into what was there.
pub proof fn lemma_a_list(
    attrs: Seq<(Seq<char>, Seq<char>)>,
    acc: Seq<(Seq<char>, Seq<char>)>,
    rest: Seq<TokenView>,
)
    ensures
        a_list(attr_lines_tokens(attrs) + seq![TokenView::RBracket] + rest, acc) == Some(
            (merge(acc, attrs), (attr_lines_tokens(attrs).len() + 1) as int),
        ),
    decreases attrs.len(),
{
    let ts = attr_lines_tokens(attrs) + seq![TokenView::RBracket] + rest;
    if attrs.len() == 0 {
        assert(ts[0] is RBracket);
    } else {
        let pair = attrs[0];
        let more = attrs.skip(1);
        let after = attr_lines_tokens(more) + seq![TokenView::RBracket] + rest;
        lemma_key_token(pair.0);
        lemma_a_list(more, put(acc, pair.0, pair.1), rest);
        lemma_merge_front(acc, attrs);
        assert(ts[0] == key_token(pair.0));
        assert(ts[1] == TokenView::Equals);
        assert(ts[2] == TokenView::Quoted(pair.1));
        assert(ts.len() > 3);
        assert(ts[3] == after[0]);
        if more.len() > 0 {
            lemma_key_token(more[0].0);
            assert(after[0] == key_token(more[0].0));
        } else {
            assert(after[0] is RBracket);
        }
        assert(ts.skip(3) =~= after);
    }
}

/// The words of a bracketed list of attributes with distinct keys are read
/// as that list, where no other bracketed list follows.
pub proof fn lemma_attr_lists(attrs: Seq<(Seq<char>, Seq<char>)>, tail: Seq<TokenView>)
    requires
        keys_distinct(attrs),
        tail.len() == 0 || !(tail[0] is LBracket),
    ensures
        attr_lists(bracket_tokens(attrs) + tail, Seq::empty()) == Some(
            (attrs, bracket_tokens(attrs).len() as int),
        ),
{
    let ts = bracket_tokens(attrs) + tail;
    let n = (attr_lines_tokens(attrs).len() + 1) as int;
    lemma_a_list(attrs, Seq::empty(), tail);
    lemma_merge_identity(attrs);
    assert(ts[0] is LBracket);
    assert(ts.skip(1) =~= attr_lines_tokens(attrs) + seq![TokenView::RBracket] + tail);
    assert(ts.skip(n + 1) =~= tail);
    assert(attr_lists(tail, attrs) == Some((attrs, 0int)));
}

/// The words of a block of default attributes state the statement that
/// sets them.
pub proof fn lemma_states_default(
    name: Seq<char>,
    kind: AttributeType,
    attrs: Seq<(Seq<char>, Seq<char>)>,
)
    requires
        keys_distinct(attrs),
        attrs.len() > 0,
        default_kind(TokenView::Word(name)) == Some(kind),
    ensures
        states(
            default_block_tokens(name, attrs),
            seq![
                StatementView::GlobalAttribute(GlobalAttributeView { kind: kind, attributes: attrs }),
            ],
        ),
{
    let c = default_block_tokens(name, attrs);
    let st = StatementView::GlobalAttribute(GlobalAttributeView { kind: kind, attributes: attrs });
    assert forall|tail: Seq<TokenView>| starts_clean(tail) implies #[trigger] statement(c + tail)
        == Some((st, c.len() as int)) by {
        let ts = c + tail;
        assert(ts[0] == TokenView::Word(name));
        assert(ts[1] is LBracket);
        assert(ts.skip(1) =~= bracket_tokens(attrs) + tail);
        lemma_attr_lists(attrs, tail);
    }
    lemma_states_one(c, st);
}

/// The words of the block of a node state that node.
pub proof fn lemma_states_node(node: NodeView)
    requires
        keys_distinct(node.attributes),
    ensures
        states(node_block_tokens(node), seq![StatementView::Node(node)]),
{
    let c = node_block_tokens(node);
    let st = StatementView::Node(node);
    assert forall|tail: Seq<TokenView>| starts_clean(tail) implies #[trigger] statement(c + tail)
        == Some((st, c.len() as int)) by {
        let ts = c + tail;
        assert(ts[0] == TokenView::Quoted(node.id));
        assert(ts[1] is LBracket);
        assert(ts.skip(1) =~= bracket_tokens(node.attributes) + tail);
        assert(chain_rest(ts.skip(1), seq![node.id]) == Some((seq![node.id], 0int)));
        lemma_attr_lists(node.attributes, tail);
    }
    lemma_states_one(c, st);
}

/// The statement of an edge: the chain of the ids of its two ends.
pub open spec fn edge_statement(nodes: Seq<NodeView>, edge: EdgeView) -> StatementView {
    StatementView::Edge(
        EdgeInternalView {
            attributes: edge.attributes,
            nodes: seq![nodes[edge.source as int].id, nodes[edge.target as int].id],
        },
    )
}

/// The words of the block of an edge state the chain of its two ends.
pub proof fn lemma_states_edge(kind: GraphType, nodes: Seq<NodeView>, edge: EdgeView)
    requires
        keys_distinct(edge.attributes),
    ensures
        states(edge_block_tokens(kind, nodes, edge), seq![edge_statement(nodes, edge)]),
{
    let c = edge_block_tokens(kind, nodes, edge);
    let st = edge_statement(nodes, edge);
    let source = nodes[edge.source as int].id;
    let target = nodes[edge.target as int].id;
    assert forall|tail: Seq<TokenView>| starts_clean(tail) implies #[trigger] statement(c + tail)
        == Some((st, c.len() as int)) by {
        let ts = c + tail;
        assert(ts[0] == TokenView::Quoted(source));
        assert(ts[1] == edge_op_token(kind));
        assert(ts[2] == TokenView::Quoted(target));
        assert(ts[3] is LBracket);
        let after_first = ts.skip(1);
        assert(after_first[0] == ts[1]);
        assert(after_first[1] == ts[2]);
        assert(is_edge_op(after_first[0]));
        assert(after_first.skip(2) =~= bracket_tokens(edge.attributes) + tail);
        assert(ts.skip(3) =~= bracket_tokens(edge.attributes) + tail);
        assert(seq![source].push(target) =~= seq![source, target]);
        assert(chain_rest(after_first.skip(2), seq![source, target]) == Some(
            (seq![source, target], 0int),
        ));
        assert(chain_rest(after_first, seq![source]) == Some((seq![source, target], 2int)));
        lemma_attr_lists(edge.attributes, tail);
    }
    lemma_states_one(c, st);
}

/// The statements that state a list of nodes.
pub open spec fn node_statements(nodes: Seq<NodeView>) -> Seq<StatementView>
    decreases nodes.len(),
{
    if nodes.len() == 0 {
        Seq::empty()
    } else {
        seq![StatementView::Node(nodes[0])] + node_statements(nodes.skip(1))
    }
}

/// The statements that state a list of edges between `nodes`.
pub open spec fn edge_statements(nodes: Seq<NodeView>, edges: Seq<EdgeView>) -> Seq<StatementView>
    decreases edges.len(),
{
    if edges.len() == 0 {
        Seq::empty()
    } else {
        seq![edge_statement(nodes, edges[0])] + edge_statements(nodes, edges.skip(1))
    }
}

/// The statement that sets default attributes; none where there are none.
pub open spec fn default_statements(kind: AttributeType, attrs: Seq<(Seq<char>, Seq<char>)>) -> Seq<
    StatementView,
> {
    if attrs.len() == 0 {
        Seq::empty()
    } else {
        seq![StatementView::GlobalAttribute(GlobalAttributeView { kind: kind, attributes: attrs })]
    }
}

/// The statements that the text of a graph states.
pub open spec fn document_statements(g: GraphView) -> Seq<StatementView> {
    default_statements(AttributeType::Graph, g.graph_attributes) + default_statements(
        AttributeType::Node,
        g.node_attributes,
    ) + default_statements(AttributeType::Edge, g.edge_attributes) + node_statements(g.nodes)
        + edge_statements(g.nodes, g.edges)
}

/// The graph that the text of a graph states.
pub open spec fn document_graph(g: GraphView) -> GraphInternalView {
    GraphInternalView {
        strict: g.strict,
        kind: g.kind,
        id: g.id,
        statements: document_statements(g),
    }
}

/// Whether every list of attributes in `g` has distinct keys.
pub open spec fn attributes_distinct(g: GraphView) -> bool {
    &&& keys_distinct(g.graph_attributes)
    &&& keys_distinct(g.node_attributes)
    &&& keys_distinct(g.edge_attributes)
    &&& forall|i: int| 0 <= i < g.nodes.len() ==> keys_distinct((#[trigger] g.nodes[i]).attributes)
    &&& forall|i: int| 0 <= i < g.edges.len() ==> keys_distinct((#[trigger] g.edges[i]).attributes)
}

/// The words of the blocks of a list of nodes state those nodes.
pub proof fn lemma_states_nodes(nodes: Seq<NodeView>)
    requires
        forall|i: int| 0 <= i < nodes.len() ==> keys_distinct((#[trigger] nodes[i]).attributes),
    ensures
        states(node_blocks_tokens(nodes), node_statements(nodes)),
        starts_statement(node_blocks_tokens(nodes)),
    decreases nodes.len(),
{
    if nodes.len() == 0 {
        lemma_states_empty();
    } else {
        let more = nodes.skip(1);
        assert forall|i: int| 0 <= i < more.len() implies keys_distinct(
            (#[trigger] more[i]).attributes,
        ) by {
            assert(more[i] == nodes[i + 1]);
        }
        lemma_states_node(nodes[0]);
        lemma_states_nodes(more);
        lemma_states_concat(
            node_block_tokens(nodes[0]),
            seq![StatementView::Node(nodes[0])],
            node_blocks_tokens(more),
            node_statements(more),
        );
        assert(node_blocks_tokens(nodes)[0] == node_block_tokens(nodes[0])[0]);
    }
}

/// The words of the blocks of a list of edges state the chains of those
/// edges.
pub proof fn lemma_states_edges(kind: GraphType, nodes: Seq<NodeView>, edges: Seq<EdgeView>)
    requires
        forall|i: int| 0 <= i < edges.len() ==> keys_distinct((#[trigger] edges[i]).attributes),
    ensures
        states(edge_blocks_tokens(kind, nodes, edges), edge_statements(nodes, edges)),
        starts_statement(edge_blocks_tokens(kind, nodes, edges)),
    decreases edges.len(),
{
    if edges.len() == 0 {
        lemma_states_empty();
    } else {
        let more = edges.skip(1);
        assert forall|i: int| 0 <= i < more.len() implies keys_distinct(
            (#[trigger] more[i]).attributes,
        ) by {
            assert(more[i] == edges[i + 1]);
        }
        lemma_states_edge(kind, nodes, edges[0]);
        lemma_states_edges(kind, nodes, more);
        lemma_states_concat(
            edge_block_tokens(kind, nodes, edges[0]),
            seq![edge_statement(nodes, edges[0])],
            edge_blocks_tokens(kind, nodes, more),
            edge_statements(nodes, more),
        );
        assert(edge_blocks_tokens(kind, nodes, edges)[0] == edge_block_tokens(
            kind,
            nodes,
            edges[0],
        )[0]);
    }
}

/// The words of a block of default attributes, if there are any, state the
/// statement that sets them.
pub proof fn lemma_states_defaults(
    name: Seq<char>,
    kind: AttributeType,
    attrs: Seq<(Seq<char>, Seq<char>)>,
)
    requires
        keys_distinct(attrs),
        default_kind(TokenView::Word(name)) == Some(kind),
    ensures
        states(default_block_tokens(name, attrs), default_statements(kind, attrs)),
        starts_statement(default_block_tokens(name, attrs)),
{
    if attrs.len() == 0 {
        lemma_states_empty();
    } else {
        lemma_states_default(name, kind, attrs);
    }
}

/// The names of the three lists of default attributes, and the words of the
/// header, are told apart.
pub proof fn lemma_names()
    ensures
        default_kind(TokenView::Word("graph"@)) == Some(AttributeType::Graph),
        default_kind(TokenView::Word("node"@)) == Some(AttributeType::Node),
        default_kind(TokenView::Word("edge"@)) == Some(AttributeType::Edge),
        graph_kind(TokenView::Word("graph"@)) == Some(GraphType::Graph),
        graph_kind(TokenView::Word("digraph"@)) == Some(GraphType::Digraph),
        "graph"@ != "strict"@,
        "digraph"@ != "strict"@,
{
    reveal_strlit("graph");
    reveal_strlit("node");
    reveal_strlit("edge");
    reveal_strlit("digraph");
    reveal_strlit("strict");
    assert("node"@.len() != "graph"@.len());
    assert("edge"@.len() != "graph"@.len());
    assert("edge"@[0] != "node"@[0]);
    assert("digraph"@.len() != "graph"@.len());
    assert("graph"@.len() != "strict"@.len());
    assert("digraph"@.len() != "strict"@.len());
}

/// The words between the braces of the text of a graph.
pub open spec fn body_tokens(g: GraphView) -> Seq<TokenView> {
    default_block_tokens("graph"@, g.graph_attributes) + default_block_tokens(
        "node"@,
        g.node_attributes,
    ) + default_block_tokens("edge"@, g.edge_attributes) + node_blocks_tokens(g.nodes)
        + edge_blocks_tokens(g.kind, g.nodes, g.edges)
}

/// The words between the braces of the text of a graph, and the closing
/// brace, state the statements of the graph.
pub proof fn lemma_statements_of_body(g: GraphView)
    requires
        attributes_distinct(g),
    ensures
        statements(body_tokens(g) + seq![TokenView::RBrace]) == Some(
            (document_statements(g), (body_tokens(g).len() + 1) as int),
        ),
{
    lemma_names();
    lemma_states_defaults("graph"@, AttributeType::Graph, g.graph_attributes);
    lemma_states_defaults("node"@, AttributeType::Node, g.node_attributes);
    lemma_states_defaults("edge"@, AttributeType::Edge, g.edge_attributes);
    lemma_states_nodes(g.nodes);
    lemma_states_edges(g.kind, g.nodes, g.edges);
    let a = default_block_tokens("graph"@, g.graph_attributes);
    let sa = default_statements(AttributeType::Graph, g.graph_attributes);
    let b = default_block_tokens("node"@, g.node_attributes);
    let sb = default_statements(AttributeType::Node, g.node_attributes);
    let c = default_block_tokens("edge"@, g.edge_attributes);
    let sc = default_statements(AttributeType::Edge, g.edge_attributes);
    let d = node_blocks_tokens(g.nodes);
    let sd = node_statements(g.nodes);
    let e = edge_blocks_tokens(g.kind, g.nodes, g.edges);
    let se = edge_statements(g.nodes, g.edges);
    lemma_states_concat(a, sa, b, sb);
    lemma_states_concat(a + b, sa + sb, c, sc);
    lemma_states_concat(a + b + c, sa + sb + sc, d, sd);
    lemma_states_concat(a + b + c + d, sa + sb + sc + sd, e, se);
    let body = body_tokens(g);
    let all = document_statements(g);
    assert(states(body, all));
    let close = seq![TokenView::RBrace];
    assert(starts_clean(close));
    assert(statements(close) == Some((Seq::<StatementView>::empty(), 1int)));
    assert(statements(body + close) == prefixed(all, body.len() as int, statements(close)));
    assert(all + Seq::<StatementView>::empty() =~= all);
}

/// The words of a header before words that state statements up to their
/// end state a graph with that header and those statements.
pub proof fn lemma_graph_of_header(g: GraphView, tail: Seq<TokenView>, found: Seq<StatementView>)
    requires
        statements(tail) == Some((found, tail.len() as int)),
    ensures
        graph_of(header_tokens(g) + tail) == Some(
            GraphInternalView { strict: g.strict, kind: g.kind, id: g.id, statements: found },
        ),
{
    lemma_names();
    let head = header_tokens(g);
    let ts = head + tail;
    let first: int = if g.strict {
        1
    } else {
        0
    };
    let brace: int = first + 1 + (if g.id is Some {
        1int
    } else {
        0int
    });
    assert(head.len() == brace + 1);
    assert(ts[first] == head[first]);
    assert(head[first] == TokenView::Word(kind_word(g.kind)));
    assert(ts[brace] == head[brace]);
    assert(head[brace] is LBrace);
    assert(ts[0] == head[0]);
    if g.strict {
        assert(head[0] == TokenView::Word("strict"@));
    } else {
        assert(head[0] == TokenView::Word(kind_word(g.kind)));
        assert(head[0] != TokenView::Word("strict"@));
    }
    assert(ts[first + 1] == head[first + 1]);
    match g.id {
        Some(id) => {
            assert(head[first + 1] == TokenView::Quoted(id));
        },
        None => {
            assert(head[first + 1] is LBrace);
        },
    }
    assert(ts.skip(brace + 1) =~= tail);
}

/// The words of the text of a graph state that graph.
pub proof fn lemma_graph_of_document(g: GraphView)
    requires
        attributes_distinct(g),
    ensures
        graph_of(document_tokens(g)) == Some(document_graph(g)),
{
    let tail = body_tokens(g) + seq![TokenView::RBrace];
    lemma_statements_of_body(g);
    lemma_graph_of_header(g, tail, document_statements(g));
    assert(document_tokens(g) =~= header_tokens(g) + tail);
}

} // verus!
