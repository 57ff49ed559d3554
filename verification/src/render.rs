//! The text of a graph in the dot language.

use vstd::prelude::*;
use vstd::string::StringExecFns;
use crate::attributes::Attributes;
use crate::graph::{EdgeView, GraphType, GraphView, NodeView};
use crate::lexer::{check_bare_word, is_bare_word};
use crate::text::{chars_of, push_char, str_eq};

verus! {

/// What one character becomes inside quotes: a quote and a backslash get a
/// backslash before them.
pub open spec fn escape_char(c: char) -> Seq<char> {
    if c == '"' || c == '\\' {
        seq!['\\', c]
    } else {
        seq![c]
    }
}

/// `s` as it stands inside quotes.
pub open spec fn escape(s: Seq<char>) -> Seq<char>
    decreases s.len(),
{
    if s.len() == 0 {
        Seq::empty()
    } else {
        escape_char(s[0]) + escape(s.skip(1))
    }
}

/// `s` as a quoted string.
pub open spec fn quote(s: Seq<char>) -> Seq<char> {
    seq!['"'] + escape(s) + seq!['"']
}

/// Whether `s` is a word that the language keeps for itself.
pub open spec fn is_keyword(s: Seq<char>) -> bool {
    s == "graph"@ || s == "digraph"@ || s == "strict"@ || s == "node"@ || s == "edge"@ || s
        == "subgraph"@
}

/// A key as the text shows it: bare where it can stand so, else quoted.
pub open spec fn key_text(key: Seq<char>) -> Seq<char> {
    if is_bare_word(key) && !is_keyword(key) {
        key
    } else {
        quote(key)
    }
}

/// The line of one attribute.
pub open spec fn attr_line(pair: (Seq<char>, Seq<char>)) -> Seq<char> {
    "    "@ + key_text(pair.0) + " = "@ + quote(pair.1) + "\n"@
}

/// The lines of a list of attributes, in its order.
pub open spec fn attr_lines(attrs: Seq<(Seq<char>, Seq<char>)>) -> Seq<char>
    decreases attrs.len(),
{
    if attrs.len() == 0 {
        Seq::empty()
    } else {
        attr_line(attrs[0]) + attr_lines(attrs.skip(1))
    }
}

/// The block of default attributes under `name`; no text where there are
/// none.
pub open spec fn default_block(name: Seq<char>, attrs: Seq<(Seq<char>, Seq<char>)>) -> Seq<char> {
    if attrs.len() == 0 {
        Seq::empty()
    } else {
        "  "@ + name + " [\n"@ + attr_lines(attrs) + "  ]\n"@
    }
}

/// The block of one node: its quoted id and its attributes.
pub open spec fn node_block(node: NodeView) -> Seq<char> {
    "  "@ + quote(node.id) + " [\n"@ + attr_lines(node.attributes) + "  ]\n"@
}

/// The blocks of a list of nodes, in its order.
pub open spec fn node_blocks(nodes: Seq<NodeView>) -> Seq<char>
    decreases nodes.len(),
{
    if nodes.len() == 0 {
        Seq::empty()
    } else {
        node_block(nodes[0]) + node_blocks(nodes.skip(1))
    }
}

/// The sign between the two ends of an edge.
pub open spec fn edge_op(kind: GraphType) -> Seq<char> {
    match kind {
        GraphType::Digraph => "->"@,
        GraphType::Graph => "--"@,
    }
}

/// The block of an edge between the nodes with the ids `source` and
/// `target`: the quoted ids around the sign of the graph's kind, and the
/// attributes.
pub open spec fn edge_text(
    kind: GraphType,
    source: Seq<char>,
    target: Seq<char>,
    attrs: Seq<(Seq<char>, Seq<char>)>,
) -> Seq<char> {
    "  "@ + quote(source) + " "@ + edge_op(kind) + " "@ + quote(target) + "[\n"@ + attr_lines(attrs)
        + "  ]\n"@
}

/// The block of one edge: the quoted ids of its ends around the sign of the
/// graph's kind, and its attributes.
pub open spec fn edge_block(kind: GraphType, nodes: Seq<NodeView>, edge: EdgeView) -> Seq<char> {
    edge_text(kind, nodes[edge.source as int].id, nodes[edge.target as int].id, edge.attributes)
}

/// The blocks of a list of edges, in its order.
pub open spec fn edge_blocks(kind: GraphType, nodes: Seq<NodeView>, edges: Seq<EdgeView>) -> Seq<
    char,
>
    decreases edges.len(),
{
    if edges.len() == 0 {
        Seq::empty()
    } else {
        edge_block(kind, nodes, edges[0]) + edge_blocks(kind, nodes, edges.skip(1))
    }
}

/// The opening of the text: `strict` where the graph is so, the word of its
/// kind, its quoted id where it has one, and the opening brace.
pub open spec fn header(g: GraphView) -> Seq<char> {
    (if g.strict {
        "strict "@
    } else {
        Seq::empty()
    }) + (match g.kind {
        GraphType::Graph => "graph "@,
        GraphType::Digraph => "digraph "@,
    }) + (match g.id {
        Some(id) => quote(id) + " "@,
        None => Seq::empty(),
    }) + "{\n"@
}

/// The text of a graph: the opening, the blocks of default attributes for
/// graph, node and edge, a block for each node by index, a block for each
/// edge by index, and the closing brace.
pub open spec fn document(g: GraphView) -> Seq<char> {
    header(g) + default_block("graph"@, g.graph_attributes) + default_block(
        "node"@,
        g.node_attributes,
    ) + default_block("edge"@, g.edge_attributes) + node_blocks(g.nodes) + edge_blocks(
        g.kind,
        g.nodes,
        g.edges,
    ) + "}\n"@
}

/// Escaping goes character by character.
pub proof fn lemma_escape_push(s: Seq<char>, c: char)
    ensures
        escape(s.push(c)) == escape(s) + escape_char(c),
    decreases s.len(),
{
    if s.len() == 0 {
        assert(s.push(c).skip(1) =~= Seq::<char>::empty());
        assert(escape(s.push(c).skip(1)) =~= Seq::<char>::empty());
        assert(escape(s.push(c)) =~= escape(s) + escape_char(c));
    } else {
        lemma_escape_push(s.skip(1), c);
        assert(s.push(c).skip(1) =~= s.skip(1).push(c));
        assert(escape(s.push(c)) =~= escape(s) + escape_char(c));
    }
}

/// The lines of a list with one attribute more at its end.
pub proof fn lemma_attr_lines_push(attrs: Seq<(Seq<char>, Seq<char>)>, pair: (Seq<char>, Seq<char>))
    ensures
        attr_lines(attrs.push(pair)) == attr_lines(attrs) + attr_line(pair),
    decreases attrs.len(),
{
    if attrs.len() == 0 {
        assert(attrs.push(pair).skip(1) =~= Seq::<(Seq<char>, Seq<char>)>::empty());
        assert(attr_lines(attrs.push(pair).skip(1)) =~= Seq::<char>::empty());
        assert(attr_lines(attrs.push(pair)) =~= attr_lines(attrs) + attr_line(pair));
    } else {
        lemma_attr_lines_push(attrs.skip(1), pair);
        assert(attrs.push(pair).skip(1) =~= attrs.skip(1).push(pair));
        assert(attr_lines(attrs.push(pair)) =~= attr_lines(attrs) + attr_line(pair));
    }
}

/// The blocks of a list with one node more at its end.
pub proof fn lemma_node_blocks_push(nodes: Seq<NodeView>, node: NodeView)
    ensures
        node_blocks(nodes.push(node)) == node_blocks(nodes) + node_block(node),
    decreases nodes.len(),
{
    if nodes.len() == 0 {
        assert(nodes.push(node).skip(1) =~= Seq::<NodeView>::empty());
        assert(node_blocks(nodes.push(node).skip(1)) =~= Seq::<char>::empty());
        assert(node_blocks(nodes.push(node)) =~= node_blocks(nodes) + node_block(node));
    } else {
        lemma_node_blocks_push(nodes.skip(1), node);
        assert(nodes.push(node).skip(1) =~= nodes.skip(1).push(node));
        assert(node_blocks(nodes.push(node)) =~= node_blocks(nodes) + node_block(node));
    }
}

/// The blocks of a list with one edge more at its end.
pub proof fn lemma_edge_blocks_push(
    kind: GraphType,
    nodes: Seq<NodeView>,
    edges: Seq<EdgeView>,
    edge: EdgeView,
)
    ensures
        edge_blocks(kind, nodes, edges.push(edge)) == edge_blocks(kind, nodes, edges) + edge_block(
            kind,
            nodes,
            edge,
        ),
    decreases edges.len(),
{
    if edges.len() == 0 {
        assert(edges.push(edge).skip(1) =~= Seq::<EdgeView>::empty());
        assert(edge_blocks(kind, nodes, edges.push(edge).skip(1)) =~= Seq::<char>::empty());
        assert(edge_blocks(kind, nodes, edges.push(edge)) =~= edge_blocks(kind, nodes, edges)
            + edge_block(kind, nodes, edge));
    } else {
        lemma_edge_blocks_push(kind, nodes, edges.skip(1), edge);
        assert(edges.push(edge).skip(1) =~= edges.skip(1).push(edge));
        assert(edge_blocks(kind, nodes, edges.push(edge)) =~= edge_blocks(kind, nodes, edges)
            + edge_block(kind, nodes, edge));
    }
}

/// Appends `s` to `out`.
pub(crate) fn put_str(out: &mut String, s: &str)
    ensures
        final(out)@ == old(out)@ + s@,
{
    out.append(s);
}

/// Appends `s` to `out` as a quoted string.
pub(crate) fn put_quoted(out: &mut String, s: &str)
    ensures
        final(out)@ == old(out)@ + quote(s@),
{
    let ghost before = out@;
    let chars = chars_of(s);
    push_char(out, '"');
    let mut i: usize = 0;
    assert(escape(chars@.take(0)) =~= Seq::<char>::empty());
    assert(out@ =~= before + seq!['"'] + escape(chars@.take(0)));
    while i < chars.len()
        invariant
            i <= chars@.len(),
            out@ == before + seq!['"'] + escape(chars@.take(i as int)),
        decreases chars@.len() - i,
    {
        let c = chars[i];
        proof {
            assert(chars@.take(i + 1) =~= chars@.take(i as int).push(c));
            lemma_escape_push(chars@.take(i as int), c);
        }
        let ghost so_far = out@;
        if c == '"' || c == '\\' {
            push_char(out, '\\');
            push_char(out, c);
            assert(out@ =~= so_far + escape_char(c));
        } else {
            push_char(out, c);
            assert(out@ =~= so_far + escape_char(c));
        }
        assert(out@ =~= before + seq!['"'] + escape(chars@.take(i + 1)));
        i += 1;
    }
    assert(chars@.take(i as int) =~= chars@);
    push_char(out, '"');
    assert(out@ =~= before + quote(s@));
}

/// Whether `s` is a word that the language keeps for itself.
pub(crate) fn keyword(s: &str) -> (yes: bool)
    ensures
        yes == is_keyword(s@),
{
    str_eq(s, "graph") || str_eq(s, "digraph") || str_eq(s, "strict") || str_eq(s, "node")
        || str_eq(s, "edge") || str_eq(s, "subgraph")
}

/// Appends `key` to `out`, bare where it can stand so, else quoted.
pub(crate) fn put_key(out: &mut String, key: &str)
    ensures
        final(out)@ == old(out)@ + key_text(key@),
{
    let chars = chars_of(key);
    assert(chars@.subrange(0, chars@.len() as int) =~= key@);
    if check_bare_word(&chars, 0, chars.len()) && !keyword(key) {
        put_str(out, key);
    } else {
        put_quoted(out, key);
    }
}

/// Appends the lines of `attrs` to `out`.
pub(crate) fn put_attr_lines(out: &mut String, attrs: &Attributes)
    ensures
        final(out)@ == old(out)@ + attr_lines(attrs@),
{
    let ghost before = out@;
    let n = attrs.len();
    let mut i: usize = 0;
    assert(out@ =~= before + attr_lines(attrs@.take(0)));
    while i < n
        invariant
            i <= n,
            n == attrs@.len(),
            out@ == before + attr_lines(attrs@.take(i as int)),
        decreases n - i,
    {
        let ghost so_far = out@;
        match attrs.entry(i) {
            Some((key, value)) => {
                put_str(out, "    ");
                put_key(out, key.as_str());
                put_str(out, " = ");
                put_quoted(out, value.as_str());
                put_str(out, "\n");
                proof {
                    let pair = attrs@[i as int];
                    assert(out@ =~= so_far + attr_line(pair));
                    assert(attrs@.take(i + 1) =~= attrs@.take(i as int).push(pair));
                    lemma_attr_lines_push(attrs@.take(i as int), pair);
                    assert(out@ =~= before + attr_lines(attrs@.take(i + 1)));
                }
            },
            None => {},
        }
        i += 1;
    }
    assert(attrs@.take(i as int) =~= attrs@);
}

/// Appends the block of default attributes under `name` to `out`.
pub(crate) fn put_default_block(out: &mut String, name: &str, attrs: &Attributes)
    ensures
        final(out)@ == old(out)@ + default_block(name@, attrs@),
{
    let ghost before = out@;
    if !attrs.is_empty() {
        put_str(out, "  ");
        put_str(out, name);
        put_str(out, " [\n");
        put_attr_lines(out, attrs);
        put_str(out, "  ]\n");
        assert(out@ =~= before + default_block(name@, attrs@));
    } else {
        assert(out@ =~= before + default_block(name@, attrs@));
    }
}

/// Appends the block of a node to `out`.
pub(crate) fn put_node_block(out: &mut String, id: &str, attrs: &Attributes)
    ensures
        final(out)@ == old(out)@ + node_block(NodeView { id: id@, attributes: attrs@ }),
{
    let ghost before = out@;
    put_str(out, "  ");
    put_quoted(out, id);
    put_str(out, " [\n");
    put_attr_lines(out, attrs);
    put_str(out, "  ]\n");
    assert(out@ =~= before + node_block(NodeView { id: id@, attributes: attrs@ }));
}

/// Appends the block of an edge to `out`.
pub(crate) fn put_edge_block(
    out: &mut String,
    kind: GraphType,
    source: &str,
    target: &str,
    attrs: &Attributes,
)
    ensures
        final(out)@ == old(out)@ + edge_text(kind, source@, target@, attrs@),
{
    let ghost before = out@;
    put_str(out, "  ");
    put_quoted(out, source);
    put_str(out, " ");
    match kind {
        GraphType::Digraph => put_str(out, "->"),
        GraphType::Graph => put_str(out, "--"),
    }
    put_str(out, " ");
    put_quoted(out, target);
    put_str(out, "[\n");
    put_attr_lines(out, attrs);
    put_str(out, "  ]\n");
    assert(out@ =~= before + edge_text(kind, source@, target@, attrs@));
}

/// Appends the opening of the text to `out`.
pub(crate) fn put_header(out: &mut String, strict: bool, kind: GraphType, id: &Option<String>)
    ensures
        final(out)@ == old(out)@ + (if strict {
            "strict "@
        } else {
            Seq::empty()
        }) + (match kind {
            GraphType::Graph => "graph "@,
            GraphType::Digraph => "digraph "@,
        }) + (match id {
            Some(id) => quote(id@) + " "@,
            None => Seq::empty(),
        }) + "{\n"@,
{
    let ghost before = out@;
    if strict {
        put_str(out, "strict ");
    }
    let ghost first = out@;
    assert(first =~= before + (if strict {
        "strict "@
    } else {
        Seq::empty()
    }));
    match kind {
        GraphType::Graph => put_str(out, "graph "),
        GraphType::Digraph => put_str(out, "digraph "),
    }
    let ghost second = out@;
    match id {
        Some(id) => {
            put_quoted(out, id.as_str());
            put_str(out, " ");
            assert(out@ =~= second + (quote(id@) + " "@));
        },
        None => {
            assert(out@ =~= second + Seq::<char>::empty());
        },
    }
    put_str(out, "{\n");
}

} // verus!
