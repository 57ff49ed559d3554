//! What the words of a written text are: each piece of the text that
//! `render` describes gives the words that it was written from.

use vstd::prelude::*;
use crate::graph::{EdgeView, GraphType, GraphView, NodeView};
use crate::lexer::{
    bare_len, first_token, is_bare_word, is_digit, is_identifier, is_letter, is_numeral, is_space,
    is_unsigned_numeral, is_word_char, lex, punctuation, scan_inner, word_len, TokenView,
};
use crate::render::{
    attr_line, attr_lines, default_block, document, edge_block, edge_blocks, edge_op, escape, header, is_keyword, key_text, node_block, node_blocks, quote,
};

verus! {

/// `ts` before the words of `r`, if there are any.
pub open spec fn prepend_all(ts: Seq<TokenView>, r: Option<Seq<TokenView>>) -> Option<
    Seq<TokenView>,
> {
    match r {
        Some(rest) => Some(ts + rest),
        None => None,
    }
}

/// Whether the text `a` gives the words `ts` whatever follows it: the words
/// of `a` with any text after it are `ts` and then the words of that text.
pub open spec fn lexes_as(a: Seq<char>, ts: Seq<TokenView>) -> bool {
    forall|rest: Seq<char>| #[trigger] lex(a + rest) == prepend_all(ts, lex(rest))
}

/// The empty text gives no word.
pub proof fn lemma_lexes_empty()
    ensures
        lexes_as(Seq::<char>::empty(), Seq::<TokenView>::empty()),
{
    assert forall|rest: Seq<char>| #[trigger]
        lex(Seq::<char>::empty() + rest) == prepend_all(Seq::<TokenView>::empty(), lex(rest)) by {
        assert(Seq::<char>::empty() + rest =~= rest);
        match lex(rest) {
            Some(ts) => {
                assert(Seq::<TokenView>::empty() + ts =~= ts);
            },
            None => {},
        }
    }
}

/// One text after another gives the words of the first and then those of
/// the second.
pub proof fn lemma_lexes_concat(a: Seq<char>, ta: Seq<TokenView>, b: Seq<char>, tb: Seq<TokenView>)
    requires
        lexes_as(a, ta),
        lexes_as(b, tb),
    ensures
        lexes_as(a + b, ta + tb),
{
    assert forall|rest: Seq<char>| #[trigger]
        lex((a + b) + rest) == prepend_all(ta + tb, lex(rest)) by {
        assert((a + b) + rest =~= a + (b + rest));
        assert(lex(a + (b + rest)) == prepend_all(ta, lex(b + rest)));
        assert(lex(b + rest) == prepend_all(tb, lex(rest)));
        match lex(rest) {
            Some(ts) => {
                assert(ta + (tb + ts) =~= (ta + tb) + ts);
            },
            None => {},
        }
    }
}

/// A space gives no word.
pub proof fn lemma_lexes_space(c: char)
    requires
        is_space(c),
    ensures
        lexes_as(seq![c], Seq::<TokenView>::empty()),
{
    assert forall|rest: Seq<char>| #[trigger]
        lex(seq![c] + rest) == prepend_all(Seq::<TokenView>::empty(), lex(rest)) by {
        let s = seq![c] + rest;
        assert(s[0] == c);
        assert(s.skip(1) =~= rest);
        match lex(rest) {
            Some(ts) => {
                assert(Seq::<TokenView>::empty() + ts =~= ts);
            },
            None => {},
        }
    }
}

/// Spaces give no word.
pub proof fn lemma_lexes_spaces(ws: Seq<char>)
    requires
        forall|i: int| 0 <= i < ws.len() ==> is_space(#[trigger] ws[i]),
    ensures
        lexes_as(ws, Seq::<TokenView>::empty()),
    decreases ws.len(),
{
    if ws.len() == 0 {
        lemma_lexes_empty();
        assert(ws =~= Seq::<char>::empty());
    } else {
        lemma_lexes_space(ws[0]);
        lemma_lexes_spaces(ws.skip(1));
        lemma_lexes_concat(
            seq![ws[0]],
            Seq::<TokenView>::empty(),
            ws.skip(1),
            Seq::<TokenView>::empty(),
        );
        assert(seq![ws[0]] + ws.skip(1) =~= ws);
        assert(Seq::<TokenView>::empty() + Seq::<TokenView>::empty() =~= Seq::<TokenView>::empty());
    }
}

/// A character of punctuation gives its word.
pub proof fn lemma_lexes_punct(c: char)
    requires
        punctuation(c) is Some,
    ensures
        lexes_as(seq![c], seq![punctuation(c)->0]),
{
    assert forall|rest: Seq<char>| #[trigger]
        lex(seq![c] + rest) == prepend_all(seq![punctuation(c)->0], lex(rest)) by {
        let s = seq![c] + rest;
        assert(s[0] == c);
        assert(s.skip(1) =~= rest);
    }
}

/// The sign of a kind of graph gives its word.
pub proof fn lemma_lexes_edge_op(kind: GraphType)
    ensures
        lexes_as(
            edge_op(kind),
            seq![
                match kind {
                    GraphType::Digraph => TokenView::Arrow,
                    GraphType::Graph => TokenView::Line,
                },
            ],
        ),
{
    reveal_strlit("->");
    reveal_strlit("--");
    let word = match kind {
        GraphType::Digraph => TokenView::Arrow,
        GraphType::Graph => TokenView::Line,
    };
    assert forall|rest: Seq<char>| #[trigger]
        lex(edge_op(kind) + rest) == prepend_all(seq![word], lex(rest)) by {
        let s = edge_op(kind) + rest;
        assert(s[0] == '-');
        assert(s[1] == edge_op(kind)[1]);
        assert(s.skip(2) =~= rest);
    }
}

/// Reading what was escaped gives back what was there, up to the closing
/// quote.
pub proof fn lemma_scan_escape(v: Seq<char>, tail: Seq<char>)
    ensures
        scan_inner(escape(v) + seq!['"'] + tail) == (v, escape(v).len() as int),
    decreases v.len(),
{
    let s = escape(v) + seq!['"'] + tail;
    if v.len() == 0 {
        assert(s[0] == '"');
        assert(v =~= Seq::<char>::empty());
    } else {
        let c = v[0];
        let more = v.skip(1);
        lemma_scan_escape(more, tail);
        let next = escape(more) + seq!['"'] + tail;
        if c == '"' || c == '\\' {
            assert(s[0] == '\\');
            assert(s[1] == c);
            assert(s.skip(2) =~= next);
            assert(seq![c] + more =~= v);
        } else {
            assert(s[0] == c);
            assert(s.skip(1) =~= next);
            assert(seq![c] + more =~= v);
        }
    }
}

/// A quoted string gives the text that was quoted.
pub proof fn lemma_lexes_quoted(v: Seq<char>)
    ensures
        lexes_as(quote(v), seq![TokenView::Quoted(v)]),
{
    assert forall|rest: Seq<char>| #[trigger]
        lex(quote(v) + rest) == prepend_all(seq![TokenView::Quoted(v)], lex(rest)) by {
        let s = quote(v) + rest;
        let n = escape(v).len() as int;
        assert(s[0] == '"');
        assert(s.skip(1) =~= escape(v) + seq!['"'] + rest);
        lemma_scan_escape(v, rest);
        assert(s.skip(n + 2) =~= rest);
    }
}

/// A run of word characters before another character, or before the end, is
/// read whole.
pub proof fn lemma_word_len_prefix(w: Seq<char>, tail: Seq<char>)
    requires
        forall|i: int| 0 <= i < w.len() ==> is_word_char(#[trigger] w[i]),
        tail.len() == 0 || !is_word_char(tail[0]),
    ensures
        word_len(w + tail) == w.len(),
    decreases w.len(),
{
    let s = w + tail;
    if w.len() == 0 {
        assert(s =~= tail);
    } else {
        assert(s[0] == w[0]);
        assert(s.skip(1) =~= w.skip(1) + tail);
        assert forall|i: int| 0 <= i < w.skip(1).len() implies is_word_char(
            #[trigger] w.skip(1)[i],
        ) by {
            assert(w.skip(1)[i] == w[i + 1]);
        }
        lemma_word_len_prefix(w.skip(1), tail);
    }
}

/// A bare word with a space after it gives that word.
pub proof fn lemma_lexes_word(w: Seq<char>)
    requires
        is_bare_word(w),
    ensures
        lexes_as(w + seq![' '], seq![TokenView::Word(w)]),
{
    assert forall|rest: Seq<char>| #[trigger]
        lex((w + seq![' ']) + rest) == prepend_all(seq![TokenView::Word(w)], lex(rest)) by {
        let s = (w + seq![' ']) + rest;
        let tail = seq![' '] + rest;
        assert(s =~= w + tail);
        assert(tail[0] == ' ');
        assert(w.len() > 0);
        assert(s[0] == w[0]);
        if is_identifier(w) {
            assert(is_letter(w[0]) || is_digit(w[0]));
            lemma_word_len_prefix(w, tail);
            assert(bare_len(s) == w.len());
        } else {
            assert(is_numeral(w));
            if w[0] == '-' {
                let body = w.skip(1);
                assert(is_unsigned_numeral(body));
                let d = choose|i: int| 0 <= i < body.len() && is_digit(#[trigger] body[i]);
                assert(body.len() > 0);
                assert(is_digit(body[0]) || body[0] == '.');
                assert(s[1] == body[0]);
                assert(s.skip(1) =~= body + tail);
                lemma_word_len_prefix(body, tail);
                assert(bare_len(s) == w.len());
            } else {
                assert(is_unsigned_numeral(w));
                assert(is_digit(w[0]) || w[0] == '.');
                lemma_word_len_prefix(w, tail);
                assert(bare_len(s) == w.len());
            }
        }
        assert(s.take(w.len() as int) =~= w);
        assert(s.skip(w.len() as int) =~= tail);
        assert(tail.skip(1) =~= rest);
        assert(lex(tail) == lex(rest));
        assert(punctuation(s[0]) is None);
        assert(first_token(s) == Some((TokenView::Word(w), w.len() as int)));
    }
}

/// The word that a key was written as.
pub open spec fn key_token(key: Seq<char>) -> TokenView {
    if is_bare_word(key) && !is_keyword(key) {
        TokenView::Word(key)
    } else {
        TokenView::Quoted(key)
    }
}

/// The words of the line of one attribute.
pub open spec fn attr_line_tokens(pair: (Seq<char>, Seq<char>)) -> Seq<TokenView> {
    seq![key_token(pair.0), TokenView::Equals, TokenView::Quoted(pair.1)]
}

/// The words of the lines of a list of attributes.
pub open spec fn attr_lines_tokens(attrs: Seq<(Seq<char>, Seq<char>)>) -> Seq<TokenView>
    decreases attrs.len(),
{
    if attrs.len() == 0 {
        Seq::empty()
    } else {
        attr_line_tokens(attrs[0]) + attr_lines_tokens(attrs.skip(1))
    }
}

/// The words of a bracketed list of attributes.
pub open spec fn bracket_tokens(attrs: Seq<(Seq<char>, Seq<char>)>) -> Seq<TokenView> {
    seq![TokenView::LBracket] + attr_lines_tokens(attrs) + seq![TokenView::RBracket]
}

/// The words of a block of default attributes.
pub open spec fn default_block_tokens(name: Seq<char>, attrs: Seq<(Seq<char>, Seq<char>)>) -> Seq<
    TokenView,
> {
    if attrs.len() == 0 {
        Seq::empty()
    } else {
        seq![TokenView::Word(name)] + bracket_tokens(attrs)
    }
}

/// The words of the block of a node.
pub open spec fn node_block_tokens(node: NodeView) -> Seq<TokenView> {
    seq![TokenView::Quoted(node.id)] + bracket_tokens(node.attributes)
}

/// The words of the blocks of a list of nodes.
pub open spec fn node_blocks_tokens(nodes: Seq<NodeView>) -> Seq<TokenView>
    decreases nodes.len(),
{
    if nodes.len() == 0 {
        Seq::empty()
    } else {
        node_block_tokens(nodes[0]) + node_blocks_tokens(nodes.skip(1))
    }
}

/// The word of the sign of a kind of graph.
pub open spec fn edge_op_token(kind: GraphType) -> TokenView {
    match kind {
        GraphType::Digraph => TokenView::Arrow,
        GraphType::Graph => TokenView::Line,
    }
}

/// The words of the block of an edge.
pub open spec fn edge_block_tokens(kind: GraphType, nodes: Seq<NodeView>, edge: EdgeView) -> Seq<
    TokenView,
> {
    seq![
        TokenView::Quoted(nodes[edge.source as int].id),
        edge_op_token(kind),
        TokenView::Quoted(nodes[edge.target as int].id),
    ] + bracket_tokens(edge.attributes)
}

/// The words of the blocks of a list of edges.
pub open spec fn edge_blocks_tokens(kind: GraphType, nodes: Seq<NodeView>, edges: Seq<EdgeView>) -> Seq<
    TokenView,
>
    decreases edges.len(),
{
    if edges.len() == 0 {
        Seq::empty()
    } else {
        edge_block_tokens(kind, nodes, edges[0]) + edge_blocks_tokens(kind, nodes, edges.skip(1))
    }
}

/// The word of a kind of graph.
pub open spec fn kind_word(kind: GraphType) -> Seq<char> {
    match kind {
        GraphType::Graph => "graph"@,
        GraphType::Digraph => "digraph"@,
    }
}

/// The words of the opening of a text.
pub open spec fn header_tokens(g: GraphView) -> Seq<TokenView> {
    (if g.strict {
        seq![TokenView::Word("strict"@)]
    } else {
        Seq::empty()
    }) + seq![TokenView::Word(kind_word(g.kind))] + (match g.id {
        Some(id) => seq![TokenView::Quoted(id)],
        None => Seq::empty(),
    }) + seq![TokenView::LBrace]
}

/// The words of the text of a graph.
pub open spec fn document_tokens(g: GraphView) -> Seq<TokenView> {
    header_tokens(g) + default_block_tokens("graph"@, g.graph_attributes) + default_block_tokens(
        "node"@,
        g.node_attributes,
    ) + default_block_tokens("edge"@, g.edge_attributes) + node_blocks_tokens(g.nodes)
        + edge_blocks_tokens(g.kind, g.nodes, g.edges) + seq![TokenView::RBrace]
}

/// The words that the language keeps for itself are identifiers.
pub proof fn lemma_kept_words()
    ensures
        is_bare_word("strict"@),
        is_bare_word("graph"@),
        is_bare_word("digraph"@),
        is_bare_word("node"@),
        is_bare_word("edge"@),
        "strict "@ == "strict"@ + seq![' '],
        "graph "@ == "graph"@ + seq![' '],
        "digraph "@ == "digraph"@ + seq![' '],
{
    reveal_strlit("strict");
    reveal_strlit("graph");
    reveal_strlit("digraph");
    reveal_strlit("node");
    reveal_strlit("edge");
    reveal_strlit("strict ");
    reveal_strlit("graph ");
    reveal_strlit("digraph ");
    assert("strict"@ =~= seq!['s', 't', 'r', 'i', 'c', 't']);
    assert("graph"@ =~= seq!['g', 'r', 'a', 'p', 'h']);
    assert("digraph"@ =~= seq!['d', 'i', 'g', 'r', 'a', 'p', 'h']);
    assert("node"@ =~= seq!['n', 'o', 'd', 'e']);
    assert("edge"@ =~= seq!['e', 'd', 'g', 'e']);
    assert(is_identifier("strict"@));
    assert(is_identifier("graph"@));
    assert(is_identifier("digraph"@));
    assert(is_identifier("node"@));
    assert(is_identifier("edge"@));
    assert("strict "@ =~= "strict"@ + seq![' ']);
    assert("graph "@ =~= "graph"@ + seq![' ']);
    assert("digraph "@ =~= "digraph"@ + seq![' ']);
}

/// What the fixed pieces between the words give.
pub proof fn lemma_lexes_fixed()
    ensures
        lexes_as("    "@, Seq::<TokenView>::empty()),
        lexes_as("  "@, Seq::<TokenView>::empty()),
        lexes_as(" "@, Seq::<TokenView>::empty()),
        lexes_as("\n"@, Seq::<TokenView>::empty()),
        lexes_as(" = "@, seq![TokenView::Equals]),
        lexes_as(" [\n"@, seq![TokenView::LBracket]),
        lexes_as("[\n"@, seq![TokenView::LBracket]),
        lexes_as("  ]\n"@, seq![TokenView::RBracket]),
        lexes_as("{\n"@, seq![TokenView::LBrace]),
        lexes_as("}\n"@, seq![TokenView::RBrace]),
{
    reveal_strlit("    ");
    reveal_strlit("  ");
    reveal_strlit(" ");
    reveal_strlit("\n");
    reveal_strlit(" = ");
    reveal_strlit(" [\n");
    reveal_strlit("[\n");
    reveal_strlit("  ]\n");
    reveal_strlit("{\n");
    reveal_strlit("}\n");
    let none = Seq::<TokenView>::empty();
    let sp = seq![' '];
    let nl = seq!['\n'];
    lemma_lexes_spaces("    "@);
    lemma_lexes_spaces("  "@);
    lemma_lexes_spaces(" "@);
    lemma_lexes_spaces("\n"@);
    lemma_lexes_space(' ');
    lemma_lexes_space('\n');
    lemma_lexes_punct('=');
    lemma_lexes_punct('[');
    lemma_lexes_punct(']');
    lemma_lexes_punct('{');
    lemma_lexes_punct('}');
    assert(none + none =~= none);
    // " = "
    lemma_lexes_concat(sp, none, seq!['='], seq![TokenView::Equals]);
    lemma_lexes_concat(sp + seq!['='], none + seq![TokenView::Equals], sp, none);
    assert(" = "@ =~= sp + seq!['='] + sp);
    assert(none + seq![TokenView::Equals] + none =~= seq![TokenView::Equals]);
    // "[\n"
    lemma_lexes_concat(seq!['['], seq![TokenView::LBracket], nl, none);
    assert("[\n"@ =~= seq!['['] + nl);
    assert(seq![TokenView::LBracket] + none =~= seq![TokenView::LBracket]);
    // " [\n"
    lemma_lexes_concat(sp, none, seq!['['] + nl, seq![TokenView::LBracket]);
    assert(" [\n"@ =~= sp + (seq!['['] + nl));
    assert(none + seq![TokenView::LBracket] =~= seq![TokenView::LBracket]);
    // "  ]\n"
    lemma_lexes_concat(seq![']'], seq![TokenView::RBracket], nl, none);
    lemma_lexes_concat("  "@, none, seq![']'] + nl, seq![TokenView::RBracket] + none);
    assert("  ]\n"@ =~= "  "@ + (seq![']'] + nl));
    assert(none + (seq![TokenView::RBracket] + none) =~= seq![TokenView::RBracket]);
    // "{\n"
    lemma_lexes_concat(seq!['{'], seq![TokenView::LBrace], nl, none);
    assert("{\n"@ =~= seq!['{'] + nl);
    assert(seq![TokenView::LBrace] + none =~= seq![TokenView::LBrace]);
    // "}\n"
    lemma_lexes_concat(seq!['}'], seq![TokenView::RBrace], nl, none);
    assert("}\n"@ =~= seq!['}'] + nl);
    assert(seq![TokenView::RBrace] + none =~= seq![TokenView::RBrace]);
}

/// A key as the text shows it, with a space after it, gives the word of the
/// key.
pub proof fn lemma_lexes_key(key: Seq<char>)
    ensures
        lexes_as(key_text(key) + " "@, seq![key_token(key)]),
{
    reveal_strlit(" ");
    assert(" "@ =~= seq![' ']);
    if is_bare_word(key) && !is_keyword(key) {
        lemma_lexes_word(key);
    } else {
        lemma_lexes_quoted(key);
        lemma_lexes_fixed();
        lemma_lexes_concat(
            quote(key),
            seq![TokenView::Quoted(key)],
            " "@,
            Seq::<TokenView>::empty(),
        );
        assert(seq![TokenView::Quoted(key)] + Seq::<TokenView>::empty() =~= seq![
            TokenView::Quoted(key),
        ]);
    }
}

/// The line of an attribute gives its key, the sign and its value.
pub proof fn lemma_lexes_attr_line(pair: (Seq<char>, Seq<char>))
    ensures
        lexes_as(attr_line(pair), attr_line_tokens(pair)),
{
    let none = Seq::<TokenView>::empty();
    reveal_strlit(" = ");
    reveal_strlit(" ");
    reveal_strlit("=");
    lemma_lexes_fixed();
    lemma_lexes_key(pair.0);
    lemma_lexes_punct('=');
    lemma_lexes_quoted(pair.1);
    let a = "    "@;
    let b = key_text(pair.0) + " "@;
    let c = seq!['='];
    let d = " "@;
    let e = quote(pair.1);
    let f = "\n"@;
    let kt = seq![key_token(pair.0)];
    let eq = seq![TokenView::Equals];
    let vt = seq![TokenView::Quoted(pair.1)];
    lemma_lexes_concat(a, none, b, kt);
    lemma_lexes_concat(a + b, none + kt, c, eq);
    lemma_lexes_concat(a + b + c, none + kt + eq, d, none);
    lemma_lexes_concat(a + b + c + d, none + kt + eq + none, e, vt);
    lemma_lexes_concat(a + b + c + d + e, none + kt + eq + none + vt, f, none);
    assert(" = "@ =~= " "@ + c + d);
    assert(attr_line(pair) =~= a + b + c + d + e + f);
    assert(none + kt + eq + none + vt + none =~= attr_line_tokens(pair));
}

/// The lines of a list of attributes give the words of each line in turn.
pub proof fn lemma_lexes_attr_lines(attrs: Seq<(Seq<char>, Seq<char>)>)
    ensures
        lexes_as(attr_lines(attrs), attr_lines_tokens(attrs)),
    decreases attrs.len(),
{
    if attrs.len() == 0 {
        lemma_lexes_empty();
    } else {
        lemma_lexes_attr_line(attrs[0]);
        lemma_lexes_attr_lines(attrs.skip(1));
        lemma_lexes_concat(
            attr_line(attrs[0]),
            attr_line_tokens(attrs[0]),
            attr_lines(attrs.skip(1)),
            attr_lines_tokens(attrs.skip(1)),
        );
    }
}

/// An opening bracket, the lines of a list of attributes and the closing
/// bracket give the words of the bracketed list.
pub proof fn lemma_lexes_bracket(open: Seq<char>, attrs: Seq<(Seq<char>, Seq<char>)>)
    requires
        lexes_as(open, seq![TokenView::LBracket]),
    ensures
        lexes_as(open + attr_lines(attrs) + "  ]\n"@, bracket_tokens(attrs)),
{
    lemma_lexes_fixed();
    lemma_lexes_attr_lines(attrs);
    lemma_lexes_concat(open, seq![TokenView::LBracket], attr_lines(attrs), attr_lines_tokens(attrs));
    lemma_lexes_concat(
        open + attr_lines(attrs),
        seq![TokenView::LBracket] + attr_lines_tokens(attrs),
        "  ]\n"@,
        seq![TokenView::RBracket],
    );
}

/// A block of default attributes gives its name and the bracketed list.
pub proof fn lemma_lexes_default_block(name: Seq<char>, attrs: Seq<(Seq<char>, Seq<char>)>)
    requires
        is_bare_word(name),
    ensures
        lexes_as(default_block(name, attrs), default_block_tokens(name, attrs)),
{
    if attrs.len() == 0 {
        lemma_lexes_empty();
    } else {
        let none = Seq::<TokenView>::empty();
        reveal_strlit(" [\n");
        reveal_strlit("[\n");
        reveal_strlit(" ");
        lemma_lexes_fixed();
        lemma_lexes_word(name);
        lemma_lexes_bracket("[\n"@, attrs);
        let a = "  "@;
        let b = name + seq![' '];
        let c = "[\n"@ + attr_lines(attrs) + "  ]\n"@;
        lemma_lexes_concat(a, none, b, seq![TokenView::Word(name)]);
        lemma_lexes_concat(a + b, none + seq![TokenView::Word(name)], c, bracket_tokens(attrs));
        assert(" [\n"@ =~= seq![' '] + "[\n"@);
        assert(default_block(name, attrs) =~= a + b + c);
        assert(none + seq![TokenView::Word(name)] + bracket_tokens(attrs) =~= default_block_tokens(
            name,
            attrs,
        ));
    }
}

/// The block of a node gives its id and the bracketed list.
pub proof fn lemma_lexes_node_block(node: NodeView)
    ensures
        lexes_as(node_block(node), node_block_tokens(node)),
{
    let none = Seq::<TokenView>::empty();
    lemma_lexes_fixed();
    lemma_lexes_quoted(node.id);
    lemma_lexes_bracket(" [\n"@, node.attributes);
    let a = "  "@;
    let b = quote(node.id);
    let c = " [\n"@ + attr_lines(node.attributes) + "  ]\n"@;
    let id = seq![TokenView::Quoted(node.id)];
    lemma_lexes_concat(a, none, b, id);
    lemma_lexes_concat(a + b, none + id, c, bracket_tokens(node.attributes));
    assert(node_block(node) =~= a + b + c);
    assert(none + id + bracket_tokens(node.attributes) =~= node_block_tokens(node));
}

/// The blocks of a list of nodes give the words of each block in turn.
pub proof fn lemma_lexes_node_blocks(nodes: Seq<NodeView>)
    ensures
        lexes_as(node_blocks(nodes), node_blocks_tokens(nodes)),
    decreases nodes.len(),
{
    if nodes.len() == 0 {
        lemma_lexes_empty();
    } else {
        lemma_lexes_node_block(nodes[0]);
        lemma_lexes_node_blocks(nodes.skip(1));
        lemma_lexes_concat(
            node_block(nodes[0]),
            node_block_tokens(nodes[0]),
            node_blocks(nodes.skip(1)),
            node_blocks_tokens(nodes.skip(1)),
        );
    }
}

/// The block of an edge gives the ids of its ends around the sign, and the
/// bracketed list.
pub proof fn lemma_lexes_edge_block(kind: GraphType, nodes: Seq<NodeView>, edge: EdgeView)
    ensures
        lexes_as(edge_block(kind, nodes, edge), edge_block_tokens(kind, nodes, edge)),
{
    let none = Seq::<TokenView>::empty();
    let source = nodes[edge.source as int].id;
    let target = nodes[edge.target as int].id;
    lemma_lexes_fixed();
    lemma_lexes_quoted(source);
    lemma_lexes_quoted(target);
    lemma_lexes_edge_op(kind);
    lemma_lexes_bracket("[\n"@, edge.attributes);
    let a = "  "@;
    let b = quote(source);
    let c = " "@;
    let d = edge_op(kind);
    let e = quote(target);
    let f = "[\n"@ + attr_lines(edge.attributes) + "  ]\n"@;
    let st = seq![TokenView::Quoted(source)];
    let op = seq![edge_op_token(kind)];
    let tt = seq![TokenView::Quoted(target)];
    let bt = bracket_tokens(edge.attributes);
    lemma_lexes_concat(a, none, b, st);
    lemma_lexes_concat(a + b, none + st, c, none);
    lemma_lexes_concat(a + b + c, none + st + none, d, op);
    lemma_lexes_concat(a + b + c + d, none + st + none + op, c, none);
    lemma_lexes_concat(a + b + c + d + c, none + st + none + op + none, e, tt);
    lemma_lexes_concat(a + b + c + d + c + e, none + st + none + op + none + tt, f, bt);
    assert(edge_block(kind, nodes, edge) =~= a + b + c + d + c + e + f);
    assert(none + st + none + op + none + tt + bt =~= edge_block_tokens(kind, nodes, edge));
}

/// The blocks of a list of edges give the words of each block in turn.
pub proof fn lemma_lexes_edge_blocks(kind: GraphType, nodes: Seq<NodeView>, edges: Seq<EdgeView>)
    ensures
        lexes_as(edge_blocks(kind, nodes, edges), edge_blocks_tokens(kind, nodes, edges)),
    decreases edges.len(),
{
    if edges.len() == 0 {
        lemma_lexes_empty();
    } else {
        lemma_lexes_edge_block(kind, nodes, edges[0]);
        lemma_lexes_edge_blocks(kind, nodes, edges.skip(1));
        lemma_lexes_concat(
            edge_block(kind, nodes, edges[0]),
            edge_block_tokens(kind, nodes, edges[0]),
            edge_blocks(kind, nodes, edges.skip(1)),
            edge_blocks_tokens(kind, nodes, edges.skip(1)),
        );
    }
}

/// The opening of a text gives `strict` where it is there, the word of the
/// kind, the id where there is one, and the brace.
pub proof fn lemma_lexes_header(g: GraphView)
    ensures
        lexes_as(header(g), header_tokens(g)),
{
    let none = Seq::<TokenView>::empty();
    lemma_kept_words();
    lemma_lexes_fixed();
    lemma_lexes_empty();
    lemma_lexes_word("strict"@);
    lemma_lexes_word("graph"@);
    lemma_lexes_word("digraph"@);
    let a = if g.strict {
        "strict "@
    } else {
        Seq::<char>::empty()
    };
    let ta = if g.strict {
        seq![TokenView::Word("strict"@)]
    } else {
        none
    };
    let b = match g.kind {
        GraphType::Graph => "graph "@,
        GraphType::Digraph => "digraph "@,
    };
    let tb = seq![TokenView::Word(kind_word(g.kind))];
    let c = match g.id {
        Some(id) => quote(id) + " "@,
        None => Seq::<char>::empty(),
    };
    let tc = match g.id {
        Some(id) => seq![TokenView::Quoted(id)],
        None => none,
    };
    match g.id {
        Some(id) => {
            lemma_lexes_quoted(id);
            lemma_lexes_concat(quote(id), seq![TokenView::Quoted(id)], " "@, none);
            assert(seq![TokenView::Quoted(id)] + none =~= seq![TokenView::Quoted(id)]);
        },
        None => {},
    }
    assert(lexes_as(a, ta));
    assert(lexes_as(b, tb));
    assert(lexes_as(c, tc));
    lemma_lexes_concat(a, ta, b, tb);
    lemma_lexes_concat(a + b, ta + tb, c, tc);
    lemma_lexes_concat(a + b + c, ta + tb + tc, "{\n"@, seq![TokenView::LBrace]);
}

/// The words of the text of a graph are the words it was written from.
pub proof fn lemma_lex_document(g: GraphView)
    ensures
        lex(document(g)) == Some(document_tokens(g)),
{
    lemma_kept_words();
    lemma_lexes_fixed();
    lemma_lexes_header(g);
    lemma_lexes_default_block("graph"@, g.graph_attributes);
    lemma_lexes_default_block("node"@, g.node_attributes);
    lemma_lexes_default_block("edge"@, g.edge_attributes);
    lemma_lexes_node_blocks(g.nodes);
    lemma_lexes_edge_blocks(g.kind, g.nodes, g.edges);
    let a = header(g);
    let ta = header_tokens(g);
    let b = default_block("graph"@, g.graph_attributes);
    let tb = default_block_tokens("graph"@, g.graph_attributes);
    let c = default_block("node"@, g.node_attributes);
    let tc = default_block_tokens("node"@, g.node_attributes);
    let d = default_block("edge"@, g.edge_attributes);
    let td = default_block_tokens("edge"@, g.edge_attributes);
    let e = node_blocks(g.nodes);
    let te = node_blocks_tokens(g.nodes);
    let f = edge_blocks(g.kind, g.nodes, g.edges);
    let tf = edge_blocks_tokens(g.kind, g.nodes, g.edges);
    let z = "}\n"@;
    let tz = seq![TokenView::RBrace];
    lemma_lexes_concat(a, ta, b, tb);
    lemma_lexes_concat(a + b, ta + tb, c, tc);
    lemma_lexes_concat(a + b + c, ta + tb + tc, d, td);
    lemma_lexes_concat(a + b + c + d, ta + tb + tc + td, e, te);
    lemma_lexes_concat(a + b + c + d + e, ta + tb + tc + td + te, f, tf);
    lemma_lexes_concat(a + b + c + d + e + f, ta + tb + tc + td + te + tf, z, tz);
    let none = Seq::<char>::empty();
    assert(document(g) + none =~= document(g));
    assert(lex(document(g) + none) == prepend_all(document_tokens(g), lex(none)));
    assert(document_tokens(g) + Seq::<TokenView>::empty() =~= document_tokens(g));
}

} // verus!
