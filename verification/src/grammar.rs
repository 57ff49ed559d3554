//! The grammar of the dot language over its words: a graph is a header and a
//! list of statements between braces. Subgraphs and ports are no part of it.

use vstd::prelude::*;
use crate::attributes::{put, Attributes};
use crate::dot::{
    statement_views, string_views, AttributeType, EdgeInternal, EdgeInternalView, GlobalAttribute,
    GlobalAttributeView, GraphInternal, GraphInternalView, Statement, StatementView,
};
use crate::graph::{GraphType, Node, NodeView};
use crate::lexer::{lex, token_views, tokenize, ParseError, Token, TokenView};
use crate::render::{is_keyword, keyword};
use crate::text::str_eq;

verus! {

/// The id that a word stands for: a quoted string for its inside, a bare
/// word for itself unless the language keeps it for itself.
pub open spec fn id_value(t: TokenView) -> Option<Seq<char>> {
    match t {
        TokenView::Word(w) => if is_keyword(w) {
            None
        } else {
            Some(w)
        },
        TokenView::Quoted(q) => Some(q),
        _ => None,
    }
}

/// The list of default attributes that a word names.
pub open spec fn default_kind(t: TokenView) -> Option<AttributeType> {
    match t {
        TokenView::Word(w) => if w == "graph"@ {
            Some(AttributeType::Graph)
        } else if w == "node"@ {
            Some(AttributeType::Node)
        } else if w == "edge"@ {
            Some(AttributeType::Edge)
        } else {
            None
        },
        _ => None,
    }
}

/// The kind of graph that a word names.
pub open spec fn graph_kind(t: TokenView) -> Option<GraphType> {
    match t {
        TokenView::Word(w) => if w == "graph"@ {
            Some(GraphType::Graph)
        } else if w == "digraph"@ {
            Some(GraphType::Digraph)
        } else {
            None
        },
        _ => None,
    }
}

/// Whether a word is one of the signs that join the nodes of an edge.
pub open spec fn is_edge_op(t: TokenView) -> bool {
    t is Arrow || t is Line
}

/// A result that took `k` more words.
pub open spec fn advanced<T>(r: Option<(T, int)>, k: int) -> Option<(T, int)> {
    match r {
        Some((v, n)) => Some((v, n + k)),
        None => None,
    }
}

/// Reads the inside of a bracketed list up to the closing bracket: zero or
/// more of `id = id`, each with a semicolon or a comma after it or not. Each
/// is put into `acc`, so that of two values for one key the later stays.
/// Gives the attributes and how many words were taken, the bracket among
/// them.
pub open spec fn a_list(ts: Seq<TokenView>, acc: Seq<(Seq<char>, Seq<char>)>) -> Option<
    (Seq<(Seq<char>, Seq<char>)>, int),
>
    decreases ts.len(),
{
    if ts.len() == 0 {
        None
    } else if ts[0] is RBracket {
        Some((acc, 1))
    } else if ts.len() >= 3 && id_value(ts[0]) is Some && ts[1] is Equals && id_value(ts[2])
        is Some {
        let used = if ts.len() > 3 && (ts[3] is Semicolon || ts[3] is Comma) {
            4int
        } else {
            3int
        };
        advanced(a_list(ts.skip(used), put(acc, id_value(ts[0])->0, id_value(ts[2])->0)), used)
    } else {
        None
    }
}

/// Reads bracketed lists as long as an opening bracket follows, all into
/// one list of attributes. Gives the attributes and how many words were
/// taken.
pub open spec fn attr_lists(ts: Seq<TokenView>, acc: Seq<(Seq<char>, Seq<char>)>) -> Option<
    (Seq<(Seq<char>, Seq<char>)>, int),
>
    decreases ts.len(),
{
    if ts.len() > 0 && ts[0] is LBracket {
        match a_list(ts.skip(1), acc) {
            Some((attrs, n)) => if 0 < n < ts.len() {
                advanced(attr_lists(ts.skip(n + 1), attrs), n + 1)
            } else {
                None
            },
            None => None,
        }
    } else {
        Some((acc, 0))
    }
}

/// Reads the rest of a chain of nodes: as long as an edge sign follows, the
/// sign and the id after it. Gives `acc` with those ids after it and how
/// many words were taken.
pub open spec fn chain_rest(ts: Seq<TokenView>, acc: Seq<Seq<char>>) -> Option<
    (Seq<Seq<char>>, int),
>
    decreases ts.len(),
{
    if ts.len() > 0 && is_edge_op(ts[0]) {
        if ts.len() >= 2 && id_value(ts[1]) is Some {
            advanced(chain_rest(ts.skip(2), acc.push(id_value(ts[1])->0)), 2)
        } else {
            None
        }
    } else {
        Some((acc, 0))
    }
}

/// Reads one statement from the start of `ts`, and gives it with the number
/// of words it took:
/// - `graph`, `node` or `edge` with one or more bracketed lists sets default
///   attributes;
/// - `id = id` sets one default attribute of the graph;
/// - an id, with bracketed lists or without, states a node;
/// - ids joined by edge signs, with bracketed lists or without, state a
///   chain of edges.
pub open spec fn statement(ts: Seq<TokenView>) -> Option<(StatementView, int)> {
    if ts.len() == 0 {
        None
    } else if default_kind(ts[0]) is Some {
        if ts.len() >= 2 && ts[1] is LBracket {
            match attr_lists(ts.skip(1), Seq::empty()) {
                Some((attrs, n)) => Some(
                    (
                        StatementView::GlobalAttribute(
                            GlobalAttributeView { kind: default_kind(ts[0])->0, attributes: attrs },
                        ),
                        n + 1,
                    ),
                ),
                None => None,
            }
        } else {
            None
        }
    } else if id_value(ts[0]) is Some {
        if ts.len() >= 3 && ts[1] is Equals && id_value(ts[2]) is Some {
            Some(
                (
                    StatementView::GlobalAttribute(
                        GlobalAttributeView {
                            kind: AttributeType::Graph,
                            attributes: seq![(id_value(ts[0])->0, id_value(ts[2])->0)],
                        },
                    ),
                    3,
                ),
            )
        } else {
            match chain_rest(ts.skip(1), seq![id_value(ts[0])->0]) {
                Some((ids, n)) => if 0 <= n < ts.len() {
                    match attr_lists(ts.skip(n + 1), Seq::empty()) {
                        Some((attrs, m)) => Some(
                            (
                                if ids.len() == 1 {
                                    StatementView::Node(
                                        NodeView { id: id_value(ts[0])->0, attributes: attrs },
                                    )
                                } else {
                                    StatementView::Edge(
                                        EdgeInternalView { attributes: attrs, nodes: ids },
                                    )
                                },
                                n + 1 + m,
                            ),
                        ),
                        None => None,
                    }
                } else {
                    None
                },
                None => None,
            }
        }
    } else {
        None
    }
}

/// Reads statements up to the closing brace, each with a semicolon after it
/// or not. Gives the statements and how many words were taken, the brace
/// among them.
pub open spec fn statements(ts: Seq<TokenView>) -> Option<(Seq<StatementView>, int)>
    decreases ts.len(),
{
    if ts.len() == 0 {
        None
    } else if ts[0] is RBrace {
        Some((Seq::empty(), 1))
    } else {
        match statement(ts) {
            Some((first, n)) => if 0 < n <= ts.len() {
                let used = if n < ts.len() && ts[n] is Semicolon {
                    n + 1
                } else {
                    n
                };
                match statements(ts.skip(used)) {
                    Some((rest, m)) => Some((seq![first] + rest, used + m)),
                    None => None,
                }
            } else {
                None
            },
            None => None,
        }
    }
}

/// The graph that the words `ts` state, if they state one: `strict` or not,
/// `graph` or `digraph`, an id or not, and the statements between braces,
/// with no word after the closing brace.
pub open spec fn graph_of(ts: Seq<TokenView>) -> Option<GraphInternalView> {
    let strict = ts.len() > 0 && ts[0] == TokenView::Word("strict"@);
    let a = if strict {
        1int
    } else {
        0int
    };
    if ts.len() > a && graph_kind(ts[a]) is Some {
        let named = ts.len() > a + 1 && id_value(ts[a + 1]) is Some;
        let b = if named {
            a + 2
        } else {
            a + 1
        };
        if ts.len() > b && ts[b] is LBrace {
            match statements(ts.skip(b + 1)) {
                Some((found, n)) => if b + 1 + n == ts.len() {
                    Some(
                        GraphInternalView {
                            strict: strict,
                            kind: graph_kind(ts[a])->0,
                            id: if named {
                                id_value(ts[a + 1])
                            } else {
                                None
                            },
                            statements: found,
                        },
                    )
                } else {
                    None
                },
                None => None,
            }
        } else {
            None
        }
    } else {
        None
    }
}

/// The graph that the text `s` states, if it states one.
pub open spec fn graph_spec(s: Seq<char>) -> Option<GraphInternalView> {
    match lex(s) {
        Some(ts) => graph_of(ts),
        None => None,
    }
}

/// What was read lies inside the words.
pub proof fn lemma_a_list_bounds(ts: Seq<TokenView>, acc: Seq<(Seq<char>, Seq<char>)>)
    ensures
        a_list(ts, acc) matches Some((_, n)) ==> 0 < n <= ts.len(),
    decreases ts.len(),
{
    if ts.len() == 0 {
    } else if ts[0] is RBracket {
    } else if ts.len() >= 3 && id_value(ts[0]) is Some && ts[1] is Equals && id_value(ts[2])
        is Some {
        let used = if ts.len() > 3 && (ts[3] is Semicolon || ts[3] is Comma) {
            4int
        } else {
            3int
        };
        lemma_a_list_bounds(ts.skip(used), put(acc, id_value(ts[0])->0, id_value(ts[2])->0));
    }
}

/// The id that a word stands for.
fn token_id(token: &Token) -> (found: Option<String>)
    ensures
        match id_value(token@) {
            Some(id) => found matches Some(s) && s@ == id,
            None => found is None,
        },
{
    match token {
        Token::Word(w) => if keyword(w.as_str()) {
            None
        } else {
            Some(w.clone())
        },
        Token::Quoted(q) => Some(q.clone()),
        _ => None,
    }
}

/// Whether a word is a bare word with the characters of `text`.
fn is_word(token: &Token, text: &str) -> (yes: bool)
    ensures
        yes == (token@ == TokenView::Word(text@)),
{
    match token {
        Token::Word(w) => str_eq(w.as_str(), text),
        _ => false,
    }
}

fn is_lbracket(token: &Token) -> (yes: bool)
    ensures
        yes == (token@ is LBracket),
{
    match token {
        Token::LBracket => true,
        _ => false,
    }
}

fn is_rbracket(token: &Token) -> (yes: bool)
    ensures
        yes == (token@ is RBracket),
{
    match token {
        Token::RBracket => true,
        _ => false,
    }
}

fn is_lbrace(token: &Token) -> (yes: bool)
    ensures
        yes == (token@ is LBrace),
{
    match token {
        Token::LBrace => true,
        _ => false,
    }
}

fn is_rbrace(token: &Token) -> (yes: bool)
    ensures
        yes == (token@ is RBrace),
{
    match token {
        Token::RBrace => true,
        _ => false,
    }
}

fn is_equals(token: &Token) -> (yes: bool)
    ensures
        yes == (token@ is Equals),
{
    match token {
        Token::Equals => true,
        _ => false,
    }
}

fn is_semicolon(token: &Token) -> (yes: bool)
    ensures
        yes == (token@ is Semicolon),
{
    match token {
        Token::Semicolon => true,
        _ => false,
    }
}

fn is_comma(token: &Token) -> (yes: bool)
    ensures
        yes == (token@ is Comma),
{
    match token {
        Token::Comma => true,
        _ => false,
    }
}

fn edge_op(token: &Token) -> (yes: bool)
    ensures
        yes == is_edge_op(token@),
{
    match token {
        Token::Arrow => true,
        Token::Line => true,
        _ => false,
    }
}

/// The list of default attributes that a word names.
fn token_default_kind(token: &Token) -> (found: Option<AttributeType>)
    ensures
        found == default_kind(token@),
{
    if is_word(token, "graph") {
        Some(AttributeType::Graph)
    } else if is_word(token, "node") {
        Some(AttributeType::Node)
    } else if is_word(token, "edge") {
        Some(AttributeType::Edge)
    } else {
        None
    }
}

/// The kind of graph that a word names.
fn token_graph_kind(token: &Token) -> (found: Option<GraphType>)
    ensures
        found == graph_kind(token@),
{
    if is_word(token, "graph") {
        Some(GraphType::Graph)
    } else if is_word(token, "digraph") {
        Some(GraphType::Digraph)
    } else {
        None
    }
}

/// Reads the inside of a bracketed list from `start` on into `attrs`, and
/// gives the place after the closing bracket.
fn parse_a_list(tokens: &Vec<Token>, start: usize, attrs: &mut Attributes) -> (found: Option<usize>)
    requires
        start <= tokens@.len(),
    ensures
        match a_list(token_views(tokens@).skip(start as int), old(attrs)@) {
            Some((all, n)) => found matches Some(next) && final(attrs)@ == all && next == start + n
                && start < next <= tokens@.len(),
            None => found is None,
        },
{
    let ghost ts = token_views(tokens@);
    let n = tokens.len();
    let mut pos: usize = start;
    loop
        invariant
            n == tokens@.len(),
            ts == token_views(tokens@),
            start <= pos <= n,
            a_list(ts.skip(start as int), old(attrs)@) == advanced(
                a_list(ts.skip(pos as int), attrs@),
                pos - start,
            ),
        decreases n - pos,
    {
        let ghost rest = ts.skip(pos as int);
        proof {
            lemma_a_list_bounds(rest, attrs@);
            assert(rest.len() == n - pos);
            assert forall|k: int| 0 <= k < rest.len() implies rest[k] == tokens@[pos + k]@ by {}
        }
        if pos >= n {
            return None;
        }
        if is_rbracket(&tokens[pos]) {
            return Some(pos + 1);
        }
        if n - pos <= 2 {
            return None;
        }
        let key = token_id(&tokens[pos]);
        let value = token_id(&tokens[pos + 2]);
        if !is_equals(&tokens[pos + 1]) {
            return None;
        }
        match (key, value) {
            (Some(key), Some(value)) => {
                let used: usize = if n - pos > 3 && (is_semicolon(&tokens[pos + 3]) || is_comma(
                    &tokens[pos + 3],
                )) {
                    4
                } else {
                    3
                };
                proof {
                    assert(rest.skip(used as int) =~= ts.skip(pos + used));
                }
                attrs.insert(key, value);
                pos += used;
            },
            _ => {
                return None;
            },
        }
    }
}

/// Reads bracketed lists from `start` on, as long as one follows.
fn parse_attr_lists(tokens: &Vec<Token>, start: usize) -> (found: Option<(Attributes, usize)>)
    requires
        start <= tokens@.len(),
    ensures
        match attr_lists(
            token_views(tokens@).skip(start as int),
            Seq::<(Seq<char>, Seq<char>)>::empty(),
        ) {
            Some((all, n)) => found matches Some((a, next)) && a@ == all && next == start + n
                && start <= next <= tokens@.len(),
            None => found is None,
        },
{
    let ghost ts = token_views(tokens@);
    let n = tokens.len();
    let mut attrs = Attributes::new();
    let mut pos: usize = start;
    loop
        invariant
            n == tokens@.len(),
            ts == token_views(tokens@),
            start <= pos <= n,
            attr_lists(ts.skip(start as int), Seq::<(Seq<char>, Seq<char>)>::empty()) == advanced(
                attr_lists(ts.skip(pos as int), attrs@),
                pos - start,
            ),
        decreases n - pos,
    {
        let ghost rest = ts.skip(pos as int);
        proof {
            assert(rest.len() == n - pos);
            assert forall|k: int| 0 <= k < rest.len() implies rest[k] == tokens@[pos + k]@ by {}
            if pos < n {
                assert(rest.skip(1) =~= ts.skip(pos + 1));
            }
        }
        if pos >= n || !is_lbracket(&tokens[pos]) {
            return Some((attrs, pos));
        }
        match parse_a_list(tokens, pos + 1, &mut attrs) {
            Some(next) => {
                proof {
                    assert(rest.skip(next - pos) =~= ts.skip(next as int));
                }
                pos = next;
            },
            None => {
                return None;
            },
        }
    }
}

/// Reads the rest of a chain of nodes from `start` on, after `ids`, and
/// gives the place after it.
fn parse_chain_rest(tokens: &Vec<Token>, start: usize, ids: &mut Vec<String>) -> (found: Option<
    usize,
>)
    requires
        start <= tokens@.len(),
    ensures
        match chain_rest(token_views(tokens@).skip(start as int), string_views(old(ids)@)) {
            Some((all, n)) => found matches Some(next) && string_views(final(ids)@) == all && next
                == start + n && start <= next <= tokens@.len(),
            None => found is None,
        },
{
    let ghost ts = token_views(tokens@);
    let n = tokens.len();
    let mut pos: usize = start;
    loop
        invariant
            n == tokens@.len(),
            ts == token_views(tokens@),
            start <= pos <= n,
            chain_rest(ts.skip(start as int), string_views(old(ids)@)) == advanced(
                chain_rest(ts.skip(pos as int), string_views(ids@)),
                pos - start,
            ),
        decreases n - pos,
    {
        let ghost rest = ts.skip(pos as int);
        proof {
            assert(rest.len() == n - pos);
            assert forall|k: int| 0 <= k < rest.len() implies rest[k] == tokens@[pos + k]@ by {}
        }
        if pos >= n || !edge_op(&tokens[pos]) {
            return Some(pos);
        }
        if n - pos <= 1 {
            return None;
        }
        match token_id(&tokens[pos + 1]) {
            Some(id) => {
                proof {
                    assert(rest.skip(2) =~= ts.skip(pos + 2));
                    assert(string_views(ids@.push(id)) =~= string_views(ids@).push(id@));
                }
                ids.push(id);
                pos += 2;
            },
            None => {
                return None;
            },
        }
    }
}

/// Reads one statement from `start` on.
fn parse_statement(tokens: &Vec<Token>, start: usize) -> (found: Option<(Statement, usize)>)
    requires
        start <= tokens@.len(),
    ensures
        match statement(token_views(tokens@).skip(start as int)) {
            Some((st, n)) => found matches Some((s, next)) && s@ == st && next == start + n && start
                < next <= tokens@.len(),
            None => found is None,
        },
{
    let ghost ts = token_views(tokens@);
    let ghost rest = ts.skip(start as int);
    let n = tokens.len();
    proof {
        assert(rest.len() == n - start);
        assert forall|k: int| 0 <= k < rest.len() implies rest[k] == tokens@[start + k]@ by {}
        if start < n {
            assert(rest.skip(1) =~= ts.skip(start + 1));
        }
    }
    if start >= n {
        return None;
    }
    match token_default_kind(&tokens[start]) {
        Some(kind) => {
            if n - start <= 1 || !is_lbracket(&tokens[start + 1]) {
                return None;
            }
            match parse_attr_lists(tokens, start + 1) {
                Some((attrs, next)) => Some(
                    (Statement::GlobalAttribute(GlobalAttribute::new(kind, attrs)), next),
                ),
                None => None,
            }
        },
        None => {
            match token_id(&tokens[start]) {
                Some(first) => {
                    if n - start > 2 && is_equals(&tokens[start + 1]) {
                        match token_id(&tokens[start + 2]) {
                            Some(value) => {
                                let mut attrs = Attributes::new();
                                attrs.insert(first, value);
                                assert(attrs@ =~= seq![
                                    (id_value(rest[0])->0, id_value(rest[2])->0),
                                ]);
                                return Some(
                                    (
                                        Statement::GlobalAttribute(
                                            GlobalAttribute::new(AttributeType::Graph, attrs),
                                        ),
                                        start + 3,
                                    ),
                                );
                            },
                            None => {},
                        }
                    }
                    let ghost id = first@;
                    let mut ids: Vec<String> = Vec::new();
                    let kept = first.clone();
                    ids.push(first);
                    assert(string_views(ids@) =~= seq![id]);
                    match parse_chain_rest(tokens, start + 1, &mut ids) {
                        Some(after) => {
                            proof {
                                assert(rest.skip(after - start) =~= ts.skip(after as int));
                            }
                            match parse_attr_lists(tokens, after) {
                                Some((attrs, next)) => {
                                    if ids.len() == 1 {
                                        Some((Statement::Node(Node::new(kept, attrs)), next))
                                    } else {
                                        Some(
                                            (
                                                Statement::Edge(
                                                    EdgeInternal { attributes: attrs, nodes: ids },
                                                ),
                                                next,
                                            ),
                                        )
                                    }
                                },
                                None => None,
                            }
                        },
                        None => None,
                    }
                },
                None => None,
            }
        },
    }
}

/// Reads statements from `start` on, up to the closing brace.
fn parse_statements(tokens: &Vec<Token>, start: usize) -> (found: Option<(Vec<Statement>, usize)>)
    requires
        start <= tokens@.len(),
    ensures
        match statements(token_views(tokens@).skip(start as int)) {
            Some((all, n)) => found matches Some((v, next)) && statement_views(v@) == all && next
                == start + n && start < next <= tokens@.len(),
            None => found is None,
        },
{
    let ghost ts = token_views(tokens@);
    let n = tokens.len();
    let mut found: Vec<Statement> = Vec::new();
    let mut pos: usize = start;
    assert(statement_views(found@) =~= Seq::<StatementView>::empty());
    loop
        invariant
            n == tokens@.len(),
            ts == token_views(tokens@),
            start <= pos <= n,
            statements(ts.skip(start as int)) == (match statements(ts.skip(pos as int)) {
                Some((rest, m)) => Some((statement_views(found@) + rest, m + (pos - start))),
                None => None,
            }),
        decreases n - pos,
    {
        let ghost rest = ts.skip(pos as int);
        proof {
            assert(rest.len() == n - pos);
            assert forall|k: int| 0 <= k < rest.len() implies rest[k] == tokens@[pos + k]@ by {}
        }
        if pos >= n {
            return None;
        }
        if is_rbrace(&tokens[pos]) {
            assert(statement_views(found@) + Seq::<StatementView>::empty() =~= statement_views(
                found@,
            ));
            return Some((found, pos + 1));
        }
        match parse_statement(tokens, pos) {
            Some((st, after)) => {
                let next = if after < n && is_semicolon(&tokens[after]) {
                    after + 1
                } else {
                    after
                };
                proof {
                    let done = statement_views(found@);
                    assert(rest.skip(next - pos) =~= ts.skip(next as int));
                    assert(statement_views(found@.push(st)) =~= done.push(st@));
                    match statements(ts.skip(next as int)) {
                        Some((more, m)) => {
                            assert(done + (seq![st@] + more) =~= done.push(st@) + more);
                        },
                        None => {},
                    }
                }
                found.push(st);
                pos = next;
            },
            None => {
                return None;
            },
        }
    }
}

/// The graph that a list of words states.
fn graph_from_tokens(tokens: &Vec<Token>) -> (found: Option<GraphInternal>)
    ensures
        match graph_of(token_views(tokens@)) {
            Some(g) => found matches Some(gi) && gi@ == g,
            None => found is None,
        },
{
    let ghost ts = token_views(tokens@);
    let n = tokens.len();
    proof {
        assert forall|k: int| 0 <= k < ts.len() implies ts[k] == tokens@[k]@ by {}
    }
    let strict = n > 0 && is_word(&tokens[0], "strict");
    let a: usize = if strict {
        1
    } else {
        0
    };
    if a >= n {
        return None;
    }
    let kind = match token_graph_kind(&tokens[a]) {
        Some(kind) => kind,
        None => {
            return None;
        },
    };
    let id = if n - a > 1 {
        token_id(&tokens[a + 1])
    } else {
        None
    };
    let b: usize = if id.is_some() {
        a + 2
    } else {
        a + 1
    };
    if b >= n || !is_lbrace(&tokens[b]) {
        return None;
    }
    match parse_statements(tokens, b + 1) {
        Some((statements, next)) => {
            if next == n {
                Some(GraphInternal { strict: strict, _type: kind, id: id, statements: statements })
            } else {
                None
            }
        },
        None => None,
    }
}

/// Reads a graph in the dot language: `strict` or not, `graph` or
/// `digraph`, an id or not, and between braces the statements that set
/// default attributes and state nodes and chains of edges.
pub fn graph(s: &str) -> (found: Result<GraphInternal, ParseError>)
    ensures
        match graph_spec(s@) {
            Some(g) => found matches Ok(gi) && gi@ == g,
            None => found matches Err(e) && e == ParseError::Syntax,
        },
{
    match tokenize(s) {
        Ok(tokens) => match graph_from_tokens(&tokens) {
            Some(g) => Ok(g),
            None => Err(ParseError::Syntax),
        },
        Err(_) => Err(ParseError::Syntax),
    }
}

} // verus!
