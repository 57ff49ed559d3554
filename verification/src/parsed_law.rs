//! What holds of every graph that a text states: it is one that a graph can
//! hold, its nodes have distinct ids, and its own text states it again.

use vstd::prelude::*;
use crate::attributes::{keys_distinct, lemma_merge_distinct, lemma_put_distinct, put};
use crate::dot::{
    all_edges, assembled, chain_edges, declared_nodes, defaults_of, fits, lemma_chain_ends,
    lemma_chains_resolve, parse_spec, AttributeType, GraphInternalView, StatementView,
};
use crate::dot_law::{lemma_declared, lemma_stated_nodes, lemma_with_chains};
use crate::grammar::{
    a_list, attr_lists, chain_rest, default_kind, graph_of, graph_spec, id_value, statement,
    statements,
};
use crate::graph::{id_index, ids_distinct, GraphView};
use crate::lexer::{lex, ParseError, TokenView};
use crate::render::document;
use crate::round_trip::{graph_valid, lemma_round_trip};

verus! {

/// Whether the attributes of a statement have distinct keys.
pub open spec fn statement_distinct(st: StatementView) -> bool {
    match st {
        StatementView::Node(node) => keys_distinct(node.attributes),
        StatementView::Edge(chain) => keys_distinct(chain.attributes),
        StatementView::GlobalAttribute(attr) => keys_distinct(attr.attributes),
    }
}

/// Whether the attributes of each statement have distinct keys.
pub open spec fn statements_distinct(all: Seq<StatementView>) -> bool {
    forall|i: int| 0 <= i < all.len() ==> statement_distinct(#[trigger] all[i])
}

/// The inside of a bracketed list, read into attributes with distinct keys,
/// gives attributes with distinct keys.
pub proof fn lemma_a_list_distinct(ts: Seq<TokenView>, acc: Seq<(Seq<char>, Seq<char>)>)
    requires
        keys_distinct(acc),
    ensures
        a_list(ts, acc) matches Some((attrs, _)) ==> keys_distinct(attrs),
    decreases ts.len(),
{
    if ts.len() == 0 {
    } else if ts[0] is RBracket {
    } else if ts.len() >= 3 && id_value(ts[0]) is Some && ts[1] is Equals && id_value(ts[2])
        is Some {
        let used = if ts.len() > 3 && (ts[3] is Semicolon || ts[3] is Comma) {
            4int
        } else {
            3int
        };
        lemma_put_distinct(acc, id_value(ts[0])->0, id_value(ts[2])->0);
        lemma_a_list_distinct(ts.skip(used), put(acc, id_value(ts[0])->0, id_value(ts[2])->0));
    }
}

/// Bracketed lists, read into attributes with distinct keys, give attributes
/// with distinct keys.
pub proof fn lemma_attr_lists_distinct(ts: Seq<TokenView>, acc: Seq<(Seq<char>, Seq<char>)>)
    requires
        keys_distinct(acc),
    ensures
        attr_lists(ts, acc) matches Some((attrs, _)) ==> keys_distinct(attrs),
    decreases ts.len(),
{
    if ts.len() > 0 && ts[0] is LBracket {
        lemma_a_list_distinct(ts.skip(1), acc);
        match a_list(ts.skip(1), acc) {
            Some((attrs, n)) => {
                if 0 < n < ts.len() {
                    lemma_attr_lists_distinct(ts.skip(n + 1), attrs);
                }
            },
            None => {},
        }
    }
}

/// The attributes of a statement that was read have distinct keys.
pub proof fn lemma_statement_distinct(ts: Seq<TokenView>)
    ensures
        statement(ts) matches Some((st, _)) ==> statement_distinct(st),
{
    let none = Seq::<(Seq<char>, Seq<char>)>::empty();
    if ts.len() == 0 {
    } else if default_kind(ts[0]) is Some {
        lemma_attr_lists_distinct(ts.skip(1), none);
    } else if id_value(ts[0]) is Some {
        if ts.len() >= 3 && ts[1] is Equals && id_value(ts[2]) is Some {
        } else {
            match chain_rest(ts.skip(1), seq![id_value(ts[0])->0]) {
                Some((ids, n)) => {
                    if 0 <= n < ts.len() {
                        lemma_attr_lists_distinct(ts.skip(n + 1), none);
                    }
                },
                None => {},
            }
        }
    }
}

/// The attributes of each statement that was read have distinct keys.
pub proof fn lemma_statements_distinct(ts: Seq<TokenView>)
    ensures
        statements(ts) matches Some((all, _)) ==> statements_distinct(all),
    decreases ts.len(),
{
    if ts.len() == 0 {
    } else if ts[0] is RBrace {
    } else {
        lemma_statement_distinct(ts);
        match statement(ts) {
            Some((first, n)) => {
                if 0 < n <= ts.len() {
                    let used = if n < ts.len() && ts[n] is Semicolon {
                        n + 1
                    } else {
                        n
                    };
                    lemma_statements_distinct(ts.skip(used));
                    match statements(ts.skip(used)) {
                        Some((rest, m)) => {
                            let all = seq![first] + rest;
                            assert forall|i: int| 0 <= i < all.len() implies statement_distinct(
                                #[trigger] all[i],
                            ) by {
                                if i > 0 {
                                    assert(all[i] == rest[i - 1]);
                                }
                            }
                        },
                        None => {},
                    }
                }
            },
            None => {},
        }
    }
}

/// The default attributes that statements with distinct keys set have
/// distinct keys.
pub proof fn lemma_defaults_distinct(all: Seq<StatementView>, kind: AttributeType)
    requires
        statements_distinct(all),
    ensures
        keys_distinct(defaults_of(all, kind)),
    decreases all.len(),
{
    if all.len() > 0 {
        let d = all.drop_last();
        assert forall|i: int| 0 <= i < d.len() implies statement_distinct(#[trigger] d[i]) by {
            assert(d[i] == all[i]);
        }
        lemma_defaults_distinct(d, kind);
        match all[all.len() - 1] {
            StatementView::GlobalAttribute(attr) => {
                lemma_merge_distinct(defaults_of(d, kind), attr.attributes);
            },
            _ => {},
        }
    }
}

/// The edges of the chains of statements with distinct keys have attributes
/// with distinct keys.
pub proof fn lemma_edges_distinct(index: Map<Seq<char>, usize>, all: Seq<StatementView>)
    requires
        statements_distinct(all),
    ensures
        forall|i: int|
            0 <= i < all_edges(index, all).len() ==> keys_distinct(
                (#[trigger] all_edges(index, all)[i]).attributes,
            ),
    decreases all.len(),
{
    if all.len() > 0 {
        let d = all.drop_last();
        assert forall|i: int| 0 <= i < d.len() implies statement_distinct(#[trigger] d[i]) by {
            assert(d[i] == all[i]);
        }
        lemma_edges_distinct(index, d);
        let before = all_edges(index, d);
        let last = all[all.len() - 1];
        match last {
            StatementView::Edge(chain) => {
                assert(statement_distinct(last));
                let links = chain_edges(index, chain);
                assert forall|i: int| 0 <= i < (before + links).len() implies keys_distinct(
                    (#[trigger] (before + links)[i]).attributes,
                ) by {
                    if i < before.len() {
                        assert((before + links)[i] == before[i]);
                    } else {
                        assert((before + links)[i] == links[i - before.len()]);
                    }
                }
            },
            _ => {},
        }
    }
}

/// The graph that statements with distinct keys make is one that a graph can
/// hold, as far as the engine can number its nodes and edges, and its nodes
/// have distinct ids.
pub proof fn lemma_assembled_valid(g: GraphInternalView)
    requires
        statements_distinct(g.statements),
        fits(assembled(g)),
    ensures
        graph_valid(assembled(g)),
        ids_distinct(assembled(g).nodes),
{
    let all = g.statements;
    let made = assembled(g);
    let declared = declared_nodes(all);
    lemma_defaults_distinct(all, AttributeType::Graph);
    lemma_defaults_distinct(all, AttributeType::Node);
    lemma_defaults_distinct(all, AttributeType::Edge);
    lemma_edges_distinct(id_index(made.nodes), all);
    lemma_stated_nodes(all);
    lemma_declared(all);
    lemma_with_chains(declared, all);
    assert forall|p: int| 0 <= p < made.nodes.len() implies keys_distinct(
        (#[trigger] made.nodes[p]).attributes,
    ) by {
        if p < declared.len() {
            assert(made.nodes[p] == declared[p]);
            let i = choose|i: int|
                0 <= i < all.len() && #[trigger] all[i] == StatementView::Node(
                    #[trigger] declared[p],
                );
            assert(statement_distinct(all[i]));
        }
    }
    lemma_chains_resolve(made.nodes, all);
    lemma_chain_ends(made.nodes, all);
}

/// What reading gives can be written and read again: where a text states a
/// graph, that graph is one that a graph can hold, its nodes have distinct
/// ids, and reading its text gives the same graph.
pub proof fn lemma_reparse(s: Seq<char>)
    ensures
        parse_spec(s) matches Ok(g) ==> graph_valid(g) && ids_distinct(g.nodes) && parse_spec(
            document(g),
        ) == Ok::<GraphView, ParseError>(g),
{
    match graph_spec(s) {
        Some(stated) => {
            if fits(assembled(stated)) {
                let ts = lex(s)->0;
                lemma_stated_from(ts);
                lemma_assembled_valid(stated);
                lemma_round_trip(assembled(stated));
            }
        },
        None => {},
    }
}

/// The attributes of each statement of a graph that was read have distinct
/// keys.
pub proof fn lemma_stated_from(ts: Seq<TokenView>)
    ensures
        graph_of(ts) matches Some(g) ==> statements_distinct(g.statements),
{
    let strict = ts.len() > 0 && ts[0] == TokenView::Word("strict"@);
    let a = if strict {
        1int
    } else {
        0int
    };
    let named = ts.len() > a + 1 && id_value(ts[a + 1]) is Some;
    let b = if named {
        a + 2
    } else {
        a + 1
    };
    lemma_statements_distinct(ts.skip(b + 1));
}

} // verus!
