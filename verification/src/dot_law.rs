//! What holds of the nodes of every stated graph.

use vstd::prelude::*;
use crate::dot::{
    all_nodes, declared_nodes, has_id, lemma_has_id_push, with_chains, with_ids, StatementView,
};
use crate::graph::{ids_distinct, NodeView};

verus! {

/// Whether `nodes` begins with `first`.
pub open spec fn begins_with(nodes: Seq<NodeView>, first: Seq<NodeView>) -> bool {
    first.len() <= nodes.len() && forall|i: int| 0 <= i < first.len() ==> nodes[i] == first[i]
}

/// A node more, with an id that no node has, keeps the ids distinct.
pub proof fn lemma_distinct_push(nodes: Seq<NodeView>, node: NodeView)
    requires
        ids_distinct(nodes),
        !has_id(nodes, node.id),
    ensures
        ids_distinct(nodes.push(node)),
{
    let more = nodes.push(node);
    assert forall|i: int, j: int| 0 <= i < j < more.len() implies more[i].id != more[j].id by {
        if j == nodes.len() {
            if more[i].id == node.id {
                assert(nodes[i].id == node.id);
            }
        } else {
            assert(nodes[i].id != nodes[j].id);
        }
    }
}

/// Adding the nodes that a chain names keeps the nodes that were there, in
/// their places, keeps the ids distinct, gives each node that it adds no
/// attributes, and leaves no id of the chain without a node.
pub proof fn lemma_with_ids(nodes: Seq<NodeView>, ids: Seq<Seq<char>>)
    requires
        ids_distinct(nodes),
    ensures
        begins_with(with_ids(nodes, ids), nodes),
        ids_distinct(with_ids(nodes, ids)),
        forall|p: int|
            nodes.len() <= p < with_ids(nodes, ids).len() ==> (#[trigger] with_ids(
                nodes,
                ids,
            )[p]).attributes == Seq::<(Seq<char>, Seq<char>)>::empty(),
        forall|j: int| 0 <= j < ids.len() ==> has_id(with_ids(nodes, ids), #[trigger] ids[j]),
    decreases ids.len(),
{
    if ids.len() > 0 {
        let d = ids.drop_last();
        let before = with_ids(nodes, d);
        let after = with_ids(nodes, ids);
        lemma_with_ids(nodes, d);
        let node = NodeView { id: ids.last(), attributes: Seq::empty() };
        if !has_id(before, ids.last()) {
            lemma_distinct_push(before, node);
        }
        assert forall|j: int| 0 <= j < ids.len() implies has_id(after, #[trigger] ids[j]) by {
            if j < d.len() {
                assert(d[j] == ids[j]);
                assert(has_id(before, d[j]));
            }
            lemma_has_id_push(before, node, ids[j]);
        }
    }
}

/// Adding the nodes that the chains of statements name keeps the nodes that
/// were there, in their places, keeps the ids distinct, gives each node that
/// it adds no attributes, and leaves no id of a chain without a node.
pub proof fn lemma_with_chains(nodes: Seq<NodeView>, statements: Seq<StatementView>)
    requires
        ids_distinct(nodes),
    ensures
        begins_with(with_chains(nodes, statements), nodes),
        ids_distinct(with_chains(nodes, statements)),
        forall|p: int|
            nodes.len() <= p < with_chains(nodes, statements).len() ==> (#[trigger] with_chains(
                nodes,
                statements,
            )[p]).attributes == Seq::<(Seq<char>, Seq<char>)>::empty(),
        forall|k: int, j: int|
            0 <= k < statements.len() && (#[trigger] statements[k]) is Edge && 0 <= j
                < statements[k]->Edge_0.nodes.len() ==> has_id(
                with_chains(nodes, statements),
                #[trigger] statements[k]->Edge_0.nodes[j],
            ),
    decreases statements.len(),
{
    if statements.len() > 0 {
        let d = statements.drop_last();
        let before = with_chains(nodes, d);
        let after = with_chains(nodes, statements);
        lemma_with_chains(nodes, d);
        let last = statements[statements.len() - 1];
        match last {
            StatementView::Edge(chain) => {
                lemma_with_ids(before, chain.nodes);
            },
            _ => {},
        }
        assert(begins_with(after, before));
        assert forall|k: int, j: int|
            0 <= k < statements.len() && (#[trigger] statements[k]) is Edge && 0 <= j
                < statements[k]->Edge_0.nodes.len() implies has_id(
            after,
            #[trigger] statements[k]->Edge_0.nodes[j],
        ) by {
            let id = statements[k]->Edge_0.nodes[j];
            if k < d.len() {
                assert(d[k] == statements[k]);
                assert(has_id(before, d[k]->Edge_0.nodes[j]));
                let p = choose|p: int| 0 <= p < before.len() && (#[trigger] before[p]).id == id;
                assert(after[p].id == id);
            }
        }
    }
}

/// The declared nodes have distinct ids, and each has the id and the
/// attributes of a declaration before which no other declares that id.
pub proof fn lemma_declared(statements: Seq<StatementView>)
    ensures
        ids_distinct(declared_nodes(statements)),
        forall|p: int|
            0 <= p < declared_nodes(statements).len() ==> exists|i: int|
                0 <= i < statements.len() && is_first_declaration(statements, i)
                    && #[trigger] statements[i] == StatementView::Node(
                    #[trigger] declared_nodes(statements)[p],
                ),
        forall|i: int|
            0 <= i < statements.len() && (#[trigger] statements[i]) is Node ==> has_id(
                declared_nodes(statements),
                statements[i]->Node_0.id,
            ),
    decreases statements.len(),
{
    if statements.len() > 0 {
        let d = statements.drop_last();
        let before = declared_nodes(d);
        let after = declared_nodes(statements);
        let at = statements.len() - 1;
        lemma_declared(d);
        assert forall|i: int| 0 <= i < d.len() && is_first_declaration(d, i) implies
            is_first_declaration(statements, i) by {
            assert(d[i] == statements[i]);
            assert forall|k: int| 0 <= k < i && (#[trigger] statements[k]) is Node implies
                statements[k]->Node_0.id != statements[i]->Node_0.id by {
                assert(d[k] == statements[k]);
            }
        }
        match statements[at] {
            StatementView::Node(node) => {
                if !has_id(before, node.id) {
                    lemma_distinct_push(before, node);
                    assert forall|k: int| 0 <= k < at && (#[trigger] statements[k]) is Node implies
                        statements[k]->Node_0.id != node.id by {
                        assert(d[k] == statements[k]);
                        assert(has_id(before, d[k]->Node_0.id));
                    }
                    assert(is_first_declaration(statements, at));
                }
            },
            _ => {},
        }
        assert forall|p: int| 0 <= p < after.len() implies exists|i: int|
            0 <= i < statements.len() && is_first_declaration(statements, i)
                && #[trigger] statements[i] == StatementView::Node(#[trigger] after[p]) by {
            if p < before.len() {
                assert(after[p] == before[p]);
                let i = choose|i: int|
                    0 <= i < d.len() && is_first_declaration(d, i) && #[trigger] d[i]
                        == StatementView::Node(#[trigger] before[p]);
                assert(statements[i] == d[i]);
                assert(is_first_declaration(statements, i));
            } else {
                assert(statements[at] == StatementView::Node(after[p]));
            }
        }
        assert forall|i: int| 0 <= i < statements.len() && (#[trigger] statements[i])
            is Node implies has_id(after, statements[i]->Node_0.id) by {
            let id = statements[i]->Node_0.id;
            if i < d.len() {
                assert(d[i] == statements[i]);
                assert(has_id(before, d[i]->Node_0.id));
                let p = choose|p: int| 0 <= p < before.len() && (#[trigger] before[p]).id == id;
                assert(after[p].id == id);
            } else {
                if has_id(before, id) {
                    let p = choose|p: int| 0 <= p < before.len() && (#[trigger] before[p]).id == id;
                    assert(after[p].id == id);
                } else {
                    assert(after[before.len() as int].id == id);
                }
            }
        }
    }
}

/// Whether the statement at `i` declares a node and no statement before it
/// declares a node of that id.
pub open spec fn is_first_declaration(statements: Seq<StatementView>, i: int) -> bool {
    &&& 0 <= i < statements.len()
    &&& statements[i] is Node
    &&& forall|k: int|
        0 <= k < i && (#[trigger] statements[k]) is Node ==> statements[k]->Node_0.id
            != statements[i]->Node_0.id
}

/// No two nodes of a stated graph have the same id. Of the declarations of
/// one id the first gives the node its attributes: every declaration has a
/// node with its id, and that node has the attributes of the first
/// declaration of the id. Every id that a chain names has a node, and a node
/// that no statement declares has no attributes.
pub proof fn lemma_stated_nodes(statements: Seq<StatementView>)
    ensures
        ids_distinct(all_nodes(statements)),
        forall|i: int, p: int|
            0 <= i < statements.len() && (#[trigger] statements[i]) is Node && 0 <= p < all_nodes(
                statements,
            ).len() && (#[trigger] all_nodes(statements)[p]).id == statements[i]->Node_0.id
                ==> exists|f: int|
                is_first_declaration(statements, f) && #[trigger] statements[f]
                    == StatementView::Node(all_nodes(statements)[p]),
        forall|i: int|
            0 <= i < statements.len() && (#[trigger] statements[i]) is Node ==> has_id(
                all_nodes(statements),
                statements[i]->Node_0.id,
            ),
        forall|k: int, j: int|
            0 <= k < statements.len() && (#[trigger] statements[k]) is Edge && 0 <= j
                < statements[k]->Edge_0.nodes.len() ==> has_id(
                all_nodes(statements),
                #[trigger] statements[k]->Edge_0.nodes[j],
            ),
        forall|p: int|
            declared_nodes(statements).len() <= p < all_nodes(statements).len() ==> (
            #[trigger] all_nodes(statements)[p]).attributes == Seq::<(Seq<char>, Seq<char>)>::empty(),
{
    let declared = declared_nodes(statements);
    let all = all_nodes(statements);
    lemma_declared(statements);
    lemma_with_chains(declared, statements);
    assert forall|i: int| 0 <= i < statements.len() && (#[trigger] statements[i])
        is Node implies has_id(all, statements[i]->Node_0.id) by {
        let id = statements[i]->Node_0.id;
        let p = choose|p: int| 0 <= p < declared.len() && (#[trigger] declared[p]).id == id;
        assert(all[p].id == id);
    }
    assert forall|i: int, p: int|
        0 <= i < statements.len() && (#[trigger] statements[i]) is Node && 0 <= p < all.len() && (
        #[trigger] all[p]).id == statements[i]->Node_0.id implies exists|f: int|
        is_first_declaration(statements, f) && #[trigger] statements[f] == StatementView::Node(
            all[p],
        ) by {
        let id = statements[i]->Node_0.id;
        let q = choose|q: int| 0 <= q < declared.len() && (#[trigger] declared[q]).id == id;
        assert(all[q] == declared[q]);
        if p < q {
            assert(all[p].id != all[q].id);
        } else if q < p {
            assert(all[q].id != all[p].id);
        }
        let f = choose|f: int|
            0 <= f < statements.len() && is_first_declaration(statements, f)
                && #[trigger] statements[f] == StatementView::Node(#[trigger] declared[q]);
        assert(statements[f] == StatementView::Node(all[p]));
    }
}

} // verus!
