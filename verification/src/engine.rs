//! The graph engine: petgraph's adjacency-list graph, reached through a few
//! calls whose contracts are stated over the nodes and edges it holds.

use vstd::prelude::*;
use crate::graph::{directed_neighbors, Direction, Edge, EdgeView, Node, NodeView};

verus! {

// petgraph's graph, held as it is: what it holds is named by `engine_nodes`
// and `engine_edges`.
#[verifier::external_type_specification]
#[verifier::external_body]
#[verifier::reject_recursive_types(N)]
#[verifier::reject_recursive_types(E)]
#[verifier::reject_recursive_types(Ty)]
#[verifier::reject_recursive_types(Ix)]
pub struct ExGraph<N, E, Ty, Ix>(petgraph::Graph<N, E, Ty, Ix>);

// petgraph's marker for graphs with directed edges.
#[verifier::external_type_specification]
#[verifier::external_body]
pub struct ExDirected(petgraph::Directed);

/// The engine's graph of attributed nodes and edges.
pub type EngineGraph = petgraph::Graph<Node, Edge, petgraph::Directed, u32>;

/// The nodes that the engine holds, by index.
pub uninterp spec fn engine_nodes(g: EngineGraph) -> Seq<NodeView>;

/// The edges that the engine holds, by index.
pub uninterp spec fn engine_edges(g: EngineGraph) -> Seq<EdgeView>;

/// The most nodes, and the most edges, that the engine can index.
pub const ENGINE_LIMIT: usize = 0xffff_ffff;

/// What `give` makes of each edge that `keep` holds of, in the order of the
/// edges.
pub open spec fn picks(
    edges: Seq<EdgeView>,
    keep: spec_fn(EdgeView) -> bool,
    give: spec_fn(EdgeView) -> usize,
) -> Seq<usize>
    decreases edges.len(),
{
    if edges.len() == 0 {
        Seq::empty()
    } else if keep(edges.last()) {
        picks(edges.drop_last(), keep, give).push(give(edges.last()))
    } else {
        picks(edges.drop_last(), keep, give)
    }
}

/// The targets of the edges that leave `a`, in the order of the edges.
pub open spec fn out_targets(edges: Seq<EdgeView>, a: usize) -> Seq<usize> {
    picks(edges, |e: EdgeView| e.source == a, |e: EdgeView| e.target)
}

/// The sources of the edges that enter `a`, in the order of the edges.
pub open spec fn in_sources(edges: Seq<EdgeView>, a: usize) -> Seq<usize> {
    picks(edges, |e: EdgeView| e.target == a, |e: EdgeView| e.source)
}

/// The other ends of the edges at `a`, whichever way they point: the targets
/// of the edges that leave `a`, then the sources of those that enter it from
/// another node. A loop at `a` counts once.
pub open spec fn adjacent(edges: Seq<EdgeView>, a: usize) -> Seq<usize> {
    out_targets(edges, a) + picks(
        edges,
        |e: EdgeView| e.target == a && e.source != a,
        |e: EdgeView| e.source,
    )
}

/// `s` after its member at `i` was taken out and the last member put in its
/// place.
pub open spec fn swap_removed<T>(s: Seq<T>, i: int) -> Seq<T> {
    s.update(i, s.last()).drop_last()
}

/// The edges that do not touch the node `a`, in their order.
pub open spec fn apart_from(edges: Seq<EdgeView>, a: usize) -> Seq<EdgeView> {
    edges.filter(|e: EdgeView| e.source != a && e.target != a)
}

/// The edges with the node `to` at each end where the node `from` was.
pub open spec fn renumbered(edges: Seq<EdgeView>, from: usize, to: usize) -> Seq<EdgeView> {
    edges.map_values(
        |e: EdgeView|
            EdgeView {
                source: if e.source == from {
                    to
                } else {
                    e.source
                },
                target: if e.target == from {
                    to
                } else {
                    e.target
                },
                attributes: e.attributes,
            },
    )
}

/// Whether every edge joins two of the first `n` nodes.
pub open spec fn ends_within(edges: Seq<EdgeView>, n: nat) -> bool {
    forall|i: int| 0 <= i < edges.len() ==> edges[i].source < n && edges[i].target < n
}

/// An engine without nodes or edges.
///
/// Calls petgraph's `Graph::new`, which makes a directed graph with two empty
/// vectors.
#[verifier::external_body]
pub(crate) fn engine_new() -> (g: EngineGraph)
    ensures
        engine_nodes(g) == Seq::<NodeView>::empty(),
        engine_edges(g) == Seq::<EdgeView>::empty(),
{
    petgraph::Graph::new()
}

/// The number of nodes.
///
/// Calls petgraph's `Graph::node_count`, the length of the node vector. Every
/// edge of a petgraph graph joins two of its nodes: an edge is added between
/// existing nodes only, and a node is removed together with its edges.
#[verifier::external_body]
pub(crate) fn engine_node_count(g: &EngineGraph) -> (n: usize)
    ensures
        n == engine_nodes(*g).len(),
        ends_within(engine_edges(*g), n as nat),
{
    g.node_count()
}

/// The number of edges.
///
/// Calls petgraph's `Graph::edge_count`, the length of the edge vector.
#[verifier::external_body]
pub(crate) fn engine_edge_count(g: &EngineGraph) -> (n: usize)
    ensures
        n == engine_edges(*g).len(),
{
    g.edge_count()
}

/// Adds a node and returns its index.
///
/// Calls petgraph's `Graph::add_node`, which pushes the node and returns the
/// index it got, the former node count. It panics when the graph holds as
/// many nodes as the index type can number, which the precondition excludes.
#[verifier::external_body]
pub(crate) fn engine_add_node(g: &mut EngineGraph, node: Node) -> (index: usize)
    requires
        engine_nodes(*old(g)).len() < ENGINE_LIMIT,
    ensures
        engine_nodes(*final(g)) == engine_nodes(*old(g)).push(node@),
        engine_edges(*final(g)) == engine_edges(*old(g)),
        index == engine_nodes(*old(g)).len(),
{
    g.add_node(node).index()
}

/// Adds an edge from `a` to `b` and returns its index.
///
/// Calls petgraph's `Graph::add_edge`, which pushes the edge and returns the
/// index it got, the former edge count; parallel edges are kept. It panics
/// when an end is no node of the graph or when the graph holds as many edges
/// as the index type can number, which the preconditions exclude.
#[verifier::external_body]
pub(crate) fn engine_add_edge(g: &mut EngineGraph, a: usize, b: usize, edge: Edge) -> (index: usize)
    requires
        a < engine_nodes(*old(g)).len(),
        b < engine_nodes(*old(g)).len(),
        engine_edges(*old(g)).len() < ENGINE_LIMIT,
    ensures
        engine_nodes(*final(g)) == engine_nodes(*old(g)),
        engine_edges(*final(g)) == engine_edges(*old(g)).push(
            EdgeView { source: a, target: b, attributes: edge@ },
        ),
        index == engine_edges(*old(g)).len(),
{
    let from = petgraph::graph::NodeIndex::new(a);
    let to = petgraph::graph::NodeIndex::new(b);
    g.add_edge(from, to, edge).index()
}

/// Removes the edge at index `e` and gives it back.
///
/// Calls petgraph's `Graph::remove_edge`, which takes the edge out of the
/// edge vector with `swap_remove`, so that the last edge gets the index `e`,
/// and returns the weight of the removed edge. The nodes stay.
#[verifier::external_body]
pub(crate) fn engine_remove_edge(g: &mut EngineGraph, e: usize) -> (removed: Option<Edge>)
    requires
        e < engine_edges(*old(g)).len(),
    ensures
        removed matches Some(edge) && edge@ == engine_edges(*old(g))[e as int].attributes,
        engine_nodes(*final(g)) == engine_nodes(*old(g)),
        engine_edges(*final(g)) == swap_removed(engine_edges(*old(g)), e as int),
{
    g.remove_edge(petgraph::graph::EdgeIndex::new(e))
}

/// Removes the node at index `a` with every edge that touches it, and gives
/// the node back.
///
/// Calls petgraph's `Graph::remove_node`, which removes the edges at the
/// node one by one, takes the node out of the node vector with
/// `swap_remove`, so that the last node gets the index `a`, and sets the
/// ends of the edges of that node to `a`. The order in which the other edges
/// are left is that of petgraph's removals, so the contract speaks of them as
/// a multiset.
#[verifier::external_body]
pub(crate) fn engine_remove_node(g: &mut EngineGraph, a: usize) -> (removed: Option<Node>)
    requires
        a < engine_nodes(*old(g)).len(),
    ensures
        removed matches Some(node) && node@ == engine_nodes(*old(g))[a as int],
        engine_nodes(*final(g)) == swap_removed(engine_nodes(*old(g)), a as int),
        engine_edges(*final(g)).to_multiset() == renumbered(
            apart_from(engine_edges(*old(g)), a),
            (engine_nodes(*old(g)).len() - 1) as usize,
            a,
        ).to_multiset(),
{
    g.remove_node(petgraph::graph::NodeIndex::new(a))
}

/// The node at index `a`.
///
/// Indexes petgraph's `Graph` by a `NodeIndex`, which gives the weight of
/// that node and panics when there is none, which the precondition excludes.
#[verifier::external_body]
pub(crate) fn engine_node(g: &EngineGraph, a: usize) -> (node: &Node)
    requires
        a < engine_nodes(*g).len(),
    ensures
        node@ == engine_nodes(*g)[a as int],
{
    &g[petgraph::graph::NodeIndex::new(a)]
}

/// The attributes of the edge at index `e`.
///
/// Indexes petgraph's `Graph` by an `EdgeIndex`, which gives the weight of
/// that edge and panics when there is none, which the precondition excludes.
#[verifier::external_body]
pub(crate) fn engine_edge(g: &EngineGraph, e: usize) -> (edge: &Edge)
    requires
        e < engine_edges(*g).len(),
    ensures
        edge@ == engine_edges(*g)[e as int].attributes,
{
    &g[petgraph::graph::EdgeIndex::new(e)]
}

/// The source and the target of the edge at index `e`.
///
/// Calls petgraph's `Graph::edge_endpoints`, which gives both ends of an
/// edge that exists; the precondition excludes an index without an edge.
#[verifier::external_body]
pub(crate) fn engine_edge_endpoints(g: &EngineGraph, e: usize) -> (ends: (usize, usize))
    requires
        e < engine_edges(*g).len(),
    ensures
        ends.0 == engine_edges(*g)[e as int].source,
        ends.1 == engine_edges(*g)[e as int].target,
{
    let (a, b) = g.edge_endpoints(petgraph::graph::EdgeIndex::new(e)).unwrap();
    (a.index(), b.index())
}

/// The nodes that `a` has an edge to, or, in the direction `Incoming`, an
/// edge from: one entry for each such edge, in the engine's order.
///
/// Calls petgraph's `Graph::neighbors_directed`, which walks the list of the
/// edges that leave `a` (or enter it) and yields the other end of each. The
/// order is that of petgraph's edge lists, so the contract speaks of the
/// entries as a multiset.
#[verifier::external_body]
pub(crate) fn engine_neighbors_directed(g: &EngineGraph, a: usize, dir: Direction) -> (found: Vec<
    usize,
>)
    requires
        a < engine_nodes(*g).len(),
    ensures
        found@.to_multiset() == directed_neighbors(engine_edges(*g), a, dir).to_multiset(),
{
    let way = match dir {
        Direction::Outgoing => petgraph::Direction::Outgoing,
        Direction::Incoming => petgraph::Direction::Incoming,
    };
    g.neighbors_directed(petgraph::graph::NodeIndex::new(a), way).map(|n| n.index()).collect()
}

/// The nodes that share an edge with `a`, whichever way it points: one entry
/// for each such edge, in the engine's order.
///
/// Calls petgraph's `Graph::neighbors_undirected`, which yields the targets
/// of the edges that leave `a` and then the sources of those that enter it,
/// passing over loops the second time. The contract speaks of the entries as
/// a multiset.
#[verifier::external_body]
pub(crate) fn engine_neighbors_undirected(g: &EngineGraph, a: usize) -> (found: Vec<usize>)
    requires
        a < engine_nodes(*g).len(),
    ensures
        found@.to_multiset() == adjacent(engine_edges(*g), a).to_multiset(),
{
    g.neighbors_undirected(petgraph::graph::NodeIndex::new(a)).map(|n| n.index()).collect()
}

/// What is picked comes from an edge that was kept, and every kept edge gives
/// one of the picks.
pub proof fn lemma_picks_has(
    edges: Seq<EdgeView>,
    keep: spec_fn(EdgeView) -> bool,
    give: spec_fn(EdgeView) -> usize,
    x: usize,
)
    ensures
        picks(edges, keep, give).contains(x) <==> exists|i: int|
            0 <= i < edges.len() && keep(#[trigger] edges[i]) && give(edges[i]) == x,
    decreases edges.len(),
{
    let all = picks(edges, keep, give);
    if edges.len() > 0 {
        let d = edges.drop_last();
        let rest = picks(d, keep, give);
        let last = edges.last();
        lemma_picks_has(d, keep, give, x);
        if all.contains(x) {
            let k = choose|k: int| 0 <= k < all.len() && all[k] == x;
            if keep(last) && k == all.len() - 1 {
                assert(keep(edges[edges.len() - 1]) && give(edges[edges.len() - 1]) == x);
            } else {
                assert(rest[k] == x);
                assert(rest.contains(x));
                let i = choose|i: int| 0 <= i < d.len() && keep(#[trigger] d[i]) && give(d[i]) == x;
                assert(keep(edges[i]) && give(edges[i]) == x);
            }
        }
        if exists|i: int| 0 <= i < edges.len() && keep(#[trigger] edges[i]) && give(edges[i]) == x {
            let i = choose|i: int|
                0 <= i < edges.len() && keep(#[trigger] edges[i]) && give(edges[i]) == x;
            if i == edges.len() - 1 {
                assert(all[all.len() - 1] == x);
            } else {
                assert(keep(d[i]) && give(d[i]) == x);
                let k = choose|k: int| 0 <= k < rest.len() && rest[k] == x;
                assert(all[k] == x);
            }
        }
    }
}

/// In a graph whose edges join its nodes, every neighbour is a node, and
/// what is no node has no neighbour.
pub proof fn lemma_neighbors_within(edges: Seq<EdgeView>, a: usize, n: nat)
    requires
        ends_within(edges, n),
    ensures
        forall|x: usize| #[trigger] out_targets(edges, a).contains(x) ==> x < n,
        forall|x: usize| #[trigger] in_sources(edges, a).contains(x) ==> x < n,
        forall|x: usize| #[trigger] adjacent(edges, a).contains(x) ==> x < n,
        a >= n ==> out_targets(edges, a).len() == 0 && in_sources(edges, a).len() == 0
            && adjacent(edges, a).len() == 0,
{
    let leaves = |e: EdgeView| e.source == a;
    let enters = |e: EdgeView| e.target == a;
    let enters_from_other = |e: EdgeView| e.target == a && e.source != a;
    let target = |e: EdgeView| e.target;
    let source = |e: EdgeView| e.source;
    assert forall|x: usize| #[trigger] out_targets(edges, a).contains(x) implies x < n by {
        lemma_picks_has(edges, leaves, target, x);
    }
    assert forall|x: usize| #[trigger] in_sources(edges, a).contains(x) implies x < n by {
        lemma_picks_has(edges, enters, source, x);
    }
    assert forall|x: usize| #[trigger] adjacent(edges, a).contains(x) implies x < n by {
        let both = adjacent(edges, a);
        let first = out_targets(edges, a);
        let second = picks(edges, enters_from_other, source);
        let i = choose|i: int| 0 <= i < both.len() && both[i] == x;
        if i < first.len() {
            assert(first[i] == x);
            lemma_picks_has(edges, leaves, target, x);
        } else {
            assert(second[i - first.len()] == x);
            lemma_picks_has(edges, enters_from_other, source, x);
        }
    }
    if a >= n {
        let first = out_targets(edges, a);
        let second = in_sources(edges, a);
        let third = picks(edges, enters_from_other, source);
        if first.len() > 0 {
            assert(first.contains(first[0]));
            lemma_picks_has(edges, leaves, target, first[0]);
        }
        if second.len() > 0 {
            assert(second.contains(second[0]));
            lemma_picks_has(edges, enters, source, second[0]);
        }
        if third.len() > 0 {
            assert(third.contains(third[0]));
            lemma_picks_has(edges, enters_from_other, source, third[0]);
        }
    }
}

} // verus!
