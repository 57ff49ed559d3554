//! Greedy growth of a cluster of nodes that depends on little outside it
//! and shares much of what it makes.

use std::collections::HashSet;
use vstd::prelude::*;
use vstd::hash_map::StringHashMap;
use crate::counting::{
    ascending_where, count_below, count_where, lemma_ascending_members, lemma_count_below_bound,
    lemma_count_bound, lemma_count_ext, lemma_count_perm, lemma_count_push, lemma_count_split,
    lemma_exists_perm,
};
use crate::engine::{adjacent, ends_within, in_sources, lemma_picks_has, out_targets, picks};
use crate::graph::{id_index, Direction, DotGraph, EdgeView, GraphView, NodeIndex};

verus! {

/// Whether `e` goes from a member of `cluster` to a node outside it: a
/// dependency of the cluster.
pub open spec fn leaves_cluster(cluster: Set<usize>, e: EdgeView) -> bool {
    cluster.contains(e.source) && !cluster.contains(e.target)
}

/// The property of leaving `cluster`.
pub open spec fn leaving(cluster: Set<usize>) -> spec_fn(EdgeView) -> bool {
    |e: EdgeView| leaves_cluster(cluster, e)
}

/// The number of dependencies of `cluster`: the edges from a member to a
/// node outside. Parallel edges count one each.
pub open spec fn num_deps(g: GraphView, cluster: Set<usize>) -> nat {
    count_where(g.edges, leaving(cluster))
}

/// Whether an edge enters `n` from outside `cluster`.
pub open spec fn fed_from_outside(g: GraphView, cluster: Set<usize>, n: usize) -> bool {
    exists|i: int|
        0 <= i < g.edges.len() && (#[trigger] g.edges[i]).target == n && !cluster.contains(
            g.edges[i].source,
        )
}

/// Whether an edge goes from `n` to another member of `cluster`.
pub open spec fn feeds_member(g: GraphView, cluster: Set<usize>, n: usize) -> bool {
    exists|i: int|
        0 <= i < g.edges.len() && (#[trigger] g.edges[i]).source == n && g.edges[i].target != n
            && cluster.contains(g.edges[i].target)
}

/// Whether `n` is a shared output of `cluster`: a member that an edge enters
/// from outside and that has an edge to another member.
pub open spec fn is_shared_output(g: GraphView, cluster: Set<usize>, n: usize) -> bool {
    cluster.contains(n) && fed_from_outside(g, cluster, n) && feeds_member(g, cluster, n)
}

/// The property of being a shared output of `cluster`.
pub open spec fn shared(g: GraphView, cluster: Set<usize>) -> spec_fn(usize) -> bool {
    |n: usize| is_shared_output(g, cluster, n)
}

/// The number of shared outputs of `cluster` among the nodes of the graph.
pub open spec fn num_outputs(g: GraphView, cluster: Set<usize>) -> nat {
    count_below(g.nodes.len(), shared(g, cluster))
}

/// The property of leaving `cluster` from a node below `k`.
pub open spec fn leaving_below(cluster: Set<usize>, k: usize) -> spec_fn(EdgeView) -> bool {
    |e: EdgeView| e.source < k && leaves_cluster(cluster, e)
}

/// The property of leaving `cluster` from the node `k`.
pub open spec fn leaving_from(cluster: Set<usize>, k: usize) -> spec_fn(EdgeView) -> bool {
    |e: EdgeView| e.source == k && leaves_cluster(cluster, e)
}

/// The property of not being in `cluster`.
pub open spec fn outside(cluster: Set<usize>) -> spec_fn(usize) -> bool {
    |x: usize| !cluster.contains(x)
}

/// The property of being a member of `cluster` other than `a`.
pub open spec fn other_member(cluster: Set<usize>, a: usize) -> spec_fn(usize) -> bool {
    |x: usize| cluster.contains(x) && x != a
}

/// Counting the picks that have a property is counting the edges that are
/// kept and give something with that property.
pub proof fn lemma_picks_count(
    edges: Seq<EdgeView>,
    keep: spec_fn(EdgeView) -> bool,
    give: spec_fn(EdgeView) -> usize,
    q: spec_fn(usize) -> bool,
    both: spec_fn(EdgeView) -> bool,
)
    requires
        forall|e: EdgeView| #[trigger] both(e) == (keep(e) && q(give(e))),
    ensures
        count_where(picks(edges, keep, give), q) == count_where(edges, both),
    decreases edges.len(),
{
    if edges.len() > 0 {
        lemma_picks_count(edges.drop_last(), keep, give, q, both);
        if keep(edges.last()) {
            lemma_count_push(picks(edges.drop_last(), keep, give), give(edges.last()), q);
        }
    }
}

/// What the neighbours of a member `a` say of it: as many of its targets lie
/// outside the cluster as edges leave the cluster from it, a target is
/// another member just when it feeds a member, and a source lies outside
/// just when it is fed from outside.
pub proof fn lemma_member_neighbors(g: GraphView, cluster: Set<usize>, a: usize)
    requires
        cluster.contains(a),
    ensures
        count_where(out_targets(g.edges, a), outside(cluster)) == count_where(
            g.edges,
            leaving_from(cluster, a),
        ),
        feeds_member(g, cluster, a) <==> exists|k: int|
            0 <= k < out_targets(g.edges, a).len() && other_member(cluster, a)(
                #[trigger] out_targets(g.edges, a)[k],
            ),
        fed_from_outside(g, cluster, a) <==> exists|k: int|
            0 <= k < in_sources(g.edges, a).len() && outside(cluster)(
                #[trigger] in_sources(g.edges, a)[k],
            ),
{
    let leaves = |e: EdgeView| e.source == a;
    let enters = |e: EdgeView| e.target == a;
    let target = |e: EdgeView| e.target;
    let source = |e: EdgeView| e.source;
    let outs = out_targets(g.edges, a);
    let ins = in_sources(g.edges, a);
    lemma_picks_count(g.edges, leaves, target, outside(cluster), leaving_from(cluster, a));
    if feeds_member(g, cluster, a) {
        let i = choose|i: int|
            0 <= i < g.edges.len() && (#[trigger] g.edges[i]).source == a && g.edges[i].target != a
                && cluster.contains(g.edges[i].target);
        let x = g.edges[i].target;
        lemma_picks_has(g.edges, leaves, target, x);
        assert(leaves(g.edges[i]) && target(g.edges[i]) == x);
        let k = choose|k: int| 0 <= k < outs.len() && outs[k] == x;
        assert(other_member(cluster, a)(outs[k]));
    }
    if exists|k: int| 0 <= k < outs.len() && other_member(cluster, a)(#[trigger] outs[k]) {
        let k = choose|k: int| 0 <= k < outs.len() && other_member(cluster, a)(#[trigger] outs[k]);
        let x = outs[k];
        assert(outs.contains(x));
        lemma_picks_has(g.edges, leaves, target, x);
        let i = choose|i: int|
            0 <= i < g.edges.len() && leaves(#[trigger] g.edges[i]) && target(g.edges[i]) == x;
        assert(g.edges[i].source == a && g.edges[i].target != a && cluster.contains(
            g.edges[i].target,
        ));
    }
    if fed_from_outside(g, cluster, a) {
        let i = choose|i: int|
            0 <= i < g.edges.len() && (#[trigger] g.edges[i]).target == a && !cluster.contains(
                g.edges[i].source,
            );
        let x = g.edges[i].source;
        lemma_picks_has(g.edges, enters, source, x);
        assert(enters(g.edges[i]) && source(g.edges[i]) == x);
        let k = choose|k: int| 0 <= k < ins.len() && ins[k] == x;
        assert(outside(cluster)(ins[k]));
    }
    if exists|k: int| 0 <= k < ins.len() && outside(cluster)(#[trigger] ins[k]) {
        let k = choose|k: int| 0 <= k < ins.len() && outside(cluster)(#[trigger] ins[k]);
        let x = ins[k];
        assert(ins.contains(x));
        lemma_picks_has(g.edges, enters, source, x);
        let i = choose|i: int|
            0 <= i < g.edges.len() && enters(#[trigger] g.edges[i]) && source(g.edges[i]) == x;
        assert(g.edges[i].target == a && !cluster.contains(g.edges[i].source));
    }
}

/// The dependencies that leave from below `k + 1` are those from below `k`
/// and those from `k` itself.
pub proof fn lemma_deps_step(g: GraphView, cluster: Set<usize>, k: usize)
    requires
        k < usize::MAX,
    ensures
        count_where(g.edges, leaving_below(cluster, (k + 1) as usize)) == count_where(
            g.edges,
            leaving_below(cluster, k),
        ) + count_where(g.edges, leaving_from(cluster, k)),
        !cluster.contains(k) ==> count_where(g.edges, leaving_from(cluster, k)) == 0,
{
    lemma_count_split(
        g.edges,
        leaving_below(cluster, (k + 1) as usize),
        leaving_below(cluster, k),
        leaving_from(cluster, k),
    );
    if !cluster.contains(k) {
        let never = |e: EdgeView| false;
        lemma_count_ext(g.edges, leaving_from(cluster, k), never);
        lemma_count_none(g.edges);
    }
}

/// Nothing has the property that nothing has.
proof fn lemma_count_none(edges: Seq<EdgeView>)
    ensures
        count_where(edges, |e: EdgeView| false) == 0,
    decreases edges.len(),
{
    if edges.len() > 0 {
        lemma_count_none(edges.drop_last());
    }
}

/// How many nodes of a list lie outside `subgraph`.
fn count_outside(found: &Vec<NodeIndex>, subgraph: &HashSet<NodeIndex>) -> (n: usize)
    ensures
        n == count_where(found@, outside(subgraph@)),
{
    let mut n: usize = 0;
    let mut j: usize = 0;
    while j < found.len()
        invariant
            j <= found@.len(),
            n == count_where(found@.take(j as int), outside(subgraph@)),
            n <= j,
        decreases found@.len() - j,
    {
        proof {
            assert(found@.take(j + 1) =~= found@.take(j as int).push(found@[j as int]));
            lemma_count_push(found@.take(j as int), found@[j as int], outside(subgraph@));
        }
        if !subgraph.contains(&found[j]) {
            n += 1;
        }
        j += 1;
    }
    assert(found@.take(j as int) =~= found@);
    n
}

/// Whether a list of nodes has one outside `subgraph`.
fn any_outside(found: &Vec<NodeIndex>, subgraph: &HashSet<NodeIndex>) -> (yes: bool)
    ensures
        yes <==> exists|k: int| 0 <= k < found@.len() && outside(subgraph@)(#[trigger] found@[k]),
{
    let mut j: usize = 0;
    while j < found.len()
        invariant
            j <= found@.len(),
            forall|k: int| 0 <= k < j ==> !outside(subgraph@)(#[trigger] found@[k]),
        decreases found@.len() - j,
    {
        if !subgraph.contains(&found[j]) {
            assert(outside(subgraph@)(found@[j as int]));
            return true;
        }
        j += 1;
    }
    false
}

/// Whether a list of nodes has a member of `subgraph` other than `a`.
fn any_other_member(found: &Vec<NodeIndex>, subgraph: &HashSet<NodeIndex>, a: NodeIndex) -> (yes:
    bool)
    ensures
        yes <==> exists|k: int|
            0 <= k < found@.len() && other_member(subgraph@, a)(#[trigger] found@[k]),
{
    let mut j: usize = 0;
    while j < found.len()
        invariant
            j <= found@.len(),
            forall|k: int| 0 <= k < j ==> !other_member(subgraph@, a)(#[trigger] found@[k]),
        decreases found@.len() - j,
    {
        if found[j] != a && subgraph.contains(&found[j]) {
            assert(other_member(subgraph@, a)(found@[j as int]));
            return true;
        }
        j += 1;
    }
    false
}

/// The score of the cluster `subgraph` in `graph`: the number of its
/// dependencies, and the number of its shared outputs.
///
/// A dependency is an edge from a member to a node outside the cluster. A
/// shared output is a member that an edge enters from outside the cluster
/// and that has an edge to another member; a loop at a member does not make
/// it one.
pub fn score(subgraph: &HashSet<NodeIndex>, graph: &DotGraph) -> (s: (usize, usize))
    ensures
        s.0 == num_deps(graph@, subgraph@),
        s.1 == num_outputs(graph@, subgraph@),
        s.0 <= graph@.edges.len(),
        s.1 <= graph@.nodes.len(),
{
    let ghost g = graph@;
    let ghost cluster = subgraph@;
    let n = graph.node_count();
    let m = graph.edge_count();
    let mut num_deps: usize = 0;
    let mut num_outputs: usize = 0;
    let mut a: usize = 0;
    proof {
        lemma_count_ext(g.edges, leaving_below(cluster, 0), |e: EdgeView| false);
        lemma_count_none(g.edges);
    }
    while a < n
        invariant
            a <= n,
            n == g.nodes.len(),
            m == g.edges.len(),
            g == graph@,
            cluster == subgraph@,
            num_deps == count_where(g.edges, leaving_below(cluster, a)),
            num_outputs == count_below(a as nat, shared(g, cluster)),
        decreases n - a,
    {
        proof {
            lemma_deps_step(g, cluster, a);
            lemma_count_bound(g.edges, leaving_below(cluster, (a + 1) as usize));
            lemma_count_below_bound((a + 1) as nat, shared(g, cluster));
        }
        if subgraph.contains(&a) {
            let outs = graph.neighbors_directed(a, Direction::Outgoing);
            let ins = graph.neighbors_directed(a, Direction::Incoming);
            let leaving = count_outside(&outs, subgraph);
            let feeds = any_other_member(&outs, subgraph, a);
            let fed = any_outside(&ins, subgraph);
            proof {
                lemma_member_neighbors(g, cluster, a);
                lemma_count_perm(outs@, out_targets(g.edges, a), outside(cluster));
                lemma_exists_perm(outs@, out_targets(g.edges, a), other_member(cluster, a));
                lemma_exists_perm(ins@, in_sources(g.edges, a), outside(cluster));
                assert(feeds == feeds_member(g, cluster, a));
                assert(fed == fed_from_outside(g, cluster, a));
            }
            num_deps += leaving;
            if fed && feeds {
                num_outputs += 1;
            }
        }
        a += 1;
    }
    proof {
        lemma_count_ext(g.edges, leaving_below(cluster, n), leaving(cluster));
        lemma_count_bound(g.edges, leaving(cluster));
        lemma_count_below_bound(n as nat, shared(g, cluster));
    }
    (num_deps, num_outputs)
}

/// Whether `x` shares an edge with a member of `cluster`.
pub open spec fn touches(g: GraphView, cluster: Set<usize>, x: usize) -> bool {
    exists|i: int|
        0 <= i < g.edges.len() && ((cluster.contains((#[trigger] g.edges[i]).source)
            && g.edges[i].target == x) || (cluster.contains(g.edges[i].target) && g.edges[i].source
            == x))
}

/// Whether `x` is on the frontier of `cluster`: no member, and sharing an
/// edge with one.
pub open spec fn in_frontier(g: GraphView, cluster: Set<usize>, x: usize) -> bool {
    !cluster.contains(x) && touches(g, cluster, x)
}

/// The property of being on the frontier of `cluster`.
pub open spec fn on_frontier(g: GraphView, cluster: Set<usize>) -> spec_fn(usize) -> bool {
    |x: usize| in_frontier(g, cluster, x)
}

/// The frontier of `cluster`: the nodes on it, each once, by ascending
/// index.
pub open spec fn frontier_spec(g: GraphView, cluster: Set<usize>) -> Seq<usize> {
    ascending_where(g.nodes.len(), on_frontier(g, cluster))
}

/// Whether `x` shares an edge with a member of `cluster` below `a`.
pub open spec fn reached(g: GraphView, cluster: Set<usize>, a: usize, x: usize) -> bool {
    exists|b: usize| b < a && cluster.contains(b) && #[trigger] adjacent(g.edges, b).contains(x)
}

/// What shares an edge with the member `b` touches the cluster, and what
/// touches the cluster shares an edge with one of its members.
pub proof fn lemma_touches(g: GraphView, cluster: Set<usize>, x: usize)
    requires
        ends_within(g.edges, g.nodes.len()),
        g.nodes.len() <= usize::MAX,
    ensures
        touches(g, cluster, x) <==> reached(g, cluster, g.nodes.len() as usize, x),
{
    let n = g.nodes.len() as usize;
    let target = |e: EdgeView| e.target;
    let source = |e: EdgeView| e.source;
    if touches(g, cluster, x) {
        let i = choose|i: int|
            0 <= i < g.edges.len() && ((cluster.contains((#[trigger] g.edges[i]).source)
                && g.edges[i].target == x) || (cluster.contains(g.edges[i].target)
                && g.edges[i].source == x));
        let e = g.edges[i];
        if cluster.contains(e.source) && e.target == x {
            let b = e.source;
            let leaves = |e: EdgeView| e.source == b;
            lemma_picks_has(g.edges, leaves, target, x);
            assert(leaves(g.edges[i]) && target(g.edges[i]) == x);
            let k = choose|k: int| 0 <= k < out_targets(g.edges, b).len() && out_targets(
                g.edges,
                b,
            )[k] == x;
            assert(adjacent(g.edges, b)[k] == x);
            assert(adjacent(g.edges, b).contains(x));
        } else {
            let b = e.target;
            let enters_from_other = |e: EdgeView| e.target == b && e.source != b;
            let second = picks(g.edges, enters_from_other, source);
            lemma_picks_has(g.edges, enters_from_other, source, x);
            assert(enters_from_other(g.edges[i]) && source(g.edges[i]) == x);
            let k = choose|k: int| 0 <= k < second.len() && second[k] == x;
            assert(adjacent(g.edges, b)[out_targets(g.edges, b).len() + k] == x);
            assert(adjacent(g.edges, b).contains(x));
        }
    }
    if reached(g, cluster, n, x) {
        let b = choose|b: usize|
            b < n && cluster.contains(b) && #[trigger] adjacent(g.edges, b).contains(x);
        let leaves = |e: EdgeView| e.source == b;
        let enters_from_other = |e: EdgeView| e.target == b && e.source != b;
        let first = out_targets(g.edges, b);
        let second = picks(g.edges, enters_from_other, source);
        let both = adjacent(g.edges, b);
        let k = choose|k: int| 0 <= k < both.len() && both[k] == x;
        if k < first.len() {
            assert(first[k] == x);
            assert(first.contains(x));
            lemma_picks_has(g.edges, leaves, target, x);
            let i = choose|i: int|
                0 <= i < g.edges.len() && leaves(#[trigger] g.edges[i]) && target(g.edges[i]) == x;
            assert(cluster.contains(g.edges[i].source) && g.edges[i].target == x);
        } else {
            assert(second[k - first.len()] == x);
            assert(second.contains(x));
            lemma_picks_has(g.edges, enters_from_other, source, x);
            let i = choose|i: int|
                0 <= i < g.edges.len() && enters_from_other(#[trigger] g.edges[i]) && source(
                    g.edges[i],
                ) == x;
            assert(cluster.contains(g.edges[i].target) && g.edges[i].source == x);
        }
    }
}

/// The frontier of the cluster `subgraph` in `graph`: every node that is no
/// member and shares an edge, whichever way it points, with a member; each
/// once, by ascending index.
pub fn frontier(subgraph: &HashSet<NodeIndex>, graph: &DotGraph) -> (found: Vec<NodeIndex>)
    ensures
        found@ == frontier_spec(graph@, subgraph@),
{
    let ghost g = graph@;
    let ghost cluster = subgraph@;
    let n = graph.node_count();
    let mut marks: Vec<bool> = Vec::new();
    let mut i: usize = 0;
    while i < n
        invariant
            i <= n,
            marks@.len() == i,
            forall|x: int| 0 <= x < i ==> !marks@[x],
        decreases n - i,
    {
        marks.push(false);
        i += 1;
    }
    let mut a: usize = 0;
    while a < n
        invariant
            a <= n,
            n == g.nodes.len(),
            g == graph@,
            cluster == subgraph@,
            marks@.len() == n,
            forall|x: usize| x < n ==> (#[trigger] marks@[x as int] <==> reached(g, cluster, a, x)),
        decreases n - a,
    {
        if subgraph.contains(&a) {
            let near = graph.neighbors_undirected(a);
            let mut j: usize = 0;
            while j < near.len()
                invariant
                    j <= near@.len(),
                    a < n,
                    marks@.len() == n,
                    forall|k: int| 0 <= k < near@.len() ==> near@[k] < n,
                    forall|x: usize|
                        x < n ==> (#[trigger] marks@[x as int] <==> (reached(g, cluster, a, x)
                            || exists|k: int| 0 <= k < j && near@[k] == x)),
                decreases near@.len() - j,
            {
                let ghost before = marks@;
                marks.set(near[j], true);
                proof {
                    assert forall|x: usize| x < n implies (#[trigger] marks@[x as int] <==> (
                    reached(g, cluster, a, x) || exists|k: int| 0 <= k < j + 1 && near@[k] == x)) by {
                        if x == near@[j as int] {
                        } else {
                            assert(marks@[x as int] == before[x as int]);
                            if exists|k: int| 0 <= k < j + 1 && near@[k] == x {
                                let k = choose|k: int| 0 <= k < j + 1 && near@[k] == x;
                                assert(0 <= k < j && near@[k] == x);
                            }
                        }
                    }
                }
                j += 1;
            }
            proof {
                assert forall|x: usize| x < n implies (#[trigger] marks@[x as int] <==> reached(
                    g,
                    cluster,
                    (a + 1) as usize,
                    x,
                )) by {
                    vstd::seq_lib::to_multiset_contains(near@, x);
                    vstd::seq_lib::to_multiset_contains(adjacent(g.edges, a), x);
                    if marks@[x as int] {
                        if !reached(g, cluster, a, x) {
                            let k = choose|k: int| 0 <= k < near@.len() && near@[k] == x;
                            assert(near@.contains(x));
                            assert(adjacent(g.edges, a).contains(x));
                        }
                    }
                    if reached(g, cluster, (a + 1) as usize, x) {
                        let b = choose|b: usize|
                            b < a + 1 && cluster.contains(b) && #[trigger] adjacent(
                                g.edges,
                                b,
                            ).contains(x);
                        if b == a {
                            assert(near@.contains(x));
                        } else {
                            assert(b < a);
                        }
                    }
                }
            }
        } else {
            proof {
                assert forall|x: usize| x < n implies (reached(g, cluster, a, x) <==> reached(
                    g,
                    cluster,
                    (a + 1) as usize,
                    x,
                )) by {
                    if reached(g, cluster, (a + 1) as usize, x) {
                        let b = choose|b: usize|
                            b < a + 1 && cluster.contains(b) && #[trigger] adjacent(
                                g.edges,
                                b,
                            ).contains(x);
                        assert(b < a);
                    }
                }
            }
        }
        a += 1;
    }
    let mut found: Vec<NodeIndex> = Vec::new();
    let mut x: usize = 0;
    while x < n
        invariant
            x <= n,
            n == g.nodes.len(),
            g == graph@,
            cluster == subgraph@,
            ends_within(g.edges, n as nat),
            marks@.len() == n,
            forall|y: usize| y < n ==> (#[trigger] marks@[y as int] <==> reached(g, cluster, n, y)),
            found@ == ascending_where(x as nat, on_frontier(g, cluster)),
        decreases n - x,
    {
        proof {
            lemma_touches(g, cluster, x);
        }
        if marks[x] && !subgraph.contains(&x) {
            found.push(x);
        }
        x += 1;
    }
    found
}

/// A node together with the score that a cluster would have with it.
#[derive(Debug, Clone, Copy, PartialEq, Eq, Structural)]
pub struct Candidate {
    /// The node.
    pub node: NodeIndex,
    /// The number of dependencies of the cluster with the node in it.
    pub num_deps: usize,
    /// The number of shared outputs of the cluster with the node in it.
    pub num_outputs: usize,
}

/// The score of `cluster` as a pair of machine integers.
pub open spec fn score_pair(g: GraphView, cluster: Set<usize>) -> (usize, usize) {
    (num_deps(g, cluster) as usize, num_outputs(g, cluster) as usize)
}

/// The node `x` with the score of `cluster` with `x` in it.
pub open spec fn candidate_of(g: GraphView, cluster: Set<usize>, x: usize) -> Candidate {
    Candidate {
        node: x,
        num_deps: score_pair(g, cluster.insert(x)).0,
        num_outputs: score_pair(g, cluster.insert(x)).1,
    }
}

/// The candidates of `cluster`: each node of its frontier with the score
/// that the cluster would have with it.
pub open spec fn candidates_spec(g: GraphView, cluster: Set<usize>) -> Seq<Candidate> {
    frontier_spec(g, cluster).map_values(|x: usize| candidate_of(g, cluster, x))
}

/// The candidates of the cluster `subgraph` in `graph`: each node of its
/// frontier, by ascending index, with the score that the cluster would have
/// with that node in it. The cluster is used to try each node and is left
/// as it was.
pub fn candidates(subgraph: &mut HashSet<NodeIndex>, graph: &DotGraph) -> (found: Vec<Candidate>)
    ensures
        final(subgraph)@ == old(subgraph)@,
        found@ == candidates_spec(graph@, old(subgraph)@),
{
    let ghost g = graph@;
    let ghost cluster = subgraph@;
    let n = graph.node_count();
    let front = frontier(subgraph, graph);
    let mut found: Vec<Candidate> = Vec::new();
    let mut i: usize = 0;
    proof {
        lemma_ascending_members(n as nat, on_frontier(g, cluster));
    }
    while i < front.len()
        invariant
            i <= front@.len(),
            g == graph@,
            cluster == subgraph@,
            front@ == frontier_spec(g, cluster),
            forall|k: int| 0 <= k < front@.len() ==> !cluster.contains(#[trigger] front@[k]),
            found@ == front@.take(i as int).map_values(|x: usize| candidate_of(g, cluster, x)),
        decreases front@.len() - i,
    {
        let x = front[i];
        subgraph.insert(x);
        let s = score(subgraph, graph);
        subgraph.remove(&x);
        assert(subgraph@ =~= cluster);
        found.push(Candidate { node: x, num_deps: s.0, num_outputs: s.1 });
        assert(found@ =~= front@.take(i + 1).map_values(|x: usize| candidate_of(g, cluster, x)));
        i += 1;
    }
    assert(front@.take(i as int) =~= front@);
    found
}

/// Whether a cluster with the score `current` takes the candidate `c`: the
/// candidate's two counts together are no more than the current two, or it
/// has as many dependencies and more shared outputs.
pub open spec fn accepts_spec(current: (usize, usize), c: Candidate) -> bool {
    c.num_deps + c.num_outputs <= current.0 + current.1 || (c.num_deps == current.0 && c.num_outputs
        > current.1)
}

/// Whether a cluster with the score `current` takes `candidate`.
pub fn accepts(current: (usize, usize), candidate: &Candidate) -> (yes: bool)
    ensures
        yes == accepts_spec(current, *candidate),
{
    let with: u128 = candidate.num_deps as u128 + candidate.num_outputs as u128;
    let without: u128 = current.0 as u128 + current.1 as u128;
    with <= without || (candidate.num_deps == current.0 && candidate.num_outputs > current.1)
}

/// The two counts of a candidate together.
pub open spec fn total(c: Candidate) -> nat {
    (c.num_deps + c.num_outputs) as nat
}

/// Whether no candidate of `all` has a lower total than `c`.
pub open spec fn is_lowest(all: Seq<Candidate>, c: Candidate) -> bool {
    forall|j: int| 0 <= j < all.len() ==> total(c) <= total(#[trigger] all[j])
}

/// The candidates with the lowest total, in their order.
pub open spec fn lowest_spec(all: Seq<Candidate>) -> Seq<Candidate> {
    all.filter(|c: Candidate| is_lowest(all, c))
}

/// The candidates with the lowest total of their two counts, in their
/// order.
pub fn lowest(candidates: &Vec<Candidate>) -> (found: Vec<Candidate>)
    ensures
        found@ == lowest_spec(candidates@),
{
    let ghost all = candidates@;
    let ghost keep = |c: Candidate| is_lowest(all, c);
    let mut found: Vec<Candidate> = Vec::new();
    if candidates.len() == 0 {
        reveal(Seq::filter);
        assert(all.filter(keep) =~= Seq::<Candidate>::empty());
        return found;
    }
    let mut least: u128 = candidates[0].num_deps as u128 + candidates[0].num_outputs as u128;
    let ghost mut at: int = 0;
    let mut i: usize = 1;
    while i < candidates.len()
        invariant
            1 <= i <= all.len(),
            all == candidates@,
            0 <= at < i,
            least == total(all[at]),
            forall|j: int| 0 <= j < i ==> least <= total(#[trigger] all[j]),
        decreases all.len() - i,
    {
        let t: u128 = candidates[i].num_deps as u128 + candidates[i].num_outputs as u128;
        if t < least {
            least = t;
            proof {
                at = i as int;
            }
        }
        i += 1;
    }
    let mut i: usize = 0;
    proof {
        reveal(Seq::filter);
        assert(all.take(0).filter(keep) =~= Seq::<Candidate>::empty());
    }
    while i < candidates.len()
        invariant
            i <= all.len(),
            all == candidates@,
            keep == (|c: Candidate| is_lowest(all, c)),
            0 <= at < all.len(),
            least == total(all[at]),
            forall|j: int| 0 <= j < all.len() ==> least <= total(#[trigger] all[j]),
            found@ == all.take(i as int).filter(keep),
        decreases all.len() - i,
    {
        let c = candidates[i];
        let t: u128 = c.num_deps as u128 + c.num_outputs as u128;
        proof {
            reveal(Seq::filter);
            assert(all.take(i + 1).drop_last() =~= all.take(i as int));
            assert(all.take(i + 1).last() == c);
            assert(keep(c) == (t == least));
        }
        if t == least {
            found.push(c);
        }
        i += 1;
    }
    assert(all.take(i as int) =~= all);
    found
}

/// What one pass of growth did.
#[derive(Debug)]
pub enum Pass {
    /// These candidates joined the cluster, in this order.
    Grew(Vec<Candidate>),
    /// No candidate joined. `lowest` holds the candidates with the lowest
    /// total among those turned down. `restart` is the node that the cluster
    /// was reset to, with the score of the cluster of that node alone; it is
    /// absent when no node was left to restart from.
    Stalled { lowest: Vec<Candidate>, restart: Option<Candidate> },
}

/// What one pass of growth did.
pub enum PassView {
    Grew(Seq<Candidate>),
    Stalled { lowest: Seq<Candidate>, restart: Option<Candidate> },
}

impl View for Pass {
    type V = PassView;

    open spec fn view(&self) -> PassView {
        match self {
            Pass::Grew(added) => PassView::Grew(added@),
            Pass::Stalled { lowest, restart } => PassView::Stalled {
                lowest: lowest@,
                restart: *restart,
            },
        }
    }
}

/// The property of being taken by `cluster`.
pub open spec fn taken_by(g: GraphView, cluster: Set<usize>) -> spec_fn(Candidate) -> bool {
    |c: Candidate| accepts_spec(score_pair(g, cluster), c)
}

/// The candidates that `cluster` takes, in their order. Each is judged
/// against the score of the cluster as it is before any of them joins.
pub open spec fn accepted_spec(g: GraphView, cluster: Set<usize>) -> Seq<Candidate> {
    candidates_spec(g, cluster).filter(taken_by(g, cluster))
}

/// `cluster` with the nodes of `added` in it.
pub open spec fn joined(cluster: Set<usize>, added: Seq<Candidate>) -> Set<usize>
    decreases added.len(),
{
    if added.len() == 0 {
        cluster
    } else {
        joined(cluster, added.drop_last()).insert(added.last().node)
    }
}

/// `pool` without the nodes of `added`.
pub open spec fn parted(pool: Set<usize>, added: Seq<Candidate>) -> Set<usize>
    decreases added.len(),
{
    if added.len() == 0 {
        pool
    } else {
        parted(pool, added.drop_last()).remove(added.last().node)
    }
}

/// Whether `x` is the node of least index in `pool`.
pub open spec fn is_first_in(g: GraphView, pool: Set<usize>, x: usize) -> bool {
    &&& x < g.nodes.len()
    &&& pool.contains(x)
    &&& forall|y: usize| y < x ==> !pool.contains(y)
}

/// Whether `pool` holds a node of the graph.
pub open spec fn has_node(g: GraphView, pool: Set<usize>) -> bool {
    exists|x: usize| is_first_in(g, pool, x)
}

/// The node of least index in `pool`.
pub open spec fn first_in(g: GraphView, pool: Set<usize>) -> usize {
    choose|x: usize| is_first_in(g, pool, x)
}

/// What a pass does to a cluster and to the pool of nodes that were in no
/// cluster yet: what it reports, the cluster after it and the pool after it.
///
/// Where the cluster takes candidates, they join it and leave the pool.
/// Where it takes none, the pass reports the candidates of lowest total; the
/// cluster is reset to the node of least index in the pool, which leaves the
/// pool; with no node in the pool, cluster and pool stay as they are.
pub open spec fn pass_spec(g: GraphView, cluster: Set<usize>, pool: Set<usize>) -> (
    PassView,
    Set<usize>,
    Set<usize>,
) {
    let added = accepted_spec(g, cluster);
    if added.len() > 0 {
        (PassView::Grew(added), joined(cluster, added), parted(pool, added))
    } else {
        let lowest = lowest_spec(candidates_spec(g, cluster));
        if has_node(g, pool) {
            let next = first_in(g, pool);
            (
                PassView::Stalled {
                    lowest: lowest,
                    restart: Some(candidate_of(g, Set::empty(), next)),
                },
                Set::empty().insert(next),
                pool.remove(next),
            )
        } else {
            (PassView::Stalled { lowest: lowest, restart: None }, cluster, pool)
        }
    }
}

/// Only one node is the first of a pool.
pub proof fn lemma_first_in_unique(g: GraphView, pool: Set<usize>, x: usize)
    requires
        is_first_in(g, pool, x),
    ensures
        has_node(g, pool),
        first_in(g, pool) == x,
{
    let y = first_in(g, pool);
    assert(is_first_in(g, pool, y));
    if y < x {
        assert(!pool.contains(y));
    } else if x < y {
        assert(!pool.contains(x));
    }
}

/// The node of least index in `pool`, if the pool holds a node of `graph`.
fn find_first(pool: &HashSet<NodeIndex>, graph: &DotGraph) -> (found: Option<NodeIndex>)
    ensures
        match found {
            Some(x) => is_first_in(graph@, pool@, x),
            None => !has_node(graph@, pool@),
        },
{
    let n = graph.node_count();
    let mut x: usize = 0;
    while x < n
        invariant
            x <= n,
            n == graph@.nodes.len(),
            forall|y: usize| y < x ==> !pool@.contains(y),
        decreases n - x,
    {
        if pool.contains(&x) {
            return Some(x);
        }
        x += 1;
    }
    proof {
        if has_node(graph@, pool@) {
            let y = first_in(graph@, pool@);
            assert(is_first_in(graph@, pool@, y));
        }
    }
    None
}

/// One pass of growth: scores every node on the frontier of the cluster as
/// a member, and lets those join whose score the cluster takes, judged
/// against its score before the pass. Where none joins, reports the
/// candidates of lowest total and resets the cluster to the node of least
/// index in the pool.
pub fn grow_step(
    cluster: &mut HashSet<NodeIndex>,
    pool: &mut HashSet<NodeIndex>,
    graph: &DotGraph,
) -> (pass: Pass)
    ensures
        pass@ == pass_spec(graph@, old(cluster)@, old(pool)@).0,
        final(cluster)@ == pass_spec(graph@, old(cluster)@, old(pool)@).1,
        final(pool)@ == pass_spec(graph@, old(cluster)@, old(pool)@).2,
        pass@ matches PassView::Grew(added) ==> added.len() > 0 && forall|k: int|
            0 <= k < added.len() ==> (#[trigger] added[k]).node < graph@.nodes.len() && !old(
                cluster,
            )@.contains(added[k].node),
{
    let ghost g = graph@;
    let ghost members = cluster@;
    let ghost unclustered = pool@;
    let ghost take = taken_by(g, members);
    let n = graph.node_count();
    let all = candidates(cluster, graph);
    let current = score(cluster, graph);
    let mut added: Vec<Candidate> = Vec::new();
    let mut i: usize = 0;
    proof {
        reveal(Seq::filter);
        assert(all@.take(0).filter(take) =~= Seq::<Candidate>::empty());
        lemma_ascending_members(n as nat, on_frontier(g, members));
    }
    while i < all.len()
        invariant
            i <= all@.len(),
            all@ == candidates_spec(g, members),
            current == score_pair(g, members),
            take == taken_by(g, members),
            added@ == all@.take(i as int).filter(take),
            forall|k: int|
                0 <= k < all@.len() ==> (#[trigger] all@[k]).node < g.nodes.len()
                    && !members.contains(all@[k].node),
            forall|k: int|
                0 <= k < added@.len() ==> (#[trigger] added@[k]).node < g.nodes.len()
                    && !members.contains(added@[k].node),
        decreases all@.len() - i,
    {
        proof {
            reveal(Seq::filter);
            assert(all@.take(i + 1).drop_last() =~= all@.take(i as int));
            assert(all@.take(i + 1).last() == all@[i as int]);
        }
        if accepts(current, &all[i]) {
            added.push(all[i]);
        }
        i += 1;
    }
    assert(all@.take(i as int) =~= all@);
    if added.len() > 0 {
        let mut j: usize = 0;
        while j < added.len()
            invariant
                j <= added@.len(),
                cluster@ == joined(members, added@.take(j as int)),
                pool@ == parted(unclustered, added@.take(j as int)),
            decreases added@.len() - j,
        {
            proof {
                assert(added@.take(j + 1).drop_last() =~= added@.take(j as int));
                assert(added@.take(j + 1).last() == added@[j as int]);
            }
            let node = added[j].node;
            cluster.insert(node);
            pool.remove(&node);
            j += 1;
        }
        assert(added@.take(j as int) =~= added@);
        Pass::Grew(added)
    } else {
        let low = lowest(&all);
        match find_first(pool, graph) {
            Some(next) => {
                proof {
                    lemma_first_in_unique(g, unclustered, next);
                }
                cluster.clear();
                cluster.insert(next);
                pool.remove(&next);
                let s = score(cluster, graph);
                Pass::Stalled {
                    lowest: low,
                    restart: Some(Candidate { node: next, num_deps: s.0, num_outputs: s.1 }),
                }
            },
            None => Pass::Stalled { lowest: low, restart: None },
        }
    }
}

/// Where every candidate brings more dependencies and more shared outputs
/// than the cluster has, the pass takes none: it reports the candidates of
/// lowest total, and restarts from the node of least index in the pool,
/// with the score of the cluster of that node alone. With no node in the
/// pool, cluster and pool stay as they are.
pub proof fn lemma_stall(g: GraphView, cluster: Set<usize>, pool: Set<usize>)
    requires
        forall|k: int|
            0 <= k < candidates_spec(g, cluster).len() ==> (#[trigger] candidates_spec(
                g,
                cluster,
            )[k]).num_deps > score_pair(g, cluster).0 && candidates_spec(g, cluster)[k].num_outputs
                > score_pair(g, cluster).1,
    ensures
        accepted_spec(g, cluster).len() == 0,
        has_node(g, pool) ==> pass_spec(g, cluster, pool) == (
            PassView::Stalled {
                lowest: lowest_spec(candidates_spec(g, cluster)),
                restart: Some(candidate_of(g, Set::empty(), first_in(g, pool))),
            },
            Set::<usize>::empty().insert(first_in(g, pool)),
            pool.remove(first_in(g, pool)),
        ),
        !has_node(g, pool) ==> pass_spec(g, cluster, pool) == (
            PassView::Stalled { lowest: lowest_spec(candidates_spec(g, cluster)), restart: None },
            cluster,
            pool,
        ),
{
    let all = candidates_spec(g, cluster);
    let take = taken_by(g, cluster);
    if all.filter(take).len() > 0 {
        let c = all.filter(take)[0];
        all.lemma_filter_pred(take, 0);
        assert(all.filter(take).contains(c));
        all.lemma_filter_contains_rev(take, c);
        let k = choose|k: int| 0 <= k < all.len() && all[k] == c;
        assert(all[k].num_deps > score_pair(g, cluster).0);
    }
}

/// The record of a run of growth: the score of the cluster of the seeds,
/// and what each pass did.
#[derive(Debug)]
pub struct Trace {
    pub start: (usize, usize),
    pub passes: Vec<Pass>,
}

/// What each pass of a list did.
pub open spec fn pass_views(passes: Seq<Pass>) -> Seq<PassView> {
    passes.map_values(|p: Pass| p@)
}

/// The cluster made of the seeds.
pub open spec fn seed_set(seeds: Seq<usize>) -> Set<usize> {
    Set::new(|x: usize| seeds.contains(x))
}

/// The nodes of the graph that are no seeds.
pub open spec fn unseeded(g: GraphView, seeds: Seq<usize>) -> Set<usize> {
    Set::new(|x: usize| x < g.nodes.len() && !seeds.contains(x))
}

/// Whether `passes` is the run of `cycles` cycles from `cluster` and `pool`:
/// each pass is what `pass_spec` gives for the cluster and the pool that the
/// pass before left; a cycle ends with the pass that takes no candidate and
/// restarts; and the run ends after the last cycle, or earlier with a pass
/// that finds no node to restart from.
pub open spec fn is_run(
    g: GraphView,
    cluster: Set<usize>,
    pool: Set<usize>,
    cycles: nat,
    passes: Seq<PassView>,
) -> bool
    decreases passes.len(),
{
    if cycles == 0 {
        passes.len() == 0
    } else if passes.len() == 0 {
        false
    } else {
        let step = pass_spec(g, cluster, pool);
        passes[0] == step.0 && match step.0 {
            PassView::Grew(_) => is_run(g, step.1, step.2, cycles, passes.skip(1)),
            PassView::Stalled { restart: Some(_), .. } => is_run(
                g,
                step.1,
                step.2,
                (cycles - 1) as nat,
                passes.skip(1),
            ),
            PassView::Stalled { restart: None, .. } => passes.len() == 1,
        }
    }
}

/// With one node more in the cluster, no more nodes lie outside it, and
/// fewer when the node is one of the graph that was outside.
pub proof fn lemma_outside_insert(n: nat, cluster: Set<usize>, x: usize)
    requires
        n <= usize::MAX,
    ensures
        count_below(n, outside(cluster.insert(x))) <= count_below(n, outside(cluster)),
        x < n && !cluster.contains(x) ==> count_below(n, outside(cluster.insert(x))) < count_below(
            n,
            outside(cluster),
        ),
    decreases n,
{
    if n > 0 {
        lemma_outside_insert((n - 1) as nat, cluster, x);
    }
}

/// When nodes of the graph that were outside the cluster join it, fewer
/// nodes lie outside it.
pub proof fn lemma_joined_shrinks(n: nat, cluster: Set<usize>, added: Seq<Candidate>)
    requires
        n <= usize::MAX,
        added.len() > 0,
        forall|k: int|
            0 <= k < added.len() ==> (#[trigger] added[k]).node < n && !cluster.contains(
                added[k].node,
            ),
    ensures
        count_below(n, outside(joined(cluster, added))) < count_below(n, outside(cluster)),
    decreases added.len(),
{
    let d = added.drop_last();
    if d.len() > 0 {
        assert forall|k: int| 0 <= k < d.len() implies (#[trigger] d[k]).node < n
            && !cluster.contains(d[k].node) by {
            assert(d[k] == added[k]);
        }
        lemma_joined_shrinks(n, cluster, d);
    } else {
        assert(added[0].node < n);
    }
    lemma_outside_insert(n, joined(cluster, d), added.last().node);
}

/// Grows a cluster in `graph` from the nodes `seeds`, for `cycles` cycles.
///
/// A cycle is a run of passes (see `grow_step`) that ends with the pass in
/// which no candidate joins: that pass restarts from the node of least index
/// that was in no cluster yet. The run ends after `cycles` cycles, or
/// earlier when no node is left to restart from.
pub fn grow(graph: &DotGraph, seeds: &Vec<NodeIndex>, cycles: usize) -> (trace: Trace)
    ensures
        trace.start == score_pair(graph@, seed_set(seeds@)),
        is_run(
            graph@,
            seed_set(seeds@),
            unseeded(graph@, seeds@),
            cycles as nat,
            pass_views(trace.passes@),
        ),
{
    let ghost g = graph@;
    let n = graph.node_count();
    let mut cluster: HashSet<NodeIndex> = HashSet::new();
    let mut pool: HashSet<NodeIndex> = HashSet::new();
    let mut x: usize = 0;
    while x < n
        invariant
            x <= n,
            pool@ == Set::new(|y: usize| y < x),
        decreases n - x,
    {
        pool.insert(x);
        assert(pool@ =~= Set::new(|y: usize| y < x + 1));
        x += 1;
    }
    let mut i: usize = 0;
    assert(cluster@ =~= seed_set(seeds@.take(0)));
    assert(pool@ =~= unseeded(g, seeds@.take(0)));
    while i < seeds.len()
        invariant
            i <= seeds@.len(),
            n == g.nodes.len(),
            cluster@ == seed_set(seeds@.take(i as int)),
            pool@ == unseeded(g, seeds@.take(i as int)),
        decreases seeds@.len() - i,
    {
        let seed = seeds[i];
        cluster.insert(seed);
        pool.remove(&seed);
        proof {
            let before = seeds@.take(i as int);
            let after = seeds@.take(i + 1);
            assert(after =~= before.push(seed));
            assert forall|y: usize| after.contains(y) <==> (before.contains(y) || y == seed) by {
                if before.contains(y) {
                    let k = choose|k: int| 0 <= k < before.len() && before[k] == y;
                    assert(after[k] == y);
                }
                if y == seed {
                    assert(after[i as int] == y);
                }
                if after.contains(y) {
                    let k = choose|k: int| 0 <= k < after.len() && after[k] == y;
                    if k < i {
                        assert(before[k] == y);
                    }
                }
            }
            assert(cluster@ =~= seed_set(after));
            assert(pool@ =~= unseeded(g, after));
        }
        i += 1;
    }
    assert(seeds@.take(i as int) =~= seeds@);
    let start = score(&cluster, graph);
    let ghost first_cluster = cluster@;
    let ghost first_pool = pool@;
    let mut passes: Vec<Pass> = Vec::new();
    let mut left: usize = cycles;
    let mut ended = false;
    proof {
        assert forall|rest: Seq<PassView>| #[trigger]
            is_run(g, cluster@, pool@, left as nat, rest) implies is_run(
            g,
            first_cluster,
            first_pool,
            cycles as nat,
            pass_views(passes@) + rest,
        ) by {
            assert(pass_views(passes@) + rest =~= rest);
        }
    }
    while left > 0 && !ended
        invariant
            g == graph@,
            n == g.nodes.len(),
            ended ==> is_run(g, first_cluster, first_pool, cycles as nat, pass_views(passes@)),
            !ended ==> forall|rest: Seq<PassView>| #[trigger]
                is_run(g, cluster@, pool@, left as nat, rest) ==> is_run(
                    g,
                    first_cluster,
                    first_pool,
                    cycles as nat,
                    pass_views(passes@) + rest,
                ),
        decreases
                (if ended {
                    0int
                } else {
                    1int
                }),
                left,
                count_below(n as nat, outside(cluster@)),
    {
        let ghost done = pass_views(passes@);
        let ghost members = cluster@;
        let ghost unclustered = pool@;
        let ghost cycles_left = left as nat;
        let pass = grow_step(&mut cluster, &mut pool, graph);
        let ghost step = pass_spec(g, members, unclustered);
        let ghost seen = pass@;
        match &pass {
            Pass::Grew(added) => {
                proof {
                    lemma_joined_shrinks(n as nat, members, added@);
                }
            },
            Pass::Stalled { lowest: _, restart: Some(_) } => {
                left -= 1;
            },
            Pass::Stalled { lowest: _, restart: None } => {
                ended = true;
            },
        }
        passes.push(pass);
        proof {
            let now = pass_views(passes@);
            assert(now =~= done.push(seen));
            if ended {
                let only = seq![seen];
                assert(is_run(g, members, unclustered, cycles_left, only));
                assert(done + only =~= now);
            } else {
                assert forall|rest: Seq<PassView>| #[trigger]
                    is_run(g, cluster@, pool@, left as nat, rest) implies is_run(
                    g,
                    first_cluster,
                    first_pool,
                    cycles as nat,
                    now + rest,
                ) by {
                    let longer = seq![seen] + rest;
                    assert(longer.skip(1) =~= rest);
                    assert(longer[0] == seen);
                    assert(is_run(g, members, unclustered, cycles_left, longer));
                    assert(done + longer =~= now + rest);
                }
            }
        }
    }
    proof {
        if !ended {
            let none = Seq::<PassView>::empty();
            assert(is_run(g, cluster@, pool@, 0, none));
            assert(pass_views(passes@) + none =~= pass_views(passes@));
        }
    }
    Trace { start, passes }
}

/// The entry of each id in `map`; none if an id has no entry.
fn lookup_all(map: &StringHashMap<NodeIndex>, ids: &Vec<String>) -> (found: Option<Vec<NodeIndex>>)
    ensures
        match found {
            Some(nodes) => nodes@.len() == ids@.len() && forall|i: int|
                0 <= i < ids@.len() ==> map@.contains_key((#[trigger] ids@[i])@) && nodes@[i]
                    == map@[ids@[i]@],
            None => exists|i: int| 0 <= i < ids@.len() && !map@.contains_key((#[trigger] ids@[i])@),
        },
{
    let mut nodes: Vec<NodeIndex> = Vec::new();
    let mut i: usize = 0;
    while i < ids.len()
        invariant
            i <= ids@.len(),
            nodes@.len() == i,
            forall|k: int|
                0 <= k < i ==> map@.contains_key((#[trigger] ids@[k])@) && nodes@[k]
                    == map@[ids@[k]@],
        decreases ids@.len() - i,
    {
        match map.get(ids[i].as_str()) {
            Some(node) => {
                nodes.push(*node);
            },
            None => {
                assert(!map@.contains_key(ids@[i as int]@));
                return None;
            },
        }
        i += 1;
    }
    Some(nodes)
}

/// The node of each id, found in the graph's table of ids; none if an id is
/// no id of a node. The graph keeps what it holds.
pub fn resolve(graph: &mut DotGraph, ids: &Vec<String>) -> (found: Option<Vec<NodeIndex>>)
    ensures
        final(graph)@ == old(graph)@,
        match found {
            Some(nodes) => nodes@.len() == ids@.len() && forall|i: int|
                0 <= i < ids@.len() ==> id_index(old(graph)@.nodes).contains_key(
                    (#[trigger] ids@[i])@,
                ) && nodes@[i] == id_index(old(graph)@.nodes)[ids@[i]@],
            None => exists|i: int|
                0 <= i < ids@.len() && !id_index(old(graph)@.nodes).contains_key(
                    (#[trigger] ids@[i])@,
                ),
        },
{
    let map = graph.id_map();
    lookup_all(map, ids)
}

} // verus!
