//! Directed graphs of entities, held by `petgraph`.
//!
//! The functions here call `petgraph` and state what its documentation and source say of the calls.
//! Nodes are known by their place, counted from zero in the order in which they were added.

use petgraph::algo::{astar, connected_components, tarjan_scc};
use petgraph::graph::{Graph, NodeIndex};
use vstd::prelude::*;

verus! {

/// `petgraph::graph::Graph`, a graph that holds a value for each node and each edge.
#[verifier::external_type_specification]
#[verifier::external_body]
#[verifier::reject_recursive_types(N)]
#[verifier::reject_recursive_types(E)]
#[verifier::reject_recursive_types(Ty)]
#[verifier::reject_recursive_types(Ix)]
pub struct ExGraph<N, E, Ty, Ix>(petgraph::graph::Graph<N, E, Ty, Ix>);

/// `petgraph::Directed`, which marks a graph whose edges have a direction.
#[verifier::external_type_specification]
#[verifier::external_body]
pub struct ExDirected(petgraph::Directed);

/// The values of the nodes of a graph, in the order in which they were added.
pub uninterp spec fn node_weights(g: petgraph::graph::Graph<i64, String>) -> Seq<i64>;

/// The edges of a graph, in the order in which they were added: the place of the node they start
/// from, that of the node they lead to, and their text.
pub uninterp spec fn arcs(g: petgraph::graph::Graph<i64, String>) -> Seq<(int, int, Seq<char>)>;

// ── Walks ─────────────────────────────────────────────────────────────

/// An edge leads from `a` to `b`; where `both` is set, edges may be walked backwards too.
pub open spec fn step(arcs: Seq<(int, int, Seq<char>)>, a: int, b: int, both: bool) -> bool {
    exists|k: int| 0 <= k < arcs.len() && ((#[trigger] arcs[k]).0 == a && arcs[k].1 == b || (both && arcs[k].1 == a && arcs[k].0 == b))
}

/// Each place of `p` is one step from the one before it.
pub open spec fn is_walk(arcs: Seq<(int, int, Seq<char>)>, p: Seq<int>, both: bool) -> bool {
    forall|i: int| 0 < i < p.len() ==> step(arcs, p[i - 1], #[trigger] p[i], both)
}

/// `p` is a walk from `a` to `b`.
pub open spec fn leads(arcs: Seq<(int, int, Seq<char>)>, p: Seq<int>, a: int, b: int, both: bool) -> bool {
    p.len() > 0 && p[0] == a && p.last() == b && is_walk(arcs, p, both)
}

/// There is a walk from `a` to `b`.
pub open spec fn connected(arcs: Seq<(int, int, Seq<char>)>, a: int, b: int, both: bool) -> bool {
    exists|p: Seq<int>| leads(arcs, p, a, b, both)
}

/// Where the edges from `n` lead, the latest edge first.
pub open spec fn successors(arcs: Seq<(int, int, Seq<char>)>, n: int) -> Seq<int>
    decreases arcs.len(),
{
    if arcs.len() == 0 {
        Seq::empty()
    } else if arcs.last().0 == n {
        seq![arcs.last().1] + successors(arcs.drop_last(), n)
    } else {
        successors(arcs.drop_last(), n)
    }
}

/// The nodes that no node before them is connected with, whatever the direction of the edges: one
/// for each part that hangs together.
pub open spec fn heads(nodes: nat, arcs: Seq<(int, int, Seq<char>)>) -> Set<int> {
    Set::new(|i: int| 0 <= i < nodes && forall|j: int| 0 <= j < i ==> !connected(arcs, j, i, true))
}

/// Places as mathematical integers.
pub open spec fn places(list: Seq<usize>) -> Seq<int> {
    Seq::new(list.len(), |i: int| list[i] as int)
}

/// One of the groups holds a node.
pub open spec fn in_some_group(groups: Seq<Vec<usize>>, i: int) -> bool {
    exists|c: int, k: int| 0 <= c < groups.len() && 0 <= k < groups[c]@.len() && #[trigger] groups[c]@[k] == i
}

/// The groups of nodes of which each reaches every other. Each node is in one group, once, and no
/// group leads to a later one.
pub open spec fn mutual_groups(nodes: nat, arcs: Seq<(int, int, Seq<char>)>, groups: Seq<Vec<usize>>) -> bool {
    &&& forall|c: int| 0 <= c < groups.len() ==> (#[trigger] groups[c])@.len() > 0
    &&& forall|c: int, k: int| 0 <= c < groups.len() && 0 <= k < groups[c]@.len() ==> (#[trigger] groups[c]@[k]) < nodes
    &&& forall|i: int| 0 <= i < nodes ==> #[trigger] in_some_group(groups, i)
    &&& forall|c: int, k: int, l: int| 0 <= c < groups.len() && 0 <= k < l < groups[c]@.len() ==> #[trigger] groups[c]@[k] != #[trigger] groups[c]@[l]
    &&& forall|c: int, k: int, l: int|
        0 <= c < groups.len() && 0 <= k < groups[c]@.len() && 0 <= l < groups[c]@.len() ==> connected(
            arcs,
            #[trigger] groups[c]@[k] as int,
            #[trigger] groups[c]@[l] as int,
            false,
        )
    &&& forall|c: int, d: int, k: int, l: int|
        0 <= c < d < groups.len() && 0 <= k < groups[c]@.len() && 0 <= l < groups[d]@.len() ==> #[trigger] groups[c]@[k] != #[trigger] groups[d]@[l]
            && !connected(arcs, groups[c]@[k] as int, groups[d]@[l] as int, false)
}

// ── Calls ─────────────────────────────────────────────────────────────

/// Calls `Graph::new`, which makes a graph without nodes and edges.
#[verifier::external_body]
pub(crate) fn new_graph() -> (out: Graph<i64, String>)
    ensures
        node_weights(out) == Seq::<i64>::empty(),
        arcs(out) == Seq::<(int, int, Seq<char>)>::empty(),
{
    Graph::new()
}

/// Calls `Graph::add_node`, which appends a node and gives its index. It panics where the nodes
/// would exceed the 32 bits of an index.
#[verifier::external_body]
pub(crate) fn add_node(g: &mut Graph<i64, String>, weight: i64) -> (out: usize)
    requires
        node_weights(*old(g)).len() < u32::MAX,
    ensures
        node_weights(*final(g)) == node_weights(*old(g)).push(weight),
        arcs(*final(g)) == arcs(*old(g)),
        out == node_weights(*old(g)).len(),
{
    g.add_node(weight).index()
}

/// Calls `Graph::add_edge`, which appends an edge between two nodes; edges may repeat. It panics
/// where a node does not exist, or the edges would exceed the 32 bits of an index.
#[verifier::external_body]
pub(crate) fn add_edge(g: &mut Graph<i64, String>, from: usize, to: usize, weight: String)
    requires
        from < node_weights(*old(g)).len(),
        to < node_weights(*old(g)).len(),
        node_weights(*old(g)).len() <= u32::MAX,
        arcs(*old(g)).len() < u32::MAX,
    ensures
        node_weights(*final(g)) == node_weights(*old(g)),
        arcs(*final(g)) == arcs(*old(g)).push((from as int, to as int, weight@)),
{
    g.add_edge(NodeIndex::new(from), NodeIndex::new(to), weight);
}

/// Calls `Graph::node_count`, the number of nodes.
#[verifier::external_body]
pub(crate) fn node_count(g: &Graph<i64, String>) -> (out: usize)
    ensures
        out == node_weights(*g).len(),
{
    g.node_count()
}

/// Calls `Graph::edge_count`, the number of edges.
#[verifier::external_body]
pub(crate) fn edge_count(g: &Graph<i64, String>) -> (out: usize)
    ensures
        out == arcs(*g).len(),
{
    g.edge_count()
}

/// Indexes a `Graph` by a node, which gives the node's value. It panics where there is no such
/// node.
#[verifier::external_body]
pub(crate) fn node_weight(g: &Graph<i64, String>, n: usize) -> (out: i64)
    requires
        n < node_weights(*g).len(),
        n < u32::MAX,
    ensures
        out == node_weights(*g)[n as int],
{
    g[NodeIndex::new(n)]
}

/// Calls `Graph::neighbors`, which on a directed graph walks the outgoing edges of a node. Each new
/// edge is put at the front of that list, so that the latest comes first.
#[verifier::external_body]
pub(crate) fn neighbors(g: &Graph<i64, String>, n: usize) -> (out: Vec<usize>)
    requires
        n < node_weights(*g).len(),
        n < u32::MAX,
    ensures
        places(out@) == successors(arcs(*g), n as int),
        forall|i: int| 0 <= i < out.len() ==> (#[trigger] out@[i]) < node_weights(*g).len(),
{
    g.neighbors(NodeIndex::new(n)).map(|i| i.index()).collect()
}

/// Whether a node is the one that a path leads to.
fn is_goal(n: usize, goal: usize) -> (out: bool)
    ensures
        out == (n == goal),
{
    n == goal
}

/// What an edge of a path costs.
fn edge_cost() -> (out: i32)
    ensures
        out == 1,
{
    1
}

/// What is known beforehand of the rest of a path.
fn estimate() -> (out: i32)
    ensures
        out == 0,
{
    0
}

/// Calls `petgraph::algo::astar` with one for each edge and nothing for the estimate: a path with
/// the least edges along their direction, or none where there is no path at all. Which of several
/// such paths comes back is left open. The cost is a 32 bit number, so that the nodes are limited.
#[verifier::external_body]
pub(crate) fn shortest_path(g: &Graph<i64, String>, start: usize, goal: usize) -> (out: Option<Vec<usize>>)
    requires
        start < node_weights(*g).len(),
        goal < node_weights(*g).len(),
        node_weights(*g).len() <= i32::MAX,
    ensures
        match out {
            None => !connected(arcs(*g), start as int, goal as int, false),
            Some(path) => {
                &&& leads(arcs(*g), places(path@), start as int, goal as int, false)
                &&& forall|i: int| 0 <= i < path@.len() ==> (#[trigger] path@[i]) < node_weights(*g).len()
                &&& forall|p: Seq<int>| leads(arcs(*g), p, start as int, goal as int, false) ==> path@.len() <= p.len()
            },
        },
{
    let from = NodeIndex::new(start);
    astar(g, from, |n| is_goal(n.index(), goal), |_edge| edge_cost(), |_node| estimate())
        .map(|(_cost, path)| path.into_iter().map(|n| n.index()).collect())
}

/// Calls `petgraph::algo::connected_components`, which on a directed graph counts the parts that
/// hang together whatever the direction of the edges.
#[verifier::external_body]
pub(crate) fn component_count(g: &Graph<i64, String>) -> (out: usize)
    ensures
        out == heads(node_weights(*g).len(), arcs(*g)).len(),
{
    connected_components(g)
}

/// Calls `petgraph::algo::tarjan_scc`, which groups the nodes that reach each other. The groups
/// come in reverse topological order; the order inside a group is left open.
#[verifier::external_body]
pub(crate) fn strong_components(g: &Graph<i64, String>) -> (out: Vec<Vec<usize>>)
    ensures
        mutual_groups(node_weights(*g).len(), arcs(*g), out@),
{
    tarjan_scc(g).into_iter().map(|group| group.into_iter().map(|n| n.index()).collect()).collect()
}

} // verus!
