//! Directed graphs: which nodes reach which, and along what way.

use petgraph::Directed;
use petgraph::graph::{Graph, NodeIndex};
use petgraph::visit::{Dfs, Walker};
use vstd::prelude::*;

verus! {

/// A graph of `petgraph`.
#[verifier::external_type_specification]
#[verifier::external_body]
#[verifier::reject_recursive_types(N)]
#[verifier::reject_recursive_types(E)]
#[verifier::reject_recursive_types(Ty)]
#[verifier::reject_recursive_types(Ix)]
pub struct ExGraph<N, E, Ty, Ix>(petgraph::graph::Graph<N, E, Ty, Ix>);

/// The mark of a graph with directed edges, of `petgraph`.
#[verifier::external_type_specification]
#[verifier::external_body]
pub struct ExDirected(petgraph::Directed);

/// The number of nodes in a graph; the nodes are the numbers below it.
pub uninterp spec fn node_count(graph: Graph<(), (), Directed, u32>) -> nat;

/// The edges of a graph, in the order in which they were added.
pub uninterp spec fn edges_of(graph: Graph<(), (), Directed, u32>) -> Seq<(nat, nat)>;

/// There is an edge from `a` to `b`.
pub open spec fn linked(edges: Seq<(nat, nat)>, a: nat, b: nat) -> bool {
    edges.contains((a, b))
}

/// Every node of `path` has an edge to the next.
pub open spec fn is_walk(edges: Seq<(nat, nat)>, path: Seq<nat>) -> bool {
    path.len() > 0 && forall|i: int, j: int|
        0 <= i && j == i + 1 && j < path.len() ==> linked(
            edges,
            #[trigger] path[i],
            #[trigger] path[j],
        )
}

/// `path` leads from `a` to `b`.
pub open spec fn leads(edges: Seq<(nat, nat)>, a: nat, b: nat, path: Seq<nat>) -> bool {
    is_walk(edges, path) && path[0] == a && path.last() == b
}

/// Some path leads from `a` to `b`.
pub open spec fn reaches(edges: Seq<(nat, nat)>, a: nat, b: nat) -> bool {
    exists|path: Seq<nat>| leads(edges, a, b, path)
}

/// `node` lies on a cycle.
pub open spec fn on_cycle(edges: Seq<(nat, nat)>, node: nat) -> bool {
    exists|next: nat| #[trigger] linked(edges, node, next) && reaches(edges, next, node)
}

/// No node lies on a cycle.
pub open spec fn acyclic(edges: Seq<(nat, nat)>) -> bool {
    forall|node: nat| !#[trigger] on_cycle(edges, node)
}

/// The nodes that `a` has edges to, the last one added first.
pub open spec fn successors(edges: Seq<(nat, nat)>, a: nat) -> Seq<nat>
    decreases edges.len(),
{
    if edges.len() == 0 {
        Seq::empty()
    } else if edges.last().0 == a {
        seq![edges.last().1] + successors(edges.drop_last(), a)
    } else {
        successors(edges.drop_last(), a)
    }
}

/// The numbers in a vector.
pub open spec fn numbers(v: Seq<usize>) -> Seq<nat> {
    v.map_values(|i: usize| i as nat)
}

/// The node on a cycle that `petgraph::algo::toposort` names for the graph with so many nodes and
/// these edges; none where it finds none.
pub uninterp spec fn cycle_node(nodes: nat, edges: Seq<(nat, nat)>) -> Option<nat>;

/// The way from one node to another that `petgraph::algo::astar` finds where every edge costs one;
/// none where it finds none.
pub uninterp spec fn shortest_way(nodes: nat, edges: Seq<(nat, nat)>, from: nat, to: nat) -> Option<
    Seq<nat>,
>;

/// The order in which `petgraph::visit::Dfs` comes to the nodes from a root.
pub uninterp spec fn visit_order(nodes: nat, edges: Seq<(nat, nat)>, root: nat) -> Seq<nat>;

/// Calls `Graph::new`. The contract claims that the graph is empty.
#[verifier::external_body]
pub(crate) fn new_graph() -> (r: Graph<(), (), Directed, u32>)
    ensures
        node_count(r) == 0,
        edges_of(r) == Seq::<(nat, nat)>::empty(),
{
    Graph::new()
}

/// Calls `Graph::add_node`. The contract claims that the new node is the next number and that the
/// edges stay.
#[verifier::external_body]
pub(crate) fn add_node(graph: &mut Graph<(), (), Directed, u32>) -> (r: usize)
    requires
        node_count(*old(graph)) < u32::MAX,
    ensures
        r == node_count(*old(graph)),
        node_count(*final(graph)) == node_count(*old(graph)) + 1,
        edges_of(*final(graph)) == edges_of(*old(graph)),
{
    graph.add_node(()).index()
}

/// Calls `Graph::add_edge`. The contract claims that the edge is added behind the others and that
/// the nodes stay.
#[verifier::external_body]
pub(crate) fn add_edge(graph: &mut Graph<(), (), Directed, u32>, from: usize, to: usize)
    requires
        from < node_count(*old(graph)),
        to < node_count(*old(graph)),
        edges_of(*old(graph)).len() < u32::MAX,
    ensures
        node_count(*final(graph)) == node_count(*old(graph)),
        edges_of(*final(graph)) == edges_of(*old(graph)).push((from as nat, to as nat)),
{
    graph.add_edge(NodeIndex::new(from), NodeIndex::new(to), ());
}

/// Calls `Graph::neighbors`. The contract claims that the ends of the node's edges come in the
/// reverse order of their addition.
#[verifier::external_body]
pub(crate) fn neighbors(graph: &Graph<(), (), Directed, u32>, node: usize) -> (r: Vec<usize>)
    requires
        node < node_count(*graph),
    ensures
        numbers(r@) == successors(edges_of(*graph), node as nat),
{
    graph.neighbors(NodeIndex::new(node)).map(NodeIndex::index).collect()
}

/// Calls `petgraph::algo::toposort`. The contract claims that the node it names, if any, is a
/// function of the graph, that there is none exactly where there is no cycle, and that it lies on
/// one.
#[verifier::external_body]
pub(crate) fn find_cycle(graph: &Graph<(), (), Directed, u32>) -> (r: Option<usize>)
    ensures
        match r {
            Some(node) => {
                &&& cycle_node(node_count(*graph), edges_of(*graph)) == Some(node as nat)
                &&& node < node_count(*graph)
                &&& on_cycle(edges_of(*graph), node as nat)
            },
            None => {
                &&& cycle_node(node_count(*graph), edges_of(*graph)) is None
                &&& acyclic(edges_of(*graph))
            },
        },
{
    petgraph::algo::toposort(graph, None).err().map(|cycle| cycle.node_id().index())
}

/// Whether two nodes are the same.
fn same_node(a: usize, b: usize) -> (r: bool)
    ensures
        r == (a == b),
{
    a == b
}

/// What an edge costs.
fn edge_cost() -> (r: u64)
    ensures
        r == 1,
{
    1
}

/// What is estimated that the rest of a way costs: nothing.
fn no_estimate() -> (r: u64)
    ensures
        r == 0,
{
    0
}

/// Calls `petgraph::algo::astar` with a cost of one for every edge and no estimate. The contract
/// claims that the way it finds, if any, is a function of the graph and the two nodes, that there
/// is none exactly where no path leads from the one to the other, and that no path is shorter.
#[verifier::external_body]
pub(crate) fn find_way(graph: &Graph<(), (), Directed, u32>, from: usize, to: usize) -> (r: Option<
    Vec<usize>,
>)
    requires
        from < node_count(*graph),
        to < node_count(*graph),
    ensures
        match r {
            Some(way) => {
                let edges = edges_of(*graph);
                let found = numbers(way@);
                &&& shortest_way(node_count(*graph), edges, from as nat, to as nat) == Some(found)
                &&& leads(edges, from as nat, to as nat, found)
                &&& forall|i: int| 0 <= i < way@.len() ==> #[trigger] way@[i] < node_count(*graph)
                &&& forall|other: Seq<nat>|
                    leads(edges, from as nat, to as nat, other) ==> found.len() <= other.len()
            },
            None => {
                &&& shortest_way(
                    node_count(*graph),
                    edges_of(*graph),
                    from as nat,
                    to as nat,
                ) is None
                &&& !reaches(edges_of(*graph), from as nat, to as nat)
            },
        },
{
    petgraph::algo::astar(
        graph,
        NodeIndex::new(from),
        |node| same_node(node.index(), to),
        |_| edge_cost(),
        |_| no_estimate(),
    ).map(|(_, way)| way.into_iter().map(NodeIndex::index).collect())
}

/// Walks a graph with `petgraph::visit::Dfs`. The contract claims that the order is a function of
/// the graph and the root, that it begins with the root, and that it holds each node that the root
/// reaches once, and no others.
#[verifier::external_body]
pub(crate) fn visit_from(graph: &Graph<(), (), Directed, u32>, root: usize) -> (r: Vec<usize>)
    requires
        root < node_count(*graph),
    ensures
        numbers(r@) == visit_order(node_count(*graph), edges_of(*graph), root as nat),
        r@.len() > 0,
        r@[0] == root,
        r@.no_duplicates(),
        forall|i: int| 0 <= i < r@.len() ==> #[trigger] r@[i] < node_count(*graph),
        forall|node: nat|
            numbers(r@).contains(node) <==> #[trigger] reaches(
                edges_of(*graph),
                root as nat,
                node,
            ),
{
    Dfs::new(graph, NodeIndex::new(root)).iter(graph).map(NodeIndex::index).collect()
}

/// The list of a node's successors holds the ends of its edges and nothing else.
pub proof fn lemma_successors(edges: Seq<(nat, nat)>, a: nat, b: nat)
    ensures
        successors(edges, a).contains(b) <==> linked(edges, a, b),
    decreases edges.len(),
{
    if edges.len() > 0 {
        let front = edges.drop_last();
        let rest = successors(front, a);
        lemma_successors(front, a, b);
        if edges.last().0 == a {
            let all = seq![edges.last().1] + rest;
            if rest.contains(b) {
                let i = choose|i: int| 0 <= i < rest.len() && rest[i] == b;
                assert(all[i + 1] == b);
            }
            if b == edges.last().1 {
                assert(all[0] == b);
            }
            if all.contains(b) && b != edges.last().1 {
                let i = choose|i: int| 0 <= i < all.len() && all[i] == b;
                assert(rest[i - 1] == b);
            }
        }
        if linked(front, a, b) {
            let i = choose|i: int| 0 <= i < front.len() && front[i] == (a, b);
            assert(edges[i] == (a, b));
        }
        if edges.last() == (a, b) {
            assert(edges[edges.len() - 1] == (a, b));
        }
        if linked(edges, a, b) && edges.last() != (a, b) {
            let i = choose|i: int| 0 <= i < edges.len() && edges[i] == (a, b);
            assert(front[i] == (a, b));
        }
    }
}

} // verus!
