//! Topological ordering of a small directed graph, computed by petgraph.
use vstd::prelude::*;
use petgraph::algo::toposort;
use petgraph::graph::{Graph, NodeIndex};
use petgraph::Directed;

verus! {

/// `order` lists each of the nodes `0..n` once, and the source of each edge
/// before its destination.
pub open spec fn is_topological_order(n: nat, edges: Seq<(usize, usize)>, order: Seq<usize>) -> bool {
    &&& order.len() == n
    &&& order.no_duplicates()
    &&& forall|i: int| 0 <= i < order.len() ==> #[trigger] order[i] < n
    &&& forall|v: usize| v < n ==> #[trigger] order.contains(v)
    &&& forall|e: int, i: int, j: int|
        #![trigger edges[e], order[i], order[j]]
        0 <= e < edges.len() && 0 <= i < order.len() && 0 <= j < order.len() && order[i]
            == edges[e].0 && order[j] == edges[e].1 ==> i < j
}

/// Relies on `petgraph::algo::toposort`, run on a `petgraph::Graph` whose
/// nodes are `0..n` and whose edges are `edges`: on an acyclic graph it
/// returns every node once, each before its successors; it returns its
/// `Cycle` error exactly when the graph is not acyclic, that is when no such
/// order exists. With `usize` indices the graph has no size limit; adding an
/// edge panics only on an endpoint outside `0..n`.
#[verifier::external_body]
pub(crate) fn topological_order(n: usize, edges: &Vec<(usize, usize)>) -> (r: Option<Vec<usize>>)
    requires
        forall|e: int| 0 <= e < edges@.len() ==> (#[trigger] edges@[e]).0 < n && edges@[e].1 < n,
    ensures
        match r {
            Some(order) => is_topological_order(n as nat, edges@, order@),
            None => forall|order: Seq<usize>| !is_topological_order(n as nat, edges@, order),
        },
{
    let mut graph = Graph::<(), (), Directed, usize>::with_capacity(n, edges.len());
    for _ in 0..n {
        graph.add_node(());
    }
    for &(a, b) in edges.iter() {
        graph.add_edge(NodeIndex::<usize>::new(a), NodeIndex::<usize>::new(b), ());
    }
    match toposort(&graph, None) {
        Ok(order) => Some(order.into_iter().map(|i| i.index()).collect()),
        Err(_) => None,
    }
}

} // verus!
