//! The directed graph that the reachability closure is searched in. It is
//! petgraph's `Graph`; what this library relies on is stated here and is taken
//! on trust.

use petgraph::Directed;
use petgraph::graph::Graph;
use petgraph::graph::NodeIndex;
use petgraph::visit::Dfs;
use petgraph::visit::Walker;
use vstd::prelude::*;
use crate::reach::reaches;

verus! {

/// petgraph's `Graph`, taken as it is: nothing of what is inside is known here.
#[verifier::external_type_specification]
#[verifier::external_body]
#[verifier::reject_recursive_types(N)]
#[verifier::reject_recursive_types(E)]
#[verifier::reject_recursive_types(Ty)]
#[verifier::reject_recursive_types(Ix)]
pub struct ExGraph<N, E, Ty, Ix>(Graph<N, E, Ty, Ix>);

/// petgraph's marker `Directed`, which makes the edges of a `Graph` directed.
#[verifier::external_type_specification]
#[verifier::external_body]
pub struct ExDirected(Directed);

/// A directed graph without weights whose nodes are numbered by `usize`.
pub type TypeGraph = Graph<(), (), Directed, usize>;

/// How many nodes a graph has. They are numbered from 0 in the order in
/// which they were added.
pub uninterp spec fn graph_nodes(g: TypeGraph) -> nat;

/// The pairs of source and target between which a graph has an edge.
pub uninterp spec fn graph_edges(g: TypeGraph) -> Set<(int, int)>;

/// The step relation of a set of edges.
pub open spec fn edge_step(edges: Set<(int, int)>) -> spec_fn(int, int) -> bool {
    |a: int, b: int| edges.contains((a, b))
}

/// `Graph::with_capacity(0, 0)`: a graph with no node and no edge.
#[verifier::external_body]
pub(crate) fn graph_new() -> (g: TypeGraph)
    ensures
        graph_nodes(g) == 0,
        graph_edges(g) == Set::<(int, int)>::empty(),
{
    Graph::with_capacity(0, 0)
}

/// `Graph::add_node`: the new node takes the next number, and no edge comes or
/// goes. With `usize` numbers the call has no limit to run into.
#[verifier::external_body]
pub(crate) fn graph_add_node(g: &mut TypeGraph) -> (node: usize)
    ensures
        node == graph_nodes(*old(g)),
        graph_nodes(*final(g)) == graph_nodes(*old(g)) + 1,
        graph_edges(*final(g)) == graph_edges(*old(g)),
{
    g.add_node(()).index()
}

/// `Graph::add_edge`: one more edge from `a` to `b`, parallel edges allowed.
/// The call panics on a node that the graph does not have, which `requires`
/// rules out.
#[verifier::external_body]
pub(crate) fn graph_add_edge(g: &mut TypeGraph, a: usize, b: usize)
    requires
        a < graph_nodes(*old(g)),
        b < graph_nodes(*old(g)),
    ensures
        graph_nodes(*final(g)) == graph_nodes(*old(g)),
        graph_edges(*final(g)) == graph_edges(*old(g)).insert((a as int, b as int)),
{
    g.add_edge(NodeIndex::new(a), NodeIndex::new(b), ());
}

/// `Dfs::new` walked to its end: the depth-first search from `start` emits
/// each node that `start` reaches along edges, `start` among them, once, and
/// no other node.
#[verifier::external_body]
pub(crate) fn graph_dfs(g: &TypeGraph, start: usize) -> (found: Vec<usize>)
    requires
        start < graph_nodes(*g),
    ensures
        forall|v: int|
            #[trigger] reaches(edge_step(graph_edges(*g)), start as int, v) <==> exists|i: int|
                0 <= i < found@.len() && found@[i] == v,
        found@.no_duplicates(),
{
    Dfs::new(g, NodeIndex::new(start)).iter(g).map(|n| n.index()).collect()
}

} // verus!
