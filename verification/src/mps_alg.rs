//! The interface of the algorithms that look for a large planar subgraph.

use crate::connectivity::{connected, sub_adjacency};
use crate::graphs::Graph;
use vstd::prelude::*;

verus! {

/// `sub` is a well-formed subgraph of `graph` on the same vertices.
pub open spec fn subgraph(sub: Graph, graph: Graph) -> bool {
    &&& sub.wf()
    &&& sub_adjacency(sub@, graph@)
}

/// `sub` is a subgraph of `graph` on the same vertices in which the
/// endpoints of every edge of `graph` are still connected.
pub open spec fn spanning_subgraph(sub: Graph, graph: Graph) -> bool {
    &&& subgraph(sub, graph)
    &&& forall|u: usize, v: usize| graph.spec_has_edge(u, v) ==> connected(sub@, u, v)
}

/// An algorithm that looks for a planar subgraph with many edges.
pub trait MpsAlgorithm {
    /// A subgraph of `g` on the same vertices.
    fn maximum_planar_subgraph(&self, g: &Graph) -> (mps: Graph)
        requires
            g.wf(),
        ensures
            subgraph(mps, *g),
    ;

    /// The name of the algorithm.
    fn name(&self) -> &'static str;
}

} // verus!
