//! Simple undirected graphs and planarity: a planarity test, heuristics for
//! large planar subgraphs, the programs of three exact algorithms for a
//! largest planar subgraph, random graphs, and the listing of triangles.

pub mod cacti;
pub mod complete_runs;
pub mod connectivity;
pub mod facial_walks;
pub mod graphs;
pub mod ilp;
pub mod lr_coloring;
pub mod match_merge;
pub mod mps_alg;
pub mod planarity;
pub mod poranen;
pub mod pq_tree;
pub mod rand_graphs;
pub mod schnyder;
pub mod sorting;
pub mod triangle_listing;
pub mod union_find;
