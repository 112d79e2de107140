use planar_graphs::graphs::Graph;
use planar_graphs::planarity::{is_planar, sorted_edges, split_graph_into_connected, trivial_test};

#[test]
fn k4_test() {
    let graph = Graph::complete(4);
    assert!(graph.is_planar());
}

#[test]
fn k5_test() {
    let graph = Graph::complete(5);
    assert!(!graph.is_planar());
}

#[test]
fn k6_test() {
    let graph = Graph::complete(6);
    assert!(!graph.is_planar());
}

#[test]
fn k5_minus_edge_test() {
    let mut graph = Graph::complete(5);
    graph.remove_edge(0, 1);
    assert!(graph.is_planar());
}

#[test]
fn k23_test() {
    let graph = Graph::bipartite_complete(2, 3);
    assert!(graph.is_planar());
}

#[test]
fn k33_test() {
    let graph = Graph::bipartite_complete(3, 3);
    assert!(!graph.is_planar());
}

#[test]
fn k34_test() {
    let graph = Graph::bipartite_complete(3, 4);
    assert!(!graph.is_planar());
}

#[test]
fn k33_minus_edge_test() {
    let mut graph = Graph::bipartite_complete(3, 3);
    assert!(graph.remove_edge(0, 3));
    assert!(graph.is_planar());
}

#[test]
fn tarjan_test() {
    let mut graph = Graph::empty(9);
    graph.add_edge(0, 1);
    graph.add_edge(0, 4);
    graph.add_edge(0, 5);
    graph.add_edge(0, 6);
    graph.add_edge(1, 2);
    graph.add_edge(1, 3);
    graph.add_edge(1, 4);
    graph.add_edge(2, 3);
    graph.add_edge(4, 5);
    graph.add_edge(6, 8);
    graph.add_edge(6, 7);
    graph.add_edge(7, 8);
    assert!(graph.is_planar());
}

#[test]
fn free_function_agrees_with_method() {
    for n in 0..9 {
        let graph = Graph::complete(n);
        assert_eq!(is_planar(&graph), graph.is_planar());
        assert_eq!(is_planar(&graph), n <= 4);
    }
}

#[test]
fn trivial_test_decides_small_and_dense_graphs() {
    assert_eq!(trivial_test(&Graph::new()), Some(true));
    assert_eq!(trivial_test(&Graph::empty(4)), Some(true));
    assert_eq!(trivial_test(&Graph::complete(4)), Some(true));
    assert_eq!(trivial_test(&Graph::empty(5)), None);
    // 5 vertices: the bound is 9 edges
    let mut graph = Graph::complete(5);
    assert_eq!(trivial_test(&graph), Some(false));
    graph.remove_edge(2, 3);
    assert_eq!(graph.num_of_edges(), 9);
    assert_eq!(trivial_test(&graph), None);
    // 6 vertices: the bound is 12 edges
    let mut graph = Graph::complete(6);
    assert_eq!(trivial_test(&graph), Some(false));
    graph.remove_edge(0, 1);
    graph.remove_edge(2, 3);
    assert_eq!(trivial_test(&graph), Some(false));
    graph.remove_edge(4, 5);
    assert_eq!(graph.num_of_edges(), 12);
    assert_eq!(trivial_test(&graph), None);
}

#[test]
fn empty_and_edgeless_graphs_are_planar() {
    assert!(Graph::new().is_planar());
    assert!(Graph::empty(0).is_planar());
    assert!(Graph::empty(1).is_planar());
    assert!(Graph::empty(7).is_planar());
    assert!(Graph::empty(100).is_planar());
}

#[test]
fn disjoint_union_with_a_nonplanar_component_is_not_planar() {
    // a path on the vertices 0..4 beside a K_{3,3} on the vertices 4..10
    let mut graph = Graph::empty(10);
    graph.add_edge(0, 1);
    graph.add_edge(1, 2);
    graph.add_edge(2, 3);
    for u in 4..7 {
        for v in 7..10 {
            assert!(graph.add_edge(u, v));
        }
    }
    assert_eq!(graph.num_of_edges(), 12);
    assert_eq!(trivial_test(&graph), None);
    assert!(!graph.is_planar());
    // without one edge of the K_{3,3} both components are planar
    assert!(graph.remove_edge(4, 7));
    assert!(graph.is_planar());
}

#[test]
fn planarity_survives_relabeling_and_insertion_order() {
    // K_{3,3} with the sides interleaved, edges inserted in two orders
    let sides = [(0usize, 1usize), (0, 3), (0, 5), (2, 1), (2, 3), (2, 5), (4, 1), (4, 3), (4, 5)];
    let mut forward = Graph::empty(6);
    for &(u, v) in sides.iter() {
        assert!(forward.add_edge(u, v));
    }
    let mut backward = Graph::empty(6);
    for &(u, v) in sides.iter().rev() {
        assert!(backward.add_edge(v, u));
    }
    assert_eq!(forward, backward);
    assert!(!forward.is_planar());
    assert!(!backward.is_planar());
    assert_eq!(Graph::bipartite_complete(3, 3).is_planar(), forward.is_planar());
    // a wheel on six vertices, relabeled by v -> 5 - v
    let wheel = [(0usize, 1usize), (0, 2), (0, 3), (0, 4), (0, 5), (1, 2), (2, 3), (3, 4), (4, 5), (5, 1)];
    let mut plain = Graph::empty(6);
    let mut relabeled = Graph::empty(6);
    for &(u, v) in wheel.iter() {
        assert!(plain.add_edge(u, v));
        assert!(relabeled.add_edge(5 - u, 5 - v));
    }
    assert!(plain.is_planar());
    assert!(relabeled.is_planar());
}

#[test]
fn sorted_edges_lists_each_edge_once_in_order() {
    let mut graph = Graph::empty(4);
    graph.add_edge(3, 1);
    graph.add_edge(2, 0);
    graph.add_edge(1, 0);
    graph.add_edge(3, 2);
    assert_eq!(sorted_edges(&graph), vec![(0, 1), (0, 2), (1, 3), (2, 3)]);
    assert_eq!(sorted_edges(&Graph::complete(3)), vec![(0, 1), (0, 2), (1, 2)]);
    assert_eq!(sorted_edges(&Graph::empty(3)), vec![]);
}

#[test]
fn grid_and_petersen() {
    // the 3 x 3 grid is planar
    let mut grid = Graph::empty(9);
    for &(u, v) in [(0, 1), (1, 2), (3, 4), (4, 5), (6, 7), (7, 8), (0, 3), (3, 6), (1, 4), (4, 7), (2, 5), (5, 8)].iter() {
        assert!(grid.add_edge(u, v));
    }
    assert!(grid.is_planar());
    // the Petersen graph is not, though it passes the edge bound
    let mut petersen = Graph::empty(10);
    for i in 0..5 {
        assert!(petersen.add_edge(i, (i + 1) % 5));
        assert!(petersen.add_edge(i, i + 5));
        assert!(petersen.add_edge(5 + i, 5 + (i + 2) % 5));
    }
    assert_eq!(petersen.num_of_edges(), 15);
    assert_eq!(trivial_test(&petersen), None);
    assert!(!petersen.is_planar());
}

#[test]
fn split_graph_into_connected_numbers_each_component_anew() {
    // a triangle on 0, 2, 4, an edge 1 - 5 and the single vertex 3
    let mut graph = Graph::empty(6);
    graph.add_edge(0, 2);
    graph.add_edge(2, 4);
    graph.add_edge(4, 0);
    graph.add_edge(5, 1);
    let components = split_graph_into_connected(&graph);
    assert_eq!(components.len(), 3);
    assert_eq!(components[0], Graph::complete(3));
    assert_eq!(components[1], Graph::complete(2));
    assert_eq!(components[2], Graph::empty(1));
    assert!(split_graph_into_connected(&Graph::new()).is_empty());
    assert_eq!(split_graph_into_connected(&Graph::empty(4)).len(), 4);
    assert_eq!(split_graph_into_connected(&Graph::complete(7)), vec![Graph::complete(7)]);
}

#[test]
fn components_keep_vertices_and_edges() {
    let mut graph = Graph::bipartite_complete(2, 3);
    for _ in 0..4 {
        graph.add_vertex();
    }
    graph.add_edge(5, 6);
    graph.add_edge(6, 7);
    let components = split_graph_into_connected(&graph);
    assert_eq!(components.len(), 3);
    let vertices: usize = components.iter().map(|c| c.num_of_vertices()).sum();
    let edges: usize = components.iter().map(|c| c.num_of_edges()).sum();
    assert_eq!(vertices, 9);
    assert_eq!(edges, 8);
    // a path on three vertices, numbered from its lowest vertex on
    let mut path = Graph::empty(3);
    path.add_edge(0, 1);
    path.add_edge(1, 2);
    assert_eq!(components[1], path);
    assert_eq!(components[2], Graph::empty(1));
}

#[test]
fn every_graph_on_at_most_four_vertices_is_planar() {
    for n in 0..=4usize {
        let mut pairs = Vec::new();
        for u in 0..n {
            for v in u + 1..n {
                pairs.push((u, v));
            }
        }
        for mask in 0..(1usize << pairs.len()) {
            let mut graph = Graph::empty(n);
            for (k, &(u, v)) in pairs.iter().enumerate() {
                if mask & (1 << k) != 0 {
                    assert!(graph.add_edge(u, v));
                }
            }
            assert_eq!(trivial_test(&graph), Some(true));
            assert!(graph.is_planar());
            assert!(is_planar(&graph));
        }
    }
}

#[test]
fn graphs_with_too_many_edges_are_not_planar() {
    for n in 5..12usize {
        // the complete graph without n * (n - 1) / 2 - (3 * n - 5) of its edges
        let mut graph = Graph::complete(n);
        let mut extra = n * (n - 1) / 2 - (3 * n - 5);
        'outer: for u in 0..n {
            for v in u + 1..n {
                if extra == 0 {
                    break 'outer;
                }
                assert!(graph.remove_edge(u, v));
                extra -= 1;
            }
        }
        assert_eq!(graph.num_of_edges(), 3 * n - 5);
        assert_eq!(trivial_test(&graph), Some(false));
        assert!(!graph.is_planar());
    }
}

#[test]
fn components_stand_by_their_smallest_vertex() {
    // the pieces {0, 3}, {1, 4, 5} and {2}: a pair, a path and a single vertex
    let mut graph = Graph::empty(6);
    graph.add_edge(3, 0);
    graph.add_edge(5, 4);
    graph.add_edge(4, 1);
    let components = split_graph_into_connected(&graph);
    let mut path = Graph::empty(3);
    path.add_edge(0, 1);
    path.add_edge(1, 2);
    assert_eq!(components, vec![Graph::complete(2), path, Graph::empty(1)]);
    assert_eq!(
        split_graph_into_connected(&(Graph::complete(5) + Graph::complete(4))),
        vec![Graph::complete(5), Graph::complete(4)]
    );
}

#[test]
fn graphs_without_edges_are_planar() {
    for n in [0, 1, 4, 5, 6, 50] {
        assert!(is_planar(&Graph::empty(n)));
        assert!(Graph::empty(n).is_planar());
    }
}
