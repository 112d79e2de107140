use planar_graphs::graphs::Graph;

#[test]
fn adding_edge() {
    let mut graph = Graph::empty(2);
    assert!(graph.add_edge(0, 1));
    assert!(!graph.add_edge(2, 3));
    assert_eq!(graph.num_of_edges(), 1);
}

#[test]
fn create_bipartite_complete() {
    let graph = Graph::bipartite_complete(3, 3);
    assert_eq!(graph.num_of_vertices(), 6);
    assert_eq!(graph.num_of_edges(), 9);
    assert!(!graph.has_edge(0, 0));
    assert!(!graph.has_edge(0, 1));
    assert!(!graph.has_edge(0, 2));
    assert!(graph.has_edge(0, 3));
    assert!(graph.has_edge(0, 4));
    assert!(graph.has_edge(0, 5));
}

#[test]
fn new_and_default_graphs_are_empty() {
    let graph = Graph::new();
    assert_eq!(graph.num_of_vertices(), 0);
    assert_eq!(graph.num_of_edges(), 0);
    assert_eq!(graph, Graph::default());
    assert_eq!(graph, Graph::empty(0));
    assert_eq!(graph.vertices(), 0..0);
}

#[test]
fn complete_graphs() {
    assert_eq!(Graph::complete(0), Graph::new());
    for n in 1..8 {
        let graph = Graph::complete(n);
        assert_eq!(graph.num_of_vertices(), n);
        assert_eq!(graph.num_of_edges(), n * (n - 1) / 2);
        for u in 0..n {
            assert_eq!(graph.degree(u), n - 1);
            for v in 0..n {
                assert_eq!(graph.has_edge(u, v), u != v);
            }
        }
    }
}

#[test]
fn bipartite_complete_graphs() {
    for (n, m) in [(0, 0), (0, 3), (2, 0), (1, 1), (2, 3), (4, 2)] {
        let graph = Graph::bipartite_complete(n, m);
        assert_eq!(graph.num_of_vertices(), n + m);
        assert_eq!(graph.num_of_edges(), n * m);
        for u in 0..n + m {
            for v in 0..n + m {
                assert_eq!(graph.has_edge(u, v), (u < n) != (v < n));
            }
        }
    }
}

#[test]
fn add_edge_refuses_loops_and_repeats() {
    let mut graph = Graph::empty(3);
    assert!(graph.is_valid_vertex(2));
    assert!(!graph.is_valid_vertex(3));
    assert!(!graph.add_edge(1, 1));
    assert!(!graph.add_edge(0, 3));
    assert!(!graph.add_edge(3, 0));
    assert!(graph.add_edge(2, 0));
    assert!(!graph.add_edge(2, 0));
    assert!(!graph.add_edge(0, 2));
    assert_eq!(graph.num_of_edges(), 1);
    assert!(graph.has_edge(0, 2) && graph.has_edge(2, 0));
    assert!(!graph.has_edge(0, 1));
    assert!(!graph.has_edge(0, 7));
}

#[test]
fn remove_edge_takes_both_directions() {
    let mut graph = Graph::complete(4);
    assert!(graph.remove_edge(3, 1));
    assert!(!graph.remove_edge(1, 3));
    assert!(!graph.remove_edge(1, 4));
    assert!(!graph.remove_edge(4, 1));
    assert!(!graph.remove_edge(2, 2));
    assert_eq!(graph.num_of_edges(), 5);
    assert!(!graph.has_edge(1, 3) && !graph.has_edge(3, 1));
    assert_eq!(graph.degree(1), 2);
    assert_eq!(graph.degree(0), 3);
}

#[test]
fn add_vertex_returns_the_new_index() {
    let mut graph = Graph::empty(2);
    assert_eq!(graph.add_vertex(), 2);
    assert_eq!(graph.add_vertex(), 3);
    assert_eq!(graph.num_of_vertices(), 4);
    assert_eq!(graph.num_of_edges(), 0);
    assert!(graph.add_edge(3, 0));
    assert_eq!(graph.vertices(), 0..4);
}

#[test]
fn neighbors_and_degree_of_missing_vertices() {
    let graph = Graph::bipartite_complete(1, 2);
    assert!(graph.neighbors(3).is_none());
    assert_eq!(graph.degree(3), 0);
    let of_zero = graph.neighbors(0).unwrap();
    assert_eq!(of_zero.len(), 2);
    assert!(of_zero.contains(&1) && of_zero.contains(&2));
    let mut list = graph.neighbor_list(0);
    list.sort();
    assert_eq!(list, vec![1, 2]);
    assert_eq!(graph.neighbor_list(2), vec![0]);
}

#[test]
fn all_edges_and_all_arcs() {
    let mut graph = Graph::empty(4);
    graph.add_edge(2, 1);
    graph.add_edge(0, 3);
    graph.add_edge(3, 2);
    let mut edges = graph.all_edges();
    edges.sort();
    assert_eq!(edges, vec![(0, 3), (1, 2), (2, 3)]);
    let mut arcs = graph.all_arcs();
    arcs.sort();
    assert_eq!(arcs, vec![(0, 3), (1, 2), (2, 1), (2, 3), (3, 0), (3, 2)]);
    assert!(Graph::empty(5).all_edges().is_empty());
    assert!(Graph::empty(5).all_arcs().is_empty());
    assert_eq!(Graph::complete(6).all_edges().len(), 15);
    assert_eq!(Graph::complete(6).all_arcs().len(), 30);
}

#[test]
fn adjacency_is_the_same_in_both_directions() {
    let mut graph = Graph::bipartite_complete(2, 2);
    graph.add_edge(0, 1);
    for u in 0..4 {
        for v in 0..4 {
            assert_eq!(graph.has_edge(u, v), graph.has_edge(v, u));
        }
    }
}

#[test]
fn clone_is_equal_and_independent() {
    let graph = Graph::complete(4);
    let mut copy = graph.clone();
    assert_eq!(copy, graph);
    copy.remove_edge(0, 1);
    assert_ne!(copy, graph);
    assert_eq!(graph.num_of_edges(), 6);
}

#[test]
fn sum_puts_the_second_graph_after_the_first() {
    let sum = Graph::complete(3) + Graph::bipartite_complete(1, 2);
    assert_eq!(sum.num_of_vertices(), 6);
    assert_eq!(sum.num_of_edges(), 5);
    let mut edges = sum.all_edges();
    edges.sort();
    assert_eq!(edges, vec![(0, 1), (0, 2), (1, 2), (3, 4), (3, 5)]);
    assert_eq!(Graph::new() + Graph::complete(2), Graph::complete(2));
    assert_eq!(Graph::empty(2) + Graph::new(), Graph::empty(2));
    // a planar graph beside one that is not
    assert!(!(Graph::complete(4) + Graph::complete(5)).is_planar());
    assert!((Graph::complete(4) + Graph::complete(4)).is_planar());
}

#[test]
fn neighbor_lists_there_and_back() {
    let graph = Graph::bipartite_complete(2, 3);
    let lists = graph.neighbor_lists();
    assert_eq!(lists.len(), 5);
    assert_eq!(Graph::from_neighbor_lists(5, 6, &lists), Some(graph));
    // a wrong number of edges, a missing direction, a loop, a stranger
    assert_eq!(Graph::from_neighbor_lists(5, 5, &lists), None);
    assert_eq!(Graph::from_neighbor_lists(4, 6, &lists), None);
    assert_eq!(Graph::from_neighbor_lists(2, 1, &vec![vec![1], vec![]]), None);
    assert_eq!(Graph::from_neighbor_lists(1, 0, &vec![vec![0]]), None);
    assert_eq!(Graph::from_neighbor_lists(2, 1, &vec![vec![2], vec![0]]), None);
    // a neighbour listed twice counts once
    let twice = Graph::from_neighbor_lists(2, 1, &vec![vec![1, 1], vec![0]]).unwrap();
    assert_eq!(twice, Graph::complete(2));
    assert_eq!(Graph::from_neighbor_lists(0, 0, &vec![]), Some(Graph::new()));
}
