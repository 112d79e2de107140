use planar_graphs::cacti::{add_triangle_to_graph, connect_cactus, connect_triangles, CactiApproximation};
use planar_graphs::graphs::Graph;

#[test]
fn basic_cacti_approximation_complete_test() {
    for n in 0..10 {
        println!("cacti_approximation_complete_test n = {}", n);

        let graph = Graph::complete(n);
        let cacti = CactiApproximation::maximum_planar_subgraph(&graph);

        let mut available_components = n;
        let mut num_of_edges = 0;

        while available_components >= 3 {
            available_components -= 2;
            num_of_edges += 3;
        }

        if available_components > 0 {
            num_of_edges += available_components - 1;
        }

        assert_eq!(cacti.num_of_vertices(), n);
        assert_eq!(cacti.num_of_edges(), num_of_edges);
    }
}

#[test]
fn add_triangle_adds_three_edges() {
    let mut graph = Graph::empty(4);
    add_triangle_to_graph(&mut graph, 0, 2, 3);
    assert_eq!(graph.num_of_edges(), 3);
    assert!(graph.has_edge(0, 2) && graph.has_edge(2, 3) && graph.has_edge(3, 0));
    assert!(!graph.has_edge(0, 1));
    // a repeated vertex leaves the one edge between the two
    let mut graph = Graph::empty(3);
    add_triangle_to_graph(&mut graph, 1, 1, 2);
    assert_eq!(graph.num_of_edges(), 1);
    assert!(graph.has_edge(1, 2));
}

#[test]
fn connect_triangles_on_a_triangle_with_a_tail() {
    let mut graph = Graph::empty(4);
    graph.add_edge(0, 1);
    graph.add_edge(1, 2);
    graph.add_edge(2, 0);
    graph.add_edge(2, 3);
    let (mut cactus, mut labels) = connect_triangles(&graph);
    assert_eq!(cactus.num_of_vertices(), 4);
    assert_eq!(labels.len(), 4);
    // every edge of the cactus lies in a triangle of three vertices with one label
    for (u, v) in cactus.all_edges() {
        assert_eq!(labels[u], labels[v]);
    }
    assert_eq!(cactus.num_of_edges() % 3, 0);
    connect_cactus(&graph, &mut cactus, &mut labels);
    assert!(cactus.num_of_edges() >= 3);
    assert!(cactus.is_planar());
    // the result is connected, as the graph is
    assert_eq!(planar_graphs::planarity::split_graph_into_connected(&cactus).len(), 1);
}

#[test]
fn a_forest_has_no_triangle_to_glue() {
    let mut path = Graph::empty(4);
    path.add_edge(0, 1);
    path.add_edge(1, 2);
    path.add_edge(2, 3);
    let result = CactiApproximation::maximum_planar_subgraph(&path);
    assert_eq!(result.num_of_vertices(), 4);
    assert_eq!(planar_graphs::planarity::split_graph_into_connected(&result).len(), 1);
    assert!(result.num_of_edges() >= 3);
}

#[test]
fn two_neighbours_that_are_no_neighbours_make_no_triangle() {
    // the vertex 0 has the neighbours 1 and 2, which are not joined
    let mut graph = Graph::empty(3);
    graph.add_edge(0, 1);
    graph.add_edge(0, 2);
    let (cactus, labels) = connect_triangles(&graph);
    assert_eq!(cactus, Graph::empty(3));
    assert_eq!(labels, vec![0, 1, 2]);
    let result = CactiApproximation::maximum_planar_subgraph(&graph);
    assert_eq!(result, graph);
}

#[test]
fn the_cactus_is_a_part_of_the_graph() {
    let mut graph = Graph::bipartite_complete(3, 3);
    graph.add_edge(0, 1);
    graph.add_edge(4, 5);
    let (mut cactus, mut labels) = connect_triangles(&graph);
    assert_eq!(cactus.num_of_edges() % 3, 0);
    assert!(cactus.num_of_edges() >= 3);
    for (u, v) in cactus.all_edges() {
        assert!(graph.has_edge(u, v));
        assert_eq!(labels[u], labels[v]);
        // the edge lies in a triangle of the cactus
        assert!((0..6).any(|w| cactus.has_edge(u, w) && cactus.has_edge(v, w)));
    }
    // of any two vertices of a triangle of the graph one lies in the cactus
    for x in 0..6 {
        for y in 0..6 {
            for z in 0..6 {
                if graph.has_edge(x, y) && graph.has_edge(y, z) && graph.has_edge(x, z) {
                    assert!(cactus.degree(y) > 0 || cactus.degree(z) > 0);
                }
            }
        }
    }
    // joined, the pieces have one edge more than a spanning tree for each triangle
    let triangles = cactus.num_of_edges() / 3;
    connect_cactus(&graph, &mut cactus, &mut labels);
    assert_eq!(cactus.num_of_edges(), 5 + triangles);
    assert!(labels.iter().all(|&label| label == labels[0]));
    let result = CactiApproximation::maximum_planar_subgraph(&graph);
    for (u, v) in result.all_edges() {
        assert!(graph.has_edge(u, v));
    }
    assert!(result.num_of_edges() == 6 || result.num_of_edges() == 7);
}

#[test]
fn joining_the_pieces_counts_one_edge_for_each_piece_less() {
    // two triangles joined by the edge 2 - 3, and the single vertex 6
    let mut graph = Graph::complete(3) + Graph::complete(3);
    graph.add_edge(2, 3);
    graph.add_vertex();
    let (mut cactus, mut labels) = connect_triangles(&graph);
    assert_eq!(cactus.num_of_edges(), 6);
    connect_cactus(&graph, &mut cactus, &mut labels);
    assert_eq!(cactus, graph);
    assert_eq!(labels[0], labels[5]);
    assert_ne!(labels[0], labels[6]);
    assert_eq!(labels[6], 6);
}

#[test]
fn no_triangle_keeps_two_vertices_out_of_the_cactus() {
    for (n, m) in [(7, 21), (9, 20), (12, 30), (12, 40), (15, 50)] {
        let graph = planar_graphs::rand_graphs::general_random_graph(n, m).unwrap();
        let (cactus, labels) = connect_triangles(&graph);
        for (u, v) in cactus.all_edges() {
            assert!(graph.has_edge(u, v));
            assert_eq!(labels[u], labels[v]);
        }
        for x in 0..n {
            for y in 0..n {
                for z in 0..n {
                    if graph.has_edge(x, y) && graph.has_edge(y, z) && graph.has_edge(x, z) {
                        assert!(cactus.degree(y) > 0 || cactus.degree(z) > 0);
                    }
                }
            }
        }
        let pieces = (0..n).filter(|&v| labels[v] == v).count();
        assert_eq!(2 * cactus.num_of_edges() + 3 * pieces, 3 * n);
    }
}

#[test]
fn triangles_on_complete_graphs_leave_one_piece() {
    for n in 1..13 {
        let graph = Graph::complete(n);
        let (cactus, labels) = connect_triangles(&graph);
        assert_eq!(cactus.num_of_edges(), 3 * ((n - 1) / 2));
        let pieces = (0..n).filter(|&v| labels[v] == v).count();
        assert_eq!(pieces, if n % 2 == 1 { 1 } else { 2 });
        let result = CactiApproximation::maximum_planar_subgraph(&graph);
        assert_eq!(result.num_of_edges(), n - 1 + (n - 1) / 2);
    }
}
