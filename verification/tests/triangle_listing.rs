use planar_graphs::graphs::Graph;
use planar_graphs::triangle_listing::{list_triangles, sort_3tuple, TriangleLister};

#[test]
fn sort_3tuple_orders_every_arrangement() {
    assert_eq!(sort_3tuple(1, 2, 3), (1, 2, 3));
    assert_eq!(sort_3tuple(1, 3, 2), (1, 2, 3));
    assert_eq!(sort_3tuple(2, 1, 3), (1, 2, 3));
    assert_eq!(sort_3tuple(2, 3, 1), (1, 2, 3));
    assert_eq!(sort_3tuple(3, 1, 2), (1, 2, 3));
    assert_eq!(sort_3tuple(3, 2, 1), (1, 2, 3));
    assert_eq!(sort_3tuple(5, 5, 1), (1, 5, 5));
    assert_eq!(sort_3tuple(7, 7, 7), (7, 7, 7));
    assert_eq!(sort_3tuple("b", "c", "a"), ("a", "b", "c"));
}

fn binomial(n: usize, k: usize) -> usize {
    if k > n {
        return 0;
    }

    if k == 0 {
        return 1;
    }

    (n * binomial(n - 1, k - 1)) / k
}

#[test]
fn list_triangles_test() {
    let mut graph = Graph::complete(5);
    graph.remove_edge(0, 1);
    graph.remove_edge(3, 4);

    let mut triangles = list_triangles(&graph)
        .into_iter()
        .map(|(a, b, c)| sort_3tuple(a, b, c))
        .collect::<Vec<(usize, usize, usize)>>();
    triangles.sort();

    assert_eq!(triangles.len(), 4);
    assert_eq!(triangles[0], (0, 2, 3));
    assert_eq!(triangles[1], (0, 2, 4));
    assert_eq!(triangles[2], (1, 2, 3));
    assert_eq!(triangles[3], (1, 2, 4));
}

#[test]
fn list_triangles_complete_test() {
    for n in 0..10 {
        println!("list_triangles_complete_test n = {}", n);

        let graph = Graph::complete(n);
        let triangles = list_triangles(&graph);

        assert_eq!(triangles.len(), binomial(n, 3));
    }
}

#[test]
fn lister_hands_out_each_triangle_once() {
    // two triangles that share the edge 1 - 2, and a pendant vertex
    let mut graph = Graph::empty(5);
    for &(u, v) in [(0, 1), (0, 2), (1, 2), (1, 3), (2, 3), (3, 4)].iter() {
        assert!(graph.add_edge(u, v));
    }
    let mut lister = TriangleLister::new(&graph);
    let mut found = Vec::new();
    while let Some((a, b, c)) = lister.next() {
        assert!(graph.has_edge(a, b) && graph.has_edge(b, c) && graph.has_edge(a, c));
        found.push(sort_3tuple(a, b, c));
    }
    assert!(lister.next().is_none());
    found.sort();
    assert_eq!(found, vec![(0, 1, 2), (1, 2, 3)]);
}

#[test]
fn graphs_without_triangles() {
    assert!(list_triangles(&Graph::new()).is_empty());
    assert!(list_triangles(&Graph::empty(3)).is_empty());
    assert!(list_triangles(&Graph::bipartite_complete(3, 4)).is_empty());
}

#[test]
fn the_vertex_of_the_largest_degree_is_in_turn_first() {
    // the vertex 0 is joined to all others, which form a path
    let mut graph = Graph::empty(6);
    for v in 1..6 {
        graph.add_edge(0, v);
    }
    for v in 1..5 {
        graph.add_edge(v, v + 1);
    }
    let mut lister = TriangleLister::new(&graph);
    let mut found = Vec::new();
    while let Some((v, a, b)) = lister.next() {
        assert_eq!(v, 0);
        found.push(sort_3tuple(v, a, b));
    }
    found.sort();
    assert_eq!(found, vec![(0, 1, 2), (0, 2, 3), (0, 3, 4), (0, 4, 5)]);
}
