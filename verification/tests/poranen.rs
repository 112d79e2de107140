use planar_graphs::graphs::Graph;
use planar_graphs::poranen::{calinescu_basic_mps, my_mps, poranen_mps, schmid_d4_mps};

#[test]
fn poranen_calinescu_basic_mps_complete_test() {
    for n in 3..10 {
        println!("cacti_approximation_complete_test n = {}", n);

        let graph = Graph::complete(n);
        let mps = calinescu_basic_mps(&graph);

        let mut available_components = n;
        let mut num_of_edges = 0;

        while available_components >= 3 {
            available_components -= 2;
            num_of_edges += 3;
        }

        if available_components > 0 {
            num_of_edges += available_components - 1;
        }

        assert_eq!(mps.num_of_vertices(), n);
        assert_eq!(mps.num_of_edges(), num_of_edges);
    }
}

#[test]
fn poranen_schmid_d4_mps_complete_test() {
    for (n, m) in [(3, 3), (4, 5), (5, 6), (6, 8), (7, 10), (8, 11), (9, 13)] {
        let graph = Graph::complete(n);
        let mps = schmid_d4_mps(&graph);
        assert_eq!(mps.num_of_vertices(), n);
        assert_eq!(mps.num_of_edges(), m);
    }
}

#[test]
fn free_functions_on_complete_graphs() {
    for (n, m) in [(3, 3), (4, 5), (5, 7), (6, 8), (7, 10), (8, 12), (9, 14)] {
        let mps = my_mps(&Graph::complete(n));
        assert_eq!(mps.num_of_vertices(), n);
        assert_eq!(mps.num_of_edges(), m);
    }
    for (n, m) in [(3, 3), (4, 5), (5, 7), (6, 9), (7, 11), (8, 13), (9, 15)] {
        let mps = poranen_mps(&Graph::complete(n));
        assert_eq!(mps.num_of_vertices(), n);
        assert_eq!(mps.num_of_edges(), m);
    }
}

#[test]
fn a_forest_is_returned_whole() {
    let mut forest = Graph::empty(7);
    forest.add_edge(0, 1);
    forest.add_edge(1, 2);
    forest.add_edge(1, 3);
    forest.add_edge(4, 5);
    assert_eq!(calinescu_basic_mps(&forest), forest);
    assert_eq!(schmid_d4_mps(&forest), forest);
    assert_eq!(my_mps(&forest), forest);
    assert_eq!(poranen_mps(&forest), forest);
}

#[test]
fn edges_on_complete_graphs_follow_from_the_phases() {
    for n in 1..15 {
        let graph = Graph::complete(n);
        let left = n - 1;
        assert_eq!(calinescu_basic_mps(&graph).num_of_edges(), left + left / 2);
        assert_eq!(schmid_d4_mps(&graph).num_of_edges(), left + 2 * (left / 3) + (left % 3) / 2);
        assert_eq!(my_mps(&graph).num_of_edges(), left + 3 * (left / 4) + 2 * ((left % 4) / 3) + ((left % 4) % 3) / 2);
        if n >= 3 {
            assert_eq!(poranen_mps(&graph).num_of_edges(), 2 * n - 3);
        }
    }
}
