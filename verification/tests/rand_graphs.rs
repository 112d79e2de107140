use planar_graphs::graphs::Graph;
use planar_graphs::rand_graphs::{
    bliztstein_generation, choose_partner, draw_numbers, drawing_done, general_random_graph, is_graphical,
    is_graphical_i_j, random_regular_graph, redraw_place, sequence_fits, NOT_GRAPHICAL, TOO_MANY_EDGES,
};

fn bliztstein_test(d: &[usize]) {
    let graph = bliztstein_generation(d).unwrap();
    assert_eq!(graph.num_of_edges(), d.iter().sum::<usize>() / 2);

    for (u, &du) in d.iter().enumerate() {
        match graph.neighbors(u) {
            Some(neighbors) => {
                assert_eq!(neighbors.len(), du);
            }
            None => panic!("Vertex {} not found", u),
        }
    }
}

fn general_random_test(n: usize, k: usize) {
    let graph = general_random_graph(n, k);

    match graph {
        Ok(graph) => {
            assert_eq!(graph.num_of_vertices(), n);
            assert_eq!(graph.num_of_edges(), k);
        }
        Err(_) => {
            assert!(2 * k > n * n - n);
        }
    }
}

#[test]
fn bliztstein_generation_regular_test() {
    let d = vec![10; 1000];
    bliztstein_test(&d);
}

#[test]
fn bliztstein_generation_test() {
    let d = vec![
        7, 8, 5, 1, 1, 2, 8, 10, 4, 2, 4, 5, 3, 6, 7, 3, 2, 7, 6, 1, 2, 9, 6, 1, 3, 4, 6, 3, 3, 3,
        2, 4, 4,
    ];
    bliztstein_test(&d);
}

#[test]
fn bliztstein_generation_complete_test() {
    let d = vec![99; 100];
    bliztstein_test(&d);
}

#[test]
fn bliztstein_generation_non_graphical_test() {
    let d = vec![4, 3, 2, 1, 0];
    assert!(bliztstein_generation(&d).is_err());
}

#[test]
fn general_random_0_vertices_0_edges_test() {
    general_random_test(0, 0)
}

#[test]
fn general_random_100_vertices_0_edges_test() {
    general_random_test(100, 0)
}

#[test]
fn general_random_0_vertices_100_edges_test() {
    general_random_test(0, 100)
}

#[test]
fn general_random_100_vertices_100_edges_test() {
    general_random_test(100, 100)
}

#[test]
fn random_graph_deg2_test() {
    let graph = random_regular_graph(1000, 2);
    assert!(graph.is_ok());
    assert!(graph.unwrap().is_planar());
}

#[test]
fn is_graphical_small_sequences() {
    assert!(is_graphical(&[0]));
    assert!(is_graphical(&[1, 1]));
    assert!(!is_graphical(&[1, 0]));
    assert!(!is_graphical(&[2, 2]));
    assert!(is_graphical(&[2, 2, 2]));
    assert!(is_graphical(&[3, 3, 3, 3]));
    assert!(!is_graphical(&[3, 3, 3, 1]));
    assert!(is_graphical(&[3, 2, 2, 2, 1]));
    assert!(!is_graphical(&[4, 3, 2, 1, 0]));
    assert!(!is_graphical(&[4, 4, 1, 1, 1, 1]));
    assert!(is_graphical(&[1, 3, 2, 2, 2]));
    assert!(!is_graphical(&[5, 1, 1, 1]));
    assert!(is_graphical(&[0, 0, 0]));
}

#[test]
fn is_graphical_i_j_lowers_and_restores() {
    let mut d = vec![2, 2, 2];
    assert!(is_graphical_i_j(&mut d, 0, 1));
    assert_eq!(d, vec![2, 2, 2]);
    // taking an edge off the path 1 - 2 - 1 at its two ends leaves 0, 2, 0
    let mut d = vec![1, 2, 1];
    assert!(!is_graphical_i_j(&mut d, 0, 2));
    assert!(is_graphical_i_j(&mut d, 0, 1));
    assert_eq!(d, vec![1, 2, 1]);
}

#[test]
fn generation_fails_with_its_reason() {
    assert_eq!(bliztstein_generation(&[1, 0]).unwrap_err(), NOT_GRAPHICAL);
    assert_eq!(bliztstein_generation(&[3, 3, 3]).unwrap_err(), "The degree sequence is not graphical.");
    assert_eq!(random_regular_graph(5, 3).unwrap_err(), NOT_GRAPHICAL);
    assert_eq!(general_random_graph(4, 7).unwrap_err(), TOO_MANY_EDGES);
    assert_eq!(general_random_graph(0, 1).unwrap_err(), "The number of edges is too large.");
}

#[test]
fn general_random_graph_can_be_complete() {
    assert_eq!(general_random_graph(6, 15).unwrap(), Graph::complete(6));
    assert_eq!(general_random_graph(1, 0).unwrap(), Graph::empty(1));
}

#[test]
fn regular_graphs_have_their_degree() {
    for (n, d) in [(1, 0), (2, 1), (4, 3), (6, 3), (10, 4), (7, 2)] {
        let graph = random_regular_graph(n, d).unwrap();
        assert_eq!(graph.num_of_vertices(), n);
        assert_eq!(graph.num_of_edges(), n * d / 2);
        for v in 0..n {
            assert_eq!(graph.degree(v), d);
        }
    }
}

#[test]
fn a_star_is_drawn_as_it_is() {
    let graph = bliztstein_generation(&[1, 1, 3, 1]).unwrap();
    let mut star = Graph::empty(4);
    star.add_edge(2, 0);
    star.add_edge(2, 1);
    star.add_edge(2, 3);
    assert_eq!(graph, star);
}

#[test]
fn numbers_are_drawn_for_every_step() {
    for m in [0, 1, 2, 7, 40] {
        let draws = draw_numbers(m);
        assert_eq!(draws.len(), m);
        for (k, &r) in draws.iter().enumerate() {
            assert!(r <= m - 1 - k);
        }
    }
}

#[test]
fn the_partner_is_the_first_drawn_that_fits() {
    // the vertex 0 of degree 2 with the candidates 1 and 2: both fit
    let mut d = vec![2, 1, 1];
    let mut candidates = vec![1, 2];
    assert_eq!(choose_partner(&mut d, 0, &mut candidates, &vec![1, 0]), Some(2));
    assert_eq!(d, vec![2, 1, 1]);
    assert_eq!(candidates, vec![1]);
    let mut candidates = vec![1, 2];
    assert_eq!(choose_partner(&mut d, 0, &mut candidates, &vec![0, 0]), Some(1));
    assert_eq!(candidates, vec![2]);
}

#[test]
fn a_candidate_that_does_not_fit_is_passed_over() {
    // degrees 1, 1, 2, 2: joining the two vertices of degree 1 leaves 0, 0, 2, 2
    let mut d = vec![1, 1, 2, 2];
    let mut candidates = vec![1, 2];
    assert_eq!(choose_partner(&mut d, 0, &mut candidates, &vec![0, 0]), Some(2));
    assert_eq!(candidates, vec![1]);
    assert_eq!(d, vec![1, 1, 2, 2]);
    let mut candidates = vec![1];
    assert_eq!(choose_partner(&mut d, 0, &mut candidates, &vec![0]), None);
    assert_eq!(candidates, vec![1]);
    let mut candidates = vec![];
    assert_eq!(choose_partner(&mut d, 0, &mut candidates, &vec![]), None);
}

#[test]
fn degrees_of_zero_give_the_graph_without_edges() {
    for n in [1, 2, 9] {
        assert_eq!(bliztstein_generation(&vec![0; n]).unwrap(), Graph::empty(n));
        assert_eq!(random_regular_graph(n, 0).unwrap(), Graph::empty(n));
    }
}

#[test]
fn a_sequence_fits_unless_empty_or_too_large() {
    assert!(sequence_fits(&[0]));
    assert!(sequence_fits(&[3, 3, 1]));
    assert!(!sequence_fits(&[]));
    assert!(!sequence_fits(&[usize::MAX, 1]));
    assert!(sequence_fits(&[usize::MAX - 1, 1]));
}

#[test]
fn places_are_redrawn_in_a_circle() {
    let mut d = vec![0, 0, 0];
    assert_eq!(redraw_place(&mut d, 0, 0, 3), (1, 1));
    assert_eq!(redraw_place(&mut d, 1, 1, 2), (1, 2));
    assert_eq!(redraw_place(&mut d, 1, 2, 1), (0, 0));
    assert_eq!(d, vec![3, 2, 1]);
    assert!(!drawing_done(&d, 0));
    assert_eq!(redraw_place(&mut d, 0, 0, 1), (1, 1));
    assert_eq!(d, vec![1, 2, 1]);
    assert!(!drawing_done(&d, 1));
    assert!(drawing_done(&d, 0));
}

#[test]
fn equal_degrees_are_graphical_if_even_and_small() {
    for n in 1..9 {
        for d in 0..10 {
            let expected = (n * d) % 2 == 0 && d < n;
            assert_eq!(is_graphical(&vec![d; n]), expected);
            let drawn = random_regular_graph(n, d);
            if expected {
                assert_eq!(drawn.unwrap().num_of_edges(), n * d / 2);
            } else {
                assert_eq!(drawn.unwrap_err(), NOT_GRAPHICAL);
            }
        }
    }
}
