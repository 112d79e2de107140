use planar_graphs::graphs::Graph;
use planar_graphs::match_merge::{CalinescuMps, MatchMerge, MyMps, PoranenMps, SchmidMps};
use planar_graphs::mps_alg::MpsAlgorithm;

#[test]
fn match_merge_calinescu_basic_mps_complete_test() {
    for n in 3..10 {
        println!("cacti_approximation_complete_test n = {}", n);

        let graph = Graph::complete(n);
        let alg = CalinescuMps {};
        let mps = alg.maximum_planar_subgraph(&graph);

        let mut available_components = n;
        let mut num_of_edges = 0;

        while available_components >= 3 {
            available_components -= 2;
            num_of_edges += 3;
        }

        if available_components > 0 {
            num_of_edges += available_components - 1;
        }

        assert_eq!(mps.num_of_vertices(), n);
        assert_eq!(mps.num_of_edges(), num_of_edges);
    }
}

#[test]
fn match_merge_schmid_d4_mps_complete_test() {
    for (n, m) in [(3, 3), (4, 5), (5, 6), (6, 8), (7, 10), (8, 11), (9, 13)] {
        let graph = Graph::complete(n);
        let alg = SchmidMps {};
        let mps = alg.maximum_planar_subgraph(&graph);
        assert_eq!(mps.num_of_vertices(), n);
        assert_eq!(mps.num_of_edges(), m);
    }
}

#[test]
fn my_mps_complete_test() {
    for (n, m) in [(3, 3), (4, 5), (5, 7), (6, 8), (7, 10), (8, 12), (9, 14)] {
        let graph = Graph::complete(n);
        let alg = MyMps {};
        let mps = alg.maximum_planar_subgraph(&graph);
        assert_eq!(mps.num_of_vertices(), n);
        assert_eq!(mps.num_of_edges(), m);
    }
}

#[test]
fn poranen_mps_complete_test() {
    for (n, m) in [(3, 3), (4, 5), (5, 7), (6, 9), (7, 11), (8, 13), (9, 15)] {
        let graph = Graph::complete(n);
        let alg = PoranenMps {};
        let mps = alg.maximum_planar_subgraph(&graph);
        assert_eq!(mps.num_of_vertices(), n);
        assert_eq!(mps.num_of_edges(), m);
    }
}

#[test]
fn algorithm_names() {
    assert_eq!(CalinescuMps {}.name(), "Calinescu");
    assert_eq!(SchmidMps {}.name(), "Schmid");
    assert_eq!(MyMps {}.name(), "My");
    assert_eq!(PoranenMps {}.name(), "Poranen");
}

#[test]
fn results_are_planar_spanning_subgraphs() {
    let algorithms: Vec<Box<dyn MpsAlgorithm>> =
        vec![Box::new(CalinescuMps {}), Box::new(SchmidMps {}), Box::new(MyMps {}), Box::new(PoranenMps {})];
    let mut inputs = vec![Graph::bipartite_complete(3, 4), Graph::empty(5), Graph::new()];
    for n in 1..=10 {
        inputs.push(Graph::complete(n));
    }
    for graph in inputs.iter() {
        for alg in algorithms.iter() {
            let mps = alg.maximum_planar_subgraph(graph);
            assert_eq!(mps.num_of_vertices(), graph.num_of_vertices());
            assert!(mps.is_planar());
            for (u, v) in mps.all_edges() {
                assert!(graph.has_edge(u, v));
            }
            // a spanning subgraph of a connected graph has at least n - 1 edges
            if graph.num_of_edges() > 0 {
                assert!(mps.num_of_edges() >= graph.num_of_vertices() - 1);
            } else {
                assert_eq!(mps.num_of_edges(), 0);
            }
        }
    }
}

#[test]
fn rules_on_a_small_graph() {
    // a triangle 0-1-2 with a pendant edge 2-3
    let mut graph = Graph::empty(4);
    graph.add_edge(0, 1);
    graph.add_edge(1, 2);
    graph.add_edge(2, 0);
    graph.add_edge(2, 3);
    let mut mm = MatchMerge::new(&graph);
    assert!(mm.all_different_components(&[0, 1, 2, 3]));
    assert!(mm.find_my_rule().is_none());
    assert!(mm.find_d4_rule().is_none());
    assert!(mm.find_poranen_rule().is_none());
    let (x, y, z) = mm.find_k3_rule().unwrap();
    let mut triangle = vec![x, y, z];
    triangle.sort();
    assert_eq!(triangle, vec![0, 1, 2]);
    mm.apply_k3_rule(x, y, z);
    assert!(!mm.all_different_components(&[0, 1]));
    assert!(!mm.all_different_components(&[1, 2]));
    assert!(mm.all_different_components(&[0, 3]));
    assert!(mm.find_k3_rule().is_none());
    let (u, v) = mm.find_k2_rule().unwrap();
    assert!((u, v) == (2, 3) || (u, v) == (3, 2));
    mm.apply_k2_rule(u, v);
    assert!(mm.find_k2_rule().is_none());
    assert!(!mm.all_different_components(&[0, 3]));
    let mps = mm.into_mps();
    assert_eq!(mps, graph);
}

#[test]
fn connect_components_merges_into_the_first() {
    let graph = Graph::empty(6);
    let mut mm = MatchMerge::new(&graph);
    mm.connect_components(&[4, 1, 5]);
    assert!(!mm.all_different_components(&[4, 1]));
    assert!(!mm.all_different_components(&[1, 5]));
    assert!(mm.all_different_components(&[0, 2, 3, 4]));
    mm.connect_components(&[0]);
    mm.connect_components(&[]);
    assert!(mm.all_different_components(&[0, 2, 3, 5]));
    mm.connect_components(&[2, 1, 4]);
    assert!(!mm.all_different_components(&[2, 5]));
    assert!(mm.all_different_components(&[0, 3, 1]));
}

#[test]
fn poranen_rule_needs_an_edge_of_the_subgraph() {
    let graph = Graph::complete(4);
    let mut mm = MatchMerge::new(&graph);
    assert!(mm.find_poranen_rule().is_none());
    mm.apply_k2_rule(0, 1);
    let (x, y, z) = mm.find_poranen_rule().unwrap();
    assert!(x == 2 || x == 3);
    assert!((y, z) == (0, 1) || (y, z) == (1, 0));
    mm.apply_poranen_rule(x, y, z);
    assert_eq!(mm.into_mps().num_of_edges(), 3);
}

#[test]
fn diamond_and_fan_rules() {
    let graph = Graph::complete(5);
    let mut mm = MatchMerge::new(&graph);
    let (x, y, z, w, t) = mm.find_my_rule().unwrap();
    let mut all = vec![x, y, z, w, t];
    all.sort();
    assert_eq!(all, vec![0, 1, 2, 3, 4]);
    mm.apply_my_rule(x, y, z, w, t);
    assert!(mm.find_my_rule().is_none());
    assert!(mm.find_k2_rule().is_none());
    assert_eq!(mm.into_mps().num_of_edges(), 7);

    let graph = Graph::complete(4);
    let mut mm = MatchMerge::new(&graph);
    let (x, y, z, w) = mm.find_d4_rule().unwrap();
    mm.apply_d4_rule(x, y, z, w);
    assert!(mm.find_d4_rule().is_none());
    let mps = mm.into_mps();
    assert_eq!(mps.num_of_edges(), 5);
    assert!(!mps.has_edge(y, w));
    assert!(mps.has_edge(x, z));
}

fn pareto_value(n: usize, alpha: f64) -> usize {
    let beta = 1.0 - (n as f64 - 1.0).powf(-alpha);
    let y = fastrand::f64();
    (1.0 - beta * y).powf(-1.0 / alpha).round() as usize
}

fn random_pareto_graph(n: usize, alpha: f64) -> Result<Graph, &'static str> {
    let mut result = vec![0; n];
    let mut even: usize = 0;
    for i in 0..n {
        let v = pareto_value(n - 1, alpha);
        even = even ^ (v & 1);
        result[i] = v;
    }
    let mut change_index = 0;
    while even == 1 || !planar_graphs::rand_graphs::is_graphical(&result) {
        let v = pareto_value(n - 1, alpha);
        even = even ^ (v & 1);
        result[change_index] = v;
        change_index = (change_index + 1) % n;
    }
    planar_graphs::rand_graphs::bliztstein_generation(&result)
}

#[test]
fn test_named_approx_planarity() {
    let algorithms: Vec<Box<dyn MpsAlgorithm>> = vec![
        Box::new(CalinescuMps {}),
        Box::new(SchmidMps {}),
        Box::new(MyMps {}),
        Box::new(PoranenMps {}),
    ];

    for n in 1..=10 {
        let pareto = random_pareto_graph(100 * n, 2.0).unwrap();
        let regular = planar_graphs::rand_graphs::random_regular_graph(100 * n, 3).unwrap();
        let complete = Graph::complete(n);

        for alg in algorithms.iter() {
            let p_result = alg.maximum_planar_subgraph(&pareto);
            let r_result = alg.maximum_planar_subgraph(&regular);
            let c_result = alg.maximum_planar_subgraph(&complete);

            assert!(p_result.is_planar());
            assert!(r_result.is_planar());
            assert!(c_result.is_planar());
        }
    }
}
