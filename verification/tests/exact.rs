use planar_graphs::facial_walks::{
    count_up, double_power_set, facial_walks_model, prefix_counts, row_places, sum_c_over_faces_arcs, sum_p_over_vertices,
    turn_index, walk_index, WalkTables,
};
use planar_graphs::graphs::Graph;
use planar_graphs::ilp::{
    constraint2, constraint3, constraint4, first_variables, selected_subgraph, variables_from, BinaryProgram,
    Constraint, Relation,
};
use planar_graphs::lr_coloring::{edge, edge_places, lr_coloring_model, lr_size, path_index, swap, tree_index};
use planar_graphs::schnyder::{a_index, schnyder_model, schnyder_size, t_index};

fn value(terms: &[(i64, usize)], assignment: &[bool]) -> i64 {
    terms.iter().map(|&(c, x)| if assignment[x] { c } else { 0 }).sum()
}

fn holds(c: &Constraint, assignment: &[bool]) -> bool {
    let left = value(&c.terms, assignment);
    match c.relation {
        Relation::AtMost => left <= c.bound,
        Relation::Equal => left == c.bound,
        Relation::AtLeast => left >= c.bound,
    }
}

fn feasible(p: &BinaryProgram, assignment: &[bool]) -> bool {
    assignment.len() == p.num_vars && p.constraints.iter().all(|c| holds(c, assignment))
}

#[test]
fn small_constraints() {
    let c = constraint2((1, 0), (-1, 2), Relation::AtMost, 0);
    assert_eq!(c.terms, vec![(1, 0), (-1, 2)]);
    assert!(holds(&c, &[true, false, true]));
    assert!(!holds(&c, &[true, false, false]));
    let c = constraint3((1, 0), (1, 1), (1, 2), Relation::AtMost, 2);
    assert!(holds(&c, &[true, false, true]));
    assert!(!holds(&c, &[true, true, true]));
    let c = constraint4((1, 0), (1, 1), (-1, 2), (-1, 3), Relation::AtLeast, 1);
    assert_eq!(c.bound, 1);
    assert!(holds(&c, &[true, true, true, false]));
    assert!(!holds(&c, &[true, false, true, false]));
    assert_eq!(first_variables(3), vec![(1, 0), (1, 1), (1, 2)]);
    assert_eq!(variables_from(4, 2), vec![(1, 4), (1, 5)]);
    assert!(first_variables(0).is_empty());
}

#[test]
fn selected_subgraph_takes_the_chosen_edges() {
    let edges = vec![(0, 1), (1, 2), (0, 2), (2, 3)];
    let graph = selected_subgraph(4, &edges, &vec![true, false, true, true, false]);
    assert_eq!(graph.num_of_vertices(), 4);
    let mut chosen = graph.all_edges();
    chosen.sort();
    assert_eq!(chosen, vec![(0, 1), (0, 2), (2, 3)]);
    assert_eq!(selected_subgraph(3, &edges, &vec![false; 4]), Graph::empty(3));
}

#[test]
fn arcs_and_edges() {
    assert_eq!(swap((3, 5)), (5, 3));
    assert_eq!(edge((3, 5)), (3, 5));
    assert_eq!(edge((5, 3)), (3, 5));
    assert_eq!(planar_graphs::facial_walks::edge((7, 2)), (2, 7));
    assert_eq!(planar_graphs::facial_walks::edge((2, 7)), (2, 7));
}

#[test]
fn double_power_set_lists_the_proper_splits() {
    assert!(double_power_set(&[]).is_empty());
    assert!(double_power_set(&[4]).is_empty());
    assert_eq!(double_power_set(&[4, 9]), vec![(vec![9], vec![4]), (vec![4], vec![9])]);
    let splits = double_power_set(&[1, 2, 3]);
    assert_eq!(splits.len(), 6);
    assert_eq!(splits[0], (vec![2, 3], vec![1]));
    assert_eq!(splits[1], (vec![1, 3], vec![2]));
    assert_eq!(splits[2], (vec![3], vec![1, 2]));
    assert_eq!(splits[5], (vec![1], vec![2, 3]));
    assert_eq!(double_power_set(&[0, 1, 2, 3, 4]).len(), 30);
}

#[test]
fn schnyder_program_of_a_triangle() {
    let graph = Graph::complete(3);
    let (program, edges) = schnyder_model(&graph).unwrap();
    assert_eq!(edges.len(), 3);
    assert_eq!(schnyder_size(3, 3), Some(3 + 27 + 27));
    assert_eq!(program.num_vars, 57);
    assert_eq!(program.objective, vec![0, 1, 2]);
    // the bound on the edges, 3 edges each beside one vertex, 3 * 3 * 2 ends,
    // 6 pairs, 3 * 6 triples, 3 * 6 pairs
    assert_eq!(program.constraints.len(), 1 + 3 + 18 + 6 + 18 + 18);
    assert_eq!(program.constraints[0].terms, vec![(1, 0), (1, 1), (1, 2)]);
    assert_eq!(program.constraints[0].bound, 3);
    assert_eq!(t_index(3, 3, 0, 0, 0), 3);
    assert_eq!(t_index(3, 3, 2, 2, 2), 29);
    assert_eq!(a_index(3, 3, 0, 0, 0), 30);
    assert_eq!(a_index(3, 3, 2, 2, 2), 56);

    // the three orders 0 < 1 < 2, 1 < 2 < 0, 2 < 0 < 1 put every edge of the
    // triangle below the third vertex in one of them
    let orders = [[0, 1, 2], [1, 2, 0], [2, 0, 1]];
    let mut assignment = vec![false; 57];
    for k in 0..3 {
        assignment[k] = true;
    }
    for i in 0..3 {
        for u in 0..3 {
            for v in 0..3 {
                let below = orders[i].iter().position(|&x| x == u) < orders[i].iter().position(|&x| x == v);
                assignment[t_index(3, 3, i, u, v)] = below;
            }
        }
        for v in 0..3 {
            for (k, &(x, y)) in edges.iter().enumerate() {
                let last = orders[i][2];
                assignment[a_index(3, 3, i, v, k)] = v == last && x != v && y != v;
            }
        }
    }
    assert!(feasible(&program, &assignment));
    // an order that is not total is refused
    let place = t_index(3, 3, 0, 0, 1);
    assignment[place] = !assignment[place];
    assert!(!feasible(&program, &assignment));
}

#[test]
fn schnyder_program_asks_too_much_of_five_vertices() {
    // with all ten edges of the complete graph on five vertices chosen the
    // bound of nine edges fails, whatever the other variables are
    let (program, edges) = schnyder_model(&Graph::complete(5)).unwrap();
    assert_eq!(edges.len(), 10);
    assert_eq!(program.constraints[0].bound, 9);
    let mut assignment = vec![false; program.num_vars];
    for k in 0..10 {
        assignment[k] = true;
    }
    assert!(!holds(&program.constraints[0], &assignment));
    assignment[4] = false;
    assert!(holds(&program.constraints[0], &assignment));
    // on two vertices there is no bound
    let (program, _) = schnyder_model(&Graph::complete(2)).unwrap();
    assert!(program.constraints.iter().all(|c| c.terms.len() <= 4));
}

#[test]
fn lr_program_of_a_path() {
    let mut path = Graph::empty(3);
    path.add_edge(0, 1);
    path.add_edge(1, 2);
    let (program, edges) = lr_coloring_model(&path).unwrap();
    assert_eq!(lr_size(3, 2), Some(8 + 9));
    assert_eq!(program.num_vars, 17);
    assert_eq!(program.objective, vec![0, 1]);
    // the bound on the edges, the size of the tree, two for each of the four
    // arcs, the pairs of neighbours (1 + 3 + 1), two for each of the 6 triples
    assert_eq!(program.constraints.len(), 1 + 1 + 8 + 5 + 12);
    assert_eq!(program.constraints[1].relation, Relation::Equal);
    assert_eq!(program.constraints[1].bound, 2);
    assert_eq!(program.constraints[1].terms, vec![(1, 4), (1, 5), (1, 6), (1, 7)]);
    assert_eq!(path_index(3, 2, 0, 0), 8);
    assert_eq!(path_index(3, 2, 2, 1), 15);

    // the tree 0 -> 1 -> 2 with both edges chosen
    let table = edge_places(3, &edges);
    let mut assignment = vec![false; 17];
    assignment[0] = true;
    assignment[1] = true;
    assignment[tree_index(3, &edges, &table, 0, 1)] = true;
    assignment[tree_index(3, &edges, &table, 1, 2)] = true;
    for (u, v) in [(0, 1), (0, 2), (1, 2)] {
        assignment[path_index(3, 2, u, v)] = true;
    }
    assert!(feasible(&program, &assignment));
    // a tree arc of an edge that is not chosen is refused
    let first = edges.iter().position(|&e| e == (0, 1)).unwrap();
    assignment[first] = false;
    assert!(!feasible(&program, &assignment));
}

#[test]
fn edge_places_finds_both_directions() {
    let edges = vec![(1, 2), (0, 3), (0, 1)];
    let table = edge_places(4, &edges);
    assert_eq!(table.len(), 16);
    assert_eq!(table[1 * 4 + 2], 0);
    assert_eq!(table[2 * 4 + 1], 0);
    assert_eq!(table[3 * 4 + 0], 1);
    assert_eq!(table[0 * 4 + 1], 2);
    assert_eq!(tree_index(4, &edges, &table, 1, 2), 6);
    assert_eq!(tree_index(4, &edges, &table, 2, 1), 7);
    assert_eq!(tree_index(4, &edges, &table, 1, 0), 6 + 5);
}

fn place(t: &WalkTables, v: usize, u: usize) -> usize {
    t.rows[v].iter().position(|&x| x == u).unwrap()
}

#[test]
fn facial_walks_program_of_a_triangle() {
    let graph = Graph::complete(3);
    let (program, t) = facial_walks_model(&graph).unwrap();
    assert_eq!(t.faces, 2);
    assert_eq!(t.edges.len(), 3);
    // 3 edges, 2 faces, 2 * 6 walks, 3 * 2 turns
    assert_eq!(program.num_vars, 3 + 2 + 12 + 6);
    assert_eq!(t.num_vars, 23);
    assert_eq!(t.base, 17);
    assert_eq!(program.objective, vec![0, 1, 2]);
    assert_eq!(t.starts, vec![0, 2, 4, 6]);
    assert_eq!(t.pairs, vec![0, 2, 4, 6]);
    // the bound, the count of the faces, 1 order, 2 lengths, 12 insides,
    // 6 arcs, 6 passes, 2 * 12 turns, 2 * 6 neighbours, 3 * 2 splits
    assert_eq!(program.constraints.len(), 1 + 1 + 1 + 2 + 12 + 6 + 6 + 24 + 12 + 6);
    assert_eq!(program.constraints[1].relation, Relation::Equal);
    assert_eq!(program.constraints[1].bound, -1);

    // the two faces of the triangle: round 0 -> 1 -> 2 and round 0 -> 2 -> 1
    let mut assignment = vec![false; 23];
    for k in 0..5 {
        assignment[k] = true;
    }
    for (i, walk) in [[(0, 1), (1, 2), (2, 0)], [(0, 2), (2, 1), (1, 0)]].iter().enumerate() {
        for &(v, u) in walk.iter() {
            let d = t.out_arc_no(v, place(&t, v, u));
            assert_eq!(t.in_arc_no(u, place(&t, u, v)), d);
            assignment[t.walk(i, d)] = true;
        }
    }
    for v in 0..3 {
        assignment[t.turn(v, 0, 1)] = true;
        assignment[t.turn(v, 1, 0)] = true;
    }
    assert!(feasible(&program, &assignment));
    // a walk that does not close is refused
    let d = t.out_arc_no(0, place(&t, 0, 1));
    assignment[t.walk(0, d)] = false;
    assert!(!feasible(&program, &assignment));
    assignment[t.walk(0, d)] = true;
    // without an edge the count of the faces fails
    assignment[0] = false;
    assert!(!feasible(&program, &assignment));
}

#[test]
fn facial_walks_tables() {
    let mut path = Graph::empty(3);
    path.add_edge(0, 1);
    path.add_edge(1, 2);
    let t = WalkTables::new(&path).unwrap();
    assert_eq!(t.num_of_vertices(), 3);
    assert_eq!(t.faces, 1);
    assert_eq!(t.degree(1), 2);
    assert_eq!(t.starts, vec![0, 1, 3, 4]);
    assert_eq!(t.pairs, vec![0, 0, 2, 2]);
    // 2 edges, 1 face, 4 walks, 2 turns
    assert_eq!(t.num_vars, 2 + 1 + 4 + 2);
    let first = t.edges.iter().position(|&e| e == (0, 1)).unwrap();
    assert_eq!(t.edge_var(0, 0), first);
    assert_eq!(t.edge_var(1, place(&t, 1, 0)), first);
    assert_eq!(t.out_arc_no(0, 0), 0);
    assert_eq!(t.in_arc_no(0, 0), 1 + place(&t, 1, 0));
    assert_eq!(t.in_arc_no(2, 0), 1 + place(&t, 1, 2));
    assert_eq!(t.walk(0, 3), 2 + 1 + 3);
    assert_eq!(t.turn(1, 0, 1), 7);
    assert_eq!(t.turn(1, 1, 0), 8);
    assert_eq!(row_places(&t.rows)[1 * 3 + 0], place(&t, 1, 0));
    assert_eq!(prefix_counts(&vec![vec![1, 2, 3], vec![0], vec![0], vec![0]]), Some((vec![0, 3, 4, 5, 6], vec![0, 6, 6, 6, 6])));
}

#[test]
fn facial_walks_sums_and_indices() {
    assert_eq!(count_up(3), vec![0, 1, 2]);
    assert_eq!(walk_index(3, 2, 1, 4), 3 + 2 + 6 + 4);
    assert_eq!(turn_index(10, 5, 3, 0, 1), 15);
    assert_eq!(turn_index(10, 5, 3, 0, 2), 16);
    assert_eq!(turn_index(10, 5, 3, 1, 0), 17);
    assert_eq!(turn_index(10, 5, 3, 2, 1), 20);
    assert_eq!(
        sum_c_over_faces_arcs(3, 2, &vec![0, 1], &vec![5, 2], false),
        vec![(1, 10), (1, 7), (1, 16), (1, 13)]
    );
    assert_eq!(sum_c_over_faces_arcs(3, 2, &vec![1], &vec![0], true), vec![(-1, 11)]);
    assert_eq!(sum_p_over_vertices(10, 5, 3, &vec![0, 1], &vec![1, 2]), vec![(1, 15), (1, 16), (1, 18)]);
    assert!(sum_p_over_vertices(10, 5, 3, &vec![2], &vec![2]).is_empty());
}
