//! The program for a largest planar subgraph that looks for a spanning tree
//! of a depth-first search: the chosen edges hold a tree, no two branches of
//! which are joined by a tree edge.

use crate::graphs::{edge_set, Graph};
use crate::schnyder::{before2, before3, euler_bound};
use crate::ilp::{
    all_hold, all_in_range, chosen, chosen_from, constraint2, constraint3, constraint4, first_variables,
    lemma_all_hold_push, lemma_all_in_range_push, on, variables_from, BinaryProgram, Constraint, Relation,
};
use vstd::prelude::*;

verus! {

/// The arc the other way round.
pub fn swap(e: (usize, usize)) -> (r: (usize, usize))
    ensures
        r == (e.1, e.0),
{
    (e.1, e.0)
}

/// The edge of an arc: its ends with the smaller one first.
pub fn edge(arc: (usize, usize)) -> (r: (usize, usize))
    ensures
        r == (if arc.0 < arc.1 {
            arc
        } else {
            (arc.1, arc.0)
        }),
{
    if arc.0 < arc.1 {
        arc
    } else {
        swap(arc)
    }
}

/// The variable that says that the arc `d` belongs to the tree.
pub open spec fn tree_var(m: int, d: int) -> int {
    2 * m + d
}

/// The variable that says that `u` lies on the path from the root to `v`.
pub open spec fn path_var(n: int, m: int, u: int, v: int) -> int {
    4 * m + u * n + v
}

/// The number of variables for `n` vertices and `m` edges: for each edge
/// whether it is chosen and its colour, for each arc whether it is in the
/// tree, and those of `path_var`.
pub open spec fn lr_vars(n: int, m: int) -> int {
    4 * m + n * n
}

/// The arc `d`: the edge `d / 2`, the other way round if `d` is odd.
pub open spec fn arc_at(edges: Seq<(usize, usize)>, d: int) -> (usize, usize) {
    if d % 2 == 0 {
        edges[d / 2]
    } else {
        (edges[d / 2].1, edges[d / 2].0)
    }
}

/// The place of the edge between `u` and `v` in the list.
pub open spec fn edge_index(edges: Seq<(usize, usize)>, u: usize, v: usize) -> int {
    choose|k: int| 0 <= k < edges.len() && (#[trigger] edges[k] == (u, v) || edges[k] == (v, u))
}

/// The number of the arc from `u` to `v`.
pub open spec fn arc_index(edges: Seq<(usize, usize)>, u: usize, v: usize) -> int {
    if u < v {
        2 * edge_index(edges, u, v)
    } else {
        2 * edge_index(edges, u, v) + 1
    }
}

/// The place of the pair `(u, v)` in a table of `n` rows.
pub open spec fn cell(n: int, u: int, v: int) -> int {
    u * n + v
}

/// Different pairs have different places.
pub proof fn lemma_cell(n: int, u: int, v: int, x: int, y: int)
    requires
        0 <= u < n,
        0 <= v < n,
        0 <= x < n,
        0 <= y < n,
    ensures
        0 <= cell(n, u, v) < n * n,
        cell(n, u, v) == cell(n, x, y) ==> u == x && v == y,
{
    assert(0 <= u * n && u * n + v < n * n) by (nonlinear_arith)
        requires
            0 <= u < n,
            0 <= v < n,
    ;
    if u < x {
        assert(u * n + n <= x * n) by (nonlinear_arith)
            requires
                u < x,
                n > 0,
        ;
    }
    if x < u {
        assert(x * n + n <= u * n) by (nonlinear_arith)
            requires
                x < u,
                n > 0,
        ;
    }
}

/// The list holds each edge once, smaller end first, its ends below `n`.
pub open spec fn proper_edges(n: int, edges: Seq<(usize, usize)>) -> bool {
    &&& edges.no_duplicates()
    &&& forall|k: int| 0 <= k < edges.len() ==> (#[trigger] edges[k]).0 < edges[k].1 < n
}

/// The table gives, for both directions of every edge, its place in the
/// list.
pub open spec fn places(n: int, edges: Seq<(usize, usize)>, table: Seq<usize>) -> bool {
    &&& table.len() == n * n
    &&& forall|k: int|
        0 <= k < edges.len() ==> table[cell(n, (#[trigger] edges[k]).0 as int, edges[k].1 as int)] == k && table[cell(
            n,
            edges[k].1 as int,
            edges[k].0 as int,
        )] == k
}

/// The place of an edge in the list is the one where it stands.
pub proof fn lemma_edge_index(n: int, edges: Seq<(usize, usize)>, k: int)
    requires
        proper_edges(n, edges),
        0 <= k < edges.len(),
    ensures
        edge_index(edges, edges[k].0, edges[k].1) == k,
        edge_index(edges, edges[k].1, edges[k].0) == k,
        arc_index(edges, edges[k].0, edges[k].1) == 2 * k,
        arc_index(edges, edges[k].1, edges[k].0) == 2 * k + 1,
{
    let (u, v) = edges[k];
    let k1 = edge_index(edges, u, v);
    assert(edges[k1] == (u, v) || edges[k1] == (v, u));
    assert(edges[k1].0 < edges[k1].1);
    let k2 = edge_index(edges, v, u);
    assert(edges[k2] == (u, v) || edges[k2] == (v, u));
    assert(edges[k2].0 < edges[k2].1);
}

/// Builds the table of the places of the edges.
pub fn edge_places(n: usize, edges: &Vec<(usize, usize)>) -> (table: Vec<usize>)
    requires
        n * n <= usize::MAX,
        proper_edges(n as int, edges@),
    ensures
        places(n as int, edges@, table@),
{
    let mut table: Vec<usize> = vec![0; n * n];
    let mut k: usize = 0;
    while k < edges.len()
        invariant
            k <= edges@.len(),
            n * n <= usize::MAX,
            proper_edges(n as int, edges@),
            table@.len() == n * n,
            forall|i: int|
                0 <= i < k ==> table@[cell(n as int, (#[trigger] edges@[i]).0 as int, edges@[i].1 as int)] == i
                    && table@[cell(n as int, edges@[i].1 as int, edges@[i].0 as int)] == i,
        decreases edges@.len() - k,
    {
        let (u, v) = edges[k];
        let ghost before = table@;
        proof {
            assert(edges@[k as int].0 < edges@[k as int].1 < n);
            lemma_cell(n as int, u as int, v as int, v as int, u as int);
            lemma_cell(n as int, v as int, u as int, u as int, v as int);
            assert(0 <= u * n && 0 <= v * n) by (nonlinear_arith);
        }
        table[u * n + v] = k;
        table[v * n + u] = k;
        proof {
            assert forall|i: int| 0 <= i < k + 1 implies table@[cell(
                n as int,
                (#[trigger] edges@[i]).0 as int,
                edges@[i].1 as int,
            )] == i && table@[cell(n as int, edges@[i].1 as int, edges@[i].0 as int)] == i by {
                if i < k {
                    let (x, y) = edges@[i];
                    lemma_cell(n as int, x as int, y as int, u as int, v as int);
                    lemma_cell(n as int, x as int, y as int, v as int, u as int);
                    lemma_cell(n as int, y as int, x as int, u as int, v as int);
                    lemma_cell(n as int, y as int, x as int, v as int, u as int);
                    assert(edges@[i] != edges@[k as int]);
                }
            }
        }
        k += 1;
    }
    table
}

/// The tree has `n - 1` arcs.
pub open spec fn tree_size(n: int, m: int, a: Seq<bool>) -> bool {
    chosen_from(a, 2 * m, 2 * m) == n - 1
}

/// A tree arc is an arc of a chosen edge.
pub open spec fn arc_chosen(m: int, a: Seq<bool>, d: int) -> bool {
    on(a, tree_var(m, d)) <= on(a, d / 2)
}

/// The tail of a tree arc lies on the path to its head.
pub open spec fn arc_descends(n: int, edges: Seq<(usize, usize)>, a: Seq<bool>, d: int) -> bool {
    on(a, tree_var(edges.len() as int, d)) <= on(
        a,
        path_var(n, edges.len() as int, arc_at(edges, d).0 as int, arc_at(edges, d).1 as int),
    )
}

/// Two children `v`, `w` of `u` in the tree do not lie on the paths to each
/// other.
pub open spec fn branches_apart(n: int, edges: Seq<(usize, usize)>, a: Seq<bool>, u: usize, v: usize, w: usize) -> bool {
    let m = edges.len() as int;
    on(a, path_var(n, m, v as int, w as int)) + on(a, path_var(n, m, w as int, v as int)) + on(
        a,
        tree_var(m, arc_index(edges, u, v)),
    ) + on(a, tree_var(m, arc_index(edges, u, w))) <= 2
}

/// Two vertices on the path to `w` lie on the path to one another.
pub open spec fn paths_meet(n: int, m: int, a: Seq<bool>, u: int, v: int, w: int) -> bool {
    on(a, path_var(n, m, u, w)) + on(a, path_var(n, m, v, w)) <= 1 + on(a, path_var(n, m, u, v)) + on(
        a,
        path_var(n, m, v, u),
    )
}

/// Lying on the path is transitive.
pub open spec fn paths_chain(n: int, m: int, a: Seq<bool>, u: int, v: int, w: int) -> bool {
    on(a, path_var(n, m, u, v)) + on(a, path_var(n, m, v, w)) <= on(a, path_var(n, m, u, w)) + 1
}

/// The arcs before `hd` are arcs of chosen edges where they are in the tree.
pub open spec fn arcs_chosen(m: int, a: Seq<bool>, hd: int) -> bool {
    forall|d: int| 0 <= d < 2 * m && d < hd ==> #[trigger] arc_chosen(m, a, d)
}

/// The arcs before `hd` descend where they are in the tree.
pub open spec fn arcs_descend(n: int, edges: Seq<(usize, usize)>, a: Seq<bool>, hd: int) -> bool {
    forall|d: int| 0 <= d < 2 * edges.len() && d < hd ==> #[trigger] arc_descends(n, edges, a, d)
}

/// The branches at the vertices before `hu` are apart, and at `hu` those of
/// the pairs of neighbours that stand before the place `(hi, hj)`.
pub open spec fn all_apart(g: Graph, edges: Seq<(usize, usize)>, a: Seq<bool>, hu: int, hi: int, hj: int) -> bool {
    let n = g@.len() as int;
    &&& forall|u: usize, v: usize, w: usize|
        u < n && u < hu && g@[u as int].contains(v) && g@[u as int].contains(w) ==> #[trigger] branches_apart(
            n,
            edges,
            a,
            u,
            v,
            w,
        )
    &&& 0 <= hu < n ==> forall|i: int, j: int|
        0 <= i <= j < g.neighbor_seq(hu).len() && before2(i, j, hi, hj) ==> branches_apart(
            n,
            edges,
            a,
            hu as usize,
            #[trigger] g.neighbor_seq(hu)[i],
            #[trigger] g.neighbor_seq(hu)[j],
        )
}

/// The paths meet before the place `(hu, hv, hw)`.
pub open spec fn all_meet(n: int, m: int, a: Seq<bool>, hu: int, hv: int, hw: int) -> bool {
    forall|u: int, v: int, w: int|
        0 <= u < n && 0 <= v < n && 0 <= w < n && before3(u, v, w, hu, hv, hw) && u != v && u != w && v != w
            ==> #[trigger] paths_meet(n, m, a, u, v, w)
}

/// The paths chain before the place `(hu, hv, hw)`.
pub open spec fn all_chain(n: int, m: int, a: Seq<bool>, hu: int, hv: int, hw: int) -> bool {
    forall|u: int, v: int, w: int|
        0 <= u < n && 0 <= v < n && 0 <= w < n && before3(u, v, w, hu, hv, hw) && u != v && u != w && v != w
            ==> #[trigger] paths_chain(n, m, a, u, v, w)
}

/// What the program asks of an assignment: the variables `0..m` choose
/// edges, at most `3 * n - 6` of them; `n - 1` arcs of chosen edges form the
/// tree; every tree arc descends; branches are apart; and the relation of
/// lying on the path behaves as in a tree.
pub open spec fn lr_holds(g: Graph, edges: Seq<(usize, usize)>, a: Seq<bool>) -> bool {
    let n = g@.len() as int;
    let m = edges.len() as int;
    &&& euler_bound(n, m, a)
    &&& tree_size(n, m, a)
    &&& arcs_chosen(m, a, 2 * m)
    &&& arcs_descend(n, edges, a, 2 * m)
    &&& forall|u: usize, v: usize, w: usize|
        u < n && g@[u as int].contains(v) && g@[u as int].contains(w) ==> #[trigger] branches_apart(
            n,
            edges,
            a,
            u,
            v,
            w,
        )
    &&& all_meet(n, m, a, n, 0, 0)
    &&& all_chain(n, m, a, n, 0, 0)
}

/// How far the program has been written.
pub struct Written {
    pub euler: bool,
    pub tree: bool,
    pub chosen: int,
    pub descend: int,
    pub apart: (int, int, int),
    pub meet: (int, int, int),
    pub chain: (int, int, int),
}

/// What the constraints written so far ask of an assignment.
pub open spec fn written_holds(g: Graph, edges: Seq<(usize, usize)>, a: Seq<bool>, w: Written) -> bool {
    let n = g@.len() as int;
    let m = edges.len() as int;
    &&& w.euler ==> euler_bound(n, m, a)
    &&& w.tree ==> tree_size(n, m, a)
    &&& arcs_chosen(m, a, w.chosen)
    &&& arcs_descend(n, edges, a, w.descend)
    &&& all_apart(g, edges, a, w.apart.0, w.apart.1, w.apart.2)
    &&& all_meet(n, m, a, w.meet.0, w.meet.1, w.meet.2)
    &&& all_chain(n, m, a, w.chain.0, w.chain.1, w.chain.2)
}

/// The constraints written so far are those that `w` tells of.
pub open spec fn in_step(cs: Seq<Constraint>, g: Graph, edges: Seq<(usize, usize)>, w: Written) -> bool {
    &&& all_in_range(cs, lr_vars(g@.len() as int, edges.len() as int) as nat)
    &&& forall|a: Seq<bool>|
        a.len() == lr_vars(g@.len() as int, edges.len() as int) ==> (#[trigger] all_hold(cs, a) <==> written_holds(
            g,
            edges,
            a,
            w,
        ))
}

/// One constraint more that asks `asked` of the assignments takes the
/// program from `w` to `next`.
pub proof fn lemma_step(
    cs: Seq<Constraint>,
    c: Constraint,
    g: Graph,
    edges: Seq<(usize, usize)>,
    w: Written,
    next: Written,
    asked: spec_fn(Seq<bool>) -> bool,
)
    requires
        in_step(cs, g, edges, w),
        c.in_range(lr_vars(g@.len() as int, edges.len() as int) as nat),
        forall|a: Seq<bool>| #[trigger] c.holds(a) <==> asked(a),
        forall|a: Seq<bool>|
            a.len() == lr_vars(g@.len() as int, edges.len() as int) ==> (#[trigger] written_holds(g, edges, a, next)
                <==> written_holds(g, edges, a, w) && asked(a)),
    ensures
        in_step(cs.push(c), g, edges, next),
{
    lemma_all_in_range_push(cs, c, lr_vars(g@.len() as int, edges.len() as int) as nat);
    assert forall|a: Seq<bool>| a.len() == lr_vars(g@.len() as int, edges.len() as int) implies (#[trigger] all_hold(
        cs.push(c),
        a,
    ) <==> written_holds(g, edges, a, next)) by {
        lemma_all_hold_push(cs, c, a);
        assert(c.holds(a) <==> asked(a));
        assert(all_hold(cs, a) <==> written_holds(g, edges, a, w));
    }
}

/// Moving on without a constraint, where the next place asks nothing new.
pub proof fn lemma_skip(cs: Seq<Constraint>, g: Graph, edges: Seq<(usize, usize)>, w: Written, next: Written)
    requires
        in_step(cs, g, edges, w),
        forall|a: Seq<bool>|
            a.len() == lr_vars(g@.len() as int, edges.len() as int) ==> (#[trigger] written_holds(g, edges, a, next)
                <==> written_holds(g, edges, a, w)),
    ensures
        in_step(cs, g, edges, next),
{
    assert forall|a: Seq<bool>| a.len() == lr_vars(g@.len() as int, edges.len() as int) implies (#[trigger] all_hold(
        cs,
        a,
    ) <==> written_holds(g, edges, a, next)) by {
        assert(all_hold(cs, a) <==> written_holds(g, edges, a, w));
    }
}

/// The number of variables, if it fits in a machine word.
pub fn lr_size(n: usize, m: usize) -> (r: Option<usize>)
    ensures
        r is Some == (lr_vars(n as int, m as int) <= usize::MAX),
        r matches Some(size) ==> size == lr_vars(n as int, m as int),
{
    proof {
        assert(0 <= n * n) by (nonlinear_arith);
    }
    let nn = match n.checked_mul(n) {
        Some(x) => x,
        None => {
            return None;
        },
    };
    let m4 = match m.checked_mul(4) {
        Some(x) => x,
        None => {
            return None;
        },
    };
    m4.checked_add(nn)
}

/// The number of the variable `path_var`.
pub fn path_index(n: usize, m: usize, u: usize, v: usize) -> (r: usize)
    requires
        u < n,
        v < n,
        lr_vars(n as int, m as int) <= usize::MAX,
    ensures
        r == path_var(n as int, m as int, u as int, v as int),
        r < lr_vars(n as int, m as int),
{
    proof {
        lemma_cell(n as int, u as int, v as int, u as int, v as int);
        assert(0 <= u * n) by (nonlinear_arith);
    }
    4 * m + u * n + v
}

/// The number of the variable for the arc from `u` to `v`.
pub fn tree_index(n: usize, edges: &Vec<(usize, usize)>, table: &Vec<usize>, u: usize, v: usize) -> (r: usize)
    requires
        proper_edges(n as int, edges@),
        places(n as int, edges@, table@),
        lr_vars(n as int, edges@.len() as int) <= usize::MAX,
        u < n,
        v < n,
        edges@.contains((u, v)) || edges@.contains((v, u)),
    ensures
        r == tree_var(edges@.len() as int, arc_index(edges@, u, v)),
        r < 4 * edges@.len(),
{
    proof {
        lemma_cell(n as int, u as int, v as int, u as int, v as int);
        assert(0 <= u * n) by (nonlinear_arith);
        assert(0 <= n * n) by (nonlinear_arith);
        let e = if edges@.contains((u, v)) {
            (u, v)
        } else {
            (v, u)
        };
        let k = choose|k: int| 0 <= k < edges@.len() && edges@[k] == e;
        lemma_edge_index(n as int, edges@, k);
        assert(edges@[k].0 < edges@[k].1);
    }
    let k = table[u * n + v];
    if u < v {
        2 * edges.len() + 2 * k
    } else {
        2 * edges.len() + 2 * k + 1
    }
}

/// Once all pairs of neighbours of `u` are written, its branches are apart.
pub proof fn lemma_row_done(g: Graph, edges: Seq<(usize, usize)>, a: Seq<bool>, u: int, nb: Seq<usize>)
    requires
        0 <= u < g@.len(),
        g@.len() <= usize::MAX,
        nb == g.neighbor_seq(u),
        nb.to_set() == g@[u],
    ensures
        all_apart(g, edges, a, u, nb.len() as int, 0) <==> all_apart(g, edges, a, u + 1, 0, 0),
{
    let n = g@.len() as int;
    if all_apart(g, edges, a, u, nb.len() as int, 0) {
        assert forall|x: usize, v: usize, w: usize|
            x < n && x < u + 1 && g@[x as int].contains(v) && g@[x as int].contains(w) implies #[trigger] branches_apart(
            n,
            edges,
            a,
            x,
            v,
            w,
        ) by {
            if x == u {
                assert(nb.to_set().contains(v) && nb.to_set().contains(w));
                let i = choose|i: int| 0 <= i < nb.len() && nb[i] == v;
                let j = choose|j: int| 0 <= j < nb.len() && nb[j] == w;
                if i <= j {
                    assert(before2(i, j, nb.len() as int, 0));
                    assert(branches_apart(n, edges, a, u as usize, nb[i], nb[j]));
                } else {
                    assert(before2(j, i, nb.len() as int, 0));
                    assert(branches_apart(n, edges, a, u as usize, nb[j], nb[i]));
                }
            }
        }
    }
    if all_apart(g, edges, a, u + 1, 0, 0) {
        assert forall|i: int, j: int| 0 <= i <= j < nb.len() && before2(i, j, nb.len() as int, 0) implies branches_apart(
            n,
            edges,
            a,
            u as usize,
            #[trigger] nb[i],
            #[trigger] nb[j],
        ) by {
            assert(nb.to_set().contains(nb[i]) && nb.to_set().contains(nb[j]));
        }
    }
}

/// Writes the program for the graph: the first variables choose among the
/// listed edges, and an assignment meets the constraints exactly if it is as
/// `lr_holds` asks. `None` if the number of variables does not fit in a
/// machine word.
pub fn lr_coloring_model(g: &Graph) -> (r: Option<(BinaryProgram, Vec<(usize, usize)>)>)
    requires
        g.wf(),
        g@.len() > 0,
    ensures
        r is Some == (lr_vars(g@.len() as int, g.spec_num_of_edges() as int) <= usize::MAX),
        r matches Some((program, edges)) ==> {
            &&& edges@.no_duplicates()
            &&& edges@.to_set() == edge_set(g@)
            &&& edges@.len() == g.spec_num_of_edges()
            &&& program.wf()
            &&& program.num_vars == lr_vars(g@.len() as int, edges@.len() as int)
            &&& program.objective@ == Seq::new(edges@.len(), |k: int| k as usize)
            &&& forall|a: Seq<bool>|
                a.len() == program.num_vars ==> (#[trigger] all_hold(program.constraints@, a) <==> lr_holds(
                    *g,
                    edges@,
                    a,
                ))
        },
{
    let n = g.num_of_vertices();
    let edges = g.all_edges();
    let m = edges.len();
    let nv = match lr_size(n, m) {
        Some(size) => size,
        None => {
            return None;
        },
    };
    let ghost ni = n as int;
    let ghost mi = m as int;
    let ghost es = edges@;
    proof {
        assert forall|k: int| 0 <= k < m implies (#[trigger] es[k]).0 < es[k].1 < n by {
            assert(es.to_set().contains(es[k]));
        }
        assert(0 <= n * n) by (nonlinear_arith);
    }
    let table = edge_places(n, &edges);
    let mut objective: Vec<usize> = Vec::with_capacity(m);
    let mut k: usize = 0;
    while k < m
        invariant
            k <= m,
            objective@.len() == k,
            forall|i: int| 0 <= i < k ==> #[trigger] objective@[i] == i,
        decreases m - k,
    {
        objective.push(k);
        k += 1;
    }
    let mut cs: Vec<Constraint> = Vec::new();
    let ghost mut w = Written {
        euler: false,
        tree: false,
        chosen: 0,
        descend: 0,
        apart: (0, 0, 0),
        meet: (0, 0, 0),
        chain: (0, 0, 0),
    };
    assert(in_step(cs@, *g, es, w));

    // at most 3 n - 6 edges
    if n > 2 {
        proof {
            assert(3 * n - 6 <= 0x7fff_ffff_ffff_ffff && 3 * n <= usize::MAX) by (nonlinear_arith)
                requires
                    n * n <= 0xffff_ffff_ffff_ffff,
                    n > 2,
                    n * n <= usize::MAX,
            ;
        }
        let c = Constraint { terms: first_variables(m), relation: Relation::AtMost, bound: (3 * n - 6) as i64 };
        proof {
            let next = Written { euler: true, ..w };
            assert(c.in_range(nv as nat));
            lemma_step(cs@, c, *g, es, w, next, |a: Seq<bool>| euler_bound(ni, mi, a));
            w = next;
        }
        cs.push(c);
    } else {
        proof {
            let next = Written { euler: true, ..w };
            lemma_skip(cs@, *g, es, w, next);
            w = next;
        }
    }

    // the tree has n - 1 arcs
    proof {
        assert(n - 1 <= 0x7fff_ffff_ffff_ffff) by (nonlinear_arith)
            requires
                n * n <= 0xffff_ffff_ffff_ffff,
                n > 0,
        ;
    }
    let c = Constraint { terms: variables_from(2 * m, 2 * m), relation: Relation::Equal, bound: (n - 1) as i64 };
    proof {
        let next = Written { tree: true, ..w };
        assert(c.in_range(nv as nat));
        lemma_step(cs@, c, *g, es, w, next, |a: Seq<bool>| tree_size(ni, mi, a));
        w = next;
    }
    cs.push(c);

    // every tree arc is an arc of a chosen edge and descends
    let mut d: usize = 0;
    while d < 2 * m
        invariant
            d <= 2 * m,
            n == ni,
            m == mi,
            ni == g@.len(),
            es == edges@,
            es.len() == m,
            nv == lr_vars(ni, mi),
            proper_edges(ni, es),
            in_step(cs@, *g, es, w),
            w == (Written {
                euler: true,
                tree: true,
                chosen: d as int,
                descend: d as int,
                apart: (0, 0, 0),
                meet: (0, 0, 0),
                chain: (0, 0, 0),
            }),
        decreases 2 * m - d,
    {
        let k = d / 2;
        let (x, y) = if d % 2 == 0 {
            edges[k]
        } else {
            swap(edges[k])
        };
        proof {
            assert(es[k as int].0 < es[k as int].1 < n);
            assert((x, y) == arc_at(es, d as int));
        }
        let c = constraint2((1, 2 * m + d), (-1, k), Relation::AtMost, 0);
        proof {
            let next = Written { chosen: d + 1, ..w };
            assert(c.in_range(nv as nat));
            lemma_step(cs@, c, *g, es, w, next, |a: Seq<bool>| arc_chosen(mi, a, d as int));
            w = next;
        }
        cs.push(c);
        let c = constraint2((1, 2 * m + d), (-1, path_index(n, m, x, y)), Relation::AtMost, 0);
        proof {
            let next = Written { descend: d + 1, ..w };
            assert(c.in_range(nv as nat));
            lemma_step(cs@, c, *g, es, w, next, |a: Seq<bool>| arc_descends(ni, es, a, d as int));
            w = next;
        }
        cs.push(c);
        d += 1;
    }

    // two children of a vertex do not lie on the paths to each other
    let mut u: usize = 0;
    while u < n
        invariant
            u <= n,
            n == ni,
            m == mi,
            ni == g@.len(),
            g.wf(),
            es == edges@,
            es.len() == m,
            es.to_set() == edge_set(g@),
            nv == lr_vars(ni, mi),
            proper_edges(ni, es),
            places(ni, es, table@),
            in_step(cs@, *g, es, w),
            w == (Written {
                euler: true,
                tree: true,
                chosen: 2 * mi,
                descend: 2 * mi,
                apart: (u as int, 0int, 0int),
                meet: (0, 0, 0),
                chain: (0, 0, 0),
            }),
        decreases n - u,
    {
        let neighbors = g.neighbor_list(u);
        let ghost nb = neighbors@;
        let mut i: usize = 0;
        while i < neighbors.len()
            invariant
                i <= nb.len(),
                u < n,
                n == ni,
                m == mi,
                ni == g@.len(),
                g.wf(),
                nb == neighbors@,
                nb == g.neighbor_seq(u as int),
                nb.to_set() == g@[u as int],
                es == edges@,
                es.len() == m,
                es.to_set() == edge_set(g@),
                nv == lr_vars(ni, mi),
                proper_edges(ni, es),
                places(ni, es, table@),
                in_step(cs@, *g, es, w),
                w == (Written {
                    euler: true,
                    tree: true,
                    chosen: 2 * mi,
                    descend: 2 * mi,
                    apart: (u as int, i as int, 0int),
                    meet: (0, 0, 0),
                    chain: (0, 0, 0),
                }),
            decreases nb.len() - i,
        {
            let v = neighbors[i];
            proof {
                let next = Written { apart: (u as int, i as int, i as int), ..w };
                lemma_skip(cs@, *g, es, w, next);
                w = next;
                assert(nb.to_set().contains(v));
                assert(g@[u as int].contains(v));
            }
            let mut j: usize = i;
            while j < neighbors.len()
                invariant
                    i <= j <= nb.len(),
                    i < nb.len(),
                    v == nb[i as int],
                    v < n,
                    u < n,
                    n == ni,
                    m == mi,
                    ni == g@.len(),
                    g.wf(),
                    nb == neighbors@,
                    nb == g.neighbor_seq(u as int),
                    nb.to_set() == g@[u as int],
                    es == edges@,
                    es.len() == m,
                    es.to_set() == edge_set(g@),
                    nv == lr_vars(ni, mi),
                    proper_edges(ni, es),
                    places(ni, es, table@),
                    in_step(cs@, *g, es, w),
                    w == (Written {
                        euler: true,
                        tree: true,
                        chosen: 2 * mi,
                        descend: 2 * mi,
                        apart: (u as int, i as int, j as int),
                        meet: (0, 0, 0),
                        chain: (0, 0, 0),
                    }),
                decreases nb.len() - j,
            {
                let x = neighbors[j];
                proof {
                    assert(nb.to_set().contains(x));
                    assert(g@[u as int].contains(x));
                    assert(g@[u as int].contains(v));
                    assert(edge_set(g@).contains(if u < v {
                        (u, v)
                    } else {
                        (v, u)
                    }));
                    assert(edge_set(g@).contains(if u < x {
                        (u, x)
                    } else {
                        (x, u)
                    }));
                    assert(es.contains((u, v)) || es.contains((v, u)));
                    assert(es.contains((u, x)) || es.contains((x, u)));
                }
                let c = constraint4(
                    (1, path_index(n, m, v, x)),
                    (1, path_index(n, m, x, v)),
                    (1, tree_index(n, &edges, &table, u, v)),
                    (1, tree_index(n, &edges, &table, u, x)),
                    Relation::AtMost,
                    2,
                );
                proof {
                    let next = Written { apart: (u as int, i as int, j + 1), ..w };
                    assert(c.in_range(nv as nat));
                    lemma_step(cs@, c, *g, es, w, next, |a: Seq<bool>| branches_apart(ni, es, a, u, v, x));
                    w = next;
                }
                cs.push(c);
                j += 1;
            }
            proof {
                let next = Written { apart: (u as int, i + 1, 0int), ..w };
                lemma_skip(cs@, *g, es, w, next);
                w = next;
            }
            i += 1;
        }
        proof {
            let next = Written { apart: (u + 1, 0int, 0int), ..w };
            assert forall|a: Seq<bool>| a.len() == nv implies (#[trigger] written_holds(*g, es, a, next)
                <==> written_holds(*g, es, a, w)) by {
                lemma_row_done(*g, es, a, u as int, nb);
            }
            lemma_skip(cs@, *g, es, w, next);
            w = next;
        }
        u += 1;
    }

    // lying on the path behaves as in a tree
    let mut u: usize = 0;
    while u < n
        invariant
            u <= n,
            n == ni,
            m == mi,
            ni == g@.len(),
            es == edges@,
            es.len() == m,
            nv == lr_vars(ni, mi),
            in_step(cs@, *g, es, w),
            w == (Written {
                euler: true,
                tree: true,
                chosen: 2 * mi,
                descend: 2 * mi,
                apart: (ni, 0int, 0int),
                meet: (u as int, 0int, 0int),
                chain: (u as int, 0int, 0int),
            }),
        decreases n - u,
    {
        let mut v: usize = 0;
        while v < n
            invariant
                v <= n,
                u < n,
                n == ni,
                m == mi,
                ni == g@.len(),
                es == edges@,
                es.len() == m,
                nv == lr_vars(ni, mi),
                in_step(cs@, *g, es, w),
                w == (Written {
                    euler: true,
                    tree: true,
                    chosen: 2 * mi,
                    descend: 2 * mi,
                    apart: (ni, 0int, 0int),
                    meet: (u as int, v as int, 0int),
                    chain: (u as int, v as int, 0int),
                }),
            decreases n - v,
        {
            if u != v {
                let mut x: usize = 0;
                while x < n
                    invariant
                        x <= n,
                        v < n,
                        u < n,
                        u != v,
                        n == ni,
                        m == mi,
                        ni == g@.len(),
                        es == edges@,
                        es.len() == m,
                        nv == lr_vars(ni, mi),
                        in_step(cs@, *g, es, w),
                        w == (Written {
                            euler: true,
                            tree: true,
                            chosen: 2 * mi,
                            descend: 2 * mi,
                            apart: (ni, 0int, 0int),
                            meet: (u as int, v as int, x as int),
                            chain: (u as int, v as int, x as int),
                        }),
                    decreases n - x,
                {
                    if u != x && v != x {
                        let c = constraint4(
                            (1, path_index(n, m, u, x)),
                            (1, path_index(n, m, v, x)),
                            (-1, path_index(n, m, u, v)),
                            (-1, path_index(n, m, v, u)),
                            Relation::AtMost,
                            1,
                        );
                        proof {
                            let next = Written { meet: (u as int, v as int, x + 1), ..w };
                            assert(c.in_range(nv as nat));
                            lemma_step(
                                cs@,
                                c,
                                *g,
                                es,
                                w,
                                next,
                                |a: Seq<bool>| paths_meet(ni, mi, a, u as int, v as int, x as int),
                            );
                            w = next;
                        }
                        cs.push(c);
                        let c = constraint3(
                            (1, path_index(n, m, u, v)),
                            (1, path_index(n, m, v, x)),
                            (-1, path_index(n, m, u, x)),
                            Relation::AtMost,
                            1,
                        );
                        proof {
                            let next = Written { chain: (u as int, v as int, x + 1), ..w };
                            assert(c.in_range(nv as nat));
                            lemma_step(
                                cs@,
                                c,
                                *g,
                                es,
                                w,
                                next,
                                |a: Seq<bool>| paths_chain(ni, mi, a, u as int, v as int, x as int),
                            );
                            w = next;
                        }
                        cs.push(c);
                    } else {
                        proof {
                            let next = Written {
                                meet: (u as int, v as int, x + 1),
                                chain: (u as int, v as int, x + 1),
                                ..w
                            };
                            lemma_skip(cs@, *g, es, w, next);
                            w = next;
                        }
                    }
                    x += 1;
                }
            }
            proof {
                let next = Written { meet: (u as int, v + 1, 0int), chain: (u as int, v + 1, 0int), ..w };
                lemma_skip(cs@, *g, es, w, next);
                w = next;
            }
            v += 1;
        }
        proof {
            let next = Written { meet: (u + 1, 0int, 0int), chain: (u + 1, 0int, 0int), ..w };
            lemma_skip(cs@, *g, es, w, next);
            w = next;
        }
        u += 1;
    }
    let program = BinaryProgram { num_vars: nv, objective, constraints: cs };
    proof {
        assert(program.objective@ =~= Seq::new(es.len(), |k: int| k as usize));
        assert forall|a: Seq<bool>| a.len() == program.num_vars implies (#[trigger] all_hold(program.constraints@, a)
            <==> lr_holds(*g, es, a)) by {
            assert(all_hold(program.constraints@, a) <==> written_holds(*g, es, a, w));
        }
    }
    Some((program, edges))
}

} // verus!
