//! The program for a largest planar subgraph that rests on Schnyder's
//! theorem: a graph is planar exactly if its vertices have three linear
//! orders such that every edge lies, in one of them, below every vertex that
//! is not one of its ends.

use crate::graphs::{edge_set, Graph};
use crate::ilp::{
    all_hold, all_in_range, chosen, constraint2, constraint3, constraint4, first_variables, lemma_all_hold_push,
    lemma_all_in_range_push, on, BinaryProgram, Constraint, Relation,
};
use vstd::prelude::*;

verus! {

/// The variable that says that `u` lies below `v` in the order `i`.
pub open spec fn t_var(n: int, m: int, i: int, u: int, v: int) -> int {
    m + (i * n + u) * n + v
}

/// The variable that says that both ends of the edge `k` lie below `v` in
/// the order `i`.
pub open spec fn a_var(n: int, m: int, i: int, v: int, k: int) -> int {
    m + 3 * n * n + (i * n + v) * m + k
}

/// The number of variables for `n` vertices and `m` edges: one for each
/// edge, then those of `t_var`, then those of `a_var`.
pub open spec fn schnyder_vars(n: int, m: int) -> int {
    m + 3 * n * n + 3 * n * m
}

/// The pair `(x, y)` comes before `(hx, hy)`.
pub open spec fn before2(x: int, y: int, hx: int, hy: int) -> bool {
    x < hx || (x == hx && y < hy)
}

/// The triple `(x, y, z)` comes before `(hx, hy, hz)`.
pub open spec fn before3(x: int, y: int, z: int, hx: int, hy: int, hz: int) -> bool {
    x < hx || (x == hx && before2(y, z, hy, hz))
}

/// The quadruple `(x, y, z, w)` comes before `(hx, hy, hz, hw)`.
pub open spec fn before4(x: int, y: int, z: int, w: int, hx: int, hy: int, hz: int, hw: int) -> bool {
    x < hx || (x == hx && before3(y, z, w, hy, hz, hw))
}

/// A planar graph on more than two vertices has at most `3 * n - 6` edges.
pub open spec fn euler_bound(n: int, m: int, a: Seq<bool>) -> bool {
    n > 2 ==> chosen(a, m) <= 3 * n - 6
}

/// A chosen edge lies below the vertex `v` in one of the orders.
pub open spec fn edge_below(n: int, m: int, a: Seq<bool>, k: int, v: int) -> bool {
    on(a, k) <= on(a, a_var(n, m, 0, v, k)) + on(a, a_var(n, m, 1, v, k)) + on(a, a_var(n, m, 2, v, k))
}

/// If the edge `k` lies below `v` in the order `i`, its end `u` does.
pub open spec fn end_below(n: int, m: int, a: Seq<bool>, i: int, k: int, u: int, v: int) -> bool {
    on(a, a_var(n, m, i, v, k)) <= on(a, t_var(n, m, i, u, v))
}

/// The vertex `u` does not lie below `v` in all three orders.
pub open spec fn not_thrice(n: int, m: int, a: Seq<bool>, u: int, v: int) -> bool {
    on(a, t_var(n, m, 0, u, v)) + on(a, t_var(n, m, 1, u, v)) + on(a, t_var(n, m, 2, u, v)) <= 2
}

/// The order `i` is transitive at `u`, `v`, `w`.
pub open spec fn transitive_at(n: int, m: int, a: Seq<bool>, i: int, u: int, v: int, w: int) -> bool {
    on(a, t_var(n, m, i, u, v)) + on(a, t_var(n, m, i, v, w)) - 1 <= on(a, t_var(n, m, i, u, w))
}

/// In the order `i` exactly one of `u`, `v` lies below the other.
pub open spec fn total_at(n: int, m: int, a: Seq<bool>, i: int, u: int, v: int) -> bool {
    on(a, t_var(n, m, i, u, v)) + on(a, t_var(n, m, i, v, u)) == 1
}

/// The edges before the place `(hk, hv)` lie below the vertices beside them.
pub open spec fn edges_below(n: int, edges: Seq<(usize, usize)>, a: Seq<bool>, hk: int, hv: int) -> bool {
    forall|k: int, v: int|
        0 <= k < edges.len() && 0 <= v < n && before2(k, v, hk, hv) && v != edges[k].0 && v != edges[k].1
            ==> #[trigger] edge_below(n, edges.len() as int, a, k, v)
}

/// The end `j` of the edge `k`.
pub open spec fn end_of(edges: Seq<(usize, usize)>, k: int, j: int) -> int {
    if j == 0 {
        edges[k].0 as int
    } else {
        edges[k].1 as int
    }
}

/// The ends of the edges before the place `(hi, hk, hj, hv)` lie below where
/// their edges do.
pub open spec fn ends_below(
    n: int,
    edges: Seq<(usize, usize)>,
    a: Seq<bool>,
    hi: int,
    hk: int,
    hj: int,
    hv: int,
) -> bool {
    forall|i: int, k: int, j: int, v: int|
        0 <= i < 3 && 0 <= k < edges.len() && 0 <= j < 2 && 0 <= v < n && before4(i, k, j, v, hi, hk, hj, hv) && v
            != edges[k].0 && v != edges[k].1 ==> #[trigger] end_below(
            n,
            edges.len() as int,
            a,
            i,
            k,
            end_of(edges, k, j),
            v,
        )
}

/// No vertex lies below another in all three orders, before the place
/// `(hu, hv)`.
pub open spec fn none_thrice(n: int, m: int, a: Seq<bool>, hu: int, hv: int) -> bool {
    forall|u: int, v: int|
        0 <= u < n && 0 <= v < n && before2(u, v, hu, hv) && u != v ==> #[trigger] not_thrice(n, m, a, u, v)
}

/// The orders are transitive before the place `(hi, hu, hv, hw)`.
pub open spec fn all_transitive(n: int, m: int, a: Seq<bool>, hi: int, hu: int, hv: int, hw: int) -> bool {
    forall|i: int, u: int, v: int, w: int|
        0 <= i < 3 && 0 <= u < n && 0 <= v < n && 0 <= w < n && before4(i, u, v, w, hi, hu, hv, hw) && u != v && u
            != w && v != w ==> #[trigger] transitive_at(n, m, a, i, u, v, w)
}

/// The orders are total before the place `(hi, hu, hv)`.
pub open spec fn all_total(n: int, m: int, a: Seq<bool>, hi: int, hu: int, hv: int) -> bool {
    forall|i: int, u: int, v: int|
        0 <= i < 3 && 0 <= u < n && 0 <= v < n && before3(i, u, v, hi, hu, hv) && u != v ==> #[trigger] total_at(
            n,
            m,
            a,
            i,
            u,
            v,
        )
}

/// What the program of Schnyder asks of an assignment: the variables `0..m`
/// choose edges, at most `3 * n - 6` of them; the three relations are
/// linear orders, no pair the same way in all three; and in one of them
/// every chosen edge lies below every vertex that is not one of its ends.
pub open spec fn schnyder_holds(n: int, edges: Seq<(usize, usize)>, a: Seq<bool>) -> bool {
    let m = edges.len() as int;
    &&& euler_bound(n, m, a)
    &&& edges_below(n, edges, a, m, 0)
    &&& ends_below(n, edges, a, 3, 0, 0, 0)
    &&& none_thrice(n, m, a, n, 0)
    &&& all_transitive(n, m, a, 3, 0, 0, 0)
    &&& all_total(n, m, a, 3, 0, 0)
}

/// The number of the variable `t_var`.
pub fn t_index(n: usize, m: usize, i: usize, u: usize, v: usize) -> (r: usize)
    requires
        i < 3,
        u < n,
        v < n,
        schnyder_vars(n as int, m as int) <= usize::MAX,
    ensures
        r == t_var(n as int, m as int, i as int, u as int, v as int),
        r < m + 3 * n * n,
        r < schnyder_vars(n as int, m as int),
{
    proof {
        assert(i * n <= 2 * n && i * n + u < 3 * n && 3 * n <= 3 * n * n && (i * n + u) * n <= 3 * n * n - n && 0
            <= 3 * n * m) by (nonlinear_arith)
            requires
                i < 3,
                u < n,
                v < n,
        ;
    }
    m + (i * n + u) * n + v
}

/// The number of the variable `a_var`.
pub fn a_index(n: usize, m: usize, i: usize, v: usize, k: usize) -> (r: usize)
    requires
        i < 3,
        v < n,
        k < m,
        schnyder_vars(n as int, m as int) <= usize::MAX,
    ensures
        r == a_var(n as int, m as int, i as int, v as int, k as int),
        r < schnyder_vars(n as int, m as int),
{
    proof {
        assert(i * n <= 2 * n && i * n + v < 3 * n && 3 * n <= 3 * n * n && (i * n + v) * m <= 3 * n * m - m && 0
            <= (i * n + v) * m) by (nonlinear_arith)
            requires
                i < 3,
                v < n,
                k < m,
        ;
    }
    m + 3 * n * n + (i * n + v) * m + k
}

/// The number of variables, if it fits in a machine word.
pub fn schnyder_size(n: usize, m: usize) -> (r: Option<usize>)
    ensures
        r is Some == (schnyder_vars(n as int, m as int) <= usize::MAX),
        r matches Some(size) ==> size == schnyder_vars(n as int, m as int),
{
    proof {
        assert(0 <= n * n && 0 <= n * m && 3 * n * n == 3 * (n * n) && 3 * n * m == 3 * (n * m))
            by (nonlinear_arith);
    }
    let nn = match n.checked_mul(n) {
        Some(x) => x,
        None => {
            return None;
        },
    };
    let nn3 = match nn.checked_mul(3) {
        Some(x) => x,
        None => {
            return None;
        },
    };
    let nm = match n.checked_mul(m) {
        Some(x) => x,
        None => {
            return None;
        },
    };
    let nm3 = match nm.checked_mul(3) {
        Some(x) => x,
        None => {
            return None;
        },
    };
    let first = match m.checked_add(nn3) {
        Some(x) => x,
        None => {
            return None;
        },
    };
    first.checked_add(nm3)
}

/// How far the program has been written: whether the bound on the number of
/// edges is there, and the place up to which each family of constraints is.
pub struct Written {
    pub euler: bool,
    pub below: (int, int),
    pub ends: (int, int, int, int),
    pub thrice: (int, int),
    pub transitive: (int, int, int, int),
    pub total: (int, int, int),
}

/// What the constraints written so far ask of an assignment.
pub open spec fn written_holds(n: int, edges: Seq<(usize, usize)>, a: Seq<bool>, w: Written) -> bool {
    let m = edges.len() as int;
    &&& w.euler ==> euler_bound(n, m, a)
    &&& edges_below(n, edges, a, w.below.0, w.below.1)
    &&& ends_below(n, edges, a, w.ends.0, w.ends.1, w.ends.2, w.ends.3)
    &&& none_thrice(n, m, a, w.thrice.0, w.thrice.1)
    &&& all_transitive(n, m, a, w.transitive.0, w.transitive.1, w.transitive.2, w.transitive.3)
    &&& all_total(n, m, a, w.total.0, w.total.1, w.total.2)
}

/// The constraints written so far are those that `w` tells of.
pub open spec fn in_step(cs: Seq<Constraint>, n: int, edges: Seq<(usize, usize)>, w: Written) -> bool {
    &&& all_in_range(cs, schnyder_vars(n, edges.len() as int) as nat)
    &&& forall|a: Seq<bool>|
        a.len() == schnyder_vars(n, edges.len() as int) ==> (#[trigger] all_hold(cs, a) <==> written_holds(
            n,
            edges,
            a,
            w,
        ))
}

/// One constraint more that asks `asked` of the assignments takes the
/// program from `w` to `next`.
pub proof fn lemma_step(
    cs: Seq<Constraint>,
    c: Constraint,
    n: int,
    edges: Seq<(usize, usize)>,
    w: Written,
    next: Written,
    asked: spec_fn(Seq<bool>) -> bool,
)
    requires
        in_step(cs, n, edges, w),
        c.in_range(schnyder_vars(n, edges.len() as int) as nat),
        forall|a: Seq<bool>| #[trigger] c.holds(a) <==> asked(a),
        forall|a: Seq<bool>|
            a.len() == schnyder_vars(n, edges.len() as int) ==> (#[trigger] written_holds(n, edges, a, next)
                <==> written_holds(n, edges, a, w) && asked(a)),
    ensures
        in_step(cs.push(c), n, edges, next),
{
    lemma_all_in_range_push(cs, c, schnyder_vars(n, edges.len() as int) as nat);
    assert forall|a: Seq<bool>| a.len() == schnyder_vars(n, edges.len() as int) implies (#[trigger] all_hold(
        cs.push(c),
        a,
    ) <==> written_holds(n, edges, a, next)) by {
        lemma_all_hold_push(cs, c, a);
        assert(c.holds(a) <==> asked(a));
        assert(all_hold(cs, a) <==> written_holds(n, edges, a, w));
    }
}

/// Moving on without a constraint, where the next place asks nothing new.
pub proof fn lemma_skip(cs: Seq<Constraint>, n: int, edges: Seq<(usize, usize)>, w: Written, next: Written)
    requires
        in_step(cs, n, edges, w),
        forall|a: Seq<bool>|
            a.len() == schnyder_vars(n, edges.len() as int) ==> (#[trigger] written_holds(n, edges, a, next)
                <==> written_holds(n, edges, a, w)),
    ensures
        in_step(cs, n, edges, next),
{
    assert forall|a: Seq<bool>| a.len() == schnyder_vars(n, edges.len() as int) implies (#[trigger] all_hold(cs, a)
        <==> written_holds(n, edges, a, next)) by {
        assert(all_hold(cs, a) <==> written_holds(n, edges, a, w));
    }
}

/// Writes the program of Schnyder for the graph: the first variables choose
/// among the listed edges, and an assignment meets the constraints exactly
/// if it is as `schnyder_holds` asks. `None` if the number of variables
/// does not fit in a machine word.
pub fn schnyder_model(g: &Graph) -> (r: Option<(BinaryProgram, Vec<(usize, usize)>)>)
    requires
        g.wf(),
    ensures
        r is Some == (schnyder_vars(g@.len() as int, g.spec_num_of_edges() as int) <= usize::MAX),
        r matches Some((program, edges)) ==> {
            &&& edges@.no_duplicates()
            &&& edges@.to_set() == edge_set(g@)
            &&& edges@.len() == g.spec_num_of_edges()
            &&& program.wf()
            &&& program.num_vars == schnyder_vars(g@.len() as int, edges@.len() as int)
            &&& program.objective@ == Seq::new(edges@.len(), |k: int| k as usize)
            &&& forall|a: Seq<bool>|
                a.len() == program.num_vars ==> (#[trigger] all_hold(program.constraints@, a) <==> schnyder_holds(
                    g@.len() as int,
                    edges@,
                    a,
                ))
        },
{
    let n = g.num_of_vertices();
    let edges = g.all_edges();
    let m = edges.len();
    let nv = match schnyder_size(n, m) {
        Some(size) => size,
        None => {
            return None;
        },
    };
    let ghost ni = n as int;
    let ghost mi = m as int;
    let ghost es = edges@;
    proof {
        assert forall|k: int| 0 <= k < m implies (#[trigger] es[k]).0 < n && es[k].1 < n && es[k].0 != es[k].1 by {
            assert(es.to_set().contains(es[k]));
        }
    }
    let mut objective: Vec<usize> = Vec::with_capacity(m);
    let mut k: usize = 0;
    while k < m
        invariant
            k <= m,
            objective@.len() == k,
            forall|i: int| 0 <= i < k ==> #[trigger] objective@[i] == i,
        decreases m - k,
    {
        objective.push(k);
        k += 1;
    }
    let mut cs: Vec<Constraint> = Vec::new();
    let ghost mut w = Written {
        euler: false,
        below: (0, 0),
        ends: (0, 0, 0, 0),
        thrice: (0, 0),
        transitive: (0, 0, 0, 0),
        total: (0, 0, 0),
    };
    assert(in_step(cs@, ni, es, w));

    // at most 3 n - 6 edges
    if n > 2 {
        proof {
            assert(3 * n - 6 <= 0x7fff_ffff_ffff_ffff && 3 * n <= usize::MAX) by (nonlinear_arith)
                requires
                    3 * n * n <= 0xffff_ffff_ffff_ffff,
                    n > 2,
                    3 * n * n <= usize::MAX,
            ;
        }
        let c = Constraint { terms: first_variables(m), relation: Relation::AtMost, bound: (3 * n - 6) as i64 };
        proof {
            let next = Written { euler: true, ..w };
            assert(c.in_range(nv as nat));
            lemma_step(cs@, c, ni, es, w, next, |a: Seq<bool>| euler_bound(ni, mi, a));
            w = next;
        }
        cs.push(c);
    } else {
        proof {
            let next = Written { euler: true, ..w };
            lemma_skip(cs@, ni, es, w, next);
            w = next;
        }
    }

    // every chosen edge lies below every other vertex in one of the orders
    let mut k: usize = 0;
    while k < m
        invariant
            k <= m,
            n == ni,
            m == mi,
            es == edges@,
            es.len() == m,
            nv == schnyder_vars(ni, mi),
            forall|k: int| 0 <= k < m ==> (#[trigger] es[k]).0 < n && es[k].1 < n && es[k].0 != es[k].1,
            in_step(cs@, ni, es, w),
            w == (Written {
                euler: true,
                below: (k as int, 0int),
                ends: (0, 0, 0, 0),
                thrice: (0, 0),
                transitive: (0, 0, 0, 0),
                total: (0, 0, 0),
            }),
        decreases m - k,
    {
        let (e0, e1) = edges[k];
        let mut v: usize = 0;
        while v < n
            invariant
                v <= n,
                k < m,
                n == ni,
                m == mi,
                es == edges@,
                es.len() == m,
                (e0, e1) == es[k as int],
                nv == schnyder_vars(ni, mi),
                in_step(cs@, ni, es, w),
                w == (Written {
                    euler: true,
                    below: (k as int, v as int),
                    ends: (0, 0, 0, 0),
                    thrice: (0, 0),
                    transitive: (0, 0, 0, 0),
                    total: (0, 0, 0),
                }),
            decreases n - v,
        {
            let ghost next = Written { below: (k as int, v + 1), ..w };
            if v != e0 && v != e1 {
                let c = constraint4(
                    (1, k),
                    (-1, a_index(n, m, 0, v, k)),
                    (-1, a_index(n, m, 1, v, k)),
                    (-1, a_index(n, m, 2, v, k)),
                    Relation::AtMost,
                    0,
                );
                proof {
                    assert(c.in_range(nv as nat));
                    lemma_step(cs@, c, ni, es, w, next, |a: Seq<bool>| edge_below(ni, mi, a, k as int, v as int));
                }
                cs.push(c);
            } else {
                proof {
                    lemma_skip(cs@, ni, es, w, next);
                }
            }
            proof {
                w = next;
            }
            v += 1;
        }
        proof {
            let next = Written { below: (k + 1, 0int), ..w };
            lemma_skip(cs@, ni, es, w, next);
            w = next;
        }
        k += 1;
    }

    // where an edge lies below a vertex, both its ends do
    let mut i: usize = 0;
    while i < 3
        invariant
            i <= 3,
            n == ni,
            m == mi,
            es == edges@,
            es.len() == m,
            nv == schnyder_vars(ni, mi),
            forall|k: int| 0 <= k < m ==> (#[trigger] es[k]).0 < n && es[k].1 < n && es[k].0 != es[k].1,
            in_step(cs@, ni, es, w),
            w == (Written {
                euler: true,
                below: (mi, 0int),
                ends: (i as int, 0int, 0int, 0int),
                thrice: (0, 0),
                transitive: (0, 0, 0, 0),
                total: (0, 0, 0),
            }),
        decreases 3 - i,
    {
        let mut k: usize = 0;
        while k < m
            invariant
                k <= m,
                i < 3,
                n == ni,
                m == mi,
                es == edges@,
                es.len() == m,
                nv == schnyder_vars(ni, mi),
                forall|k: int| 0 <= k < m ==> (#[trigger] es[k]).0 < n && es[k].1 < n && es[k].0 != es[k].1,
                in_step(cs@, ni, es, w),
                w == (Written {
                    euler: true,
                    below: (mi, 0int),
                    ends: (i as int, k as int, 0int, 0int),
                    thrice: (0, 0),
                    transitive: (0, 0, 0, 0),
                    total: (0, 0, 0),
                }),
            decreases m - k,
        {
            let (e0, e1) = edges[k];
            let ends = [e0, e1];
            let mut j: usize = 0;
            while j < 2
                invariant
                    j <= 2,
                    k < m,
                    i < 3,
                    n == ni,
                    m == mi,
                    es == edges@,
                    es.len() == m,
                    (e0, e1) == es[k as int],
                    ends@ == seq![e0, e1],
                    e0 < n,
                    e1 < n,
                    nv == schnyder_vars(ni, mi),
                    in_step(cs@, ni, es, w),
                    w == (Written {
                        euler: true,
                        below: (mi, 0int),
                        ends: (i as int, k as int, j as int, 0int),
                        thrice: (0, 0),
                        transitive: (0, 0, 0, 0),
                        total: (0, 0, 0),
                    }),
                decreases 2 - j,
            {
                let u = ends[j];
                let mut v: usize = 0;
                while v < n
                    invariant
                        v <= n,
                        j < 2,
                        k < m,
                        i < 3,
                        n == ni,
                        m == mi,
                        es == edges@,
                        es.len() == m,
                        (e0, e1) == es[k as int],
                        u == end_of(es, k as int, j as int),
                        u < n,
                        nv == schnyder_vars(ni, mi),
                        in_step(cs@, ni, es, w),
                        w == (Written {
                            euler: true,
                            below: (mi, 0int),
                            ends: (i as int, k as int, j as int, v as int),
                            thrice: (0, 0),
                            transitive: (0, 0, 0, 0),
                            total: (0, 0, 0),
                        }),
                    decreases n - v,
                {
                    let ghost next = Written { ends: (i as int, k as int, j as int, v + 1), ..w };
                    if v != e0 && v != e1 {
                        let c = constraint2(
                            (1, a_index(n, m, i, v, k)),
                            (-1, t_index(n, m, i, u, v)),
                            Relation::AtMost,
                            0,
                        );
                        proof {
                            assert(c.in_range(nv as nat));
                            lemma_step(
                                cs@,
                                c,
                                ni,
                                es,
                                w,
                                next,
                                |a: Seq<bool>| end_below(ni, mi, a, i as int, k as int, u as int, v as int),
                            );
                        }
                        cs.push(c);
                    } else {
                        proof {
                            lemma_skip(cs@, ni, es, w, next);
                        }
                    }
                    proof {
                        w = next;
                    }
                    v += 1;
                }
                proof {
                    let next = Written { ends: (i as int, k as int, j + 1, 0int), ..w };
                    lemma_skip(cs@, ni, es, w, next);
                    w = next;
                }
                j += 1;
            }
            proof {
                let next = Written { ends: (i as int, k + 1, 0int, 0int), ..w };
                lemma_skip(cs@, ni, es, w, next);
                w = next;
            }
            k += 1;
        }
        proof {
            let next = Written { ends: (i + 1, 0int, 0int, 0int), ..w };
            lemma_skip(cs@, ni, es, w, next);
            w = next;
        }
        i += 1;
    }

    // no vertex lies below another in all three orders
    let mut u: usize = 0;
    while u < n
        invariant
            u <= n,
            n == ni,
            m == mi,
            es == edges@,
            es.len() == m,
            nv == schnyder_vars(ni, mi),
            in_step(cs@, ni, es, w),
            w == (Written {
                euler: true,
                below: (mi, 0int),
                ends: (3, 0, 0, 0),
                thrice: (u as int, 0int),
                transitive: (0, 0, 0, 0),
                total: (0, 0, 0),
            }),
        decreases n - u,
    {
        let mut v: usize = 0;
        while v < n
            invariant
                v <= n,
                u < n,
                n == ni,
                m == mi,
                es == edges@,
                es.len() == m,
                nv == schnyder_vars(ni, mi),
                in_step(cs@, ni, es, w),
                w == (Written {
                    euler: true,
                    below: (mi, 0int),
                    ends: (3, 0, 0, 0),
                    thrice: (u as int, v as int),
                    transitive: (0, 0, 0, 0),
                    total: (0, 0, 0),
                }),
            decreases n - v,
        {
            let ghost next = Written { thrice: (u as int, v + 1), ..w };
            if u != v {
                let c = constraint3(
                    (1, t_index(n, m, 0, u, v)),
                    (1, t_index(n, m, 1, u, v)),
                    (1, t_index(n, m, 2, u, v)),
                    Relation::AtMost,
                    2,
                );
                proof {
                    assert(c.in_range(nv as nat));
                    lemma_step(cs@, c, ni, es, w, next, |a: Seq<bool>| not_thrice(ni, mi, a, u as int, v as int));
                }
                cs.push(c);
            } else {
                proof {
                    lemma_skip(cs@, ni, es, w, next);
                }
            }
            proof {
                w = next;
            }
            v += 1;
        }
        proof {
            let next = Written { thrice: (u + 1, 0int), ..w };
            lemma_skip(cs@, ni, es, w, next);
            w = next;
        }
        u += 1;
    }

    // the orders are transitive
    let mut i: usize = 0;
    while i < 3
        invariant
            i <= 3,
            n == ni,
            m == mi,
            es == edges@,
            es.len() == m,
            nv == schnyder_vars(ni, mi),
            in_step(cs@, ni, es, w),
            w == (Written {
                euler: true,
                below: (mi, 0int),
                ends: (3, 0, 0, 0),
                thrice: (ni, 0int),
                transitive: (i as int, 0int, 0int, 0int),
                total: (0, 0, 0),
            }),
        decreases 3 - i,
    {
        let mut u: usize = 0;
        while u < n
            invariant
                u <= n,
                i < 3,
                n == ni,
                m == mi,
                es == edges@,
                es.len() == m,
                nv == schnyder_vars(ni, mi),
                in_step(cs@, ni, es, w),
                w == (Written {
                    euler: true,
                    below: (mi, 0int),
                    ends: (3, 0, 0, 0),
                    thrice: (ni, 0int),
                    transitive: (i as int, u as int, 0int, 0int),
                    total: (0, 0, 0),
                }),
            decreases n - u,
        {
            let mut v: usize = 0;
            while v < n
                invariant
                    v <= n,
                    u < n,
                    i < 3,
                    n == ni,
                    m == mi,
                    es == edges@,
                    es.len() == m,
                    nv == schnyder_vars(ni, mi),
                    in_step(cs@, ni, es, w),
                    w == (Written {
                        euler: true,
                        below: (mi, 0int),
                        ends: (3, 0, 0, 0),
                        thrice: (ni, 0int),
                        transitive: (i as int, u as int, v as int, 0int),
                        total: (0, 0, 0),
                    }),
                decreases n - v,
            {
                if u != v {
                    let mut x: usize = 0;
                    while x < n
                        invariant
                            x <= n,
                            v < n,
                            u < n,
                            u != v,
                            i < 3,
                            n == ni,
                            m == mi,
                            es == edges@,
                            es.len() == m,
                            nv == schnyder_vars(ni, mi),
                            in_step(cs@, ni, es, w),
                            w == (Written {
                                euler: true,
                                below: (mi, 0int),
                                ends: (3, 0, 0, 0),
                                thrice: (ni, 0int),
                                transitive: (i as int, u as int, v as int, x as int),
                                total: (0, 0, 0),
                            }),
                        decreases n - x,
                    {
                        let ghost next = Written { transitive: (i as int, u as int, v as int, x + 1), ..w };
                        if u != x && v != x {
                            let c = constraint3(
                                (1, t_index(n, m, i, u, v)),
                                (1, t_index(n, m, i, v, x)),
                                (-1, t_index(n, m, i, u, x)),
                                Relation::AtMost,
                                1,
                            );
                            proof {
                                assert(c.in_range(nv as nat));
                                lemma_step(
                                    cs@,
                                    c,
                                    ni,
                                    es,
                                    w,
                                    next,
                                    |a: Seq<bool>| transitive_at(ni, mi, a, i as int, u as int, v as int, x as int),
                                );
                            }
                            cs.push(c);
                        } else {
                            proof {
                                lemma_skip(cs@, ni, es, w, next);
                            }
                        }
                        proof {
                            w = next;
                        }
                        x += 1;
                    }
                }
                proof {
                    let next = Written { transitive: (i as int, u as int, v + 1, 0int), ..w };
                    lemma_skip(cs@, ni, es, w, next);
                    w = next;
                }
                v += 1;
            }
            proof {
                let next = Written { transitive: (i as int, u + 1, 0int, 0int), ..w };
                lemma_skip(cs@, ni, es, w, next);
                w = next;
            }
            u += 1;
        }
        proof {
            let next = Written { transitive: (i + 1, 0int, 0int, 0int), ..w };
            lemma_skip(cs@, ni, es, w, next);
            w = next;
        }
        i += 1;
    }

    // the orders are total
    let mut i: usize = 0;
    while i < 3
        invariant
            i <= 3,
            n == ni,
            m == mi,
            es == edges@,
            es.len() == m,
            nv == schnyder_vars(ni, mi),
            in_step(cs@, ni, es, w),
            w == (Written {
                euler: true,
                below: (mi, 0int),
                ends: (3, 0, 0, 0),
                thrice: (ni, 0int),
                transitive: (3, 0, 0, 0),
                total: (i as int, 0int, 0int),
            }),
        decreases 3 - i,
    {
        let mut u: usize = 0;
        while u < n
            invariant
                u <= n,
                i < 3,
                n == ni,
                m == mi,
                es == edges@,
                es.len() == m,
                nv == schnyder_vars(ni, mi),
                in_step(cs@, ni, es, w),
                w == (Written {
                    euler: true,
                    below: (mi, 0int),
                    ends: (3, 0, 0, 0),
                    thrice: (ni, 0int),
                    transitive: (3, 0, 0, 0),
                    total: (i as int, u as int, 0int),
                }),
            decreases n - u,
        {
            let mut v: usize = 0;
            while v < n
                invariant
                    v <= n,
                    u < n,
                    i < 3,
                    n == ni,
                    m == mi,
                    es == edges@,
                    es.len() == m,
                    nv == schnyder_vars(ni, mi),
                    in_step(cs@, ni, es, w),
                    w == (Written {
                        euler: true,
                        below: (mi, 0int),
                        ends: (3, 0, 0, 0),
                        thrice: (ni, 0int),
                        transitive: (3, 0, 0, 0),
                        total: (i as int, u as int, v as int),
                    }),
                decreases n - v,
            {
                let ghost next = Written { total: (i as int, u as int, v + 1), ..w };
                if u != v {
                    let c = constraint2(
                        (1, t_index(n, m, i, u, v)),
                        (1, t_index(n, m, i, v, u)),
                        Relation::Equal,
                        1,
                    );
                    proof {
                        assert(c.in_range(nv as nat));
                        lemma_step(
                            cs@,
                            c,
                            ni,
                            es,
                            w,
                            next,
                            |a: Seq<bool>| total_at(ni, mi, a, i as int, u as int, v as int),
                        );
                    }
                    cs.push(c);
                } else {
                    proof {
                        lemma_skip(cs@, ni, es, w, next);
                    }
                }
                proof {
                    w = next;
                }
                v += 1;
            }
            proof {
                let next = Written { total: (i as int, u + 1, 0int), ..w };
                lemma_skip(cs@, ni, es, w, next);
                w = next;
            }
            u += 1;
        }
        proof {
            let next = Written { total: (i + 1, 0int, 0int), ..w };
            lemma_skip(cs@, ni, es, w, next);
            w = next;
        }
        i += 1;
    }
    let program = BinaryProgram { num_vars: nv, objective, constraints: cs };
    proof {
        assert(program.objective@ =~= Seq::new(es.len(), |k: int| k as usize));
        assert forall|a: Seq<bool>| a.len() == program.num_vars implies (#[trigger] all_hold(program.constraints@, a)
            <==> schnyder_holds(ni, es, a)) by {
            assert(all_hold(program.constraints@, a) <==> written_holds(ni, es, a, w));
        }
    }
    Some((program, edges))
}

} // verus!
