//! The program for a largest planar subgraph that describes the faces of an
//! embedding by the walks around them.

use crate::graphs::{arc_count, edge_set, lemma_arc_bound, list_sets, Graph};
use crate::ilp::{
    all_hold, all_in_range, chosen, chosen_from, constraint2, constraint3, first_variables, lemma_all_hold_push,
    lemma_all_in_range_push, lemma_value_concat, lemma_value_push, on, run_terms, term_value, value,
    BinaryProgram, Constraint, Relation,
};
use crate::lr_coloring::{cell, edge_index, edge_places, lemma_cell, lemma_edge_index, places, proper_edges};
use crate::schnyder::{before2, before4, euler_bound};
use vstd::prelude::*;

verus! {

/// The edge of an arc: its ends with the smaller one first.
pub fn edge(arc: (usize, usize)) -> (r: (usize, usize))
    ensures
        r == (if arc.0 < arc.1 {
            arc
        } else {
            (arc.1, arc.0)
        }),
{
    if arc.0 < arc.1 {
        arc
    } else {
        (arc.1, arc.0)
    }
}

/// Whether the mask has the bit `j`.
pub open spec fn has_bit(mask: usize, j: usize) -> bool {
    mask & (1usize << j) != 0
}

/// Those of the first `upto` elements whose bit in the mask is as wanted.
pub open spec fn picked(elements: Seq<usize>, mask: usize, wanted: bool, upto: int) -> Seq<usize>
    decreases upto,
{
    if upto <= 0 {
        Seq::empty()
    } else {
        let rest = picked(elements, mask, wanted, upto - 1);
        if has_bit(mask, (upto - 1) as usize) == wanted {
            rest.push(elements[upto - 1])
        } else {
            rest
        }
    }
}

/// The number of ways to split `n` elements into two parts that are both
/// allowed to be taken: all masks from 1 up to, but without, the full one.
pub open spec fn splits(n: usize) -> int {
    if (1usize << n) >= 2 {
        (1usize << n) - 2
    } else {
        0
    }
}

/// All ways to split the elements in two, but for the one that puts all into
/// the first part and the one that puts all into the second: the split
/// `q` puts the elements whose bit of `q + 1` is clear into the first part.
pub fn double_power_set(elements: &[usize]) -> (result: Vec<(Vec<usize>, Vec<usize>)>)
    requires
        elements@.len() < usize::BITS,
    ensures
        result@.len() == splits(elements@.len() as usize),
        forall|q: int|
            0 <= q < result@.len() ==> (#[trigger] result@[q]).0@ == picked(
                elements@,
                (q + 1) as usize,
                false,
                elements@.len() as int,
            ) && result@[q].1@ == picked(elements@, (q + 1) as usize, true, elements@.len() as int),
{
    let mut result: Vec<(Vec<usize>, Vec<usize>)> = Vec::new();
    let n = elements.len();
    let full: usize = 1usize << n;
    proof {
        assert(full >= 1) by (bit_vector)
            requires
                full == 1usize << n,
                n < usize::BITS,
        ;
    }
    let num_of_partitions = full - 1;
    let mut i: usize = 1;
    while i < num_of_partitions
        invariant
            1 <= i,
            i <= num_of_partitions || (num_of_partitions == 0 && i == 1),
            n == elements@.len(),
            n < usize::BITS,
            num_of_partitions == (1usize << n) - 1,
            result@.len() == i - 1,
            forall|q: int|
                0 <= q < result@.len() ==> (#[trigger] result@[q]).0@ == picked(
                    elements@,
                    (q + 1) as usize,
                    false,
                    n as int,
                ) && result@[q].1@ == picked(elements@, (q + 1) as usize, true, n as int),
        decreases num_of_partitions - i,
    {
        let mut subset0: Vec<usize> = Vec::new();
        let mut subset1: Vec<usize> = Vec::new();
        let mut j: usize = 0;
        while j < n
            invariant
                j <= n,
                n == elements@.len(),
                n < usize::BITS,
                subset0@ == picked(elements@, i, false, j as int),
                subset1@ == picked(elements@, i, true, j as int),
            decreases n - j,
        {
            if i & (1usize << j) == 0 {
                subset0.push(elements[j]);
            } else {
                subset1.push(elements[j]);
            }
            j += 1;
        }
        result.push((subset0, subset1));
        i += 1;
    }
    result
}

/// The neighbour lists as sequences.
pub open spec fn rows_of(lists: Seq<Vec<usize>>) -> Seq<Seq<usize>> {
    Seq::new(lists.len(), |v: int| lists[v]@)
}

/// The rows list, for each of `n` vertices, its neighbours, each once; no
/// vertex is its own neighbour, and every vertex is listed by its
/// neighbours.
pub open spec fn proper_rows(rows: Seq<Seq<usize>>) -> bool {
    forall|v: int|
        0 <= v < rows.len() ==> (#[trigger] rows[v]).no_duplicates() && forall|a: int|
            0 <= a < rows[v].len() ==> (#[trigger] rows[v][a]) < rows.len() && rows[v][a] != v && rows[rows[v][a] as int].contains(
                v as usize,
            )
}

/// The number of arcs that leave the vertices before `v`: the number of the
/// first arc that leaves `v`.
pub open spec fn start(rows: Seq<Seq<usize>>, v: int) -> int
    decreases v,
{
    if v <= 0 {
        0
    } else {
        start(rows, v - 1) + rows[v - 1].len()
    }
}

/// The number of ordered pairs of different neighbours at the vertices
/// before `v`.
pub open spec fn pairs_before(rows: Seq<Seq<usize>>, v: int) -> int
    decreases v,
{
    if v <= 0 {
        0
    } else {
        pairs_before(rows, v - 1) + rows[v - 1].len() * (rows[v - 1].len() - 1)
    }
}

/// The place of `x` in the row.
pub open spec fn position(row: Seq<usize>, x: usize) -> int {
    choose|b: int| 0 <= b < row.len() && row[b] == x
}

/// The number of faces that an embedding of a connected graph on `n`
/// vertices with `m` edges has.
pub open spec fn faces(n: int, m: int) -> int {
    2 + m - n
}

/// The variable that says that the face `i` exists.
pub open spec fn face_var(m: int, i: int) -> int {
    m + i
}

/// The variable that says that the walk around the face `i` runs along the
/// arc `d`.
pub open spec fn walk_var(m: int, f: int, i: int, d: int) -> int {
    m + f + i * (2 * m) + d
}

/// The number of the first variable of `turn_var`.
pub open spec fn turn_base(m: int, f: int) -> int {
    m + f + (2 * m) * f
}

/// The place `y` among the places other than `x`.
pub open spec fn skipping(x: int, y: int) -> int {
    if y < x {
        y
    } else {
        y - 1
    }
}

/// The variable for the places `x` and `y` at a vertex with `deg`
/// neighbours whose variables begin at `base + off`.
pub open spec fn turn_at(base: int, off: int, deg: int, x: int, y: int) -> int {
    base + off + x * (deg - 1) + skipping(x, y)
}

/// The variable that says that, around `v`, its neighbour at the place `y`
/// follows the one at the place `x`.
pub open spec fn turn_var(rows: Seq<Seq<usize>>, m: int, f: int, v: int, x: int, y: int) -> int {
    turn_at(turn_base(m, f), pairs_before(rows, v), rows[v].len() as int, x, y)
}

/// The number of variables: one for each edge, one for each face, those of
/// `walk_var` and those of `turn_var`.
pub open spec fn fw_vars(rows: Seq<Seq<usize>>, m: int) -> int {
    turn_base(m, faces(rows.len() as int, m)) + pairs_before(rows, rows.len() as int)
}

/// The number of the arc from `v` to its neighbour at the place `a`.
pub open spec fn out_arc(rows: Seq<Seq<usize>>, v: int, a: int) -> int {
    start(rows, v) + a
}

/// The number of the arc to `v` from its neighbour at the place `a`.
pub open spec fn in_arc(rows: Seq<Seq<usize>>, v: int, a: int) -> int {
    start(rows, rows[v][a] as int) + position(rows[rows[v][a] as int], v as usize)
}

/// The place of a neighbour in its row is the one where it stands.
pub proof fn lemma_position(row: Seq<usize>, b: int)
    requires
        row.no_duplicates(),
        0 <= b < row.len(),
    ensures
        position(row, row[b]) == b,
{
    let p = position(row, row[b]);
    assert(0 <= p < row.len() && row[p] == row[b]);
}

/// The numbers of arcs and of pairs are not negative.
pub proof fn lemma_start_positive(rows: Seq<Seq<usize>>, v: int)
    requires
        0 <= v <= rows.len(),
    ensures
        0 <= start(rows, v),
        0 <= pairs_before(rows, v),
    decreases v,
{
    if v > 0 {
        lemma_start_positive(rows, v - 1);
        let k = rows[v - 1].len();
        assert(0 <= k * (k - 1)) by (nonlinear_arith)
            requires
                0 <= k,
        ;
    }
}

/// The numbers of arcs and of pairs grow with the vertex.
pub proof fn lemma_start_grows(rows: Seq<Seq<usize>>, v: int, w: int)
    requires
        0 <= v <= w <= rows.len(),
    ensures
        0 <= start(rows, v) <= start(rows, w),
        0 <= pairs_before(rows, v) <= pairs_before(rows, w),
        v < w ==> start(rows, v) + rows[v].len() <= start(rows, w),
        v < w ==> pairs_before(rows, v) + rows[v].len() * (rows[v].len() - 1) <= pairs_before(rows, w),
    decreases w - v,
{
    lemma_start_positive(rows, v);
    if v < w {
        lemma_start_grows(rows, v + 1, w);
        let k = rows[v].len();
        assert(0 <= k * (k - 1)) by (nonlinear_arith)
            requires
                0 <= k,
        ;
        assert(start(rows, v + 1) == start(rows, v) + k);
        assert(pairs_before(rows, v + 1) == pairs_before(rows, v) + k * (k - 1));
    }
}

/// The rows of a graph hold as many arcs as its adjacency sets.
pub proof fn lemma_start_counts(adj: Seq<Set<usize>>, rows: Seq<Seq<usize>>, v: int)
    requires
        rows.len() == adj.len(),
        0 <= v <= adj.len(),
        forall|u: int| 0 <= u < rows.len() ==> (#[trigger] rows[u]).no_duplicates() && rows[u].to_set() == adj[u],
    ensures
        start(rows, v) == arc_count(adj.take(v)),
    decreases v,
{
    if v > 0 {
        lemma_start_counts(adj, rows, v - 1);
        rows[v - 1].unique_seq_to_set();
        assert(adj.take(v).drop_last() =~= adj.take(v - 1));
    } else {
        assert(adj.take(0) =~= Seq::<Set<usize>>::empty());
    }
}

/// The numbers of the first arcs that leave the vertices, and of the pairs
/// of neighbours before them; `None` if the number of pairs does not fit in
/// a machine word.
pub fn prefix_counts(lists: &Vec<Vec<usize>>) -> (r: Option<(Vec<usize>, Vec<usize>)>)
    requires
        start(rows_of(lists@), lists@.len() as int) <= usize::MAX,
    ensures
        r is Some == (pairs_before(rows_of(lists@), lists@.len() as int) <= usize::MAX),
        r matches Some((starts, pairs)) ==> {
            &&& starts@.len() == lists@.len() + 1
            &&& pairs@.len() == lists@.len() + 1
            &&& forall|v: int| 0 <= v <= lists@.len() ==> #[trigger] starts@[v] == start(rows_of(lists@), v)
            &&& forall|v: int| 0 <= v <= lists@.len() ==> #[trigger] pairs@[v] == pairs_before(rows_of(lists@), v)
        },
{
    let n = lists.len();
    let ghost rows = rows_of(lists@);
    let mut starts: Vec<usize> = Vec::new();
    let mut pairs: Vec<usize> = Vec::new();
    starts.push(0);
    pairs.push(0);
    let mut v: usize = 0;
    while v < n
        invariant
            v <= n,
            n == lists@.len(),
            rows == rows_of(lists@),
            start(rows, n as int) <= usize::MAX,
            starts@.len() == v + 1,
            pairs@.len() == v + 1,
            forall|u: int| 0 <= u <= v ==> #[trigger] starts@[u] == start(rows, u),
            forall|u: int| 0 <= u <= v ==> #[trigger] pairs@[u] == pairs_before(rows, u),
        decreases n - v,
    {
        let k = lists[v].len();
        proof {
            assert(rows[v as int] == lists@[v as int]@);
            lemma_start_grows(rows, v as int, n as int);
            lemma_start_grows(rows, v + 1, n as int);
            assert(pairs_before(rows, v + 1) == pairs_before(rows, v as int) + k * (k - 1));
            assert(start(rows, v + 1) == start(rows, v as int) + k);
            assert(k == 0 ==> k * (k - 1) == 0) by (nonlinear_arith);
        }
        let more = if k == 0 {
            0
        } else {
            proof {
                assert(0 <= k * (k - 1)) by (nonlinear_arith)
                    requires
                        k >= 1,
                ;
            }
            match k.checked_mul(k - 1) {
                Some(x) => x,
                None => {
                    return None;
                },
            }
        };
        let next = match pairs[v].checked_add(more) {
            Some(x) => x,
            None => {
                return None;
            },
        };
        let begin = starts[v] + k;
        starts.push(begin);
        pairs.push(next);
        v += 1;
    }
    assert(pairs@[n as int] == pairs_before(rows, n as int));
    Some((starts, pairs))
}

/// The table gives, for every vertex and each of its neighbours, the place
/// of the vertex in the row of the neighbour.
pub open spec fn back_places(rows: Seq<Seq<usize>>, table: Seq<usize>) -> bool {
    &&& table.len() == rows.len() * rows.len()
    &&& forall|u: int, b: int|
        0 <= u < rows.len() && 0 <= b < rows[u].len() ==> table[cell(rows.len() as int, u, (#[trigger] rows[u][b]) as int)]
            == b
}

/// Builds the table of the places of the vertices in the rows.
pub fn row_places(lists: &Vec<Vec<usize>>) -> (table: Vec<usize>)
    requires
        lists@.len() * lists@.len() <= usize::MAX,
        proper_rows(rows_of(lists@)),
    ensures
        back_places(rows_of(lists@), table@),
{
    let n = lists.len();
    let ghost rows = rows_of(lists@);
    let mut table: Vec<usize> = vec![0; n * n];
    let mut u: usize = 0;
    while u < n
        invariant
            u <= n,
            n == lists@.len(),
            n * n <= usize::MAX,
            rows == rows_of(lists@),
            proper_rows(rows),
            table@.len() == n * n,
            forall|x: int, b: int|
                0 <= x < u && 0 <= b < rows[x].len() ==> table@[cell(n as int, x, (#[trigger] rows[x][b]) as int)] == b,
        decreases n - u,
    {
        let row = &lists[u];
        let mut b: usize = 0;
        while b < row.len()
            invariant
                b <= row@.len(),
                u < n,
                n == lists@.len(),
                n * n <= usize::MAX,
                rows == rows_of(lists@),
                row@ == rows[u as int],
                proper_rows(rows),
                table@.len() == n * n,
                forall|x: int, c: int|
                    0 <= x < u && 0 <= c < rows[x].len() ==> table@[cell(n as int, x, (#[trigger] rows[x][c]) as int)]
                        == c,
                forall|c: int| 0 <= c < b ==> table@[cell(n as int, u as int, (#[trigger] row@[c]) as int)] == c,
            decreases row@.len() - b,
        {
            let v = row[b];
            let ghost before = table@;
            proof {
                assert(rows[u as int][b as int] < n);
                lemma_cell(n as int, u as int, v as int, u as int, v as int);
                assert(0 <= u * n) by (nonlinear_arith);
            }
            table[u * n + v] = b;
            proof {
                assert forall|x: int, c: int| 0 <= x < u && 0 <= c < rows[x].len() implies table@[cell(
                    n as int,
                    x,
                    (#[trigger] rows[x][c]) as int,
                )] == c by {
                    assert(rows[x][c] < n);
                    lemma_cell(n as int, x, rows[x][c] as int, u as int, v as int);
                }
                assert forall|c: int| 0 <= c < b + 1 implies table@[cell(n as int, u as int, (#[trigger] row@[c]) as int)]
                    == c by {
                    if c < b {
                        assert(rows[u as int][c] < n);
                        lemma_cell(n as int, u as int, row@[c] as int, u as int, v as int);
                        assert(row@[c] != row@[b as int]);
                    }
                }
            }
            b += 1;
        }
        u += 1;
    }
    table
}

/// The numbers `0..k` in their order.
pub open spec fn upto(k: int) -> Seq<usize> {
    Seq::new(k as nat, |j: int| j as usize)
}

/// How often the walk around the face `i` runs along the listed arcs.
pub open spec fn arcs_sum(m: int, f: int, a: Seq<bool>, i: int, arcs: Seq<usize>) -> int
    decreases arcs.len(),
{
    if arcs.len() == 0 {
        0
    } else {
        arcs_sum(m, f, a, i, arcs.drop_last()) + on(a, walk_var(m, f, i, arcs.last() as int))
    }
}

/// How often the walks around the listed faces run along the listed arcs.
pub open spec fn walk_sum(m: int, f: int, a: Seq<bool>, faces: Seq<usize>, arcs: Seq<usize>) -> int
    decreases faces.len(),
{
    if faces.len() == 0 {
        0
    } else {
        walk_sum(m, f, a, faces.drop_last(), arcs) + arcs_sum(m, f, a, faces.last() as int, arcs)
    }
}

/// How many of the listed places follow the place `x`.
pub open spec fn turn_row_sum(base: int, off: int, deg: int, a: Seq<bool>, x: int, ws: Seq<usize>) -> int
    decreases ws.len(),
{
    if ws.len() == 0 {
        0
    } else {
        turn_row_sum(base, off, deg, a, x, ws.drop_last()) + if ws.last() != x {
            on(a, turn_at(base, off, deg, x, ws.last() as int))
        } else {
            0
        }
    }
}

/// How many of the places `ws` follow places of `us`.
pub open spec fn turn_sum(base: int, off: int, deg: int, a: Seq<bool>, us: Seq<usize>, ws: Seq<usize>) -> int
    decreases us.len(),
{
    if us.len() == 0 {
        0
    } else {
        turn_sum(base, off, deg, a, us.drop_last(), ws) + turn_row_sum(base, off, deg, a, us.last() as int, ws)
    }
}

/// The number of the variable `walk_var`.
pub fn walk_index(m: usize, f: usize, i: usize, d: usize) -> (r: usize)
    requires
        i < f,
        d < 2 * m,
        turn_base(m as int, f as int) <= usize::MAX,
    ensures
        r == walk_var(m as int, f as int, i as int, d as int),
        m + f <= r < turn_base(m as int, f as int),
{
    proof {
        assert(0 <= i * (2 * m) && i * (2 * m) + 2 * m <= (2 * m) * f) by (nonlinear_arith)
            requires
                i < f,
        ;
    }
    m + f + i * (2 * m) + d
}

/// The number of the variable `turn_at`.
pub fn turn_index(base: usize, off: usize, deg: usize, x: usize, y: usize) -> (r: usize)
    requires
        x < deg,
        y < deg,
        x != y,
        base + off + deg * (deg - 1) <= usize::MAX,
    ensures
        r == turn_at(base as int, off as int, deg as int, x as int, y as int),
        base + off <= r < base + off + deg * (deg - 1),
{
    proof {
        assert(0 <= x * (deg - 1) && x * (deg - 1) + (deg - 1) <= deg * (deg - 1)) by (nonlinear_arith)
            requires
                x < deg,
        ;
    }
    if y < x {
        base + off + x * (deg - 1) + y
    } else {
        base + off + x * (deg - 1) + (y - 1)
    }
}

/// The terms that count how often the walks around the listed faces run
/// along the listed arcs, or their negatives.
pub fn sum_c_over_faces_arcs(m: usize, f: usize, faces: &Vec<usize>, arcs: &Vec<usize>, negative: bool) -> (terms: Vec<
    (i64, usize),
>)
    requires
        turn_base(m as int, f as int) <= usize::MAX,
        forall|k: int| 0 <= k < faces@.len() ==> (#[trigger] faces@[k]) < f,
        forall|k: int| 0 <= k < arcs@.len() ==> (#[trigger] arcs@[k]) < 2 * m,
    ensures
        forall|k: int| 0 <= k < terms@.len() ==> (#[trigger] terms@[k]).1 < turn_base(m as int, f as int),
        forall|a: Seq<bool>| #[trigger]
            value(terms@, a) == (if negative {
                -walk_sum(m as int, f as int, a, faces@, arcs@)
            } else {
                walk_sum(m as int, f as int, a, faces@, arcs@)
            }),
{
    let coefficient: i64 = if negative {
        -1
    } else {
        1
    };
    let mut terms: Vec<(i64, usize)> = Vec::new();
    let mut k: usize = 0;
    assert(faces@.take(0) =~= Seq::<usize>::empty());
    while k < faces.len()
        invariant
            k <= faces@.len(),
            turn_base(m as int, f as int) <= usize::MAX,
            forall|k: int| 0 <= k < faces@.len() ==> (#[trigger] faces@[k]) < f,
            forall|k: int| 0 <= k < arcs@.len() ==> (#[trigger] arcs@[k]) < 2 * m,
            coefficient == (if negative {
                -1i64
            } else {
                1i64
            }),
            forall|k: int| 0 <= k < terms@.len() ==> (#[trigger] terms@[k]).1 < turn_base(m as int, f as int),
            forall|a: Seq<bool>| #[trigger]
                value(terms@, a) == (if negative {
                    -walk_sum(m as int, f as int, a, faces@.take(k as int), arcs@)
                } else {
                    walk_sum(m as int, f as int, a, faces@.take(k as int), arcs@)
                }),
        decreases faces@.len() - k,
    {
        let i = faces[k];
        let ghost before = terms@;
        let mut j: usize = 0;
        assert(arcs@.take(0) =~= Seq::<usize>::empty());
        while j < arcs.len()
            invariant
                j <= arcs@.len(),
                k < faces@.len(),
                i == faces@[k as int],
                i < f,
                turn_base(m as int, f as int) <= usize::MAX,
                forall|k: int| 0 <= k < arcs@.len() ==> (#[trigger] arcs@[k]) < 2 * m,
                coefficient == (if negative {
                    -1i64
                } else {
                    1i64
                }),
                forall|k: int| 0 <= k < terms@.len() ==> (#[trigger] terms@[k]).1 < turn_base(m as int, f as int),
                forall|a: Seq<bool>| #[trigger]
                    value(terms@, a) == value(before, a) + (if negative {
                        -arcs_sum(m as int, f as int, a, i as int, arcs@.take(j as int))
                    } else {
                        arcs_sum(m as int, f as int, a, i as int, arcs@.take(j as int))
                    }),
            decreases arcs@.len() - j,
        {
            let term = (coefficient, walk_index(m, f, i, arcs[j]));
            proof {
                assert(arcs@.take(j + 1).drop_last() =~= arcs@.take(j as int));
                assert forall|a: Seq<bool>| #[trigger]
                    value(terms@.push(term), a) == value(before, a) + (if negative {
                        -arcs_sum(m as int, f as int, a, i as int, arcs@.take(j + 1))
                    } else {
                        arcs_sum(m as int, f as int, a, i as int, arcs@.take(j + 1))
                    }) by {
                    lemma_value_push(terms@, term, a);
                }
            }
            terms.push(term);
            j += 1;
        }
        proof {
            assert(arcs@.take(arcs@.len() as int) =~= arcs@);
            assert(faces@.take(k + 1).drop_last() =~= faces@.take(k as int));
        }
        k += 1;
    }
    assert(faces@.take(faces@.len() as int) =~= faces@);
    terms
}

/// The terms that count how many of the places `ws` follow places of `us`
/// around a vertex.
pub fn sum_p_over_vertices(base: usize, off: usize, deg: usize, us: &Vec<usize>, ws: &Vec<usize>) -> (terms: Vec<
    (i64, usize),
>)
    requires
        base + off + deg * (deg - 1) <= usize::MAX,
        forall|k: int| 0 <= k < us@.len() ==> (#[trigger] us@[k]) < deg,
        forall|k: int| 0 <= k < ws@.len() ==> (#[trigger] ws@[k]) < deg,
    ensures
        forall|k: int| 0 <= k < terms@.len() ==> (#[trigger] terms@[k]).1 < base + off + deg * (deg - 1),
        forall|a: Seq<bool>| #[trigger]
            value(terms@, a) == turn_sum(base as int, off as int, deg as int, a, us@, ws@),
{
    let mut terms: Vec<(i64, usize)> = Vec::new();
    let mut k: usize = 0;
    assert(us@.take(0) =~= Seq::<usize>::empty());
    while k < us.len()
        invariant
            k <= us@.len(),
            base + off + deg * (deg - 1) <= usize::MAX,
            forall|k: int| 0 <= k < us@.len() ==> (#[trigger] us@[k]) < deg,
            forall|k: int| 0 <= k < ws@.len() ==> (#[trigger] ws@[k]) < deg,
            forall|k: int| 0 <= k < terms@.len() ==> (#[trigger] terms@[k]).1 < base + off + deg * (deg - 1),
            forall|a: Seq<bool>| #[trigger]
                value(terms@, a) == turn_sum(base as int, off as int, deg as int, a, us@.take(k as int), ws@),
        decreases us@.len() - k,
    {
        let x = us[k];
        let ghost before = terms@;
        let mut j: usize = 0;
        assert(ws@.take(0) =~= Seq::<usize>::empty());
        while j < ws.len()
            invariant
                j <= ws@.len(),
                k < us@.len(),
                x == us@[k as int],
                x < deg,
                base + off + deg * (deg - 1) <= usize::MAX,
                forall|k: int| 0 <= k < ws@.len() ==> (#[trigger] ws@[k]) < deg,
                forall|k: int| 0 <= k < terms@.len() ==> (#[trigger] terms@[k]).1 < base + off + deg * (deg - 1),
                forall|a: Seq<bool>| #[trigger]
                    value(terms@, a) == value(before, a) + turn_row_sum(
                        base as int,
                        off as int,
                        deg as int,
                        a,
                        x as int,
                        ws@.take(j as int),
                    ),
            decreases ws@.len() - j,
        {
            let y = ws[j];
            proof {
                assert(ws@.take(j + 1).drop_last() =~= ws@.take(j as int));
            }
            if x != y {
                let term = (1i64, turn_index(base, off, deg, x, y));
                proof {
                    assert forall|a: Seq<bool>| #[trigger]
                        value(terms@.push(term), a) == value(before, a) + turn_row_sum(
                            base as int,
                            off as int,
                            deg as int,
                            a,
                            x as int,
                            ws@.take(j + 1),
                        ) by {
                        lemma_value_push(terms@, term, a);
                    }
                }
                terms.push(term);
            }
            j += 1;
        }
        proof {
            assert(ws@.take(ws@.len() as int) =~= ws@);
            assert(us@.take(k + 1).drop_last() =~= us@.take(k as int));
        }
        k += 1;
    }
    assert(us@.take(us@.len() as int) =~= us@);
    terms
}

/// The numbers `0..k` as a vector.
pub fn count_up(k: usize) -> (r: Vec<usize>)
    ensures
        r@ == upto(k as int),
{
    let mut r: Vec<usize> = Vec::with_capacity(k);
    let mut j: usize = 0;
    while j < k
        invariant
            j <= k,
            r@.len() == j,
            forall|i: int| 0 <= i < j ==> #[trigger] r@[i] == i,
        decreases k - j,
    {
        r.push(j);
        j += 1;
    }
    assert(r@ =~= upto(k as int));
    r
}

/// The number of ordered pairs of different neighbours at all vertices.
pub open spec fn pair_count(adj: Seq<Set<usize>>) -> int
    decreases adj.len(),
{
    if adj.len() == 0 {
        0
    } else {
        pair_count(adj.drop_last()) + adj.last().len() * (adj.last().len() - 1)
    }
}

/// The number of variables of the program for a graph with `m` edges.
pub open spec fn fw_size(adj: Seq<Set<usize>>, m: int) -> int {
    turn_base(m, faces(adj.len() as int, m)) + pair_count(adj)
}

/// The rows of a graph hold as many pairs as its adjacency sets.
pub proof fn lemma_pairs_count(adj: Seq<Set<usize>>, rows: Seq<Seq<usize>>, v: int)
    requires
        rows.len() == adj.len(),
        0 <= v <= adj.len(),
        forall|u: int| 0 <= u < rows.len() ==> (#[trigger] rows[u]).no_duplicates() && rows[u].to_set() == adj[u],
    ensures
        pairs_before(rows, v) == pair_count(adj.take(v)),
    decreases v,
{
    if v > 0 {
        lemma_pairs_count(adj, rows, v - 1);
        rows[v - 1].unique_seq_to_set();
        assert(adj.take(v).drop_last() =~= adj.take(v - 1));
    } else {
        assert(adj.take(0) =~= Seq::<Set<usize>>::empty());
    }
}

/// What the program is laid out with: the neighbours of every vertex in a
/// fixed order, the edges, the numbers of the first arc and the first pair
/// at every vertex, and tables for looking up places.
pub struct WalkTables {
    pub rows: Vec<Vec<usize>>,
    pub edges: Vec<(usize, usize)>,
    pub starts: Vec<usize>,
    pub pairs: Vec<usize>,
    pub back: Vec<usize>,
    pub places: Vec<usize>,
    pub faces: usize,
    pub base: usize,
    pub num_vars: usize,
}

impl WalkTables {
    /// The rows as sequences.
    pub open spec fn rows_seq(&self) -> Seq<Seq<usize>> {
        rows_of(self.rows@)
    }

    /// The tables agree with the rows and the edges.
    pub open spec fn wf(&self) -> bool {
        let rows = rows_of(self.rows@);
        let n = rows.len() as int;
        let m = self.edges@.len() as int;
        &&& n * n <= usize::MAX
        &&& proper_rows(rows)
        &&& proper_edges(n, self.edges@)
        &&& forall|v: int, b: int|
            0 <= v < n && 0 <= b < rows[v].len() ==> self.edges@.contains((v as usize, #[trigger] rows[v][b]))
                || self.edges@.contains((rows[v][b], v as usize))
        &&& forall|v: int| 0 <= v < n ==> (#[trigger] rows[v]).len() < usize::BITS
        &&& start(rows, n) == 2 * m
        &&& self.faces == faces(n, m)
        &&& self.faces >= 1
        &&& self.base == turn_base(m, self.faces as int)
        &&& self.num_vars == fw_vars(rows, m)
        &&& self.starts@.len() == n + 1
        &&& self.pairs@.len() == n + 1
        &&& forall|v: int| 0 <= v <= n ==> #[trigger] self.starts@[v] == start(rows, v)
        &&& forall|v: int| 0 <= v <= n ==> #[trigger] self.pairs@[v] == pairs_before(rows, v)
        &&& back_places(rows, self.back@)
        &&& places(n, self.edges@, self.places@)
    }

    /// Lays the program out for the graph; `None` if the number of its
    /// variables does not fit in a machine word.
    pub fn new(g: &Graph) -> (r: Option<WalkTables>)
        requires
            g.wf(),
            g@.len() <= g.spec_num_of_edges() + 1,
            forall|v: int| 0 <= v < g@.len() ==> (#[trigger] g@[v]).len() < usize::BITS,
        ensures
            r is Some == (fw_size(g@, g.spec_num_of_edges() as int) <= usize::MAX),
            r matches Some(t) ==> {
                &&& t.wf()
                &&& list_sets(t.rows@) == g@
                &&& t.edges@.to_set() == edge_set(g@)
                &&& t.edges@.len() == g.spec_num_of_edges()
                &&& t.num_vars == fw_size(g@, g.spec_num_of_edges() as int)
            },
    {
        let n = g.num_of_vertices();
        let lists = g.neighbor_lists();
        let edges = g.all_edges();
        let m = edges.len();
        let ghost rows = rows_of(lists@);
        proof {
            assert forall|u: int| 0 <= u < rows.len() implies (#[trigger] rows[u]).no_duplicates() && rows[u].to_set()
                == g@[u] by {
                assert(rows[u] == lists@[u]@);
                assert(list_sets(lists@)[u] == lists@[u]@.to_set());
            }
            assert(proper_rows(rows)) by {
                assert forall|v: int| 0 <= v < rows.len() implies (#[trigger] rows[v]).no_duplicates() && forall|a: int|
                    0 <= a < rows[v].len() ==> (#[trigger] rows[v][a]) < rows.len() && rows[v][a] != v && rows[rows[v][a] as int].contains(
                        v as usize,
                    ) by {
                    assert forall|a: int| 0 <= a < rows[v].len() implies (#[trigger] rows[v][a]) < rows.len() && rows[v][a]
                        != v && rows[rows[v][a] as int].contains(v as usize) by {
                        let u = rows[v][a];
                        assert(rows[v].to_set().contains(u));
                        assert(g@[v].contains(u));
                        assert(g@[u as int].contains(v as usize));
                        assert(rows[u as int].to_set().contains(v as usize));
                    }
                }
            }
            assert forall|k: int| 0 <= k < m implies (#[trigger] edges@[k]).0 < edges@[k].1 < n by {
                assert(edges@.to_set().contains(edges@[k]));
            }
            assert forall|v: int, b: int| 0 <= v < n && 0 <= b < rows[v].len() implies edges@.contains(
                (v as usize, #[trigger] rows[v][b]),
            ) || edges@.contains((rows[v][b], v as usize)) by {
                let u = rows[v][b];
                assert(rows[v].to_set().contains(u));
                assert(g@[v].contains(u));
                assert(g@[u as int].contains(v as usize));
                if v < u {
                    assert(edge_set(g@).contains((v as usize, u)));
                    assert(edges@.to_set().contains((v as usize, u)));
                } else {
                    assert(edge_set(g@).contains((u, v as usize)));
                    assert(edges@.to_set().contains((u, v as usize)));
                }
            }
            assert forall|v: int| 0 <= v < n implies (#[trigger] rows[v]).len() < usize::BITS by {
                rows[v].unique_seq_to_set();
            }
            lemma_start_counts(g@, rows, n as int);
            lemma_pairs_count(g@, rows, n as int);
            assert(g@.take(n as int) =~= g@);
            assert(n <= n * n) by (nonlinear_arith);
            lemma_arc_bound(g@);
            assert(n * (n - 1) <= n * n) by (nonlinear_arith);
            lemma_start_positive(rows, n as int);
        }
        let (starts, pairs) = match prefix_counts(&lists) {
            Some(tables) => tables,
            None => {
                proof {
                    assert(0 <= (2 * m) * (2 + m - n)) by (nonlinear_arith)
                        requires
                            n <= m + 1,
                    ;
                }
                return None;
            },
        };
        let f = 2 + m - n;
        proof {
            assert(0 <= (2 * m) * f) by (nonlinear_arith);
        }
        let walks = match (2 * m).checked_mul(f) {
            Some(x) => x,
            None => {
                return None;
            },
        };
        let begin = match (m + f).checked_add(walks) {
            Some(x) => x,
            None => {
                return None;
            },
        };
        let num_vars = match begin.checked_add(pairs[n]) {
            Some(x) => x,
            None => {
                return None;
            },
        };
        let back = row_places(&lists);
        let places = edge_places(n, &edges);
        Some(WalkTables { rows: lists, edges, starts, pairs, back, places, faces: f, base: begin, num_vars })
    }
}

impl WalkTables {
    /// The number of vertices.
    pub fn num_of_vertices(&self) -> (n: usize)
        ensures
            n == self.rows@.len(),
    {
        self.rows.len()
    }

    /// The number of neighbours of `v`.
    pub fn degree(&self, v: usize) -> (d: usize)
        requires
            v < self.rows@.len(),
        ensures
            d == self.rows_seq()[v as int].len(),
    {
        self.rows[v].len()
    }

    /// The variable of the edge between `v` and its neighbour at the place
    /// `b`.
    pub fn edge_var(&self, v: usize, b: usize) -> (r: usize)
        requires
            self.wf(),
            v < self.rows@.len(),
            b < self.rows_seq()[v as int].len(),
        ensures
            r == edge_index(self.edges@, v, self.rows_seq()[v as int][b as int]),
            r < self.edges@.len(),
    {
        let n = self.rows.len();
        let u = self.rows[v][b];
        proof {
            let rows = self.rows_seq();
            assert(rows[v as int][b as int] == u);
            assert(u < n);
            lemma_cell(n as int, v as int, u as int, v as int, u as int);
            assert(0 <= v * n) by (nonlinear_arith);
            let e = if self.edges@.contains((v, u)) {
                (v, u)
            } else {
                (u, v)
            };
            let k = choose|k: int| 0 <= k < self.edges@.len() && self.edges@[k] == e;
            lemma_edge_index(n as int, self.edges@, k);
        }
        self.places[v * n + u]
    }

    /// The number of the arc from `v` to its neighbour at the place `b`.
    pub fn out_arc_no(&self, v: usize, b: usize) -> (r: usize)
        requires
            self.wf(),
            v < self.rows@.len(),
            b < self.rows_seq()[v as int].len(),
        ensures
            r == out_arc(self.rows_seq(), v as int, b as int),
            r < 2 * self.edges@.len(),
    {
        proof {
            let n = self.rows@.len() as int;
            lemma_start_grows(self.rows_seq(), v as int, n);
            assert(self.starts@[n] == start(self.rows_seq(), n));
            assert(self.starts@[v as int] == start(self.rows_seq(), v as int));
        }
        self.starts[v] + b
    }

    /// The number of the arc to `v` from its neighbour at the place `b`.
    pub fn in_arc_no(&self, v: usize, b: usize) -> (r: usize)
        requires
            self.wf(),
            v < self.rows@.len(),
            b < self.rows_seq()[v as int].len(),
        ensures
            r == in_arc(self.rows_seq(), v as int, b as int),
            r < 2 * self.edges@.len(),
    {
        let n = self.rows.len();
        let u = self.rows[v][b];
        proof {
            let rows = self.rows_seq();
            assert(rows[v as int][b as int] == u);
            assert(u < n);
            assert(rows[u as int].contains(v));
            let c = choose|c: int| 0 <= c < rows[u as int].len() && rows[u as int][c] == v;
            lemma_position(rows[u as int], c);
            assert(self.back@[cell(n as int, u as int, rows[u as int][c] as int)] == c);
            lemma_cell(n as int, u as int, v as int, u as int, v as int);
            assert(0 <= u * n) by (nonlinear_arith);
            lemma_start_grows(rows, u as int, n as int);
            assert(self.starts@[n as int] == start(rows, n as int));
            assert(self.starts@[u as int] == start(rows, u as int));
        }
        self.starts[u] + self.back[u * n + v]
    }

    /// The variable for the face `i` and the arc `d`.
    pub fn walk(&self, i: usize, d: usize) -> (r: usize)
        requires
            self.wf(),
            i < self.faces,
            d < 2 * self.edges@.len(),
        ensures
            r == walk_var(self.edges@.len() as int, self.faces as int, i as int, d as int),
            r < self.num_vars,
    {
        proof {
            lemma_start_positive(self.rows_seq(), self.rows@.len() as int);
        }
        walk_index(self.edges.len(), self.faces, i, d)
    }

    /// The variable for the neighbours of `v` at the places `x` and `y`.
    pub fn turn(&self, v: usize, x: usize, y: usize) -> (r: usize)
        requires
            self.wf(),
            v < self.rows@.len(),
            x < self.rows_seq()[v as int].len(),
            y < self.rows_seq()[v as int].len(),
            x != y,
        ensures
            r == turn_var(self.rows_seq(), self.edges@.len() as int, self.faces as int, v as int, x as int, y as int),
            r < self.num_vars,
    {
        proof {
            lemma_start_grows(self.rows_seq(), v as int, self.rows@.len() as int);
        }
        turn_index(self.base, self.pairs[v], self.rows[v].len(), x, y)
    }
}

/// Those of the places `0..deg` whose bit in the split `q` is as wanted: one
/// of the two parts of the split.
pub open spec fn part(deg: int, q: int, wanted: bool) -> Seq<usize> {
    picked(upto(deg), (q + 1) as usize, wanted, deg)
}

/// The picked elements are among those picked from.
pub proof fn lemma_picked(elements: Seq<usize>, mask: usize, wanted: bool, upto: int, k: int)
    requires
        0 <= upto <= elements.len(),
        0 <= k < picked(elements, mask, wanted, upto).len(),
    ensures
        exists|j: int| 0 <= j < upto && elements[j] == picked(elements, mask, wanted, upto)[k],
    decreases upto,
{
    let rest = picked(elements, mask, wanted, upto - 1);
    if k < rest.len() {
        lemma_picked(elements, mask, wanted, upto - 1, k);
        let j = choose|j: int| 0 <= j < upto - 1 && elements[j] == rest[k];
        assert(0 <= j < upto && elements[j] == picked(elements, mask, wanted, upto)[k]);
    } else {
        assert(elements[upto - 1] == picked(elements, mask, wanted, upto)[k]);
    }
}

/// There are two more faces than edges beyond the vertices: Euler's formula
/// for the chosen edges.
pub open spec fn faces_counted(n: int, m: int, a: Seq<bool>) -> bool {
    n + chosen_from(a, m, faces(n, m)) == 2 + chosen(a, m)
}

/// The face `i + 1` exists only if the face `i` does.
pub open spec fn faces_ordered(m: int, a: Seq<bool>, i: int) -> bool {
    on(a, face_var(m, i)) >= on(a, face_var(m, i + 1))
}

/// The walk around a face that exists has at least three arcs.
pub open spec fn face_long(m: int, f: int, a: Seq<bool>, i: int) -> bool {
    3 * on(a, face_var(m, i)) <= walk_sum(m, f, a, seq![i as usize], upto(2 * m))
}

/// Only the walk around a face that exists runs along an arc.
pub open spec fn walk_in_face(m: int, f: int, a: Seq<bool>, i: int, d: int) -> bool {
    on(a, walk_var(m, f, i, d)) <= on(a, face_var(m, i))
}

/// Exactly one walk runs along each arc of a chosen edge, none along the
/// arcs of the others.
pub open spec fn arc_once(rows: Seq<Seq<usize>>, edges: Seq<(usize, usize)>, a: Seq<bool>, v: int, b: int) -> bool {
    let m = edges.len() as int;
    let f = faces(rows.len() as int, m);
    walk_sum(m, f, a, upto(f), seq![out_arc(rows, v, b) as usize]) == on(
        a,
        edge_index(edges, v as usize, rows[v][b]),
    )
}

/// The arcs to `v`, in the order of its neighbours.
pub open spec fn in_arcs(rows: Seq<Seq<usize>>, v: int) -> Seq<usize> {
    Seq::new(rows[v].len(), |b: int| in_arc(rows, v, b) as usize)
}

/// The arcs from `v`, in the order of its neighbours.
pub open spec fn out_arcs(rows: Seq<Seq<usize>>, v: int) -> Seq<usize> {
    Seq::new(rows[v].len(), |b: int| out_arc(rows, v, b) as usize)
}

/// The walk around the face `i` leaves `v` as often as it comes to it.
pub open spec fn walk_passes(rows: Seq<Seq<usize>>, m: int, f: int, a: Seq<bool>, v: int, i: int) -> bool {
    walk_sum(m, f, a, seq![i as usize], in_arcs(rows, v)) == walk_sum(m, f, a, seq![i as usize], out_arcs(rows, v))
}

/// Where the neighbour at `y` follows the one at `x` around `v`, a walk that
/// comes from the one leaves to the other.
pub open spec fn walk_turns(
    rows: Seq<Seq<usize>>,
    m: int,
    f: int,
    a: Seq<bool>,
    v: int,
    x: int,
    y: int,
    i: int,
) -> bool {
    on(a, walk_var(m, f, i, out_arc(rows, v, y))) >= on(a, walk_var(m, f, i, in_arc(rows, v, x))) + on(
        a,
        turn_var(rows, m, f, v, x, y),
    ) - 1
}

/// Where the neighbour at `y` follows the one at `x` around `v`, a walk that
/// leaves to the one came from the other.
pub open spec fn walk_returns(
    rows: Seq<Seq<usize>>,
    m: int,
    f: int,
    a: Seq<bool>,
    v: int,
    x: int,
    y: int,
    i: int,
) -> bool {
    on(a, walk_var(m, f, i, in_arc(rows, v, x))) >= on(a, walk_var(m, f, i, out_arc(rows, v, y))) + on(
        a,
        turn_var(rows, m, f, v, x, y),
    ) - 1
}

/// The variable of the edge between `v` and its neighbour at the place `x`.
pub open spec fn edge_at(rows: Seq<Seq<usize>>, edges: Seq<(usize, usize)>, v: int, x: int) -> int {
    edge_index(edges, v as usize, rows[v][x])
}

/// Around `v` exactly one neighbour follows the one at `x` if their edge is
/// chosen, else none.
pub open spec fn one_follows(rows: Seq<Seq<usize>>, edges: Seq<(usize, usize)>, a: Seq<bool>, v: int, x: int) -> bool {
    let m = edges.len() as int;
    let f = faces(rows.len() as int, m);
    turn_sum(
        turn_base(m, f),
        pairs_before(rows, v),
        rows[v].len() as int,
        a,
        seq![x as usize],
        upto(rows[v].len() as int),
    ) == on(a, edge_at(rows, edges, v, x))
}

/// Around `v` the neighbour at `x` follows exactly one if their edge is
/// chosen, else none.
pub open spec fn follows_one(rows: Seq<Seq<usize>>, edges: Seq<(usize, usize)>, a: Seq<bool>, v: int, x: int) -> bool {
    let m = edges.len() as int;
    let f = faces(rows.len() as int, m);
    turn_sum(
        turn_base(m, f),
        pairs_before(rows, v),
        rows[v].len() as int,
        a,
        upto(rows[v].len() as int),
        seq![x as usize],
    ) == on(a, edge_at(rows, edges, v, x))
}

/// Where the split `q` of the neighbours of `v` has a chosen edge in each
/// part, at the places `x` and `y` of the parts, a neighbour of the second
/// part follows one of the first: the neighbours form one cycle.
pub open spec fn cut_crossed(
    rows: Seq<Seq<usize>>,
    edges: Seq<(usize, usize)>,
    a: Seq<bool>,
    v: int,
    q: int,
    x: int,
    y: int,
) -> bool {
    let m = edges.len() as int;
    let f = faces(rows.len() as int, m);
    let deg = rows[v].len() as int;
    turn_sum(turn_base(m, f), pairs_before(rows, v), deg, a, part(deg, q, false), part(deg, q, true)) >= on(
        a,
        edge_at(rows, edges, v, part(deg, q, false)[x] as int),
    ) + on(a, edge_at(rows, edges, v, part(deg, q, true)[y] as int)) - 1
}

/// The faces before `hi` are in order.
pub open spec fn orders(m: int, f: int, a: Seq<bool>, hi: int) -> bool {
    forall|i: int| 0 <= i < f - 1 && i < hi ==> #[trigger] faces_ordered(m, a, i)
}

/// The walks around the faces before `hi` are long.
pub open spec fn longs(m: int, f: int, a: Seq<bool>, hi: int) -> bool {
    forall|i: int| 0 <= i < f && i < hi ==> #[trigger] face_long(m, f, a, i)
}

/// The walks before the place `(hi, hd)` are walks around faces.
pub open spec fn insides(m: int, f: int, a: Seq<bool>, hi: int, hd: int) -> bool {
    forall|i: int, d: int| 0 <= i < f && 0 <= d < 2 * m && before2(i, d, hi, hd) ==> #[trigger] walk_in_face(m, f, a, i, d)
}

/// The arcs before the place `(hv, hb)` are walked along once.
pub open spec fn onces(rows: Seq<Seq<usize>>, edges: Seq<(usize, usize)>, a: Seq<bool>, hv: int, hb: int) -> bool {
    forall|v: int, b: int|
        0 <= v < rows.len() && 0 <= b < rows[v].len() && before2(v, b, hv, hb) ==> #[trigger] arc_once(
            rows,
            edges,
            a,
            v,
            b,
        )
}

/// The walks pass the vertices before the place `(hv, hi)`.
pub open spec fn passes(rows: Seq<Seq<usize>>, m: int, f: int, a: Seq<bool>, hv: int, hi: int) -> bool {
    forall|v: int, i: int|
        0 <= v < rows.len() && 0 <= i < f && before2(v, i, hv, hi) ==> #[trigger] walk_passes(rows, m, f, a, v, i)
}

/// The walks turn as the neighbours follow, before the place
/// `(hv, hx, hy, hi)`.
pub open spec fn turns(
    rows: Seq<Seq<usize>>,
    m: int,
    f: int,
    a: Seq<bool>,
    hv: int,
    hx: int,
    hy: int,
    hi: int,
) -> bool {
    forall|v: int, x: int, y: int, i: int|
        0 <= v < rows.len() && 0 <= x < rows[v].len() && 0 <= y < rows[v].len() && 0 <= i < f && before4(
            v,
            x,
            y,
            i,
            hv,
            hx,
            hy,
            hi,
        ) && x != y ==> #[trigger] walk_turns(rows, m, f, a, v, x, y, i)
}

/// The walks return as the neighbours follow, before the place
/// `(hv, hx, hy, hi)`.
pub open spec fn comes_back(
    rows: Seq<Seq<usize>>,
    m: int,
    f: int,
    a: Seq<bool>,
    hv: int,
    hx: int,
    hy: int,
    hi: int,
) -> bool {
    forall|v: int, x: int, y: int, i: int|
        0 <= v < rows.len() && 0 <= x < rows[v].len() && 0 <= y < rows[v].len() && 0 <= i < f && before4(
            v,
            x,
            y,
            i,
            hv,
            hx,
            hy,
            hi,
        ) && x != y ==> #[trigger] walk_returns(rows, m, f, a, v, x, y, i)
}

/// One neighbour follows each, before the place `(hv, hx)`.
pub open spec fn succs(rows: Seq<Seq<usize>>, edges: Seq<(usize, usize)>, a: Seq<bool>, hv: int, hx: int) -> bool {
    forall|v: int, x: int|
        0 <= v < rows.len() && 0 <= x < rows[v].len() && before2(v, x, hv, hx) ==> #[trigger] one_follows(
            rows,
            edges,
            a,
            v,
            x,
        )
}

/// Each neighbour follows one, before the place `(hv, hx)`.
pub open spec fn preds(rows: Seq<Seq<usize>>, edges: Seq<(usize, usize)>, a: Seq<bool>, hv: int, hx: int) -> bool {
    forall|v: int, x: int|
        0 <= v < rows.len() && 0 <= x < rows[v].len() && before2(v, x, hv, hx) ==> #[trigger] follows_one(
            rows,
            edges,
            a,
            v,
            x,
        )
}

/// The splits are crossed, before the place `(hv, hq, hx, hy)`.
pub open spec fn cuts(
    rows: Seq<Seq<usize>>,
    edges: Seq<(usize, usize)>,
    a: Seq<bool>,
    hv: int,
    hq: int,
    hx: int,
    hy: int,
) -> bool {
    forall|v: int, q: int, x: int, y: int|
        0 <= v < rows.len() && 0 <= q < splits(rows[v].len() as usize) && 0 <= x < part(
            rows[v].len() as int,
            q,
            false,
        ).len() && 0 <= y < part(rows[v].len() as int, q, true).len() && before4(v, q, x, y, hv, hq, hx, hy)
            ==> #[trigger] cut_crossed(rows, edges, a, v, q, x, y)
}

/// How far the program has been written.
pub struct Written {
    pub euler: bool,
    pub counted: bool,
    pub order: int,
    pub long: int,
    pub inside: (int, int),
    pub once: (int, int),
    pub pass: (int, int),
    pub turn: (int, int, int, int),
    pub back: (int, int, int, int),
    pub succ: (int, int),
    pub pred: (int, int),
    pub cut: (int, int, int, int),
}

/// What the constraints written so far ask of an assignment.
pub open spec fn written_holds(rows: Seq<Seq<usize>>, edges: Seq<(usize, usize)>, a: Seq<bool>, w: Written) -> bool {
    let n = rows.len() as int;
    let m = edges.len() as int;
    let f = faces(n, m);
    &&& w.euler ==> euler_bound(n, m, a)
    &&& w.counted ==> faces_counted(n, m, a)
    &&& orders(m, f, a, w.order)
    &&& longs(m, f, a, w.long)
    &&& insides(m, f, a, w.inside.0, w.inside.1)
    &&& onces(rows, edges, a, w.once.0, w.once.1)
    &&& passes(rows, m, f, a, w.pass.0, w.pass.1)
    &&& turns(rows, m, f, a, w.turn.0, w.turn.1, w.turn.2, w.turn.3)
    &&& comes_back(rows, m, f, a, w.back.0, w.back.1, w.back.2, w.back.3)
    &&& succs(rows, edges, a, w.succ.0, w.succ.1)
    &&& preds(rows, edges, a, w.pred.0, w.pred.1)
    &&& cuts(rows, edges, a, w.cut.0, w.cut.1, w.cut.2, w.cut.3)
}

/// The whole program.
pub open spec fn all_written(n: int, f: int) -> Written {
    Written {
        euler: true,
        counted: true,
        order: f,
        long: f,
        inside: (f, 0),
        once: (n, 0),
        pass: (n, 0),
        turn: (n, 0, 0, 0),
        back: (n, 0, 0, 0),
        succ: (n, 0),
        pred: (n, 0),
        cut: (n, 0, 0, 0),
    }
}

/// What the program asks of an assignment: the variables `0..m` choose
/// edges, and the other variables describe the faces of an embedding of the
/// chosen edges by the walks around them and by the order of the neighbours
/// around every vertex.
pub open spec fn fw_holds(rows: Seq<Seq<usize>>, edges: Seq<(usize, usize)>, a: Seq<bool>) -> bool {
    written_holds(rows, edges, a, all_written(rows.len() as int, faces(rows.len() as int, edges.len() as int)))
}

/// The constraints written so far are those that `w` tells of.
pub open spec fn in_step(cs: Seq<Constraint>, rows: Seq<Seq<usize>>, edges: Seq<(usize, usize)>, w: Written) -> bool {
    &&& all_in_range(cs, fw_vars(rows, edges.len() as int) as nat)
    &&& forall|a: Seq<bool>|
        a.len() == fw_vars(rows, edges.len() as int) ==> (#[trigger] all_hold(cs, a) <==> written_holds(
            rows,
            edges,
            a,
            w,
        ))
}

/// One constraint more that asks `asked` of the assignments takes the
/// program from `w` to `next`.
pub proof fn lemma_step(
    cs: Seq<Constraint>,
    c: Constraint,
    rows: Seq<Seq<usize>>,
    edges: Seq<(usize, usize)>,
    w: Written,
    next: Written,
    asked: spec_fn(Seq<bool>) -> bool,
)
    requires
        in_step(cs, rows, edges, w),
        c.in_range(fw_vars(rows, edges.len() as int) as nat),
        forall|a: Seq<bool>| #[trigger] c.holds(a) <==> asked(a),
        forall|a: Seq<bool>|
            a.len() == fw_vars(rows, edges.len() as int) ==> (#[trigger] written_holds(rows, edges, a, next)
                <==> written_holds(rows, edges, a, w) && asked(a)),
    ensures
        in_step(cs.push(c), rows, edges, next),
{
    lemma_all_in_range_push(cs, c, fw_vars(rows, edges.len() as int) as nat);
    assert forall|a: Seq<bool>| a.len() == fw_vars(rows, edges.len() as int) implies (#[trigger] all_hold(
        cs.push(c),
        a,
    ) <==> written_holds(rows, edges, a, next)) by {
        lemma_all_hold_push(cs, c, a);
        assert(c.holds(a) <==> asked(a));
        assert(all_hold(cs, a) <==> written_holds(rows, edges, a, w));
    }
}

/// Moving on without a constraint, where the next place asks nothing new.
pub proof fn lemma_skip(cs: Seq<Constraint>, rows: Seq<Seq<usize>>, edges: Seq<(usize, usize)>, w: Written, next: Written)
    requires
        in_step(cs, rows, edges, w),
        forall|a: Seq<bool>|
            a.len() == fw_vars(rows, edges.len() as int) ==> (#[trigger] written_holds(rows, edges, a, next)
                <==> written_holds(rows, edges, a, w)),
    ensures
        in_step(cs, rows, edges, next),
{
    assert forall|a: Seq<bool>| a.len() == fw_vars(rows, edges.len() as int) implies (#[trigger] all_hold(cs, a)
        <==> written_holds(rows, edges, a, next)) by {
        assert(all_hold(cs, a) <==> written_holds(rows, edges, a, w));
    }
}

/// The terms of one sum after those of another.
pub fn join(first: Vec<(i64, usize)>, second: Vec<(i64, usize)>) -> (terms: Vec<(i64, usize)>)
    ensures
        terms@ == first@ + second@,
        forall|a: Seq<bool>| #[trigger] value(terms@, a) == value(first@, a) + value(second@, a),
{
    let mut terms = first;
    let mut rest = second;
    terms.append(&mut rest);
    proof {
        assert forall|a: Seq<bool>| #[trigger] value(terms@, a) == value(first@, a) + value(second@, a) by {
            lemma_value_concat(first@, second@, a);
        }
    }
    terms
}

/// The single term.
pub fn single(term: (i64, usize)) -> (terms: Vec<(i64, usize)>)
    ensures
        terms@ == seq![term],
        forall|a: Seq<bool>| #[trigger] value(terms@, a) == term_value(term, a),
{
    let terms = vec![term];
    proof {
        assert(terms@ =~= Seq::<(i64, usize)>::empty().push(term));
        assert forall|a: Seq<bool>| #[trigger] value(terms@, a) == term_value(term, a) by {
            lemma_value_push(Seq::<(i64, usize)>::empty(), term, a);
        }
    }
    terms
}

/// A copy of the terms.
pub fn copy_terms(terms: &Vec<(i64, usize)>) -> (copy: Vec<(i64, usize)>)
    ensures
        copy@ == terms@,
{
    let mut copy: Vec<(i64, usize)> = Vec::with_capacity(terms.len());
    let mut k: usize = 0;
    while k < terms.len()
        invariant
            k <= terms@.len(),
            copy@ == terms@.take(k as int),
        decreases terms@.len() - k,
    {
        copy.push(terms[k]);
        assert(terms@.take(k + 1) =~= terms@.take(k as int).push(terms@[k as int]));
        k += 1;
    }
    assert(terms@.take(terms@.len() as int) =~= terms@);
    copy
}

/// The vector of one number.
pub fn one(x: usize) -> (r: Vec<usize>)
    ensures
        r@ == seq![x],
{
    let r = vec![x];
    assert(r@ =~= seq![x]);
    r
}

/// Writes the program for the graph: the first variables choose among the
/// edges of the tables, and an assignment meets the constraints exactly if
/// it is as `fw_holds` asks. `None` if the number of variables does not fit
/// in a machine word.
pub fn facial_walks_model(g: &Graph) -> (r: Option<(BinaryProgram, WalkTables)>)
    requires
        g.wf(),
        g@.len() <= g.spec_num_of_edges() + 1,
        forall|v: int| 0 <= v < g@.len() ==> (#[trigger] g@[v]).len() < usize::BITS,
    ensures
        r is Some == (fw_size(g@, g.spec_num_of_edges() as int) <= usize::MAX),
        r matches Some((program, t)) ==> {
            &&& t.wf()
            &&& list_sets(t.rows@) == g@
            &&& t.edges@.to_set() == edge_set(g@)
            &&& t.edges@.len() == g.spec_num_of_edges()
            &&& program.wf()
            &&& program.num_vars == t.num_vars
            &&& program.objective@ == Seq::new(t.edges@.len(), |k: int| k as usize)
            &&& forall|a: Seq<bool>|
                a.len() == program.num_vars ==> (#[trigger] all_hold(program.constraints@, a) <==> fw_holds(
                    t.rows_seq(),
                    t.edges@,
                    a,
                ))
        },
{
    let t = match WalkTables::new(g) {
        Some(t) => t,
        None => {
            return None;
        },
    };
    let n = t.num_of_vertices();
    let m = t.edges.len();
    let f = t.faces;
    let nv = t.num_vars;
    let ghost ni = n as int;
    let ghost mi = m as int;
    let ghost fi = f as int;
    let ghost rows = t.rows_seq();
    let ghost es = t.edges@;
    proof {
        lemma_start_positive(rows, ni);
        assert(0 <= (2 * mi) * fi) by (nonlinear_arith)
            requires
                0 <= mi,
                0 <= fi,
        ;
    }
    proof {
        assert(t.starts@[ni] == start(rows, ni));
    }
    let all_arcs = count_up(2 * m);
    let all_faces = count_up(f);
    let objective = count_up(m);
    let mut cs: Vec<Constraint> = Vec::new();
    let ghost mut w = Written { euler: false, counted: false, order: 0int, long: 0int, inside: (0int, 0int), once: (0int, 0int), pass: (0int, 0int), turn: (0int, 0int, 0int, 0int), back: (0int, 0int, 0int, 0int), succ: (0int, 0int), pred: (0int, 0int), cut: (0int, 0int, 0int, 0int) };
    assert(in_step(cs@, rows, es, w));

    // at most 3 n - 6 edges
    if n > 2 {
        proof {
            assert(3 * n - 6 <= 0x7fff_ffff_ffff_ffff && 3 * n <= usize::MAX) by (nonlinear_arith)
                requires
                    n * n <= 0xffff_ffff_ffff_ffff,
                    n > 2,
                    n * n <= usize::MAX,
            ;
        }
        let c = Constraint { terms: first_variables(m), relation: Relation::AtMost, bound: (3 * n - 6) as i64 };
        proof {
            let next = Written { euler: true, ..w };
            assert(c.in_range(nv as nat));
            lemma_step(cs@, c, rows, es, w, next, |a: Seq<bool>| euler_bound(ni, mi, a));
            w = next;
        }
        cs.push(c);
    } else {
        proof {
            let next = Written { euler: true, ..w };
            lemma_skip(cs@, rows, es, w, next);
            w = next;
        }
    }

    // two more faces than edges beyond the vertices
    proof {
        assert(n <= 0x7fff_ffff_ffff_ffff) by (nonlinear_arith)
            requires
                n * n <= 0xffff_ffff_ffff_ffff,
        ;
    }
    let c = Constraint {
        terms: join(run_terms(m, f, false), run_terms(0, m, true)),
        relation: Relation::Equal,
        bound: 2 - (n as i64),
    };
    proof {
        let next = Written { counted: true, ..w };
        assert(c.in_range(nv as nat));
        assert forall|a: Seq<bool>| #[trigger] c.holds(a) <==> faces_counted(ni, mi, a) by {
            crate::ilp::lemma_chosen_from_zero(a, mi);
        }
        lemma_step(cs@, c, rows, es, w, next, |a: Seq<bool>| faces_counted(ni, mi, a));
        w = next;
    }
    cs.push(c);

    // the faces that exist come first
    let mut i: usize = 0;
    while i < f - 1
        invariant
            i <= f - 1,
            f >= 1,
                t.wf(),
                n == ni,
                m == mi,
                f == fi,
                n == t.rows@.len(),
                m == t.edges@.len(),
                f == t.faces,
                ni == rows.len(),
                mi == es.len(),
                fi == faces(ni, mi),
                rows == t.rows_seq(),
                es == t.edges@,
                nv == t.num_vars,
                all_arcs@ == upto(2 * mi),
                all_faces@ == upto(fi),
                2 * m <= usize::MAX,
                m + f <= turn_base(mi, fi) <= nv,
                in_step(cs@, rows, es, w),
                w == (Written { euler: true, counted: true, order: i as int, long: 0int, inside: (0int, 0int), once: (0int, 0int), pass: (0int, 0int), turn: (0int, 0int, 0int, 0int), back: (0int, 0int, 0int, 0int), succ: (0int, 0int), pred: (0int, 0int), cut: (0int, 0int, 0int, 0int) }),
        decreases f - 1 - i,
    {

            let c = constraint2((1, m + i), (-1, m + i + 1), Relation::AtLeast, 0);
            proof {
                let next = Written { order: i + 1, ..w };
                
                assert(c.in_range(nv as nat));
                lemma_step(cs@, c, rows, es, w, next, |a: Seq<bool>| faces_ordered(mi, a, i as int));
                w = next;
            }
            cs.push(c);

        i += 1;
    }

            proof {
                let next = Written { order: fi, ..w };
                
                lemma_skip(cs@, rows, es, w, next);
                w = next;
            }


    // the walk around a face has at least three arcs
    let mut i: usize = 0;
    while i < f
        invariant
            i <= f,
                t.wf(),
                n == ni,
                m == mi,
                f == fi,
                n == t.rows@.len(),
                m == t.edges@.len(),
                f == t.faces,
                ni == rows.len(),
                mi == es.len(),
                fi == faces(ni, mi),
                rows == t.rows_seq(),
                es == t.edges@,
                nv == t.num_vars,
                all_arcs@ == upto(2 * mi),
                all_faces@ == upto(fi),
                2 * m <= usize::MAX,
                m + f <= turn_base(mi, fi) <= nv,
                in_step(cs@, rows, es, w),
                w == (Written { euler: true, counted: true, order: fi, long: i as int, inside: (0int, 0int), once: (0int, 0int), pass: (0int, 0int), turn: (0int, 0int, 0int, 0int), back: (0int, 0int, 0int, 0int), succ: (0int, 0int), pred: (0int, 0int), cut: (0int, 0int, 0int, 0int) }),
        decreases f - i,
    {

            let c = Constraint { terms: join(single((3, m + i)), sum_c_over_faces_arcs(m, f, &one(i), &all_arcs, true)), relation: Relation::AtMost, bound: 0 };
            proof {
                let next = Written { long: i + 1, ..w };
                
                assert(c.in_range(nv as nat));
                lemma_step(cs@, c, rows, es, w, next, |a: Seq<bool>| face_long(mi, fi, a, i as int));
                w = next;
            }
            cs.push(c);

        i += 1;
    }

    // only walks around faces that exist run along arcs
    let mut i: usize = 0;
    while i < f
        invariant
            i <= f,
                t.wf(),
                n == ni,
                m == mi,
                f == fi,
                n == t.rows@.len(),
                m == t.edges@.len(),
                f == t.faces,
                ni == rows.len(),
                mi == es.len(),
                fi == faces(ni, mi),
                rows == t.rows_seq(),
                es == t.edges@,
                nv == t.num_vars,
                all_arcs@ == upto(2 * mi),
                all_faces@ == upto(fi),
                2 * m <= usize::MAX,
                m + f <= turn_base(mi, fi) <= nv,
                in_step(cs@, rows, es, w),
                w == (Written { euler: true, counted: true, order: fi, long: fi, inside: (i as int, 0int), once: (0int, 0int), pass: (0int, 0int), turn: (0int, 0int, 0int, 0int), back: (0int, 0int, 0int, 0int), succ: (0int, 0int), pred: (0int, 0int), cut: (0int, 0int, 0int, 0int) }),
        decreases f - i,
    {
        let mut d: usize = 0;
        while d < 2 * m
            invariant
                d <= 2 * m,
                i < f,
                t.wf(),
                n == ni,
                m == mi,
                f == fi,
                n == t.rows@.len(),
                m == t.edges@.len(),
                f == t.faces,
                ni == rows.len(),
                mi == es.len(),
                fi == faces(ni, mi),
                rows == t.rows_seq(),
                es == t.edges@,
                nv == t.num_vars,
                all_arcs@ == upto(2 * mi),
                all_faces@ == upto(fi),
                2 * m <= usize::MAX,
                m + f <= turn_base(mi, fi) <= nv,
                in_step(cs@, rows, es, w),
                w == (Written { euler: true, counted: true, order: fi, long: fi, inside: (i as int, d as int), once: (0int, 0int), pass: (0int, 0int), turn: (0int, 0int, 0int, 0int), back: (0int, 0int, 0int, 0int), succ: (0int, 0int), pred: (0int, 0int), cut: (0int, 0int, 0int, 0int) }),
            decreases 2 * m - d,
        {

            let c = constraint2((1, t.walk(i, d)), (-1, m + i), Relation::AtMost, 0);
            proof {
                let next = Written { inside: (i as int, d + 1), ..w };
                
                assert(c.in_range(nv as nat));
                lemma_step(cs@, c, rows, es, w, next, |a: Seq<bool>| walk_in_face(mi, fi, a, i as int, d as int));
                w = next;
            }
            cs.push(c);

            d += 1;
        }

            proof {
                let next = Written { inside: (i + 1, 0int), ..w };
                
                lemma_skip(cs@, rows, es, w, next);
                w = next;
            }

        i += 1;
    }

    // one walk runs along each arc of a chosen edge
    let mut v: usize = 0;
    while v < n
        invariant
            v <= n,
                t.wf(),
                n == ni,
                m == mi,
                f == fi,
                n == t.rows@.len(),
                m == t.edges@.len(),
                f == t.faces,
                ni == rows.len(),
                mi == es.len(),
                fi == faces(ni, mi),
                rows == t.rows_seq(),
                es == t.edges@,
                nv == t.num_vars,
                all_arcs@ == upto(2 * mi),
                all_faces@ == upto(fi),
                2 * m <= usize::MAX,
                m + f <= turn_base(mi, fi) <= nv,
                in_step(cs@, rows, es, w),
                w == (Written { euler: true, counted: true, order: fi, long: fi, inside: (fi, 0int), once: (v as int, 0int), pass: (0int, 0int), turn: (0int, 0int, 0int, 0int), back: (0int, 0int, 0int, 0int), succ: (0int, 0int), pred: (0int, 0int), cut: (0int, 0int, 0int, 0int) }),
        decreases n - v,
    {
        let deg = t.degree(v);
        let mut b: usize = 0;
        while b < deg
            invariant
                b <= deg,
                v < n,
                deg == rows[v as int].len(),
                t.wf(),
                n == ni,
                m == mi,
                f == fi,
                n == t.rows@.len(),
                m == t.edges@.len(),
                f == t.faces,
                ni == rows.len(),
                mi == es.len(),
                fi == faces(ni, mi),
                rows == t.rows_seq(),
                es == t.edges@,
                nv == t.num_vars,
                all_arcs@ == upto(2 * mi),
                all_faces@ == upto(fi),
                2 * m <= usize::MAX,
                m + f <= turn_base(mi, fi) <= nv,
                in_step(cs@, rows, es, w),
                w == (Written { euler: true, counted: true, order: fi, long: fi, inside: (fi, 0int), once: (v as int, b as int), pass: (0int, 0int), turn: (0int, 0int, 0int, 0int), back: (0int, 0int, 0int, 0int), succ: (0int, 0int), pred: (0int, 0int), cut: (0int, 0int, 0int, 0int) }),
            decreases deg - b,
        {

            let c = Constraint { terms: join(sum_c_over_faces_arcs(m, f, &all_faces, &one(t.out_arc_no(v, b)), false), single((-1, t.edge_var(v, b)))), relation: Relation::Equal, bound: 0 };
            proof {
                let next = Written { once: (v as int, b + 1), ..w };
                
                assert(c.in_range(nv as nat));
                lemma_step(cs@, c, rows, es, w, next, |a: Seq<bool>| arc_once(rows, es, a, v as int, b as int));
                w = next;
            }
            cs.push(c);

            b += 1;
        }

            proof {
                let next = Written { once: (v + 1, 0int), ..w };
                
                lemma_skip(cs@, rows, es, w, next);
                w = next;
            }

        v += 1;
    }

    // a walk leaves a vertex as often as it comes to it
    let mut v: usize = 0;
    while v < n
        invariant
            v <= n,
                t.wf(),
                n == ni,
                m == mi,
                f == fi,
                n == t.rows@.len(),
                m == t.edges@.len(),
                f == t.faces,
                ni == rows.len(),
                mi == es.len(),
                fi == faces(ni, mi),
                rows == t.rows_seq(),
                es == t.edges@,
                nv == t.num_vars,
                all_arcs@ == upto(2 * mi),
                all_faces@ == upto(fi),
                2 * m <= usize::MAX,
                m + f <= turn_base(mi, fi) <= nv,
                in_step(cs@, rows, es, w),
                w == (Written { euler: true, counted: true, order: fi, long: fi, inside: (fi, 0int), once: (ni, 0int), pass: (v as int, 0int), turn: (0int, 0int, 0int, 0int), back: (0int, 0int, 0int, 0int), succ: (0int, 0int), pred: (0int, 0int), cut: (0int, 0int, 0int, 0int) }),
        decreases n - v,
    {
        let deg = t.degree(v);
        let mut in_list: Vec<usize> = Vec::with_capacity(deg);
        let mut out_list: Vec<usize> = Vec::with_capacity(deg);
        let mut b: usize = 0;
        while b < deg
            invariant
                b <= deg,
                v < n,
                t.wf(),
                n == t.rows@.len(),
                m == t.edges@.len(),
                rows == t.rows_seq(),
                deg == rows[v as int].len(),
                in_list@.len() == b,
                out_list@.len() == b,
                forall|k: int| 0 <= k < b ==> #[trigger] in_list@[k] == in_arc(rows, v as int, k) && in_list@[k] < 2 * m,
                forall|k: int| 0 <= k < b ==> #[trigger] out_list@[k] == out_arc(rows, v as int, k) && out_list@[k] < 2 * m,
            decreases deg - b,
        {
            in_list.push(t.in_arc_no(v, b));
            out_list.push(t.out_arc_no(v, b));
            b += 1;
        }
        proof {
            assert(in_list@ =~= in_arcs(rows, v as int));
            assert(out_list@ =~= out_arcs(rows, v as int));
        }
        let mut i: usize = 0;
        while i < f
            invariant
                i <= f,
                v < n,
                in_list@ == in_arcs(rows, v as int),
                out_list@ == out_arcs(rows, v as int),
                forall|k: int| 0 <= k < in_list@.len() ==> (#[trigger] in_list@[k]) < 2 * m,
                forall|k: int| 0 <= k < out_list@.len() ==> (#[trigger] out_list@[k]) < 2 * m,
                t.wf(),
                n == ni,
                m == mi,
                f == fi,
                n == t.rows@.len(),
                m == t.edges@.len(),
                f == t.faces,
                ni == rows.len(),
                mi == es.len(),
                fi == faces(ni, mi),
                rows == t.rows_seq(),
                es == t.edges@,
                nv == t.num_vars,
                all_arcs@ == upto(2 * mi),
                all_faces@ == upto(fi),
                2 * m <= usize::MAX,
                m + f <= turn_base(mi, fi) <= nv,
                in_step(cs@, rows, es, w),
                w == (Written { euler: true, counted: true, order: fi, long: fi, inside: (fi, 0int), once: (ni, 0int), pass: (v as int, i as int), turn: (0int, 0int, 0int, 0int), back: (0int, 0int, 0int, 0int), succ: (0int, 0int), pred: (0int, 0int), cut: (0int, 0int, 0int, 0int) }),
            decreases f - i,
        {

            let c = Constraint { terms: join(sum_c_over_faces_arcs(m, f, &one(i), &in_list, false), sum_c_over_faces_arcs(m, f, &one(i), &out_list, true)), relation: Relation::Equal, bound: 0 };
            proof {
                let next = Written { pass: (v as int, i + 1), ..w };
                
                assert(c.in_range(nv as nat));
                lemma_step(cs@, c, rows, es, w, next, |a: Seq<bool>| walk_passes(rows, mi, fi, a, v as int, i as int));
                w = next;
            }
            cs.push(c);

            i += 1;
        }

            proof {
                let next = Written { pass: (v + 1, 0int), ..w };
                
                lemma_skip(cs@, rows, es, w, next);
                w = next;
            }

        v += 1;
    }

    // the walks turn at a vertex as its neighbours follow one another
    let mut v: usize = 0;
    while v < n
        invariant
            v <= n,
                t.wf(),
                n == ni,
                m == mi,
                f == fi,
                n == t.rows@.len(),
                m == t.edges@.len(),
                f == t.faces,
                ni == rows.len(),
                mi == es.len(),
                fi == faces(ni, mi),
                rows == t.rows_seq(),
                es == t.edges@,
                nv == t.num_vars,
                all_arcs@ == upto(2 * mi),
                all_faces@ == upto(fi),
                2 * m <= usize::MAX,
                m + f <= turn_base(mi, fi) <= nv,
                in_step(cs@, rows, es, w),
                w == (Written { euler: true, counted: true, order: fi, long: fi, inside: (fi, 0int), once: (ni, 0int), pass: (ni, 0int), turn: (v as int, 0int, 0int, 0int), back: (v as int, 0int, 0int, 0int), succ: (0int, 0int), pred: (0int, 0int), cut: (0int, 0int, 0int, 0int) }),
        decreases n - v,
    {
        let deg = t.degree(v);
        let mut x: usize = 0;
        while x < deg
            invariant
                x <= deg,
                v < n,
                deg == rows[v as int].len(),
                t.wf(),
                n == ni,
                m == mi,
                f == fi,
                n == t.rows@.len(),
                m == t.edges@.len(),
                f == t.faces,
                ni == rows.len(),
                mi == es.len(),
                fi == faces(ni, mi),
                rows == t.rows_seq(),
                es == t.edges@,
                nv == t.num_vars,
                all_arcs@ == upto(2 * mi),
                all_faces@ == upto(fi),
                2 * m <= usize::MAX,
                m + f <= turn_base(mi, fi) <= nv,
                in_step(cs@, rows, es, w),
                w == (Written { euler: true, counted: true, order: fi, long: fi, inside: (fi, 0int), once: (ni, 0int), pass: (ni, 0int), turn: (v as int, x as int, 0int, 0int), back: (v as int, x as int, 0int, 0int), succ: (0int, 0int), pred: (0int, 0int), cut: (0int, 0int, 0int, 0int) }),
            decreases deg - x,
        {
            let mut y: usize = 0;
            while y < deg
                invariant
                    y <= deg,
                    x < deg,
                    v < n,
                    deg == rows[v as int].len(),
                t.wf(),
                n == ni,
                m == mi,
                f == fi,
                n == t.rows@.len(),
                m == t.edges@.len(),
                f == t.faces,
                ni == rows.len(),
                mi == es.len(),
                fi == faces(ni, mi),
                rows == t.rows_seq(),
                es == t.edges@,
                nv == t.num_vars,
                all_arcs@ == upto(2 * mi),
                all_faces@ == upto(fi),
                2 * m <= usize::MAX,
                m + f <= turn_base(mi, fi) <= nv,
                in_step(cs@, rows, es, w),
                w == (Written { euler: true, counted: true, order: fi, long: fi, inside: (fi, 0int), once: (ni, 0int), pass: (ni, 0int), turn: (v as int, x as int, y as int, 0int), back: (v as int, x as int, y as int, 0int), succ: (0int, 0int), pred: (0int, 0int), cut: (0int, 0int, 0int, 0int) }),
                decreases deg - y,
            {
                if x != y {
                    let mut i: usize = 0;
                    while i < f
                        invariant
                            i <= f,
                            x != y,
                            y < deg,
                            x < deg,
                            v < n,
                            deg == rows[v as int].len(),
                t.wf(),
                n == ni,
                m == mi,
                f == fi,
                n == t.rows@.len(),
                m == t.edges@.len(),
                f == t.faces,
                ni == rows.len(),
                mi == es.len(),
                fi == faces(ni, mi),
                rows == t.rows_seq(),
                es == t.edges@,
                nv == t.num_vars,
                all_arcs@ == upto(2 * mi),
                all_faces@ == upto(fi),
                2 * m <= usize::MAX,
                m + f <= turn_base(mi, fi) <= nv,
                in_step(cs@, rows, es, w),
                w == (Written { euler: true, counted: true, order: fi, long: fi, inside: (fi, 0int), once: (ni, 0int), pass: (ni, 0int), turn: (v as int, x as int, y as int, i as int), back: (v as int, x as int, y as int, i as int), succ: (0int, 0int), pred: (0int, 0int), cut: (0int, 0int, 0int, 0int) }),
                        decreases f - i,
                    {

            let c = constraint3((1, t.walk(i, t.out_arc_no(v, y))), (-1, t.walk(i, t.in_arc_no(v, x))), (-1, t.turn(v, x, y)), Relation::AtLeast, -1);
            proof {
                let next = Written { turn: (v as int, x as int, y as int, i + 1), ..w };
                
                assert(c.in_range(nv as nat));
                lemma_step(cs@, c, rows, es, w, next, |a: Seq<bool>| walk_turns(rows, mi, fi, a, v as int, x as int, y as int, i as int));
                w = next;
            }
            cs.push(c);


            let c = constraint3((1, t.walk(i, t.in_arc_no(v, x))), (-1, t.walk(i, t.out_arc_no(v, y))), (-1, t.turn(v, x, y)), Relation::AtLeast, -1);
            proof {
                let next = Written { back: (v as int, x as int, y as int, i + 1), ..w };
                
                assert(c.in_range(nv as nat));
                lemma_step(cs@, c, rows, es, w, next, |a: Seq<bool>| walk_returns(rows, mi, fi, a, v as int, x as int, y as int, i as int));
                w = next;
            }
            cs.push(c);

                        i += 1;
                    }
                }

            proof {
                let next = Written { turn: (v as int, x as int, y + 1, 0int), back: (v as int, x as int, y + 1, 0int), ..w };
                
                lemma_skip(cs@, rows, es, w, next);
                w = next;
            }

                y += 1;
            }

            proof {
                let next = Written { turn: (v as int, x + 1, 0int, 0int), back: (v as int, x + 1, 0int, 0int), ..w };
                
                lemma_skip(cs@, rows, es, w, next);
                w = next;
            }

            x += 1;
        }

            proof {
                let next = Written { turn: (v + 1, 0int, 0int, 0int), back: (v + 1, 0int, 0int, 0int), ..w };
                
                lemma_skip(cs@, rows, es, w, next);
                w = next;
            }

        v += 1;
    }

    // around a vertex one neighbour follows each, and each follows one
    let mut v: usize = 0;
    while v < n
        invariant
            v <= n,
                t.wf(),
                n == ni,
                m == mi,
                f == fi,
                n == t.rows@.len(),
                m == t.edges@.len(),
                f == t.faces,
                ni == rows.len(),
                mi == es.len(),
                fi == faces(ni, mi),
                rows == t.rows_seq(),
                es == t.edges@,
                nv == t.num_vars,
                all_arcs@ == upto(2 * mi),
                all_faces@ == upto(fi),
                2 * m <= usize::MAX,
                m + f <= turn_base(mi, fi) <= nv,
                in_step(cs@, rows, es, w),
                w == (Written { euler: true, counted: true, order: fi, long: fi, inside: (fi, 0int), once: (ni, 0int), pass: (ni, 0int), turn: (ni, 0int, 0int, 0int), back: (ni, 0int, 0int, 0int), succ: (v as int, 0int), pred: (v as int, 0int), cut: (0int, 0int, 0int, 0int) }),
        decreases n - v,
    {
        let deg = t.degree(v);
        let neighbors = count_up(deg);
        proof {
            lemma_start_grows(rows, v as int, ni);
        }
        let mut x: usize = 0;
        while x < deg
            invariant
                x <= deg,
                v < n,
                deg == rows[v as int].len(),
                neighbors@ == upto(deg as int),
                t.base + t.pairs@[v as int] + deg * (deg - 1) <= nv,
                t.wf(),
                n == ni,
                m == mi,
                f == fi,
                n == t.rows@.len(),
                m == t.edges@.len(),
                f == t.faces,
                ni == rows.len(),
                mi == es.len(),
                fi == faces(ni, mi),
                rows == t.rows_seq(),
                es == t.edges@,
                nv == t.num_vars,
                all_arcs@ == upto(2 * mi),
                all_faces@ == upto(fi),
                2 * m <= usize::MAX,
                m + f <= turn_base(mi, fi) <= nv,
                in_step(cs@, rows, es, w),
                w == (Written { euler: true, counted: true, order: fi, long: fi, inside: (fi, 0int), once: (ni, 0int), pass: (ni, 0int), turn: (ni, 0int, 0int, 0int), back: (ni, 0int, 0int, 0int), succ: (v as int, x as int), pred: (v as int, x as int), cut: (0int, 0int, 0int, 0int) }),
            decreases deg - x,
        {

            let c = Constraint { terms: join(sum_p_over_vertices(t.base, t.pairs[v], deg, &one(x), &neighbors), single((-1, t.edge_var(v, x)))), relation: Relation::Equal, bound: 0 };
            proof {
                let next = Written { succ: (v as int, x + 1), ..w };
                
                assert(c.in_range(nv as nat));
                lemma_step(cs@, c, rows, es, w, next, |a: Seq<bool>| one_follows(rows, es, a, v as int, x as int));
                w = next;
            }
            cs.push(c);


            let c = Constraint { terms: join(sum_p_over_vertices(t.base, t.pairs[v], deg, &neighbors, &one(x)), single((-1, t.edge_var(v, x)))), relation: Relation::Equal, bound: 0 };
            proof {
                let next = Written { pred: (v as int, x + 1), ..w };
                
                assert(c.in_range(nv as nat));
                lemma_step(cs@, c, rows, es, w, next, |a: Seq<bool>| follows_one(rows, es, a, v as int, x as int));
                w = next;
            }
            cs.push(c);

            x += 1;
        }

            proof {
                let next = Written { succ: (v + 1, 0int), pred: (v + 1, 0int), ..w };
                
                lemma_skip(cs@, rows, es, w, next);
                w = next;
            }

        v += 1;
    }

    // around a vertex the neighbours form one cycle
    let mut v: usize = 0;
    while v < n
        invariant
            v <= n,
                t.wf(),
                n == ni,
                m == mi,
                f == fi,
                n == t.rows@.len(),
                m == t.edges@.len(),
                f == t.faces,
                ni == rows.len(),
                mi == es.len(),
                fi == faces(ni, mi),
                rows == t.rows_seq(),
                es == t.edges@,
                nv == t.num_vars,
                all_arcs@ == upto(2 * mi),
                all_faces@ == upto(fi),
                2 * m <= usize::MAX,
                m + f <= turn_base(mi, fi) <= nv,
                in_step(cs@, rows, es, w),
                w == (Written { euler: true, counted: true, order: fi, long: fi, inside: (fi, 0int), once: (ni, 0int), pass: (ni, 0int), turn: (ni, 0int, 0int, 0int), back: (ni, 0int, 0int, 0int), succ: (ni, 0int), pred: (ni, 0int), cut: (v as int, 0int, 0int, 0int) }),
        decreases n - v,
    {
        let deg = t.degree(v);
        let neighbors = count_up(deg);
        let double_power_set = double_power_set(neighbors.as_slice());
        proof {
            lemma_start_grows(rows, v as int, ni);
        }
        let mut q: usize = 0;
        while q < double_power_set.len()
            invariant
                q <= double_power_set@.len(),
                v < n,
                deg == rows[v as int].len(),
                double_power_set@.len() == splits(deg),
                forall|p: int|
                    0 <= p < double_power_set@.len() ==> (#[trigger] double_power_set@[p]).0@ == part(deg as int, p, false)
                        && double_power_set@[p].1@ == part(deg as int, p, true),
                t.base + t.pairs@[v as int] + deg * (deg - 1) <= nv,
                t.wf(),
                n == ni,
                m == mi,
                f == fi,
                n == t.rows@.len(),
                m == t.edges@.len(),
                f == t.faces,
                ni == rows.len(),
                mi == es.len(),
                fi == faces(ni, mi),
                rows == t.rows_seq(),
                es == t.edges@,
                nv == t.num_vars,
                all_arcs@ == upto(2 * mi),
                all_faces@ == upto(fi),
                2 * m <= usize::MAX,
                m + f <= turn_base(mi, fi) <= nv,
                in_step(cs@, rows, es, w),
                w == (Written { euler: true, counted: true, order: fi, long: fi, inside: (fi, 0int), once: (ni, 0int), pass: (ni, 0int), turn: (ni, 0int, 0int, 0int), back: (ni, 0int, 0int, 0int), succ: (ni, 0int), pred: (ni, 0int), cut: (v as int, q as int, 0int, 0int) }),
            decreases double_power_set@.len() - q,
        {
            let u = &double_power_set[q].0;
            let nu = &double_power_set[q].1;
            proof {
                assert(u@ == part(deg as int, q as int, false));
                assert(nu@ == part(deg as int, q as int, true));
                assert forall|k: int| 0 <= k < u@.len() implies (#[trigger] u@[k]) < deg by {
                    lemma_picked(upto(deg as int), (q + 1) as usize, false, deg as int, k);
                }
                assert forall|k: int| 0 <= k < nu@.len() implies (#[trigger] nu@[k]) < deg by {
                    lemma_picked(upto(deg as int), (q + 1) as usize, true, deg as int, k);
                }
            }
            let pvun = sum_p_over_vertices(t.base, t.pairs[v], deg, u, nu);
            let mut x: usize = 0;
            while x < u.len()
                invariant
                    x <= u@.len(),
                    q < double_power_set@.len(),
                    v < n,
                    deg == rows[v as int].len(),
                    double_power_set@.len() == splits(deg),
                    u@ == part(deg as int, q as int, false),
                    nu@ == part(deg as int, q as int, true),
                    forall|k: int| 0 <= k < u@.len() ==> (#[trigger] u@[k]) < deg,
                    forall|k: int| 0 <= k < nu@.len() ==> (#[trigger] nu@[k]) < deg,
                    forall|k: int| 0 <= k < pvun@.len() ==> (#[trigger] pvun@[k]).1 < nv,
                    forall|a: Seq<bool>| #[trigger]
                        value(pvun@, a) == turn_sum(
                            turn_base(mi, fi),
                            pairs_before(rows, v as int),
                            deg as int,
                            a,
                            u@,
                            nu@,
                        ),
                t.wf(),
                n == ni,
                m == mi,
                f == fi,
                n == t.rows@.len(),
                m == t.edges@.len(),
                f == t.faces,
                ni == rows.len(),
                mi == es.len(),
                fi == faces(ni, mi),
                rows == t.rows_seq(),
                es == t.edges@,
                nv == t.num_vars,
                all_arcs@ == upto(2 * mi),
                all_faces@ == upto(fi),
                2 * m <= usize::MAX,
                m + f <= turn_base(mi, fi) <= nv,
                in_step(cs@, rows, es, w),
                w == (Written { euler: true, counted: true, order: fi, long: fi, inside: (fi, 0int), once: (ni, 0int), pass: (ni, 0int), turn: (ni, 0int, 0int, 0int), back: (ni, 0int, 0int, 0int), succ: (ni, 0int), pred: (ni, 0int), cut: (v as int, q as int, x as int, 0int) }),
                decreases u@.len() - x,
            {
                let mut y: usize = 0;
                while y < nu.len()
                    invariant
                        y <= nu@.len(),
                        x < u@.len(),
                        q < double_power_set@.len(),
                        v < n,
                        deg == rows[v as int].len(),
                        double_power_set@.len() == splits(deg),
                        u@ == part(deg as int, q as int, false),
                        nu@ == part(deg as int, q as int, true),
                        forall|k: int| 0 <= k < u@.len() ==> (#[trigger] u@[k]) < deg,
                        forall|k: int| 0 <= k < nu@.len() ==> (#[trigger] nu@[k]) < deg,
                        forall|k: int| 0 <= k < pvun@.len() ==> (#[trigger] pvun@[k]).1 < nv,
                        forall|a: Seq<bool>| #[trigger]
                            value(pvun@, a) == turn_sum(
                                turn_base(mi, fi),
                                pairs_before(rows, v as int),
                                deg as int,
                                a,
                                u@,
                                nu@,
                            ),
                t.wf(),
                n == ni,
                m == mi,
                f == fi,
                n == t.rows@.len(),
                m == t.edges@.len(),
                f == t.faces,
                ni == rows.len(),
                mi == es.len(),
                fi == faces(ni, mi),
                rows == t.rows_seq(),
                es == t.edges@,
                nv == t.num_vars,
                all_arcs@ == upto(2 * mi),
                all_faces@ == upto(fi),
                2 * m <= usize::MAX,
                m + f <= turn_base(mi, fi) <= nv,
                in_step(cs@, rows, es, w),
                w == (Written { euler: true, counted: true, order: fi, long: fi, inside: (fi, 0int), once: (ni, 0int), pass: (ni, 0int), turn: (ni, 0int, 0int, 0int), back: (ni, 0int, 0int, 0int), succ: (ni, 0int), pred: (ni, 0int), cut: (v as int, q as int, x as int, y as int) }),
                    decreases nu@.len() - y,
                {

            let c = Constraint { terms: join(copy_terms(&pvun), join(single((-1, t.edge_var(v, u[x]))), single((-1, t.edge_var(v, nu[y]))))), relation: Relation::AtLeast, bound: -1 };
            proof {
                let next = Written { cut: (v as int, q as int, x as int, y + 1), ..w };
                
                assert(c.in_range(nv as nat));
                lemma_step(cs@, c, rows, es, w, next, |a: Seq<bool>| cut_crossed(rows, es, a, v as int, q as int, x as int, y as int));
                w = next;
            }
            cs.push(c);

                    y += 1;
                }

            proof {
                let next = Written { cut: (v as int, q as int, x + 1, 0int), ..w };
                
                lemma_skip(cs@, rows, es, w, next);
                w = next;
            }

                x += 1;
            }

            proof {
                let next = Written { cut: (v as int, q + 1, 0int, 0int), ..w };
                
                lemma_skip(cs@, rows, es, w, next);
                w = next;
            }

            q += 1;
        }

            proof {
                let next = Written { cut: (v + 1, 0int, 0int, 0int), ..w };
                
                lemma_skip(cs@, rows, es, w, next);
                w = next;
            }

        v += 1;
    }
    let program = BinaryProgram { num_vars: nv, objective, constraints: cs };
    proof {
        assert(program.objective@ =~= Seq::new(es.len(), |k: int| k as usize));
        assert(w == all_written(ni, fi));
        assert forall|a: Seq<bool>| a.len() == program.num_vars implies (#[trigger] all_hold(program.constraints@, a)
            <==> fw_holds(rows, es, a)) by {
            assert(all_hold(program.constraints@, a) <==> written_holds(rows, es, a, w));
        }
    }
    Some((program, t))
}

} // verus!
