//! Heuristics for large planar subgraphs that match small patterns whose
//! vertices lie in different components and merge those components.

use crate::connectivity::{
    connected, lemma_connected_arc, lemma_connected_mono, lemma_connected_refl, lemma_connected_sym,
    lemma_connected_trans, sub_adjacency,
};
use crate::graphs::{lemma_edge_change, lemma_push_contains, lemma_push_no_duplicates, Graph};
use crate::mps_alg::MpsAlgorithm;
use crate::poranen::{
    calinescu_basic_mps, calinescu_result, my_mps, my_result, poranen_mps, poranen_result, schmid_d4_mps, schmid_result,
};
use vstd::prelude::*;

verus! {

/// No two of the listed vertices are in the same component.
pub open spec fn all_different(component: Seq<usize>, vertices: Seq<usize>) -> bool {
    forall|i: int, j: int|
        0 <= i < j < vertices.len() ==> component[vertices[i] as int] != component[vertices[j] as int]
}

/// The vertex `z` starts in the component of one of the first `upto` listed
/// vertices.
pub open spec fn absorbed(start: Seq<usize>, vertices: Seq<usize>, upto: int, z: int) -> bool {
    exists|i: int| 0 <= i < upto && start[z] == start[#[trigger] vertices[i] as int]
}

/// The component of `z` after the components of the first `upto` listed
/// vertices were merged into that of the first.
pub open spec fn merged_component(start: Seq<usize>, vertices: Seq<usize>, upto: int, z: int) -> usize {
    if absorbed(start, vertices, upto, z) {
        start[vertices[0] as int]
    } else {
        start[z]
    }
}

/// The pair `(u, v)` is listed, in this or the other direction.
pub open spec fn listed(edges: Seq<(usize, usize)>, u: usize, v: usize) -> bool {
    exists|k: int|
        #![trigger edges[k]]
        0 <= k < edges.len() && (edges[k] == (u, v) || edges[k] == (v, u))
}

/// The listed pairs are edges that the subgraph does not have yet, each
/// listed once.
pub open spec fn fresh(before: MatchMerge, edges: Seq<(usize, usize)>) -> bool {
    forall|k: int|
        0 <= k < edges.len() ==> proper_pair(#[trigger] edges[k], before.mps()@.len()) && !before.mps()@[edges[k].0 as int].contains(
            edges[k].1,
        ) && forall|j: int| 0 <= j < k ==> (#[trigger] edges[j]) != edges[k] && edges[j] != (edges[k].1, edges[k].0)
}

/// How many of the values are `true`.
pub open spec fn count_true(s: Seq<bool>) -> nat
    decreases s.len(),
{
    if s.len() == 0 {
        0
    } else {
        count_true(s.drop_last()) + if s.last() {
            1nat
        } else {
            0nat
        }
    }
}

/// For every vertex whether it is the label of its own component.
pub open spec fn own_roots(component: Seq<usize>) -> Seq<bool> {
    Seq::new(component.len(), |x: int| component[x] == x)
}

/// Changing one value changes the count by one, or not at all.
pub proof fn lemma_count_true_update(s: Seq<bool>, i: int, b: bool)
    requires
        0 <= i < s.len(),
    ensures
        count_true(s.update(i, b)) + (if s[i] {
            1nat
        } else {
            0nat
        }) == count_true(s) + (if b {
            1nat
        } else {
            0nat
        }),
    decreases s.len(),
{
    if i == s.len() - 1 {
        assert(s.update(i, b).drop_last() =~= s.drop_last());
    } else {
        lemma_count_true_update(s.drop_last(), i, b);
        assert(s.update(i, b).drop_last() =~= s.drop_last().update(i, b));
    }
}

/// Where all values are `true`, the count is their number.
pub proof fn lemma_count_true_all(s: Seq<bool>)
    requires
        forall|i: int| 0 <= i < s.len() ==> #[trigger] s[i],
    ensures
        count_true(s) == s.len(),
    decreases s.len(),
{
    if s.len() > 0 {
        lemma_count_true_all(s.drop_last());
    }
}

/// Where the values that turn `false` are those at the lost places, which
/// were `true`, and the others stay, the count falls by the number of lost
/// places.
pub proof fn lemma_count_true_lost(before: Seq<bool>, after: Seq<bool>, lost: Seq<usize>)
    requires
        after.len() == before.len(),
        before.len() <= usize::MAX,
        lost.no_duplicates(),
        forall|k: int| 0 <= k < lost.len() ==> (#[trigger] lost[k]) < before.len() && before[lost[k] as int],
        forall|x: usize| x < before.len() ==> (#[trigger] after[x as int] <==> before[x as int] && !lost.contains(x)),
    ensures
        count_true(after) + lost.len() == count_true(before),
    decreases lost.len(),
{
    if lost.len() == 0 {
        assert forall|x: int| 0 <= x < before.len() implies after[x] == before[x] by {
            assert(after[(x as usize) as int] <==> before[(x as usize) as int] && !lost.contains(x as usize));
        }
        assert(after =~= before);
    } else {
        let l = lost.last();
        let rest = lost.drop_last();
        let mid = after.update(l as int, true);
        assert(lost.contains(l));
        assert(!rest.contains(l)) by {
            if rest.contains(l) {
                let k = choose|k: int| 0 <= k < rest.len() && rest[k] == l;
                assert(lost[k] == l);
            }
        }
        assert forall|x: usize| x < before.len() implies (#[trigger] mid[x as int] <==> before[x as int]
            && !rest.contains(x)) by {
            assert(after[x as int] <==> before[x as int] && !lost.contains(x));
            if x != l {
                if rest.contains(x) {
                    let k = choose|k: int| 0 <= k < rest.len() && rest[k] == x;
                    assert(lost[k] == x);
                }
                if lost.contains(x) {
                    let k = choose|k: int| 0 <= k < lost.len() && lost[k] == x;
                    assert(k < rest.len());
                    assert(rest[k] == x);
                }
            }
        }
        assert forall|k: int| 0 <= k < rest.len() implies (#[trigger] rest[k]) < before.len() && before[rest[k] as int] by {
            assert(lost[k] == rest[k]);
        }
        lemma_count_true_lost(before, mid, rest);
        lemma_count_true_update(after, l as int, true);
    }
}

/// The pair joins two different vertices among the first `n`.
pub open spec fn proper_pair(e: (usize, usize), n: nat) -> bool {
    e.0 < n && e.1 < n && e.0 != e.1
}

/// What moving the listed edges does to the two graphs: every listed pair
/// of different vertices is an edge of the subgraph and no longer among the
/// edges to be considered, and nothing else changes.
pub open spec fn edges_moved(before: MatchMerge, after: MatchMerge, edges: Seq<(usize, usize)>) -> bool {
    &&& sub_adjacency(before.mps()@, after.mps()@)
    &&& sub_adjacency(after.full()@, before.full()@)
    &&& forall|u: int, v: usize|
        0 <= u < after.mps()@.len() && #[trigger] after.mps()@[u].contains(v) ==> before.mps()@[u].contains(v)
            || listed(edges, u as usize, v)
    &&& forall|u: int, v: usize|
        0 <= u < before.full()@.len() && #[trigger] before.full()@[u].contains(v) ==> after.full()@[u].contains(v)
            || listed(edges, u as usize, v)
    &&& forall|k: int|
        0 <= k < edges.len() && proper_pair(#[trigger] edges[k], after.mps()@.len()) ==> after.mps()@[edges[k].0 as int].contains(
            edges[k].1,
        ) && !after.full()@[edges[k].0 as int].contains(edges[k].1)
    &&& after.full().spec_num_of_edges() <= before.full().spec_num_of_edges()
    &&& edges.len() > 0 && before.full().spec_has_edge(edges[0].0, edges[0].1) ==> after.full().spec_num_of_edges()
        < before.full().spec_num_of_edges()
}

/// What applying a rule does: the listed edges are moved, and the
/// components of the listed vertices are merged into that of the first.
pub open spec fn rule_applied(
    before: MatchMerge,
    after: MatchMerge,
    edges: Seq<(usize, usize)>,
    vertices: Seq<usize>,
) -> bool {
    &&& after.wf()
    &&& after.component().len() == before.component().len()
    &&& edges_moved(before, after, edges)
    &&& forall|z: int|
        0 <= z < before.component().len() ==> #[trigger] after.component()[z] == merged_component(
            before.component(),
            vertices,
            vertices.len() as int,
            z,
        )
}

/// Every listed vertex is the first one or is joined to it by a listed
/// edge.
pub open spec fn star_shaped(edges: Seq<(usize, usize)>, vertices: Seq<usize>) -> bool {
    forall|i: int| 0 <= i < vertices.len() ==> #[trigger] vertices[i] == vertices[0] || listed(edges, vertices[0], vertices[i])
}

/// Every edge of `graph` is in the subgraph or still to be considered, and
/// both of these hold edges of `graph` only.
pub open spec fn covers(mm: MatchMerge, graph: Graph) -> bool {
    &&& sub_adjacency(mm.mps()@, graph@)
    &&& sub_adjacency(mm.full()@, graph@)
    &&& forall|u: int, v: usize|
        0 <= u < graph@.len() && #[trigger] graph@[u].contains(v) ==> mm.mps()@[u].contains(v) || mm.full()@[u].contains(v)
}

/// Applying a star-shaped rule keeps the vertices of every component
/// connected in the subgraph.
pub proof fn lemma_rule_keeps_linked(
    before: MatchMerge,
    after: MatchMerge,
    edges: Seq<(usize, usize)>,
    vertices: Seq<usize>,
)
    requires
        before.wf(),
        before.linked(),
        rule_applied(before, after, edges, vertices),
        star_shaped(edges, vertices),
        forall|i: int| 0 <= i < vertices.len() ==> (#[trigger] vertices[i]) < before.component().len(),
    ensures
        after.linked(),
{
    let n = before.component().len();
    let start = before.component();
    let old_adj = before.mps()@;
    let adj = after.mps()@;
    assert forall|i: int| 0 <= i < vertices.len() implies connected(adj, vertices[0], #[trigger] vertices[i]) by {
        if vertices[i] == vertices[0] {
            lemma_connected_refl(adj, vertices[0]);
        } else {
            let k = choose|k: int|
                #![trigger edges[k]]
                0 <= k < edges.len() && (edges[k] == (vertices[0], vertices[i]) || edges[k] == (
                    vertices[i],
                    vertices[0],
                ));
            assert(proper_pair(edges[k], n));
            if edges[k] == (vertices[0], vertices[i]) {
                lemma_connected_arc(adj, vertices[0], vertices[i]);
            } else {
                lemma_connected_arc(adj, vertices[i], vertices[0]);
                lemma_connected_sym(adj, vertices[i], vertices[0]);
            }
        }
    }
    assert forall|a: usize, b: usize|
        a < n && b < n && #[trigger] after.component()[a as int] == #[trigger] after.component()[b as int] implies connected(
        adj,
        a,
        b,
    ) by {
        let len = vertices.len() as int;
        assert(after.component()[a as int] == merged_component(start, vertices, len, a as int));
        assert(after.component()[b as int] == merged_component(start, vertices, len, b as int));
        let in_a = absorbed(start, vertices, len, a as int);
        let in_b = absorbed(start, vertices, len, b as int);
        if in_a && !in_b {
            assert(start[b as int] == start[vertices[0] as int]);
            assert(absorbed(start, vertices, len, b as int));
        }
        if in_b && !in_a {
            assert(start[a as int] == start[vertices[0] as int]);
            assert(absorbed(start, vertices, len, a as int));
        }
        if in_a && in_b {
            let i = choose|i: int| 0 <= i < len && start[a as int] == start[#[trigger] vertices[i] as int];
            let j = choose|j: int| 0 <= j < len && start[b as int] == start[#[trigger] vertices[j] as int];
            assert(connected(old_adj, a, vertices[i]));
            assert(connected(old_adj, vertices[j], b));
            lemma_connected_mono(old_adj, adj, a, vertices[i]);
            lemma_connected_mono(old_adj, adj, vertices[j], b);
            assert(connected(adj, vertices[0], vertices[i]));
            assert(connected(adj, vertices[0], vertices[j]));
            lemma_connected_sym(adj, vertices[0], vertices[i]);
            lemma_connected_trans(adj, a, vertices[i], vertices[0]);
            lemma_connected_trans(adj, a, vertices[0], vertices[j]);
            lemma_connected_trans(adj, a, vertices[j], b);
        } else {
            assert(start[a as int] == start[b as int]);
            assert(connected(old_adj, a, b));
            lemma_connected_mono(old_adj, adj, a, b);
        }
    }
}

/// Applying a rule whose edges join listed vertices keeps the ends of every
/// edge of the subgraph in one component, and the components fall by the
/// number of `lost` labels: the labels of the listed vertices other than
/// that of the first, each once.
pub proof fn lemma_rule_settles(
    before: MatchMerge,
    after: MatchMerge,
    edges: Seq<(usize, usize)>,
    vertices: Seq<usize>,
    lost: Seq<usize>,
)
    requires
        before.wf(),
        before.settled(),
        rule_applied(before, after, edges, vertices),
        vertices.len() >= 1,
        forall|i: int| 0 <= i < vertices.len() ==> (#[trigger] vertices[i]) < before.component().len(),
        forall|k: int|
            0 <= k < edges.len() ==> vertices.contains((#[trigger] edges[k]).0) && vertices.contains(edges[k].1),
        lost.no_duplicates(),
        forall|k: int|
            0 <= k < lost.len() ==> (#[trigger] lost[k]) != before.component()[vertices[0] as int] && exists|i: int|
                0 <= i < vertices.len() && lost[k] == before.component()[#[trigger] vertices[i] as int],
        forall|i: int|
            0 <= i < vertices.len() ==> before.component()[#[trigger] vertices[i] as int]
                == before.component()[vertices[0] as int] || lost.contains(before.component()[vertices[i] as int]),
    ensures
        after.settled(),
        after.components_left() + lost.len() == before.components_left(),
{
    let n = before.component().len() as int;
    let start = before.component();
    let now = after.component();
    let len = vertices.len() as int;
    let u = start[vertices[0] as int];
    assert(n <= usize::MAX) by {
        assert(before.mps()@.len() == before.mps().spec_num_of_vertices());
    }
    assert(absorbed(start, vertices, len, vertices[0] as int));
    assert forall|x: int| 0 <= x < n implies #[trigger] now[x] == merged_component(start, vertices, len, x) by {}
    assert forall|i: int| 0 <= i < len implies absorbed(start, vertices, len, (#[trigger] vertices[i]) as int) by {}
    assert forall|a: int, b: usize| 0 <= a < n && #[trigger] after.mps()@[a].contains(b) implies now[a] == now[b as int] by {
        assert(b < n);
        if before.mps()@[a].contains(b) {
            assert(start[a] == start[b as int]);
            if absorbed(start, vertices, len, a) {
                let i = choose|i: int| 0 <= i < len && start[a] == start[#[trigger] vertices[i] as int];
                assert(absorbed(start, vertices, len, b as int));
            }
            if absorbed(start, vertices, len, b as int) {
                let i = choose|i: int| 0 <= i < len && start[b as int] == start[#[trigger] vertices[i] as int];
                assert(absorbed(start, vertices, len, a));
            }
        } else {
            assert(listed(edges, a as usize, b));
            let k = choose|k: int|
                #![trigger edges[k]]
                0 <= k < edges.len() && (edges[k] == (a as usize, b) || edges[k] == (b, a as usize));
            assert(vertices.contains(edges[k].0) && vertices.contains(edges[k].1));
            let i = choose|i: int| 0 <= i < len && vertices[i] == a as usize;
            let j = choose|j: int| 0 <= j < len && vertices[j] == b;
            assert(absorbed(start, vertices, len, vertices[i] as int));
            assert(absorbed(start, vertices, len, vertices[j] as int));
        }
    }
    assert(start[u as int] == u);
    assert(absorbed(start, vertices, len, u as int));
    assert forall|x: int| 0 <= x < n implies now[(#[trigger] now[x]) as int] == now[x] by {
        if absorbed(start, vertices, len, x) {
            assert(now[x] == u);
            assert(now[u as int] == u);
        } else {
            let l = start[x];
            assert(start[l as int] == l);
            if absorbed(start, vertices, len, l as int) {
                let i = choose|i: int| 0 <= i < len && start[l as int] == start[#[trigger] vertices[i] as int];
                assert(absorbed(start, vertices, len, x));
            }
        }
    }
    let roots_before = own_roots(start);
    let roots_after = own_roots(now);
    assert forall|k: int| 0 <= k < lost.len() implies (#[trigger] lost[k]) < roots_before.len() && roots_before[lost[k] as int] by {
        let i = choose|i: int| 0 <= i < len && lost[k] == start[#[trigger] vertices[i] as int];
        assert(start[start[vertices[i] as int] as int] == start[vertices[i] as int]);
    }
    assert forall|x: usize| x < roots_before.len() implies (#[trigger] roots_after[x as int] <==> roots_before[x as int]
        && !lost.contains(x)) by {
        if absorbed(start, vertices, len, x as int) {
            let i = choose|i: int| 0 <= i < len && start[x as int] == start[#[trigger] vertices[i] as int];
            if start[x as int] == x && x != u {
                assert(lost.contains(start[vertices[i] as int]));
            }
            if lost.contains(x) {
                assert(x != u);
            }
        } else {
            if lost.contains(x) {
                let k = choose|k: int| 0 <= k < lost.len() && lost[k] == x;
                let i = choose|i: int| 0 <= i < len && lost[k] == start[#[trigger] vertices[i] as int];
                assert(start[x as int] == x) by {
                    assert(start[start[vertices[i] as int] as int] == start[vertices[i] as int]);
                }
                assert(absorbed(start, vertices, len, x as int));
            }
        }
    }
    lemma_count_true_lost(roots_before, roots_after, lost);
}

/// The vertices of a matched fan lie in five components.
pub proof fn lemma_my_match(before: MatchMerge, x: usize, y: usize, z: usize, w: usize, t: usize)
    requires
        before.my_match(x, y, z, w, t),
    ensures
        ({
            let c = before.component();
            &&& c[x as int] != c[y as int] && c[x as int] != c[z as int] && c[x as int] != c[w as int] && c[x as int]
                != c[t as int]
            &&& c[y as int] != c[z as int] && c[y as int] != c[w as int] && c[y as int] != c[t as int]
            &&& c[z as int] != c[w as int] && c[z as int] != c[t as int]
            &&& c[w as int] != c[t as int]
        }),
{
    let comp = before.component();
    let matched = seq![x, y, z, w, t];
    assert(matched[0] == x && matched[1] == y && matched[2] == z && matched[3] == w && matched[4] == t);
    assert(comp[matched[0] as int] != comp[matched[1] as int]);
    assert(comp[matched[0] as int] != comp[matched[2] as int]);
    assert(comp[matched[0] as int] != comp[matched[3] as int]);
    assert(comp[matched[0] as int] != comp[matched[4] as int]);
    assert(comp[matched[1] as int] != comp[matched[2] as int]);
    assert(comp[matched[1] as int] != comp[matched[3] as int]);
    assert(comp[matched[1] as int] != comp[matched[4] as int]);
    assert(comp[matched[2] as int] != comp[matched[3] as int]);
    assert(comp[matched[2] as int] != comp[matched[4] as int]);
    assert(comp[matched[3] as int] != comp[matched[4] as int]);
}

/// The edges of a matched fan are not in the subgraph yet.
pub proof fn lemma_my_rule_fresh(before: MatchMerge, x: usize, y: usize, z: usize, w: usize, t: usize)
    requires
        before.wf(),
        before.settled(),
        before.my_match(x, y, z, w, t),
    ensures
        fresh(before, seq![(x, y), (x, z), (x, w), (x, t), (y, z), (z, w), (w, t)]),
{
    lemma_my_match(before, x, y, z, w, t);
    let edges = seq![(x, y), (x, z), (x, w), (x, t), (y, z), (z, w), (w, t)];
    let n = before.mps()@.len();
    assert(x < n && y < n && z < n && w < n && t < n);
    assert forall|k: int| 0 <= k < edges.len() implies proper_pair(#[trigger] edges[k], n) && !before.mps()@[edges[k].0 as int].contains(
        edges[k].1,
    ) && forall|j: int| 0 <= j < k ==> (#[trigger] edges[j]) != edges[k] && edges[j] != (edges[k].1, edges[k].0) by {
        assert(edges[0] == (x, y) && edges[1] == (x, z) && edges[2] == (x, w) && edges[3] == (x, t) && edges[4] == (y, z)
            && edges[5] == (z, w) && edges[6] == (w, t));
    }
}

/// Applying the rule of the fan to a match merges five components.
pub proof fn lemma_my_rule_settles(
    before: MatchMerge,
    after: MatchMerge,
    x: usize,
    y: usize,
    z: usize,
    w: usize,
    t: usize,
)
    requires
        before.wf(),
        before.settled(),
        before.my_match(x, y, z, w, t),
        rule_applied(
            before,
            after,
            seq![(x, y), (x, z), (x, w), (x, t), (y, z), (z, w), (w, t)],
            seq![x, y, z, w, t],
        ),
    ensures
        after.settled(),
        after.components_left() + 4 == before.components_left(),
{
    lemma_my_match(before, x, y, z, w, t);
    let comp = before.component();
    let edges = seq![(x, y), (x, z), (x, w), (x, t), (y, z), (z, w), (w, t)];
    let vertices = seq![x, y, z, w, t];
    let lost = seq![comp[y as int], comp[z as int], comp[w as int], comp[t as int]];
    assert(vertices[0] == x && vertices[1] == y && vertices[2] == z && vertices[3] == w && vertices[4] == t);
    assert(vertices.contains(x) && vertices.contains(y) && vertices.contains(z) && vertices.contains(w)
        && vertices.contains(t));
    assert(lost[0] == comp[y as int] && lost[1] == comp[z as int] && lost[2] == comp[w as int] && lost[3]
        == comp[t as int]);
    assert(lost.no_duplicates());
    assert forall|k: int| 0 <= k < edges.len() implies vertices.contains((#[trigger] edges[k]).0) && vertices.contains(
        edges[k].1,
    ) by {
        assert(edges[0] == (x, y) && edges[1] == (x, z) && edges[2] == (x, w) && edges[3] == (x, t) && edges[4] == (y, z)
            && edges[5] == (z, w) && edges[6] == (w, t));
    }
    assert forall|k: int| 0 <= k < lost.len() implies (#[trigger] lost[k]) != comp[vertices[0] as int] && exists|i: int|
        0 <= i < vertices.len() && lost[k] == comp[#[trigger] vertices[i] as int] by {
        assert(lost[k] == comp[vertices[k + 1] as int]);
    }
    assert forall|i: int| 0 <= i < vertices.len() implies comp[#[trigger] vertices[i] as int]
        == comp[vertices[0] as int] || lost.contains(comp[vertices[i] as int]) by {
        if i > 0 {
            assert(lost[i - 1] == comp[vertices[i] as int]);
        }
    }
    lemma_rule_settles(before, after, edges, vertices, lost);
}

/// The edges of a matched diamond are not in the subgraph yet.
pub proof fn lemma_d4_rule_fresh(before: MatchMerge, x: usize, y: usize, z: usize, w: usize)
    requires
        before.wf(),
        before.settled(),
        before.d4_match(x, y, z, w),
    ensures
        fresh(before, seq![(x, y), (x, z), (x, w), (y, z), (w, z)]),
{
    let comp = before.component();
    let matched = seq![x, y, z, w];
    assert(matched[0] == x && matched[1] == y && matched[2] == z && matched[3] == w);
    assert(comp[matched[0] as int] != comp[matched[1] as int]);
    assert(comp[matched[0] as int] != comp[matched[2] as int]);
    assert(comp[matched[0] as int] != comp[matched[3] as int]);
    assert(comp[matched[1] as int] != comp[matched[2] as int]);
    assert(comp[matched[1] as int] != comp[matched[3] as int]);
    assert(comp[matched[2] as int] != comp[matched[3] as int]);
    let edges = seq![(x, y), (x, z), (x, w), (y, z), (w, z)];
    let n = before.mps()@.len();
    assert(x < n && y < n && z < n && w < n);
    assert forall|k: int| 0 <= k < edges.len() implies proper_pair(#[trigger] edges[k], n) && !before.mps()@[edges[k].0 as int].contains(
        edges[k].1,
    ) && forall|j: int| 0 <= j < k ==> (#[trigger] edges[j]) != edges[k] && edges[j] != (edges[k].1, edges[k].0) by {
        assert(edges[0] == (x, y) && edges[1] == (x, z) && edges[2] == (x, w) && edges[3] == (y, z) && edges[4] == (w, z));
    }
}

/// Applying the rule of the diamond to a match merges its components.
pub proof fn lemma_d4_rule_settles(before: MatchMerge, after: MatchMerge, x: usize, y: usize, z: usize, w: usize)
    requires
        before.wf(),
        before.settled(),
        before.d4_match(x, y, z, w),
        rule_applied(before, after, seq![(x, y), (x, z), (x, w), (y, z), (w, z)], seq![x, y, z, w]),
    ensures
        after.settled(),
        after.components_left() + 3 == before.components_left(),
{
    let comp = before.component();
    let matched = seq![x, y, z, w];
    assert(matched[0] == x && matched[1] == y && matched[2] == z && matched[3] == w);
    assert(comp[matched[0] as int] != comp[matched[1] as int]);
    assert(comp[matched[0] as int] != comp[matched[2] as int]);
    assert(comp[matched[0] as int] != comp[matched[3] as int]);
    assert(comp[matched[1] as int] != comp[matched[2] as int]);
    assert(comp[matched[1] as int] != comp[matched[3] as int]);
    assert(comp[matched[2] as int] != comp[matched[3] as int]);
    let edges = seq![(x, y), (x, z), (x, w), (y, z), (w, z)];
    let vertices = seq![x, y, z, w];
    let lost = seq![comp[y as int], comp[z as int], comp[w as int]];
    let n = before.mps()@.len();
    assert(x < n && y < n && z < n && w < n);
    assert(vertices[0] == x && vertices[1] == y && vertices[2] == z && vertices[3] == w);
    assert(vertices.contains(x) && vertices.contains(y) && vertices.contains(z) && vertices.contains(w));
    assert(lost[0] == comp[y as int] && lost[1] == comp[z as int] && lost[2] == comp[w as int]);
    assert(lost.no_duplicates());
    assert forall|k: int| 0 <= k < edges.len() implies vertices.contains((#[trigger] edges[k]).0) && vertices.contains(
        edges[k].1,
    ) by {
        assert(edges[0] == (x, y) && edges[1] == (x, z) && edges[2] == (x, w) && edges[3] == (y, z) && edges[4] == (w, z));
    }
    assert forall|k: int| 0 <= k < lost.len() implies (#[trigger] lost[k]) != comp[vertices[0] as int] && exists|i: int|
        0 <= i < vertices.len() && lost[k] == comp[#[trigger] vertices[i] as int] by {
        if k == 0 {
            assert(lost[k] == comp[vertices[1] as int]);
        }
        if k == 1 {
            assert(lost[k] == comp[vertices[2] as int]);
        }
        if k == 2 {
            assert(lost[k] == comp[vertices[3] as int]);
        }
    }
    assert forall|i: int| 0 <= i < vertices.len() implies comp[#[trigger] vertices[i] as int]
        == comp[vertices[0] as int] || lost.contains(comp[vertices[i] as int]) by {
        if i == 1 {
            assert(lost[0] == comp[vertices[i] as int]);
        }
        if i == 2 {
            assert(lost[1] == comp[vertices[i] as int]);
        }
        if i == 3 {
            assert(lost[2] == comp[vertices[i] as int]);
        }
    }
    lemma_rule_settles(before, after, edges, vertices, lost);
}

/// The edges of a matched triangle are not in the subgraph yet.
pub proof fn lemma_k3_rule_fresh(before: MatchMerge, u: usize, v: usize, w: usize)
    requires
        before.wf(),
        before.settled(),
        before.k3_match(u, v, w),
    ensures
        fresh(before, seq![(u, v), (v, w), (w, u)]),
{
    let comp = before.component();
    let matched = seq![u, v, w];
    assert(matched[0] == u && matched[1] == v && matched[2] == w);
    assert(comp[matched[0] as int] != comp[matched[1] as int]);
    assert(comp[matched[0] as int] != comp[matched[2] as int]);
    assert(comp[matched[1] as int] != comp[matched[2] as int]);
    let edges = seq![(u, v), (v, w), (w, u)];
    let n = before.mps()@.len();
    assert(u < n && v < n && w < n);
    assert forall|k: int| 0 <= k < edges.len() implies proper_pair(#[trigger] edges[k], n) && !before.mps()@[edges[k].0 as int].contains(
        edges[k].1,
    ) && forall|j: int| 0 <= j < k ==> (#[trigger] edges[j]) != edges[k] && edges[j] != (edges[k].1, edges[k].0) by {
        assert(edges[0] == (u, v) && edges[1] == (v, w) && edges[2] == (w, u));
    }
}

/// Applying the rule of the triangle to a match merges its components.
pub proof fn lemma_k3_rule_settles(before: MatchMerge, after: MatchMerge, u: usize, v: usize, w: usize)
    requires
        before.wf(),
        before.settled(),
        before.k3_match(u, v, w),
        rule_applied(before, after, seq![(u, v), (v, w), (w, u)], seq![u, v, w]),
    ensures
        after.settled(),
        after.components_left() + 2 == before.components_left(),
{
    let comp = before.component();
    let matched = seq![u, v, w];
    assert(matched[0] == u && matched[1] == v && matched[2] == w);
    assert(comp[matched[0] as int] != comp[matched[1] as int]);
    assert(comp[matched[0] as int] != comp[matched[2] as int]);
    assert(comp[matched[1] as int] != comp[matched[2] as int]);
    let edges = seq![(u, v), (v, w), (w, u)];
    let vertices = seq![u, v, w];
    let lost = seq![comp[v as int], comp[w as int]];
    let n = before.mps()@.len();
    assert(u < n && v < n && w < n);
    assert(vertices[0] == u && vertices[1] == v && vertices[2] == w);
    assert(vertices.contains(u) && vertices.contains(v) && vertices.contains(w));
    assert(lost[0] == comp[v as int] && lost[1] == comp[w as int]);
    assert(lost.no_duplicates());
    assert forall|k: int| 0 <= k < edges.len() implies vertices.contains((#[trigger] edges[k]).0) && vertices.contains(
        edges[k].1,
    ) by {
        assert(edges[0] == (u, v) && edges[1] == (v, w) && edges[2] == (w, u));
    }
    assert forall|k: int| 0 <= k < lost.len() implies (#[trigger] lost[k]) != comp[vertices[0] as int] && exists|i: int|
        0 <= i < vertices.len() && lost[k] == comp[#[trigger] vertices[i] as int] by {
        if k == 0 {
            assert(lost[k] == comp[vertices[1] as int]);
        }
        if k == 1 {
            assert(lost[k] == comp[vertices[2] as int]);
        }
    }
    assert forall|i: int| 0 <= i < vertices.len() implies comp[#[trigger] vertices[i] as int]
        == comp[vertices[0] as int] || lost.contains(comp[vertices[i] as int]) by {
        if i == 1 {
            assert(lost[0] == comp[vertices[i] as int]);
        }
        if i == 2 {
            assert(lost[1] == comp[vertices[i] as int]);
        }
    }
    lemma_rule_settles(before, after, edges, vertices, lost);
}

/// The edges of a matched vertex beside an edge are not in the subgraph yet.
pub proof fn lemma_poranen_rule_fresh(before: MatchMerge, u: usize, v: usize, w: usize)
    requires
        before.wf(),
        before.settled(),
        before.poranen_match(u, v, w),
    ensures
        fresh(before, seq![(u, v), (u, w)]),
{
    let comp = before.component();
    let matched = seq![u, v];
    assert(matched[0] == u && matched[1] == v);
    assert(comp[matched[0] as int] != comp[matched[1] as int]);
    assert(before.mps()@[v as int].contains(w));
    assert(comp[v as int] == comp[w as int]);
    let edges = seq![(u, v), (u, w)];
    let n = before.mps()@.len();
    assert(u < n && v < n && w < n);
    assert forall|k: int| 0 <= k < edges.len() implies proper_pair(#[trigger] edges[k], n) && !before.mps()@[edges[k].0 as int].contains(
        edges[k].1,
    ) && forall|j: int| 0 <= j < k ==> (#[trigger] edges[j]) != edges[k] && edges[j] != (edges[k].1, edges[k].0) by {
        assert(edges[0] == (u, v) && edges[1] == (u, w));
    }
}

/// Applying the rule of the vertex beside an edge to a match merges its components.
pub proof fn lemma_poranen_rule_settles(before: MatchMerge, after: MatchMerge, u: usize, v: usize, w: usize)
    requires
        before.wf(),
        before.settled(),
        before.poranen_match(u, v, w),
        rule_applied(before, after, seq![(u, v), (u, w)], seq![u, v, w]),
    ensures
        after.settled(),
        after.components_left() + 1 == before.components_left(),
{
    let comp = before.component();
    let matched = seq![u, v];
    assert(matched[0] == u && matched[1] == v);
    assert(comp[matched[0] as int] != comp[matched[1] as int]);
    assert(before.mps()@[v as int].contains(w));
    assert(comp[v as int] == comp[w as int]);
    let edges = seq![(u, v), (u, w)];
    let vertices = seq![u, v, w];
    let lost = seq![comp[v as int]];
    let n = before.mps()@.len();
    assert(u < n && v < n && w < n);
    assert(vertices[0] == u && vertices[1] == v && vertices[2] == w);
    assert(vertices.contains(u) && vertices.contains(v) && vertices.contains(w));
    assert(lost[0] == comp[v as int]);
    assert(lost.no_duplicates());
    assert forall|k: int| 0 <= k < edges.len() implies vertices.contains((#[trigger] edges[k]).0) && vertices.contains(
        edges[k].1,
    ) by {
        assert(edges[0] == (u, v) && edges[1] == (u, w));
    }
    assert forall|k: int| 0 <= k < lost.len() implies (#[trigger] lost[k]) != comp[vertices[0] as int] && exists|i: int|
        0 <= i < vertices.len() && lost[k] == comp[#[trigger] vertices[i] as int] by {
        if k == 0 {
            assert(lost[k] == comp[vertices[1] as int]);
        }
    }
    assert forall|i: int| 0 <= i < vertices.len() implies comp[#[trigger] vertices[i] as int]
        == comp[vertices[0] as int] || lost.contains(comp[vertices[i] as int]) by {
        if i == 1 {
            assert(lost[0] == comp[vertices[i] as int]);
        }
        if i == 2 {
            assert(lost[0] == comp[vertices[i] as int]);
        }
    }
    lemma_rule_settles(before, after, edges, vertices, lost);
}

/// The edges of a matched single edge are not in the subgraph yet.
pub proof fn lemma_k2_rule_fresh(before: MatchMerge, u: usize, v: usize)
    requires
        before.wf(),
        before.settled(),
        before.k2_match(u, v),
    ensures
        fresh(before, seq![(u, v)]),
{
    let comp = before.component();
    let matched = seq![u, v];
    assert(matched[0] == u && matched[1] == v);
    assert(comp[matched[0] as int] != comp[matched[1] as int]);
    let edges = seq![(u, v)];
    let n = before.mps()@.len();
    assert(u < n && v < n);
    assert forall|k: int| 0 <= k < edges.len() implies proper_pair(#[trigger] edges[k], n) && !before.mps()@[edges[k].0 as int].contains(
        edges[k].1,
    ) && forall|j: int| 0 <= j < k ==> (#[trigger] edges[j]) != edges[k] && edges[j] != (edges[k].1, edges[k].0) by {
        assert(edges[0] == (u, v));
    }
}

/// Applying the rule of the single edge to a match merges its components.
pub proof fn lemma_k2_rule_settles(before: MatchMerge, after: MatchMerge, u: usize, v: usize)
    requires
        before.wf(),
        before.settled(),
        before.k2_match(u, v),
        rule_applied(before, after, seq![(u, v)], seq![u, v]),
    ensures
        after.settled(),
        after.components_left() + 1 == before.components_left(),
{
    let comp = before.component();
    let matched = seq![u, v];
    assert(matched[0] == u && matched[1] == v);
    assert(comp[matched[0] as int] != comp[matched[1] as int]);
    let edges = seq![(u, v)];
    let vertices = seq![u, v];
    let lost = seq![comp[v as int]];
    let n = before.mps()@.len();
    assert(u < n && v < n);
    assert(vertices[0] == u && vertices[1] == v);
    assert(vertices.contains(u) && vertices.contains(v));
    assert(lost[0] == comp[v as int]);
    assert(lost.no_duplicates());
    assert forall|k: int| 0 <= k < edges.len() implies vertices.contains((#[trigger] edges[k]).0) && vertices.contains(
        edges[k].1,
    ) by {
        assert(edges[0] == (u, v));
    }
    assert forall|k: int| 0 <= k < lost.len() implies (#[trigger] lost[k]) != comp[vertices[0] as int] && exists|i: int|
        0 <= i < vertices.len() && lost[k] == comp[#[trigger] vertices[i] as int] by {
        if k == 0 {
            assert(lost[k] == comp[vertices[1] as int]);
        }
    }
    assert forall|i: int| 0 <= i < vertices.len() implies comp[#[trigger] vertices[i] as int]
        == comp[vertices[0] as int] || lost.contains(comp[vertices[i] as int]) by {
        if i == 1 {
            assert(lost[0] == comp[vertices[i] as int]);
        }
    }
    lemma_rule_settles(before, after, edges, vertices, lost);
}

/// Applying a rule whose edges were all still to be considered keeps every
/// edge of `graph` in one of the two graphs.
pub proof fn lemma_rule_keeps_cover(
    graph: Graph,
    before: MatchMerge,
    after: MatchMerge,
    edges: Seq<(usize, usize)>,
    vertices: Seq<usize>,
)
    requires
        graph.wf(),
        before.wf(),
        covers(before, graph),
        rule_applied(before, after, edges, vertices),
        forall|k: int| 0 <= k < edges.len() ==> before.full().spec_has_edge((#[trigger] edges[k]).0, edges[k].1),
    ensures
        covers(after, graph),
{
    let n = graph@.len();
    assert forall|u: int, v: usize| 0 <= u < n && #[trigger] after.mps()@[u].contains(v) implies graph@[u].contains(
        v,
    ) by {
        if !before.mps()@[u].contains(v) {
            let k = choose|k: int|
                #![trigger edges[k]]
                0 <= k < edges.len() && (edges[k] == (u as usize, v) || edges[k] == (v, u as usize));
            assert(before.full().spec_has_edge(edges[k].0, edges[k].1));
            assert(before.full()@[edges[k].0 as int].contains(edges[k].1));
        }
    }
    assert forall|u: int, v: usize| 0 <= u < n && #[trigger] graph@[u].contains(v) implies after.mps()@[u].contains(v)
        || after.full()@[u].contains(v) by {
        if before.mps()@[u].contains(v) {
        } else {
            assert(before.full()@[u].contains(v));
            if !after.full()@[u].contains(v) {
                let k = choose|k: int|
                    #![trigger edges[k]]
                    0 <= k < edges.len() && (edges[k] == (u as usize, v) || edges[k] == (v, u as usize));
                assert(before.full().spec_has_edge(edges[k].0, edges[k].1));
                assert(before.full()@[edges[k].0 as int].contains(edges[k].1));
                assert(proper_pair(edges[k], n));
                assert(after.mps()@[edges[k].0 as int].contains(edges[k].1));
            }
        }
    }
}

/// The state of a match-and-merge run: the edges still to be considered,
/// the planar subgraph built so far, and the components of its vertices.
pub struct MatchMerge {
    n: usize,
    full: Graph,
    mps: Graph,
    component: Vec<usize>,
    components: Vec<Vec<usize>>,
}

impl MatchMerge {
    /// The edges that no rule has used yet.
    pub closed spec fn full(&self) -> Graph {
        self.full
    }

    /// The subgraph built so far.
    pub closed spec fn mps(&self) -> Graph {
        self.mps
    }

    /// The component of every vertex.
    pub closed spec fn component(&self) -> Seq<usize> {
        self.component@
    }

    /// The member lists agree with the component of every vertex: each
    /// component lists its vertices, each once.
    pub closed spec fn members_listed(&self) -> bool {
        &&& self.n == self.component@.len()
        &&& self.components@.len() == self.component@.len()
        &&& forall|c: int| 0 <= c < self.components@.len() ==> (#[trigger] self.components@[c])@.no_duplicates()
        &&& forall|c: int, k: int|
            0 <= c < self.components@.len() && 0 <= k < self.components@[c]@.len() ==> {
                &&& (#[trigger] self.components@[c]@[k]) < self.component@.len()
                &&& self.component@[self.components@[c]@[k] as int] == c
            }
        &&& forall|x: int|
            0 <= x < self.component@.len() ==> self.components@[(#[trigger] self.component@[x]) as int]@.contains(
                x as usize,
            )
    }

    /// Both graphs are well formed on the same vertices, every vertex has a
    /// component, and the member lists agree.
    pub open spec fn wf(&self) -> bool {
        &&& self.full().wf()
        &&& self.mps().wf()
        &&& self.full()@.len() == self.component().len()
        &&& self.mps()@.len() == self.component().len()
        &&& forall|x: int| 0 <= x < self.component().len() ==> (#[trigger] self.component()[x]) < self.component().len()
        &&& self.members_listed()
    }

    /// Vertices of one component are connected in the subgraph built so far.
    pub open spec fn linked(&self) -> bool {
        forall|a: usize, b: usize|
            a < self.component().len() && b < self.component().len() && #[trigger] self.component()[a as int]
                == #[trigger] self.component()[b as int] ==> connected(self.mps()@, a, b)
    }

    /// The ends of every edge of the subgraph lie in one component, and every
    /// label of a component is a vertex of that component.
    pub open spec fn settled(&self) -> bool {
        &&& forall|a: int, b: usize|
            0 <= a < self.component().len() && #[trigger] self.mps()@[a].contains(b) ==> self.component()[a]
                == self.component()[b as int]
        &&& forall|x: int|
            0 <= x < self.component().len() ==> self.component()[(#[trigger] self.component()[x]) as int]
                == self.component()[x]
    }

    /// The number of components.
    pub open spec fn components_left(&self) -> nat {
        count_true(own_roots(self.component()))
    }

    /// Starts a run on `g`: all edges are still to be considered, the
    /// subgraph has no edge, and every vertex is a component of its own.
    pub fn new(g: &Graph) -> (mm: MatchMerge)
        requires
            g.wf(),
        ensures
            mm.wf(),
            mm.linked(),
            mm.full()@ == g@,
            mm.full().spec_num_of_edges() == g.spec_num_of_edges(),
            mm.mps()@.len() == g@.len(),
            mm.mps().spec_num_of_edges() == 0,
            forall|u: int| 0 <= u < g@.len() ==> #[trigger] mm.mps()@[u] == Set::<usize>::empty(),
            forall|x: int| 0 <= x < g@.len() ==> #[trigger] mm.component()[x] == x,
            mm.settled(),
            mm.components_left() == g@.len(),
    {
        let n = g.num_of_vertices();
        let full = g.clone();
        let mps = Graph::empty(n);
        let mut component: Vec<usize> = Vec::with_capacity(n);
        let mut components: Vec<Vec<usize>> = Vec::with_capacity(n);
        let mut x: usize = 0;
        while x < n
            invariant
                x <= n,
                component@.len() == x,
                components@.len() == x,
                forall|i: int| 0 <= i < x ==> #[trigger] component@[i] == i,
                forall|i: int| 0 <= i < x ==> (#[trigger] components@[i])@ == seq![i as usize],
            decreases n - x,
        {
            component.push(x);
            components.push(vec![x]);
            x += 1;
        }
        let mm = MatchMerge { n, full, mps, component, components };
        proof {
            assert forall|x: int| 0 <= x < mm.component@.len() implies mm.components@[(
            #[trigger] mm.component@[x]) as int]@.contains(x as usize) by {
                assert(mm.components@[x]@[0] == x);
            }
            assert forall|a: usize, b: usize|
                a < mm.component().len() && b < mm.component().len() && #[trigger] mm.component()[a as int]
                    == #[trigger] mm.component()[b as int] implies connected(mm.mps()@, a, b) by {
                lemma_connected_refl(mm.mps()@, a);
            }
            lemma_count_true_all(own_roots(mm.component()));
        }
        mm
    }

    /// Gives up the state and returns the subgraph built so far.
    pub fn into_mps(self) -> (mps: Graph)
        ensures
            mps == self.mps(),
    {
        self.mps
    }

    /// Whether no two of the listed vertices are in the same component.
    pub fn all_different_components(&self, vertices: &[usize]) -> (r: bool)
        requires
            self.wf(),
            forall|i: int| 0 <= i < vertices@.len() ==> (#[trigger] vertices@[i]) < self.component().len(),
        ensures
            r == all_different(self.component(), vertices@),
    {
        let n = vertices.len();
        let mut i: usize = 0;
        while i < n
            invariant
                i <= n,
                n == vertices@.len(),
                self.wf(),
                forall|k: int| 0 <= k < vertices@.len() ==> (#[trigger] vertices@[k]) < self.component@.len(),
                forall|a: int, b: int|
                    0 <= a < b < n && a < i ==> self.component@[vertices@[a] as int] != self.component@[vertices@[b] as int],
            decreases n - i,
        {
            let mut j: usize = i + 1;
            while j < n
                invariant
                    i < j <= n,
                    n == vertices@.len(),
                    self.wf(),
                    forall|k: int| 0 <= k < vertices@.len() ==> (#[trigger] vertices@[k]) < self.component@.len(),
                    forall|a: int, b: int|
                        0 <= a < b < n && a < i ==> self.component@[vertices@[a] as int]
                            != self.component@[vertices@[b] as int],
                    forall|b: int|
                        i < b < j ==> self.component@[vertices@[i as int] as int] != self.component@[vertices@[b] as int],
                decreases n - j,
            {
                if self.component[vertices[i]] == self.component[vertices[j]] {
                    return false;
                }
                j += 1;
            }
            i += 1;
        }
        true
    }

    /// Merges the components of the listed vertices into the component of
    /// the first of them.
    pub fn connect_components(&mut self, vs: &[usize])
        requires
            old(self).wf(),
            forall|i: int| 0 <= i < vs@.len() ==> (#[trigger] vs@[i]) < old(self).component().len(),
        ensures
            final(self).wf(),
            final(self).full() == old(self).full(),
            final(self).mps() == old(self).mps(),
            final(self).component().len() == old(self).component().len(),
            forall|z: int|
                0 <= z < old(self).component().len() ==> #[trigger] final(self).component()[z] == merged_component(
                    old(self).component(),
                    vs@,
                    vs@.len() as int,
                    z,
                ),
    {
        if vs.len() <= 1 {
            proof {
                assert forall|z: int| 0 <= z < self.component().len() implies #[trigger] self.component()[z]
                    == merged_component(self.component(), vs@, vs@.len() as int, z) by {
                    if absorbed(self.component(), vs@, vs@.len() as int, z) {
                    }
                }
            }
            return ;
        }
        let n = vs.len();
        let u = vs[0];
        let u_comp = self.component[u];
        let ghost start = self.component@;
        assert(self.component()[u as int] < start.len());
        let mut v: usize = 1;
        proof {
            assert forall|z: int| 0 <= z < start.len() implies #[trigger] self.component@[z] == merged_component(
                start,
                vs@,
                1,
                z,
            ) by {
                if absorbed(start, vs@, 1, z) {
                }
            }
        }
        while v < n
            invariant
                1 <= v <= n,
                n == vs@.len(),
                u == vs@[0],
                u_comp == start[u as int],
                u_comp < start.len(),
                start == old(self).component(),
                self.wf(),
                self.full() == old(self).full(),
                self.mps() == old(self).mps(),
                self.component@.len() == start.len(),
                forall|i: int| 0 <= i < vs@.len() ==> (#[trigger] vs@[i]) < start.len(),
                forall|z: int|
                    0 <= z < start.len() ==> #[trigger] self.component@[z] == merged_component(start, vs@, v as int, z),
            decreases n - v,
        {
            let v_comp = self.component[vs[v]];
            let ghost before = self.component@;
            if v_comp != u_comp {
                proof {
                    assert(!absorbed(start, vs@, v as int, vs@[v as int] as int));
                    assert(v_comp == start[vs@[v as int] as int]);
                    assert(self.component()[vs@[v as int] as int] < start.len());
                }
                loop
                    invariant
                        v < n,
                        n == vs@.len(),
                        v_comp != u_comp,
                        u_comp < start.len(),
                        v_comp < start.len(),
                        self.wf(),
                        self.full() == old(self).full(),
                        self.mps() == old(self).mps(),
                        self.component@.len() == start.len(),
                        before.len() == start.len(),
                        forall|z: int|
                            0 <= z < start.len() ==> #[trigger] self.component@[z] == (if before[z] == v_comp
                                && self.component@[z] != v_comp {
                                u_comp
                            } else {
                                before[z]
                            }),
                    ensures
                        self.components@[v_comp as int]@.len() == 0,
                    decreases self.components@[v_comp as int]@.len(),
                {
                    let ghost list = self.components@[v_comp as int]@;
                    let ghost target = self.components@[u_comp as int]@;
                    let ghost comp = self.component@;
                    let popped = self.components[v_comp].pop();
                    match popped {
                        Some(x) => {
                            proof {
                                assert(x == list[list.len() - 1]);
                                assert(comp[x as int] == v_comp);
                                if target.contains(x) {
                                    let k = choose|k: int| 0 <= k < target.len() && target[k] == x;
                                    assert(self.components@[u_comp as int]@[k] == x);
                                }
                                lemma_push_no_duplicates(target, x);
                                lemma_push_contains(target, x);
                            }
                            self.component[x] = u_comp;
                            self.components[u_comp].push(x);
                            proof {
                                let lists = self.components@;
                                assert(lists[v_comp as int]@ == list.drop_last());
                                assert(lists[u_comp as int]@ == target.push(x));
                                assert forall|c: int| 0 <= c < lists.len() implies (#[trigger] lists[c])@.no_duplicates() by {
                                }
                                assert forall|c: int, k: int| 0 <= c < lists.len() && 0 <= k < lists[c]@.len() implies {
                                    &&& (#[trigger] lists[c]@[k]) < self.component@.len()
                                    &&& self.component@[lists[c]@[k] as int] == c
                                } by {
                                    if c == v_comp {
                                        assert(lists[c]@[k] == list[k]);
                                        assert(list[k] != x);
                                    } else if c == u_comp {
                                        if k < target.len() {
                                            assert(lists[c]@[k] == target[k]);
                                        }
                                    }
                                }
                                assert forall|y: int| 0 <= y < self.component@.len() implies lists[(
                                #[trigger] self.component@[y]) as int]@.contains(y as usize) by {
                                    if y == x {
                                    } else {
                                        let c = comp[y];
                                        assert(self.component@[y] == c);
                                        if c == v_comp {
                                            let k = choose|k: int| 0 <= k < list.len() && list[k] == y as usize;
                                            assert(k < list.len() - 1);
                                            assert(list.drop_last()[k] == y as usize);
                                        } else if c == u_comp {
                                        } else {
                                        }
                                    }
                                }
                            }
                        },
                        None => {
                            break ;
                        },
                    }
                }
                proof {
                    assert(self.components@[v_comp as int]@.len() == 0);
                    assert forall|z: int| 0 <= z < start.len() implies #[trigger] self.component@[z] != v_comp by {
                        if self.component@[z] == v_comp {
                            assert(self.components@[self.component@[z] as int]@.contains(z as usize));
                        }
                    }
                }
            }
            proof {
                assert forall|z: int| 0 <= z < start.len() implies #[trigger] self.component@[z] == merged_component(
                    start,
                    vs@,
                    v + 1,
                    z,
                ) by {
                    assert(before[z] == merged_component(start, vs@, v as int, z));
                    if absorbed(start, vs@, v as int, z) {
                        let i = choose|i: int| 0 <= i < v && start[z] == start[#[trigger] vs@[i] as int];
                        assert(absorbed(start, vs@, v + 1, z));
                    } else if start[z] == start[vs@[v as int] as int] {
                        assert(absorbed(start, vs@, v + 1, z));
                        if v_comp == u_comp {
                            assert(before[vs@[v as int] as int] == merged_component(
                                start,
                                vs@,
                                v as int,
                                vs@[v as int] as int,
                            ));
                            if absorbed(start, vs@, v as int, vs@[v as int] as int) {
                                let i = choose|i: int|
                                    0 <= i < v && start[vs@[v as int] as int] == start[#[trigger] vs@[i] as int];
                                assert(absorbed(start, vs@, v as int, z));
                            } else {
                                assert(start[z] == start[vs@[0] as int]);
                                assert(absorbed(start, vs@, v as int, z));
                            }
                        }
                    } else {
                        if absorbed(start, vs@, v + 1, z) {
                            let i = choose|i: int| 0 <= i < v + 1 && start[z] == start[#[trigger] vs@[i] as int];
                            assert(i < v);
                            assert(absorbed(start, vs@, v as int, z));
                        }
                    }
                }
            }
            v += 1;
        }
    }
    /// Moves the listed edges from the edges to be considered into the
    /// subgraph, then merges the components of the listed vertices.
    pub fn apply_rule(&mut self, edges: &[(usize, usize)], vertices: &[usize])
        requires
            old(self).wf(),
            forall|i: int| 0 <= i < vertices@.len() ==> (#[trigger] vertices@[i]) < old(self).component().len(),
        ensures
            rule_applied(*old(self), *final(self), edges@, vertices@),
            fresh(*old(self), edges@) ==> final(self).mps().spec_num_of_edges() == old(self).mps().spec_num_of_edges()
                + edges@.len(),
    {
        let ghost n = self.component().len();
        let mut k: usize = 0;
        while k < edges.len()
            invariant
                k <= edges@.len(),
                self.wf(),
                n == old(self).component().len(),
                self.component() == old(self).component(),
                self.mps()@.len() == n,
                self.full()@.len() == n,
                edges_moved(*old(self), *self, edges@.take(k as int)),
                fresh(*old(self), edges@) ==> self.mps().spec_num_of_edges() == old(self).mps().spec_num_of_edges() + k,
            decreases edges@.len() - k,
        {
            let (u, v) = edges[k];
            let ghost mid = *self;
            let ghost done = edges@.take(k as int);
            let ghost next = edges@.take(k + 1);
            proof {
                if fresh(*old(self), edges@) {
                    assert(proper_pair(edges@[k as int], n));
                    if mid.mps()@[u as int].contains(v) {
                        assert(listed(done, u, v));
                        let j = choose|j: int|
                            #![trigger done[j]]
                            0 <= j < done.len() && (done[j] == (u, v) || done[j] == (v, u));
                        assert(edges@[j] == done[j]);
                    }
                }
            }
            self.mps.add_edge(u, v);
            self.full.remove_edge(u, v);
            proof {
                assert(next == done.push((u, v)));
                assert(forall|j: int| 0 <= j < k ==> next[j] == done[j]);
                assert(next[k as int] == (u, v));
                if u < n && v < n && u != v {
                    lemma_edge_change(mid.mps()@, u, v);
                    lemma_edge_change(mid.full()@, u, v);
                }
                assert forall|a: usize, b: usize| listed(done, a, b) implies listed(next, a, b) by {
                    let j = choose|j: int|
                        #![trigger done[j]]
                        0 <= j < done.len() && (done[j] == (a, b) || done[j] == (b, a));
                    assert(next[j] == done[j]);
                }
                assert(listed(next, u, v) && listed(next, v, u)) by {
                    assert(next[k as int] == (u, v));
                }
                assert forall|a: int, b: usize| 0 <= a < n && #[trigger] self.mps()@[a].contains(b) implies old(
                    self,
                ).mps()@[a].contains(b) || listed(next, a as usize, b) by {
                    if mid.mps()@[a].contains(b) {
                        if !old(self).mps()@[a].contains(b) {
                            assert(listed(done, a as usize, b));
                        }
                    }
                }
                assert forall|a: int, b: usize| 0 <= a < n && #[trigger] old(self).full()@[a].contains(b) implies self.full()@[a].contains(
                    b,
                ) || listed(next, a as usize, b) by {
                    if !mid.full()@[a].contains(b) {
                        assert(listed(done, a as usize, b));
                    }
                }
                assert forall|j: int| 0 <= j < next.len() && proper_pair(#[trigger] next[j], n) implies self.mps()@[next[j].0 as int].contains(
                    next[j].1,
                ) && !self.full()@[next[j].0 as int].contains(next[j].1) by {
                    if j < k {
                        assert(done[j] == next[j]);
                        assert(mid.mps()@[done[j].0 as int].contains(done[j].1));
                        assert(!mid.full()@[done[j].0 as int].contains(done[j].1));
                    }
                }
                if k > 0 {
                    assert(done[0] == next[0]);
                }
            }
            k += 1;
        }
        assert(edges@.take(edges@.len() as int) == edges@);
        self.connect_components(vertices);
    }

    /// Applies the rule of the fan on five vertices: `x` is joined to `y`,
    /// `z`, `w`, `t`, which form a path in this order.
    pub fn apply_my_rule(&mut self, x: usize, y: usize, z: usize, w: usize, t: usize)
        requires
            old(self).wf(),
            x < old(self).component().len(),
            y < old(self).component().len(),
            z < old(self).component().len(),
            w < old(self).component().len(),
            t < old(self).component().len(),
        ensures
            rule_applied(
                *old(self),
                *final(self),
                seq![(x, y), (x, z), (x, w), (x, t), (y, z), (z, w), (w, t)],
                seq![x, y, z, w, t],
            ),
            old(self).linked() ==> final(self).linked(),
            old(self).settled() && old(self).my_match(x, y, z, w, t) ==> final(self).settled() && final(self).mps().spec_num_of_edges()
                == old(self).mps().spec_num_of_edges() + 7 && final(self).components_left() + 4 == old(
                self,
            ).components_left(),
    {
        let edges = [(x, y), (x, z), (x, w), (x, t), (y, z), (z, w), (w, t)];
        let vertices = [x, y, z, w, t];
        self.apply_rule(&edges, &vertices);
        proof {
            assert(edges@ =~= seq![(x, y), (x, z), (x, w), (x, t), (y, z), (z, w), (w, t)]);
            assert(vertices@ =~= seq![x, y, z, w, t]);
            if old(self).linked() {
                assert(star_shaped(edges@, vertices@)) by {
                    assert(edges@[0] == (x, y));
                    assert(edges@[1] == (x, z));
                    assert(edges@[2] == (x, w));
                    assert(edges@[3] == (x, t));
                }
                lemma_rule_keeps_linked(*old(self), *self, edges@, vertices@);
            }
            if old(self).settled() && old(self).my_match(x, y, z, w, t) {
                lemma_my_rule_fresh(*old(self), x, y, z, w, t);
                lemma_my_rule_settles(*old(self), *self, x, y, z, w, t);
            }
        }
    }

    /// Applies the rule of the diamond: `x` is joined to `y`, `z`, `w`, and
    /// `z` to `y` and `w`.
    pub fn apply_d4_rule(&mut self, x: usize, y: usize, z: usize, w: usize)
        requires
            old(self).wf(),
            x < old(self).component().len(),
            y < old(self).component().len(),
            z < old(self).component().len(),
            w < old(self).component().len(),
        ensures
            rule_applied(*old(self), *final(self), seq![(x, y), (x, z), (x, w), (y, z), (w, z)], seq![x, y, z, w]),
            old(self).linked() ==> final(self).linked(),
            old(self).settled() && old(self).d4_match(x, y, z, w) ==> final(self).settled() && final(self).mps().spec_num_of_edges()
                == old(self).mps().spec_num_of_edges() + 5 && final(self).components_left() + 3 == old(
                self,
            ).components_left(),
    {
        let edges = [(x, y), (x, z), (x, w), (y, z), (w, z)];
        let vertices = [x, y, z, w];
        self.apply_rule(&edges, &vertices);
        proof {
            assert(edges@ =~= seq![(x, y), (x, z), (x, w), (y, z), (w, z)]);
            assert(vertices@ =~= seq![x, y, z, w]);
            if old(self).linked() {
                assert(star_shaped(edges@, vertices@)) by {
                    assert(edges@[0] == (x, y));
                    assert(edges@[1] == (x, z));
                    assert(edges@[2] == (x, w));
                }
                lemma_rule_keeps_linked(*old(self), *self, edges@, vertices@);
            }
            if old(self).settled() && old(self).d4_match(x, y, z, w) {
                lemma_d4_rule_fresh(*old(self), x, y, z, w);
                lemma_d4_rule_settles(*old(self), *self, x, y, z, w);
            }
        }
    }

    /// Applies the rule of the triangle on `u`, `v`, `w`.
    pub fn apply_k3_rule(&mut self, u: usize, v: usize, w: usize)
        requires
            old(self).wf(),
            u < old(self).component().len(),
            v < old(self).component().len(),
            w < old(self).component().len(),
        ensures
            rule_applied(*old(self), *final(self), seq![(u, v), (v, w), (w, u)], seq![u, v, w]),
            old(self).linked() ==> final(self).linked(),
            old(self).settled() && old(self).k3_match(u, v, w) ==> final(self).settled() && final(self).mps().spec_num_of_edges()
                == old(self).mps().spec_num_of_edges() + 3 && final(self).components_left() + 2 == old(
                self,
            ).components_left(),
    {
        let edges = [(u, v), (v, w), (w, u)];
        let vertices = [u, v, w];
        self.apply_rule(&edges, &vertices);
        proof {
            assert(edges@ =~= seq![(u, v), (v, w), (w, u)]);
            assert(vertices@ =~= seq![u, v, w]);
            if old(self).linked() {
                assert(star_shaped(edges@, vertices@)) by {
                    assert(edges@[0] == (u, v));
                    assert(edges@[2] == (w, u));
                }
                lemma_rule_keeps_linked(*old(self), *self, edges@, vertices@);
            }
            if old(self).settled() && old(self).k3_match(u, v, w) {
                lemma_k3_rule_fresh(*old(self), u, v, w);
                lemma_k3_rule_settles(*old(self), *self, u, v, w);
            }
        }
    }

    /// Applies the rule that joins `u` to both ends `v`, `w` of an edge of
    /// the subgraph.
    pub fn apply_poranen_rule(&mut self, u: usize, v: usize, w: usize)
        requires
            old(self).wf(),
            u < old(self).component().len(),
            v < old(self).component().len(),
            w < old(self).component().len(),
        ensures
            rule_applied(*old(self), *final(self), seq![(u, v), (u, w)], seq![u, v, w]),
            old(self).linked() ==> final(self).linked(),
            old(self).settled() && old(self).poranen_match(u, v, w) ==> final(self).settled() && final(self).mps().spec_num_of_edges()
                == old(self).mps().spec_num_of_edges() + 2 && final(self).components_left() + 1 == old(
                self,
            ).components_left(),
    {
        let edges = [(u, v), (u, w)];
        let vertices = [u, v, w];
        self.apply_rule(&edges, &vertices);
        proof {
            assert(edges@ =~= seq![(u, v), (u, w)]);
            assert(vertices@ =~= seq![u, v, w]);
            if old(self).linked() {
                assert(star_shaped(edges@, vertices@)) by {
                    assert(edges@[0] == (u, v));
                    assert(edges@[1] == (u, w));
                }
                lemma_rule_keeps_linked(*old(self), *self, edges@, vertices@);
            }
            if old(self).settled() && old(self).poranen_match(u, v, w) {
                lemma_poranen_rule_fresh(*old(self), u, v, w);
                lemma_poranen_rule_settles(*old(self), *self, u, v, w);
            }
        }
    }

    /// Applies the rule of the single edge between `u` and `v`.
    pub fn apply_k2_rule(&mut self, u: usize, v: usize)
        requires
            old(self).wf(),
            u < old(self).component().len(),
            v < old(self).component().len(),
        ensures
            rule_applied(*old(self), *final(self), seq![(u, v)], seq![u, v]),
            old(self).linked() ==> final(self).linked(),
            old(self).settled() && old(self).k2_match(u, v) ==> final(self).settled() && final(self).mps().spec_num_of_edges()
                == old(self).mps().spec_num_of_edges() + 1 && final(self).components_left() + 1 == old(
                self,
            ).components_left(),
    {
        let edges = [(u, v)];
        let vertices = [u, v];
        self.apply_rule(&edges, &vertices);
        proof {
            assert(edges@ =~= seq![(u, v)]);
            assert(vertices@ =~= seq![u, v]);
            if old(self).linked() {
                assert(star_shaped(edges@, vertices@)) by {
                    assert(edges@[0] == (u, v));
                }
                lemma_rule_keeps_linked(*old(self), *self, edges@, vertices@);
            }
            if old(self).settled() && old(self).k2_match(u, v) {
                lemma_k2_rule_fresh(*old(self), u, v);
                lemma_k2_rule_settles(*old(self), *self, u, v);
            }
        }
    }
    /// The single edge `x`-`y` is still to be considered and joins two
    /// components.
    pub open spec fn k2_match(&self, x: usize, y: usize) -> bool {
        &&& self.full().spec_has_edge(x, y)
        &&& all_different(self.component(), seq![x, y])
    }

    /// The triangle `x`, `y`, `z` is still to be considered and its vertices
    /// lie in three components.
    pub open spec fn k3_match(&self, x: usize, y: usize, z: usize) -> bool {
        &&& self.full().spec_has_edge(x, y)
        &&& self.full().spec_has_edge(x, z)
        &&& y != z
        &&& self.full().spec_has_edge(y, z)
        &&& all_different(self.component(), seq![x, y, z])
    }

    /// The edges `x`-`y` and `x`-`z` are still to be considered, `y`-`z` is
    /// an edge of the subgraph, and `x` and `y` lie in two components.
    pub open spec fn poranen_match(&self, x: usize, y: usize, z: usize) -> bool {
        &&& self.full().spec_has_edge(x, y)
        &&& self.full().spec_has_edge(x, z)
        &&& y != z
        &&& self.mps().spec_has_edge(y, z)
        &&& all_different(self.component(), seq![x, y])
    }

    /// The diamond with the centre `x` and the path `y`, `z`, `w` is still to
    /// be considered and its vertices lie in four components.
    pub open spec fn d4_match(&self, x: usize, y: usize, z: usize, w: usize) -> bool {
        &&& self.full().spec_has_edge(x, y)
        &&& self.full().spec_has_edge(x, z)
        &&& self.full().spec_has_edge(x, w)
        &&& y != z && y != w && z != w
        &&& self.full().spec_has_edge(y, z)
        &&& self.full().spec_has_edge(z, w)
        &&& all_different(self.component(), seq![x, y, z, w])
    }

    /// The fan with the centre `x` and the path `y`, `z`, `w`, `t` is still
    /// to be considered and its vertices lie in five components.
    pub open spec fn my_match(&self, x: usize, y: usize, z: usize, w: usize, t: usize) -> bool {
        &&& self.full().spec_has_edge(x, y)
        &&& self.full().spec_has_edge(x, z)
        &&& self.full().spec_has_edge(x, w)
        &&& self.full().spec_has_edge(x, t)
        &&& y != z && w != y && w != z && t != y && t != z && t != w
        &&& self.full().spec_has_edge(y, z)
        &&& self.full().spec_has_edge(z, w)
        &&& self.full().spec_has_edge(w, t)
        &&& all_different(self.component(), seq![x, y, z, w, t])
    }

    /// Looks for a fan on five vertices in five components.
    pub fn find_my_rule(&self) -> (r: Option<(usize, usize, usize, usize, usize)>)
        requires
            self.wf(),
        ensures
            match r {
                Some((x, y, z, w, t)) => self.my_match(x, y, z, w, t),
                None => forall|x: usize, y: usize, z: usize, w: usize, t: usize| !self.my_match(x, y, z, w, t),
            },
    {
        let mut x: usize = 0;
        while x < self.n
            invariant
                x <= self.n,
                self.wf(),
                forall|a: usize, y: usize, z: usize, w: usize, t: usize| a < x ==> !self.my_match(a, y, z, w, t),
            decreases self.n - x,
        {
            let nb = self.full.neighbor_list(x);
            let mut i: usize = 0;
            while i < nb.len()
                invariant
                    i <= nb@.len(),
                    x < self.n,
                    self.wf(),
                    nb@.to_set() == self.full()@[x as int],
                    forall|i2: int, z: usize, w: usize, t: usize|
                        #![trigger self.my_match(x, nb@[i2], z, w, t)]
                        0 <= i2 < i ==> !self.my_match(x, nb@[i2], z, w, t),
                decreases nb@.len() - i,
            {
                let y = nb[i];
                assert(nb@.to_set().contains(y));
                assert(self.full()@[x as int].contains(y));
                let mut j: usize = 0;
                while j < nb.len()
                    invariant
                        j <= nb@.len(),
                        x < self.n,
                        y < self.n,
                        self.full()@[x as int].contains(y),
                        self.wf(),
                        nb@.to_set() == self.full()@[x as int],
                        forall|j2: int, w: usize, t: usize|
                            #![trigger self.my_match(x, y, nb@[j2], w, t)]
                            0 <= j2 < j ==> !self.my_match(x, y, nb@[j2], w, t),
                    decreases nb@.len() - j,
                {
                    let z = nb[j];
                    assert(nb@.to_set().contains(z));
                    assert(self.full()@[x as int].contains(z));
                    if y != z && self.full.has_edge(y, z) {
                        let mut k: usize = 0;
                        while k < nb.len()
                            invariant
                                k <= nb@.len(),
                                x < self.n,
                                y < self.n,
                                self.full()@[x as int].contains(y),
                                z < self.n,
                                self.full()@[x as int].contains(z),
                                self.wf(),
                                nb@.to_set() == self.full()@[x as int],
                                y != z,
                                self.full()@[y as int].contains(z),
                                forall|k2: int, t: usize|
                                    #![trigger self.my_match(x, y, z, nb@[k2], t)]
                                    0 <= k2 < k ==> !self.my_match(x, y, z, nb@[k2], t),
                            decreases nb@.len() - k,
                        {
                            let w = nb[k];
                            assert(nb@.to_set().contains(w));
                            assert(self.full()@[x as int].contains(w));
                            if w != y && w != z && self.full.has_edge(z, w) {
                                let mut l: usize = 0;
                                while l < nb.len()
                                    invariant
                                        l <= nb@.len(),
                                        x < self.n,
                                        y < self.n,
                                        self.full()@[x as int].contains(y),
                                        z < self.n,
                                        self.full()@[x as int].contains(z),
                                        w < self.n,
                                        self.full()@[x as int].contains(w),
                                        self.wf(),
                                        nb@.to_set() == self.full()@[x as int],
                                        y != z && w != y && w != z,
                                        self.full()@[y as int].contains(z),
                                        self.full()@[z as int].contains(w),
                                        forall|l2: int|
                                            #![trigger self.my_match(x, y, z, w, nb@[l2])]
                                            0 <= l2 < l ==> !self.my_match(x, y, z, w, nb@[l2]),
                                    decreases nb@.len() - l,
                                {
                                    let t = nb[l];
                                    assert(nb@.to_set().contains(t));
                                    assert(self.full()@[x as int].contains(t));
                                    if t != y && t != z && t != w && self.full.has_edge(w, t) {
                                        let vertices = [x, y, z, w, t];
                                        assert(vertices@ =~= seq![x, y, z, w, t]);
                                        if self.all_different_components(&vertices) {
                                            return Some((x, y, z, w, t));
                                        }
                                    }
                                    l += 1;
                                }
                                proof {
                                    assert forall|t: usize| !self.my_match(x, y, z, w, t) by {
                                        if self.my_match(x, y, z, w, t) {
                                            assert(nb@.to_set().contains(t));
                                            let l2 = choose|l2: int| 0 <= l2 < nb@.len() && nb@[l2] == t;
                                            assert(!self.my_match(x, y, z, w, nb@[l2]));
                                        }
                                    }
                                }
                            }
                            k += 1;
                        }
                        proof {
                            assert forall|w: usize, t: usize| !self.my_match(x, y, z, w, t) by {
                                if self.my_match(x, y, z, w, t) {
                                    assert(nb@.to_set().contains(w));
                                    let k2 = choose|k2: int| 0 <= k2 < nb@.len() && nb@[k2] == w;
                                    assert(!self.my_match(x, y, z, nb@[k2], t));
                                }
                            }
                        }
                    }
                    j += 1;
                }
                proof {
                    assert forall|z: usize, w: usize, t: usize| !self.my_match(x, y, z, w, t) by {
                        if self.my_match(x, y, z, w, t) {
                            assert(nb@.to_set().contains(z));
                            let j2 = choose|j2: int| 0 <= j2 < nb@.len() && nb@[j2] == z;
                            assert(!self.my_match(x, y, nb@[j2], w, t));
                        }
                    }
                }
                i += 1;
            }
            proof {
                assert forall|y: usize, z: usize, w: usize, t: usize| !self.my_match(x, y, z, w, t) by {
                    if self.my_match(x, y, z, w, t) {
                        assert(nb@.to_set().contains(y));
                        let i2 = choose|i2: int| 0 <= i2 < nb@.len() && nb@[i2] == y;
                        assert(!self.my_match(x, nb@[i2], z, w, t));
                    }
                }
            }
            x += 1;
        }
        None
    }

    /// Looks for a diamond on four vertices in four components.
    pub fn find_d4_rule(&self) -> (r: Option<(usize, usize, usize, usize)>)
        requires
            self.wf(),
        ensures
            match r {
                Some((x, y, z, w)) => self.d4_match(x, y, z, w),
                None => forall|x: usize, y: usize, z: usize, w: usize| !self.d4_match(x, y, z, w),
            },
    {
        let mut x: usize = 0;
        while x < self.n
            invariant
                x <= self.n,
                self.wf(),
                forall|a: usize, y: usize, z: usize, w: usize| a < x ==> !self.d4_match(a, y, z, w),
            decreases self.n - x,
        {
            let nb = self.full.neighbor_list(x);
            let mut i: usize = 0;
            while i < nb.len()
                invariant
                    i <= nb@.len(),
                    x < self.n,
                    self.wf(),
                    nb@.to_set() == self.full()@[x as int],
                    forall|i2: int, z: usize, w: usize|
                        #![trigger self.d4_match(x, nb@[i2], z, w)]
                        0 <= i2 < i ==> !self.d4_match(x, nb@[i2], z, w),
                decreases nb@.len() - i,
            {
                let y = nb[i];
                assert(nb@.to_set().contains(y));
                assert(self.full()@[x as int].contains(y));
                let mut j: usize = 0;
                while j < nb.len()
                    invariant
                        j <= nb@.len(),
                        x < self.n,
                        y < self.n,
                        self.full()@[x as int].contains(y),
                        self.wf(),
                        nb@.to_set() == self.full()@[x as int],
                        forall|j2: int, w: usize|
                            #![trigger self.d4_match(x, y, nb@[j2], w)]
                            0 <= j2 < j ==> !self.d4_match(x, y, nb@[j2], w),
                    decreases nb@.len() - j,
                {
                    let z = nb[j];
                    assert(nb@.to_set().contains(z));
                    assert(self.full()@[x as int].contains(z));
                    if y != z && self.full.has_edge(y, z) {
                        let mut k: usize = 0;
                        while k < nb.len()
                            invariant
                                k <= nb@.len(),
                                x < self.n,
                                y < self.n,
                                self.full()@[x as int].contains(y),
                                z < self.n,
                                self.full()@[x as int].contains(z),
                                self.wf(),
                                nb@.to_set() == self.full()@[x as int],
                                y != z,
                                self.full()@[y as int].contains(z),
                                forall|k2: int|
                                    #![trigger self.d4_match(x, y, z, nb@[k2])]
                                    0 <= k2 < k ==> !self.d4_match(x, y, z, nb@[k2]),
                            decreases nb@.len() - k,
                        {
                            let w = nb[k];
                            assert(nb@.to_set().contains(w));
                            assert(self.full()@[x as int].contains(w));
                            if w != y && w != z && self.full.has_edge(z, w) {
                                let vertices = [x, y, z, w];
                                assert(vertices@ =~= seq![x, y, z, w]);
                                if self.all_different_components(&vertices) {
                                    return Some((x, y, z, w));
                                }
                            }
                            k += 1;
                        }
                        proof {
                            assert forall|w: usize| !self.d4_match(x, y, z, w) by {
                                if self.d4_match(x, y, z, w) {
                                    assert(nb@.to_set().contains(w));
                                    let k2 = choose|k2: int| 0 <= k2 < nb@.len() && nb@[k2] == w;
                                    assert(!self.d4_match(x, y, z, nb@[k2]));
                                }
                            }
                        }
                    }
                    j += 1;
                }
                proof {
                    assert forall|z: usize, w: usize| !self.d4_match(x, y, z, w) by {
                        if self.d4_match(x, y, z, w) {
                            assert(nb@.to_set().contains(z));
                            let j2 = choose|j2: int| 0 <= j2 < nb@.len() && nb@[j2] == z;
                            assert(!self.d4_match(x, y, nb@[j2], w));
                        }
                    }
                }
                i += 1;
            }
            proof {
                assert forall|y: usize, z: usize, w: usize| !self.d4_match(x, y, z, w) by {
                    if self.d4_match(x, y, z, w) {
                        assert(nb@.to_set().contains(y));
                        let i2 = choose|i2: int| 0 <= i2 < nb@.len() && nb@[i2] == y;
                        assert(!self.d4_match(x, nb@[i2], z, w));
                    }
                }
            }
            x += 1;
        }
        None
    }

    /// Looks for a triangle on three vertices in three components.
    pub fn find_k3_rule(&self) -> (r: Option<(usize, usize, usize)>)
        requires
            self.wf(),
        ensures
            match r {
                Some((x, y, z)) => self.k3_match(x, y, z),
                None => forall|x: usize, y: usize, z: usize| !self.k3_match(x, y, z),
            },
    {
        let mut x: usize = 0;
        while x < self.n
            invariant
                x <= self.n,
                self.wf(),
                forall|a: usize, y: usize, z: usize| a < x ==> !self.k3_match(a, y, z),
            decreases self.n - x,
        {
            let nb = self.full.neighbor_list(x);
            let mut i: usize = 0;
            while i < nb.len()
                invariant
                    i <= nb@.len(),
                    x < self.n,
                    self.wf(),
                    nb@.to_set() == self.full()@[x as int],
                    forall|i2: int, z: usize|
                        #![trigger self.k3_match(x, nb@[i2], z)]
                        0 <= i2 < i ==> !self.k3_match(x, nb@[i2], z),
                decreases nb@.len() - i,
            {
                let y = nb[i];
                assert(nb@.to_set().contains(y));
                assert(self.full()@[x as int].contains(y));
                let mut j: usize = 0;
                while j < nb.len()
                    invariant
                        j <= nb@.len(),
                        x < self.n,
                        y < self.n,
                        self.full()@[x as int].contains(y),
                        self.wf(),
                        nb@.to_set() == self.full()@[x as int],
                        forall|j2: int|
                            #![trigger self.k3_match(x, y, nb@[j2])]
                            0 <= j2 < j ==> !self.k3_match(x, y, nb@[j2]),
                    decreases nb@.len() - j,
                {
                    let z = nb[j];
                    assert(nb@.to_set().contains(z));
                    assert(self.full()@[x as int].contains(z));
                    if y != z {
                        if self.full.has_edge(y, z) {
                            let vertices = [x, y, z];
                            assert(vertices@ =~= seq![x, y, z]);
                            if self.all_different_components(&vertices) {
                                return Some((x, y, z));
                            }
                        }
                    }
                    j += 1;
                }
                proof {
                    assert forall|z: usize| !self.k3_match(x, y, z) by {
                        if self.k3_match(x, y, z) {
                            assert(nb@.to_set().contains(z));
                            let j2 = choose|j2: int| 0 <= j2 < nb@.len() && nb@[j2] == z;
                            assert(!self.k3_match(x, y, nb@[j2]));
                        }
                    }
                }
                i += 1;
            }
            proof {
                assert forall|y: usize, z: usize| !self.k3_match(x, y, z) by {
                    if self.k3_match(x, y, z) {
                        assert(nb@.to_set().contains(y));
                        let i2 = choose|i2: int| 0 <= i2 < nb@.len() && nb@[i2] == y;
                        assert(!self.k3_match(x, nb@[i2], z));
                    }
                }
            }
            x += 1;
        }
        None
    }

    /// Looks for a vertex with two neighbours that are joined in the
    /// subgraph, one of them in another component.
    pub fn find_poranen_rule(&self) -> (r: Option<(usize, usize, usize)>)
        requires
            self.wf(),
        ensures
            match r {
                Some((x, y, z)) => self.poranen_match(x, y, z),
                None => forall|x: usize, y: usize, z: usize| !self.poranen_match(x, y, z),
            },
    {
        let mut x: usize = 0;
        while x < self.n
            invariant
                x <= self.n,
                self.wf(),
                forall|a: usize, y: usize, z: usize| a < x ==> !self.poranen_match(a, y, z),
            decreases self.n - x,
        {
            let nb = self.full.neighbor_list(x);
            let mut i: usize = 0;
            while i < nb.len()
                invariant
                    i <= nb@.len(),
                    x < self.n,
                    self.wf(),
                    nb@.to_set() == self.full()@[x as int],
                    forall|i2: int, z: usize|
                        #![trigger self.poranen_match(x, nb@[i2], z)]
                        0 <= i2 < i ==> !self.poranen_match(x, nb@[i2], z),
                decreases nb@.len() - i,
            {
                let y = nb[i];
                assert(nb@.to_set().contains(y));
                assert(self.full()@[x as int].contains(y));
                let mut j: usize = 0;
                while j < nb.len()
                    invariant
                        j <= nb@.len(),
                        x < self.n,
                        y < self.n,
                        self.full()@[x as int].contains(y),
                        self.wf(),
                        nb@.to_set() == self.full()@[x as int],
                        forall|j2: int|
                            #![trigger self.poranen_match(x, y, nb@[j2])]
                            0 <= j2 < j ==> !self.poranen_match(x, y, nb@[j2]),
                    decreases nb@.len() - j,
                {
                    let z = nb[j];
                    assert(nb@.to_set().contains(z));
                    assert(self.full()@[x as int].contains(z));
                    if y != z {
                        if self.mps.has_edge(y, z) {
                            let vertices = [x, y];
                            assert(vertices@ =~= seq![x, y]);
                            if self.all_different_components(&vertices) {
                                return Some((x, y, z));
                            }
                        }
                    }
                    j += 1;
                }
                proof {
                    assert forall|z: usize| !self.poranen_match(x, y, z) by {
                        if self.poranen_match(x, y, z) {
                            assert(nb@.to_set().contains(z));
                            let j2 = choose|j2: int| 0 <= j2 < nb@.len() && nb@[j2] == z;
                            assert(!self.poranen_match(x, y, nb@[j2]));
                        }
                    }
                }
                i += 1;
            }
            proof {
                assert forall|y: usize, z: usize| !self.poranen_match(x, y, z) by {
                    if self.poranen_match(x, y, z) {
                        assert(nb@.to_set().contains(y));
                        let i2 = choose|i2: int| 0 <= i2 < nb@.len() && nb@[i2] == y;
                        assert(!self.poranen_match(x, nb@[i2], z));
                    }
                }
            }
            x += 1;
        }
        None
    }

    /// Looks for an edge that is still to be considered and joins two
    /// components.
    pub fn find_k2_rule(&self) -> (r: Option<(usize, usize)>)
        requires
            self.wf(),
        ensures
            match r {
                Some((x, y)) => self.k2_match(x, y),
                None => forall|x: usize, y: usize| !self.k2_match(x, y),
            },
    {
        let mut x: usize = 0;
        while x < self.n
            invariant
                x <= self.n,
                self.wf(),
                forall|a: usize, y: usize| a < x ==> !self.k2_match(a, y),
            decreases self.n - x,
        {
            let nb = self.full.neighbor_list(x);
            let mut i: usize = 0;
            while i < nb.len()
                invariant
                    i <= nb@.len(),
                    x < self.n,
                    self.wf(),
                    nb@.to_set() == self.full()@[x as int],
                    forall|i2: int| #![trigger self.k2_match(x, nb@[i2])] 0 <= i2 < i ==> !self.k2_match(x, nb@[i2]),
                decreases nb@.len() - i,
            {
                let y = nb[i];
                assert(nb@.to_set().contains(y));
                assert(self.full()@[x as int].contains(y));
                let vertices = [x, y];
                assert(vertices@ =~= seq![x, y]);
                if self.all_different_components(&vertices) {
                    return Some((x, y));
                }
                i += 1;
            }
            proof {
                assert forall|y: usize| !self.k2_match(x, y) by {
                    if self.k2_match(x, y) {
                        assert(nb@.to_set().contains(y));
                        let i2 = choose|i2: int| 0 <= i2 < nb@.len() && nb@[i2] == y;
                        assert(!self.k2_match(x, nb@[i2]));
                    }
                }
            }
            x += 1;
        }
        None
    }
}

/// Triangles first, then single edges.
pub struct CalinescuMps {}

/// Diamonds first, then triangles, then single edges.
pub struct SchmidMps {}

/// Fans on five vertices first, then diamonds, triangles and single edges.
pub struct MyMps {}

/// Vertices joined to both ends of an edge of the subgraph, and triangles,
/// in turns; then single edges.
pub struct PoranenMps {}

impl MpsAlgorithm for CalinescuMps {
    fn maximum_planar_subgraph(&self, g: &Graph) -> (mps: Graph)
        ensures
            calinescu_result(*g, mps),
    {
        calinescu_basic_mps(g)
    }

    fn name(&self) -> (name: &'static str)
        ensures
            name@ == "Calinescu"@,
    {
        "Calinescu"
    }
}

impl MpsAlgorithm for SchmidMps {
    fn maximum_planar_subgraph(&self, g: &Graph) -> (mps: Graph)
        ensures
            schmid_result(*g, mps),
    {
        schmid_d4_mps(g)
    }

    fn name(&self) -> (name: &'static str)
        ensures
            name@ == "Schmid"@,
    {
        "Schmid"
    }
}

impl MpsAlgorithm for MyMps {
    fn maximum_planar_subgraph(&self, g: &Graph) -> (mps: Graph)
        ensures
            my_result(*g, mps),
    {
        my_mps(g)
    }

    fn name(&self) -> (name: &'static str)
        ensures
            name@ == "My"@,
    {
        "My"
    }
}

impl MpsAlgorithm for PoranenMps {
    fn maximum_planar_subgraph(&self, g: &Graph) -> (mps: Graph)
        ensures
            poranen_result(*g, mps),
    {
        poranen_mps(g)
    }

    fn name(&self) -> (name: &'static str)
        ensures
            name@ == "Poranen"@,
    {
        "Poranen"
    }
}

} // verus!
