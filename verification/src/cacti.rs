//! A heuristic for a large planar subgraph that first glues triangles
//! together at single vertices and then joins what is left by single edges.

use crate::connectivity::{
    arc, connected, lemma_connected_arc, lemma_connected_mono, lemma_connected_refl, lemma_connected_sym,
    lemma_connected_trans, sub_adjacency,
};
use crate::graphs::{
    between, joined, lemma_between_len, lemma_edge_change, lemma_push_contains, simple_adjacency, Graph,
};
use std::collections::HashSet;
use crate::match_merge::{count_true, lemma_count_true_all, lemma_count_true_update, own_roots};
use crate::schnyder::before2;
use vstd::prelude::*;

verus! {

broadcast use vstd::std_specs::hash::group_hash_axioms;

/// The edge between `u` and `v` lies in a triangle: the two have a common
/// neighbour.
pub open spec fn in_triangle(sub: Seq<Set<usize>>, u: int, v: usize) -> bool {
    exists|w: usize| #[trigger] common(sub, u, v, w)
}

/// The vertex `w` is a neighbour of both `u` and `v`.
pub open spec fn common(sub: Seq<Set<usize>>, u: int, v: usize, w: usize) -> bool {
    sub[u].contains(w) && sub[v as int].contains(w)
}

/// Every arc of `sub` is an arc of `adj` and lies in a triangle of `sub`.
#[verifier::opaque]
pub open spec fn grown_from(adj: Seq<Set<usize>>, sub: Seq<Set<usize>>) -> bool {
    &&& sub_adjacency(sub, adj)
    &&& forall|u: int, v: usize| 0 <= u < sub.len() && #[trigger] sub[u].contains(v) ==> in_triangle(sub, u, v)
}

/// Vertices with the same label are connected.
pub open spec fn labels_linked(sub: Seq<Set<usize>>, label: Seq<usize>) -> bool {
    forall|a: usize, b: usize|
        a < label.len() && b < label.len() && #[trigger] label[a as int] == #[trigger] label[b as int] ==> connected(
            sub,
            a,
            b,
        )
}

/// How far the search has come with a vertex.
#[derive(Clone, Copy, PartialEq, Eq, Structural)]
pub enum VertexState {
    New,
    Active,
    Used,
}

/// The heuristic that builds a cactus of triangles.
pub struct CactiApproximation {}

/// Adds the three edges of the triangle `u`, `v`, `w`.
pub fn add_triangle_to_graph(g: &mut Graph, u: usize, v: usize, w: usize)
    requires
        old(g).wf(),
    ensures
        final(g).wf(),
        final(g)@ == joined(joined(joined(old(g)@, u, v), v, w), w, u),
        u < old(g)@.len() && v < old(g)@.len() && w < old(g)@.len() && u != v && v != w && u != w && !old(g)@[u as int].contains(
            v,
        ) && !old(g)@[v as int].contains(w) && !old(g)@[w as int].contains(u) ==> final(g).spec_num_of_edges() == old(
            g,
        ).spec_num_of_edges() + 3,
{
    proof {
        if u < g@.len() && v < g@.len() && w < g@.len() && u != v && v != w && u != w {
            lemma_edge_change(g@, u, v);
            lemma_edge_change(joined(g@, u, v), v, w);
        }
    }
    g.add_edge(u, v);
    g.add_edge(v, w);
    g.add_edge(w, u);
}

/// The vertices in the state `state`.
pub open spec fn in_state(states: Seq<VertexState>, state: VertexState) -> Set<usize> {
    Set::new(|v: usize| v < states.len() && states[v as int] == state)
}

/// A new vertex is the only one with its label.
pub open spec fn new_are_alone(states: Seq<VertexState>, label: Seq<usize>) -> bool {
    forall|w: int, t: int|
        0 <= w < label.len() && 0 <= t < label.len() && #[trigger] states[w] == VertexState::New ==> (#[trigger] label[t]
            == w <==> t == w)
}

/// The sets of vertices in a state are finite.
pub proof fn lemma_in_state_finite(states: Seq<VertexState>, state: VertexState)
    requires
        states.len() <= usize::MAX,
    ensures
        in_state(states, state).finite(),
{
    lemma_between_len(0, states.len());
    assert(in_state(states, state).subset_of(between(0, states.len())));
    vstd::set_lib::lemma_len_subset(in_state(states, state), between(0, states.len()));
}

/// A graph without edges has grown from any graph on the same vertices.
pub proof fn lemma_grown_empty(adj: Seq<Set<usize>>, sub: Seq<Set<usize>>)
    requires
        sub.len() == adj.len(),
        forall|u: int| 0 <= u < sub.len() ==> #[trigger] sub[u] == Set::<usize>::empty(),
    ensures
        grown_from(adj, sub),
{
    reveal(grown_from);
    assert forall|u: int, v: usize| 0 <= u < sub.len() implies !(#[trigger] sub[u].contains(v)) by {
        assert(sub[u] == Set::<usize>::empty());
    }
}

/// What has grown from a graph is a part of it, and each of its arcs lies
/// in one of its triangles.
pub proof fn lemma_grown_part(adj: Seq<Set<usize>>, sub: Seq<Set<usize>>)
    requires
        grown_from(adj, sub),
    ensures
        sub_adjacency(sub, adj),
        forall|u: int, v: usize| 0 <= u < sub.len() && #[trigger] sub[u].contains(v) ==> in_triangle(sub, u, v),
{
    reveal(grown_from);
}

/// The pair `(u, v)` is an arc of the triangle `x`, `y`, `z`.
pub open spec fn triangle_arc(x: usize, y: usize, z: usize, u: int, v: usize) -> bool {
    (u == x || u == y || u == z) && (v == x || v == y || v == z) && u != v
}

/// With a triangle added, the arcs are those before and those of the
/// triangle.
pub proof fn lemma_triangle_arcs(sub: Seq<Set<usize>>, x: usize, y: usize, z: usize)
    requires
        x < sub.len(),
        y < sub.len(),
        z < sub.len(),
        x != y,
        y != z,
        x != z,
    ensures
        joined(joined(joined(sub, x, y), y, z), z, x).len() == sub.len(),
        forall|u: int, v: usize|
            0 <= u < sub.len() ==> (#[trigger] joined(joined(joined(sub, x, y), y, z), z, x)[u].contains(v)
                <==> sub[u].contains(v) || triangle_arc(x, y, z, u, v)),
{
    let s1 = joined(sub, x, y);
    let s2 = joined(s1, y, z);
    lemma_edge_change(sub, x, y);
    lemma_edge_change(s1, y, z);
    lemma_edge_change(s2, z, x);
}

/// With a triangle of the graph added, every arc is still an arc of the
/// graph and lies in a triangle.
pub proof fn lemma_triangle_grown(adj: Seq<Set<usize>>, sub: Seq<Set<usize>>, x: usize, y: usize, z: usize)
    requires
        simple_adjacency(adj),
        sub.len() == adj.len(),
        grown_from(adj, sub),
        x < adj.len(),
        adj[x as int].contains(y),
        adj[x as int].contains(z),
        adj[y as int].contains(z),
    ensures
        grown_from(adj, joined(joined(joined(sub, x, y), y, z), z, x)),
{
    reveal(grown_from);
    let sub2 = joined(joined(joined(sub, x, y), y, z), z, x);
    assert(y < adj.len() && z < adj.len() && x != y && x != z && y != z);
    assert(adj[y as int].contains(x) && adj[z as int].contains(x) && adj[z as int].contains(y));
    lemma_triangle_arcs(sub, x, y, z);
    assert forall|u: int, v: usize| 0 <= u < sub2.len() && #[trigger] sub2[u].contains(v) implies adj[u].contains(v)
        && in_triangle(sub2, u, v) by {
        if sub[u].contains(v) {
            let w = choose|w: usize| #[trigger] common(sub, u, v, w);
            assert(v < sub.len());
            assert(sub2[u].contains(w));
            assert(sub2[v as int].contains(w));
            assert(common(sub2, u, v, w));
        } else {
            assert(triangle_arc(x, y, z, u, v));
            let w = if u != x && v != x {
                x
            } else if u != y && v != y {
                y
            } else {
                z
            };
            assert(triangle_arc(x, y, z, u, w));
            assert(triangle_arc(x, y, z, v as int, w));
            assert(sub2[u].contains(w));
            assert(sub2[v as int].contains(w));
            assert(common(sub2, u, v, w));
        }
    }
}

/// Gluing a triangle of two new neighbours `y`, `z` of the vertex `x`, which
/// are neighbours of each other, to `x` and giving them the label of `x`
/// keeps equal labels connected and every arc in a triangle.
pub proof fn lemma_triangle_glued(
    adj: Seq<Set<usize>>,
    sub: Seq<Set<usize>>,
    label: Seq<usize>,
    states: Seq<VertexState>,
    x: usize,
    y: usize,
    z: usize,
)
    requires
        simple_adjacency(adj),
        simple_adjacency(sub),
        sub.len() == adj.len(),
        label.len() == adj.len(),
        states.len() == adj.len(),
        x < adj.len(),
        adj[x as int].contains(y),
        adj[x as int].contains(z),
        adj[y as int].contains(z),
        y != z,
        states[y as int] == VertexState::New,
        states[z as int] == VertexState::New,
        states[x as int] != VertexState::New,
        new_are_alone(states, label),
        labels_linked(sub, label),
    ensures
        ({
            let sub2 = joined(joined(joined(sub, x, y), y, z), z, x);
            let label2 = label.update(y as int, label[x as int]).update(z as int, label[x as int]);
            let states2 = states.update(y as int, VertexState::Active).update(z as int, VertexState::Active);
            &&& labels_linked(sub2, label2)
            &&& new_are_alone(states2, label2)
            &&& sub_adjacency(sub, sub2)
        }),
{
    let s1 = joined(sub, x, y);
    let s2 = joined(s1, y, z);
    let sub2 = joined(s2, z, x);
    let label2 = label.update(y as int, label[x as int]).update(z as int, label[x as int]);
    lemma_edge_change(sub, x, y);
    lemma_edge_change(s1, y, z);
    lemma_edge_change(s2, z, x);
    assert(sub_adjacency(sub, sub2));
    lemma_connected_arc(sub2, x, y);
    lemma_connected_arc(sub2, x, z);
    lemma_connected_sym(sub2, x, y);
    lemma_connected_sym(sub2, x, z);
    assert(label[y as int] == y && label[z as int] == z);
    assert forall|a: usize, b: usize|
        a < label2.len() && b < label2.len() && #[trigger] label2[a as int] == #[trigger] label2[b as int] implies connected(
        sub2,
        a,
        b,
    ) by {
        if a == y || a == z || b == y || b == z {
            assert(label2[a as int] == label[x as int]);
            assert(label2[b as int] == label[x as int]);
            if a != y && a != z {
                assert(label[a as int] == label[x as int]);
                lemma_connected_mono(sub, sub2, a, x);
            }
            if b != y && b != z {
                assert(label[x as int] == label[b as int]);
                lemma_connected_mono(sub, sub2, x, b);
            }
            assert(connected(sub2, a, x));
            assert(connected(sub2, x, b));
            lemma_connected_trans(sub2, a, x, b);
        } else {
            assert(label[a as int] == label[b as int]);
            lemma_connected_mono(sub, sub2, a, b);
        }
    }
}

/// The vertex has a neighbour in `sub`: it lies in a triangle of the cactus.
pub open spec fn taken(sub: Seq<Set<usize>>, v: usize) -> bool {
    exists|w: usize| #[trigger] sub[v as int].contains(w)
}

/// The three vertices are pairwise neighbours.
pub open spec fn triangle(adj: Seq<Set<usize>>, x: usize, y: usize, z: usize) -> bool {
    arc(adj, x, y) && arc(adj, x, z) && arc(adj, y, z)
}

/// No triangle of `adj` has two vertices outside the triangles of `sub`.
pub open spec fn triangles_touched(adj: Seq<Set<usize>>, sub: Seq<Set<usize>>) -> bool {
    forall|x: usize, y: usize, z: usize| #[trigger] triangle(adj, x, y, z) ==> taken(sub, y) || taken(sub, z)
}

/// The vertices of a triangle are three vertices of the graph, in any order.
pub proof fn lemma_triangle_turned(adj: Seq<Set<usize>>, p: usize, q: usize, r: usize)
    requires
        simple_adjacency(adj),
        triangle(adj, p, q, r),
    ensures
        p < adj.len() && q < adj.len() && r < adj.len(),
        p != q && p != r && q != r,
        triangle(adj, q, p, r) && triangle(adj, p, r, q) && triangle(adj, r, p, q) && triangle(adj, q, r, p) && triangle(
            adj,
            r,
            q,
            p,
        ),
{
    assert(adj[p as int].contains(q) && adj[p as int].contains(r) && adj[q as int].contains(r));
}

/// How far the search has come. Active vertices other than the one in turn
/// lie in triangles of the cactus. A used vertex has no two new neighbours
/// that are neighbours. Two neighbours outside the cactus that are not new
/// have no common neighbour, nor have a used vertex outside the cactus and
/// a new neighbour of it. While the vertex in turn is outside the cactus, it
/// is the only active one, and no used vertex is a common neighbour of it
/// and a new vertex.
#[verifier::opaque]
pub open spec fn searched(
    adj: Seq<Set<usize>>,
    states: Seq<VertexState>,
    sub: Seq<Set<usize>>,
    current: Option<usize>,
) -> bool {
    &&& forall|v: usize|
        v < states.len() && #[trigger] states[v as int] == VertexState::Active && current != Some(v) ==> taken(sub, v)
    &&& forall|b: usize, y: usize, z: usize|
        states[b as int] == VertexState::Used && #[trigger] triangle(adj, b, y, z) ==> !(states[y as int]
            == VertexState::New && states[z as int] == VertexState::New)
    &&& forall|r: usize, b: usize, c: usize|
        states[b as int] != VertexState::New && states[c as int] != VertexState::New && #[trigger] triangle(adj, r, b, c)
            ==> taken(sub, b) || taken(sub, c)
    &&& forall|r: usize, b: usize, c: usize|
        states[b as int] == VertexState::Used && states[c as int] == VertexState::New && #[trigger] triangle(adj, r, b, c)
            ==> taken(sub, b)
    &&& match current {
        Some(x) => !taken(sub, x) ==> alone_in_turn(adj, states, x),
        None => true,
    }
}

/// The vertex `x` is the only active one, and no used vertex is a common
/// neighbour of it and a new vertex.
pub open spec fn alone_in_turn(adj: Seq<Set<usize>>, states: Seq<VertexState>, x: usize) -> bool {
    &&& forall|v: usize| v < states.len() && #[trigger] states[v as int] == VertexState::Active ==> v == x
    &&& forall|r: usize, c: usize|
        states[r as int] == VertexState::Used && #[trigger] triangle(adj, r, x, c) ==> states[c as int] != VertexState::New
}

/// The pairs of neighbours before the place `(hi, hj)` are not both new and
/// neighbours.
pub open spec fn pairs_tried(adj: Seq<Set<usize>>, states: Seq<VertexState>, nb: Seq<usize>, hi: int, hj: int) -> bool {
    forall|i: int, j: int|
        0 <= i < nb.len() && 0 <= j < nb.len() && before2(i, j, hi, hj) ==> !(states[#[trigger] nb[i] as int]
            == VertexState::New && states[#[trigger] nb[j] as int] == VertexState::New && adj[nb[i] as int].contains(
            nb[j],
        ))
}

/// A pair that was tried is not both new and neighbours, and stays so as
/// vertices cease to be new.
pub proof fn lemma_pair_tried(
    adj: Seq<Set<usize>>,
    before: Seq<VertexState>,
    after: Seq<VertexState>,
    nb: Seq<usize>,
    i: int,
    j: int,
)
    requires
        pairs_tried(adj, before, nb, i, j),
        0 <= i < nb.len(),
        0 <= j < nb.len(),
        after.len() == before.len(),
        forall|k: int| 0 <= k < nb.len() ==> (#[trigger] nb[k]) < before.len(),
        forall|v: int| 0 <= v < after.len() && #[trigger] after[v] == VertexState::New ==> before[v] == VertexState::New,
        !(after[nb[i] as int] == VertexState::New && after[nb[j] as int] == VertexState::New && adj[nb[i] as int].contains(
            nb[j],
        )),
    ensures
        pairs_tried(adj, after, nb, i, j + 1),
{
    assert forall|p: int, q: int| 0 <= p < nb.len() && 0 <= q < nb.len() && before2(p, q, i, j + 1) implies !(
    after[#[trigger] nb[p] as int] == VertexState::New && after[#[trigger] nb[q] as int] == VertexState::New
        && adj[nb[p] as int].contains(nb[q])) by {
        if before2(p, q, i, j) {
            assert(!(before[nb[p] as int] == VertexState::New && before[nb[q] as int] == VertexState::New
                && adj[nb[p] as int].contains(nb[q])));
        }
    }
}

/// Before the search every vertex is new.
pub proof fn lemma_searched_start(adj: Seq<Set<usize>>, states: Seq<VertexState>, sub: Seq<Set<usize>>)
    requires
        simple_adjacency(adj),
        states.len() == adj.len(),
        forall|v: int| 0 <= v < states.len() ==> (#[trigger] states[v]) == VertexState::New,
    ensures
        searched(adj, states, sub, None),
{
    reveal(searched);
    assert forall|x: usize, y: usize, z: usize| #[trigger] triangle(adj, x, y, z) implies states[x as int]
        == VertexState::New && states[y as int] == VertexState::New && states[z as int] == VertexState::New by {
        lemma_triangle_turned(adj, x, y, z);
    }
}

/// An active vertex that comes in turn lies in the cactus.
pub proof fn lemma_searched_turn(adj: Seq<Set<usize>>, states: Seq<VertexState>, sub: Seq<Set<usize>>, x: usize)
    requires
        searched(adj, states, sub, None),
        x < states.len(),
        states[x as int] == VertexState::Active,
    ensures
        searched(adj, states, sub, Some(x)),
{
    reveal(searched);
    assert(taken(sub, x));
}

/// A new vertex comes in turn while no vertex is active.
pub proof fn lemma_searched_pick(adj: Seq<Set<usize>>, states: Seq<VertexState>, sub: Seq<Set<usize>>, x: usize)
    requires
        simple_adjacency(adj),
        states.len() == adj.len(),
        searched(adj, states, sub, None),
        x < states.len(),
        states[x as int] == VertexState::New,
        forall|v: usize| v < states.len() && #[trigger] states[v as int] == VertexState::Active ==> false,
    ensures
        searched(adj, states.update(x as int, VertexState::Active), sub, Some(x)),
{
    reveal(searched);
    let after = states.update(x as int, VertexState::Active);
    assert forall|p: usize, q: usize, r: usize| #[trigger] triangle(adj, p, q, r) implies p < adj.len() && q < adj.len()
        && r < adj.len() && p != q && p != r && q != r && triangle(adj, p, r, q) by {
        lemma_triangle_turned(adj, p, q, r);
    }
    assert forall|r: usize, b: usize, c: usize|
        after[b as int] != VertexState::New && after[c as int] != VertexState::New && #[trigger] triangle(
            adj,
            r,
            b,
            c,
        ) implies taken(sub, b) || taken(sub, c) by {
        if b == x {
            // `c` is used, and `x` was a new neighbour of it
            assert(states[c as int] == VertexState::Used);
            assert(triangle(adj, r, c, x));
        } else if c == x {
            assert(states[b as int] == VertexState::Used);
        }
    }
    assert(alone_in_turn(adj, after, x)) by {
        assert forall|r: usize, c: usize|
            after[r as int] == VertexState::Used && #[trigger] triangle(adj, r, x, c) implies after[c as int]
            != VertexState::New by {
            assert(states[r as int] == VertexState::Used);
        }
    }
}

/// Gluing a triangle of two new vertices to the vertex in turn carries the
/// search on.
pub proof fn lemma_searched_glue(
    adj: Seq<Set<usize>>,
    states: Seq<VertexState>,
    sub: Seq<Set<usize>>,
    more: Seq<Set<usize>>,
    x: usize,
    y: usize,
    z: usize,
)
    requires
        simple_adjacency(adj),
        states.len() == adj.len(),
        sub.len() == adj.len(),
        searched(adj, states, sub, Some(x)),
        sub_adjacency(sub, more),
        y < states.len(),
        z < states.len(),
        x < states.len(),
        more[x as int].contains(y),
        more[y as int].contains(x),
        more[z as int].contains(x),
    ensures
        searched(adj, states.update(y as int, VertexState::Active).update(z as int, VertexState::Active), more, Some(x)),
{
    reveal(searched);
    assert forall|v: usize| v < sub.len() && #[trigger] taken(sub, v) implies taken(more, v) by {
        let w = choose|w: usize| #[trigger] sub[v as int].contains(w);
        assert(more[v as int].contains(w));
    }
    assert(taken(more, x));
    assert(taken(more, y));
    assert(taken(more, z));
    let after = states.update(y as int, VertexState::Active).update(z as int, VertexState::Active);
    assert forall|p: usize, q: usize, r: usize| #[trigger] triangle(adj, p, q, r) implies p < adj.len() && q < adj.len()
        && r < adj.len() by {
        lemma_triangle_turned(adj, p, q, r);
    }
    assert forall|r: usize, b: usize, c: usize|
        after[b as int] != VertexState::New && after[c as int] != VertexState::New && #[trigger] triangle(
            adj,
            r,
            b,
            c,
        ) implies taken(more, b) || taken(more, c) by {
        if b != y && b != z && c != y && c != z {
            assert(taken(sub, b) || taken(sub, c));
        }
    }
    assert forall|r: usize, b: usize, c: usize|
        after[b as int] == VertexState::Used && after[c as int] == VertexState::New && #[trigger] triangle(
            adj,
            r,
            b,
            c,
        ) implies taken(more, b) by {
        assert(taken(sub, b));
    }
}

/// A vertex whose pairs of neighbours were all tried is used up.
pub proof fn lemma_searched_finish(
    adj: Seq<Set<usize>>,
    states: Seq<VertexState>,
    sub: Seq<Set<usize>>,
    x: usize,
    nb: Seq<usize>,
)
    requires
        simple_adjacency(adj),
        states.len() == adj.len(),
        searched(adj, states, sub, Some(x)),
        x < states.len(),
        states[x as int] == VertexState::Active,
        nb.to_set() == adj[x as int],
        pairs_tried(adj, states, nb, nb.len() as int, 0),
    ensures
        searched(adj, states.update(x as int, VertexState::Used), sub, None),
{
    reveal(searched);
    let after = states.update(x as int, VertexState::Used);
    assert forall|p: usize, q: usize, r: usize| #[trigger] triangle(adj, p, q, r) implies p < adj.len() && q < adj.len()
        && r < adj.len() && p != q && p != r && q != r by {
        lemma_triangle_turned(adj, p, q, r);
    }
    assert forall|b: usize, y: usize, z: usize|
        after[b as int] == VertexState::Used && #[trigger] triangle(adj, b, y, z) implies !(after[y as int]
        == VertexState::New && after[z as int] == VertexState::New) by {
        if b == x {
            lemma_pair_was_tried(adj, states, nb, x, y, z);
        }
    }
    assert forall|r: usize, b: usize, c: usize|
        after[b as int] == VertexState::Used && after[c as int] == VertexState::New && #[trigger] triangle(
            adj,
            r,
            b,
            c,
        ) implies taken(sub, b) by {
        if b == x && !taken(sub, x) {
            // `r` and `c` are neighbours of `x` and of each other, and `c` is new
            lemma_triangle_turned(adj, r, x, c);
            lemma_pair_was_tried(adj, states, nb, x, r, c);
            assert(states[r as int] != VertexState::New);
            assert(states[r as int] == VertexState::Used);
            assert(triangle(adj, r, x, c));
        }
    }
}

/// Of two neighbours of `x` that are neighbours, one is not new once all
/// pairs of neighbours of `x` were tried.
pub proof fn lemma_pair_was_tried(adj: Seq<Set<usize>>, states: Seq<VertexState>, nb: Seq<usize>, x: usize, y: usize, z: usize)
    requires
        simple_adjacency(adj),
        x < adj.len(),
        nb.to_set() == adj[x as int],
        pairs_tried(adj, states, nb, nb.len() as int, 0),
        triangle(adj, x, y, z),
    ensures
        !(states[y as int] == VertexState::New && states[z as int] == VertexState::New),
{
    assert(nb.to_set().contains(y) && nb.to_set().contains(z));
    let i = choose|i: int| 0 <= i < nb.len() && nb[i] == y;
    let j = choose|j: int| 0 <= j < nb.len() && nb[j] == z;
    assert(before2(i, j, nb.len() as int, 0));
    assert(!(states[nb[i] as int] == VertexState::New && states[nb[j] as int] == VertexState::New && adj[nb[i] as int].contains(
        nb[j],
    )));
}

/// Once no vertex is new, no triangle of the graph has two vertices
/// outside the cactus.
pub proof fn lemma_searched_end(adj: Seq<Set<usize>>, states: Seq<VertexState>, sub: Seq<Set<usize>>)
    requires
        simple_adjacency(adj),
        states.len() == adj.len(),
        searched(adj, states, sub, None),
        forall|v: int| 0 <= v < states.len() ==> (#[trigger] states[v]) != VertexState::New,
    ensures
        triangles_touched(adj, sub),
{
    reveal(searched);
    assert forall|x: usize, y: usize, z: usize| #[trigger] triangle(adj, x, y, z) implies taken(sub, y) || taken(sub, z) by {
        lemma_triangle_turned(adj, x, y, z);
    }
}

/// The pieces stand in an order, given by a time for every vertex: the
/// vertices of one time have one label, and no vertex has two neighbours of
/// later times that are neighbours.
pub open spec fn ordered_pieces(adj: Seq<Set<usize>>, label: Seq<usize>, time: Seq<nat>) -> bool {
    &&& time.len() == label.len()
    &&& forall|u: int, v: int|
        0 <= u < time.len() && 0 <= v < time.len() && #[trigger] time[u] == #[trigger] time[v] ==> label[u] == label[v]
    &&& forall|x: usize, y: usize, z: usize| #[trigger]
        triangle(adj, x, y, z) ==> !(time[y as int] > time[x as int] && time[z as int] > time[x as int])
}

/// The times of the vertices that are not new: none is later than the
/// piece that is grown now, whose time the active vertices have; vertices
/// of one time have one label; a vertex has no new neighbour that is a
/// neighbour of a later neighbour of it; and no vertex has two neighbours of
/// later times that are neighbours.
#[verifier::opaque]
pub open spec fn timed(
    adj: Seq<Set<usize>>,
    states: Seq<VertexState>,
    label: Seq<usize>,
    time: Seq<nat>,
    epoch: nat,
) -> bool {
    &&& time.len() == states.len()
    &&& forall|v: int| 0 <= v < states.len() && #[trigger] states[v] != VertexState::New ==> time[v] <= epoch
    &&& forall|v: int| 0 <= v < states.len() && #[trigger] states[v] == VertexState::Active ==> time[v] == epoch
    &&& forall|u: int, v: int|
        0 <= u < states.len() && 0 <= v < states.len() && states[u] != VertexState::New && states[v] != VertexState::New
            && #[trigger] time[u] == #[trigger] time[v] ==> label[u] == label[v]
    &&& forall|x: usize, z: usize, v: usize|
        states[x as int] != VertexState::New && states[z as int] != VertexState::New && time[z as int] > time[x as int]
            && #[trigger] triangle(adj, x, z, v) ==> states[v as int] != VertexState::New
    &&& forall|x: usize, y: usize, z: usize|
        states[x as int] != VertexState::New && states[y as int] != VertexState::New && states[z as int]
            != VertexState::New && #[trigger] triangle(adj, x, y, z) ==> !(time[y as int] > time[x as int] && time[z as int]
            > time[x as int])
}

/// Before the search no vertex has a time that counts.
pub proof fn lemma_timed_start(adj: Seq<Set<usize>>, states: Seq<VertexState>, label: Seq<usize>, time: Seq<nat>)
    requires
        simple_adjacency(adj),
        states.len() == adj.len(),
        time.len() == states.len(),
        forall|v: int| 0 <= v < states.len() ==> (#[trigger] states[v]) == VertexState::New,
    ensures
        timed(adj, states, label, time, 0),
{
    reveal(timed);
    assert forall|x: usize, y: usize, z: usize| #[trigger] triangle(adj, x, y, z) implies states[x as int]
        == VertexState::New by {
        lemma_triangle_turned(adj, x, y, z);
    }
}

/// A new vertex that comes in turn while none is active begins a piece, at
/// a later time than all before.
pub proof fn lemma_timed_pick(
    adj: Seq<Set<usize>>,
    states: Seq<VertexState>,
    sub: Seq<Set<usize>>,
    label: Seq<usize>,
    time: Seq<nat>,
    epoch: nat,
    x: usize,
)
    requires
        simple_adjacency(adj),
        states.len() == adj.len(),
        searched(adj, states, sub, None),
        timed(adj, states, label, time, epoch),
        x < states.len(),
        states[x as int] == VertexState::New,
        forall|v: int| 0 <= v < states.len() ==> (#[trigger] states[v]) != VertexState::Active,
    ensures
        timed(adj, states.update(x as int, VertexState::Active), label, time.update(x as int, epoch + 1), epoch + 1),
{
    reveal(timed);
    reveal(searched);
    let after = states.update(x as int, VertexState::Active);
    let later = time.update(x as int, epoch + 1);
    assert forall|p: usize, q: usize, r: usize| #[trigger] triangle(adj, p, q, r) implies p < adj.len() && q < adj.len()
        && r < adj.len() && p != q && p != r && q != r && triangle(adj, p, r, q) by {
        lemma_triangle_turned(adj, p, q, r);
    }
    assert forall|v: int| 0 <= v < after.len() && #[trigger] after[v] != VertexState::New implies later[v] <= epoch + 1 by {
        if v != x {
            assert(time[v] <= epoch);
        }
    }
    assert forall|v: int| 0 <= v < after.len() && #[trigger] after[v] == VertexState::Active implies later[v] == epoch
        + 1 by {
        if v != x {
            assert(time[v] <= epoch);
        }
    }
    assert forall|u: int, v: int|
        0 <= u < after.len() && 0 <= v < after.len() && after[u] != VertexState::New && after[v] != VertexState::New
            && #[trigger] later[u] == #[trigger] later[v] implies label[u] == label[v] by {
        if u != x && v != x {
            assert(time[u] == time[v]);
        } else if u != x {
            assert(time[u] <= epoch);
        } else if v != x {
            assert(time[v] <= epoch);
        }
    }
    assert forall|a: usize, z: usize, v: usize|
        after[a as int] != VertexState::New && after[z as int] != VertexState::New && later[z as int] > later[a as int]
            && #[trigger] triangle(adj, a, z, v) implies after[v as int] != VertexState::New by {
        if z == x {
            // `a` is used, and `x` and `v` would be two new neighbours of it
            assert(states[a as int] == VertexState::Used);
        } else if a == x {
            assert(time[z as int] <= epoch);
        }
    }
    assert forall|a: usize, p: usize, q: usize|
        after[a as int] != VertexState::New && after[p as int] != VertexState::New && after[q as int]
            != VertexState::New && #[trigger] triangle(adj, a, p, q) implies !(later[p as int] > later[a as int]
        && later[q as int] > later[a as int]) by {
        if a != x {
            if p == x {
                assert(triangle(adj, a, q, p));
            }
        } else {
            assert(time[p as int] <= epoch);
        }
    }
}

/// Two new vertices glued to the vertex in turn take its time and label.
pub proof fn lemma_timed_glue(
    adj: Seq<Set<usize>>,
    states: Seq<VertexState>,
    sub: Seq<Set<usize>>,
    label: Seq<usize>,
    time: Seq<nat>,
    epoch: nat,
    x: usize,
    y: usize,
    z: usize,
)
    requires
        simple_adjacency(adj),
        states.len() == adj.len(),
        label.len() == adj.len(),
        searched(adj, states, sub, Some(x)),
        timed(adj, states, label, time, epoch),
        x < states.len(),
        y < states.len(),
        z < states.len(),
        states[x as int] == VertexState::Active,
        states[y as int] == VertexState::New,
        states[z as int] == VertexState::New,
    ensures
        timed(
            adj,
            states.update(y as int, VertexState::Active).update(z as int, VertexState::Active),
            label.update(y as int, label[x as int]).update(z as int, label[x as int]),
            time.update(y as int, epoch).update(z as int, epoch),
            epoch,
        ),
{
    reveal(timed);
    reveal(searched);
    let after = states.update(y as int, VertexState::Active).update(z as int, VertexState::Active);
    let named = label.update(y as int, label[x as int]).update(z as int, label[x as int]);
    let later = time.update(y as int, epoch).update(z as int, epoch);
    assert(time[x as int] == epoch);
    assert forall|p: usize, q: usize, r: usize| #[trigger] triangle(adj, p, q, r) implies p < adj.len() && q < adj.len()
        && r < adj.len() && p != q && p != r && q != r && triangle(adj, p, r, q) by {
        lemma_triangle_turned(adj, p, q, r);
    }
    assert forall|u: int, v: int|
        0 <= u < after.len() && 0 <= v < after.len() && after[u] != VertexState::New && after[v] != VertexState::New
            && #[trigger] later[u] == #[trigger] later[v] implies named[u] == named[v] by {
        let u_new = u == y || u == z;
        let v_new = v == y || v == z;
        if u_new && !v_new {
            assert(time[v] == time[x as int]);
        } else if v_new && !u_new {
            assert(time[u] == time[x as int]);
        } else if !u_new && !v_new {
            assert(time[u] == time[v]);
        }
    }
    assert forall|a: usize, b: usize, v: usize|
        after[a as int] != VertexState::New && after[b as int] != VertexState::New && later[b as int] > later[a as int]
            && #[trigger] triangle(adj, a, b, v) implies after[v as int] != VertexState::New by {
        if b == y || b == z {
            // `a` is of an earlier piece and used; `b` and `v` were new
            assert(time[a as int] < epoch);
            assert(states[a as int] == VertexState::Used);
        }
    }
    assert forall|a: usize, p: usize, q: usize|
        after[a as int] != VertexState::New && after[p as int] != VertexState::New && after[q as int]
            != VertexState::New && #[trigger] triangle(adj, a, p, q) implies !(later[p as int] > later[a as int]
        && later[q as int] > later[a as int]) by {
        if later[p as int] > later[a as int] && later[q as int] > later[a as int] {
            assert(a != y && a != z);
            let p_new = p == y || p == z;
            let q_new = q == y || q == z;
            if p_new && q_new {
                assert(states[a as int] == VertexState::Used);
            } else if p_new {
                assert(triangle(adj, a, q, p));
            } else if q_new {
            }
        }
    }
}

/// A vertex that is used up keeps its time.
pub proof fn lemma_timed_finish(
    adj: Seq<Set<usize>>,
    states: Seq<VertexState>,
    label: Seq<usize>,
    time: Seq<nat>,
    epoch: nat,
    x: usize,
)
    requires
        simple_adjacency(adj),
        states.len() == adj.len(),
        timed(adj, states, label, time, epoch),
        x < states.len(),
        states[x as int] == VertexState::Active,
    ensures
        timed(adj, states.update(x as int, VertexState::Used), label, time, epoch),
{
    reveal(timed);
    let after = states.update(x as int, VertexState::Used);
    assert forall|v: int| 0 <= v < states.len() implies (#[trigger] after[v] != VertexState::New <==> states[v]
        != VertexState::New) by {}
    assert forall|p: usize, q: usize, r: usize| #[trigger] triangle(adj, p, q, r) implies p < adj.len() && q < adj.len()
        && r < adj.len() by {
        lemma_triangle_turned(adj, p, q, r);
    }
    assert forall|u: int, v: int|
        0 <= u < after.len() && 0 <= v < after.len() && after[u] != VertexState::New && after[v] != VertexState::New
            && #[trigger] time[u] == #[trigger] time[v] implies label[u] == label[v] by {
        assert(states[u] != VertexState::New && states[v] != VertexState::New);
    }
    assert forall|v: int| 0 <= v < after.len() && #[trigger] after[v] != VertexState::New implies time[v] <= epoch by {
        assert(states[v] != VertexState::New);
    }
    assert forall|v: int| 0 <= v < after.len() && #[trigger] after[v] == VertexState::Active implies time[v] == epoch by {
        assert(states[v] == VertexState::Active);
    }
}

/// Once no vertex is new, the times order the pieces.
pub proof fn lemma_timed_end(
    adj: Seq<Set<usize>>,
    states: Seq<VertexState>,
    label: Seq<usize>,
    time: Seq<nat>,
    epoch: nat,
)
    requires
        simple_adjacency(adj),
        states.len() == adj.len(),
        label.len() == adj.len(),
        timed(adj, states, label, time, epoch),
        forall|v: int| 0 <= v < states.len() ==> (#[trigger] states[v]) != VertexState::New,
    ensures
        ordered_pieces(adj, label, time),
{
    reveal(timed);
    assert forall|x: usize, y: usize, z: usize| #[trigger] triangle(adj, x, y, z) implies !(time[y as int] > time[x as int]
        && time[z as int] > time[x as int]) by {
        lemma_triangle_turned(adj, x, y, z);
    }
}

/// The ends of every arc have one label, every label is a vertex that has
/// it, and there are three edges for every two vertices that are not the
/// label of their own piece.
#[verifier::opaque]
pub open spec fn pieces_counted(sub: Seq<Set<usize>>, label: Seq<usize>, edges: nat) -> bool {
    &&& forall|a: int, b: usize| 0 <= a < sub.len() && #[trigger] sub[a].contains(b) ==> label[a] == label[b as int]
    &&& forall|x: int| 0 <= x < label.len() ==> label[(#[trigger] label[x]) as int] == label[x]
    &&& 2 * edges + 3 * count_true(own_roots(label)) == 3 * label.len()
}

/// Before the first triangle every vertex is the label of its own piece.
pub proof fn lemma_pieces_start(sub: Seq<Set<usize>>, label: Seq<usize>)
    requires
        sub.len() == label.len(),
        forall|u: int| 0 <= u < sub.len() ==> #[trigger] sub[u] == Set::<usize>::empty(),
        forall|x: int| 0 <= x < label.len() ==> #[trigger] label[x] == x,
    ensures
        pieces_counted(sub, label, 0),
{
    reveal(pieces_counted);
    lemma_count_true_all(own_roots(label));
    assert forall|a: int, b: usize| 0 <= a < sub.len() implies !(#[trigger] sub[a].contains(b)) by {
        assert(sub[a] == Set::<usize>::empty());
    }
}

/// A triangle of two new vertices glued to `x` adds three edges and takes
/// the two into the piece of `x`.
pub proof fn lemma_pieces_glue(
    sub: Seq<Set<usize>>,
    more: Seq<Set<usize>>,
    label: Seq<usize>,
    states: Seq<VertexState>,
    edges: nat,
    x: usize,
    y: usize,
    z: usize,
)
    requires
        simple_adjacency(sub),
        sub.len() == label.len(),
        states.len() == label.len(),
        pieces_counted(sub, label, edges),
        new_are_alone(states, label),
        forall|i: int| 0 <= i < label.len() ==> (#[trigger] label[i]) < label.len(),
        x < label.len(),
        y < label.len(),
        z < label.len(),
        y != z,
        states[y as int] == VertexState::New,
        states[z as int] == VertexState::New,
        states[x as int] != VertexState::New,
        forall|w: usize| !sub[y as int].contains(w) && !sub[z as int].contains(w),
        more == joined(joined(joined(sub, x, y), y, z), z, x),
    ensures
        pieces_counted(
            more,
            label.update(y as int, label[x as int]).update(z as int, label[x as int]),
            edges + 3,
        ),
{
    reveal(pieces_counted);
    let l = label[x as int];
    let first = label.update(y as int, l);
    let second = first.update(z as int, l);
    assert(label[y as int] == y && label[z as int] == z);
    assert(l != y && l != z) by {
        assert(label[x as int] == y <==> x as int == y as int);
        assert(label[x as int] == z <==> x as int == z as int);
    }
    assert(label[l as int] == l);
    assert(x != y && x != z);
    lemma_triangle_arcs(sub, x, y, z);
    assert forall|a: int, b: usize| 0 <= a < more.len() && #[trigger] more[a].contains(b) implies second[a] == second[b as int] by {
        if sub[a].contains(b) {
            assert(a != y && a != z);
            assert(sub[b as int].contains(a as usize));
            assert(b != y && b != z);
        }
    }
    assert forall|v: int| 0 <= v < second.len() implies second[(#[trigger] second[v]) as int] == second[v] by {
        if v != y && v != z {
            assert(label[v] == y <==> v == y as int);
            assert(label[v] == z <==> v == z as int);
            assert(label[label[v] as int] == label[v]);
        }
    }
    let roots = own_roots(label);
    assert(own_roots(first) =~= roots.update(y as int, false));
    assert(own_roots(second) =~= own_roots(first).update(z as int, false));
    lemma_count_true_update(roots, y as int, false);
    lemma_count_true_update(own_roots(first), z as int, false);
}

/// New vertices have no neighbour in `sub`.
pub open spec fn new_are_bare(states: Seq<VertexState>, sub: Seq<Set<usize>>) -> bool {
    forall|v: int, w: usize| 0 <= v < states.len() && states[v] == VertexState::New ==> !(#[trigger] sub[v].contains(w))
}

/// Glues triangles of the graph together: as long as a vertex is new, an
/// active vertex takes pairs of its neighbours that are both new and
/// neighbours of each other into triangles with itself. Returns the graph
/// of these triangles and, for each vertex, the label of the piece that it
/// lies in. In the end no triangle of the graph has two vertices outside
/// the triangles that were glued.
pub fn connect_triangles(g: &Graph) -> (r: (Graph, Vec<usize>))
    requires
        g.wf(),
    ensures
        r.0.wf(),
        r.0@.len() == g@.len(),
        r.1@.len() == g@.len(),
        forall|v: int| 0 <= v < r.1@.len() ==> (#[trigger] r.1@[v]) < g@.len(),
        grown_from(g@, r.0@),
        sub_adjacency(r.0@, g@),
        forall|u: int, v: usize| 0 <= u < g@.len() && #[trigger] r.0@[u].contains(v) ==> in_triangle(r.0@, u, v),
        labels_linked(r.0@, r.1@),
        triangles_touched(g@, r.0@),
        pieces_counted(r.0@, r.1@, r.0.spec_num_of_edges() as nat),
        exists|time: Seq<nat>| #[trigger] ordered_pieces(g@, r.1@, time),
{
    let n = g.num_of_vertices();
    let mut cactus = Graph::empty(n);
    let mut new_vertices = crate::graphs::range_set(0, n);
    let mut active_vertices: HashSet<usize> = HashSet::with_capacity(n);
    let mut vertex_states: Vec<VertexState> = Vec::with_capacity(n);
    let mut component: Vec<usize> = Vec::with_capacity(n);
    let mut v: usize = 0;
    while v < n
        invariant
            v <= n,
            vertex_states@.len() == v,
            component@.len() == v,
            forall|i: int| 0 <= i < v ==> (#[trigger] vertex_states@[i]) == VertexState::New,
            forall|i: int| 0 <= i < v ==> (#[trigger] component@[i]) == i,
        decreases n - v,
    {
        vertex_states.push(VertexState::New);
        component.push(v);
        v += 1;
    }
    proof {
        assert(new_vertices@ =~= in_state(vertex_states@, VertexState::New));
        assert(active_vertices@ =~= in_state(vertex_states@, VertexState::Active));
        assert forall|a: usize, b: usize|
            a < n && b < n && #[trigger] component@[a as int] == #[trigger] component@[b as int] implies connected(
            cactus@,
            a,
            b,
        ) by {
            lemma_connected_refl(cactus@, a);
        }
        lemma_grown_empty(g@, cactus@);
    }
    let ghost mut time: Seq<nat> = Seq::new(n as nat, |i: int| 0nat);
    let ghost mut epoch: nat = 0;
    proof {
        lemma_timed_start(g@, vertex_states@, component@, time);
        lemma_searched_start(g@, vertex_states@, cactus@);
        lemma_pieces_start(cactus@, component@);
        assert forall|v: int, w: usize| 0 <= v < n implies !(#[trigger] cactus@[v].contains(w)) by {
            assert(cactus@[v] == Set::<usize>::empty());
        }
    }
    loop
        invariant
            n == g@.len(),
            g.wf(),
            cactus.wf(),
            cactus@.len() == n,
            vertex_states@.len() == n,
            component@.len() == n,
            new_vertices@ == in_state(vertex_states@, VertexState::New),
            active_vertices@ == in_state(vertex_states@, VertexState::Active),
            forall|i: int| 0 <= i < n ==> (#[trigger] component@[i]) < n,
            new_are_alone(vertex_states@, component@),
            grown_from(g@, cactus@),
            labels_linked(cactus@, component@),
            searched(g@, vertex_states@, cactus@, None),
            timed(g@, vertex_states@, component@, time, epoch),
            pieces_counted(cactus@, component@, cactus.spec_num_of_edges() as nat),
            new_are_bare(vertex_states@, cactus@),
        ensures
            vertex_states@.len() == n,
            pieces_counted(cactus@, component@, cactus.spec_num_of_edges() as nat),
            searched(g@, vertex_states@, cactus@, None),
            forall|v: int| 0 <= v < n ==> (#[trigger] vertex_states@[v]) != VertexState::New,
        decreases new_vertices@.len() + active_vertices@.len(),
    {
        proof {
            lemma_in_state_finite(vertex_states@, VertexState::New);
            lemma_in_state_finite(vertex_states@, VertexState::Active);
        }
        if new_vertices.is_empty() {
            proof {
                assert forall|v: int| 0 <= v < n implies (#[trigger] vertex_states@[v]) != VertexState::New by {
                    assert(!in_state(vertex_states@, VertexState::New).contains(v as usize));
                }
            }
            break ;
        }
        let ghost mut first: Option<usize> = None;
        let ghost measure = new_vertices@.len() + active_vertices@.len();
        if active_vertices.is_empty() {
            assert(new_vertices@.len() > 0) by {
                if new_vertices@.len() == 0 {
                    assert(new_vertices@ =~= Set::<usize>::empty());
                }
            }
            let x = crate::graphs::any_element(&new_vertices);
            proof {
                assert forall|v: usize| v < n && #[trigger] vertex_states@[v as int] == VertexState::Active implies false by {
                    assert(in_state(vertex_states@, VertexState::Active).contains(v));
                }
                lemma_searched_pick(g@, vertex_states@, cactus@, x);
                assert forall|v: int| 0 <= v < n implies (#[trigger] vertex_states@[v]) != VertexState::Active by {
                    assert(!in_state(vertex_states@, VertexState::Active).contains(v as usize));
                }
                lemma_timed_pick(g@, vertex_states@, cactus@, component@, time, epoch, x);
                time = time.update(x as int, epoch + 1);
                epoch = epoch + 1;
                first = Some(x);
            }
            new_vertices.remove(&x);
            active_vertices.insert(x);
            vertex_states[x] = VertexState::Active;
            proof {
                assert(new_vertices@ =~= in_state(vertex_states@, VertexState::New));
                assert(active_vertices@ =~= in_state(vertex_states@, VertexState::Active));
            }
        }
        proof {
            lemma_in_state_finite(vertex_states@, VertexState::New);
            lemma_in_state_finite(vertex_states@, VertexState::Active);
            assert(active_vertices@.len() > 0) by {
                if active_vertices@.len() == 0 {
                    assert(active_vertices@ =~= Set::<usize>::empty());
                }
            }
        }
        let x = crate::graphs::any_element(&active_vertices);
        proof {
            assert(in_state(vertex_states@, VertexState::Active).contains(x));
            match first {
                Some(picked) => {
                    assert(x == picked);
                },
                None => {
                    lemma_searched_turn(g@, vertex_states@, cactus@, x);
                },
            }
        }
        let x_neighbors = g.neighbor_list(x);
        let mut i: usize = 0;
        while i < x_neighbors.len()
            invariant
                i <= x_neighbors@.len(),
                x < n,
                n == g@.len(),
                g.wf(),
                cactus.wf(),
                cactus@.len() == n,
                vertex_states@.len() == n,
                component@.len() == n,
                x_neighbors@.to_set() == g@[x as int],
                vertex_states@[x as int] == VertexState::Active,
                new_vertices@ == in_state(vertex_states@, VertexState::New),
                active_vertices@ == in_state(vertex_states@, VertexState::Active),
                forall|i: int| 0 <= i < n ==> (#[trigger] component@[i]) < n,
                new_are_alone(vertex_states@, component@),
                grown_from(g@, cactus@),
                labels_linked(cactus@, component@),
                new_vertices@.len() + active_vertices@.len() == measure,
                searched(g@, vertex_states@, cactus@, Some(x)),
                timed(g@, vertex_states@, component@, time, epoch),
                pairs_tried(g@, vertex_states@, x_neighbors@, i as int, 0),
                pieces_counted(cactus@, component@, cactus.spec_num_of_edges() as nat),
                new_are_bare(vertex_states@, cactus@),
            decreases x_neighbors@.len() - i,
        {
            let y = x_neighbors[i];
            let mut j: usize = 0;
            while j < x_neighbors.len()
                invariant
                    j <= x_neighbors@.len(),
                    i < x_neighbors@.len(),
                    y == x_neighbors@[i as int],
                    x < n,
                    n == g@.len(),
                    g.wf(),
                    cactus.wf(),
                    cactus@.len() == n,
                    vertex_states@.len() == n,
                    component@.len() == n,
                    x_neighbors@.to_set() == g@[x as int],
                    vertex_states@[x as int] == VertexState::Active,
                    new_vertices@ == in_state(vertex_states@, VertexState::New),
                    active_vertices@ == in_state(vertex_states@, VertexState::Active),
                    forall|i: int| 0 <= i < n ==> (#[trigger] component@[i]) < n,
                    new_are_alone(vertex_states@, component@),
                    grown_from(g@, cactus@),
                    labels_linked(cactus@, component@),
                    new_vertices@.len() + active_vertices@.len() == measure,
                    searched(g@, vertex_states@, cactus@, Some(x)),
                    timed(g@, vertex_states@, component@, time, epoch),
                    pairs_tried(g@, vertex_states@, x_neighbors@, i as int, j as int),
                    pieces_counted(cactus@, component@, cactus.spec_num_of_edges() as nat),
                    new_are_bare(vertex_states@, cactus@),
                decreases x_neighbors@.len() - j,
            {
                let z = x_neighbors[j];
                let ghost states_before = vertex_states@;
                proof {
                    assert(x_neighbors@.to_set().contains(y));
                    assert(x_neighbors@.to_set().contains(z));
                    assert(g@[x as int].contains(y) && g@[x as int].contains(z));
                }
                if y != z {
                    if vertex_states[y] == VertexState::New && vertex_states[z] == VertexState::New && g.has_edge(y, z) {
                        proof {
                            lemma_triangle_glued(g@, cactus@, component@, vertex_states@, x, y, z);
                            lemma_triangle_grown(g@, cactus@, x, y, z);
                            lemma_triangle_arcs(cactus@, x, y, z);
                            lemma_in_state_finite(vertex_states@, VertexState::New);
                            lemma_in_state_finite(vertex_states@, VertexState::Active);
                        }
                        let ghost states0 = vertex_states@;
                        let ghost cactus0 = cactus@;
                        let ghost labels0 = component@;
                        let ghost edges0 = cactus.spec_num_of_edges() as nat;
                        proof {
                            assert(!cactus0[y as int].contains(x) && !cactus0[y as int].contains(z)
                                && !cactus0[z as int].contains(x));
                            assert(!cactus0[x as int].contains(y));
                            lemma_pieces_glue(
                                cactus0,
                                joined(joined(joined(cactus0, x, y), y, z), z, x),
                                labels0,
                                states0,
                                edges0,
                                x,
                                y,
                                z,
                            );
                        }
                        add_triangle_to_graph(&mut cactus, x, y, z);
                        let label = component[x];
                        component[y] = label;
                        component[z] = label;
                        new_vertices.remove(&y);
                        new_vertices.remove(&z);
                        active_vertices.insert(y);
                        active_vertices.insert(z);
                        vertex_states[y] = VertexState::Active;
                        vertex_states[z] = VertexState::Active;
                        proof {
                            assert(new_vertices@ =~= in_state(vertex_states@, VertexState::New));
                            assert(active_vertices@ =~= in_state(vertex_states@, VertexState::Active));
                            assert(in_state(states0, VertexState::New).contains(y));
                            assert(in_state(states0, VertexState::New).contains(z));
                            assert(!in_state(states0, VertexState::Active).contains(y));
                            assert(!in_state(states0, VertexState::Active).contains(z));
                            lemma_searched_glue(g@, states0, cactus0, cactus@, x, y, z);
                            lemma_timed_glue(g@, states0, cactus0, labels0, time, epoch, x, y, z);
                            time = time.update(y as int, epoch).update(z as int, epoch);
                            assert(component@ =~= labels0.update(y as int, labels0[x as int]).update(
                                z as int,
                                labels0[x as int],
                            ));
                            assert(vertex_states@ =~= states0.update(y as int, VertexState::Active).update(
                                z as int,
                                VertexState::Active,
                            ));
                        }
                    }
                }
                proof {
                    assert forall|k: int| 0 <= k < x_neighbors@.len() implies (#[trigger] x_neighbors@[k]) < n by {
                        assert(x_neighbors@.to_set().contains(x_neighbors@[k]));
                    }
                    lemma_pair_tried(g@, states_before, vertex_states@, x_neighbors@, i as int, j as int);
                }
                j += 1;
            }
            i += 1;
        }
        proof {
            lemma_in_state_finite(vertex_states@, VertexState::New);
            lemma_in_state_finite(vertex_states@, VertexState::Active);
            assert(in_state(vertex_states@, VertexState::Active).contains(x));
            lemma_searched_finish(g@, vertex_states@, cactus@, x, x_neighbors@);
            lemma_timed_finish(g@, vertex_states@, component@, time, epoch, x);
        }
        active_vertices.remove(&x);
        vertex_states[x] = VertexState::Used;
        proof {
            assert(new_vertices@ =~= in_state(vertex_states@, VertexState::New));
            assert(active_vertices@ =~= in_state(vertex_states@, VertexState::Active));
        }
    }
    proof {
        lemma_searched_end(g@, vertex_states@, cactus@);
        lemma_timed_end(g@, vertex_states@, component@, time, epoch);
        lemma_grown_part(g@, cactus@);
    }
    (cactus, component)
}

/// Every label is a vertex.
pub open spec fn labels_valid(label: Seq<usize>) -> bool {
    forall|v: int| 0 <= v < label.len() ==> (#[trigger] label[v]) < label.len()
}

/// The ends of every arc have one label, and every label is a vertex that
/// has it: the labels name the pieces.
pub open spec fn pieces(sub: Seq<Set<usize>>, label: Seq<usize>) -> bool {
    &&& forall|a: int, b: usize| 0 <= a < sub.len() && #[trigger] sub[a].contains(b) ==> label[a] == label[b as int]
    &&& forall|x: int| 0 <= x < label.len() ==> label[(#[trigger] label[x]) as int] == label[x]
}

/// The number of pieces.
pub open spec fn pieces_left(label: Seq<usize>) -> nat {
    count_true(own_roots(label))
}

/// What was counted names pieces.
pub proof fn lemma_pieces(sub: Seq<Set<usize>>, label: Seq<usize>, edges: nat)
    requires
        pieces_counted(sub, label, edges),
    ensures
        pieces(sub, label),
        2 * edges + 3 * pieces_left(label) == 3 * label.len(),
{
    reveal(pieces_counted);
}

/// The list of every label holds vertices with that label only.
pub open spec fn lists_sound(label: Seq<usize>, lists: Seq<Vec<usize>>) -> bool {
    forall|k: int, i: int|
        0 <= k < lists.len() && 0 <= i < lists[k]@.len() ==> (#[trigger] lists[k]@[i]) < label.len() && label[lists[k]@[i] as int]
            == k
}

/// Every vertex is in the list of its label.
pub open spec fn lists_complete(label: Seq<usize>, lists: Seq<Vec<usize>>) -> bool {
    forall|x: int| 0 <= x < label.len() ==> lists[(#[trigger] label[x]) as int]@.contains(x as usize)
}

/// The labels after the piece `from` was taken into the piece `into`.
pub open spec fn relabelled(label: Seq<usize>, from: usize, into: usize) -> Seq<usize> {
    Seq::new(label.len(), |x: int| if label[x] == from {
        into
    } else {
        label[x]
    })
}

/// Joining two pieces by an edge and giving the vertices of the one the
/// label of the other leaves one piece less, whose vertices are connected.
pub proof fn lemma_pieces_joined(sub: Seq<Set<usize>>, label: Seq<usize>, u: usize, v: usize)
    requires
        simple_adjacency(sub),
        sub.len() == label.len(),
        label.len() <= usize::MAX,
        labels_valid(label),
        pieces(sub, label),
        labels_linked(sub, label),
        u < label.len(),
        v < label.len(),
        label[u as int] != label[v as int],
    ensures
        u != v,
        !sub[u as int].contains(v),
        labels_valid(relabelled(label, label[u as int], label[v as int])),
        pieces(joined(sub, u, v), relabelled(label, label[u as int], label[v as int])),
        labels_linked(joined(sub, u, v), relabelled(label, label[u as int], label[v as int])),
        pieces_left(relabelled(label, label[u as int], label[v as int])) + 1 == pieces_left(label),
{
    let cu = label[u as int];
    let cv = label[v as int];
    let more = joined(sub, u, v);
    let now = relabelled(label, cu, cv);
    lemma_edge_change(sub, u, v);
    assert(sub_adjacency(sub, more));
    lemma_connected_arc(more, u, v);
    lemma_connected_arc(more, v, u);
    assert(label[cu as int] == cu && label[cv as int] == cv);
    assert forall|a: usize, b: usize|
        a < now.len() && b < now.len() && #[trigger] now[a as int] == #[trigger] now[b as int] implies connected(
        more,
        a,
        b,
    ) by {
        let from_a = label[a as int] == cu;
        let from_b = label[b as int] == cu;
        if from_a == from_b {
            if from_a {
                assert(label[a as int] == label[b as int]);
            }
            lemma_connected_mono(sub, more, a, b);
        } else if from_a {
            assert(label[a as int] == label[u as int]);
            assert(label[v as int] == label[b as int]);
            lemma_connected_mono(sub, more, a, u);
            lemma_connected_mono(sub, more, v, b);
            lemma_connected_trans(more, a, u, v);
            lemma_connected_trans(more, a, v, b);
        } else {
            assert(label[a as int] == label[v as int]);
            assert(label[u as int] == label[b as int]);
            lemma_connected_mono(sub, more, a, v);
            lemma_connected_mono(sub, more, u, b);
            lemma_connected_trans(more, a, v, u);
            lemma_connected_trans(more, a, u, b);
        }
    }
    assert forall|x: int| 0 <= x < now.len() implies now[(#[trigger] now[x]) as int] == now[x] by {
        assert(label[label[x] as int] == label[x]);
    }
    let roots = own_roots(label);
    assert(own_roots(now) =~= roots.update(cu as int, false)) by {
        assert forall|x: int| 0 <= x < now.len() implies own_roots(now)[x] == roots.update(cu as int, false)[x] by {
            if x == cu {
            } else if label[x] == cu {
                assert(label[x] != x);
            }
        }
    }
    lemma_count_true_update(roots, cu as int, false);
}

/// The state of joining pieces: the labels name the pieces, whose vertices
/// are connected, and the list of every label holds the vertices that have it.
#[verifier::opaque]
pub open spec fn joining(sub: Seq<Set<usize>>, label: Seq<usize>, lists: Seq<Vec<usize>>) -> bool {
    &&& sub.len() == label.len()
    &&& lists.len() == label.len()
    &&& labels_valid(label)
    &&& labels_linked(sub, label)
    &&& pieces(sub, label)
    &&& lists_sound(label, lists)
    &&& lists_complete(label, lists)
}

/// Pieces with their lists are a state of joining.
pub proof fn lemma_joining_begin(sub: Seq<Set<usize>>, label: Seq<usize>, lists: Seq<Vec<usize>>)
    requires
        sub.len() == label.len(),
        lists.len() == label.len(),
        labels_valid(label),
        labels_linked(sub, label),
        pieces(sub, label),
        lists_sound(label, lists),
        lists_complete(label, lists),
    ensures
        joining(sub, label, lists),
{
    reveal(joining);
}

/// What a state of joining says of the labels.
pub proof fn lemma_joining_end(sub: Seq<Set<usize>>, label: Seq<usize>, lists: Seq<Vec<usize>>)
    requires
        joining(sub, label, lists),
    ensures
        labels_valid(label),
        labels_linked(sub, label),
        pieces(sub, label),
{
    reveal(joining);
}

/// What a state of joining says of two vertices and of the list of the
/// first one's label.
pub proof fn lemma_joining_pair(sub: Seq<Set<usize>>, label: Seq<usize>, lists: Seq<Vec<usize>>, u: usize, v: usize)
    requires
        joining(sub, label, lists),
        u < label.len(),
        v < label.len(),
    ensures
        label[u as int] < label.len(),
        label[v as int] < label.len(),
        label[u as int] == label[v as int] ==> connected(sub, u, v),
        forall|i: int|
            0 <= i < lists[label[u as int] as int]@.len() ==> (#[trigger] lists[label[u as int] as int]@[i]) < label.len()
                && label[lists[label[u as int] as int]@[i] as int] == label[u as int],
{
    reveal(joining);
}

/// The lists after the list of `from` was moved behind the list of `into`
/// hold the vertices by their new labels.
pub proof fn lemma_lists_joined(
    label: Seq<usize>,
    lists: Seq<Vec<usize>>,
    from: usize,
    into: usize,
    now: Seq<usize>,
    moved: Seq<Vec<usize>>,
)
    requires
        lists.len() == label.len(),
        labels_valid(label),
        lists_sound(label, lists),
        lists_complete(label, lists),
        from < label.len(),
        into < label.len(),
        from != into,
        now.len() == label.len(),
        moved.len() == label.len(),
        forall|x: int|
            0 <= x < label.len() ==> #[trigger] now[x] == (if label[x] == from && lists[from as int]@.contains(x as usize) {
                into
            } else {
                label[x]
            }),
        moved[into as int]@ == lists[into as int]@ + lists[from as int]@,
        moved[from as int]@.len() == 0,
        forall|k: int| 0 <= k < label.len() && k != into && k != from ==> (#[trigger] moved[k])@ == lists[k]@,
    ensures
        now == relabelled(label, from, into),
        lists_sound(now, moved),
        lists_complete(now, moved),
{
    assert(now =~= relabelled(label, from, into)) by {
        assert forall|x: int| 0 <= x < label.len() implies now[x] == relabelled(label, from, into)[x] by {
            if label[x] == from {
                assert(lists[label[x] as int]@.contains(x as usize));
            }
        }
    }
    assert forall|k: int, i: int| 0 <= k < moved.len() && 0 <= i < moved[k]@.len() implies (#[trigger] moved[k]@[i])
        < now.len() && now[moved[k]@[i] as int] == k by {
        if k == into {
            if i < lists[k]@.len() {
                assert(moved[k]@[i] == lists[k]@[i]);
            } else {
                assert(moved[k]@[i] == lists[from as int]@[i - lists[k]@.len()]);
            }
        } else {
            assert(k != from);
            assert(moved[k]@[i] == lists[k]@[i]);
        }
    }
    assert forall|x: int| 0 <= x < now.len() implies moved[(#[trigger] now[x]) as int]@.contains(x as usize) by {
        let old_label = label[x] as int;
        assert(0 <= old_label < label.len());
        assert(lists[old_label]@.contains(x as usize));
        let k = choose|k: int| 0 <= k < lists[old_label]@.len() && lists[old_label]@[k] == x as usize;
        assert(lists[old_label]@[k] < label.len());
        if old_label == from {
            assert(moved[into as int]@[lists[into as int]@.len() + k] == x as usize);
        } else if old_label == into {
            assert(moved[into as int]@[k] == x as usize);
        } else {
            assert(moved[old_label]@[k] == x as usize);
        }
    }
}

/// Joining the pieces of `u` and `v` by their edge, with the vertices of the
/// first relabelled and its list moved, is again a state of joining, with one
/// piece less.
pub proof fn lemma_joining_joined(
    sub: Seq<Set<usize>>,
    label: Seq<usize>,
    lists: Seq<Vec<usize>>,
    u: usize,
    v: usize,
    now: Seq<usize>,
    moved: Seq<Vec<usize>>,
)
    requires
        simple_adjacency(sub),
        label.len() <= usize::MAX,
        joining(sub, label, lists),
        u < label.len(),
        v < label.len(),
        label[u as int] != label[v as int],
        now.len() == label.len(),
        moved.len() == label.len(),
        forall|x: int|
            0 <= x < label.len() ==> #[trigger] now[x] == (if label[x] == label[u as int] && lists[label[u as int] as int]@.contains(
                x as usize,
            ) {
                label[v as int]
            } else {
                label[x]
            }),
        moved[label[v as int] as int]@ == lists[label[v as int] as int]@ + lists[label[u as int] as int]@,
        moved[label[u as int] as int]@.len() == 0,
        forall|k: int|
            0 <= k < label.len() && k != label[v as int] && k != label[u as int] ==> (#[trigger] moved[k])@ == lists[k]@,
    ensures
        u != v,
        !sub[u as int].contains(v),
        joining(joined(sub, u, v), now, moved),
        pieces_left(now) + 1 == pieces_left(label),
{
    reveal(joining);
    lemma_pieces_joined(sub, label, u, v);
    lemma_lists_joined(label, lists, label[u as int], label[v as int], now, moved);
    lemma_edge_change(sub, u, v);
}

/// Joins the piece of `u` to the piece of `v`: the vertices of the first
/// take the label of the second, and the edge between `u` and `v` is added.
fn join_pieces(cactus: &mut Graph, c: &mut [usize], components: &mut Vec<Vec<usize>>, u: usize, v: usize)
    requires
        old(cactus).wf(),
        joining(old(cactus)@, old(c)@, old(components)@),
        u < old(c)@.len(),
        v < old(c)@.len(),
        old(c)@[u as int] != old(c)@[v as int],
    ensures
        final(cactus).wf(),
        final(cactus)@ == joined(old(cactus)@, u, v),
        u != v,
        final(cactus).spec_num_of_edges() == old(cactus).spec_num_of_edges() + 1,
        final(c)@.len() == old(c)@.len(),
        joining(final(cactus)@, final(c)@, final(components)@),
        pieces_left(final(c)@) + 1 == pieces_left(old(c)@),
{
    let ghost n = c@.len();
    let ghost before = cactus@;
    let ghost labels = c@;
    let ghost lists = components@;
    proof {
        lemma_joining_pair(before, labels, lists, u, v);
        assert(lists.len() == n && before.len() == n) by {
            reveal(joining);
        }
    }
    let cu = c[u];
    let cv = c[v];
    let u_component = components[cu].clone();
    let mut m: usize = 0;
    while m < u_component.len()
        invariant
            m <= u_component@.len(),
            v < n,
            cu < n,
            cv < n,
            cu != cv,
            labels.len() == n,
            labels[v as int] == cv,
            c@.len() == n,
            components@.len() == n,
            lists.len() == n,
            u_component@ == lists[cu as int]@,
            forall|i: int|
                0 <= i < u_component@.len() ==> (#[trigger] u_component@[i]) < n && labels[u_component@[i] as int] == cu,
            forall|x: int|
                0 <= x < n ==> #[trigger] c@[x] == (if labels[x] == cu && u_component@.take(m as int).contains(
                    x as usize,
                ) {
                    cv
                } else {
                    labels[x]
                }),
            components@[cv as int]@ == lists[cv as int]@ + u_component@.take(m as int),
            forall|k: int| 0 <= k < n && k != cv ==> (#[trigger] components@[k])@ == lists[k]@,
        decreases u_component@.len() - m,
    {
        let x = u_component[m];
        proof {
            assert(u_component@[m as int] < n);
            lemma_push_contains(u_component@.take(m as int), x);
            assert(u_component@.take(m + 1) =~= u_component@.take(m as int).push(x));
        }
        c[x] = c[v];
        components[cv].push(x);
        proof {
            assert(components@[cv as int]@ =~= lists[cv as int]@ + u_component@.take(m + 1));
        }
        m += 1;
    }
    components[cu].clear();
    cactus.add_edge(u, v);
    proof {
        assert(u_component@.take(u_component@.len() as int) =~= u_component@);
        lemma_joining_joined(before, labels, lists, u, v, c@, components@);
    }
}

/// An edge of `whole` added to `sub` leaves it above `start` and within
/// `start` and `whole` together, and what was connected stays so.
pub proof fn lemma_joined_within(
    start: Seq<Set<usize>>,
    sub: Seq<Set<usize>>,
    whole: Seq<Set<usize>>,
    u: usize,
    v: usize,
)
    requires
        sub.len() == whole.len(),
        simple_adjacency(whole),
        sub_adjacency(start, sub),
        forall|a: int, b: usize|
            0 <= a < sub.len() && #[trigger] sub[a].contains(b) ==> start[a].contains(b) || whole[a].contains(b),
        u < sub.len(),
        v < sub.len(),
        whole[u as int].contains(v),
    ensures
        sub_adjacency(start, joined(sub, u, v)),
        sub_adjacency(sub, joined(sub, u, v)),
        connected(joined(sub, u, v), u, v),
        forall|a: int, b: usize|
            0 <= a < sub.len() && #[trigger] joined(sub, u, v)[a].contains(b) ==> start[a].contains(b) || whole[a].contains(
                b,
            ),
{
    lemma_edge_change(sub, u, v);
    assert(whole[v as int].contains(u));
    lemma_connected_arc(joined(sub, u, v), u, v);
}

/// Joins the pieces of the cactus by single edges of the graph: wherever an
/// edge of the graph joins two pieces, the vertices of the first take the
/// label of the second and the edge is added.
pub fn connect_cactus(g: &Graph, cactus: &mut Graph, c: &mut [usize])
    requires
        g.wf(),
        old(cactus).wf(),
        old(cactus)@.len() == g@.len(),
        old(c)@.len() == g@.len(),
        labels_valid(old(c)@),
        labels_linked(old(cactus)@, old(c)@),
        pieces(old(cactus)@, old(c)@),
    ensures
        final(cactus).wf(),
        final(c)@.len() == g@.len(),
        labels_valid(final(c)@),
        labels_linked(final(cactus)@, final(c)@),
        pieces(final(cactus)@, final(c)@),
        sub_adjacency(old(cactus)@, final(cactus)@),
        forall|u: int, v: usize|
            0 <= u < g@.len() && #[trigger] final(cactus)@[u].contains(v) ==> old(cactus)@[u].contains(v) || g@[u].contains(
                v,
            ),
        forall|u: usize, v: usize| g.spec_has_edge(u, v) ==> connected(final(cactus)@, u, v),
        final(cactus).spec_num_of_edges() + pieces_left(final(c)@) == old(cactus).spec_num_of_edges() + pieces_left(
            old(c)@,
        ),
        final(cactus).spec_num_of_edges() >= old(cactus).spec_num_of_edges(),
{
    let n = cactus.num_of_vertices();
    let mut components: Vec<Vec<usize>> = Vec::with_capacity(n);
    let mut i: usize = 0;
    while i < n
        invariant
            i <= n,
            components@.len() == i,
            forall|k: int| 0 <= k < i ==> (#[trigger] components@[k])@.len() == 0,
        decreases n - i,
    {
        components.push(Vec::new());
        i += 1;
    }
    let mut i: usize = 0;
    while i < n
        invariant
            i <= n,
            n == g@.len(),
            c@ == old(c)@,
            c@.len() == n,
            components@.len() == n,
            labels_valid(c@),
            lists_sound(c@, components@),
            forall|x: int| 0 <= x < i ==> components@[(#[trigger] c@[x]) as int]@.contains(x as usize),
        decreases n - i,
    {
        let ghost lists = components@;
        let label = c[i];
        components[label].push(i);
        proof {
            lemma_push_contains(lists[label as int]@, i);
            assert forall|k: int, m: int| 0 <= k < components@.len() && 0 <= m < components@[k]@.len() implies (
            #[trigger] components@[k]@[m]) < c@.len() && c@[components@[k]@[m] as int] == k by {
                if k == label && m == lists[k]@.len() {
                } else {
                    assert(components@[k]@[m] == lists[k]@[m]);
                }
            }
            assert forall|x: int| 0 <= x < i + 1 implies components@[(#[trigger] c@[x]) as int]@.contains(x as usize) by {
                if x < i {
                    assert(lists[c@[x] as int]@.contains(x as usize));
                }
            }
        }
        i += 1;
    }
    proof {
        lemma_joining_begin(cactus@, c@, components@);
    }
    let mut u: usize = 0;
    while u < n
        invariant
            u <= n,
            n == g@.len(),
            g.wf(),
            cactus.wf(),
            cactus@.len() == n,
            c@.len() == n,
            joining(cactus@, c@, components@),
            sub_adjacency(old(cactus)@, cactus@),
            forall|a: int, b: usize|
                0 <= a < n && #[trigger] cactus@[a].contains(b) ==> old(cactus)@[a].contains(b) || g@[a].contains(b),
            forall|a: usize, b: usize| a < u && g.spec_has_edge(a, b) ==> connected(cactus@, a, b),
            cactus.spec_num_of_edges() + pieces_left(c@) == old(cactus).spec_num_of_edges() + pieces_left(old(c)@),
            cactus.spec_num_of_edges() >= old(cactus).spec_num_of_edges(),
        decreases n - u,
    {
        let nb = g.neighbor_list(u);
        let mut t: usize = 0;
        while t < nb.len()
            invariant
                t <= nb@.len(),
                u < n,
                n == g@.len(),
                g.wf(),
                cactus.wf(),
                cactus@.len() == n,
                c@.len() == n,
                nb@.to_set() == g@[u as int],
                joining(cactus@, c@, components@),
                sub_adjacency(old(cactus)@, cactus@),
                forall|a: int, b: usize|
                    0 <= a < n && #[trigger] cactus@[a].contains(b) ==> old(cactus)@[a].contains(b) || g@[a].contains(
                        b,
                    ),
                forall|a: usize, b: usize| a < u && g.spec_has_edge(a, b) ==> connected(cactus@, a, b),
                forall|k: int| 0 <= k < t ==> connected(cactus@, u, #[trigger] nb@[k]),
                cactus.spec_num_of_edges() + pieces_left(c@) == old(cactus).spec_num_of_edges() + pieces_left(old(c)@),
                cactus.spec_num_of_edges() >= old(cactus).spec_num_of_edges(),
            decreases nb@.len() - t,
        {
            let v = nb[t];
            let ghost before = cactus@;
            proof {
                assert(nb@.to_set().contains(v));
                assert(g@[u as int].contains(v));
                lemma_joining_pair(before, c@, components@, u, v);
            }
            if c[u] != c[v] {
                join_pieces(cactus, c, &mut components, u, v);
                proof {
                    lemma_joined_within(old(cactus)@, before, g@, u, v);
                    assert forall|a: usize, b: usize| a < u && g.spec_has_edge(a, b) implies connected(
                        cactus@,
                        a,
                        b,
                    ) by {
                        lemma_connected_mono(before, cactus@, a, b);
                    }
                    assert forall|k: int| 0 <= k < t implies connected(cactus@, u, #[trigger] nb@[k]) by {
                        lemma_connected_mono(before, cactus@, u, nb@[k]);
                    }
                }
            }
            t += 1;
        }
        proof {
            assert forall|a: usize, b: usize| a < u + 1 && g.spec_has_edge(a, b) implies connected(cactus@, a, b) by {
                if a == u {
                    assert(nb@.to_set().contains(b));
                    let k = choose|k: int| 0 <= k < nb@.len() && nb@[k] == b;
                    assert(connected(cactus@, u, nb@[k]));
                }
            }
        }
        u += 1;
    }
    proof {
        lemma_joining_end(cactus@, c@, components@);
    }
}

/// The result of gluing triangles and joining the pieces: a subgraph on the
/// same vertices that connects the endpoints of every edge of the graph,
/// with three edges for each triangle that was glued and one more for
/// every piece that these left to be joined.
pub open spec fn cactus_result(graph: Graph, result: Graph) -> bool {
    &&& crate::mps_alg::spanning_subgraph(result, graph)
    &&& exists|label: Seq<usize>, triangles: nat| #[trigger]
        cactus_counted(graph@, result, label, triangles)
}

/// The labels name the pieces of the result, whose vertices are connected;
/// the result holds `triangles` glued triangles and one edge more for
/// every piece joined.
pub open spec fn cactus_counted(adj: Seq<Set<usize>>, result: Graph, label: Seq<usize>, triangles: nat) -> bool {
    &&& label.len() == adj.len()
    &&& labels_valid(label)
    &&& pieces(result@, label)
    &&& labels_linked(result@, label)
    &&& result.spec_num_of_edges() + pieces_left(label) == adj.len() + triangles
    &&& exists|glued: Graph, named: Seq<usize>, time: Seq<nat>| #[trigger]
        glued_in(adj, glued, named, time, result, triangles)
}

/// The graph `glued` is a part of the result with three edges for each of
/// the triangles: each of its edges is an edge of `adj` and lies in a
/// triangle of `glued`, and no triangle of `adj` has two vertices outside
/// these triangles. The labels `named` name its pieces, which stand in the
/// order of the times.
pub open spec fn glued_in(
    adj: Seq<Set<usize>>,
    glued: Graph,
    named: Seq<usize>,
    time: Seq<nat>,
    result: Graph,
    triangles: nat,
) -> bool {
    &&& glued.wf()
    &&& glued.spec_num_of_edges() == 3 * triangles
    &&& sub_adjacency(glued@, result@)
    &&& grown_from(adj, glued@)
    &&& triangles_touched(adj, glued@)
    &&& named.len() == adj.len()
    &&& labels_valid(named)
    &&& pieces_counted(glued@, named, 3 * triangles)
    &&& ordered_pieces(adj, named, time)
}

/// Along a walk the label stays, where the ends of every arc have one
/// label.
pub proof fn lemma_walk_keeps_label(sub: Seq<Set<usize>>, label: Seq<usize>, u: usize, v: usize, steps: nat)
    requires
        forall|a: int, b: usize| 0 <= a < sub.len() && #[trigger] sub[a].contains(b) ==> label[a] == label[b as int],
        crate::connectivity::reach(sub, u, v, steps),
    ensures
        label[u as int] == label[v as int],
    decreases steps,
{
    if steps > 0 {
        let w = choose|w: usize| crate::connectivity::reach(sub, u, w, (steps - 1) as nat) && #[trigger] arc(sub, w, v);
        lemma_walk_keeps_label(sub, label, u, w, (steps - 1) as nat);
        assert(sub[w as int].contains(v));
    }
}

/// What was counted names pieces by valid labels.
pub proof fn lemma_pieces_valid(sub: Seq<Set<usize>>, label: Seq<usize>, edges: nat)
    requires
        pieces_counted(sub, label, edges),
        forall|v: int| 0 <= v < label.len() ==> (#[trigger] label[v]) < label.len(),
    ensures
        labels_valid(label),
        pieces(sub, label),
{
    lemma_pieces(sub, label, edges);
}

/// Pieces of glued triangles that were then joined by edges of the graph
/// are a result of the whole.
pub proof fn lemma_cactus_result(graph: Graph, glued: Graph, before: Seq<usize>, result: Graph, label: Seq<usize>)
    requires
        graph.wf(),
        glued.wf(),
        result.wf(),
        glued@.len() == graph@.len(),
        before.len() == graph@.len(),
        label.len() == graph@.len(),
        grown_from(graph@, glued@),
        triangles_touched(graph@, glued@),
        pieces_counted(glued@, before, glued.spec_num_of_edges() as nat),
        labels_valid(label),
        pieces(result@, label),
        labels_linked(result@, label),
        sub_adjacency(glued@, result@),
        forall|u: int, v: usize|
            0 <= u < graph@.len() && #[trigger] result@[u].contains(v) ==> glued@[u].contains(v) || graph@[u].contains(v),
        forall|u: usize, v: usize| graph.spec_has_edge(u, v) ==> connected(result@, u, v),
        result.spec_num_of_edges() + pieces_left(label) == glued.spec_num_of_edges() + pieces_left(before),
        result.spec_num_of_edges() >= glued.spec_num_of_edges(),
        labels_valid(before),
        exists|time: Seq<nat>| #[trigger] ordered_pieces(graph@, before, time),
    ensures
        cactus_result(graph, result),
{
    let time = choose|time: Seq<nat>| #[trigger] ordered_pieces(graph@, before, time);
    let edges = glued.spec_num_of_edges() as nat;
    lemma_pieces(glued@, before, edges);
    lemma_grown_part(graph@, glued@);
    assert(sub_adjacency(result@, graph@)) by {
        assert forall|u: int, v: usize| 0 <= u < result@.len() && #[trigger] result@[u].contains(v) implies graph@[u].contains(
            v,
        ) by {
            if glued@[u].contains(v) {
            }
        }
    }
    let triangles = (edges / 3) as nat;
    assert(3 * triangles == edges);
    assert(glued_in(graph@, glued, before, time, result, triangles));
    assert(cactus_counted(graph@, result, label, triangles));
}

impl CactiApproximation {
    /// Glues triangles together, then joins the pieces by single edges.
    pub fn maximum_planar_subgraph(g: &Graph) -> (result: Graph)
        requires
            g.wf(),
        ensures
            cactus_result(*g, result),
    {
        let (mut result, mut c) = connect_triangles(g);
        let ghost glued = result;
        let ghost before = c@;
        proof {
            lemma_pieces_valid(glued@, before, glued.spec_num_of_edges() as nat);
        }
        connect_cactus(g, &mut result, c.as_mut_slice());
        proof {
            lemma_cactus_result(*g, glued, before, result, c@);
        }
        result
    }
}

} // verus!
