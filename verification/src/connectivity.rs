//! Reachability in adjacency structures.

use crate::graphs::simple_adjacency;
use vstd::prelude::*;

verus! {

/// Both structures have the same vertices, and every arc of `a` is an arc
/// of `b`.
pub open spec fn sub_adjacency(a: Seq<Set<usize>>, b: Seq<Set<usize>>) -> bool {
    &&& a.len() == b.len()
    &&& forall|u: int, v: usize| 0 <= u < a.len() && #[trigger] a[u].contains(v) ==> b[u].contains(v)
}

/// There is an arc from the vertex `u` to `v`.
pub open spec fn arc(adj: Seq<Set<usize>>, u: usize, v: usize) -> bool {
    u < adj.len() && adj[u as int].contains(v)
}

/// There is a walk of exactly `steps` arcs from the vertex `u` to `v`.
pub open spec fn reach(adj: Seq<Set<usize>>, u: usize, v: usize, steps: nat) -> bool
    decreases steps,
{
    if steps == 0 {
        u == v && u < adj.len()
    } else {
        exists|w: usize| reach(adj, u, w, (steps - 1) as nat) && #[trigger] arc(adj, w, v)
    }
}

/// There is a walk from the vertex `u` to `v`.
pub open spec fn connected(adj: Seq<Set<usize>>, u: usize, v: usize) -> bool {
    exists|steps: nat| reach(adj, u, v, steps)
}

/// Every vertex is connected to itself.
pub proof fn lemma_connected_refl(adj: Seq<Set<usize>>, u: usize)
    requires
        u < adj.len(),
    ensures
        connected(adj, u, u),
{
    assert(reach(adj, u, u, 0));
}

/// The endpoints of an arc are connected.
pub proof fn lemma_connected_arc(adj: Seq<Set<usize>>, u: usize, v: usize)
    requires
        u < adj.len(),
        adj[u as int].contains(v),
    ensures
        connected(adj, u, v),
{
    assert(reach(adj, u, u, 0));
    assert(arc(adj, u, v));
    assert(reach(adj, u, v, 1));
}

/// A walk stays a walk when arcs are added.
pub proof fn lemma_reach_mono(a: Seq<Set<usize>>, b: Seq<Set<usize>>, u: usize, v: usize, steps: nat)
    requires
        sub_adjacency(a, b),
        reach(a, u, v, steps),
    ensures
        reach(b, u, v, steps),
    decreases steps,
{
    if steps > 0 {
        let w = choose|w: usize| reach(a, u, w, (steps - 1) as nat) && #[trigger] arc(a, w, v);
        lemma_reach_mono(a, b, u, w, (steps - 1) as nat);
        assert(arc(b, w, v));
    }
}

/// Connected vertices stay connected when arcs are added.
pub proof fn lemma_connected_mono(a: Seq<Set<usize>>, b: Seq<Set<usize>>, u: usize, v: usize)
    requires
        sub_adjacency(a, b),
        connected(a, u, v),
    ensures
        connected(b, u, v),
{
    let steps = choose|steps: nat| reach(a, u, v, steps);
    lemma_reach_mono(a, b, u, v, steps);
}

/// Two walks that meet make one walk.
pub proof fn lemma_reach_trans(adj: Seq<Set<usize>>, u: usize, v: usize, w: usize, first: nat, second: nat)
    requires
        reach(adj, u, v, first),
        reach(adj, v, w, second),
    ensures
        reach(adj, u, w, first + second),
    decreases second,
{
    if second > 0 {
        let x = choose|x: usize| reach(adj, v, x, (second - 1) as nat) && #[trigger] arc(adj, x, w);
        lemma_reach_trans(adj, u, v, x, first, (second - 1) as nat);
        assert(reach(adj, u, x, (first + second - 1) as nat));
        assert(arc(adj, x, w));
    }
}

/// Being connected is transitive.
pub proof fn lemma_connected_trans(adj: Seq<Set<usize>>, u: usize, v: usize, w: usize)
    requires
        connected(adj, u, v),
        connected(adj, v, w),
    ensures
        connected(adj, u, w),
{
    let first = choose|steps: nat| reach(adj, u, v, steps);
    let second = choose|steps: nat| reach(adj, v, w, steps);
    lemma_reach_trans(adj, u, v, w, first, second);
}

/// In a simple graph a walk can be walked backwards.
pub proof fn lemma_reach_sym(adj: Seq<Set<usize>>, u: usize, v: usize, steps: nat)
    requires
        simple_adjacency(adj),
        reach(adj, u, v, steps),
    ensures
        reach(adj, v, u, steps),
    decreases steps,
{
    if steps > 0 {
        let w = choose|w: usize| reach(adj, u, w, (steps - 1) as nat) && #[trigger] arc(adj, w, v);
        lemma_reach_sym(adj, u, w, (steps - 1) as nat);
        assert(adj[w as int].contains(v));
        assert(arc(adj, v, w));
        assert(reach(adj, v, v, 0));
        assert(reach(adj, v, w, 1));
        lemma_reach_trans(adj, v, w, u, 1, (steps - 1) as nat);
    }
}

/// In a simple graph being connected is symmetric.
pub proof fn lemma_connected_sym(adj: Seq<Set<usize>>, u: usize, v: usize)
    requires
        simple_adjacency(adj),
        connected(adj, u, v),
    ensures
        connected(adj, v, u),
{
    let steps = choose|steps: nat| reach(adj, u, v, steps);
    lemma_reach_sym(adj, u, v, steps);
}

/// `b` has the vertices of `a` and maybe more, and every arc of `a` is an
/// arc of `b`.
pub open spec fn extends(a: Seq<Set<usize>>, b: Seq<Set<usize>>) -> bool {
    &&& a.len() <= b.len()
    &&& forall|u: int, v: usize| 0 <= u < a.len() && #[trigger] a[u].contains(v) ==> b[u].contains(v)
}

/// A walk stays a walk when vertices and arcs are added.
pub proof fn lemma_reach_extends(a: Seq<Set<usize>>, b: Seq<Set<usize>>, u: usize, v: usize, steps: nat)
    requires
        extends(a, b),
        reach(a, u, v, steps),
    ensures
        reach(b, u, v, steps),
    decreases steps,
{
    if steps > 0 {
        let w = choose|w: usize| reach(a, u, w, (steps - 1) as nat) && #[trigger] arc(a, w, v);
        lemma_reach_extends(a, b, u, w, (steps - 1) as nat);
        assert(arc(b, w, v));
    }
}

/// Connected vertices stay connected when vertices and arcs are added.
pub proof fn lemma_connected_extends(a: Seq<Set<usize>>, b: Seq<Set<usize>>, u: usize, v: usize)
    requires
        extends(a, b),
        connected(a, u, v),
    ensures
        connected(b, u, v),
{
    let steps = choose|steps: nat| reach(a, u, v, steps);
    lemma_reach_extends(a, b, u, v, steps);
}

/// At most `n` different values lie below `n`.
pub proof fn lemma_pigeonhole(s: Seq<usize>, n: nat)
    requires
        s.no_duplicates(),
        forall|k: int| 0 <= k < s.len() ==> (#[trigger] s[k]) < n,
        n <= usize::MAX + 1,
    ensures
        s.len() <= n,
{
    crate::graphs::lemma_between_len(0, n);
    s.unique_seq_to_set();
    assert(s.to_set().subset_of(crate::graphs::between(0, n))) by {
        assert forall|x: usize| s.to_set().contains(x) implies crate::graphs::between(0, n).contains(x) by {
            let k = choose|k: int| 0 <= k < s.len() && s[k] == x;
            assert(s[k] < n);
        }
    }
    vstd::set_lib::lemma_len_subset(s.to_set(), crate::graphs::between(0, n));
}

} // verus!
