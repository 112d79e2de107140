//! Listing the triangles of a graph.

use crate::connectivity::arc;
use crate::graphs::{any_element, Graph};
use crate::sorting::{lemma_rearranged, sort_by_degree};
use std::cmp::Ordering;
use std::collections::HashSet;
use vstd::prelude::*;
use vstd::std_specs::cmp::PartialOrdSpec;

verus! {

broadcast use vstd::std_specs::hash::group_hash_axioms;

/// `a` compares as less than or equal to `b`.
pub open spec fn at_most<T: PartialOrd>(a: T, b: T) -> bool {
    a.partial_cmp_spec(&b) matches Some(Ordering::Less | Ordering::Equal)
}

/// The three values in the order that three comparisons put them in.
pub open spec fn sorted_triple<T: PartialOrd>(a: T, b: T, c: T) -> (T, T, T) {
    if at_most(a, b) {
        if at_most(b, c) {
            (a, b, c)
        } else if at_most(a, c) {
            (a, c, b)
        } else {
            (c, a, b)
        }
    } else if at_most(a, c) {
        (b, a, c)
    } else if at_most(b, c) {
        (b, c, a)
    } else {
        (c, b, a)
    }
}

/// The triple `r` holds the values `a`, `b`, `c` in some order.
pub open spec fn rearranged<T>(r: (T, T, T), a: T, b: T, c: T) -> bool {
    ||| r == (a, b, c)
    ||| r == (a, c, b)
    ||| r == (b, a, c)
    ||| r == (b, c, a)
    ||| r == (c, a, b)
    ||| r == (c, b, a)
}

/// Puts three values in ascending order.
pub fn sort_3tuple<T>(a: T, b: T, c: T) -> (r: (T, T, T)) where T: PartialOrd
    ensures
        rearranged(r, a, b, c),
        T::obeys_partial_cmp_spec() ==> r == sorted_triple(a, b, c),
{
    if a <= b {
        if b <= c {
            (a, b, c)
        } else if a <= c {
            (a, c, b)
        } else {
            (c, a, b)
        }
    } else if a <= c {
        (b, a, c)
    } else if b <= c {
        (b, c, a)
    } else {
        (c, b, a)
    }
}

/// Where any two of the three values can be compared, the triple comes out
/// in ascending order.
pub proof fn lemma_sorted_triple_ascends<T: PartialOrd>(a: T, b: T, c: T)
    requires
        at_most(a, b) || at_most(b, a),
        at_most(a, c) || at_most(c, a),
        at_most(b, c) || at_most(c, b),
    ensures
        at_most(sorted_triple(a, b, c).0, sorted_triple(a, b, c).1),
        at_most(sorted_triple(a, b, c).1, sorted_triple(a, b, c).2),
        rearranged(sorted_triple(a, b, c), a, b, c),
{
}

/// The three vertices are pairwise neighbours.
pub open spec fn is_triangle(adj: Seq<Set<usize>>, t: (usize, usize, usize)) -> bool {
    &&& arc(adj, t.0, t.1)
    &&& arc(adj, t.1, t.2)
    &&& arc(adj, t.0, t.2)
    &&& arc(adj, t.1, t.0)
    &&& arc(adj, t.2, t.1)
    &&& arc(adj, t.2, t.0)
}

/// The triple holds the vertex `x`.
pub open spec fn holds(t: (usize, usize, usize), x: usize) -> bool {
    t.0 == x || t.1 == x || t.2 == x
}

/// Two triples hold the same vertices.
pub open spec fn same_vertices(s: (usize, usize, usize), t: (usize, usize, usize)) -> bool {
    &&& holds(t, s.0) && holds(t, s.1) && holds(t, s.2)
    &&& holds(s, t.0) && holds(s, t.1) && holds(s, t.2)
}

/// The three vertices in ascending order.
pub open spec fn ordered(t: (usize, usize, usize)) -> (usize, usize, usize) {
    let (a, b, c) = t;
    if a <= b {
        if b <= c {
            (a, b, c)
        } else if a <= c {
            (a, c, b)
        } else {
            (c, a, b)
        }
    } else if a <= c {
        (b, a, c)
    } else if b <= c {
        (b, c, a)
    } else {
        (c, b, a)
    }
}

/// One place of the pair of triples is smaller and those before it are
/// equal.
pub open spec fn rank_below(a: (nat, nat, nat), b: (nat, nat, nat)) -> bool {
    a.0 < b.0 || (a.0 == b.0 && a.1 < b.1) || (a.0 == b.0 && a.1 == b.1 && a.2 < b.2)
}

/// The triangles of the graph, each with its vertices in ascending order.
pub open spec fn triangles(adj: Seq<Set<usize>>) -> Set<(usize, usize, usize)> {
    Set::new(|t: (usize, usize, usize)| t.0 < t.1 < t.2 && is_triangle(adj, t))
}

/// The listed triples are triangles of the graph, no two of them hold the
/// same vertices, and every triangle of the graph is among them.
pub open spec fn lists_triangles(adj: Seq<Set<usize>>, listed: Seq<(usize, usize, usize)>) -> bool {
    &&& forall|k: int| 0 <= k < listed.len() ==> is_triangle(adj, #[trigger] listed[k])
    &&& forall|j: int, k: int|
        0 <= j < k < listed.len() ==> !same_vertices(#[trigger] listed[j], #[trigger] listed[k])
    &&& forall|t: (usize, usize, usize)| #[trigger]
        triangles(adj).contains(t) ==> exists|k: int| 0 <= k < listed.len() && same_vertices(#[trigger] listed[k], t)
}

/// Lists the triangles of a graph one by one. The vertices are taken in
/// descending order of their degrees; the vertex in turn marks its
/// neighbours that were not in turn yet, and every edge between two marked
/// vertices closes a triangle.
pub struct TriangleLister<'a> {
    graph: &'a Graph,
    marked: HashSet<usize>,
    processed: Vec<bool>,
    sorted_vertices: Vec<usize>,
    u_neighbors: Vec<usize>,
    u: usize,
    v: usize,
}

impl<'a> TriangleLister<'a> {
    /// The graph whose triangles are listed.
    pub closed spec fn graph(&self) -> Graph {
        *self.graph
    }

    /// The vertices that were not in turn yet, the marked vertices, and the
    /// neighbours still to be looked at: how far the listing is from its
    /// end.
    pub closed spec fn rank(&self) -> (nat, nat, nat) {
        (self.sorted_vertices@.len(), self.marked@.len(), self.u_neighbors@.len())
    }

    /// The vertex in turn was not in turn before, the marked vertices are
    /// neighbours of it that were not in turn yet, and the neighbours still
    /// to be looked at belong to a neighbour of it that is no longer marked.
    pub closed spec fn wf(&self) -> bool {
        let adj = self.graph@;
        let waiting = self.sorted_vertices@;
        &&& self.graph.wf()
        &&& self.processed@.len() == adj.len()
        &&& self.marked@.finite()
        &&& waiting.no_duplicates()
        &&& forall|k: int| 0 <= k < waiting.len() ==> (#[trigger] waiting[k]) < adj.len()
        &&& self.u_neighbors@.no_duplicates()
        &&& forall|m: usize| #[trigger] self.marked@.contains(m) ==> adj[self.v as int].contains(m) && waiting.contains(m)
        &&& adj.len() > 0 ==> {
            &&& self.v < adj.len()
            &&& !waiting.contains(self.v)
            &&& forall|x: int|
                0 <= x < adj.len() ==> (#[trigger] self.processed@[x] <==> x != self.v && !waiting.contains(x as usize))
        }
        &&& adj.len() == 0 ==> waiting.len() == 0 && self.marked@ == Set::<usize>::empty() && self.u_neighbors@.len()
            == 0
        &&& self.u_neighbors@.len() > 0 ==> {
            &&& self.u < adj.len()
            &&& adj[self.v as int].contains(self.u)
            &&& !self.marked@.contains(self.u)
            &&& forall|k: int| 0 <= k < self.u_neighbors@.len() ==> adj[self.u as int].contains(#[trigger] self.u_neighbors@[k])
        }
    }

    /// The triangle is still to be listed: its vertices were all not in turn
    /// yet; or it holds the vertex in turn and two marked vertices; or it
    /// holds the vertex in turn, the neighbour whose neighbours are looked
    /// at, and a marked vertex among those still to be looked at.
    pub closed spec fn pending(&self, t: (usize, usize, usize)) -> bool {
        let waiting = self.sorted_vertices@;
        ||| waiting.contains(t.0) && waiting.contains(t.1) && waiting.contains(t.2)
        ||| holds(t, self.v) && (t.0 == self.v || self.marked@.contains(t.0)) && (t.1 == self.v || self.marked@.contains(
            t.1,
        )) && (t.2 == self.v || self.marked@.contains(t.2))
        ||| holds(t, self.v) && holds(t, self.u) && self.u != self.v && (t.0 == self.v || t.0 == self.u || (
        self.marked@.contains(t.0) && self.u_neighbors@.contains(t.0))) && (t.1 == self.v || t.1 == self.u || (
        self.marked@.contains(t.1) && self.u_neighbors@.contains(t.1))) && (t.2 == self.v || t.2 == self.u || (
        self.marked@.contains(t.2) && self.u_neighbors@.contains(t.2)))
    }

    /// The triangles still to be listed, each with its vertices in ascending
    /// order.
    pub closed spec fn remaining(&self) -> Set<(usize, usize, usize)> {
        Set::new(|t: (usize, usize, usize)| triangles(self.graph@).contains(t) && self.pending(t))
    }

    /// Starts the listing with the vertex of the largest degree in turn.
    pub fn new(graph: &'a Graph) -> (lister: TriangleLister<'a>)
        requires
            graph.wf(),
        ensures
            lister.wf(),
            lister.graph() == *graph,
            lister.remaining() == triangles(graph@),
    {
        let n = graph.num_of_vertices();
        let u: usize = 0;
        let mut v: usize = 0;
        let mut marked: HashSet<usize> = HashSet::new();
        let mut processed: Vec<bool> = Vec::with_capacity(n);
        let u_neighbors: Vec<usize> = Vec::new();
        let mut sorted_vertices: Vec<usize> = Vec::with_capacity(n);
        let mut x: usize = 0;
        while x < n
            invariant
                x <= n,
                processed@.len() == x,
                sorted_vertices@.len() == x,
                forall|i: int| 0 <= i < x ==> !(#[trigger] processed@[i]),
                forall|i: int| 0 <= i < x ==> (#[trigger] sorted_vertices@[i]) == i,
            decreases n - x,
        {
            processed.push(false);
            sorted_vertices.push(x);
            x += 1;
        }
        let ghost all = sorted_vertices@;
        sort_by_degree(&mut sorted_vertices, graph);
        let ghost sorted = sorted_vertices@;
        proof {
            lemma_rearranged(all, sorted);
            assert forall|k: int| 0 <= k < sorted.len() implies (#[trigger] sorted[k]) < n by {
                assert(sorted.contains(sorted[k]));
                let k2 = choose|k2: int| 0 <= k2 < all.len() && all[k2] == sorted[k];
                assert(all[k2] == k2);
            }
            assert forall|y: usize| y < n implies sorted.contains(y) by {
                assert(all[y as int] == y);
                assert(all.contains(y));
            }
        }
        match sorted_vertices.pop() {
            Some(v_sorted) => {
                v = v_sorted;
                let v_neighbors = graph.neighbor_list(v);
                let mut k: usize = 0;
                assert(v_neighbors@.take(0) =~= Seq::<usize>::empty());
                while k < v_neighbors.len()
                    invariant
                        k <= v_neighbors@.len(),
                        marked@ == v_neighbors@.take(k as int).to_set(),
                    decreases v_neighbors@.len() - k,
                {
                    let y = v_neighbors[k];
                    marked.insert(y);
                    proof {
                        crate::graphs::lemma_push_contains(v_neighbors@.take(k as int), y);
                        assert(v_neighbors@.take(k + 1) =~= v_neighbors@.take(k as int).push(y));
                        assert(v_neighbors@.take(k + 1).to_set() =~= v_neighbors@.take(k as int).to_set().insert(y));
                    }
                    k += 1;
                }
                proof {
                    assert(v_neighbors@.take(v_neighbors@.len() as int) =~= v_neighbors@);
                    assert(marked@ == graph@[v as int]);
                }
            },
            None => {},
        }
        let lister = TriangleLister { graph, marked, processed, sorted_vertices, u_neighbors, u, v };
        proof {
            let waiting = lister.sorted_vertices@;
            if n > 0 {
                assert(waiting == sorted.drop_last());
                assert(sorted[sorted.len() - 1] == v);
                assert forall|y: usize| y < n && y != v implies waiting.contains(y) by {
                    assert(sorted.contains(y));
                    let k = choose|k: int| 0 <= k < sorted.len() && sorted[k] == y;
                    assert(k < sorted.len() - 1);
                    assert(waiting[k] == y);
                }
                assert(!waiting.contains(v)) by {
                    if waiting.contains(v) {
                        let k = choose|k: int| 0 <= k < waiting.len() && waiting[k] == v;
                        assert(sorted[k] == v);
                    }
                }
                assert forall|k: int| 0 <= k < waiting.len() implies (#[trigger] waiting[k]) < n by {
                    assert(sorted[k] == waiting[k]);
                }
                assert(waiting.no_duplicates()) by {
                    assert forall|i: int, j: int| 0 <= i < waiting.len() && 0 <= j < waiting.len() && i != j implies waiting[i]
                        != waiting[j] by {
                        assert(sorted[i] == waiting[i] && sorted[j] == waiting[j]);
                    }
                }
            } else {
                assert(lister.marked@ =~= Set::<usize>::empty());
            }
            assert(lister.wf());
            assert forall|t: (usize, usize, usize)| triangles(graph@).contains(t) implies lister.pending(t) by {
                if holds(t, v) {
                } else {
                    assert(waiting.contains(t.0) && waiting.contains(t.1) && waiting.contains(t.2));
                }
            }
            assert(lister.remaining() =~= triangles(graph@));
        }
        lister
    }
}

impl<'a> TriangleLister<'a> {
    /// The next triangle, or `None` when all were listed. Each triangle of
    /// the graph comes once, as the vertex in turn, a neighbour of it and a
    /// common neighbour of the two.
    pub fn next(&mut self) -> (r: Option<(usize, usize, usize)>)
        requires
            old(self).wf(),
        ensures
            final(self).wf(),
            final(self).graph() == old(self).graph(),
            match r {
                Some(t) => {
                    &&& is_triangle(old(self).graph()@, t)
                    &&& old(self).remaining().contains(ordered(t))
                    &&& final(self).remaining() == old(self).remaining().remove(ordered(t))
                    &&& rank_below(final(self).rank(), old(self).rank())
                },
                None => old(self).remaining() == Set::<(usize, usize, usize)>::empty() && final(self).remaining()
                    == old(self).remaining(),
            },
    {
        let ghost adj = self.graph@;
        loop
            invariant
                self.wf(),
                self.graph == old(self).graph,
                adj == self.graph@,
                self.remaining() == old(self).remaining(),
                self.rank() == old(self).rank() || rank_below(self.rank(), old(self).rank()),
            decreases self.sorted_vertices@.len(), self.marked@.len(), self.u_neighbors@.len(),
        {
            let ghost before = *self;
            let ghost waiting = self.sorted_vertices@;
            let ghost looking = self.u_neighbors@;
            if let Some(w) = self.u_neighbors.pop() {
                proof {
                    assert(w == looking[looking.len() - 1]);
                    assert(self.u_neighbors@ == looking.drop_last());
                    assert(looking.contains(w));
                    assert forall|x: usize| self.u_neighbors@.contains(x) <==> looking.contains(x) && x != w by {
                        if self.u_neighbors@.contains(x) {
                            let k = choose|k: int| 0 <= k < self.u_neighbors@.len() && self.u_neighbors@[k] == x;
                            assert(looking[k] == x);
                        }
                        if looking.contains(x) && x != w {
                            let k = choose|k: int| 0 <= k < looking.len() && looking[k] == x;
                            assert(self.u_neighbors@[k] == x);
                        }
                    }
                    assert(adj[self.u as int].contains(w));
                    assert(self.wf()) by {
                        assert forall|k: int| 0 <= k < self.u_neighbors@.len() implies adj[self.u as int].contains(
                            #[trigger] self.u_neighbors@[k],
                        ) by {
                            assert(looking[k] == self.u_neighbors@[k]);
                        }
                    }
                }
                if self.marked.contains(&w) {
                    let found = (self.v, self.u, w);
                    proof {
                        let t0 = ordered(found);
                        assert(adj[self.v as int].contains(w));
                        assert(is_triangle(adj, found));
                        assert(triangles(adj).contains(t0));
                        assert(before.pending(t0));
                        assert(!waiting.contains(self.v));
                        assert forall|t: (usize, usize, usize)|
                            self.remaining().contains(t) <==> before.remaining().contains(t) && t != t0 by {
                            if triangles(adj).contains(t) {
                                if self.pending(t) {
                                    assert(before.pending(t));
                                    assert(!self.pending(t0));
                                }
                                if before.pending(t) && t != t0 {
                                    assert(self.pending(t));
                                }
                            }
                        }
                        assert(self.remaining() =~= before.remaining().remove(t0));
                    }
                    return Some(found);
                }
                proof {
                    assert forall|t: (usize, usize, usize)|
                        self.remaining().contains(t) <==> before.remaining().contains(t) by {
                        if triangles(adj).contains(t) {
                            if before.pending(t) {
                                assert(self.pending(t));
                            }
                        }
                    }
                    assert(self.remaining() =~= before.remaining());
                }
            } else if !self.marked.is_empty() {
                proof {
                    assert(self.u_neighbors@.len() == 0);
                    assert(self.marked@.len() > 0) by {
                        if self.marked@.len() == 0 {
                            assert(self.marked@ =~= Set::<usize>::empty());
                        }
                    }
                }
                self.u = any_element(&self.marked);
                let ghost marks = self.marked@;
                self.marked.remove(&self.u);
                self.u_neighbors = self.graph.neighbor_list(self.u);
                proof {
                    let u = self.u;
                    assert(marks.contains(u));
                    assert(adj[self.v as int].contains(u));
                    assert(self.marked@ == marks.remove(u));
                    assert forall|k: int| 0 <= k < self.u_neighbors@.len() implies adj[u as int].contains(
                        #[trigger] self.u_neighbors@[k],
                    ) by {
                        assert(self.u_neighbors@.to_set().contains(self.u_neighbors@[k]));
                    }
                    assert(self.wf());
                    assert forall|t: (usize, usize, usize)|
                        self.remaining().contains(t) <==> before.remaining().contains(t) by {
                        if triangles(adj).contains(t) {
                            assert(forall|x: usize| adj[u as int].contains(x) ==> self.u_neighbors@.to_set().contains(x));
                            if before.pending(t) {
                                assert(self.pending(t));
                            }
                            if self.pending(t) {
                                assert(before.pending(t));
                            }
                        }
                    }
                    assert(self.remaining() =~= before.remaining());
                }
            } else if let Some(v) = self.sorted_vertices.pop() {
                let done = self.v;
                self.processed[done] = true;
                self.v = v;
                let v_neighbors = self.graph.neighbor_list(v);
                let ghost flags = self.processed@;
                proof {
                    assert(v == waiting[waiting.len() - 1]);
                    assert(self.sorted_vertices@ == waiting.drop_last());
                    assert(waiting.contains(v));
                    assert(self.marked@ =~= Set::<usize>::empty());
                    assert(v_neighbors@.take(0) =~= Seq::<usize>::empty());
                    assert(self.marked@ =~= Set::new(
                        |x: usize| v_neighbors@.take(0).contains(x) && !flags[x as int],
                    ));
                }
                let mut k: usize = 0;
                while k < v_neighbors.len()
                    invariant
                        k <= v_neighbors@.len(),
                        self.graph == before.graph,
                        self.sorted_vertices@ == waiting.drop_last(),
                        self.u_neighbors@ == looking,
                        self.processed@ == flags,
                        self.v == v,
                        self.u == before.u,
                        flags.len() == adj.len(),
                        v_neighbors@.to_set() == adj[v as int],
                        self.graph.wf(),
                        adj == self.graph@,
                        v < adj.len(),
                        self.marked@ == Set::new(
                            |x: usize| v_neighbors@.take(k as int).contains(x) && !flags[x as int],
                        ),
                    decreases v_neighbors@.len() - k,
                {
                    let y = v_neighbors[k];
                    proof {
                        assert(v_neighbors@.to_set().contains(y));
                        assert(adj[v as int].contains(y));
                        crate::graphs::lemma_push_contains(v_neighbors@.take(k as int), y);
                        assert(v_neighbors@.take(k + 1) =~= v_neighbors@.take(k as int).push(y));
                    }
                    let ghost marks = self.marked@;
                    if !self.processed[y] {
                        self.marked.insert(y);
                        assert(self.marked@ =~= Set::new(
                            |x: usize| v_neighbors@.take(k + 1).contains(x) && !flags[x as int],
                        ));
                    } else {
                        assert(marks =~= Set::new(
                            |x: usize| v_neighbors@.take(k + 1).contains(x) && !flags[x as int],
                        ));
                    }
                    k += 1;
                }
                proof {
                    let now = self.sorted_vertices@;
                    assert(v_neighbors@.take(v_neighbors@.len() as int) =~= v_neighbors@);
                    assert forall|x: usize| now.contains(x) <==> waiting.contains(x) && x != v by {
                        if now.contains(x) {
                            let i = choose|i: int| 0 <= i < now.len() && now[i] == x;
                            assert(waiting[i] == x);
                        }
                        if waiting.contains(x) && x != v {
                            let i = choose|i: int| 0 <= i < waiting.len() && waiting[i] == x;
                            assert(now[i] == x);
                        }
                    }
                    assert(now.no_duplicates()) by {
                        assert forall|i: int, j: int| 0 <= i < now.len() && 0 <= j < now.len() && i != j implies now[i]
                            != now[j] by {
                            assert(waiting[i] == now[i] && waiting[j] == now[j]);
                        }
                    }
                    assert forall|i: int| 0 <= i < now.len() implies (#[trigger] now[i]) < adj.len() by {
                        assert(waiting[i] == now[i]);
                    }
                    assert forall|m: usize| #[trigger] self.marked@.contains(m) implies adj[v as int].contains(m)
                        && now.contains(m) by {
                        assert(v_neighbors@.to_set().contains(m));
                        assert(!before.processed@[m as int]);
                        assert(m != v);
                    }
                    assert(self.marked@.finite()) by {
                        assert(self.marked@.subset_of(adj[v as int]));
                        vstd::set_lib::lemma_len_subset(self.marked@, adj[v as int]);
                    }
                    assert(self.wf());
                    assert forall|t: (usize, usize, usize)|
                        self.remaining().contains(t) <==> before.remaining().contains(t) by {
                        if triangles(adj).contains(t) {
                            assert(forall|x: usize| adj[v as int].contains(x) ==> v_neighbors@.to_set().contains(x));
                            if before.pending(t) {
                                assert(waiting.contains(t.0) && waiting.contains(t.1) && waiting.contains(t.2));
                                assert(self.pending(t));
                            }
                            if self.pending(t) {
                                assert(before.pending(t));
                            }
                        }
                    }
                    assert(self.remaining() =~= before.remaining());
                }
            } else {
                proof {
                    assert(self.marked@ =~= Set::<usize>::empty());
                    assert forall|t: (usize, usize, usize)| !self.remaining().contains(t) by {
                        if triangles(adj).contains(t) && self.pending(t) {
                            assert(waiting.contains(t.0));
                        }
                    }
                    assert(self.remaining() =~= Set::<(usize, usize, usize)>::empty());
                }
                return None;
            }
        }
    }
}

/// Lists the triangles of the graph, each once.
pub fn list_triangles(g: &Graph) -> (listed: Vec<(usize, usize, usize)>)
    requires
        g.wf(),
    ensures
        lists_triangles(g@, listed@),
{
    let mut triangle_lister = TriangleLister::new(g);
    let mut listed: Vec<(usize, usize, usize)> = Vec::new();
    loop
        invariant
            g.wf(),
            triangle_lister.wf(),
            triangle_lister.graph() == *g,
            forall|k: int| 0 <= k < listed@.len() ==> is_triangle(g@, #[trigger] listed@[k]),
            forall|k: int| 0 <= k < listed@.len() ==> !triangle_lister.remaining().contains(ordered(#[trigger] listed@[k])),
            forall|j: int, k: int|
                0 <= j < k < listed@.len() ==> ordered(#[trigger] listed@[j]) != ordered(#[trigger] listed@[k]),
            forall|t: (usize, usize, usize)| #[trigger]
                triangles(g@).contains(t) ==> triangle_lister.remaining().contains(t) || exists|k: int|
                    0 <= k < listed@.len() && ordered(#[trigger] listed@[k]) == t,
        ensures
            lists_triangles(g@, listed@),
        decreases triangle_lister.rank().0, triangle_lister.rank().1, triangle_lister.rank().2,
    {
        let ghost before = listed@;
        let ghost open = triangle_lister.remaining();
        match triangle_lister.next() {
            Some(t) => {
                listed.push(t);
                proof {
                    assert forall|x: (usize, usize, usize)| #[trigger]
                        triangles(g@).contains(x) implies triangle_lister.remaining().contains(x) || exists|k: int|
                        0 <= k < listed@.len() && ordered(#[trigger] listed@[k]) == x by {
                        if open.contains(x) {
                            if x == ordered(t) {
                                assert(ordered(listed@[before.len() as int]) == x);
                            }
                        } else {
                            let k = choose|k: int| 0 <= k < before.len() && ordered(#[trigger] before[k]) == x;
                            assert(listed@[k] == before[k]);
                        }
                    }
                }
            },
            None => {
                proof {
                    assert forall|j: int, k: int| 0 <= j < k < listed@.len() implies !same_vertices(
                        #[trigger] listed@[j],
                        #[trigger] listed@[k],
                    ) by {
                        lemma_ordered(listed@[j]);
                        lemma_ordered(listed@[k]);
                        lemma_triangle_distinct(g@, listed@[j]);
                        lemma_triangle_distinct(g@, listed@[k]);
                    }
                    assert forall|x: (usize, usize, usize)| #[trigger]
                        triangles(g@).contains(x) implies exists|k: int|
                        0 <= k < listed@.len() && same_vertices(#[trigger] listed@[k], x) by {
                        let k = choose|k: int| 0 <= k < listed@.len() && ordered(#[trigger] listed@[k]) == x;
                        lemma_ordered(listed@[k]);
                    }
                }
                break ;
            },
        }
    }
    listed
}

/// The ordered triple holds the same vertices.
pub proof fn lemma_ordered(t: (usize, usize, usize))
    ensures
        same_vertices(ordered(t), t),
        ordered(t).0 <= ordered(t).1 <= ordered(t).2,
{
}

/// The vertices of a triangle in a simple graph are different.
pub proof fn lemma_triangle_distinct(adj: Seq<Set<usize>>, t: (usize, usize, usize))
    requires
        crate::graphs::simple_adjacency(adj),
        is_triangle(adj, t),
    ensures
        t.0 != t.1 && t.1 != t.2 && t.0 != t.2,
{
}

} // verus!
