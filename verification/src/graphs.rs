//! A simple undirected graph stored as one hash set of neighbours per vertex.

use crate::planarity::{left_right_test, planarity, sorted_edges};
use std::collections::HashSet;
use vstd::prelude::*;
use vstd::std_specs::hash::spec_hash_keys_iter;
use vstd::std_specs::iter::IteratorSpec;

verus! {

broadcast use vstd::std_specs::hash::group_hash_axioms;

/// The adjacency sets describe a simple undirected graph: every set is
/// finite, neighbours are vertices, no vertex neighbours itself, and
/// adjacency is symmetric.
pub open spec fn simple_adjacency(adj: Seq<Set<usize>>) -> bool {
    &&& forall|u: int| 0 <= u < adj.len() ==> (#[trigger] adj[u]).finite()
    &&& forall|u: int, v: usize|
        0 <= u < adj.len() && #[trigger] adj[u].contains(v) ==> v < adj.len() && v != u && adj[v as int].contains(
            u as usize,
        )
}

/// The number of arcs: the sum of the sizes of all adjacency sets.
pub open spec fn arc_count(adj: Seq<Set<usize>>) -> nat
    decreases adj.len(),
{
    if adj.len() == 0 {
        0
    } else {
        arc_count(adj.drop_last()) + adj.last().len()
    }
}

/// The vertices `lo..hi` as a set.
pub open spec fn between(lo: nat, hi: nat) -> Set<usize> {
    Set::new(|v: usize| lo <= v < hi)
}

/// The adjacency structure with the edge between `a` and `b` added.
pub open spec fn with_edge(adj: Seq<Set<usize>>, a: usize, b: usize) -> Seq<Set<usize>> {
    adj.update(a as int, adj[a as int].insert(b)).update(b as int, adj[b as int].insert(a))
}

/// The adjacency structure with the edge between `a` and `b` removed.
pub open spec fn without_edge(adj: Seq<Set<usize>>, a: usize, b: usize) -> Seq<Set<usize>> {
    adj.update(a as int, adj[a as int].remove(b)).update(b as int, adj[b as int].remove(a))
}

/// The adjacency structure after an attempt to add the edge between `a` and
/// `b`: with the edge if the two are different vertices, else unchanged.
pub open spec fn joined(adj: Seq<Set<usize>>, a: usize, b: usize) -> Seq<Set<usize>> {
    if a < adj.len() && b < adj.len() && a != b {
        with_edge(adj, a, b)
    } else {
        adj
    }
}

/// The arcs of a structure with an edge added or removed.
pub proof fn lemma_edge_change(adj: Seq<Set<usize>>, a: usize, b: usize)
    requires
        a < adj.len(),
        b < adj.len(),
        a != b,
    ensures
        with_edge(adj, a, b).len() == adj.len(),
        without_edge(adj, a, b).len() == adj.len(),
        forall|u: int, v: usize|
            0 <= u < adj.len() ==> (#[trigger] with_edge(adj, a, b)[u].contains(v) <==> adj[u].contains(v) || (u == a
                && v == b) || (u == b && v == a)),
        forall|u: int, v: usize|
            0 <= u < adj.len() ==> (#[trigger] without_edge(adj, a, b)[u].contains(v) <==> adj[u].contains(v) && !(u
                == a && v == b) && !(u == b && v == a)),
{
}

/// The set with every element raised by `k`.
pub open spec fn shifted(s: Set<usize>, k: nat) -> Set<usize> {
    Set::new(|v: usize| v >= k && s.contains((v - k) as usize))
}

/// Raising every element keeps the number of elements.
pub proof fn lemma_shifted_len(s: Set<usize>, k: nat)
    requires
        s.finite(),
        forall|x: usize| s.contains(x) ==> x + k <= usize::MAX,
    ensures
        shifted(s, k).finite(),
        shifted(s, k).len() == s.len(),
    decreases s.len(),
{
    if s.len() == 0 {
        assert(s =~= Set::<usize>::empty());
        assert(shifted(s, k) =~= Set::<usize>::empty());
    } else {
        let x = s.choose();
        lemma_shifted_len(s.remove(x), k);
        assert(shifted(s, k) =~= shifted(s.remove(x), k).insert((x + k) as usize)) by {
            assert forall|v: usize| shifted(s, k).contains(v) <==> shifted(s.remove(x), k).insert(
                (x + k) as usize,
            ).contains(v) by {
                if v >= k && s.contains((v - k) as usize) {
                    if (v - k) as usize != x {
                        assert(s.remove(x).contains((v - k) as usize));
                    }
                }
            }
        }
    }
}

/// The graph `sum` is `first` beside `second`: the vertices of `second`
/// follow those of `first`, and nothing joins the two.
pub open spec fn disjoint_union(first: Seq<Set<usize>>, second: Seq<Set<usize>>, sum: Seq<Set<usize>>) -> bool {
    &&& sum.len() == first.len() + second.len()
    &&& forall|u: int| 0 <= u < first.len() ==> #[trigger] sum[u] == first[u]
    &&& forall|u: int| 0 <= u < second.len() ==> #[trigger] sum[first.len() + u] == shifted(second[u], first.len())
}

/// The adjacency sets that the neighbour lists describe.
pub open spec fn list_sets(lists: Seq<Vec<usize>>) -> Seq<Set<usize>> {
    Seq::new(lists.len(), |u: int| lists[u]@.to_set())
}

/// The neighbour lists describe a simple graph on `n` vertices with `m`
/// edges, and the square of `n` fits in a machine word.
pub open spec fn valid_lists(n: usize, m: usize, lists: Seq<Vec<usize>>) -> bool {
    &&& lists.len() == n
    &&& n * n <= usize::MAX
    &&& simple_adjacency(list_sets(lists))
    &&& arc_count(list_sets(lists)) == 2 * m
}

/// The edges of an adjacency structure, each once, smaller endpoint first.
pub open spec fn edge_set(adj: Seq<Set<usize>>) -> Set<(usize, usize)> {
    Set::new(|e: (usize, usize)| e.0 < e.1 && e.0 < adj.len() && adj[e.0 as int].contains(e.1))
}

/// The arcs of an adjacency structure: both directions of every edge.
pub open spec fn arc_set(adj: Seq<Set<usize>>) -> Set<(usize, usize)> {
    Set::new(|e: (usize, usize)| e.0 < adj.len() && adj[e.0 as int].contains(e.1))
}

/// `between(lo, hi)` is finite and has `hi - lo` elements.
pub proof fn lemma_between_len(lo: nat, hi: nat)
    requires
        lo <= hi <= usize::MAX + 1,
    ensures
        between(lo, hi).finite(),
        between(lo, hi).len() == hi - lo,
    decreases hi - lo,
{
    if lo == hi {
        assert(between(lo, hi) =~= Set::<usize>::empty());
    } else {
        lemma_between_len(lo, (hi - 1) as nat);
        assert(between(lo, hi) =~= between(lo, (hi - 1) as nat).insert((hi - 1) as usize));
    }
}

/// Replacing one adjacency set changes the arc count by the difference of
/// the two sizes.
pub proof fn lemma_arc_count_update(adj: Seq<Set<usize>>, i: int, s: Set<usize>)
    requires
        0 <= i < adj.len(),
    ensures
        arc_count(adj.update(i, s)) == arc_count(adj) - adj[i].len() + s.len(),
    decreases adj.len(),
{
    let upd = adj.update(i, s);
    if i == adj.len() - 1 {
        assert(upd.drop_last() =~= adj.drop_last());
    } else {
        lemma_arc_count_update(adj.drop_last(), i, s);
        assert(upd.drop_last() =~= adj.drop_last().update(i, s));
    }
}

/// Appending an adjacency set adds its size to the arc count.
pub proof fn lemma_arc_count_push(adj: Seq<Set<usize>>, s: Set<usize>)
    ensures
        arc_count(adj.push(s)) == arc_count(adj) + s.len(),
{
    assert(adj.push(s).drop_last() =~= adj);
}

/// If every adjacency set has at most `d` elements, there are at most
/// `adj.len() * d` arcs.
pub proof fn lemma_arc_count_at_most(adj: Seq<Set<usize>>, d: nat)
    requires
        forall|u: int| 0 <= u < adj.len() ==> (#[trigger] adj[u]).len() <= d,
    ensures
        arc_count(adj) <= adj.len() * d,
    decreases adj.len(),
{
    if adj.len() > 0 {
        lemma_arc_count_at_most(adj.drop_last(), d);
        assert(adj.len() * d == (adj.len() - 1) * d + d) by (nonlinear_arith);
    }
}

/// If every adjacency set is empty, there is no arc.
pub proof fn lemma_arc_count_empty(adj: Seq<Set<usize>>)
    requires
        forall|u: int| 0 <= u < adj.len() ==> (#[trigger] adj[u]).len() == 0,
    ensures
        arc_count(adj) == 0,
{
    lemma_arc_count_at_most(adj, 0);
}

/// In a simple graph every vertex has fewer neighbours than there are
/// vertices.
pub proof fn lemma_degree_bound(adj: Seq<Set<usize>>, u: int)
    requires
        simple_adjacency(adj),
        0 <= u < adj.len(),
        adj.len() <= usize::MAX,
    ensures
        adj[u].len() < adj.len(),
{
    lemma_between_len(0, adj.len());
    let others = between(0, adj.len()).remove(u as usize);
    assert(adj[u].subset_of(others));
    vstd::set_lib::lemma_len_subset(adj[u], others);
}

/// A simple graph on `n` vertices has at most `n * (n - 1)` arcs.
pub proof fn lemma_arc_bound(adj: Seq<Set<usize>>)
    requires
        simple_adjacency(adj),
        adj.len() <= usize::MAX,
    ensures
        arc_count(adj) <= adj.len() * (adj.len() - 1),
{
    if adj.len() > 0 {
        assert forall|u: int| 0 <= u < adj.len() implies (#[trigger] adj[u]).len() <= (adj.len() - 1) as nat by {
            lemma_degree_bound(adj, u);
        }
        lemma_arc_count_at_most(adj, (adj.len() - 1) as nat);
    }
}


/// The arc count is at least the size of any one adjacency set.
pub proof fn lemma_arc_count_at_least(adj: Seq<Set<usize>>, i: int)
    requires
        0 <= i < adj.len(),
    ensures
        arc_count(adj) >= adj[i].len(),
{
    lemma_arc_count_update(adj, i, Set::<usize>::empty());
}

/// If every adjacency set has exactly `d` elements, there are exactly
/// `adj.len() * d` arcs.
pub proof fn lemma_arc_count_regular(adj: Seq<Set<usize>>, d: nat)
    requires
        forall|u: int| 0 <= u < adj.len() ==> (#[trigger] adj[u]).len() == d,
    ensures
        arc_count(adj) == adj.len() * d,
    decreases adj.len(),
{
    if adj.len() > 0 {
        lemma_arc_count_regular(adj.drop_last(), d);
        assert(adj.len() * d == (adj.len() - 1) * d + d) by (nonlinear_arith);
    }
}

/// The arc count of a concatenation is the sum of the arc counts.
pub proof fn lemma_arc_count_concat(a: Seq<Set<usize>>, b: Seq<Set<usize>>)
    ensures
        arc_count(a + b) == arc_count(a) + arc_count(b),
    decreases b.len(),
{
    if b.len() == 0 {
        assert(a + b =~= a);
    } else {
        lemma_arc_count_concat(a, b.drop_last());
        assert((a + b).drop_last() =~= a + b.drop_last());
    }
}

/// The product of two consecutive numbers is even.
pub proof fn lemma_consecutive_product_even(n: nat)
    ensures
        (n * (n + 1)) % 2 == 0,
        2 * ((n * (n + 1)) / 2) == n * (n + 1),
    decreases n,
{
    if n > 0 {
        lemma_consecutive_product_even((n - 1) as nat);
        assert(n * (n + 1) == (n - 1) * n + 2 * n) by (nonlinear_arith);
    }
}

/// What a sequence contains after a push.
pub proof fn lemma_push_contains<T>(s: Seq<T>, x: T)
    ensures
        forall|y: T| #[trigger] s.push(x).contains(y) <==> s.contains(y) || y == x,
{
    assert forall|y: T| #[trigger] s.push(x).contains(y) <==> s.contains(y) || y == x by {
        if s.contains(y) {
            let k = choose|k: int| 0 <= k < s.len() && s[k] == y;
            assert(s.push(x)[k] == y);
        }
        if y == x {
            assert(s.push(x)[s.len() as int] == y);
        }
    }
}

/// Pushing a new element keeps a sequence free of duplicates.
pub proof fn lemma_push_no_duplicates<T>(s: Seq<T>, x: T)
    requires
        s.no_duplicates(),
        !s.contains(x),
    ensures
        s.push(x).no_duplicates(),
{
    assert forall|i: int, j: int| 0 <= i < s.len() + 1 && 0 <= j < s.len() + 1 && i != j implies s.push(x)[i]
        != s.push(x)[j] by {
        if i < s.len() {
            assert(s.contains(s[i]));
        }
        if j < s.len() {
            assert(s.contains(s[j]));
        }
    }
}

/// The elements of a hash set in the order in which it hands them out.
pub open spec fn handed_out(s: &HashSet<usize>) -> Seq<usize> {
    vstd::std_specs::hash::into_iter_hash_keys(spec_hash_keys_iter(s))
}

/// The elements of a hash set as a vector, each once, in the order in which
/// the set hands them out.
pub fn set_to_vec(s: &HashSet<usize>) -> (r: Vec<usize>)
    ensures
        r@ == handed_out(s),
        r@.no_duplicates(),
        r@.to_set() == s@,
        r@.len() == s@.len(),
        s@.finite(),
{
    let mut r: Vec<usize> = Vec::new();
    let ghost keys = spec_hash_keys_iter(s).remaining();
    for x in it: s.iter()
        invariant
            it.seq() == keys,
            handed_out(s) == keys.unref(),
            r@.len() == it.index(),
            r@ == keys.unref().take(it.index()),
    {
        r.push(*x);
        assert(keys.unref().take(it.index() + 1) == keys.unref().take(it.index()).push(*x));
    }
    proof {
        assert(r@ == keys.unref());
        assert forall|i: int, j: int| 0 <= i < keys.len() && 0 <= j < keys.len() && i != j implies keys.unref()[i]
            != keys.unref()[j] by {
            assert(keys[i] != keys[j]);
        }
        vstd::seq_lib::seq_to_set_is_finite(r@);
    }
    r
}

/// Some element of a hash set that is not empty: the one that the set hands
/// out first.
pub fn any_element(s: &HashSet<usize>) -> (x: usize)
    requires
        s@.len() > 0,
    ensures
        s@.contains(x),
{
    let ghost keys = spec_hash_keys_iter(s).remaining();
    for x in it: s.iter()
        invariant
            it.seq() == keys,
            it.index() == 0,
            keys.len() > 0,
    {
        assert(keys.unref().to_set().contains(keys.unref()[0]));
        return *x;
    }
    0
}

/// A fresh hash set with the same elements.
pub fn copy_set(s: &HashSet<usize>) -> (r: HashSet<usize>)
    ensures
        r@ == s@,
{
    let items = set_to_vec(s);
    let mut r: HashSet<usize> = HashSet::new();
    let mut i: usize = 0;
    while i < items.len()
        invariant
            i <= items.len(),
            r@ == items@.take(i as int).to_set(),
        decreases items.len() - i,
    {
        r.insert(items[i]);
        proof {
            assert(items@.take(i + 1) == items@.take(i as int).push(items@[i as int]));
            assert(items@.take(i + 1).to_set() =~= items@.take(i as int).to_set().insert(items@[i as int])) by {
                let a = items@.take(i as int);
                let x = items@[i as int];
                assert forall|y: usize| a.push(x).contains(y) <==> a.contains(y) || y == x by {
                    if a.contains(y) {
                        let k = choose|k: int| 0 <= k < a.len() && a[k] == y;
                        assert(a.push(x)[k] == y);
                    }
                    if y == x {
                        assert(a.push(x)[a.len() as int] == y);
                    }
                }
            }
        }
        i += 1;
    }
    assert(items@.take(items.len() as int) == items@);
    r
}

/// The hash set of the vertices `lo..hi`.
pub fn range_set(lo: usize, hi: usize) -> (r: HashSet<usize>)
    requires
        lo <= hi,
    ensures
        r@ == between(lo as nat, hi as nat),
{
    let mut r: HashSet<usize> = HashSet::new();
    let mut v: usize = lo;
    assert(r@ =~= between(lo as nat, lo as nat));
    while v < hi
        invariant
            lo <= v <= hi,
            r@ == between(lo as nat, v as nat),
        decreases hi - v,
    {
        r.insert(v);
        assert(between(lo as nat, v as nat).insert(v) =~= between(lo as nat, (v + 1) as nat));
        v += 1;
    }
    r
}

/// A structure with an arc has a vertex with a neighbour.
pub proof fn lemma_some_arc(adj: Seq<Set<usize>>) -> (arc: (int, usize))
    requires
        arc_count(adj) > 0,
        forall|u: int| 0 <= u < adj.len() ==> (#[trigger] adj[u]).finite(),
    ensures
        0 <= arc.0 < adj.len(),
        adj[arc.0].contains(arc.1),
    decreases adj.len(),
{
    if adj.last().len() > 0 {
        let v = adj.last().choose();
        (adj.len() - 1, v)
    } else {
        let rest = adj.drop_last();
        assert forall|u: int| 0 <= u < rest.len() implies (#[trigger] rest[u]).finite() by {
            assert(rest[u] == adj[u]);
        }
        let arc = lemma_some_arc(rest);
        assert(rest[arc.0] == adj[arc.0]);
        arc
    }
}

/// In a simple graph every edge makes two arcs: there are half as many
/// edges as arcs.
pub proof fn lemma_handshake(adj: Seq<Set<usize>>)
    requires
        simple_adjacency(adj),
        adj.len() <= usize::MAX,
    ensures
        edge_set(adj).finite(),
        2 * edge_set(adj).len() == arc_count(adj),
    decreases arc_count(adj),
{
    if arc_count(adj) == 0 {
        assert forall|e: (usize, usize)| !edge_set(adj).contains(e) by {
            if edge_set(adj).contains(e) {
                lemma_arc_count_at_least(adj, e.0 as int);
                assert(adj[e.0 as int].len() == 0);
                assert(adj[e.0 as int] =~= Set::<usize>::empty());
            }
        }
        assert(edge_set(adj) =~= Set::<(usize, usize)>::empty());
    } else {
        let (u, v) = lemma_some_arc(adj);
        let a = if u < v {
            u as usize
        } else {
            v
        };
        let b = if u < v {
            v
        } else {
            u as usize
        };
        assert(adj[a as int].contains(b) && adj[b as int].contains(a));
        let mid = adj.update(a as int, adj[a as int].remove(b));
        let less = without_edge(adj, a, b);
        lemma_edge_change(adj, a, b);
        lemma_arc_count_update(adj, a as int, adj[a as int].remove(b));
        lemma_arc_count_update(mid, b as int, adj[b as int].remove(a));
        assert(simple_adjacency(less));
        lemma_handshake(less);
        assert(edge_set(adj) =~= edge_set(less).insert((a, b)));
    }
}


/// A simple undirected graph on the vertices `0..n`.
#[derive(Debug, PartialEq)]
pub struct Graph {
    num_of_vertices: usize,
    num_of_edges: usize,
    neighbors: Vec<HashSet<usize>>,
}

impl View for Graph {
    type V = Seq<Set<usize>>;

    /// The adjacency sets, one per vertex.
    closed spec fn view(&self) -> Seq<Set<usize>> {
        Seq::new(self.neighbors@.len(), |i: int| self.neighbors@[i]@)
    }
}

impl Graph {
    /// The recorded number of vertices.
    pub closed spec fn spec_num_of_vertices(&self) -> usize {
        self.num_of_vertices
    }

    /// The recorded number of edges.
    pub closed spec fn spec_num_of_edges(&self) -> usize {
        self.num_of_edges
    }

    /// The graph is simple, its counters agree with its adjacency sets, and
    /// the square of its vertex count fits in a machine word.
    pub open spec fn wf(&self) -> bool {
        &&& self@.len() == self.spec_num_of_vertices()
        &&& simple_adjacency(self@)
        &&& arc_count(self@) == 2 * self.spec_num_of_edges()
        &&& self@.len() * self@.len() <= usize::MAX
    }

    /// Whether `from` and `to` are adjacent.
    pub open spec fn spec_has_edge(&self, from: usize, to: usize) -> bool {
        from < self@.len() && self@[from as int].contains(to)
    }

    /// Creates a graph without vertices.
    pub fn new() -> (g: Graph)
        ensures
            g.wf(),
            g@.len() == 0,
            g.spec_num_of_edges() == 0,
    {
        let g = Graph { num_of_vertices: 0, num_of_edges: 0, neighbors: Vec::new() };
        assert(g@ =~= Seq::<Set<usize>>::empty());
        g
    }

    /// Creates a graph with `num_of_vertices` vertices and no edges.
    pub fn empty(num_of_vertices: usize) -> (g: Graph)
        requires
            num_of_vertices * num_of_vertices <= usize::MAX,
        ensures
            g.wf(),
            g@.len() == num_of_vertices,
            g.spec_num_of_edges() == 0,
            forall|u: int| 0 <= u < num_of_vertices ==> #[trigger] g@[u] == Set::<usize>::empty(),
    {
        let mut neighbors: Vec<HashSet<usize>> = Vec::new();
        let mut i: usize = 0;
        while i < num_of_vertices
            invariant
                i <= num_of_vertices,
                neighbors@.len() == i,
                forall|u: int| 0 <= u < i ==> (#[trigger] neighbors@[u])@ == Set::<usize>::empty(),
            decreases num_of_vertices - i,
        {
            neighbors.push(HashSet::new());
            i += 1;
        }
        let g = Graph { num_of_vertices, num_of_edges: 0, neighbors };
        proof {
            assert forall|u: int| 0 <= u < num_of_vertices implies #[trigger] g@[u] == Set::<usize>::empty() by {
                assert(g@[u] == neighbors@[u]@);
            }
            lemma_arc_count_empty(g@);
        }
        g
    }

    /// Whether `vertex` is a vertex of the graph.
    pub fn is_valid_vertex(&self, vertex: usize) -> (r: bool)
        ensures
            r == (vertex < self.spec_num_of_vertices()),
    {
        vertex < self.num_of_vertices
    }

    /// Decides whether the graph is planar.
    pub fn is_planar(&self) -> (planar: bool)
        requires
            self.wf(),
        ensures
            planar == planarity(self@),
            self@.len() <= 4 ==> planar,
            self@.len() >= 3 && self.spec_num_of_edges() > 3 * self@.len() - 6 ==> !planar,
            self.spec_num_of_edges() == 0 ==> planar,
    {
        let n = self.num_of_vertices();
        let m = self.num_of_edges();
        proof {
            crate::planarity::lemma_dense_graphs_have_five_vertices(self@);
        }
        if n <= 4 {
            return true;
        }
        assert(3 * n <= n * n) by (nonlinear_arith)
            requires
                n >= 5,
        ;
        if m > 3 * n - 6 {
            return false;
        }
        let edges = sorted_edges(self);
        left_right_test(&edges)
    }

    /// Whether `from` and `to` are adjacent.
    pub fn has_edge(&self, from: usize, to: usize) -> (r: bool)
        requires
            from < self@.len(),
        ensures
            r == self@[from as int].contains(to),
            r == self.spec_has_edge(from, to),
    {
        self.neighbors[from].contains(&to)
    }

    /// The number of vertices.
    #[verifier::when_used_as_spec(spec_num_of_vertices)]
    pub fn num_of_vertices(&self) -> (n: usize)
        ensures
            n == self.spec_num_of_vertices(),
    {
        self.num_of_vertices
    }

    /// The number of edges.
    #[verifier::when_used_as_spec(spec_num_of_edges)]
    pub fn num_of_edges(&self) -> (m: usize)
        ensures
            m == self.spec_num_of_edges(),
    {
        self.num_of_edges
    }
    /// Adds an isolated vertex and returns its index.
    pub fn add_vertex(&mut self) -> (v: usize)
        requires
            old(self).wf(),
            (old(self)@.len() + 1) * (old(self)@.len() + 1) <= usize::MAX,
        ensures
            final(self).wf(),
            final(self)@ == old(self)@.push(Set::<usize>::empty()),
            final(self).spec_num_of_edges() == old(self).spec_num_of_edges(),
            v == old(self)@.len(),
    {
        assert(self@.len() < usize::MAX) by (nonlinear_arith)
            requires
                (self@.len() + 1) * (self@.len() + 1) <= usize::MAX,
        ;
        self.neighbors.push(HashSet::new());
        self.num_of_vertices += 1;
        proof {
            assert(self@ =~= old(self)@.push(Set::<usize>::empty()));
            lemma_arc_count_push(old(self)@, Set::<usize>::empty());
        }
        self.num_of_vertices - 1
    }

    /// Adds the edge between `from` and `to`. Returns `false` and changes
    /// nothing if an endpoint is not a vertex, if the endpoints coincide, or
    /// if the edge is already there.
    pub fn add_edge(&mut self, from: usize, to: usize) -> (added: bool)
        requires
            old(self).wf(),
        ensures
            final(self).wf(),
            added == (from < old(self)@.len() && to < old(self)@.len() && from != to && !old(self)@[from as int].contains(
                to,
            )),
            added ==> final(self)@ == with_edge(old(self)@, from, to),
            final(self)@ == joined(old(self)@, from, to),
            added ==> final(self).spec_num_of_edges() == old(self).spec_num_of_edges() + 1,
            !added ==> final(self)@ == old(self)@,
            !added ==> final(self).spec_num_of_edges() == old(self).spec_num_of_edges(),
    {
        if !self.is_valid_vertex(from) || !self.is_valid_vertex(to) {
            return false;
        }
        if from == to || self.neighbors[from].contains(&to) {
            proof {
                if from != to {
                    assert(self@[from as int].contains(to));
                    assert(self@[to as int].contains(from));
                    assert(self@[from as int].insert(to) =~= self@[from as int]);
                    assert(self@[to as int].insert(from) =~= self@[to as int]);
                    assert(with_edge(self@, from, to) =~= self@);
                }
            }
            return false;
        }
        let ghost before = self@;
        let ghost mid = before.update(from as int, before[from as int].insert(to));
        let ghost after = mid.update(to as int, before[to as int].insert(from));
        proof {
            assert(!before[to as int].contains(from));
            lemma_arc_count_update(before, from as int, before[from as int].insert(to));
            lemma_arc_count_update(mid, to as int, before[to as int].insert(from));
            assert(simple_adjacency(after));
            lemma_arc_bound(after);
            assert(after.len() * (after.len() - 1) <= after.len() * after.len()) by (nonlinear_arith);
        }
        self.neighbors[from].insert(to);
        self.neighbors[to].insert(from);
        self.num_of_edges += 1;
        assert(self@ =~= after);
        true
    }

    /// Removes the edge between `from` and `to`. Returns `false` and changes
    /// nothing if an endpoint is not a vertex or if there is no such edge.
    pub fn remove_edge(&mut self, from: usize, to: usize) -> (removed: bool)
        requires
            old(self).wf(),
        ensures
            final(self).wf(),
            removed == (from < old(self)@.len() && to < old(self)@.len() && old(self)@[from as int].contains(to)),
            removed ==> final(self)@ == without_edge(old(self)@, from, to),
            removed ==> final(self).spec_num_of_edges() == old(self).spec_num_of_edges() - 1,
            !removed ==> final(self)@ == old(self)@,
            !removed ==> final(self).spec_num_of_edges() == old(self).spec_num_of_edges(),
    {
        if !self.is_valid_vertex(from) || !self.is_valid_vertex(to) {
            return false;
        }
        if !self.neighbors[from].contains(&to) {
            return false;
        }
        let ghost before = self@;
        let ghost mid = before.update(from as int, before[from as int].remove(to));
        let ghost after = mid.update(to as int, before[to as int].remove(from));
        proof {
            assert(before[to as int].contains(from));
            assert(from != to);
            lemma_arc_count_update(before, from as int, before[from as int].remove(to));
            lemma_arc_count_update(mid, to as int, before[to as int].remove(from));
            lemma_arc_count_at_least(mid, to as int);
            assert(simple_adjacency(after));
        }
        self.neighbors[from].remove(&to);
        self.neighbors[to].remove(&from);
        self.num_of_edges -= 1;
        assert(self@ =~= after);
        true
    }

    /// The vertices, as the range `0..n`.
    pub fn vertices(&self) -> (r: std::ops::Range<usize>)
        ensures
            r.start == 0,
            r.end == self.spec_num_of_vertices(),
    {
        0..self.num_of_vertices
    }

    /// The set of neighbours of `vertex`, or `None` if it is not a vertex.
    pub fn neighbors(&self, vertex: usize) -> (r: Option<&HashSet<usize>>)
        requires
            self.wf(),
        ensures
            r is Some == (vertex < self@.len()),
            r matches Some(set) ==> set@ == self@[vertex as int],
    {
        if self.is_valid_vertex(vertex) {
            Some(&self.neighbors[vertex])
        } else {
            None
        }
    }

    /// The neighbours of the vertex `v` in the order in which its set hands
    /// them out.
    pub closed spec fn neighbor_seq(&self, v: int) -> Seq<usize> {
        handed_out(&self.neighbors@[v])
    }

    /// The neighbours of `vertex` as a vector, each once.
    pub fn neighbor_list(&self, vertex: usize) -> (r: Vec<usize>)
        requires
            vertex < self@.len(),
        ensures
            r@ == self.neighbor_seq(vertex as int),
            r@.no_duplicates(),
            r@.to_set() == self@[vertex as int],
            r@.len() == self@[vertex as int].len(),
    {
        set_to_vec(&self.neighbors[vertex])
    }

    /// The number of neighbours of `vertex`; 0 if it is not a vertex.
    pub fn degree(&self, vertex: usize) -> (d: usize)
        requires
            self.wf(),
        ensures
            d == (if vertex < self@.len() {
                self@[vertex as int].len()
            } else {
                0
            }),
    {
        if self.is_valid_vertex(vertex) {
            self.neighbors[vertex].len()
        } else {
            0
        }
    }
    /// Creates the complete graph on `num_of_vertices` vertices.
    pub fn complete(num_of_vertices: usize) -> (g: Graph)
        requires
            num_of_vertices * num_of_vertices <= usize::MAX,
        ensures
            g.wf(),
            g@.len() == num_of_vertices,
            forall|u: int|
                0 <= u < num_of_vertices ==> #[trigger] g@[u] == between(0, num_of_vertices as nat).remove(
                    u as usize,
                ),
            2 * g.spec_num_of_edges() == num_of_vertices * (num_of_vertices - 1),
    {
        if num_of_vertices == 0 {
            return Graph::empty(0);
        }
        let mut neighbors: Vec<HashSet<usize>> = Vec::with_capacity(num_of_vertices);
        let mut i: usize = 0;
        while i < num_of_vertices
            invariant
                i <= num_of_vertices,
                neighbors@.len() == i,
                forall|u: int|
                    0 <= u < i ==> (#[trigger] neighbors@[u])@ == between(0, num_of_vertices as nat).remove(
                        u as usize,
                    ),
            decreases num_of_vertices - i,
        {
            let mut set = range_set(0, num_of_vertices);
            set.remove(&i);
            neighbors.push(set);
            i += 1;
        }
        let ghost n = num_of_vertices as nat;
        proof {
            assert(n * (n - 1) <= n * n) by (nonlinear_arith)
                requires
                    n >= 1,
            ;
            lemma_consecutive_product_even((n - 1) as nat);
            assert((n - 1) * n == n * (n - 1)) by (nonlinear_arith);
        }
        let g = Graph {
            num_of_vertices,
            num_of_edges: num_of_vertices * (num_of_vertices - 1) / 2,
            neighbors,
        };
        proof {
            lemma_between_len(0, n);
            assert forall|u: int| 0 <= u < n implies #[trigger] g@[u] == between(0, n).remove(u as usize) by {
                assert(g@[u] == neighbors@[u]@);
            }
            assert forall|u: int| 0 <= u < n implies (#[trigger] g@[u]).len() == (n - 1) as nat by {
                assert(between(0, n).contains(u as usize));
            }
            lemma_arc_count_regular(g@, (n - 1) as nat);
        }
        g
    }

    /// Creates the complete bipartite graph whose sides are the vertices
    /// `0..n` and `n..n + m`.
    pub fn bipartite_complete(n: usize, m: usize) -> (g: Graph)
        requires
            (n + m) * (n + m) <= usize::MAX,
        ensures
            g.wf(),
            g@.len() == n + m,
            forall|u: int| 0 <= u < n ==> #[trigger] g@[u] == between(n as nat, (n + m) as nat),
            forall|u: int| n <= u < n + m ==> #[trigger] g@[u] == between(0, n as nat),
            g.spec_num_of_edges() == n * m,
    {
        proof {
            assert(n + m <= (n + m) * (n + m)) by (nonlinear_arith);
            assert(n * m <= (n + m) * (n + m)) by (nonlinear_arith);
        }
        let num_of_vertices = n + m;
        let num_of_edges = n * m;
        if num_of_edges == 0 {
            let g = Graph::empty(num_of_vertices);
            proof {
                assert(n == 0 || m == 0) by (nonlinear_arith)
                    requires
                        n * m == 0,
                ;
                assert(between(n as nat, (n + m) as nat) =~= Set::<usize>::empty() || n == 0);
                assert(between(0, n as nat) =~= Set::<usize>::empty() || m == 0);
            }
            return g;
        }
        let mut neighbors: Vec<HashSet<usize>> = Vec::with_capacity(num_of_vertices);
        let mut i: usize = 0;
        while i < n
            invariant
                i <= n,
                num_of_vertices == n + m,
                neighbors@.len() == i,
                forall|u: int| 0 <= u < i ==> (#[trigger] neighbors@[u])@ == between(n as nat, (n + m) as nat),
            decreases n - i,
        {
            neighbors.push(range_set(n, num_of_vertices));
            i += 1;
        }
        while i < num_of_vertices
            invariant
                n <= i <= num_of_vertices,
                num_of_vertices == n + m,
                neighbors@.len() == i,
                forall|u: int| 0 <= u < n ==> (#[trigger] neighbors@[u])@ == between(n as nat, (n + m) as nat),
                forall|u: int| n <= u < i ==> (#[trigger] neighbors@[u])@ == between(0, n as nat),
            decreases num_of_vertices - i,
        {
            neighbors.push(range_set(0, n));
            i += 1;
        }
        let g = Graph { num_of_vertices, num_of_edges, neighbors };
        proof {
            lemma_between_len(n as nat, (n + m) as nat);
            lemma_between_len(0, n as nat);
            assert forall|u: int| 0 <= u < n implies #[trigger] g@[u] == between(n as nat, (n + m) as nat) by {
                assert(g@[u] == neighbors@[u]@);
            }
            assert forall|u: int| n <= u < n + m implies #[trigger] g@[u] == between(0, n as nat) by {
                assert(g@[u] == neighbors@[u]@);
            }
            let left = g@.take(n as int);
            let right = g@.skip(n as int);
            assert(g@ =~= left + right);
            assert forall|u: int| 0 <= u < left.len() implies (#[trigger] left[u]).len() == m as nat by {
                assert(left[u] == g@[u]);
            }
            assert forall|u: int| 0 <= u < right.len() implies (#[trigger] right[u]).len() == n as nat by {
                assert(right[u] == g@[u + n]);
            }
            lemma_arc_count_regular(left, m as nat);
            lemma_arc_count_regular(right, n as nat);
            lemma_arc_count_concat(left, right);
            assert(n * m + m * n == 2 * (n * m)) by (nonlinear_arith);
            assert(simple_adjacency(g@)) by {
                assert forall|u: int, v: usize| 0 <= u < g@.len() && #[trigger] g@[u].contains(v) implies v
                    < g@.len() && v != u && g@[v as int].contains(u as usize) by {
                    if u < n {
                        assert(g@[u] == between(n as nat, (n + m) as nat));
                        assert(g@[v as int] == between(0, n as nat));
                    } else {
                        assert(g@[u] == between(0, n as nat));
                        assert(g@[v as int] == between(n as nat, (n + m) as nat));
                    }
                }
            }
        }
        g
    }

    /// All arcs: every edge once in each direction.
    pub fn all_arcs(&self) -> (arcs: Vec<(usize, usize)>)
        requires
            self.wf(),
        ensures
            arcs@.no_duplicates(),
            arcs@.to_set() == arc_set(self@),
            arcs@.len() == 2 * self.spec_num_of_edges(),
    {
        let mut arcs: Vec<(usize, usize)> = Vec::new();
        let n = self.neighbors.len();
        let mut from: usize = 0;
        assert(self@.take(0) =~= Seq::<Set<usize>>::empty());
        while from < n
            invariant
                from <= n,
                n == self@.len(),
                arcs@.no_duplicates(),
                forall|e: (usize, usize)|
                    #[trigger] arcs@.contains(e) <==> (e.0 < from && self@[e.0 as int].contains(e.1)),
                arcs@.len() == arc_count(self@.take(from as int)),
            decreases n - from,
        {
            let tos = self.neighbor_list(from);
            let ghost base = arcs@;
            let mut k: usize = 0;
            while k < tos.len()
                invariant
                    k <= tos.len(),
                    from < n,
                    n == self@.len(),
                    tos@.no_duplicates(),
                    tos@.to_set() == self@[from as int],
                    arcs@.no_duplicates(),
                    forall|e: (usize, usize)|
                        #[trigger] arcs@.contains(e) <==> (e.0 < from && self@[e.0 as int].contains(e.1)) || (e.0
                            == from && tos@.take(k as int).contains(e.1)),
                    arcs@.len() == base.len() + k,
                decreases tos.len() - k,
            {
                proof {
                    let arc = (from, tos@[k as int]);
                    lemma_push_contains(arcs@, arc);
                    lemma_push_contains(tos@.take(k as int), tos@[k as int]);
                    assert(tos@.take(k + 1) == tos@.take(k as int).push(tos@[k as int]));
                    if tos@.take(k as int).contains(tos@[k as int]) {
                        let j = choose|j: int| 0 <= j < k && tos@.take(k as int)[j] == tos@[k as int];
                        assert(tos@[j] == tos@[k as int]);
                    }
                    assert(self@[from as int].contains(tos@[k as int])) by {
                        assert(tos@.contains(tos@[k as int]));
                    }
                    lemma_push_no_duplicates(arcs@, arc);
                }
                arcs.push((from, tos[k]));
                k += 1;
            }
            proof {
                assert(tos@.take(tos.len() as int) == tos@);
                assert(self@.take(from + 1) =~= self@.take(from as int).push(self@[from as int]));
                lemma_arc_count_push(self@.take(from as int), self@[from as int]);
            }
            from += 1;
        }
        proof {
            assert(self@.take(n as int) =~= self@);
            assert(arcs@.to_set() =~= arc_set(self@));
        }
        arcs
    }

    /// All edges, each once, with the smaller endpoint first.
    pub fn all_edges(&self) -> (edges: Vec<(usize, usize)>)
        requires
            self.wf(),
        ensures
            edges@.no_duplicates(),
            edges@.to_set() == edge_set(self@),
            edges@.len() == self.spec_num_of_edges(),
    {
        let mut edges: Vec<(usize, usize)> = Vec::new();
        let n = self.neighbors.len();
        let mut from: usize = 0;
        while from < n
            invariant
                from <= n,
                n == self@.len(),
                edges@.no_duplicates(),
                forall|e: (usize, usize)|
                    #[trigger] edges@.contains(e) <==> (e.0 < from && e.0 < e.1 && self@[e.0 as int].contains(
                        e.1,
                    )),
            decreases n - from,
        {
            let tos = self.neighbor_list(from);
            let mut k: usize = 0;
            while k < tos.len()
                invariant
                    k <= tos.len(),
                    from < n,
                    n == self@.len(),
                    tos@.no_duplicates(),
                    tos@.to_set() == self@[from as int],
                    edges@.no_duplicates(),
                    forall|e: (usize, usize)|
                        #[trigger] edges@.contains(e) <==> (e.0 < from && e.0 < e.1 && self@[e.0 as int].contains(
                            e.1,
                        )) || (e.0 == from && e.0 < e.1 && tos@.take(k as int).contains(e.1)),
                decreases tos.len() - k,
            {
                proof {
                    let edge = (from, tos@[k as int]);
                    lemma_push_contains(edges@, edge);
                    lemma_push_contains(tos@.take(k as int), tos@[k as int]);
                    assert(tos@.take(k + 1) == tos@.take(k as int).push(tos@[k as int]));
                    if tos@.take(k as int).contains(tos@[k as int]) {
                        let j = choose|j: int| 0 <= j < k && tos@.take(k as int)[j] == tos@[k as int];
                        assert(tos@[j] == tos@[k as int]);
                    }
                    assert(self@[from as int].contains(tos@[k as int])) by {
                        assert(tos@.contains(tos@[k as int]));
                    }
                    if from < tos@[k as int] {
                        lemma_push_no_duplicates(edges@, edge);
                    }
                }
                if from < tos[k] {
                    edges.push((from, tos[k]));
                }
                k += 1;
            }
            proof {
                assert(tos@.take(tos.len() as int) == tos@);
            }
            from += 1;
        }
        proof {
            assert(edges@.to_set() =~= edge_set(self@));
            lemma_handshake(self@);
            edges@.unique_seq_to_set();
        }
        edges
    }
}

impl Clone for Graph {
    /// A graph with the same vertices and edges.
    fn clone(&self) -> (g: Graph)
        ensures
            g@ == self@,
            g.spec_num_of_vertices() == self.spec_num_of_vertices(),
            g.spec_num_of_edges() == self.spec_num_of_edges(),
    {
        let mut neighbors: Vec<HashSet<usize>> = Vec::with_capacity(self.neighbors.len());
        let mut i: usize = 0;
        while i < self.neighbors.len()
            invariant
                i <= self.neighbors@.len(),
                neighbors@.len() == i,
                forall|u: int| 0 <= u < i ==> (#[trigger] neighbors@[u])@ == self.neighbors@[u]@,
            decreases self.neighbors@.len() - i,
        {
            neighbors.push(copy_set(&self.neighbors[i]));
            i += 1;
        }
        let g = Graph { num_of_vertices: self.num_of_vertices, num_of_edges: self.num_of_edges, neighbors };
        assert(g@ =~= self@);
        g
    }
}

impl Default for Graph {
    /// The graph without vertices.
    fn default() -> (g: Graph)
        ensures
            g.wf(),
            g@.len() == 0,
            g.spec_num_of_edges() == 0,
    {
        Graph::new()
    }
}

impl Graph {
    /// The neighbours of every vertex as a list, each neighbour once.
    pub fn neighbor_lists(&self) -> (lists: Vec<Vec<usize>>)
        ensures
            lists@.len() == self@.len(),
            list_sets(lists@) == self@,
            forall|u: int| 0 <= u < lists@.len() ==> (#[trigger] lists@[u])@.no_duplicates(),
            forall|u: int| 0 <= u < lists@.len() ==> (#[trigger] lists@[u])@ == self.neighbor_seq(u),
    {
        let mut lists: Vec<Vec<usize>> = Vec::with_capacity(self.neighbors.len());
        let mut u: usize = 0;
        while u < self.neighbors.len()
            invariant
                u <= self.neighbors@.len(),
                lists@.len() == u,
                forall|w: int|
                    0 <= w < u ==> (#[trigger] lists@[w])@.no_duplicates() && lists@[w]@.to_set() == self@[w]
                        && lists@[w]@ == self.neighbor_seq(w),
            decreases self.neighbors@.len() - u,
        {
            lists.push(self.neighbor_list(u));
            u += 1;
        }
        assert(list_sets(lists@) =~= self@);
        lists
    }

    /// The graph with the given numbers of vertices and edges and the given
    /// neighbours; `None` if they do not describe a simple graph, or if the
    /// square of the number of vertices does not fit in a machine word.
    pub fn from_neighbor_lists(num_of_vertices: usize, num_of_edges: usize, lists: &Vec<Vec<usize>>) -> (r: Option<
        Graph,
    >)
        ensures
            r is Some == valid_lists(num_of_vertices, num_of_edges, lists@),
            r matches Some(g) ==> g.wf() && g@ == list_sets(lists@) && g.spec_num_of_edges() == num_of_edges,
    {
        let n = num_of_vertices;
        if lists.len() != n {
            return None;
        }
        if n.checked_mul(n).is_none() {
            return None;
        }
        let ghost sets = list_sets(lists@);
        let mut neighbors: Vec<HashSet<usize>> = Vec::with_capacity(n);
        let mut u: usize = 0;
        while u < n
            invariant
                u <= n,
                n == lists@.len(),
                neighbors@.len() == u,
                forall|w: int| 0 <= w < u ==> (#[trigger] neighbors@[w])@ == lists@[w]@.to_set(),
            decreases n - u,
        {
            let list = &lists[u];
            let mut set: HashSet<usize> = HashSet::new();
            let mut k: usize = 0;
            assert(list@.take(0) =~= Seq::<usize>::empty());
            while k < list.len()
                invariant
                    k <= list@.len(),
                    set@ == list@.take(k as int).to_set(),
                decreases list@.len() - k,
            {
                set.insert(list[k]);
                proof {
                    lemma_push_contains(list@.take(k as int), list@[k as int]);
                    assert(list@.take(k + 1) =~= list@.take(k as int).push(list@[k as int]));
                    assert(list@.take(k + 1).to_set() =~= list@.take(k as int).to_set().insert(list@[k as int]));
                }
                k += 1;
            }
            assert(list@.take(list@.len() as int) =~= list@);
            neighbors.push(set);
            u += 1;
        }
        let mut arcs: usize = 0;
        let mut u: usize = 0;
        assert(sets.take(0) =~= Seq::<Set<usize>>::empty());
        while u < n
            invariant
                u <= n,
                n == lists@.len(),
                n * n <= usize::MAX,
                sets == list_sets(lists@),
                neighbors@.len() == n,
                forall|w: int| 0 <= w < n ==> (#[trigger] neighbors@[w])@ == sets[w],
                forall|w: int| 0 <= w < n ==> (#[trigger] sets[w]).finite(),
                forall|w: int, v: usize|
                    0 <= w < u && #[trigger] sets[w].contains(v) ==> v < n && v != w && sets[v as int].contains(w as usize),
                forall|w: int| 0 <= w < u ==> (#[trigger] sets[w]).len() < n,
                arcs == arc_count(sets.take(u as int)),
                arcs <= u * n,
            decreases n - u,
        {
            let list = &lists[u];
            let mut k: usize = 0;
            while k < list.len()
                invariant
                    k <= list@.len(),
                    u < n,
                    n == lists@.len(),
                    list@ == lists@[u as int]@,
                    sets == list_sets(lists@),
                    neighbors@.len() == n,
                    forall|w: int| 0 <= w < n ==> (#[trigger] neighbors@[w])@ == sets[w],
                    forall|i: int|
                        0 <= i < k ==> (#[trigger] list@[i]) < n && list@[i] != u && sets[list@[i] as int].contains(u),
                decreases list@.len() - k,
            {
                let v = list[k];
                if v >= n || v == u || !neighbors[v].contains(&u) {
                    proof {
                        assert(list@.contains(v));
                        assert(sets[u as int].contains(v));
                    }
                    return None;
                }
                k += 1;
            }
            proof {
                assert forall|v: usize| #[trigger] sets[u as int].contains(v) implies v < n && v != u && sets[v as int].contains(
                    u,
                ) by {
                    let i = choose|i: int| 0 <= i < list@.len() && list@[i] == v;
                    assert(list@[i] < n);
                }
                lemma_between_len(0, n as nat);
                let others = between(0, n as nat).remove(u);
                assert(sets[u as int].subset_of(others));
                vstd::set_lib::lemma_len_subset(sets[u as int], others);
                assert(sets.take(u + 1) =~= sets.take(u as int).push(sets[u as int]));
                lemma_arc_count_push(sets.take(u as int), sets[u as int]);
                assert((u + 1) * n == u * n + n) by (nonlinear_arith);
                assert(u * n + n <= n * n) by (nonlinear_arith)
                    requires
                        u < n,
                ;
            }
            arcs += neighbors[u].len();
            u += 1;
        }
        proof {
            assert(sets.take(n as int) =~= sets);
        }
        if arcs % 2 != 0 || arcs / 2 != num_of_edges {
            return None;
        }
        let g = Graph { num_of_vertices, num_of_edges, neighbors };
        assert(g@ =~= sets);
        Some(g)
    }
}

impl vstd::std_specs::ops::AddSpecImpl for Graph {
    /// The sum is described by the contract of `add`, not by a spec graph.
    open spec fn obeys_add_spec() -> bool {
        false
    }

    /// Both graphs are well formed, and the square of the number of all
    /// vertices fits in a machine word.
    open spec fn add_req(self, rhs: Graph) -> bool {
        &&& self.wf()
        &&& rhs.wf()
        &&& (self@.len() + rhs@.len()) * (self@.len() + rhs@.len()) <= usize::MAX
    }

    open spec fn add_spec(self, rhs: Graph) -> Graph {
        self
    }
}

impl std::ops::Add for Graph {
    type Output = Graph;

    /// The disjoint union: the vertices of `other` follow those of `self`.
    fn add(self, other: Graph) -> (sum: Graph)
        ensures
            sum.wf(),
            disjoint_union(self@, other@, sum@),
            sum.spec_num_of_edges() == self.spec_num_of_edges() + other.spec_num_of_edges(),
    {
        let mut graph = self.clone();
        let n1 = self.num_of_vertices;
        let n2 = other.num_of_vertices;
        let ghost total = (n1 + n2) as nat;
        let mut added: usize = 0;
        while added < n2
            invariant
                added <= n2,
                n1 == self@.len(),
                total == n1 + n2,
                total * total <= usize::MAX,
                graph.wf(),
                graph@.len() == n1 + added,
                graph.spec_num_of_edges() == self.spec_num_of_edges(),
                forall|u: int| 0 <= u < n1 ==> #[trigger] graph@[u] == self@[u],
                forall|u: int| n1 <= u < n1 + added ==> #[trigger] graph@[u] == Set::<usize>::empty(),
            decreases n2 - added,
        {
            proof {
                let len = graph@.len();
                assert((len + 1) * (len + 1) <= total * total) by (nonlinear_arith)
                    requires
                        len + 1 <= total,
                ;
            }
            graph.add_vertex();
            added += 1;
        }
        let arcs = other.all_arcs();
        let mut k: usize = 0;
        while k < arcs.len()
            invariant
                k <= arcs@.len(),
                n1 == self@.len(),
                n2 == other@.len(),
                other.wf(),
                graph.wf(),
                graph@.len() == n1 + n2,
                arcs@.to_set() == arc_set(other@),
                forall|u: int| 0 <= u < n1 ==> #[trigger] graph@[u] == self@[u],
                forall|u: int, v: usize|
                    0 <= u < n2 ==> (#[trigger] graph@[n1 + u].contains(v) <==> v >= n1 && (arcs@.take(k as int).contains(
                        (u as usize, (v - n1) as usize),
                    ) || arcs@.take(k as int).contains(((v - n1) as usize, u as usize)))),
            decreases arcs@.len() - k,
        {
            let (from, to) = arcs[k];
            let ghost before = graph@;
            let ghost done = arcs@.take(k as int);
            proof {
                assert(arcs@.to_set().contains((from, to)));
                assert(other@[from as int].contains(to));
                lemma_edge_change(before, (from + n1) as usize, (to + n1) as usize);
                lemma_push_contains(done, (from, to));
                assert(arcs@.take(k + 1) =~= done.push((from, to)));
            }
            graph.add_edge(from + n1, to + n1);
            proof {
                assert(graph@ == joined(before, (from + n1) as usize, (to + n1) as usize));
                assert forall|u: int| 0 <= u < n1 implies #[trigger] graph@[u] == self@[u] by {
                    assert(before[u] == self@[u]);
                }
            }
            k += 1;
        }
        proof {
            assert(arcs@.take(arcs@.len() as int) =~= arcs@);
            assert forall|u: int| 0 <= u < n2 implies #[trigger] graph@[n1 + u] == shifted(other@[u], n1 as nat) by {
                assert forall|v: usize| graph@[n1 + u].contains(v) <==> shifted(other@[u], n1 as nat).contains(v) by {
                    if v >= n1 {
                        let w = (v - n1) as usize;
                        assert(arcs@.contains((u as usize, w)) <==> arc_set(other@).contains((u as usize, w)));
                        assert(arcs@.contains((w, u as usize)) <==> arc_set(other@).contains((w, u as usize)));
                    }
                }
                assert(graph@[n1 + u] =~= shifted(other@[u], n1 as nat));
            }
            let tail = graph@.skip(n1 as int);
            assert(graph@ =~= self@ + tail);
            lemma_arc_count_concat(self@, tail);
            assert forall|u: int| 0 <= u < other@.len() implies #[trigger] tail[u] == shifted(other@[u], n1 as nat) by {
                assert(tail[u] == graph@[n1 + u]);
            }
            lemma_arc_count_same_sizes(other@, tail, n1 as nat);
        }
        graph
    }
}

/// Raising the neighbours of every vertex keeps the arc count.
pub proof fn lemma_arc_count_same_sizes(adj: Seq<Set<usize>>, raised: Seq<Set<usize>>, k: nat)
    requires
        raised.len() == adj.len(),
        forall|u: int| 0 <= u < adj.len() ==> (#[trigger] adj[u]).finite(),
        forall|u: int, x: usize| 0 <= u < adj.len() && #[trigger] adj[u].contains(x) ==> x + k <= usize::MAX,
        forall|u: int| 0 <= u < adj.len() ==> #[trigger] raised[u] == shifted(adj[u], k),
    ensures
        arc_count(raised) == arc_count(adj),
    decreases adj.len(),
{
    if adj.len() > 0 {
        lemma_arc_count_same_sizes(adj.drop_last(), raised.drop_last(), k);
        lemma_shifted_len(adj.last(), k);
    }
}

} // verus!
