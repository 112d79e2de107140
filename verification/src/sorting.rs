//! Orders on pairs of indices, and sorting.

use crate::graphs::Graph;
use vstd::prelude::*;

verus! {

/// The lexicographic order on pairs, strict.
pub open spec fn pair_lt(a: (usize, usize), b: (usize, usize)) -> bool {
    a.0 < b.0 || (a.0 == b.0 && a.1 < b.1)
}

/// The lexicographic order on pairs.
pub open spec fn pair_le(a: (usize, usize), b: (usize, usize)) -> bool {
    a == b || pair_lt(a, b)
}

/// The pairs stand in lexicographic order; equal pairs may repeat.
pub open spec fn pairs_sorted(s: Seq<(usize, usize)>) -> bool {
    forall|i: int, j: int| 0 <= i < j < s.len() ==> pair_le(#[trigger] s[i], #[trigger] s[j])
}

/// The pairs stand in strictly increasing lexicographic order.
pub open spec fn pairs_increasing(s: Seq<(usize, usize)>) -> bool {
    forall|i: int, j: int| 0 <= i < j < s.len() ==> pair_lt(#[trigger] s[i], #[trigger] s[j])
}

/// A strictly increasing sequence is determined by the set of its elements.
pub proof fn lemma_increasing_unique(a: Seq<(usize, usize)>, b: Seq<(usize, usize)>)
    requires
        pairs_increasing(a),
        pairs_increasing(b),
        a.to_set() == b.to_set(),
    ensures
        a == b,
    decreases a.len(),
{
    if a.len() == 0 {
        if b.len() > 0 {
            assert(b.contains(b[0]));
            assert(a.to_set().contains(b[0]));
        }
        assert(a =~= b);
    } else {
        assert(a.contains(a[0]));
        assert(b.to_set().contains(a[0]));
        let j = choose|j: int| 0 <= j < b.len() && b[j] == a[0];
        assert(b.contains(b[0]));
        assert(a.to_set().contains(b[0]));
        let i = choose|i: int| 0 <= i < a.len() && a[i] == b[0];
        if j > 0 {
            assert(pair_lt(b[0], b[j]));
            if i > 0 {
                assert(pair_lt(a[0], a[i]));
            }
        }
        assert(a[0] == b[0]);
        let ra = a.drop_first();
        let rb = b.drop_first();
        assert forall|x: (usize, usize)| ra.to_set().contains(x) <==> rb.to_set().contains(x) by {
            if ra.contains(x) {
                let k = choose|k: int| 0 <= k < ra.len() && ra[k] == x;
                assert(a[k + 1] == x);
                assert(pair_lt(a[0], a[k + 1]));
                assert(a.contains(x));
                assert(b.to_set().contains(x));
                let l = choose|l: int| 0 <= l < b.len() && b[l] == x;
                assert(l > 0);
                assert(rb[l - 1] == x);
            }
            if rb.contains(x) {
                let k = choose|k: int| 0 <= k < rb.len() && rb[k] == x;
                assert(b[k + 1] == x);
                assert(pair_lt(b[0], b[k + 1]));
                assert(b.contains(x));
                assert(a.to_set().contains(x));
                let l = choose|l: int| 0 <= l < a.len() && a[l] == x;
                assert(l > 0);
                assert(ra[l - 1] == x);
            }
        }
        assert(ra.to_set() =~= rb.to_set());
        assert(pairs_increasing(ra)) by {
            assert forall|p: int, q: int| 0 <= p < q < ra.len() implies pair_lt(#[trigger] ra[p], #[trigger] ra[q]) by {
                assert(pair_lt(a[p + 1], a[q + 1]));
            }
        }
        assert(pairs_increasing(rb)) by {
            assert forall|p: int, q: int| 0 <= p < q < rb.len() implies pair_lt(#[trigger] rb[p], #[trigger] rb[q]) by {
                assert(pair_lt(b[p + 1], b[q + 1]));
            }
        }
        lemma_increasing_unique(ra, rb);
        assert(a =~= seq![a[0]] + ra);
        assert(b =~= seq![b[0]] + rb);
    }
}

/// A sorted rearrangement of a sequence without duplicates is strictly
/// increasing and has the same elements.
pub proof fn lemma_sorted_rearrangement(before: Seq<(usize, usize)>, after: Seq<(usize, usize)>)
    requires
        before.no_duplicates(),
        after.to_multiset() == before.to_multiset(),
        pairs_sorted(after),
    ensures
        pairs_increasing(after),
        after.to_set() == before.to_set(),
{
    before.to_multiset_ensures();
    after.to_multiset_ensures();
    before.lemma_multiset_has_no_duplicates();
    after.lemma_multiset_has_no_duplicates_conv();
    assert forall|x: (usize, usize)| after.to_set().contains(x) <==> before.to_set().contains(x) by {
        assert(after.contains(x) <==> after.to_multiset().count(x) > 0);
        assert(before.contains(x) <==> before.to_multiset().count(x) > 0);
    }
    assert(after.to_set() =~= before.to_set());
    assert forall|i: int, j: int| 0 <= i < j < after.len() implies pair_lt(#[trigger] after[i], #[trigger] after[j]) by {
        assert(pair_le(after[i], after[j]));
        assert(after[i] != after[j]);
    }
}

/// Sorts pairs lexicographically with the standard library's
/// `sort_unstable`, which rearranges a slice into ascending order; tuples
/// compare component by component from the left.
#[verifier::external_body]
pub(crate) fn sort_pairs(v: &mut Vec<(usize, usize)>)
    ensures
        final(v)@.to_multiset() == old(v)@.to_multiset(),
        pairs_sorted(final(v)@),
{
    v.sort_unstable();
}

/// The values stand in descending order; equal values may repeat.
pub open spec fn descending(s: Seq<usize>) -> bool {
    forall|i: int, j: int| 0 <= i < j < s.len() ==> #[trigger] s[i] >= #[trigger] s[j]
}

/// The listed indices stand in descending order of their keys.
pub open spec fn descending_by(s: Seq<usize>, key: Seq<usize>) -> bool {
    forall|i: int, j: int| 0 <= i < j < s.len() ==> key[#[trigger] s[i] as int] >= key[#[trigger] s[j] as int]
}

/// Sorts the values into descending order with the standard library's
/// `sort_unstable_by`, which rearranges a slice into the order of the
/// comparison handed to it, here the reverse of the order of the integers.
#[verifier::external_body]
pub(crate) fn sort_descending(v: &mut Vec<usize>)
    ensures
        final(v)@.to_multiset() == old(v)@.to_multiset(),
        descending(final(v)@),
{
    v.sort_unstable_by(|a, b| b.cmp(a));
}

/// Sorts indices into descending order of their keys with the standard
/// library's `sort_by`. The order of indices with equal keys is not stated.
#[verifier::external_body]
pub(crate) fn sort_descending_by(v: &mut Vec<usize>, key: &Vec<usize>)
    requires
        forall|i: int| 0 <= i < old(v)@.len() ==> (#[trigger] old(v)@[i]) < key@.len(),
    ensures
        final(v)@.to_multiset() == old(v)@.to_multiset(),
        descending_by(final(v)@, key@),
{
    v.sort_by(|a, b| key[*b].cmp(&key[*a]));
}

/// No index before the place `index` has a smaller key than the one there,
/// and no index after it a larger one.
pub open spec fn nth_selected(s: Seq<usize>, index: usize, key: Seq<usize>) -> bool {
    &&& forall|i: int| 0 <= i < index ==> key[#[trigger] s[i] as int] >= key[s[index as int] as int]
    &&& forall|i: int| index < i < s.len() ==> key[#[trigger] s[i] as int] <= key[s[index as int] as int]
}

/// Rearranges indices with the standard library's
/// `select_nth_unstable_by` in descending order of their keys: afterwards no
/// index before `index` has a smaller key than the one at `index`, and no
/// index after it a larger one.
#[verifier::external_body]
pub(crate) fn select_nth_descending_by(v: &mut Vec<usize>, index: usize, key: &Vec<usize>)
    requires
        index < old(v)@.len(),
        forall|i: int| 0 <= i < old(v)@.len() ==> (#[trigger] old(v)@[i]) < key@.len(),
    ensures
        final(v)@.to_multiset() == old(v)@.to_multiset(),
        nth_selected(final(v)@, index, key@),
{
    v.select_nth_unstable_by(index, |x, y| key[*y].cmp(&key[*x]));
}

/// A rearrangement has the same length and the same elements, and no
/// duplicates if there were none.
pub proof fn lemma_rearranged<T>(before: Seq<T>, after: Seq<T>)
    requires
        after.to_multiset() == before.to_multiset(),
    ensures
        after.len() == before.len(),
        forall|x: T| #[trigger] after.contains(x) <==> before.contains(x),
        before.no_duplicates() ==> after.no_duplicates(),
{
    before.to_multiset_ensures();
    after.to_multiset_ensures();
    assert forall|x: T| #[trigger] after.contains(x) <==> before.contains(x) by {
        assert(after.contains(x) <==> after.to_multiset().count(x) > 0);
        assert(before.contains(x) <==> before.to_multiset().count(x) > 0);
    }
    if before.no_duplicates() {
        before.lemma_multiset_has_no_duplicates();
        after.lemma_multiset_has_no_duplicates_conv();
    }
}

/// The sequence with the values at two places exchanged.
pub open spec fn swapped<T>(s: Seq<T>, a: int, b: int) -> Seq<T> {
    s.update(a, s[b]).update(b, s[a])
}

/// Exchanging two values keeps the elements, and keeps them different.
pub proof fn lemma_swapped<T>(s: Seq<T>, a: int, b: int)
    requires
        0 <= a < s.len(),
        0 <= b < s.len(),
    ensures
        swapped(s, a, b).len() == s.len(),
        forall|x: T| #[trigger] swapped(s, a, b).contains(x) <==> s.contains(x),
        s.no_duplicates() ==> swapped(s, a, b).no_duplicates(),
{
    let t = swapped(s, a, b);
    assert forall|x: T| #[trigger] t.contains(x) <==> s.contains(x) by {
        if t.contains(x) {
            let k = choose|k: int| 0 <= k < t.len() && t[k] == x;
            if k == a {
                assert(s[b] == x);
            } else if k == b {
                assert(s[a] == x);
            } else {
                assert(s[k] == x);
            }
        }
        if s.contains(x) {
            let k = choose|k: int| 0 <= k < s.len() && s[k] == x;
            if k == a {
                assert(t[b] == x);
            } else if k == b {
                assert(t[a] == x);
            } else {
                assert(t[k] == x);
            }
        }
    }
    if s.no_duplicates() {
        assert forall|i: int, j: int| 0 <= i < t.len() && 0 <= j < t.len() && i != j implies t[i] != t[j] by {
            let pi = if i == a {
                b
            } else if i == b {
                a
            } else {
                i
            };
            let pj = if j == a {
                b
            } else if j == b {
                a
            } else {
                j
            };
            assert(t[i] == s[pi]);
            assert(t[j] == s[pj]);
        }
    }
}

/// Exchanges the values at two places of a vector.
pub fn swap_places(v: &mut Vec<usize>, a: usize, b: usize)
    requires
        a < old(v)@.len(),
        b < old(v)@.len(),
    ensures
        final(v)@ == swapped(old(v)@, a as int, b as int),
{
    let x = v[a];
    let y = v[b];
    v[a] = y;
    v[b] = x;
}

/// The number of neighbours of `x`; 0 if `x` is not a vertex.
pub open spec fn degree_of(adj: Seq<Set<usize>>, x: usize) -> nat {
    if x < adj.len() {
        adj[x as int].len()
    } else {
        0
    }
}

/// The listed vertices stand in ascending order of their degrees.
pub open spec fn ascending_by_degree(s: Seq<usize>, adj: Seq<Set<usize>>) -> bool {
    forall|i: int, j: int| 0 <= i < j < s.len() ==> degree_of(adj, #[trigger] s[i]) <= degree_of(adj, #[trigger] s[j])
}

/// Sorts vertices into ascending order of their degrees with the standard
/// library's `sort_by_key`, which rearranges a slice into the order of the
/// keys that the closure computes. The order of vertices with equal degrees
/// is not stated.
#[verifier::external_body]
pub(crate) fn sort_by_degree(v: &mut Vec<usize>, graph: &Graph)
    requires
        graph.wf(),
    ensures
        final(v)@.to_multiset() == old(v)@.to_multiset(),
        ascending_by_degree(final(v)@, graph@),
{
    v.sort_by_key(|b| graph.degree(*b));
}

} // verus!
