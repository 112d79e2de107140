//! Random graphs: with a given degree sequence, with a given number of
//! edges, and regular ones.

use crate::graphs::{lemma_edge_change, with_edge, Graph};
use crate::sorting::{
    descending, lemma_rearranged, lemma_swapped, select_nth_descending_by, sort_descending, sort_descending_by,
    swap_places, swapped,
};
use vstd::prelude::*;

verus! {

/// The sum of the values.
pub open spec fn total(s: Seq<usize>) -> nat
    decreases s.len(),
{
    if s.len() == 0 {
        0
    } else {
        total(s.drop_last()) + s.last() as nat
    }
}

/// The sum of the values, each counted as at most `cap`.
pub open spec fn capped_total(s: Seq<usize>, cap: nat) -> nat
    decreases s.len(),
{
    if s.len() == 0 {
        0
    } else {
        capped_total(s.drop_last(), cap) + if s.last() <= cap {
            s.last() as nat
        } else {
            cap
        }
    }
}

/// The degrees in descending order.
pub open spec fn sorted_degrees(d: Seq<usize>) -> Seq<usize> {
    choose|s: Seq<usize>| descending(s) && s.to_multiset() == d.to_multiset()
}

/// The inequality of Erdős and Gallai for the `k + 1` largest of the
/// descending degrees `s`: their sum is at most `k * (k + 1)` plus the sum
/// of the other degrees, each counted as at most `k + 1`.
pub open spec fn erdos_gallai_at(s: Seq<usize>, k: int) -> bool {
    total(s.take(k + 1)) <= k * (k + 1) + capped_total(s.skip(k + 1), (k + 1) as nat)
}

/// The degree sum is even, and the inequality of Erdős and Gallai holds at
/// every place of the descending degrees.
pub open spec fn erdos_gallai(d: Seq<usize>) -> bool {
    let s = sorted_degrees(d);
    &&& total(d) % 2 == 0
    &&& forall|k: int| 0 <= k < s.len() ==> erdos_gallai_at(s, k)
}

/// The place `j` is the last one whose degree is at least `k`.
pub open spec fn last_at_least(s: Seq<usize>, k: int, j: int) -> bool {
    &&& 0 <= j < s.len()
    &&& s[j] >= k
    &&& forall|i: int| j < i < s.len() ==> (#[trigger] s[i]) < k
}

/// The sum of a concatenation is the sum of the sums.
pub proof fn lemma_total_concat(a: Seq<usize>, b: Seq<usize>)
    ensures
        total(a + b) == total(a) + total(b),
    decreases b.len(),
{
    if b.len() == 0 {
        assert(a + b =~= a);
    } else {
        lemma_total_concat(a, b.drop_last());
        assert((a + b).drop_last() =~= a + b.drop_last());
    }
}

/// The capped sum of a concatenation is the sum of the capped sums.
pub proof fn lemma_capped_concat(a: Seq<usize>, b: Seq<usize>, cap: nat)
    ensures
        capped_total(a + b, cap) == capped_total(a, cap) + capped_total(b, cap),
    decreases b.len(),
{
    if b.len() == 0 {
        assert(a + b =~= a);
    } else {
        lemma_capped_concat(a, b.drop_last(), cap);
        assert((a + b).drop_last() =~= a + b.drop_last());
    }
}

/// Where no value exceeds the cap, the capped sum is the sum.
pub proof fn lemma_capped_small(s: Seq<usize>, cap: nat)
    requires
        forall|i: int| 0 <= i < s.len() ==> (#[trigger] s[i]) <= cap,
    ensures
        capped_total(s, cap) == total(s),
    decreases s.len(),
{
    if s.len() > 0 {
        lemma_capped_small(s.drop_last(), cap);
    }
}

/// Where every value reaches the cap, the capped sum is the cap times the
/// number of values.
pub proof fn lemma_capped_large(s: Seq<usize>, cap: nat)
    requires
        forall|i: int| 0 <= i < s.len() ==> (#[trigger] s[i]) >= cap,
    ensures
        capped_total(s, cap) == s.len() * cap,
    decreases s.len(),
{
    if s.len() > 0 {
        lemma_capped_large(s.drop_last(), cap);
        assert(s.len() * cap == (s.len() - 1) * cap + cap) by (nonlinear_arith);
    }
}

/// The sum splits at every place.
pub proof fn lemma_total_split(s: Seq<usize>, k: int)
    requires
        0 <= k <= s.len(),
    ensures
        total(s) == total(s.take(k)) + total(s.skip(k)),
{
    lemma_total_concat(s.take(k), s.skip(k));
    assert(s =~= s.take(k) + s.skip(k));
}

/// Taking one value more adds it to the sum.
pub proof fn lemma_total_take(s: Seq<usize>, k: int)
    requires
        0 <= k < s.len(),
    ensures
        total(s.take(k + 1)) == total(s.take(k)) + s[k],
{
    assert(s.take(k + 1).drop_last() =~= s.take(k));
}

/// Skipping one value less adds it to the sum.
pub proof fn lemma_total_skip(s: Seq<usize>, k: int)
    requires
        0 <= k < s.len(),
    ensures
        total(s.skip(k)) == s[k] + total(s.skip(k + 1)),
{
    lemma_total_concat(seq![s[k]], s.skip(k + 1));
    assert(s.skip(k) =~= seq![s[k]] + s.skip(k + 1));
    let one = seq![s[k]];
    assert(one.drop_last() =~= Seq::<usize>::empty());
    assert(total(one.drop_last()) == 0);
    assert(one.last() == s[k]);
    assert(total(one) == s[k]);
}

/// Removing a value takes it off the sum.
pub proof fn lemma_total_remove(s: Seq<usize>, i: int)
    requires
        0 <= i < s.len(),
    ensures
        total(s) == total(s.remove(i)) + s[i],
{
    lemma_total_split(s, i);
    lemma_total_skip(s, i);
    lemma_total_concat(s.take(i), s.skip(i + 1));
    assert(s.remove(i) =~= s.take(i) + s.skip(i + 1));
}

/// Replacing a value changes the sum by the difference.
pub proof fn lemma_total_update(s: Seq<usize>, i: int, x: usize)
    requires
        0 <= i < s.len(),
    ensures
        total(s.update(i, x)) + s[i] == total(s) + x,
{
    lemma_total_remove(s, i);
    lemma_total_remove(s.update(i, x), i);
    assert(s.update(i, x).remove(i) =~= s.remove(i));
}

/// Rearranging the values keeps the sum.
pub proof fn lemma_total_rearranged(a: Seq<usize>, b: Seq<usize>)
    requires
        a.to_multiset() == b.to_multiset(),
    ensures
        total(a) == total(b),
    decreases a.len(),
{
    a.to_multiset_ensures();
    b.to_multiset_ensures();
    if a.len() == 0 {
        assert(b.len() == 0);
    } else {
        let x = a.last();
        assert(a.contains(x));
        assert(b.to_multiset().count(x) > 0);
        assert(b.contains(x));
        let i = choose|i: int| 0 <= i < b.len() && b[i] == x;
        assert(a.drop_last() =~= a.remove(a.len() - 1));
        assert(a.drop_last().to_multiset() == a.to_multiset().remove(x));
        assert(b.remove(i).to_multiset() == b.to_multiset().remove(x));
        lemma_total_rearranged(a.drop_last(), b.remove(i));
        lemma_total_remove(b, i);
    }
}

/// The descending arrangement of the degrees is the only one.
pub proof fn lemma_sorted_degrees(d: Seq<usize>, s: Seq<usize>)
    requires
        descending(s),
        s.to_multiset() == d.to_multiset(),
    ensures
        s == sorted_degrees(d),
{
    let t = sorted_degrees(d);
    let at_least = |a: usize, b: usize| a >= b;
    assert(vstd::relations::sorted_by(s, at_least));
    assert(vstd::relations::sorted_by(t, at_least));
    assert(vstd::relations::total_ordering(at_least));
    vstd::seq_lib::lemma_sorted_unique(s, t, at_least);
}

/// Where the inequality holds at every place whose degree is at least the
/// place, it holds at every place: beyond these the degrees are so small
/// that each place adds less on the left than on the right.
pub proof fn lemma_erdos_gallai_beyond(s: Seq<usize>, k: int)
    requires
        descending(s),
        0 <= k < s.len(),
        forall|q: int| 0 <= q < s.len() && q <= s[q] ==> erdos_gallai_at(s, q),
    ensures
        erdos_gallai_at(s, k),
    decreases k,
{
    if k > s[k] {
        lemma_erdos_gallai_beyond(s, k - 1);
        let rest = s.skip(k);
        let after = s.skip(k + 1);
        assert forall|i: int| 0 <= i < rest.len() implies (#[trigger] rest[i]) <= k as nat by {
            assert(rest[i] == s[i + k]);
            if i > 0 {
                assert(s[k] >= s[i + k]);
            }
        }
        assert forall|i: int| 0 <= i < after.len() implies (#[trigger] after[i]) <= (k + 1) as nat by {
            assert(after[i] == s[i + k + 1]);
            assert(s[k] >= s[i + k + 1]);
        }
        lemma_capped_small(rest, k as nat);
        lemma_capped_small(after, (k + 1) as nat);
        lemma_total_skip(s, k);
        lemma_total_take(s, k);
        assert(s.take(k - 1 + 1) == s.take(k));
        assert(s.skip(k - 1 + 1) == s.skip(k));
        assert((k - 1) * (k - 1 + 1) + 2 * (k - 1) <= k * (k + 1)) by (nonlinear_arith)
            requires
                k >= 1,
        ;
    }
}

/// Whether the degree sequence passes the test of Erdős and Gallai for
/// being the degree sequence of a simple graph.
pub fn is_graphical(d_seq: &[usize]) -> (r: bool)
    requires
        d_seq@.len() > 0,
        d_seq@.len() * d_seq@.len() <= usize::MAX,
        total(d_seq@) <= usize::MAX,
    ensures
        r == erdos_gallai(d_seq@),
{
    let n = d_seq.len();
    let mut sum: usize = 0;
    let mut d_sorted: Vec<usize> = Vec::with_capacity(n);
    let mut i: usize = 0;
    assert(d_seq@.take(0) =~= Seq::<usize>::empty());
    while i < n
        invariant
            i <= n,
            n == d_seq@.len(),
            sum == total(d_seq@.take(i as int)),
            d_sorted@ == d_seq@.take(i as int),
            total(d_seq@) <= usize::MAX,
        decreases n - i,
    {
        proof {
            lemma_total_take(d_seq@, i as int);
            lemma_total_split(d_seq@, i + 1);
            assert(d_seq@.take(i + 1) =~= d_seq@.take(i as int).push(d_seq@[i as int]));
        }
        sum += d_seq[i];
        d_sorted.push(d_seq[i]);
        i += 1;
    }
    assert(d_seq@.take(n as int) =~= d_seq@);
    if sum % 2 == 1 {
        return false;
    }
    sort_descending(&mut d_sorted);
    let ghost s = d_sorted@;
    proof {
        lemma_sorted_degrees(d_seq@, s);
        lemma_total_rearranged(s, d_seq@);
        s.to_multiset_ensures();
        d_seq@.to_multiset_ensures();
        assert(n < usize::MAX) by (nonlinear_arith)
            requires
                n * n <= usize::MAX,
                n > 0,
                usize::MAX >= 3,
        ;
    }
    let max_deg = d_sorted[0];
    proof {
        assert(max_deg < usize::MAX) by {
            lemma_total_split(s, 1);
            lemma_total_take(s, 0);
            assert(s.take(0) =~= Seq::<usize>::empty());
            assert(usize::MAX % 2 == 1);
        }
    }

    // the sums of the degrees from each place on
    let mut upper_sums: Vec<usize> = vec![0; n + 1];
    let mut i: usize = n;
    assert(s.skip(n as int) =~= Seq::<usize>::empty());
    while i > 0
        invariant
            i <= n,
            n == s.len(),
            s == d_sorted@,
            upper_sums@.len() == n + 1,
            total(s) <= usize::MAX,
            forall|j: int| i <= j <= n ==> #[trigger] upper_sums@[j] == total(s.skip(j)),
        decreases i,
    {
        i -= 1;
        proof {
            lemma_total_skip(s, i as int);
            lemma_total_split(s, i as int);
        }
        let next = upper_sums[i + 1] + d_sorted[i];
        upper_sums[i] = next;
    }

    // for each degree the last place that holds it
    let mut biggest_i: Vec<Option<usize>> = vec![None; max_deg + 1];
    let mut i: usize = 0;
    while i < n
        invariant
            i <= n,
            n == s.len(),
            s == d_sorted@,
            descending(s),
            max_deg == s[0],
            biggest_i@.len() == max_deg + 1,
            forall|k: int|
                0 <= k <= max_deg ==> match #[trigger] biggest_i@[k] {
                    Some(j) => j < i && s[j as int] == k && forall|l: int| j < l < i ==> (#[trigger] s[l]) != k,
                    None => forall|l: int| 0 <= l < i ==> (#[trigger] s[l]) != k,
                },
        decreases n - i,
    {
        let di = d_sorted[i];
        assert(s[0] >= s[i as int]);
        biggest_i[di] = Some(i);
        i += 1;
    }

    // for each degree the last place that holds at least as much
    let mut current_max = biggest_i[max_deg].unwrap();
    proof {
        assert(last_at_least(s, max_deg as int, current_max as int)) by {
            assert forall|l: int| current_max < l < s.len() implies (#[trigger] s[l]) < max_deg by {
                assert(s[0] >= s[l]);
            }
        }
    }
    let mut k: usize = max_deg + 1;
    while k > 0
        invariant
            k <= max_deg + 1,
            n == s.len(),
            s == d_sorted@,
            descending(s),
            max_deg == s[0],
            biggest_i@.len() == max_deg + 1,
            last_at_least(
                s,
                if k <= max_deg {
                    k as int
                } else {
                    max_deg as int
                },
                current_max as int,
            ),
            forall|q: int|
                0 <= q < k ==> match #[trigger] biggest_i@[q] {
                    Some(j) => j < n && s[j as int] == q && forall|l: int| j < l < n ==> (#[trigger] s[l]) != q,
                    None => forall|l: int| 0 <= l < n ==> (#[trigger] s[l]) != q,
                },
            forall|q: int|
                k <= q <= max_deg ==> (#[trigger] biggest_i@[q]) is Some && last_at_least(
                    s,
                    q,
                    biggest_i@[q].unwrap() as int,
                ),
        decreases k,
    {
        k -= 1;
        match biggest_i[k] {
            Some(j) => {
                proof {
                    assert forall|l: int| j < l < s.len() implies (#[trigger] s[l]) < k by {
                        assert(s[j as int] >= s[l]);
                    }
                }
                current_max = j;
            },
            None => {
                proof {
                    assert(s[current_max as int] != k);
                    assert forall|l: int| current_max < l < s.len() implies (#[trigger] s[l]) < k by {
                    }
                }
                biggest_i[k] = Some(current_max);
            },
        }
    }

    let mut left_sum: usize = 0;
    let mut k: usize = 0;
    assert(s.take(0) =~= Seq::<usize>::empty());
    while k < n
        invariant
            k <= n,
            n == s.len(),
            n * n <= usize::MAX,
            n < usize::MAX,
            s == d_sorted@,
            descending(s),
            max_deg == s[0],
            total(s) <= usize::MAX,
            s == sorted_degrees(d_seq@),
            total(d_seq@) % 2 == 0,
            biggest_i@.len() == max_deg + 1,
            upper_sums@.len() == n + 1,
            forall|j: int| 0 <= j <= n ==> #[trigger] upper_sums@[j] == total(s.skip(j)),
            forall|q: int|
                0 <= q <= max_deg ==> (#[trigger] biggest_i@[q]) is Some && last_at_least(
                    s,
                    q,
                    biggest_i@[q].unwrap() as int,
                ),
            left_sum == total(s.take(k as int)),
            forall|q: int| 0 <= q < k ==> q <= s[q] && erdos_gallai_at(s, q),
        decreases n - k,
    {
        let dk = d_sorted[k];
        if k > dk {
            proof {
                assert forall|q: int| 0 <= q < s.len() && q <= s[q] implies erdos_gallai_at(s, q) by {
                    if q >= k {
                        assert(s[k as int] >= s[q]);
                    }
                }
                assert forall|q: int| 0 <= q < s.len() implies erdos_gallai_at(s, q) by {
                    lemma_erdos_gallai_beyond(s, q);
                }
            }
            return true;
        }
        proof {
            lemma_total_take(s, k as int);
            lemma_total_split(s, k + 1);
        }
        left_sum += dk;
        let p = if k + 2 < biggest_i.len() {
            match biggest_i[k + 2] {
                Some(j) => if j > k {
                    j
                } else {
                    k
                },
                None => k,
            }
        } else {
            k
        };
        proof {
            let cap = (k + 1) as nat;
            let rest = s.skip(k + 1);
            assert(p < n);
            assert(p * (k + 1) <= n * n) by (nonlinear_arith)
                requires
                    p < n,
                    k < n,
            ;
            // the bound on the right is `p * (k + 1)` plus the degrees after `p`
            assert(k * (k + 1) + capped_total(rest, cap) == p * (k + 1) + total(s.skip(p + 1))) by {
                if p == k {
                    assert forall|i: int| 0 <= i < rest.len() implies (#[trigger] rest[i]) <= cap by {
                        if k + 2 < biggest_i@.len() {
                            let j = biggest_i@[k + 2].unwrap() as int;
                            assert(last_at_least(s, k + 2, j));
                            assert(rest[i] == s[i + k + 1]);
                        } else {
                            assert(s[0] >= s[i + k + 1]);
                        }
                    }
                    lemma_capped_small(rest, cap);
                } else {
                    assert(last_at_least(s, k + 2, p as int));
                    let first = s.subrange(k + 1, p + 1);
                    let second = s.skip(p + 1);
                    assert(rest =~= first + second);
                    lemma_capped_concat(first, second, cap);
                    assert forall|i: int| 0 <= i < first.len() implies (#[trigger] first[i]) >= cap by {
                        assert(first[i] == s[i + k + 1]);
                        assert(s[i + k + 1] >= s[p as int]);
                    }
                    assert forall|i: int| 0 <= i < second.len() implies (#[trigger] second[i]) <= cap by {
                        assert(second[i] == s[i + p + 1]);
                    }
                    lemma_capped_large(first, cap);
                    lemma_capped_small(second, cap);
                    assert(k * (k + 1) + (p - k) * (k + 1) == p * (k + 1)) by (nonlinear_arith);
                    assert(first.len() * cap == (p - k) * (k + 1));
                }
            }
        }
        let above = upper_sums[p + 1];
        if left_sum > above && left_sum - above > p * (k + 1) {
            assert(!erdos_gallai_at(s, k as int));
            return false;
        }
        assert(erdos_gallai_at(s, k as int));
        k += 1;
    }
    true
}

/// The degrees after an edge between `i` and `j` was taken off.
pub open spec fn lowered(d: Seq<usize>, i: int, j: int) -> Seq<usize> {
    let first = d.update(i, (d[i] - 1) as usize);
    first.update(j, (first[j] - 1) as usize)
}

/// Whether the degree sequence stays graphical when an edge between the
/// places `i` and `j` is taken off. The sequence is left as it was.
pub fn is_graphical_i_j(d_seq: &mut [usize], i: usize, j: usize) -> (r: bool)
    requires
        i < old(d_seq)@.len(),
        j < old(d_seq)@.len(),
        old(d_seq)@[i as int] >= 1,
        old(d_seq)@.update(i as int, (old(d_seq)@[i as int] - 1) as usize)[j as int] >= 1,
        old(d_seq)@.len() * old(d_seq)@.len() <= usize::MAX,
        total(old(d_seq)@) <= usize::MAX,
    ensures
        final(d_seq)@ == old(d_seq)@,
        r == erdos_gallai(lowered(old(d_seq)@, i as int, j as int)),
{
    let ghost before = d_seq@;
    d_seq[i] -= 1;
    let ghost first = d_seq@;
    d_seq[j] -= 1;
    proof {
        lemma_total_update(before, i as int, first[i as int]);
        lemma_total_update(first, j as int, d_seq@[j as int]);
        assert(d_seq@ == lowered(before, i as int, j as int));
    }
    let result = is_graphical(d_seq);
    d_seq[i] += 1;
    d_seq[j] += 1;
    assert(d_seq@ =~= before);
    result
}

/// The answer for a degree sequence that fails the test.
pub const NOT_GRAPHICAL: &'static str = "The degree sequence is not graphical.";

/// The answer when no edge at the vertex in turn keeps the rest graphical.
pub const NO_EDGE_FITS: &'static str = "No edge keeps the degree sequence graphical.";

/// The answer when more edges are asked for than a simple graph can have.
pub const TOO_MANY_EDGES: &'static str = "The number of edges is too large.";

/// The graph has one vertex for every degree, with that many neighbours.
pub open spec fn realizes(g: Graph, d: Seq<usize>) -> bool {
    &&& g.wf()
    &&& g@.len() == d.len()
    &&& forall|v: int| 0 <= v < d.len() ==> (#[trigger] g@[v]).len() == d[v]
}

/// Draws a number from `0..=max` with `fastrand::usize`. Which number comes
/// depends on the generator's state; it is never above `max`.
#[verifier::external_body]
fn random_at_most(max: usize) -> (r: usize)
    ensures
        r <= max,
{
    fastrand::usize(0..=max)
}

/// Shuffles the pairs with `fastrand::shuffle`, which exchanges values of
/// the slice. The order that comes out depends on the generator's state.
#[verifier::external_body]
fn shuffle_pairs(v: &mut Vec<(usize, usize)>)
    ensures
        final(v)@.to_multiset() == old(v)@.to_multiset(),
{
    fastrand::shuffle(v);
}

/// The vertices still in turn: each once, each with degree left, none
/// joined to another of them, and every vertex with degree left is one of
/// them or the vertex `busy`.
pub open spec fn in_turn(g: Graph, d: Seq<usize>, itp: Seq<usize>, busy: Option<usize>) -> bool {
    &&& itp.no_duplicates()
    &&& forall|k: int| 0 <= k < itp.len() ==> (#[trigger] itp[k]) < d.len() && d[itp[k] as int] > 0
    &&& forall|v: int| 0 <= v < d.len() && d[v] > 0 ==> #[trigger] itp.contains(v as usize) || busy == Some(v as usize)
    &&& forall|a: int, b: int|
        0 <= a < itp.len() && 0 <= b < itp.len() ==> !g@[#[trigger] itp[a] as int].contains(#[trigger] itp[b])
}

/// The candidates for an edge at the vertex `i`: each once, each still in
/// turn, none joined to `i` yet.
pub open spec fn candidates(g: Graph, itp: Seq<usize>, nhe: Seq<usize>, i: usize) -> bool {
    &&& nhe.no_duplicates()
    &&& forall|k: int| 0 <= k < nhe.len() ==> itp.contains(#[trigger] nhe[k]) && !g@[i as int].contains(nhe[k])
}

/// The graph and the degrees left add up to the degrees asked for.
pub open spec fn on_the_way(g: Graph, d: Seq<usize>, d_in: Seq<usize>) -> bool {
    &&& g.wf()
    &&& g@.len() == d_in.len()
    &&& d.len() == d_in.len()
    &&& total(d) <= total(d_in)
    &&& forall|v: int| 0 <= v < d_in.len() ==> (#[trigger] g@[v]).len() + d[v] == d_in[v]
}

/// Every vertex in turn is a candidate or joined to `i` already.
pub open spec fn all_offered(g: Graph, itp: Seq<usize>, nhe: Seq<usize>, i: usize) -> bool {
    forall|x: usize| #[trigger] itp.contains(x) ==> nhe.contains(x) || g@[i as int].contains(x)
}

/// The drawing of a graph with the degrees `d` cannot go on: the graph and
/// the degrees left add up to `d`, the degrees left are graphical, the
/// vertex `i` has degree left, and no edge from `i` to another vertex with
/// degree left that is not joined to `i` yet keeps them graphical.
pub open spec fn stuck(d: Seq<usize>, g: Graph, left: Seq<usize>, i: int) -> bool {
    &&& on_the_way(g, left, d)
    &&& erdos_gallai(left)
    &&& 0 <= i < d.len()
    &&& left[i] >= 1
    &&& forall|j: int|
        0 <= j < d.len() && j != i && left[j] >= 1 && !g@[i].contains(j as usize) ==> !erdos_gallai(
            #[trigger] lowered(left, i, j),
        )
}

/// The sequence of zeros is graphical: it is the degree sequence of the
/// graph without edges.
pub proof fn lemma_zeros_graphical(d: Seq<usize>)
    requires
        forall|v: int| 0 <= v < d.len() ==> (#[trigger] d[v]) == 0,
    ensures
        erdos_gallai(d),
        total(d) == 0,
{
    lemma_total_constant(d, 0);
    assert(descending(d));
    lemma_sorted_degrees(d, d);
    assert forall|k: int| 0 <= k < d.len() implies erdos_gallai_at(d, k) by {
        lemma_total_constant(d.take(k + 1), 0);
        assert(0 <= k * (k + 1)) by (nonlinear_arith)
            requires
                0 <= k,
        ;
    }
}

/// Draws, for choosing among `m` candidates without repetition, one number
/// for each step: the number for the step `k` is at most `m - 1 - k`.
pub fn draw_numbers(m: usize) -> (draws: Vec<usize>)
    ensures
        draws@.len() == m,
        forall|k: int| 0 <= k < m ==> (#[trigger] draws@[k]) <= m - 1 - k,
{
    let mut draws: Vec<usize> = Vec::with_capacity(m);
    let mut k: usize = 0;
    while k < m
        invariant
            k <= m,
            draws@.len() == k,
            forall|q: int| 0 <= q < k ==> (#[trigger] draws@[q]) <= m - 1 - q,
        decreases m - k,
    {
        draws.push(random_at_most(m - 1 - k));
        k += 1;
    }
    draws
}

/// The candidates after `k` steps: in each step the candidate at the drawn
/// place changes places with the last one not yet tried.
pub open spec fn arranged(candidates: Seq<usize>, draws: Seq<usize>, k: nat) -> Seq<usize>
    decreases k,
{
    if k == 0 {
        candidates
    } else {
        swapped(arranged(candidates, draws, (k - 1) as nat), draws[k - 1] as int, candidates.len() - k)
    }
}

/// The candidate that is tried in the step `k`.
pub open spec fn tried(candidates: Seq<usize>, draws: Seq<usize>, k: nat) -> usize {
    arranged(candidates, draws, k + 1)[candidates.len() - 1 - k]
}

/// The step `k` is the first whose candidate keeps the degrees graphical.
pub open spec fn first_fit(d: Seq<usize>, i: int, candidates: Seq<usize>, draws: Seq<usize>, k: nat) -> bool {
    &&& k < candidates.len()
    &&& erdos_gallai(lowered(d, i, tried(candidates, draws, k) as int))
    &&& forall|q: nat| q < k ==> !erdos_gallai(lowered(d, i, (#[trigger] tried(candidates, draws, q)) as int))
}

/// The candidates that are left when the one of the step `k` was taken: it
/// changes places with the last and leaves.
pub open spec fn left_over(candidates: Seq<usize>, draws: Seq<usize>, k: nat) -> Seq<usize> {
    swapped(arranged(candidates, draws, k + 1), candidates.len() - 1, candidates.len() - 1 - k).drop_last()
}

/// Chooses a partner for the vertex `i` among the candidates: in the step
/// `k` the candidate at the place `draws[k]` of those not yet tried is tried,
/// and the first that keeps the degrees left graphical is taken off the
/// candidates and returned. `None` exactly if no candidate keeps them
/// graphical; the candidates may then stand in another order. The degrees
/// are left as they were.
pub fn choose_partner(d: &mut Vec<usize>, i: usize, not_having_edge: &mut Vec<usize>, draws: &Vec<usize>) -> (r: Option<
    usize,
>)
    requires
        i < old(d)@.len(),
        old(d)@[i as int] >= 1,
        old(d)@.len() * old(d)@.len() <= usize::MAX,
        total(old(d)@) <= usize::MAX,
        old(not_having_edge)@.no_duplicates(),
        forall|k: int|
            0 <= k < old(not_having_edge)@.len() ==> (#[trigger] old(not_having_edge)@[k]) < old(d)@.len() && old(
                not_having_edge,
            )@[k] != i && old(d)@[old(not_having_edge)@[k] as int] >= 1,
        draws@.len() == old(not_having_edge)@.len(),
        forall|k: int| 0 <= k < draws@.len() ==> (#[trigger] draws@[k]) <= draws@.len() - 1 - k,
    ensures
        final(d)@ == old(d)@,
        final(not_having_edge)@.no_duplicates(),
        r is None <==> forall|k: int|
            0 <= k < old(not_having_edge)@.len() ==> !erdos_gallai(
                lowered(old(d)@, i as int, (#[trigger] old(not_having_edge)@[k]) as int),
            ),
        match r {
            Some(j) => {
                &&& old(not_having_edge)@.contains(j)
                &&& erdos_gallai(lowered(old(d)@, i as int, j as int))
                &&& forall|x: usize| #[trigger]
                    final(not_having_edge)@.contains(x) <==> old(not_having_edge)@.contains(x) && x != j
                &&& exists|k: nat| #[trigger]
                    first_fit(old(d)@, i as int, old(not_having_edge)@, draws@, k) && j == tried(
                        old(not_having_edge)@,
                        draws@,
                        k,
                    ) && final(not_having_edge)@ == left_over(old(not_having_edge)@, draws@, k)
            },
            None => forall|x: usize| #[trigger]
                final(not_having_edge)@.contains(x) <==> old(not_having_edge)@.contains(x),
        },
{
    let ghost offered = not_having_edge@;
    let ghost degrees = d@;
    let m = not_having_edge.len();
    let mut max_rand: usize = m;
    while max_rand > 0
        invariant
            max_rand <= m,
            m == offered.len(),
            offered == old(not_having_edge)@,
            degrees == old(d)@,
            draws@.len() == m,
            forall|k: int| 0 <= k < m ==> (#[trigger] draws@[k]) <= m - 1 - k,
            d@ == degrees,
            i < degrees.len(),
            degrees[i as int] >= 1,
            degrees.len() * degrees.len() <= usize::MAX,
            total(degrees) <= usize::MAX,
            not_having_edge@.len() == m,
            not_having_edge@.no_duplicates(),
            forall|x: usize| #[trigger] not_having_edge@.contains(x) <==> offered.contains(x),
            forall|k: int|
                0 <= k < offered.len() ==> (#[trigger] offered[k]) < degrees.len() && offered[k] != i
                    && degrees[offered[k] as int] >= 1,
            forall|p: int|
                max_rand <= p < m ==> !erdos_gallai(lowered(degrees, i as int, (#[trigger] not_having_edge@[p]) as int)),
            not_having_edge@ == arranged(offered, draws@, (m - max_rand) as nat),
            forall|q: nat|
                q < m - max_rand ==> !erdos_gallai(lowered(degrees, i as int, (#[trigger] tried(offered, draws@, q)) as int)),
        decreases max_rand,
    {
        let ghost step = (m - max_rand) as nat;
        max_rand -= 1;
        let r = draws[m - 1 - max_rand];
        let ghost before_swap = not_having_edge@;
        proof {
            lemma_swapped(before_swap, r as int, max_rand as int);
        }
        swap_places(not_having_edge, r, max_rand);
        let j = not_having_edge[max_rand];
        proof {
            assert(not_having_edge@ == arranged(offered, draws@, step + 1));
            assert(j == tried(offered, draws@, step));
            assert(not_having_edge@.contains(j));
            assert(offered.contains(j));
            let k = choose|k: int| 0 <= k < offered.len() && offered[k] == j;
            assert(offered[k] < degrees.len());
            assert forall|p: int| max_rand < p < m implies !erdos_gallai(
                lowered(degrees, i as int, (#[trigger] not_having_edge@[p]) as int),
            ) by {
                assert(not_having_edge@[p] == before_swap[p]);
            }
        }
        let fits = is_graphical_i_j(d.as_mut_slice(), i, j);
        assert(d@ =~= degrees);
        if fits {
            let ghost before_last = not_having_edge@;
            proof {
                lemma_swapped(before_last, m - 1, max_rand as int);
            }
            swap_places(not_having_edge, m - 1, max_rand);
            let ghost swapped_last = not_having_edge@;
            not_having_edge.pop();
            proof {
                assert(swapped_last[m - 1] == j);
                assert(not_having_edge@ == swapped_last.drop_last());
                assert forall|x: usize| #[trigger] not_having_edge@.contains(x) <==> offered.contains(x) && x != j by {
                    if not_having_edge@.contains(x) {
                        let k = choose|k: int| 0 <= k < not_having_edge@.len() && not_having_edge@[k] == x;
                        assert(swapped_last[k] == x);
                        assert(swapped_last.contains(x));
                    }
                    if offered.contains(x) && x != j {
                        assert(swapped_last.contains(x));
                        let k = choose|k: int| 0 <= k < swapped_last.len() && swapped_last[k] == x;
                        assert(not_having_edge@[k] == x);
                    }
                }
                let k = choose|k: int| 0 <= k < offered.len() && offered[k] == j;
                assert(erdos_gallai(lowered(degrees, i as int, offered[k] as int)));
                assert(d@ =~= degrees);
                assert(first_fit(degrees, i as int, offered, draws@, step));
                assert(not_having_edge@ == left_over(offered, draws@, step));
            }
            return Some(j);
        }
        proof {
            assert forall|q: nat| q < m - max_rand implies !erdos_gallai(
                lowered(degrees, i as int, (#[trigger] tried(offered, draws@, q)) as int),
            ) by {
                if q == step {
                    assert(not_having_edge@[max_rand as int] == j);
                }
            }
        }
    }
    proof {
        assert forall|k: int| 0 <= k < offered.len() implies !erdos_gallai(
            lowered(degrees, i as int, (#[trigger] offered[k]) as int),
        ) by {
            assert(not_having_edge@.contains(offered[k]));
            let p = choose|p: int| 0 <= p < not_having_edge@.len() && not_having_edge@[p] == offered[k];
        }
    }
    None
}

/// Where no candidate keeps the degrees graphical, the drawing is stuck.
pub proof fn lemma_stuck(d_in: Seq<usize>, g: Graph, d: Seq<usize>, itp: Seq<usize>, offered: Seq<usize>, i: usize)
    requires
        on_the_way(g, d, d_in),
        erdos_gallai(d),
        i < d.len(),
        d[i as int] >= 1,
        in_turn(g, d, itp, Some(i)),
        all_offered(g, itp, offered, i),
        forall|k: int| 0 <= k < offered.len() ==> !erdos_gallai(lowered(d, i as int, (#[trigger] offered[k]) as int)),
    ensures
        stuck(d_in, g, d, i as int),
{
    assert forall|j: int| 0 <= j < d_in.len() && j != i && d[j] >= 1 && !g@[i as int].contains(j as usize) implies !erdos_gallai(
        #[trigger] lowered(d, i as int, j),
    ) by {
        assert(itp.contains(j as usize));
        assert(offered.contains(j as usize));
        let k = choose|k: int| 0 <= k < offered.len() && offered[k] == j as usize;
        assert(!erdos_gallai(lowered(d, i as int, offered[k] as int)));
    }
}

/// Draws a simple graph with the given degrees, edge by edge: the vertex in
/// turn is joined to random vertices that keep the rest graphical. Fails
/// with `NOT_GRAPHICAL` exactly for the sequences that fail the test of
/// Erdős and Gallai, and with `NO_EDGE_FITS` only where the drawing is
/// stuck: the degrees left are graphical, and no edge at the vertex in turn
/// keeps them so.
pub fn bliztstein_generation(d_in: &[usize]) -> (r: Result<Graph, &'static str>)
    requires
        d_in@.len() > 0,
        d_in@.len() * d_in@.len() <= usize::MAX,
        total(d_in@) <= usize::MAX,
    ensures
        !erdos_gallai(d_in@) ==> r == Err::<Graph, &'static str>(NOT_GRAPHICAL),
        erdos_gallai(d_in@) ==> match r {
            Ok(g) => realizes(g, d_in@),
            Err(reason) => reason == NO_EDGE_FITS && exists|g: Graph, left: Seq<usize>, i: int| #[trigger]
                stuck(d_in@, g, left, i),
        },
        (forall|v: int| 0 <= v < d_in@.len() ==> (#[trigger] d_in@[v]) == 0) ==> r is Ok,
{
    proof {
        if forall|v: int| 0 <= v < d_in@.len() ==> (#[trigger] d_in@[v]) == 0 {
            lemma_zeros_graphical(d_in@);
        }
    }
    if !is_graphical(d_in) {
        return Err(NOT_GRAPHICAL);
    }
    let n = d_in.len();
    let mut graph = Graph::empty(n);
    let mut d: Vec<usize> = Vec::with_capacity(n);
    let mut indices_to_process: Vec<usize> = Vec::new();
    let mut v: usize = 0;
    while v < n
        invariant
            v <= n,
            n == d_in@.len(),
            d@ == d_in@.take(v as int),
            indices_to_process@.no_duplicates(),
            forall|k: int|
                0 <= k < indices_to_process@.len() ==> (#[trigger] indices_to_process@[k]) < v
                    && d_in@[indices_to_process@[k] as int] > 0,
            forall|x: int| 0 <= x < v && d_in@[x] > 0 ==> #[trigger] indices_to_process@.contains(x as usize),
        decreases n - v,
    {
        let dv = d_in[v];
        d.push(dv);
        if dv > 0 {
            proof {
                let before = indices_to_process@;
                if before.contains(v) {
                    let k = choose|k: int| 0 <= k < before.len() && before[k] == v;
                    assert(before[k] < v);
                }
                crate::graphs::lemma_push_no_duplicates(before, v);
                crate::graphs::lemma_push_contains(before, v);
            }
            indices_to_process.push(v);
        }
        proof {
            assert(d_in@.take(v + 1) =~= d_in@.take(v as int).push(dv));
        }
        v += 1;
    }
    proof {
        assert(d_in@.take(n as int) =~= d_in@);
        assert forall|u: int| 0 <= u < n implies (#[trigger] graph@[u]).len() + d@[u] == d_in@[u] by {
            assert(graph@[u] == Set::<usize>::empty());
        }
    }
    let ghost unsorted = indices_to_process@;
    sort_descending_by(&mut indices_to_process, &d);
    proof {
        lemma_rearranged(unsorted, indices_to_process@);
        assert(in_turn(graph, d@, indices_to_process@, None)) by {
            assert forall|k: int| 0 <= k < indices_to_process@.len() implies (#[trigger] indices_to_process@[k])
                < d@.len() && d@[indices_to_process@[k] as int] > 0 by {
                assert(indices_to_process@.contains(indices_to_process@[k]));
                let k2 = choose|k2: int| 0 <= k2 < unsorted.len() && unsorted[k2] == indices_to_process@[k];
                assert(unsorted[k2] < n);
            }
            assert forall|a: int, b: int|
                0 <= a < indices_to_process@.len() && 0 <= b < indices_to_process@.len() implies !graph@[
            #[trigger] indices_to_process@[a] as int].contains(#[trigger] indices_to_process@[b]) by {
                assert(graph@[indices_to_process@[a] as int] == Set::<usize>::empty());
            }
        }
    }
    loop
        invariant
            n == d_in@.len(),
            n * n <= usize::MAX,
            total(d_in@) <= usize::MAX,
            erdos_gallai(d_in@),
            erdos_gallai(d@),
            on_the_way(graph, d@, d_in@),
            in_turn(graph, d@, indices_to_process@, None),
        ensures
            indices_to_process@.len() == 0,
        decreases indices_to_process@.len(),
    {
        let ghost turn_before = indices_to_process@;
        let i = match indices_to_process.pop() {
            Some(i) => i,
            None => {
                break ;
            },
        };
        proof {
            assert(i == turn_before[turn_before.len() - 1]);
            assert(indices_to_process@ == turn_before.drop_last());
            assert(!indices_to_process@.contains(i)) by {
                if indices_to_process@.contains(i) {
                    let k = choose|k: int| 0 <= k < indices_to_process@.len() && indices_to_process@[k] == i;
                    assert(turn_before[k] == i);
                }
            }
            assert(in_turn(graph, d@, indices_to_process@, Some(i))) by {
                assert forall|k: int| 0 <= k < indices_to_process@.len() implies (#[trigger] indices_to_process@[k])
                    < d@.len() && d@[indices_to_process@[k] as int] > 0 by {
                    assert(turn_before[k] == indices_to_process@[k]);
                }
                assert forall|v: int| 0 <= v < d@.len() && d@[v] > 0 implies #[trigger] indices_to_process@.contains(
                    v as usize,
                ) || Some(i) == Some(v as usize) by {
                    assert(turn_before.contains(v as usize));
                    let k = choose|k: int| 0 <= k < turn_before.len() && turn_before[k] == v as usize;
                    if k < turn_before.len() - 1 {
                        assert(indices_to_process@[k] == v as usize);
                    }
                }
                assert forall|a: int, b: int|
                    0 <= a < indices_to_process@.len() && 0 <= b < indices_to_process@.len() implies !graph@[
                #[trigger] indices_to_process@[a] as int].contains(#[trigger] indices_to_process@[b]) by {
                    assert(turn_before[a] == indices_to_process@[a]);
                    assert(turn_before[b] == indices_to_process@[b]);
                }
            }
        }
        let mut not_having_edge = indices_to_process.clone();
        proof {
            assert(not_having_edge@ == indices_to_process@);
            assert(all_offered(graph, indices_to_process@, not_having_edge@, i));
            assert(candidates(graph, indices_to_process@, not_having_edge@, i)) by {
                assert forall|k: int| 0 <= k < not_having_edge@.len() implies indices_to_process@.contains(
                    #[trigger] not_having_edge@[k],
                ) && !graph@[i as int].contains(not_having_edge@[k]) by {
                    assert(indices_to_process@[k] == not_having_edge@[k]);
                    let a = turn_before.len() - 1;
                    assert(turn_before[k] == not_having_edge@[k]);
                    assert(!graph@[turn_before[a] as int].contains(turn_before[k]));
                }
            }
        }
        while d[i] > 0
            invariant
                i < n,
                n == d_in@.len(),
                n * n <= usize::MAX,
                total(d_in@) <= usize::MAX,
                erdos_gallai(d_in@),
                erdos_gallai(d@),
                all_offered(graph, indices_to_process@, not_having_edge@, i),
                on_the_way(graph, d@, d_in@),
                in_turn(graph, d@, indices_to_process@, Some(i)),
                !indices_to_process@.contains(i),
                candidates(graph, indices_to_process@, not_having_edge@, i),
                indices_to_process@.len() < turn_before.len(),
            decreases d@[i as int],
        {
            let ghost offered = not_having_edge@;
            proof {
                assert forall|k: int| 0 <= k < offered.len() implies (#[trigger] offered[k]) < n && offered[k] != i
                    && d@[offered[k] as int] >= 1 by {
                    assert(indices_to_process@.contains(offered[k]));
                    let k2 = choose|k2: int|
                        0 <= k2 < indices_to_process@.len() && indices_to_process@[k2] == offered[k];
                    assert(d@[indices_to_process@[k2] as int] > 0);
                }
            }
            let draws = draw_numbers(not_having_edge.len());
            let j_opt = choose_partner(&mut d, i, &mut not_having_edge, &draws);
            proof {
                assert(candidates(graph, indices_to_process@, not_having_edge@, i)) by {
                    assert forall|k: int| 0 <= k < not_having_edge@.len() implies indices_to_process@.contains(
                        #[trigger] not_having_edge@[k],
                    ) && !graph@[i as int].contains(not_having_edge@[k]) by {
                        assert(not_having_edge@.contains(not_having_edge@[k]));
                        assert(offered.contains(not_having_edge@[k]));
                        let k2 = choose|k2: int| 0 <= k2 < offered.len() && offered[k2] == not_having_edge@[k];
                        assert(indices_to_process@.contains(offered[k2]));
                    }
                }
                if let Some(j) = j_opt {
                    let k2 = choose|k2: int| 0 <= k2 < offered.len() && offered[k2] == j;
                    assert(indices_to_process@.contains(offered[k2]));
                }
            }
            let j = match j_opt {
                Some(j) => j,
                None => {
                    assert(d_in@[i as int] >= d@[i as int]) by {
                        assert(graph@[i as int].len() + d@[i as int] == d_in@[i as int]);
                    }
                    proof {
                        lemma_stuck(d_in@, graph, d@, indices_to_process@, offered, i);
                    }
                    return Err(NO_EDGE_FITS);
                },
            };
            let ghost graph_before = graph;
            let ghost d_before = d@;
            let ghost turn = indices_to_process@;
            proof {
                let k = choose|k: int| 0 <= k < turn.len() && turn[k] == j;
                assert(turn[k] < n && d@[turn[k] as int] > 0);
                lemma_edge_change(graph@, i, j);
            }
            graph.add_edge(i, j);
            d[i] -= 1;
            d[j] -= 1;
            proof {
                assert(d@ =~= lowered(d_before, i as int, j as int));
                let first = d_before.update(i as int, (d_before[i as int] - 1) as usize);
                lemma_total_update(d_before, i as int, first[i as int]);
                lemma_total_update(first, j as int, d@[j as int]);
                assert(graph@ == with_edge(graph_before@, i, j));
                assert(graph@[i as int] == graph_before@[i as int].insert(j));
                assert(graph@[j as int] == graph_before@[j as int].insert(i));
                assert forall|v: int| 0 <= v < n implies (#[trigger] graph@[v]).len() + d@[v] == d_in@[v] by {
                    assert(graph_before@[v].len() + d_before[v] == d_in@[v]);
                    if v != i && v != j {
                        assert(graph@[v] == graph_before@[v]);
                    }
                }
            }

            // find `j` among the vertices in turn
            let mut itp_index: usize = 0;
            while indices_to_process[itp_index] != j
                invariant
                    itp_index < indices_to_process@.len(),
                    indices_to_process@ == turn,
                    exists|k: int| itp_index <= k < turn.len() && turn[k] == j,
                decreases indices_to_process@.len() - itp_index,
            {
                proof {
                    let k = choose|k: int| itp_index <= k < turn.len() && turn[k] == j;
                    assert(k > itp_index);
                    assert(turn.len() == indices_to_process.len());
                }
                itp_index += 1;
            }
            if d[j] == 0 {
                indices_to_process.remove(itp_index);
                proof {
                    assert(indices_to_process@ == turn.remove(itp_index as int));
                    let now = indices_to_process@;
                    assert forall|k: int| 0 <= k < now.len() implies #[trigger] now[k] == turn[if k < itp_index {
                        k
                    } else {
                        k + 1
                    }] by {}
                    assert forall|x: usize| #[trigger] now.contains(x) <==> turn.contains(x) && x != j by {
                        if now.contains(x) {
                            let k = choose|k: int| 0 <= k < now.len() && now[k] == x;
                            let k2 = if k < itp_index {
                                k
                            } else {
                                k + 1
                            };
                            assert(turn[k2] == x);
                        }
                        if turn.contains(x) && x != j {
                            let k = choose|k: int| 0 <= k < turn.len() && turn[k] == x;
                            if k < itp_index {
                                assert(now[k] == x);
                            } else {
                                assert(now[k - 1] == x);
                            }
                        }
                    }
                    assert(now.no_duplicates()) by {
                        assert forall|a: int, b: int| 0 <= a < now.len() && 0 <= b < now.len() && a != b implies now[a]
                            != now[b] by {
                            let a2 = if a < itp_index {
                                a
                            } else {
                                a + 1
                            };
                            let b2 = if b < itp_index {
                                b
                            } else {
                                b + 1
                            };
                            assert(now[a] == turn[a2]);
                            assert(now[b] == turn[b2]);
                        }
                    }
                }
            } else {
                select_nth_descending_by(&mut indices_to_process, itp_index, &d);
                proof {
                    lemma_rearranged(turn, indices_to_process@);
                }
            }
            proof {
                let now = indices_to_process@;
                assert forall|x: usize| #[trigger] now.contains(x) implies turn.contains(x) by {}
                assert(in_turn(graph, d@, now, Some(i))) by {
                    assert forall|k: int| 0 <= k < now.len() implies (#[trigger] now[k]) < d@.len() && d@[now[k] as int]
                        > 0 by {
                        assert(now.contains(now[k]));
                        let k2 = choose|k2: int| 0 <= k2 < turn.len() && turn[k2] == now[k];
                        assert(turn[k2] < d_before.len() && d_before[turn[k2] as int] > 0);
                    }
                    assert forall|v: int| 0 <= v < d@.len() && d@[v] > 0 implies #[trigger] now.contains(v as usize)
                        || Some(i) == Some(v as usize) by {
                        if v != i {
                            assert(d_before[v] > 0);
                            assert(turn.contains(v as usize));
                        }
                    }
                    assert forall|a: int, b: int| 0 <= a < now.len() && 0 <= b < now.len() implies !graph@[
                    #[trigger] now[a] as int].contains(#[trigger] now[b]) by {
                        assert(now.contains(now[a]));
                        assert(now.contains(now[b]));
                        let a2 = choose|a2: int| 0 <= a2 < turn.len() && turn[a2] == now[a];
                        let b2 = choose|b2: int| 0 <= b2 < turn.len() && turn[b2] == now[b];
                        assert(!graph_before@[turn[a2] as int].contains(turn[b2]));
                    }
                }
                assert(candidates(graph, now, not_having_edge@, i)) by {
                    assert forall|k: int| 0 <= k < not_having_edge@.len() implies now.contains(
                        #[trigger] not_having_edge@[k],
                    ) && !graph@[i as int].contains(not_having_edge@[k]) by {
                        assert(not_having_edge@.contains(not_having_edge@[k]));
                        assert(turn.contains(not_having_edge@[k]));
                    }
                }
                assert(all_offered(graph, now, not_having_edge@, i)) by {
                    assert forall|x: usize| #[trigger] now.contains(x) implies not_having_edge@.contains(x) || graph@[i as int].contains(
                        x,
                    ) by {
                        assert(turn.contains(x));
                        assert(offered.contains(x) || graph_before@[i as int].contains(x));
                    }
                }
            }
        }
    }
    proof {
        assert forall|v: int| 0 <= v < n implies (#[trigger] graph@[v]).len() == d_in@[v] by {
            if d@[v] > 0 {
                assert(indices_to_process@.contains(v as usize));
            }
        }
    }
    Ok(graph)
}

/// The sum of `n` equal degrees.
pub proof fn lemma_total_constant(s: Seq<usize>, d: usize)
    requires
        forall|i: int| 0 <= i < s.len() ==> (#[trigger] s[i]) == d,
    ensures
        total(s) == s.len() * d,
    decreases s.len(),
{
    if s.len() > 0 {
        lemma_total_constant(s.drop_last(), d);
        assert(s.len() * d == (s.len() - 1) * d + d) by (nonlinear_arith);
    }
}

/// Draws a simple graph on `num_of_vertices` vertices with `num_of_edges`
/// edges: the first so many of all pairs of vertices, shuffled. Fails if a
/// simple graph on so many vertices has fewer pairs.
pub fn general_random_graph(num_of_vertices: usize, num_of_edges: usize) -> (r: Result<Graph, &'static str>)
    requires
        num_of_vertices * num_of_vertices <= usize::MAX,
    ensures
        match r {
            Ok(g) => 2 * num_of_edges <= num_of_vertices * num_of_vertices - num_of_vertices && g.wf() && g@.len()
                == num_of_vertices && g.spec_num_of_edges() == num_of_edges,
            Err(reason) => 2 * num_of_edges > num_of_vertices * num_of_vertices - num_of_vertices && reason
                == TOO_MANY_EDGES,
        },
{
    let n = num_of_vertices;
    proof {
        assert(n <= n * n) by (nonlinear_arith);
        if n > 0 {
            crate::graphs::lemma_consecutive_product_even((n - 1) as nat);
            assert((n - 1) * n == n * n - n) by (nonlinear_arith);
        }
    }
    if num_of_edges > (n * n - n) / 2 {
        return Err(TOO_MANY_EDGES);
    }
    let mut graph = Graph::empty(n);
    let mut edges: Vec<(usize, usize)> = Vec::new();
    let mut from: usize = 0;
    while from < n
        invariant
            from <= n,
            n * n <= usize::MAX,
            edges@.no_duplicates(),
            forall|k: int| 0 <= k < edges@.len() ==> (#[trigger] edges@[k]).0 < from && edges@[k].0 < edges@[k].1 < n,
            2 * edges@.len() == from * (2 * n - from - 1),
        decreases n - from,
    {
        let mut to: usize = from + 1;
        while to < n
            invariant
                from < to <= n,
                edges@.no_duplicates(),
                forall|k: int|
                    0 <= k < edges@.len() ==> (#[trigger] edges@[k]).0 <= from && edges@[k].0 < edges@[k].1 < n && (
                    edges@[k].0 == from ==> edges@[k].1 < to),
                2 * edges@.len() == from * (2 * n - from - 1) + 2 * (to - from - 1),
            decreases n - to,
        {
            proof {
                if edges@.contains((from, to)) {
                    let k = choose|k: int| 0 <= k < edges@.len() && edges@[k] == (from, to);
                    assert(edges@[k].1 < to);
                }
                crate::graphs::lemma_push_no_duplicates(edges@, (from, to));
            }
            edges.push((from, to));
            to += 1;
        }
        proof {
            assert((from + 1) * (2 * n - (from + 1) - 1) == from * (2 * n - from - 1) + 2 * (n - from - 1))
                by (nonlinear_arith);
        }
        from += 1;
    }
    proof {
        assert(n * (2 * n - n - 1) == n * n - n) by (nonlinear_arith);
    }
    let ghost listed = edges@;
    shuffle_pairs(&mut edges);
    proof {
        lemma_rearranged(listed, edges@);
        assert forall|k: int| 0 <= k < edges@.len() implies (#[trigger] edges@[k]).0 < edges@[k].1 < n by {
            assert(edges@.contains(edges@[k]));
            let k2 = choose|k2: int| 0 <= k2 < listed.len() && listed[k2] == edges@[k];
            assert(listed[k2].0 < listed[k2].1 < n);
        }
    }
    let mut i: usize = 0;
    while i < num_of_edges
        invariant
            i <= num_of_edges <= edges@.len(),
            graph.wf(),
            graph@.len() == n,
            graph.spec_num_of_edges() == i,
            edges@.no_duplicates(),
            forall|k: int| 0 <= k < edges@.len() ==> (#[trigger] edges@[k]).0 < edges@[k].1 < n,
            forall|a: int, b: usize|
                0 <= a < n && #[trigger] graph@[a].contains(b) ==> exists|k: int|
                    0 <= k < i && (#[trigger] edges@[k] == (a as usize, b) || edges@[k] == (b, a as usize)),
        decreases num_of_edges - i,
    {
        let (from, to) = edges[i];
        let ghost before = graph@;
        proof {
            assert(edges@[i as int].0 < edges@[i as int].1 < n);
            if before[from as int].contains(to) {
                let k = choose|k: int|
                    0 <= k < i && (#[trigger] edges@[k] == (from, to) || edges@[k] == (to, from));
                assert(edges@[k].0 < edges@[k].1);
            }
            lemma_edge_change(before, from, to);
        }
        let added = graph.add_edge(from, to);
        proof {
            assert(added);
            assert forall|a: int, b: usize| 0 <= a < n && #[trigger] graph@[a].contains(b) implies exists|k: int|
                0 <= k < i + 1 && (#[trigger] edges@[k] == (a as usize, b) || edges@[k] == (b, a as usize)) by {
                if before[a].contains(b) {
                    let k = choose|k: int|
                        0 <= k < i && (#[trigger] edges@[k] == (a as usize, b) || edges@[k] == (b, a as usize));
                    assert(0 <= k < i + 1 && (edges@[k] == (a as usize, b) || edges@[k] == (b, a as usize)));
                } else {
                    assert(edges@[i as int] == (a as usize, b) || edges@[i as int] == (b, a as usize));
                }
            }
        }
        i += 1;
    }
    Ok(graph)
}

/// The inequality of Erdős and Gallai for `k` of `n` equal degrees `d < n`.
pub proof fn lemma_regular_inequality(n: int, d: int, k: int)
    requires
        1 <= k <= n,
        0 <= d < n,
    ensures
        d <= k ==> k * d <= (k - 1) * k + (n - k) * d,
        d >= k ==> k * d <= (k - 1) * k + (n - k) * k,
{
    if d <= k {
        if 2 * k - n <= 0 {
            assert(d * (2 * k - n) <= 0) by (nonlinear_arith)
                requires
                    d >= 0,
                    2 * k - n <= 0,
            ;
            assert((k - 1) * k >= 0) by (nonlinear_arith)
                requires
                    k >= 1,
            ;
        } else if k == n {
            assert(d * k <= (k - 1) * k) by (nonlinear_arith)
                requires
                    d <= k - 1,
                    k >= 1,
            ;
        } else {
            assert(d * (2 * k - n) <= k * (k - 1)) by (nonlinear_arith)
                requires
                    0 <= d <= k,
                    0 < 2 * k - n <= k - 1,
            ;
        }
        assert(k * d - (n - k) * d == d * (2 * k - n)) by (nonlinear_arith);
    }
    if d >= k {
        assert((k - 1) * k + (n - k) * k == k * (n - 1)) by (nonlinear_arith);
        assert(k * d <= k * (n - 1)) by (nonlinear_arith)
            requires
                k >= 1,
                d <= n - 1,
        ;
    }
}

/// The degree `d` at each of `n` vertices.
pub open spec fn regular_degrees(n: nat, d: usize) -> Seq<usize> {
    Seq::new(n, |i: int| d)
}

/// There is a simple graph on `n >= 1` vertices with `d` neighbours at
/// every vertex, by the test of Erdős and Gallai, exactly if `n * d` is
/// even and `d < n`.
pub proof fn lemma_regular_graphical(n: nat, d: usize)
    requires
        n >= 1,
    ensures
        erdos_gallai(regular_degrees(n, d)) <==> (n * d) % 2 == 0 && d < n,
{
    let s = regular_degrees(n, d);
    assert(descending(s));
    lemma_sorted_degrees(s, s);
    lemma_total_constant(s, d);
    if d < n {
        assert forall|k: int| 0 <= k < n implies erdos_gallai_at(s, k) by {
            lemma_regular_inequality(n as int, d as int, k + 1);
            lemma_total_constant(s.take(k + 1), d);
            assert(s.take(k + 1).len() == k + 1 && s.skip(k + 1).len() == n - k - 1);
            if d <= k + 1 {
                lemma_capped_small(s.skip(k + 1), (k + 1) as nat);
                lemma_total_constant(s.skip(k + 1), d);
            } else {
                lemma_capped_large(s.skip(k + 1), (k + 1) as nat);
            }
        }
    } else {
        let k = n - 1;
        assert(!erdos_gallai_at(s, k)) by {
            lemma_total_constant(s.take(k + 1), d);
            assert(s.skip(k + 1) =~= Seq::<usize>::empty());
            assert(capped_total(s.skip(k + 1), (k + 1) as nat) == 0);
            assert(s.take(k + 1).len() * d > k * (k + 1)) by (nonlinear_arith)
                requires
                    s.take(k + 1).len() == k + 1,
                    d >= k + 1,
                    k >= 0,
            ;
        }
    }
}

/// Draws a simple graph on `n` vertices in which every vertex has `d`
/// neighbours. Fails with `NOT_GRAPHICAL` exactly unless `n * d` is even
/// and `d < n`, and with `NO_EDGE_FITS` only where the drawing is stuck.
pub fn random_regular_graph(n: usize, d: usize) -> (r: Result<Graph, &'static str>)
    requires
        n > 0,
        n * n <= usize::MAX,
        n * d <= usize::MAX,
    ensures
        !erdos_gallai(regular_degrees(n as nat, d)) ==> r == Err::<Graph, &'static str>(NOT_GRAPHICAL),
        erdos_gallai(regular_degrees(n as nat, d)) ==> match r {
            Ok(g) => realizes(g, regular_degrees(n as nat, d)),
            Err(reason) => reason == NO_EDGE_FITS && exists|g: Graph, left: Seq<usize>, i: int| #[trigger]
                stuck(regular_degrees(n as nat, d), g, left, i),
        },
        erdos_gallai(regular_degrees(n as nat, d)) <==> (n * d) % 2 == 0 && d < n,
        d == 0 ==> r is Ok,
{
    let d_seq = vec![d; n];
    proof {
        assert(d_seq@ =~= regular_degrees(n as nat, d));
        lemma_total_constant(d_seq@, d);
        lemma_regular_graphical(n as nat, d);
    }
    bliztstein_generation(d_seq.as_slice())
}

/// Whether the test of Erdős and Gallai can be asked of the sequence on
/// this machine: it is not empty, and the square of its length and the sum
/// of its values are machine numbers.
pub fn sequence_fits(d_seq: &[usize]) -> (r: bool)
    ensures
        r <==> d_seq@.len() > 0 && d_seq@.len() * d_seq@.len() <= usize::MAX && total(d_seq@) <= usize::MAX,
{
    let n = d_seq.len();
    let mut sum: usize = 0;
    let mut i: usize = 0;
    assert(d_seq@.take(0) =~= Seq::<usize>::empty());
    while i < n
        invariant
            i <= n,
            n == d_seq@.len(),
            sum == total(d_seq@.take(i as int)),
        decreases n - i,
    {
        proof {
            lemma_total_take(d_seq@, i as int);
            lemma_total_split(d_seq@, i + 1);
        }
        match sum.checked_add(d_seq[i]) {
            Some(more) => {
                sum = more;
            },
            None => {
                return false;
            },
        }
        i += 1;
    }
    assert(d_seq@.take(n as int) =~= d_seq@);
    n > 0 && n.checked_mul(n).is_some()
}

/// Puts the drawn value `v` at the place `place` of the sequence. Returns
/// the parity of all values drawn so far, where `parity` was that of the
/// values drawn before, and the place that is drawn next: the places are
/// gone through in a circle.
pub fn redraw_place(d_seq: &mut Vec<usize>, parity: usize, place: usize, v: usize) -> (next: (usize, usize))
    requires
        place < old(d_seq)@.len(),
        parity <= 1,
    ensures
        final(d_seq)@ == old(d_seq)@.update(place as int, v),
        next.0 == (parity + v) % 2,
        next.1 == (place + 1) % (old(d_seq)@.len() as int),
{
    let n = d_seq.len();
    d_seq[place] = v;
    let odd = v % 2;
    let parity_now: usize = if odd == parity {
        0
    } else {
        1
    };
    (parity_now, (place + 1) % n)
}

/// Whether the drawing of a degree sequence is done: an even number of odd
/// values was drawn, and the sequence is graphical.
pub fn drawing_done(d_seq: &[usize], parity: usize) -> (done: bool)
    requires
        d_seq@.len() > 0,
        d_seq@.len() * d_seq@.len() <= usize::MAX,
        total(d_seq@) <= usize::MAX,
    ensures
        done <==> parity == 0 && erdos_gallai(d_seq@),
{
    parity == 0 && is_graphical(d_seq)
}

} // verus!
