//! Linear programs over variables that are 0 or 1, as plain data: what the
//! exact algorithms hand to a solver.

use vstd::prelude::*;

verus! {

/// How the left side of a constraint relates to its bound.
#[derive(Clone, Copy, Debug, PartialEq, Eq, Structural)]
pub enum Relation {
    AtMost,
    Equal,
    AtLeast,
}

/// A linear constraint: the sum of the terms, each a coefficient times a
/// variable, stands in the relation to the bound.
#[derive(Debug)]
pub struct Constraint {
    pub terms: Vec<(i64, usize)>,
    pub relation: Relation,
    pub bound: i64,
}

/// A program that maximises the number of objective variables that are 1,
/// among the assignments of 0 and 1 that meet every constraint.
#[derive(Debug)]
pub struct BinaryProgram {
    pub num_vars: usize,
    pub objective: Vec<usize>,
    pub constraints: Vec<Constraint>,
}

/// The value of a variable under an assignment: 1 if it is set, else 0.
pub open spec fn on(a: Seq<bool>, var: int) -> int {
    if 0 <= var < a.len() && a[var] {
        1
    } else {
        0
    }
}

/// The value of a term under an assignment.
pub open spec fn term_value(term: (i64, usize), a: Seq<bool>) -> int {
    if on(a, term.1 as int) == 1 {
        term.0 as int
    } else {
        0
    }
}

/// The value of a sum of terms under an assignment.
pub open spec fn value(terms: Seq<(i64, usize)>, a: Seq<bool>) -> int
    decreases terms.len(),
{
    if terms.len() == 0 {
        0
    } else {
        value(terms.drop_last(), a) + term_value(terms.last(), a)
    }
}

/// The number of the variables `0..m` that are set.
pub open spec fn chosen(a: Seq<bool>, m: int) -> int
    decreases m,
{
    if m <= 0 {
        0
    } else {
        chosen(a, m - 1) + on(a, m - 1)
    }
}

/// The left side stands in the relation to the right side.
pub open spec fn related(left: int, relation: Relation, right: int) -> bool {
    match relation {
        Relation::AtMost => left <= right,
        Relation::Equal => left == right,
        Relation::AtLeast => left >= right,
    }
}

impl Constraint {
    /// The assignment meets the constraint.
    pub open spec fn holds(&self, a: Seq<bool>) -> bool {
        related(value(self.terms@, a), self.relation, self.bound as int)
    }

    /// Every variable of the constraint is one of the first `n`.
    pub open spec fn in_range(&self, n: nat) -> bool {
        forall|k: int| 0 <= k < self.terms@.len() ==> (#[trigger] self.terms@[k]).1 < n
    }
}

/// The assignment meets every constraint.
pub open spec fn all_hold(constraints: Seq<Constraint>, a: Seq<bool>) -> bool {
    forall|k: int| 0 <= k < constraints.len() ==> (#[trigger] constraints[k]).holds(a)
}

/// Every constraint speaks of the first `n` variables only.
pub open spec fn all_in_range(constraints: Seq<Constraint>, n: nat) -> bool {
    forall|k: int| 0 <= k < constraints.len() ==> (#[trigger] constraints[k]).in_range(n)
}

impl BinaryProgram {
    /// Constraints and objective speak of variables of the program only.
    pub open spec fn wf(&self) -> bool {
        &&& all_in_range(self.constraints@, self.num_vars as nat)
        &&& forall|k: int| 0 <= k < self.objective@.len() ==> (#[trigger] self.objective@[k]) < self.num_vars
    }

    /// The assignment gives every variable a value and meets every
    /// constraint.
    pub open spec fn feasible(&self, a: Seq<bool>) -> bool {
        a.len() == self.num_vars && all_hold(self.constraints@, a)
    }
}

/// One term more adds its value.
pub proof fn lemma_value_push(terms: Seq<(i64, usize)>, term: (i64, usize), a: Seq<bool>)
    ensures
        value(terms.push(term), a) == value(terms, a) + term_value(term, a),
{
    assert(terms.push(term).drop_last() =~= terms);
}

/// One constraint more holds with the others exactly if it holds itself.
pub proof fn lemma_all_hold_push(constraints: Seq<Constraint>, constraint: Constraint, a: Seq<bool>)
    ensures
        all_hold(constraints.push(constraint), a) <==> all_hold(constraints, a) && constraint.holds(a),
{
    let more = constraints.push(constraint);
    if all_hold(more, a) {
        assert forall|k: int| 0 <= k < constraints.len() implies (#[trigger] constraints[k]).holds(a) by {
            assert(more[k] == constraints[k]);
        }
        assert(more[constraints.len() as int] == constraint);
    }
    if all_hold(constraints, a) && constraint.holds(a) {
        assert forall|k: int| 0 <= k < more.len() implies (#[trigger] more[k]).holds(a) by {
            if k < constraints.len() {
                assert(more[k] == constraints[k]);
            }
        }
    }
}

/// One constraint in range more keeps all in range.
pub proof fn lemma_all_in_range_push(constraints: Seq<Constraint>, constraint: Constraint, n: nat)
    requires
        all_in_range(constraints, n),
        constraint.in_range(n),
    ensures
        all_in_range(constraints.push(constraint), n),
{
    let more = constraints.push(constraint);
    assert forall|k: int| 0 <= k < more.len() implies (#[trigger] more[k]).in_range(n) by {
        if k < constraints.len() {
            assert(more[k] == constraints[k]);
        }
    }
}

/// The constraint on two terms.
pub fn constraint2(first: (i64, usize), second: (i64, usize), relation: Relation, bound: i64) -> (c: Constraint)
    ensures
        c.relation == relation,
        c.bound == bound,
        c.terms@ == seq![first, second],
        forall|a: Seq<bool>| #[trigger]
            c.holds(a) <==> related(term_value(first, a) + term_value(second, a), relation, bound as int),
        forall|n: nat| first.1 < n && second.1 < n ==> #[trigger] c.in_range(n),
{
    let c = Constraint { terms: vec![first, second], relation, bound };
    proof {
        let none = Seq::<(i64, usize)>::empty();
        assert(c.terms@ =~= none.push(first).push(second));
        assert forall|a: Seq<bool>| #[trigger]
            c.holds(a) <==> related(term_value(first, a) + term_value(second, a), relation, bound as int) by {
            lemma_value_push(none, first, a);
            lemma_value_push(none.push(first), second, a);
        }
    }
    c
}

/// The constraint on three terms.
pub fn constraint3(
    first: (i64, usize),
    second: (i64, usize),
    third: (i64, usize),
    relation: Relation,
    bound: i64,
) -> (c: Constraint)
    ensures
        c.relation == relation,
        c.bound == bound,
        c.terms@ == seq![first, second, third],
        forall|a: Seq<bool>| #[trigger]
            c.holds(a) <==> related(
                term_value(first, a) + term_value(second, a) + term_value(third, a),
                relation,
                bound as int,
            ),
        forall|n: nat| first.1 < n && second.1 < n && third.1 < n ==> #[trigger] c.in_range(n),
{
    let c = Constraint { terms: vec![first, second, third], relation, bound };
    proof {
        let none = Seq::<(i64, usize)>::empty();
        assert(c.terms@ =~= none.push(first).push(second).push(third));
        assert forall|a: Seq<bool>| #[trigger]
            c.holds(a) <==> related(
                term_value(first, a) + term_value(second, a) + term_value(third, a),
                relation,
                bound as int,
            ) by {
            lemma_value_push(none, first, a);
            lemma_value_push(none.push(first), second, a);
            lemma_value_push(none.push(first).push(second), third, a);
        }
    }
    c
}

/// The constraint on four terms.
pub fn constraint4(
    first: (i64, usize),
    second: (i64, usize),
    third: (i64, usize),
    fourth: (i64, usize),
    relation: Relation,
    bound: i64,
) -> (c: Constraint)
    ensures
        c.relation == relation,
        c.bound == bound,
        c.terms@ == seq![first, second, third, fourth],
        forall|a: Seq<bool>| #[trigger]
            c.holds(a) <==> related(
                term_value(first, a) + term_value(second, a) + term_value(third, a) + term_value(fourth, a),
                relation,
                bound as int,
            ),
        forall|n: nat| first.1 < n && second.1 < n && third.1 < n && fourth.1 < n ==> #[trigger] c.in_range(n),
{
    let c = Constraint { terms: vec![first, second, third, fourth], relation, bound };
    proof {
        let none = Seq::<(i64, usize)>::empty();
        assert(c.terms@ =~= none.push(first).push(second).push(third).push(fourth));
        assert forall|a: Seq<bool>| #[trigger]
            c.holds(a) <==> related(
                term_value(first, a) + term_value(second, a) + term_value(third, a) + term_value(fourth, a),
                relation,
                bound as int,
            ) by {
            lemma_value_push(none, first, a);
            lemma_value_push(none.push(first), second, a);
            lemma_value_push(none.push(first).push(second), third, a);
            lemma_value_push(none.push(first).push(second).push(third), fourth, a);
        }
    }
    c
}

/// The terms `x_0 + ... + x_{m - 1}`: their value is the number of these
/// variables that are set.
pub fn first_variables(m: usize) -> (terms: Vec<(i64, usize)>)
    ensures
        terms@.len() == m,
        forall|k: int| 0 <= k < m ==> #[trigger] terms@[k] == (1i64, k as usize),
        forall|a: Seq<bool>| #[trigger] value(terms@, a) == chosen(a, m as int),
{
    let mut terms: Vec<(i64, usize)> = Vec::with_capacity(m);
    let mut k: usize = 0;
    while k < m
        invariant
            k <= m,
            terms@.len() == k,
            forall|i: int| 0 <= i < k ==> #[trigger] terms@[i] == (1i64, i as usize),
            forall|a: Seq<bool>| #[trigger] value(terms@, a) == chosen(a, k as int),
        decreases m - k,
    {
        proof {
            assert forall|a: Seq<bool>| #[trigger]
                value(terms@.push((1i64, k)), a) == chosen(a, k + 1) by {
                lemma_value_push(terms@, (1i64, k), a);
            }
        }
        terms.push((1, k));
        k += 1;
    }
    terms
}

/// The graph on `n` vertices with those of the listed edges that are
/// chosen: what a solution of one of the programs selects.
pub fn selected_subgraph(n: usize, edges: &Vec<(usize, usize)>, chosen: &Vec<bool>) -> (g: crate::graphs::Graph)
    requires
        n * n <= usize::MAX,
        chosen@.len() >= edges@.len(),
    ensures
        g.wf(),
        g@.len() == n,
        forall|u: int, v: usize|
            0 <= u < n ==> (#[trigger] g@[u].contains(v) <==> v < n && u != v && exists|k: int|
                0 <= k < edges@.len() && chosen@[k] && (#[trigger] edges@[k] == (u as usize, v) || edges@[k] == (
                    v,
                    u as usize,
                ))),
{
    let mut mps = crate::graphs::Graph::empty(n);
    let mut k: usize = 0;
    proof {
        assert forall|u: int, v: usize| 0 <= u < n implies !(#[trigger] mps@[u].contains(v)) by {
            assert(mps@[u] == Set::<usize>::empty());
        }
    }
    while k < edges.len()
        invariant
            k <= edges@.len(),
            chosen@.len() >= edges@.len(),
            mps.wf(),
            mps@.len() == n,
            forall|u: int, v: usize|
                0 <= u < n ==> (#[trigger] mps@[u].contains(v) <==> v < n && u != v && exists|i: int|
                    0 <= i < k && chosen@[i] && (#[trigger] edges@[i] == (u as usize, v) || edges@[i] == (
                        v,
                        u as usize,
                    ))),
        decreases edges@.len() - k,
    {
        let ghost before = mps@;
        if chosen[k] {
            let (from, to) = edges[k];
            proof {
                if from < n && to < n && from != to {
                    crate::graphs::lemma_edge_change(before, from, to);
                }
            }
            mps.add_edge(from, to);
        }
        proof {
            assert forall|u: int, v: usize| 0 <= u < n implies (#[trigger] mps@[u].contains(v) <==> v < n && u != v
                && exists|i: int|
                0 <= i < k + 1 && chosen@[i] && (#[trigger] edges@[i] == (u as usize, v) || edges@[i] == (
                    v,
                    u as usize,
                ))) by {
                let this_way = chosen@[k as int] && (edges@[k as int] == (u as usize, v) || edges@[k as int] == (
                    v,
                    u as usize,
                ));
                if mps@[u].contains(v) {
                    if before[u].contains(v) {
                        let i = choose|i: int|
                            0 <= i < k && chosen@[i] && (#[trigger] edges@[i] == (u as usize, v) || edges@[i] == (
                                v,
                                u as usize,
                            ));
                        assert(0 <= i < k + 1 && chosen@[i] && (edges@[i] == (u as usize, v) || edges@[i] == (
                            v,
                            u as usize,
                        )));
                    } else {
                        assert(this_way);
                    }
                }
                if v < n && u != v && exists|i: int|
                    0 <= i < k + 1 && chosen@[i] && (#[trigger] edges@[i] == (u as usize, v) || edges@[i] == (
                        v,
                        u as usize,
                    )) {
                    let i = choose|i: int|
                        0 <= i < k + 1 && chosen@[i] && (#[trigger] edges@[i] == (u as usize, v) || edges@[i] == (
                            v,
                            u as usize,
                        ));
                    if i < k {
                        assert(before[u].contains(v));
                    }
                }
            }
        }
        k += 1;
    }
    mps
}

/// The number of the variables `lo..lo + count` that are set.
pub open spec fn chosen_from(a: Seq<bool>, lo: int, count: int) -> int
    decreases count,
{
    if count <= 0 {
        0
    } else {
        chosen_from(a, lo, count - 1) + on(a, lo + count - 1)
    }
}

/// The terms `x_lo + ... + x_{lo + count - 1}`: their value is the number of
/// these variables that are set.
pub fn variables_from(lo: usize, count: usize) -> (terms: Vec<(i64, usize)>)
    requires
        lo + count <= usize::MAX,
    ensures
        terms@.len() == count,
        forall|k: int| 0 <= k < count ==> #[trigger] terms@[k] == (1i64, (lo + k) as usize),
        forall|a: Seq<bool>| #[trigger] value(terms@, a) == chosen_from(a, lo as int, count as int),
{
    let mut terms: Vec<(i64, usize)> = Vec::with_capacity(count);
    let mut k: usize = 0;
    while k < count
        invariant
            k <= count,
            lo + count <= usize::MAX,
            terms@.len() == k,
            forall|i: int| 0 <= i < k ==> #[trigger] terms@[i] == (1i64, (lo + i) as usize),
            forall|a: Seq<bool>| #[trigger] value(terms@, a) == chosen_from(a, lo as int, k as int),
        decreases count - k,
    {
        proof {
            assert forall|a: Seq<bool>| #[trigger]
                value(terms@.push((1i64, (lo + k) as usize)), a) == chosen_from(a, lo as int, k + 1) by {
                lemma_value_push(terms@, (1i64, (lo + k) as usize), a);
            }
        }
        terms.push((1, lo + k));
        k += 1;
    }
    terms
}

/// Counting from 0 is counting the first variables.
pub proof fn lemma_chosen_from_zero(a: Seq<bool>, count: int)
    ensures
        chosen_from(a, 0, count) == chosen(a, count),
    decreases count,
{
    if count > 0 {
        lemma_chosen_from_zero(a, count - 1);
    }
}

/// The value of two sums of terms, one after the other.
pub proof fn lemma_value_concat(first: Seq<(i64, usize)>, second: Seq<(i64, usize)>, a: Seq<bool>)
    ensures
        value(first + second, a) == value(first, a) + value(second, a),
    decreases second.len(),
{
    if second.len() == 0 {
        assert(first + second =~= first);
    } else {
        lemma_value_concat(first, second.drop_last(), a);
        assert((first + second).drop_last() =~= first + second.drop_last());
    }
}

/// The terms `x_lo + ... + x_{lo + count - 1}`, or their negatives.
pub fn run_terms(lo: usize, count: usize, negative: bool) -> (terms: Vec<(i64, usize)>)
    requires
        lo + count <= usize::MAX,
    ensures
        terms@.len() == count,
        forall|k: int| 0 <= k < count ==> (#[trigger] terms@[k]).1 == lo + k,
        forall|a: Seq<bool>| #[trigger]
            value(terms@, a) == (if negative {
                -chosen_from(a, lo as int, count as int)
            } else {
                chosen_from(a, lo as int, count as int)
            }),
{
    let coefficient: i64 = if negative {
        -1
    } else {
        1
    };
    let mut terms: Vec<(i64, usize)> = Vec::with_capacity(count);
    let mut k: usize = 0;
    while k < count
        invariant
            k <= count,
            lo + count <= usize::MAX,
            coefficient == (if negative {
                -1i64
            } else {
                1i64
            }),
            terms@.len() == k,
            forall|i: int| 0 <= i < k ==> (#[trigger] terms@[i]).1 == lo + i,
            forall|a: Seq<bool>| #[trigger]
                value(terms@, a) == (if negative {
                    -chosen_from(a, lo as int, k as int)
                } else {
                    chosen_from(a, lo as int, k as int)
                }),
        decreases count - k,
    {
        proof {
            let term = (coefficient, (lo + k) as usize);
            assert forall|a: Seq<bool>| #[trigger]
                value(terms@.push(term), a) == (if negative {
                    -chosen_from(a, lo as int, k + 1)
                } else {
                    chosen_from(a, lo as int, k + 1)
                }) by {
                lemma_value_push(terms@, term, a);
            }
        }
        terms.push((coefficient, lo + k));
        k += 1;
    }
    terms
}

} // verus!
