//! Four match-and-merge heuristics for large planar subgraphs. Each applies
//! its rules as long as one matches and finishes with single edges, so that
//! the result spans every connected component of the input.

use crate::connectivity::{connected, lemma_connected_arc};
use crate::graphs::Graph;
use crate::match_merge::{all_different, covers, lemma_rule_keeps_cover, MatchMerge};
use crate::mps_alg::spanning_subgraph;
use vstd::prelude::*;

verus! {

/// How often each rule was applied: the fan on five vertices, the diamond,
/// the triangle, the vertex beside an edge of the subgraph, the single edge.
pub struct Applied {
    pub fans: nat,
    pub diamonds: nat,
    pub triangles: nat,
    pub besides: nat,
    pub edges: nat,
}

/// The number of edges that the applications added.
pub open spec fn edges_added(a: Applied) -> nat {
    7 * a.fans + 5 * a.diamonds + 3 * a.triangles + 2 * a.besides + a.edges
}

/// The number of components that the applications merged away.
pub open spec fn components_merged(a: Applied) -> nat {
    4 * a.fans + 3 * a.diamonds + 2 * a.triangles + a.besides + a.edges
}

/// The ends of every edge of the subgraph lie in one component; the subgraph
/// has the edges that the applied rules added; and the components left are
/// those of the `n` vertices that no application merged away.
#[verifier::opaque]
pub open spec fn counted(mm: MatchMerge, n: nat, a: Applied) -> bool {
    &&& mm.settled()
    &&& mm.mps().spec_num_of_edges() == edges_added(a)
    &&& mm.components_left() + components_merged(a) == n
}

/// An application that adds `edges` edges and merges `lost` components away
/// carries the count on.
pub proof fn lemma_counted(before: MatchMerge, after: MatchMerge, n: nat, a: Applied, b: Applied, edges: nat, lost: nat)
    requires
        counted(before, n, a),
        before.settled() ==> after.settled() && after.mps().spec_num_of_edges() == before.mps().spec_num_of_edges()
            + edges && after.components_left() + lost == before.components_left(),
        edges_added(b) == edges_added(a) + edges,
        components_merged(b) == components_merged(a) + lost,
    ensures
        counted(after, n, b),
{
    reveal(counted);
}

/// A run begins with no rule applied.
pub proof fn lemma_begun(mm: MatchMerge, n: nat)
    requires
        mm.settled(),
        mm.mps().spec_num_of_edges() == 0,
        mm.components_left() == n,
    ensures
        counted(mm, n, Applied { fans: 0, diamonds: 0, triangles: 0, besides: 0, edges: 0 }),
{
    reveal(counted);
}

/// No rule matches.
pub open spec fn no_rule_matches(mm: MatchMerge) -> bool {
    &&& forall|x: usize, y: usize| !mm.k2_match(x, y)
    &&& forall|x: usize, y: usize, z: usize| !mm.k3_match(x, y, z)
    &&& forall|x: usize, y: usize, z: usize| !mm.poranen_match(x, y, z)
    &&& forall|x: usize, y: usize, z: usize, w: usize| !mm.d4_match(x, y, z, w)
    &&& forall|x: usize, y: usize, z: usize, w: usize, t: usize| !mm.my_match(x, y, z, w, t)
}

/// The rules whose matches end the phases of a run.
pub enum Rule {
    Fan,
    Diamond,
    Triangle,
    Beside,
}

/// No rule of the kind matches.
pub open spec fn none_matches(mm: MatchMerge, rule: Rule) -> bool {
    match rule {
        Rule::Fan => forall|x: usize, y: usize, z: usize, w: usize, t: usize| !mm.my_match(x, y, z, w, t),
        Rule::Diamond => forall|x: usize, y: usize, z: usize, w: usize| !mm.d4_match(x, y, z, w),
        Rule::Triangle => forall|x: usize, y: usize, z: usize| !mm.k3_match(x, y, z),
        Rule::Beside => forall|x: usize, y: usize, z: usize| !mm.poranen_match(x, y, z),
    }
}

/// The run on `graph` has come to the state `mm` by the applications `a`.
pub open spec fn reached(mm: MatchMerge, graph: Graph, a: Applied) -> bool {
    &&& mm.wf()
    &&& mm.linked()
    &&& covers(mm, graph)
    &&& counted(mm, graph@.len(), a)
}

/// A phase of the run on `graph` ended in the state `mm`, after the
/// applications `a`: no rule of the kind matched any more.
#[verifier::opaque]
pub open spec fn phase_ended(mm: MatchMerge, graph: Graph, a: Applied, rule: Rule) -> bool {
    reached(mm, graph, a) && none_matches(mm, rule)
}

/// A state in which no rule of the kind matches ends a phase.
pub proof fn lemma_phase_ended(mm: MatchMerge, graph: Graph, a: Applied, rule: Rule)
    requires
        reached(mm, graph, a),
        none_matches(mm, rule),
    ensures
        phase_ended(mm, graph, a, rule),
{
    reveal(phase_ended);
}

/// The run on `graph` ended in the state `mm` with the subgraph `mps`, after
/// the applications `a`, and no rule matches any more.
pub open spec fn built(mm: MatchMerge, graph: Graph, mps: Graph, a: Applied) -> bool {
    &&& reached(mm, graph, a)
    &&& mm.mps() == mps
    &&& no_rule_matches(mm)
}

/// A run of triangles, then single edges: the triangles ended in the state
/// `first`, when none matched, and the run in the state `last`.
pub open spec fn calinescu_run(graph: Graph, mps: Graph, first: MatchMerge, last: MatchMerge, a: Applied) -> bool {
    &&& a.fans == 0 && a.diamonds == 0 && a.besides == 0
    &&& phase_ended(first, graph, Applied { edges: 0, ..a }, Rule::Triangle)
    &&& built(last, graph, mps, a)
}

/// The result of the heuristic of triangles and edges.
pub open spec fn calinescu_result(graph: Graph, mps: Graph) -> bool {
    &&& spanning_subgraph(mps, graph)
    &&& exists|first: MatchMerge, last: MatchMerge, a: Applied| #[trigger] calinescu_run(graph, mps, first, last, a)
}

/// A run of diamonds, then triangles, then single edges: the diamonds ended
/// in the state `first` and the triangles in the state `second`, each when
/// none matched, and the run in the state `last`.
pub open spec fn schmid_run(
    graph: Graph,
    mps: Graph,
    first: MatchMerge,
    second: MatchMerge,
    last: MatchMerge,
    a: Applied,
) -> bool {
    &&& a.fans == 0 && a.besides == 0
    &&& phase_ended(first, graph, Applied { triangles: 0, edges: 0, ..a }, Rule::Diamond)
    &&& phase_ended(second, graph, Applied { edges: 0, ..a }, Rule::Triangle)
    &&& built(last, graph, mps, a)
}

/// The result of the heuristic of diamonds, triangles and edges.
pub open spec fn schmid_result(graph: Graph, mps: Graph) -> bool {
    &&& spanning_subgraph(mps, graph)
    &&& exists|first: MatchMerge, second: MatchMerge, last: MatchMerge, a: Applied| #[trigger]
        schmid_run(graph, mps, first, second, last, a)
}

/// A run of fans, then diamonds, then triangles, then single edges: the
/// fans ended in the state `first`, the diamonds in the state `second` and
/// the triangles in the state `third`, each when none matched, and the run
/// in the state `last`.
pub open spec fn my_run(
    graph: Graph,
    mps: Graph,
    first: MatchMerge,
    second: MatchMerge,
    third: MatchMerge,
    last: MatchMerge,
    a: Applied,
) -> bool {
    &&& a.besides == 0
    &&& phase_ended(first, graph, Applied { diamonds: 0, triangles: 0, edges: 0, ..a }, Rule::Fan)
    &&& phase_ended(second, graph, Applied { triangles: 0, edges: 0, ..a }, Rule::Diamond)
    &&& phase_ended(third, graph, Applied { edges: 0, ..a }, Rule::Triangle)
    &&& built(last, graph, mps, a)
}

/// The result of the heuristic of fans, diamonds, triangles and edges.
pub open spec fn my_result(graph: Graph, mps: Graph) -> bool {
    &&& spanning_subgraph(mps, graph)
    &&& exists|first: MatchMerge, second: MatchMerge, third: MatchMerge, last: MatchMerge, a: Applied| #[trigger]
        my_run(graph, mps, first, second, third, last, a)
}

/// The states in which a run took its triangles: in the state of the turn
/// `i`, `i` triangles and some of the vertices beside edges had been
/// applied, and no vertex beside an edge matched.
#[verifier::opaque]
pub open spec fn turns_taken(graph: Graph, turns: Seq<(MatchMerge, Applied)>, a: Applied) -> bool {
    &&& turns.len() == a.triangles
    &&& forall|i: int|
        0 <= i < turns.len() ==> {
            &&& (#[trigger] turns[i]).1.fans == 0 && turns[i].1.diamonds == 0 && turns[i].1.edges == 0
            &&& turns[i].1.triangles == i
            &&& turns[i].1.besides <= a.besides
            &&& phase_ended(turns[i].0, graph, turns[i].1, Rule::Beside)
        }
}

/// Before the first triangle no turn was taken.
pub proof fn lemma_turns_begin(graph: Graph, a: Applied)
    requires
        a.triangles == 0,
    ensures
        turns_taken(graph, Seq::empty(), a),
{
    reveal(turns_taken);
}

/// Applications other than triangles leave the turns as they are.
pub proof fn lemma_turns_stay(graph: Graph, turns: Seq<(MatchMerge, Applied)>, a: Applied, b: Applied)
    requires
        turns_taken(graph, turns, a),
        b.triangles == a.triangles,
        b.besides >= a.besides,
    ensures
        turns_taken(graph, turns, b),
{
    reveal(turns_taken);
}

/// A triangle that is taken where no vertex beside an edge matches is one
/// turn more.
pub proof fn lemma_turns_triangle(
    graph: Graph,
    turns: Seq<(MatchMerge, Applied)>,
    mm: MatchMerge,
    a: Applied,
    b: Applied,
)
    requires
        turns_taken(graph, turns, a),
        reached(mm, graph, a),
        none_matches(mm, Rule::Beside),
        a.fans == 0 && a.diamonds == 0 && a.edges == 0,
        b.triangles == a.triangles + 1,
        b.besides == a.besides,
    ensures
        turns_taken(graph, turns.push((mm, a)), b),
{
    reveal(turns_taken);
    lemma_phase_ended(mm, graph, a, Rule::Beside);
    let more = turns.push((mm, a));
    assert forall|i: int| 0 <= i < more.len() implies {
        &&& (#[trigger] more[i]).1.fans == 0 && more[i].1.diamonds == 0 && more[i].1.edges == 0
        &&& more[i].1.triangles == i
        &&& more[i].1.besides <= b.besides
        &&& phase_ended(more[i].0, graph, more[i].1, Rule::Beside)
    } by {
        if i < turns.len() {
            assert(more[i] == turns[i]);
        }
    }
}

/// A vertex is taken beside an edge of the subgraph only after a triangle
/// or another such vertex.
pub proof fn lemma_beside_an_edge(mm: MatchMerge, n: nat, a: Applied, x: usize, y: usize, z: usize)
    requires
        mm.wf(),
        counted(mm, n, a),
        mm.poranen_match(x, y, z),
        a.fans == 0 && a.diamonds == 0 && a.edges == 0,
    ensures
        a.triangles > 0 || a.besides > 0,
{
    reveal(counted);
    let sub = mm.mps()@;
    crate::graphs::lemma_arc_count_at_least(sub, y as int);
    assert(sub[y as int].contains(z));
    assert(sub[y as int].finite());
    vstd::set_lib::lemma_set_empty_equivalency_len(sub[y as int]);
}

/// A run of vertices beside edges and triangles in turns, then single
/// edges: the triangles were taken in the states `turns`, when no vertex
/// beside an edge matched, and no such vertex before the first triangle;
/// the turns ended in the state `first`, when neither matched, and the run
/// in the state `last`.
pub open spec fn poranen_run(
    graph: Graph,
    mps: Graph,
    turns: Seq<(MatchMerge, Applied)>,
    first: MatchMerge,
    last: MatchMerge,
    a: Applied,
) -> bool {
    &&& a.fans == 0 && a.diamonds == 0
    &&& a.besides > 0 ==> a.triangles > 0
    &&& turns_taken(graph, turns, a)
    &&& phase_ended(first, graph, Applied { edges: 0, ..a }, Rule::Beside)
    &&& phase_ended(first, graph, Applied { edges: 0, ..a }, Rule::Triangle)
    &&& built(last, graph, mps, a)
}

/// The result of the heuristic of vertices beside edges, triangles and
/// edges.
pub open spec fn poranen_result(graph: Graph, mps: Graph) -> bool {
    &&& spanning_subgraph(mps, graph)
    &&& exists|turns: Seq<(MatchMerge, Applied)>, first: MatchMerge, last: MatchMerge, a: Applied| #[trigger]
        poranen_run(graph, mps, turns, first, last, a)
}

/// Every rule needs an edge that is still to be considered and joins two
/// components: where no single edge matches, no rule does.
pub proof fn lemma_no_rule(mm: MatchMerge)
    requires
        forall|x: usize, y: usize| !mm.k2_match(x, y),
    ensures
        no_rule_matches(mm),
{
    let comp = mm.component();
    assert forall|x: usize, y: usize, z: usize| !mm.k3_match(x, y, z) by {
        if mm.k3_match(x, y, z) {
            lemma_first_two(comp, seq![x, y, z], x, y);
            assert(mm.k2_match(x, y));
        }
    }
    assert forall|x: usize, y: usize, z: usize| !mm.poranen_match(x, y, z) by {
        if mm.poranen_match(x, y, z) {
            assert(mm.k2_match(x, y));
        }
    }
    assert forall|x: usize, y: usize, z: usize, w: usize| !mm.d4_match(x, y, z, w) by {
        if mm.d4_match(x, y, z, w) {
            lemma_first_two(comp, seq![x, y, z, w], x, y);
            assert(mm.k2_match(x, y));
        }
    }
    assert forall|x: usize, y: usize, z: usize, w: usize, t: usize| !mm.my_match(x, y, z, w, t) by {
        if mm.my_match(x, y, z, w, t) {
            lemma_first_two(comp, seq![x, y, z, w, t], x, y);
            assert(mm.k2_match(x, y));
        }
    }
}

/// The first two of a list of vertices in different components are such a
/// list.
pub proof fn lemma_first_two(component: Seq<usize>, vertices: Seq<usize>, x: usize, y: usize)
    requires
        all_different(component, vertices),
        vertices.len() >= 2,
        vertices[0] == x,
        vertices[1] == y,
    ensures
        all_different(component, seq![x, y]),
{
    let s = seq![x, y];
    assert(s[0] == x && s[1] == y);
    assert(component[vertices[0] as int] != component[vertices[1] as int]);
}

/// Once no single edge joins two components, the subgraph built so far
/// connects the endpoints of every edge of `graph`.
pub proof fn lemma_finished(mm: MatchMerge, graph: Graph)
    requires
        graph.wf(),
        mm.wf(),
        mm.linked(),
        covers(mm, graph),
        forall|x: usize, y: usize| !mm.k2_match(x, y),
    ensures
        spanning_subgraph(mm.mps(), graph),
{
    assert forall|u: usize, v: usize| graph.spec_has_edge(u, v) implies connected(mm.mps()@, u, v) by {
        assert(graph@[u as int].contains(v));
        if mm.mps()@[u as int].contains(v) {
            lemma_connected_arc(mm.mps()@, u, v);
        } else {
            assert(mm.full()@[u as int].contains(v));
            assert(!mm.k2_match(u, v));
            let pair = seq![u, v];
            assert(!all_different(mm.component(), pair));
            let (i, j) = choose|i: int, j: int|
                0 <= i < j < pair.len() && mm.component()[pair[i] as int] == mm.component()[pair[j] as int];
            assert(i == 0 && j == 1);
            assert(pair[0] == u && pair[1] == v);
            assert(mm.component()[u as int] == mm.component()[v as int]);
        }
    }
}

/// Triangles first, then single edges.
pub fn calinescu_basic_mps(g: &Graph) -> (mps: Graph)
    requires
        g.wf(),
    ensures
        calinescu_result(*g, mps),
{
    let mut mm = MatchMerge::new(g);
    let ghost mut applied = Applied { fans: 0, diamonds: 0, triangles: 0, besides: 0, edges: 0 };
    proof {
        lemma_begun(mm, g@.len());
    }
    loop
        invariant
            g.wf(),
            mm.wf(),
            mm.linked(),
            covers(mm, *g),
            counted(mm, g@.len(), applied),
            applied.fans == 0,
            applied.diamonds == 0,
            applied.besides == 0,
            applied.edges == 0,
        ensures
            none_matches(mm, Rule::Triangle),
        decreases mm.full().spec_num_of_edges(),
    {
        match mm.find_k3_rule() {
            Some((u, v, w)) => {
                let ghost before = mm;
                mm.apply_k3_rule(u, v, w);
                proof {
                    let edges = seq![(u, v), (v, w), (w, u)];
                    assert(edges[0] == (u, v) && edges[1] == (v, w) && edges[2] == (w, u));
                    lemma_rule_keeps_cover(*g, before, mm, edges, seq![u, v, w]);
                    let next = Applied { triangles: applied.triangles + 1, ..applied };
                    lemma_counted(before, mm, g@.len(), applied, next, 3, 2);
                    applied = next;
                }
            },
            None => {
                break ;
            },
        }
    }
    proof {
        lemma_phase_ended(mm, *g, applied, Rule::Triangle);
    }
    let ghost first = mm;
    loop
        invariant
            g.wf(),
            mm.wf(),
            mm.linked(),
            covers(mm, *g),
            counted(mm, g@.len(), applied),
            applied.fans == 0,
            applied.diamonds == 0,
            applied.besides == 0,
            phase_ended(first, *g, Applied { edges: 0, ..applied }, Rule::Triangle),
        ensures
            forall|x: usize, y: usize| !mm.k2_match(x, y),
        decreases mm.full().spec_num_of_edges(),
    {
        match mm.find_k2_rule() {
            Some((u, v)) => {
                let ghost before = mm;
                mm.apply_k2_rule(u, v);
                proof {
                    let edges = seq![(u, v)];
                    assert(edges[0] == (u, v));
                    lemma_rule_keeps_cover(*g, before, mm, edges, seq![u, v]);
                    let next = Applied { edges: applied.edges + 1, ..applied };
                    lemma_counted(before, mm, g@.len(), applied, next, 1, 1);
                    applied = next;
                }
            },
            None => {
                break ;
            },
        }
    }
    proof {
        lemma_finished(mm, *g);
        lemma_no_rule(mm);
        assert(built(mm, *g, mm.mps(), applied));
        assert(calinescu_run(*g, mm.mps(), first, mm, applied));
    }
    mm.into_mps()
}

/// Diamonds first, then triangles, then single edges.
pub fn schmid_d4_mps(g: &Graph) -> (mps: Graph)
    requires
        g.wf(),
    ensures
        schmid_result(*g, mps),
{
    let mut mm = MatchMerge::new(g);
    let ghost mut applied = Applied { fans: 0, diamonds: 0, triangles: 0, besides: 0, edges: 0 };
    proof {
        lemma_begun(mm, g@.len());
    }
    loop
        invariant
            g.wf(),
            mm.wf(),
            mm.linked(),
            covers(mm, *g),
            counted(mm, g@.len(), applied),
            applied.fans == 0,
            applied.besides == 0,
            applied.triangles == 0,
            applied.edges == 0,
        ensures
            none_matches(mm, Rule::Diamond),
        decreases mm.full().spec_num_of_edges(),
    {
        match mm.find_d4_rule() {
            Some((x, y, z, w)) => {
                let ghost before = mm;
                mm.apply_d4_rule(x, y, z, w);
                proof {
                    let edges = seq![(x, y), (x, z), (x, w), (y, z), (w, z)];
                    assert(edges[0] == (x, y) && edges[1] == (x, z) && edges[2] == (x, w) && edges[3] == (y, z) && edges[4] == (w, z));
                    lemma_rule_keeps_cover(*g, before, mm, edges, seq![x, y, z, w]);
                    let next = Applied { diamonds: applied.diamonds + 1, ..applied };
                    lemma_counted(before, mm, g@.len(), applied, next, 5, 3);
                    applied = next;
                }
            },
            None => {
                break ;
            },
        }
    }
    proof {
        lemma_phase_ended(mm, *g, applied, Rule::Diamond);
    }
    let ghost first = mm;
    loop
        invariant
            g.wf(),
            mm.wf(),
            mm.linked(),
            covers(mm, *g),
            counted(mm, g@.len(), applied),
            applied.fans == 0,
            applied.besides == 0,
            applied.edges == 0,
            phase_ended(first, *g, Applied { triangles: 0, edges: 0, ..applied }, Rule::Diamond),
        ensures
            none_matches(mm, Rule::Triangle),
        decreases mm.full().spec_num_of_edges(),
    {
        match mm.find_k3_rule() {
            Some((u, v, w)) => {
                let ghost before = mm;
                mm.apply_k3_rule(u, v, w);
                proof {
                    let edges = seq![(u, v), (v, w), (w, u)];
                    assert(edges[0] == (u, v) && edges[1] == (v, w) && edges[2] == (w, u));
                    lemma_rule_keeps_cover(*g, before, mm, edges, seq![u, v, w]);
                    let next = Applied { triangles: applied.triangles + 1, ..applied };
                    lemma_counted(before, mm, g@.len(), applied, next, 3, 2);
                    applied = next;
                }
            },
            None => {
                break ;
            },
        }
    }
    proof {
        lemma_phase_ended(mm, *g, applied, Rule::Triangle);
    }
    let ghost second = mm;
    loop
        invariant
            g.wf(),
            mm.wf(),
            mm.linked(),
            covers(mm, *g),
            counted(mm, g@.len(), applied),
            applied.fans == 0,
            applied.besides == 0,
            phase_ended(first, *g, Applied { triangles: 0, edges: 0, ..applied }, Rule::Diamond),
            phase_ended(second, *g, Applied { edges: 0, ..applied }, Rule::Triangle),
        ensures
            forall|x: usize, y: usize| !mm.k2_match(x, y),
        decreases mm.full().spec_num_of_edges(),
    {
        match mm.find_k2_rule() {
            Some((u, v)) => {
                let ghost before = mm;
                mm.apply_k2_rule(u, v);
                proof {
                    let edges = seq![(u, v)];
                    assert(edges[0] == (u, v));
                    lemma_rule_keeps_cover(*g, before, mm, edges, seq![u, v]);
                    let next = Applied { edges: applied.edges + 1, ..applied };
                    lemma_counted(before, mm, g@.len(), applied, next, 1, 1);
                    applied = next;
                }
            },
            None => {
                break ;
            },
        }
    }
    proof {
        lemma_finished(mm, *g);
        lemma_no_rule(mm);
        assert(built(mm, *g, mm.mps(), applied));
        assert(schmid_run(*g, mm.mps(), first, second, mm, applied));
    }
    mm.into_mps()
}

/// Fans on five vertices first, then diamonds, triangles and single edges.
pub fn my_mps(g: &Graph) -> (mps: Graph)
    requires
        g.wf(),
    ensures
        my_result(*g, mps),
{
    let mut mm = MatchMerge::new(g);
    let ghost mut applied = Applied { fans: 0, diamonds: 0, triangles: 0, besides: 0, edges: 0 };
    proof {
        lemma_begun(mm, g@.len());
    }
    loop
        invariant
            g.wf(),
            mm.wf(),
            mm.linked(),
            covers(mm, *g),
            counted(mm, g@.len(), applied),
            applied.besides == 0,
            applied.diamonds == 0,
            applied.triangles == 0,
            applied.edges == 0,
        ensures
            none_matches(mm, Rule::Fan),
        decreases mm.full().spec_num_of_edges(),
    {
        match mm.find_my_rule() {
            Some((x, y, z, w, t)) => {
                let ghost before = mm;
                mm.apply_my_rule(x, y, z, w, t);
                proof {
                    let edges = seq![(x, y), (x, z), (x, w), (x, t), (y, z), (z, w), (w, t)];
                    assert(edges[0] == (x, y) && edges[1] == (x, z) && edges[2] == (x, w) && edges[3] == (x, t) && edges[4] == (y, z) && edges[5] == (z, w) && edges[6] == (w, t));
                    lemma_rule_keeps_cover(*g, before, mm, edges, seq![x, y, z, w, t]);
                    let next = Applied { fans: applied.fans + 1, ..applied };
                    lemma_counted(before, mm, g@.len(), applied, next, 7, 4);
                    applied = next;
                }
            },
            None => {
                break ;
            },
        }
    }
    proof {
        lemma_phase_ended(mm, *g, applied, Rule::Fan);
    }
    let ghost first = mm;
    loop
        invariant
            g.wf(),
            mm.wf(),
            mm.linked(),
            covers(mm, *g),
            counted(mm, g@.len(), applied),
            applied.besides == 0,
            applied.triangles == 0,
            applied.edges == 0,
            phase_ended(first, *g, Applied { diamonds: 0, triangles: 0, edges: 0, ..applied }, Rule::Fan),
        ensures
            none_matches(mm, Rule::Diamond),
        decreases mm.full().spec_num_of_edges(),
    {
        match mm.find_d4_rule() {
            Some((x, y, z, w)) => {
                let ghost before = mm;
                mm.apply_d4_rule(x, y, z, w);
                proof {
                    let edges = seq![(x, y), (x, z), (x, w), (y, z), (w, z)];
                    assert(edges[0] == (x, y) && edges[1] == (x, z) && edges[2] == (x, w) && edges[3] == (y, z) && edges[4] == (w, z));
                    lemma_rule_keeps_cover(*g, before, mm, edges, seq![x, y, z, w]);
                    let next = Applied { diamonds: applied.diamonds + 1, ..applied };
                    lemma_counted(before, mm, g@.len(), applied, next, 5, 3);
                    applied = next;
                }
            },
            None => {
                break ;
            },
        }
    }
    proof {
        lemma_phase_ended(mm, *g, applied, Rule::Diamond);
    }
    let ghost second = mm;
    loop
        invariant
            g.wf(),
            mm.wf(),
            mm.linked(),
            covers(mm, *g),
            counted(mm, g@.len(), applied),
            applied.besides == 0,
            applied.edges == 0,
            phase_ended(first, *g, Applied { diamonds: 0, triangles: 0, edges: 0, ..applied }, Rule::Fan),
            phase_ended(second, *g, Applied { triangles: 0, edges: 0, ..applied }, Rule::Diamond),
        ensures
            none_matches(mm, Rule::Triangle),
        decreases mm.full().spec_num_of_edges(),
    {
        match mm.find_k3_rule() {
            Some((u, v, w)) => {
                let ghost before = mm;
                mm.apply_k3_rule(u, v, w);
                proof {
                    let edges = seq![(u, v), (v, w), (w, u)];
                    assert(edges[0] == (u, v) && edges[1] == (v, w) && edges[2] == (w, u));
                    lemma_rule_keeps_cover(*g, before, mm, edges, seq![u, v, w]);
                    let next = Applied { triangles: applied.triangles + 1, ..applied };
                    lemma_counted(before, mm, g@.len(), applied, next, 3, 2);
                    applied = next;
                }
            },
            None => {
                break ;
            },
        }
    }
    proof {
        lemma_phase_ended(mm, *g, applied, Rule::Triangle);
    }
    let ghost third = mm;
    loop
        invariant
            g.wf(),
            mm.wf(),
            mm.linked(),
            covers(mm, *g),
            counted(mm, g@.len(), applied),
            applied.besides == 0,
            phase_ended(first, *g, Applied { diamonds: 0, triangles: 0, edges: 0, ..applied }, Rule::Fan),
            phase_ended(second, *g, Applied { triangles: 0, edges: 0, ..applied }, Rule::Diamond),
            phase_ended(third, *g, Applied { edges: 0, ..applied }, Rule::Triangle),
        ensures
            forall|x: usize, y: usize| !mm.k2_match(x, y),
        decreases mm.full().spec_num_of_edges(),
    {
        match mm.find_k2_rule() {
            Some((u, v)) => {
                let ghost before = mm;
                mm.apply_k2_rule(u, v);
                proof {
                    let edges = seq![(u, v)];
                    assert(edges[0] == (u, v));
                    lemma_rule_keeps_cover(*g, before, mm, edges, seq![u, v]);
                    let next = Applied { edges: applied.edges + 1, ..applied };
                    lemma_counted(before, mm, g@.len(), applied, next, 1, 1);
                    applied = next;
                }
            },
            None => {
                break ;
            },
        }
    }
    proof {
        lemma_finished(mm, *g);
        lemma_no_rule(mm);
        assert(built(mm, *g, mm.mps(), applied));
        assert(my_run(*g, mm.mps(), first, second, third, mm, applied));
    }
    mm.into_mps()
}

/// In turns: every vertex that can be joined to both ends of an edge of the
/// subgraph, then one triangle; at the end single edges.
pub fn poranen_mps(g: &Graph) -> (mps: Graph)
    requires
        g.wf(),
    ensures
        poranen_result(*g, mps),
{
    let mut mm = MatchMerge::new(g);
    let ghost mut applied = Applied { fans: 0, diamonds: 0, triangles: 0, besides: 0, edges: 0 };
    proof {
        lemma_begun(mm, g@.len());
    }
    let ghost mut turns: Seq<(MatchMerge, Applied)> = Seq::empty();
    proof {
        lemma_turns_begin(*g, applied);
    }
    let mut found = true;
    while found
        invariant
            g.wf(),
            mm.wf(),
            mm.linked(),
            covers(mm, *g),
            counted(mm, g@.len(), applied),
            applied.fans == 0,
            applied.diamonds == 0,
            applied.edges == 0,
            turns_taken(*g, turns, applied),
            applied.besides > 0 ==> applied.triangles > 0,
            !found ==> none_matches(mm, Rule::Beside) && none_matches(mm, Rule::Triangle),
        decreases
                mm.full().spec_num_of_edges() + if found {
                    1nat
                } else {
                    0nat
                },
    {
        let ghost start = mm.full().spec_num_of_edges();
        found = false;
        loop
            invariant
                g.wf(),
                mm.wf(),
                mm.linked(),
                covers(mm, *g),
                counted(mm, g@.len(), applied),
                applied.fans == 0,
                applied.diamonds == 0,
                applied.edges == 0,
                turns_taken(*g, turns, applied),
                applied.besides > 0 ==> applied.triangles > 0,
                mm.full().spec_num_of_edges() <= start,
                found ==> mm.full().spec_num_of_edges() < start,
            ensures
                none_matches(mm, Rule::Beside),
            decreases mm.full().spec_num_of_edges(),
        {
            match mm.find_poranen_rule() {
                Some((x, y, z)) => {
                    let ghost before = mm;
                    mm.apply_poranen_rule(x, y, z);
                    proof {
                        let edges = seq![(x, y), (x, z)];
                        assert(edges[0] == (x, y) && edges[1] == (x, z));
                        lemma_rule_keeps_cover(*g, before, mm, edges, seq![x, y, z]);
                        let next = Applied { besides: applied.besides + 1, ..applied };
                        lemma_counted(before, mm, g@.len(), applied, next, 2, 1);
                        lemma_beside_an_edge(before, g@.len(), applied, x, y, z);
                        lemma_turns_stay(*g, turns, applied, next);
                        applied = next;
                    }
                    found = true;
                },
                None => {
                    break ;
                },
            }
        }
        if let Some((u, v, w)) = mm.find_k3_rule() {
            let ghost before = mm;
            mm.apply_k3_rule(u, v, w);
            proof {
                let edges = seq![(u, v), (v, w), (w, u)];
                assert(edges[0] == (u, v) && edges[1] == (v, w) && edges[2] == (w, u));
                lemma_rule_keeps_cover(*g, before, mm, edges, seq![u, v, w]);
                let next = Applied { triangles: applied.triangles + 1, ..applied };
                lemma_counted(before, mm, g@.len(), applied, next, 3, 2);
                lemma_turns_triangle(*g, turns, before, applied, next);
                turns = turns.push((before, applied));
                applied = next;
            }
            found = true;
        }
    }
    proof {
        lemma_phase_ended(mm, *g, applied, Rule::Beside);
        lemma_phase_ended(mm, *g, applied, Rule::Triangle);
    }
    let ghost first = mm;
    loop
        invariant
            g.wf(),
            mm.wf(),
            mm.linked(),
            covers(mm, *g),
            counted(mm, g@.len(), applied),
            applied.fans == 0,
            applied.diamonds == 0,
            phase_ended(first, *g, Applied { edges: 0, ..applied }, Rule::Beside),
            phase_ended(first, *g, Applied { edges: 0, ..applied }, Rule::Triangle),
            turns_taken(*g, turns, applied),
            applied.besides > 0 ==> applied.triangles > 0,
        ensures
            forall|x: usize, y: usize| !mm.k2_match(x, y),
        decreases mm.full().spec_num_of_edges(),
    {
        match mm.find_k2_rule() {
            Some((u, v)) => {
                let ghost before = mm;
                mm.apply_k2_rule(u, v);
                proof {
                    let edges = seq![(u, v)];
                    assert(edges[0] == (u, v));
                    lemma_rule_keeps_cover(*g, before, mm, edges, seq![u, v]);
                    let next = Applied { edges: applied.edges + 1, ..applied };
                    lemma_counted(before, mm, g@.len(), applied, next, 1, 1);
                    lemma_turns_stay(*g, turns, applied, next);
                    applied = next;
                }
            },
            None => {
                break ;
            },
        }
    }
    proof {
        lemma_finished(mm, *g);
        lemma_no_rule(mm);
        assert(built(mm, *g, mm.mps(), applied));
        assert(poranen_run(*g, mm.mps(), turns, first, mm, applied));
    }
    mm.into_mps()
}

} // verus!
