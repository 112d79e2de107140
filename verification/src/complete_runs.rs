//! What the heuristics build on a complete graph: the number of edges
//! follows from the states in which their phases end, and for the cactus
//! from the order in which its pieces were begun.

use crate::cacti::{
    cactus_counted, cactus_result, glued_in, labels_valid, lemma_pieces, lemma_walk_keeps_label, ordered_pieces,
    pieces_counted, pieces_left, triangle,
};
use crate::connectivity::connected;
use crate::graphs::Graph;
use crate::match_merge::{all_different, count_true, own_roots, MatchMerge};
use crate::poranen::{
    built, calinescu_result, calinescu_run, components_merged, counted, edges_added, my_result, my_run, none_matches,
    phase_ended, poranen_result, poranen_run, reached, schmid_result, schmid_run, turns_taken, Applied, Rule,
};
use vstd::prelude::*;

verus! {

/// Any two vertices of the graph are neighbours.
pub open spec fn is_complete(graph: Graph) -> bool {
    forall|u: int, v: usize| 0 <= u < graph@.len() && v < graph@.len() && u != v ==> #[trigger] graph@[u].contains(v)
}

/// Where at least `k` values are `true`, there are `k` places, in
/// increasing order, that hold `true`.
pub proof fn lemma_true_places(s: Seq<bool>, k: nat) -> (places: Seq<int>)
    requires
        count_true(s) >= k,
    ensures
        places.len() == k,
        forall|i: int| 0 <= i < k ==> 0 <= #[trigger] places[i] < s.len() && s[places[i]],
        forall|i: int, j: int| 0 <= i < j < k ==> places[i] < places[j],
    decreases s.len(),
{
    if k == 0 {
        Seq::empty()
    } else if s.last() {
        let rest = lemma_true_places(s.drop_last(), (k - 1) as nat);
        rest.push(s.len() - 1)
    } else {
        lemma_true_places(s.drop_last(), k)
    }
}

/// Where a value is `true`, the count is not zero.
pub proof fn lemma_one_true(s: Seq<bool>, i: int)
    requires
        0 <= i < s.len(),
        s[i],
    ensures
        count_true(s) >= 1,
    decreases s.len(),
{
    if i < s.len() - 1 {
        lemma_one_true(s.drop_last(), i);
    }
}

/// In a run on a complete graph, two vertices of different components are
/// joined by an edge that is still to be considered.
pub proof fn lemma_apart(mm: MatchMerge, graph: Graph, a: Applied, u: usize, v: usize)
    requires
        reached(mm, graph, a),
        is_complete(graph),
        u < graph@.len(),
        v < graph@.len(),
        mm.component()[u as int] != mm.component()[v as int],
    ensures
        mm.full().spec_has_edge(u, v),
        u != v,
{
    reveal(counted);
    assert(graph@[u as int].contains(v));
    if mm.mps()@[u as int].contains(v) {
        assert(mm.component()[u as int] == mm.component()[v as int]);
    }
}

/// A run on a graph with a vertex has a component.
pub proof fn lemma_a_component(mm: MatchMerge, graph: Graph, a: Applied)
    requires
        reached(mm, graph, a),
        graph@.len() >= 1,
    ensures
        mm.components_left() >= 1,
{
    reveal(counted);
    let comp = mm.component();
    let root = comp[0] as int;
    assert(comp[root] == comp[0]);
    assert(own_roots(comp)[root]);
    lemma_one_true(own_roots(comp), root);
}

/// The labels of `k` components: vertices of the graph, each the label of
/// its own component.
pub proof fn lemma_labels(mm: MatchMerge, graph: Graph, a: Applied, k: nat) -> (labels: Seq<usize>)
    requires
        reached(mm, graph, a),
        mm.components_left() >= k,
    ensures
        labels.len() == k,
        forall|i: int| 0 <= i < k ==> (#[trigger] labels[i]) < graph@.len(),
        forall|i: int, j: int|
            0 <= i < j < k ==> mm.component()[labels[i] as int] != mm.component()[labels[j] as int],
{
    let comp = mm.component();
    let places = lemma_true_places(own_roots(comp), k);
    let labels = Seq::new(k, |i: int| places[i] as usize);
    assert forall|i: int, j: int| 0 <= i < j < k implies comp[labels[i] as int] != comp[labels[j] as int] by {
        assert(own_roots(comp)[places[i]] && own_roots(comp)[places[j]]);
        assert(places[i] < places[j]);
    }
    assert forall|i: int| 0 <= i < k implies (#[trigger] labels[i]) < graph@.len() by {
        assert(0 <= places[i] < own_roots(comp).len());
    }
    labels
}

/// While no triangle matches, a run on a complete graph has at most two
/// components.
pub proof fn lemma_quiet_triangles(mm: MatchMerge, graph: Graph, a: Applied)
    requires
        reached(mm, graph, a),
        is_complete(graph),
        none_matches(mm, Rule::Triangle),
    ensures
        mm.components_left() <= 2,
{
    if mm.components_left() >= 3 {
        let labels = lemma_labels(mm, graph, a, 3);
        let x = labels[0];
        let y = labels[1];
        let z = labels[2];
        lemma_apart(mm, graph, a, x, y);
        lemma_apart(mm, graph, a, x, z);
        lemma_apart(mm, graph, a, y, z);
        let s = seq![x, y, z];
        assert(s[0] == x && s[1] == y && s[2] == z);
        assert(all_different(mm.component(), s));
        assert(mm.k3_match(x, y, z));
    }
}

/// While no diamond matches, a run on a complete graph has at most three
/// components.
pub proof fn lemma_quiet_diamonds(mm: MatchMerge, graph: Graph, a: Applied)
    requires
        reached(mm, graph, a),
        is_complete(graph),
        none_matches(mm, Rule::Diamond),
    ensures
        mm.components_left() <= 3,
{
    if mm.components_left() >= 4 {
        let labels = lemma_labels(mm, graph, a, 4);
        let x = labels[0];
        let y = labels[1];
        let z = labels[2];
        let w = labels[3];
        lemma_apart(mm, graph, a, x, y);
        lemma_apart(mm, graph, a, x, z);
        lemma_apart(mm, graph, a, x, w);
        lemma_apart(mm, graph, a, y, z);
        lemma_apart(mm, graph, a, y, w);
        lemma_apart(mm, graph, a, z, w);
        let s = seq![x, y, z, w];
        assert(s[0] == x && s[1] == y && s[2] == z && s[3] == w);
        assert(all_different(mm.component(), s));
        assert(mm.d4_match(x, y, z, w));
    }
}

/// While no fan matches, a run on a complete graph has at most four
/// components.
pub proof fn lemma_quiet_fans(mm: MatchMerge, graph: Graph, a: Applied)
    requires
        reached(mm, graph, a),
        is_complete(graph),
        none_matches(mm, Rule::Fan),
    ensures
        mm.components_left() <= 4,
{
    if mm.components_left() >= 5 {
        let labels = lemma_labels(mm, graph, a, 5);
        let x = labels[0];
        let y = labels[1];
        let z = labels[2];
        let w = labels[3];
        let t = labels[4];
        lemma_apart(mm, graph, a, x, y);
        lemma_apart(mm, graph, a, x, z);
        lemma_apart(mm, graph, a, x, w);
        lemma_apart(mm, graph, a, x, t);
        lemma_apart(mm, graph, a, y, z);
        lemma_apart(mm, graph, a, y, w);
        lemma_apart(mm, graph, a, y, t);
        lemma_apart(mm, graph, a, z, w);
        lemma_apart(mm, graph, a, z, t);
        lemma_apart(mm, graph, a, w, t);
        let s = seq![x, y, z, w, t];
        assert(s[0] == x && s[1] == y && s[2] == z && s[3] == w && s[4] == t);
        assert(all_different(mm.component(), s));
        assert(mm.my_match(x, y, z, w, t));
    }
}

/// At its end a run on a complete graph with a vertex has one component.
pub proof fn lemma_one_component(mm: MatchMerge, graph: Graph, mps: Graph, a: Applied)
    requires
        built(mm, graph, mps, a),
        is_complete(graph),
        graph@.len() >= 1,
    ensures
        mm.components_left() == 1,
{
    lemma_a_component(mm, graph, a);
    if mm.components_left() >= 2 {
        let labels = lemma_labels(mm, graph, a, 2);
        let x = labels[0];
        let y = labels[1];
        lemma_apart(mm, graph, a, x, y);
        let s = seq![x, y];
        assert(s[0] == x && s[1] == y);
        assert(all_different(mm.component(), s));
        assert(mm.k2_match(x, y));
    }
}

/// What a phase that ended says of the components and of the applications.
pub proof fn lemma_phase(mm: MatchMerge, graph: Graph, a: Applied, rule: Rule)
    requires
        phase_ended(mm, graph, a, rule),
    ensures
        reached(mm, graph, a),
        none_matches(mm, rule),
        mm.mps().spec_num_of_edges() == edges_added(a),
        mm.components_left() + components_merged(a) == graph@.len(),
{
    reveal(phase_ended);
    reveal(counted);
}

/// What the end of a run says of the subgraph and of the components.
pub proof fn lemma_built(mm: MatchMerge, graph: Graph, mps: Graph, a: Applied)
    requires
        built(mm, graph, mps, a),
    ensures
        mps.spec_num_of_edges() == edges_added(a),
        mm.components_left() + components_merged(a) == graph@.len(),
{
    reveal(counted);
}

/// Merging four components as often as can be, then three, then two, from
/// `n` components down to one, takes `(n - 1) / 4` times four, then
/// `((n - 1) % 4) / 3` times three, then `(((n - 1) % 4) % 3) / 2` times
/// two.
pub proof fn lemma_merged_down(n: int, fans: int, diamonds: int, triangles: int)
    requires
        fans >= 0,
        diamonds >= 0,
        triangles >= 0,
        1 <= n - 4 * fans <= 4,
        1 <= n - 4 * fans - 3 * diamonds <= 3,
        1 <= n - 4 * fans - 3 * diamonds - 2 * triangles <= 2,
    ensures
        fans == (n - 1) / 4,
        diamonds == ((n - 1) % 4) / 3,
        triangles == (((n - 1) % 4) % 3) / 2,
{
    let r = n - 1 - 4 * fans;
    vstd::arithmetic::div_mod::lemma_fundamental_div_mod_converse(n - 1, 4, fans, r);
    let r2 = r - 3 * diamonds;
    vstd::arithmetic::div_mod::lemma_fundamental_div_mod_converse(r, 3, diamonds, r2);
    let r3 = r2 - 2 * triangles;
    vstd::arithmetic::div_mod::lemma_fundamental_div_mod_converse(r2, 2, triangles, r3);
}

/// On the complete graph with `n >= 1` vertices the heuristic of triangles
/// and edges builds a subgraph with `n - 1 + (n - 1) / 2` edges.
pub proof fn lemma_calinescu_on_complete(graph: Graph, mps: Graph)
    requires
        is_complete(graph),
        graph@.len() >= 1,
        calinescu_result(graph, mps),
    ensures
        mps.spec_num_of_edges() == graph@.len() - 1 + (graph@.len() - 1) / 2,
{
    let (first, last, a) = choose|first: MatchMerge, last: MatchMerge, a: Applied|
        calinescu_run(graph, mps, first, last, a);
    let triangles = Applied { edges: 0, ..a };
    lemma_phase(first, graph, triangles, Rule::Triangle);
    lemma_a_component(first, graph, triangles);
    lemma_quiet_triangles(first, graph, triangles);
    lemma_one_component(last, graph, mps, a);
    lemma_built(last, graph, mps, a);
}

/// On the complete graph with `n >= 1` vertices the heuristic of diamonds,
/// triangles and edges builds a subgraph with
/// `n - 1 + 2 * ((n - 1) / 3) + ((n - 1) % 3) / 2` edges.
pub proof fn lemma_schmid_on_complete(graph: Graph, mps: Graph)
    requires
        is_complete(graph),
        graph@.len() >= 1,
        schmid_result(graph, mps),
    ensures
        mps.spec_num_of_edges() == graph@.len() - 1 + 2 * ((graph@.len() - 1) / 3) + ((graph@.len() - 1) % 3) / 2,
{
    let (first, second, last, a) = choose|first: MatchMerge, second: MatchMerge, last: MatchMerge, a: Applied|
        schmid_run(graph, mps, first, second, last, a);
    let diamonds = Applied { triangles: 0, edges: 0, ..a };
    let triangles = Applied { edges: 0, ..a };
    lemma_phase(first, graph, diamonds, Rule::Diamond);
    lemma_a_component(first, graph, diamonds);
    lemma_quiet_diamonds(first, graph, diamonds);
    lemma_phase(second, graph, triangles, Rule::Triangle);
    lemma_a_component(second, graph, triangles);
    lemma_quiet_triangles(second, graph, triangles);
    lemma_one_component(last, graph, mps, a);
    lemma_built(last, graph, mps, a);
}

/// On the complete graph with `n >= 1` vertices the heuristic of fans,
/// diamonds, triangles and edges builds a subgraph with
/// `n - 1 + 3 * ((n - 1) / 4) + 2 * (((n - 1) % 4) / 3) + (((n - 1) % 4) % 3) / 2`
/// edges.
pub proof fn lemma_my_on_complete(graph: Graph, mps: Graph)
    requires
        is_complete(graph),
        graph@.len() >= 1,
        my_result(graph, mps),
    ensures
        mps.spec_num_of_edges() == graph@.len() - 1 + 3 * ((graph@.len() - 1) / 4) + 2 * (((graph@.len() - 1) % 4)
            / 3) + (((graph@.len() - 1) % 4) % 3) / 2,
{
    let (first, second, third, last, a) = choose|
        first: MatchMerge,
        second: MatchMerge,
        third: MatchMerge,
        last: MatchMerge,
        a: Applied,
    |
        my_run(graph, mps, first, second, third, last, a);
    let fans = Applied { diamonds: 0, triangles: 0, edges: 0, ..a };
    let diamonds = Applied { triangles: 0, edges: 0, ..a };
    let triangles = Applied { edges: 0, ..a };
    lemma_phase(first, graph, fans, Rule::Fan);
    lemma_a_component(first, graph, fans);
    lemma_quiet_fans(first, graph, fans);
    lemma_phase(second, graph, diamonds, Rule::Diamond);
    lemma_a_component(second, graph, diamonds);
    lemma_quiet_diamonds(second, graph, diamonds);
    lemma_phase(third, graph, triangles, Rule::Triangle);
    lemma_a_component(third, graph, triangles);
    lemma_quiet_triangles(third, graph, triangles);
    lemma_one_component(last, graph, mps, a);
    lemma_built(last, graph, mps, a);
    lemma_merged_down(graph@.len() as int, a.fans as int, a.diamonds as int, a.triangles as int);
}

/// While no vertex beside an edge of the subgraph matches, a run on a
/// complete graph whose subgraph has an edge has one component.
pub proof fn lemma_quiet_besides(mm: MatchMerge, graph: Graph, a: Applied)
    requires
        reached(mm, graph, a),
        is_complete(graph),
        none_matches(mm, Rule::Beside),
        mm.mps().spec_num_of_edges() >= 1,
    ensures
        mm.components_left() <= 1,
{
    let comp = mm.component();
    let sub = mm.mps()@;
    let (u, z) = crate::graphs::lemma_some_arc(sub);
    let y = u as usize;
    assert(mm.mps().spec_has_edge(y, z));
    assert(comp[y as int] == comp[z as int] && z < sub.len() && y != z) by {
        reveal(counted);
    }
    if mm.components_left() >= 2 {
        let labels = lemma_labels(mm, graph, a, 2);
        let x = if comp[labels[0] as int] != comp[y as int] {
            labels[0]
        } else {
            labels[1]
        };
        lemma_apart(mm, graph, a, x, y);
        lemma_apart(mm, graph, a, x, z);
        let s = seq![x, y];
        assert(s[0] == x && s[1] == y);
        assert(all_different(comp, s));
        assert(mm.poranen_match(x, y, z));
    }
}

/// The state of a turn: what it says of the applications before it.
pub proof fn lemma_turn(graph: Graph, turns: Seq<(MatchMerge, Applied)>, a: Applied, i: int)
    requires
        turns_taken(graph, turns, a),
        0 <= i < a.triangles,
    ensures
        i < turns.len(),
        turns[i].1.fans == 0 && turns[i].1.diamonds == 0 && turns[i].1.edges == 0,
        turns[i].1.triangles == i,
        turns[i].1.besides <= a.besides,
        phase_ended(turns[i].0, graph, turns[i].1, Rule::Beside),
{
    reveal(turns_taken);
}

/// On the complete graph with `n >= 3` vertices the heuristic of vertices
/// beside edges, triangles and edges builds a subgraph with `2 * n - 3`
/// edges: one triangle, and every other vertex beside an edge.
pub proof fn lemma_poranen_on_complete(graph: Graph, mps: Graph)
    requires
        is_complete(graph),
        graph@.len() >= 3,
        poranen_result(graph, mps),
    ensures
        mps.spec_num_of_edges() == 2 * graph@.len() - 3,
{
    let (turns, first, last, a) = choose|
        turns: Seq<(MatchMerge, Applied)>,
        first: MatchMerge,
        last: MatchMerge,
        a: Applied,
    |
        poranen_run(graph, mps, turns, first, last, a);
    let n = graph@.len();
    let at_first = Applied { edges: 0, ..a };
    lemma_phase(first, graph, at_first, Rule::Beside);
    lemma_phase(first, graph, at_first, Rule::Triangle);
    lemma_a_component(first, graph, at_first);
    lemma_quiet_triangles(first, graph, at_first);
    lemma_one_component(last, graph, mps, a);
    lemma_built(last, graph, mps, a);
    assert(a.triangles >= 1);
    lemma_quiet_besides(first, graph, at_first);
    if a.triangles >= 2 {
        lemma_turn(graph, turns, a, 1);
        let (second, at_second) = turns[1];
        lemma_phase(second, graph, at_second, Rule::Beside);
        lemma_quiet_besides(second, graph, at_second);
    }
}

/// On the complete graph with `n >= 1` vertices the glued triangles are
/// `(n - 1) / 2`: they leave one piece, or one piece and a single vertex.
pub proof fn lemma_triangles_on_complete(graph: Graph, glued: Graph, label: Seq<usize>, time: Seq<nat>)
    requires
        graph.wf(),
        is_complete(graph),
        graph@.len() >= 1,
        label.len() == graph@.len(),
        labels_valid(label),
        pieces_counted(glued@, label, glued.spec_num_of_edges() as nat),
        ordered_pieces(graph@, label, time),
    ensures
        glued.spec_num_of_edges() == 3 * ((graph@.len() - 1) / 2),
{
    lemma_pieces(glued@, label, glued.spec_num_of_edges() as nat);
    let roots = own_roots(label);
    let first = label[0] as int;
    assert(label[first] == label[0]);
    assert(roots[first]);
    lemma_one_true(roots, first);
    if count_true(roots) >= 3 {
        let places = lemma_true_places(roots, 3);
        let a = places[0] as usize;
        let b = places[1] as usize;
        let c = places[2] as usize;
        assert(roots[places[0]] && roots[places[1]] && roots[places[2]]);
        assert(label[a as int] == a && label[b as int] == b && label[c as int] == c);
        assert(a < b && b < c);
        assert(time[a as int] != time[b as int] && time[a as int] != time[c as int] && time[b as int] != time[c as int]);
        assert(graph@[a as int].contains(b) && graph@[a as int].contains(c) && graph@[b as int].contains(c));
        assert(graph@[b as int].contains(a) && graph@[c as int].contains(a) && graph@[c as int].contains(b));
        if time[a as int] < time[b as int] && time[a as int] < time[c as int] {
            assert(triangle(graph@, a, b, c));
        } else if time[b as int] < time[a as int] && time[b as int] < time[c as int] {
            assert(triangle(graph@, b, a, c));
        } else {
            assert(triangle(graph@, c, a, b));
        }
    }
}

/// On the complete graph with `n >= 1` vertices the cactus of glued
/// triangles, its pieces joined, has `n - 1 + (n - 1) / 2` edges.
pub proof fn lemma_cactus_on_complete(graph: Graph, result: Graph)
    requires
        graph.wf(),
        is_complete(graph),
        graph@.len() >= 1,
        cactus_result(graph, result),
    ensures
        result.spec_num_of_edges() == graph@.len() - 1 + (graph@.len() - 1) / 2,
{
    let (label, triangles) = choose|label: Seq<usize>, triangles: nat| #[trigger]
        cactus_counted(graph@, result, label, triangles);
    let (glued, named, time) = choose|glued: Graph, named: Seq<usize>, time: Seq<nat>| #[trigger]
        glued_in(graph@, glued, named, time, result, triangles);
    lemma_triangles_on_complete(graph, glued, named, time);
    let roots = own_roots(label);
    let first = label[0] as int;
    assert(label[first] == label[0]);
    assert(roots[first]);
    lemma_one_true(roots, first);
    if count_true(roots) >= 2 {
        let places = lemma_true_places(roots, 2);
        let a = places[0] as usize;
        let b = places[1] as usize;
        assert(roots[places[0]] && roots[places[1]]);
        assert(places[0] < places[1]);
        assert(graph.spec_has_edge(a, b));
        assert(connected(result@, a, b));
        let steps = choose|steps: nat| crate::connectivity::reach(result@, a, b, steps);
        lemma_walk_keeps_label(result@, label, a, b, steps);
    }
    assert(pieces_left(label) == 1);
}

} // verus!
