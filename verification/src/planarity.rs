//! Planarity testing: the edge bound that follows from Euler's formula,
//! then the left-right test.

use crate::connectivity::{
    connected, extends, lemma_connected_arc, lemma_connected_extends, lemma_connected_refl, lemma_connected_trans,
    lemma_pigeonhole,
};
use crate::graphs::{
    arc_count, edge_set, lemma_arc_bound, lemma_edge_change, lemma_push_contains, lemma_push_no_duplicates,
    simple_adjacency, Graph,
};
use crate::sorting::{lemma_increasing_unique, lemma_sorted_rearrangement, pairs_increasing, sort_pairs};
use rustworkx_core::petgraph::graph::Graph as PetGraph;
use rustworkx_core::petgraph::Undirected;
use vstd::prelude::*;

verus! {

/// The answer of the left-right planarity test on the undirected graph with
/// the listed edges.
pub uninterp spec fn lr_planar(edges: Seq<(usize, usize)>) -> bool;

/// The answer of the test on the listed edges, which is `true` where none
/// is listed.
pub open spec fn lr_verdict(edges: Seq<(usize, usize)>) -> bool {
    edges.len() == 0 || lr_planar(edges)
}

/// Runs `rustworkx_core::planar::is_planar` on the undirected graph that
/// `petgraph`'s `Graph::from_edges` builds from `edges`, with machine-word
/// node indices. It is asked of lists of different edges between different
/// vertices only. The answer is a function of the edge list; on the empty
/// list the graph has no vertex, no search starts, and the answer is `true`.
#[verifier::external_body]
pub(crate) fn left_right_test(edges: &Vec<(usize, usize)>) -> (planar: bool)
    requires
        pairs_increasing(edges@),
        forall|k: int| 0 <= k < edges@.len() ==> (#[trigger] edges@[k]).0 < edges@[k].1,
    ensures
        planar == (edges@.len() == 0 || lr_planar(edges@)),
{
    let graph = PetGraph::<usize, (), Undirected, usize>::from_edges(edges);
    rustworkx_core::planar::is_planar(&graph)
}

/// The edges of an adjacency structure in increasing lexicographic order,
/// each once, smaller endpoint first.
pub open spec fn edge_list(adj: Seq<Set<usize>>) -> Seq<(usize, usize)> {
    choose|s: Seq<(usize, usize)>| pairs_increasing(s) && s.to_set() == edge_set(adj)
}

/// What the edge bound alone decides for `n` vertices and `m` edges: graphs
/// on at most four vertices are planar, and a planar graph on `n >= 3`
/// vertices has at most `3 * n - 6` edges.
pub open spec fn trivial_verdict(n: nat, m: nat) -> Option<bool> {
    if n <= 4 {
        Some(true)
    } else if m > 3 * n - 6 {
        Some(false)
    } else {
        None
    }
}

/// Whether the graph with these adjacency sets is planar: the edge bound
/// where it decides, else the left-right test on the ordered edge list.
pub open spec fn planarity(adj: Seq<Set<usize>>) -> bool {
    match trivial_verdict(adj.len(), arc_count(adj) / 2) {
        Some(verdict) => verdict,
        None => lr_verdict(edge_list(adj)),
    }
}

/// Applies the edge bound: `Some(true)` on at most four vertices,
/// `Some(false)` on more than `3 * n - 6` edges, else `None`.
pub fn trivial_test(graph: &Graph) -> (r: Option<bool>)
    requires
        graph.wf(),
    ensures
        r == trivial_verdict(graph@.len(), graph.spec_num_of_edges() as nat),
{
    let n = graph.num_of_vertices();
    let m = graph.num_of_edges();
    if n <= 4 {
        return Some(true);
    }
    assert(3 * n <= n * n) by (nonlinear_arith)
        requires
            n >= 5,
    ;
    if m > 3 * n - 6 {
        return Some(false);
    }
    None
}

/// The edges of the graph in increasing lexicographic order.
pub fn sorted_edges(graph: &Graph) -> (edges: Vec<(usize, usize)>)
    requires
        graph.wf(),
    ensures
        edges@ == edge_list(graph@),
        edges@.len() == graph.spec_num_of_edges(),
        pairs_increasing(edges@),
        forall|k: int| 0 <= k < edges@.len() ==> (#[trigger] edges@[k]).0 < edges@[k].1 < graph@.len(),
{
    let mut edges = graph.all_edges();
    let ghost listed = edges@;
    sort_pairs(&mut edges);
    proof {
        lemma_sorted_rearrangement(listed, edges@);
        lemma_increasing_unique(edges@, edge_list(graph@));
        crate::sorting::lemma_rearranged(listed, edges@);
        assert forall|k: int| 0 <= k < edges@.len() implies (#[trigger] edges@[k]).0 < edges@[k].1 < graph@.len() by {
            assert(edges@.to_set().contains(edges@[k]));
            assert(edge_set(graph@).contains(edges@[k]));
        }
    }
    edges
}

/// Decides whether the graph is planar.
pub fn is_planar(graph: &Graph) -> (planar: bool)
    requires
        graph.wf(),
    ensures
        planar == planarity(graph@),
        graph@.len() <= 4 ==> planar,
        graph@.len() >= 3 && graph.spec_num_of_edges() > 3 * graph@.len() - 6 ==> !planar,
        graph.spec_num_of_edges() == 0 ==> planar,
{
    proof {
        lemma_dense_graphs_have_five_vertices(graph@);
    }
    if let Some(verdict) = trivial_test(graph) {
        return verdict;
    }
    let edges = sorted_edges(graph);
    left_right_test(&edges)
}

/// A simple graph on three or four vertices has at most `3 * n - 6` edges.
pub proof fn lemma_dense_graphs_have_five_vertices(adj: Seq<Set<usize>>)
    requires
        simple_adjacency(adj),
        adj.len() * adj.len() <= usize::MAX,
    ensures
        adj.len() >= 3 && arc_count(adj) > 2 * (3 * adj.len() - 6) ==> adj.len() >= 5,
{
    assert(adj.len() <= adj.len() * adj.len()) by (nonlinear_arith);
    lemma_arc_bound(adj);
    if adj.len() == 3 {
        assert(adj.len() * (adj.len() - 1) == 6) by (nonlinear_arith)
            requires
                adj.len() == 3,
        ;
    }
    if adj.len() == 4 {
        assert(adj.len() * (adj.len() - 1) == 12) by (nonlinear_arith)
            requires
                adj.len() == 4,
        ;
    }
}

/// Every simple graph on at most four vertices is planar.
pub proof fn lemma_small_graphs_are_planar(graph: Graph)
    requires
        graph.wf(),
        graph@.len() <= 4,
    ensures
        planarity(graph@),
{
}

/// Every graph without edges is planar.
pub proof fn lemma_edgeless_graphs_are_planar(graph: Graph)
    requires
        graph.wf(),
        graph.spec_num_of_edges() == 0,
    ensures
        planarity(graph@),
{
    let adj = graph@;
    crate::graphs::lemma_handshake(adj);
    vstd::set_lib::lemma_set_empty_equivalency_len(edge_set(adj));
    let none = Seq::<(usize, usize)>::empty();
    assert(none.to_set() =~= edge_set(adj));
    assert(pairs_increasing(none));
    let listed = edge_list(adj);
    assert(pairs_increasing(listed) && listed.to_set() == edge_set(adj));
    if listed.len() > 0 {
        assert(listed.to_set().contains(listed[0]));
    }
}

/// A simple graph on at least three vertices with more than `3 * n - 6`
/// edges is not planar.
pub proof fn lemma_dense_graphs_are_not_planar(graph: Graph)
    requires
        graph.wf(),
        graph@.len() >= 3,
        graph.spec_num_of_edges() > 3 * graph@.len() - 6,
    ensures
        !planarity(graph@),
{
    lemma_dense_graphs_have_five_vertices(graph@);
}

/// Planarity depends on the adjacency sets alone: two graphs with the same
/// neighbours at every vertex get the same answer, however they were built.
pub proof fn lemma_planarity_ignores_construction(first: Graph, second: Graph)
    requires
        first.wf(),
        second.wf(),
        first@ =~= second@,
    ensures
        first.spec_num_of_edges() == second.spec_num_of_edges(),
        planarity(first@) == planarity(second@),
{
}

/// Adjacency does not depend on the direction in which it is asked, and
/// every edge is listed once, whichever endpoint is named first.
pub proof fn lemma_adjacency_ignores_direction(graph: Graph, u: usize, v: usize)
    requires
        graph.wf(),
    ensures
        graph.spec_has_edge(u, v) == graph.spec_has_edge(v, u),
        graph.spec_has_edge(u, v) ==> edge_set(graph@).contains(
            if u < v {
                (u, v)
            } else {
                (v, u)
            },
        ),
        edge_set(graph@).contains((u, v)) ==> graph.spec_has_edge(u, v) && !edge_set(graph@).contains((v, u)),
{
}

/// `sub` is the graph that `adj` induces on the listed vertices, numbered as
/// they are listed: it has the same edges, no edge of `adj` leaves the list,
/// and every listed vertex is connected to the first.
pub open spec fn is_component(adj: Seq<Set<usize>>, part: Seq<usize>, sub: Seq<Set<usize>>) -> bool {
    &&& part.len() == sub.len()
    &&& part.len() > 0
    &&& forall|i: int| 0 <= i < part.len() ==> (#[trigger] part[i]) < adj.len()
    &&& forall|i: int, j: int|
        0 <= i < part.len() && 0 <= j < part.len() ==> (#[trigger] sub[i].contains(j as usize) <==> adj[part[i] as int].contains(
            part[j],
        ))
    &&& forall|i: int, w: usize|
        0 <= i < part.len() && #[trigger] adj[part[i] as int].contains(w) ==> part.contains(w)
    &&& rooted(sub)
}

/// The vertex `v` is listed in one of the parts.
pub open spec fn in_some_part(parts: Seq<Seq<usize>>, v: usize) -> bool {
    exists|c: int, i: int| 0 <= c < parts.len() && 0 <= i < parts[c].len() && #[trigger] parts[c][i] == v
}

/// Every vertex below `n` is listed in exactly one place.
pub open spec fn is_partition(n: nat, parts: Seq<Seq<usize>>) -> bool {
    &&& forall|v: usize| v < n ==> #[trigger] in_some_part(parts, v)
    &&& forall|c: int, i: int, d: int, j: int|
        0 <= c < parts.len() && 0 <= i < parts[c].len() && 0 <= d < parts.len() && 0 <= j < parts[d].len()
            && #[trigger] parts[c][i] == #[trigger] parts[d][j] ==> c == d && i == j
}

/// Every part begins with its smallest vertex, and the parts stand in the
/// order of these.
pub open spec fn ordered_parts(parts: Seq<Seq<usize>>) -> bool {
    &&& forall|c: int, i: int| 0 <= c < parts.len() && 0 <= i < parts[c].len() ==> parts[c][0] <= #[trigger] parts[c][i]
    &&& forall|c: int, d: int| 0 <= c < d < parts.len() ==> (#[trigger] parts[c])[0] < (#[trigger] parts[d])[0]
}

/// The graphs are the connected components of `graph` in the order of their
/// smallest vertices, `parts[c]` listing the vertices of the component `c`
/// in the order of their new numbers, the smallest first.
pub open spec fn split_into(graph: Graph, comps: Seq<Graph>, parts: Seq<Seq<usize>>) -> bool {
    &&& parts.len() == comps.len()
    &&& ordered_parts(parts)
    &&& is_partition(graph@.len(), parts)
    &&& forall|c: int|
        0 <= c < comps.len() ==> (#[trigger] comps[c]).wf() && is_component(graph@, parts[c], comps[c]@)
}

/// The new numbers agree with the lists: a vertex has a number exactly if
/// it is listed, at that place of the list of its component.
pub open spec fn labelled(
    n: nat,
    new_index: Seq<Option<usize>>,
    comp_of: Seq<int>,
    parts: Seq<Seq<usize>>,
) -> bool {
    &&& new_index.len() == n
    &&& comp_of.len() == n
    &&& forall|v: int|
        0 <= v < n && (#[trigger] new_index[v]) is Some ==> 0 <= comp_of[v] < parts.len() && new_index[v].unwrap()
            < parts[comp_of[v]].len() && parts[comp_of[v]][new_index[v].unwrap() as int] == v
    &&& forall|c: int, i: int|
        0 <= c < parts.len() && 0 <= i < parts[c].len() ==> (#[trigger] parts[c][i]) < n
            && new_index[parts[c][i] as int] is Some && new_index[parts[c][i] as int].unwrap() == i
            && comp_of[parts[c][i] as int] == c
}

/// The component that is being explored: the vertices in `handled` have all
/// their edges in it, and it has no edge that `adj` has not.
pub open spec fn exploring(
    adj: Seq<Set<usize>>,
    new_index: Seq<Option<usize>>,
    comp_of: Seq<int>,
    parts: Seq<Seq<usize>>,
    sub: Seq<Set<usize>>,
    handled: Set<usize>,
) -> bool {
    let cur = parts.len() - 1;
    &&& parts.len() >= 1
    &&& parts[cur].len() == sub.len()
    &&& sub.len() >= 1
    &&& forall|p: usize| #[trigger]
        handled.contains(p) ==> p < adj.len() && new_index[p as int] is Some && comp_of[p as int] == cur
    &&& forall|p: usize, w: usize|
        handled.contains(p) && #[trigger] adj[p as int].contains(w) ==> new_index[w as int] is Some
            && comp_of[w as int] == cur && sub[new_index[p as int].unwrap() as int].contains(
            new_index[w as int].unwrap(),
        )
    &&& forall|i: int, j: usize|
        0 <= i < sub.len() && #[trigger] sub[i].contains(j) ==> j < sub.len() && adj[parts[cur][i] as int].contains(
            parts[cur][j as int],
        )
}

/// Every vertex is connected to the vertex 0.
pub open spec fn rooted(sub: Seq<Set<usize>>) -> bool {
    forall|i: usize| i < sub.len() ==> connected(sub, 0, i)
}

/// Every vertex still to be handled belongs to the component being explored.
pub open spec fn waiting(
    n: nat,
    new_index: Seq<Option<usize>>,
    comp_of: Seq<int>,
    cur: int,
    queue: Seq<usize>,
) -> bool {
    forall|k: int|
        0 <= k < queue.len() ==> (#[trigger] queue[k]) < n && new_index[queue[k] as int] is Some
            && comp_of[queue[k] as int] == cur
}

/// The vertices reached so far, each once.
pub open spec fn reached(n: nat, new_index: Seq<Option<usize>>, order: Seq<usize>) -> bool {
    &&& order.no_duplicates()
    &&& order.len() <= n
    &&& forall|k: int| 0 <= k < order.len() ==> (#[trigger] order[k]) < n && new_index[order[k] as int] is Some
}

/// Splits the graph into its connected components, in the order of their
/// smallest vertices. Each component numbers its vertices from 0 in the
/// order in which a search from its smallest vertex reaches them.
pub fn split_graph_into_connected(graph: &Graph) -> (comps: Vec<Graph>)
    requires
        graph.wf(),
    ensures
        exists|parts: Seq<Seq<usize>>| split_into(*graph, comps@, parts),
{
    let n = graph.num_of_vertices();
    let mut connected_components: Vec<Graph> = Vec::new();
    let mut queue: Vec<usize> = Vec::new();
    let mut new_index: Vec<Option<usize>> = Vec::new();
    let mut filled: usize = 0;
    while filled < n
        invariant
            filled <= n,
            new_index@.len() == filled,
            forall|v: int| 0 <= v < filled ==> (#[trigger] new_index@[v]) is None,
        decreases n - filled,
    {
        new_index.push(None);
        filled += 1;
    }
    let ghost adj = graph@;
    let ghost mut comp_of: Seq<int> = Seq::new(n as nat, |v: int| 0int);
    let ghost mut parts: Seq<Seq<usize>> = Seq::empty();
    let ghost mut order: Seq<usize> = Seq::empty();
    let mut v: usize = 0;
    while v < n
        invariant
            v <= n,
            n == adj.len(),
            adj == graph@,
            graph.wf(),
            queue@.len() == 0,
            labelled(n as nat, new_index@, comp_of, parts),
            reached(n as nat, new_index@, order),
            parts.len() == connected_components@.len(),
            forall|c: int|
                0 <= c < parts.len() ==> (#[trigger] connected_components@[c]).wf() && is_component(
                    adj,
                    parts[c],
                    connected_components@[c]@,
                ),
            forall|x: int| 0 <= x < v ==> (#[trigger] new_index@[x]) is Some,
            ordered_parts(parts),
            forall|c: int| 0 <= c < parts.len() ==> (#[trigger] parts[c])[0] < v,
        decreases n - v,
    {
        if new_index[v].is_none() {
            let ghost cur = parts.len() as int;
            let mut component = Graph::new();
            proof {
                assert(1 <= n * n) by (nonlinear_arith)
                    requires
                        n >= 1,
                ;
                if order.contains(v) {
                    let k = choose|k: int| 0 <= k < order.len() && order[k] == v;
                    assert(new_index@[order[k] as int] is Some);
                }
                lemma_push_no_duplicates(order, v);
                lemma_pigeonhole(order.push(v), n as nat);
                assert((component@.len() + 1) * (component@.len() + 1) == 1) by (nonlinear_arith)
                    requires
                        component@.len() == 0,
                ;
            }
            let first = component.add_vertex();
            new_index[v] = Some(first);
            queue.push(v);
            let ghost mut handled: Set<usize> = Set::empty();
            proof {
                comp_of = comp_of.update(v as int, cur);
                parts = parts.push(seq![v]);
                order = order.push(v);
                assert(parts[cur][0] == v);
                lemma_connected_refl(component@, 0);
                assert(queue@[0] == v);
                assert(queue@.contains(v));
            }
            loop
                invariant
                    v < n,
                    n == adj.len(),
                    adj == graph@,
                    graph.wf(),
                    component.wf(),
                    cur == parts.len() - 1,
                    cur == connected_components@.len(),
                    labelled(n as nat, new_index@, comp_of, parts),
                    reached(n as nat, new_index@, order),
                    parts[cur].len() <= order.len(),
                    forall|c: int|
                        0 <= c < cur ==> (#[trigger] connected_components@[c]).wf() && is_component(
                            adj,
                            parts[c],
                            connected_components@[c]@,
                        ),
                    forall|x: int| 0 <= x < v ==> (#[trigger] new_index@[x]) is Some,
                    new_index@[v as int] is Some,
                    ordered_parts(parts),
                    parts[cur][0] == v,
                    exploring(adj, new_index@, comp_of, parts, component@, handled),
                    rooted(component@),
                    waiting(n as nat, new_index@, comp_of, cur, queue@),
                    forall|i: int|
                        0 <= i < parts[cur].len() ==> handled.contains(#[trigger] parts[cur][i]) || queue@.contains(
                            parts[cur][i],
                        ),
                ensures
                    queue@.len() == 0,
                decreases 2 * (n - order.len()) + queue@.len(),
            {
                let ghost waiting_before = queue@;
                let ghost measure = 2 * (n - order.len()) + queue@.len();
                match queue.pop() {
                    None => {
                        break ;
                    },
                    Some(u) => {
                        assert(u == waiting_before[waiting_before.len() - 1]);
                        assert(queue@ == waiting_before.drop_last());
                        let nb = graph.neighbor_list(u);
                        let ui = new_index[u].unwrap();
                        proof {
                            assert forall|i: int| 0 <= i < parts[cur].len() implies handled.contains(
                                #[trigger] parts[cur][i],
                            ) || queue@.contains(parts[cur][i]) || parts[cur][i] == u by {
                                let x = parts[cur][i];
                                if !handled.contains(x) {
                                    let k = choose|k: int| 0 <= k < waiting_before.len() && waiting_before[k] == x;
                                    if k < waiting_before.len() - 1 {
                                        assert(queue@[k] == x);
                                    }
                                }
                            }
                        }
                        let mut t: usize = 0;
                        while t < nb.len()
                            invariant
                                t <= nb@.len(),
                                v < n,
                                u < n,
                                n == adj.len(),
                                adj == graph@,
                                graph.wf(),
                                component.wf(),
                                nb@.to_set() == adj[u as int],
                                cur == parts.len() - 1,
                                cur == connected_components@.len(),
                                labelled(n as nat, new_index@, comp_of, parts),
                                reached(n as nat, new_index@, order),
                                parts[cur].len() <= order.len(),
                                forall|c: int|
                                    0 <= c < cur ==> (#[trigger] connected_components@[c]).wf() && is_component(
                                        adj,
                                        parts[c],
                                        connected_components@[c]@,
                                    ),
                                forall|x: int| 0 <= x < v ==> (#[trigger] new_index@[x]) is Some,
                                new_index@[v as int] is Some,
                                ordered_parts(parts),
                                parts[cur][0] == v,
                                new_index@[u as int] == Some(ui),
                                comp_of[u as int] == cur,
                                exploring(adj, new_index@, comp_of, parts, component@, handled),
                                rooted(component@),
                                waiting(n as nat, new_index@, comp_of, cur, queue@),
                                forall|i: int|
                                    0 <= i < parts[cur].len() ==> handled.contains(#[trigger] parts[cur][i])
                                        || queue@.contains(parts[cur][i]) || parts[cur][i] == u,
                                forall|k: int|
                                    0 <= k < t ==> (#[trigger] nb@[k]) < n && new_index@[nb@[k] as int] is Some
                                        && comp_of[nb@[k] as int] == cur && component@[ui as int].contains(
                                        new_index@[nb@[k] as int].unwrap(),
                                    ),
                                2 * (n - order.len()) + queue@.len() < measure,
                            decreases nb@.len() - t,
                        {
                            let w = nb[t];
                            let ghost fresh = new_index@[w as int] is None;
                            let ghost index0 = new_index@;
                            let ghost comp0 = comp_of;
                            let ghost parts0 = parts;
                            let ghost sub0 = component@;
                            let ghost queue0 = queue@;
                            proof {
                                assert(nb@.to_set().contains(w));
                                assert(adj[u as int].contains(w));
                                assert(adj[w as int].contains(u));
                                assert(parts0[cur][ui as int] == u);
                            }
                            if new_index[w].is_none() {
                                proof {
                                    if order.contains(w) {
                                        let k = choose|k: int| 0 <= k < order.len() && order[k] == w;
                                        assert(new_index@[order[k] as int] is Some);
                                    }
                                    lemma_push_no_duplicates(order, w);
                                    lemma_pigeonhole(order.push(w), n as nat);
                                    let len = component@.len();
                                    assert((len + 1) * (len + 1) <= n * n) by (nonlinear_arith)
                                        requires
                                            len + 1 <= n,
                                    ;
                                }
                                let wi = component.add_vertex();
                                new_index[w] = Some(wi);
                                queue.push(w);
                                proof {
                                    comp_of = comp_of.update(w as int, cur);
                                    parts = parts.update(cur, parts[cur].push(w));
                                    order = order.push(w);
                                    lemma_push_contains(queue0, w);
                                    assert(parts[cur][wi as int] == w);
                                    assert forall|c: int, i: int|
                                        0 <= c < parts.len() && 0 <= i < parts[c].len() implies (#[trigger] parts[c][i])
                                        < n && new_index@[parts[c][i] as int] is Some
                                        && new_index@[parts[c][i] as int].unwrap() == i && comp_of[parts[c][i] as int]
                                        == c by {
                                        if c == cur && i == wi {
                                        } else {
                                            assert(parts[c][i] == parts0[c][i]);
                                            assert(index0[parts0[c][i] as int] is Some);
                                        }
                                    }
                                    assert(labelled(n as nat, new_index@, comp_of, parts));
                                    assert(extends(sub0, component@));
                                }
                            } else {
                                proof {
                                    let c = comp_of[w as int];
                                    if c != cur {
                                        let i = new_index@[w as int].unwrap() as int;
                                        assert(parts[c][i] == w);
                                        assert(is_component(adj, parts[c], connected_components@[c]@));
                                        assert(adj[parts[c][i] as int].contains(u));
                                        assert(parts[c].contains(u));
                                        let j = choose|j: int| 0 <= j < parts[c].len() && parts[c][j] == u;
                                        assert(comp_of[parts[c][j] as int] == c);
                                    }
                                }
                            }
                            let ghost sub1 = component@;
                            let wj = new_index[w].unwrap();
                            proof {
                                assert(extends(sub0, sub1));
                                assert(parts[cur][wj as int] == w);
                                assert(parts[cur][ui as int] == u);
                                assert(ui != wj);
                                lemma_edge_change(sub1, ui, wj);
                            }
                            component.add_edge(ui, wj);
                            proof {
                                let sub2 = component@;
                                assert(extends(sub0, sub2));
                                assert(extends(sub1, sub2));
                                assert(sub2[ui as int].contains(wj));
                                assert forall|i: usize| i < sub2.len() implies connected(sub2, 0, i) by {
                                    if i < sub0.len() {
                                        lemma_connected_extends(sub0, sub2, 0, i);
                                    } else {
                                        assert(i == wj);
                                        lemma_connected_extends(sub0, sub2, 0, ui);
                                        lemma_connected_arc(sub2, ui, wj);
                                        lemma_connected_trans(sub2, 0, ui, wj);
                                    }
                                }
                                assert forall|i: int, j: usize| 0 <= i < sub2.len() && #[trigger] sub2[i].contains(
                                    j,
                                ) implies j < sub2.len() && adj[parts[cur][i] as int].contains(parts[cur][j as int]) by {
                                    if sub1[i].contains(j) {
                                        assert(i < sub0.len());
                                        assert(sub0[i].contains(j));
                                        assert(parts[cur][i] == parts0[cur][i]);
                                        assert(parts[cur][j as int] == parts0[cur][j as int]);
                                    }
                                }
                                assert forall|p: usize, x: usize|
                                    handled.contains(p) && #[trigger] adj[p as int].contains(x) implies new_index@[x as int] is Some
                                    && comp_of[x as int] == cur && sub2[new_index@[p as int].unwrap() as int].contains(
                                    new_index@[x as int].unwrap(),
                                ) by {
                                    assert(index0[x as int] is Some);
                                    assert(sub0[index0[p as int].unwrap() as int].contains(index0[x as int].unwrap()));
                                }
                                assert forall|k: int| 0 <= k < t + 1 implies (#[trigger] nb@[k]) < n
                                    && new_index@[nb@[k] as int] is Some && comp_of[nb@[k] as int] == cur
                                    && sub2[ui as int].contains(new_index@[nb@[k] as int].unwrap()) by {
                                    if k < t {
                                        assert(index0[nb@[k] as int] is Some);
                                        assert(sub0[ui as int].contains(index0[nb@[k] as int].unwrap()));
                                        assert(new_index@[nb@[k] as int] == index0[nb@[k] as int]);
                                    } else {
                                        assert(nb@[k] == w);
                                    }
                                }
                                assert forall|i: int| 0 <= i < parts[cur].len() implies handled.contains(
                                    #[trigger] parts[cur][i],
                                ) || queue@.contains(parts[cur][i]) || parts[cur][i] == u by {
                                    if i < parts0[cur].len() {
                                        assert(parts[cur][i] == parts0[cur][i]);
                                        if queue0.contains(parts0[cur][i]) && fresh {
                                            lemma_push_contains(queue0, w);
                                        }
                                    } else {
                                        lemma_push_contains(queue0, w);
                                    }
                                }
                                assert forall|c: int| 0 <= c < cur implies (#[trigger] connected_components@[c]).wf()
                                    && is_component(adj, parts[c], connected_components@[c]@) by {
                                    assert(parts[c] == parts0[c]);
                                }
                            }
                            t += 1;
                        }
                        proof {
                            handled = handled.insert(u);
                            assert forall|p: usize, x: usize|
                                handled.contains(p) && #[trigger] adj[p as int].contains(x) implies new_index@[x as int] is Some
                                && comp_of[x as int] == cur && component@[new_index@[p as int].unwrap() as int].contains(
                                new_index@[x as int].unwrap(),
                            ) by {
                                if p == u {
                                    assert(nb@.to_set().contains(x));
                                    let k = choose|k: int| 0 <= k < nb@.len() && nb@[k] == x;
                                    assert(nb@[k] < n);
                                }
                            }
                        }
                    },
                }
            }
            proof {
                let part = parts[cur];
                let sub = component@;
                assert forall|i: int| 0 <= i < part.len() implies handled.contains(#[trigger] part[i]) by {
                    if queue@.contains(part[i]) {
                    }
                }
                assert forall|i: int, j: int| 0 <= i < part.len() && 0 <= j < part.len() implies (#[trigger] sub[i].contains(
                    j as usize,
                ) <==> adj[part[i] as int].contains(part[j])) by {
                    assert(handled.contains(part[i]));
                    assert(new_index@[part[i] as int].unwrap() == i);
                    assert(new_index@[part[j] as int].unwrap() == j);
                }
                assert forall|i: int, w: usize| 0 <= i < part.len() && #[trigger] adj[part[i] as int].contains(
                    w,
                ) implies part.contains(w) by {
                    assert(handled.contains(part[i]));
                    assert(new_index@[w as int] is Some);
                    assert(parts[comp_of[w as int]][new_index@[w as int].unwrap() as int] == w);
                }
                assert(is_component(adj, part, sub));
            }
            connected_components.push(component);
        }
        v += 1;
    }
    proof {
        assert forall|v: usize| v < n implies #[trigger] in_some_part(parts, v) by {
            assert(new_index@[v as int] is Some);
            let c = comp_of[v as int];
            let i = new_index@[v as int].unwrap() as int;
            assert(parts[c][i] == v);
        }
        assert forall|c: int, i: int, d: int, j: int|
            0 <= c < parts.len() && 0 <= i < parts[c].len() && 0 <= d < parts.len() && 0 <= j < parts[d].len()
                && #[trigger] parts[c][i] == #[trigger] parts[d][j] implies c == d && i == j by {
            assert(comp_of[parts[c][i] as int] == c);
            assert(comp_of[parts[d][j] as int] == d);
            assert(new_index@[parts[c][i] as int].unwrap() == i);
            assert(new_index@[parts[d][j] as int].unwrap() == j);
        }
        assert(is_partition(n as nat, parts));
        assert(split_into(*graph, connected_components@, parts));
    }
    connected_components
}

} // verus!
