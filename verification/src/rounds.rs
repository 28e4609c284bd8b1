//! What one round of min-selection and pruning does to the working graph
//! and to the forest.

use crate::graph::{closed_under_edges, has_edge, symmetric};
use crate::minimum::{inhabited, is_min_of, lemma_max_exists, lemma_min_exists};
use crate::prune::{
    attaches, deactivated, emitted_end, grown_forest, is_seed, kept_edge, out_min, pr_edge, pr_emits,
    pruned_graph,
};
use crate::seeds::{downward, has_parent, single_parent};
use crate::select::{ep_edge, ep_emits, ep_graph, ep_via, v_min};
use vstd::prelude::*;

verus! {

/// The working graph after one round.
pub open spec fn next_graph(g: Map<u32, Set<u32>>) -> Map<u32, Set<u32>> {
    pruned_graph(ep_graph(g), false)
}

/// The forest after one round.
pub open spec fn next_forest(g: Map<u32, Set<u32>>, t: Map<u32, Set<u32>>) -> Map<u32, Set<u32>> {
    grown_forest(t, ep_graph(g))
}

/// No edge leads to a larger vertex.
pub open spec fn descending(h: Map<u32, Set<u32>>) -> bool {
    forall|a: u32, b: u32| #[trigger] has_edge(h, a, b) ==> b <= a
}

/// No vertex of `g` has a predecessor in `t`.
pub open spec fn unattached(g: Map<u32, Set<u32>>, t: Map<u32, Set<u32>>) -> bool {
    forall|p: u32, u: u32| g.contains_key(u) ==> !#[trigger] has_edge(t, p, u)
}

/// The minimum of a closed neighborhood is in it and below its members.
pub proof fn lemma_v_min(g: Map<u32, Set<u32>>, u: u32)
    ensures
        is_min_of(v_min(g, u), g[u].insert(u)),
        v_min(g, u) <= u,
{
    lemma_min_exists(g[u].insert(u), u);
}

/// Min-selection of a symmetric graph emits edges between vertices of the
/// graph only, none of them toward a larger vertex.
pub proof fn lemma_ep_descending(g: Map<u32, Set<u32>>)
    requires
        closed_under_edges(g),
        symmetric(g),
    ensures
        descending(ep_graph(g)),
        closed_under_edges(ep_graph(g)),
        forall|a: u32| ep_graph(g).contains_key(a) ==> g.contains_key(a),
{
    let h = ep_graph(g);
    assert forall|a: u32, b: u32| ep_edge(g, a, b) implies b <= a && g.contains_key(a) && g.contains_key(b) by {
        let u = choose|u: u32| g.contains_key(u) && #[trigger] ep_emits(g, u, a, b);
        lemma_v_min(g, u);
        assert(g[u].insert(u).contains(v_min(g, u)));
        if v_min(g, u) != u {
            assert(has_edge(g, u, v_min(g, u)));
            assert(g.contains_key(v_min(g, u)));
        }
        if v_min(g, u) != u && a == u && b == v_min(g, u) {
        } else {
            let z = choose|z: u32| g[u].contains(z) && #[trigger] ep_via(g, u, z, a, b);
            assert(has_edge(g, u, z));
            assert(has_edge(g, z, u));
            assert(g.contains_key(z));
            lemma_v_min(g, z);
            assert(g[u].insert(u).contains(z));
            assert(g[z].insert(z).contains(u));
            assert(g[z].insert(z).contains(v_min(g, z)));
            assert(v_min(g, u) <= z);
            assert(v_min(g, z) <= u);
            if v_min(g, z) != z {
                assert(has_edge(g, z, v_min(g, z)));
                assert(g.contains_key(v_min(g, z)));
            }
        }
    }
    assert forall|a: u32, b: u32| #[trigger] has_edge(h, a, b) implies b <= a && h.contains_key(b) by {
        assert(ep_edge(g, a, b));
        assert(ep_edge(g, a, b) || ep_edge(g, b, a));
    }
    assert forall|a: u32| h.contains_key(a) implies g.contains_key(a) by {
        let b = choose|b: u32| ep_edge(g, a, b) || ep_edge(g, b, a);
    }
}

/// The smallest vertex that `u` points at is one that it points at.
pub proof fn lemma_out_min(h: Map<u32, Set<u32>>, u: u32, x: u32)
    requires
        has_edge(h, u, x),
    ensures
        is_min_of(out_min(h, u), h[u]),
        has_edge(h, u, out_min(h, u)),
{
    lemma_min_exists(h[u], x);
}

/// Pruning keeps only vertices that were there and were not deactivated.
pub proof fn lemma_pruned_nodes(h: Map<u32, Set<u32>>, directed: bool)
    requires
        closed_under_edges(h),
    ensures
        forall|a: u32|
            pruned_graph(h, directed).contains_key(a) ==> h.contains_key(a) && !deactivated(h, a),
{
    assert forall|a: u32| pruned_graph(h, directed).contains_key(a) implies h.contains_key(a) by {
        if emitted_end(h, a) {
            let b = choose|b: u32| pr_edge(h, a, b) || pr_edge(h, b, a);
            if pr_edge(h, a, b) {
                let u = choose|u: u32| #[trigger] pr_emits(h, u, a, b);
                assert(has_edge(h, u, a));
            } else {
                let u = choose|u: u32| #[trigger] pr_emits(h, u, b, a);
                lemma_out_min(h, u, b);
                assert(has_edge(h, u, a));
            }
        } else {
            assert(is_seed(h, a));
        }
    }
}

/// The forest keeps its shape: where no vertex of the pruned graph is
/// attached yet and no edge of that graph leads to a larger vertex, every
/// vertex of the grown forest still has at most one predecessor, and every
/// edge still leads from a smaller vertex to a larger one.
pub proof fn lemma_forest_shape(t: Map<u32, Set<u32>>, h: Map<u32, Set<u32>>)
    requires
        single_parent(t),
        downward(t),
        unattached(h, t),
        descending(h),
    ensures
        single_parent(grown_forest(t, h)),
        downward(grown_forest(t, h)),
{
    let f = grown_forest(t, h);
    assert forall|p: u32, u: u32| #[trigger] has_edge(f, p, u) implies (has_edge(t, p, u) && !deactivated(h, u)) || (
    !has_parent(t, u) && attaches(h, p, u) && p < u) by {
        if has_edge(t, p, u) {
            assert(!h.contains_key(u));
        } else {
            assert(attaches(h, p, u));
            let x = choose|x: u32| h[u].contains(x);
            lemma_out_min(h, u, x);
            assert(has_edge(h, u, p));
            if has_parent(t, u) {
                let q = choose|q: u32| has_edge(t, q, u);
                assert(false);
            }
        }
    }
    assert forall|p: u32, q: u32, u: u32| #[trigger] has_edge(f, p, u) && #[trigger] has_edge(f, q, u) implies p
        == q by {
        if has_edge(t, p, u) {
            assert(has_parent(t, u));
        }
        if has_edge(t, q, u) {
            assert(has_parent(t, u));
        }
    }
}

/// `u` is a vertex of `g` with a neighbor.
pub open spec fn has_neighbor(g: Map<u32, Set<u32>>, u: u32) -> bool {
    g.contains_key(u) && inhabited(g[u])
}

/// The vertices of `g` that have a neighbor.
pub open spec fn linked_vertices(g: Map<u32, Set<u32>>) -> Set<u32> {
    Set::new(|u: u32| has_neighbor(g, u))
}

/// What every round makes smaller: the number of vertices and the number
/// of vertices with a neighbor, together.
pub open spec fn measure(g: Map<u32, Set<u32>>) -> nat {
    g.dom().len() + linked_vertices(g).len()
}

/// Min-selection emits edges between vertices that have a neighbor only.
pub proof fn lemma_ep_linked(g: Map<u32, Set<u32>>)
    requires
        closed_under_edges(g),
        symmetric(g),
    ensures
        forall|a: u32| ep_graph(g).contains_key(a) ==> has_neighbor(g, a),
{
    assert forall|a: u32, b: u32| ep_edge(g, a, b) implies has_neighbor(g, a) && has_neighbor(g, b) by {
        let u = choose|u: u32| g.contains_key(u) && #[trigger] ep_emits(g, u, a, b);
        lemma_v_min(g, u);
        assert(g[u].insert(u).contains(v_min(g, u)));
        if v_min(g, u) != u {
            assert(has_edge(g, u, v_min(g, u)));
            assert(has_edge(g, v_min(g, u), u));
            assert(g[u].contains(v_min(g, u)));
            assert(g[v_min(g, u)].contains(u));
            assert(has_neighbor(g, u) && has_neighbor(g, v_min(g, u)));
        }
        if v_min(g, u) != u && a == u && b == v_min(g, u) {
        } else {
            let z = choose|z: u32| g[u].contains(z) && #[trigger] ep_via(g, u, z, a, b);
            assert(has_edge(g, u, z));
            assert(has_edge(g, z, u));
            assert(g[z].contains(u));
            assert(has_neighbor(g, u) && has_neighbor(g, z));
            lemma_v_min(g, z);
            assert(g[z].insert(z).contains(v_min(g, z)));
            if v_min(g, z) != z {
                assert(has_edge(g, z, v_min(g, z)));
                assert(has_edge(g, v_min(g, z), z));
                assert(g[v_min(g, z)].contains(z));
                assert(has_neighbor(g, v_min(g, z)));
            }
        }
    }
    assert forall|a: u32| ep_graph(g).contains_key(a) implies has_neighbor(g, a) by {
        let b = choose|b: u32| ep_edge(g, a, b) || ep_edge(g, b, a);
    }
}

/// After a round the largest vertex that had a neighbor has none, and no
/// vertex is there that had none.
pub proof fn lemma_round_shrinks(g: Map<u32, Set<u32>>, x: u32)
    requires
        closed_under_edges(g),
        symmetric(g),
        has_neighbor(g, x),
        forall|y: u32| has_neighbor(g, y) ==> y <= x,
    ensures
        !has_neighbor(next_graph(g), x),
        forall|a: u32| next_graph(g).contains_key(a) ==> has_neighbor(g, a),
{
    let h = ep_graph(g);
    let n = next_graph(g);
    lemma_ep_descending(g);
    lemma_ep_linked(g);
    lemma_pruned_nodes(h, false);
    if has_neighbor(n, x) {
        let b = choose|b: u32| n[x].contains(b);
        assert(kept_edge(h, false, x, b));
        if pr_edge(h, b, x) {
            let u = choose|u: u32| #[trigger] pr_emits(h, u, b, x);
            lemma_out_min(h, u, b);
            assert(has_edge(h, u, b));
            assert(h.contains_key(b));
            assert(has_neighbor(g, b));
            assert(h[u].contains(b));
            assert(x <= b);
            assert(false);
        } else {
            assert(pr_edge(h, x, b));
            let u = choose|u: u32| #[trigger] pr_emits(h, u, x, b);
            lemma_out_min(h, u, x);
            assert(has_edge(h, u, x));
            assert(h.contains_key(u));
            assert(has_neighbor(g, u));
            assert(x <= u);
            assert(u == x);
            assert(has_edge(h, x, b));
            assert(b < x);
            assert(ep_edge(g, x, x));
            lemma_self_edge_of_largest(g, x);
            assert(ep_edge(g, x, b));
            lemma_out_of_lonely(g, x, b);
            assert(false);
        }
    }
    assert forall|a: u32| n.contains_key(a) implies has_neighbor(g, a) by {
        assert(h.contains_key(a));
    }
}

/// Where min-selection gives the largest vertex that has a neighbor an edge
/// to itself, that vertex has no neighbor but itself.
proof fn lemma_self_edge_of_largest(g: Map<u32, Set<u32>>, x: u32)
    requires
        closed_under_edges(g),
        symmetric(g),
        g.contains_key(x),
        forall|y: u32| has_neighbor(g, y) ==> y <= x,
        ep_edge(g, x, x),
    ensures
        forall|z: u32| g[x].contains(z) ==> z == x,
{
    let w = choose|w: u32| g.contains_key(w) && #[trigger] ep_emits(g, w, x, x);
    lemma_v_min(g, w);
    lemma_v_min(g, x);
    if !(v_min(g, w) != w && x == w && x == v_min(g, w)) {
        let z = choose|z: u32| g[w].contains(z) && #[trigger] ep_via(g, w, z, x, x);
        assert(has_edge(g, w, z));
        assert(has_edge(g, z, w));
        assert(g.contains_key(z));
        assert(g[z].contains(w));
        assert(has_neighbor(g, w) && has_neighbor(g, z));
        lemma_v_min(g, z);
        assert(v_min(g, x) == x);
    }
    assert(v_min(g, x) == x);
    assert forall|z: u32| g[x].contains(z) implies z == x by {
        assert(has_edge(g, x, z));
        assert(has_edge(g, z, x));
        assert(g[z].contains(x));
        assert(has_neighbor(g, z));
        assert(g[x].insert(x).contains(z));
    }
}

/// Min-selection gives a vertex that has no neighbor but itself no edge to
/// another vertex.
proof fn lemma_out_of_lonely(g: Map<u32, Set<u32>>, x: u32, b: u32)
    requires
        closed_under_edges(g),
        symmetric(g),
        g.contains_key(x),
        forall|z: u32| g[x].contains(z) ==> z == x,
        ep_edge(g, x, b),
    ensures
        b == x,
{
    let w = choose|w: u32| g.contains_key(w) && #[trigger] ep_emits(g, w, x, b);
    lemma_v_min(g, w);
    lemma_v_min(g, x);
    assert(v_min(g, x) == x);
    if !(v_min(g, w) != w && x == w && b == v_min(g, w)) {
        let z = choose|z: u32| g[w].contains(z) && #[trigger] ep_via(g, w, z, x, b);
        assert(has_edge(g, w, z));
        assert(has_edge(g, z, w));
        lemma_v_min(g, z);
    }
}

/// What holds of the working graph and the forest before every round: the
/// graph is a valid undirected graph, the forest leads from smaller to
/// larger vertices with at most one predecessor each, and no vertex of the
/// graph is attached yet.
pub open spec fn round_inv(g: Map<u32, Set<u32>>, t: Map<u32, Set<u32>>) -> bool {
    &&& closed_under_edges(g)
    &&& symmetric(g)
    &&& single_parent(t)
    &&& downward(t)
    &&& unattached(g, t)
}

/// A round keeps what holds before every round, and brings no vertex into
/// the graph or the forest that the graph did not hold.
pub proof fn lemma_round_keeps(g: Map<u32, Set<u32>>, t: Map<u32, Set<u32>>)
    requires
        round_inv(g, t),
    ensures
        round_inv(next_graph(g), next_forest(g, t)),
        forall|a: u32| next_graph(g).contains_key(a) ==> g.contains_key(a),
        forall|a: u32| next_forest(g, t).contains_key(a) ==> t.contains_key(a) || g.contains_key(a),
{
    let h = ep_graph(g);
    let n = next_graph(g);
    let f = next_forest(g, t);
    lemma_ep_descending(g);
    lemma_pruned_nodes(h, false);
    assert(unattached(h, t)) by {
        assert forall|p: u32, u: u32| h.contains_key(u) implies !#[trigger] has_edge(t, p, u) by {
            assert(g.contains_key(u));
        }
    }
    lemma_forest_shape(t, h);
    assert forall|a: u32, b: u32| #[trigger] has_edge(n, a, b) implies n.contains_key(b) && has_edge(n, b, a) by {
        assert(pr_edge(h, a, b) || pr_edge(h, b, a));
        assert(pr_edge(h, b, a) || pr_edge(h, a, b));
    }
    assert forall|a: u32| n.contains_key(a) implies g.contains_key(a) by {
        assert(h.contains_key(a));
    }
    assert forall|p: u32, u: u32| n.contains_key(u) implies !#[trigger] has_edge(f, p, u) by {
        assert(h.contains_key(u) && !deactivated(h, u));
        assert(g.contains_key(u));
        if has_edge(f, p, u) {
            assert(has_edge(t, p, u) || attaches(h, p, u));
        }
    }
    assert forall|a: u32| f.contains_key(a) implies t.contains_key(a) || g.contains_key(a) by {
        if !t.contains_key(a) && !deactivated(h, a) {
            let b = choose|b: u32| attaches(h, a, b);
            let x = choose|x: u32| h[b].contains(x);
            lemma_out_min(h, b, x);
            assert(has_edge(h, b, a));
            assert(h.contains_key(a));
        }
    }
}

/// `g` has no vertex.
pub open spec fn no_vertices(g: Map<u32, Set<u32>>) -> bool {
    forall|u: u32| !g.contains_key(u)
}

/// The forest after at most `rounds` rounds that start from the working
/// graph `g` and the forest `t`, and stop when the graph has no vertex.
pub open spec fn forest_after(g: Map<u32, Set<u32>>, t: Map<u32, Set<u32>>, rounds: nat) -> Map<u32, Set<u32>>
    decreases rounds,
{
    if rounds == 0 || no_vertices(g) {
        t
    } else {
        forest_after(next_graph(g), next_forest(g, t), (rounds - 1) as nat)
    }
}

/// The working graph after at most `rounds` rounds.
pub open spec fn graph_after(g: Map<u32, Set<u32>>, rounds: nat) -> Map<u32, Set<u32>>
    decreases rounds,
{
    if rounds == 0 || no_vertices(g) {
        g
    } else {
        graph_after(next_graph(g), (rounds - 1) as nat)
    }
}

/// The measure of a graph is at most twice the number of its vertices.
pub proof fn lemma_measure_bound(g: Map<u32, Set<u32>>)
    requires
        g.dom().finite(),
    ensures
        linked_vertices(g).finite(),
        measure(g) <= 2 * g.dom().len(),
{
    assert(linked_vertices(g).subset_of(g.dom()));
    vstd::set_lib::lemma_len_subset(linked_vertices(g), g.dom());
}

/// A round on a graph that has a vertex makes the measure smaller.
pub proof fn lemma_round_count(g: Map<u32, Set<u32>>)
    requires
        closed_under_edges(g),
        symmetric(g),
        g.dom().finite(),
        !no_vertices(g),
    ensures
        next_graph(g).dom().finite(),
        measure(next_graph(g)) < measure(g),
{
    let n = next_graph(g);
    let l = linked_vertices(g);
    lemma_measure_bound(g);
    lemma_ep_descending(g);
    lemma_ep_linked(g);
    lemma_pruned_nodes(ep_graph(g), false);
    assert forall|a: u32| n.contains_key(a) implies has_neighbor(g, a) by {
        assert(ep_graph(g).contains_key(a));
    }
    assert(n.dom().subset_of(l));
    vstd::set_lib::lemma_len_subset(n.dom(), l);
    lemma_measure_bound(n);
    if exists|w: u32| l.contains(w) {
        let w = choose|w: u32| l.contains(w);
        let x = lemma_max_exists(l, w, u32::MAX);
        assert forall|y: u32| has_neighbor(g, y) implies y <= x by {
            assert(l.contains(y));
        }
        lemma_round_shrinks(g, x);
        assert(linked_vertices(n).subset_of(l.remove(x)));
        vstd::set_lib::lemma_len_subset(linked_vertices(n), l.remove(x));
    } else {
        assert(l =~= Set::<u32>::empty());
        assert(n.dom() =~= Set::<u32>::empty());
        assert(linked_vertices(n) =~= Set::<u32>::empty());
        let v = choose|v: u32| g.contains_key(v);
        assert(g.dom().contains(v));
        assert(g.dom().len() == g.dom().remove(v).len() + 1);
    }
}

/// The driver loop ends: after as many rounds as the measure of the graph,
/// which is at most twice the number of its vertices, no vertex is left.
pub proof fn lemma_rounds_suffice(g: Map<u32, Set<u32>>, rounds: nat)
    requires
        closed_under_edges(g),
        symmetric(g),
        g.dom().finite(),
        measure(g) <= rounds,
    ensures
        no_vertices(graph_after(g, rounds)),
    decreases rounds,
{
    if no_vertices(g) {
    } else if rounds == 0 {
        g.dom().lemma_len0_is_empty();
        assert(!g.dom().contains(choose|w: u32| g.contains_key(w)));
    } else {
        lemma_round_count(g);
        lemma_round_keeps(g, Map::<u32, Set<u32>>::empty());
        lemma_rounds_suffice(next_graph(g), (rounds - 1) as nat);
    }
}

/// Whatever the number of rounds, the forest keeps its shape and holds no
/// vertex that the graph or the forest did not hold at the start.
pub proof fn lemma_forest_after(g: Map<u32, Set<u32>>, t: Map<u32, Set<u32>>, rounds: nat)
    requires
        round_inv(g, t),
    ensures
        single_parent(forest_after(g, t, rounds)),
        downward(forest_after(g, t, rounds)),
        forall|a: u32| forest_after(g, t, rounds).contains_key(a) ==> t.contains_key(a) || g.contains_key(a),
    decreases rounds,
{
    if rounds == 0 || no_vertices(g) {
    } else {
        lemma_round_keeps(g, t);
        lemma_forest_after(next_graph(g), next_forest(g, t), (rounds - 1) as nat);
    }
}

} // verus!
