//! Why the seeds are right: a round keeps the vertices of every component of
//! the graph joined, so that when no vertex is left in the working graph,
//! the vertices of a component hang below one root.

use crate::components::{final_forest, labeling};
use crate::graph::{closed_under_edges, has_edge, symmetric};
use crate::minimum::inhabited;
use crate::prune::{attaches, deactivated, kept_edge, out_min, pr_edge, pr_emits};
use crate::rounds::{
    forest_after, lemma_ep_descending, lemma_measure_bound, lemma_out_min, lemma_round_count, lemma_round_keeps,
    lemma_v_min, measure,
    next_forest, next_graph, no_vertices, round_inv,
};
use crate::seeds::{downward, has_parent, parent, seed_of};
use crate::select::{ep_edge, ep_emits, ep_graph, ep_via, v_min};
use vstd::prelude::*;

verus! {

/// A walk of `n` edges leads from `p` to `q`.
pub open spec fn reach(g: Map<u32, Set<u32>>, p: u32, q: u32, n: nat) -> bool
    decreases n,
{
    if n == 0 {
        p == q
    } else {
        exists|mid: u32| has_edge(g, p, mid) && reach(g, mid, q, (n - 1) as nat)
    }
}

/// Some walk leads from `p` to `q`: they are in the same component.
pub open spec fn connected(g: Map<u32, Set<u32>>, p: u32, q: u32) -> bool {
    exists|n: nat| reach(g, p, q, n)
}

/// Walks can be joined.
pub proof fn lemma_reach_join(g: Map<u32, Set<u32>>, p: u32, q: u32, r: u32, n: nat, m: nat)
    requires
        reach(g, p, q, n),
        reach(g, q, r, m),
    ensures
        reach(g, p, r, n + m),
    decreases n,
{
    if n > 0 {
        let mid = choose|mid: u32| has_edge(g, p, mid) && reach(g, mid, q, (n - 1) as nat);
        lemma_reach_join(g, mid, q, r, (n - 1) as nat, m);
        assert(has_edge(g, p, mid) && reach(g, mid, r, (n + m - 1) as nat));
    }
}

/// Being connected is transitive.
pub proof fn lemma_connected_join(g: Map<u32, Set<u32>>, p: u32, q: u32, r: u32)
    requires
        connected(g, p, q),
        connected(g, q, r),
    ensures
        connected(g, p, r),
{
    let n = choose|n: nat| reach(g, p, q, n);
    let m = choose|m: nat| reach(g, q, r, m);
    lemma_reach_join(g, p, q, r, n, m);
}

/// The ends of an edge are connected.
pub proof fn lemma_edge_connects(g: Map<u32, Set<u32>>, p: u32, q: u32)
    requires
        has_edge(g, p, q),
    ensures
        connected(g, p, q),
{
    assert(reach(g, q, q, 0));
    assert(has_edge(g, p, q) && reach(g, q, q, (1 - 1) as nat));
    assert(reach(g, p, q, 1));
}

/// A graph without vertices connects a vertex to itself only.
pub proof fn lemma_reach_in_empty(g: Map<u32, Set<u32>>, p: u32, q: u32, n: nat)
    requires
        no_vertices(g),
        reach(g, p, q, n),
    ensures
        p == q,
    decreases n,
{
    if n > 0 {
        let mid = choose|mid: u32| has_edge(g, p, mid) && reach(g, mid, q, (n - 1) as nat);
        assert(g.contains_key(p));
    }
}

/// A walk from a vertex of a valid graph ends in a vertex of the graph.
pub proof fn lemma_reach_stays(g: Map<u32, Set<u32>>, p: u32, q: u32, n: nat)
    requires
        closed_under_edges(g),
        g.contains_key(p),
        reach(g, p, q, n),
    ensures
        g.contains_key(q),
    decreases n,
{
    if n > 0 {
        let mid = choose|mid: u32| has_edge(g, p, mid) && reach(g, mid, q, (n - 1) as nat);
        lemma_reach_stays(g, mid, q, (n - 1) as nat);
    }
}

/// What a vertex of a valid graph is connected to is a vertex of the graph.
pub proof fn lemma_connected_stays(g: Map<u32, Set<u32>>, p: u32, q: u32)
    requires
        closed_under_edges(g),
        g.contains_key(p),
        connected(g, p, q),
    ensures
        g.contains_key(q),
{
    let n = choose|n: nat| reach(g, p, q, n);
    lemma_reach_stays(g, p, q, n);
}

/// A vertex that min-selection gives an edge to also gets an edge to
/// itself, so pruning does not deactivate it.
pub proof fn lemma_target_has_loop(g: Map<u32, Set<u32>>, u: u32, v: u32)
    requires
        closed_under_edges(g),
        symmetric(g),
        has_edge(ep_graph(g), u, v),
    ensures
        has_edge(ep_graph(g), v, v),
        !deactivated(ep_graph(g), v),
{
    assert(ep_edge(g, u, v));
    let w = choose|w: u32| g.contains_key(w) && #[trigger] ep_emits(g, w, u, v);
    lemma_v_min(g, w);
    assert(g[w].insert(w).contains(v_min(g, w)));
    if v_min(g, w) != w && u == w && v == v_min(g, w) {
        assert(g[w].contains(v));
        assert(ep_via(g, w, v, v, v));
        assert(ep_emits(g, w, v, v));
    } else {
        let z = choose|z: u32| g[w].contains(z) && #[trigger] ep_via(g, w, z, u, v);
        assert(has_edge(g, w, z));
        assert(has_edge(g, z, w));
        assert(g.contains_key(z));
        lemma_v_min(g, z);
        assert(g[z].insert(z).contains(v_min(g, z)));
        assert(g[w].insert(w).contains(z));
        assert(g[z].insert(z).contains(w));
        if v_min(g, w) == w {
            if v_min(g, z) == w {
                if z == w {
                    assert(ep_via(g, w, w, w, w));
                    assert(ep_emits(g, w, w, w));
                } else {
                    assert(g[z].contains(w));
                    assert(ep_via(g, z, w, w, w));
                    assert(ep_emits(g, z, w, w));
                }
            } else {
                assert(v == v_min(g, z));
                assert(v_min(g, z) != z);
                assert(g[z].contains(v));
                assert(ep_via(g, z, v, v, v));
                assert(ep_emits(g, z, v, v));
            }
        } else {
            assert(g[w].contains(v));
            assert(ep_via(g, w, v, v, v));
            assert(ep_emits(g, w, v, v));
        }
    }
    assert(ep_edge(g, v, v));
    assert(ep_edge(g, v, v) || ep_edge(g, v, v));
    assert(ep_graph(g).contains_key(v));
}

/// Of two neighbors, min-selection points both at the minimum of the
/// larger one.
pub proof fn lemma_shared_target(g: Map<u32, Set<u32>>, x: u32, y: u32)
    requires
        closed_under_edges(g),
        symmetric(g),
        has_edge(g, x, y),
        x < y,
    ensures
        has_edge(ep_graph(g), x, v_min(g, y)),
        has_edge(ep_graph(g), y, v_min(g, y)),
{
    let c = v_min(g, y);
    lemma_v_min(g, y);
    assert(has_edge(g, y, x));
    assert(g[y].insert(y).contains(x));
    assert(c != y);
    assert(ep_emits(g, y, y, c));
    assert(ep_via(g, y, x, x, c));
    assert(ep_emits(g, y, x, c));
    assert(ep_edge(g, y, c));
    assert(ep_edge(g, x, c));
    assert(ep_edge(g, y, c) || ep_edge(g, c, y));
    assert(ep_edge(g, x, c) || ep_edge(g, c, x));
}

/// Where a round leaves `x`: below the smallest vertex it pointed at if
/// it was deactivated, else in its place.
pub open spec fn top(g: Map<u32, Set<u32>>, x: u32) -> u32 {
    if deactivated(ep_graph(g), x) {
        out_min(ep_graph(g), x)
    } else {
        x
    }
}

/// Two vertices that some vertex points at after min-selection are
/// connected in the next working graph.
pub proof fn lemma_star(g: Map<u32, Set<u32>>, u: u32, a: u32, b: u32)
    requires
        closed_under_edges(g),
        symmetric(g),
        has_edge(ep_graph(g), u, a),
        has_edge(ep_graph(g), u, b),
    ensures
        connected(next_graph(g), a, b),
{
    let h = ep_graph(g);
    let n = next_graph(g);
    let m = out_min(h, u);
    lemma_out_min(h, u, a);
    lemma_target_has_loop(g, u, a);
    lemma_target_has_loop(g, u, b);
    lemma_target_has_loop(g, u, m);
    assert(reach(n, m, m, 0));
    assert(reach(n, b, b, 0));
    if a != m {
        assert(pr_emits(h, u, a, m));
        assert(pr_edge(h, a, m));
        assert(pr_edge(h, a, m) || pr_edge(h, m, a));
        assert(pr_edge(h, m, a) || pr_edge(h, a, m));
        assert(kept_edge(h, false, a, m));
        assert(has_edge(n, a, m));
        lemma_edge_connects(n, a, m);
    } else {
        assert(connected(n, a, m));
    }
    if b != m {
        assert(pr_emits(h, u, b, m));
        assert(pr_edge(h, b, m));
        assert(pr_edge(h, m, b) || pr_edge(h, b, m));
        assert(pr_edge(h, b, m) || pr_edge(h, m, b));
        assert(kept_edge(h, false, m, b));
        assert(has_edge(n, m, b));
        lemma_edge_connects(n, m, b);
    } else {
        assert(connected(n, m, b));
    }
    lemma_connected_join(n, a, m, b);
}

/// After min-selection a vertex with a neighbor points at the place where
/// the round leaves it.
pub proof fn lemma_points_at_top(g: Map<u32, Set<u32>>, x: u32, y: u32)
    requires
        closed_under_edges(g),
        symmetric(g),
        has_edge(g, x, y),
    ensures
        has_edge(ep_graph(g), x, top(g, x)),
{
    let h = ep_graph(g);
    lemma_v_min(g, x);
    assert(has_edge(g, y, x));
    if x < y {
        lemma_shared_target(g, x, y);
    } else if y < x {
        lemma_shared_target(g, y, x);
    } else {
        assert(g[x].insert(x).contains(v_min(g, x)));
        if v_min(g, x) == x {
            assert(ep_via(g, x, x, x, x));
            assert(ep_emits(g, x, x, x));
        } else {
            assert(ep_emits(g, x, x, v_min(g, x)));
        }
        assert(ep_edge(g, x, v_min(g, x)));
        assert(ep_edge(g, x, v_min(g, x)) || ep_edge(g, v_min(g, x), x));
        assert(has_edge(h, x, v_min(g, x)));
    }
    let c = choose|c: u32| has_edge(h, x, c);
    assert(h[x].contains(c));
    assert(inhabited(h[x]));
    if deactivated(h, x) {
        lemma_out_min(h, x, c);
    }
}

/// A round keeps neighbors together: the places where it leaves the two
/// ends of an edge are connected in the next working graph.
pub proof fn lemma_round_joins_edge(g: Map<u32, Set<u32>>, x: u32, y: u32)
    requires
        closed_under_edges(g),
        symmetric(g),
        has_edge(g, x, y),
    ensures
        connected(next_graph(g), top(g, x), top(g, y)),
{
    let n = next_graph(g);
    if x == y {
        assert(reach(n, top(g, x), top(g, x), 0));
    } else {
        assert(has_edge(g, y, x));
        lemma_points_at_top(g, x, y);
        lemma_points_at_top(g, y, x);
        let c = if x < y {
            v_min(g, y)
        } else {
            v_min(g, x)
        };
        if x < y {
            lemma_shared_target(g, x, y);
        } else {
            lemma_shared_target(g, y, x);
        }
        lemma_star(g, x, top(g, x), c);
        lemma_star(g, y, c, top(g, y));
        lemma_connected_join(n, top(g, x), c, top(g, y));
    }
}

/// A round keeps walks together.
pub proof fn lemma_round_joins_walk(g: Map<u32, Set<u32>>, p: u32, q: u32, n: nat)
    requires
        closed_under_edges(g),
        symmetric(g),
        reach(g, p, q, n),
    ensures
        connected(next_graph(g), top(g, p), top(g, q)),
    decreases n,
{
    if n == 0 {
        assert(reach(next_graph(g), top(g, p), top(g, q), 0));
    } else {
        let mid = choose|mid: u32| has_edge(g, p, mid) && reach(g, mid, q, (n - 1) as nat);
        lemma_round_joins_edge(g, p, mid);
        lemma_round_joins_walk(g, mid, q, (n - 1) as nat);
        lemma_connected_join(next_graph(g), top(g, p), top(g, mid), top(g, q));
    }
}

/// The seed of a vertex after a round is the place where the round leaves
/// its seed of before.
pub proof fn lemma_seed_after_round(g: Map<u32, Set<u32>>, t: Map<u32, Set<u32>>, a: u32)
    requires
        round_inv(g, t),
    ensures
        seed_of(next_forest(g, t), a) == top(g, seed_of(t, a)),
    decreases a,
{
    let h = ep_graph(g);
    let f = next_forest(g, t);
    lemma_round_keeps(g, t);
    lemma_ep_descending(g);
    if has_parent(t, a) {
        let p = parent(t, a);
        assert(has_edge(t, p, a));
        assert(has_edge(f, p, a));
        assert(has_parent(f, a));
        assert(has_edge(f, parent(f, a), a));
        assert(parent(f, a) == p);
        assert(p < a);
        lemma_seed_after_round(g, t, p);
        assert(seed_of(t, a) == seed_of(t, p));
        assert(seed_of(f, a) == seed_of(f, p));
    } else if deactivated(h, a) {
        let m = out_min(h, a);
        let c = choose|c: u32| h[a].contains(c);
        lemma_out_min(h, a, c);
        assert(attaches(h, m, a));
        assert(has_edge(f, m, a));
        assert(has_parent(f, a));
        assert(has_edge(f, parent(f, a), a));
        assert(parent(f, a) == m);
        assert(m < a);
        lemma_target_has_loop(g, a, m);
        assert(h.contains_key(m));
        assert(g.contains_key(m));
        if has_parent(f, m) {
            let q = choose|q: u32| has_edge(f, q, m);
            assert(has_edge(t, q, m) || attaches(h, q, m));
            assert(false);
        }
        assert(seed_of(t, a) == a);
        assert(seed_of(f, m) == m);
        assert(seed_of(f, a) == seed_of(f, m));
        assert(top(g, a) == m);
    } else {
        if has_parent(f, a) {
            let q = choose|q: u32| has_edge(f, q, a);
            assert(has_edge(t, q, a) || attaches(h, q, a));
            assert(has_parent(t, a));
            assert(false);
        }
        assert(seed_of(t, a) == a);
        assert(seed_of(f, a) == a);
    }
}

/// The seeds of the two ends of every edge of `g0` are connected in `g`.
pub open spec fn joins(g0: Map<u32, Set<u32>>, g: Map<u32, Set<u32>>, t: Map<u32, Set<u32>>) -> bool {
    forall|a: u32, b: u32| #[trigger] has_edge(g0, a, b) ==> connected(g, seed_of(t, a), seed_of(t, b))
}

/// A round keeps the seeds of neighbors connected.
pub proof fn lemma_round_joins(g0: Map<u32, Set<u32>>, g: Map<u32, Set<u32>>, t: Map<u32, Set<u32>>)
    requires
        round_inv(g, t),
        joins(g0, g, t),
    ensures
        joins(g0, next_graph(g), next_forest(g, t)),
{
    assert forall|a: u32, b: u32| #[trigger] has_edge(g0, a, b) implies connected(
        next_graph(g),
        seed_of(next_forest(g, t), a),
        seed_of(next_forest(g, t), b),
    ) by {
        lemma_seed_after_round(g, t, a);
        lemma_seed_after_round(g, t, b);
        let n = choose|n: nat| reach(g, seed_of(t, a), seed_of(t, b), n);
        lemma_round_joins_walk(g, seed_of(t, a), seed_of(t, b), n);
    }
}

/// When the rounds end, the two ends of every edge have the same seed.
pub proof fn lemma_rounds_join(g0: Map<u32, Set<u32>>, g: Map<u32, Set<u32>>, t: Map<u32, Set<u32>>, rounds: nat)
    requires
        round_inv(g, t),
        joins(g0, g, t),
        g.dom().finite(),
        measure(g) <= rounds,
    ensures
        forall|a: u32, b: u32| #[trigger]
            has_edge(g0, a, b) ==> seed_of(forest_after(g, t, rounds), a) == seed_of(
                forest_after(g, t, rounds),
                b,
            ),
    decreases rounds,
{
    if !no_vertices(g) && rounds == 0 {
        g.dom().lemma_len0_is_empty();
        assert(!g.dom().contains(choose|w: u32| g.contains_key(w)));
    }
    if no_vertices(g) {
        assert forall|a: u32, b: u32| #[trigger] has_edge(g0, a, b) implies seed_of(t, a) == seed_of(t, b) by {
            let n = choose|n: nat| reach(g, seed_of(t, a), seed_of(t, b), n);
            lemma_reach_in_empty(g, seed_of(t, a), seed_of(t, b), n);
        }
    } else {
        lemma_round_keeps(g, t);
        lemma_round_count(g);
        lemma_round_joins(g0, g, t);
        lemma_rounds_join(g0, next_graph(g), next_forest(g, t), (rounds - 1) as nat);
    }
}

/// Vertices on one walk have the same seed.
pub proof fn lemma_walk_same_seed(g: Map<u32, Set<u32>>, u: u32, v: u32, n: nat)
    requires
        closed_under_edges(g),
        symmetric(g),
        g.dom().finite(),
        reach(g, u, v, n),
    ensures
        seed_of(final_forest(g), u) == seed_of(final_forest(g), v),
    decreases n,
{
    if n > 0 {
        let empty = Map::<u32, Set<u32>>::empty();
        let mid = choose|mid: u32| has_edge(g, u, mid) && reach(g, mid, v, (n - 1) as nat);
        assert(round_inv(g, empty));
        assert(joins(g, g, empty)) by {
            assert forall|a: u32, b: u32| #[trigger] has_edge(g, a, b) implies connected(
                g,
                seed_of(empty, a),
                seed_of(empty, b),
            ) by {
                lemma_edge_connects(g, a, b);
            }
        }
        lemma_measure_bound(g);
        lemma_rounds_join(g, g, empty, 2 * g.dom().len());
        lemma_walk_same_seed(g, mid, v, (n - 1) as nat);
    }
}

/// Two vertices of one component have the same seed, and that seed is not
/// above any vertex of the component.
pub proof fn lemma_component_has_one_seed(g: Map<u32, Set<u32>>, u: u32, v: u32)
    requires
        closed_under_edges(g),
        symmetric(g),
        g.dom().finite(),
        g.contains_key(u),
        g.contains_key(v),
        connected(g, u, v),
    ensures
        labeling(g)[u] == labeling(g)[v],
        labeling(g)[u] <= v,
{
    let n = choose|n: nat| reach(g, u, v, n);
    lemma_walk_same_seed(g, u, v, n);
    crate::laws::lemma_final_forest_shape(g);
    crate::laws::lemma_seed_is_root(final_forest(g), v);
}

/// In an undirected graph a walk can be taken backward.
pub proof fn lemma_reach_back(g: Map<u32, Set<u32>>, p: u32, q: u32, n: nat)
    requires
        symmetric(g),
        reach(g, p, q, n),
    ensures
        reach(g, q, p, n),
    decreases n,
{
    if n > 0 {
        let mid = choose|mid: u32| has_edge(g, p, mid) && reach(g, mid, q, (n - 1) as nat);
        lemma_reach_back(g, mid, q, (n - 1) as nat);
        assert(has_edge(g, mid, p));
        assert(reach(g, p, p, 0));
        assert(has_edge(g, mid, p) && reach(g, p, p, (1 - 1) as nat));
        assert(reach(g, mid, p, 1));
        lemma_reach_join(g, q, mid, p, (n - 1) as nat, 1);
    }
}

/// In an undirected graph being connected is symmetric.
pub proof fn lemma_connected_back(g: Map<u32, Set<u32>>, p: u32, q: u32)
    requires
        symmetric(g),
        connected(g, p, q),
    ensures
        connected(g, q, p),
{
    let n = choose|n: nat| reach(g, p, q, n);
    lemma_reach_back(g, p, q, n);
}

/// Every edge of `g` joins vertices that `g0` connects.
pub open spec fn edges_within(g: Map<u32, Set<u32>>, g0: Map<u32, Set<u32>>) -> bool {
    forall|a: u32, b: u32| #[trigger] has_edge(g, a, b) ==> connected(g0, a, b)
}

/// Where every edge of `g` stays within a component of `g0`, so does
/// every walk.
pub proof fn lemma_walk_within(g: Map<u32, Set<u32>>, g0: Map<u32, Set<u32>>, p: u32, q: u32, n: nat)
    requires
        edges_within(g, g0),
        reach(g, p, q, n),
    ensures
        connected(g0, p, q),
    decreases n,
{
    if n == 0 {
        assert(reach(g0, p, q, 0));
    } else {
        let mid = choose|mid: u32| has_edge(g, p, mid) && reach(g, mid, q, (n - 1) as nat);
        lemma_walk_within(g, g0, mid, q, (n - 1) as nat);
        lemma_connected_join(g0, p, mid, q);
    }
}

/// Min-selection emits edges within the components of the graph.
pub proof fn lemma_ep_within(g: Map<u32, Set<u32>>)
    requires
        closed_under_edges(g),
        symmetric(g),
    ensures
        edges_within(ep_graph(g), g),
{
    assert forall|a: u32, b: u32| #[trigger] has_edge(ep_graph(g), a, b) implies connected(g, a, b) by {
        assert(ep_edge(g, a, b));
        let w = choose|w: u32| g.contains_key(w) && #[trigger] ep_emits(g, w, a, b);
        lemma_v_min(g, w);
        assert(g[w].insert(w).contains(v_min(g, w)));
        assert(reach(g, a, a, 0));
        if v_min(g, w) != w {
            assert(has_edge(g, w, v_min(g, w)));
            lemma_edge_connects(g, w, v_min(g, w));
        }
        if v_min(g, w) != w && a == w && b == v_min(g, w) {
        } else {
            let z = choose|z: u32| g[w].contains(z) && #[trigger] ep_via(g, w, z, a, b);
            assert(has_edge(g, w, z));
            assert(has_edge(g, z, w));
            lemma_edge_connects(g, w, z);
            lemma_edge_connects(g, z, w);
            lemma_v_min(g, z);
            assert(g[z].insert(z).contains(v_min(g, z)));
            assert(g.contains_key(z));
            if v_min(g, z) != z {
                assert(has_edge(g, z, v_min(g, z)));
                lemma_edge_connects(g, z, v_min(g, z));
            } else {
                assert(reach(g, z, v_min(g, z), 0));
            }
            assert(connected(g, z, v_min(g, z)));
            if v_min(g, w) == w {
                if v_min(g, z) != w {
                    if a == w {
                        lemma_connected_join(g, w, z, v_min(g, z));
                    }
                }
            } else {
                lemma_connected_join(g, z, w, v_min(g, w));
            }
        }
    }
}

/// A round keeps the working graph and the forest within the components
/// of the graph it started from.
pub proof fn lemma_round_within(g0: Map<u32, Set<u32>>, g: Map<u32, Set<u32>>, t: Map<u32, Set<u32>>)
    requires
        symmetric(g0),
        closed_under_edges(g),
        symmetric(g),
        edges_within(g, g0),
        edges_within(t, g0),
    ensures
        edges_within(next_graph(g), g0),
        edges_within(next_forest(g, t), g0),
{
    let h = ep_graph(g);
    lemma_ep_within(g);
    assert forall|a: u32, b: u32| #[trigger] has_edge(h, a, b) implies connected(g0, a, b) by {
        let n = choose|n: nat| reach(g, a, b, n);
        lemma_walk_within(g, g0, a, b, n);
    }
    assert forall|u: u32, a: u32, b: u32| has_edge(h, u, a) && has_edge(h, u, b) implies connected(g0, a, b) by {
        lemma_connected_back(g0, u, a);
        lemma_connected_join(g0, a, u, b);
    }
    assert forall|a: u32, b: u32| #[trigger] has_edge(next_graph(g), a, b) implies connected(g0, a, b) by {
        if pr_edge(h, a, b) {
            let u = choose|u: u32| #[trigger] pr_emits(h, u, a, b);
            lemma_out_min(h, u, a);
            assert(has_edge(h, u, a) && has_edge(h, u, b));
        } else {
            assert(pr_edge(h, b, a));
            let u = choose|u: u32| #[trigger] pr_emits(h, u, b, a);
            lemma_out_min(h, u, b);
            assert(has_edge(h, u, a) && has_edge(h, u, b));
        }
    }
    assert forall|a: u32, b: u32| #[trigger] has_edge(next_forest(g, t), a, b) implies connected(g0, a, b) by {
        if !has_edge(t, a, b) {
            assert(attaches(h, a, b));
            let c = choose|c: u32| h[b].contains(c);
            lemma_out_min(h, b, c);
            assert(has_edge(h, b, a));
            lemma_connected_back(g0, b, a);
        }
    }
}

/// Whatever the number of rounds, the forest stays within the components
/// of the graph that the rounds started from.
pub proof fn lemma_rounds_within(g0: Map<u32, Set<u32>>, g: Map<u32, Set<u32>>, t: Map<u32, Set<u32>>, rounds: nat)
    requires
        symmetric(g0),
        round_inv(g, t),
        edges_within(g, g0),
        edges_within(t, g0),
    ensures
        edges_within(forest_after(g, t, rounds), g0),
    decreases rounds,
{
    if rounds == 0 || no_vertices(g) {
    } else {
        lemma_round_keeps(g, t);
        lemma_round_within(g0, g, t);
        lemma_rounds_within(g0, next_graph(g), next_forest(g, t), (rounds - 1) as nat);
    }
}

/// In a forest within the components of `g0`, a vertex and its seed are in
/// one component.
pub proof fn lemma_seed_within(g0: Map<u32, Set<u32>>, t: Map<u32, Set<u32>>, u: u32)
    requires
        symmetric(g0),
        edges_within(t, g0),
    ensures
        connected(g0, u, seed_of(t, u)),
    decreases u,
{
    if has_parent(t, u) {
        let p = parent(t, u);
        assert(has_edge(t, p, u));
        lemma_connected_back(g0, p, u);
        if p < u {
            lemma_seed_within(g0, t, p);
            lemma_connected_join(g0, u, p, seed_of(t, p));
        }
    } else {
        assert(reach(g0, u, u, 0));
    }
}

/// The seed of a vertex is in the component of the vertex.
pub proof fn lemma_seed_in_component(g: Map<u32, Set<u32>>, u: u32)
    requires
        closed_under_edges(g),
        symmetric(g),
        g.contains_key(u),
    ensures
        connected(g, u, labeling(g)[u]),
{
    let empty = Map::<u32, Set<u32>>::empty();
    assert(round_inv(g, empty));
    assert(edges_within(g, g)) by {
        assert forall|a: u32, b: u32| #[trigger] has_edge(g, a, b) implies connected(g, a, b) by {
            lemma_edge_connects(g, a, b);
        }
    }
    assert(edges_within(empty, g));
    lemma_rounds_within(g, g, empty, 2 * g.dom().len());
    lemma_seed_within(g, final_forest(g), u);
}

/// Component correctness: two vertices have the same seed if and only if
/// they are in the same component.
pub proof fn lemma_same_seed_iff_connected(g: Map<u32, Set<u32>>, u: u32, v: u32)
    requires
        closed_under_edges(g),
        symmetric(g),
        g.dom().finite(),
        g.contains_key(u),
        g.contains_key(v),
    ensures
        labeling(g)[u] == labeling(g)[v] <==> connected(g, u, v),
{
    if connected(g, u, v) {
        lemma_component_has_one_seed(g, u, v);
    }
    if labeling(g)[u] == labeling(g)[v] {
        lemma_seed_in_component(g, u);
        lemma_seed_in_component(g, v);
        lemma_connected_back(g, v, labeling(g)[v]);
        lemma_connected_join(g, u, labeling(g)[u], v);
    }
}

/// Representative minimality: the seed of a vertex is the smallest vertex
/// of its component.
pub proof fn lemma_seed_is_component_minimum(g: Map<u32, Set<u32>>, u: u32)
    requires
        closed_under_edges(g),
        symmetric(g),
        g.dom().finite(),
        g.contains_key(u),
    ensures
        g.contains_key(labeling(g)[u]),
        connected(g, u, labeling(g)[u]),
        forall|w: u32| connected(g, u, w) ==> labeling(g)[u] <= w,
{
    lemma_seed_in_component(g, u);
    crate::laws::lemma_seed_idempotent(g, u);
    assert forall|w: u32| connected(g, u, w) implies labeling(g)[u] <= w by {
        lemma_connected_stays(g, u, w);
        lemma_component_has_one_seed(g, u, w);
    }
}

/// One root per component: a vertex without a predecessor in the final
/// forest is the seed of every vertex of its component.
pub proof fn lemma_one_root_per_component(g: Map<u32, Set<u32>>, u: u32, r: u32)
    requires
        closed_under_edges(g),
        symmetric(g),
        g.dom().finite(),
        g.contains_key(u),
        g.contains_key(r),
        connected(g, u, r),
        !has_parent(final_forest(g), r),
    ensures
        r == labeling(g)[u],
        !has_parent(final_forest(g), labeling(g)[u]),
{
    lemma_component_has_one_seed(g, u, r);
    crate::laws::lemma_final_forest_shape(g);
    crate::laws::lemma_seed_is_root(final_forest(g), u);
}

/// A walk along edges that lead from smaller to larger vertices ends above
/// its start.
pub proof fn lemma_downward_walk(t: Map<u32, Set<u32>>, p: u32, q: u32, n: nat)
    requires
        downward(t),
        reach(t, p, q, n),
        n > 0,
    ensures
        p < q,
    decreases n,
{
    let mid = choose|mid: u32| has_edge(t, p, mid) && reach(t, mid, q, (n - 1) as nat);
    if n > 1 {
        lemma_downward_walk(t, mid, q, (n - 1) as nat);
    }
}

/// The final forest is acyclic: no walk of one edge or more returns to its
/// start.
pub proof fn lemma_final_forest_acyclic(g: Map<u32, Set<u32>>, u: u32, n: nat)
    requires
        closed_under_edges(g),
        symmetric(g),
        n > 0,
    ensures
        !reach(final_forest(g), u, u, n),
{
    crate::laws::lemma_final_forest_shape(g);
    if reach(final_forest(g), u, u, n) {
        lemma_downward_walk(final_forest(g), u, u, n);
    }
}

} // verus!
