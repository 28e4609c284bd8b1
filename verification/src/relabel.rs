//! Renaming the vertices in a way that keeps their order renames the seeds
//! in the same way.

use crate::components::{edges_graph, labeling};
use crate::connectivity::{connected, lemma_seed_is_component_minimum, reach};
use crate::graph::{closed_under_edges, has_edge, lemma_with_edge_edges, symmetric, with_edge};
use crate::laws::lemma_edges_graph_valid;
use vstd::prelude::*;

verus! {

/// `f` keeps the order of the vertices of `g`.
pub open spec fn increasing(g: Map<u32, Set<u32>>, f: spec_fn(u32) -> u32) -> bool {
    forall|a: u32, b: u32| g.contains_key(a) && g.contains_key(b) && a < b ==> #[trigger] f(a) < #[trigger] f(b)
}

/// The graph `g` with every vertex `u` renamed to `f(u)`.
pub open spec fn renamed(g: Map<u32, Set<u32>>, f: spec_fn(u32) -> u32) -> Map<u32, Set<u32>> {
    Map::new(
        |x: u32| exists|u: u32| g.contains_key(u) && f(u) == x,
        |x: u32| Set::new(|y: u32| exists|u: u32, v: u32| has_edge(g, u, v) && f(u) == x && f(v) == y),
    )
}

/// Renaming keeps the vertices and the edges apart, and a valid graph valid.
pub proof fn lemma_renamed_valid(g: Map<u32, Set<u32>>, f: spec_fn(u32) -> u32)
    requires
        closed_under_edges(g),
        symmetric(g),
        g.dom().finite(),
        increasing(g, f),
    ensures
        closed_under_edges(renamed(g, f)),
        symmetric(renamed(g, f)),
        renamed(g, f).dom().finite(),
        forall|u: u32| g.contains_key(u) ==> #[trigger] renamed(g, f).contains_key(f(u)),
        forall|u: u32, v: u32|
            g.contains_key(u) && g.contains_key(v) ==> (has_edge(g, u, v) <==> #[trigger] has_edge(
                renamed(g, f),
                f(u),
                f(v),
            )),
{
    let r = renamed(g, f);
    assert forall|a: u32, b: u32| g.contains_key(a) && g.contains_key(b) && #[trigger] f(a) == #[trigger] f(b) implies a
        == b by {
        if a < b {
            assert(f(a) < f(b));
        }
        if b < a {
            assert(f(b) < f(a));
        }
    }
    assert forall|u: u32, v: u32| g.contains_key(u) && g.contains_key(v) implies (has_edge(g, u, v)
        <==> #[trigger] has_edge(r, f(u), f(v))) by {
        if has_edge(r, f(u), f(v)) && g.contains_key(u) && g.contains_key(v) {
            let (a, b) = choose|a: u32, b: u32| has_edge(g, a, b) && f(a) == f(u) && f(b) == f(v);
            assert(g.contains_key(a) && g.contains_key(b));
            assert(a == u && b == v);
        }
        if has_edge(g, u, v) {
            assert(r.contains_key(f(u)));
        }
    }
    assert forall|x: u32, y: u32| #[trigger] has_edge(r, x, y) implies r.contains_key(y) && has_edge(r, y, x) by {
        let (a, b) = choose|a: u32, b: u32| has_edge(g, a, b) && f(a) == x && f(b) == y;
        assert(has_edge(g, b, a));
        assert(g.contains_key(b));
        assert(has_edge(r, f(b), f(a)));
    }
    g.dom().lemma_map_finite(f);
    assert(r.dom() =~= g.dom().map(f));
}

/// A walk stays a walk when the vertices are renamed.
pub proof fn lemma_walk_renamed(g: Map<u32, Set<u32>>, f: spec_fn(u32) -> u32, p: u32, q: u32, n: nat)
    requires
        closed_under_edges(g),
        symmetric(g),
        g.dom().finite(),
        increasing(g, f),
        reach(g, p, q, n),
    ensures
        reach(renamed(g, f), f(p), f(q), n),
    decreases n,
{
    if n > 0 {
        let mid = choose|mid: u32| has_edge(g, p, mid) && reach(g, mid, q, (n - 1) as nat);
        lemma_walk_renamed(g, f, mid, q, (n - 1) as nat);
        lemma_renamed_valid(g, f);
        assert(has_edge(renamed(g, f), f(p), f(mid)));
    }
}

/// A walk between renamed vertices comes from a walk between the vertices.
pub proof fn lemma_walk_unrenamed(g: Map<u32, Set<u32>>, f: spec_fn(u32) -> u32, p: u32, y: u32, n: nat) -> (q:
    u32)
    requires
        closed_under_edges(g),
        symmetric(g),
        g.dom().finite(),
        increasing(g, f),
        g.contains_key(p),
        reach(renamed(g, f), f(p), y, n),
    ensures
        y == f(q),
        g.contains_key(q),
        reach(g, p, q, n),
    decreases n,
{
    let r = renamed(g, f);
    lemma_renamed_valid(g, f);
    if n == 0 {
        p
    } else {
        let x = f(p);
        let mid = choose|mid: u32| has_edge(r, x, mid) && reach(r, mid, y, (n - 1) as nat);
        let (a, b) = choose|a: u32, b: u32| has_edge(g, a, b) && f(a) == f(p) && f(b) == mid;
        assert(has_edge(r, f(a), f(b)));
        assert(has_edge(r, f(p), f(b)));
        assert(has_edge(g, p, b));
        assert(g.contains_key(b));
        let q = lemma_walk_unrenamed(g, f, b, y, (n - 1) as nat);
        assert(has_edge(g, p, b) && reach(g, b, q, (n - 1) as nat));
        q
    }
}

/// Renaming the vertices by a function that keeps their order renames the
/// seeds by the same function.
pub proof fn lemma_seeds_follow_renaming(g: Map<u32, Set<u32>>, f: spec_fn(u32) -> u32, u: u32)
    requires
        closed_under_edges(g),
        symmetric(g),
        g.dom().finite(),
        increasing(g, f),
        g.contains_key(u),
    ensures
        renamed(g, f).contains_key(f(u)),
        labeling(renamed(g, f))[f(u)] == f(labeling(g)[u]),
{
    let r = renamed(g, f);
    let s = labeling(g)[u];
    let t = labeling(r)[f(u)];
    lemma_renamed_valid(g, f);
    lemma_seed_is_component_minimum(g, u);
    lemma_seed_is_component_minimum(r, f(u));
    let n = choose|n: nat| reach(g, u, s, n);
    lemma_walk_renamed(g, f, u, s, n);
    assert(connected(r, f(u), f(s)));
    assert(r.contains_key(f(s)));
    assert(t <= f(s));
    let x = f(u);
    let m = choose|m: nat| reach(r, x, t, m);
    let q = lemma_walk_unrenamed(g, f, u, t, m);
    assert(connected(g, u, q));
    assert(s <= q);
    if s < q {
        assert(f(s) < f(q));
    }
}

/// The edge list with every vertex `u` renamed to `f(u)`.
pub open spec fn renamed_edges(edges: Seq<(u32, u32)>, f: spec_fn(u32) -> u32) -> Seq<(u32, u32)> {
    Seq::new(edges.len(), |i: int| (f(edges[i].0), f(edges[i].1)))
}

/// Adding an edge and renaming can be done in either order.
pub proof fn lemma_with_edge_renamed(g: Map<u32, Set<u32>>, f: spec_fn(u32) -> u32, u: u32, v: u32)
    ensures
        with_edge(renamed(g, f), f(u), f(v), false) == renamed(with_edge(g, u, v, false), f),
{
    let r = renamed(g, f);
    let left = with_edge(r, f(u), f(v), false);
    let grown = with_edge(g, u, v, false);
    let right = renamed(grown, f);
    lemma_with_edge_edges(r, f(u), f(v), false);
    lemma_with_edge_edges(g, u, v, false);
    assert forall|x: u32| left.contains_key(x) <==> right.contains_key(x) by {
        if left.contains_key(x) {
            if r.contains_key(x) {
                let w = choose|w: u32| g.contains_key(w) && f(w) == x;
                assert(grown.contains_key(w) && f(w) == x);
            } else if x == f(u) {
                assert(grown.contains_key(u) && f(u) == x);
            } else {
                assert(grown.contains_key(v) && f(v) == x);
            }
        }
        if right.contains_key(x) {
            let w = choose|w: u32| grown.contains_key(w) && f(w) == x;
            if g.contains_key(w) {
                assert(r.contains_key(x));
            }
        }
    }
    assert forall|x: u32, y: u32| has_edge(left, x, y) <==> has_edge(right, x, y) by {
        if has_edge(left, x, y) {
            if has_edge(r, x, y) {
                let (a, b) = choose|a: u32, b: u32| has_edge(g, a, b) && f(a) == x && f(b) == y;
                assert(has_edge(grown, a, b) && f(a) == x && f(b) == y);
                assert(grown.contains_key(a) && f(a) == x);
            } else if x == f(u) && y == f(v) {
                assert(has_edge(grown, u, v) && f(u) == x && f(v) == y);
                assert(grown.contains_key(u) && f(u) == x);
            } else {
                assert(has_edge(grown, v, u) && f(v) == x && f(u) == y);
                assert(grown.contains_key(v) && f(v) == x);
            }
        }
        if has_edge(right, x, y) {
            let (a, b) = choose|a: u32, b: u32| has_edge(grown, a, b) && f(a) == x && f(b) == y;
            if has_edge(g, a, b) {
                assert(g.contains_key(a) && f(a) == x);
                assert(has_edge(r, x, y));
            }
        }
    }
    assert forall|x: u32| left.contains_key(x) implies left[x] =~= right[x] by {
        assert forall|y: u32| left[x].contains(y) <==> right[x].contains(y) by {
            assert(has_edge(left, x, y) <==> has_edge(right, x, y));
        }
    }
    assert(left =~~= right);
}

/// The graph of a renamed edge list is the renamed graph of the edge list.
pub proof fn lemma_edges_renamed(edges: Seq<(u32, u32)>, f: spec_fn(u32) -> u32)
    ensures
        edges_graph(renamed_edges(edges, f)) == renamed(edges_graph(edges), f),
    decreases edges.len(),
{
    let moved = renamed_edges(edges, f);
    if edges.len() == 0 {
        assert(renamed(edges_graph(edges), f) =~~= Map::<u32, Set<u32>>::empty());
    } else {
        lemma_edges_renamed(edges.drop_last(), f);
        assert(moved.drop_last() =~= renamed_edges(edges.drop_last(), f));
        assert(moved.last() == (f(edges.last().0), f(edges.last().1)));
        lemma_with_edge_renamed(edges_graph(edges.drop_last()), f, edges.last().0, edges.last().1);
    }
}

/// The graph of an edge list has finitely many vertices.
pub proof fn lemma_edges_graph_finite(edges: Seq<(u32, u32)>)
    ensures
        edges_graph(edges).dom().finite(),
    decreases edges.len(),
{
    if edges.len() > 0 {
        let g = edges_graph(edges.drop_last());
        lemma_edges_graph_finite(edges.drop_last());
        lemma_with_edge_edges(g, edges.last().0, edges.last().1, false);
        assert(edges_graph(edges).dom() =~= g.dom().insert(edges.last().0).insert(edges.last().1));
    } else {
        assert(edges_graph(edges).dom() =~= Set::<u32>::empty());
    }
}

/// The same edge list with its vertices renamed by a function that keeps
/// their order gives the same seeds, renamed by that function.
pub proof fn lemma_renamed_edges_renamed_seeds(edges: Seq<(u32, u32)>, f: spec_fn(u32) -> u32, u: u32)
    requires
        increasing(edges_graph(edges), f),
        edges_graph(edges).contains_key(u),
    ensures
        edges_graph(renamed_edges(edges, f)).contains_key(f(u)),
        labeling(edges_graph(renamed_edges(edges, f)))[f(u)] == f(labeling(edges_graph(edges))[u]),
{
    lemma_edges_renamed(edges, f);
    lemma_edges_graph_valid(edges);
    lemma_edges_graph_finite(edges);
    lemma_seeds_follow_renaming(edges_graph(edges), f, u);
}

} // verus!
