//! What holds of the seeds, of the forest and of the graph of an edge list.

use crate::components::{edges_graph, final_forest, labeling};
use crate::graph::{closed_under_edges, has_edge, lemma_with_edge_edges, lemma_with_edge_keeps, symmetric, with_edge};
use crate::rounds::{lemma_forest_after, round_inv};
use crate::seeds::{downward, has_parent, parent, seed_of, single_parent};
use vstd::prelude::*;

verus! {

/// In a forest whose edges lead from smaller to larger vertices, the seed of
/// a vertex is not above it, has no predecessor, is a vertex of the forest
/// if the vertex is one, and is its own seed.
pub proof fn lemma_seed_is_root(t: Map<u32, Set<u32>>, u: u32)
    requires
        downward(t),
    ensures
        seed_of(t, u) <= u,
        !has_parent(t, seed_of(t, u)),
        t.contains_key(u) ==> t.contains_key(seed_of(t, u)),
        seed_of(t, seed_of(t, u)) == seed_of(t, u),
    decreases u,
{
    if has_parent(t, u) {
        let p = parent(t, u);
        assert(has_edge(t, p, u));
        lemma_seed_is_root(t, p);
    }
}

/// The graph of an edge list is a valid undirected graph.
pub proof fn lemma_edges_graph_valid(edges: Seq<(u32, u32)>)
    ensures
        closed_under_edges(edges_graph(edges)),
        symmetric(edges_graph(edges)),
    decreases edges.len(),
{
    if edges.len() > 0 {
        lemma_edges_graph_valid(edges.drop_last());
        lemma_with_edge_keeps(edges_graph(edges.drop_last()), edges.last().0, edges.last().1, false);
    }
}

/// The forest that the rounds leave has the shape of a forest: every vertex
/// has at most one predecessor, every edge leads from a smaller vertex to a
/// larger one, so that no path returns to its start, and every vertex of the
/// forest is a vertex of the graph.
pub proof fn lemma_final_forest_shape(g: Map<u32, Set<u32>>)
    requires
        closed_under_edges(g),
        symmetric(g),
    ensures
        single_parent(final_forest(g)),
        downward(final_forest(g)),
        forall|a: u32| final_forest(g).contains_key(a) ==> g.contains_key(a),
{
    let empty = Map::<u32, Set<u32>>::empty();
    assert(round_inv(g, empty));
    lemma_forest_after(g, empty, 2 * g.dom().len());
}

/// Seeds are fixed points: the seed of a vertex is a vertex of the graph,
/// is not above the vertex, and is its own seed.
pub proof fn lemma_seed_idempotent(g: Map<u32, Set<u32>>, u: u32)
    requires
        closed_under_edges(g),
        symmetric(g),
        g.contains_key(u),
    ensures
        labeling(g).contains_key(labeling(g)[u]),
        labeling(g)[u] <= u,
        labeling(g)[labeling(g)[u]] == labeling(g)[u],
{
    lemma_final_forest_shape(g);
    lemma_seed_is_root(final_forest(g), u);
    let s = seed_of(final_forest(g), u);
    if s != u {
        assert(has_parent(final_forest(g), u));
        assert(has_edge(final_forest(g), parent(final_forest(g), u), u));
        assert(final_forest(g).contains_key(parent(final_forest(g), u)));
        lemma_seed_is_root(final_forest(g), parent(final_forest(g), u));
    }
}

/// The same edges, each the other way round.
pub open spec fn reversed(edges: Seq<(u32, u32)>) -> Seq<(u32, u32)> {
    Seq::new(edges.len(), |i: int| (edges[i].1, edges[i].0))
}

/// The graph of an edge list holds each listed edge in both directions.
pub proof fn lemma_edges_graph_holds(edges: Seq<(u32, u32)>, i: int)
    requires
        0 <= i < edges.len(),
    ensures
        has_edge(edges_graph(edges), edges[i].0, edges[i].1),
        has_edge(edges_graph(edges), edges[i].1, edges[i].0),
    decreases edges.len(),
{
    let rest = edges.drop_last();
    lemma_with_edge_edges(edges_graph(rest), edges.last().0, edges.last().1, false);
    if i < edges.len() - 1 {
        lemma_edges_graph_holds(rest, i);
    }
}

/// Adding an edge that an undirected graph holds in both directions changes
/// nothing.
pub proof fn lemma_with_edge_again(g: Map<u32, Set<u32>>, u: u32, v: u32)
    requires
        has_edge(g, u, v),
        has_edge(g, v, u),
    ensures
        with_edge(g, u, v, false) == g,
{
    assert(g[u].insert(v) =~= g[u]);
    assert(g.insert(u, g[u]) =~= g);
    assert(g[v].insert(u) =~= g[v]);
    assert(g.insert(v, g[v]) =~= g);
    assert(with_edge(g, u, v, false) =~= g);
}

/// Listing the first `k` edges a second time, the other way round, gives
/// the same graph.
pub proof fn lemma_doubled_prefix(edges: Seq<(u32, u32)>, k: int)
    requires
        0 <= k <= edges.len(),
    ensures
        edges_graph(edges + reversed(edges).take(k)) == edges_graph(edges),
    decreases k,
{
    let r = reversed(edges);
    if k == 0 {
        assert(edges + r.take(0) =~= edges);
    } else {
        lemma_doubled_prefix(edges, k - 1);
        let all = edges + r.take(k);
        assert(all.drop_last() =~= edges + r.take(k - 1));
        assert(all.last() == (edges[k - 1].1, edges[k - 1].0));
        lemma_edges_graph_holds(edges, k - 1);
        lemma_with_edge_again(edges_graph(edges), edges[k - 1].1, edges[k - 1].0);
    }
}

/// Listing every edge a second time, the other way round, gives the same
/// graph, and so the same seeds.
pub proof fn lemma_doubled_edges(edges: Seq<(u32, u32)>)
    ensures
        edges_graph(edges + reversed(edges)) == edges_graph(edges),
        labeling(edges_graph(edges + reversed(edges))) == labeling(edges_graph(edges)),
{
    lemma_doubled_prefix(edges, edges.len() as int);
    assert(reversed(edges).take(edges.len() as int) =~= reversed(edges));
}

} // verus!
