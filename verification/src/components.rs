//! The driver: rounds of min-selection and pruning until the working graph
//! is empty, then seed propagation over the forest.

use crate::graph::{closed_under_edges, symmetric, with_edge, ConcurrentGraph};
use crate::graph::in_prefix;
use crate::prune::prune;
use crate::rounds::{
    forest_after, lemma_measure_bound, lemma_round_count, lemma_round_keeps, measure, next_forest, next_graph,
    no_vertices, round_inv,
};
use crate::seeds::{has_parent, seed_of, seed_propagation};
use crate::connectivity::{
    connected, lemma_connected_stays, lemma_same_seed_iff_connected, lemma_seed_is_component_minimum,
};
use crate::graph::has_edge;
use crate::select::min_selection_ep;
use std::collections::HashMap;
use vstd::prelude::*;

verus! {

broadcast use vstd::std_specs::hash::group_hash_axioms;

/// The undirected graph of a list of edges.
pub open spec fn edges_graph(edges: Seq<(u32, u32)>) -> Map<u32, Set<u32>>
    decreases edges.len(),
{
    if edges.len() == 0 {
        Map::empty()
    } else {
        with_edge(edges_graph(edges.drop_last()), edges.last().0, edges.last().1, false)
    }
}

/// The forest that the rounds leave when they start from `g`.
pub open spec fn final_forest(g: Map<u32, Set<u32>>) -> Map<u32, Set<u32>> {
    forest_after(g, Map::empty(), 2 * g.dom().len())
}

/// The seed of every vertex of `g`: its seed in the final forest, which is
/// the vertex itself where the forest does not hold it.
pub open spec fn labeling(g: Map<u32, Set<u32>>) -> Map<u32, u32> {
    Map::new(|u: u32| g.contains_key(u), |u: u32| seed_of(final_forest(g), u))
}

/// `seeds` maps every vertex of `g` to the smallest vertex of its
/// component: two vertices have the same seed if and only if a walk leads
/// from one to the other, the seed of a vertex is in the component of the
/// vertex, and no vertex of the component is below it.
pub open spec fn labels_components(seeds: Map<u32, u32>, g: Map<u32, Set<u32>>) -> bool {
    &&& forall|u: u32| seeds.contains_key(u) <==> g.contains_key(u)
    &&& forall|u: u32, v: u32|
        g.contains_key(u) && g.contains_key(v) ==> (#[trigger] seeds[u] == #[trigger] seeds[v] <==> connected(
            g,
            u,
            v,
        ))
    &&& forall|u: u32| g.contains_key(u) ==> g.contains_key(#[trigger] seeds[u]) && connected(g, u, seeds[u])
    &&& forall|u: u32, w: u32| g.contains_key(u) && #[trigger] connected(g, u, w) ==> seeds[u] <= w
}

/// The labeling of a valid undirected graph labels its components.
pub proof fn lemma_labeling_labels(g: Map<u32, Set<u32>>)
    requires
        closed_under_edges(g),
        symmetric(g),
        g.dom().finite(),
    ensures
        labels_components(labeling(g), g),
{
    let seeds = labeling(g);
    assert forall|u: u32, v: u32| g.contains_key(u) && g.contains_key(v) implies (#[trigger] seeds[u]
        == #[trigger] seeds[v] <==> connected(g, u, v)) by {
        lemma_same_seed_iff_connected(g, u, v);
    }
    assert forall|u: u32| g.contains_key(u) implies g.contains_key(#[trigger] seeds[u]) && connected(
        g,
        u,
        seeds[u],
    ) by {
        lemma_seed_is_component_minimum(g, u);
    }
    assert forall|u: u32, w: u32| g.contains_key(u) && #[trigger] connected(g, u, w) implies seeds[u] <= w by {
        lemma_connected_stays(g, u, w);
        lemma_seed_is_component_minimum(g, u);
    }
}

/// Builds the undirected graph of a list of edges.
pub fn graph_from_edges(edges: &Vec<(u32, u32)>) -> (g: ConcurrentGraph)
    ensures
        g.wf(),
        !g.is_directed(),
        g@ == edges_graph(edges@),
{
    let mut g = ConcurrentGraph::new_undirected();
    let mut i: usize = 0;
    while i < edges.len()
        invariant
            i <= edges.len(),
            g.wf(),
            !g.is_directed(),
            g@ == edges_graph(edges@.take(i as int)),
        decreases edges.len() - i,
    {
        let e = edges[i];
        g.add_edge(e.0, e.1);
        proof {
            assert(edges@.take(i + 1).drop_last() =~= edges@.take(i as int));
            assert(edges@.take(i + 1).last() == edges@[i as int]);
        }
        i += 1;
    }
    proof {
        assert(edges@.take(edges@.len() as int) =~= edges@);
    }
    g
}

/// Labels the vertices of an undirected graph: runs rounds until no vertex
/// is left in the working graph, propagates the seeds over the forest, and
/// makes every vertex that the forest does not hold its own seed.
pub fn label_components(graph: ConcurrentGraph) -> (seeds: HashMap<u32, u32>)
    requires
        graph.wf(),
        !graph.is_directed(),
    ensures
        seeds@ == labeling(graph@),
        labels_components(seeds@, graph@),
{
    proof {
        graph.lemma_finite();
        lemma_labeling_labels(graph@);
    }
    let nodes = graph.nodes();
    let ghost start = graph@;
    let mut g = graph;
    let mut t = ConcurrentGraph::new_directed();
    let mut n = g.node_count();
    let ghost mut fuel: nat = 2 * (n as nat);
    proof {
        g.lemma_finite();
        lemma_measure_bound(g@);
    }
    while n > 0
        invariant
            g.wf(),
            !g.is_directed(),
            t.wf(),
            t.is_directed(),
            g@.dom().finite(),
            n == g@.dom().len(),
            measure(g@) <= fuel,
            round_inv(g@, t@),
            forest_after(g@, t@, fuel) == final_forest(start),
            forall|a: u32| g@.contains_key(a) ==> start.contains_key(a),
            forall|a: u32| t@.contains_key(a) ==> start.contains_key(a),
        decreases measure(g@),
    {
        let ghost before = g@;
        let ghost forest = t@;
        let h = min_selection_ep(&g);
        let r = prune(h, t);
        g = r.0;
        t = r.1;
        proof {
            assert(!no_vertices(before)) by {
                if no_vertices(before) {
                    assert(before.dom() =~= Set::<u32>::empty());
                }
            }
            assert(g@ == next_graph(before));
            assert(t@ == next_forest(before, forest));
            lemma_round_keeps(before, forest);
            lemma_round_count(before);
            fuel = (fuel - 1) as nat;
        }
        n = g.node_count();
    }
    proof {
        g@.dom().lemma_len0_is_empty();
        assert(no_vertices(g@));
        assert(t@ == final_forest(start));
    }
    let mut seeds = seed_propagation(&t);
    let ghost from_forest = seeds@;
    let mut i: usize = 0;
    while i < nodes.len()
        invariant
            i <= nodes.len(),
            forall|u: u32| #[trigger]
                seeds@.contains_key(u) <==> (from_forest.contains_key(u) || in_prefix(nodes@, i as int, u)),
            forall|u: u32|
                seeds@.contains_key(u) ==> seeds@[u] == (if from_forest.contains_key(u) {
                    from_forest[u]
                } else {
                    u
                }),
        decreases nodes.len() - i,
    {
        let u = nodes[i];
        let ghost prev = seeds@;
        if !seeds.contains_key(&u) {
            seeds.insert(u, u);
        }
        proof {
            assert forall|x: u32| seeds@.contains_key(x) <==> (prev.contains_key(x) || x == u) by {}
            assert forall|x: u32| in_prefix(nodes@, i + 1, x) <==> (in_prefix(nodes@, i as int, x) || x == u) by {
                if in_prefix(nodes@, i + 1, x) {
                    let j = choose|j: int| 0 <= j < i + 1 && nodes@[j] == x;
                    if j < i {
                        assert(in_prefix(nodes@, i as int, x));
                    }
                }
                if in_prefix(nodes@, i as int, x) {
                    let j = choose|j: int| 0 <= j < i && nodes@[j] == x;
                    assert(0 <= j < i + 1 && nodes@[j] == x);
                }
                if x == u {
                    assert(nodes@[i as int] == x);
                }
            }
            assert forall|x: u32| #[trigger]
                seeds@.contains_key(x) <==> (from_forest.contains_key(x) || in_prefix(nodes@, i + 1, x)) by {
                assert(prev.contains_key(x) <==> (from_forest.contains_key(x) || in_prefix(nodes@, i as int, x)));
                assert(in_prefix(nodes@, i + 1, x) <==> (in_prefix(nodes@, i as int, x) || x == u));
            }
        }
        i += 1;
    }
    proof {
        assert forall|u: u32| seeds@.contains_key(u) <==> start.contains_key(u) by {
            if start.contains_key(u) {
                assert(nodes@.contains(u));
                let j = choose|j: int| 0 <= j < nodes@.len() && nodes@[j] == u;
                assert(0 <= j < i && nodes@[j] == u);
                assert(in_prefix(nodes@, i as int, u));
            }
            if in_prefix(nodes@, i as int, u) {
                let j = choose|j: int| 0 <= j < i && nodes@[j] == u;
                assert(nodes@.contains(nodes@[j]));
            }
            if from_forest.contains_key(u) {
                assert(t@.contains_key(u));
            }
        }
        assert forall|u: u32| start.contains_key(u) implies seeds@[u] == seed_of(t@, u) by {
            if !t@.contains_key(u) {
                if has_parent(t@, u) {
                    let p = choose|p: u32| has_edge(t@, p, u);
                    assert(t@.contains_key(u));
                }
            }
        }
        assert(seeds@ =~= labeling(start));
    }
    seeds
}

/// The seed of every vertex that the edges name.
pub fn connected_components(edges: &Vec<(u32, u32)>) -> (seeds: HashMap<u32, u32>)
    ensures
        seeds@ == labeling(edges_graph(edges@)),
        labels_components(seeds@, edges_graph(edges@)),
{
    let g = graph_from_edges(edges);
    label_components(g)
}

} // verus!
