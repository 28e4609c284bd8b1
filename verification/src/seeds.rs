//! Seed propagation: every vertex of the forest gets the root of its tree.

use crate::graph::{has_edge, ConcurrentGraph};
use std::collections::HashMap;
use vstd::prelude::*;

verus! {

broadcast use vstd::std_specs::hash::group_hash_axioms;

/// No vertex has two predecessors.
pub open spec fn single_parent(t: Map<u32, Set<u32>>) -> bool {
    forall|p: u32, q: u32, u: u32| #[trigger] has_edge(t, p, u) && #[trigger] has_edge(t, q, u) ==> p == q
}

/// Every edge leads from a smaller vertex to a larger one.
pub open spec fn downward(t: Map<u32, Set<u32>>) -> bool {
    forall|p: u32, u: u32| #[trigger] has_edge(t, p, u) ==> p < u
}

/// `u` has a predecessor.
pub open spec fn has_parent(t: Map<u32, Set<u32>>, u: u32) -> bool {
    exists|p: u32| has_edge(t, p, u)
}

/// The predecessor of a vertex that has one.
pub open spec fn parent(t: Map<u32, Set<u32>>, u: u32) -> u32 {
    choose|p: u32| has_edge(t, p, u)
}

/// The seed of `u`: `u` itself where it has no predecessor, the seed of its
/// predecessor where that is smaller than `u`, else the predecessor.
pub open spec fn seed_of(t: Map<u32, Set<u32>>, u: u32) -> u32
    decreases u,
{
    if has_parent(t, u) {
        if parent(t, u) < u {
            seed_of(t, parent(t, u))
        } else {
            parent(t, u)
        }
    } else {
        u
    }
}

/// The seed of every vertex of the forest.
pub open spec fn seed_map(t: Map<u32, Set<u32>>) -> Map<u32, u32> {
    Map::new(|u: u32| t.contains_key(u), |u: u32| seed_of(t, u))
}

/// `slice::sort_unstable`: the same vertices, in ascending order.
#[verifier::external_body]
fn sort_nodes(nodes: &mut Vec<u32>)
    ensures
        final(nodes)@.to_multiset() == old(nodes)@.to_multiset(),
        forall|i: int, j: int| 0 <= i < j < final(nodes)@.len() ==> final(nodes)@[i] <= final(nodes)@[j],
{
    nodes.sort_unstable();
}

/// The vertices of the forest in ascending order, each once.
fn sorted_nodes(tree: &ConcurrentGraph) -> (nodes: Vec<u32>)
    ensures
        forall|u: u32| nodes@.contains(u) <==> tree@.contains_key(u),
        forall|i: int, j: int| 0 <= i < j < nodes@.len() ==> nodes@[i] < nodes@[j],
{
    let mut nodes = tree.nodes();
    let ghost before = nodes@;
    sort_nodes(&mut nodes);
    proof {
        before.to_multiset_ensures();
        nodes@.to_multiset_ensures();
        before.lemma_multiset_has_no_duplicates();
        nodes@.lemma_multiset_has_no_duplicates_conv();
        assert forall|u: u32| nodes@.contains(u) <==> tree@.contains_key(u) by {
            assert(nodes@.contains(u) <==> nodes@.to_multiset().count(u) > 0);
            assert(before.contains(u) <==> before.to_multiset().count(u) > 0);
        }
    }
    nodes
}

/// Walks the forest in ascending order of the vertices and gives each the
/// seed of its predecessor, or itself where it has none.
pub fn seed_propagation(tree: &ConcurrentGraph) -> (seeds: HashMap<u32, u32>)
    requires
        tree.wf(),
        single_parent(tree@),
    ensures
        seeds@ == seed_map(tree@),
{
    let nodes = sorted_nodes(tree);
    let mut seeds: HashMap<u32, u32> = HashMap::new();
    let mut i: usize = 0;
    while i < nodes.len()
        invariant
            i <= nodes.len(),
            tree.wf(),
            single_parent(tree@),
            forall|u: u32| nodes@.contains(u) <==> tree@.contains_key(u),
            forall|a: int, b: int| 0 <= a < b < nodes@.len() ==> nodes@[a] < nodes@[b],
            forall|u: u32| seeds@.contains_key(u) <==> exists|j: int| 0 <= j < i && nodes@[j] == u,
            forall|u: u32| seeds@.contains_key(u) ==> seeds@[u] == seed_of(tree@, u),
        decreases nodes.len() - i,
    {
        let u = nodes[i];
        let ghost done = seeds@;
        let preds = tree.incoming_edges(u);
        if preds.len() > 0 {
            let p = preds[0];
            proof {
                assert(preds@.contains(p));
                assert(has_edge(tree@, p, u));
                assert(has_parent(tree@, u));
                assert(has_edge(tree@, parent(tree@, u), u));
                assert(parent(tree@, u) == p);
                assert(tree@.contains_key(p));
                assert(nodes@.contains(p));
                let jp = choose|j: int| 0 <= j < nodes@.len() && nodes@[j] == p;
                if p < u {
                    assert(jp < i) by {
                        if jp > i {
                            assert(nodes@[i as int] < nodes@[jp]);
                        }
                    }
                    assert(done.contains_key(p));
                } else {
                    assert(!done.contains_key(p)) by {
                        if done.contains_key(p) {
                            let j = choose|j: int| 0 <= j < i && nodes@[j] == p;
                            assert(nodes@[j] < nodes@[i as int]);
                        }
                    }
                }
            }
            match seeds.get(&p) {
                Some(s) => {
                    let s = *s;
                    seeds.insert(u, s);
                },
                None => {
                    seeds.insert(u, p);
                },
            }
        } else {
            proof {
                assert(!has_parent(tree@, u)) by {
                    if has_parent(tree@, u) {
                        let p = choose|p: u32| has_edge(tree@, p, u);
                        assert(preds@.contains(p));
                    }
                }
            }
            seeds.insert(u, u);
        }
        proof {
            assert(seeds@[u] == seed_of(tree@, u));
            assert forall|x: u32| seeds@.contains_key(x) <==> exists|j: int| 0 <= j < i + 1 && nodes@[j] == x by {
                if done.contains_key(x) {
                    let j = choose|j: int| 0 <= j < i && nodes@[j] == x;
                    assert(0 <= j < i + 1 && nodes@[j] == x);
                }
                if x == u {
                    assert(nodes@[i as int] == x);
                }
                if exists|j: int| 0 <= j < i + 1 && nodes@[j] == x {
                    let j = choose|j: int| 0 <= j < i + 1 && nodes@[j] == x;
                    if j < i {
                        assert(done.contains_key(x));
                    }
                }
            }
        }
        i += 1;
    }
    proof {
        assert forall|u: u32| seeds@.contains_key(u) <==> tree@.contains_key(u) by {
            if tree@.contains_key(u) {
                assert(nodes@.contains(u));
                let j = choose|j: int| 0 <= j < nodes@.len() && nodes@[j] == u;
                assert(0 <= j < i && nodes@[j] == u);
            }
            if seeds@.contains_key(u) {
                let j = choose|j: int| 0 <= j < i && nodes@[j] == u;
                assert(nodes@.contains(nodes@[j]));
            }
        }
        assert(seeds@ =~= seed_map(tree@));
    }
    seeds
}

} // verus!
