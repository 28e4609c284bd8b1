//! Pruning: contracts each out-neighborhood onto its minimum, attaches the
//! vertices that point away from themselves to the forest, and takes them
//! out of the next working graph.

use crate::graph::{
    has_edge, in_prefix, lemma_with_edge_edges, listed_before, no_isolated, row_contains, snapshot_of, touched,
    ConcurrentGraph, Neighborhood,
};
use crate::minimum::{get_vmins, inhabited, lemma_min_unique, lemma_minima_of_snapshot, minima_of, set_min};
use crate::select::{link_members, linked};
use std::collections::HashMap;
use vstd::prelude::*;

verus! {

broadcast use vstd::std_specs::hash::group_hash_axioms;

/// The smallest vertex that `u` points at in `h`.
pub open spec fn out_min(h: Map<u32, Set<u32>>, u: u32) -> u32 {
    set_min(h[u])
}

/// What pruning emits for the vertex `u`: from each vertex that `u` points
/// at, other than the smallest, an edge to the smallest.
pub open spec fn pr_emits(h: Map<u32, Set<u32>>, u: u32, a: u32, b: u32) -> bool {
    has_edge(h, u, a) && a != out_min(h, u) && b == out_min(h, u)
}

/// Pruning emits the edge from `a` to `b` for some vertex.
pub open spec fn pr_edge(h: Map<u32, Set<u32>>, a: u32, b: u32) -> bool {
    exists|u: u32| #[trigger] pr_emits(h, u, a, b)
}

/// `u` points at some vertex in `h` and not at itself: pruning takes it out
/// of the working graph and attaches it to the forest.
pub open spec fn deactivated(h: Map<u32, Set<u32>>, u: u32) -> bool {
    h.contains_key(u) && inhabited(h[u]) && !h[u].contains(u)
}

/// The next working graph holds the edge from `a` to `b`.
pub open spec fn kept_edge(h: Map<u32, Set<u32>>, directed: bool, a: u32, b: u32) -> bool {
    (pr_edge(h, a, b) || (!directed && pr_edge(h, b, a))) && !deactivated(h, a) && !deactivated(h, b)
}

/// `u` points at itself and at nothing else: pruning neither deactivates
/// it nor emits an edge for it, and it stays in the working graph.
pub open spec fn is_seed(h: Map<u32, Set<u32>>, u: u32) -> bool {
    has_edge(h, u, u) && forall|x: u32| h[u].contains(x) ==> x == u
}

/// `a` is an end of an emitted edge.
pub open spec fn emitted_end(h: Map<u32, Set<u32>>, a: u32) -> bool {
    exists|b: u32| pr_edge(h, a, b) || pr_edge(h, b, a)
}

/// The next working graph: the ends of the emitted edges and the seeds, as
/// far as they stay active, with the emitted edges between them.
pub open spec fn pruned_graph(h: Map<u32, Set<u32>>, directed: bool) -> Map<u32, Set<u32>> {
    Map::new(
        |a: u32| (emitted_end(h, a) || is_seed(h, a)) && !deactivated(h, a),
        |a: u32| Set::new(|b: u32| kept_edge(h, directed, a, b)),
    )
}

/// Adds to `pruned` every seed of a snapshot of `h`, with no edge.
fn keep_seeds(pruned: &mut ConcurrentGraph, snap: &Vec<Neighborhood>, h: &ConcurrentGraph)
    requires
        old(pruned).wf(),
        snapshot_of(snap@, h@, false),
    ensures
        final(pruned).wf(),
        final(pruned).is_directed() == old(pruned).is_directed(),
        forall|a: u32, b: u32| #[trigger] has_edge(final(pruned)@, a, b) <==> has_edge(old(pruned)@, a, b),
        forall|a: u32| #[trigger] final(pruned)@.contains_key(a) <==> (old(pruned)@.contains_key(a) || is_seed(h@, a)),
{
    let mut i: usize = 0;
    while i < snap.len()
        invariant
            i <= snap.len(),
            snapshot_of(snap@, h@, false),
            pruned.wf(),
            pruned.is_directed() == old(pruned).is_directed(),
            forall|a: u32, b: u32| #[trigger] has_edge(pruned@, a, b) <==> has_edge(old(pruned)@, a, b),
            forall|a: u32| #[trigger]
                pruned@.contains_key(a) <==> (old(pruned)@.contains_key(a) || (is_seed(h@, a) && listed_before(
                    snap@,
                    i as int,
                    a,
                ))),
        decreases snap.len() - i,
    {
        let u = snap[i].node;
        let members = &snap[i].members;
        let ghost prev = pruned@;
        proof {
            assert(h@.contains_key(snap@[i as int].node));
            assert(members@.to_set() =~= h@[u]);
            assert forall|a: u32| members@.contains(a) <==> h@[u].contains(a) by {
                assert(members@.to_set().contains(a) <==> members@.contains(a));
            }
        }
        if members.len() == 1 && members[0] == u {
            pruned.add_node(u);
            proof {
                assert(members@.contains(members@[0]));
                assert(is_seed(h@, u)) by {
                    assert forall|x: u32| h@[u].contains(x) implies x == u by {
                        assert(members@.contains(x));
                        let j = choose|j: int| 0 <= j < members@.len() && members@[j] == x;
                    }
                }
            }
        } else {
            proof {
                assert(!is_seed(h@, u)) by {
                    if is_seed(h@, u) {
                        assert(members@.contains(u));
                        let j = choose|j: int| 0 <= j < members@.len() && members@[j] == u;
                        assert(members@.contains(members@[0]));
                        if members@.len() > 1 {
                            assert(members@.contains(members@[1]));
                            assert(members@[0] != members@[1]);
                        }
                    }
                }
            }
        }
        proof {
            assert(snap@[i as int].node == u);
            assert forall|a: u32, b: u32| #[trigger] has_edge(pruned@, a, b) <==> has_edge(prev, a, b) by {}
            assert forall|x: u32| listed_before(snap@, i + 1, x) <==> (listed_before(snap@, i as int, x) || x == u) by {
                if listed_before(snap@, i + 1, x) {
                    let j = choose|j: int| 0 <= j < i + 1 && (#[trigger] snap@[j]).node == x;
                    if j < i {
                        assert(listed_before(snap@, i as int, x));
                    }
                }
                if listed_before(snap@, i as int, x) {
                    let j = choose|j: int| 0 <= j < i && (#[trigger] snap@[j]).node == x;
                    assert(0 <= j < i + 1 && snap@[j].node == x);
                }
            }
            assert forall|a: u32| #[trigger]
                pruned@.contains_key(a) <==> (old(pruned)@.contains_key(a) || (is_seed(h@, a) && listed_before(
                    snap@,
                    i + 1,
                    a,
                ))) by {
                assert(prev.contains_key(a) <==> (old(pruned)@.contains_key(a) || (is_seed(h@, a) && listed_before(
                    snap@,
                    i as int,
                    a,
                ))));
                assert(listed_before(snap@, i + 1, a) <==> (listed_before(snap@, i as int, a) || a == u));
                assert(pruned@.contains_key(a) <==> (prev.contains_key(a) || (a == u && is_seed(h@, u))));
            }
        }
        i += 1;
    }
    proof {
        assert forall|a: u32| #[trigger] pruned@.contains_key(a) <==> (old(pruned)@.contains_key(a) || is_seed(h@, a)) by {
            if is_seed(h@, a) {
                let j = choose|j: int| 0 <= j < snap@.len() && (#[trigger] snap@[j]).node == a;
                assert(listed_before(snap@, snap@.len() as int, a));
            }
        }
    }
}

/// Pruning attaches `b` below `a`.
pub open spec fn attaches(h: Map<u32, Set<u32>>, a: u32, b: u32) -> bool {
    deactivated(h, b) && a == out_min(h, b)
}

/// Pruning attaches some vertex below `a`.
pub open spec fn is_parent(h: Map<u32, Set<u32>>, a: u32) -> bool {
    exists|b: u32| attaches(h, a, b)
}

/// As `is_parent`, for the first `i` entries of a snapshot only.
pub open spec fn parent_before(h: Map<u32, Set<u32>>, s: Seq<Neighborhood>, i: int, a: u32) -> bool {
    exists|b: u32| listed_before(s, i, b) && attaches(h, a, b)
}

/// The forest after pruning: what it held, and each deactivated vertex
/// below the smallest vertex it pointed at.
pub open spec fn grown_forest(t: Map<u32, Set<u32>>, h: Map<u32, Set<u32>>) -> Map<u32, Set<u32>> {
    Map::new(
        |a: u32| t.contains_key(a) || deactivated(h, a) || is_parent(h, a),
        |a: u32| Set::new(|b: u32| has_edge(t, a, b) || attaches(h, a, b)),
    )
}

/// As `pr_edge`, for the first `i` entries of a snapshot only.
pub open spec fn pr_before(h: Map<u32, Set<u32>>, s: Seq<Neighborhood>, i: int, a: u32, b: u32) -> bool {
    exists|j: int| 0 <= j < i && pr_emits(h, (#[trigger] s[j]).node, a, b)
}

/// Each vertex of `h` with the vertices it points at.
pub fn get_outgoing_neighborhood(h: &ConcurrentGraph) -> (out: Vec<Neighborhood>)
    requires
        h.wf(),
    ensures
        snapshot_of(out@, h@, false),
{
    h.get_neighborhoods()
}

/// One pruning step into a next working graph of the given orientation.
fn prune_into(h: ConcurrentGraph, tree: ConcurrentGraph, directed: bool) -> (r: (ConcurrentGraph, ConcurrentGraph))
    requires
        h.wf(),
        tree.wf(),
        tree.is_directed(),
    ensures
        r.0.wf(),
        r.0.is_directed() == directed,
        r.0@ == pruned_graph(h@, directed),
        r.1.wf(),
        r.1.is_directed(),
        r.1@ == grown_forest(tree@, h@),
{
    let snap = get_outgoing_neighborhood(&h);
    let table: HashMap<u32, u32> = get_vmins(&snap);
    proof {
        lemma_minima_of_snapshot(snap@, h@, false, table@);
    }
    let mut pruned = if directed {
        ConcurrentGraph::new_directed()
    } else {
        ConcurrentGraph::new_undirected()
    };
    let mut forest = tree;
    let mut dead: Vec<u32> = Vec::new();
    let mut i: usize = 0;
    while i < snap.len()
        invariant
            i <= snap.len(),
            h.wf(),
            snapshot_of(snap@, h@, false),
            minima_of(table@, h@, false),
            pruned.wf(),
            pruned.is_directed() == directed,
            no_isolated(pruned@),
            forall|a: u32, b: u32| #[trigger]
                has_edge(pruned@, a, b) <==> (pr_before(h@, snap@, i as int, a, b) || (!directed && pr_before(
                    h@,
                    snap@,
                    i as int,
                    b,
                    a,
                ))),
            forest.wf(),
            forest.is_directed(),
            forall|a: u32, b: u32| #[trigger]
                has_edge(forest@, a, b) <==> (has_edge(tree@, a, b) || (attaches(h@, a, b) && listed_before(
                    snap@,
                    i as int,
                    b,
                ))),
            forall|a: u32| #[trigger]
                forest@.contains_key(a) <==> (tree@.contains_key(a) || (deactivated(h@, a) && listed_before(
                    snap@,
                    i as int,
                    a,
                )) || parent_before(h@, snap@, i as int, a)),
            forall|x: u32| dead@.contains(x) <==> (deactivated(h@, x) && listed_before(snap@, i as int, x)),
        decreases snap.len() - i,
    {
        let u = snap[i].node;
        let members = &snap[i].members;
        let ghost pruned_start = pruned@;
        let ghost forest_start = forest@;
        let ghost dead_start = dead@;
        proof {
            assert(h@.contains_key(snap@[i as int].node));
            assert(members@.to_set() =~= h@[u]);
            assert forall|a: u32| members@.contains(a) <==> h@[u].contains(a) by {
                assert(members@.to_set().contains(a) <==> members@.contains(a));
            }
            if members@.len() > 0 {
                assert(members@.contains(members@[0]));
                assert(inhabited(h@[u]));
                assert(table@.contains_key(u));
                lemma_min_unique(table@[u], h@[u]);
            } else {
                assert(!inhabited(h@[u])) by {
                    if inhabited(h@[u]) {
                        let x = choose|x: u32| h@[u].contains(x);
                        assert(members@.contains(x));
                    }
                }
            }
        }
        if members.len() > 1 {
            let m = *table.get(&u).unwrap();
            link_members(&mut pruned, members, m, true);
            proof {
                assert forall|a: u32, b: u32| linked(members@, m, true, a, b) <==> pr_emits(h@, u, a, b) by {}
            }
        } else {
            proof {
                assert forall|a: u32, b: u32| !pr_emits(h@, u, a, b) by {
                    if pr_emits(h@, u, a, b) {
                        assert(members@.contains(a));
                        assert(members@.len() == 1);
                        assert(h@[u].contains(out_min(h@, u)));
                        assert(members@.contains(out_min(h@, u)));
                        let ja = choose|j: int| 0 <= j < members@.len() && members@[j] == a;
                        let jm = choose|j: int| 0 <= j < members@.len() && members@[j] == out_min(h@, u);
                        assert(ja == jm);
                    }
                }
            }
        }
        if !row_contains(members, u) {
            match table.get(&u) {
                Some(m) => {
                    let m = *m;
                    forest.add_edge(m, u);
                    dead.push(u);
                    proof {
                        lemma_with_edge_edges(forest_start, m, u, true);
                        assert(deactivated(h@, u));
                        assert(attaches(h@, m, u));
                        assert(dead@[dead_start.len() as int] == u);
                        assert forall|x: u32| dead@.contains(x) <==> (dead_start.contains(x) || x == u) by {
                            if dead_start.contains(x) {
                                let j = choose|j: int| 0 <= j < dead_start.len() && dead_start[j] == x;
                                assert(dead@[j] == x);
                            }
                            if dead@.contains(x) {
                                let j = choose|j: int| 0 <= j < dead@.len() && dead@[j] == x;
                                if j < dead_start.len() {
                                    assert(dead_start[j] == x);
                                }
                            }
                        }
                    }
                },
                None => {
                    proof {
                        assert(!deactivated(h@, u));
                    }
                },
            }
        } else {
            proof {
                assert(!deactivated(h@, u));
            }
        }
        proof {
            assert(snap@[i as int].node == u);
            assert forall|x: u32| dead@.contains(x) <==> (dead_start.contains(x) || (x == u && deactivated(h@, u))) by {}
            assert forall|x: u32| listed_before(snap@, i + 1, x) <==> (listed_before(snap@, i as int, x) || x == u) by {
                if listed_before(snap@, i + 1, x) {
                    let j = choose|j: int| 0 <= j < i + 1 && (#[trigger] snap@[j]).node == x;
                    if j < i {
                        assert(listed_before(snap@, i as int, x));
                    }
                }
                if listed_before(snap@, i as int, x) {
                    let j = choose|j: int| 0 <= j < i && (#[trigger] snap@[j]).node == x;
                    assert(0 <= j < i + 1 && snap@[j].node == x);
                }
            }
            assert forall|a: u32, b: u32|
                pr_before(h@, snap@, i + 1, a, b) <==> (pr_before(h@, snap@, i as int, a, b) || pr_emits(
                    h@,
                    u,
                    a,
                    b,
                )) by {
                if pr_before(h@, snap@, i + 1, a, b) {
                    let j = choose|j: int| 0 <= j < i + 1 && pr_emits(h@, (#[trigger] snap@[j]).node, a, b);
                    if j < i {
                        assert(pr_before(h@, snap@, i as int, a, b));
                    }
                }
                if pr_before(h@, snap@, i as int, a, b) {
                    let j = choose|j: int| 0 <= j < i && pr_emits(h@, (#[trigger] snap@[j]).node, a, b);
                    assert(0 <= j < i + 1 && pr_emits(h@, snap@[j].node, a, b));
                }
                if pr_emits(h@, u, a, b) {
                    assert(pr_emits(h@, snap@[i as int].node, a, b));
                }
            }
            assert forall|x: u32| dead@.contains(x) <==> (deactivated(h@, x) && listed_before(snap@, i + 1, x)) by {
                assert(dead_start.contains(x) <==> (deactivated(h@, x) && listed_before(snap@, i as int, x)));
                assert(listed_before(snap@, i + 1, x) <==> (listed_before(snap@, i as int, x) || x == u));
            }
            assert forall|a: u32|
                parent_before(h@, snap@, i + 1, a) <==> (parent_before(h@, snap@, i as int, a) || attaches(
                    h@,
                    a,
                    u,
                )) by {
                if parent_before(h@, snap@, i + 1, a) {
                    let b = choose|b: u32| listed_before(snap@, i + 1, b) && attaches(h@, a, b);
                    if b != u {
                        assert(listed_before(snap@, i as int, b) && attaches(h@, a, b));
                    }
                }
                if parent_before(h@, snap@, i as int, a) {
                    let b = choose|b: u32| listed_before(snap@, i as int, b) && attaches(h@, a, b);
                    assert(listed_before(snap@, i + 1, b) && attaches(h@, a, b));
                }
                if attaches(h@, a, u) {
                    assert(listed_before(snap@, i + 1, u) && attaches(h@, a, u));
                }
            }
        }
        i += 1;
    }
    let ghost linked_only = pruned@;
    keep_seeds(&mut pruned, &snap, &h);
    let ghost grown = pruned@;
    proof {
        assert forall|a: u32, b: u32| #[trigger]
            has_edge(grown, a, b) <==> (pr_before(h@, snap@, snap@.len() as int, a, b) || (!directed && pr_before(
                h@,
                snap@,
                snap@.len() as int,
                b,
                a,
            ))) by {
            assert(has_edge(grown, a, b) <==> has_edge(linked_only, a, b));
        }
        assert forall|a: u32| grown.contains_key(a) <==> (touched(grown, a) || is_seed(h@, a)) by {
            assert(grown.contains_key(a) <==> (linked_only.contains_key(a) || is_seed(h@, a)));
            if touched(grown, a) {
                let b = choose|b: u32| has_edge(grown, a, b) || has_edge(grown, b, a);
                assert(has_edge(linked_only, a, b) || has_edge(linked_only, b, a));
                assert(linked_only.contains_key(a));
            }
            if linked_only.contains_key(a) {
                assert(touched(linked_only, a));
                let b = choose|b: u32| has_edge(linked_only, a, b) || has_edge(linked_only, b, a);
                assert(has_edge(grown, a, b) || has_edge(grown, b, a));
            }
        }
        assert forall|x: u32| h@.contains_key(x) implies listed_before(snap@, snap@.len() as int, x) by {
            let j = choose|j: int| 0 <= j < snap@.len() && (#[trigger] snap@[j]).node == x;
        }
        assert forall|a: u32, b: u32| pr_before(h@, snap@, snap@.len() as int, a, b) <==> pr_edge(h@, a, b) by {
            if pr_edge(h@, a, b) {
                let u = choose|u: u32| #[trigger] pr_emits(h@, u, a, b);
                let j = choose|j: int| 0 <= j < snap@.len() && (#[trigger] snap@[j]).node == u;
                assert(pr_emits(h@, snap@[j].node, a, b));
            }
            if pr_before(h@, snap@, snap@.len() as int, a, b) {
                let j = choose|j: int| 0 <= j < snap@.len() && pr_emits(h@, (#[trigger] snap@[j]).node, a, b);
            }
        }
        assert(forest@ =~~= grown_forest(tree@, h@)) by {
            let t = grown_forest(tree@, h@);
            assert forall|a: u32| forest@.contains_key(a) <==> t.contains_key(a) by {
                if parent_before(h@, snap@, snap@.len() as int, a) {
                    let b = choose|b: u32| listed_before(snap@, snap@.len() as int, b) && attaches(h@, a, b);
                    assert(attaches(h@, a, b));
                }
                if is_parent(h@, a) {
                    let b = choose|b: u32| attaches(h@, a, b);
                    assert(listed_before(snap@, snap@.len() as int, b) && attaches(h@, a, b));
                }
            }
            assert forall|a: u32| forest@.contains_key(a) implies forest@[a] =~= t[a] by {
                assert forall|b: u32| forest@[a].contains(b) <==> t[a].contains(b) by {
                    assert(has_edge(forest@, a, b) <==> (has_edge(tree@, a, b) || (attaches(h@, a, b)
                        && listed_before(snap@, snap@.len() as int, b))));
                }
            }
        }
    }
    let mut k: usize = 0;
    while k < dead.len()
        invariant
            k <= dead.len(),
            pruned.wf(),
            pruned.is_directed() == directed,
            forall|a: u32| #[trigger]
                pruned@.contains_key(a) <==> (grown.contains_key(a) && !in_prefix(dead@, k as int, a)),
            forall|a: u32, b: u32| #[trigger]
                has_edge(pruned@, a, b) <==> (has_edge(grown, a, b) && !in_prefix(dead@, k as int, a) && !in_prefix(
                    dead@,
                    k as int,
                    b,
                )),
        decreases dead.len() - k,
    {
        let d = dead[k];
        let ghost prev = pruned@;
        pruned.remove_node(d);
        proof {
            assert forall|x: u32| in_prefix(dead@, k + 1, x) <==> (in_prefix(dead@, k as int, x) || x == d) by {
                if in_prefix(dead@, k + 1, x) {
                    let j = choose|j: int| 0 <= j < k + 1 && dead@[j] == x;
                    if j < k {
                        assert(in_prefix(dead@, k as int, x));
                    }
                }
                if in_prefix(dead@, k as int, x) {
                    let j = choose|j: int| 0 <= j < k && dead@[j] == x;
                    assert(0 <= j < k + 1 && dead@[j] == x);
                }
                if x == d {
                    assert(dead@[k as int] == x);
                }
            }
            assert forall|a: u32, b: u32| #[trigger]
                has_edge(pruned@, a, b) <==> (has_edge(prev, a, b) && a != d && b != d) by {}
        }
        k += 1;
    }
    proof {
        let t = pruned_graph(h@, directed);
        assert forall|x: u32| in_prefix(dead@, dead@.len() as int, x) <==> deactivated(h@, x) by {
            if deactivated(h@, x) {
                assert(dead@.contains(x));
                let j = choose|j: int| 0 <= j < dead@.len() && dead@[j] == x;
                assert(0 <= j < dead@.len() && dead@[j] == x);
            }
            if in_prefix(dead@, dead@.len() as int, x) {
                let j = choose|j: int| 0 <= j < dead@.len() && dead@[j] == x;
                assert(dead@.contains(dead@[j]));
            }
        }
        assert forall|a: u32| pruned@.contains_key(a) <==> t.contains_key(a) by {
            assert(grown.contains_key(a) <==> (touched(grown, a) || is_seed(h@, a)));
            assert(in_prefix(dead@, dead@.len() as int, a) <==> deactivated(h@, a));
            if touched(grown, a) {
                let b = choose|b: u32| has_edge(grown, a, b) || has_edge(grown, b, a);
                assert(pr_edge(h@, a, b) || pr_edge(h@, b, a));
            }
            if emitted_end(h@, a) {
                let b = choose|b: u32| pr_edge(h@, a, b) || pr_edge(h@, b, a);
                assert(has_edge(grown, a, b) || has_edge(grown, b, a));
            }
        }
        assert forall|a: u32| pruned@.contains_key(a) implies pruned@[a] =~= t[a] by {
            assert(t.contains_key(a));
            assert forall|b: u32| pruned@[a].contains(b) <==> t[a].contains(b) by {
                assert(pr_before(h@, snap@, snap@.len() as int, a, b) <==> pr_edge(h@, a, b));
                assert(pr_before(h@, snap@, snap@.len() as int, b, a) <==> pr_edge(h@, b, a));
                assert(has_edge(grown, a, b) <==> (pr_edge(h@, a, b) || (!directed && pr_edge(h@, b, a))));
                assert(in_prefix(dead@, dead@.len() as int, a) <==> deactivated(h@, a));
                assert(in_prefix(dead@, dead@.len() as int, b) <==> deactivated(h@, b));
                assert(has_edge(pruned@, a, b) <==> kept_edge(h@, directed, a, b));
            }
        }
        assert(pruned@ =~~= t);
    }
    (pruned, forest)
}

/// One pruning step. Returns the next working graph, undirected, and the
/// forest with the vertices that left the working graph attached.
pub fn prune(h: ConcurrentGraph, tree: ConcurrentGraph) -> (r: (ConcurrentGraph, ConcurrentGraph))
    requires
        h.wf(),
        tree.wf(),
        tree.is_directed(),
    ensures
        r.0.wf(),
        !r.0.is_directed(),
        r.0@ == pruned_graph(h@, false),
        r.1.wf(),
        r.1.is_directed(),
        r.1@ == grown_forest(tree@, h@),
{
    prune_into(h, tree, false)
}

/// One pruning step whose next working graph is directed: it holds each
/// emitted edge in the direction of the minimum only.
pub fn prune_os(h: ConcurrentGraph, tree: ConcurrentGraph) -> (r: (ConcurrentGraph, ConcurrentGraph))
    requires
        h.wf(),
        tree.wf(),
        tree.is_directed(),
    ensures
        r.0.wf(),
        r.0.is_directed(),
        r.0@ == pruned_graph(h@, true),
        r.1.wf(),
        r.1.is_directed(),
        r.1@ == grown_forest(tree@, h@),
{
    prune_into(h, tree, true)
}

} // verus!
