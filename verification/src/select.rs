//! Min-selection: the directed graph in which every vertex points toward the
//! minimum of a neighborhood it belongs to.

use crate::graph::{
    closed_under_edges, has_edge, lemma_with_edge_edges, neighborhood, no_isolated, snapshot_of,
    touched, ConcurrentGraph, Neighborhood,
};
use crate::minimum::{get_vmins, inhabited, is_min_of, lemma_min_unique, lemma_minima_of_snapshot, minima_of, set_min};
use std::collections::HashMap;
use vstd::prelude::*;

verus! {

broadcast use vstd::std_specs::hash::group_hash_axioms;

/// The smallest vertex among `u` and its neighbors in `g`.
pub open spec fn v_min(g: Map<u32, Set<u32>>, u: u32) -> u32 {
    set_min(g[u].insert(u))
}

/// `a` is in `members` and is pointed at `target`; with `skip`, the target
/// itself is left out.
pub open spec fn linked(members: Seq<u32>, target: u32, skip: bool, a: u32, b: u32) -> bool {
    members.contains(a) && b == target && !(skip && a == target)
}

/// As `linked`, for the first `k` members only.
pub open spec fn linked_before(members: Seq<u32>, k: int, target: u32, skip: bool, a: u32, b: u32) -> bool {
    (exists|j: int| 0 <= j < k && members[j] == a) && b == target && !(skip && a == target)
}

/// Adds an edge from each member to `target`.
pub fn link_members(h: &mut ConcurrentGraph, members: &Vec<u32>, target: u32, skip: bool)
    requires
        old(h).wf(),
    ensures
        final(h).wf(),
        no_isolated(old(h)@) ==> no_isolated(final(h)@),
        final(h).is_directed() == old(h).is_directed(),
        forall|a: u32, b: u32| #[trigger]
            has_edge(final(h)@, a, b) <==> (has_edge(old(h)@, a, b) || linked(members@, target, skip, a, b) || (
            !old(h).is_directed() && linked(members@, target, skip, b, a))),
        forall|a: u32| #[trigger]
            final(h)@.contains_key(a) <==> (old(h)@.contains_key(a) || touched(final(h)@, a)),
{
    let mut k: usize = 0;
    while k < members.len()
        invariant
            k <= members.len(),
            h.wf(),
            no_isolated(old(h)@) ==> no_isolated(h@),
            forall|a: u32| #[trigger] h@.contains_key(a) <==> (old(h)@.contains_key(a) || touched(h@, a)),
            h.is_directed() == old(h).is_directed(),
            forall|a: u32, b: u32| #[trigger]
                has_edge(h@, a, b) <==> (has_edge(old(h)@, a, b) || linked_before(
                    members@,
                    k as int,
                    target,
                    skip,
                    a,
                    b,
                ) || (!old(h).is_directed() && linked_before(members@, k as int, target, skip, b, a))),
        decreases members.len() - k,
    {
        let x = members[k];
        let ghost prev = h@;
        if !(skip && x == target) {
            h.add_edge(x, target);
            proof {
                lemma_with_edge_edges(prev, x, target, h.is_directed());
                assert(has_edge(h@, x, target));
                assert(touched(h@, x) && touched(h@, target));
                assert forall|a: u32| #[trigger] h@.contains_key(a) <==> (old(h)@.contains_key(a) || touched(h@, a)) by {
                    if touched(prev, a) {
                        let b = choose|b: u32| has_edge(prev, a, b) || has_edge(prev, b, a);
                        assert(has_edge(h@, a, b) || has_edge(h@, b, a));
                    }
                    if touched(h@, a) {
                        let b = choose|b: u32| has_edge(h@, a, b) || has_edge(h@, b, a);
                        assert(h@.contains_key(a));
                    }
                }
            }
        }
        proof {
            assert forall|a: u32, b: u32|
                linked_before(members@, k + 1, target, skip, a, b) <==> (linked_before(
                    members@,
                    k as int,
                    target,
                    skip,
                    a,
                    b,
                ) || (a == x && b == target && !(skip && a == target))) by {
                if linked_before(members@, k + 1, target, skip, a, b) {
                    let j = choose|j: int| 0 <= j < k + 1 && members@[j] == a;
                    if j < k {
                        assert(linked_before(members@, k as int, target, skip, a, b));
                    }
                }
                if linked_before(members@, k as int, target, skip, a, b) {
                    let j = choose|j: int| 0 <= j < k && members@[j] == a;
                    assert(0 <= j < k + 1 && members@[j] == a);
                }
                if a == x && b == target && !(skip && a == target) {
                    assert(members@[k as int] == a);
                }
            }
        }
        k += 1;
    }
    proof {
        assert forall|a: u32, b: u32|
            linked_before(members@, members@.len() as int, target, skip, a, b) <==> linked(
                members@,
                target,
                skip,
                a,
                b,
            ) by {
            if linked(members@, target, skip, a, b) {
                let j = choose|j: int| 0 <= j < members@.len() && members@[j] == a;
                assert(0 <= j < members@.len() && members@[j] == a);
            }
        }
    }
}

/// Two graphs without isolated vertices that hold the same edges are equal.
pub proof fn lemma_same_edges(h: Map<u32, Set<u32>>, t: Map<u32, Set<u32>>)
    requires
        closed_under_edges(h),
        no_isolated(h),
        closed_under_edges(t),
        no_isolated(t),
        forall|a: u32, b: u32| #[trigger] has_edge(h, a, b) <==> has_edge(t, a, b),
    ensures
        h == t,
{
    assert forall|a: u32| h.contains_key(a) <==> t.contains_key(a) by {
        if h.contains_key(a) {
            assert(touched(h, a));
            let b = choose|b: u32| has_edge(h, a, b) || has_edge(h, b, a);
            assert(has_edge(t, a, b) || has_edge(t, b, a));
        }
        if t.contains_key(a) {
            assert(touched(t, a));
            let b = choose|b: u32| has_edge(t, a, b) || has_edge(t, b, a);
            assert(has_edge(h, a, b) || has_edge(h, b, a));
        }
    }
    assert forall|a: u32| h.contains_key(a) implies h[a] =~= t[a] by {
        assert forall|b: u32| h[a].contains(b) <==> t[a].contains(b) by {
            assert(has_edge(h, a, b) <==> has_edge(t, a, b));
        }
    }
    assert(h =~~= t);
}

/// A table of closed-neighborhood minima holds `v_min` of every vertex.
pub proof fn lemma_table_is_v_min(table: Map<u32, u32>, g: Map<u32, Set<u32>>)
    requires
        minima_of(table, g, true),
    ensures
        forall|u: u32| g.contains_key(u) ==> #[trigger] table.contains_key(u) && table[u] == v_min(g, u),
        forall|u: u32|
            g.contains_key(u) ==> is_min_of(#[trigger] v_min(g, u), g[u].insert(u)),
{
    assert forall|u: u32| g.contains_key(u) implies #[trigger] table.contains_key(u) && table[u] == v_min(g, u)
        && is_min_of(v_min(g, u), g[u].insert(u)) by {
        assert(neighborhood(g, u, true).contains(u));
        assert(inhabited(neighborhood(g, u, true)));
        assert(table.contains_key(u));
        assert(is_min_of(table[u], neighborhood(g, u, true)));
        lemma_min_unique(table[u], g[u].insert(u));
    }
    assert forall|u: u32| g.contains_key(u) implies is_min_of(#[trigger] v_min(g, u), g[u].insert(u)) by {
        assert(table.contains_key(u));
    }
}

/// What the plain form emits for the vertex `u`: an edge to its minimum from
/// `u` and from each of its neighbors.
pub open spec fn base_emits(g: Map<u32, Set<u32>>, u: u32, a: u32, b: u32) -> bool {
    b == v_min(g, u) && (a == u || g[u].contains(a))
}

/// The plain form emits the edge from `a` to `b` for some vertex.
pub open spec fn base_edge(g: Map<u32, Set<u32>>, a: u32, b: u32) -> bool {
    exists|u: u32| g.contains_key(u) && base_emits(g, u, a, b)
}

/// The graph of the edges that the plain form emits.
pub open spec fn base_graph(g: Map<u32, Set<u32>>) -> Map<u32, Set<u32>> {
    Map::new(
        |a: u32| exists|b: u32| base_edge(g, a, b) || base_edge(g, b, a),
        |a: u32| Set::new(|b: u32| base_edge(g, a, b)),
    )
}

/// As `base_edge`, for the first `i` entries of a snapshot only.
pub open spec fn base_before(g: Map<u32, Set<u32>>, s: Seq<Neighborhood>, i: int, a: u32, b: u32) -> bool {
    exists|j: int| 0 <= j < i && base_emits(g, (#[trigger] s[j]).node, a, b)
}

/// Min-selection in its plain form: every vertex and each of its neighbors
/// get an edge to the minimum of the vertex's closed neighborhood.
pub fn min_selection_base(g: &ConcurrentGraph) -> (h: ConcurrentGraph)
    requires
        g.wf(),
    ensures
        h.wf(),
        h.is_directed(),
        no_isolated(h@),
        h@ == base_graph(g@),
{
    let snap = g.get_closed_neighborhoods();
    let table: HashMap<u32, u32> = get_vmins(&snap);
    proof {
        lemma_minima_of_snapshot(snap@, g@, true, table@);
        lemma_table_is_v_min(table@, g@);
    }
    let mut h = ConcurrentGraph::new_directed();
    let mut i: usize = 0;
    while i < snap.len()
        invariant
            i <= snap.len(),
            g.wf(),
            snapshot_of(snap@, g@, true),
            forall|u: u32| g@.contains_key(u) ==> #[trigger] table@.contains_key(u) && table@[u] == v_min(g@, u),
            h.wf(),
            h.is_directed(),
            no_isolated(h@),
            forall|a: u32, b: u32| #[trigger] has_edge(h@, a, b) <==> base_before(g@, snap@, i as int, a, b),
        decreases snap.len() - i,
    {
        let u = snap[i].node;
        assert(g@.contains_key(snap@[i as int].node));
        assert(table@.contains_key(u));
        let u_min = *table.get(&u).unwrap();
        let ghost prev = h@;
        h.add_edge(u, u_min);
        proof {
            lemma_with_edge_edges(prev, u, u_min, true);
        }
        link_members(&mut h, &snap[i].members, u_min, false);
        proof {
            let members = snap@[i as int].members@;
            assert(members.to_set() =~= g@[u].insert(u));
            assert forall|a: u32, b: u32| #[trigger] has_edge(h@, a, b) <==> base_before(g@, snap@, i + 1, a, b) by {
                assert(members.to_set().contains(a) <==> members.contains(a));
                assert(linked(members, u_min, false, a, b) <==> (b == u_min && (a == u || g@[u].contains(a))));
                if base_before(g@, snap@, i + 1, a, b) {
                    let j = choose|j: int| 0 <= j < i + 1 && base_emits(g@, (#[trigger] snap@[j]).node, a, b);
                    if j < i {
                        assert(base_before(g@, snap@, i as int, a, b));
                    }
                }
                if has_edge(prev, a, b) {
                    let j = choose|j: int| 0 <= j < i && base_emits(g@, (#[trigger] snap@[j]).node, a, b);
                    assert(0 <= j < i + 1 && base_emits(g@, snap@[j].node, a, b));
                }
                if base_emits(g@, u, a, b) {
                    assert(base_emits(g@, snap@[i as int].node, a, b));
                }
            }
        }
        i += 1;
    }
    proof {
        let t = base_graph(g@);
        assert forall|a: u32, b: u32| #[trigger] has_edge(h@, a, b) <==> base_edge(g@, a, b) by {
            if has_edge(h@, a, b) {
                let j = choose|j: int| 0 <= j < snap@.len() && base_emits(g@, (#[trigger] snap@[j]).node, a, b);
                assert(g@.contains_key(snap@[j].node));
            }
            if base_edge(g@, a, b) {
                let u = choose|u: u32| g@.contains_key(u) && base_emits(g@, u, a, b);
                let j = choose|j: int| 0 <= j < snap@.len() && (#[trigger] snap@[j]).node == u;
                assert(base_emits(g@, snap@[j].node, a, b));
            }
        }
        assert forall|a: u32, b: u32| #[trigger] has_edge(t, a, b) <==> base_edge(g@, a, b) by {}
        assert forall|a: u32| t.contains_key(a) implies #[trigger] touched(t, a) by {
            let b = choose|b: u32| base_edge(g@, a, b) || base_edge(g@, b, a);
            assert(has_edge(t, a, b) || has_edge(t, b, a));
        }
        lemma_same_edges(h@, t);
    }
    h
}

/// What the pruning form emits for the vertex `u` on account of its neighbor
/// `z`. Where `u` is its own minimum: the edge from `z` to `u` if `u` is the
/// minimum of `z` too, else the edges from `z` and from `u` to the minimum
/// of `z`. Where it is not: the edge from `z` to the minimum of `u`.
pub open spec fn ep_via(g: Map<u32, Set<u32>>, u: u32, z: u32, a: u32, b: u32) -> bool {
    if v_min(g, u) == u {
        if v_min(g, z) == u {
            a == z && b == u
        } else {
            (a == z || a == u) && b == v_min(g, z)
        }
    } else {
        a == z && b == v_min(g, u)
    }
}

/// What the pruning form emits for the vertex `u`: where `u` is not its own
/// minimum, the edge from `u` to that minimum; and what it emits on account
/// of each neighbor.
pub open spec fn ep_emits(g: Map<u32, Set<u32>>, u: u32, a: u32, b: u32) -> bool {
    (v_min(g, u) != u && a == u && b == v_min(g, u)) || exists|z: u32|
        g[u].contains(z) && #[trigger] ep_via(g, u, z, a, b)
}

/// The pruning form emits the edge from `a` to `b` for some vertex.
pub open spec fn ep_edge(g: Map<u32, Set<u32>>, a: u32, b: u32) -> bool {
    exists|u: u32| g.contains_key(u) && #[trigger] ep_emits(g, u, a, b)
}

/// The graph of the edges that the pruning form emits.
pub open spec fn ep_graph(g: Map<u32, Set<u32>>) -> Map<u32, Set<u32>> {
    Map::new(
        |a: u32| exists|b: u32| ep_edge(g, a, b) || ep_edge(g, b, a),
        |a: u32| Set::new(|b: u32| ep_edge(g, a, b)),
    )
}

/// As `ep_edge`, for the first `i` entries of a snapshot only.
pub open spec fn ep_before(g: Map<u32, Set<u32>>, s: Seq<Neighborhood>, i: int, a: u32, b: u32) -> bool {
    exists|j: int| 0 <= j < i && ep_emits(g, (#[trigger] s[j]).node, a, b)
}

/// As the second part of `ep_emits`, for the first `k` neighbors only.
pub open spec fn via_before(g: Map<u32, Set<u32>>, u: u32, members: Seq<u32>, k: int, a: u32, b: u32) -> bool {
    exists|j: int| 0 <= j < k && ep_via(g, u, #[trigger] members[j], a, b)
}

/// Min-selection with edge pruning: a vertex that is the minimum of its
/// closed neighborhood does not announce itself to neighbors that have a
/// smaller minimum; every other vertex and its neighbors are pointed at the
/// vertex's minimum.
pub fn min_selection_ep(g: &ConcurrentGraph) -> (h: ConcurrentGraph)
    requires
        g.wf(),
    ensures
        h.wf(),
        h.is_directed(),
        no_isolated(h@),
        h@ == ep_graph(g@),
{
    let snap = g.get_neighborhoods();
    let closed = g.get_closed_neighborhoods();
    let table: HashMap<u32, u32> = get_vmins(&closed);
    proof {
        lemma_minima_of_snapshot(closed@, g@, true, table@);
        lemma_table_is_v_min(table@, g@);
    }
    let mut h = ConcurrentGraph::new_directed();
    let mut i: usize = 0;
    while i < snap.len()
        invariant
            i <= snap.len(),
            g.wf(),
            snapshot_of(snap@, g@, false),
            forall|u: u32| g@.contains_key(u) ==> #[trigger] table@.contains_key(u) && table@[u] == v_min(g@, u),
            h.wf(),
            h.is_directed(),
            no_isolated(h@),
            forall|a: u32, b: u32| #[trigger] has_edge(h@, a, b) <==> ep_before(g@, snap@, i as int, a, b),
        decreases snap.len() - i,
    {
        let u = snap[i].node;
        let members = &snap[i].members;
        assert(g@.contains_key(snap@[i as int].node));
        assert(table@.contains_key(u));
        assert(members@.to_set() =~= g@[u]);
        let u_min = *table.get(&u).unwrap();
        let ghost start = h@;
        if u == u_min {
            let mut k: usize = 0;
            while k < members.len()
                invariant
                    k <= members.len(),
                    g.wf(),
                    g@.contains_key(u),
                    members@.to_set() =~= g@[u],
                    v_min(g@, u) == u,
                    forall|w: u32|
                        g@.contains_key(w) ==> #[trigger] table@.contains_key(w) && table@[w] == v_min(g@, w),
                    h.wf(),
                    h.is_directed(),
                    no_isolated(h@),
                    forall|a: u32, b: u32| #[trigger]
                        has_edge(h@, a, b) <==> (has_edge(start, a, b) || via_before(g@, u, members@, k as int, a, b)),
                decreases members.len() - k,
            {
                let z = members[k];
                proof {
                    assert(members@.contains(z));
                    assert(members@.to_set().contains(z));
                    assert(has_edge(g@, u, z));
                    assert(g@.contains_key(z));
                    assert(table@.contains_key(z));
                }
                let z_min = *table.get(&z).unwrap();
                let ghost prev = h@;
                if z_min == u {
                    h.add_edge(z, u);
                    proof {
                        lemma_with_edge_edges(prev, z, u, true);
                    }
                } else {
                    h.add_edge(z, z_min);
                    let ghost mid = h@;
                    h.add_edge(u, z_min);
                    proof {
                        lemma_with_edge_edges(prev, z, z_min, true);
                        lemma_with_edge_edges(mid, u, z_min, true);
                    }
                }
                proof {
                    assert forall|a: u32, b: u32|
                        via_before(g@, u, members@, k + 1, a, b) <==> (via_before(g@, u, members@, k as int, a, b)
                            || ep_via(g@, u, z, a, b)) by {
                        if via_before(g@, u, members@, k + 1, a, b) {
                            let j = choose|j: int| 0 <= j < k + 1 && ep_via(g@, u, #[trigger] members@[j], a, b);
                            if j < k {
                                assert(via_before(g@, u, members@, k as int, a, b));
                            }
                        }
                        if via_before(g@, u, members@, k as int, a, b) {
                            let j = choose|j: int| 0 <= j < k && ep_via(g@, u, #[trigger] members@[j], a, b);
                            assert(0 <= j < k + 1 && ep_via(g@, u, members@[j], a, b));
                        }
                        if ep_via(g@, u, z, a, b) {
                            assert(ep_via(g@, u, members@[k as int], a, b));
                        }
                    }
                }
                k += 1;
            }
        } else {
            h.add_edge(u, u_min);
            proof {
                lemma_with_edge_edges(start, u, u_min, true);
            }
            link_members(&mut h, members, u_min, false);
        }
        proof {
            assert forall|a: u32, b: u32| #[trigger] has_edge(h@, a, b) <==> (has_edge(start, a, b) || ep_emits(
                g@,
                u,
                a,
                b,
            )) by {
                if u == u_min {
                    if via_before(g@, u, members@, members@.len() as int, a, b) {
                        let j = choose|j: int|
                            0 <= j < members@.len() && ep_via(g@, u, #[trigger] members@[j], a, b);
                        assert(members@.contains(members@[j]));
                        assert(g@[u].contains(members@[j]));
                    }
                    if ep_emits(g@, u, a, b) {
                        let z = choose|z: u32| g@[u].contains(z) && #[trigger] ep_via(g@, u, z, a, b);
                        assert(members@.to_set().contains(z));
                        assert(members@.contains(z));
                        let j = choose|j: int| 0 <= j < members@.len() && members@[j] == z;
                        assert(ep_via(g@, u, members@[j], a, b));
                    }
                } else {
                    assert(members@.to_set().contains(a) <==> members@.contains(a));
                    if linked(members@, u_min, false, a, b) {
                        assert(g@[u].contains(a) && ep_via(g@, u, a, a, b));
                    }
                    if ep_emits(g@, u, a, b) && !(a == u && b == u_min) {
                        let z = choose|z: u32| g@[u].contains(z) && #[trigger] ep_via(g@, u, z, a, b);
                        assert(z == a);
                    }
                }
            }
            assert forall|a: u32, b: u32| #[trigger] has_edge(h@, a, b) <==> ep_before(g@, snap@, i + 1, a, b) by {
                if ep_before(g@, snap@, i + 1, a, b) {
                    let j = choose|j: int| 0 <= j < i + 1 && ep_emits(g@, (#[trigger] snap@[j]).node, a, b);
                    if j < i {
                        assert(ep_before(g@, snap@, i as int, a, b));
                    }
                }
                if has_edge(start, a, b) {
                    let j = choose|j: int| 0 <= j < i && ep_emits(g@, (#[trigger] snap@[j]).node, a, b);
                    assert(0 <= j < i + 1 && ep_emits(g@, snap@[j].node, a, b));
                }
                if ep_emits(g@, u, a, b) {
                    assert(ep_emits(g@, snap@[i as int].node, a, b));
                }
            }
        }
        i += 1;
    }
    proof {
        let t = ep_graph(g@);
        assert forall|a: u32, b: u32| #[trigger] has_edge(h@, a, b) <==> ep_edge(g@, a, b) by {
            if has_edge(h@, a, b) {
                let j = choose|j: int| 0 <= j < snap@.len() && ep_emits(g@, (#[trigger] snap@[j]).node, a, b);
                assert(g@.contains_key(snap@[j].node));
            }
            if ep_edge(g@, a, b) {
                let u = choose|u: u32| g@.contains_key(u) && #[trigger] ep_emits(g@, u, a, b);
                let j = choose|j: int| 0 <= j < snap@.len() && (#[trigger] snap@[j]).node == u;
                assert(ep_emits(g@, snap@[j].node, a, b));
            }
        }
        assert forall|a: u32, b: u32| #[trigger] has_edge(t, a, b) <==> ep_edge(g@, a, b) by {}
        assert forall|a: u32| t.contains_key(a) implies #[trigger] touched(t, a) by {
            let b = choose|b: u32| ep_edge(g@, a, b) || ep_edge(g@, b, a);
            assert(has_edge(t, a, b) || has_edge(t, b, a));
        }
        lemma_same_edges(h@, t);
    }
    h
}

} // verus!
