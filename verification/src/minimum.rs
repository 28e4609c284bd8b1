//! Minima of neighborhoods, and the table that holds one per vertex.

use crate::graph::{distinct_nodes, neighborhood, snapshot_of, Neighborhood};
use rayon::iter::{IntoParallelRefIterator, ParallelIterator};
use std::collections::HashMap;
use vstd::prelude::*;

verus! {

broadcast use vstd::std_specs::hash::group_hash_axioms;

/// `m` is in `s` and nothing in `s` is smaller.
pub open spec fn is_min_of(m: u32, s: Set<u32>) -> bool {
    s.contains(m) && forall|x: u32| s.contains(x) ==> m <= x
}

/// The smallest member of a set that has one.
pub open spec fn set_min(s: Set<u32>) -> u32 {
    choose|m: u32| is_min_of(m, s)
}

/// `s` has a member.
pub open spec fn inhabited(s: Set<u32>) -> bool {
    exists|x: u32| s.contains(x)
}

/// A set has at most one minimum.
pub proof fn lemma_min_unique(m: u32, s: Set<u32>)
    requires
        is_min_of(m, s),
    ensures
        set_min(s) == m,
        is_min_of(set_min(s), s),
{
}

/// `table` holds, for each vertex of `g` whose neighborhood has a member, the
/// smallest member, and nothing else.
pub open spec fn minima_of(table: Map<u32, u32>, g: Map<u32, Set<u32>>, closed: bool) -> bool {
    &&& forall|u: u32| #[trigger]
        table.contains_key(u) <==> (g.contains_key(u) && inhabited(neighborhood(g, u, closed)))
    &&& forall|u: u32| #[trigger]
        table.contains_key(u) ==> is_min_of(table[u], neighborhood(g, u, closed))
}

/// The smallest vertex of a row that is not empty.
pub fn row_min(row: &Vec<u32>) -> (m: u32)
    requires
        row.len() > 0,
    ensures
        is_min_of(m, row@.to_set()),
        m == set_min(row@.to_set()),
{
    let mut m: u32 = row[0];
    let mut i: usize = 1;
    while i < row.len()
        invariant
            1 <= i <= row.len(),
            exists|j: int| 0 <= j < i && row@[j] == m,
            forall|j: int| 0 <= j < i ==> m <= row@[j],
        decreases row.len() - i,
    {
        if row[i] < m {
            m = row[i];
        }
        i += 1;
    }
    proof {
        let j = choose|j: int| 0 <= j < row@.len() && row@[j] == m;
        assert(row@.contains(row@[j]));
        assert forall|x: u32| row@.to_set().contains(x) implies m <= x by {
            let k = choose|k: int| 0 <= k < row@.len() && row@[k] == x;
        }
        lemma_min_unique(m, row@.to_set());
    }
    m
}

/// `m` is what the table of minima holds for `entry`: the smallest member of
/// a neighborhood that has one, nothing for an empty one.
pub open spec fn is_entry_min(entry: Neighborhood, m: Option<u32>) -> bool {
    match m {
        Some(x) => entry.members@.len() > 0 && is_min_of(x, entry.members@.to_set()),
        None => entry.members@.len() == 0,
    }
}

/// The smallest member of an entry's neighborhood, if it has one.
pub fn entry_min(entry: &Neighborhood) -> (m: Option<u32>)
    ensures
        is_entry_min(*entry, m),
{
    if entry.members.len() > 0 {
        Some(row_min(&entry.members))
    } else {
        None
    }
}

/// rayon's `par_iter`, `map` and `collect` into a `Vec`: `entry_min` of
/// every entry, computed on the worker threads, in the order of the entries.
#[verifier::external_body]
fn minima_in_parallel(neighborhoods: &Vec<Neighborhood>) -> (out: Vec<Option<u32>>)
    ensures
        out@.len() == neighborhoods@.len(),
        forall|i: int| 0 <= i < out@.len() ==> is_entry_min(neighborhoods@[i], #[trigger] out@[i]),
{
    neighborhoods.par_iter().map(|entry| entry_min(entry)).collect()
}

/// The table of minima: each listed vertex whose neighborhood is not empty
/// is mapped to the smallest member of that neighborhood.
pub fn get_vmins(neighborhoods: &Vec<Neighborhood>) -> (table: HashMap<u32, u32>)
    requires
        distinct_nodes(neighborhoods@),
    ensures
        forall|i: int|
            0 <= i < neighborhoods@.len() ==> (table@.contains_key((#[trigger] neighborhoods@[i]).node) <==> neighborhoods@[i].members@.len() > 0),
        forall|i: int|
            0 <= i < neighborhoods@.len() && neighborhoods@[i].members@.len() > 0 ==> is_min_of(
                table@[(#[trigger] neighborhoods@[i]).node],
                neighborhoods@[i].members@.to_set(),
            ),
        forall|u: u32|
            table@.contains_key(u) ==> exists|i: int|
                0 <= i < neighborhoods@.len() && (#[trigger] neighborhoods@[i]).node == u,
{
    let minima = minima_in_parallel(neighborhoods);
    let mut table: HashMap<u32, u32> = HashMap::new();
    let mut i: usize = 0;
    while i < neighborhoods.len()
        invariant
            i <= neighborhoods.len(),
            distinct_nodes(neighborhoods@),
            minima@.len() == neighborhoods@.len(),
            forall|j: int| 0 <= j < minima@.len() ==> is_entry_min(neighborhoods@[j], #[trigger] minima@[j]),
            forall|j: int|
                0 <= j < i ==> (table@.contains_key((#[trigger] neighborhoods@[j]).node) <==> neighborhoods@[j].members@.len() > 0),
            forall|j: int|
                0 <= j < i && neighborhoods@[j].members@.len() > 0 ==> is_min_of(
                    table@[(#[trigger] neighborhoods@[j]).node],
                    neighborhoods@[j].members@.to_set(),
                ),
            forall|u: u32|
                table@.contains_key(u) ==> exists|j: int| 0 <= j < i && (#[trigger] neighborhoods@[j]).node == u,
        decreases neighborhoods.len() - i,
    {
        let entry = &neighborhoods[i];
        let ghost before = table@;
        match minima[i] {
            Some(m) => {
                table.insert(entry.node, m);
            },
            None => {},
        }
        proof {
            assert(is_entry_min(neighborhoods@[i as int], minima@[i as int]));
            assert forall|j: int| 0 <= j < i implies neighborhoods@[j].node != neighborhoods@[i as int].node by {}
            assert(!before.contains_key(neighborhoods@[i as int].node)) by {
                if before.contains_key(neighborhoods@[i as int].node) {
                    let j = choose|j: int| 0 <= j < i && (#[trigger] neighborhoods@[j]).node == neighborhoods@[i as int].node;
                }
            }
            assert forall|u: u32| table@.contains_key(u) implies exists|j: int|
                0 <= j < i + 1 && (#[trigger] neighborhoods@[j]).node == u by {
                if before.contains_key(u) {
                    let j = choose|j: int| 0 <= j < i && (#[trigger] neighborhoods@[j]).node == u;
                    assert(0 <= j < i + 1 && neighborhoods@[j].node == u);
                } else {
                    assert(neighborhoods@[i as int].node == u);
                }
            }
        }
        i += 1;
    }
    table
}

/// The table made from a snapshot of `g` holds the minima of `g`.
pub proof fn lemma_minima_of_snapshot(
    s: Seq<Neighborhood>,
    g: Map<u32, Set<u32>>,
    closed: bool,
    table: Map<u32, u32>,
)
    requires
        snapshot_of(s, g, closed),
        forall|i: int| 0 <= i < s.len() ==> (table.contains_key((#[trigger] s[i]).node) <==> s[i].members@.len() > 0),
        forall|i: int|
            0 <= i < s.len() && s[i].members@.len() > 0 ==> is_min_of(
                table[(#[trigger] s[i]).node],
                s[i].members@.to_set(),
            ),
        forall|u: u32| table.contains_key(u) ==> exists|i: int| 0 <= i < s.len() && (#[trigger] s[i]).node == u,
    ensures
        minima_of(table, g, closed),
{
    assert forall|u: u32| #[trigger]
        table.contains_key(u) <==> (g.contains_key(u) && inhabited(neighborhood(g, u, closed))) by {
        if table.contains_key(u) {
            let i = choose|i: int| 0 <= i < s.len() && (#[trigger] s[i]).node == u;
            assert(s[i].members@.len() > 0);
            assert(s[i].members@.contains(s[i].members@[0]));
            assert(s[i].members@.to_set().contains(s[i].members@[0]));
            assert(neighborhood(g, u, closed).contains(s[i].members@[0]));
        }
        if g.contains_key(u) && inhabited(neighborhood(g, u, closed)) {
            let i = choose|i: int| 0 <= i < s.len() && (#[trigger] s[i]).node == u;
            let x = choose|x: u32| neighborhood(g, u, closed).contains(x);
            assert(s[i].members@.to_set().contains(x));
            assert(s[i].members@.contains(x));
        }
    }
    assert forall|u: u32| #[trigger] table.contains_key(u) implies is_min_of(
        table[u],
        neighborhood(g, u, closed),
    ) by {
        let i = choose|i: int| 0 <= i < s.len() && (#[trigger] s[i]).node == u;
        assert(s[i].members@.len() > 0);
    }
}

/// A set with a member has a minimum.
pub proof fn lemma_min_exists(s: Set<u32>, x: u32)
    requires
        s.contains(x),
    ensures
        is_min_of(set_min(s), s),
        set_min(s) <= x,
    decreases x,
{
    if forall|y: u32| s.contains(y) ==> x <= y {
        assert(is_min_of(x, s));
    } else {
        let y = choose|y: u32| s.contains(y) && y < x;
        lemma_min_exists(s, y);
    }
}

/// A set with a member that is bounded from above has a maximum.
pub proof fn lemma_max_exists(s: Set<u32>, x: u32, bound: u32) -> (m: u32)
    requires
        s.contains(x),
        forall|y: u32| s.contains(y) ==> y <= bound,
    ensures
        s.contains(m),
        forall|y: u32| s.contains(y) ==> y <= m,
    decreases bound - x,
{
    if forall|y: u32| s.contains(y) ==> y <= x {
        x
    } else {
        let y = choose|y: u32| s.contains(y) && y > x;
        lemma_max_exists(s, y, bound)
    }
}

} // verus!
