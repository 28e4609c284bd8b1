//! The graph store: an adjacency table in a directed or an undirected
//! orientation, with edge insertion, node removal and neighborhood snapshots.

use crate::store::{rows, table_drop, table_has, table_keys, table_len, table_new, table_put, table_row};
use dashmap::DashMap;
use vstd::prelude::*;

verus! {

/// `g` holds the edge from `u` to `v`.
pub open spec fn has_edge(g: Map<u32, Set<u32>>, u: u32, v: u32) -> bool {
    g.contains_key(u) && g[u].contains(v)
}

/// Every neighbor is itself a vertex.
pub open spec fn closed_under_edges(g: Map<u32, Set<u32>>) -> bool {
    forall|u: u32, v: u32| #[trigger] has_edge(g, u, v) ==> g.contains_key(v)
}

/// Every edge is held in both directions.
pub open spec fn symmetric(g: Map<u32, Set<u32>>) -> bool {
    forall|u: u32, v: u32| #[trigger] has_edge(g, u, v) ==> has_edge(g, v, u)
}

/// `g` with the vertex `u`, which gets no neighbors if it is new.
pub open spec fn with_node(g: Map<u32, Set<u32>>, u: u32) -> Map<u32, Set<u32>> {
    if g.contains_key(u) {
        g
    } else {
        g.insert(u, Set::empty())
    }
}

/// `g` with the vertices `u` and `v` and the edge from `u` to `v`.
pub open spec fn with_arc(g: Map<u32, Set<u32>>, u: u32, v: u32) -> Map<u32, Set<u32>> {
    with_node(with_node(g, u).insert(u, with_node(g, u)[u].insert(v)), v)
}

/// `g` after `add_edge(u, v)` in the given orientation.
pub open spec fn with_edge(g: Map<u32, Set<u32>>, u: u32, v: u32, directed: bool) -> Map<
    u32,
    Set<u32>,
> {
    if directed {
        with_arc(g, u, v)
    } else {
        with_arc(with_arc(g, u, v), v, u)
    }
}

/// `g` without the vertex `u` and without every edge from or to it.
pub open spec fn without_node(g: Map<u32, Set<u32>>, u: u32) -> Map<u32, Set<u32>> {
    Map::new(|w: u32| g.contains_key(w) && w != u, |w: u32| g[w].remove(u))
}

/// One vertex with the vertices of its neighborhood, each once.
pub struct Neighborhood {
    pub node: u32,
    pub members: Vec<u32>,
}

/// What a neighborhood of `node` in `g` holds: its neighbors, and in the
/// closed form the vertex itself too.
pub open spec fn neighborhood(g: Map<u32, Set<u32>>, node: u32, closed: bool) -> Set<u32> {
    if closed {
        g[node].insert(node)
    } else {
        g[node]
    }
}

/// No two entries are about the same vertex, and no entry names a member twice.
pub open spec fn distinct_nodes(s: Seq<Neighborhood>) -> bool {
    &&& forall|i: int, j: int| 0 <= i < j < s.len() ==> (#[trigger] s[i]).node != (#[trigger] s[j]).node
    &&& forall|i: int| 0 <= i < s.len() ==> (#[trigger] s[i]).members@.no_duplicates()
}

/// `s` lists each vertex of `g` once, with its neighborhood.
pub open spec fn snapshot_of(s: Seq<Neighborhood>, g: Map<u32, Set<u32>>, closed: bool) -> bool {
    &&& distinct_nodes(s)
    &&& forall|i: int|
        0 <= i < s.len() ==> g.contains_key((#[trigger] s[i]).node) && s[i].members@.to_set()
            =~= neighborhood(g, s[i].node, closed)
    &&& forall|u: u32| g.contains_key(u) ==> exists|i: int| 0 <= i < s.len() && (#[trigger] s[i]).node == u
}

/// `x` is among the first `i` entries of a snapshot.
pub open spec fn listed_before(s: Seq<Neighborhood>, i: int, x: u32) -> bool {
    exists|j: int| 0 <= j < i && (#[trigger] s[j]).node == x
}

/// `x` is among the first `k` vertices of `list`.
pub open spec fn in_prefix(list: Seq<u32>, k: int, x: u32) -> bool {
    exists|j: int| 0 <= j < k && list[j] == x
}

/// The edges of `g`: in a directed graph every ordered pair, in an
/// undirected one every pair once.
pub open spec fn edge_set(g: Map<u32, Set<u32>>, directed: bool) -> Set<(u32, u32)> {
    Set::new(|e: (u32, u32)| has_edge(g, e.0, e.1) && (directed || e.0 <= e.1))
}

/// Whether `row` holds `v`.
pub fn row_contains(row: &Vec<u32>, v: u32) -> (b: bool)
    ensures
        b == row@.contains(v),
{
    let mut i: usize = 0;
    while i < row.len()
        invariant
            i <= row.len(),
            forall|j: int| 0 <= j < i ==> row@[j] != v,
        decreases row.len() - i,
    {
        if row[i] == v {
            return true;
        }
        i += 1;
    }
    false
}

/// `row` without `u`.
fn row_without(row: &Vec<u32>, u: u32) -> (out: Vec<u32>)
    requires
        row@.no_duplicates(),
    ensures
        out@.no_duplicates(),
        out@.to_set() =~= row@.to_set().remove(u),
{
    let mut out: Vec<u32> = Vec::new();
    let mut i: usize = 0;
    while i < row.len()
        invariant
            i <= row.len(),
            row@.no_duplicates(),
            out@.no_duplicates(),
            forall|k: int| 0 <= k < out@.len() ==> out@[k] != u && exists|j: int| 0 <= j < i && row@[j] == #[trigger] out@[k],
            forall|j: int| 0 <= j < i && row@[j] != u ==> out@.contains(#[trigger] row@[j]),
        decreases row.len() - i,
    {
        let x = row[i];
        if x != u {
            let ghost before = out@;
            out.push(x);
            proof {
                assert forall|j: int| 0 <= j < i + 1 && row@[j] != u implies out@.contains(#[trigger] row@[j]) by {
                    if j < i {
                        let k = choose|k: int| 0 <= k < before.len() && before[k] == row@[j];
                        assert(out@[k] == row@[j]);
                    } else {
                        assert(out@[before.len() as int] == x);
                    }
                }
            }
        }
        i += 1;
    }
    proof {
        assert forall|x: u32| out@.to_set().contains(x) <==> row@.to_set().remove(u).contains(x) by {
            if out@.contains(x) {
                let k = choose|k: int| 0 <= k < out@.len() && out@[k] == x;
                assert(row@.contains(x));
            }
            if row@.contains(x) && x != u {
                let j = choose|j: int| 0 <= j < row@.len() && row@[j] == x;
                assert(out@.contains(row@[j]));
            }
        }
    }
    out
}

/// A graph over 32-bit vertex identifiers, directed or undirected.
pub struct ConcurrentGraph {
    adj: DashMap<u32, Vec<u32>>,
    directed: bool,
}

impl View for ConcurrentGraph {
    type V = Map<u32, Set<u32>>;

    /// The adjacency: each vertex with the set of its neighbors.
    closed spec fn view(&self) -> Map<u32, Set<u32>> {
        Map::new(|u: u32| rows(self.adj).contains_key(u), |u: u32| rows(self.adj)[u].to_set())
    }
}

impl ConcurrentGraph {
    /// The orientation: `true` for a directed graph.
    pub closed spec fn is_directed(&self) -> bool {
        self.directed
    }

    /// The table holds finitely many rows, none with a vertex twice.
    pub closed spec fn rows_ok(&self) -> bool {
        &&& rows(self.adj).dom().finite()
        &&& forall|u: u32| rows(self.adj).contains_key(u) ==> (#[trigger] rows(self.adj)[u]).no_duplicates()
    }

    /// The store's invariant: every neighbor is a vertex, and an undirected
    /// graph holds each edge in both directions.
    pub open spec fn wf(&self) -> bool {
        &&& self.rows_ok()
        &&& closed_under_edges(self@)
        &&& (self.is_directed() || symmetric(self@))
    }

    /// A valid store has finitely many vertices, each with finitely many neighbors.
    pub proof fn lemma_finite(&self)
        requires
            self.rows_ok(),
        ensures
            self@.dom().finite(),
            forall|u: u32| self@.contains_key(u) ==> (#[trigger] self@[u]).finite(),
    {
        assert(self@.dom() =~= rows(self.adj).dom());
        assert forall|u: u32| self@.contains_key(u) implies (#[trigger] self@[u]).finite() by {
            vstd::seq_lib::seq_to_set_is_finite(rows(self.adj)[u]);
        }
    }

    /// An empty directed graph.
    pub fn new_directed() -> (g: Self)
        ensures
            g@ == Map::<u32, Set<u32>>::empty(),
            g.is_directed(),
            g.wf(),
    {
        let g = ConcurrentGraph { adj: table_new(), directed: true };
        proof {
            assert(rows(g.adj).dom() =~= Set::<u32>::empty());
            assert(g@ =~= Map::<u32, Set<u32>>::empty());
        }
        g
    }

    /// An empty undirected graph.
    pub fn new_undirected() -> (g: Self)
        ensures
            g@ == Map::<u32, Set<u32>>::empty(),
            !g.is_directed(),
            g.wf(),
    {
        let g = ConcurrentGraph { adj: table_new(), directed: false };
        proof {
            assert(rows(g.adj).dom() =~= Set::<u32>::empty());
            assert(g@ =~= Map::<u32, Set<u32>>::empty());
        }
        g
    }

    /// Adds the vertices `u` and `v` where they are new, and the edge from
    /// `u` to `v`.
    fn add_arc(&mut self, u: u32, v: u32)
        requires
            old(self).rows_ok(),
        ensures
            final(self).rows_ok(),
            final(self).is_directed() == old(self).is_directed(),
            final(self)@ == with_arc(old(self)@, u, v),
    {
        match table_row(&self.adj, u) {
            Some(mut row) => {
                if !row_contains(&row, v) {
                    let ghost before = row@;
                    row.push(v);
                    proof {
                        before.lemma_push_to_set_commute(v);
                    }
                    table_put(&mut self.adj, u, row);
                } else {
                    assert(row@.to_set().insert(v) =~= row@.to_set());
                }
            },
            None => {
                let mut row: Vec<u32> = Vec::new();
                row.push(v);
                proof {
                    Seq::<u32>::empty().lemma_push_to_set_commute(v);
                    assert(Seq::<u32>::empty().to_set() =~= Set::<u32>::empty());
                }
                table_put(&mut self.adj, u, row);
            },
        }
        if !table_has(&self.adj, v) {
            table_put(&mut self.adj, v, Vec::new());
            proof {
                assert(Seq::<u32>::empty().to_set() =~= Set::<u32>::empty());
            }
        }
        proof {
            assert(self@ =~~= with_arc(old(self)@, u, v));
        }
    }

    /// Adds the vertices `u` and `v` where they are new, and the edge from
    /// `u` to `v`; in an undirected graph also the edge from `v` to `u`.
    /// Adding an edge that is there changes nothing.
    pub fn add_edge(&mut self, u: u32, v: u32)
        requires
            old(self).wf(),
        ensures
            final(self).wf(),
            final(self).is_directed() == old(self).is_directed(),
            final(self)@ == with_edge(old(self)@, u, v, old(self).is_directed()),
    {
        self.add_arc(u, v);
        if !self.directed {
            self.add_arc(v, u);
        }
        proof {
            lemma_with_edge_keeps(old(self)@, u, v, self.directed);
        }
    }

    /// Adds the vertex `u` where it is new, with no edge.
    pub fn add_node(&mut self, u: u32)
        requires
            old(self).wf(),
        ensures
            final(self).wf(),
            final(self).is_directed() == old(self).is_directed(),
            final(self)@ == with_node(old(self)@, u),
    {
        if !table_has(&self.adj, u) {
            table_put(&mut self.adj, u, Vec::new());
            proof {
                assert(Seq::<u32>::empty().to_set() =~= Set::<u32>::empty());
            }
        }
        proof {
            assert(self@ =~~= with_node(old(self)@, u));
            assert forall|a: u32, b: u32| #[trigger] has_edge(self@, a, b) implies has_edge(old(self)@, a, b) by {}
        }
    }

    /// Removes the vertex `u` and every edge from or to it.
    pub fn remove_node(&mut self, u: u32)
        requires
            old(self).wf(),
        ensures
            final(self).wf(),
            final(self).is_directed() == old(self).is_directed(),
            final(self)@ == without_node(old(self)@, u),
    {
        if !table_has(&self.adj, u) {
            proof {
                assert forall|w: u32| self@.contains_key(w) implies self@[w].remove(u) =~= self@[w] by {
                    if self@[w].contains(u) {
                        assert(has_edge(self@, w, u));
                    }
                }
                assert(self@ =~~= without_node(self@, u));
            }
            return ;
        }
        let keys = table_keys(&self.adj);
        table_drop(&mut self.adj, u);
        let ghost start = rows(old(self).adj);
        let mut i: usize = 0;
        while i < keys.len()
            invariant
                i <= keys.len(),
                self.directed == old(self).directed,
                start == rows(old(self).adj),
                old(self).rows_ok(),
                forall|k: u32| keys@.contains(k) <==> start.contains_key(k),
                rows(self.adj).dom() =~= start.dom().remove(u),
                forall|w: u32| #[trigger]
                    rows(self.adj).contains_key(w) ==> rows(self.adj)[w].no_duplicates() && (
                    rows(self.adj)[w].to_set() =~= start[w].to_set().remove(u) || (rows(
                        self.adj,
                    )[w] == start[w] && !(exists|j: int| 0 <= j < i && keys@[j] == w))),
            decreases keys.len() - i,
        {
            let w = keys[i];
            if w != u {
                assert(keys@.contains(w));
                match table_row(&self.adj, w) {
                    Some(row) => {
                        let ghost prev = rows(self.adj);
                        let kept = row_without(&row, u);
                        table_put(&mut self.adj, w, kept);
                        proof {
                            assert(start[w].to_set().remove(u).remove(u) =~= start[w].to_set().remove(u));
                            assert(rows(self.adj).dom() =~= start.dom().remove(u));
                            assert forall|x: u32| #[trigger]
                                rows(self.adj).contains_key(x) implies rows(self.adj)[x].no_duplicates() && (
                                rows(self.adj)[x].to_set() =~= start[x].to_set().remove(u) || (rows(
                                    self.adj,
                                )[x] == start[x] && !(exists|j: int| 0 <= j < i + 1 && keys@[j] == x))) by {
                                if x != w {
                                    assert(rows(self.adj)[x] == prev[x]);
                                    assert(prev.contains_key(x));
                                }
                            }
                        }
                    },
                    None => {
                        proof {
                            assert(false);
                        }
                    },
                }
            }
            i += 1;
        }
        proof {
            assert forall|w: u32| #[trigger] rows(self.adj).contains_key(w) implies rows(self.adj)[w].to_set()
                =~= start[w].to_set().remove(u) by {
                assert(keys@.contains(w));
                let j = choose|j: int| 0 <= j < keys@.len() && keys@[j] == w;
                assert(0 <= j < i && keys@[j] == w);
            }
            assert(self@ =~~= without_node(old(self)@, u));
            lemma_without_node_keeps(old(self)@, u, self.directed);
        }
    }

    /// The number of vertices.
    pub fn node_count(&self) -> (n: usize)
        requires
            self.wf(),
        ensures
            n == self@.dom().len(),
    {
        proof {
            assert(self@.dom() =~= rows(self.adj).dom());
        }
        table_len(&self.adj)
    }

    /// The number of edges, or `None` where it does not fit the machine word.
    /// An undirected graph counts an edge once, whichever way it was added.
    pub fn edge_count(&self) -> (n: Option<usize>)
        requires
            self.wf(),
        ensures
            edge_set(self@, self.is_directed()).finite(),
            match n {
                Some(c) => c == edge_set(self@, self.is_directed()).len(),
                None => edge_set(self@, self.is_directed()).len() > usize::MAX,
            },
    {
        let snap = self.snapshot(false);
        let ghost all = edge_set(self@, self.directed);
        let ghost mut seen: Set<(u32, u32)> = Set::empty();
        let mut total: Option<usize> = Some(0);
        let mut i: usize = 0;
        while i < snap.len()
            invariant
                i <= snap.len(),
                snapshot_of(snap@, self@, false),
                all == edge_set(self@, self.directed),
                seen.finite(),
                forall|e: (u32, u32)| #[trigger] seen.contains(e) <==> (all.contains(e) && listed_before(snap@, i as int, e.0)),
                match total {
                    Some(c) => c == seen.len(),
                    None => seen.len() > usize::MAX,
                },
            decreases snap.len() - i,
        {
            let u = snap[i].node;
            let members = &snap[i].members;
            let ghost before = seen;
            let mut k: usize = 0;
            proof {
                assert(self@.contains_key(snap@[i as int].node));
                assert(members@.to_set() =~= self@[u]);
                assert(!listed_before(snap@, i as int, u)) by {
                    if listed_before(snap@, i as int, u) {
                        let j = choose|j: int| 0 <= j < i && (#[trigger] snap@[j]).node == u;
                        assert(snap@[j].node != snap@[i as int].node);
                    }
                }
            }
            while k < members.len()
                invariant
                    k <= members.len(),
                    i < snap.len(),
                    u == snap@[i as int].node,
                    members@ == snap@[i as int].members@,
                    members@.no_duplicates(),
                    members@.to_set() =~= self@[u],
                    self@.contains_key(u),
                    all == edge_set(self@, self.directed),
                    !listed_before(snap@, i as int, u),
                    seen.finite(),
                    forall|e: (u32, u32)| #[trigger]
                        seen.contains(e) <==> (all.contains(e) && (listed_before(snap@, i as int, e.0) || (e.0 == u
                            && in_prefix(members@, k as int, e.1)))),
                    match total {
                        Some(c) => c == seen.len(),
                        None => seen.len() > usize::MAX,
                    },
                decreases members.len() - k,
            {
                let v = members[k];
                let ghost prev = seen;
                proof {
                    assert(members@.contains(v));
                    assert(members@.to_set().contains(v));
                    assert(has_edge(self@, u, v));
                    assert(!in_prefix(members@, k as int, v)) by {
                        if in_prefix(members@, k as int, v) {
                            let j = choose|j: int| 0 <= j < k && members@[j] == v;
                            assert(members@[j] != members@[k as int]);
                        }
                    }
                    assert forall|x: u32| in_prefix(members@, k + 1, x) <==> (in_prefix(members@, k as int, x) || x == v) by {
                        if in_prefix(members@, k + 1, x) {
                            let j = choose|j: int| 0 <= j < k + 1 && members@[j] == x;
                            if j < k {
                                assert(in_prefix(members@, k as int, x));
                            }
                        }
                        if in_prefix(members@, k as int, x) {
                            let j = choose|j: int| 0 <= j < k && members@[j] == x;
                            assert(0 <= j < k + 1 && members@[j] == x);
                        }
                        if x == v {
                            assert(members@[k as int] == x);
                        }
                    }
                }
                if self.directed || u <= v {
                    proof {
                        assert(all.contains((u, v)));
                        assert(!prev.contains((u, v)));
                        seen = prev.insert((u, v));
                    }
                    total = match total {
                        Some(c) => c.checked_add(1),
                        None => None,
                    };
                } else {
                    proof {
                        assert(!all.contains((u, v)));
                    }
                }
                proof {
                    assert forall|e: (u32, u32)| #[trigger]
                        seen.contains(e) <==> (all.contains(e) && (listed_before(snap@, i as int, e.0) || (e.0 == u
                            && in_prefix(members@, k + 1, e.1)))) by {
                        assert(prev.contains(e) <==> (all.contains(e) && (listed_before(snap@, i as int, e.0) || (
                        e.0 == u && in_prefix(members@, k as int, e.1)))));
                        assert(in_prefix(members@, k + 1, e.1) <==> (in_prefix(members@, k as int, e.1) || e.1 == v));
                        assert(seen.contains(e) <==> (prev.contains(e) || (e == (u, v) && all.contains((u, v)))));
                    }
                }
                k += 1;
            }
            proof {
                assert forall|x: u32| listed_before(snap@, i + 1, x) <==> (listed_before(snap@, i as int, x) || x == u) by {
                    if listed_before(snap@, i + 1, x) {
                        let j = choose|j: int| 0 <= j < i + 1 && (#[trigger] snap@[j]).node == x;
                        if j < i {
                            assert(listed_before(snap@, i as int, x));
                        }
                    }
                    if listed_before(snap@, i as int, x) {
                        let j = choose|j: int| 0 <= j < i && (#[trigger] snap@[j]).node == x;
                        assert(0 <= j < i + 1 && snap@[j].node == x);
                    }
                    if x == u {
                        assert(snap@[i as int].node == x);
                    }
                }
                assert forall|e: (u32, u32)| #[trigger]
                    seen.contains(e) <==> (all.contains(e) && listed_before(snap@, i + 1, e.0)) by {
                    assert(listed_before(snap@, i + 1, e.0) <==> (listed_before(snap@, i as int, e.0) || e.0 == u));
                    if all.contains(e) && e.0 == u {
                        assert(has_edge(self@, u, e.1));
                        assert(members@.to_set().contains(e.1));
                        assert(members@.contains(e.1));
                        let j = choose|j: int| 0 <= j < members@.len() && members@[j] == e.1;
                        assert(in_prefix(members@, members@.len() as int, e.1));
                    }
                }
            }
            i += 1;
        }
        proof {
            assert forall|e: (u32, u32)| all.contains(e) implies listed_before(snap@, snap@.len() as int, e.0) by {
                assert(self@.contains_key(e.0));
                let j = choose|j: int| 0 <= j < snap@.len() && (#[trigger] snap@[j]).node == e.0;
            }
            assert(seen =~= all);
        }
        total
    }

    /// Whether `u` is a vertex.
    pub fn contains_node(&self, u: u32) -> (b: bool)
        ensures
            b == self@.contains_key(u),
    {
        table_has(&self.adj, u)
    }

    /// Whether the graph holds the edge from `u` to `v`.
    pub fn contains_edge(&self, u: u32, v: u32) -> (b: bool)
        ensures
            b == has_edge(self@, u, v),
    {
        match table_row(&self.adj, u) {
            Some(row) => {
                proof {
                    assert(row@.to_set().contains(v) <==> row@.contains(v));
                }
                row_contains(&row, v)
            },
            None => false,
        }
    }

    /// The vertices, each once, in no fixed order.
    pub fn nodes(&self) -> (out: Vec<u32>)
        ensures
            out@.no_duplicates(),
            forall|u: u32| out@.contains(u) <==> self@.contains_key(u),
    {
        table_keys(&self.adj)
    }

    /// Each vertex with its neighborhood, open or closed.
    fn snapshot(&self, closed: bool) -> (out: Vec<Neighborhood>)
        requires
            self.wf(),
        ensures
            snapshot_of(out@, self@, closed),
    {
        let keys = table_keys(&self.adj);
        let mut out: Vec<Neighborhood> = Vec::new();
        let mut i: usize = 0;
        while i < keys.len()
            invariant
                i <= keys.len(),
                self.wf(),
                keys@.no_duplicates(),
                forall|k: u32| keys@.contains(k) <==> rows(self.adj).contains_key(k),
                out@.len() == i,
                forall|j: int| 0 <= j < i ==> (#[trigger] out@[j]).node == keys@[j],
                forall|j: int|
                    0 <= j < i ==> (#[trigger] out@[j]).members@.no_duplicates() && out@[j].members@.to_set()
                        =~= neighborhood(self@, out@[j].node, closed),
            decreases keys.len() - i,
        {
            let u = keys[i];
            assert(keys@.contains(u));
            match table_row(&self.adj, u) {
                Some(mut row) => {
                    if closed && !row_contains(&row, u) {
                        let ghost before = row@;
                        row.push(u);
                        proof {
                            before.lemma_push_to_set_commute(u);
                        }
                    } else if closed {
                        assert(row@.to_set().insert(u) =~= row@.to_set());
                    }
                    out.push(Neighborhood { node: u, members: row });
                },
                None => {
                    proof {
                        assert(false);
                    }
                },
            }
            i += 1;
        }
        proof {
            assert forall|a: int, b: int| 0 <= a < b < out@.len() implies (#[trigger] out@[a]).node != (
            #[trigger] out@[b]).node by {
                assert(keys@[a] != keys@[b]);
            }
            assert forall|j: int| 0 <= j < out@.len() implies self@.contains_key((#[trigger] out@[j]).node) by {
                assert(keys@.contains(keys@[j]));
            }
            assert forall|u: u32| self@.contains_key(u) implies exists|j: int|
                0 <= j < out@.len() && (#[trigger] out@[j]).node == u by {
                assert(keys@.contains(u));
                let j = choose|j: int| 0 <= j < keys@.len() && keys@[j] == u;
                assert(out@[j].node == u);
            }
        }
        out
    }

    /// Each vertex with its neighbors.
    pub fn get_neighborhoods(&self) -> (out: Vec<Neighborhood>)
        requires
            self.wf(),
        ensures
            snapshot_of(out@, self@, false),
    {
        self.snapshot(false)
    }

    /// Each vertex with its neighbors and itself.
    pub fn get_closed_neighborhoods(&self) -> (out: Vec<Neighborhood>)
        requires
            self.wf(),
        ensures
            snapshot_of(out@, self@, true),
    {
        self.snapshot(true)
    }

    /// The vertices that hold an edge to `u`, each once.
    pub fn incoming_edges(&self, u: u32) -> (out: Vec<u32>)
        requires
            self.wf(),
        ensures
            out@.no_duplicates(),
            forall|p: u32| out@.contains(p) <==> has_edge(self@, p, u),
    {
        let keys = table_keys(&self.adj);
        let mut out: Vec<u32> = Vec::new();
        let mut i: usize = 0;
        while i < keys.len()
            invariant
                i <= keys.len(),
                keys@.no_duplicates(),
                forall|k: u32| keys@.contains(k) <==> rows(self.adj).contains_key(k),
                out@.no_duplicates(),
                forall|k: int| 0 <= k < out@.len() ==> has_edge(self@, #[trigger] out@[k], u) && exists|j: int| 0 <= j < i && keys@[j] == out@[k],
                forall|j: int| 0 <= j < i && has_edge(self@, #[trigger] keys@[j], u) ==> out@.contains(keys@[j]),
            decreases keys.len() - i,
        {
            let p = keys[i];
            assert(keys@.contains(p));
            match table_row(&self.adj, p) {
                Some(row) => {
                    if row_contains(&row, u) {
                        let ghost before = out@;
                        out.push(p);
                        proof {
                            assert forall|j: int| 0 <= j < i + 1 && has_edge(self@, #[trigger] keys@[j], u) implies out@.contains(keys@[j]) by {
                                if j < i {
                                    let k = choose|k: int| 0 <= k < before.len() && before[k] == keys@[j];
                                    assert(out@[k] == keys@[j]);
                                } else {
                                    assert(out@[before.len() as int] == p);
                                }
                            }
                        }
                    }
                },
                None => {
                    proof {
                        assert(false);
                    }
                },
            }
            i += 1;
        }
        proof {
            assert forall|p: u32| out@.contains(p) <==> has_edge(self@, p, u) by {
                if has_edge(self@, p, u) {
                    assert(keys@.contains(p));
                    let j = choose|j: int| 0 <= j < keys@.len() && keys@[j] == p;
                    assert(out@.contains(keys@[j]));
                }
            }
        }
        out
    }
}

/// `a` is an end of some edge of `g`.
pub open spec fn touched(g: Map<u32, Set<u32>>, a: u32) -> bool {
    exists|b: u32| has_edge(g, a, b) || has_edge(g, b, a)
}

/// Every vertex of `g` is an end of some edge: true of a graph that grew by
/// `add_edge` alone.
pub open spec fn no_isolated(g: Map<u32, Set<u32>>) -> bool {
    forall|a: u32| g.contains_key(a) ==> #[trigger] touched(g, a)
}

/// The edges after `add_edge(u, v)` are the edges before and the new one, in
/// an undirected graph in both directions; no vertex becomes isolated.
pub proof fn lemma_with_edge_edges(g: Map<u32, Set<u32>>, u: u32, v: u32, directed: bool)
    ensures
        forall|a: u32, b: u32| #[trigger]
            has_edge(with_edge(g, u, v, directed), a, b) <==> (has_edge(g, a, b) || (a == u && b == v) || (
            !directed && a == v && b == u)),
        no_isolated(g) ==> no_isolated(with_edge(g, u, v, directed)),
        forall|a: u32| #[trigger]
            with_edge(g, u, v, directed).contains_key(a) <==> (g.contains_key(a) || a == u || a == v),
{
    let r = with_edge(g, u, v, directed);
    let m = with_arc(g, u, v);
    assert forall|a: u32, b: u32| #[trigger] has_edge(m, a, b) <==> (has_edge(g, a, b) || (a == u && b == v)) by {}
    assert forall|a: u32, b: u32| #[trigger]
        has_edge(r, a, b) <==> (has_edge(g, a, b) || (a == u && b == v) || (!directed && a == v && b
            == u)) by {
        if !directed {
            assert(has_edge(r, a, b) <==> (has_edge(m, a, b) || (a == v && b == u)));
        }
    }
    if no_isolated(g) {
        assert forall|a: u32| r.contains_key(a) implies #[trigger] touched(r, a) by {
            if a == u {
                assert(has_edge(r, a, v));
            } else if a == v {
                assert(has_edge(r, u, a));
            } else {
                assert(g.contains_key(a));
                assert(touched(g, a));
                let b = choose|b: u32| has_edge(g, a, b) || has_edge(g, b, a);
                assert(has_edge(r, a, b) || has_edge(r, b, a));
            }
        }
    }
}

/// Adding an edge keeps the store's invariant.
pub proof fn lemma_with_edge_keeps(g: Map<u32, Set<u32>>, u: u32, v: u32, directed: bool)
    requires
        closed_under_edges(g),
        directed || symmetric(g),
    ensures
        closed_under_edges(with_edge(g, u, v, directed)),
        directed || symmetric(with_edge(g, u, v, directed)),
{
    let a = with_arc(g, u, v);
    assert forall|x: u32, y: u32| #[trigger] has_edge(a, x, y) implies has_edge(g, x, y) || (x == u && y == v) by {}
    assert(a.contains_key(u) && a.contains_key(v));
    assert(closed_under_edges(a)) by {
        assert forall|x: u32, y: u32| #[trigger] has_edge(a, x, y) implies a.contains_key(y) by {
            if has_edge(g, x, y) {
                assert(g.contains_key(y));
            }
        }
    }
    if !directed {
        let b = with_arc(a, v, u);
        assert forall|x: u32, y: u32| #[trigger] has_edge(b, x, y) implies has_edge(a, x, y) || (x == v && y == u) by {}
        assert forall|x: u32, y: u32| #[trigger] has_edge(b, x, y) implies b.contains_key(y) && has_edge(b, y, x) by {
            if has_edge(g, x, y) {
                assert(has_edge(g, y, x));
                assert(g.contains_key(y));
            }
        }
    }
}

/// Removing a vertex keeps the store's invariant.
pub proof fn lemma_without_node_keeps(g: Map<u32, Set<u32>>, u: u32, directed: bool)
    requires
        closed_under_edges(g),
        directed || symmetric(g),
    ensures
        closed_under_edges(without_node(g, u)),
        directed || symmetric(without_node(g, u)),
{
    let r = without_node(g, u);
    assert forall|x: u32, y: u32| #[trigger] has_edge(r, x, y) implies has_edge(g, x, y) && x != u && y != u by {}
    assert forall|x: u32, y: u32| #[trigger] has_edge(r, x, y) implies r.contains_key(y) by {
        assert(has_edge(g, x, y));
    }
    if !directed {
        assert forall|x: u32, y: u32| #[trigger] has_edge(r, x, y) implies has_edge(r, y, x) by {
            assert(has_edge(g, x, y));
            assert(has_edge(g, y, x));
        }
    }
}

} // verus!
