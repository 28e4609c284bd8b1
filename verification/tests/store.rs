use epos::graph::{row_contains, ConcurrentGraph, Neighborhood};
use std::collections::{BTreeMap, BTreeSet};

fn as_map(snapshot: Vec<Neighborhood>) -> BTreeMap<u32, BTreeSet<u32>> {
    let mut out = BTreeMap::new();
    for entry in snapshot {
        let len = entry.members.len();
        let set: BTreeSet<u32> = entry.members.into_iter().collect();
        assert_eq!(set.len(), len);
        assert!(out.insert(entry.node, set).is_none());
    }
    out
}

fn set(items: &[u32]) -> BTreeSet<u32> {
    items.iter().copied().collect()
}

fn sorted(mut v: Vec<u32>) -> Vec<u32> {
    v.sort();
    v
}

#[test]
fn new_graphs_are_empty() {
    let d = ConcurrentGraph::new_directed();
    let u = ConcurrentGraph::new_undirected();
    assert_eq!(d.node_count(), 0);
    assert_eq!(u.node_count(), 0);
    assert!(d.nodes().is_empty());
    assert!(u.get_neighborhoods().is_empty());
}

#[test]
fn directed_edge_goes_one_way() {
    let mut g = ConcurrentGraph::new_directed();
    g.add_edge(1, 2);
    assert_eq!(g.node_count(), 2);
    assert!(g.contains_node(1));
    assert!(g.contains_node(2));
    assert!(!g.contains_node(3));
    let n = as_map(g.get_neighborhoods());
    assert_eq!(n[&1], set(&[2]));
    assert_eq!(n[&2], set(&[]));
    assert_eq!(g.incoming_edges(2), vec![1]);
    assert!(g.incoming_edges(1).is_empty());
}

#[test]
fn undirected_edge_goes_both_ways() {
    let mut g = ConcurrentGraph::new_undirected();
    g.add_edge(1, 2);
    let n = as_map(g.get_neighborhoods());
    assert_eq!(n[&1], set(&[2]));
    assert_eq!(n[&2], set(&[1]));
    assert_eq!(g.incoming_edges(1), vec![2]);
}

#[test]
fn add_edge_is_idempotent() {
    let mut g = ConcurrentGraph::new_undirected();
    g.add_edge(4, 9);
    g.add_edge(4, 9);
    g.add_edge(9, 4);
    assert_eq!(g.node_count(), 2);
    let n = as_map(g.get_neighborhoods());
    assert_eq!(n[&4], set(&[9]));
    assert_eq!(n[&9], set(&[4]));
}

#[test]
fn self_loop_is_kept() {
    let mut g = ConcurrentGraph::new_undirected();
    g.add_edge(7, 7);
    assert_eq!(g.node_count(), 1);
    let n = as_map(g.get_neighborhoods());
    assert_eq!(n[&7], set(&[7]));
    let c = as_map(g.get_closed_neighborhoods());
    assert_eq!(c[&7], set(&[7]));
}

#[test]
fn closed_neighborhoods_hold_the_vertex() {
    let mut g = ConcurrentGraph::new_undirected();
    g.add_edge(1, 2);
    g.add_edge(1, 3);
    let c = as_map(g.get_closed_neighborhoods());
    assert_eq!(c[&1], set(&[1, 2, 3]));
    assert_eq!(c[&2], set(&[1, 2]));
    assert_eq!(c[&3], set(&[1, 3]));
    let n = as_map(g.get_neighborhoods());
    assert_eq!(n[&1], set(&[2, 3]));
}

#[test]
fn remove_node_takes_its_edges() {
    let mut g = ConcurrentGraph::new_undirected();
    g.add_edge(1, 2);
    g.add_edge(2, 3);
    g.add_edge(3, 1);
    g.remove_node(2);
    assert_eq!(sorted(g.nodes()), vec![1, 3]);
    let n = as_map(g.get_neighborhoods());
    assert_eq!(n[&1], set(&[3]));
    assert_eq!(n[&3], set(&[1]));
}

#[test]
fn remove_node_leaves_an_isolated_vertex() {
    let mut g = ConcurrentGraph::new_directed();
    g.add_edge(5, 6);
    g.remove_node(6);
    assert_eq!(g.nodes(), vec![5]);
    let n = as_map(g.get_neighborhoods());
    assert_eq!(n[&5], set(&[]));
    g.remove_node(42);
    assert_eq!(g.node_count(), 1);
}

#[test]
fn incoming_edges_of_a_directed_graph() {
    let mut g = ConcurrentGraph::new_directed();
    g.add_edge(1, 9);
    g.add_edge(2, 9);
    g.add_edge(9, 3);
    assert_eq!(sorted(g.incoming_edges(9)), vec![1, 2]);
    assert_eq!(g.incoming_edges(3), vec![9]);
}

#[test]
fn row_contains_finds_members() {
    assert!(row_contains(&vec![3, 1, 2], 2));
    assert!(!row_contains(&vec![3, 1, 2], 4));
    assert!(!row_contains(&Vec::new(), 0));
}

#[test]
fn edge_count_of_a_directed_graph() {
    let mut g = ConcurrentGraph::new_directed();
    assert_eq!(g.edge_count(), Some(0));
    g.add_edge(1, 2);
    g.add_edge(2, 1);
    g.add_edge(2, 2);
    g.add_edge(1, 2);
    assert_eq!(g.edge_count(), Some(3));
}

#[test]
fn edge_count_of_an_undirected_graph_counts_each_edge_once() {
    let mut g = ConcurrentGraph::new_undirected();
    g.add_edge(1, 2);
    g.add_edge(2, 1);
    g.add_edge(2, 3);
    g.add_edge(3, 3);
    assert_eq!(g.edge_count(), Some(3));
    g.remove_node(2);
    assert_eq!(g.edge_count(), Some(1));
}

#[test]
fn contains_edge_follows_the_orientation() {
    let mut d = ConcurrentGraph::new_directed();
    d.add_edge(1, 2);
    assert!(d.contains_edge(1, 2));
    assert!(!d.contains_edge(2, 1));
    assert!(!d.contains_edge(7, 1));
    let mut u = ConcurrentGraph::new_undirected();
    u.add_edge(1, 2);
    assert!(u.contains_edge(1, 2));
    assert!(u.contains_edge(2, 1));
}

#[test]
fn add_node_adds_a_vertex_without_edges() {
    let mut g = ConcurrentGraph::new_undirected();
    g.add_node(3);
    g.add_edge(1, 2);
    g.add_node(1);
    assert_eq!(sorted(g.nodes()), vec![1, 2, 3]);
    let n = as_map(g.get_neighborhoods());
    assert_eq!(n[&3], set(&[]));
    assert_eq!(n[&1], set(&[2]));
    assert_eq!(g.edge_count(), Some(1));
}
