use epos::graph::{ConcurrentGraph, Neighborhood};
use epos::minimum::{get_vmins, row_min};
use epos::prune::{get_outgoing_neighborhood, prune, prune_os};
use epos::seeds::seed_propagation;
use epos::select::{link_members, min_selection_base, min_selection_ep};
use std::collections::{BTreeMap, BTreeSet, HashMap};

fn adjacency(g: &ConcurrentGraph) -> BTreeMap<u32, BTreeSet<u32>> {
    let mut out = BTreeMap::new();
    for entry in g.get_neighborhoods() {
        out.insert(entry.node, entry.members.into_iter().collect());
    }
    out
}

fn graph(rows: &[(u32, &[u32])]) -> BTreeMap<u32, BTreeSet<u32>> {
    rows.iter().map(|(u, vs)| (*u, vs.iter().copied().collect())).collect()
}

fn undirected(edges: &[(u32, u32)]) -> ConcurrentGraph {
    let mut g = ConcurrentGraph::new_undirected();
    for &(u, v) in edges {
        g.add_edge(u, v);
    }
    g
}

fn directed(edges: &[(u32, u32)]) -> ConcurrentGraph {
    let mut g = ConcurrentGraph::new_directed();
    for &(u, v) in edges {
        g.add_edge(u, v);
    }
    g
}

#[test]
fn row_min_is_the_smallest() {
    assert_eq!(row_min(&vec![4, 2, 9]), 2);
    assert_eq!(row_min(&vec![7]), 7);
}

#[test]
fn vmins_skip_empty_neighborhoods() {
    let snapshot = vec![
        Neighborhood { node: 5, members: vec![9, 3, 5] },
        Neighborhood { node: 8, members: vec![] },
        Neighborhood { node: 1, members: vec![2] },
    ];
    let table = get_vmins(&snapshot);
    let expected: HashMap<u32, u32> = [(5, 3), (1, 2)].into_iter().collect();
    assert_eq!(table, expected);
}

#[test]
fn link_members_points_each_at_the_target() {
    let mut h = ConcurrentGraph::new_directed();
    link_members(&mut h, &vec![4, 2, 6], 2, false);
    assert_eq!(adjacency(&h), graph(&[(2, &[2]), (4, &[2]), (6, &[2])]));
    let mut k = ConcurrentGraph::new_directed();
    link_members(&mut k, &vec![4, 2, 6], 2, true);
    assert_eq!(adjacency(&k), graph(&[(2, &[]), (4, &[2]), (6, &[2])]));
}

#[test]
fn base_selection_on_a_path() {
    let g = undirected(&[(1, 2), (2, 3)]);
    let h = min_selection_base(&g);
    assert!(h.node_count() == 3);
    assert_eq!(adjacency(&h), graph(&[(1, &[1]), (2, &[1, 2]), (3, &[1, 2])]));
}

#[test]
fn base_selection_keeps_an_isolated_vertex_as_a_loop() {
    let mut g = undirected(&[(1, 2)]);
    g.remove_node(2);
    let h = min_selection_base(&g);
    assert_eq!(adjacency(&h), graph(&[(1, &[1])]));
}

#[test]
fn pruning_selection_on_a_path() {
    let g = undirected(&[(5, 6), (6, 7), (7, 8)]);
    let h = min_selection_ep(&g);
    assert_eq!(adjacency(&h), graph(&[(5, &[5]), (6, &[5, 6]), (7, &[5, 6, 7]), (8, &[6, 7])]));
}

#[test]
fn pruning_selection_on_two_edges() {
    let g = undirected(&[(1, 2), (3, 4)]);
    let h = min_selection_ep(&g);
    assert_eq!(adjacency(&h), graph(&[(1, &[1]), (2, &[1]), (3, &[3]), (4, &[3])]));
}

#[test]
fn pruning_selection_drops_isolated_vertices() {
    let mut g = undirected(&[(1, 2), (3, 4)]);
    g.remove_node(4);
    let h = min_selection_ep(&g);
    assert_eq!(adjacency(&h), graph(&[(1, &[1]), (2, &[1])]));
}

#[test]
fn pruning_selection_of_a_local_minimum_with_a_lower_neighborhood() {
    // 3 is the minimum of its own neighborhood {3, 4}; 4 also sees 1.
    let g = undirected(&[(3, 4), (4, 1)]);
    let h = min_selection_ep(&g);
    assert_eq!(adjacency(&h), graph(&[(1, &[1]), (3, &[1]), (4, &[1])]));
}

#[test]
fn prune_on_a_path() {
    let h = directed(&[(5, 5), (6, 5), (6, 6), (7, 5), (7, 6), (7, 7), (8, 6), (8, 7)]);
    let (g, t) = prune(h, ConcurrentGraph::new_directed());
    assert_eq!(adjacency(&g), graph(&[(5, &[6, 7]), (6, &[5, 7]), (7, &[5, 6])]));
    assert_eq!(adjacency(&t), graph(&[(6, &[8]), (8, &[])]));
}

#[test]
fn prune_os_keeps_one_direction() {
    let h = directed(&[(5, 5), (6, 5), (6, 6), (7, 5), (7, 6), (7, 7), (8, 6), (8, 7)]);
    let (g, t) = prune_os(h, ConcurrentGraph::new_directed());
    assert_eq!(adjacency(&g), graph(&[(5, &[]), (6, &[5]), (7, &[5, 6])]));
    assert_eq!(adjacency(&t), graph(&[(6, &[8]), (8, &[])]));
}

#[test]
fn prune_keeps_a_seed_without_edges() {
    let h = directed(&[(1, 1), (2, 1)]);
    let (g, t) = prune(h, ConcurrentGraph::new_directed());
    assert_eq!(adjacency(&g), graph(&[(1, &[])]));
    assert_eq!(adjacency(&t), graph(&[(1, &[2]), (2, &[])]));
}

#[test]
fn a_lone_self_loop_stays_for_one_round() {
    let g = undirected(&[(0, 0)]);
    let h = min_selection_ep(&g);
    assert_eq!(adjacency(&h), graph(&[(0, &[0])]));
    let (g, t) = prune(h, ConcurrentGraph::new_directed());
    assert_eq!(adjacency(&g), graph(&[(0, &[])]));
    assert_eq!(t.node_count(), 0);
    let h = min_selection_ep(&g);
    assert_eq!(h.node_count(), 0);
    let (g, t) = prune(h, t);
    assert_eq!(g.node_count(), 0);
    assert_eq!(t.node_count(), 0);
}

#[test]
fn prune_keeps_the_forest_it_was_given() {
    let tree = directed(&[(6, 8)]);
    let h = directed(&[(5, 5), (6, 5), (7, 5)]);
    let (g, t) = prune(h, tree);
    assert_eq!(adjacency(&g), graph(&[(5, &[])]));
    assert_eq!(adjacency(&t), graph(&[(5, &[6, 7]), (6, &[8]), (7, &[]), (8, &[])]));
}

#[test]
fn prune_skips_a_vertex_without_out_edges() {
    let mut h = directed(&[(3, 9), (4, 2)]);
    h.remove_node(9);
    let (g, t) = prune(h, ConcurrentGraph::new_directed());
    assert_eq!(g.node_count(), 0);
    assert_eq!(adjacency(&t), graph(&[(2, &[4]), (4, &[])]));
}

#[test]
fn seeds_follow_the_forest() {
    let t = directed(&[(6, 8), (5, 6), (5, 7)]);
    let seeds = seed_propagation(&t);
    let expected: HashMap<u32, u32> = [(5, 5), (6, 5), (7, 5), (8, 5)].into_iter().collect();
    assert_eq!(seeds, expected);
}

#[test]
fn seeds_of_an_empty_forest() {
    let seeds = seed_propagation(&ConcurrentGraph::new_directed());
    assert!(seeds.is_empty());
}

#[test]
fn seed_of_a_vertex_below_a_larger_one_is_that_one() {
    let t = directed(&[(9, 4)]);
    let seeds = seed_propagation(&t);
    let expected: HashMap<u32, u32> = [(4, 9), (9, 9)].into_iter().collect();
    assert_eq!(seeds, expected);
}

#[test]
fn seeds_of_a_deep_chain() {
    let t = directed(&[(1, 2), (2, 3), (3, 4), (4, 5), (10, 11)]);
    let seeds = seed_propagation(&t);
    for u in 1..=5u32 {
        assert_eq!(seeds[&u], 1);
    }
    assert_eq!(seeds[&10], 10);
    assert_eq!(seeds[&11], 10);
}

#[test]
fn outgoing_neighborhoods_list_every_vertex() {
    let h = directed(&[(6, 5), (6, 6), (7, 5)]);
    let mut rows: Vec<(u32, Vec<u32>)> = get_outgoing_neighborhood(&h)
        .into_iter()
        .map(|n| {
            let mut m = n.members;
            m.sort();
            (n.node, m)
        })
        .collect();
    rows.sort();
    assert_eq!(rows, vec![(5, vec![]), (6, vec![5, 6]), (7, vec![5])]);
}

#[test]
fn seeds_do_not_depend_on_the_order_of_the_edges() {
    let forward = vec![(1, 2), (2, 3), (3, 4), (10, 11), (11, 12)];
    let mut backward = forward.clone();
    backward.reverse();
    assert_eq!(
        epos::components::connected_components(&forward),
        epos::components::connected_components(&backward)
    );
}

#[test]
fn rounds_by_hand_agree_with_the_driver() {
    let edges = vec![(5, 6), (6, 7), (7, 8), (20, 21)];
    let mut g = undirected(&edges);
    let mut t = ConcurrentGraph::new_directed();
    let start = g.node_count();
    let mut rounds = 0;
    while g.node_count() > 0 {
        let before = g.node_count();
        let h = min_selection_ep(&g);
        let (next, forest) = prune(h, t);
        g = next;
        t = forest;
        assert!(g.node_count() <= before);
        rounds += 1;
    }
    assert_eq!(rounds, 3);
    assert!(rounds <= 2 * start);
    let seeds = seed_propagation(&t);
    assert_eq!(seeds, epos::components::connected_components(&edges));
}

#[test]
fn seeds_of_a_long_chain_need_the_ascending_order() {
    let mut t = ConcurrentGraph::new_directed();
    for u in 0..60u32 {
        t.add_edge(u * 3, u * 3 + 3);
    }
    let seeds = seed_propagation(&t);
    assert_eq!(seeds.len(), 61);
    for u in 0..=60u32 {
        assert_eq!(seeds[&(u * 3)], 0);
    }
}

#[test]
fn forest_keeps_its_shape_through_the_rounds() {
    let edges = vec![(9, 4), (4, 7), (7, 9), (7, 2), (2, 8), (8, 3), (30, 31), (31, 32), (12, 12)];
    let mut g = undirected(&edges);
    let mut t = ConcurrentGraph::new_directed();
    while g.node_count() > 0 {
        let h = min_selection_ep(&g);
        let (next, forest) = prune(h, t);
        g = next;
        t = forest;
        for u in t.nodes() {
            let parents = t.incoming_edges(u);
            assert!(parents.len() <= 1);
            for p in parents {
                assert!(p < u);
            }
            assert!(!g.contains_node(u) || t.incoming_edges(u).is_empty());
        }
    }
    let roots: Vec<u32> = {
        let mut r: Vec<u32> = t.nodes().into_iter().filter(|u| t.incoming_edges(*u).is_empty()).collect();
        r.sort();
        r
    };
    assert_eq!(roots, vec![2, 30]);
}
