use epos::components::{connected_components, graph_from_edges, label_components};
use std::collections::HashMap;

fn expect(pairs: &[(u32, u32)]) -> HashMap<u32, u32> {
    pairs.iter().copied().collect()
}

#[test]
fn empty_graph_has_no_seeds() {
    let seeds = connected_components(&Vec::new());
    assert_eq!(seeds, HashMap::new());
}

#[test]
fn single_self_loop_is_its_own_seed() {
    let seeds = connected_components(&vec![(0, 0)]);
    assert_eq!(seeds, expect(&[(0, 0)]));
}

#[test]
fn two_disjoint_edges() {
    let seeds = connected_components(&vec![(1, 2), (3, 4)]);
    assert_eq!(seeds, expect(&[(1, 1), (2, 1), (3, 3), (4, 3)]));
}

#[test]
fn triangle() {
    let seeds = connected_components(&vec![(1, 2), (2, 3), (1, 3)]);
    assert_eq!(seeds, expect(&[(1, 1), (2, 1), (3, 1)]));
}

#[test]
fn path_of_four() {
    let seeds = connected_components(&vec![(5, 6), (6, 7), (7, 8)]);
    assert_eq!(seeds, expect(&[(5, 5), (6, 5), (7, 5), (8, 5)]));
}

#[test]
fn star_around_the_largest_vertex() {
    let seeds = connected_components(&vec![(10, 1), (10, 2), (10, 3)]);
    assert_eq!(seeds, expect(&[(1, 1), (2, 1), (3, 1), (10, 1)]));
}

#[test]
fn doubled_edges_give_the_same_seeds() {
    let once = vec![(5, 6), (6, 7), (7, 8), (1, 2)];
    let mut twice = once.clone();
    for &(u, v) in &once {
        twice.push((v, u));
    }
    assert_eq!(connected_components(&once), connected_components(&twice));
}

#[test]
fn repeated_runs_agree() {
    let edges = vec![(9, 4), (4, 7), (7, 9), (2, 8), (8, 3), (12, 12)];
    let first = connected_components(&edges);
    let second = connected_components(&edges);
    assert_eq!(first, second);
    assert_eq!(first, expect(&[(4, 4), (7, 4), (9, 4), (2, 2), (3, 2), (8, 2), (12, 12)]));
}

#[test]
fn seeds_are_fixed_points() {
    let edges = vec![(30, 20), (20, 10), (10, 40), (50, 60), (60, 70), (5, 5)];
    let seeds = connected_components(&edges);
    for (_, s) in &seeds {
        assert_eq!(seeds[s], *s);
    }
    assert_eq!(seeds[&40], 10);
    assert_eq!(seeds[&70], 50);
    assert_eq!(seeds[&5], 5);
}

#[test]
fn order_preserving_relabeling_carries_over() {
    let edges = vec![(1, 2), (2, 3), (4, 5)];
    let moved: Vec<(u32, u32)> = edges.iter().map(|&(u, v)| (u * 10 + 7, v * 10 + 7)).collect();
    let seeds = connected_components(&edges);
    let moved_seeds = connected_components(&moved);
    for (u, s) in &seeds {
        assert_eq!(moved_seeds[&(u * 10 + 7)], s * 10 + 7);
    }
    assert_eq!(moved_seeds.len(), seeds.len());
}

#[test]
fn long_path_in_scrambled_order() {
    let edges = vec![(3, 9), (9, 1), (1, 6), (6, 2), (2, 8), (8, 4), (4, 7), (7, 5)];
    let seeds = connected_components(&edges);
    assert_eq!(seeds.len(), 9);
    for u in 1..=9u32 {
        assert_eq!(seeds[&u], 1);
    }
}

#[test]
fn two_cliques_joined_by_nothing() {
    let mut edges = Vec::new();
    for a in 0..5u32 {
        for b in (a + 1)..5 {
            edges.push((a + 100, b + 100));
            edges.push((a + 200, b + 200));
        }
    }
    let seeds = connected_components(&edges);
    for a in 0..5u32 {
        assert_eq!(seeds[&(a + 100)], 100);
        assert_eq!(seeds[&(a + 200)], 200);
    }
}

#[test]
fn labeling_a_built_graph() {
    let g = graph_from_edges(&vec![(2, 1), (3, 2)]);
    assert_eq!(g.node_count(), 3);
    let seeds = label_components(g);
    assert_eq!(seeds, expect(&[(1, 1), (2, 1), (3, 1)]));
}
