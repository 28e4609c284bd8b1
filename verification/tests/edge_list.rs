use epos::components::connected_components;
use epos::edge_list::{parse_edge_line, LineError};
use std::collections::HashMap;

fn edges_of(text: &str) -> Vec<(u32, u32)> {
    let mut edges = Vec::new();
    for line in text.as_bytes().split(|c| *c == b'\n') {
        if let Some(edge) = parse_edge_line(line).unwrap() {
            edges.push(edge);
        }
    }
    edges
}

fn seeds_of(text: &str) -> HashMap<u32, u32> {
    connected_components(&edges_of(text))
}

fn expect(pairs: &[(u32, u32)]) -> HashMap<u32, u32> {
    pairs.iter().copied().collect()
}

#[test]
fn line_of_two_numbers() {
    assert_eq!(parse_edge_line(b"1 2"), Ok(Some((1, 2))));
    assert_eq!(parse_edge_line(b"  10\t 3 \r"), Ok(Some((10, 3))));
    assert_eq!(parse_edge_line(b"007 0"), Ok(Some((7, 0))));
}

#[test]
fn line_of_white_space_holds_no_edge() {
    assert_eq!(parse_edge_line(b""), Ok(None));
    assert_eq!(parse_edge_line(b" \t\r"), Ok(None));
}

#[test]
fn largest_vertex_is_read() {
    assert_eq!(parse_edge_line(b"4294967295 0"), Ok(Some((4294967295, 0))));
}

#[test]
fn number_beyond_32_bits_is_out_of_range() {
    assert_eq!(parse_edge_line(b"4294967296 0"), Err(LineError::OutOfRange));
    assert_eq!(parse_edge_line(b"1 99999999999999999999999"), Err(LineError::OutOfRange));
}

#[test]
fn other_lines_are_malformed() {
    assert_eq!(parse_edge_line(b"1"), Err(LineError::Malformed));
    assert_eq!(parse_edge_line(b"1 2 3"), Err(LineError::Malformed));
    assert_eq!(parse_edge_line(b"a b"), Err(LineError::Malformed));
    assert_eq!(parse_edge_line(b"1,2"), Err(LineError::Malformed));
    assert_eq!(parse_edge_line(b"-1 2"), Err(LineError::Malformed));
    assert_eq!(parse_edge_line(b"1 2x"), Err(LineError::Malformed));
    assert_eq!(parse_edge_line(b"12"), Err(LineError::Malformed));
}

#[test]
fn empty_input_gives_no_seeds() {
    assert_eq!(seeds_of(""), HashMap::new());
}

#[test]
fn self_loop_input() {
    assert_eq!(seeds_of("0 0"), expect(&[(0, 0)]));
}

#[test]
fn two_disjoint_edges_input() {
    assert_eq!(seeds_of("1 2\n3 4\n"), expect(&[(1, 1), (2, 1), (3, 3), (4, 3)]));
}

#[test]
fn triangle_input() {
    assert_eq!(seeds_of("1 2\n2 3\n1 3"), expect(&[(1, 1), (2, 1), (3, 1)]));
}

#[test]
fn path_input() {
    assert_eq!(seeds_of("5 6\n6 7\n7 8"), expect(&[(5, 5), (6, 5), (7, 5), (8, 5)]));
}

#[test]
fn star_input() {
    assert_eq!(seeds_of("10 1\n10 2\n10 3"), expect(&[(1, 1), (2, 1), (3, 1), (10, 1)]));
}

#[test]
fn duplicate_lines_collapse() {
    assert_eq!(seeds_of("1 2\n1 2\n2 1\n"), expect(&[(1, 1), (2, 1)]));
}
