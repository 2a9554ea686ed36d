use tessellation::bitset::BitSet;
use tessellation::cell_configs::{
    cell_config, component, get_connected_edges, get_connected_edges_from_edge_set, is_crossing,
};
use tessellation::edge::Edge;

//  Corner indexes
//
//      6---------------7
//     /|              /|
//    / |             / |
//   /  |            /  |
//  4---------------5   |
//  |   |           |   |
//  |   2-----------|---3
//  |  /            |  /
//  | /             | /
//  |/              |/
//  0---------------1

//  Edge indexes
//
//      +-------9-------+
//     /|              /|
//    7 |            10 |              ^
//   /  8            /  11            /
//  +-------6-------+   |     ^    higher indexes in y
//  |   |           |   |     |     /
//  |   +-------3---|---+     |    /
//  2  /            5  /  higher indexes
//  | 1             | 4      in z
//  |/              |/        |/
//  o-------0-------+         +-- higher indexes in x ---->

fn corners(list: &[usize]) -> BitSet {
    let mut b = BitSet::zero();
    for &c in list {
        b.set(c);
    }
    b
}

#[test]
fn connected_edges() {
    let cell = BitSet::from_4bits(0, 6, 3, 5);
    let edge_set = BitSet::from_4bits(4, 5, 10, 11);
    let connected_edges = get_connected_edges_from_edge_set(edge_set, cell);
    assert_eq!(connected_edges.len(), 2);
    assert!(connected_edges.contains(&BitSet::from_4bits(5, 5, 6, 10)));
    assert!(connected_edges.contains(&BitSet::from_4bits(3, 3, 4, 11)));
}

#[test]
fn no_sign_change_no_vertex() {
    assert!(cell_config(BitSet::zero()).is_empty());
    assert!(cell_config(BitSet::new(255)).is_empty());
}

#[test]
fn one_negative_corner_cuts_its_three_edges() {
    assert_eq!(cell_config(corners(&[0])), vec![BitSet::from_3bits(0, 1, 2)]);
    assert_eq!(cell_config(corners(&[7])), vec![BitSet::from_3bits(9, 10, 11)]);
    assert_eq!(cell_config(corners(&[5])), vec![BitSet::from_3bits(5, 6, 10)]);
}

#[test]
fn one_positive_corner_cuts_its_three_edges() {
    assert_eq!(cell_config(corners(&[1, 2, 3, 4, 5, 6, 7])), vec![BitSet::from_3bits(0, 1, 2)]);
}

#[test]
fn two_corners_on_an_edge_make_one_vertex() {
    assert_eq!(cell_config(corners(&[0, 1])), vec![BitSet::from_4bits(1, 2, 4, 5)]);
}

#[test]
fn half_space_makes_one_vertex() {
    // the four corners with z = 0
    assert_eq!(cell_config(corners(&[0, 1, 2, 3])), vec![BitSet::from_4bits(2, 5, 8, 11)]);
}

#[test]
fn negative_corners_across_a_face_diagonal_stay_apart() {
    let config = cell_config(corners(&[0, 3]));
    assert_eq!(config, vec![BitSet::from_3bits(0, 1, 2), BitSet::from_3bits(3, 4, 11)]);
}

#[test]
fn positive_corners_across_a_face_diagonal_are_joined() {
    let config = cell_config(corners(&[1, 2, 4, 5, 6, 7]));
    assert_eq!(config.len(), 1);
    let mut all = BitSet::from_3bits(0, 1, 2);
    all = all.merge(BitSet::from_3bits(3, 4, 11));
    assert_eq!(config[0], all);
}

#[test]
fn four_apart_corners_make_four_vertices() {
    let config = cell_config(BitSet::from_4bits(0, 3, 5, 6));
    assert_eq!(
        config,
        vec![
            BitSet::from_3bits(0, 1, 2),
            BitSet::from_3bits(3, 4, 11),
            BitSet::from_3bits(5, 6, 10),
            BitSet::from_3bits(7, 8, 9),
        ]
    );
}

#[test]
fn components_part_the_sign_change_edges() {
    for pattern in 0..256u32 {
        let cell = BitSet::new(pattern);
        let config = cell_config(cell);
        let mut seen = BitSet::zero();
        for c in &config {
            assert!(!c.empty());
            assert!(c.intersect(seen).empty(), "pattern {}", pattern);
            seen = seen.merge(*c);
        }
        for e in 0..12 {
            assert_eq!(seen.get(e), is_crossing(cell, e), "pattern {} edge {}", pattern, e);
        }
        assert!(config.len() <= 4);
    }
}

#[test]
fn component_of_an_edge_is_listed_in_the_configuration() {
    for pattern in 0..256u32 {
        let cell = BitSet::new(pattern);
        let config = cell_config(cell);
        for e in 0..12 {
            if is_crossing(cell, e) {
                let c = component(cell, e);
                assert!(c.get(e));
                assert!(config.contains(&c));
                assert_eq!(get_connected_edges(Edge::from_usize(e), cell), c);
            }
        }
    }
}

#[test]
fn edge_set_selects_components_in_order() {
    let cell = BitSet::from_4bits(0, 3, 5, 6);
    let all = get_connected_edges_from_edge_set(BitSet::new(4095), cell);
    assert_eq!(all, cell_config(cell));
    let none = get_connected_edges_from_edge_set(BitSet::zero(), cell);
    assert!(none.is_empty());
    let one = get_connected_edges_from_edge_set(BitSet::from_3bits(9, 9, 9), cell);
    assert_eq!(one, vec![BitSet::from_3bits(7, 8, 9)]);
}
