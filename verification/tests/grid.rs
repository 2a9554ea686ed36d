use std::collections::BTreeMap;
use tessellation::bitset::BitSet;
use tessellation::edge::{Edge, EdgeIndex};
use tessellation::edge_grid::{bitset_for_cell, generate_edge_grid};
use tessellation::engine::pow2roundup;
use tessellation::error::DualContouringError;
use tessellation::leaf::generate_leaf_vertices;
use tessellation::value_grid::{
    compact_value_grid, corner_index, corner_key, has_opposed_neighbor, sample_value_grid,
    shifted, LatticeField,
};

/// A field given by a table, with one value everywhere else.
struct Table {
    values: BTreeMap<(usize, usize, usize), i64>,
    elsewhere: i64,
}

impl LatticeField for Table {
    fn value(&self, idx: [usize; 3]) -> i64 {
        *self.values.get(&(idx[0], idx[1], idx[2])).unwrap_or(&self.elsewhere)
    }
}

fn table(entries: &[((usize, usize, usize), i64)], elsewhere: i64) -> Table {
    Table { values: entries.iter().copied().collect(), elsewhere }
}

#[test]
fn pow2roundup_is_the_next_power_of_two() {
    assert_eq!(pow2roundup(1), 1);
    assert_eq!(pow2roundup(2), 2);
    assert_eq!(pow2roundup(3), 4);
    assert_eq!(pow2roundup(4), 4);
    assert_eq!(pow2roundup(5), 8);
    assert_eq!(pow2roundup(15), 16);
    assert_eq!(pow2roundup(1000), 1024);
    assert_eq!(pow2roundup(usize::MAX / 2 + 1), usize::MAX / 2 + 1);
    assert_eq!(pow2roundup(usize::MAX / 2), usize::MAX / 2 + 1);
}

#[test]
fn corner_keys_and_indices() {
    assert_eq!(corner_key([1, 2, 3]), (1, 2, 3));
    assert_eq!(corner_index((1, 2, 3)), [1, 2, 3]);
    assert_eq!(shifted((1, 2, 3), (0, 1, 2)), Some((0, 2, 4)));
    assert_eq!(shifted((0, 2, 3), (0, 1, 2)), None);
    assert_eq!(shifted((0, 0, usize::MAX), (1, 1, 2)), None);
    assert_eq!(shifted((0, 0, usize::MAX), (1, 1, 1)), Some((0, 0, usize::MAX)));
}

#[test]
fn far_values_are_stored_at_the_corners_of_the_half_cubes() {
    let field = table(&[], 100);
    let mut grid = BTreeMap::new();
    let r = sample_value_grid(&mut grid, &field, [0, 0, 0], 8, 100);
    assert_eq!(r, None);
    let keys: Vec<_> = grid.keys().copied().collect();
    assert_eq!(
        keys,
        vec![(0, 0, 0), (0, 0, 4), (0, 4, 0), (0, 4, 4), (4, 0, 0), (4, 0, 4), (4, 4, 0), (4, 4, 4)]
    );
    assert!(grid.values().all(|&v| v == 100));
}

#[test]
fn near_values_are_sampled_finer() {
    // the value 3 is near for half cubes of side 4, far for those of side 2
    let field = table(&[((4, 4, 4), 3)], 100);
    let mut grid = BTreeMap::new();
    assert_eq!(sample_value_grid(&mut grid, &field, [0, 0, 0], 8, 100), None);
    // seven corners of the coarse cubes and the eight corners of the finer ones
    assert_eq!(grid.len(), 7 + 8);
    assert_eq!(grid.get(&(4, 4, 4)), Some(&3));
    assert_eq!(grid.get(&(6, 6, 6)), Some(&100));
    assert_eq!(grid.get(&(4, 6, 4)), Some(&100));
    assert_eq!(grid.get(&(5, 5, 5)), None);
    // the value 2 is near for side 2 as well: sampled down to single cells
    let field = table(&[((4, 4, 4), 2)], 100);
    let mut grid = BTreeMap::new();
    assert_eq!(sample_value_grid(&mut grid, &field, [0, 0, 0], 8, 100), None);
    assert_eq!(grid.len(), 7 + 7 + 8);
    assert_eq!(grid.get(&(5, 5, 5)), Some(&100));
    assert_eq!(grid.get(&(4, 4, 4)), Some(&2));
}

#[test]
fn negative_near_values_are_sampled_finer_too() {
    let field = table(&[((0, 0, 0), -4)], -100);
    let mut grid = BTreeMap::new();
    assert_eq!(sample_value_grid(&mut grid, &field, [0, 0, 0], 8, -4), None);
    assert_eq!(grid.len(), 7 + 8);
    assert_eq!(grid.get(&(0, 0, 0)), Some(&-4));
    assert_eq!(grid.get(&(2, 2, 2)), Some(&-100));
}

#[test]
fn the_value_of_the_low_corner_is_taken_as_given() {
    let field = table(&[((0, 0, 0), 5)], 100);
    let mut grid = BTreeMap::new();
    assert_eq!(sample_value_grid(&mut grid, &field, [0, 0, 0], 2, 7), None);
    assert_eq!(grid.get(&(0, 0, 0)), Some(&7));
    assert_eq!(grid.len(), 8);
}

#[test]
fn zero_stops_the_sampling() {
    let field = table(&[((4, 0, 4), 0)], 100);
    let mut grid = BTreeMap::new();
    let r = sample_value_grid(&mut grid, &field, [0, 0, 0], 8, 100);
    assert_eq!(r, Some(DualContouringError::HitZero([4, 0, 4])));
    // a zero inside a finer cube
    let field = table(&[((4, 4, 4), 1), ((5, 4, 4), 0)], 100);
    let mut grid = BTreeMap::new();
    let r = sample_value_grid(&mut grid, &field, [0, 0, 0], 8, 100);
    assert_eq!(r, Some(DualContouringError::HitZero([5, 4, 4])));
    // a zero that is never sampled
    let field = table(&[((5, 5, 5), 0)], 100);
    let mut grid = BTreeMap::new();
    assert_eq!(sample_value_grid(&mut grid, &field, [0, 0, 0], 8, 100), None);
    // a zero at the low corner
    let field = table(&[], 100);
    let mut grid = BTreeMap::new();
    let r = sample_value_grid(&mut grid, &field, [0, 0, 0], 8, 0);
    assert_eq!(r, Some(DualContouringError::HitZero([0, 0, 0])));
}

fn grid_of(entries: &[((usize, usize, usize), i64)]) -> BTreeMap<(usize, usize, usize), i64> {
    entries.iter().copied().collect()
}

#[test]
fn compaction_keeps_values_next_to_a_sign_change() {
    let mut grid = grid_of(&[
        ((0, 0, 0), 5),
        ((1, 1, 1), -1),
        ((2, 2, 2), -7),
        ((3, 3, 3), -7),
        ((5, 5, 5), 2),
        ((5, 5, 7), -2),
    ]);
    assert!(has_opposed_neighbor(&grid, (0, 0, 0)));
    assert!(has_opposed_neighbor(&grid, (1, 1, 1)));
    assert!(!has_opposed_neighbor(&grid, (2, 2, 2)));
    assert!(!has_opposed_neighbor(&grid, (5, 5, 5)));
    compact_value_grid(&mut grid);
    assert_eq!(grid, grid_of(&[((0, 0, 0), 5), ((1, 1, 1), -1)]));
    let mut empty: BTreeMap<(usize, usize, usize), i64> = BTreeMap::new();
    compact_value_grid(&mut empty);
    assert!(empty.is_empty());
}

#[test]
fn sign_pattern_of_a_cell() {
    let mut entries = Vec::new();
    for z in 0..2 {
        for y in 0..2 {
            for x in 0..2 {
                entries.push(((x + 3, y + 4, z + 5), if (x, y, z) == (1, 0, 1) { -1 } else { 1 }));
            }
        }
    }
    let grid = grid_of(&entries);
    assert_eq!(bitset_for_cell(&grid, [3, 4, 5]), Ok(BitSet::new(1 << 5)));
    assert_eq!(
        bitset_for_cell(&grid, [4, 4, 5]),
        Err(DualContouringError::MissingValue([5, 4, 5]))
    );
    assert_eq!(
        bitset_for_cell(&grid, [2, 4, 5]),
        Err(DualContouringError::MissingValue([2, 4, 5]))
    );
    assert_eq!(
        bitset_for_cell(&grid, [usize::MAX, 4, 5]),
        Err(DualContouringError::MissingValue([usize::MAX, 4, 5]))
    );
}

#[test]
fn edge_grid_lists_the_sign_change_edges() {
    let grid = grid_of(&[
        ((1, 1, 1), -1),
        ((2, 1, 1), 1),
        ((1, 2, 1), 1),
        ((1, 1, 2), -3),
        ((0, 1, 1), 1),
        ((1, 1, 3), -3),
    ]);
    let edges = generate_edge_grid(&grid);
    assert_eq!(
        edges,
        vec![
            EdgeIndex { edge: Edge::A, index: [0, 1, 1] },
            EdgeIndex { edge: Edge::A, index: [1, 1, 1] },
            EdgeIndex { edge: Edge::B, index: [1, 1, 1] },
        ]
    );
    assert!(generate_edge_grid(&BTreeMap::new()).is_empty());
}

/// The values of a block of `n`^3 corners that are negative at one corner.
fn block_with_negative(n: usize, negative: (usize, usize, usize)) -> BTreeMap<(usize, usize, usize), i64> {
    let mut grid = BTreeMap::new();
    for z in 0..n {
        for y in 0..n {
            for x in 0..n {
                grid.insert((x, y, z), if (x, y, z) == negative { -1 } else { 1 });
            }
        }
    }
    grid
}

#[test]
fn leaves_around_one_negative_corner() {
    let grid = block_with_negative(3, (1, 1, 1));
    let edges = generate_edge_grid(&grid);
    assert_eq!(edges.len(), 6);
    let (leaves, map) = generate_leaf_vertices(&grid, &edges).unwrap();
    // one vertex in each of the eight cells around the corner
    assert_eq!(leaves.len(), 8);
    assert_eq!(map.len(), 8);
    // the cell (0, 0, 0) has the corner as its corner 7
    let number = map[&(0, 0, 0, BitSet::from_3bits(9, 10, 11).as_u32())];
    let v = &leaves[number];
    assert_eq!(v.index, [0, 0, 0]);
    assert_eq!(v.edge_intersections, [0, 0, 0, 0, 0, 0, 0, 0, 0, 1, 1, 1]);
    assert_eq!(v.euler_characteristic, 1);
    assert!(v.children.is_empty());
    assert_eq!(v.parent, None);
    assert_eq!(v.neighbors[1], vec![map[&(1, 0, 0, BitSet::from_3bits(7, 8, 9).as_u32())]]);
    assert_eq!(v.neighbors[3], vec![map[&(0, 1, 0, BitSet::from_3bits(5, 6, 10).as_u32())]]);
    assert_eq!(v.neighbors[5], vec![map[&(0, 0, 1, BitSet::from_3bits(3, 4, 11).as_u32())]]);
    assert!(v.neighbors[0].is_empty() && v.neighbors[2].is_empty() && v.neighbors[4].is_empty());
    for (u, vertex) in leaves.iter().enumerate() {
        for face in 0..6 {
            for &n in &vertex.neighbors[face] {
                assert!(leaves[n].neighbors[face ^ 1].contains(&u));
            }
        }
    }
}

#[test]
fn leaves_need_the_cells_around_the_edges() {
    // the negative corner lies on the low faces of the lattice
    let grid = block_with_negative(3, (0, 1, 1));
    let edges = generate_edge_grid(&grid);
    let r = generate_leaf_vertices(&grid, &edges);
    assert!(matches!(r, Err(DualContouringError::MissingValue(_))));
    // a corner is missing from a cell around an edge
    let mut grid = block_with_negative(3, (1, 1, 1));
    grid.remove(&(2, 2, 2));
    let edges = generate_edge_grid(&grid);
    let r = generate_leaf_vertices(&grid, &edges);
    assert_eq!(r.err(), Some(DualContouringError::MissingValue([2, 2, 2])));
    // no edges, no leaves
    let (leaves, map) = generate_leaf_vertices(&BTreeMap::new(), &Vec::new()).unwrap();
    assert!(leaves.is_empty() && map.is_empty());
}

#[test]
fn error_descriptions() {
    assert_eq!(
        DualContouringError::HitZero([1, 2, 3]).description(),
        "Hit zero value during grid sampling."
    );
    assert_eq!(DualContouringError::HitZero([1, 2, 3]).index(), [1, 2, 3]);
    assert_eq!(DualContouringError::MissingValue([4, 5, 6]).index(), [4, 5, 6]);
    assert_eq!(
        DualContouringError::MissingValue([4, 5, 6]).description(),
        "Value grid does not cover the surface."
    );
    assert_eq!(DualContouringError::TooManyVertices([7, 7, 7]).description(), "Too many vertices.");
    assert_eq!(DualContouringError::TooManyVertices([7, 7, 7]).index(), [7, 7, 7]);
}

#[test]
fn only_a_zero_can_be_recovered_from() {
    assert!(DualContouringError::HitZero([1, 2, 3]).is_recoverable());
    assert!(!DualContouringError::MissingValue([1, 2, 3]).is_recoverable());
    assert!(!DualContouringError::TooManyVertices([1, 1, 1]).is_recoverable());
}
