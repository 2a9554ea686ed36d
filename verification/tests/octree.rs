use std::collections::BTreeSet;
use tessellation::bitset::BitSet;
use tessellation::counters::{outside_edges, subsample_euler_characteristics};
use tessellation::octree::{
    add_child_to_parent, add_connected_vertices_in_subcell, connected_members, half_index,
    subsample_octtree, vec_contains,
};
use tessellation::vertex::{QefState, Residual, Vertex};

fn vertex(index: [usize; 3], edges: &[usize]) -> Vertex {
    let mut edge_intersections = [0u32; 12];
    for &e in edges {
        edge_intersections[e] = 1;
    }
    Vertex {
        index,
        qef: QefState::Unsolved,
        neighbors: [Vec::new(), Vec::new(), Vec::new(), Vec::new(), Vec::new(), Vec::new()],
        parent: None,
        children: Vec::new(),
        mesh_index: None,
        edge_intersections,
        euler_characteristic: 1,
    }
}

fn link(layer: &mut Vec<Vertex>, a: usize, face: usize, b: usize) {
    layer[a].neighbors[face].push(b);
    layer[b].neighbors[face ^ 1].push(a);
}

/// The plane x = 0.5 through the block of the eight cells (0..2)^3: the
/// four cells with x = 0 each have the vertex of the edges 0, 3, 6, 9.
fn plane_layer() -> Vec<Vertex> {
    let mut layer = vec![
        vertex([0, 0, 0], &[0, 3, 6, 9]),
        vertex([0, 1, 0], &[0, 3, 6, 9]),
        vertex([0, 0, 1], &[0, 3, 6, 9]),
        vertex([0, 1, 1], &[0, 3, 6, 9]),
    ];
    link(&mut layer, 0, 3, 1);
    link(&mut layer, 0, 5, 2);
    link(&mut layer, 1, 5, 3);
    link(&mut layer, 2, 3, 3);
    layer
}

#[test]
fn half_index_halves_each_coordinate() {
    assert_eq!(half_index(&[0, 1, 2]), [0, 0, 1]);
    assert_eq!(half_index(&[7, 8, 9]), [3, 4, 4]);
}

#[test]
fn vec_contains_finds_entries() {
    assert!(vec_contains(&vec![3, 1, 2], 1));
    assert!(!vec_contains(&vec![3, 1, 2], 0));
    assert!(!vec_contains(&Vec::new(), 0));
}

#[test]
fn outside_edges_are_those_at_the_corner() {
    let expected = [
        BitSet::from_3bits(0, 1, 2),
        BitSet::from_3bits(0, 4, 5),
        BitSet::from_3bits(1, 3, 8),
        BitSet::from_3bits(3, 4, 11),
        BitSet::from_3bits(2, 6, 7),
        BitSet::from_3bits(5, 6, 10),
        BitSet::from_3bits(7, 8, 9),
        BitSet::from_3bits(9, 10, 11),
    ];
    for corner in 0..8 {
        assert_eq!(outside_edges(corner), expected[corner]);
    }
}

#[test]
fn connected_vertices_stay_inside_the_parent_cell() {
    let mut layer = plane_layer();
    // a vertex in the next block, linked to vertex 1 across its high y face
    layer.push(vertex([0, 2, 0], &[0, 3, 6, 9]));
    link(&mut layer, 1, 3, 4);
    let mut set = BTreeSet::new();
    set.insert(0);
    add_connected_vertices_in_subcell(&layer, 0, &mut set);
    assert_eq!(set.into_iter().collect::<Vec<_>>(), vec![0, 1, 2, 3]);
    assert_eq!(connected_members(&layer, 4), vec![4]);
    assert_eq!(connected_members(&layer, 3), vec![0, 1, 2, 3]);
}

#[test]
fn unlinked_vertices_of_one_cell_stay_apart() {
    let layer = vec![vertex([0, 0, 0], &[0, 1, 2]), vertex([1, 1, 1], &[9, 10, 11])];
    assert_eq!(connected_members(&layer, 0), vec![0]);
    assert_eq!(connected_members(&layer, 1), vec![1]);
}

#[test]
fn euler_accounting_of_a_plane() {
    let layer = plane_layer();
    let (intersections, euler) = subsample_euler_characteristics(&vec![0, 1, 2, 3], &layer);
    // each child hands up the one edge that lies on an edge of the parent
    assert_eq!(intersections, [1, 0, 0, 1, 0, 0, 1, 0, 0, 1, 0, 0]);
    // 12 inner sign changes: 4 - 12 / 4
    assert_eq!(euler, 1);
}

#[test]
fn euler_accounting_of_a_single_corner() {
    let layer = vec![vertex([0, 0, 0], &[0, 1, 2])];
    let (intersections, euler) = subsample_euler_characteristics(&vec![0], &layer);
    assert_eq!(intersections, [1, 1, 1, 0, 0, 0, 0, 0, 0, 0, 0, 0]);
    assert_eq!(euler, 1);
    let other = vec![vertex([1, 1, 1], &[0, 1, 2])];
    let (intersections, euler) = subsample_euler_characteristics(&vec![0], &other);
    // at corner 7 the edges 0, 1, 2 are inner: 1 - 3 / 4
    assert_eq!(intersections, [0; 12]);
    assert_eq!(euler, 1);
    let (intersections, euler) = subsample_euler_characteristics(&Vec::new(), &other);
    assert_eq!(intersections, [0; 12]);
    assert_eq!(euler, 0);
}

#[test]
fn child_hands_up_neighbors_at_the_faces_of_the_parent() {
    let mut child = vertex([2, 3, 5], &[0]);
    child.neighbors[0] = vec![10, 11];
    child.neighbors[1] = vec![12];
    child.neighbors[2] = vec![13];
    child.neighbors[3] = vec![14, 10];
    child.neighbors[4] = vec![15];
    child.neighbors[5] = vec![16];
    let mut parent = vertex([1, 1, 2], &[]);
    parent.neighbors[0] = vec![11];
    add_child_to_parent(&child, &mut parent);
    // even x: low x face; odd y: high y face; odd z: high z face
    assert_eq!(parent.neighbors[0], vec![11, 10]);
    assert!(parent.neighbors[1].is_empty());
    assert!(parent.neighbors[2].is_empty());
    assert_eq!(parent.neighbors[3], vec![14, 10]);
    assert!(parent.neighbors[4].is_empty());
    assert_eq!(parent.neighbors[5], vec![16]);
}

#[test]
fn subsample_groups_a_plane_into_one_parent() {
    let mut layer = plane_layer();
    let parents = subsample_octtree(&mut layer);
    assert_eq!(parents.len(), 1);
    assert_eq!(parents[0].index, [0, 0, 0]);
    assert_eq!(parents[0].children, vec![0, 1, 2, 3]);
    assert_eq!(parents[0].edge_intersections, [1, 0, 0, 1, 0, 0, 1, 0, 0, 1, 0, 0]);
    assert_eq!(parents[0].euler_characteristic, 1);
    assert_eq!(parents[0].parent, None);
    assert_eq!(parents[0].mesh_index, None);
    assert_eq!(parents[0].qef, QefState::Unsolved);
    assert!(parents[0].is_2manifold());
    for face in 0..6 {
        assert!(parents[0].neighbors[face].is_empty());
    }
    for v in &layer {
        assert_eq!(v.parent, Some(0));
    }
}

#[test]
fn subsample_links_parents_across_the_face_of_their_cells() {
    // the plane x = 0.5 through two blocks that meet at y = 2
    let mut layer = plane_layer();
    layer.push(vertex([0, 2, 0], &[0, 3, 6, 9]));
    layer.push(vertex([0, 2, 1], &[0, 3, 6, 9]));
    link(&mut layer, 1, 3, 4);
    link(&mut layer, 3, 3, 5);
    link(&mut layer, 4, 5, 5);
    let parents = subsample_octtree(&mut layer);
    assert_eq!(parents.len(), 2);
    assert_eq!(parents[0].children, vec![0, 1, 2, 3]);
    assert_eq!(parents[1].children, vec![4, 5]);
    assert_eq!(parents[0].index, [0, 0, 0]);
    assert_eq!(parents[1].index, [0, 1, 0]);
    // both children at the face hand the neighbor up: the parent is listed
    // for each of them
    assert_eq!(parents[0].neighbors[3], vec![1, 1]);
    assert_eq!(parents[1].neighbors[2], vec![0, 0]);
    for face in [0, 1, 2, 4, 5] {
        assert!(parents[0].neighbors[face].is_empty());
    }
    assert_eq!(layer[4].parent, Some(1));
    assert_eq!(layer[0].parent, Some(0));
    // the second parent has the edges 0 and 6 of its cell cut, 3 and 9 not
    assert_eq!(parents[1].edge_intersections, [1, 0, 0, 0, 0, 0, 1, 0, 0, 0, 0, 0]);
    // 2 - 6 / 4
    assert_eq!(parents[1].euler_characteristic, 1);
}

#[test]
fn subsample_of_an_empty_layer_is_empty() {
    let mut layer: Vec<Vertex> = Vec::new();
    assert!(subsample_octtree(&mut layer).is_empty());
}

#[test]
fn manifold_needs_euler_one_and_faces_with_none_or_two_sign_changes() {
    let mut v = vertex([0, 0, 0], &[0, 3, 6, 9]);
    assert!(v.is_2manifold());
    v.euler_characteristic = 2;
    assert!(!v.is_2manifold());
    v.euler_characteristic = 0;
    assert!(!v.is_2manifold());
    v.euler_characteristic = 1;
    // a second sign change along edge 0: the faces of edge 0 count three
    v.edge_intersections[0] = 2;
    assert!(!v.is_2manifold());
    // four sign changes in the face z = 0
    let w = vertex([0, 0, 0], &[0, 1, 3, 4]);
    assert!(!w.is_2manifold());
    // one sign change in a face
    let u = vertex([0, 0, 0], &[0]);
    assert!(!u.is_2manifold());
    // no sign change at all
    let n = vertex([0, 0, 0], &[]);
    assert!(n.is_2manifold());
    // a corner cut off
    let c = vertex([0, 0, 0], &[0, 1, 2]);
    assert!(c.is_2manifold());
}

#[test]
fn qef_states() {
    assert!(!QefState::Unsolved.is_solved());
    assert!(QefState::Solved(Residual::Within).is_solved());
    assert!(!QefState::Solved(Residual::Within).is_exceeding());
    assert!(QefState::Solved(Residual::Above).is_exceeding());
    assert!(QefState::Solved(Residual::Below).is_exceeding());
    assert!(!QefState::Solved(Residual::Above).is_accepted());
    assert!(QefState::Solved(Residual::Below).is_accepted());
    assert!(QefState::Solved(Residual::Within).is_accepted());
    assert!(!QefState::Unsolved.is_accepted());
    assert!(!QefState::Unsolved.is_exceeding());
}

#[test]
fn clone_copies_every_field() {
    let mut v = vertex([4, 5, 6], &[1, 2]);
    v.neighbors[2] = vec![7, 8];
    v.neighbors[5] = vec![9];
    v.children = vec![1, 2, 3];
    v.parent = Some(4);
    v.mesh_index = Some(5);
    v.qef = QefState::Solved(Residual::Below);
    v.euler_characteristic = -3;
    let c = v.clone();
    assert_eq!(c.index, v.index);
    assert_eq!(c.qef, v.qef);
    assert_eq!(c.neighbors, v.neighbors);
    assert_eq!(c.parent, v.parent);
    assert_eq!(c.children, v.children);
    assert_eq!(c.mesh_index, v.mesh_index);
    assert_eq!(c.edge_intersections, v.edge_intersections);
    assert_eq!(c.euler_characteristic, v.euler_characteristic);
}
