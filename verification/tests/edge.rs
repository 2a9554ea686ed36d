use tessellation::bitset::BitSet;
use tessellation::edge::{quad, Edge, EdgeIndex};
use tessellation::vertex_index::{
    edges_on_face, index_eq, mirror_edge, neg_offset, offset, VertexIndex,
};

const ALL: [Edge; 12] = [
    Edge::A,
    Edge::B,
    Edge::C,
    Edge::D,
    Edge::E,
    Edge::F,
    Edge::G,
    Edge::H,
    Edge::I,
    Edge::J,
    Edge::K,
    Edge::L,
];

#[test]
fn edges_are_numbered_from_a_to_l() {
    for (n, e) in ALL.iter().enumerate() {
        assert_eq!(e.as_usize(), n);
        assert_eq!(Edge::from_usize(n), *e);
    }
}

#[test]
fn base_is_the_edge_of_the_same_axis_at_the_reference_corner() {
    assert_eq!(Edge::A.base(), Edge::A);
    assert_eq!(Edge::D.base(), Edge::A);
    assert_eq!(Edge::G.base(), Edge::A);
    assert_eq!(Edge::J.base(), Edge::A);
    assert_eq!(Edge::E.base(), Edge::B);
    assert_eq!(Edge::K.base(), Edge::B);
    assert_eq!(Edge::F.base(), Edge::C);
    assert_eq!(Edge::L.base(), Edge::C);
}

#[test]
fn edge_offsets() {
    let expected: [[usize; 3]; 12] = [
        [0, 0, 0],
        [0, 0, 0],
        [0, 0, 0],
        [0, 1, 0],
        [1, 0, 0],
        [1, 0, 0],
        [0, 0, 1],
        [0, 0, 1],
        [0, 1, 0],
        [0, 1, 1],
        [1, 0, 1],
        [1, 1, 0],
    ];
    for (n, e) in ALL.iter().enumerate() {
        assert_eq!(e.offset(), expected[n]);
    }
}

#[test]
fn quads_go_round_the_base_edges() {
    let expected = [
        [Edge::A, Edge::G, Edge::J, Edge::D],
        [Edge::B, Edge::E, Edge::K, Edge::H],
        [Edge::C, Edge::I, Edge::L, Edge::F],
    ];
    for (axis, base) in [Edge::A, Edge::B, Edge::C].iter().enumerate() {
        for k in 0..4 {
            assert_eq!(quad(*base, k), expected[axis][k]);
        }
    }
}

#[test]
fn edge_index_base_names_the_same_lattice_edge() {
    let e = EdgeIndex { edge: Edge::K, index: [3, 4, 5] };
    assert_eq!(e.base(), EdgeIndex { edge: Edge::B, index: [4, 4, 6] });
    // the four cells around the edge B of cell (4, 4, 6) give the same base
    for k in 0..4 {
        let q = quad(Edge::B, k);
        let cell = neg_offset([4, 4, 6], q.offset());
        assert_eq!(EdgeIndex { edge: q, index: cell }.base(), EdgeIndex { edge: Edge::B, index: [4, 4, 6] });
    }
    let own = EdgeIndex { edge: Edge::A, index: [0, 0, 0] };
    assert_eq!(own.base(), own);
}

#[test]
fn offsets_add_and_subtract() {
    assert_eq!(offset([1, 2, 3], [1, 0, 1]), [2, 2, 4]);
    assert_eq!(neg_offset([1, 2, 3], [1, 0, 1]), [0, 2, 2]);
    assert!(index_eq(&[1, 2, 3], &[1, 2, 3]));
    assert!(!index_eq(&[1, 2, 3], &[1, 2, 4]));
}

#[test]
fn faces_hold_four_edges_each() {
    assert_eq!(edges_on_face(0), BitSet::from_4bits(1, 2, 7, 8));
    assert_eq!(edges_on_face(1), BitSet::from_4bits(4, 5, 10, 11));
    assert_eq!(edges_on_face(2), BitSet::from_4bits(0, 2, 5, 6));
    assert_eq!(edges_on_face(3), BitSet::from_4bits(3, 8, 9, 11));
    assert_eq!(edges_on_face(4), BitSet::from_4bits(0, 1, 3, 4));
    assert_eq!(edges_on_face(5), BitSet::from_4bits(6, 7, 9, 10));
}

#[test]
fn mirror_takes_a_face_to_the_opposite_face() {
    for face in 0..6 {
        let here = edges_on_face(face);
        let there = edges_on_face(face ^ 1);
        for e in 0..12 {
            if here.get(e) {
                let m = mirror_edge(e, face / 2);
                assert!(there.get(m));
                assert_eq!(m % 3, e % 3);
                assert_eq!(mirror_edge(m, face / 2), e);
            }
        }
    }
    assert_eq!(mirror_edge(4, 0), 1);
    assert_eq!(mirror_edge(0, 1), 3);
    assert_eq!(mirror_edge(10, 2), 4);
    assert_eq!(mirror_edge(0, 0), 0);
}

#[test]
fn neighbor_across_a_face() {
    let v = VertexIndex { edges: BitSet::from_3bits(5, 6, 10), index: [2, 3, 4] };
    // face 1 (high x) holds the edges 5 and 10, which are 2 and 7 next door
    assert_eq!(
        v.neighbor(1),
        Some(VertexIndex { edges: BitSet::from_3bits(2, 7, 7), index: [3, 3, 4] })
    );
    // face 0 (low x) holds none of its edges
    assert_eq!(v.neighbor(0), None);
    // face 2 (low y) holds 5 and 6, which are 11 and 9 next door
    assert_eq!(
        v.neighbor(2),
        Some(VertexIndex { edges: BitSet::from_3bits(9, 11, 11), index: [2, 2, 4] })
    );
    // face 5 (high z) holds 6 and 10, which are 0 and 4 next door
    assert_eq!(
        v.neighbor(5),
        Some(VertexIndex { edges: BitSet::from_3bits(0, 4, 4), index: [2, 3, 5] })
    );
}

#[test]
fn no_neighbor_beyond_the_lattice() {
    let v = VertexIndex { edges: BitSet::from_3bits(0, 1, 2), index: [0, 0, 0] };
    for face in 0..6 {
        assert_eq!(v.neighbor(face), None);
    }
    let w = VertexIndex { edges: BitSet::from_3bits(0, 1, 2), index: [1, 0, 1] };
    assert_eq!(
        w.neighbor(0),
        Some(VertexIndex { edges: BitSet::from_3bits(4, 5, 5), index: [0, 0, 1] })
    );
    assert_eq!(w.neighbor(2), None);
    let far = VertexIndex { edges: BitSet::from_3bits(9, 10, 11), index: [usize::MAX, 0, 0] };
    assert_eq!(far.neighbor(1), None);
}
