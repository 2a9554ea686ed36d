//! Lattice indices, the faces of a cell and the name of a dual vertex.
//!
//! Face `2 * d` of a cell is the one on the low side along axis `d`, face
//! `2 * d + 1` the one on the high side; `face ^ 1` is the opposite face.

use vstd::prelude::*;
use crate::bitset::BitSet;
use crate::edge::{edge_axis, edge_offset, plus};

verus! {

/// A corner of the sampling lattice; also the cell whose reference corner it
/// is.
pub type Index = [usize; 3];

/// The coordinates of an index as integers.
pub open spec fn pos(i: Index) -> (int, int, int) {
    (i[0] as int, i[1] as int, i[2] as int)
}

/// Coordinate `d` of a position.
pub open spec fn coord(p: (int, int, int), d: int) -> int {
    if d == 0 {
        p.0
    } else if d == 1 {
        p.1
    } else {
        p.2
    }
}

/// Two indices with the same coordinates are equal.
pub proof fn lemma_index_ext(a: Index, b: Index)
    requires
        pos(a) == pos(b),
    ensures
        a == b,
{
    assert(a =~= b);
}

/// Whether two indices are the same.
pub fn index_eq(a: &Index, b: &Index) -> (r: bool)
    ensures
        r == (pos(*a) == pos(*b)),
        r == (*a == *b),
{
    proof {
        if pos(*a) == pos(*b) {
            lemma_index_ext(*a, *b);
        }
    }
    a[0] == b[0] && a[1] == b[1] && a[2] == b[2]
}

/// The index `idx + off`.
pub fn offset(idx: Index, off: Index) -> (r: Index)
    requires
        idx[0] + off[0] <= usize::MAX,
        idx[1] + off[1] <= usize::MAX,
        idx[2] + off[2] <= usize::MAX,
    ensures
        pos(r) == plus(pos(idx), pos(off)),
{
    [idx[0] + off[0], idx[1] + off[1], idx[2] + off[2]]
}

/// The index `idx - off`.
pub fn neg_offset(idx: Index, off: Index) -> (r: Index)
    requires
        off[0] <= idx[0],
        off[1] <= idx[1],
        off[2] <= idx[2],
    ensures
        pos(r) == crate::edge::minus(pos(idx), pos(off)),
{
    [idx[0] - off[0], idx[1] - off[1], idx[2] - off[2]]
}

/// The position one cell further across `face`.
pub open spec fn face_step(p: (int, int, int), face: int) -> (int, int, int) {
    let s = if face % 2 == 0 {
        -1
    } else {
        1
    };
    if face / 2 == 0 {
        (p.0 + s, p.1, p.2)
    } else if face / 2 == 1 {
        (p.0, p.1 + s, p.2)
    } else {
        (p.0, p.1, p.2 + s)
    }
}

/// Whether cell edge `e` lies in `face`.
pub open spec fn on_face(face: int, e: int) -> bool {
    &&& 0 <= e < 12
    &&& 0 <= face < 6
    &&& edge_axis(e) != face / 2
    &&& coord(edge_offset(e), face / 2) == face % 2
}

/// The cell edge that lies opposite `e` across the cell along axis `d`: the
/// one with the same axis whose offset differs along `d` alone. It is also
/// the number that the lattice edge of `e` has in the cell next door along
/// `d`.
pub open spec fn mirror(e: int, d: int) -> int {
    if d == 0 {
        if e == 1 {
            4
        } else if e == 4 {
            1
        } else if e == 2 {
            5
        } else if e == 5 {
            2
        } else if e == 7 {
            10
        } else if e == 10 {
            7
        } else if e == 8 {
            11
        } else if e == 11 {
            8
        } else {
            e
        }
    } else if d == 1 {
        if e == 0 {
            3
        } else if e == 3 {
            0
        } else if e == 2 {
            8
        } else if e == 8 {
            2
        } else if e == 5 {
            11
        } else if e == 11 {
            5
        } else if e == 6 {
            9
        } else if e == 9 {
            6
        } else {
            e
        }
    } else {
        if e == 0 {
            6
        } else if e == 6 {
            0
        } else if e == 1 {
            7
        } else if e == 7 {
            1
        } else if e == 3 {
            9
        } else if e == 9 {
            3
        } else if e == 4 {
            10
        } else if e == 10 {
            4
        } else {
            e
        }
    }
}

/// `mirror` takes the edges of a face to those of the opposite face, keeps
/// their axis, and undoes itself; the lattice edge of `e` in a cell is that
/// of `mirror(e, face / 2)` in the cell across `face`.
pub proof fn lemma_mirror(face: int, e: int)
    requires
        on_face(face, e),
    ensures
        on_face(face + 1 - 2 * (face % 2), mirror(e, face / 2)),
        mirror(mirror(e, face / 2), face / 2) == e,
        edge_axis(mirror(e, face / 2)) == edge_axis(e),
        forall|p: (int, int, int)|
            plus(p, edge_offset(e)) == plus(
                #[trigger] face_step(p, face),
                edge_offset(mirror(e, face / 2)),
            ),
{
}

/// The four cell edges that lie in `face`.
pub fn edges_on_face(face: usize) -> (r: BitSet)
    requires
        face < 6,
    ensures
        forall|e: int| r.has(e) <==> on_face(face as int, e),
{
    if face == 0 {
        BitSet::from_4bits(1, 2, 7, 8)
    } else if face == 1 {
        BitSet::from_4bits(4, 5, 10, 11)
    } else if face == 2 {
        BitSet::from_4bits(0, 2, 5, 6)
    } else if face == 3 {
        BitSet::from_4bits(3, 8, 9, 11)
    } else if face == 4 {
        BitSet::from_4bits(0, 1, 3, 4)
    } else {
        BitSet::from_4bits(6, 7, 9, 10)
    }
}

/// The number of `face`'s opposite.
pub open spec fn opposite(face: int) -> int {
    face + 1 - 2 * (face % 2)
}

/// The cell edge opposite `e` along axis `d`.
pub fn mirror_edge(e: usize, d: usize) -> (r: usize)
    requires
        e < 12,
        d < 3,
    ensures
        r == mirror(e as int, d as int),
        r < 12,
{
    if e % 3 == d {
        e
    } else if d == 0 {
        if e == 1 || e == 2 || e == 7 || e == 8 {
            e + 3
        } else {
            e - 3
        }
    } else if d == 1 {
        if e == 0 {
            3
        } else if e == 3 {
            0
        } else if e == 2 || e == 5 {
            e + 6
        } else if e == 8 || e == 11 {
            e - 6
        } else if e == 6 {
            9
        } else {
            6
        }
    } else {
        if e == 0 || e == 1 || e == 3 || e == 4 {
            e + 6
        } else {
            e - 6
        }
    }
}

/// The name of one dual vertex: a cell and the set of that cell's edges that
/// the vertex stands for.
#[derive(Clone, Copy, Debug, PartialEq, Eq, Hash)]
pub struct VertexIndex {
    pub edges: BitSet,
    pub index: Index,
}

impl VertexIndex {
    /// Whether some edge of the vertex lies in `face`.
    pub open spec fn touches(self, face: int) -> bool {
        exists|e: int| #[trigger] self.edges.has(e) && on_face(face, e)
    }

    /// The edges of the vertex that lie in `face`, as the cell across that
    /// face numbers them.
    pub open spec fn edges_across(self, face: int, e: int) -> bool {
        on_face(opposite(face), e) && self.edges.has(mirror(e, face / 2))
    }

    /// What lies across `face`: the next cell, with the edges that this
    /// vertex has in the common face under that cell's numbers. `None` where
    /// the vertex has no edge in the face or the lattice ends there.
    pub fn neighbor(&self, face: usize) -> (r: Option<VertexIndex>)
        requires
            face < 6,
        ensures
            r is Some <==> (self.touches(face as int) && 0 <= coord(
                face_step(pos(self.index), face as int),
                face as int / 2,
            ) <= usize::MAX),
            r matches Some(n) ==> {
                &&& pos(n.index) == face_step(pos(self.index), face as int)
                &&& forall|e: int| n.edges.has(e) <==> self.edges_across(face as int, e)
            },
    {
        let dim: usize = face / 2;
        let shared = self.edges.intersect(edges_on_face(face));
        if shared.empty() {
            assert(!self.touches(face as int));
            return None;
        }
        proof {
            let e = choose|e: int| shared.has(e);
            assert(self.edges.has(e) && on_face(face as int, e));
        }
        let mut index = self.index;
        if face % 2 == 0 {
            if index[dim] == 0 {
                return None;
            }
            index[dim] = index[dim] - 1;
        } else {
            if index[dim] == usize::MAX {
                return None;
            }
            index[dim] = index[dim] + 1;
        }
        let mut edges = BitSet::zero();
        let mut e: usize = 0;
        while e < 12
            invariant
                e <= 12,
                face < 6,
                dim == face / 2,
                forall|k: int| shared.has(k) <==> (self.edges.has(k) && on_face(face as int, k)),
                forall|k: int|
                    edges.has(k) <==> (0 <= mirror(k, dim as int) < e && shared.has(
                        mirror(k, dim as int),
                    ) && 0 <= k < 12),
            decreases 12 - e,
        {
            if shared.get(e) {
                edges.set(mirror_edge(e, dim));
            }
            e += 1;
        }
        proof {
            assert forall|k: int| edges.has(k) <==> self.edges_across(face as int, k) by {
                if on_face(opposite(face as int), k) {
                    lemma_mirror(opposite(face as int), k);
                }
                if 0 <= k < 12 && on_face(face as int, mirror(k, dim as int)) {
                    lemma_mirror(face as int, mirror(k, dim as int));
                }
            }
        }
        Some(VertexIndex { edges, index })
    }
}

} // verus!
