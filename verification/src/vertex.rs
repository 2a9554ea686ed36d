//! Dual vertices: the nodes of the octree.

use vstd::prelude::*;
use crate::edge::{edge_high_corner, edge_low_corner};
use crate::vertex_index::{edges_on_face, on_face, pos, Index};

verus! {

/// How the residual of a solved quadratic error function compares with the
/// tolerance.
#[derive(Clone, Copy, Debug, PartialEq, Eq, Hash, Structural)]
pub enum Residual {
    /// Its size is within the tolerance.
    Within,
    /// It is greater than the tolerance.
    Above,
    /// It is less than minus the tolerance.
    Below,
}

/// What is known of the quadratic error function of a vertex.
#[derive(Clone, Copy, Debug, PartialEq, Eq, Hash, Structural)]
pub enum QefState {
    /// Not solved yet.
    Unsolved,
    /// Solved, with this residual.
    Solved(Residual),
}

impl QefState {
    /// Whether the function has been solved.
    pub open spec fn solved(self) -> bool {
        self is Solved
    }

    /// Whether the function has been solved and the size of its residual is
    /// greater than the tolerance.
    pub open spec fn exceeds(self) -> bool {
        self == QefState::Solved(Residual::Above) || self == QefState::Solved(Residual::Below)
    }

    /// Whether the function has been solved and its residual is no greater
    /// than the tolerance.
    pub open spec fn accepted(self) -> bool {
        self == QefState::Solved(Residual::Within) || self == QefState::Solved(Residual::Below)
    }

    /// Whether the function has been solved.
    pub fn is_solved(&self) -> (r: bool)
        ensures
            r == self.solved(),
    {
        match self {
            QefState::Unsolved => false,
            QefState::Solved(_) => true,
        }
    }

    /// Whether the function has been solved and the size of its residual is
    /// greater than the tolerance.
    pub fn is_exceeding(&self) -> (r: bool)
        ensures
            r == self.exceeds(),
    {
        match self {
            QefState::Solved(Residual::Above) => true,
            QefState::Solved(Residual::Below) => true,
            _ => false,
        }
    }

    /// Whether the function has been solved and its residual is no greater
    /// than the tolerance.
    pub fn is_accepted(&self) -> (r: bool)
        ensures
            r == self.accepted(),
    {
        match self {
            QefState::Solved(Residual::Within) => true,
            QefState::Solved(Residual::Below) => true,
            _ => false,
        }
    }
}

/// A vertex of the mesh: a dual vertex of one cell of the sampling lattice,
/// or the vertex that stands for a connected group of them one layer down.
#[derive(Debug)]
pub struct Vertex {
    /// The cell the vertex belongs to, at its layer of the octree.
    pub index: Index,
    /// The state of its quadratic error function.
    pub qef: QefState,
    /// For each face of the cell, the vertices of the same layer next to this
    /// one across that face.
    pub neighbors: [Vec<usize>; 6],
    /// The vertex of the next coarser layer that stands for this one.
    pub parent: Option<usize>,
    /// The vertices of the next finer layer that this one stands for.
    pub children: Vec<usize>,
    /// The number of this vertex in the mesh, once it has one.
    pub mesh_index: Option<usize>,
    /// For each edge of the cell, the number of sign changes along it.
    pub edge_intersections: [u32; 12],
    /// The Euler characteristic of the surface patch of the vertex.
    pub euler_characteristic: i32,
}

/// A copy of a list of vertex numbers.
pub fn clone_numbers(list: &Vec<usize>) -> (r: Vec<usize>)
    ensures
        r@ == list@,
{
    let mut r: Vec<usize> = Vec::new();
    let mut i: usize = 0;
    while i < list.len()
        invariant
            i <= list@.len(),
            r@ == list@.subrange(0, i as int),
        decreases list@.len() - i,
    {
        r.push(list[i]);
        assert(r@ =~= list@.subrange(0, i + 1));
        i += 1;
    }
    assert(list@.subrange(0, i as int) =~= list@);
    r
}

impl Clone for Vertex {
    /// A copy of the vertex: the same in every field, with lists that hold
    /// the same numbers.
    fn clone(&self) -> (r: Vertex)
        ensures
            r.same_as(*self),
    {
        Vertex {
            index: self.index,
            qef: self.qef,
            neighbors: [
                clone_numbers(&self.neighbors[0]),
                clone_numbers(&self.neighbors[1]),
                clone_numbers(&self.neighbors[2]),
                clone_numbers(&self.neighbors[3]),
                clone_numbers(&self.neighbors[4]),
                clone_numbers(&self.neighbors[5]),
            ],
            parent: self.parent,
            children: clone_numbers(&self.children),
            mesh_index: self.mesh_index,
            edge_intersections: self.edge_intersections,
            euler_characteristic: self.euler_characteristic,
        }
    }
}

/// The number of the corner of its parent cell at which a cell lies.
pub open spec fn corner_in_parent(p: (int, int, int)) -> int {
    p.0 % 2 + 2 * (p.1 % 2) + 4 * (p.2 % 2)
}

/// Whether cell edge `e` ends at `corner`.
pub open spec fn ends_at(e: int, corner: int) -> bool {
    edge_low_corner(e) == corner || edge_high_corner(e) == corner
}

/// The sum of the entries of `counts` below `k`, each counted if `keep`
/// holds of its number.
pub open spec fn sum_counts(counts: Seq<u32>, keep: spec_fn(int) -> bool, k: int) -> int
    decreases k,
{
    if k <= 0 {
        0
    } else {
        sum_counts(counts, keep, k - 1) + if keep(k - 1) {
            counts[k - 1] as int
        } else {
            0
        }
    }
}

impl Vertex {
    /// Whether the two vertices agree in every field, their lists holding
    /// the same numbers.
    pub open spec fn same_as(self, other: Vertex) -> bool {
        &&& self.index == other.index
        &&& self.qef == other.qef
        &&& forall|face: int|
            0 <= face < 6 ==> (#[trigger] self.neighbors[face])@ == other.neighbors[face]@
        &&& self.parent == other.parent
        &&& self.children@ == other.children@
        &&& self.mesh_index == other.mesh_index
        &&& self.edge_intersections == other.edge_intersections
        &&& self.euler_characteristic == other.euler_characteristic
    }

    /// The sign changes along the four edges of `face`.
    pub open spec fn face_sum(self, face: int) -> int {
        sum_counts(self.edge_intersections@, |e: int| on_face(face, e), 12)
    }

    /// The sign changes along all twelve edges.
    pub open spec fn total_intersections(self) -> int {
        sum_counts(self.edge_intersections@, |e: int| true, 12)
    }

    /// The sign changes along the edges that do not lie on an edge of the
    /// parent cell.
    pub open spec fn inner_intersections(self) -> int {
        sum_counts(
            self.edge_intersections@,
            |e: int| !ends_at(e, corner_in_parent(pos(self.index))),
            12,
        )
    }

    /// The sign changes along cell edge `e` if it lies on the same edge of
    /// the parent cell, else 0.
    pub open spec fn outer_intersections(self, e: int) -> int {
        if ends_at(e, corner_in_parent(pos(self.index))) {
            self.edge_intersections[e] as int
        } else {
            0
        }
    }

    /// The size of the Euler characteristic.
    pub open spec fn euler_size(self) -> int {
        if self.euler_characteristic < 0 {
            -self.euler_characteristic
        } else {
            self.euler_characteristic as int
        }
    }

    /// A bound on what the vertex adds to the counters of its ancestors.
    pub open spec fn weight(self) -> int {
        self.euler_size() + self.total_intersections()
    }

    /// Whether the surface patch of the vertex is a disc that meets each
    /// face of the cell in at most one curve: the Euler characteristic is 1
    /// and each face has no sign change or two.
    pub open spec fn manifold(self) -> bool {
        &&& self.euler_characteristic == 1
        &&& forall|face: int|
            0 <= face < 6 ==> (#[trigger] self.face_sum(face) == 0 || self.face_sum(face) == 2)
    }

    /// Whether collapsing the subtree below this vertex into it keeps the
    /// surface a 2-manifold.
    pub fn is_2manifold(&self) -> (r: bool)
        ensures
            r == self.manifold(),
    {
        if self.euler_characteristic != 1 {
            return false;
        }
        let mut face: usize = 0;
        while face < 6
            invariant
                face <= 6,
                self.euler_characteristic == 1,
                forall|f: int|
                    0 <= f < face ==> (#[trigger] self.face_sum(f) == 0 || self.face_sum(f) == 2),
            decreases 6 - face,
        {
            let on = edges_on_face(face);
            let mut sum: u64 = 0;
            let mut e: usize = 0;
            while e < 12
                invariant
                    e <= 12,
                    face < 6,
                    forall|k: int| on.has(k) <==> on_face(face as int, k),
                    sum == sum_counts(
                        self.edge_intersections@,
                        |k: int| on_face(face as int, k),
                        e as int,
                    ),
                    sum <= e * 0x1_0000_0000,
                decreases 12 - e,
            {
                if on.get(e) {
                    sum = sum + self.edge_intersections[e] as u64;
                }
                e += 1;
            }
            if sum != 0 && sum != 2 {
                assert(!(self.face_sum(face as int) == 0 || self.face_sum(face as int) == 2));
                return false;
            }
            face += 1;
        }
        true
    }
}

} // verus!
