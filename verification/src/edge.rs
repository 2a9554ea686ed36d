//! The twelve edges of a cell and the lattice edges they stand for.
//!
//! ```text
//!      +-------9-------+
//!     /|              /|
//!    7 |            10 |              ^
//!   /  8            /  11            /
//!  +-------6-------+   |     ^    higher indexes in y
//!  |   |           |   |     |     /
//!  |   +-------3---|---+     |    /
//!  2  /            5  /  higher indexes
//!  | 1             | 4      in z
//!  |/              |/        |/
//!  o-------0-------+         +-- higher indexes in x ---->
//! ```
//!
//! Point `o` is the reference corner of the cell. Every edge runs from its
//! low corner towards higher indexes. Corner `c` has the coordinates
//! `(c & 1, (c >> 1) & 1, (c >> 2) & 1)`.

use vstd::prelude::*;
use crate::vertex_index::{offset, pos, Index};

verus! {

/// The axis (0, 1 or 2) along which cell edge `e` runs.
pub open spec fn edge_axis(e: int) -> int {
    e % 3
}

/// The offset of the low corner of cell edge `e` from the cell's reference
/// corner.
pub open spec fn edge_offset(e: int) -> (int, int, int) {
    if e == 3 || e == 8 {
        (0, 1, 0)
    } else if e == 4 || e == 5 {
        (1, 0, 0)
    } else if e == 6 || e == 7 {
        (0, 0, 1)
    } else if e == 9 {
        (0, 1, 1)
    } else if e == 10 {
        (1, 0, 1)
    } else if e == 11 {
        (1, 1, 0)
    } else {
        (0, 0, 0)
    }
}

/// The number of the corner at offset `o`.
pub open spec fn corner_at(o: (int, int, int)) -> int {
    o.0 + 2 * o.1 + 4 * o.2
}

/// The unit step along `axis`.
pub open spec fn axis_step(axis: int) -> (int, int, int) {
    if axis == 0 {
        (1, 0, 0)
    } else if axis == 1 {
        (0, 1, 0)
    } else {
        (0, 0, 1)
    }
}

/// The sum of two offsets.
pub open spec fn plus(a: (int, int, int), b: (int, int, int)) -> (int, int, int) {
    (a.0 + b.0, a.1 + b.1, a.2 + b.2)
}

/// The difference of two offsets.
pub open spec fn minus(a: (int, int, int), b: (int, int, int)) -> (int, int, int) {
    (a.0 - b.0, a.1 - b.1, a.2 - b.2)
}

/// The corner at which cell edge `e` starts.
pub open spec fn edge_low_corner(e: int) -> int {
    corner_at(edge_offset(e))
}

/// The corner at which cell edge `e` ends.
pub open spec fn edge_high_corner(e: int) -> int {
    corner_at(plus(edge_offset(e), axis_step(edge_axis(e))))
}

/// One of the twelve edges of a cell.
#[derive(Clone, Copy, Debug, PartialEq, Eq, Hash, Structural)]
pub enum Edge {
    A,
    B,
    C,
    D,
    E,
    F,
    G,
    H,
    I,
    J,
    K,
    L,
}

impl Edge {
    /// The number of the edge, `A` being 0 and `L` being 11.
    pub open spec fn ord(self) -> int {
        match self {
            Edge::A => 0,
            Edge::B => 1,
            Edge::C => 2,
            Edge::D => 3,
            Edge::E => 4,
            Edge::F => 5,
            Edge::G => 6,
            Edge::H => 7,
            Edge::I => 8,
            Edge::J => 9,
            Edge::K => 10,
            Edge::L => 11,
        }
    }

    /// The number of the edge.
    pub fn as_usize(self) -> (r: usize)
        ensures
            r == self.ord(),
            r < 12,
    {
        match self {
            Edge::A => 0,
            Edge::B => 1,
            Edge::C => 2,
            Edge::D => 3,
            Edge::E => 4,
            Edge::F => 5,
            Edge::G => 6,
            Edge::H => 7,
            Edge::I => 8,
            Edge::J => 9,
            Edge::K => 10,
            Edge::L => 11,
        }
    }

    /// The edge with number `e`.
    pub fn from_usize(e: usize) -> (r: Edge)
        requires
            e < 12,
        ensures
            r.ord() == e,
    {
        if e == 0 {
            Edge::A
        } else if e == 1 {
            Edge::B
        } else if e == 2 {
            Edge::C
        } else if e == 3 {
            Edge::D
        } else if e == 4 {
            Edge::E
        } else if e == 5 {
            Edge::F
        } else if e == 6 {
            Edge::G
        } else if e == 7 {
            Edge::H
        } else if e == 8 {
            Edge::I
        } else if e == 9 {
            Edge::J
        } else if e == 10 {
            Edge::K
        } else {
            Edge::L
        }
    }

    /// The edge at the reference corner that runs along the same axis: one
    /// of `A`, `B`, `C`.
    pub fn base(&self) -> (r: Edge)
        ensures
            r.ord() == edge_axis(self.ord()),
            r.ord() < 3,
    {
        Edge::from_usize(self.as_usize() % 3)
    }

    /// The offset of the edge's low corner from the cell's reference corner.
    pub fn offset(&self) -> (r: Index)
        ensures
            pos(r) == edge_offset(self.ord()),
    {
        match self {
            Edge::A | Edge::B | Edge::C => [0, 0, 0],
            Edge::D | Edge::I => [0, 1, 0],
            Edge::E | Edge::F => [1, 0, 0],
            Edge::G | Edge::H => [0, 0, 1],
            Edge::J => [0, 1, 1],
            Edge::K => [1, 0, 1],
            Edge::L => [1, 1, 0],
        }
    }
}

/// The number, in the cell at `minus(p, edge_offset(quad_edge(axis, k)))`, of
/// the lattice edge that starts at `p` and runs along `axis`. The four
/// values of `k` go once round the lattice edge.
pub open spec fn quad_edge(axis: int, k: int) -> int {
    if axis == 0 {
        if k == 0 {
            0
        } else if k == 1 {
            6
        } else if k == 2 {
            9
        } else {
            3
        }
    } else if axis == 1 {
        if k == 0 {
            1
        } else if k == 1 {
            4
        } else if k == 2 {
            10
        } else {
            7
        }
    } else {
        if k == 0 {
            2
        } else if k == 1 {
            8
        } else if k == 2 {
            11
        } else {
            5
        }
    }
}

/// The `k`-th of the four cell edges under which the lattice edge of a base
/// edge (`A`, `B` or `C`) appears in the cells around it.
pub fn quad(base: Edge, k: usize) -> (r: Edge)
    requires
        base.ord() < 3,
        k < 4,
    ensures
        r.ord() == quad_edge(base.ord(), k as int),
        edge_axis(r.ord()) == base.ord(),
{
    match base {
        Edge::A => if k == 0 {
            Edge::A
        } else if k == 1 {
            Edge::G
        } else if k == 2 {
            Edge::J
        } else {
            Edge::D
        },
        Edge::B => if k == 0 {
            Edge::B
        } else if k == 1 {
            Edge::E
        } else if k == 2 {
            Edge::K
        } else {
            Edge::H
        },
        _ => if k == 0 {
            Edge::C
        } else if k == 1 {
            Edge::I
        } else if k == 2 {
            Edge::L
        } else {
            Edge::F
        },
    }
}

/// Every cell edge is one of the four that `quad_edge` gives for its axis.
pub proof fn lemma_quad_covers(e: int) -> (k: int)
    requires
        0 <= e < 12,
    ensures
        0 <= k < 4,
        quad_edge(edge_axis(e), k) == e,
{
    if e < 3 {
        0
    } else if e == 6 || e == 4 || e == 8 {
        1
    } else if e == 9 || e == 10 || e == 11 {
        2
    } else {
        3
    }
}

/// A cell edge of one cell of the lattice.
#[derive(Clone, Copy, Debug, PartialEq, Eq, Hash)]
pub struct EdgeIndex {
    pub edge: Edge,
    pub index: Index,
}

impl EdgeIndex {
    /// The lattice edge: the axis it runs along and the position of its low
    /// corner. Two values name the same lattice edge iff these agree.
    pub open spec fn lattice_edge(self) -> (int, (int, int, int)) {
        (edge_axis(self.edge.ord()), plus(pos(self.index), edge_offset(self.edge.ord())))
    }

    /// Whether this is the canonical name of its lattice edge: a base edge
    /// of the cell at the edge's low corner.
    pub open spec fn is_base(self) -> bool {
        self.edge.ord() < 3
    }

    /// The canonical name of the same lattice edge.
    pub fn base(&self) -> (r: EdgeIndex)
        requires
            self.index[0] + edge_offset(self.edge.ord()).0 <= usize::MAX,
            self.index[1] + edge_offset(self.edge.ord()).1 <= usize::MAX,
            self.index[2] + edge_offset(self.edge.ord()).2 <= usize::MAX,
        ensures
            r.is_base(),
            r.lattice_edge() == self.lattice_edge(),
            r.edge.ord() == edge_axis(self.edge.ord()),
            pos(r.index) == plus(pos(self.index), edge_offset(self.edge.ord())),
    {
        EdgeIndex { edge: self.edge.base(), index: offset(self.index, self.edge.offset()) }
    }
}

} // verus!
