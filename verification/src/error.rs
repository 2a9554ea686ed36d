//! What can stop an attempt to build the mesh.

use vstd::prelude::*;
use crate::vertex_index::Index;

verus! {

/// Why an attempt to build the mesh stopped.
#[derive(Clone, Copy, Debug, PartialEq, Eq)]
pub enum DualContouringError {
    /// The field is exactly zero at this corner of the lattice: the sign of
    /// the corner is undecided. Sampling from a slightly shifted origin
    /// avoids it.
    HitZero(Index),
    /// A cell next to a sign change has a corner without a value, or lies
    /// beyond the low end of the lattice: the grid does not cover the
    /// surface. The index is that of the corner or cell.
    MissingValue(Index),
    /// The octree would have more vertices than its counters can count.
    /// The index holds the number of leaves in each place.
    TooManyVertices(Index),
}

impl DualContouringError {
    /// A short description of the kind of error.
    pub fn description(&self) -> (r: &'static str)
        ensures
            r@ == (match self {
                DualContouringError::HitZero(_) => "Hit zero value during grid sampling."@,
                DualContouringError::MissingValue(_) => "Value grid does not cover the surface."@,
                DualContouringError::TooManyVertices(_) => "Too many vertices."@,
            }),
    {
        match self {
            DualContouringError::HitZero(_) => "Hit zero value during grid sampling.",
            DualContouringError::MissingValue(_) => "Value grid does not cover the surface.",
            DualContouringError::TooManyVertices(_) => "Too many vertices.",
        }
    }

    /// Whether another attempt from a slightly moved origin can succeed:
    /// so it is where the field was zero at a corner, and with no other
    /// error.
    pub fn is_recoverable(&self) -> (r: bool)
        ensures
            r == (self is HitZero),
    {
        match self {
            DualContouringError::HitZero(_) => true,
            _ => false,
        }
    }

    /// The corner or cell of the lattice at which the attempt stopped.
    pub fn index(&self) -> (r: Index)
        ensures
            r == (match self {
                DualContouringError::HitZero(i) => *i,
                DualContouringError::MissingValue(i) => *i,
                DualContouringError::TooManyVertices(i) => *i,
            }),
    {
        match self {
            DualContouringError::HitZero(i) => *i,
            DualContouringError::MissingValue(i) => *i,
            DualContouringError::TooManyVertices(i) => *i,
        }
    }
}

} // verus!
