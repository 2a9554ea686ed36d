//! A face of the mesh: the numbers of its vertices, held in a small vector
//! that stores up to four of them in place.

use smallvec::SmallVec;
use vstd::prelude::*;

verus! {

/// A face of the mesh: a `smallvec::SmallVec<[usize; 4]>` of vertex
/// numbers.
///
/// The small vector is hidden in this type because Verus cannot be told of
/// `SmallVec` itself, whose parameter is bound by a trait of that crate. All
/// that is known of a face is what the functions below state of
/// `face_indices`.
#[derive(Debug, PartialEq, Eq)]
#[verifier::external_body]
pub struct Face {
    items: SmallVec<[usize; 4]>,
}

/// The vertex numbers that a face holds, in order: the items of its small
/// vector.
pub uninterp spec fn face_indices(f: Face) -> Seq<usize>;

impl Clone for Face {
    /// A copy of the face.
    ///
    /// Calls the `Clone` of `SmallVec`, which makes a new vector from the
    /// slice of the stored items.
    #[verifier::external_body]
    fn clone(&self) -> (r: Self)
        ensures
            face_indices(r) == face_indices(*self),
    {
        Face { items: self.items.clone() }
    }
}

/// The face with the vertices that `items` lists.
///
/// Calls `SmallVec::from_slice`, which copies the items of the slice, in
/// order, into a new vector.
#[verifier::external_body]
pub(crate) fn face_from_slice(items: &[usize]) -> (f: Face)
    ensures
        face_indices(f) == items@,
{
    Face { items: SmallVec::from_slice(items) }
}

/// The number of vertices of the face.
///
/// Calls `SmallVec::len`, the number of items stored in the vector.
#[verifier::external_body]
pub(crate) fn face_len(f: &Face) -> (n: usize)
    ensures
        n == face_indices(*f).len(),
{
    f.items.len()
}

/// The `i`-th vertex of the face.
///
/// Calls the `Index` of `SmallVec`, which indexes the slice of the stored
/// items and panics beyond its end; so `i` must be less than the length.
#[verifier::external_body]
pub(crate) fn face_at(f: &Face, i: usize) -> (v: usize)
    requires
        i < face_indices(*f).len(),
    ensures
        v == face_indices(*f)[i as int],
{
    f.items[i]
}

/// The face with the vertices `a`, `b`, `c`.
pub fn triangle(a: usize, b: usize, c: usize) -> (f: Face)
    ensures
        face_indices(f) == seq![a, b, c],
{
    let items: [usize; 3] = [a, b, c];
    let f = face_from_slice(items.as_slice());
    assert(face_indices(f) =~= seq![a, b, c]);
    f
}

/// The face with the vertices that `items` lists, in that order.
pub fn face_of(items: &Vec<usize>) -> (f: Face)
    ensures
        face_indices(f) == items@,
{
    face_from_slice(items.as_slice())
}

/// The vertices of the face, in order.
pub fn face_to_vec(f: &Face) -> (r: Vec<usize>)
    ensures
        r@ == face_indices(*f),
{
    let n = face_len(f);
    let mut r: Vec<usize> = Vec::new();
    let mut i: usize = 0;
    while i < n
        invariant
            i <= n,
            n == face_indices(*f).len(),
            r@ == face_indices(*f).subrange(0, i as int),
        decreases n - i,
    {
        r.push(face_at(f, i));
        assert(r@ =~= face_indices(*f).subrange(0, i + 1));
        i += 1;
    }
    assert(face_indices(*f).subrange(0, n as int) =~= face_indices(*f));
    r
}

} // verus!
