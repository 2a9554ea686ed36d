//! The value grid: the field sampled at corners of the lattice, and how the
//! corners are chosen.

use std::collections::BTreeMap;
use vstd::prelude::*;
use vstd::std_specs::iter::IteratorSpec;
use crate::edge::plus;
use crate::error::DualContouringError;
use crate::vertex_index::{pos, Index};

verus! {

/// The scalar field as it is read at the corners of the sampling lattice.
///
/// A value is a whole number with the sign of the field at the corner, zero
/// exactly where the field is zero, and of a size that tells how far the
/// surface can be at most: for every size `s` of a cube of cells, the size
/// of the value is at most `s` exactly if the size of the field at the
/// corner is at most the space diagonal of such a cube.
pub trait LatticeField {
    /// The value at the corner with coordinates `p`: what `value` gives
    /// for it, every time.
    ///
    /// Nothing is said of the value. The method has a body, which is some
    /// function of the field and the corner of which nothing is known, only
    /// so that a type of unverified code, which cannot write a body for it,
    /// can implement the trait.
    open spec fn value_at(&self, p: (int, int, int)) -> i64 {
        (vstd::pervasive::arbitrary::<spec_fn(&Self, (int, int, int)) -> i64>())(self, p)
    }

    /// The value at corner `idx`.
    fn value(&self, idx: Index) -> (v: i64)
        ensures
            v == self.value_at(pos(idx)),
    ;
}

/// A key of the value grid: the coordinates of a corner.
pub type Corner = (usize, usize, usize);

/// The key of the corner `idx`.
pub fn corner_key(idx: Index) -> (r: Corner)
    ensures
        r == key_of(pos(idx)),
        r.0 == idx[0] && r.1 == idx[1] && r.2 == idx[2],
{
    (idx[0], idx[1], idx[2])
}

/// The index of the corner with key `k`.
pub fn corner_index(k: Corner) -> (r: Index)
    ensures
        pos(r) == (k.0 as int, k.1 as int, k.2 as int),
{
    [k.0, k.1, k.2]
}

/// Whether corner `a` comes before corner `b`: at the first coordinate in
/// which they differ, `a` has the lesser one.
pub open spec fn corner_before(a: Corner, b: Corner) -> bool {
    a.0 < b.0 || (a.0 == b.0 && (a.1 < b.1 || (a.1 == b.1 && a.2 < b.2)))
}

/// Whether `p` can be the coordinates of a corner.
pub open spec fn in_lattice(p: (int, int, int)) -> bool {
    0 <= p.0 <= usize::MAX && 0 <= p.1 <= usize::MAX && 0 <= p.2 <= usize::MAX
}

/// The key of the corner with coordinates `p`.
pub open spec fn key_of(p: (int, int, int)) -> Corner {
    (p.0 as usize, p.1 as usize, p.2 as usize)
}

/// The coordinates of the corner with key `k`.
pub open spec fn coords(k: Corner) -> (int, int, int) {
    (k.0 as int, k.1 as int, k.2 as int)
}

/// Whether grid `g` holds a value for the corner with coordinates `p`.
pub open spec fn holds_at(g: Map<Corner, i64>, p: (int, int, int)) -> bool {
    in_lattice(p) && g.contains_key(key_of(p))
}

/// Whether a value asks for finer sampling of a cube of `size` cells a
/// side: the cube is more than one cell and the surface may pass through
/// it.
pub open spec fn descends(v: i64, size: int) -> bool {
    size > 1 && -size <= v <= size
}

/// The corner of the cube at `p` with half side `h` that lies `c.0`, `c.1`
/// and `c.2` half sides from `p`.
pub open spec fn sub_corner(p: (int, int, int), h: int, c: (int, int, int)) -> (int, int, int) {
    (p.0 + c.0 * h, p.1 + c.1 * h, p.2 + c.2 * h)
}

/// The `k`-th of the eight offsets of half cubes, the first coordinate
/// changing fastest.
pub open spec fn octant(k: int) -> (int, int, int) {
    (k % 2, (k / 2) % 2, (k / 4) % 2)
}

/// The first corner at which the field is zero that sampling the first
/// `k` half cubes of the cube at `p` with side `size` meets, if it meets
/// one.
pub open spec fn first_zero_in<F: LatticeField>(
    f: &F,
    p: (int, int, int),
    size: int,
    k: int,
) -> Option<(int, int, int)>
    decreases size, k,
{
    if size <= 1 || k <= 0 {
        None
    } else {
        let h = size / 2;
        let q = sub_corner(p, h, octant(k - 1));
        let v = f.value_at(q);
        if first_zero_in(f, p, size, k - 1) is Some {
            first_zero_in(f, p, size, k - 1)
        } else if v == 0 {
            Some(q)
        } else if descends(v, h) {
            first_zero_in(f, q, h, 8)
        } else {
            None
        }
    }
}

/// The first corner at which the field is zero that sampling the cube at
/// `p` with side `size` meets, if it meets one.
pub open spec fn first_zero<F: LatticeField>(f: &F, p: (int, int, int), size: int) -> Option<
    (int, int, int),
> {
    first_zero_in(f, p, size, 8)
}

/// Whether sampling the cube at `p` with side `size` meets a corner where
/// the field is zero.
pub open spec fn hits_zero<F: LatticeField>(f: &F, p: (int, int, int), size: int) -> bool {
    first_zero(f, p, size) is Some
}

/// Grid `g` with the samples of the first `k` half cubes of the cube at `p`
/// with side `size` added: a half cube adds the value at its low corner, or,
/// where that value asks for it, its own samples.
pub open spec fn with_samples_in<F: LatticeField>(
    f: &F,
    g: Map<Corner, i64>,
    p: (int, int, int),
    size: int,
    k: int,
) -> Map<Corner, i64>
    decreases size, k,
{
    if size <= 1 || k <= 0 {
        g
    } else {
        let h = size / 2;
        let q = sub_corner(p, h, octant(k - 1));
        let v = f.value_at(q);
        let before = with_samples_in(f, g, p, size, k - 1);
        if descends(v, h) {
            with_samples_in(f, before, q, h, 8)
        } else {
            before.insert(key_of(q), v)
        }
    }
}

/// Grid `g` with the samples of the cube at `p` with side `size` added.
pub open spec fn with_samples<F: LatticeField>(
    f: &F,
    g: Map<Corner, i64>,
    p: (int, int, int),
    size: int,
) -> Map<Corner, i64> {
    with_samples_in(f, g, p, size, 8)
}

/// Samples the cube of `size` cells a side whose low corner is `idx`, where
/// the field has the value `val`, into `grid`.
///
/// Each of the eight half cubes is sampled at its low corner. A zero there
/// ends the sampling. A half cube of more than one cell whose value is no
/// greater in size than its side is sampled in turn; of any other the value
/// is stored in `grid` under its low corner.
pub fn sample_value_grid<F: LatticeField>(
    grid: &mut BTreeMap<Corner, i64>,
    field: &F,
    idx: Index,
    size: usize,
    val: i64,
) -> (r: Option<DualContouringError>)
    requires
        size > 1,
        idx[0] + size <= usize::MAX,
        idx[1] + size <= usize::MAX,
        idx[2] + size <= usize::MAX,
        val == field.value_at(pos(idx)),
    ensures
        r is None <==> !hits_zero(field, pos(idx), size as int),
        r is None ==> final(grid)@ == with_samples(field, old(grid)@, pos(idx), size as int),
        r matches Some(e) ==> e matches DualContouringError::HitZero(z) && Some(pos(z))
            == first_zero(field, pos(idx), size as int) && field.value_at(pos(z)) == 0,
    decreases size,
{
    let half: usize = size / 2;
    let mut k: usize = 0;
    while k < 8
        invariant
            k <= 8,
            size > 1,
            half == size / 2,
            idx[0] + size <= usize::MAX,
            idx[1] + size <= usize::MAX,
            idx[2] + size <= usize::MAX,
            val == field.value_at(pos(idx)),
            first_zero_in(field, pos(idx), size as int, k as int) is None,
            grid@ == with_samples_in(field, old(grid)@, pos(idx), size as int, k as int),
        decreases 8 - k,
    {
        let x: usize = k % 2;
        let y: usize = (k / 2) % 2;
        let z: usize = (k / 4) % 2;
        assert(x * half <= half && y * half <= half && z * half <= half) by (nonlinear_arith)
            requires
                x <= 1,
                y <= 1,
                z <= 1,
        ;
        let midx: Index = [idx[0] + x * half, idx[1] + y * half, idx[2] + z * half];
        assert(pos(midx) == sub_corner(pos(idx), half as int, octant(k as int)));
        let value = if k == 0 {
            assert(x * half == 0 && y * half == 0 && z * half == 0) by (nonlinear_arith)
                requires
                    x == 0,
                    y == 0,
                    z == 0,
            ;
            val
        } else {
            field.value(midx)
        };
        assert(value == field.value_at(pos(midx)));
        if value == 0 {
            assert(first_zero_in(field, pos(idx), size as int, k + 1) == Some(pos(midx)));
            proof {
                lemma_first_zero_stays(field, pos(idx), size as int, k + 1, 8);
            }
            return Some(DualContouringError::HitZero(midx));
        }
        if half > 1 && -(half as i64) <= value && value <= half as i64 {
            let inner = sample_value_grid(grid, field, midx, half, value);
            if inner.is_some() {
                assert(first_zero_in(field, pos(idx), size as int, k + 1) == first_zero(
                    field,
                    pos(midx),
                    half as int,
                ));
                proof {
                    lemma_first_zero_stays(field, pos(idx), size as int, k + 1, 8);
                }
                return inner;
            }
        } else {
            grid.insert(corner_key(midx), value);
        }
        k += 1;
    }
    None
}

/// The first zero that the first `j` half cubes meet is the first that
/// the first `k` meet, for `j <= k`.
pub proof fn lemma_first_zero_stays<F: LatticeField>(
    f: &F,
    p: (int, int, int),
    size: int,
    j: int,
    k: int,
)
    requires
        j <= k,
        first_zero_in(f, p, size, j) is Some,
    ensures
        first_zero_in(f, p, size, k) == first_zero_in(f, p, size, j),
    decreases k - j,
{
    if j < k {
        lemma_first_zero_stays(f, p, size, j, k - 1);
    }
}

/// The `j`-th of the 27 steps to the corners around a corner, itself
/// included, the first coordinate changing fastest.
pub open spec fn around(j: int) -> (int, int, int) {
    (j % 3 - 1, (j / 3) % 3 - 1, (j / 9) % 3 - 1)
}

/// Whether the `j`-th corner around `p` has a value in `g` whose sign is
/// opposite to that of the value at `p`.
pub open spec fn opposed_at(g: Map<Corner, i64>, p: (int, int, int), j: int) -> bool {
    let q = plus(p, around(j));
    holds_at(g, q) && (g[key_of(q)] < 0) != (g[key_of(p)] < 0)
}

/// Whether one of the 27 corners around `p` has a value in `g` whose sign is
/// opposite to that of the value at `p`.
pub open spec fn opposed(g: Map<Corner, i64>, p: (int, int, int)) -> bool {
    exists|j: int| 0 <= j < 27 && #[trigger] opposed_at(g, p, j)
}

/// The coordinate `x` moved by `d - 1`, if it is a coordinate of the
/// lattice.
pub fn shifted_coordinate(x: usize, d: usize) -> (r: Option<usize>)
    requires
        d <= 2,
    ensures
        r is Some <==> 0 <= x + d - 1 <= usize::MAX,
        r matches Some(y) ==> y == x + d - 1,
{
    if d == 0 {
        if x == 0 {
            None
        } else {
            Some(x - 1)
        }
    } else if d == 1 {
        Some(x)
    } else {
        if x == usize::MAX {
            None
        } else {
            Some(x + 1)
        }
    }
}

/// The corner `k` moved by `d - 1` along each axis, if it is a corner of the
/// lattice.
pub fn shifted(k: Corner, d: (usize, usize, usize)) -> (r: Option<Corner>)
    requires
        d.0 <= 2,
        d.1 <= 2,
        d.2 <= 2,
    ensures
        r is Some <==> in_lattice(plus(coords(k), (d.0 - 1, d.1 - 1, d.2 - 1))),
        r matches Some(q) ==> q == key_of(plus(coords(k), (d.0 - 1, d.1 - 1, d.2 - 1))),
{
    match shifted_coordinate(k.0, d.0) {
        Some(x) => match shifted_coordinate(k.1, d.1) {
            Some(y) => match shifted_coordinate(k.2, d.2) {
                Some(z) => Some((x, y, z)),
                None => None,
            },
            None => None,
        },
        None => None,
    }
}

/// Whether a corner around `k` has a value of the opposite sign.
pub fn has_opposed_neighbor(grid: &BTreeMap<Corner, i64>, k: Corner) -> (r: bool)
    requires
        grid@.contains_key(k),
    ensures
        r == opposed(grid@, coords(k)),
{
    let v = *grid.get(&k).unwrap();
    let mut j: usize = 0;
    while j < 27
        invariant
            j <= 27,
            grid@.contains_key(k),
            v == grid@[k],
            forall|i: int| 0 <= i < j ==> !#[trigger] opposed_at(grid@, coords(k), i),
        decreases 27 - j,
    {
        let d: (usize, usize, usize) = (j % 3, (j / 3) % 3, (j / 9) % 3);
        assert(around(j as int) == (d.0 - 1, d.1 - 1, d.2 - 1));
        assert(key_of(coords(k)) == k);
        match shifted(k, d) {
            Some(q) => {
                match grid.get(&q) {
                    Some(w) => {
                        if (*w < 0) != (v < 0) {
                            assert(opposed_at(grid@, coords(k), j as int));
                            return true;
                        }
                    },
                    None => {},
                }
            },
            None => {},
        }
        j += 1;
    }
    false
}

/// Drops from the grid every value that has no value of the opposite sign
/// among the 27 corners around its own.
pub fn compact_value_grid(grid: &mut BTreeMap<Corner, i64>)
    ensures
        forall|k: Corner| #[trigger]
            final(grid)@.contains_key(k) <==> (old(grid)@.contains_key(k) && opposed(
                old(grid)@,
                coords(k),
            )),
        forall|k: Corner| #[trigger] final(grid)@.contains_key(k) ==> final(grid)@[k] == old(grid)@[k],
{
    let ghost g0 = grid@;
    let mut keys_to_remove: Vec<Corner> = Vec::new();
    for k in it: grid.keys()
        invariant
            g0 == grid@,
            it.seq() == grid.keys().remaining(),
            forall|c: Corner| #[trigger]
                keys_to_remove@.contains(c) <==> (exists|j: int|
                    0 <= j < it.index() && *it.seq()[j] == c) && !opposed(g0, coords(c)),
    {
        let ghost before = keys_to_remove@;
        proof {
            let ks = grid.keys().remaining();
            assert(ks.unref().to_set() == g0.dom());
            assert(ks.unref()[it.index()] == *k);
            assert(ks.unref().to_set().contains(*k));
        }
        let keep = has_opposed_neighbor(grid, *k);
        if !keep {
            keys_to_remove.push(*k);
        }
        proof {
            let i = it.index();
            assert forall|c: Corner| #[trigger]
                keys_to_remove@.contains(c) <==> (exists|j: int|
                    0 <= j < i + 1 && *it.seq()[j] == c) && !opposed(g0, coords(c)) by {
                if !keep {
                    assert(keys_to_remove@ == before.push(*k));
                    assert(keys_to_remove@[before.len() as int] == *k);
                    if before.contains(c) {
                        let x = choose|x: int| 0 <= x < before.len() && before[x] == c;
                        assert(keys_to_remove@[x] == c);
                    }
                }
                if keys_to_remove@.contains(c) {
                    if before.contains(c) {
                        let j = choose|j: int| 0 <= j < i && *it.seq()[j] == c;
                        assert(0 <= j < i + 1 && *it.seq()[j] == c);
                    } else {
                        assert(c == *k);
                        assert(0 <= i < i + 1 && *it.seq()[i] == c);
                    }
                }
                if (exists|j: int| 0 <= j < i + 1 && *it.seq()[j] == c) && !opposed(
                    g0,
                    coords(c),
                ) {
                    let j = choose|j: int| 0 <= j < i + 1 && *it.seq()[j] == c;
                    if j < i {
                        assert(before.contains(c));
                    }
                }
            }
        }
    }
    proof {
        let ks = grid.keys().remaining();
        assert(ks.unref().to_set() == g0.dom());
        assert forall|c: Corner| #[trigger]
            keys_to_remove@.contains(c) <==> (g0.contains_key(c) && !opposed(g0, coords(c))) by {
            if g0.contains_key(c) {
                assert(ks.unref().to_set().contains(c));
                let j = choose|j: int| 0 <= j < ks.unref().len() && ks.unref()[j] == c;
                assert(*ks[j] == c);
            }
            if keys_to_remove@.contains(c) {
                let j = choose|j: int| 0 <= j < ks.len() && *ks[j] == c;
                assert(ks.unref()[j] == c);
                assert(ks.unref().to_set().contains(c));
            }
        }
    }
    let mut i: usize = 0;
    while i < keys_to_remove.len()
        invariant
            i <= keys_to_remove@.len(),
            forall|c: Corner| #[trigger]
                keys_to_remove@.contains(c) <==> (g0.contains_key(c) && !opposed(g0, coords(c))),
            forall|c: Corner| #[trigger]
                grid@.contains_key(c) <==> (g0.contains_key(c) && !(exists|j: int|
                    0 <= j < i && keys_to_remove@[j] == c)),
            forall|c: Corner| #[trigger] grid@.contains_key(c) ==> grid@[c] == g0[c],
        decreases keys_to_remove@.len() - i,
    {
        let k = keys_to_remove[i];
        let ghost before = grid@;
        grid.remove(&k);
        proof {
            assert(grid@ == before.remove(k));
            assert forall|c: Corner| #[trigger]
                grid@.contains_key(c) <==> (g0.contains_key(c) && !(exists|j: int|
                    0 <= j < i + 1 && keys_to_remove@[j] == c)) by {
                if exists|j: int| 0 <= j < i + 1 && keys_to_remove@[j] == c {
                    let j = choose|j: int| 0 <= j < i + 1 && keys_to_remove@[j] == c;
                    if j < i {
                        assert(!before.contains_key(c));
                    }
                }
                if before.contains_key(c) && c != k {
                    if exists|j: int| 0 <= j < i + 1 && keys_to_remove@[j] == c {
                        let j = choose|j: int| 0 <= j < i + 1 && keys_to_remove@[j] == c;
                        assert(j < i);
                    }
                }
            }
        }
        i += 1;
    }
    proof {
        assert forall|k: Corner| #[trigger]
            grid@.contains_key(k) <==> (g0.contains_key(k) && opposed(g0, coords(k))) by {
            if g0.contains_key(k) && !opposed(g0, coords(k)) {
                assert(keys_to_remove@.contains(k));
                let j = choose|j: int| 0 <= j < keys_to_remove@.len() && keys_to_remove@[j] == k;
                assert(0 <= j < i && keys_to_remove@[j] == k);
            }
            if g0.contains_key(k) && opposed(g0, coords(k)) {
                if exists|j: int| 0 <= j < i && keys_to_remove@[j] == k {
                    let j = choose|j: int| 0 <= j < i && keys_to_remove@[j] == k;
                    assert(keys_to_remove@.contains(k));
                }
            }
        }
    }
}

} // verus!
