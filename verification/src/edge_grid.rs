//! The sign patterns of cells and the edge grid: the lattice edges along
//! which the sign of the field changes.

use std::collections::BTreeMap;
use vstd::prelude::*;
use crate::bitset::BitSet;
use crate::cell_configs::crossing;
use crate::edge::{axis_step, edge_axis, edge_high_corner, edge_low_corner, edge_offset, plus, Edge, EdgeIndex};
use crate::error::DualContouringError;
use crate::value_grid::{coords, corner_index, holds_at, in_lattice, key_of, octant, Corner};
use crate::vertex_index::{pos, Index};

verus! {

/// The coordinates of corner `c` of the cell at `p`.
pub open spec fn corner_pos(p: (int, int, int), c: int) -> (int, int, int) {
    plus(p, octant(c))
}

/// Whether grid `g` holds a value for each of the eight corners of the cell
/// at `p`.
pub open spec fn cell_covered(g: Map<Corner, i64>, p: (int, int, int)) -> bool {
    forall|c: int| 0 <= c < 8 ==> holds_at(g, #[trigger] corner_pos(p, c))
}

/// Whether `b` is the sign pattern of the cell at `p`: the set of its
/// corners at which the value is negative.
pub open spec fn is_pattern(g: Map<Corner, i64>, p: (int, int, int), b: BitSet) -> bool {
    forall|c: int| b.has(c) <==> (0 <= c < 8 && g[key_of(corner_pos(p, c))] < 0)
}

/// The sign pattern of the cell at `p`.
pub open spec fn pattern_of(g: Map<Corner, i64>, p: (int, int, int)) -> BitSet {
    choose|b: BitSet| is_pattern(g, p, b)
}

/// A cell has one sign pattern.
pub proof fn lemma_pattern_unique(g: Map<Corner, i64>, p: (int, int, int), b: BitSet)
    requires
        is_pattern(g, p, b),
    ensures
        b == pattern_of(g, p),
{
    let c = pattern_of(g, p);
    assert(is_pattern(g, p, c));
    crate::bitset::lemma_bitset_ext(b, c);
}

/// The word whose bits below `k` mark the negative corners of the cell at
/// `p`.
pub open spec fn pattern_word(g: Map<Corner, i64>, p: (int, int, int), k: nat) -> u32
    decreases k,
{
    if k == 0 {
        0
    } else if g[key_of(corner_pos(p, k - 1))] < 0 && k <= 8 {
        pattern_word(g, p, (k - 1) as nat) | (1u32 << ((k - 1) as u32))
    } else {
        pattern_word(g, p, (k - 1) as nat)
    }
}

/// The bits of `pattern_word` below `k` mark the negative corners.
proof fn lemma_pattern_word(g: Map<Corner, i64>, p: (int, int, int), k: nat)
    requires
        k <= 8,
    ensures
        forall|c: int| #[trigger]
            BitSet(pattern_word(g, p, k)).has(c) <==> (0 <= c < k && g[key_of(corner_pos(p, c))]
                < 0),
    decreases k,
{
    if k == 0 {
        crate::bitset::lemma_zero_has_nothing();
    } else {
        lemma_pattern_word(g, p, (k - 1) as nat);
        let w = pattern_word(g, p, (k - 1) as nat);
        if g[key_of(corner_pos(p, k - 1))] < 0 {
            let i = (k - 1) as u32;
            crate::bitset::lemma_set_has(w, i);
            assert(pattern_word(g, p, k) == w | (1u32 << i));
            assert forall|c: int| #[trigger]
                BitSet(pattern_word(g, p, k)).has(c) <==> (0 <= c < k && g[key_of(
                    corner_pos(p, c),
                )] < 0) by {
                assert(BitSet(w | (1u32 << i)).has(c) <==> (BitSet(w).has(c) || c == i));
                assert(BitSet(w).has(c) <==> (0 <= c < k - 1 && g[key_of(corner_pos(p, c))] < 0));
            }
        } else {
            assert(pattern_word(g, p, k) == w);
            assert forall|c: int| #[trigger]
                BitSet(pattern_word(g, p, k)).has(c) <==> (0 <= c < k && g[key_of(
                    corner_pos(p, c),
                )] < 0) by {
                assert(BitSet(w).has(c) <==> (0 <= c < k - 1 && g[key_of(corner_pos(p, c))] < 0));
            }
        }
    }
}

/// Every cell has a sign pattern.
pub proof fn lemma_pattern_exists(g: Map<Corner, i64>, p: (int, int, int))
    ensures
        is_pattern(g, p, pattern_of(g, p)),
{
    lemma_pattern_word(g, p, 8);
    assert(is_pattern(g, p, BitSet(pattern_word(g, p, 8))));
}

/// Along a sign-change edge of a cell whose corners all have a value the
/// sign changes in the grid.
pub proof fn lemma_crossing_is_sign_change(g: Map<Corner, i64>, p: (int, int, int), e: int)
    requires
        0 <= e < 12,
        cell_covered(g, p),
    ensures
        crossing(pattern_of(g, p), e) <==> sign_change(g, edge_axis(e), plus(p, edge_offset(e))),
{
    lemma_pattern_exists(g, p);
    lemma_edge_ends(p, e);
    let b = pattern_of(g, p);
    assert(holds_at(g, corner_pos(p, edge_low_corner(e))));
    assert(holds_at(g, corner_pos(p, edge_high_corner(e))));
    assert(b.has(edge_low_corner(e)) <==> g[key_of(corner_pos(p, edge_low_corner(e)))] < 0);
    assert(b.has(edge_high_corner(e)) <==> g[key_of(corner_pos(p, edge_high_corner(e)))] < 0);
}

/// The ends of cell edge `e` of the cell at `p` are the corners of the cell
/// that bear the numbers of the ends of `e`.
pub proof fn lemma_edge_ends(p: (int, int, int), e: int)
    requires
        0 <= e < 12,
    ensures
        corner_pos(p, edge_low_corner(e)) == plus(p, edge_offset(e)),
        corner_pos(p, edge_high_corner(e)) == plus(plus(p, edge_offset(e)), axis_step(edge_axis(e))),
        0 <= edge_low_corner(e) < 8,
        0 <= edge_high_corner(e) < 8,
{
}

/// Whether `e` reports the first corner of the cell at `p` that has no
/// value in `g`: it names that corner, or the cell where the corner lies
/// beyond the lattice.
pub open spec fn reports_missing(g: Map<Corner, i64>, p: (int, int, int), e: DualContouringError) -> bool {
    exists|c: int|
        0 <= c < 8 && !holds_at(g, #[trigger] corner_pos(p, c)) && (forall|b: int|
            0 <= b < c ==> holds_at(g, #[trigger] corner_pos(p, b))) && e is MissingValue && pos(
            e->MissingValue_0,
        ) == (if in_lattice(corner_pos(p, c)) {
            corner_pos(p, c)
        } else {
            p
        })
}

/// The sign pattern of the cell at `idx`: the set of its corners at which
/// the value is negative. Fails if a corner of the cell has no value in the
/// grid, with the first such corner.
pub fn bitset_for_cell(grid: &BTreeMap<Corner, i64>, idx: Index) -> (r: Result<
    BitSet,
    DualContouringError,
>)
    ensures
        r is Ok <==> cell_covered(grid@, pos(idx)),
        r matches Ok(b) ==> is_pattern(grid@, pos(idx), b) && b == pattern_of(grid@, pos(idx)),
        r matches Err(e) ==> e is MissingValue && reports_missing(grid@, pos(idx), e),
{
    let mut result = BitSet::zero();
    let mut c: usize = 0;
    while c < 8
        invariant
            c <= 8,
            forall|j: int| 0 <= j < c ==> holds_at(grid@, #[trigger] corner_pos(pos(idx), j)),
            forall|j: int|
                result.has(j) <==> (0 <= j < c && grid@[key_of(corner_pos(pos(idx), j))] < 0),
        decreases 8 - c,
    {
        let dx: usize = c % 2;
        let dy: usize = (c / 2) % 2;
        let dz: usize = (c / 4) % 2;
        assert(octant(c as int) == (dx as int, dy as int, dz as int));
        if (dx == 1 && idx[0] == usize::MAX) || (dy == 1 && idx[1] == usize::MAX) || (dz == 1
            && idx[2] == usize::MAX) {
            assert(!holds_at(grid@, corner_pos(pos(idx), c as int)));
            assert(!in_lattice(corner_pos(pos(idx), c as int)));
            return Err(DualContouringError::MissingValue(idx));
        }
        let corner: Corner = (idx[0] + dx, idx[1] + dy, idx[2] + dz);
        assert(corner == key_of(corner_pos(pos(idx), c as int)));
        match grid.get(&corner) {
            Some(v) => {
                if *v < 0 {
                    result.set(c);
                }
            },
            None => {
                assert(!holds_at(grid@, corner_pos(pos(idx), c as int)));
                assert(in_lattice(corner_pos(pos(idx), c as int)));
                return Err(DualContouringError::MissingValue(corner_index(corner)));
            },
        }
        c += 1;
    }
    proof {
        lemma_pattern_unique(grid@, pos(idx), result);
    }
    Ok(result)
}

/// Whether the sign changes along the lattice edge that starts at `p` and
/// runs along `axis`: both its ends have a value in `g`, of opposite signs.
pub open spec fn sign_change(g: Map<Corner, i64>, axis: int, p: (int, int, int)) -> bool {
    &&& holds_at(g, p)
    &&& holds_at(g, plus(p, axis_step(axis)))
    &&& (g[key_of(p)] < 0) != (g[key_of(plus(p, axis_step(axis)))] < 0)
}

/// Whether `es` lists the lattice edge that starts at `p` and runs along
/// `axis`.
pub open spec fn lists_edge(es: Seq<EdgeIndex>, axis: int, p: (int, int, int)) -> bool {
    exists|i: int| 0 <= i < es.len() && #[trigger] es[i].lattice_edge() == (axis, p)
}

/// Whether edge `a` comes before edge `b`: its low corner comes before that
/// of `b`, or they start at the same corner and `a` runs along the lesser
/// axis.
pub open spec fn edge_before(a: EdgeIndex, b: EdgeIndex) -> bool {
    crate::value_grid::corner_before(key_of(pos(a.index)), key_of(pos(b.index))) || (pos(a.index)
        == pos(b.index) && a.edge.ord() < b.edge.ord())
}

/// Whether the edges of `es` come in order.
#[verifier::opaque]
pub open spec fn edges_in_order(es: Seq<EdgeIndex>) -> bool {
    forall|i: int, j: int| 0 <= i < j < es.len() ==> edge_before(es[i], es[j])
}

/// Whether `es` is the edge grid of `g`: it lists, under their canonical
/// names, each once and in order, the lattice edges along which the sign
/// changes.
pub open spec fn is_edge_grid(g: Map<Corner, i64>, es: Seq<EdgeIndex>) -> bool {
    &&& forall|i: int| 0 <= i < es.len() ==> (#[trigger] es[i]).is_base()
    &&& forall|i: int|
        0 <= i < es.len() ==> sign_change(g, es[i].edge.ord(), pos((#[trigger] es[i]).index))
    &&& forall|axis: int, p: (int, int, int)|
        0 <= axis < 3 && #[trigger] sign_change(g, axis, p) ==> lists_edge(es, axis, p)
    &&& forall|i: int, j: int|
        0 <= i < es.len() && 0 <= j < es.len() && i != j ==> (#[trigger] es[i]).lattice_edge() != (
        #[trigger] es[j]).lattice_edge()
    &&& edges_in_order(es)
}

/// Whether the corner `c` is one of the first `i` entries of `ks`.
pub open spec fn seen(ks: Seq<Corner>, i: int, c: Corner) -> bool {
    exists|j: int| 0 <= j < i && j < ks.len() && #[trigger] ks[j] == c
}

/// Whether every edge of `es` starts at one of the first `n` corners of
/// `ks`, or at the corner `ks[n]` and runs along an axis below `axis`.
pub open spec fn edges_start_before(es: Seq<EdgeIndex>, ks: Seq<Corner>, n: int, axis: int) -> bool {
    forall|i: int|
        0 <= i < es.len() ==> seen(ks, n, key_of(pos((#[trigger] es[i]).index))) || (n < ks.len()
            && key_of(pos(es[i].index)) == ks[n] && es[i].edge.ord() < axis)
}

/// One edge more, which starts at the corner `ks[n]` and runs along
/// `axis`, keeps the edges in order.
proof fn lemma_edges_stay_in_order(es: Seq<EdgeIndex>, ks: Seq<Corner>, n: int, axis: int, e: EdgeIndex)
    requires
        edges_in_order(es),
        edges_start_before(es, ks, n, axis),
        0 <= n < ks.len(),
        forall|i: int, j: int|
            0 <= i < j < ks.len() ==> crate::value_grid::corner_before(ks[i], ks[j]),
        key_of(pos(e.index)) == ks[n],
        e.edge.ord() == axis,
        forall|i: int| 0 <= i < es.len() ==> in_lattice(pos((#[trigger] es[i]).index)),
    ensures
        edges_in_order(es.push(e)),
        forall|i: int| 0 <= i < es.len() ==> edge_before(#[trigger] es[i], e),
{
    reveal(edges_in_order);
    let es2 = es.push(e);
    assert forall|i: int, j: int| 0 <= i < j < es2.len() implies edge_before(es2[i], es2[j]) by {
        if j < es.len() {
            assert(edge_before(es[i], es[j]));
        } else {
            let k = key_of(pos(es[i].index));
            assert(in_lattice(pos(es[i].index)));
            if seen(ks, n, k) {
                let m = choose|m: int| 0 <= m < n && m < ks.len() && #[trigger] ks[m] == k;
                assert(crate::value_grid::corner_before(ks[m], ks[n]));
            }
        }
    }
    assert forall|i: int| 0 <= i < es.len() implies edge_before(#[trigger] es[i], e) by {
        assert(edge_before(es2[i], es2[es.len() as int]));
    }
}

/// The edge grid: the lattice edges both of whose ends have a value in the
/// grid, one negative and one not, each under its canonical name, in the
/// order of their low corners and, at one corner, of their axes.
pub fn generate_edge_grid(grid: &BTreeMap<Corner, i64>) -> (r: Vec<EdgeIndex>)
    ensures
        is_edge_grid(grid@, r@),
{
    let ghost g = grid@;
    let keys = crate::sorted::corners_in_order(grid);
    let ghost ks = keys@;
    let mut r: Vec<EdgeIndex> = Vec::new();
    let mut n: usize = 0;
    proof {
        reveal(edges_in_order);
    }
    while n < keys.len()
        invariant
            n <= ks.len(),
            g == grid@,
            ks == keys@,
            ks.to_set() == g.dom(),
            ks.no_duplicates(),
            forall|i: int, j: int|
                0 <= i < j < ks.len() ==> crate::value_grid::corner_before(ks[i], ks[j]),
            forall|i: int| 0 <= i < r@.len() ==> (#[trigger] r@[i]).is_base(),
            forall|i: int|
                0 <= i < r@.len() ==> sign_change(g, r@[i].edge.ord(), pos((#[trigger] r@[i]).index)),
            edges_start_before(r@, ks, n as int, 0),
            forall|axis: int, p: (int, int, int)|
                0 <= axis < 3 && #[trigger] sign_change(g, axis, p) && seen(ks, n as int, key_of(p))
                    ==> lists_edge(r@, axis, p),
            forall|i: int, j: int|
                0 <= i < r@.len() && 0 <= j < r@.len() && i != j ==> (#[trigger] r@[i]).lattice_edge()
                    != (#[trigger] r@[j]).lattice_edge(),
            edges_in_order(r@),
        decreases ks.len() - n,
    {
        let k = keys[n];
        proof {
            assert(ks.to_set().contains(k));
            assert(!seen(ks, n as int, k)) by {
                if seen(ks, n as int, k) {
                    let j = choose|j: int| 0 <= j < n && j < ks.len() && #[trigger] ks[j] == k;
                    assert(ks[j] == ks[n as int]);
                }
            }
        }
        let v = *grid.get(&k).unwrap();
        let index = corner_index(k);
        assert(key_of(pos(index)) == k);
        let mut axis: usize = 0;
        while axis < 3
            invariant
                axis <= 3,
                g == grid@,
                ks == keys@,
                0 <= n < ks.len(),
                ks[n as int] == k,
                !seen(ks, n as int, k),
                forall|i: int, j: int|
                    0 <= i < j < ks.len() ==> crate::value_grid::corner_before(ks[i], ks[j]),
                g.contains_key(k),
                v == g[k],
                pos(index) == coords(k),
                key_of(pos(index)) == k,
                forall|i: int| 0 <= i < r@.len() ==> (#[trigger] r@[i]).is_base(),
                forall|i: int|
                    0 <= i < r@.len() ==> sign_change(
                        g,
                        r@[i].edge.ord(),
                        pos((#[trigger] r@[i]).index),
                    ),
                edges_start_before(r@, ks, n as int, axis as int),
                forall|a: int, p: (int, int, int)|
                    0 <= a < 3 && #[trigger] sign_change(g, a, p) && (seen(ks, n as int, key_of(p))
                        || (p == coords(k) && a < axis)) ==> lists_edge(r@, a, p),
                forall|i: int, j: int|
                    0 <= i < r@.len() && 0 <= j < r@.len() && i != j ==> (
                    #[trigger] r@[i]).lattice_edge() != (#[trigger] r@[j]).lattice_edge(),
                edges_in_order(r@),
            decreases 3 - axis,
        {
            let ghost before = r@;
            let mut found = false;
            if index[axis] < usize::MAX {
                let mut adjacent = index;
                adjacent[axis] = adjacent[axis] + 1;
                assert(pos(adjacent) == plus(pos(index), axis_step(axis as int)));
                let ak: Corner = (adjacent[0], adjacent[1], adjacent[2]);
                assert(ak == key_of(pos(adjacent)));
                match grid.get(&ak) {
                    Some(w) => {
                        if (*w < 0) != (v < 0) {
                            found = true;
                        }
                    },
                    None => {},
                }
            }
            assert(found == sign_change(g, axis as int, pos(index)));
            if found {
                let e = EdgeIndex { edge: Edge::from_usize(axis), index };
                proof {
                    assert forall|i: int| 0 <= i < before.len() implies in_lattice(
                        pos((#[trigger] before[i]).index),
                    ) by {
                        assert(sign_change(g, before[i].edge.ord(), pos(before[i].index)));
                    }
                    lemma_edges_stay_in_order(before, ks, n as int, axis as int, e);
                }
                r.push(e);
                proof {
                    assert(r@[before.len() as int] == e);
                    assert(e.lattice_edge() == (axis as int, pos(index)));
                    assert forall|a: int, p: (int, int, int)|
                        0 <= a < 3 && #[trigger] sign_change(g, a, p) && (seen(
                            ks,
                            n as int,
                            key_of(p),
                        ) || (p == coords(k) && a < axis + 1)) implies lists_edge(r@, a, p) by {
                        if p == coords(k) && a == axis {
                            assert(r@[before.len() as int].lattice_edge() == (a, p));
                        } else {
                            assert(lists_edge(before, a, p));
                            let i = choose|i: int|
                                0 <= i < before.len() && #[trigger] before[i].lattice_edge() == (
                                    a,
                                    p,
                                );
                            assert(r@[i].lattice_edge() == (a, p));
                        }
                    }
                    assert(edges_start_before(r@, ks, n as int, axis + 1)) by {
                        assert forall|i: int| 0 <= i < r@.len() implies seen(
                            ks,
                            n as int,
                            key_of(pos((#[trigger] r@[i]).index)),
                        ) || (n < ks.len() && key_of(pos(r@[i].index)) == ks[n as int]
                            && r@[i].edge.ord() < axis + 1) by {
                            if i < before.len() {
                                assert(r@[i] == before[i]);
                            }
                        }
                    }
                }
            } else {
                proof {
                    assert(edges_start_before(r@, ks, n as int, axis + 1));
                }
            }
            axis += 1;
        }
        proof {
            assert forall|c: Corner| seen(ks, n + 1, c) <==> (seen(ks, n as int, c) || c == k) by {
                if seen(ks, n + 1, c) {
                    let j = choose|j: int| 0 <= j < n + 1 && j < ks.len() && #[trigger] ks[j] == c;
                    if j < n {
                        assert(seen(ks, n as int, c));
                    }
                }
                if seen(ks, n as int, c) {
                    let j = choose|j: int| 0 <= j < n && j < ks.len() && #[trigger] ks[j] == c;
                    assert(0 <= j < n + 1 && ks[j] == c);
                }
                if c == k {
                    assert(0 <= n < n + 1 && ks[n as int] == c);
                }
            }
            assert forall|a: int, p: (int, int, int)|
                0 <= a < 3 && #[trigger] sign_change(g, a, p) && seen(
                    ks,
                    n + 1,
                    key_of(p),
                ) implies lists_edge(r@, a, p) by {
                if key_of(p) == k {
                    assert(p == coords(k));
                }
            }
            assert(edges_start_before(r@, ks, n + 1, 0)) by {
                assert forall|i: int| 0 <= i < r@.len() implies seen(
                    ks,
                    n + 1,
                    key_of(pos((#[trigger] r@[i]).index)),
                ) || (n + 1 < ks.len() && key_of(pos(r@[i].index)) == ks[n + 1] && r@[i].edge.ord()
                    < 0) by {
                    let c = key_of(pos(r@[i].index));
                    assert(seen(ks, n as int, c) || c == k);
                }
            }
        }
        n += 1;
    }
    proof {
        assert forall|axis: int, p: (int, int, int)|
            0 <= axis < 3 && #[trigger] sign_change(g, axis, p) implies lists_edge(r@, axis, p) by {
            assert(g.contains_key(key_of(p)));
            assert(ks.to_set().contains(key_of(p)));
            let j = choose|j: int| 0 <= j < ks.len() && ks[j] == key_of(p);
            assert(seen(ks, ks.len() as int, key_of(p)));
        }
    }
    r
}

} // verus!
