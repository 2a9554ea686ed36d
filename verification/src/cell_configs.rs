//! The dual vertices of one cell: how the sign pattern of its eight corners
//! parts its sign-change edges into connected components.
//!
//! Inside a face the surface joins two sign-change edges when they are the
//! only two of that face, or, in a face with four of them, when they meet at
//! a negative corner. A component is a class of the edges that such joins
//! connect, and stands for one dual vertex.

use vstd::prelude::*;
use crate::bitset::{lemma_bitset_below_12, lemma_bitset_ext, BitSet};
use crate::edge::{edge_high_corner, edge_low_corner};
use crate::vertex_index::on_face;

verus! {

/// Whether the sign changes along cell edge `e` under sign pattern `p`.
pub open spec fn crossing(p: BitSet, e: int) -> bool {
    0 <= e < 12 && p.has(edge_low_corner(e)) != p.has(edge_high_corner(e))
}

/// 1 if `e` is a sign-change edge in `face`, else 0.
pub open spec fn crossing_in_face(p: BitSet, face: int, e: int) -> int {
    if on_face(face, e) && crossing(p, e) {
        1
    } else {
        0
    }
}

/// The number of sign-change edges below `k` in `face`.
pub open spec fn partial_face_crossings(p: BitSet, face: int, k: int) -> int
    decreases k,
{
    if k <= 0 {
        0
    } else {
        partial_face_crossings(p, face, k - 1) + crossing_in_face(p, face, k - 1)
    }
}

/// The number of sign-change edges in `face`.
pub open spec fn face_crossings(p: BitSet, face: int) -> int {
    partial_face_crossings(p, face, 12)
}

/// Whether edges `a` and `b` meet at a corner that is negative under `p`.
pub open spec fn meet_at_negative_corner(p: BitSet, a: int, b: int) -> bool {
    ||| (p.has(edge_low_corner(a)) && (edge_low_corner(a) == edge_low_corner(b)
        || edge_low_corner(a) == edge_high_corner(b)))
    ||| (p.has(edge_high_corner(a)) && (edge_high_corner(a) == edge_low_corner(b)
        || edge_high_corner(a) == edge_high_corner(b)))
}

/// Whether the surface joins the sign-change edges `a` and `b` inside
/// `face`.
pub open spec fn joined_in_face(p: BitSet, face: int, a: int, b: int) -> bool {
    &&& on_face(face, a)
    &&& on_face(face, b)
    &&& (face_crossings(p, face) == 2 || meet_at_negative_corner(p, a, b))
}

/// Whether the surface joins the distinct sign-change edges `a` and `b`
/// inside some face.
pub open spec fn linked(p: BitSet, a: int, b: int) -> bool {
    &&& a != b
    &&& crossing(p, a)
    &&& crossing(p, b)
    &&& (joined_in_face(p, 0, a, b) || joined_in_face(p, 1, a, b) || joined_in_face(p, 2, a, b)
        || joined_in_face(p, 3, a, b) || joined_in_face(p, 4, a, b) || joined_in_face(
        p,
        5,
        a,
        b,
    ))
}

/// Whether `n` joins lead from the sign-change edge `a` to `b`.
pub open spec fn reach(p: BitSet, a: int, b: int, n: nat) -> bool
    decreases n,
{
    if n == 0 {
        a == b && crossing(p, a)
    } else {
        exists|c: int| reach(p, a, c, (n - 1) as nat) && #[trigger] linked(p, c, b)
    }
}

/// Whether joins lead from the sign-change edge `a` to `b`: whether both
/// belong to the same dual vertex.
pub open spec fn connected(p: BitSet, a: int, b: int) -> bool {
    exists|n: nat| reach(p, a, b, n)
}

/// Whether `c` holds exactly the edges connected to `s`.
pub open spec fn holds_component(p: BitSet, s: int, c: BitSet) -> bool {
    forall|e: int| c.has(e) <==> connected(p, s, e)
}

/// The edges connected to the sign-change edge `s`, as a set.
pub open spec fn component_of(p: BitSet, s: int) -> BitSet {
    choose|c: BitSet| holds_component(p, s, c)
}

/// Whether `c` is one of the components of `p`.
pub open spec fn is_component(p: BitSet, c: BitSet) -> bool {
    exists|s: int| crossing(p, s) && #[trigger] holds_component(p, s, c)
}

/// Whether `s` is the lowest member of `c`.
pub open spec fn is_least(c: BitSet, s: int) -> bool {
    c.has(s) && forall|e: int| 0 <= e < s ==> !c.has(e)
}

/// Whether `c` is the component of a sign-change edge below `k` that is its
/// lowest member.
pub open spec fn seeded_below(p: BitSet, c: BitSet, k: int) -> bool {
    exists|s: int|
        0 <= s < k && crossing(p, s) && #[trigger] holds_component(p, s, c) && is_least(c, s)
}

/// Whether the sets of `cs` come in the order of their lowest members.
pub open spec fn in_order_of_least(cs: Seq<BitSet>) -> bool {
    forall|i: int, j: int, s: int, t: int|
        0 <= i < j < cs.len() && #[trigger] is_least(cs[i], s) && #[trigger] is_least(cs[j], t)
            ==> s < t
}

/// Whether `cs` lists the components of `p`, each once, in the order of
/// their lowest edges.
pub open spec fn is_cell_config(p: BitSet, cs: Seq<BitSet>) -> bool {
    &&& forall|i: int| 0 <= i < cs.len() ==> is_component(p, #[trigger] cs[i])
    &&& forall|e: int| crossing(p, e) ==> exists|i: int| 0 <= i < cs.len() && #[trigger] cs[i].has(e)
    &&& in_order_of_least(cs)
}

/// A set is determined by the edge it is the component of.
pub proof fn lemma_component_unique(p: BitSet, s: int, c: BitSet)
    requires
        holds_component(p, s, c),
    ensures
        c == component_of(p, s),
{
    let d = component_of(p, s);
    lemma_component_exists(p, s);
    lemma_bitset_ext(c, d);
}

/// Edges that are connected are sign-change edges.
pub proof fn lemma_reach_crossing(p: BitSet, a: int, b: int, n: nat)
    requires
        reach(p, a, b, n),
    ensures
        crossing(p, a),
        crossing(p, b),
    decreases n,
{
    if n > 0 {
        let c = choose|c: int| reach(p, a, c, (n - 1) as nat) && #[trigger] linked(p, c, b);
        lemma_reach_crossing(p, a, c, (n - 1) as nat);
    }
}

/// A path and one join more make a path.
pub proof fn lemma_reach_step(p: BitSet, a: int, b: int, c: int, n: nat)
    requires
        reach(p, a, b, n),
        linked(p, b, c),
    ensures
        reach(p, a, c, n + 1),
{
    assert(reach(p, a, b, ((n + 1) - 1) as nat) && linked(p, b, c));
}

/// A join is symmetric.
pub proof fn lemma_linked_symmetric(p: BitSet, a: int, b: int)
    requires
        linked(p, a, b),
    ensures
        linked(p, b, a),
{
}

/// Paths compose.
pub proof fn lemma_reach_compose(p: BitSet, a: int, b: int, c: int, n: nat, m: nat)
    requires
        reach(p, a, b, n),
        reach(p, b, c, m),
    ensures
        reach(p, a, c, n + m),
    decreases m,
{
    if m > 0 {
        let d = choose|d: int| reach(p, b, d, (m - 1) as nat) && #[trigger] linked(p, d, c);
        lemma_reach_compose(p, a, b, d, n, (m - 1) as nat);
        lemma_reach_step(p, a, d, c, (n + m - 1) as nat);
    }
}

/// Paths reverse.
pub proof fn lemma_reach_reverse(p: BitSet, a: int, b: int, n: nat)
    requires
        reach(p, a, b, n),
    ensures
        reach(p, b, a, n),
    decreases n,
{
    if n > 0 {
        let c = choose|c: int| reach(p, a, c, (n - 1) as nat) && #[trigger] linked(p, c, b);
        lemma_reach_reverse(p, a, c, (n - 1) as nat);
        lemma_reach_crossing(p, a, c, (n - 1) as nat);
        lemma_linked_symmetric(p, c, b);
        assert(reach(p, b, b, 0));
        lemma_reach_step(p, b, b, c, 0);
        lemma_reach_compose(p, b, c, a, 1, (n - 1) as nat);
    }
}

/// Being connected is symmetric.
pub proof fn lemma_connected_symmetric(p: BitSet, a: int, b: int)
    requires
        connected(p, a, b),
    ensures
        connected(p, b, a),
{
    let n = choose|n: nat| reach(p, a, b, n);
    lemma_reach_reverse(p, a, b, n);
}

/// Being connected is transitive.
pub proof fn lemma_connected_transitive(p: BitSet, a: int, b: int, c: int)
    requires
        connected(p, a, b),
        connected(p, b, c),
    ensures
        connected(p, a, c),
{
    let n = choose|n: nat| reach(p, a, b, n);
    let m = choose|m: nat| reach(p, b, c, m);
    lemma_reach_compose(p, a, b, c, n, m);
}

/// A sign-change edge is connected to itself.
pub proof fn lemma_connected_reflexive(p: BitSet, a: int)
    requires
        crossing(p, a),
    ensures
        connected(p, a, a),
{
    assert(reach(p, a, a, 0));
}

/// One join more keeps edges connected.
pub proof fn lemma_connected_step(p: BitSet, a: int, b: int, c: int)
    requires
        connected(p, a, b),
        linked(p, b, c),
    ensures
        connected(p, a, c),
{
    let n = choose|n: nat| reach(p, a, b, n);
    lemma_reach_step(p, a, b, c, n);
}

/// A set that joins do not lead out of holds all that is connected to its
/// members.
pub proof fn lemma_closed_holds_reach(p: BitSet, c: BitSet, a: int, b: int, n: nat)
    requires
        c.has(a),
        forall|x: int, y: int| c.has(x) && #[trigger] linked(p, x, y) ==> c.has(y),
        reach(p, a, b, n),
    ensures
        c.has(b),
    decreases n,
{
    if n > 0 {
        let d = choose|d: int| reach(p, a, d, (n - 1) as nat) && #[trigger] linked(p, d, b);
        lemma_closed_holds_reach(p, c, a, d, (n - 1) as nat);
    }
}

/// The two components of connected edges are one.
pub proof fn lemma_component_shared(p: BitSet, s: int, t: int)
    requires
        connected(p, s, t),
    ensures
        component_of(p, s) == component_of(p, t),
{
    lemma_connected_symmetric(p, s, t);
    let c = component_of(p, s);
    let d = component_of(p, t);
    lemma_component_exists(p, s);
    lemma_component_exists(p, t);
    assert forall|e: int| c.has(e) <==> d.has(e) by {
        if connected(p, s, e) {
            lemma_connected_transitive(p, t, s, e);
        }
        if connected(p, t, e) {
            lemma_connected_transitive(p, s, t, e);
        }
    }
    lemma_bitset_ext(c, d);
}

/// Some set holds the component of every edge.
pub proof fn lemma_component_exists(p: BitSet, s: int)
    ensures
        holds_component(p, s, component_of(p, s)),
{
    let c = BitSet(component_word(p, s, 12));
    lemma_component_word(p, s, 12);
    assert forall|e: int| c.has(e) <==> connected(p, s, e) by {
        if connected(p, s, e) {
            let n = choose|n: nat| reach(p, s, e, n);
            lemma_reach_crossing(p, s, e, n);
        }
    }
    assert(holds_component(p, s, c));
}

/// The word whose bits below `k` mark the edges connected to `s`.
pub open spec fn component_word(p: BitSet, s: int, k: nat) -> u32
    decreases k,
{
    if k == 0 {
        0
    } else if connected(p, s, k - 1) && k <= 12 {
        component_word(p, s, (k - 1) as nat) | (1u32 << ((k - 1) as u32))
    } else {
        component_word(p, s, (k - 1) as nat)
    }
}

/// The bits of `component_word` below `k` mark the edges connected to `s`.
proof fn lemma_component_word(p: BitSet, s: int, k: nat)
    requires
        k <= 12,
    ensures
        forall|e: int| #[trigger]
            BitSet(component_word(p, s, k)).has(e) <==> (0 <= e < k && connected(p, s, e)),
    decreases k,
{
    if k == 0 {
        crate::bitset::lemma_zero_has_nothing();
    } else {
        lemma_component_word(p, s, (k - 1) as nat);
        let w = component_word(p, s, (k - 1) as nat);
        if connected(p, s, k - 1) {
            let i = (k - 1) as u32;
            crate::bitset::lemma_set_has(w, i);
            assert(component_word(p, s, k) == w | (1u32 << i));
            assert forall|e: int| #[trigger]
                BitSet(component_word(p, s, k)).has(e) <==> (0 <= e < k && connected(
                    p,
                    s,
                    e,
                )) by {
                assert(BitSet(w | (1u32 << i)).has(e) <==> (BitSet(w).has(e) || e == i));
                assert(BitSet(w).has(e) <==> (0 <= e < k - 1 && connected(p, s, e)));
            }
        } else {
            assert(component_word(p, s, k) == w);
            assert forall|e: int| #[trigger]
                BitSet(component_word(p, s, k)).has(e) <==> (0 <= e < k && connected(
                    p,
                    s,
                    e,
                )) by {
                assert(BitSet(w).has(e) <==> (0 <= e < k - 1 && connected(p, s, e)));
            }
        }
    }
}

/// The two corners of cell edge `e`, the low one first.
pub fn edge_corners(e: usize) -> (r: (usize, usize))
    requires
        e < 12,
    ensures
        r.0 == edge_low_corner(e as int),
        r.1 == edge_high_corner(e as int),
        r.0 < r.1 < 8,
{
    if e == 0 {
        (0, 1)
    } else if e == 1 {
        (0, 2)
    } else if e == 2 {
        (0, 4)
    } else if e == 3 {
        (2, 3)
    } else if e == 4 {
        (1, 3)
    } else if e == 5 {
        (1, 5)
    } else if e == 6 {
        (4, 5)
    } else if e == 7 {
        (4, 6)
    } else if e == 8 {
        (2, 6)
    } else if e == 9 {
        (6, 7)
    } else if e == 10 {
        (5, 7)
    } else {
        (3, 7)
    }
}

/// Whether the sign changes along cell edge `e`.
pub fn is_crossing(p: BitSet, e: usize) -> (r: bool)
    requires
        e < 12,
    ensures
        r == crossing(p, e as int),
{
    let (lo, hi) = edge_corners(e);
    p.get(lo) != p.get(hi)
}

/// The number of sign-change edges in `face`.
fn count_face_crossings(p: BitSet, face: usize) -> (r: usize)
    requires
        face < 6,
    ensures
        r == face_crossings(p, face as int),
{
    let on = crate::vertex_index::edges_on_face(face);
    let mut n: usize = 0;
    let mut e: usize = 0;
    while e < 12
        invariant
            e <= 12,
            face < 6,
            forall|k: int| on.has(k) <==> on_face(face as int, k),
            n == partial_face_crossings(p, face as int, e as int),
            n <= e,
        decreases 12 - e,
    {
        if on.get(e) && is_crossing(p, e) {
            n += 1;
        }
        e += 1;
    }
    n
}

/// Whether the surface joins the sign-change edges `a` and `b`.
fn is_linked(p: BitSet, a: usize, b: usize) -> (r: bool)
    requires
        a < 12,
        b < 12,
    ensures
        r == linked(p, a as int, b as int),
{
    if a == b || !is_crossing(p, a) || !is_crossing(p, b) {
        return false;
    }
    let (alo, ahi) = edge_corners(a);
    let (blo, bhi) = edge_corners(b);
    let meet = (p.get(alo) && (alo == blo || alo == bhi)) || (p.get(ahi) && (ahi == blo || ahi
        == bhi));
    let mut face: usize = 0;
    while face < 6
        invariant
            face <= 6,
            a < 12,
            b < 12,
            a != b,
            crossing(p, a as int),
            crossing(p, b as int),
            meet == meet_at_negative_corner(p, a as int, b as int),
            forall|f: int| 0 <= f < face ==> !joined_in_face(p, f, a as int, b as int),
        decreases 6 - face,
    {
        let on = crate::vertex_index::edges_on_face(face);
        if on.get(a) && on.get(b) {
            if meet || count_face_crossings(p, face) == 2 {
                assert(joined_in_face(p, face as int, a as int, b as int));
                assert(face == 0 || face == 1 || face == 2 || face == 3 || face == 4 || face == 5);
                return true;
            }
        }
        face += 1;
    }
    false
}

/// The edges that the surface joins to the edge `e`.
fn links(p: BitSet, e: usize) -> (r: BitSet)
    requires
        e < 12,
    ensures
        forall|k: int| r.has(k) <==> linked(p, e as int, k),
{
    let mut r = BitSet::zero();
    let mut k: usize = 0;
    while k < 12
        invariant
            k <= 12,
            e < 12,
            forall|j: int| r.has(j) <==> (0 <= j < k && linked(p, e as int, j)),
        decreases 12 - k,
    {
        if is_linked(p, e, k) {
            r.set(k);
        }
        k += 1;
    }
    r
}

/// All the edges of the dual vertex to which the sign-change edge `seed`
/// belongs.
pub fn component(p: BitSet, seed: usize) -> (r: BitSet)
    requires
        seed < 12,
        crossing(p, seed as int),
    ensures
        r == component_of(p, seed as int),
        holds_component(p, seed as int, r),
        r.has(seed as int),
{
    let mut comp = BitSet::zero();
    comp.set(seed);
    proof {
        lemma_connected_reflexive(p, seed as int);
        lemma_bitset_below_12(comp);
    }
    loop
        invariant_except_break
            seed < 12,
            comp.has(seed as int),
            comp.0 < 4096,
            forall|e: int| comp.has(e) ==> connected(p, seed as int, e),
        ensures
            holds_component(p, seed as int, comp),
            comp.has(seed as int),
        decreases 4096 - comp.0,
    {
        let mut next = comp;
        let mut e: usize = 0;
        while e < 12
            invariant
                e <= 12,
                seed < 12,
                comp.0 <= next.0,
                forall|k: int|
                    next.has(k) <==> (comp.has(k) || exists|j: int|
                        0 <= j < e && comp.has(j) && #[trigger] linked(p, j, k)),
            decreases 12 - e,
        {
            if comp.get(e) {
                let l = links(p, e);
                let ghost before = next;
                next = next.merge(l);
                proof {
                    let a = before.0;
                    let b = l.0;
                    assert(a | b >= a) by (bit_vector);
                }
            }
            e += 1;
        }
        proof {
            assert forall|k: int| next.has(k) implies connected(p, seed as int, k) by {
                if !comp.has(k) {
                    let j = choose|j: int| 0 <= j < 12 && comp.has(j) && #[trigger] linked(p, j, k);
                    lemma_connected_step(p, seed as int, j, k);
                }
            }
            assert forall|k: int| 12 <= k < 32 implies !next.has(k) by {
                if next.has(k) {
                    let n = choose|n: nat| reach(p, seed as int, k, n);
                    lemma_reach_crossing(p, seed as int, k, n);
                }
            }
            lemma_bitset_below_12(next);
        }
        if next.0 == comp.0 {
            proof {
                assert forall|x: int, y: int| comp.has(x) && #[trigger] linked(p, x, y) implies comp.has(
                    y,
                ) by {
                    assert(0 <= x < 12 && comp.has(x) && linked(p, x, y));
                    assert(next.has(y));
                }
                assert forall|e: int| comp.has(e) <==> connected(p, seed as int, e) by {
                    if connected(p, seed as int, e) {
                        let n = choose|n: nat| reach(p, seed as int, e, n);
                        lemma_closed_holds_reach(p, comp, seed as int, e, n);
                    }
                }
            }
            break ;
        }
        comp = next;
    }
    proof {
        lemma_component_unique(p, seed as int, comp);
    }
    comp
}

/// The dual vertices of a cell with sign pattern `p`: the components of its
/// sign-change edges, in the order of their lowest edges.
pub fn cell_config(p: BitSet) -> (r: Vec<BitSet>)
    ensures
        is_cell_config(p, r@),
{
    let mut r: Vec<BitSet> = Vec::new();
    let mut covered = BitSet::zero();
    let mut e: usize = 0;
    while e < 12
        invariant
            e <= 12,
            forall|k: int| covered.has(k) <==> exists|i: int| 0 <= i < r@.len() && #[trigger] r@[i].has(k),
            forall|k: int| 0 <= k < e && crossing(p, k) ==> covered.has(k),
            forall|i: int| 0 <= i < r@.len() ==> seeded_below(p, #[trigger] r@[i], e as int),
            forall|i: int, j: int, s: int, t: int|
                0 <= i < j < r@.len() && #[trigger] is_least(r@[i], s) && #[trigger] is_least(r@[j], t)
                    ==> s < t,
        decreases 12 - e,
    {
        if is_crossing(p, e) && !covered.get(e) {
            let c = component(p, e);
            proof {
                assert forall|k: int| 0 <= k < e implies !c.has(k) by {
                    if c.has(k) {
                        let n = choose|n: nat| reach(p, e as int, k, n);
                        lemma_reach_crossing(p, e as int, k, n);
                        assert(covered.has(k));
                        let i = choose|i: int| 0 <= i < r@.len() && #[trigger] r@[i].has(k);
                        assert(seeded_below(p, r@[i], e as int));
                        let s = choose|s: int|
                            0 <= s < e && crossing(p, s) && #[trigger] holds_component(p, s, r@[i])
                                && is_least(r@[i], s);
                        lemma_connected_symmetric(p, e as int, k);
                        lemma_connected_transitive(p, s, k, e as int);
                        assert(r@[i].has(e as int));
                    }
                }
                assert(is_least(c, e as int));
            }
            let ghost old_r = r@;
            r.push(c);
            covered = covered.merge(c);
            proof {
                assert forall|k: int| covered.has(k) <==> exists|i: int|
                    0 <= i < r@.len() && #[trigger] r@[i].has(k) by {
                    if covered.has(k) {
                        if c.has(k) {
                            assert(r@[old_r.len() as int].has(k));
                        } else {
                            let i = choose|i: int| 0 <= i < old_r.len() && #[trigger] old_r[i].has(k);
                            assert(r@[i].has(k));
                        }
                    }
                    if exists|i: int| 0 <= i < r@.len() && #[trigger] r@[i].has(k) {
                        let i = choose|i: int| 0 <= i < r@.len() && #[trigger] r@[i].has(k);
                        if i < old_r.len() {
                            assert(old_r[i].has(k));
                        }
                    }
                }
                assert forall|i: int| 0 <= i < r@.len() implies seeded_below(
                    p,
                    #[trigger] r@[i],
                    e + 1,
                ) by {
                    if i < old_r.len() {
                        assert(seeded_below(p, old_r[i], e as int));
                        let s = choose|s: int|
                            0 <= s < e && crossing(p, s) && #[trigger] holds_component(
                                p,
                                s,
                                old_r[i],
                            ) && is_least(old_r[i], s);
                        assert(holds_component(p, s, r@[i]));
                    } else {
                        assert(holds_component(p, e as int, r@[i]));
                    }
                }
                assert forall|i: int, j: int, s: int, t: int|
                    0 <= i < j < r@.len() && #[trigger] is_least(r@[i], s) && #[trigger] is_least(
                        r@[j],
                        t,
                    ) implies s < t by {
                    if j == old_r.len() {
                        assert(seeded_below(p, old_r[i], e as int));
                        let s2 = choose|s2: int|
                            0 <= s2 < e && crossing(p, s2) && #[trigger] holds_component(
                                p,
                                s2,
                                old_r[i],
                            ) && is_least(old_r[i], s2);
                        assert(s2 == s);
                        assert(t == e);
                    } else {
                        assert(is_least(old_r[i], s) && is_least(old_r[j], t));
                    }
                }
            }
        }
        e += 1;
    }
    proof {
        assert forall|i: int| 0 <= i < r@.len() implies is_component(p, #[trigger] r@[i]) by {
            assert(seeded_below(p, r@[i], 12));
            let s = choose|s: int|
                0 <= s < 12 && crossing(p, s) && #[trigger] holds_component(p, s, r@[i])
                    && is_least(r@[i], s);
            assert(crossing(p, s) && holds_component(p, s, r@[i]));
        }
    }
    r
}

/// All the edges of the dual vertex to which the sign-change edge `edge` of
/// a cell with sign pattern `cell` belongs.
pub fn get_connected_edges(edge: crate::edge::Edge, cell: BitSet) -> (r: BitSet)
    requires
        crossing(cell, edge.ord()),
    ensures
        r == component_of(cell, edge.ord()),
        holds_component(cell, edge.ord(), r),
        is_component(cell, r),
        r.has(edge.ord()),
{
    component(cell, edge.as_usize())
}

/// The entries of `cs` that have an edge in common with `s`, in their
/// order.
pub open spec fn meeting(cs: Seq<BitSet>, s: BitSet) -> Seq<BitSet>
    decreases cs.len(),
{
    if cs.len() == 0 {
        Seq::empty()
    } else if cs.last().meets(s) {
        meeting(cs.drop_last(), s).push(cs.last())
    } else {
        meeting(cs.drop_last(), s)
    }
}

/// `meeting` keeps exactly the entries that meet `s`.
pub proof fn lemma_meeting_contains(cs: Seq<BitSet>, s: BitSet, c: BitSet)
    ensures
        meeting(cs, s).contains(c) <==> (cs.contains(c) && c.meets(s)),
    decreases cs.len(),
{
    if cs.len() > 0 {
        let rest = cs.drop_last();
        lemma_meeting_contains(rest, s, c);
        let m = meeting(rest, s);
        if meeting(cs, s).contains(c) {
            let k = choose|k: int| 0 <= k < meeting(cs, s).len() && meeting(cs, s)[k] == c;
            if k < m.len() {
                assert(m[k] == c);
                assert(m.contains(c));
                let j = choose|j: int| 0 <= j < rest.len() && rest[j] == c;
                assert(cs[j] == c);
            } else {
                assert(cs[cs.len() - 1] == c);
            }
        }
        if cs.contains(c) && c.meets(s) {
            let j = choose|j: int| 0 <= j < cs.len() && cs[j] == c;
            if j < rest.len() {
                assert(rest[j] == c);
                assert(rest.contains(c));
                let k = choose|k: int| 0 <= k < m.len() && m[k] == c;
                assert(meeting(cs, s)[k] == c);
            } else {
                assert(meeting(cs, s)[m.len() as int] == c);
            }
        }
    }
}

/// `meeting` repeats no entry if `cs` repeats none.
pub proof fn lemma_meeting_distinct(cs: Seq<BitSet>, s: BitSet)
    requires
        cs.no_duplicates(),
    ensures
        meeting(cs, s).no_duplicates(),
    decreases cs.len(),
{
    if cs.len() > 0 {
        let rest = cs.drop_last();
        lemma_meeting_distinct(rest, s);
        let m = meeting(rest, s);
        if cs.last().meets(s) {
            lemma_meeting_contains(rest, s, cs.last());
            if rest.contains(cs.last()) {
                let j = choose|j: int| 0 <= j < rest.len() && rest[j] == cs.last();
                assert(cs[j] == cs[cs.len() - 1]);
            }
            assert forall|i: int, j: int|
                0 <= i < m.push(cs.last()).len() && 0 <= j < m.push(cs.last()).len() && i
                    != j implies m.push(cs.last())[i] != m.push(cs.last())[j] by {
                if i < m.len() && j == m.len() {
                    assert(m.contains(m[i]));
                }
                if j < m.len() && i == m.len() {
                    assert(m.contains(m[j]));
                }
            }
        }
    }
}

/// `meeting` keeps the order of the lowest members.
pub proof fn lemma_meeting_in_order(cs: Seq<BitSet>, s: BitSet)
    requires
        in_order_of_least(cs),
    ensures
        in_order_of_least(meeting(cs, s)),
    decreases cs.len(),
{
    if cs.len() > 0 {
        let rest = cs.drop_last();
        assert(in_order_of_least(rest)) by {
            assert forall|i: int, j: int, a: int, b: int|
                0 <= i < j < rest.len() && #[trigger] is_least(rest[i], a) && #[trigger] is_least(
                    rest[j],
                    b,
                ) implies a < b by {
                assert(is_least(cs[i], a) && is_least(cs[j], b));
            }
        }
        lemma_meeting_in_order(rest, s);
        let m = meeting(rest, s);
        if cs.last().meets(s) {
            let e = m.push(cs.last());
            assert forall|i: int, j: int, a: int, b: int|
                0 <= i < j < e.len() && #[trigger] is_least(e[i], a) && #[trigger] is_least(
                    e[j],
                    b,
                ) implies a < b by {
                if j < m.len() {
                    assert(is_least(m[i], a) && is_least(m[j], b));
                } else {
                    assert(m.contains(m[i]));
                    lemma_meeting_contains(rest, s, m[i]);
                    let k = choose|k: int| 0 <= k < rest.len() && rest[k] == m[i];
                    assert(is_least(cs[k], a) && is_least(cs[cs.len() - 1], b));
                }
            }
        }
    }
}

/// The dual vertices of a cell with sign pattern `cell` that hold an edge
/// of `edge_set`, each once, in the order of their lowest edges.
pub fn get_connected_edges_from_edge_set(edge_set: BitSet, cell: BitSet) -> (r: Vec<BitSet>)
    ensures
        forall|c: BitSet| r@.contains(c) <==> (is_component(cell, c) && c.meets(edge_set)),
        r@.no_duplicates(),
        in_order_of_least(r@),
{
    let config = cell_config(cell);
    let mut r: Vec<BitSet> = Vec::new();
    let mut i: usize = 0;
    while i < config.len()
        invariant
            i <= config.len(),
            r@ == meeting(config@.subrange(0, i as int), edge_set),
        decreases config.len() - i,
    {
        let c = config[i];
        let common = c.intersect(edge_set);
        proof {
            if c.meets(edge_set) {
                let e = choose|e: int| c.has(e) && edge_set.has(e);
                assert(common.has(e));
            }
            if exists|e: int| common.has(e) {
                let e = choose|e: int| common.has(e);
                assert(c.has(e) && edge_set.has(e));
            }
            assert(config@.subrange(0, i + 1).drop_last() =~= config@.subrange(0, i as int));
            assert(config@.subrange(0, i + 1).last() == c);
        }
        if !common.empty() {
            r.push(c);
        }
        i += 1;
    }
    proof {
        assert(config@.subrange(0, i as int) =~= config@);
        lemma_config_distinct(cell, config@);
        lemma_meeting_distinct(config@, edge_set);
        lemma_meeting_in_order(config@, edge_set);
        assert forall|c: BitSet| r@.contains(c) <==> (is_component(cell, c) && c.meets(edge_set)) by {
            lemma_meeting_contains(config@, edge_set, c);
            if config@.contains(c) {
                let j = choose|j: int| 0 <= j < config@.len() && config@[j] == c;
                assert(is_component(cell, config@[j]));
            }
            if is_component(cell, c) {
                lemma_config_holds(cell, config@, c);
            }
        }
    }
    r
}

/// The components that a configuration lists differ from one another.
pub proof fn lemma_config_distinct(p: BitSet, cs: Seq<BitSet>)
    requires
        is_cell_config(p, cs),
    ensures
        cs.no_duplicates(),
{
    assert forall|a: int, b: int| 0 <= a < b < cs.len() implies cs[a] != cs[b] by {
        assert(is_component(p, cs[a]));
        let s = choose|s: int| crossing(p, s) && #[trigger] holds_component(p, s, cs[a]);
        lemma_connected_reflexive(p, s);
        let m = lemma_least_member(cs[a], s);
        if cs[a] == cs[b] {
            assert(is_least(cs[a], m) && is_least(cs[b], m));
        }
    }
}

/// A non-empty set has a lowest member.
pub proof fn lemma_least_member(c: BitSet, s: int) -> (m: int)
    requires
        c.has(s),
    ensures
        is_least(c, m),
        m <= s,
    decreases s,
{
    if exists|e: int| 0 <= e < s && c.has(e) {
        let e = choose|e: int| 0 <= e < s && c.has(e);
        lemma_least_member(c, e)
    } else {
        s
    }
}

/// A configuration lists every component.
pub proof fn lemma_config_holds(p: BitSet, cs: Seq<BitSet>, c: BitSet)
    requires
        is_cell_config(p, cs),
        is_component(p, c),
    ensures
        cs.contains(c),
{
    let s = choose|s: int| crossing(p, s) && #[trigger] holds_component(p, s, c);
    let i = choose|i: int| 0 <= i < cs.len() && #[trigger] cs[i].has(s);
    assert(is_component(p, cs[i]));
    let t = choose|t: int| crossing(p, t) && #[trigger] holds_component(p, t, cs[i]);
    lemma_component_unique(p, s, c);
    lemma_component_unique(p, t, cs[i]);
    lemma_component_shared(p, t, s);
}

/// The component of a sign-change edge is a component.
pub proof fn lemma_component_is_component(p: BitSet, e: int)
    requires
        crossing(p, e),
    ensures
        is_component(p, component_of(p, e)),
        component_of(p, e).has(e),
{
    lemma_component_exists(p, e);
    lemma_connected_reflexive(p, e);
    assert(crossing(p, e) && holds_component(p, e, component_of(p, e)));
}

} // verus!
