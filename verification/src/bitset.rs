//! A small set of indices below 32, held in one machine word.
//!
//! The eight corners and the twelve edges of a cell are both numbered below
//! 32, so one `BitSet` names a sign pattern or a set of cell edges.

use vstd::prelude::*;

verus! {

/// Whether bit `i` of `v` is one.
pub open spec fn bit(v: u32, i: u32) -> bool {
    (v >> i) & 1 == 1
}

/// A set of indices in `0..32`.
#[derive(Clone, Copy, Debug, PartialEq, Eq, Hash, Structural)]
pub struct BitSet(pub u32);

impl View for BitSet {
    type V = Set<int>;

    /// The members of the set.
    open spec fn view(&self) -> Set<int> {
        Set::new(|i: int| self.has(i))
    }
}

impl BitSet {
    /// Membership of index `i`.
    pub open spec fn has(self, i: int) -> bool {
        0 <= i < 32 && bit(self.0, i as u32)
    }

    /// Whether the two sets have a member in common.
    pub open spec fn meets(self, other: BitSet) -> bool {
        exists|i: int| self.has(i) && other.has(i)
    }

    /// The set `{a, b, c}`.
    pub open spec fn of3(a: int, b: int, c: int) -> BitSet {
        BitSet((1u32 << (a as u32)) | (1u32 << (b as u32)) | (1u32 << (c as u32)))
    }

    /// The set `{a, b, c, d}`.
    pub open spec fn of4(a: int, b: int, c: int, d: int) -> BitSet {
        BitSet(
            (1u32 << (a as u32)) | (1u32 << (b as u32)) | (1u32 << (c as u32)) | (1u32 << (
            d as u32)),
        )
    }

    /// The empty set.
    pub fn zero() -> (r: BitSet)
        ensures
            r.0 == 0,
            forall|i: int| !r.has(i),
    {
        proof {
            lemma_zero_has_nothing();
        }
        BitSet(0)
    }

    /// The set whose members are the one-bits of `v`.
    pub fn new(v: u32) -> (r: BitSet)
        ensures
            r.0 == v,
    {
        BitSet(v)
    }

    /// The set `{a, b, c}`.
    pub fn from_3bits(a: usize, b: usize, c: usize) -> (r: BitSet)
        requires
            a < 32,
            b < 32,
            c < 32,
        ensures
            r == BitSet::of3(a as int, b as int, c as int),
            forall|i: int| r.has(i) <==> (i == a || i == b || i == c),
    {
        let r = BitSet((1u32 << (a as u32)) | (1u32 << (b as u32)) | (1u32 << (c as u32)));
        proof {
            assert forall|i: int| r.has(i) <==> (i == a || i == b || i == c) by {
                if 0 <= i < 32 {
                    lemma_of_bits(a as u32, b as u32, c as u32, c as u32, i as u32);
                }
            }
        }
        r
    }

    /// The set `{a, b, c, d}`.
    pub fn from_4bits(a: usize, b: usize, c: usize, d: usize) -> (r: BitSet)
        requires
            a < 32,
            b < 32,
            c < 32,
            d < 32,
        ensures
            r == BitSet::of4(a as int, b as int, c as int, d as int),
            forall|i: int| r.has(i) <==> (i == a || i == b || i == c || i == d),
    {
        let r = BitSet(
            (1u32 << (a as u32)) | (1u32 << (b as u32)) | (1u32 << (c as u32)) | (1u32 << (
            d as u32)),
        );
        proof {
            assert forall|i: int| r.has(i) <==> (i == a || i == b || i == c || i == d) by {
                if 0 <= i < 32 {
                    lemma_of_bits(a as u32, b as u32, c as u32, d as u32, i as u32);
                }
            }
        }
        r
    }

    /// Adds `index` to the set.
    pub fn set(&mut self, index: usize)
        requires
            index < 32,
        ensures
            final(self).0 == old(self).0 | (1u32 << (index as u32)),
            forall|i: int| final(self).has(i) <==> (old(self).has(i) || i == index),
    {
        let ghost before = self.0;
        self.0 = self.0 | (1u32 << (index as u32));
        proof {
            assert forall|i: int| self.has(i) <==> (old(self).has(i) || i == index) by {
                if 0 <= i < 32 {
                    lemma_set_bit(before, index as u32, i as u32);
                }
            }
        }
    }

    /// Whether `index` is in the set.
    pub fn get(&self, index: usize) -> (r: bool)
        requires
            index < 32,
        ensures
            r == self.has(index as int),
    {
        (self.0 >> (index as u32)) & 1 == 1
    }

    /// Whether the set has no member.
    pub fn empty(&self) -> (r: bool)
        ensures
            r == (self.0 == 0),
            r <==> forall|i: int| !self.has(i),
    {
        proof {
            lemma_zero_has_nothing();
            if forall|i: int| !self.has(i) {
                lemma_bitset_ext(*self, BitSet(0));
            }
        }
        self.0 == 0
    }

    /// The members common to both sets.
    pub fn intersect(&self, other: BitSet) -> (r: BitSet)
        ensures
            r.0 == self.0 & other.0,
            forall|i: int| r.has(i) <==> (self.has(i) && other.has(i)),
    {
        let r = BitSet(self.0 & other.0);
        proof {
            assert forall|i: int| r.has(i) <==> (self.has(i) && other.has(i)) by {
                if 0 <= i < 32 {
                    lemma_and_bit(self.0, other.0, i as u32);
                }
            }
        }
        r
    }

    /// The members of either set.
    pub fn merge(&self, other: BitSet) -> (r: BitSet)
        ensures
            r.0 == self.0 | other.0,
            forall|i: int| r.has(i) <==> (self.has(i) || other.has(i)),
    {
        let r = BitSet(self.0 | other.0);
        proof {
            assert forall|i: int| r.has(i) <==> (self.has(i) || other.has(i)) by {
                if 0 <= i < 32 {
                    lemma_or_bit(self.0, other.0, i as u32);
                }
            }
        }
        r
    }

    /// The word that holds the set.
    pub fn as_u32(&self) -> (r: u32)
        ensures
            r == self.0,
    {
        self.0
    }
}

/// Two sets with the same members are the same set.
pub proof fn lemma_bitset_ext(a: BitSet, b: BitSet)
    requires
        forall|i: int| 0 <= i < 32 ==> (a.has(i) <==> b.has(i)),
    ensures
        a == b,
{
    assert forall|i: u32| i < 32 implies bit(a.0, i) == bit(b.0, i) by {
        assert(a.has(i as int) <==> b.has(i as int));
    }
    lemma_equal_bits(a.0, b.0);
}

/// A set all of whose members are below 12 is a word below `2^12`.
pub proof fn lemma_bitset_below_12(a: BitSet)
    requires
        forall|i: int| 12 <= i < 32 ==> !a.has(i),
    ensures
        a.0 < 4096,
{
    assert forall|i: u32| 12 <= i < 32 implies !bit(a.0, i) by {
        assert(!a.has(i as int));
    }
    lemma_low_bits(a.0);
}

/// The members of a set with one index added.
pub proof fn lemma_set_has(w: u32, k: u32)
    requires
        k < 32,
    ensures
        forall|i: int| #[trigger] BitSet(w | (1u32 << k)).has(i) <==> (BitSet(w).has(i) || i == k),
{
    assert forall|i: int| #[trigger]
        BitSet(w | (1u32 << k)).has(i) <==> (BitSet(w).has(i) || i == k) by {
        if 0 <= i < 32 {
            lemma_set_bit(w, k, i as u32);
        }
    }
}

/// The word 0 holds no member.
pub proof fn lemma_zero_has_nothing()
    ensures
        forall|i: int| !BitSet(0).has(i),
{
    assert forall|i: int| !BitSet(0).has(i) by {
        if 0 <= i < 32 {
            let j = i as u32;
            assert(!bit(0u32, j)) by (bit_vector);
        }
    }
}

/// Words that agree in every bit are equal.
proof fn lemma_equal_bits(a: u32, b: u32)
    requires
        forall|i: u32| i < 32 ==> bit(a, i) == bit(b, i),
    ensures
        a == b,
{
    assert(bit(a, 0u32) == bit(b, 0u32));
    assert(bit(a, 1u32) == bit(b, 1u32));
    assert(bit(a, 2u32) == bit(b, 2u32));
    assert(bit(a, 3u32) == bit(b, 3u32));
    assert(bit(a, 4u32) == bit(b, 4u32));
    assert(bit(a, 5u32) == bit(b, 5u32));
    assert(bit(a, 6u32) == bit(b, 6u32));
    assert(bit(a, 7u32) == bit(b, 7u32));
    assert(bit(a, 8u32) == bit(b, 8u32));
    assert(bit(a, 9u32) == bit(b, 9u32));
    assert(bit(a, 10u32) == bit(b, 10u32));
    assert(bit(a, 11u32) == bit(b, 11u32));
    assert(bit(a, 12u32) == bit(b, 12u32));
    assert(bit(a, 13u32) == bit(b, 13u32));
    assert(bit(a, 14u32) == bit(b, 14u32));
    assert(bit(a, 15u32) == bit(b, 15u32));
    assert(bit(a, 16u32) == bit(b, 16u32));
    assert(bit(a, 17u32) == bit(b, 17u32));
    assert(bit(a, 18u32) == bit(b, 18u32));
    assert(bit(a, 19u32) == bit(b, 19u32));
    assert(bit(a, 20u32) == bit(b, 20u32));
    assert(bit(a, 21u32) == bit(b, 21u32));
    assert(bit(a, 22u32) == bit(b, 22u32));
    assert(bit(a, 23u32) == bit(b, 23u32));
    assert(bit(a, 24u32) == bit(b, 24u32));
    assert(bit(a, 25u32) == bit(b, 25u32));
    assert(bit(a, 26u32) == bit(b, 26u32));
    assert(bit(a, 27u32) == bit(b, 27u32));
    assert(bit(a, 28u32) == bit(b, 28u32));
    assert(bit(a, 29u32) == bit(b, 29u32));
    assert(bit(a, 30u32) == bit(b, 30u32));
    assert(bit(a, 31u32) == bit(b, 31u32));
    assert(((a >> 0u32) & 1 == 1) == ((b >> 0u32) & 1 == 1) && ((a >> 1u32) & 1 == 1) == ((b >> 1u32) & 1 == 1) && ((a >> 2u32) & 1 == 1) == ((b >> 2u32) & 1 == 1) && ((a >> 3u32) & 1 == 1) == ((b >> 3u32) & 1 == 1) && ((a >> 4u32) & 1 == 1) == ((b >> 4u32) & 1 == 1) && ((a >> 5u32) & 1 == 1) == ((b >> 5u32) & 1 == 1) && ((a >> 6u32) & 1 == 1) == ((b >> 6u32) & 1 == 1) && ((a >> 7u32) & 1 == 1) == ((b >> 7u32) & 1 == 1) && ((a >> 8u32) & 1 == 1) == ((b >> 8u32) & 1 == 1) && ((a >> 9u32) & 1 == 1) == ((b >> 9u32) & 1 == 1) && ((a >> 10u32) & 1 == 1) == ((b >> 10u32) & 1 == 1) && ((a >> 11u32) & 1 == 1) == ((b >> 11u32) & 1 == 1) && ((a >> 12u32) & 1 == 1) == ((b >> 12u32) & 1 == 1) && ((a >> 13u32) & 1 == 1) == ((b >> 13u32) & 1 == 1) && ((a >> 14u32) & 1 == 1) == ((b >> 14u32) & 1 == 1) && ((a >> 15u32) & 1 == 1) == ((b >> 15u32) & 1 == 1) && ((a >> 16u32) & 1 == 1) == ((b >> 16u32) & 1 == 1) && ((a >> 17u32) & 1 == 1) == ((b >> 17u32) & 1 == 1) && ((a >> 18u32) & 1 == 1) == ((b >> 18u32) & 1 == 1) && ((a >> 19u32) & 1 == 1) == ((b >> 19u32) & 1 == 1) && ((a >> 20u32) & 1 == 1) == ((b >> 20u32) & 1 == 1) && ((a >> 21u32) & 1 == 1) == ((b >> 21u32) & 1 == 1) && ((a >> 22u32) & 1 == 1) == ((b >> 22u32) & 1 == 1) && ((a >> 23u32) & 1 == 1) == ((b >> 23u32) & 1 == 1) && ((a >> 24u32) & 1 == 1) == ((b >> 24u32) & 1 == 1) && ((a >> 25u32) & 1 == 1) == ((b >> 25u32) & 1 == 1) && ((a >> 26u32) & 1 == 1) == ((b >> 26u32) & 1 == 1) && ((a >> 27u32) & 1 == 1) == ((b >> 27u32) & 1 == 1) && ((a >> 28u32) & 1 == 1) == ((b >> 28u32) & 1 == 1) && ((a >> 29u32) & 1 == 1) == ((b >> 29u32) & 1 == 1) && ((a >> 30u32) & 1 == 1) == ((b >> 30u32) & 1 == 1) && ((a >> 31u32) & 1 == 1) == ((b >> 31u32) & 1 == 1) ==> a == b) by (bit_vector);
}

/// A word whose bits from 12 upwards are zero is less than `2^12`.
proof fn lemma_low_bits(a: u32)
    requires
        forall|i: u32| 12 <= i < 32 ==> !bit(a, i),
    ensures
        a < 4096,
{
    assert(!bit(a, 12u32));
    assert(!bit(a, 13u32));
    assert(!bit(a, 14u32));
    assert(!bit(a, 15u32));
    assert(!bit(a, 16u32));
    assert(!bit(a, 17u32));
    assert(!bit(a, 18u32));
    assert(!bit(a, 19u32));
    assert(!bit(a, 20u32));
    assert(!bit(a, 21u32));
    assert(!bit(a, 22u32));
    assert(!bit(a, 23u32));
    assert(!bit(a, 24u32));
    assert(!bit(a, 25u32));
    assert(!bit(a, 26u32));
    assert(!bit(a, 27u32));
    assert(!bit(a, 28u32));
    assert(!bit(a, 29u32));
    assert(!bit(a, 30u32));
    assert(!bit(a, 31u32));
    assert((a >> 12u32) & 1 != 1 && (a >> 13u32) & 1 != 1 && (a >> 14u32) & 1 != 1 && (a >> 15u32) & 1 != 1 && (a >> 16u32) & 1 != 1 && (a >> 17u32) & 1 != 1 && (a >> 18u32) & 1 != 1 && (a >> 19u32) & 1 != 1 && (a >> 20u32) & 1 != 1 && (a >> 21u32) & 1 != 1 && (a >> 22u32) & 1 != 1 && (a >> 23u32) & 1 != 1 && (a >> 24u32) & 1 != 1 && (a >> 25u32) & 1 != 1 && (a >> 26u32) & 1 != 1 && (a >> 27u32) & 1 != 1 && (a >> 28u32) & 1 != 1 && (a >> 29u32) & 1 != 1 && (a >> 30u32) & 1 != 1 && (a >> 31u32) & 1 != 1 ==> a < 4096) by (bit_vector);
}

/// The bits of a word with bit `k` set.
proof fn lemma_set_bit(v: u32, k: u32, i: u32)
    requires
        k < 32,
        i < 32,
    ensures
        bit(v | (1u32 << k), i) <==> (bit(v, i) || i == k),
{
    assert(k < 32 && i < 32 ==> ((((v | (1u32 << k)) >> i) & 1 == 1) <==> (((v >> i) & 1 == 1)
        || i == k))) by (bit_vector);
}

/// The bits of the conjunction of two words.
proof fn lemma_and_bit(a: u32, b: u32, i: u32)
    requires
        i < 32,
    ensures
        bit(a & b, i) <==> (bit(a, i) && bit(b, i)),
{
    assert(i < 32 ==> ((((a & b) >> i) & 1 == 1) <==> (((a >> i) & 1 == 1) && ((b >> i) & 1
        == 1)))) by (bit_vector);
}

/// The bits of the disjunction of two words.
proof fn lemma_or_bit(a: u32, b: u32, i: u32)
    requires
        i < 32,
    ensures
        bit(a | b, i) <==> (bit(a, i) || bit(b, i)),
{
    assert(i < 32 ==> ((((a | b) >> i) & 1 == 1) <==> (((a >> i) & 1 == 1) || ((b >> i) & 1
        == 1)))) by (bit_vector);
}

/// The bits of a word made of three or four single bits.
proof fn lemma_of_bits(a: u32, b: u32, c: u32, d: u32, i: u32)
    requires
        a < 32,
        b < 32,
        c < 32,
        d < 32,
        i < 32,
    ensures
        bit((1u32 << a) | (1u32 << b) | (1u32 << c) | (1u32 << d), i) <==> (i == a || i == b || i
            == c || i == d),
        bit((1u32 << a) | (1u32 << b) | (1u32 << c), i) <==> (i == a || i == b || i == c),
{
    assert(a < 32 && b < 32 && c < 32 && d < 32 && i < 32 ==> ((((((1u32 << a) | (1u32 << b) | (
    1u32 << c) | (1u32 << d)) >> i) & 1) == 1) <==> (i == a || i == b || i == c || i == d)))
        by (bit_vector);
    assert(a < 32 && b < 32 && c < 32 && i < 32 ==> ((((((1u32 << a) | (1u32 << b) | (1u32
        << c)) >> i) & 1) == 1) <==> (i == a || i == b || i == c))) by (bit_vector);
}

} // verus!
