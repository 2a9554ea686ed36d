use tessellation::bitset::BitSet;

#[test]
fn zero_is_empty() {
    let z = BitSet::zero();
    assert!(z.empty());
    assert_eq!(z.as_u32(), 0);
    for i in 0..32 {
        assert!(!z.get(i));
    }
}

#[test]
fn from_bits_sets_exactly_those_bits() {
    assert_eq!(BitSet::from_3bits(0, 1, 2).as_u32(), 7);
    assert_eq!(BitSet::from_3bits(5, 5, 5).as_u32(), 32);
    assert_eq!(BitSet::from_4bits(4, 5, 10, 11).as_u32(), 16 + 32 + 1024 + 2048);
    assert_eq!(BitSet::from_4bits(31, 0, 0, 0).as_u32(), 0x8000_0001);
}

#[test]
fn set_and_get() {
    let mut b = BitSet::zero();
    b.set(3);
    b.set(11);
    b.set(3);
    assert!(b.get(3) && b.get(11));
    assert!(!b.get(0) && !b.get(4) && !b.get(31));
    assert!(!b.empty());
    assert_eq!(b, BitSet::new(8 + 2048));
}

#[test]
fn merge_and_intersect() {
    let a = BitSet::from_3bits(0, 1, 2);
    let b = BitSet::from_3bits(2, 3, 4);
    assert_eq!(a.merge(b), BitSet::new(31));
    assert_eq!(a.intersect(b), BitSet::new(4));
    assert!(a.intersect(BitSet::from_3bits(5, 6, 7)).empty());
    assert_eq!(a.merge(BitSet::zero()), a);
    assert_eq!(a.intersect(a), a);
}
