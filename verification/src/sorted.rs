//! The members of an ordered set, and the keys of an ordered map, as lists.

use std::collections::BTreeMap;
use std::collections::BTreeSet;
use vstd::prelude::*;
use vstd::std_specs::cmp::OrdSpec;
use vstd::std_specs::iter::IteratorSpec;

verus! {

/// The members of the set, each once, in increasing order.
pub fn members_in_order(set: &BTreeSet<usize>) -> (r: Vec<usize>)
    ensures
        r@.to_set() == set@,
        r@.no_duplicates(),
        forall|i: int, j: int| 0 <= i < j < r@.len() ==> r@[i] < r@[j],
{
    let mut r: Vec<usize> = Vec::new();
    for k in it: set.iter()
        invariant
            r@.len() == it.index(),
            forall|j: int| 0 <= j < r@.len() ==> r@[j] == *it.seq()[j],
            it.seq() == set.iter().remaining(),
    {
        r.push(*k);
    }
    proof {
        let ks = set.iter().remaining();
        assert(r@ =~= ks.unref());
        assert(ks.unref().to_set() == set@);
        assert(ks.no_duplicates());
        assert forall|i: int, j: int|
            0 <= i < r@.len() && 0 <= j < r@.len() && i != j implies r@[i] != r@[j] by {
            assert(ks[i] != ks[j]);
        }
        assert(vstd::std_specs::btree::increasing_seq(ks));
        assert(vstd::laws_cmp::obeys_cmp::<usize>());
        assert(vstd::laws_cmp::obeys_cmp::<&usize>());
        vstd::std_specs::btree::axiom_increasing_seq_meaning::<&usize>(ks);
        assert forall|i: int, j: int| 0 <= i < j < r@.len() implies r@[i] < r@[j] by {
            assert((&ks[i]).cmp_spec(&ks[j]) is Less);
        }
    }
    r
}

/// The corners that have a value in the grid, each once, in the order of
/// their coordinates.
pub fn corners_in_order(grid: &BTreeMap<(usize, usize, usize), i64>) -> (r: Vec<
    (usize, usize, usize),
>)
    ensures
        r@.to_set() == grid@.dom(),
        r@.no_duplicates(),
        forall|i: int, j: int|
            0 <= i < j < r@.len() ==> crate::value_grid::corner_before(r@[i], r@[j]),
{
    let mut r: Vec<(usize, usize, usize)> = Vec::new();
    for k in it: grid.keys()
        invariant
            r@.len() == it.index(),
            forall|j: int| 0 <= j < r@.len() ==> r@[j] == *it.seq()[j],
            it.seq() == grid.keys().remaining(),
    {
        r.push(*k);
    }
    proof {
        let ks = grid.keys().remaining();
        assert(r@ =~= ks.unref());
        assert(ks.unref().to_set() == grid@.dom());
        assert(ks.no_duplicates());
        assert forall|i: int, j: int|
            0 <= i < r@.len() && 0 <= j < r@.len() && i != j implies r@[i] != r@[j] by {
            assert(ks[i] != ks[j]);
        }
        assert(vstd::std_specs::btree::increasing_seq(ks));
        assert(vstd::laws_cmp::obeys_cmp::<usize>());
        assert(vstd::laws_cmp::obeys_cmp::<(usize, usize, usize)>());
        assert(vstd::laws_cmp::obeys_cmp::<&(usize, usize, usize)>());
        vstd::std_specs::btree::axiom_increasing_seq_meaning::<&(usize, usize, usize)>(ks);
        assert forall|i: int, j: int| 0 <= i < j < r@.len() implies crate::value_grid::corner_before(
            r@[i],
            r@[j],
        ) by {
            assert((&ks[i]).cmp_spec(&ks[j]) is Less);
        }
    }
    r
}

} // verus!
