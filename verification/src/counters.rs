//! The counters that a vertex hands up to its parent: the sign changes along
//! the edges of its cell and its Euler characteristic.

use vstd::prelude::*;
use crate::bitset::BitSet;
use crate::vertex::{corner_in_parent, ends_at, sum_counts, Vertex};
use crate::vertex_index::pos;

verus! {

/// The three edges of a cell that end at `corner`. For the cell that lies at
/// that corner of its parent cell they are the edges that lie on edges of
/// the parent cell.
pub fn outside_edges(corner: usize) -> (r: BitSet)
    requires
        corner < 8,
    ensures
        forall|e: int| r.has(e) <==> (0 <= e < 12 && ends_at(e, corner as int)),
{
    if corner == 0 {
        BitSet::from_3bits(0, 1, 2)
    } else if corner == 1 {
        BitSet::from_3bits(0, 4, 5)
    } else if corner == 2 {
        BitSet::from_3bits(1, 3, 8)
    } else if corner == 3 {
        BitSet::from_3bits(3, 4, 11)
    } else if corner == 4 {
        BitSet::from_3bits(2, 6, 7)
    } else if corner == 5 {
        BitSet::from_3bits(5, 6, 10)
    } else if corner == 6 {
        BitSet::from_3bits(7, 8, 9)
    } else {
        BitSet::from_3bits(9, 10, 11)
    }
}

/// The sum of `f` over the vertices of `l` that `m` lists.
pub open spec fn sum_over(l: Seq<Vertex>, m: Seq<usize>, f: spec_fn(Vertex) -> int) -> int
    decreases m.len(),
{
    if m.len() == 0 {
        0
    } else {
        sum_over(l, m.drop_last(), f) + f(l[m.last() as int])
    }
}

/// The sum of the Euler characteristics of the vertices that `m` lists.
pub open spec fn sum_euler(l: Seq<Vertex>, m: Seq<usize>) -> int {
    sum_over(l, m, |v: Vertex| v.euler_characteristic as int)
}

/// The sign changes along the inner edges of the vertices that `m` lists.
pub open spec fn sum_inner(l: Seq<Vertex>, m: Seq<usize>) -> int {
    sum_over(l, m, |v: Vertex| v.inner_intersections())
}

/// The sign changes that the vertices that `m` lists have along edge `e`
/// where it lies on the same edge of the parent cell.
pub open spec fn sum_outer(l: Seq<Vertex>, m: Seq<usize>, e: int) -> int {
    sum_over(l, m, |v: Vertex| v.outer_intersections(e))
}

/// The sum of the weights of the vertices that `m` lists.
pub open spec fn sum_weight(l: Seq<Vertex>, m: Seq<usize>) -> int {
    sum_over(l, m, |v: Vertex| v.weight())
}

/// All sign changes of the vertices that `m` lists.
pub open spec fn sum_total(l: Seq<Vertex>, m: Seq<usize>) -> int {
    sum_over(l, m, |v: Vertex| v.total_intersections())
}

/// The sum of the sizes of the Euler characteristics of the vertices that
/// `m` lists.
pub open spec fn sum_abs_euler(l: Seq<Vertex>, m: Seq<usize>) -> int {
    sum_over(l, m, |v: Vertex| v.euler_size())
}

/// A sum of counts is not negative, and no less than any entry it counts.
pub proof fn lemma_sum_counts_bounds(counts: Seq<u32>, keep: spec_fn(int) -> bool, k: int)
    requires
        0 <= k <= counts.len(),
    ensures
        0 <= sum_counts(counts, keep, k),
        forall|e: int| 0 <= e < k && keep(e) ==> counts[e] <= sum_counts(counts, keep, k),
        sum_counts(counts, keep, k) <= sum_counts(counts, |e: int| true, k),
    decreases k,
{
    if k > 0 {
        lemma_sum_counts_bounds(counts, keep, k - 1);
    }
}

/// Entries that differ only at or above `k` have the same sum below `k`.
pub proof fn lemma_sum_counts_same(
    a: Seq<u32>,
    b: Seq<u32>,
    keep: spec_fn(int) -> bool,
    k: int,
)
    requires
        0 <= k <= a.len(),
        k <= b.len(),
        forall|e: int| 0 <= e < k ==> a[e] == b[e],
    ensures
        sum_counts(a, keep, k) == sum_counts(b, keep, k),
    decreases k,
{
    if k > 0 {
        lemma_sum_counts_same(a, b, keep, k - 1);
    }
}

/// Raising one counted entry by `d` raises the sum by `d`.
pub proof fn lemma_sum_counts_update(
    a: Seq<u32>,
    b: Seq<u32>,
    keep: spec_fn(int) -> bool,
    k: int,
    i: int,
    d: int,
)
    requires
        0 <= i < k <= a.len(),
        a.len() == b.len(),
        keep(i),
        b[i] == a[i] + d,
        forall|e: int| 0 <= e < k && e != i ==> a[e] == b[e],
    ensures
        sum_counts(b, keep, k) == sum_counts(a, keep, k) + d,
    decreases k,
{
    if k - 1 == i {
        lemma_sum_counts_same(a, b, keep, k - 1);
    } else {
        lemma_sum_counts_update(a, b, keep, k - 1, i, d);
    }
}

/// A sum over a list is the sum over its front part and the last entry.
pub proof fn lemma_sum_over_push(
    l: Seq<Vertex>,
    m: Seq<usize>,
    c: usize,
    f: spec_fn(Vertex) -> int,
)
    ensures
        sum_over(l, m.push(c), f) == sum_over(l, m, f) + f(l[c as int]),
{
    assert(m.push(c).drop_last() =~= m);
}

/// The counters of the vertex that stands for the vertices `children` of the
/// layer `vertices`: for each edge, their sign changes along it where it
/// lies on the same edge of the parent cell; and the sum of their Euler
/// characteristics less a quarter of their sign changes along all other
/// edges.
pub fn subsample_euler_characteristics(children: &Vec<usize>, vertices: &Vec<Vertex>) -> (r: (
    [u32; 12],
    i32,
))
    requires
        forall|k: int| 0 <= k < children@.len() ==> children@[k] < vertices@.len(),
        sum_weight(vertices@, children@) <= i32::MAX,
    ensures
        forall|e: int| 0 <= e < 12 ==> r.0[e] == sum_outer(vertices@, children@, e),
        r.1 == sum_euler(vertices@, children@) - sum_inner(vertices@, children@) / 4,
        sum_counts(r.0@, |e: int| true, 12) + sum_inner(vertices@, children@) == sum_total(
            vertices@,
            children@,
        ),
        -sum_weight(vertices@, children@) <= r.1 - sum_counts(r.0@, |e: int| true, 12),
        r.1 + sum_counts(r.0@, |e: int| true, 12) <= sum_weight(
            vertices@,
            children@,
        ),
{
    let ghost l = vertices@;
    let ghost m = children@;
    let mut intersections: [u32; 12] = [0, 0, 0, 0, 0, 0, 0, 0, 0, 0, 0, 0];
    let mut euler: i32 = 0;
    let mut inner_sum: u32 = 0;
    let mut k: usize = 0;
    proof {
        lemma_zero_counts(intersections@, 12);
        assert(m.subrange(0, 0) =~= Seq::<usize>::empty());
        lemma_weight_nonnegative(l, m);
    }
    while k < children.len()
        invariant
            k <= m.len(),
            l == vertices@,
            m == children@,
            forall|j: int| 0 <= j < m.len() ==> m[j] < l.len(),
            sum_weight(l, m) <= i32::MAX,
            sum_weight(l, m.subrange(0, k as int)) <= sum_weight(l, m),
            forall|e: int|
                0 <= e < 12 ==> intersections[e] == sum_outer(l, m.subrange(0, k as int), e),
            inner_sum == sum_inner(l, m.subrange(0, k as int)),
            euler == sum_euler(l, m.subrange(0, k as int)),
            sum_counts(intersections@, |e: int| true, 12) + inner_sum == sum_total(
                l,
                m.subrange(0, k as int),
            ),
            -sum_abs_euler(l, m.subrange(0, k as int)) <= euler <= sum_abs_euler(
                l,
                m.subrange(0, k as int),
            ),
            sum_abs_euler(l, m.subrange(0, k as int)) + sum_total(l, m.subrange(0, k as int))
                == sum_weight(l, m.subrange(0, k as int)),
        decreases m.len() - k,
    {
        let c = children[k];
        let vertex = &vertices[c];
        let ghost v = l[c as int];
        let ghost front = m.subrange(0, k as int);
        let ghost next = m.subrange(0, k + 1);
        proof {
            lemma_sum_step(l, m, k as int);
        }
        let i = vertex.index;
        let corner_index: usize = (i[0] % 2) + 2 * (i[1] % 2) + 4 * (i[2] % 2);
        let outside = outside_edges(corner_index);
        let ghost keep = |e: int| !ends_at(e, corner_in_parent(pos(v.index)));
        let ghost start_counts = intersections@;
        let ghost start_inner = inner_sum;
        let mut e: usize = 0;
        while e < 12
            invariant
                e <= 12,
                c < l.len(),
                v == l[c as int],
                *vertex == v,
                corner_index == corner_in_parent(pos(v.index)),
                keep == |e: int| !ends_at(e, corner_in_parent(pos(v.index))),
                start_counts.len() == 12,
                k < m.len(),
                l == vertices@,
                m == children@,
                c == m[k as int],
                forall|j: int| 0 <= j < m.len() ==> m[j] < l.len(),
                sum_weight(l, m) <= i32::MAX,
                forall|j: int|
                    0 <= j < 12 ==> start_counts[j] == sum_outer(l, m.subrange(0, k as int), j),
                start_inner == sum_inner(l, m.subrange(0, k as int)),
                euler == sum_euler(l, m.subrange(0, k as int)),
                sum_counts(start_counts, |e: int| true, 12) + start_inner == sum_total(
                    l,
                    m.subrange(0, k as int),
                ),
                -sum_abs_euler(l, m.subrange(0, k as int)) <= euler <= sum_abs_euler(
                    l,
                    m.subrange(0, k as int),
                ),
                sum_abs_euler(l, m.subrange(0, k as int)) + sum_total(l, m.subrange(0, k as int))
                    == sum_weight(l, m.subrange(0, k as int)),
                forall|j: int| outside.has(j) <==> (0 <= j < 12 && ends_at(j, corner_index as int)),
                forall|j: int|
                    0 <= j < e ==> intersections[j] == start_counts[j] + v.outer_intersections(j),
                forall|j: int| e <= j < 12 ==> intersections[j] == start_counts[j],
                inner_sum == start_inner + sum_counts(v.edge_intersections@, keep, e as int),
                sum_counts(intersections@, |e: int| true, 12) + inner_sum == sum_counts(
                    start_counts,
                    |e: int| true,
                    12,
                ) + start_inner + sum_counts(v.edge_intersections@, |e: int| true, e as int),
                sum_counts(start_counts, |e: int| true, 12) + start_inner + sum_counts(
                    v.edge_intersections@,
                    |e: int| true,
                    12,
                ) <= i32::MAX,
            decreases 12 - e,
        {
            proof {
                lemma_sum_counts_bounds(intersections@, |e: int| true, 12);
                lemma_sum_counts_bounds(v.edge_intersections@, |e: int| true, e as int);
                lemma_sum_counts_bounds(v.edge_intersections@, keep, e as int);
                lemma_sum_counts_tail(v.edge_intersections@, e as int + 1, 12);
            }
            let ghost before = intersections@;
            if outside.get(e) {
                intersections[e] = intersections[e] + vertex.edge_intersections[e];
                proof {
                    lemma_sum_counts_update(
                        before,
                        intersections@,
                        |e: int| true,
                        12,
                        e as int,
                        v.edge_intersections[e as int] as int,
                    );
                }
            } else {
                inner_sum = inner_sum + vertex.edge_intersections[e];
                proof {
                    lemma_sum_counts_same(before, intersections@, |e: int| true, 12);
                }
            }
            e += 1;
        }
        proof {
            lemma_sum_step(l, m, k as int);
            lemma_sum_counts_bounds(start_counts, |e: int| true, 12);
        }
        euler = euler + vertex.euler_characteristic;
        k += 1;
    }
    proof {
        assert(m.subrange(0, k as int) =~= m);
        lemma_sum_counts_bounds(intersections@, |e: int| true, 12);
    }
    euler = euler - (inner_sum as i32) / 4;
    (intersections, euler)
}

/// What one more vertex adds to each sum.
proof fn lemma_sum_step(l: Seq<Vertex>, m: Seq<usize>, k: int)
    requires
        0 <= k < m.len(),
        forall|j: int| 0 <= j < m.len() ==> m[j] < l.len(),
    ensures
        ({
            let front = m.subrange(0, k);
            let next = m.subrange(0, k + 1);
            let v = l[m[k] as int];
            &&& sum_euler(l, next) == sum_euler(l, front) + v.euler_characteristic
            &&& sum_inner(l, next) == sum_inner(l, front) + v.inner_intersections()
            &&& sum_weight(l, next) == sum_weight(l, front) + v.weight()
            &&& sum_total(l, next) == sum_total(l, front) + v.total_intersections()
            &&& sum_abs_euler(l, next) == sum_abs_euler(l, front) + v.euler_size()
            &&& forall|e: int|
                0 <= e < 12 ==> sum_outer(l, next, e) == sum_outer(l, front, e)
                    + v.outer_intersections(e)
            &&& sum_weight(l, next) <= sum_weight(l, m)
            &&& 0 <= sum_weight(l, front)
            &&& 0 <= v.total_intersections()
            &&& 0 <= v.inner_intersections() <= v.total_intersections()
        }),
{
    let front = m.subrange(0, k);
    let next = m.subrange(0, k + 1);
    let c = m[k];
    let v = l[c as int];
    assert(next =~= front.push(c));
    lemma_sum_over_push(l, front, c, |v: Vertex| v.euler_characteristic as int);
    lemma_sum_over_push(l, front, c, |v: Vertex| v.inner_intersections());
    lemma_sum_over_push(l, front, c, |v: Vertex| v.weight());
    lemma_sum_over_push(l, front, c, |v: Vertex| v.total_intersections());
    lemma_sum_over_push(l, front, c, |v: Vertex| v.euler_size());
    assert forall|e: int| 0 <= e < 12 implies sum_outer(l, next, e) == sum_outer(l, front, e)
        + v.outer_intersections(e) by {
        lemma_sum_over_push(l, front, c, |v: Vertex| v.outer_intersections(e));
    }
    lemma_weight_grows(l, m, k);
    lemma_sum_counts_bounds(v.edge_intersections@, |e: int| true, 12);
    lemma_sum_counts_bounds(
        v.edge_intersections@,
        |e: int| !ends_at(e, corner_in_parent(pos(v.index))),
        12,
    );
}

/// Counts that are all zero sum to zero.
proof fn lemma_zero_counts(counts: Seq<u32>, k: int)
    requires
        0 <= k <= counts.len(),
        forall|e: int| 0 <= e < k ==> counts[e] == 0,
    ensures
        sum_counts(counts, |e: int| true, k) == 0,
    decreases k,
{
    if k > 0 {
        lemma_zero_counts(counts, k - 1);
    }
}

/// A sum of counts grows with the number of entries taken.
proof fn lemma_sum_counts_tail(counts: Seq<u32>, j: int, k: int)
    requires
        0 <= j <= k <= counts.len(),
    ensures
        sum_counts(counts, |e: int| true, j) <= sum_counts(counts, |e: int| true, k),
    decreases k - j,
{
    if j < k {
        lemma_sum_counts_tail(counts, j, k - 1);
    }
}

/// The weight of a front part of a list is no more than that of the list.
proof fn lemma_weight_grows(l: Seq<Vertex>, m: Seq<usize>, k: int)
    requires
        0 <= k <= m.len(),
        forall|j: int| 0 <= j < m.len() ==> m[j] < l.len(),
    ensures
        sum_weight(l, m.subrange(0, k)) <= sum_weight(l, m),
        k < m.len() ==> sum_weight(l, m.subrange(0, k + 1)) <= sum_weight(l, m),
        0 <= sum_weight(l, m.subrange(0, k)),
    decreases m.len() - k,
{
    if k < m.len() {
        lemma_weight_grows(l, m, k + 1);
        assert(m.subrange(0, k + 1).drop_last() =~= m.subrange(0, k));
        lemma_sum_counts_bounds(l[m[k] as int].edge_intersections@, |e: int| true, 12);
        lemma_weight_nonnegative(l, m.subrange(0, k));
    } else {
        assert(m.subrange(0, k) =~= m);
        lemma_weight_nonnegative(l, m);
    }
}

/// No weight is negative.
pub proof fn lemma_weight_nonnegative(l: Seq<Vertex>, m: Seq<usize>)
    ensures
        0 <= sum_weight(l, m),
    decreases m.len(),
{
    if m.len() > 0 {
        lemma_weight_nonnegative(l, m.drop_last());
        lemma_sum_counts_bounds(l[m.last() as int].edge_intersections@, |e: int| true, 12);
    }
}

} // verus!
