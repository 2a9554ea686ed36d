//! One layer of the octree of dual vertices, and how the next coarser layer
//! is made from it.

use std::collections::BTreeSet;
use vstd::prelude::*;
use crate::vertex::Vertex;
use crate::vertex_index::{coord, face_step, index_eq, opposite, pos, Index};

verus! {

/// The cell of the next coarser layer that holds the cell at `p`.
pub open spec fn half(p: (int, int, int)) -> (int, int, int) {
    (p.0 / 2, p.1 / 2, p.2 / 2)
}

/// The cell of the next coarser layer that holds the cell `input`.
pub fn half_index(input: &Index) -> (r: Index)
    ensures
        pos(r) == half(pos(*input)),
{
    [input[0] / 2, input[1] / 2, input[2] / 2]
}

/// Whether vertex `u` of layer `l` lists `v` among its neighbors across
/// `face`.
pub open spec fn lists(l: Seq<Vertex>, u: int, face: int, v: int) -> bool {
    &&& 0 <= u < l.len()
    &&& 0 <= face < 6
    &&& exists|k: int|
        0 <= k < l[u].neighbors[face]@.len() && #[trigger] l[u].neighbors[face]@[k] == v
}

/// Whether every neighbor that a vertex of `l` lists is a vertex of `l`.
pub open spec fn links_in_range(l: Seq<Vertex>) -> bool {
    forall|u: int, face: int, k: int|
        0 <= u < l.len() && 0 <= face < 6 && 0 <= k < l[u].neighbors[face]@.len() ==> (
        #[trigger] l[u].neighbors[face]@[k]) < l.len()
}

/// Whether every neighbor that a vertex of `l` lists across a face lies in
/// the cell across that face.
pub open spec fn links_follow_faces(l: Seq<Vertex>) -> bool {
    forall|u: int, face: int, v: int| #[trigger]
        lists(l, u, face, v) && 0 <= v < l.len() ==> pos(l[v].index) == face_step(
            pos(l[u].index),
            face,
        )
}

/// Neighbor symmetry: whenever `u` lists `v` across a face, `v` lists `u`
/// across the opposite face.
pub open spec fn links_symmetric(l: Seq<Vertex>) -> bool {
    forall|u: int, face: int, v: int| #[trigger]
        lists(l, u, face, v) ==> lists(l, v, opposite(face), u)
}

/// Whether `a` lists `b` across some face.
pub open spec fn adjacent(l: Seq<Vertex>, a: int, b: int) -> bool {
    lists(l, a, 0, b) || lists(l, a, 1, b) || lists(l, a, 2, b) || lists(l, a, 3, b) || lists(
        l,
        a,
        4,
        b,
    ) || lists(l, a, 5, b)
}

/// Whether `a` lists `b` and both lie in the same cell of the next coarser
/// layer.
pub open spec fn sibling_step(l: Seq<Vertex>, a: int, b: int) -> bool {
    &&& adjacent(l, a, b)
    &&& 0 <= b < l.len()
    &&& half(pos(l[a].index)) == half(pos(l[b].index))
}

/// Whether `n` sibling steps lead from `a` to `b`.
pub open spec fn sibling_reach(l: Seq<Vertex>, a: int, b: int, n: nat) -> bool
    decreases n,
{
    if n == 0 {
        a == b && 0 <= a < l.len()
    } else {
        exists|c: int| sibling_reach(l, a, c, (n - 1) as nat) && #[trigger] sibling_step(l, c, b)
    }
}

/// Whether neighbor links that stay inside one cell of the next coarser
/// layer lead from `a` to `b`.
pub open spec fn sibling_connected(l: Seq<Vertex>, a: int, b: int) -> bool {
    exists|n: nat| sibling_reach(l, a, b, n)
}

/// A path and one step more make a path.
pub proof fn lemma_sibling_reach_step(l: Seq<Vertex>, a: int, b: int, c: int, n: nat)
    requires
        sibling_reach(l, a, b, n),
        sibling_step(l, b, c),
    ensures
        sibling_reach(l, a, c, n + 1),
{
    assert(sibling_reach(l, a, b, ((n + 1) - 1) as nat) && sibling_step(l, b, c));
}

/// What a path joins lies in the layer and in one cell of the next coarser
/// layer.
pub proof fn lemma_sibling_reach_cell(l: Seq<Vertex>, a: int, b: int, n: nat)
    requires
        sibling_reach(l, a, b, n),
    ensures
        0 <= a < l.len(),
        0 <= b < l.len(),
        half(pos(l[a].index)) == half(pos(l[b].index)),
    decreases n,
{
    if n > 0 {
        let c = choose|c: int|
            sibling_reach(l, a, c, (n - 1) as nat) && #[trigger] sibling_step(l, c, b);
        lemma_sibling_reach_cell(l, a, c, (n - 1) as nat);
    }
}

/// Paths compose.
pub proof fn lemma_sibling_reach_compose(l: Seq<Vertex>, a: int, b: int, c: int, n: nat, m: nat)
    requires
        sibling_reach(l, a, b, n),
        sibling_reach(l, b, c, m),
    ensures
        sibling_reach(l, a, c, n + m),
    decreases m,
{
    if m > 0 {
        let d = choose|d: int|
            sibling_reach(l, b, d, (m - 1) as nat) && #[trigger] sibling_step(l, d, c);
        lemma_sibling_reach_compose(l, a, b, d, n, (m - 1) as nat);
        lemma_sibling_reach_step(l, a, d, c, (n + m - 1) as nat);
    }
}

/// In a layer with symmetric links, paths reverse.
pub proof fn lemma_sibling_reach_reverse(l: Seq<Vertex>, a: int, b: int, n: nat)
    requires
        links_symmetric(l),
        sibling_reach(l, a, b, n),
    ensures
        sibling_reach(l, b, a, n),
    decreases n,
{
    if n > 0 {
        let c = choose|c: int|
            sibling_reach(l, a, c, (n - 1) as nat) && #[trigger] sibling_step(l, c, b);
        lemma_sibling_reach_reverse(l, a, c, (n - 1) as nat);
        lemma_sibling_reach_cell(l, a, c, (n - 1) as nat);
        lemma_sibling_step_symmetric(l, c, b);
        assert(sibling_reach(l, b, b, 0));
        lemma_sibling_reach_step(l, b, b, c, 0);
        lemma_sibling_reach_compose(l, b, c, a, 1, (n - 1) as nat);
    }
}

/// In a layer with symmetric links, a sibling step can be taken back.
pub proof fn lemma_sibling_step_symmetric(l: Seq<Vertex>, a: int, b: int)
    requires
        links_symmetric(l),
        0 <= a < l.len(),
        sibling_step(l, a, b),
    ensures
        sibling_step(l, b, a),
{
    let face = if lists(l, a, 0, b) {
        0int
    } else if lists(l, a, 1, b) {
        1
    } else if lists(l, a, 2, b) {
        2
    } else if lists(l, a, 3, b) {
        3
    } else if lists(l, a, 4, b) {
        4
    } else {
        5
    };
    assert(lists(l, a, face, b));
    assert(lists(l, b, opposite(face), a));
}

/// Every vertex is connected to itself.
pub proof fn lemma_sibling_connected_reflexive(l: Seq<Vertex>, a: int)
    requires
        0 <= a < l.len(),
    ensures
        sibling_connected(l, a, a),
{
    assert(sibling_reach(l, a, a, 0));
}

/// In a layer with symmetric links, being connected is symmetric.
pub proof fn lemma_sibling_connected_symmetric(l: Seq<Vertex>, a: int, b: int)
    requires
        links_symmetric(l),
        sibling_connected(l, a, b),
    ensures
        sibling_connected(l, b, a),
{
    let n = choose|n: nat| sibling_reach(l, a, b, n);
    lemma_sibling_reach_reverse(l, a, b, n);
}

/// Being connected is transitive.
pub proof fn lemma_sibling_connected_transitive(l: Seq<Vertex>, a: int, b: int, c: int)
    requires
        sibling_connected(l, a, b),
        sibling_connected(l, b, c),
    ensures
        sibling_connected(l, a, c),
{
    let n = choose|n: nat| sibling_reach(l, a, b, n);
    let m = choose|m: nat| sibling_reach(l, b, c, m);
    lemma_sibling_reach_compose(l, a, b, c, n, m);
}

/// One step more keeps vertices connected.
pub proof fn lemma_sibling_connected_step(l: Seq<Vertex>, a: int, b: int, c: int)
    requires
        sibling_connected(l, a, b),
        sibling_step(l, b, c),
    ensures
        sibling_connected(l, a, c),
{
    let n = choose|n: nat| sibling_reach(l, a, b, n);
    lemma_sibling_reach_step(l, a, b, c, n);
}

/// A set that sibling steps do not lead out of holds all that is connected
/// to its members.
pub proof fn lemma_closed_holds_connected(l: Seq<Vertex>, s: Set<usize>, a: int, b: int, n: nat)
    requires
        0 <= a < l.len(),
        holds(s, a),
        forall|x: int, y: int|
            0 <= x < l.len() && holds(s, x) && #[trigger] sibling_step(l, x, y) ==> holds(s, y),
        sibling_reach(l, a, b, n),
    ensures
        holds(s, b),
    decreases n,
{
    if n > 0 {
        let d = choose|d: int|
            sibling_reach(l, a, d, (n - 1) as nat) && #[trigger] sibling_step(l, d, b);
        lemma_closed_holds_connected(l, s, a, d, (n - 1) as nat);
        lemma_sibling_reach_cell(l, a, d, (n - 1) as nat);
    }
}

/// Whether the set holds the number `y`.
pub open spec fn holds(s: Set<usize>, y: int) -> bool {
    0 <= y <= usize::MAX && s.contains(y as usize)
}

/// The numbers below `n`, as a set.
pub open spec fn below(n: nat) -> Set<usize> {
    Set::new(|x: usize| x < n)
}

/// There are `n` numbers below `n`.
pub proof fn lemma_below(n: nat)
    requires
        n <= usize::MAX,
    ensures
        below(n).finite(),
        below(n).len() == n,
    decreases n,
{
    if n == 0 {
        assert(below(n) =~= Set::empty());
    } else {
        lemma_below((n - 1) as nat);
        assert(below(n) =~= below((n - 1) as nat).insert((n - 1) as usize));
    }
}

/// Adds to `neighbors`, which holds `start` alone, every vertex that
/// neighbor links lead to from `start` without leaving the cell of the next
/// coarser layer in which `start` lies.
pub fn add_connected_vertices_in_subcell(
    base: &Vec<Vertex>,
    start: usize,
    neighbors: &mut BTreeSet<usize>,
)
    requires
        start < base.len(),
        links_in_range(base@),
        old(neighbors)@ =~= Set::empty().insert(start),
    ensures
        forall|v: usize|
            final(neighbors)@.contains(v) <==> sibling_connected(base@, start as int, v as int),
        final(neighbors)@.finite(),
{
    let ghost l = base@;
    let parent_index = half_index(&base[start].index);
    let mut stack: Vec<usize> = Vec::new();
    stack.push(start);
    proof {
        lemma_sibling_connected_reflexive(l, start as int);
        lemma_below(l.len());
        assert(stack@[0] == start);
    }
    while stack.len() > 0
        invariant
            l == base@,
            start < l.len(),
            links_in_range(l),
            pos(parent_index) == half(pos(l[start as int].index)),
            neighbors@.finite(),
            neighbors@.subset_of(below(l.len())),
            below(l.len()).finite(),
            below(l.len()).len() == l.len(),
            neighbors@.contains(start),
            forall|x: usize| #[trigger]
                neighbors@.contains(x) ==> sibling_connected(l, start as int, x as int),
            forall|i: int| 0 <= i < stack@.len() ==> neighbors@.contains(#[trigger] stack@[i]),
            forall|x: usize, y: int|
                x < l.len() && neighbors@.contains(x) && #[trigger] sibling_step(l, x as int, y)
                    ==> holds(neighbors@, y) || stack@.contains(x),
        decreases l.len() - neighbors@.len(), stack@.len(),
    {
        let ghost set_before = neighbors@;
        let ghost stack_before = stack@;
        let v = stack.pop().unwrap();
        proof {
            vstd::set_lib::lemma_len_subset(neighbors@, below(l.len()));
            assert(v == stack_before[stack_before.len() - 1]);
            assert(neighbors@.contains(v));
            let n = choose|n: nat| sibling_reach(l, start as int, v as int, n);
            lemma_sibling_reach_cell(l, start as int, v as int, n);
        }
        let mut face: usize = 0;
        while face < 6
            invariant
                face <= 6,
                l == base@,
                start < l.len(),
                v < l.len(),
                links_in_range(l),
                pos(parent_index) == half(pos(l[start as int].index)),
                pos(parent_index) == half(pos(l[v as int].index)),
                neighbors@.finite(),
                neighbors@.subset_of(below(l.len())),
                set_before.subset_of(neighbors@),
                set_before.finite(),
                neighbors@.len() >= set_before.len(),
                neighbors@.len() == set_before.len() ==> stack@ == stack_before.drop_last(),
                neighbors@.contains(v),
                stack_before.len() > 0,
                v == stack_before[stack_before.len() - 1],
                stack@.len() >= stack_before.len() - 1,
                forall|i: int|
                    0 <= i < stack_before.len() - 1 ==> #[trigger] stack@[i] == stack_before[i],
                forall|x: usize| #[trigger]
                    neighbors@.contains(x) ==> sibling_connected(l, start as int, x as int),
                forall|i: int| 0 <= i < stack@.len() ==> neighbors@.contains(#[trigger] stack@[i]),
                forall|x: usize|
                    neighbors@.contains(x) && !set_before.contains(x) ==> stack@.contains(x),
                forall|f: int, y: int|
                    0 <= f < face && #[trigger] lists(l, v as int, f, y) && 0 <= y < l.len()
                        && half(pos(l[y].index)) == half(pos(l[v as int].index))
                        ==> holds(neighbors@, y),
            decreases 6 - face,
        {
            let mut k: usize = 0;
            while k < base[v].neighbors[face].len()
                invariant
                    face < 6,
                    k <= l[v as int].neighbors[face as int]@.len(),
                    l == base@,
                    start < l.len(),
                    v < l.len(),
                    links_in_range(l),
                    pos(parent_index) == half(pos(l[start as int].index)),
                    pos(parent_index) == half(pos(l[v as int].index)),
                    neighbors@.finite(),
                    neighbors@.subset_of(below(l.len())),
                    set_before.subset_of(neighbors@),
                    set_before.finite(),
                    neighbors@.len() >= set_before.len(),
                    neighbors@.len() == set_before.len() ==> stack@ == stack_before.drop_last(),
                    neighbors@.contains(v),
                    stack_before.len() > 0,
                    v == stack_before[stack_before.len() - 1],
                    stack@.len() >= stack_before.len() - 1,
                    forall|i: int|
                        0 <= i < stack_before.len() - 1 ==> #[trigger] stack@[i]
                            == stack_before[i],
                    forall|x: usize| #[trigger]
                        neighbors@.contains(x) ==> sibling_connected(l, start as int, x as int),
                    forall|i: int|
                        0 <= i < stack@.len() ==> neighbors@.contains(#[trigger] stack@[i]),
                    forall|x: usize|
                        neighbors@.contains(x) && !set_before.contains(x) ==> stack@.contains(x),
                    forall|f: int, y: int|
                        0 <= f < face && #[trigger] lists(l, v as int, f, y) && 0 <= y < l.len()
                            && half(pos(l[y].index)) == half(pos(l[v as int].index))
                            ==> holds(neighbors@, y),
                    forall|j: int|
                        0 <= j < k && half(
                            pos(l[l[v as int].neighbors[face as int]@[j] as int].index),
                        ) == half(pos(l[v as int].index)) ==> neighbors@.contains(
                            #[trigger] l[v as int].neighbors[face as int]@[j],
                        ),
                decreases l[v as int].neighbors[face as int]@.len() - k,
            {
                let n = base[v].neighbors[face][k];
                assert(n == l[v as int].neighbors[face as int]@[k as int]);
                assert(n < l.len());
                let h = half_index(&base[n].index);
                if index_eq(&h, &parent_index) {
                    let ghost set_mid = neighbors@;
                    let ghost stack_mid = stack@;
                    let fresh = neighbors.insert(n);
                    proof {
                        assert(lists(l, v as int, face as int, n as int));
                        assert(face == 0 || face == 1 || face == 2 || face == 3 || face == 4
                            || face == 5);
                        assert(sibling_step(l, v as int, n as int));
                        lemma_sibling_connected_step(l, start as int, v as int, n as int);
                    }
                    if fresh {
                        stack.push(n);
                        proof {
                            assert(stack@[stack_mid.len() as int] == n);
                            assert forall|x: usize|
                                neighbors@.contains(x) && !set_before.contains(
                                    x,
                                ) implies stack@.contains(x) by {
                                if x != n {
                                    assert(stack_mid.contains(x));
                                    let i = choose|i: int|
                                        0 <= i < stack_mid.len() && stack_mid[i] == x;
                                    assert(stack@[i] == x);
                                }
                            }
                        }
                    } else {
                        assert(neighbors@ =~= set_mid);
                    }
                }
                k += 1;
            }
            proof {
                assert forall|f: int, y: int|
                    0 <= f < face + 1 && #[trigger] lists(l, v as int, f, y) && 0 <= y < l.len()
                        && half(pos(l[y].index)) == half(
                        pos(l[v as int].index),
                    ) implies holds(neighbors@, y) by {
                    if f == face {
                        let j = choose|j: int|
                            0 <= j < l[v as int].neighbors[f]@.len()
                                && #[trigger] l[v as int].neighbors[f]@[j] == y;
                        assert(neighbors@.contains(l[v as int].neighbors[face as int]@[j]));
                    }
                }
            }
            face += 1;
        }
        proof {
            vstd::set_lib::lemma_len_subset(neighbors@, below(l.len()));
            assert forall|x: usize, y: int|
                x < l.len() && neighbors@.contains(x) && #[trigger] sibling_step(
                    l,
                    x as int,
                    y,
                ) implies holds(neighbors@, y) || stack@.contains(x) by {
                if x == v {
                    let f = if lists(l, x as int, 0, y) {
                        0int
                    } else if lists(l, x as int, 1, y) {
                        1
                    } else if lists(l, x as int, 2, y) {
                        2
                    } else if lists(l, x as int, 3, y) {
                        3
                    } else if lists(l, x as int, 4, y) {
                        4
                    } else {
                        5
                    };
                    assert(lists(l, v as int, f, y));
                } else if set_before.contains(x) {
                    if !holds(set_before, y) {
                        assert(stack_before.contains(x));
                        let i = choose|i: int| 0 <= i < stack_before.len() && stack_before[i] == x;
                        assert(i < stack_before.len() - 1);
                        assert(stack@[i] == x);
                    }
                }
            }
        }
    }
    proof {
        assert forall|v: usize| neighbors@.contains(v) <==> sibling_connected(
            l,
            start as int,
            v as int,
        ) by {
            if sibling_connected(l, start as int, v as int) {
                let n = choose|n: nat| sibling_reach(l, start as int, v as int, n);
                assert forall|x: int, y: int|
                    0 <= x < l.len() && holds(neighbors@, x) && #[trigger] sibling_step(
                        l,
                        x,
                        y,
                    ) implies holds(neighbors@, y) by {
                    let xu = x as usize;
                    assert(sibling_step(l, xu as int, y));
                    assert(!stack@.contains(xu));
                }
                lemma_closed_holds_connected(l, neighbors@, start as int, v as int, n);
                lemma_sibling_reach_cell(l, start as int, v as int, n);
            }
        }
    }
}

/// Whether the cell of `v` has `face` in common with its parent cell.
pub open spec fn borders(v: Vertex, face: int) -> bool {
    coord(pos(v.index), face / 2) % 2 == face % 2
}

/// Whether `x` is one of the first `k` entries of `s`.
pub open spec fn among_first(s: Seq<usize>, k: int, x: usize) -> bool {
    exists|j: int| 0 <= j < k && j < s.len() && s[j] == x
}

/// The list `a` followed by the entries of `b` that are not in the list
/// before them, in the order of `b`.
pub open spec fn append_new(a: Seq<usize>, b: Seq<usize>) -> Seq<usize>
    decreases b.len(),
{
    if b.len() == 0 {
        a
    } else if append_new(a, b.drop_last()).contains(b.last()) {
        append_new(a, b.drop_last())
    } else {
        append_new(a, b.drop_last()).push(b.last())
    }
}

/// `append_new` holds what either list holds, and repeats nothing if `a`
/// repeats nothing.
pub proof fn lemma_append_new(a: Seq<usize>, b: Seq<usize>)
    ensures
        forall|x: usize| #[trigger]
            append_new(a, b).contains(x) <==> (a.contains(x) || b.contains(x)),
        a.no_duplicates() ==> append_new(a, b).no_duplicates(),
    decreases b.len(),
{
    if b.len() > 0 {
        let front = b.drop_last();
        let d = append_new(a, front);
        lemma_append_new(a, front);
        assert forall|x: usize| #[trigger]
            append_new(a, b).contains(x) <==> (a.contains(x) || b.contains(x)) by {
            if b.contains(x) {
                let j = choose|j: int| 0 <= j < b.len() && b[j] == x;
                if j < front.len() {
                    assert(front[j] == x);
                    assert(front.contains(x));
                }
            }
            if front.contains(x) {
                let j = choose|j: int| 0 <= j < front.len() && front[j] == x;
                assert(b[j] == x);
            }
            assert(b[b.len() - 1] == b.last());
            if !d.contains(b.last()) {
                let e = d.push(b.last());
                assert(e[d.len() as int] == b.last());
                if d.contains(x) {
                    let j = choose|j: int| 0 <= j < d.len() && d[j] == x;
                    assert(e[j] == x);
                }
                if e.contains(x) {
                    let j = choose|j: int| 0 <= j < e.len() && e[j] == x;
                    if j < d.len() {
                        assert(d[j] == x);
                    }
                }
            }
        }
        if a.no_duplicates() && !d.contains(b.last()) {
            let e = d.push(b.last());
            assert forall|i: int, j: int| 0 <= i < e.len() && 0 <= j < e.len() && i != j implies e[i]
                != e[j] by {
                if i < d.len() && j == d.len() {
                    assert(d.contains(d[i]));
                }
                if j < d.len() && i == d.len() {
                    assert(d.contains(d[j]));
                }
            }
        }
    }
}

/// Whether the entries of `s` grow from each to the next.
#[verifier::opaque]
pub open spec fn increasing(s: Seq<usize>) -> bool {
    forall|i: int, j: int| 0 <= i < j < s.len() ==> s[i] < s[j]
}

/// Whether `x` is an entry of `v`.
pub fn vec_contains(v: &Vec<usize>, x: usize) -> (r: bool)
    ensures
        r == v@.contains(x),
{
    let mut i: usize = 0;
    while i < v.len()
        invariant
            i <= v.len(),
            forall|j: int| 0 <= j < i ==> v@[j] != x,
        decreases v.len() - i,
    {
        if v[i] == x {
            return true;
        }
        i += 1;
    }
    false
}

/// Hands the neighbors of `child` up to `parent`: for each axis, those that
/// `child` lists across the face that its cell has in common with the parent
/// cell, each added to the list of `parent` for that face unless it is
/// there.
pub fn add_child_to_parent(child: &Vertex, parent: &mut Vertex)
    ensures
        forall|face: int|
            0 <= face < 6 ==> (#[trigger] final(parent).neighbors[face])@ == (if borders(
                *child,
                face,
            ) {
                append_new(old(parent).neighbors[face]@, child.neighbors[face]@)
            } else {
                old(parent).neighbors[face]@
            }),
        final(parent).index == old(parent).index,
        final(parent).qef == old(parent).qef,
        final(parent).parent == old(parent).parent,
        final(parent).children == old(parent).children,
        final(parent).mesh_index == old(parent).mesh_index,
        final(parent).edge_intersections == old(parent).edge_intersections,
        final(parent).euler_characteristic == old(parent).euler_characteristic,
{
    let mut dim: usize = 0;
    while dim < 3
        invariant
            dim <= 3,
            forall|face: int|
                0 <= face < 6 ==> (#[trigger] parent.neighbors[face])@ == (if face < 2 * dim
                    && borders(*child, face) {
                    append_new(old(parent).neighbors[face]@, child.neighbors[face]@)
                } else {
                    old(parent).neighbors[face]@
                }),
            parent.index == old(parent).index,
            parent.qef == old(parent).qef,
            parent.parent == old(parent).parent,
            parent.children == old(parent).children,
            parent.mesh_index == old(parent).mesh_index,
            parent.edge_intersections == old(parent).edge_intersections,
            parent.euler_characteristic == old(parent).euler_characteristic,
        decreases 3 - dim,
    {
        let relevant: usize = dim * 2 + child.index[dim] % 2;
        let ghost start = *parent;
        let ghost list = child.neighbors[relevant as int]@;
        assert(borders(*child, relevant as int));
        assert(!borders(*child, opposite(relevant as int)));
        assert(list.subrange(0, 0) =~= Seq::<usize>::empty());
        let mut k: usize = 0;
        while k < child.neighbors[relevant].len()
            invariant
                dim < 3,
                relevant < 6,
                relevant / 2 == dim,
                list == child.neighbors[relevant as int]@,
                k <= list.len(),
                forall|face: int|
                    0 <= face < 6 && face != relevant ==> parent.neighbors[face] == start.neighbors[face],
                parent.neighbors[relevant as int]@ == append_new(
                    start.neighbors[relevant as int]@,
                    list.subrange(0, k as int),
                ),
                parent.index == start.index,
                parent.qef == start.qef,
                parent.parent == start.parent,
                parent.children == start.children,
                parent.mesh_index == start.mesh_index,
                parent.edge_intersections == start.edge_intersections,
                parent.euler_characteristic == start.euler_characteristic,
            decreases list.len() - k,
        {
            let n = child.neighbors[relevant][k];
            proof {
                assert(list.subrange(0, k + 1).drop_last() =~= list.subrange(0, k as int));
                assert(list.subrange(0, k + 1).last() == n);
            }
            if !vec_contains(&parent.neighbors[relevant], n) {
                parent.neighbors[relevant].push(n);
            }
            k += 1;
        }
        proof {
            assert(list.subrange(0, k as int) =~= list);
            assert forall|face: int| 0 <= face < 6 implies (#[trigger] parent.neighbors[face])@ == (
            if face < 2 * (dim + 1) && borders(*child, face) {
                append_new(old(parent).neighbors[face]@, child.neighbors[face]@)
            } else {
                old(parent).neighbors[face]@
            }) by {
                if face != relevant {
                    assert(parent.neighbors[face] == start.neighbors[face]);
                }
            }
        }
        dim += 1;
    }
}

/// The sum of `f` over the vertices of a layer.
pub open spec fn layer_sum(l: Seq<Vertex>, f: spec_fn(Vertex) -> int) -> int
    decreases l.len(),
{
    if l.len() == 0 {
        0
    } else {
        layer_sum(l.drop_last(), f) + f(l.last())
    }
}

/// The weight of a layer: a bound on every counter of every layer above it.
pub open spec fn layer_weight(l: Seq<Vertex>) -> int {
    layer_sum(l, |v: Vertex| v.weight())
}

/// The weight of the vertices of a layer that have no parent.
pub open spec fn unclaimed_weight(l: Seq<Vertex>) -> int {
    layer_sum(
        l,
        |v: Vertex|
            if v.parent is None {
                v.weight()
            } else {
                0
            },
    )
}

/// The number of vertices of a layer that have a parent.
pub open spec fn claimed_count(l: Seq<Vertex>) -> int {
    layer_sum(
        l,
        |v: Vertex|
            if v.parent is Some {
                1
            } else {
                0
            },
    )
}

/// The number of entries of all `children` lists of a layer.
pub open spec fn total_children(l: Seq<Vertex>) -> int {
    layer_sum(l, |v: Vertex| v.children@.len() as int)
}

/// What a layer sum becomes when one vertex is replaced.
pub proof fn lemma_layer_sum_update(l: Seq<Vertex>, i: int, x: Vertex, f: spec_fn(Vertex) -> int)
    requires
        0 <= i < l.len(),
    ensures
        layer_sum(l.update(i, x), f) == layer_sum(l, f) - f(l[i]) + f(x),
    decreases l.len(),
{
    if i == l.len() - 1 {
        assert(l.update(i, x).drop_last() =~= l.drop_last());
    } else {
        lemma_layer_sum_update(l.drop_last(), i, x, f);
        assert(l.update(i, x).drop_last() =~= l.drop_last().update(i, x));
    }
}

/// What a layer sum becomes when one vertex is added.
pub proof fn lemma_layer_sum_push(l: Seq<Vertex>, x: Vertex, f: spec_fn(Vertex) -> int)
    ensures
        layer_sum(l.push(x), f) == layer_sum(l, f) + f(x),
{
    assert(l.push(x).drop_last() =~= l);
}

/// Layer sums of functions that agree on every vertex of the layers, taken
/// in order, agree; and one that is nowhere less than another has no lesser
/// sum.
pub proof fn lemma_layer_sum_pointwise(
    a: Seq<Vertex>,
    b: Seq<Vertex>,
    f: spec_fn(Vertex) -> int,
    g: spec_fn(Vertex) -> int,
)
    requires
        a.len() == b.len(),
        forall|i: int| 0 <= i < a.len() ==> f(#[trigger] a[i]) <= g(b[i]),
    ensures
        layer_sum(a, f) <= layer_sum(b, g),
    decreases a.len(),
{
    if a.len() > 0 {
        lemma_layer_sum_pointwise(a.drop_last(), b.drop_last(), f, g);
    }
}

/// The weight of a vertex is not negative.
pub proof fn lemma_vertex_weight(v: Vertex)
    ensures
        0 <= v.weight(),
        0 <= v.total_intersections(),
{
    crate::counters::lemma_sum_counts_bounds(v.edge_intersections@, |e: int| true, 12);
}

/// Whether `l1` is `l0` but for the parents of its vertices.
pub open spec fn same_but_parents(l0: Seq<Vertex>, l1: Seq<Vertex>) -> bool {
    &&& l0.len() == l1.len()
    &&& forall|v: int|
        0 <= v < l0.len() ==> #[trigger] l1[v] == (Vertex { parent: l1[v].parent, ..l0[v] })
}

/// The vertices to which neighbor links lead from `start` without leaving
/// the cell of the next coarser layer in which `start` lies, `start`
/// included, each once.
pub fn connected_members(base: &Vec<Vertex>, start: usize) -> (r: Vec<usize>)
    requires
        start < base.len(),
        links_in_range(base@),
    ensures
        r@.no_duplicates(),
        forall|v: usize| #[trigger]
            r@.contains(v) <==> sibling_connected(base@, start as int, v as int),
        forall|k: int| 0 <= k < r@.len() ==> #[trigger] r@[k] < base@.len(),
        r@.len() > 0,
        increasing(r@),
{
    let mut set: BTreeSet<usize> = BTreeSet::new();
    set.insert(start);
    add_connected_vertices_in_subcell(base, start, &mut set);
    let r = crate::sorted::members_in_order(&set);
    proof {
        assert(increasing(r@)) by {
            reveal(increasing);
        }
        assert forall|v: usize| #[trigger] r@.contains(v) <==> sibling_connected(
            base@,
            start as int,
            v as int,
        ) by {
            assert(r@.contains(v) <==> r@.to_set().contains(v));
        }
        lemma_sibling_connected_reflexive(base@, start as int);
        assert(r@.contains(start));
        assert forall|k: int| 0 <= k < r@.len() implies #[trigger] r@[k] < base@.len() by {
            assert(r@.contains(r@[k]));
            let n = choose|n: nat| sibling_reach(base@, start as int, r@[k] as int, n);
            lemma_sibling_reach_cell(base@, start as int, r@[k] as int, n);
        }
    }
    r
}

/// Makes `p` the parent of every vertex that `members` lists.
pub fn claim_members(base: &mut Vec<Vertex>, members: &Vec<usize>, p: usize)
    requires
        members@.no_duplicates(),
        forall|k: int|
            0 <= k < members@.len() ==> #[trigger] members@[k] < old(base)@.len() && old(
                base,
            )@[members@[k] as int].parent is None,
    ensures
        same_but_parents(old(base)@, final(base)@),
        forall|v: usize|
            v < final(base)@.len() ==> #[trigger] final(base)@[v as int].parent == (if members@.contains(
                v,
            ) {
                Some(p)
            } else {
                old(base)@[v as int].parent
            }),
        unclaimed_weight(final(base)@) == unclaimed_weight(old(base)@) - crate::counters::sum_weight(
            old(base)@,
            members@,
        ),
        claimed_count(final(base)@) == claimed_count(old(base)@) + members@.len(),
{
    let ghost l0 = base@;
    let ghost m = members@;
    let mut k: usize = 0;
    proof {
        assert(m.subrange(0, 0) =~= Seq::<usize>::empty());
    }
    while k < members.len()
        invariant
            k <= m.len(),
            m == members@,
            m.no_duplicates(),
            forall|j: int|
                0 <= j < m.len() ==> #[trigger] m[j] < l0.len() && l0[m[j] as int].parent is None,
            same_but_parents(l0, base@),
            forall|v: usize|
                v < base@.len() ==> #[trigger] base@[v as int].parent == (if among_first(
                    m,
                    k as int,
                    v,
                ) {
                    Some(p)
                } else {
                    l0[v as int].parent
                }),
            unclaimed_weight(base@) == unclaimed_weight(l0) - crate::counters::sum_weight(
                l0,
                m.subrange(0, k as int),
            ),
            claimed_count(base@) == claimed_count(l0) + k,
        decreases m.len() - k,
    {
        let c = members[k];
        let ghost before = base@;
        proof {
            assert(!among_first(m, k as int, c)) by {
                if among_first(m, k as int, c) {
                    let j = choose|j: int| 0 <= j < k && j < m.len() && m[j] == c;
                    assert(m[j] == m[k as int]);
                }
            }
            assert(before[c as int].parent is None);
        }
        base[c].parent = Some(p);
        proof {
            let x = base@[c as int];
            assert(base@ =~= before.update(c as int, x));
            lemma_layer_sum_update(
                before,
                c as int,
                x,
                |v: Vertex|
                    if v.parent is None {
                        v.weight()
                    } else {
                        0
                    },
            );
            lemma_layer_sum_update(
                before,
                c as int,
                x,
                |v: Vertex|
                    if v.parent is Some {
                        1
                    } else {
                        0
                    },
            );
            assert(m.subrange(0, k + 1) =~= m.subrange(0, k as int).push(c));
            crate::counters::lemma_sum_over_push(
                l0,
                m.subrange(0, k as int),
                c,
                |v: Vertex| v.weight(),
            );
            assert(x.weight() == l0[c as int].weight());
            assert(before[c as int].weight() == l0[c as int].weight());
            assert forall|v: usize| v < base@.len() implies #[trigger] base@[v as int].parent == (
            if among_first(m, k + 1, v) {
                Some(p)
            } else {
                l0[v as int].parent
            }) by {
                if v == c {
                    assert(m[k as int] == v);
                } else {
                    assert(base@[v as int] == before[v as int]);
                    if among_first(m, k + 1, v) {
                        let j = choose|j: int| 0 <= j < k + 1 && j < m.len() && m[j] == v;
                        assert(j < k);
                        assert(among_first(m, k as int, v));
                    }
                    if among_first(m, k as int, v) {
                        let j = choose|j: int| 0 <= j < k && j < m.len() && m[j] == v;
                        assert(0 <= j < k + 1 && m[j] == v);
                    }
                }
            }
        }
        k += 1;
    }
    proof {
        assert(m.subrange(0, k as int) =~= m);
        assert forall|v: usize| v < base@.len() implies #[trigger] base@[v as int].parent == (
        if m.contains(v) {
            Some(p)
        } else {
            l0[v as int].parent
        }) by {
            if m.contains(v) {
                let j = choose|j: int| 0 <= j < m.len() && m[j] == v;
                assert(among_first(m, k as int, v));
            }
        }
    }
}

/// Whether some vertex that `m` lists hands `n` up across `face`: its cell
/// has `face` in common with the parent cell and it lists `n` across it.
pub open spec fn handed_up(l: Seq<Vertex>, m: Seq<usize>, face: int, n: usize) -> bool {
    exists|k: int|
        0 <= k < m.len() && borders(l[#[trigger] m[k] as int], face) && l[m[k] as int].neighbors[face]@.contains(
            n,
        )
}

/// Whether `parent` sums up the vertices `m` of layer `l`: it lies in the
/// cell of the next coarser layer that holds them, lists them as its
/// children, has their counters added up, and is itself neither solved nor
/// claimed nor part of the mesh.
pub open spec fn summarizes(l: Seq<Vertex>, m: Seq<usize>, parent: Vertex) -> bool {
    &&& m.len() > 0
    &&& pos(parent.index) == half(pos(l[m[0] as int].index))
    &&& parent.qef == crate::vertex::QefState::Unsolved
    &&& parent.parent is None
    &&& parent.mesh_index is None
    &&& parent.children@ == m
    &&& forall|e: int|
        0 <= e < 12 ==> #[trigger] parent.edge_intersections[e] == crate::counters::sum_outer(l, m, e)
    &&& parent.euler_characteristic == crate::counters::sum_euler(l, m)
        - crate::counters::sum_inner(l, m) / 4
}

/// The neighbors that the vertices that `m` lists hand up across `face`,
/// in the order in which they come, each once.
pub open spec fn handed_list(l: Seq<Vertex>, m: Seq<usize>, face: int) -> Seq<usize>
    decreases m.len(),
{
    if m.len() == 0 {
        Seq::empty()
    } else if borders(l[m.last() as int], face) {
        append_new(handed_list(l, m.drop_last(), face), l[m.last() as int].neighbors[face]@)
    } else {
        handed_list(l, m.drop_last(), face)
    }
}

/// The list of the neighbors handed up holds what is handed up, each once.
pub proof fn lemma_handed_list(l: Seq<Vertex>, m: Seq<usize>, face: int)
    ensures
        forall|n: usize| #[trigger]
            handed_list(l, m, face).contains(n) <==> handed_up(l, m, face, n),
        handed_list(l, m, face).no_duplicates(),
    decreases m.len(),
{
    if m.len() > 0 {
        let front = m.drop_last();
        let c = m.last() as int;
        lemma_handed_list(l, front, face);
        lemma_append_new(handed_list(l, front, face), l[c].neighbors[face]@);
        assert forall|n: usize| #[trigger]
            handed_list(l, m, face).contains(n) <==> handed_up(l, m, face, n) by {
            if handed_up(l, front, face, n) {
                let k = choose|k: int|
                    0 <= k < front.len() && borders(l[#[trigger] front[k] as int], face)
                        && l[front[k] as int].neighbors[face]@.contains(n);
                assert(m[k] == front[k]);
            }
            if borders(l[c], face) && l[c].neighbors[face]@.contains(n) {
                assert(m[m.len() - 1] as int == c);
            }
            if handed_up(l, m, face, n) {
                let k = choose|k: int|
                    0 <= k < m.len() && borders(l[#[trigger] m[k] as int], face)
                        && l[m[k] as int].neighbors[face]@.contains(n);
                if k < front.len() {
                    assert(front[k] == m[k]);
                }
            }
        }
    } else {
        assert forall|n: usize| !handed_up(l, m, face, n) by {}
    }
}

/// Whether `parent` is the vertex that stands for the vertices `m` of layer
/// `l`, with the neighbors still named as vertices of `l`.
pub open spec fn stands_for(l: Seq<Vertex>, m: Seq<usize>, parent: Vertex) -> bool {
    &&& summarizes(l, m, parent)
    &&& forall|face: int|
        0 <= face < 6 ==> (#[trigger] parent.neighbors[face])@ == handed_list(l, m, face)
    &&& forall|face: int, n: usize|
        0 <= face < 6 ==> (#[trigger] parent.neighbors[face]@.contains(n) <==> handed_up(
            l,
            m,
            face,
            n,
        ))
}

/// The vertex that stands for the vertices `members` of layer `base`, with
/// its neighbors still named as vertices of `base`.
pub fn make_parent(base: &Vec<Vertex>, members: &Vec<usize>) -> (parent: Vertex)
    requires
        members@.len() > 0,
        forall|k: int| 0 <= k < members@.len() ==> #[trigger] members@[k] < base@.len(),
        crate::counters::sum_weight(base@, members@) <= i32::MAX,
    ensures
        stands_for(base@, members@, parent),
        parent.weight() <= crate::counters::sum_weight(base@, members@),
{
    let ghost l = base@;
    let ghost m = members@;
    let (intersections, euler) = crate::counters::subsample_euler_characteristics(members, base);
    let mut parent = Vertex {
        index: half_index(&base[members[0]].index),
        qef: crate::vertex::QefState::Unsolved,
        neighbors: [Vec::new(), Vec::new(), Vec::new(), Vec::new(), Vec::new(), Vec::new()],
        parent: None,
        children: Vec::new(),
        mesh_index: None,
        edge_intersections: intersections,
        euler_characteristic: euler,
    };
    let ghost first = parent;
    let mut k: usize = 0;
    while k < members.len()
        invariant
            k <= m.len(),
            l == base@,
            m == members@,
            forall|j: int| 0 <= j < m.len() ==> #[trigger] m[j] < l.len(),
            parent.index == first.index,
            parent.qef == first.qef,
            parent.parent == first.parent,
            parent.mesh_index == first.mesh_index,
            parent.edge_intersections == first.edge_intersections,
            parent.euler_characteristic == first.euler_characteristic,
            parent.children@ == m.subrange(0, k as int),
            forall|face: int|
                0 <= face < 6 ==> (#[trigger] parent.neighbors[face])@ == handed_list(
                    l,
                    m.subrange(0, k as int),
                    face,
                ),
        decreases m.len() - k,
    {
        let c = members[k];
        let ghost before = parent;
        parent.children.push(c);
        add_child_to_parent(&base[c], &mut parent);
        proof {
            let front = m.subrange(0, k as int);
            let next = m.subrange(0, k + 1);
            assert(next.drop_last() =~= front);
            assert(next.last() == c);
        }
        k += 1;
    }
    proof {
        assert(m.subrange(0, k as int) =~= m);
        assert forall|face: int, n: usize| 0 <= face < 6 implies (
        #[trigger] parent.neighbors[face]@.contains(n) <==> handed_up(l, m, face, n)) by {
            lemma_handed_list(l, m, face);
        }
    }
    parent
}

/// Whether vertices `u` and `v` of `l` have the same parent, or both none.
pub open spec fn same_parent(l: Seq<Vertex>, u: usize, v: usize) -> bool {
    l[u as int].parent == l[v as int].parent
}

/// Whether the vertices of `l` that have a parent share it exactly with the
/// vertices that are connected to them in `l0`.
pub open spec fn classes_agree(l0: Seq<Vertex>, l: Seq<Vertex>) -> bool {
    forall|u: usize, v: usize|
        u < l.len() && v < l.len() && l[u as int].parent is Some ==> (#[trigger] same_parent(
            l,
            u,
            v,
        ) <==> sibling_connected(l0, u as int, v as int))
}

/// Whether every child that a vertex of `r` lists is a vertex of `l` whose
/// parent it is.
pub open spec fn children_claimed(l: Seq<Vertex>, r: Seq<Vertex>) -> bool {
    forall|p: int, k: int|
        0 <= p < r.len() && 0 <= k < r[p].children@.len() ==> (#[trigger] r[p].children@[k])
            < l.len() && l[r[p].children@[k] as int].parent == Some(p as usize)
}

/// Whether the parent of every vertex of `l` that has one is a vertex of
/// `r` that lists it as a child.
pub open spec fn parents_list_children(l: Seq<Vertex>, r: Seq<Vertex>) -> bool {
    forall|v: usize|
        v < l.len() ==> ((#[trigger] l[v as int].parent) matches Some(p) ==> p < r.len()
            && r[p as int].children@.contains(v))
}

/// Whether every vertex of `r` stands for its children, which it lists
/// once each.
pub open spec fn parents_stand(l0: Seq<Vertex>, r: Seq<Vertex>) -> bool {
    forall|p: int|
        0 <= p < r.len() ==> stands_for(l0, (#[trigger] r[p]).children@, r[p])
            && r[p].children@.no_duplicates() && increasing(r[p].children@)
}

/// Whether the vertices of `r` come in the order of their first children,
/// all of which are less than `bound`.
#[verifier::opaque]
pub open spec fn parents_ordered(r: Seq<Vertex>, bound: int) -> bool {
    &&& forall|p: int| 0 <= p < r.len() ==> (#[trigger] r[p]).children@.len() > 0 && r[p].children@[0] < bound
    &&& forall|p: int, q: int|
        0 <= p < q < r.len() ==> (#[trigger] r[p]).children@[0] < (#[trigger] r[q]).children@[0]
}

/// Whether `r` groups the vertices of `l0` by the cells of the next coarser
/// layer and by what is connected inside them; `l1` is `l0` with the
/// parents set. The neighbors of the vertices of `r` are still named as
/// vertices of `l0`.
pub open spec fn groups(l0: Seq<Vertex>, l1: Seq<Vertex>, r: Seq<Vertex>) -> bool {
    &&& same_but_parents(l0, l1)
    &&& forall|v: int| 0 <= v < l1.len() ==> (#[trigger] l1[v]).parent is Some
    &&& classes_agree(l0, l1)
    &&& children_claimed(l1, r)
    &&& parents_list_children(l1, r)
    &&& parents_stand(l0, r)
    &&& parents_ordered(r, l0.len() as int)
}

/// Layers that differ in parents alone have the same links.
pub proof fn lemma_same_links(l0: Seq<Vertex>, l1: Seq<Vertex>)
    requires
        same_but_parents(l0, l1),
    ensures
        forall|u: int, face: int, v: int| #[trigger] lists(l1, u, face, v) <==> lists(l0, u, face, v),
        links_in_range(l0) ==> links_in_range(l1),
        forall|a: int, b: int| #[trigger] sibling_step(l1, a, b) <==> sibling_step(l0, a, b),
{
    assert forall|u: int, face: int, v: int| #[trigger]
        lists(l1, u, face, v) <==> lists(l0, u, face, v) by {
        if 0 <= u < l0.len() {
            assert(l1[u].neighbors == l0[u].neighbors);
        }
    }
    if links_in_range(l0) {
        assert forall|u: int, face: int, k: int|
            0 <= u < l1.len() && 0 <= face < 6 && 0 <= k < l1[u].neighbors[face]@.len() implies (
        #[trigger] l1[u].neighbors[face]@[k]) < l1.len() by {
            assert(l1[u].neighbors == l0[u].neighbors);
            assert(l0[u].neighbors[face]@[k] < l0.len());
        }
    }
    assert forall|a: int, b: int| #[trigger] sibling_step(l1, a, b) <==> sibling_step(l0, a, b) by {
        if 0 <= b < l0.len() {
            assert(l1[b].index == l0[b].index);
        }
        if 0 <= a < l0.len() {
            assert(l1[a].index == l0[a].index);
        }
        if !(0 <= a < l0.len()) {
            assert(!adjacent(l1, a, b));
            assert(!adjacent(l0, a, b));
        }
    }
}

/// Layers that differ in parents alone connect the same vertices.
pub proof fn lemma_same_reach(l0: Seq<Vertex>, l1: Seq<Vertex>, a: int, b: int, n: nat)
    requires
        same_but_parents(l0, l1),
    ensures
        sibling_reach(l1, a, b, n) <==> sibling_reach(l0, a, b, n),
    decreases n,
{
    lemma_same_links(l0, l1);
    if n > 0 {
        if sibling_reach(l1, a, b, n) {
            let c = choose|c: int|
                sibling_reach(l1, a, c, (n - 1) as nat) && #[trigger] sibling_step(l1, c, b);
            lemma_same_reach(l0, l1, a, c, (n - 1) as nat);
            assert(sibling_reach(l0, a, c, (n - 1) as nat) && sibling_step(l0, c, b));
        }
        if sibling_reach(l0, a, b, n) {
            let c = choose|c: int|
                sibling_reach(l0, a, c, (n - 1) as nat) && #[trigger] sibling_step(l0, c, b);
            lemma_same_reach(l0, l1, a, c, (n - 1) as nat);
            assert(sibling_reach(l1, a, c, (n - 1) as nat) && sibling_step(l1, c, b));
        }
    }
}

/// Layers that differ in parents alone connect the same vertices.
pub proof fn lemma_same_connected(l0: Seq<Vertex>, l1: Seq<Vertex>, a: int, b: int)
    requires
        same_but_parents(l0, l1),
    ensures
        sibling_connected(l1, a, b) <==> sibling_connected(l0, a, b),
{
    if sibling_connected(l1, a, b) {
        let n = choose|n: nat| sibling_reach(l1, a, b, n);
        lemma_same_reach(l0, l1, a, b, n);
    }
    if sibling_connected(l0, a, b) {
        let n = choose|n: nat| sibling_reach(l0, a, b, n);
        lemma_same_reach(l0, l1, a, b, n);
    }
}

/// Sums over the same vertices of layers that differ in parents alone
/// agree, for a function that does not read the parent.
pub proof fn lemma_same_weight(l0: Seq<Vertex>, l1: Seq<Vertex>, m: Seq<usize>)
    requires
        same_but_parents(l0, l1),
        forall|k: int| 0 <= k < m.len() ==> #[trigger] m[k] < l0.len(),
    ensures
        crate::counters::sum_weight(l1, m) == crate::counters::sum_weight(l0, m),
    decreases m.len(),
{
    if m.len() > 0 {
        lemma_same_weight(l0, l1, m.drop_last());
        let c = m.last() as int;
        assert(m[m.len() - 1] < l0.len());
        assert(l1[c].weight() == l0[c].weight());
    }
}

/// No vertex connected to one without a parent has a parent.
proof fn lemma_members_unclaimed(l0: Seq<Vertex>, l: Seq<Vertex>, i: usize, v: usize)
    requires
        links_symmetric(l0),
        classes_agree(l0, l),
        i < l.len(),
        v < l.len(),
        l[i as int].parent is None,
        sibling_connected(l0, i as int, v as int),
    ensures
        l[v as int].parent is None,
{
    if l[v as int].parent is Some {
        lemma_sibling_connected_symmetric(l0, i as int, v as int);
        assert(same_parent(l, v, i));
    }
}

/// Claiming all that is connected to an unclaimed vertex keeps the classes
/// in agreement.
proof fn lemma_claim_keeps_classes(
    l0: Seq<Vertex>,
    l: Seq<Vertex>,
    l2: Seq<Vertex>,
    m: Seq<usize>,
    i: usize,
    p: usize,
)
    requires
        links_symmetric(l0),
        classes_agree(l0, l),
        l.len() == l0.len(),
        l2.len() == l.len(),
        i < l.len(),
        l[i as int].parent is None,
        forall|v: usize| #[trigger] m.contains(v) <==> sibling_connected(l0, i as int, v as int),
        forall|v: usize|
            v < l.len() ==> ((#[trigger] l[v as int].parent) matches Some(q) ==> q < p),
        forall|v: usize|
            v < l2.len() ==> #[trigger] l2[v as int].parent == (if m.contains(v) {
                Some(p)
            } else {
                l[v as int].parent
            }),
    ensures
        classes_agree(l0, l2),
{
    assert forall|u: usize, v: usize|
        u < l2.len() && v < l2.len() && l2[u as int].parent is Some implies (#[trigger] same_parent(
        l2,
        u,
        v,
    ) <==> sibling_connected(l0, u as int, v as int)) by {
        let pu = l2[u as int].parent;
        let pv = l2[v as int].parent;
        let lu = l[u as int].parent;
        let lv = l[v as int].parent;
        if m.contains(u) {
            if m.contains(v) {
                lemma_sibling_connected_symmetric(l0, i as int, u as int);
                lemma_sibling_connected_transitive(l0, u as int, i as int, v as int);
            } else {
                if sibling_connected(l0, u as int, v as int) {
                    lemma_sibling_connected_transitive(l0, i as int, u as int, v as int);
                }
            }
        } else {
            assert(same_parent(l, u, v) <==> sibling_connected(l0, u as int, v as int));
            if m.contains(v) {
                if sibling_connected(l0, u as int, v as int) {
                    lemma_sibling_connected_symmetric(l0, i as int, v as int);
                    lemma_sibling_connected_transitive(l0, u as int, v as int, i as int);
                    assert(same_parent(l, u, i));
                }
            }
        }
    }
}

/// What holds of the vertices connected to an unclaimed vertex `i` of `l`,
/// a layer that differs from `l0` in parents alone.
proof fn lemma_members_ready(l0: Seq<Vertex>, l: Seq<Vertex>, m: Seq<usize>, i: usize)
    requires
        links_symmetric(l0),
        same_but_parents(l0, l),
        classes_agree(l0, l),
        i < l.len(),
        l[i as int].parent is None,
        forall|v: usize| #[trigger] m.contains(v) <==> sibling_connected(l, i as int, v as int),
        forall|k: int| 0 <= k < m.len() ==> #[trigger] m[k] < l.len(),
    ensures
        forall|v: usize| #[trigger] m.contains(v) <==> sibling_connected(l0, i as int, v as int),
        forall|k: int|
            0 <= k < m.len() ==> #[trigger] m[k] < l.len() && l[m[k] as int].parent is None,
        m.contains(i),
{
    assert forall|v: usize| #[trigger] m.contains(v) <==> sibling_connected(
        l0,
        i as int,
        v as int,
    ) by {
        lemma_same_connected(l0, l, i as int, v as int);
    }
    assert forall|k: int| 0 <= k < m.len() implies #[trigger] m[k] < l.len() && l[m[k] as int].parent is None by {
        assert(m.contains(m[k]));
        lemma_members_unclaimed(l0, l, i, m[k]);
    }
    lemma_sibling_connected_reflexive(l0, i as int);
}

/// What holds once the vertices `m` connected to `i` have the parent `p`:
/// `l` is the layer before and `l2` the layer after.
proof fn lemma_after_claim(
    l0: Seq<Vertex>,
    l: Seq<Vertex>,
    l2: Seq<Vertex>,
    m: Seq<usize>,
    i: usize,
    p: usize,
)
    requires
        links_symmetric(l0),
        same_but_parents(l0, l),
        same_but_parents(l, l2),
        classes_agree(l0, l),
        i < l.len(),
        l[i as int].parent is None,
        forall|v: usize| #[trigger] m.contains(v) <==> sibling_connected(l0, i as int, v as int),
        forall|k: int| 0 <= k < m.len() ==> #[trigger] m[k] < l.len(),
        forall|v: usize|
            v < l.len() ==> ((#[trigger] l[v as int].parent) matches Some(q) ==> q < p),
        forall|v: usize|
            v < l2.len() ==> #[trigger] l2[v as int].parent == (if m.contains(v) {
                Some(p)
            } else {
                l[v as int].parent
            }),
        unclaimed_weight(l2) == unclaimed_weight(l) - crate::counters::sum_weight(l, m),
        unclaimed_weight(l) <= i32::MAX,
    ensures
        same_but_parents(l0, l2),
        classes_agree(l0, l2),
        crate::counters::sum_weight(l2, m) <= i32::MAX,
        crate::counters::sum_weight(l2, m) == crate::counters::sum_weight(l, m),
{
    lemma_unclaimed_nonnegative(l2);
    lemma_same_weight(l, l2, m);
    assert forall|v: int| 0 <= v < l0.len() implies #[trigger] l2[v] == (Vertex {
        parent: l2[v].parent,
        ..l0[v]
    }) by {
        assert(l2[v] == (Vertex { parent: l2[v].parent, ..l[v] }));
        assert(l[v] == (Vertex { parent: l[v].parent, ..l0[v] }));
    }
    lemma_claim_keeps_classes(l0, l, l2, m, i, p);
}

/// What holds once the parent of the vertices `m` has been added to the
/// parents `r`.
proof fn lemma_after_push(
    l0: Seq<Vertex>,
    l: Seq<Vertex>,
    l2: Seq<Vertex>,
    r: Seq<Vertex>,
    parent: Vertex,
    m: Seq<usize>,
    i: usize,
)
    requires
        same_but_parents(l0, l2),
        l.len() == l2.len(),
        i < l.len(),
        children_claimed(l, r),
        parents_list_children(l, r),
        parents_stand(l0, r),
        stands_for(l2, m, parent),
        m.no_duplicates(),
        increasing(m),
        parents_ordered(r, i as int),
        m.contains(i),
        forall|k: int|
            0 <= k < m.len() ==> #[trigger] m[k] < l.len() && l[m[k] as int].parent is None,
        forall|v: usize|
            v < l2.len() ==> #[trigger] l2[v as int].parent == (if m.contains(v) {
                Some(r.len() as usize)
            } else {
                l[v as int].parent
            }),
        forall|v: int| 0 <= v < i ==> (#[trigger] l[v]).parent is Some,
        r.len() <= usize::MAX,
    ensures
        children_claimed(l2, r.push(parent)),
        parents_list_children(l2, r.push(parent)),
        parents_stand(l0, r.push(parent)),
        parents_ordered(r.push(parent), i + 1),
        forall|v: int| 0 <= v < i + 1 ==> (#[trigger] l2[v]).parent is Some,
        layer_weight(r.push(parent)) == layer_weight(r) + parent.weight(),
        total_children(r.push(parent)) == total_children(r) + m.len(),
{
    let r2 = r.push(parent);
    let p = r.len() as usize;
    lemma_layer_sum_push(r, parent, |v: Vertex| v.weight());
    lemma_layer_sum_push(r, parent, |v: Vertex| v.children@.len() as int);
    lemma_stands_for_same(l0, l2, m, parent);
    assert forall|q: int, k: int|
        0 <= q < r2.len() && 0 <= k < r2[q].children@.len() implies (#[trigger] r2[q].children@[k])
        < l2.len() && l2[r2[q].children@[k] as int].parent == Some(q as usize) by {
        let c = r2[q].children@[k];
        if q < r.len() {
            assert(r[q].children@[k] == c);
            assert(l[c as int].parent == Some(q as usize));
            assert(!m.contains(c)) by {
                if m.contains(c) {
                    let j = choose|j: int| 0 <= j < m.len() && m[j] == c;
                    assert(l[m[j] as int].parent is None);
                }
            }
        } else {
            assert(m[k] == c);
            assert(m.contains(c));
        }
    }
    assert forall|v: usize| v < l2.len() implies ((#[trigger] l2[v as int].parent) matches Some(
        q,
    ) ==> q < r2.len() && r2[q as int].children@.contains(v)) by {
        if m.contains(v) {
            assert(r2[p as int].children@ == m);
        } else {
            if l[v as int].parent is Some {
                let q = l[v as int].parent->0;
                assert(r[q as int].children@.contains(v));
                assert(r2[q as int] == r[q as int]);
            }
        }
    }
    assert forall|q: int| 0 <= q < r2.len() implies stands_for(
        l0,
        (#[trigger] r2[q]).children@,
        r2[q],
    ) && r2[q].children@.no_duplicates() && increasing(r2[q].children@) by {
        if q < r.len() {
            assert(r2[q] == r[q]);
        }
    }
    assert(m[0] == i) by {
        reveal(increasing);
        let j = choose|j: int| 0 <= j < m.len() && m[j] == i;
        assert(l[m[0] as int].parent is None);
        if m[0] < i {
            assert(l[m[0] as int].parent is Some);
        }
        if j > 0 {
            assert(m[0] < m[j]);
        }
    }
    assert(parents_ordered(r2, i + 1)) by {
        reveal(parents_ordered);
        assert forall|q: int| 0 <= q < r2.len() implies (#[trigger] r2[q]).children@.len() > 0
            && r2[q].children@[0] < i + 1 by {
            if q < r.len() {
                assert(r2[q] == r[q]);
            }
        }
        assert forall|a: int, b: int| 0 <= a < b < r2.len() implies (#[trigger] r2[a]).children@[0] < (
        #[trigger] r2[b]).children@[0] by {
            assert(r2[a] == r[a]);
            if b < r.len() {
                assert(r2[b] == r[b]);
            }
        }
    }
    assert forall|v: int| 0 <= v < i + 1 implies (#[trigger] l2[v]).parent is Some by {
        let vu = v as usize;
        assert(l2[vu as int].parent == (if m.contains(vu) {
            Some(p)
        } else {
            l[vu as int].parent
        }));
        if v < i {
            assert(l[v].parent is Some);
        }
    }
}

/// Parents in order stay in order under a greater bound.
proof fn lemma_parents_ordered_grows(r: Seq<Vertex>, bound: int, more: int)
    requires
        parents_ordered(r, bound),
        bound <= more,
    ensures
        parents_ordered(r, more),
{
    reveal(parents_ordered);
}

/// Groups the vertices of `base` under parents: sets the parent of each and
/// returns the parents, whose neighbors are still named as vertices of
/// `base`.
pub fn group_into_parents(base: &mut Vec<Vertex>) -> (result: Vec<Vertex>)
    requires
        links_in_range(old(base)@),
        links_symmetric(old(base)@),
        forall|v: int| 0 <= v < old(base)@.len() ==> (#[trigger] old(base)@[v]).parent is None,
        layer_weight(old(base)@) <= i32::MAX,
    ensures
        groups(old(base)@, final(base)@, result@),
        layer_weight(result@) <= layer_weight(old(base)@),
        total_children(result@) == old(base)@.len(),
{
    let ghost l0 = base@;
    let mut result: Vec<Vertex> = Vec::new();
    let n = base.len();
    let mut i: usize = 0;
    proof {
        lemma_fresh_layer(l0);
        assert(parents_ordered(result@, 0)) by {
            reveal(parents_ordered);
        }
    }
    while i < n
        invariant
            i <= n,
            n == l0.len(),
            base@.len() == n,
            result@.len() <= i,
            links_in_range(l0),
            links_symmetric(l0),
            layer_weight(l0) <= i32::MAX,
            same_but_parents(l0, base@),
            forall|v: int| 0 <= v < i ==> (#[trigger] base@[v]).parent is Some,
            classes_agree(l0, base@),
            children_claimed(base@, result@),
            parents_list_children(base@, result@),
            parents_stand(l0, result@),
            parents_ordered(result@, i as int),
            layer_weight(result@) + unclaimed_weight(base@) <= layer_weight(l0),
            0 <= layer_weight(result@),
            total_children(result@) == claimed_count(base@),
        decreases n - i,
    {
        if base[i].parent.is_none() {
            let ghost l = base@;
            let ghost r = result@;
            proof {
                lemma_same_links(l0, l);
            }
            let members = connected_members(base, i);
            let p = result.len();
            proof {
                lemma_members_ready(l0, l, members@, i);
            }
            claim_members(base, &members, p);
            proof {
                lemma_after_claim(l0, l, base@, members@, i, p);
            }
            let parent = make_parent(base, &members);
            result.push(parent);
            proof {
                lemma_after_push(l0, l, base@, r, parent, members@, i);
                lemma_vertex_weight(parent);
            }
        } else {
            proof {
                lemma_parents_ordered_grows(result@, i as int, i + 1);
            }
        }
        i += 1;
    }
    proof {
        lemma_all_claimed(base@);
        lemma_unclaimed_nonnegative(base@);
    }
    result
}

/// In a layer without parents all weight is unclaimed and no vertex is
/// claimed.
proof fn lemma_fresh_layer(l: Seq<Vertex>)
    requires
        forall|v: int| 0 <= v < l.len() ==> (#[trigger] l[v]).parent is None,
    ensures
        unclaimed_weight(l) == layer_weight(l),
        claimed_count(l) == 0,
        total_children(Seq::<Vertex>::empty()) == 0,
        layer_weight(Seq::<Vertex>::empty()) == 0,
    decreases l.len(),
{
    if l.len() > 0 {
        lemma_fresh_layer(l.drop_last());
        assert(l[l.len() - 1].parent is None);
    }
}

/// Layers that differ in parents alone hand up the same neighbors.
proof fn lemma_handed_list_same(l0: Seq<Vertex>, l1: Seq<Vertex>, m: Seq<usize>, face: int)
    requires
        same_but_parents(l0, l1),
        forall|k: int| 0 <= k < m.len() ==> #[trigger] m[k] < l0.len(),
    ensures
        handed_list(l1, m, face) == handed_list(l0, m, face),
    decreases m.len(),
{
    if m.len() > 0 {
        lemma_handed_list_same(l0, l1, m.drop_last(), face);
        let c = m[m.len() - 1] as int;
        assert(l1[c].neighbors == l0[c].neighbors);
        assert(l1[c].index == l0[c].index);
    }
}

/// A vertex that stands for vertices of a layer stands for them in a layer
/// that differs in parents alone.
proof fn lemma_stands_for_same(l0: Seq<Vertex>, l1: Seq<Vertex>, m: Seq<usize>, parent: Vertex)
    requires
        same_but_parents(l0, l1),
        forall|k: int| 0 <= k < m.len() ==> #[trigger] m[k] < l0.len(),
        stands_for(l1, m, parent),
    ensures
        stands_for(l0, m, parent),
{
    lemma_sum_over_same(l0, l1, m, |v: Vertex| v.euler_characteristic as int);
    lemma_sum_over_same(l0, l1, m, |v: Vertex| v.inner_intersections());
    assert forall|e: int| 0 <= e < 12 implies #[trigger] parent.edge_intersections[e]
        == crate::counters::sum_outer(l0, m, e) by {
        lemma_sum_over_same(l0, l1, m, |v: Vertex| v.outer_intersections(e));
    }
    assert forall|face: int| 0 <= face < 6 implies (#[trigger] parent.neighbors[face])@
        == handed_list(l0, m, face) by {
        lemma_handed_list_same(l0, l1, m, face);
    }
    assert forall|face: int, n: usize| 0 <= face < 6 implies (
    #[trigger] parent.neighbors[face]@.contains(n) <==> handed_up(l0, m, face, n)) by {
        if handed_up(l1, m, face, n) {
            let k = choose|k: int|
                0 <= k < m.len() && borders(l1[#[trigger] m[k] as int], face)
                    && l1[m[k] as int].neighbors[face]@.contains(n);
            assert(l1[m[k] as int].neighbors == l0[m[k] as int].neighbors);
            assert(l1[m[k] as int].index == l0[m[k] as int].index);
        }
        if handed_up(l0, m, face, n) {
            let k = choose|k: int|
                0 <= k < m.len() && borders(l0[#[trigger] m[k] as int], face)
                    && l0[m[k] as int].neighbors[face]@.contains(n);
            assert(l1[m[k] as int].neighbors == l0[m[k] as int].neighbors);
            assert(l1[m[k] as int].index == l0[m[k] as int].index);
        }
    }
    assert(m[0] < l0.len());
    assert(l1[m[0] as int].index == l0[m[0] as int].index);
}

/// Sums over the same vertices of two layers agree where the function
/// agrees on them.
proof fn lemma_sum_over_same(
    l0: Seq<Vertex>,
    l1: Seq<Vertex>,
    m: Seq<usize>,
    f: spec_fn(Vertex) -> int,
)
    requires
        l0.len() == l1.len(),
        forall|k: int| 0 <= k < m.len() ==> #[trigger] m[k] < l0.len(),
        forall|v: int| 0 <= v < l0.len() ==> f(#[trigger] l1[v]) == f(l0[v]),
    ensures
        crate::counters::sum_over(l1, m, f) == crate::counters::sum_over(l0, m, f),
    decreases m.len(),
{
    if m.len() > 0 {
        lemma_sum_over_same(l0, l1, m.drop_last(), f);
        assert(m[m.len() - 1] < l0.len());
    }
}

/// The weight of the vertices without a parent is not negative.
proof fn lemma_unclaimed_nonnegative(l: Seq<Vertex>)
    ensures
        0 <= unclaimed_weight(l),
    decreases l.len(),
{
    if l.len() > 0 {
        lemma_unclaimed_nonnegative(l.drop_last());
        lemma_vertex_weight(l.last());
    }
}

/// In a layer whose vertices all have a parent, as many have one as there
/// are vertices.
proof fn lemma_all_claimed(l: Seq<Vertex>)
    requires
        forall|v: int| 0 <= v < l.len() ==> (#[trigger] l[v]).parent is Some,
    ensures
        claimed_count(l) == l.len(),
    decreases l.len(),
{
    if l.len() > 0 {
        lemma_all_claimed(l.drop_last());
        assert(l[l.len() - 1].parent is Some);
    }
}

/// Whether `after` is `before` with every neighbor, a vertex of `l`,
/// replaced by that vertex's parent.
pub open spec fn links_resolved(l: Seq<Vertex>, before: Vertex, after: Vertex) -> bool {
    &&& after == (Vertex { neighbors: after.neighbors, ..before })
    &&& forall|face: int|
        0 <= face < 6 ==> (#[trigger] after.neighbors[face]@).len() == before.neighbors[face]@.len()
    &&& forall|face: int, k: int|
        0 <= face < 6 && 0 <= k < before.neighbors[face]@.len() ==> l[before.neighbors[face]@[k] as int].parent
            == Some(#[trigger] after.neighbors[face]@[k])
}

/// Whether every neighbor that a vertex of `r` lists is a vertex of `l` that
/// has a parent.
pub open spec fn links_resolvable(l: Seq<Vertex>, r: Seq<Vertex>) -> bool {
    forall|p: int, face: int, k: int|
        0 <= p < r.len() && 0 <= face < 6 && 0 <= k < r[p].neighbors[face]@.len() ==> (
        #[trigger] r[p].neighbors[face]@[k]) < l.len() && l[r[p].neighbors[face]@[k] as int].parent is Some
}

/// Replaces every neighbor that a vertex of `result` lists, which is a
/// vertex of `base`, by the parent of that vertex.
pub fn resolve_parent_links(result: &mut Vec<Vertex>, base: &Vec<Vertex>)
    requires
        links_resolvable(base@, old(result)@),
    ensures
        final(result)@.len() == old(result)@.len(),
        forall|p: int|
            0 <= p < old(result)@.len() ==> links_resolved(
                base@,
                old(result)@[p],
                #[trigger] final(result)@[p],
            ),
{
    let ghost r0 = result@;
    let ghost l = base@;
    let mut p: usize = 0;
    while p < result.len()
        invariant
            p <= r0.len(),
            result@.len() == r0.len(),
            l == base@,
            links_resolvable(l, r0),
            forall|q: int| 0 <= q < p ==> links_resolved(l, r0[q], #[trigger] result@[q]),
            forall|q: int| p <= q < r0.len() ==> #[trigger] result@[q] == r0[q],
        decreases r0.len() - p,
    {
        let mut face: usize = 0;
        while face < 6
            invariant
                face <= 6,
                p < r0.len(),
                result@.len() == r0.len(),
                l == base@,
                links_resolvable(l, r0),
                forall|q: int| 0 <= q < p ==> links_resolved(l, r0[q], #[trigger] result@[q]),
                forall|q: int| p < q < r0.len() ==> #[trigger] result@[q] == r0[q],
                result@[p as int] == (Vertex { neighbors: result@[p as int].neighbors, ..r0[p as int] }),
                forall|f: int|
                    0 <= f < 6 ==> (#[trigger] result@[p as int].neighbors[f]@).len()
                        == r0[p as int].neighbors[f]@.len(),
                forall|f: int, k: int|
                    0 <= f < face && 0 <= k < r0[p as int].neighbors[f]@.len()
                        ==> l[r0[p as int].neighbors[f]@[k] as int].parent == Some(
                        #[trigger] result@[p as int].neighbors[f]@[k],
                    ),
                forall|f: int| face <= f < 6 ==> #[trigger] result@[p as int].neighbors[f] == r0[p as int].neighbors[f],
            decreases 6 - face,
        {
            let mut k: usize = 0;
            while k < result[p].neighbors[face].len()
                invariant
                    face < 6,
                    p < r0.len(),
                    k <= r0[p as int].neighbors[face as int]@.len(),
                    result@.len() == r0.len(),
                    l == base@,
                    links_resolvable(l, r0),
                    forall|q: int| 0 <= q < p ==> links_resolved(l, r0[q], #[trigger] result@[q]),
                    forall|q: int| p < q < r0.len() ==> #[trigger] result@[q] == r0[q],
                    result@[p as int] == (Vertex {
                        neighbors: result@[p as int].neighbors,
                        ..r0[p as int]
                    }),
                    forall|f: int|
                        0 <= f < 6 ==> (#[trigger] result@[p as int].neighbors[f]@).len()
                            == r0[p as int].neighbors[f]@.len(),
                    forall|f: int, j: int|
                        0 <= f < face && 0 <= j < r0[p as int].neighbors[f]@.len()
                            ==> l[r0[p as int].neighbors[f]@[j] as int].parent == Some(
                            #[trigger] result@[p as int].neighbors[f]@[j],
                        ),
                    forall|f: int|
                        face < f < 6 ==> #[trigger] result@[p as int].neighbors[f] == r0[p as int].neighbors[f],
                    forall|j: int|
                        0 <= j < k ==> l[r0[p as int].neighbors[face as int]@[j] as int].parent
                            == Some(#[trigger] result@[p as int].neighbors[face as int]@[j]),
                    forall|j: int|
                        k <= j < r0[p as int].neighbors[face as int]@.len()
                            ==> #[trigger] result@[p as int].neighbors[face as int]@[j]
                            == r0[p as int].neighbors[face as int]@[j],
                decreases r0[p as int].neighbors[face as int]@.len() - k,
            {
                let n = result[p].neighbors[face][k];
                assert(n == r0[p as int].neighbors[face as int]@[k as int]);
                let q = base[n].parent.unwrap();
                result[p].neighbors[face][k] = q;
                k += 1;
            }
            face += 1;
        }
        p += 1;
    }
}

/// Whether the layer's links stay inside it, follow the faces of the cells
/// and are symmetric.
pub open spec fn layer_ok(l: Seq<Vertex>) -> bool {
    &&& links_in_range(l)
    &&& links_follow_faces(l)
    &&& links_symmetric(l)
}

/// Whether vertex `p` of `r` lists `q` across `face` exactly if `q` is the
/// parent of a vertex that a child of `p` hands up across `face`.
pub open spec fn lists_parents_of_handed_up(
    l0: Seq<Vertex>,
    l1: Seq<Vertex>,
    r: Seq<Vertex>,
    p: int,
    face: int,
    q: usize,
) -> bool {
    r[p].neighbors[face]@.contains(q) <==> exists|n: usize| #[trigger]
        handed_up(l0, r[p].children@, face, n) && n < l1.len() && l1[n as int].parent == Some(q)
}

/// Whether vertex `p` of `r` lists across `face` the parents of the
/// neighbors that its children hand up across `face`, one for each, in
/// their order.
pub open spec fn lists_parents_in_order(
    l0: Seq<Vertex>,
    l1: Seq<Vertex>,
    r: Seq<Vertex>,
    p: int,
    face: int,
) -> bool {
    let handed = handed_list(l0, r[p].children@, face);
    &&& r[p].neighbors[face]@.len() == handed.len()
    &&& forall|k: int|
        0 <= k < handed.len() ==> l1[handed[k] as int].parent == Some(
            #[trigger] r[p].neighbors[face]@[k],
        )
}

/// Whether `r` is the layer above `l0`: every vertex of `l0` has a parent
/// in `r`, which `l1` records; two vertices share their parent exactly if
/// neighbor links lead from one to the other inside one cell of the coarser
/// layer; every vertex of `r` sums up its children; and it lists as
/// neighbors across a face the parents of all that its children at that
/// face list across it.
pub open spec fn is_parent_layer(l0: Seq<Vertex>, l1: Seq<Vertex>, r: Seq<Vertex>) -> bool {
    &&& same_but_parents(l0, l1)
    &&& forall|v: int| 0 <= v < l1.len() ==> (#[trigger] l1[v]).parent is Some
    &&& classes_agree(l0, l1)
    &&& children_claimed(l1, r)
    &&& parents_list_children(l1, r)
    &&& forall|p: int|
        0 <= p < r.len() ==> summarizes(l0, (#[trigger] r[p]).children@, r[p])
            && r[p].children@.no_duplicates() && increasing(r[p].children@)
    &&& parents_ordered(r, l0.len() as int)
    &&& forall|p: int, face: int|
        0 <= p < r.len() && 0 <= face < 6 ==> #[trigger] lists_parents_in_order(l0, l1, r, p, face)
    &&& forall|p: int, face: int, q: usize|
        0 <= p < r.len() && 0 <= face < 6 ==> #[trigger] lists_parents_of_handed_up(
            l0,
            l1,
            r,
            p,
            face,
            q,
        )
}

/// The cell across a face of the parent cell holds what lies across that
/// face of a cell at that face; and what lies there is at the opposite face
/// of its own parent cell.
pub proof fn lemma_step_across_parent(c: (int, int, int), n: (int, int, int), face: int)
    requires
        0 <= face < 6,
        c.0 >= 0 && c.1 >= 0 && c.2 >= 0,
        n.0 >= 0 && n.1 >= 0 && n.2 >= 0,
        n == face_step(c, face),
        coord(c, face / 2) % 2 == face % 2,
    ensures
        half(n) == face_step(half(c), face),
        coord(n, face / 2) % 2 == opposite(face) % 2,
        opposite(face) / 2 == face / 2,
        0 <= opposite(face) < 6,
{
}

/// All children of a vertex lie in its cell.
proof fn lemma_children_in_cell(l0: Seq<Vertex>, l1: Seq<Vertex>, r: Seq<Vertex>, p: int, c: usize)
    requires
        is_parent_layer(l0, l1, r),
        0 <= p < r.len(),
        r[p].children@.contains(c),
    ensures
        c < l0.len(),
        l1[c as int].parent == Some(p as usize),
        half(pos(l0[c as int].index)) == pos(r[p].index),
{
    let m = r[p].children@;
    let k = choose|k: int| 0 <= k < m.len() && m[k] == c;
    assert(r[p].children@[k] < l1.len() && l1[r[p].children@[k] as int].parent == Some(p as usize));
    assert(r[p].children@[0] < l1.len() && l1[r[p].children@[0] as int].parent == Some(p as usize));
    let a = m[0];
    assert(same_parent(l1, a, c));
    assert(sibling_connected(l0, a as int, c as int));
    let n = choose|n: nat| sibling_reach(l0, a as int, c as int, n);
    lemma_sibling_reach_cell(l0, a as int, c as int, n);
}

/// If `p` lists `q` across `face`, some child `c` of `p` at that face lists
/// across it a vertex `n` whose parent is `q`.
proof fn lemma_link_comes_from_below(
    l0: Seq<Vertex>,
    l1: Seq<Vertex>,
    r: Seq<Vertex>,
    p: int,
    face: int,
    q: usize,
) -> (w: (usize, usize))
    requires
        0 <= p < r.len(),
        0 <= face < 6,
        r[p].neighbors[face]@.contains(q),
        lists_parents_of_handed_up(l0, l1, r, p, face, q),
    ensures
        r[p].children@.contains(w.0),
        borders(l0[w.0 as int], face),
        l0[w.0 as int].neighbors[face]@.contains(w.1),
        w.1 < l1.len(),
        l1[w.1 as int].parent == Some(q),
{
    let n = choose|n: usize| #[trigger]
        handed_up(l0, r[p].children@, face, n) && n < l1.len() && l1[n as int].parent == Some(q);
    let m = r[p].children@;
    let j = choose|j: int|
        0 <= j < m.len() && borders(l0[#[trigger] m[j] as int], face)
            && l0[m[j] as int].neighbors[face]@.contains(n);
    assert(m.contains(m[j]));
    (m[j], n)
}

/// If `c` lists `n` across a face that the cell of `c` has in common with
/// its parent cell, then the parent cell of `n` lies across that face from
/// the parent cell of `c`, the cell of `n` has the opposite face in common
/// with its parent cell, and `n` lists `c` across that face.
proof fn lemma_step_back(l0: Seq<Vertex>, face: int, c: usize, n: usize)
    requires
        links_follow_faces(l0),
        links_symmetric(l0),
        0 <= face < 6,
        c < l0.len(),
        n < l0.len(),
        l0[c as int].neighbors[face]@.contains(n),
        borders(l0[c as int], face),
    ensures
        half(pos(l0[n as int].index)) == face_step(half(pos(l0[c as int].index)), face),
        borders(l0[n as int], opposite(face)),
        l0[n as int].neighbors[opposite(face)]@.contains(c),
        0 <= opposite(face) < 6,
{
    let i = choose|i: int|
        0 <= i < l0[c as int].neighbors[face]@.len() && l0[c as int].neighbors[face]@[i] == n;
    assert(lists(l0, c as int, face, n as int)) by {
        assert(l0[c as int].neighbors[face]@[i] == n as int);
    }
    assert(pos(l0[n as int].index) == face_step(pos(l0[c as int].index), face));
    lemma_step_across_parent(pos(l0[c as int].index), pos(l0[n as int].index), face);
    assert(lists(l0, n as int, opposite(face), c as int));
    let i2 = choose|i2: int|
        0 <= i2 < l0[n as int].neighbors[opposite(face)]@.len()
            && #[trigger] l0[n as int].neighbors[opposite(face)]@[i2] == c as int;
    assert(l0[n as int].neighbors[opposite(face)]@[i2] == c);
}

/// If a child `c` of `p` and a child `n` of `q` are neighbors across a
/// face that the cell of `c` has in common with its parent cell, then `q`
/// lies across that face from `p` and lists `p` across the opposite face.
proof fn lemma_link_goes_back(
    l0: Seq<Vertex>,
    l1: Seq<Vertex>,
    r: Seq<Vertex>,
    p: int,
    face: int,
    q: int,
    c: usize,
    n: usize,
)
    requires
        links_follow_faces(l0),
        links_symmetric(l0),
        0 <= p < r.len() <= usize::MAX,
        0 <= q < r.len(),
        0 <= face < 6,
        c < l0.len(),
        n < l0.len(),
        l0.len() == l1.len(),
        l0[c as int].neighbors[face]@.contains(n),
        borders(l0[c as int], face),
        half(pos(l0[c as int].index)) == pos(r[p].index),
        half(pos(l0[n as int].index)) == pos(r[q].index),
        r[q].children@.contains(n),
        l1[c as int].parent == Some(p as usize),
        lists_parents_of_handed_up(l0, l1, r, q, opposite(face), p as usize),
    ensures
        pos(r[q].index) == face_step(pos(r[p].index), face),
        lists(r, q, opposite(face), p),
{
    lemma_step_back(l0, face, c, n);
    let back = opposite(face);
    let mq = r[q].children@;
    let jn = choose|jn: int| 0 <= jn < mq.len() && mq[jn] == n;
    assert(borders(l0[mq[jn] as int], back) && l0[mq[jn] as int].neighbors[back]@.contains(c));
    assert(handed_up(l0, mq, back, c));
    let pu = p as usize;
    assert(r[q].neighbors[back]@.contains(pu));
    let k2 = choose|k2: int| 0 <= k2 < r[q].neighbors[back]@.len() && r[q].neighbors[back]@[k2] == pu;
    assert(r[q].neighbors[back]@[k2] == p);
}

/// In the layer above, what a vertex lists across a face is a vertex of the
/// layer, lies in the cell across that face, and lists it across the
/// opposite face.
proof fn lemma_parent_link(
    l0: Seq<Vertex>,
    l1: Seq<Vertex>,
    r: Seq<Vertex>,
    p: int,
    face: int,
    q: int,
)
    requires
        layer_ok(l0),
        is_parent_layer(l0, l1, r),
        r.len() <= usize::MAX,
        lists(r, p, face, q),
    ensures
        0 <= q < r.len(),
        pos(r[q].index) == face_step(pos(r[p].index), face),
        lists(r, q, opposite(face), p),
{
    let k = choose|k: int|
        0 <= k < r[p].neighbors[face]@.len() && #[trigger] r[p].neighbors[face]@[k] == q;
    let qu = r[p].neighbors[face]@[k];
    assert(r[p].neighbors[face]@.contains(qu));
    assert(lists_parents_of_handed_up(l0, l1, r, p, face, qu));
    let (c, n) = lemma_link_comes_from_below(l0, l1, r, p, face, qu);
    lemma_children_in_cell(l0, l1, r, p, c);
    assert(l1[n as int].parent matches Some(x) ==> x < r.len() && r[x as int].children@.contains(n));
    lemma_children_in_cell(l0, l1, r, qu as int, n);
    assert(lists_parents_of_handed_up(l0, l1, r, qu as int, opposite(face), p as usize));
    lemma_link_goes_back(l0, l1, r, p, face, qu as int, c, n);
}

/// Neighbor symmetry carries over to the layer above: its links stay
/// inside it, follow the faces of its cells and are symmetric.
pub proof fn lemma_parent_layer_ok(l0: Seq<Vertex>, l1: Seq<Vertex>, r: Seq<Vertex>)
    requires
        layer_ok(l0),
        is_parent_layer(l0, l1, r),
        r.len() <= usize::MAX,
    ensures
        layer_ok(r),
{
    assert forall|p: int, face: int, q: int| #[trigger] lists(r, p, face, q) implies 0 <= q < r.len()
        && pos(r[q].index) == face_step(pos(r[p].index), face) && lists(
        r,
        q,
        opposite(face),
        p,
    ) by {
        lemma_parent_link(l0, l1, r, p, face, q);
    }
    assert forall|u: int, face: int, k: int|
        0 <= u < r.len() && 0 <= face < 6 && 0 <= k < r[u].neighbors[face]@.len() implies (
    #[trigger] r[u].neighbors[face]@[k]) < r.len() by {
        assert(lists(r, u, face, r[u].neighbors[face]@[k] as int));
    }
}

/// Every neighbor that a vertex of the layer above lists is a vertex of
/// that layer.
pub proof fn lemma_parent_links_in_range(l0: Seq<Vertex>, l1: Seq<Vertex>, r: Seq<Vertex>)
    requires
        is_parent_layer(l0, l1, r),
    ensures
        links_in_range(r),
{
    assert forall|u: int, face: int, k: int|
        0 <= u < r.len() && 0 <= face < 6 && 0 <= k < r[u].neighbors[face]@.len() implies (
    #[trigger] r[u].neighbors[face]@[k]) < r.len() by {
        let q = r[u].neighbors[face]@[k];
        assert(r[u].neighbors[face]@.contains(q));
        assert(lists_parents_of_handed_up(l0, l1, r, u, face, q));
        let n = choose|n: usize| #[trigger]
            handed_up(l0, r[u].children@, face, n) && n < l1.len() && l1[n as int].parent == Some(q);
        assert(l1[n as int].parent matches Some(x) ==> x < r.len());
    }
}

/// The layer above `base`: sets the parent of every vertex of `base` and
/// returns the parents.
///
/// Every vertex without a parent is grouped with all the vertices that
/// neighbor links lead to from it inside its cell of the coarser layer. The
/// parent of the group lies in that cell, has the group as its children and
/// their counters added up: for each edge the sign changes of the children
/// that have that edge on the same edge of the parent cell, and as its
/// Euler characteristic the sum of theirs less a quarter of their sign
/// changes along all other edges. Across each face it lists the parents of
/// the neighbors that its children at that face list across it.
///
/// Where the neighbors of `base` lie in the cells across the faces, so do
/// those of the parents, and the links of the parents are symmetric.
pub fn subsample_octtree(base: &mut Vec<Vertex>) -> (result: Vec<Vertex>)
    requires
        links_in_range(old(base)@),
        links_symmetric(old(base)@),
        forall|v: int| 0 <= v < old(base)@.len() ==> (#[trigger] old(base)@[v]).parent is None,
        layer_weight(old(base)@) <= i32::MAX,
    ensures
        is_parent_layer(old(base)@, final(base)@, result@),
        links_in_range(result@),
        links_follow_faces(old(base)@) ==> layer_ok(result@),
        forall|p: int| 0 <= p < result@.len() ==> (#[trigger] result@[p]).parent is None,
        layer_weight(result@) <= layer_weight(old(base)@),
        total_children(result@) == old(base)@.len(),
        result@.len() <= old(base)@.len(),
        result@.len() == old(base)@.len() ==> is_coarsest(old(base)@),
{
    let ghost l0 = base@;
    let mut result = group_into_parents(base);
    let ghost raw = result@;
    proof {
        lemma_raw_links_resolvable(l0, base@, raw);
    }
    resolve_parent_links(&mut result, base);
    let parents: usize = result.len();
    proof {
        assert(result@.len() == parents);
        lemma_resolved_is_parent_layer(l0, base@, raw, result@);
        lemma_parent_links_in_range(l0, base@, result@);
        if links_follow_faces(l0) {
            lemma_parent_layer_ok(l0, base@, result@);
        }
        lemma_layer_sum_pointwise(result@, raw, |v: Vertex| v.weight(), |v: Vertex| v.weight());
        lemma_layer_sum_pointwise(
            result@,
            raw,
            |v: Vertex| v.children@.len() as int,
            |v: Vertex| v.children@.len() as int,
        );
        lemma_layer_sum_pointwise(
            raw,
            result@,
            |v: Vertex| v.children@.len() as int,
            |v: Vertex| v.children@.len() as int,
        );
        lemma_children_fill(result@);
        if result@.len() == l0.len() {
            assert(l0.len() == parents);
            lemma_same_count_is_coarsest(l0, base@, result@);
        }
    }
    result
}

/// A layer has no more vertices than its `children` lists have entries, if
/// none of them is empty.
proof fn lemma_children_fill(r: Seq<Vertex>)
    requires
        forall|p: int| 0 <= p < r.len() ==> (#[trigger] r[p]).children@.len() > 0,
    ensures
        r.len() <= total_children(r),
    decreases r.len(),
{
    if r.len() > 0 {
        lemma_children_fill(r.drop_last());
        assert(r[r.len() - 1].children@.len() > 0);
    }
}

/// Every neighbor of a freshly grouped parent is a vertex of the layer
/// below that has a parent.
proof fn lemma_raw_links_resolvable(l0: Seq<Vertex>, l1: Seq<Vertex>, raw: Seq<Vertex>)
    requires
        links_in_range(l0),
        groups(l0, l1, raw),
    ensures
        links_resolvable(l1, raw),
{
    assert forall|p: int, face: int, k: int|
        0 <= p < raw.len() && 0 <= face < 6 && 0 <= k < raw[p].neighbors[face]@.len() implies (
    #[trigger] raw[p].neighbors[face]@[k]) < l1.len() && l1[raw[p].neighbors[face]@[k] as int].parent is Some by {
        let n = raw[p].neighbors[face]@[k];
        assert(raw[p].neighbors[face]@.contains(n));
        assert(stands_for(l0, raw[p].children@, raw[p]));
        assert(handed_up(l0, raw[p].children@, face, n));
        let m = raw[p].children@;
        let j = choose|j: int|
            0 <= j < m.len() && borders(l0[#[trigger] m[j] as int], face)
                && l0[m[j] as int].neighbors[face]@.contains(n);
        assert(raw[p].children@[j] < l1.len());
        let c = m[j] as int;
        let i = choose|i: int|
            0 <= i < l0[c].neighbors[face]@.len() && l0[c].neighbors[face]@[i] == n;
        assert(l0[c].neighbors[face]@[i] < l0.len());
        assert(l1[n as int].parent is Some);
    }
}

/// Freshly grouped parents with their links resolved make the layer above.
proof fn lemma_resolved_is_parent_layer(
    l0: Seq<Vertex>,
    l1: Seq<Vertex>,
    raw: Seq<Vertex>,
    r: Seq<Vertex>,
)
    requires
        groups(l0, l1, raw),
        links_resolvable(l1, raw),
        r.len() == raw.len(),
        forall|p: int| 0 <= p < raw.len() ==> links_resolved(l1, raw[p], #[trigger] r[p]),
    ensures
        is_parent_layer(l0, l1, r),
        forall|p: int| 0 <= p < r.len() ==> (#[trigger] r[p]).parent is None,
        forall|p: int| 0 <= p < r.len() ==> (#[trigger] r[p]).weight() == raw[p].weight(),
        forall|p: int| 0 <= p < r.len() ==> (#[trigger] r[p]).children == raw[p].children,
        forall|p: int| 0 <= p < r.len() ==> (#[trigger] r[p]).children@.len() > 0,
{
    assert forall|p: int| 0 <= p < r.len() implies (#[trigger] r[p]).children == raw[p].children
        && r[p].parent is None && r[p].weight() == raw[p].weight() && summarizes(
        l0,
        r[p].children@,
        r[p],
    ) && r[p].children@.no_duplicates() && increasing(r[p].children@) && r[p].children@.len()
        > 0 by {
        assert(links_resolved(l1, raw[p], r[p]));
        assert(stands_for(l0, raw[p].children@, raw[p]));
    }
    assert(parents_ordered(r, l0.len() as int)) by {
        reveal(parents_ordered);
        assert forall|p: int| 0 <= p < r.len() implies (#[trigger] r[p]).children@.len() > 0
            && r[p].children@[0] < l0.len() by {
            assert(raw[p].children@.len() > 0 && raw[p].children@[0] < l0.len());
        }
        assert forall|p: int, q: int| 0 <= p < q < r.len() implies (#[trigger] r[p]).children@[0] < (
        #[trigger] r[q]).children@[0] by {
            assert(raw[p].children@[0] < raw[q].children@[0]);
        }
    }
    assert forall|p: int, face: int| 0 <= p < r.len() && 0 <= face < 6 implies #[trigger] lists_parents_in_order(
        l0,
        l1,
        r,
        p,
        face,
    ) by {
        assert(links_resolved(l1, raw[p], r[p]));
        assert(stands_for(l0, raw[p].children@, raw[p]));
        assert(r[p].children == raw[p].children);
        assert(raw[p].neighbors[face]@ == handed_list(l0, raw[p].children@, face));
        assert(r[p].neighbors[face]@.len() == raw[p].neighbors[face]@.len());
    }
    assert forall|p: int, k: int|
        0 <= p < r.len() && 0 <= k < r[p].children@.len() implies (#[trigger] r[p].children@[k])
        < l1.len() && l1[r[p].children@[k] as int].parent == Some(p as usize) by {
        assert(r[p].children == raw[p].children);
        assert(raw[p].children@[k] < l1.len());
    }
    assert forall|v: usize| v < l1.len() implies ((#[trigger] l1[v as int].parent) matches Some(
        q,
    ) ==> q < r.len() && r[q as int].children@.contains(v)) by {
        if l1[v as int].parent is Some {
            let q = l1[v as int].parent->0;
            assert(raw[q as int].children@.contains(v));
            assert(r[q as int].children == raw[q as int].children);
        }
    }
    assert forall|p: int, face: int, q: usize|
        0 <= p < r.len() && 0 <= face < 6 implies #[trigger] lists_parents_of_handed_up(
        l0,
        l1,
        r,
        p,
        face,
        q,
    ) by {
        assert(links_resolved(l1, raw[p], r[p]));
        assert(stands_for(l0, raw[p].children@, raw[p]));
        assert(r[p].children == raw[p].children);
        let m = r[p].children@;
        if r[p].neighbors[face]@.contains(q) {
            let k = choose|k: int|
                0 <= k < r[p].neighbors[face]@.len() && r[p].neighbors[face]@[k] == q;
            assert(r[p].neighbors[face]@.len() == raw[p].neighbors[face]@.len());
            let n = raw[p].neighbors[face]@[k];
            assert(raw[p].neighbors[face]@.contains(n));
            assert(l1[n as int].parent == Some(r[p].neighbors[face]@[k]));
            assert(handed_up(l0, m, face, n) && n < l1.len() && l1[n as int].parent == Some(q));
        }
        if exists|n: usize| #[trigger]
            handed_up(l0, m, face, n) && n < l1.len() && l1[n as int].parent == Some(q) {
            let n = choose|n: usize| #[trigger]
                handed_up(l0, m, face, n) && n < l1.len() && l1[n as int].parent == Some(q);
            assert(raw[p].neighbors[face]@.contains(n));
            let k = choose|k: int|
                0 <= k < raw[p].neighbors[face]@.len() && raw[p].neighbors[face]@[k] == n;
            assert(r[p].neighbors[face]@.len() == raw[p].neighbors[face]@.len());
            assert(l1[raw[p].neighbors[face]@[k] as int].parent == Some(
                r[p].neighbors[face]@[k],
            ));
            assert(r[p].neighbors[face]@[k] == q);
        }
    }
}

/// Whether the layer cannot be made coarser: no neighbor links lead from a
/// vertex to another one inside one cell of the next coarser layer.
pub open spec fn is_coarsest(l: Seq<Vertex>) -> bool {
    forall|u: int, v: int|
        0 <= u < l.len() && 0 <= v < l.len() && #[trigger] sibling_connected(l, u, v) ==> u == v
}

/// Vertices that have a child each and as many children together as there
/// are vertices have one child each.
proof fn lemma_one_child_each(r: Seq<Vertex>)
    requires
        forall|p: int| 0 <= p < r.len() ==> (#[trigger] r[p]).children@.len() > 0,
        total_children(r) == r.len(),
    ensures
        forall|p: int| 0 <= p < r.len() ==> (#[trigger] r[p]).children@.len() == 1,
    decreases r.len(),
{
    if r.len() > 0 {
        let front = r.drop_last();
        lemma_children_fill(front);
        assert(r[r.len() - 1].children@.len() > 0);
        lemma_one_child_each(front);
        assert forall|p: int| 0 <= p < r.len() implies (#[trigger] r[p]).children@.len() == 1 by {
            if p < front.len() {
                assert(front[p] == r[p]);
            }
        }
    }
}

/// A layer whose layer above has as many vertices cannot be made coarser.
pub proof fn lemma_same_count_is_coarsest(l0: Seq<Vertex>, l1: Seq<Vertex>, r: Seq<Vertex>)
    requires
        is_parent_layer(l0, l1, r),
        total_children(r) == l0.len(),
        r.len() == l0.len(),
        l0.len() <= usize::MAX,
    ensures
        is_coarsest(l0),
{
    assert forall|p: int| 0 <= p < r.len() implies (#[trigger] r[p]).children@.len() > 0 by {
        assert(summarizes(l0, r[p].children@, r[p]));
    }
    lemma_one_child_each(r);
    assert forall|u: int, v: int|
        0 <= u < l0.len() && 0 <= v < l0.len() && #[trigger] sibling_connected(l0, u, v) implies u
        == v by {
        let uu = u as usize;
        let vu = v as usize;
        assert(l1[u].parent is Some);
        assert(same_parent(l1, uu, vu) <==> sibling_connected(l0, uu as int, vu as int));
        let p = l1[uu as int].parent->0;
        assert(p < r.len() && r[p as int].children@.contains(uu));
        assert(l1[vu as int].parent == Some(p));
        assert(r[p as int].children@.contains(vu));
        let m = r[p as int].children@;
        assert(m.len() == 1);
        let i = choose|i: int| 0 <= i < m.len() && m[i] == uu;
        let j = choose|j: int| 0 <= j < m.len() && m[j] == vu;
        assert(i == 0 && j == 0);
    }
}

} // verus!
