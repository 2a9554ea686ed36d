//! The octree as a whole, and the solving of the quadratic error functions
//! of its vertices from the top down.

use vstd::prelude::*;
use crate::octree::{children_claimed, parents_list_children};
use crate::vertex::{QefState, Residual, Vertex};

verus! {

/// The layers of an octree, the finest first.
pub type Tree = Seq<Seq<Vertex>>;

/// The layers of the octree `t`.
pub open spec fn tree_of(t: Seq<Vec<Vertex>>) -> Tree {
    Seq::new(t.len(), |i: int| t[i]@)
}

/// Whether `v` is a vertex of layer `layer` of tree `t`.
pub open spec fn in_tree(t: Tree, layer: int, v: int) -> bool {
    0 <= layer < t.len() && 0 <= v < t[layer].len()
}

/// Whether layer `r` lies above layer `l`: every vertex of `l` has a parent
/// in `r` that lists it as a child, and every child that a vertex of `r`
/// lists, each once, is a vertex of `l` whose parent it is.
pub open spec fn layer_linked(l: Seq<Vertex>, r: Seq<Vertex>) -> bool {
    &&& forall|v: int| 0 <= v < l.len() ==> (#[trigger] l[v]).parent is Some
    &&& children_claimed(l, r)
    &&& parents_list_children(l, r)
    &&& forall|p: int| 0 <= p < r.len() ==> (#[trigger] r[p]).children@.no_duplicates()
}

/// Whether each layer of the tree but the finest lies above the one before
/// it.
pub open spec fn tree_linked(t: Tree) -> bool {
    forall|layer: int| 0 <= layer < t.len() - 1 ==> layer_linked(#[trigger] t[layer], t[layer + 1])
}

/// The parent of vertex `v` of layer `layer`.
pub open spec fn parent_of(t: Tree, layer: int, v: int) -> Vertex {
    t[layer + 1][t[layer][v].parent->0 as int]
}

/// Whether the quadratic error function of vertex `v` of layer `layer` is
/// to be solved: the vertex is in the top layer, or its parent was solved
/// with a residual whose size exceeds the tolerance.
pub open spec fn to_be_solved(t: Tree, layer: int, v: int) -> bool {
    layer == t.len() - 1 || parent_of(t, layer, v).qef.exceeds()
}

/// Whether from layer `from` upwards exactly the vertices that are to be
/// solved are solved.
pub open spec fn solved_from(t: Tree, from: int) -> bool {
    forall|layer: int, v: int|
        from <= layer && #[trigger] in_tree(t, layer, v) ==> (t[layer][v].qef.solved()
            <==> to_be_solved(t, layer, v))
}

/// Whether no vertex below layer `below` is solved.
pub open spec fn unsolved_below(t: Tree, below: int) -> bool {
    forall|layer: int, v: int|
        layer < below && #[trigger] in_tree(t, layer, v) ==> !t[layer][v].qef.solved()
}

/// Whether `t1` is `t0` but for the states of the quadratic error
/// functions.
pub open spec fn same_but_qef(t0: Tree, t1: Tree) -> bool {
    &&& t0.len() == t1.len()
    &&& forall|layer: int| 0 <= layer < t0.len() ==> (#[trigger] t1[layer]).len() == t0[layer].len()
    &&& forall|layer: int, v: int| #[trigger]
        in_tree(t0, layer, v) ==> t1[layer][v] == (Vertex { qef: t1[layer][v].qef, ..t0[layer][v] })
}

/// The number of solved vertices among the first `k` of a layer.
pub open spec fn solved_in(l: Seq<Vertex>, k: int) -> int
    decreases k,
{
    if k <= 0 {
        0
    } else {
        solved_in(l, k - 1) + if l[k - 1].qef.solved() {
            1int
        } else {
            0
        }
    }
}

/// The number of solved vertices from layer `from` upwards.
pub open spec fn solved_above(t: Tree, from: int) -> int
    decreases t.len() - from,
{
    if from >= t.len() {
        0
    } else {
        solved_above(t, from + 1) + solved_in(t[from], t[from].len() as int)
    }
}

/// The number of vertices from layer `from` upwards.
pub open spec fn size_above(t: Tree, from: int) -> int
    decreases t.len() - from,
{
    if from >= t.len() {
        0
    } else {
        size_above(t, from + 1) + t[from].len()
    }
}

/// What solves quadratic error functions: it knows the tangent planes of
/// the sign-change edges and the tolerance.
pub trait QefSolver {
    /// Solves the quadratic error function of vertex `index` of layer
    /// `layer` of `octree`, which merges those of its children, or, for a
    /// leaf, holds the tangent planes of its edges; and says how the
    /// residual compares with the tolerance.
    fn solve(&mut self, octree: &Vec<Vec<Vertex>>, layer: usize, index: usize) -> Residual;
}

/// The counts of layers that agree from `from` upwards agree.
proof fn lemma_solved_above_same(a: Tree, b: Tree, from: int)
    requires
        a.len() == b.len(),
        0 <= from,
        forall|layer: int| from <= layer < a.len() ==> #[trigger] a[layer] == b[layer],
    ensures
        solved_above(a, from) == solved_above(b, from),
    decreases a.len() - from,
{
    if from < a.len() {
        lemma_solved_above_same(a, b, from + 1);
        assert(a[from] == b[from]);
    }
}

/// Layers that agree on their first `k` vertices have as many solved among
/// them.
proof fn lemma_solved_in_same(a: Seq<Vertex>, b: Seq<Vertex>, k: int)
    requires
        0 <= k <= a.len(),
        k <= b.len(),
        forall|v: int| 0 <= v < k ==> #[trigger] a[v] == b[v],
    ensures
        solved_in(a, k) == solved_in(b, k),
    decreases k,
{
    if k > 0 {
        lemma_solved_in_same(a, b, k - 1);
    }
}

/// The vertices of the layers from `from` upwards are among all.
proof fn lemma_size_above(t: Tree, from: int)
    requires
        0 <= from <= t.len(),
    ensures
        0 <= size_above(t, from) <= size_above(t, 0),
    decreases from,
{
    lemma_size_nonnegative(t, from);
    if from > 0 {
        lemma_size_above(t, from - 1);
    }
}

/// No size is negative.
proof fn lemma_size_nonnegative(t: Tree, from: int)
    ensures
        0 <= size_above(t, from),
    decreases t.len() - from,
{
    if from < t.len() {
        lemma_size_nonnegative(t, from + 1);
    }
}

/// Solves the quadratic error functions of the octree from the top layer
/// down, each at most once, and below the top only those of the children of
/// a vertex whose residual exceeds the tolerance in size. Returns the
/// number of functions solved.
pub fn solve_qefs<Q: QefSolver>(tree: &mut Vec<Vec<Vertex>>, solver: &mut Q) -> (num_solved: usize)
    requires
        tree_linked(tree_of(old(tree)@)),
        unsolved_below(tree_of(old(tree)@), old(tree)@.len() as int),
        size_above(tree_of(old(tree)@), 0) <= usize::MAX,
    ensures
        same_but_qef(tree_of(old(tree)@), tree_of(final(tree)@)),
        solved_from(tree_of(final(tree)@), 0),
        num_solved == solved_above(tree_of(final(tree)@), 0),
{
    let ghost t0 = tree_of(tree@);
    let depth = tree.len();
    let mut num_solved: usize = 0;
    let mut layer: usize = depth;
    while layer > 0
        invariant
            layer <= depth,
            depth == t0.len(),
            tree@.len() == depth,
            tree_linked(t0),
            unsolved_below(t0, depth as int),
            size_above(t0, 0) <= usize::MAX,
            same_but_qef(t0, tree_of(tree@)),
            solved_from(tree_of(tree@), layer as int),
            unsolved_below(tree_of(tree@), layer as int),
            num_solved == solved_above(tree_of(tree@), layer as int),
            num_solved <= size_above(t0, layer as int),
        decreases layer,
    {
        layer = layer - 1;
        let count = tree[layer].len();
        let ghost above = num_solved;
        let ghost t1 = tree_of(tree@);
        let mut index: usize = 0;
        proof {
            lemma_size_above(t0, layer as int);
            assert(t0[layer as int].len() == count) by {
                assert(t1[layer as int].len() == t0[layer as int].len());
            }
            assert forall|v: int| 0 <= v < count implies !(#[trigger] t1[layer as int][v]).qef.solved() by {
                assert(in_tree(t1, layer as int, v));
            }
            assert(unsolved_below(t1, layer as int)) by {
                assert forall|l2: int, v: int| l2 < layer && #[trigger] in_tree(t1, l2, v) implies !t1[l2][v].qef.solved() by {}
            }
        }
        while index < count
            invariant
                index <= count,
                layer < depth,
                depth == t0.len(),
                tree@.len() == depth,
                count == t0[layer as int].len(),
                tree_linked(t0),
                size_above(t0, layer as int) <= usize::MAX,
                size_above(t0, layer as int) == size_above(t0, layer + 1) + count,
                same_but_qef(t0, t1),
                same_but_qef(t0, tree_of(tree@)),
                solved_from(t1, layer + 1),
                above == solved_above(t1, layer + 1),
                above <= size_above(t0, layer + 1),
                forall|other: int|
                    0 <= other < depth && other != layer ==> #[trigger] tree_of(tree@)[other]
                        == t1[other],
                forall|v: int|
                    0 <= v < index ==> ((#[trigger] tree_of(tree@)[layer as int][v]).qef.solved()
                        <==> to_be_solved(t1, layer as int, v)),
                forall|v: int|
                    index <= v < count ==> !(#[trigger] tree_of(tree@)[layer as int][v]).qef.solved(),
                unsolved_below(tree_of(tree@), layer as int),
                num_solved == above + solved_in(tree_of(tree@)[layer as int], index as int),
                num_solved <= above + index,
            decreases count - index,
        {
            let ghost t2 = tree_of(tree@);
            let wanted = if layer + 1 == depth {
                true
            } else {
                assert(layer_linked(t0[layer as int], t0[layer + 1]));
                assert(in_tree(t0, layer as int, index as int));
                assert(in_tree(t0, layer + 1, t0[layer as int][index as int].parent->0 as int)) by {
                    assert(t0[layer as int][index as int].parent is Some);
                }
                assert(t2[layer as int][index as int].parent == t0[layer as int][index as int].parent);
                let p = tree[layer][index].parent.unwrap();
                tree[layer + 1][p].qef.is_exceeding()
            };
            assert(wanted == to_be_solved(t1, layer as int, index as int)) by {
                if layer + 1 < depth {
                    assert(t2[layer + 1] == t1[layer + 1]);
                    assert(in_tree(t0, layer as int, index as int));
                    assert(t1[layer as int][index as int].parent == t0[layer as int][index as int].parent);
                }
            }
            if wanted {
                let residual = solver.solve(tree, layer, index);
                tree[layer][index].qef = QefState::Solved(residual);
                num_solved = num_solved + 1;
            }
            proof {
                let t3 = tree_of(tree@);
                assert forall|other: int| 0 <= other < depth && other != layer implies #[trigger] t3[other]
                    == t1[other] by {
                    assert(t2[other] == t1[other]);
                    assert(t3[other] =~= t2[other]);
                }
                assert forall|v: int| 0 <= v < count && v != index implies #[trigger] t3[layer as int][v]
                    == t2[layer as int][v] by {}
                lemma_solved_in_same(t2[layer as int], t3[layer as int], index as int);
                assert(same_but_qef(t0, t3)) by {
                    assert forall|l2: int, v: int| #[trigger] in_tree(t0, l2, v) implies t3[l2][v] == (
                    Vertex { qef: t3[l2][v].qef, ..t0[l2][v] }) by {
                        assert(t2[l2][v] == (Vertex { qef: t2[l2][v].qef, ..t0[l2][v] }));
                        if l2 != layer {
                            assert(t3[l2] == t2[l2]);
                        }
                    }
                    assert forall|l2: int| 0 <= l2 < t0.len() implies (#[trigger] t3[l2]).len()
                        == t0[l2].len() by {
                        assert(t2[l2].len() == t0[l2].len());
                    }
                }
                assert(unsolved_below(t3, layer as int)) by {
                    assert forall|l2: int, v: int| l2 < layer && #[trigger] in_tree(t3, l2, v) implies !t3[l2][v].qef.solved() by {
                        assert(t3[l2] == t2[l2]) by {
                            assert(t3[l2] == t1[l2]);
                            assert(t2[l2] == t1[l2]);
                        }
                        assert(in_tree(t2, l2, v));
                    }
                }
            }
            index += 1;
        }
        proof {
            let t3 = tree_of(tree@);
            assert forall|l2: int, v: int| layer <= l2 && #[trigger] in_tree(t3, l2, v) implies (
            t3[l2][v].qef.solved() <==> to_be_solved(t3, l2, v)) by {
                if l2 == layer {
                    if layer + 1 < depth {
                        assert(t3[layer + 1] == t1[layer + 1]);
                        assert(in_tree(t0, l2, v));
                        assert(t3[l2][v].parent == t0[l2][v].parent);
                        assert(t1[l2][v].parent == t0[l2][v].parent);
                    }
                } else {
                    assert(t3[l2] == t1[l2]);
                    assert(in_tree(t1, l2, v));
                    if l2 + 1 < depth {
                        assert(t3[l2 + 1] == t1[l2 + 1]);
                    }
                }
            }
            lemma_solved_above_same(t3, t1, layer + 1);
        }
    }
    num_solved
}

} // verus!
