//! What holds of every octree and of every mesh that the engine makes.

use vstd::prelude::*;
use crate::engine::is_octree;
use crate::face::{face_indices, Face};
use crate::leaf::VertexKey;
use crate::octree::{is_parent_layer, lists, summarizes};
use crate::quads::{climb, faces_ok, looked_up, mesh_ok};
use crate::solve::{in_tree, parent_of, Tree};
use crate::value_grid::Corner;
use crate::vertex::Vertex;
use crate::vertex_index::{face_step, opposite, pos};

verus! {

/// Neighbor symmetry: in every layer of an octree, whenever a vertex `u`
/// lists a vertex `v` across a face, `v` is a vertex of the layer, lies in
/// the cell across that face, and lists `u` across the opposite face.
pub proof fn lemma_neighbor_symmetry(
    g: Map<Corner, i64>,
    t: Tree,
    map: Map<VertexKey, usize>,
    layer: int,
    u: int,
    face: int,
    v: int,
)
    requires
        is_octree(g, t, map),
        0 <= layer < t.len(),
        lists(t[layer], u, face, v),
    ensures
        0 <= v < t[layer].len(),
        lists(t[layer], v, opposite(face), u),
        pos(t[layer][v].index) == face_step(pos(t[layer][u].index), face),
{
    assert(crate::octree::layer_ok(t[layer]));
    let k = choose|k: int|
        0 <= k < t[layer][u].neighbors[face]@.len() && #[trigger] t[layer][u].neighbors[face]@[k]
            == v;
    assert(t[layer][u].neighbors[face]@[k] < t[layer].len());
}

/// Parent and child: every vertex of a layer is a child of exactly one
/// vertex of the layer above, its parent, which lists it once.
pub proof fn lemma_one_parent_each(l0: Seq<Vertex>, l1: Seq<Vertex>, r: Seq<Vertex>, v: usize)
    requires
        is_parent_layer(l0, l1, r),
        v < l1.len(),
        r.len() <= usize::MAX,
    ensures
        l1[v as int].parent matches Some(p) && p < r.len() && r[p as int].children@.contains(v),
        forall|q: int| 0 <= q < r.len() && r[q].children@.contains(v) ==> l1[v as int].parent == Some(q as usize),
        forall|q: int| 0 <= q < r.len() ==> (#[trigger] r[q]).children@.no_duplicates(),
{
    assert(l1[v as int].parent is Some);
    assert forall|q: int| 0 <= q < r.len() && r[q].children@.contains(v) implies l1[v as int].parent
        == Some(q as usize) by {
        let k = choose|k: int| 0 <= k < r[q].children@.len() && r[q].children@[k] == v;
        assert(l1[r[q].children@[k] as int].parent == Some(q as usize));
    }
    assert forall|q: int| 0 <= q < r.len() implies (#[trigger] r[q]).children@.no_duplicates() by {
        assert(summarizes(l0, r[q].children@, r[q]) && r[q].children@.no_duplicates());
    }
}

/// The vertices of `l1` whose parent is one of the first `k` vertices of
/// the layer above.
pub open spec fn claimed_below(l1: Seq<Vertex>, k: int) -> Set<usize> {
    Set::new(|v: usize| v < l1.len() && l1[v as int].parent is Some && l1[v as int].parent->0 < k)
}

/// The first `k` vertices of the layer above have as many children together
/// as there are vertices below whose parent is one of them.
proof fn lemma_children_counted(l0: Seq<Vertex>, l1: Seq<Vertex>, r: Seq<Vertex>, k: int)
    requires
        is_parent_layer(l0, l1, r),
        l1.len() <= usize::MAX,
        r.len() <= usize::MAX,
        0 <= k <= r.len(),
    ensures
        claimed_below(l1, k).finite(),
        crate::octree::total_children(r.subrange(0, k)) == claimed_below(l1, k).len(),
    decreases k,
{
    crate::octree::lemma_below(l1.len());
    assert(claimed_below(l1, k).subset_of(crate::octree::below(l1.len())));
    vstd::set_lib::lemma_len_subset(claimed_below(l1, k), crate::octree::below(l1.len()));
    if k == 0 {
        assert(claimed_below(l1, 0) =~= Set::<usize>::empty());
        assert(r.subrange(0, 0) =~= Seq::<Vertex>::empty());
    } else {
        lemma_children_counted(l0, l1, r, k - 1);
        let m = r[k - 1].children@;
        let before = claimed_below(l1, k - 1);
        assert(summarizes(l0, m, r[k - 1]) && m.no_duplicates());
        m.unique_seq_to_set();
        assert(claimed_below(l1, k) =~= before + m.to_set()) by {
            assert forall|v: usize| claimed_below(l1, k).contains(v) <==> (before.contains(v)
                || m.to_set().contains(v)) by {
                if m.to_set().contains(v) {
                    lemma_one_parent_each_of(l0, l1, r, k - 1, v);
                }
                if claimed_below(l1, k).contains(v) && !before.contains(v) {
                    lemma_one_parent_each(l0, l1, r, v);
                    assert(l1[v as int].parent->0 == k - 1);
                }
            }
        }
        assert(before.disjoint(m.to_set())) by {
            assert forall|v: usize| !(before.contains(v) && m.to_set().contains(v)) by {
                if m.to_set().contains(v) {
                    lemma_one_parent_each_of(l0, l1, r, k - 1, v);
                }
            }
        }
        vstd::set_lib::lemma_set_disjoint_lens(before, m.to_set());
        assert(r.subrange(0, k).drop_last() =~= r.subrange(0, k - 1));
        assert(r.subrange(0, k).last() == r[k - 1]);
    }
}

/// A child that a vertex lists is a vertex of the layer below whose parent
/// it is.
proof fn lemma_one_parent_each_of(l0: Seq<Vertex>, l1: Seq<Vertex>, r: Seq<Vertex>, q: int, v: usize)
    requires
        is_parent_layer(l0, l1, r),
        0 <= q < r.len(),
        r[q].children@.contains(v),
    ensures
        v < l1.len(),
        l1[v as int].parent == Some(q as usize),
{
    let k = choose|k: int| 0 <= k < r[q].children@.len() && r[q].children@[k] == v;
    assert(r[q].children@[k] < l1.len() && l1[r[q].children@[k] as int].parent == Some(q as usize));
}

/// Parent and child, counted: the vertices of the layer above have as many
/// children together as the layer below has vertices.
pub proof fn lemma_children_sum(l0: Seq<Vertex>, l1: Seq<Vertex>, r: Seq<Vertex>)
    requires
        is_parent_layer(l0, l1, r),
        l1.len() <= usize::MAX,
        r.len() <= usize::MAX,
    ensures
        crate::octree::total_children(r) == l1.len(),
{
    lemma_children_counted(l0, l1, r, r.len() as int);
    assert(r.subrange(0, r.len() as int) =~= r);
    crate::octree::lemma_below(l1.len());
    assert(claimed_below(l1, r.len() as int) =~= crate::octree::below(l1.len())) by {
        assert forall|v: usize| crate::octree::below(l1.len()).contains(v) implies claimed_below(
            l1,
            r.len() as int,
        ).contains(v) by {
            lemma_one_parent_each(l0, l1, r, v);
        }
    }
}

/// Euler accounting: the Euler characteristic of a parent is the sum of
/// those of its children less a quarter of their sign changes along the
/// edges that do not lie on an edge of the cell of the parent; and along
/// each edge the parent counts the sign changes of the children that have
/// that edge on the same edge of its cell.
pub proof fn lemma_euler_accounting(l0: Seq<Vertex>, l1: Seq<Vertex>, r: Seq<Vertex>, p: int)
    requires
        is_parent_layer(l0, l1, r),
        0 <= p < r.len(),
    ensures
        r[p].euler_characteristic == crate::counters::sum_euler(l1, r[p].children@)
            - crate::counters::sum_inner(l1, r[p].children@) / 4,
        forall|e: int|
            0 <= e < 12 ==> #[trigger] r[p].edge_intersections[e] == crate::counters::sum_outer(
                l1,
                r[p].children@,
                e,
            ),
{
    let m = r[p].children@;
    assert(summarizes(l0, m, r[p]) && m.no_duplicates());
    assert forall|k: int| 0 <= k < m.len() implies #[trigger] m[k] < l0.len() by {
        assert(r[p].children@[k] < l1.len());
    }
    lemma_sums_ignore_parents(l0, l1, m, |v: Vertex| v.euler_characteristic as int);
    lemma_sums_ignore_parents(l0, l1, m, |v: Vertex| v.inner_intersections());
    assert forall|e: int| 0 <= e < 12 implies #[trigger] r[p].edge_intersections[e]
        == crate::counters::sum_outer(l1, m, e) by {
        lemma_sums_ignore_parents(l0, l1, m, |v: Vertex| v.outer_intersections(e));
    }
}

/// A sum over vertices of a layer does not change with their parents, for a
/// function that does not read the parent.
proof fn lemma_sums_ignore_parents(
    l0: Seq<Vertex>,
    l1: Seq<Vertex>,
    m: Seq<usize>,
    f: spec_fn(Vertex) -> int,
)
    requires
        crate::octree::same_but_parents(l0, l1),
        forall|k: int| 0 <= k < m.len() ==> #[trigger] m[k] < l0.len(),
        forall|v: Vertex, p: Option<usize>| #[trigger] f(Vertex { parent: p, ..v }) == f(v),
    ensures
        crate::counters::sum_over(l1, m, f) == crate::counters::sum_over(l0, m, f),
    decreases m.len(),
{
    if m.len() > 0 {
        lemma_sums_ignore_parents(l0, l1, m.drop_last(), f);
        let c = m[m.len() - 1] as int;
        assert(l1[c] == (Vertex { parent: l1[c].parent, ..l0[c] }));
    }
}

/// The manifold predicate: a vertex is a 2-manifold exactly if its Euler
/// characteristic is 1 and on each of the six faces of its cell the number
/// of sign changes is even and at most 2.
pub proof fn lemma_manifold_predicate(v: Vertex)
    ensures
        v.manifold() <==> (v.euler_characteristic == 1 && forall|face: int|
            0 <= face < 6 ==> (#[trigger] v.face_sum(face)) % 2 == 0 && v.face_sum(face) <= 2),
{
    assert forall|face: int| 0 <= face < 6 implies 0 <= #[trigger] v.face_sum(face) by {
        crate::counters::lemma_sum_counts_bounds(
            v.edge_intersections@,
            |e: int| crate::vertex_index::on_face(face, e),
            12,
        );
    }
    if v.manifold() {
        assert forall|face: int| 0 <= face < 6 implies (#[trigger] v.face_sum(face)) % 2 == 0
            && v.face_sum(face) <= 2 by {}
    }
    if v.euler_characteristic == 1 && forall|face: int|
        0 <= face < 6 ==> (#[trigger] v.face_sum(face)) % 2 == 0 && v.face_sum(face) <= 2 {
        assert forall|face: int| 0 <= face < 6 implies (#[trigger] v.face_sum(face) == 0
            || v.face_sum(face) == 2) by {
            assert(0 <= v.face_sum(face));
            assert(v.face_sum(face) % 2 == 0 && v.face_sum(face) <= 2);
        }
    }
}

/// Face validity: every face of the mesh has three different vertices, and
/// each of them stands for a vertex of the octree whose quadratic error
/// function has been solved.
pub proof fn lemma_face_validity(
    t: Tree,
    vertices: Seq<(usize, usize)>,
    faces: Seq<Face>,
    i: int,
    j: int,
)
    requires
        mesh_ok(t, vertices),
        faces_ok(faces, vertices.len() as int),
        0 <= i < faces.len(),
        0 <= j < 3,
    ensures
        face_indices(faces[i]).len() == 3,
        face_indices(faces[i]).no_duplicates(),
        face_indices(faces[i])[j] < vertices.len(),
        ({
            let at = vertices[face_indices(faces[i])[j] as int];
            crate::solve::in_tree(t, at.0 as int, at.1 as int) && t[at.0 as int][at.1 as int].qef.solved()
        }),
{
    let f = face_indices(faces[i]);
    assert(f.len() == 3 && f.no_duplicates() && forall|k: int| 0 <= k < 3 ==> f[k] < vertices.len());
    let m = f[j] as int;
    assert(crate::solve::in_tree(t, vertices[m].0 as int, vertices[m].1 as int));
}

/// The vertex `up` layers above vertex `v` of layer `layer`, along the
/// parents.
pub open spec fn ancestor(t: Tree, layer: int, v: int, up: nat) -> int
    decreases up,
{
    if up == 0 {
        v
    } else {
        ancestor(t, layer + 1, t[layer][v].parent->0 as int, (up - 1) as nat)
    }
}

/// The walk up the octree: it ends at the vertex it starts from or at an
/// ancestor of it below the top layer; every vertex on the way above the
/// start, the last one included, has been solved with a residual no greater
/// than the tolerance and is a 2-manifold; and the parent of the last one
/// is in the top layer, or has not been solved, or has a residual above the
/// tolerance, or is no 2-manifold.
pub proof fn lemma_walk(t: Tree, layer: int, v: int)
    requires
        0 <= layer < t.len(),
    ensures
        ({
            let (top, w) = climb(t, layer, v);
            &&& layer <= top
            &&& top == layer || top + 2 <= t.len()
            &&& w == ancestor(t, layer, v, (top - layer) as nat)
            &&& forall|k: nat|
                1 <= k <= top - layer ==> (#[trigger] t[layer + k][ancestor(t, layer, v, k)]).qef.accepted()
                    && t[layer + k][ancestor(t, layer, v, k)].manifold()
            &&& top + 2 >= t.len() || !parent_of(t, top, w).qef.accepted() || !parent_of(
                t,
                top,
                w,
            ).manifold()
        }),
    decreases t.len() - layer,
{
    if layer + 2 < t.len() {
        let p = t[layer][v].parent->0 as int;
        let next = t[layer + 1][p];
        if next.qef.accepted() && next.manifold() {
            lemma_walk(t, layer + 1, p);
            let (top, w) = climb(t, layer + 1, p);
            assert forall|k: nat| 1 <= k <= top - layer implies (
            #[trigger] t[layer + k][ancestor(t, layer, v, k)]).qef.accepted()
                && t[layer + k][ancestor(t, layer, v, k)].manifold() by {
                assert(ancestor(t, layer, v, k) == ancestor(t, layer + 1, p, (k - 1) as nat));
                if k > 1 {
                    let j = (k - 1) as nat;
                    assert(t[layer + 1 + j][ancestor(t, layer + 1, p, j)].qef.accepted());
                }
            }
        }
    }
}

/// The walk reads the parents, the counters and, above the leaves, the
/// states of the quadratic error functions: trees that agree in these give
/// the same walk.
pub proof fn lemma_walk_same(t0: Tree, t1: Tree, layer: int, v: int)
    requires
        0 <= layer,
        t0.len() == t1.len(),
        forall|l: int| 0 <= l < t0.len() ==> (#[trigger] t1[l]).len() == t0[l].len(),
        forall|l: int, w: int| #[trigger]
            in_tree(t0, l, w) ==> t1[l][w].parent == t0[l][w].parent && t1[l][w].edge_intersections
                == t0[l][w].edge_intersections && t1[l][w].euler_characteristic
                == t0[l][w].euler_characteristic && (l >= 1 ==> t1[l][w].qef == t0[l][w].qef),
        crate::solve::tree_linked(t0),
        in_tree(t0, layer, v),
        forall|l: int| 0 <= l < t0.len() ==> (#[trigger] t0[l]).len() <= usize::MAX,
    ensures
        climb(t1, layer, v) == climb(t0, layer, v),
    decreases t0.len() - layer,
{
    if layer + 2 < t0.len() {
        assert(crate::solve::layer_linked(t0[layer], t0[layer + 1]));
        assert(t0[layer][v].parent is Some);
        let pu = t0[layer][v].parent->0;
        let p = pu as int;
        assert(crate::octree::parents_list_children(t0[layer], t0[layer + 1]));
        let vu = v as usize;
        assert(t0[layer].len() <= usize::MAX);
        assert(t0[layer][vu as int].parent matches Some(q) ==> q < t0[layer + 1].len());
        assert(in_tree(t0, layer + 1, p));
        let a = t0[layer + 1][p];
        let b = t1[layer + 1][p];
        assert(a.manifold() == b.manifold()) by {
            assert forall|face: int| a.face_sum(face) == b.face_sum(face) by {}
        }
        lemma_walk_same(t0, t1, layer + 1, p);
    }
}

/// Written once: a second lookup for the same leaf gives the same vertex of
/// the mesh, and changes neither the octree nor the mesh. No quadratic
/// error function is solved a second time, no number in the mesh is given a
/// second time.
pub proof fn lemma_lookup_again(
    t0: Tree,
    s0: Seq<(usize, usize)>,
    leaf: int,
    t1: Tree,
    s1: Seq<(usize, usize)>,
    first: usize,
    t2: Tree,
    s2: Seq<(usize, usize)>,
    second: usize,
)
    requires
        crate::solve::tree_linked(t0),
        in_tree(t0, 0, leaf),
        forall|l: int| 0 <= l < t0.len() ==> (#[trigger] t0[l]).len() <= usize::MAX,
        looked_up(t0, s0, leaf, t1, s1, first),
        looked_up(t1, s1, leaf, t2, s2, second),
    ensures
        second == first,
        s2 == s1,
        t2 == t1,
{
    let (layer, v) = climb(t0, 0, leaf);
    lemma_walk(t0, 0, leaf);
    let chosen = t0[layer][v];
    if layer >= 1 {
        let k = layer as nat;
        assert(t0[0 + k as int][ancestor(t0, 0, leaf, k)].qef.accepted());
        assert(chosen.qef.solved());
    }
    assert forall|l: int, w: int| #[trigger] in_tree(t0, l, w) implies t1[l][w].parent
        == t0[l][w].parent && t1[l][w].edge_intersections == t0[l][w].edge_intersections
        && t1[l][w].euler_characteristic == t0[l][w].euler_characteristic && (l >= 1 ==> t1[l][w].qef
        == t0[l][w].qef) by {
        if l != layer || w != v {
            assert(t1[l][w] == t0[l][w]);
        }
    }
    lemma_walk_same(t0, t1, 0, leaf);
    assert(climb(t1, 0, leaf) == (layer, v));
    assert(t1[layer][v].mesh_index == Some(first));
    assert(t2[layer][v] == t1[layer][v]);
    assert forall|l: int| 0 <= l < t1.len() implies #[trigger] t2[l] == t1[l] by {
        assert(t2[l].len() == t1[l].len());
        assert forall|w: int| 0 <= w < t1[l].len() implies t2[l][w] == t1[l][w] by {
            assert(in_tree(t1, l, w));
        }
        assert(t2[l] =~= t1[l]);
    }
    assert(t2 =~= t1);
}

} // verus!
