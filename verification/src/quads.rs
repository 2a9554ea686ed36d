//! The faces of the mesh: for every sign-change edge the quad, as one or two
//! triangles, that joins the vertices of the four cells around it.

use std::collections::BTreeMap;
use vstd::prelude::*;
use crate::cell_configs::{crossing, get_connected_edges};
use crate::edge::{quad, Edge, EdgeIndex};
use crate::edge_grid::{bitset_for_cell, cell_covered, pattern_of, sign_change};
use crate::face::{face_indices, triangle, Face};
use crate::leaf::{
    around_ready,
    cell_around,
    edge_ready,
    lemma_vertex_around,
    vertex_around,
    vertex_key,
    VertexKey,
};
use crate::solve::{in_tree, tree_of, QefSolver, Tree};
use crate::value_grid::{key_of, Corner};
use crate::vertex::{QefState, Vertex};
use crate::vertex_index::{neg_offset, pos, Index, VertexIndex};

verus! {

/// The topology of the mesh that the octree yields.
#[derive(Clone, Debug, PartialEq)]
pub struct MeshTopology {
    /// For each vertex of the mesh, the layer and the number of the vertex
    /// of the octree at whose solution it lies.
    pub vertices: Vec<(usize, usize)>,
    /// The faces, as numbers of vertices of the mesh.
    pub faces: Vec<Face>,
}

/// Where the walk up the octree from vertex `v` of layer `layer` ends. The
/// walk goes on to the parent while the parent lies below the top layer,
/// has been solved with a residual no greater than the tolerance, and is a
/// 2-manifold; it ends at the first vertex whose parent is not so.
pub open spec fn climb(t: Tree, layer: int, v: int) -> (int, int)
    decreases t.len() - layer,
{
    if layer + 2 >= t.len() {
        (layer, v)
    } else {
        let p = t[layer][v].parent->0 as int;
        let next = t[layer + 1][p];
        if !next.qef.accepted() || !next.manifold() {
            (layer, v)
        } else {
            climb(t, layer + 1, p)
        }
    }
}

/// Whether the vertices of the mesh and the vertices of the octree name
/// each other, and every vertex of the octree that is in the mesh has been
/// solved.
pub open spec fn mesh_ok(t: Tree, sources: Seq<(usize, usize)>) -> bool {
    &&& forall|m: int|
        0 <= m < sources.len() ==> in_tree(t, (#[trigger] sources[m]).0 as int, sources[m].1 as int)
            && t[sources[m].0 as int][sources[m].1 as int].mesh_index == Some(m as usize)
            && t[sources[m].0 as int][sources[m].1 as int].qef.solved()
    &&& forall|layer: int, v: int| #[trigger]
        in_tree(t, layer, v) ==> (t[layer][v].mesh_index matches Some(m) ==> m < sources.len()
            && sources[m as int] == (layer as usize, v as usize))
}

/// Whether looking up the mesh vertex for leaf `leaf` takes the octree from
/// `t0` to `t1` and the vertices of the mesh from `s0` to `s1`, and yields
/// `result`: the vertex where the walk up from the leaf ends is in the mesh
/// afterwards and solved, under the number it had or else the next free
/// one, and nothing else has changed.
pub open spec fn looked_up(
    t0: Tree,
    s0: Seq<(usize, usize)>,
    leaf: int,
    t1: Tree,
    s1: Seq<(usize, usize)>,
    result: usize,
) -> bool {
    let (layer, v) = climb(t0, 0, leaf);
    let chosen = t0[layer][v];
    &&& in_tree(t0, layer, v)
    &&& t1.len() == t0.len()
    &&& forall|l2: int| 0 <= l2 < t0.len() ==> (#[trigger] t1[l2]).len() == t0[l2].len()
    &&& forall|l2: int, w: int| #[trigger]
        in_tree(t0, l2, w) && (l2 != layer || w != v) ==> t1[l2][w] == t0[l2][w]
    &&& t1[layer][v] == (Vertex { qef: t1[layer][v].qef, mesh_index: Some(result), ..chosen })
    &&& t1[layer][v].qef.solved()
    &&& chosen.qef.solved() ==> t1[layer][v].qef == chosen.qef
    &&& match chosen.mesh_index {
        Some(m) => result == m && s1 == s0,
        None => result == s0.len() && s1 == s0.push((layer as usize, v as usize)),
    }
}

/// The vertex where the walk up the octree from leaf `leaf` ends.
pub fn climb_from_leaf(tree: &Vec<Vec<Vertex>>, leaf: usize) -> (r: (usize, usize))
    requires
        crate::solve::tree_linked(tree_of(tree@)),
        in_tree(tree_of(tree@), 0, leaf as int),
    ensures
        (r.0 as int, r.1 as int) == climb(tree_of(tree@), 0, leaf as int),
        in_tree(tree_of(tree@), r.0 as int, r.1 as int),
{
    let ghost t = tree_of(tree@);
    let depth = tree.len();
    let mut octtree_layer: usize = 0;
    let mut octtree_index: usize = leaf;
    loop
        invariant_except_break
            depth == t.len(),
            t == tree_of(tree@),
            crate::solve::tree_linked(t),
            in_tree(t, octtree_layer as int, octtree_index as int),
            climb(t, 0, leaf as int) == climb(t, octtree_layer as int, octtree_index as int),
        ensures
            (octtree_layer as int, octtree_index as int) == climb(t, 0, leaf as int),
            in_tree(t, octtree_layer as int, octtree_index as int),
        decreases depth - octtree_layer,
    {
        if depth - octtree_layer <= 2 {
            break ;
        }
        assert(crate::solve::layer_linked(t[octtree_layer as int], t[octtree_layer + 1]));
        assert(t[octtree_layer as int][octtree_index as int].parent is Some);
        let next_index = tree[octtree_layer][octtree_index].parent.unwrap();
        let next_vertex = &tree[octtree_layer + 1][next_index];
        if !next_vertex.qef.is_accepted() || !next_vertex.is_2manifold() {
            // Stop, if the parent is not solved, or its error is too large,
            // or it is no 2-manifold.
            break ;
        }
        octtree_layer = octtree_layer + 1;
        octtree_index = next_index;
    }
    (octtree_layer, octtree_index)
}

/// The number in the mesh of the vertex where the walk up the octree from
/// leaf `leaf` ends. A vertex that is not in the mesh yet is added to it,
/// after its quadratic error function has been solved if it was not.
pub fn mesh_vertex_for<Q: QefSolver>(
    tree: &mut Vec<Vec<Vertex>>,
    sources: &mut Vec<(usize, usize)>,
    solver: &mut Q,
    leaf: usize,
) -> (result: usize)
    requires
        crate::solve::tree_linked(tree_of(old(tree)@)),
        in_tree(tree_of(old(tree)@), 0, leaf as int),
        mesh_ok(tree_of(old(tree)@), old(sources)@),
    ensures
        looked_up(
            tree_of(old(tree)@),
            old(sources)@,
            leaf as int,
            tree_of(final(tree)@),
            final(sources)@,
            result,
        ),
        mesh_ok(tree_of(final(tree)@), final(sources)@),
        crate::solve::tree_linked(tree_of(final(tree)@)),
        result < final(sources)@.len(),
{
    let ghost t0 = tree_of(tree@);
    let ghost s0 = sources@;
    let (layer, index) = climb_from_leaf(tree, leaf);
    if let Some(mesh_index) = tree[layer][index].mesh_index {
        proof {
            assert(in_tree(t0, layer as int, index as int));
            assert(tree_of(tree@)[layer as int][index as int] == (Vertex {
                qef: t0[layer as int][index as int].qef,
                mesh_index: Some(mesh_index),
                ..t0[layer as int][index as int]
            }));
        }
        return mesh_index;
    }
    if !tree[layer][index].qef.is_solved() {
        let residual = solver.solve(tree, layer, index);
        tree[layer][index].qef = QefState::Solved(residual);
    }
    let result = sources.len();
    tree[layer][index].mesh_index = Some(result);
    sources.push((layer, index));
    proof {
        let t1 = tree_of(tree@);
        let s1 = sources@;
        assert forall|l2: int| 0 <= l2 < t0.len() implies (#[trigger] t1[l2]).len() == t0[l2].len() by {}
        assert forall|l2: int, w: int| #[trigger]
            in_tree(t0, l2, w) && (l2 != layer || w != index) implies t1[l2][w] == t0[l2][w] by {}
        assert(mesh_ok(t1, s1)) by {
            assert forall|m: int| 0 <= m < s1.len() implies in_tree(
                t1,
                (#[trigger] s1[m]).0 as int,
                s1[m].1 as int,
            ) && t1[s1[m].0 as int][s1[m].1 as int].mesh_index == Some(m as usize)
                && t1[s1[m].0 as int][s1[m].1 as int].qef.solved() by {
                if m < s0.len() {
                    assert(s1[m] == s0[m]);
                    assert(in_tree(t0, s0[m].0 as int, s0[m].1 as int));
                    assert(t0[s0[m].0 as int][s0[m].1 as int].mesh_index == Some(m as usize));
                }
            }
            assert forall|l2: int, w: int| #[trigger] in_tree(t1, l2, w) implies (
            t1[l2][w].mesh_index matches Some(m) ==> m < s1.len() && s1[m as int] == (
                l2 as usize,
                w as usize,
            )) by {
                assert(in_tree(t0, l2, w));
                if l2 != layer || w != index {
                    assert(t1[l2][w] == t0[l2][w]);
                    if t0[l2][w].mesh_index is Some {
                        let m = t0[l2][w].mesh_index->0;
                        assert(s1[m as int] == s0[m as int]);
                    }
                }
            }
        }
        lemma_links_kept(t0, t1);
    }
    result
}

/// A tree that differs from a linked tree in the states of quadratic error
/// functions and in the numbers of the vertices in the mesh alone is
/// linked.
pub proof fn lemma_links_kept(t0: Tree, t1: Tree)
    requires
        crate::solve::tree_linked(t0),
        t0.len() == t1.len(),
        forall|l2: int| 0 <= l2 < t0.len() ==> (#[trigger] t1[l2]).len() == t0[l2].len(),
        forall|l2: int, w: int| #[trigger]
            in_tree(t0, l2, w) ==> t1[l2][w].parent == t0[l2][w].parent && t1[l2][w].children
                == t0[l2][w].children,
    ensures
        crate::solve::tree_linked(t1),
{
    assert forall|layer: int| 0 <= layer < t1.len() - 1 implies crate::solve::layer_linked(
        #[trigger] t1[layer],
        t1[layer + 1],
    ) by {
        let l = t0[layer];
        let r = t0[layer + 1];
        let l1 = t1[layer];
        let r1 = t1[layer + 1];
        assert(crate::solve::layer_linked(l, r));
        assert(r1.len() == r.len());
        assert forall|v: int| 0 <= v < l1.len() implies (#[trigger] l1[v]).parent is Some by {
            assert(in_tree(t0, layer, v));
            assert(l[v].parent is Some);
        }
        assert forall|p: int, k: int|
            0 <= p < r1.len() && 0 <= k < r1[p].children@.len() implies (
        #[trigger] r1[p].children@[k]) < l1.len() && l1[r1[p].children@[k] as int].parent == Some(
            p as usize,
        ) by {
            assert(in_tree(t0, layer + 1, p));
            assert(r[p].children@[k] < l.len());
            assert(in_tree(t0, layer, r[p].children@[k] as int));
        }
        assert forall|v: usize| v < l1.len() implies ((#[trigger] l1[v as int].parent) matches Some(
            q,
        ) ==> q < r1.len() && r1[q as int].children@.contains(v)) by {
            assert(in_tree(t0, layer, v as int));
            assert(l[v as int].parent matches Some(q) ==> q < r.len() && r[q as int].children@.contains(
                v,
            ));
            if l[v as int].parent is Some {
                assert(in_tree(t0, layer + 1, l[v as int].parent->0 as int));
            }
        }
        assert forall|p: int| 0 <= p < r1.len() implies (#[trigger] r1[p]).children@.no_duplicates() by {
            assert(in_tree(t0, layer + 1, p));
            assert(r[p].children@.no_duplicates());
        }
    }
}

/// The entries of `s` in order, each at its first place only.
pub open spec fn dedup(s: Seq<usize>) -> Seq<usize>
    decreases s.len(),
{
    if s.len() == 0 {
        Seq::empty()
    } else if dedup(s.drop_last()).contains(s.last()) {
        dedup(s.drop_last())
    } else {
        dedup(s.drop_last()).push(s.last())
    }
}

/// The triangles for the vertices `p` around a sign-change edge: none if
/// there are fewer than three; else, with the vertices taken in reverse
/// where the field is negative at the low end of the edge, the triangle of
/// the first three and, if there are four, that of the third, the fourth and
/// the first.
pub open spec fn quad_faces(p: Seq<usize>, negative: bool) -> Seq<Seq<usize>> {
    if p.len() < 3 {
        Seq::empty()
    } else {
        let q = if negative {
            p.reverse()
        } else {
            p
        };
        if q.len() == 4 {
            seq![seq![q[0], q[1], q[2]], seq![q[2], q[3], q[0]]]
        } else {
            seq![seq![q[0], q[1], q[2]]]
        }
    }
}

/// Whether looking up, one after the other, the mesh vertices for the
/// first `k` of the leaves `leaves` takes the octree from `t0` to `tk` and
/// the vertices of the mesh from `s0` to `sk`, and yields the first `k` of
/// `results`.
pub open spec fn all_looked_up(
    t0: Tree,
    s0: Seq<(usize, usize)>,
    leaves: Seq<int>,
    results: Seq<usize>,
    k: int,
    tk: Tree,
    sk: Seq<(usize, usize)>,
) -> bool
    decreases k,
{
    if k <= 0 {
        tk == t0 && sk == s0
    } else {
        exists|t: Tree, s: Seq<(usize, usize)>|
            all_looked_up(t0, s0, leaves, results, k - 1, t, s) && #[trigger] looked_up(
                t,
                s,
                leaves[k - 1],
                tk,
                sk,
                results[k - 1],
            )
    }
}

/// Whether every face is a triangle of three different vertices of a mesh
/// with `n` vertices.
pub open spec fn faces_ok(faces: Seq<Face>, n: int) -> bool {
    forall|i: int|
        0 <= i < faces.len() ==> {
            let f = face_indices(#[trigger] faces[i]);
            &&& f.len() == 3
            &&& f.no_duplicates()
            &&& forall|j: int| 0 <= j < 3 ==> f[j] < n
        }
}

/// The number of the leaf that stands for the edge `edge` of the cell
/// `idx`.
pub fn leaf_for(
    grid: &BTreeMap<Corner, i64>,
    index_map: &BTreeMap<VertexKey, usize>,
    edge: Edge,
    idx: Index,
) -> (r: usize)
    requires
        cell_covered(grid@, pos(idx)),
        crossing(pattern_of(grid@, pos(idx)), edge.ord()),
        index_map@.contains_key(
            (
                idx[0],
                idx[1],
                idx[2],
                crate::cell_configs::component_of(pattern_of(grid@, pos(idx)), edge.ord()).0,
            ),
        ),
    ensures
        r == index_map@[(
            idx[0],
            idx[1],
            idx[2],
            crate::cell_configs::component_of(pattern_of(grid@, pos(idx)), edge.ord()).0,
        )],
{
    let pattern = match bitset_for_cell(grid, idx) {
        Ok(b) => b,
        Err(_) => vstd::pervasive::unreached(),
    };
    let edge_set = get_connected_edges(edge, pattern);
    let vertex_index = VertexIndex { edges: edge_set, index: idx };
    let key = vertex_key(&vertex_index);
    *index_map.get(&key).unwrap()
}

/// The number in the mesh of the vertex that stands for the edge `edge` of
/// the cell `idx`: that of the vertex where the walk up the octree ends
/// that starts at the leaf of the edge. A vertex that is not in the mesh yet
/// is added to it, after its quadratic error function has been solved if it
/// was not.
pub fn lookup_cell_point<Q: QefSolver>(
    grid: &BTreeMap<Corner, i64>,
    index_map: &BTreeMap<VertexKey, usize>,
    tree: &mut Vec<Vec<Vertex>>,
    sources: &mut Vec<(usize, usize)>,
    solver: &mut Q,
    edge: Edge,
    idx: Index,
) -> (result: usize)
    requires
        cell_covered(grid@, pos(idx)),
        crossing(pattern_of(grid@, pos(idx)), edge.ord()),
        index_map@.contains_key(
            (
                idx[0],
                idx[1],
                idx[2],
                crate::cell_configs::component_of(pattern_of(grid@, pos(idx)), edge.ord()).0,
            ),
        ),
        in_tree(
            tree_of(old(tree)@),
            0,
            index_map@[(
                idx[0],
                idx[1],
                idx[2],
                crate::cell_configs::component_of(pattern_of(grid@, pos(idx)), edge.ord()).0,
            )] as int,
        ),
        crate::solve::tree_linked(tree_of(old(tree)@)),
        mesh_ok(tree_of(old(tree)@), old(sources)@),
    ensures
        looked_up(
            tree_of(old(tree)@),
            old(sources)@,
            index_map@[(
                idx[0],
                idx[1],
                idx[2],
                crate::cell_configs::component_of(pattern_of(grid@, pos(idx)), edge.ord()).0,
            )] as int,
            tree_of(final(tree)@),
            final(sources)@,
            result,
        ),
        mesh_ok(tree_of(final(tree)@), final(sources)@),
        crate::solve::tree_linked(tree_of(final(tree)@)),
        result < final(sources)@.len(),
{
    // Generate the proper vertex Index from a single edge and an Index.
    let leaf = leaf_for(grid, index_map, edge, idx);
    mesh_vertex_for(tree, sources, solver, leaf)
}

/// The leaves that the lattice edge starting at `p` along `axis` has in
/// the four cells around it.
pub open spec fn leaves_around(
    g: Map<Corner, i64>,
    map: Map<VertexKey, usize>,
    axis: int,
    p: (int, int, int),
) -> Seq<int> {
    Seq::new(4, |k: int| map[vertex_around(g, axis, p, k)] as int)
}

/// Whether the quad of a sign-change edge can be made: the four cells
/// around the edge are ready and their dual vertices are leaves of the
/// octree.
pub open spec fn quad_ready(
    g: Map<Corner, i64>,
    map: Map<VertexKey, usize>,
    t: Tree,
    axis: int,
    p: (int, int, int),
) -> bool {
    &&& 0 <= axis < 3
    &&& sign_change(g, axis, p)
    &&& edge_ready(g, axis, p)
    &&& forall|k: int|
        0 <= k < 4 ==> map.contains_key(#[trigger] vertex_around(g, axis, p, k)) && in_tree(
            t,
            0,
            map[vertex_around(g, axis, p, k)] as int,
        )
}

/// Whether making the quad of the lattice edge starting at `p` along
/// `axis` takes the octree from `t0` to `t1` and the mesh from the vertices
/// `s0` and faces `f0` to `s1` and `f1`: the mesh vertices of the four
/// leaves around the edge are looked up one after the other, and the
/// triangles of those that differ are added to the faces.
pub open spec fn quad_made(
    g: Map<Corner, i64>,
    map: Map<VertexKey, usize>,
    axis: int,
    p: (int, int, int),
    t0: Tree,
    s0: Seq<(usize, usize)>,
    f0: Seq<Face>,
    t1: Tree,
    s1: Seq<(usize, usize)>,
    f1: Seq<Face>,
) -> bool {
    exists|results: Seq<usize>|
        {
            let added = quad_faces(dedup(results), g[key_of(p)] < 0);
            &&& results.len() == 4
            &&& #[trigger] all_looked_up(t0, s0, leaves_around(g, map, axis, p), results, 4, t1, s1)
            &&& f1.len() == f0.len() + added.len()
            &&& forall|i: int| 0 <= i < f0.len() ==> #[trigger] f1[i] == f0[i]
            &&& forall|j: int|
                0 <= j < added.len() ==> face_indices(#[trigger] f1[f0.len() + j]) == added[j]
        }
}

/// Makes the quad of the sign-change edge `edge_index`: looks up the mesh
/// vertices of the leaves that the edge has in the four cells around it,
/// drops those that come a second time, and, if three or four are left,
/// adds to the faces of the mesh the triangle of the first three and, of
/// four, the triangle of the third, the fourth and the first. Where the
/// field is negative at the low end of the edge the vertices are taken in
/// reverse.
pub fn compute_quad<Q: QefSolver>(
    grid: &BTreeMap<Corner, i64>,
    index_map: &BTreeMap<VertexKey, usize>,
    tree: &mut Vec<Vec<Vertex>>,
    mesh: &mut MeshTopology,
    solver: &mut Q,
    edge_index: EdgeIndex,
)
    requires
        edge_index.is_base(),
        quad_ready(
            grid@,
            index_map@,
            tree_of(old(tree)@),
            edge_index.edge.ord(),
            pos(edge_index.index),
        ),
        crate::solve::tree_linked(tree_of(old(tree)@)),
        mesh_ok(tree_of(old(tree)@), old(mesh).vertices@),
        faces_ok(old(mesh).faces@, old(mesh).vertices@.len() as int),
    ensures
        quad_made(
            grid@,
            index_map@,
            edge_index.edge.ord(),
            pos(edge_index.index),
            tree_of(old(tree)@),
            old(mesh).vertices@,
            old(mesh).faces@,
            tree_of(final(tree)@),
            final(mesh).vertices@,
            final(mesh).faces@,
        ),
        crate::solve::tree_linked(tree_of(final(tree)@)),
        mesh_ok(tree_of(final(tree)@), final(mesh).vertices@),
        faces_ok(final(mesh).faces@, final(mesh).vertices@.len() as int),
        tree_of(final(tree)@).len() == tree_of(old(tree)@).len(),
        tree_of(final(tree)@)[0].len() == tree_of(old(tree)@)[0].len(),
{
    let ghost g = grid@;
    let ghost map = index_map@;
    let ghost axis = edge_index.edge.ord();
    let ghost p0 = pos(edge_index.index);
    let ghost t0 = tree_of(tree@);
    let ghost s0 = mesh.vertices@;
    let ghost f0 = mesh.faces@;
    let ghost leaves = leaves_around(g, map, axis, p0);
    let ghost mut results: Seq<usize> = Seq::empty();
    let mut p: Vec<usize> = Vec::new();
    let mut k: usize = 0;
    assert(map.contains_key(vertex_around(g, axis, p0, 0)) && in_tree(
        t0,
        0,
        map[vertex_around(g, axis, p0, 0)] as int,
    ));
    while k < 4
        invariant
            k <= 4,
            g == grid@,
            map == index_map@,
            axis == edge_index.edge.ord(),
            p0 == pos(edge_index.index),
            edge_index.is_base(),
            leaves == leaves_around(g, map, axis, p0),
            sign_change(g, axis, p0),
            edge_ready(g, axis, p0),
            forall|j: int|
                0 <= j < 4 ==> map.contains_key(#[trigger] vertex_around(g, axis, p0, j)) && in_tree(
                    t0,
                    0,
                    map[vertex_around(g, axis, p0, j)] as int,
                ),
            crate::solve::tree_linked(tree_of(tree@)),
            mesh_ok(tree_of(tree@), mesh.vertices@),
            mesh.faces@ == f0,
            tree_of(tree@).len() == t0.len(),
            t0.len() > 0,
            tree_of(tree@)[0].len() == t0[0].len(),
            results.len() == k,
            all_looked_up(t0, s0, leaves, results, k as int, tree_of(tree@), mesh.vertices@),
            p@ == dedup(results),
            p@.no_duplicates(),
            forall|j: int| 0 <= j < p@.len() ==> #[trigger] p@[j] < mesh.vertices@.len(),
            s0.len() <= mesh.vertices@.len(),
        decreases 4 - k,
    {
        let quad_egde = quad(edge_index.edge, k);
        let off = quad_egde.offset();
        proof {
            assert(around_ready(g, axis, p0, k as int));
            lemma_vertex_around(g, axis, p0, k as int);
        }
        let cell = neg_offset(edge_index.index, off);
        assert(pos(cell) == cell_around(axis, p0, k as int));
        assert(map.contains_key(vertex_around(g, axis, p0, k as int)));
        let ghost leaf = map[vertex_around(g, axis, p0, k as int)];
        assert(leaf == leaves[k as int]);
        let ghost t_before = tree_of(tree@);
        let ghost s_before = mesh.vertices@;
        assert(in_tree(t_before, 0, leaf as int)) by {
            assert(in_tree(t0, 0, leaf as int));
        }
        let point_index = lookup_cell_point(
            grid,
            index_map,
            tree,
            &mut mesh.vertices,
            solver,
            quad_egde,
            cell,
        );
        proof {
            let old_results = results;
            results = results.push(point_index);
            lemma_all_looked_up_extends(
                t0,
                s0,
                leaves,
                old_results,
                results,
                k as int,
                t_before,
                s_before,
            );
            assert(looked_up(
                t_before,
                s_before,
                leaves[k as int],
                tree_of(tree@),
                mesh.vertices@,
                results[k as int],
            ));
            assert(results.drop_last() =~= old_results);
            assert(tree_of(tree@)[0].len() == t_before[0].len());
        }
        // Drop points that come a second time: two leaves may end at one vertex.
        if !crate::octree::vec_contains(&p, point_index) {
            p.push(point_index);
        }
        k += 1;
    }
    assert(all_looked_up(t0, s0, leaves, results, 4, tree_of(tree@), mesh.vertices@));
    let n = p.len();
    if n < 3 {
        return ;
    }
    proof {
        lemma_dedup_short(results);
    }
    assert(g.contains_key(key_of(p0)));
    let key: Corner = (edge_index.index[0], edge_index.index[1], edge_index.index[2]);
    let negative = *grid.get(&key).unwrap() < 0;
    let ghost q = if negative {
        p@.reverse()
    } else {
        p@
    };
    let (a, b, c) = if negative {
        (p[n - 1], p[n - 2], p[n - 3])
    } else {
        (p[0], p[1], p[2])
    };
    assert(a == q[0] && b == q[1] && c == q[2]);
    let first = triangle(a, b, c);
    mesh.faces.push(first);
    if n == 4 {
        let (d, e) = if negative {
            (p[0], p[3])
        } else {
            (p[3], p[0])
        };
        assert(d == q[3] && e == q[0]);
        let second = triangle(c, d, e);
        mesh.faces.push(second);
    }
    proof {
        let added = quad_faces(dedup(results), g[key_of(p0)] < 0);
        let f1 = mesh.faces@;
        assert forall|j: int| 0 <= j < added.len() implies face_indices(#[trigger] f1[f0.len() + j])
            == added[j] by {
            assert(face_indices(f1[f0.len() + j]) =~= added[j]);
        }
        assert(faces_ok(f1, mesh.vertices@.len() as int)) by {
            assert forall|i: int| 0 <= i < f1.len() implies {
                let f = face_indices(#[trigger] f1[i]);
                &&& f.len() == 3
                &&& f.no_duplicates()
                &&& forall|j: int| 0 <= j < 3 ==> f[j] < mesh.vertices@.len()
            } by {
                if i < f0.len() {
                    assert(f1[i] == f0[i]);
                    let f = face_indices(f0[i]);
                    assert(f.len() == 3 && f.no_duplicates() && forall|j: int|
                        0 <= j < 3 ==> f[j] < s0.len());
                }
            }
        }
    }
}

/// One more lookup extends a run of lookups.
proof fn lemma_all_looked_up_extends(
    t0: Tree,
    s0: Seq<(usize, usize)>,
    leaves: Seq<int>,
    results: Seq<usize>,
    longer: Seq<usize>,
    k: int,
    tk: Tree,
    sk: Seq<(usize, usize)>,
)
    requires
        0 <= k <= results.len(),
        results.len() <= longer.len(),
        forall|j: int| 0 <= j < results.len() ==> results[j] == longer[j],
        all_looked_up(t0, s0, leaves, results, k, tk, sk),
    ensures
        all_looked_up(t0, s0, leaves, longer, k, tk, sk),
    decreases k,
{
    if k > 0 {
        let (t, s) = choose|t: Tree, s: Seq<(usize, usize)>|
            all_looked_up(t0, s0, leaves, results, k - 1, t, s) && #[trigger] looked_up(
                t,
                s,
                leaves[k - 1],
                tk,
                sk,
                results[k - 1],
            );
        lemma_all_looked_up_extends(t0, s0, leaves, results, longer, k - 1, t, s);
        assert(all_looked_up(t0, s0, leaves, longer, k - 1, t, s) && looked_up(
            t,
            s,
            leaves[k - 1],
            tk,
            sk,
            longer[k - 1],
        ));
    }
}

/// What is left of a list has no more entries than the list.
proof fn lemma_dedup_short(s: Seq<usize>)
    ensures
        dedup(s).len() <= s.len(),
    decreases s.len(),
{
    if s.len() > 0 {
        lemma_dedup_short(s.drop_last());
    }
}

} // verus!
