//! The engine: from the field on the lattice to the topology of the mesh.

use std::collections::BTreeMap;
use vstd::prelude::*;
use crate::edge::EdgeIndex;
use crate::edge_grid::{is_edge_grid, sign_change};
use crate::error::DualContouringError;
use crate::face::{face_indices, Face};
use crate::leaf::{all_edges_ready, is_leaf_layer, vertex_around, VertexKey};
use crate::octree::{is_parent_layer, layer_ok, layer_weight, subsample_octtree};
use crate::quads::{
    compute_quad, faces_ok, mesh_ok, quad_made, quad_ready, MeshTopology,
};
use crate::solve::{
    in_tree, layer_linked, same_but_qef, size_above, solve_qefs, solved_from, tree_linked,
    tree_of, unsolved_below, QefSolver, Tree,
};
use crate::value_grid::{
    coords, hits_zero, opposed, sample_value_grid, with_samples, Corner, LatticeField,
};
use crate::vertex::Vertex;
use crate::vertex_index::{pos, Index};

verus! {

/// Whether `n` is a power of two.
pub open spec fn is_power_of_two(n: int) -> bool
    decreases n,
{
    n == 1 || (n > 1 && n % 2 == 0 && is_power_of_two(n / 2))
}

/// The least power of two that is no less than `x`.
pub fn pow2roundup(x: usize) -> (r: usize)
    requires
        1 <= x <= usize::MAX / 2 + 1,
    ensures
        is_power_of_two(r as int),
        x <= r,
        r < 2 * x,
{
    let mut r: usize = 1;
    while r < x
        invariant
            1 <= r,
            r < 2 * x,
            x <= usize::MAX / 2 + 1,
            is_power_of_two(r as int),
        decreases 2 * x - r,
    {
        r = r * 2;
    }
    r
}

/// The layer `l` with the parents of its vertices taken away.
pub open spec fn without_parents(l: Seq<Vertex>) -> Seq<Vertex> {
    Seq::new(l.len(), |v: int| Vertex { parent: None, ..l[v] })
}

/// Whether `t` is the octree over the leaves of grid `g`, numbered by
/// `map`: its finest layer holds the leaves, every other layer is the
/// layer above the one before it and has fewer vertices, and the top layer
/// cannot be made coarser.
pub open spec fn is_octree(g: Map<Corner, i64>, t: Tree, map: Map<VertexKey, usize>) -> bool {
    &&& t.len() >= 1
    &&& crate::octree::is_coarsest(without_parents(t[t.len() - 1]))
    &&& is_leaf_layer(g, without_parents(t[0]), map)
    &&& forall|layer: int| 0 <= layer < t.len() ==> layer_ok(#[trigger] t[layer])
    &&& forall|layer: int|
        0 <= layer < t.len() - 1 ==> is_parent_layer(
            without_parents(#[trigger] t[layer]),
            t[layer],
            without_parents(t[layer + 1]),
        ) && t[layer + 1].len() < t[layer].len()
}

/// Whether making the quads of the first `k` sign-change edges of `es`,
/// one after the other, takes the octree from `t0` to `tk` and the mesh
/// from the vertices `s0` and faces `f0` to `sk` and `fk`.
pub open spec fn quads_made(
    g: Map<Corner, i64>,
    map: Map<VertexKey, usize>,
    es: Seq<EdgeIndex>,
    k: int,
    t0: Tree,
    s0: Seq<(usize, usize)>,
    f0: Seq<Face>,
    tk: Tree,
    sk: Seq<(usize, usize)>,
    fk: Seq<Face>,
) -> bool
    decreases k,
{
    if k <= 0 {
        tk == t0 && sk == s0 && fk == f0
    } else {
        exists|t: Tree, s: Seq<(usize, usize)>, f: Seq<Face>|
            quads_made(g, map, es, k - 1, t0, s0, f0, t, s, f) && #[trigger] quad_made(
                g,
                map,
                es[k - 1].edge.ord(),
                pos(es[k - 1].index),
                t,
                s,
                f,
                tk,
                sk,
                fk,
            )
    }
}

/// Whether grid `g1` is grid `g0` without the values that have no value of
/// the opposite sign among the 27 corners around their own.
pub open spec fn is_compacted(g0: Map<Corner, i64>, g1: Map<Corner, i64>) -> bool {
    &&& forall|k: Corner| #[trigger]
        g1.contains_key(k) <==> (g0.contains_key(k) && opposed(g0, coords(k)))
    &&& forall|k: Corner| #[trigger] g1.contains_key(k) ==> g1[k] == g0[k]
}

/// The greatest number of leaves whose counters the layers above can add
/// up: a leaf weighs at most 13.
pub const MAX_LEAVES: usize = 165191049;

/// The state of one attempt to build the mesh of a field.
pub struct ManifoldDualContouringImpl {
    /// The number of cells of the lattice along each axis.
    pub dim: [usize; 3],
    /// The greatest number of leaves with which an attempt goes on. No more
    /// than `MAX_LEAVES` are ever allowed.
    pub max_leaves: usize,
    /// The mesh as far as it is built.
    pub mesh: MeshTopology,
    /// The value grid.
    pub value_grid: BTreeMap<Corner, i64>,
    /// The sign-change edges of the value grid.
    pub edge_grid: Vec<EdgeIndex>,
    /// The octree of vertices: `vertex_octtree[0]` holds the leaves, each
    /// further entry the next coarser layer.
    pub vertex_octtree: Vec<Vec<Vertex>>,
    /// The numbers of the leaves in `vertex_octtree[0]`, by their keys.
    pub vertex_index_map: BTreeMap<VertexKey, usize>,
}

impl ManifoldDualContouringImpl {
    /// The largest of the three dimensions.
    pub open spec fn max_dim(&self) -> int {
        let a = self.dim[0] as int;
        let b = self.dim[1] as int;
        let c = self.dim[2] as int;
        if a >= b && a >= c {
            a
        } else if b >= c {
            b
        } else {
            c
        }
    }

    /// Whether the lattice can be sampled: its largest dimension is at
    /// least 2 and its next power of two fits the machine.
    pub open spec fn dims_ok(&self) -> bool {
        2 <= self.max_dim() <= usize::MAX / 2 + 1
    }

    /// Whether nothing has been built yet.
    pub open spec fn is_fresh(&self) -> bool {
        &&& self.mesh.vertices@.len() == 0
        &&& self.mesh.faces@.len() == 0
        &&& self.value_grid@ == Map::<Corner, i64>::empty()
        &&& self.edge_grid@.len() == 0
        &&& self.vertex_octtree@.len() == 0
        &&& self.vertex_index_map@ == Map::<VertexKey, usize>::empty()
    }

    /// The side of the cube of cells that is sampled: the least power of
    /// two that is no less than the largest dimension.
    pub open spec fn is_side(&self, n: int) -> bool {
        is_power_of_two(n) && self.max_dim() <= n < 2 * self.max_dim()
    }

    /// An engine for a lattice of `dim` cells along the three axes.
    pub fn new(dim: [usize; 3]) -> (r: Self)
        ensures
            r.dim == dim,
            r.max_leaves == MAX_LEAVES,
            r.is_fresh(),
    {
        ManifoldDualContouringImpl {
            dim,
            max_leaves: MAX_LEAVES,
            mesh: MeshTopology { vertices: Vec::new(), faces: Vec::new() },
            value_grid: BTreeMap::new(),
            edge_grid: Vec::new(),
            vertex_octtree: Vec::new(),
            vertex_index_map: BTreeMap::new(),
        }
    }

    /// Drops all that has been built, for another attempt.
    pub fn reset(&mut self)
        ensures
            final(self).dim == old(self).dim,
            final(self).max_leaves == old(self).max_leaves,
            final(self).is_fresh(),
    {
        self.value_grid.clear();
        self.mesh.vertices.clear();
        self.mesh.faces.clear();
        self.edge_grid.clear();
        self.vertex_octtree.clear();
        self.vertex_index_map.clear();
    }

    /// Samples the field into the value grid, over the cube of cells whose
    /// side is the least power of two that is no less than the largest
    /// dimension. Fails where the field is zero at a sampled corner.
    pub fn tessellation_step1<F: LatticeField>(&mut self, field: &F) -> (r: Option<
        DualContouringError,
    >)
        requires
            old(self).dims_ok(),
        ensures
            final(self).dim == old(self).dim,
            final(self).max_leaves == old(self).max_leaves,
            final(self).mesh == old(self).mesh,
            final(self).edge_grid == old(self).edge_grid,
            final(self).vertex_octtree == old(self).vertex_octtree,
            final(self).vertex_index_map == old(self).vertex_index_map,
            forall|n: int|
                old(self).is_side(n) ==> ((r is None <==> !hits_zero(field, (0, 0, 0), n)) && (r is None
                    ==> final(self).value_grid@ == with_samples(
                    field,
                    old(self).value_grid@,
                    (0, 0, 0),
                    n,
                ))),
            forall|n: int|
                old(self).is_side(n) ==> (r matches Some(e) ==> e matches DualContouringError::HitZero(
                    z,
                ) && Some(pos(z)) == crate::value_grid::first_zero(field, (0, 0, 0), n)),
            r matches Some(e) ==> e matches DualContouringError::HitZero(z) && field.value_at(pos(z))
                == 0,
    {
        let a = self.dim[0];
        let b = self.dim[1];
        let c = self.dim[2];
        let maxdim = if a >= b && a >= c {
            a
        } else if b >= c {
            b
        } else {
            c
        };
        let origin: Index = [0, 0, 0];
        let origin_value = field.value(origin);
        let size = pow2roundup(maxdim);
        proof {
            assert forall|n: int| old(self).is_side(n) implies n == size by {
                lemma_power_of_two_between(maxdim as int, n, size as int);
            }
        }
        sample_value_grid(&mut self.value_grid, field, origin, size, origin_value)
    }

    /// Drops from the value grid every value that has no value of the
    /// opposite sign among the 27 corners around its own.
    pub fn compact_value_grid(&mut self)
        ensures
            is_compacted(old(self).value_grid@, final(self).value_grid@),
            final(self).dim == old(self).dim,
            final(self).max_leaves == old(self).max_leaves,
            final(self).mesh == old(self).mesh,
            final(self).edge_grid == old(self).edge_grid,
            final(self).vertex_octtree == old(self).vertex_octtree,
            final(self).vertex_index_map == old(self).vertex_index_map,
    {
        crate::value_grid::compact_value_grid(&mut self.value_grid);
    }

    /// Stores in the edge grid the lattice edges along which the values of
    /// the value grid change sign.
    pub fn generate_edge_grid(&mut self)
        ensures
            is_edge_grid(final(self).value_grid@, final(self).edge_grid@),
            final(self).value_grid == old(self).value_grid,
            final(self).dim == old(self).dim,
            final(self).max_leaves == old(self).max_leaves,
            final(self).mesh == old(self).mesh,
            final(self).vertex_octtree == old(self).vertex_octtree,
            final(self).vertex_index_map == old(self).vertex_index_map,
    {
        self.edge_grid = crate::edge_grid::generate_edge_grid(&self.value_grid);
    }

    /// The leaves of the octree for the edge grid, and the map that numbers
    /// them by their keys. Fails if a cell around a sign-change edge is not
    /// ready.
    pub fn generate_leaf_vertices(&self) -> (r: Result<
        (Vec<Vertex>, BTreeMap<VertexKey, usize>),
        DualContouringError,
    >)
        requires
            is_edge_grid(self.value_grid@, self.edge_grid@),
        ensures
            r is Ok <==> all_edges_ready(self.value_grid@, self.edge_grid@),
            r matches Ok(out) ==> {
                &&& is_leaf_layer(self.value_grid@, out.0@, out.1@)
                &&& layer_ok(out.0@)
                &&& layer_weight(out.0@) <= 13 * out.0@.len()
            },
            r matches Err(e) ==> e is MissingValue && crate::leaf::reports_first_unready(
                self.value_grid@,
                self.edge_grid@,
                e,
            ),
    {
        crate::leaf::generate_leaf_vertices(&self.value_grid, &self.edge_grid)
    }

    /// Solves the quadratic error functions of the octree from the top
    /// layer down, below the top only those of the children of a vertex
    /// whose residual exceeds the tolerance in size. Returns the number of
    /// functions solved.
    pub fn solve_qefs<Q: QefSolver>(&mut self, solver: &mut Q) -> (num_solved: usize)
        requires
            tree_linked(tree_of(old(self).vertex_octtree@)),
            unsolved_below(
                tree_of(old(self).vertex_octtree@),
                old(self).vertex_octtree@.len() as int,
            ),
            size_above(tree_of(old(self).vertex_octtree@), 0) <= usize::MAX,
        ensures
            same_but_qef(
                tree_of(old(self).vertex_octtree@),
                tree_of(final(self).vertex_octtree@),
            ),
            solved_from(tree_of(final(self).vertex_octtree@), 0),
            num_solved == crate::solve::solved_above(tree_of(final(self).vertex_octtree@), 0),
            final(self).value_grid == old(self).value_grid,
            final(self).dim == old(self).dim,
            final(self).max_leaves == old(self).max_leaves,
            final(self).mesh == old(self).mesh,
            final(self).edge_grid == old(self).edge_grid,
            final(self).vertex_index_map == old(self).vertex_index_map,
    {
        solve_qefs(&mut self.vertex_octtree, solver)
    }

    /// Makes the quad of the sign-change edge `edge_index` and adds its
    /// triangles to the mesh.
    pub fn compute_quad<Q: QefSolver>(&mut self, solver: &mut Q, edge_index: EdgeIndex)
        requires
            edge_index.is_base(),
            quad_ready(
                old(self).value_grid@,
                old(self).vertex_index_map@,
                tree_of(old(self).vertex_octtree@),
                edge_index.edge.ord(),
                pos(edge_index.index),
            ),
            tree_linked(tree_of(old(self).vertex_octtree@)),
            mesh_ok(tree_of(old(self).vertex_octtree@), old(self).mesh.vertices@),
            faces_ok(old(self).mesh.faces@, old(self).mesh.vertices@.len() as int),
        ensures
            quad_made(
                old(self).value_grid@,
                old(self).vertex_index_map@,
                edge_index.edge.ord(),
                pos(edge_index.index),
                tree_of(old(self).vertex_octtree@),
                old(self).mesh.vertices@,
                old(self).mesh.faces@,
                tree_of(final(self).vertex_octtree@),
                final(self).mesh.vertices@,
                final(self).mesh.faces@,
            ),
            tree_linked(tree_of(final(self).vertex_octtree@)),
            mesh_ok(tree_of(final(self).vertex_octtree@), final(self).mesh.vertices@),
            faces_ok(final(self).mesh.faces@, final(self).mesh.vertices@.len() as int),
            tree_of(final(self).vertex_octtree@).len() == tree_of(old(self).vertex_octtree@).len(),
            tree_of(final(self).vertex_octtree@)[0].len() == tree_of(
                old(self).vertex_octtree@,
            )[0].len(),
            final(self).value_grid == old(self).value_grid,
            final(self).dim == old(self).dim,
            final(self).max_leaves == old(self).max_leaves,
            final(self).edge_grid == old(self).edge_grid,
            final(self).vertex_index_map == old(self).vertex_index_map,
    {
        compute_quad(
            &self.value_grid,
            &self.vertex_index_map,
            &mut self.vertex_octtree,
            &mut self.mesh,
            solver,
            edge_index,
        );
    }
}

/// There is one power of two from `x` up to, but not including, `2 * x`.
pub proof fn lemma_power_of_two_between(x: int, a: int, b: int)
    requires
        1 <= x,
        is_power_of_two(a),
        is_power_of_two(b),
        x <= a < 2 * x,
        x <= b < 2 * x,
    ensures
        a == b,
    decreases x,
{
    if a == 1 || b == 1 {
    } else {
        lemma_power_of_two_between((x + 1) / 2, a / 2, b / 2);
    }
}

/// Whether `t` is an octree over the leaves of `g` that has not been
/// solved: no vertex is solved or in the mesh.
pub open spec fn is_fresh_octree(g: Map<Corner, i64>, t: Tree, map: Map<VertexKey, usize>) -> bool {
    &&& is_octree(g, t, map)
    &&& forall|layer: int, v: int| #[trigger]
        in_tree(t, layer, v) ==> t[layer][v].qef == crate::vertex::QefState::Unsolved
            && t[layer][v].mesh_index is None
}

/// Whether the engine `e` holds what became of the field `field`, sampled
/// over a cube of `n` cells a side, and `mesh` is a copy of its mesh: the
/// value grid holds the compacted samples and the edge grid its sign-change
/// edges; an octree over its dual vertices was built and solved from the
/// top down; and the quads of all sign-change edges were made one after the
/// other, which left the octree and the mesh as `e` holds them.
pub open spec fn tessellated<F: LatticeField>(
    field: &F,
    n: int,
    e: ManifoldDualContouringImpl,
    mesh: MeshTopology,
) -> bool {
    let g = e.value_grid@;
    let es = e.edge_grid@;
    let map = e.vertex_index_map@;
    let t = tree_of(e.vertex_octtree@);
    &&& is_compacted(with_samples(field, Map::<Corner, i64>::empty(), (0, 0, 0), n), g)
    &&& is_edge_grid(g, es)
    &&& all_edges_ready(g, es)
    &&& exists|built: Tree, solved: Tree|
        is_fresh_octree(g, built, map) && #[trigger] same_but_qef(built, solved) && solved_from(
            solved,
            0,
        ) && quads_made(
            g,
            map,
            es,
            es.len() as int,
            solved,
            Seq::<(usize, usize)>::empty(),
            Seq::<Face>::empty(),
            t,
            e.mesh.vertices@,
            e.mesh.faces@,
        )
    &&& mesh_ok(t, e.mesh.vertices@)
    &&& faces_ok(e.mesh.faces@, e.mesh.vertices@.len() as int)
    &&& same_topology(e.mesh, mesh)
}

/// Whether two meshes have the same vertices and the same faces.
pub open spec fn same_topology(a: MeshTopology, b: MeshTopology) -> bool {
    &&& a.vertices@ == b.vertices@
    &&& a.faces@.len() == b.faces@.len()
    &&& forall|i: int|
        0 <= i < a.faces@.len() ==> face_indices(#[trigger] b.faces@[i]) == face_indices(a.faces@[i])
}

impl MeshTopology {
    /// A copy of the mesh.
    pub fn clone_topology(&self) -> (r: MeshTopology)
        ensures
            same_topology(*self, r),
    {
        let mut vertices: Vec<(usize, usize)> = Vec::new();
        let mut i: usize = 0;
        while i < self.vertices.len()
            invariant
                i <= self.vertices@.len(),
                vertices@ == self.vertices@.subrange(0, i as int),
            decreases self.vertices@.len() - i,
        {
            vertices.push(self.vertices[i]);
            assert(vertices@ =~= self.vertices@.subrange(0, i + 1));
            i += 1;
        }
        assert(self.vertices@.subrange(0, i as int) =~= self.vertices@);
        let mut faces: Vec<Face> = Vec::new();
        let mut j: usize = 0;
        while j < self.faces.len()
            invariant
                j <= self.faces@.len(),
                faces@.len() == j,
                forall|k: int|
                    0 <= k < j ==> face_indices(#[trigger] faces@[k]) == face_indices(self.faces@[k]),
            decreases self.faces@.len() - j,
        {
            faces.push(self.faces[j].clone());
            j += 1;
        }
        MeshTopology { vertices, faces }
    }
}

/// A layer whose parents have been set has the links it had.
proof fn lemma_layer_ok_kept(l0: Seq<Vertex>, l1: Seq<Vertex>)
    requires
        crate::octree::same_but_parents(l0, l1),
        layer_ok(l0),
    ensures
        layer_ok(l1),
{
    crate::octree::lemma_same_links(l0, l1);
    assert forall|u: int, face: int, v: int| #[trigger]
        crate::octree::lists(l1, u, face, v) && 0 <= v < l1.len() implies pos(l1[v].index)
        == crate::vertex_index::face_step(pos(l1[u].index), face) by {
        assert(crate::octree::lists(l0, u, face, v));
        assert(l1[v].index == l0[v].index);
        assert(l1[u].index == l0[u].index);
    }
    assert forall|u: int, face: int, v: int| #[trigger]
        crate::octree::lists(l1, u, face, v) implies crate::octree::lists(
        l1,
        v,
        crate::vertex_index::opposite(face),
        u,
    ) by {
        assert(crate::octree::lists(l0, u, face, v));
        assert(crate::octree::lists(l0, v, crate::vertex_index::opposite(face), u));
    }
}

/// A layer without parents is itself without parents; and a layer that
/// differs from it in parents alone is it, without parents.
proof fn lemma_without_parents(l0: Seq<Vertex>, l1: Seq<Vertex>)
    requires
        crate::octree::same_but_parents(l0, l1),
        forall|v: int| 0 <= v < l0.len() ==> (#[trigger] l0[v]).parent is None,
    ensures
        without_parents(l1) == l0,
        without_parents(l0) == l0,
{
    assert(without_parents(l1) =~= l0);
    assert(without_parents(l0) =~= l0);
}

/// The layer above a layer is linked to it, also after its own parents have
/// been set.
proof fn lemma_parent_layer_linked(l0: Seq<Vertex>, l1: Seq<Vertex>, r0: Seq<Vertex>, r1: Seq<Vertex>)
    requires
        is_parent_layer(l0, l1, r0),
        crate::octree::same_but_parents(r0, r1),
    ensures
        layer_linked(l1, r1),
{
    assert forall|p: int, k: int| 0 <= p < r1.len() && 0 <= k < r1[p].children@.len() implies (
    #[trigger] r1[p].children@[k]) < l1.len() && l1[r1[p].children@[k] as int].parent == Some(
        p as usize,
    ) by {
        assert(r1[p].children == r0[p].children);
        assert(r0[p].children@[k] < l1.len());
    }
    assert forall|v: usize| v < l1.len() implies ((#[trigger] l1[v as int].parent) matches Some(
        q,
    ) ==> q < r1.len() && r1[q as int].children@.contains(v)) by {
        if l1[v as int].parent is Some {
            let q = l1[v as int].parent->0;
            assert(r0[q as int].children@.contains(v));
            assert(r1[q as int].children == r0[q as int].children);
        }
    }
    assert forall|p: int| 0 <= p < r1.len() implies (#[trigger] r1[p]).children@.no_duplicates() by {
        assert(r1[p].children == r0[p].children);
        assert(summarizes_children(l0, r0, p));
    }
}

/// Whether vertex `p` of `r` lists its children once each.
pub open spec fn summarizes_children(l0: Seq<Vertex>, r: Seq<Vertex>, p: int) -> bool {
    crate::octree::summarizes(l0, r[p].children@, r[p]) && r[p].children@.no_duplicates()
}

/// Whether no vertex of the layer is solved or in the mesh.
pub open spec fn layer_unsolved(l: Seq<Vertex>) -> bool {
    forall|v: int|
        0 <= v < l.len() ==> (#[trigger] l[v]).qef == crate::vertex::QefState::Unsolved
            && l[v].mesh_index is None
}

/// Whether `t` is the octree grown over the layer `leafs`, unsolved: its
/// layers are made one from the other, and its top layer cannot be made
/// coarser.
pub open spec fn grown(leafs: Seq<Vertex>, t: Tree) -> bool {
    &&& growing(leafs, t)
    &&& crate::octree::is_coarsest(without_parents(t[t.len() - 1]))
}

/// Whether `t` is an octree over the layer `leafs`, unsolved, that may
/// grow further.
pub open spec fn growing(leafs: Seq<Vertex>, t: Tree) -> bool {
    &&& t.len() >= 1
    &&& without_parents(t[0]) == leafs
    &&& forall|layer: int| 0 <= layer < t.len() ==> layer_ok(#[trigger] t[layer])
    &&& forall|layer: int| 0 <= layer < t.len() ==> layer_unsolved(#[trigger] t[layer])
    &&& forall|layer: int|
        0 <= layer < t.len() - 1 ==> is_parent_layer(
            without_parents(#[trigger] t[layer]),
            t[layer],
            without_parents(t[layer + 1]),
        ) && t[layer + 1].len() < t[layer].len()
}

/// An octree that has been grown is linked.
proof fn lemma_grown_linked(leafs: Seq<Vertex>, t: Tree)
    requires
        growing(leafs, t),
    ensures
        tree_linked(t),
        unsolved_below(t, t.len() as int),
{
    assert forall|layer: int| 0 <= layer < t.len() - 1 implies layer_linked(
        #[trigger] t[layer],
        t[layer + 1],
    ) by {
        let r0 = without_parents(t[layer + 1]);
        assert(crate::octree::same_but_parents(r0, t[layer + 1])) by {
            assert forall|v: int| 0 <= v < r0.len() implies #[trigger] t[layer + 1][v] == (Vertex {
                parent: t[layer + 1][v].parent,
                ..r0[v]
            }) by {}
        }
        lemma_parent_layer_linked(without_parents(t[layer]), t[layer], r0, t[layer + 1]);
    }
    assert forall|layer: int, v: int| layer < t.len() && #[trigger] in_tree(t, layer, v) implies !t[layer][v].qef.solved() by {
        assert(layer_unsolved(t[layer]));
    }
}

/// What the octree `t0` grown over `leafs` becomes when the layer above
/// its top layer has been made, which sets the parents of the top layer.
proof fn lemma_grown_top_claimed(
    leafs: Seq<Vertex>,
    t0: Tree,
    t1: Tree,
    l0: Seq<Vertex>,
    l1: Seq<Vertex>,
)
    requires
        growing(leafs, t0),
        t1.len() == t0.len(),
        l0 == t0[t0.len() - 1],
        l1 == t1[t1.len() - 1],
        forall|layer: int| 0 <= layer < t0.len() - 1 ==> #[trigger] t1[layer] == t0[layer],
        crate::octree::same_but_parents(l0, l1),
        forall|v: int| 0 <= v < l0.len() ==> (#[trigger] l0[v]).parent is None,
    ensures
        growing(leafs, t1),
        without_parents(l1) == l0,
        size_above(t1, 0) == size_above(t0, 0),
{
    let n = t0.len() as int;
    lemma_without_parents(l0, l1);
    lemma_layer_ok_kept(l0, l1);
    assert forall|layer: int| 0 <= layer < t1.len() implies layer_ok(#[trigger] t1[layer]) by {
        if layer < n - 1 {
            assert(layer_ok(t0[layer]));
        }
    }
    assert forall|layer: int| 0 <= layer < t1.len() implies layer_unsolved(#[trigger] t1[layer]) by {
        assert(layer_unsolved(t0[layer]));
        if layer == n - 1 {
            assert forall|v: int| 0 <= v < l1.len() implies (#[trigger] l1[v]).qef
                == crate::vertex::QefState::Unsolved && l1[v].mesh_index is None by {
                assert(l1[v] == (Vertex { parent: l1[v].parent, ..l0[v] }));
            }
        }
    }
    assert forall|layer: int| 0 <= layer < t1.len() - 1 implies is_parent_layer(
        without_parents(#[trigger] t1[layer]),
        t1[layer],
        without_parents(t1[layer + 1]),
    ) && t1[layer + 1].len() < t1[layer].len() by {
        assert(is_parent_layer(
            without_parents(t0[layer]),
            t0[layer],
            without_parents(t0[layer + 1]),
        ) && t0[layer + 1].len() < t0[layer].len());
        if layer + 1 == n - 1 {
            assert(without_parents(t1[layer + 1]) == without_parents(t0[layer + 1]));
        } else {
            assert(t1[layer + 1] == t0[layer + 1]);
        }
    }
    if n == 1 {
        assert(without_parents(t1[0]) == leafs);
    } else {
        assert(t1[0] == t0[0]);
    }
    lemma_size_same_tail(t0, t1, 0);
}

/// What the octree `t1` grown over `leafs` becomes when the layer `r`
/// above its top layer is added to it.
proof fn lemma_grown_pushed(leafs: Seq<Vertex>, t1: Tree, t2: Tree, l0: Seq<Vertex>, r: Seq<Vertex>)
    requires
        growing(leafs, t1),
        t2.len() == t1.len() + 1,
        forall|layer: int| 0 <= layer < t1.len() ==> #[trigger] t2[layer] == t1[layer],
        t2[t1.len() as int] == r,
        without_parents(t1[t1.len() - 1]) == l0,
        is_parent_layer(l0, t1[t1.len() - 1], r),
        layer_ok(r),
        forall|p: int| 0 <= p < r.len() ==> (#[trigger] r[p]).parent is None,
        r.len() < t1[t1.len() - 1].len(),
    ensures
        growing(leafs, t2),
        size_above(t2, 0) == size_above(t1, 0) + r.len(),
{
    let n = t1.len() as int;
    lemma_without_parents(r, r);
    assert forall|layer: int| 0 <= layer < t2.len() implies layer_ok(#[trigger] t2[layer]) by {
        if layer < n {
            assert(layer_ok(t1[layer]));
        }
    }
    assert forall|layer: int| 0 <= layer < t2.len() implies layer_unsolved(#[trigger] t2[layer]) by {
        if layer < n {
            assert(layer_unsolved(t1[layer]));
        } else {
            assert forall|v: int| 0 <= v < r.len() implies (#[trigger] r[v]).qef
                == crate::vertex::QefState::Unsolved && r[v].mesh_index is None by {
                assert(crate::octree::summarizes(l0, r[v].children@, r[v]));
            }
        }
    }
    assert forall|layer: int| 0 <= layer < t2.len() - 1 implies is_parent_layer(
        without_parents(#[trigger] t2[layer]),
        t2[layer],
        without_parents(t2[layer + 1]),
    ) && t2[layer + 1].len() < t2[layer].len() by {
        if layer < n - 1 {
            assert(is_parent_layer(
                without_parents(t1[layer]),
                t1[layer],
                without_parents(t1[layer + 1]),
            ) && t1[layer + 1].len() < t1[layer].len());
            assert(t2[layer + 1] == t1[layer + 1]);
        }
    }
    assert(t2[0] == t1[0]);
    lemma_size_push(t1, t2);
}

/// Twice the number of pairs among `n` things.
#[verifier::opaque]
pub open spec fn pairs(n: int) -> int {
    n * (n - 1)
}

/// Layers that shrink from each to the next have fewer vertices together
/// than half the square of the first: what one more adds.
proof fn lemma_shrinking_sum(total: int, len: int, more: int, leaves: int)
    requires
        0 <= more < len,
        2 * total + pairs(len) <= pairs(leaves + 1),
    ensures
        2 * (total + more) + pairs(more) <= pairs(leaves + 1),
        0 <= pairs(more),
        pairs(leaves + 1) == leaves * (leaves + 1),
{
    reveal(pairs);
    assert(2 * (total + more) + more * (more - 1) <= (leaves + 1) * (leaves + 1 - 1)) by (nonlinear_arith)
        requires
            0 <= more < len,
            2 * total + len * (len - 1) <= (leaves + 1) * (leaves + 1 - 1),
    ;
    if more > 0 {
        assert(0 <= more * (more - 1)) by (nonlinear_arith)
            requires
                1 <= more,
        ;
    } else {
        assert(more * (more - 1) == 0) by (nonlinear_arith)
            requires
                more == 0,
        ;
    }
    assert((leaves + 1) * (leaves + 1 - 1) == leaves * (leaves + 1)) by (nonlinear_arith);
}

/// One layer has no more vertices than half the square of its number.
proof fn lemma_first_sum(leaves: int)
    ensures
        2 * leaves + pairs(leaves) <= pairs(leaves + 1),
{
    reveal(pairs);
    assert(2 * leaves + leaves * (leaves - 1) <= (leaves + 1) * (leaves + 1 - 1)) by (nonlinear_arith);
}

/// The octree over the layer `leafs`: layer upon layer, each made from the
/// one before it, until a layer has as many vertices as the one before it;
/// that last one is not kept. Fails if the vertices of all layers together
/// are more than the machine can count.
pub fn grow_octree(leafs: Vec<Vertex>) -> (r: Result<Vec<Vec<Vertex>>, DualContouringError>)
    requires
        layer_ok(leafs@),
        layer_unsolved(leafs@),
        forall|v: int| 0 <= v < leafs@.len() ==> (#[trigger] leafs@[v]).parent is None,
        layer_weight(leafs@) <= i32::MAX,
    ensures
        r matches Ok(tree) ==> grown(leafs@, tree_of(tree@)) && size_above(tree_of(tree@), 0)
            <= usize::MAX,
        r matches Err(e) ==> e matches DualContouringError::TooManyVertices(n) && n[0]
            == leafs@.len() && 2 * usize::MAX < pairs(leafs@.len() as int + 1),
{
    let ghost l_gen = leafs@;
    let leaves = leafs.len();
    let mut total: usize = leaves;
    let mut top_len: usize = leaves;
    let mut tree: Vec<Vec<Vertex>> = Vec::new();
    tree.push(leafs);
    proof {
        lemma_without_parents(l_gen, l_gen);
        let t = tree_of(tree@);
        assert(t[0] == l_gen);
        assert(size_above(t, 1) == 0);
        assert(size_above(t, 0) == leaves);
        lemma_first_sum(leaves as int);
    }
    loop
        invariant_except_break
            tree@.len() >= 1,
            l_gen == leafs@,
            leaves == l_gen.len(),
            growing(l_gen, tree_of(tree@)),
            top_len == tree_of(tree@)[tree@.len() - 1].len(),
            forall|v: int|
                0 <= v < tree_of(tree@)[tree@.len() - 1].len() ==> (
                #[trigger] tree_of(tree@)[tree@.len() - 1][v]).parent is None,
            layer_weight(tree_of(tree@)[tree@.len() - 1]) <= i32::MAX,
            total == size_above(tree_of(tree@), 0),
            2 * total + pairs(top_len as int) <= pairs(leaves + 1),
        ensures
            grown(l_gen, tree_of(tree@)),
            size_above(tree_of(tree@), 0) <= usize::MAX,
        decreases top_len,
    {
        let ghost t0 = tree_of(tree@);
        let ghost n = tree@.len() as int;
        let mut top = tree.pop().unwrap();
        let ghost l0 = top@;
        assert(l0 == t0[n - 1]);
        assert(layer_ok(t0[n - 1]));
        let next = subsample_octtree(&mut top);
        let ghost l1 = top@;
        let ghost r = next@;
        let more = next.len();
        let same = more == top.len();
        tree.push(top);
        let ghost t1 = tree_of(tree@);
        proof {
            assert(t1.len() == n);
            assert(t1[n - 1] == l1);
            assert forall|layer: int| 0 <= layer < n - 1 implies #[trigger] t1[layer] == t0[layer] by {}
            lemma_grown_top_claimed(l_gen, t0, t1, l0, l1);
        }
        if same {
            proof {
                assert(crate::octree::is_coarsest(without_parents(t1[t1.len() - 1])));
            }
            break ;
        }
        proof {
            lemma_shrinking_sum(total as int, top_len as int, more as int, leaves as int);
        }
        if more > usize::MAX - total {
            return Err(DualContouringError::TooManyVertices([leaves, leaves, leaves]));
        }
        total = total + more;
        top_len = more;
        tree.push(next);
        proof {
            let t2 = tree_of(tree@);
            assert(t2.len() == n + 1);
            assert(t2[n] == r);
            assert forall|layer: int| 0 <= layer < n implies #[trigger] t2[layer] == t1[layer] by {}
            lemma_grown_pushed(l_gen, t1, t2, l0, r);
        }
    }
    Ok(tree)
}

/// Trees whose layers have the same numbers of vertices have the same
/// size.
proof fn lemma_size_same_tail(a: Tree, b: Tree, from: int)
    requires
        a.len() == b.len(),
        0 <= from,
        forall|layer: int| 0 <= layer < a.len() ==> (#[trigger] b[layer]).len() == a[layer].len(),
    ensures
        size_above(a, from) == size_above(b, from),
    decreases a.len() - from,
{
    if from < a.len() {
        lemma_size_same_tail(a, b, from + 1);
        assert(b[from].len() == a[from].len());
    }
}

/// A layer more adds its vertices to the size.
proof fn lemma_size_push(a: Tree, b: Tree)
    requires
        b.len() == a.len() + 1,
        forall|layer: int| 0 <= layer < a.len() ==> #[trigger] b[layer] == a[layer],
    ensures
        size_above(b, 0) == size_above(a, 0) + b[a.len() as int].len(),
{
    lemma_size_push_from(a, b, 0);
}

/// A layer more adds its vertices to the size from any layer upwards.
proof fn lemma_size_push_from(a: Tree, b: Tree, from: int)
    requires
        b.len() == a.len() + 1,
        0 <= from <= a.len(),
        forall|layer: int| 0 <= layer < a.len() ==> #[trigger] b[layer] == a[layer],
    ensures
        size_above(b, from) == size_above(a, from) + b[a.len() as int].len(),
    decreases a.len() - from,
{
    if from < a.len() {
        lemma_size_push_from(a, b, from + 1);
        assert(b[from] == a[from]);
    } else {
        assert(size_above(b, from + 1) == 0);
    }
}

/// The leaves of a grid are unsolved and have no parents.
proof fn lemma_leaves_fresh(g: Map<Corner, i64>, l: Seq<Vertex>, map: Map<VertexKey, usize>)
    requires
        is_leaf_layer(g, l, map),
    ensures
        layer_unsolved(l),
        forall|v: int| 0 <= v < l.len() ==> (#[trigger] l[v]).parent is None,
{
    assert forall|v: int| 0 <= v < l.len() implies (#[trigger] l[v]).parent is None && l[v].qef
        == crate::vertex::QefState::Unsolved && l[v].mesh_index is None by {
        assert(crate::leaf::has_number(map, v));
        let key = choose|key: VertexKey| #[trigger] map.contains_key(key) && map[key] == v;
        assert(crate::leaf::is_leaf(l[map[key] as int], key));
    }
}

/// The quad of every sign-change edge of a grid whose edges are all ready
/// can be made once the leaves are in the octree.
proof fn lemma_quad_ready(
    g: Map<Corner, i64>,
    es: Seq<EdgeIndex>,
    l: Seq<Vertex>,
    map: Map<VertexKey, usize>,
    t: Tree,
    i: int,
)
    requires
        is_edge_grid(g, es),
        all_edges_ready(g, es),
        is_leaf_layer(g, l, map),
        t.len() >= 1,
        t[0].len() == l.len(),
        0 <= i < es.len(),
    ensures
        quad_ready(g, map, t, es[i].edge.ord(), pos(es[i].index)),
        es[i].is_base(),
{
    let axis = es[i].edge.ord();
    let p = pos(es[i].index);
    assert(es[i].is_base());
    assert(sign_change(g, axis, p));
    assert(crate::leaf::edge_ready(g, axis, p));
    assert forall|k: int| 0 <= k < 4 implies map.contains_key(#[trigger] vertex_around(g, axis, p, k))
        && in_tree(t, 0, map[vertex_around(g, axis, p, k)] as int) by {
        assert(crate::leaf::around_ready(g, axis, p, k));
        crate::leaf::lemma_vertex_around(g, axis, p, k);
        let key = vertex_around(g, axis, p, k);
        assert(map.contains_key(key));
        assert(map[key] < l.len());
    }
}

impl ManifoldDualContouringImpl {
    /// Makes the quads of all sign-change edges, in the order of the edge
    /// grid.
    pub fn compute_quads<Q: QefSolver>(&mut self, solver: &mut Q)
        requires
            forall|i: int|
                0 <= i < old(self).edge_grid@.len() ==> (#[trigger] old(self).edge_grid@[i]).is_base()
                    && quad_ready(
                    old(self).value_grid@,
                    old(self).vertex_index_map@,
                    tree_of(old(self).vertex_octtree@),
                    old(self).edge_grid@[i].edge.ord(),
                    pos(old(self).edge_grid@[i].index),
                ),
            tree_linked(tree_of(old(self).vertex_octtree@)),
            mesh_ok(tree_of(old(self).vertex_octtree@), old(self).mesh.vertices@),
            faces_ok(old(self).mesh.faces@, old(self).mesh.vertices@.len() as int),
        ensures
            quads_made(
                old(self).value_grid@,
                old(self).vertex_index_map@,
                old(self).edge_grid@,
                old(self).edge_grid@.len() as int,
                tree_of(old(self).vertex_octtree@),
                old(self).mesh.vertices@,
                old(self).mesh.faces@,
                tree_of(final(self).vertex_octtree@),
                final(self).mesh.vertices@,
                final(self).mesh.faces@,
            ),
            tree_linked(tree_of(final(self).vertex_octtree@)),
            mesh_ok(tree_of(final(self).vertex_octtree@), final(self).mesh.vertices@),
            faces_ok(final(self).mesh.faces@, final(self).mesh.vertices@.len() as int),
            final(self).value_grid == old(self).value_grid,
            final(self).dim == old(self).dim,
            final(self).max_leaves == old(self).max_leaves,
            final(self).edge_grid == old(self).edge_grid,
            final(self).vertex_index_map == old(self).vertex_index_map,
    {
        let ghost g = self.value_grid@;
        let ghost map = self.vertex_index_map@;
        let ghost es = self.edge_grid@;
        let ghost t0 = tree_of(self.vertex_octtree@);
        let ghost s0 = self.mesh.vertices@;
        let ghost f0 = self.mesh.faces@;
        let mut i: usize = 0;
        while i < self.edge_grid.len()
            invariant
                i <= es.len(),
                self.value_grid == old(self).value_grid,
                self.dim == old(self).dim,
                self.max_leaves == old(self).max_leaves,
                self.edge_grid == old(self).edge_grid,
                self.vertex_index_map == old(self).vertex_index_map,
                g == self.value_grid@,
                map == self.vertex_index_map@,
                es == self.edge_grid@,
                forall|j: int|
                    0 <= j < es.len() ==> (#[trigger] es[j]).is_base() && quad_ready(
                        g,
                        map,
                        t0,
                        es[j].edge.ord(),
                        pos(es[j].index),
                    ),
                tree_of(self.vertex_octtree@).len() == t0.len(),
                t0.len() > 0 ==> tree_of(self.vertex_octtree@)[0].len() == t0[0].len(),
                tree_linked(tree_of(self.vertex_octtree@)),
                mesh_ok(tree_of(self.vertex_octtree@), self.mesh.vertices@),
                faces_ok(self.mesh.faces@, self.mesh.vertices@.len() as int),
                quads_made(
                    g,
                    map,
                    es,
                    i as int,
                    t0,
                    s0,
                    f0,
                    tree_of(self.vertex_octtree@),
                    self.mesh.vertices@,
                    self.mesh.faces@,
                ),
            decreases es.len() - i,
        {
            let edge_index = self.edge_grid[i];
            let ghost t = tree_of(self.vertex_octtree@);
            let ghost s = self.mesh.vertices@;
            let ghost f = self.mesh.faces@;
            proof {
                let axis = edge_index.edge.ord();
                let p = pos(edge_index.index);
                assert(es[i as int].is_base() && quad_ready(g, map, t0, axis, p));
                assert forall|k: int| 0 <= k < 4 implies map.contains_key(
                    #[trigger] vertex_around(g, axis, p, k),
                ) && in_tree(t, 0, map[vertex_around(g, axis, p, k)] as int) by {
                    assert(in_tree(t0, 0, map[vertex_around(g, axis, p, k)] as int));
                }
            }
            self.compute_quad(solver, edge_index);
            proof {
                assert(quads_made(g, map, es, i as int, t0, s0, f0, t, s, f) && quad_made(
                    g,
                    map,
                    es[i as int].edge.ord(),
                    pos(es[i as int].index),
                    t,
                    s,
                    f,
                    tree_of(self.vertex_octtree@),
                    self.mesh.vertices@,
                    self.mesh.faces@,
                ));
            }
            i += 1;
        }
    }

    /// One attempt to build the mesh: samples the field, compacts the value
    /// grid, finds the sign-change edges, makes the leaves and grows the
    /// octree over them, solves the quadratic error functions from the top
    /// down and makes the quads of all sign-change edges. Fails where the
    /// field is zero at a sampled corner, where the grid does not cover a
    /// cell around a sign-change edge, and where there are too many
    /// vertices.
    pub fn try_tessellate<F: LatticeField, Q: QefSolver>(&mut self, field: &F, solver: &mut Q) -> (r:
        Result<MeshTopology, DualContouringError>)
        requires
            old(self).dims_ok(),
            old(self).is_fresh(),
        ensures
            final(self).dim == old(self).dim,
            final(self).max_leaves == old(self).max_leaves,
            forall|n: int|
                old(self).is_side(n) ==> {
                    &&& r matches Ok(mesh) ==> tessellated(field, n, *final(self), mesh)
                    &&& (r matches Err(e) && e is HitZero) <==> hits_zero(field, (0, 0, 0), n)
                    &&& !hits_zero(field, (0, 0, 0), n) ==> is_compacted(
                        with_samples(field, Map::<Corner, i64>::empty(), (0, 0, 0), n),
                        final(self).value_grid@,
                    ) && is_edge_grid(final(self).value_grid@, final(self).edge_grid@)
                },
            (r matches Err(e) && e is MissingValue) <==> (!(r matches Err(e) && e is HitZero)
                && !all_edges_ready(final(self).value_grid@, final(self).edge_grid@)),
            r matches Err(e) ==> (e is MissingValue ==> crate::leaf::reports_first_unready(
                final(self).value_grid@,
                final(self).edge_grid@,
                e,
            )),
            r is Ok ==> crate::leaf::dual_vertices(final(self).value_grid@).len() <= MAX_LEAVES
                && crate::leaf::dual_vertices(final(self).value_grid@).len() <= old(self).max_leaves,
            r matches Err(e) ==> (e matches DualContouringError::TooManyVertices(n) ==> n[0]
                == crate::leaf::dual_vertices(final(self).value_grid@).len() && (n[0] > MAX_LEAVES
                || n[0] > old(self).max_leaves || 2
                * usize::MAX < pairs(n[0] as int + 1))),
            forall|n: int|
                old(self).is_side(n) ==> (r matches Err(e) ==> (e matches DualContouringError::HitZero(
                    z,
                ) ==> Some(pos(z)) == crate::value_grid::first_zero(field, (0, 0, 0), n))),
            r matches Err(e) ==> (e matches DualContouringError::HitZero(z) ==> field.value_at(pos(z))
                == 0),
    {
        match self.tessellation_step1(field) {
            Some(e) => {
                return Err(e);
            },
            None => {},
        }
        self.compact_value_grid();
        self.generate_edge_grid();
        let ghost g = self.value_grid@;
        let ghost es = self.edge_grid@;
        let (leafs, index_map) = match self.generate_leaf_vertices() {
            Ok(out) => out,
            Err(e) => {
                return Err(e);
            },
        };
        let ghost l_gen = leafs@;
        let ghost map = index_map@;
        let leaves = leafs.len();
        if leaves > MAX_LEAVES || leaves > self.max_leaves {
            return Err(DualContouringError::TooManyVertices([leaves, leaves, leaves]));
        }
        proof {
            lemma_leaves_fresh(g, l_gen, map);
        }
        self.vertex_index_map = index_map;
        let tree = match grow_octree(leafs) {
            Ok(t) => t,
            Err(e) => {
                return Err(e);
            },
        };
        self.vertex_octtree = tree;
        let ghost built = tree_of(self.vertex_octtree@);
        proof {
            assert(growing(l_gen, built));
            lemma_grown_linked(l_gen, built);
            assert(is_fresh_octree(g, built, map)) by {
                assert forall|layer: int, v: int| #[trigger] in_tree(built, layer, v) implies built[layer][v].qef
                    == crate::vertex::QefState::Unsolved && built[layer][v].mesh_index is None by {
                    assert(layer_unsolved(built[layer]));
                }
            }
        }
        let _ = self.solve_qefs(solver);
        let ghost solved = tree_of(self.vertex_octtree@);
        proof {
            assert(solved[0].len() == built[0].len());
            assert(built[0].len() == l_gen.len()) by {
                assert(without_parents(built[0]).len() == built[0].len());
            }
            assert forall|layer: int, w: int| #[trigger] in_tree(built, layer, w) implies solved[layer][w].parent
                == built[layer][w].parent && solved[layer][w].children == built[layer][w].children by {}
            crate::quads::lemma_links_kept(built, solved);
            assert(mesh_ok(solved, self.mesh.vertices@)) by {
                assert forall|layer: int, v: int| #[trigger] in_tree(solved, layer, v) implies (
                solved[layer][v].mesh_index matches Some(m) ==> m < self.mesh.vertices@.len()
                    && self.mesh.vertices@[m as int] == (layer as usize, v as usize)) by {
                    assert(in_tree(built, layer, v));
                    assert(solved[layer][v].mesh_index == built[layer][v].mesh_index);
                }
            }
            assert forall|i: int| 0 <= i < es.len() implies (#[trigger] es[i]).is_base() && quad_ready(
                g,
                map,
                solved,
                es[i].edge.ord(),
                pos(es[i].index),
            ) by {
                lemma_quad_ready(g, es, l_gen, map, solved, i);
            }
        }
        proof {
            assert(self.mesh.vertices@ =~= Seq::<(usize, usize)>::empty());
            assert(self.mesh.faces@ =~= Seq::<Face>::empty());
        }
        self.compute_quads(solver);
        let mesh = self.mesh.clone_topology();
        proof {
            let t = tree_of(self.vertex_octtree@);
            assert(same_but_qef(built, solved));
            assert(is_fresh_octree(g, built, map));
            assert(solved_from(solved, 0));
            assert(quads_made(
                g,
                map,
                es,
                es.len() as int,
                solved,
                Seq::<(usize, usize)>::empty(),
                Seq::<Face>::empty(),
                t,
                self.mesh.vertices@,
                self.mesh.faces@,
            ));
            assert(is_edge_grid(g, es));
            assert(all_edges_ready(g, es));
            assert(same_topology(self.mesh, mesh));
            assert forall|n: int| old(self).is_side(n) implies tessellated(field, n, *self, mesh) by {
                assert(is_compacted(
                    with_samples(field, Map::<Corner, i64>::empty(), (0, 0, 0), n),
                    g,
                ));
            }
        }
        Ok(mesh)
    }
}

} // verus!
