//! The finest layer of the octree: one dual vertex for every component of
//! sign-change edges in every cell around a sign-change edge.

use std::collections::BTreeMap;
use vstd::prelude::*;
use crate::bitset::BitSet;
use crate::cell_configs::{
    component_of,
    crossing,
    get_connected_edges,
    get_connected_edges_from_edge_set,
    holds_component,
    is_component,
};
use crate::edge::{edge_axis, edge_offset, minus, plus, quad, quad_edge, EdgeIndex};
use crate::edge_grid::{
    bitset_for_cell,
    cell_covered,
    is_edge_grid,
    lists_edge,
    pattern_of,
    sign_change,
};
use crate::error::DualContouringError;
use crate::value_grid::{in_lattice, Corner};
use crate::vertex::{QefState, Vertex};
use crate::vertex_index::{
    face_step,
    lemma_mirror,
    mirror,
    on_face,
    opposite,
    pos,
    Index,
    VertexIndex,
};

verus! {

/// The name of a dual vertex as a key: the coordinates of its cell and the
/// word that holds its set of edges.
pub type VertexKey = (usize, usize, usize, u32);

/// The key of a vertex name.
pub fn vertex_key(v: &VertexIndex) -> (r: VertexKey)
    ensures
        r == key_for(*v),
{
    (v.index[0], v.index[1], v.index[2], v.edges.0)
}

/// The key of a vertex name.
pub open spec fn key_for(v: VertexIndex) -> VertexKey {
    (v.index[0], v.index[1], v.index[2], v.edges.0)
}

/// The coordinates of the cell of the vertex with key `k`.
pub open spec fn key_cell(k: VertexKey) -> (int, int, int) {
    (k.0 as int, k.1 as int, k.2 as int)
}

/// The edges of the vertex with key `k`.
pub open spec fn key_edges(k: VertexKey) -> BitSet {
    BitSet(k.3)
}

/// The cell in which the lattice edge that starts at `p` and runs along
/// `axis` bears the number `quad_edge(axis, k)`.
pub open spec fn cell_around(axis: int, p: (int, int, int), k: int) -> (int, int, int) {
    minus(p, edge_offset(quad_edge(axis, k)))
}

/// Whether the vertex with key `key` is a dual vertex of grid `g`: its cell
/// has a value at every corner, and its edges are a component of the sign
/// pattern of the cell.
pub open spec fn is_dual_vertex(g: Map<Corner, i64>, key: VertexKey) -> bool {
    &&& cell_covered(g, key_cell(key))
    &&& is_component(pattern_of(g, key_cell(key)), key_edges(key))
}

/// Whether the dual vertices with keys `a` and `b` are neighbors across
/// `face` of the cell of `a`: the cell of `b` lies across that face and
/// they have a lattice edge of the face in common.
pub open spec fn neighbors_across(a: VertexKey, face: int, b: VertexKey) -> bool {
    &&& 0 <= face < 6
    &&& key_cell(b) == face_step(key_cell(a), face)
    &&& exists|e: int| #[trigger]
        key_edges(b).has(e) && on_face(opposite(face), e) && key_edges(a).has(mirror(e, face / 2))
}

/// Being neighbors is symmetric.
pub proof fn lemma_neighbors_symmetric(a: VertexKey, face: int, b: VertexKey)
    requires
        neighbors_across(a, face, b),
    ensures
        neighbors_across(b, opposite(face), a),
{
    let e = choose|e: int| #[trigger]
        key_edges(b).has(e) && on_face(opposite(face), e) && key_edges(a).has(mirror(e, face / 2));
    lemma_mirror(opposite(face), e);
    let e2 = mirror(e, face / 2);
    assert(key_edges(a).has(e2) && on_face(opposite(opposite(face)), e2) && key_edges(b).has(
        mirror(e2, opposite(face) / 2),
    ));
}

/// The edges of a leaf vertex: those along which it counts a sign change.
pub open spec fn leaf_edges_are(v: Vertex, b: BitSet) -> bool {
    forall|e: int|
        0 <= e < 12 ==> (#[trigger] v.edge_intersections[e]) == (if b.has(e) {
            1u32
        } else {
            0u32
        })
}

/// Whether `v` is the leaf vertex with key `key`, but for its neighbors.
pub open spec fn is_leaf(v: Vertex, key: VertexKey) -> bool {
    &&& pos(v.index) == key_cell(key)
    &&& leaf_edges_are(v, key_edges(key))
    &&& v.qef == QefState::Unsolved
    &&& v.parent is None
    &&& v.mesh_index is None
    &&& v.children@.len() == 0
    &&& v.euler_characteristic == 1
}

/// Whether the dual vertex with key `key` has a neighbor cell across
/// `face`: one of its edges lies in the face, and the lattice goes on
/// beyond it.
pub open spec fn key_has_cell_across(key: VertexKey, face: int) -> bool {
    &&& exists|e: int| #[trigger] key_edges(key).has(e) && on_face(face, e)
    &&& in_lattice(face_step(key_cell(key), face))
}

/// Whether the dual vertex `v` has a neighbor cell across `face`.
pub open spec fn has_cell_across(v: VertexIndex, face: int) -> bool {
    key_has_cell_across(key_for(v), face)
}

/// Whether grid `g` has a value at every corner of every cell that lies
/// across a face from the dual vertex with key `key`.
pub open spec fn cells_across_covered(g: Map<Corner, i64>, key: VertexKey) -> bool {
    forall|face: int|
        0 <= face < 6 && #[trigger] key_has_cell_across(key, face) ==> cell_covered(
            g,
            face_step(key_cell(key), face),
        )
}

/// Whether `e` reports the first gap across a face of the dual vertex with
/// key `key`: the first corner without a value of the cell across the first
/// face, among those in which the vertex has an edge, whose cell lacks a
/// value.
pub open spec fn reports_gap_across(g: Map<Corner, i64>, key: VertexKey, e: DualContouringError) -> bool {
    exists|face: int|
        0 <= face < 6 && #[trigger] key_has_cell_across(key, face) && !cell_covered(
            g,
            face_step(key_cell(key), face),
        ) && (forall|f: int|
            0 <= f < face && #[trigger] key_has_cell_across(key, f) ==> cell_covered(
                g,
                face_step(key_cell(key), f),
            )) && crate::edge_grid::reports_missing(g, face_step(key_cell(key), face), e)
}

/// Whether the keys come in the order of the lowest edges of their
/// vertices.
#[verifier::opaque]
pub open spec fn keys_in_order(list: Seq<VertexKey>) -> bool {
    forall|i: int, j: int, s: int, t: int|
        0 <= i < j < list.len() && #[trigger] crate::cell_configs::is_least(key_edges(list[i]), s)
            && #[trigger] crate::cell_configs::is_least(key_edges(list[j]), t) ==> s < t
}

/// Keys made of sets that come in the order of their lowest members come
/// in the order of the lowest edges.
proof fn lemma_keys_in_order(sets: Seq<BitSet>, list: Seq<VertexKey>)
    requires
        crate::cell_configs::in_order_of_least(sets),
        list.len() <= sets.len(),
        forall|j: int| 0 <= j < list.len() ==> key_edges(#[trigger] list[j]) == sets[j],
    ensures
        keys_in_order(list),
{
    reveal(keys_in_order);
    assert forall|i: int, j: int, s: int, t: int|
        0 <= i < j < list.len() && #[trigger] crate::cell_configs::is_least(key_edges(list[i]), s)
            && #[trigger] crate::cell_configs::is_least(key_edges(list[j]), t) implies s < t by {
        assert(crate::cell_configs::is_least(sets[i], s) && crate::cell_configs::is_least(
            sets[j],
            t,
        ));
    }
}

/// The keys of the dual vertices next to the dual vertex `v`, for each face
/// of its cell: those in the cell across the face that have a lattice edge
/// of the face in common with `v`, in the order of their lowest edges.
/// Fails if a cell across a face in which `v` has an edge lacks a value at
/// a corner.
pub fn dual_vertex_links(grid: &BTreeMap<Corner, i64>, v: &VertexIndex) -> (r: Result<
    [Vec<VertexKey>; 6],
    DualContouringError,
>)
    ensures
        r is Ok <==> cells_across_covered(grid@, key_for(*v)),
        r matches Ok(a) ==> forall|face: int, b: VertexKey|
            0 <= face < 6 ==> (#[trigger] a[face]@.contains(b) <==> (is_dual_vertex(grid@, b)
                && neighbors_across(key_for(*v), face, b))),
        r matches Ok(a) ==> forall|face: int| 0 <= face < 6 ==> (#[trigger] a[face]@).no_duplicates(),
        r matches Ok(a) ==> forall|face: int| 0 <= face < 6 ==> keys_in_order(#[trigger] a[face]@),
        r matches Err(e) ==> e is MissingValue && reports_gap_across(grid@, key_for(*v), e),
{
    let ghost g = grid@;
    let mut across: [Vec<VertexKey>; 6] = [
        Vec::new(),
        Vec::new(),
        Vec::new(),
        Vec::new(),
        Vec::new(),
        Vec::new(),
    ];
    let mut face: usize = 0;
    proof {
        assert forall|f: int| 0 <= f < 6 implies keys_in_order(#[trigger] across[f]@) by {
            reveal(keys_in_order);
        }
    }
    while face < 6
        invariant
            face <= 6,
            g == grid@,
            forall|f: int|
                0 <= f < face && #[trigger] key_has_cell_across(key_for(*v), f) ==> cell_covered(
                    g,
                    face_step(key_cell(key_for(*v)), f),
                ),
            forall|f: int, b: VertexKey|
                0 <= f < face ==> (#[trigger] across[f]@.contains(b) <==> (is_dual_vertex(g, b)
                    && neighbors_across(key_for(*v), f, b))),
            forall|f: int| 0 <= f < 6 ==> (#[trigger] across[f]@).no_duplicates(),
            forall|f: int| 0 <= f < 6 ==> keys_in_order(#[trigger] across[f]@),
            forall|f: int| face <= f < 6 ==> (#[trigger] across[f]@).len() == 0,
        decreases 6 - face,
    {
        let ghost start = across;
        match v.neighbor(face) {
            Some(nb) => {
                let pattern = match bitset_for_cell(grid, nb.index) {
                    Ok(p) => p,
                    Err(e) => {
                        proof {
                            let w = choose|w: int| #[trigger] v.edges.has(w) && on_face(face as int, w);
                            assert(key_edges(key_for(*v)).has(w) && on_face(face as int, w));
                            assert(key_has_cell_across(key_for(*v), face as int));
                        }
                        return Err(e);
                    },
                };
                let sets = get_connected_edges_from_edge_set(nb.edges, pattern);
                let mut k: usize = 0;
                while k < sets.len()
                    invariant
                        face < 6,
                        k <= sets@.len(),
                        sets@.no_duplicates(),
                        crate::cell_configs::in_order_of_least(sets@),
                        forall|f: int| 0 <= f < 6 && f != face ==> across[f] == start[f],
                        across[face as int]@.len() == k,
                        forall|j: int|
                            0 <= j < k ==> #[trigger] across[face as int]@[j] == (
                                nb.index[0],
                                nb.index[1],
                                nb.index[2],
                                sets@[j].0,
                            ),
                    decreases sets@.len() - k,
                {
                    across[face].push((nb.index[0], nb.index[1], nb.index[2], sets[k].0));
                    k += 1;
                }
                proof {
                    let list = across[face as int]@;
                    lemma_keys_in_order(sets@, list);
                    assert forall|f: int| 0 <= f < 6 implies keys_in_order(#[trigger] across[f]@) by {
                        if f != face {
                            assert(across[f] == start[f]);
                        }
                    }
                    assert forall|i: int, j: int|
                        0 <= i < list.len() && 0 <= j < list.len() && i != j implies list[i]
                        != list[j] by {
                        assert(sets@[i] != sets@[j]);
                    }
                    assert forall|b: VertexKey| #[trigger]
                        list.contains(b) <==> (is_dual_vertex(g, b) && neighbors_across(
                            key_for(*v),
                            face as int,
                            b,
                        )) by {
                        lemma_links_of_face(g, *v, face as int, nb, pattern, sets@, list, b);
                    }
                }
            },
            None => {
                proof {
                    if key_has_cell_across(key_for(*v), face as int) {
                        let w = choose|w: int| #[trigger]
                            key_edges(key_for(*v)).has(w) && on_face(face as int, w);
                        assert(v.edges.has(w) && on_face(face as int, w));
                    }
                    assert forall|b: VertexKey|
                        !(is_dual_vertex(g, b) && neighbors_across(
                            key_for(*v),
                            face as int,
                            b,
                        )) by {
                        lemma_no_cell_across(*v, face as int, b);
                    }
                }
            },
        }
        face += 1;
    }
    Ok(across)
}

/// A dual vertex has no neighbor across a face beyond which it has no
/// cell.
proof fn lemma_no_cell_across(v: VertexIndex, face: int, b: VertexKey)
    requires
        0 <= face < 6,
        !has_cell_across(v, face),
    ensures
        !neighbors_across(key_for(v), face, b),
{
    if neighbors_across(key_for(v), face, b) {
        let e = choose|e: int| #[trigger]
            key_edges(b).has(e) && on_face(opposite(face), e) && key_edges(key_for(v)).has(
                mirror(e, face / 2),
            );
        lemma_mirror(opposite(face), e);
        let w = mirror(e, face / 2);
        assert(key_edges(key_for(v)).has(w) && on_face(face, w));
    }
}

/// A key that the list for `face` holds is that of a neighbor across
/// `face`.
proof fn lemma_listed_is_neighbor(
    g: Map<Corner, i64>,
    v: VertexIndex,
    face: int,
    nb: VertexIndex,
    pattern: BitSet,
    c: BitSet,
    b: VertexKey,
)
    requires
        0 <= face < 6,
        pos(nb.index) == face_step(pos(v.index), face),
        forall|e: int| nb.edges.has(e) <==> v.edges_across(face, e),
        cell_covered(g, pos(nb.index)),
        pattern == pattern_of(g, pos(nb.index)),
        is_component(pattern, c),
        c.meets(nb.edges),
        b == (nb.index[0], nb.index[1], nb.index[2], c.0),
    ensures
        is_dual_vertex(g, b),
        neighbors_across(key_for(v), face, b),
{
    assert(key_edges(b) == c);
    assert(key_cell(b) == pos(nb.index));
    let e = choose|e: int| c.has(e) && nb.edges.has(e);
    assert(v.edges_across(face, e));
    assert(key_edges(b).has(e) && on_face(opposite(face), e) && key_edges(key_for(v)).has(
        mirror(e, face / 2),
    ));
}

/// The key of a neighbor across `face` is made of the cell across the face
/// and a component of its sign pattern that meets the edges of `v` in the
/// face.
proof fn lemma_neighbor_is_listed(
    g: Map<Corner, i64>,
    v: VertexIndex,
    face: int,
    nb: VertexIndex,
    pattern: BitSet,
    b: VertexKey,
)
    requires
        0 <= face < 6,
        pos(nb.index) == face_step(pos(v.index), face),
        forall|e: int| nb.edges.has(e) <==> v.edges_across(face, e),
        pattern == pattern_of(g, pos(nb.index)),
        is_dual_vertex(g, b),
        neighbors_across(key_for(v), face, b),
    ensures
        is_component(pattern, key_edges(b)),
        key_edges(b).meets(nb.edges),
        b == (nb.index[0], nb.index[1], nb.index[2], key_edges(b).0),
{
    let c = key_edges(b);
    let e = choose|e: int| #[trigger]
        key_edges(b).has(e) && on_face(opposite(face), e) && key_edges(key_for(v)).has(
            mirror(e, face / 2),
        );
    assert(v.edges_across(face, e));
    assert(c.has(e) && nb.edges.has(e));
    assert(key_cell(b) == pos(nb.index));
}

/// The list made of the components of the cell across `face` that meet the
/// edges of `v` in that face holds the keys of the neighbors of `v` across
/// `face`.
proof fn lemma_links_of_face(
    g: Map<Corner, i64>,
    v: VertexIndex,
    face: int,
    nb: VertexIndex,
    pattern: BitSet,
    sets: Seq<BitSet>,
    list: Seq<VertexKey>,
    b: VertexKey,
)
    requires
        0 <= face < 6,
        pos(nb.index) == face_step(pos(v.index), face),
        forall|e: int| nb.edges.has(e) <==> v.edges_across(face, e),
        cell_covered(g, pos(nb.index)),
        pattern == pattern_of(g, pos(nb.index)),
        forall|c: BitSet| #[trigger] sets.contains(c) <==> (is_component(pattern, c) && c.meets(nb.edges)),
        list.len() == sets.len(),
        forall|j: int|
            0 <= j < list.len() ==> #[trigger] list[j] == (
                nb.index[0],
                nb.index[1],
                nb.index[2],
                sets[j].0,
            ),
    ensures
        list.contains(b) <==> (is_dual_vertex(g, b) && neighbors_across(key_for(v), face, b)),
{
    if list.contains(b) {
        let j = choose|j: int| 0 <= j < list.len() && list[j] == b;
        let c = sets[j];
        assert(sets.contains(c));
        lemma_listed_is_neighbor(g, v, face, nb, pattern, c, b);
    }
    if is_dual_vertex(g, b) && neighbors_across(key_for(v), face, b) {
        lemma_neighbor_is_listed(g, v, face, nb, pattern, b);
        let c = key_edges(b);
        assert(sets.contains(c));
        let j = choose|j: int| 0 <= j < sets.len() && sets[j] == c;
        assert(list[j] == b);
    }
}

/// What is kept of a leaf vertex until all leaves are made: its key and,
/// for each face of its cell, the keys of its neighbors across that face.
#[derive(Debug)]
pub struct LeafLinks {
    pub key: VertexKey,
    pub across: [Vec<VertexKey>; 6],
}

/// Whether `ll` lists, for each face, the keys of all dual vertices of `g`
/// that are neighbors of its own across that face, each once.
pub open spec fn links_complete(g: Map<Corner, i64>, ll: LeafLinks) -> bool {
    &&& forall|face: int, b: VertexKey|
        0 <= face < 6 ==> (#[trigger] ll.across[face]@.contains(b) <==> (is_dual_vertex(g, b)
            && neighbors_across(ll.key, face, b)))
    &&& forall|face: int| 0 <= face < 6 ==> (#[trigger] ll.across[face]@).no_duplicates()
    &&& forall|face: int| 0 <= face < 6 ==> keys_in_order(#[trigger] ll.across[face]@)
}

/// Whether vertex `v` of the layer is a finished leaf but for its list of
/// neighbors, which is empty, and `ll` is what is kept of it.
pub open spec fn leaf_pending(g: Map<Corner, i64>, v: Vertex, ll: LeafLinks) -> bool {
    &&& is_leaf(v, ll.key)
    &&& is_dual_vertex(g, ll.key)
    &&& cells_across_covered(g, ll.key)
    &&& links_complete(g, ll)
    &&& forall|face: int| 0 <= face < 6 ==> (#[trigger] v.neighbors[face]@).len() == 0
}

/// Whether `map` numbers the leaves `vs`, of which `links` keeps the keys
/// and the neighbors, by their keys.
pub open spec fn building(
    g: Map<Corner, i64>,
    vs: Seq<Vertex>,
    links: Seq<LeafLinks>,
    map: Map<VertexKey, usize>,
) -> bool {
    &&& vs.len() == links.len()
    &&& map.dom().finite()
    &&& map.dom().len() == vs.len()
    &&& forall|key: VertexKey| #[trigger]
        map.contains_key(key) ==> map[key] < vs.len() && links[map[key] as int].key == key
    &&& forall|v: int|
        0 <= v < vs.len() ==> map.contains_key((#[trigger] links[v]).key) && map[links[v].key] == v
            && leaf_pending(g, vs[v], links[v])
}

/// The leaf vertex of the cell `idx` that stands for the edges
/// `edge_set`, without neighbors.
pub fn make_leaf(idx: Index, edge_set: BitSet) -> (v: Vertex)
    ensures
        is_leaf(v, (idx[0], idx[1], idx[2], edge_set.0)),
        forall|face: int| 0 <= face < 6 ==> (#[trigger] v.neighbors[face]@).len() == 0,
{
    let mut intersections: [u32; 12] = [0, 0, 0, 0, 0, 0, 0, 0, 0, 0, 0, 0];
    let mut e: usize = 0;
    while e < 12
        invariant
            e <= 12,
            forall|j: int|
                0 <= j < e ==> (#[trigger] intersections[j]) == (if edge_set.has(j) {
                    1u32
                } else {
                    0u32
                }),
            forall|j: int| e <= j < 12 ==> (#[trigger] intersections[j]) == 0,
        decreases 12 - e,
    {
        if edge_set.get(e) {
            intersections[e] = 1;
        }
        e += 1;
    }
    Vertex {
        index: idx,
        qef: QefState::Unsolved,
        neighbors: [Vec::new(), Vec::new(), Vec::new(), Vec::new(), Vec::new(), Vec::new()],
        parent: None,
        children: Vec::new(),
        mesh_index: None,
        edge_intersections: intersections,
        euler_characteristic: 1,
    }
}

/// Makes sure that the dual vertex `v` of grid `grid` is among the leaves:
/// adds it, with the keys of its neighbors, unless `index_map` holds its
/// key. Fails if a cell across a face in which `v` has an edge lacks a value
/// at a corner.
pub fn insert_dual_vertex(
    grid: &BTreeMap<Corner, i64>,
    v: &VertexIndex,
    vertices: &mut Vec<Vertex>,
    links: &mut Vec<LeafLinks>,
    index_map: &mut BTreeMap<VertexKey, usize>,
) -> (r: Option<DualContouringError>)
    requires
        building(grid@, old(vertices)@, old(links)@, old(index_map)@),
        is_dual_vertex(grid@, key_for(*v)),
    ensures
        r is None <==> cells_across_covered(grid@, key_for(*v)),
        r is None ==> building(grid@, final(vertices)@, final(links)@, final(index_map)@),
        r is None ==> final(index_map)@.contains_key(key_for(*v)),
        r is None ==> forall|key: VertexKey| #[trigger]
            final(index_map)@.contains_key(key) <==> (old(index_map)@.contains_key(key) || key
                == key_for(*v)),
        r is None ==> forall|key: VertexKey| #[trigger]
            old(index_map)@.contains_key(key) ==> final(index_map)@[key] == old(index_map)@[key],
        r is None ==> old(vertices)@.len() <= final(vertices)@.len() <= old(vertices)@.len() + 1,
        r is None ==> final(vertices)@.subrange(0, old(vertices)@.len() as int) == old(vertices)@,
        r is None ==> final(links)@.subrange(0, old(links)@.len() as int) == old(links)@,
        old(index_map)@.contains_key(key_for(*v)) ==> r is None && final(vertices)@ == old(vertices)@ && final(links)@ == old(links)@ && final(index_map)@ == old(index_map)@,
        r matches Some(e) ==> e is MissingValue && reports_gap_across(grid@, key_for(*v), e),
{
    let key = vertex_key(v);
    let ghost g = grid@;
    let ghost vs0 = vertices@;
    let ghost links0 = links@;
    let ghost map0 = index_map@;
    if index_map.contains_key(&key) {
        proof {
            let i = map0[key] as int;
            assert(links0[i].key == key);
            assert(leaf_pending(g, vs0[i], links0[i]));
            assert(vertices@.subrange(0, vs0.len() as int) =~= vs0);
            assert(links@.subrange(0, links0.len() as int) =~= links0);
        }
        return None;
    }
    let across = match dual_vertex_links(grid, v) {
        Ok(a) => a,
        Err(e) => {
            return Some(e);
        },
    };
    let leaf = make_leaf(v.index, v.edges);
    let number = vertices.len();
    let ll = LeafLinks { key, across };
    vertices.push(leaf);
    links.push(ll);
    index_map.insert(key, number);
    proof {
        assert(vertices@.subrange(0, vs0.len() as int) =~= vs0);
        assert(links@.subrange(0, links0.len() as int) =~= links0);
        assert(leaf_pending(g, leaf, ll));
        assert forall|k: VertexKey| #[trigger] index_map@.contains_key(k) implies index_map@[k]
            < vertices@.len() && links@[index_map@[k] as int].key == k by {
            if k != key {
                assert(map0.contains_key(k));
            }
        }
        assert forall|i: int| 0 <= i < vertices@.len() implies index_map@.contains_key(
            (#[trigger] links@[i]).key,
        ) && index_map@[links@[i].key] == i && leaf_pending(g, vertices@[i], links@[i]) by {
            if i < vs0.len() {
                assert(links@[i] == links0[i]);
                assert(vertices@[i] == vs0[i]);
                assert(map0.contains_key(links0[i].key));
            }
        }
    }
    None
}

/// The key of the dual vertex that the lattice edge starting at `p` along
/// `axis` has in the `k`-th cell around it.
pub open spec fn vertex_around(g: Map<Corner, i64>, axis: int, p: (int, int, int), k: int) -> VertexKey {
    let cell = cell_around(axis, p, k);
    (
        cell.0 as usize,
        cell.1 as usize,
        cell.2 as usize,
        component_of(pattern_of(g, cell), quad_edge(axis, k)).0,
    )
}

/// Whether the `k`-th cell around the lattice edge starting at `p` along
/// `axis` is ready for its dual vertex: it is a cell of the lattice with a
/// value at every corner, and so is every cell across a face in which the
/// dual vertex has an edge.
pub open spec fn around_ready(g: Map<Corner, i64>, axis: int, p: (int, int, int), k: int) -> bool {
    &&& in_lattice(cell_around(axis, p, k))
    &&& cell_covered(g, cell_around(axis, p, k))
    &&& cells_across_covered(g, vertex_around(g, axis, p, k))
}

/// Whether all four cells around the lattice edge are ready.
pub open spec fn edge_ready(g: Map<Corner, i64>, axis: int, p: (int, int, int)) -> bool {
    forall|k: int| 0 <= k < 4 ==> #[trigger] around_ready(g, axis, p, k)
}

/// Whether `e` reports why the `k`-th cell around the lattice edge
/// starting at `p` along `axis` is not ready: with `p` where the cell lies
/// beyond the low end of the lattice; else with its first corner without a
/// value; else with the first gap across a face of its dual vertex.
pub open spec fn reports_unready(
    g: Map<Corner, i64>,
    axis: int,
    p: (int, int, int),
    k: int,
    e: DualContouringError,
) -> bool {
    let cell = cell_around(axis, p, k);
    if !in_lattice(cell) {
        e is MissingValue && pos(e->MissingValue_0) == p
    } else if !cell_covered(g, cell) {
        crate::edge_grid::reports_missing(g, cell, e)
    } else {
        reports_gap_across(g, vertex_around(g, axis, p, k), e)
    }
}

/// Whether `e` reports the first cell around the lattice edge that is not
/// ready.
pub open spec fn reports_unready_edge(
    g: Map<Corner, i64>,
    axis: int,
    p: (int, int, int),
    e: DualContouringError,
) -> bool {
    exists|k: int|
        0 <= k < 4 && !#[trigger] around_ready(g, axis, p, k) && (forall|j: int|
            0 <= j < k ==> #[trigger] around_ready(g, axis, p, j)) && reports_unready(
            g,
            axis,
            p,
            k,
            e,
        )
}

/// Whether `key` is the key of the dual vertex that the lattice edge has in
/// one of the first `n` cells around it.
pub open spec fn is_around(
    g: Map<Corner, i64>,
    axis: int,
    p: (int, int, int),
    n: int,
    key: VertexKey,
) -> bool {
    exists|k: int| 0 <= k < n && key == #[trigger] vertex_around(g, axis, p, k)
}

/// What the lattice edge has in a cell around it whose corners all have a
/// value is a dual vertex of the grid.
pub proof fn lemma_vertex_around(g: Map<Corner, i64>, axis: int, p: (int, int, int), k: int)
    requires
        0 <= axis < 3,
        0 <= k < 4,
        sign_change(g, axis, p),
        in_lattice(cell_around(axis, p, k)),
        cell_covered(g, cell_around(axis, p, k)),
    ensures
        crossing(pattern_of(g, cell_around(axis, p, k)), quad_edge(axis, k)),
        is_dual_vertex(g, vertex_around(g, axis, p, k)),
        key_cell(vertex_around(g, axis, p, k)) == cell_around(axis, p, k),
{
    let cell = cell_around(axis, p, k);
    let e = quad_edge(axis, k);
    crate::edge_grid::lemma_crossing_is_sign_change(g, cell, e);
    crate::cell_configs::lemma_component_is_component(pattern_of(g, cell), e);
}

/// Makes sure that the dual vertices that the lattice edge `edge_index` has
/// in the four cells around it are among the leaves. Fails if one of these
/// cells is not ready.
pub fn add_vertices_for_minimal_egde(
    grid: &BTreeMap<Corner, i64>,
    edge_index: &EdgeIndex,
    vertices: &mut Vec<Vertex>,
    links: &mut Vec<LeafLinks>,
    index_map: &mut BTreeMap<VertexKey, usize>,
) -> (r: Option<DualContouringError>)
    requires
        building(grid@, old(vertices)@, old(links)@, old(index_map)@),
        edge_index.is_base(),
        sign_change(grid@, edge_index.edge.ord(), pos(edge_index.index)),
    ensures
        r is None <==> edge_ready(grid@, edge_index.edge.ord(), pos(edge_index.index)),
        r is None ==> building(grid@, final(vertices)@, final(links)@, final(index_map)@),
        r is None ==> forall|key: VertexKey| #[trigger]
            final(index_map)@.contains_key(key) <==> (old(index_map)@.contains_key(key)
                || is_around(grid@, edge_index.edge.ord(), pos(edge_index.index), 4, key)),
        r is None ==> forall|key: VertexKey| #[trigger]
            old(index_map)@.contains_key(key) ==> final(index_map)@[key] == old(index_map)@[key],
        r is None ==> final(vertices)@.subrange(0, old(vertices)@.len() as int) == old(vertices)@,
        r is None ==> final(links)@.subrange(0, old(links)@.len() as int) == old(links)@,
        r is None ==> old(vertices)@.len() <= final(vertices)@.len() <= old(vertices)@.len() + 4,
        r is None && (forall|k: int|
            0 <= k < 4 ==> old(index_map)@.contains_key(
                #[trigger] vertex_around(grid@, edge_index.edge.ord(), pos(edge_index.index), k),
            )) ==> final(vertices)@ == old(vertices)@ && final(links)@ == old(links)@ && final(index_map)@ == old(index_map)@,
        r matches Some(e) ==> e is MissingValue && reports_unready_edge(
            grid@,
            edge_index.edge.ord(),
            pos(edge_index.index),
            e,
        ),
{
    let ghost g = grid@;
    let ghost axis = edge_index.edge.ord();
    let ghost p = pos(edge_index.index);
    let ghost map0 = index_map@;
    let ghost vs0 = vertices@;
    let ghost links0 = links@;
    let mut k: usize = 0;
    proof {
        assert(vertices@.subrange(0, vs0.len() as int) =~= vs0);
        assert(links@.subrange(0, links0.len() as int) =~= links0);
    }
    while k < 4
        invariant
            k <= 4,
            g == grid@,
            axis == edge_index.edge.ord(),
            p == pos(edge_index.index),
            0 <= axis < 3,
            sign_change(g, axis, p),
            building(g, vertices@, links@, index_map@),
            forall|key: VertexKey| #[trigger]
                map0.contains_key(key) ==> index_map@.contains_key(key) && index_map@[key]
                    == map0[key],
            vs0.len() <= vertices@.len() <= vs0.len() + k,
            links0.len() <= links@.len(),
            vertices@.subrange(0, vs0.len() as int) == vs0,
            links@.subrange(0, links0.len() as int) == links0,
            (forall|j: int| 0 <= j < k ==> map0.contains_key(#[trigger] vertex_around(g, axis, p, j)))
                ==> vertices@ == vs0 && links@ == links0 && index_map@ == map0,
            forall|j: int| 0 <= j < k ==> #[trigger] around_ready(g, axis, p, j),
            forall|key: VertexKey| #[trigger]
                index_map@.contains_key(key) <==> (map0.contains_key(key) || is_around(
                    g,
                    axis,
                    p,
                    k as int,
                    key,
                )),
        decreases 4 - k,
    {
        let quad_egde = quad(edge_index.edge, k);
        let off = quad_egde.offset();
        if edge_index.index[0] < off[0] || edge_index.index[1] < off[1] || edge_index.index[2]
            < off[2] {
            assert(!around_ready(g, axis, p, k as int));
            assert(!in_lattice(cell_around(axis, p, k as int)));
            assert(reports_unready(
                g,
                axis,
                p,
                k as int,
                DualContouringError::MissingValue(edge_index.index),
            ));
            return Some(DualContouringError::MissingValue(edge_index.index));
        }
        let idx = crate::vertex_index::neg_offset(edge_index.index, off);
        assert(pos(idx) == cell_around(axis, p, k as int));
        let pattern = match bitset_for_cell(grid, idx) {
            Ok(b) => b,
            Err(e) => {
                assert(!around_ready(g, axis, p, k as int));
                assert(in_lattice(cell_around(axis, p, k as int)));
                assert(reports_unready(g, axis, p, k as int, e));
                return Some(e);
            },
        };
        proof {
            lemma_vertex_around(g, axis, p, k as int);
        }
        let edge_set = get_connected_edges(quad_egde, pattern);
        let vertex_index = VertexIndex { edges: edge_set, index: idx };
        assert(key_for(vertex_index) == vertex_around(g, axis, p, k as int));
        let ghost map1 = index_map@;
        let ghost vs1 = vertices@;
        let ghost links1 = links@;
        match insert_dual_vertex(grid, &vertex_index, vertices, links, index_map) {
            Some(e) => {
                assert(!around_ready(g, axis, p, k as int));
                assert(in_lattice(cell_around(axis, p, k as int)));
                assert(reports_unready(g, axis, p, k as int, e));
                return Some(e);
            },
            None => {},
        }
        proof {
            assert(around_ready(g, axis, p, k as int));
            assert(vertices@.subrange(0, vs0.len() as int) =~= vs0) by {
                assert(vertices@.subrange(0, vs1.len() as int) == vs1);
                assert(vs1.subrange(0, vs0.len() as int) == vs0);
                assert forall|i: int| 0 <= i < vs0.len() implies vertices@[i] == vs0[i] by {
                    assert(vertices@.subrange(0, vs1.len() as int)[i] == vs1[i]);
                    assert(vs1.subrange(0, vs0.len() as int)[i] == vs0[i]);
                }
            }
            assert(links@.subrange(0, links0.len() as int) =~= links0) by {
                assert(links@.subrange(0, links1.len() as int) == links1);
                assert(links1.subrange(0, links0.len() as int) == links0);
                assert forall|i: int| 0 <= i < links0.len() implies links@[i] == links0[i] by {
                    assert(links@.subrange(0, links1.len() as int)[i] == links1[i]);
                    assert(links1.subrange(0, links0.len() as int)[i] == links0[i]);
                }
            }
            if forall|j: int| 0 <= j < k + 1 ==> map0.contains_key(#[trigger] vertex_around(g, axis, p, j)) {
                assert(map0.contains_key(vertex_around(g, axis, p, k as int)));
                assert(forall|j: int| 0 <= j < k ==> map0.contains_key(#[trigger] vertex_around(g, axis, p, j)));
            }
            assert forall|key: VertexKey| #[trigger]
                index_map@.contains_key(key) <==> (map0.contains_key(key) || is_around(
                    g,
                    axis,
                    p,
                    k + 1,
                    key,
                )) by {
                assert(index_map@.contains_key(key) <==> (map1.contains_key(key) || key
                    == vertex_around(g, axis, p, k as int)));
                if is_around(g, axis, p, k + 1, key) {
                    let j = choose|j: int|
                        0 <= j < k + 1 && key == #[trigger] vertex_around(g, axis, p, j);
                    if j < k {
                        assert(is_around(g, axis, p, k as int, key));
                    }
                }
                if is_around(g, axis, p, k as int, key) {
                    let j = choose|j: int|
                        0 <= j < k && key == #[trigger] vertex_around(g, axis, p, j);
                    assert(0 <= j < k + 1 && key == vertex_around(g, axis, p, j));
                }
            }
        }
        k += 1;
    }
    None
}

/// Whether `e` reports the first cell that is not ready around the first
/// edge of `es` that has such a cell.
pub open spec fn reports_first_unready(g: Map<Corner, i64>, es: Seq<EdgeIndex>, e: DualContouringError) -> bool {
    exists|i: int|
        0 <= i < es.len() && (forall|j: int|
            0 <= j < i ==> edge_ready(g, (#[trigger] es[j]).edge.ord(), pos(es[j].index)))
            && #[trigger] reports_unready_edge(g, es[i].edge.ord(), pos(es[i].index), e)
}

/// Whether every sign-change edge that `es` lists has all four cells
/// around it ready.
pub open spec fn all_edges_ready(g: Map<Corner, i64>, es: Seq<EdgeIndex>) -> bool {
    forall|i: int|
        0 <= i < es.len() ==> edge_ready(g, (#[trigger] es[i]).edge.ord(), pos(es[i].index))
}

/// Whether `map` gives some key the number `v`.
pub open spec fn has_number(map: Map<VertexKey, usize>, v: int) -> bool {
    exists|key: VertexKey| #[trigger] map.contains_key(key) && map[key] == v
}

/// The keys of the dual vertices of grid `g`.
pub open spec fn dual_vertices(g: Map<Corner, i64>) -> Set<VertexKey> {
    Set::new(|key: VertexKey| is_dual_vertex(g, key))
}

/// Whether vertex `v` lists its neighbors across `face` in the order of
/// the lowest edges of their keys.
pub open spec fn neighbors_in_order(l: Seq<Vertex>, map: Map<VertexKey, usize>, v: int, face: int) -> bool {
    exists|keys: Seq<VertexKey>|
        #[trigger] keys_in_order(keys) && keys.len() == l[v].neighbors[face]@.len() && forall|j: int|
            0 <= j < keys.len() ==> map.contains_key(#[trigger] keys[j]) && map[keys[j]]
                == l[v].neighbors[face]@[j]
}

/// Whether `l` is the layer of the leaves of grid `g`, numbered by `map`:
/// there is one leaf for every dual vertex of `g`, and a leaf lists another
/// across a face exactly if they are neighbors across it.
pub open spec fn is_leaf_layer(g: Map<Corner, i64>, l: Seq<Vertex>, map: Map<VertexKey, usize>) -> bool {
    &&& map.dom() == dual_vertices(g)
    &&& dual_vertices(g).finite()
    &&& l.len() == dual_vertices(g).len()
    &&& forall|key: VertexKey| #[trigger] map.contains_key(key) <==> is_dual_vertex(g, key)
    &&& forall|key: VertexKey| #[trigger]
        map.contains_key(key) ==> map[key] < l.len() && is_leaf(l[map[key] as int], key)
    &&& forall|v: int| 0 <= v < l.len() ==> #[trigger] has_number(map, v)
    &&& forall|a: VertexKey, b: VertexKey, face: int|
        map.contains_key(a) && map.contains_key(b) && 0 <= face < 6 ==> (crate::octree::lists(
            l,
            map[a] as int,
            face,
            map[b] as int,
        ) <==> #[trigger] neighbors_across(a, face, b))
    &&& forall|v: int, face: int|
        0 <= v < l.len() && 0 <= face < 6 ==> (#[trigger] l[v].neighbors[face]@).no_duplicates()
    &&& forall|v: int, face: int|
        0 <= v < l.len() && 0 <= face < 6 ==> #[trigger] neighbors_in_order(l, map, v, face)
}

/// Every dual vertex of the grid is what a sign-change edge has in one of
/// the cells around it.
pub proof fn lemma_dual_vertex_is_around(g: Map<Corner, i64>, es: Seq<EdgeIndex>, key: VertexKey) -> (w: (
    int,
    int,
))
    requires
        is_edge_grid(g, es),
        is_dual_vertex(g, key),
    ensures
        0 <= w.0 < es.len(),
        0 <= w.1 < 4,
        key == vertex_around(g, es[w.0].edge.ord(), pos(es[w.0].index), w.1),
{
    let cell = key_cell(key);
    let pat = pattern_of(g, cell);
    let c = key_edges(key);
    let s = choose|s: int| crossing(pat, s) && #[trigger] holds_component(pat, s, c);
    crate::cell_configs::lemma_component_unique(pat, s, c);
    crate::edge_grid::lemma_crossing_is_sign_change(g, cell, s);
    let axis = edge_axis(s);
    let p = plus(cell, edge_offset(s));
    assert(lists_edge(es, axis, p));
    let i = choose|i: int| 0 <= i < es.len() && #[trigger] es[i].lattice_edge() == (axis, p);
    assert(es[i].is_base());
    let k = crate::edge::lemma_quad_covers(s);
    assert(cell_around(axis, p, k) == cell);
    assert(es[i].edge.ord() == axis);
    assert(pos(es[i].index) == p);
    (i, k)
}

/// The numbers of the leaves that `ll` lists by their keys.
pub fn resolve_links(ll: &LeafLinks, index_map: &BTreeMap<VertexKey, usize>) -> (r: [Vec<usize>; 6])
    requires
        forall|face: int, k: int|
            0 <= face < 6 && 0 <= k < ll.across[face]@.len() ==> index_map@.contains_key(
                #[trigger] ll.across[face]@[k],
            ),
    ensures
        forall|face: int| 0 <= face < 6 ==> (#[trigger] r[face]@).len() == ll.across[face]@.len(),
        forall|face: int, k: int|
            0 <= face < 6 && 0 <= k < ll.across[face]@.len() ==> (#[trigger] r[face]@[k])
                == index_map@[ll.across[face]@[k]],
{
    let mut r: [Vec<usize>; 6] = [
        Vec::new(),
        Vec::new(),
        Vec::new(),
        Vec::new(),
        Vec::new(),
        Vec::new(),
    ];
    let mut face: usize = 0;
    while face < 6
        invariant
            face <= 6,
            forall|f: int, k: int|
                0 <= f < 6 && 0 <= k < ll.across[f]@.len() ==> index_map@.contains_key(
                    #[trigger] ll.across[f]@[k],
                ),
            forall|f: int| 0 <= f < face ==> (#[trigger] r[f]@).len() == ll.across[f]@.len(),
            forall|f: int| face <= f < 6 ==> (#[trigger] r[f]@).len() == 0,
            forall|f: int, k: int|
                0 <= f < face && 0 <= k < ll.across[f]@.len() ==> (#[trigger] r[f]@[k])
                    == index_map@[ll.across[f]@[k]],
        decreases 6 - face,
    {
        let ghost start = r;
        let mut k: usize = 0;
        while k < ll.across[face].len()
            invariant
                face < 6,
                k <= ll.across[face as int]@.len(),
                forall|f: int, j: int|
                    0 <= f < 6 && 0 <= j < ll.across[f]@.len() ==> index_map@.contains_key(
                        #[trigger] ll.across[f]@[j],
                    ),
                forall|f: int| 0 <= f < 6 && f != face ==> r[f] == start[f],
                r[face as int]@.len() == k,
                forall|j: int|
                    0 <= j < k ==> (#[trigger] r[face as int]@[j])
                        == index_map@[ll.across[face as int]@[j]],
            decreases ll.across[face as int]@.len() - k,
        {
            let key = ll.across[face][k];
            assert(index_map@.contains_key(ll.across[face as int]@[k as int]));
            let number = *index_map.get(&key).unwrap();
            r[face].push(number);
            k += 1;
        }
        face += 1;
    }
    r
}

/// Whether vertex `v` is the leaf of which `ll` is kept, with its neighbors
/// numbered by `map`.
pub open spec fn leaf_resolved(v: Vertex, ll: LeafLinks, map: Map<VertexKey, usize>) -> bool {
    &&& is_leaf(v, ll.key)
    &&& forall|face: int|
        0 <= face < 6 ==> (#[trigger] v.neighbors[face]@).len() == ll.across[face]@.len()
    &&& forall|face: int, k: int|
        0 <= face < 6 && 0 <= k < ll.across[face]@.len() ==> (#[trigger] v.neighbors[face]@[k])
            == map[ll.across[face]@[k]]
}

/// Whether `map` numbers the leaves of `links` by their keys, and the
/// leaves are all the dual vertices of `g`.
pub open spec fn numbered(g: Map<Corner, i64>, links: Seq<LeafLinks>, map: Map<VertexKey, usize>) -> bool {
    &&& map.dom().finite()
    &&& map.dom().len() == links.len()
    &&& forall|key: VertexKey| #[trigger] map.contains_key(key) <==> is_dual_vertex(g, key)
    &&& forall|key: VertexKey| #[trigger]
        map.contains_key(key) ==> map[key] < links.len() && links[map[key] as int].key == key
    &&& forall|v: int|
        0 <= v < links.len() ==> map.contains_key((#[trigger] links[v]).key) && map[links[v].key]
            == v && links_complete(g, links[v])
}

/// A leaf lists another across a face exactly if they are neighbors across
/// it.
proof fn lemma_resolved_lists(
    g: Map<Corner, i64>,
    l: Seq<Vertex>,
    links: Seq<LeafLinks>,
    map: Map<VertexKey, usize>,
    a: VertexKey,
    b: VertexKey,
    face: int,
)
    requires
        numbered(g, links, map),
        l.len() == links.len(),
        map.contains_key(a),
        map.contains_key(b),
        0 <= face < 6,
        leaf_resolved(l[map[a] as int], links[map[a] as int], map),
    ensures
        crate::octree::lists(l, map[a] as int, face, map[b] as int) <==> neighbors_across(a, face, b),
{
    let u = map[a] as int;
    let ll = links[u];
    assert(ll.key == a);
    assert(links_complete(g, ll));
    if crate::octree::lists(l, u, face, map[b] as int) {
        let k = choose|k: int|
            0 <= k < l[u].neighbors[face]@.len() && #[trigger] l[u].neighbors[face]@[k] == map[b] as int;
        let kb = ll.across[face]@[k];
        assert(ll.across[face]@.contains(kb));
        assert(map.contains_key(kb));
        assert(l[u].neighbors[face]@[k] == map[kb]);
        assert(links[map[kb] as int].key == kb);
        assert(links[map[b] as int].key == b);
    }
    if neighbors_across(a, face, b) {
        assert(ll.across[face]@.contains(b));
        let k = choose|k: int| 0 <= k < ll.across[face]@.len() && ll.across[face]@[k] == b;
        assert(l[u].neighbors[face]@[k] == map[ll.across[face]@[k]]);
    }
}

/// A leaf lists no neighbor twice.
proof fn lemma_leaf_lists_once(
    g: Map<Corner, i64>,
    l: Seq<Vertex>,
    links: Seq<LeafLinks>,
    map: Map<VertexKey, usize>,
    v: int,
    face: int,
)
    requires
        numbered(g, links, map),
        l.len() == links.len(),
        0 <= v < l.len(),
        0 <= face < 6,
        leaf_resolved(l[v], links[v], map),
    ensures
        l[v].neighbors[face]@.no_duplicates(),
{
    let list = l[v].neighbors[face]@;
    let ll = links[v];
    assert(links_complete(g, ll));
    assert(ll.across[face]@.no_duplicates());
    assert forall|i: int, j: int| 0 <= i < list.len() && 0 <= j < list.len() && i != j implies list[i]
        != list[j] by {
        let ki = ll.across[face]@[i];
        let kj = ll.across[face]@[j];
        assert(ll.across[face]@.contains(ki));
        assert(ll.across[face]@.contains(kj));
        assert(is_dual_vertex(g, ki) && is_dual_vertex(g, kj));
        assert(map.contains_key(ki) && map.contains_key(kj));
        assert(list[i] == map[ki]);
        assert(list[j] == map[kj]);
        assert(links[map[ki] as int].key == ki);
        assert(links[map[kj] as int].key == kj);
    }
}

/// What a leaf lists across a face is a leaf in the cell across that face
/// that lists it across the opposite face.
proof fn lemma_leaf_link(
    g: Map<Corner, i64>,
    l: Seq<Vertex>,
    links: Seq<LeafLinks>,
    map: Map<VertexKey, usize>,
    u: int,
    face: int,
    v: int,
)
    requires
        numbered(g, links, map),
        l.len() == links.len(),
        forall|w: int| 0 <= w < l.len() ==> leaf_resolved(#[trigger] l[w], links[w], map),
        crate::octree::lists(l, u, face, v),
    ensures
        0 <= v < l.len(),
        pos(l[v].index) == face_step(pos(l[u].index), face),
        crate::octree::lists(l, v, opposite(face), u),
{
    let ll = links[u];
    let a = ll.key;
    assert(leaf_resolved(l[u], ll, map));
    assert(links_complete(g, ll));
    let k = choose|k: int|
        0 <= k < l[u].neighbors[face]@.len() && #[trigger] l[u].neighbors[face]@[k] == v;
    let b = ll.across[face]@[k];
    assert(ll.across[face]@.contains(b));
    assert(is_dual_vertex(g, b));
    assert(map.contains_key(b));
    assert(l[u].neighbors[face]@[k] == map[b]);
    assert(neighbors_across(a, face, b));
    lemma_neighbors_symmetric(a, face, b);
    assert(leaf_resolved(l[v], links[v], map));
    assert(links[v].key == b);
    assert(map.contains_key(a) && map[a] == u);
    lemma_resolved_lists(g, l, links, map, b, a, opposite(face));
}

/// Leaves whose neighbors are numbered make the layer of the leaves, and
/// its links stay inside it, follow the faces of the cells and are
/// symmetric.
proof fn lemma_leaf_layer(
    g: Map<Corner, i64>,
    l: Seq<Vertex>,
    links: Seq<LeafLinks>,
    map: Map<VertexKey, usize>,
)
    requires
        numbered(g, links, map),
        l.len() == links.len(),
        forall|v: int| 0 <= v < l.len() ==> leaf_resolved(#[trigger] l[v], links[v], map),
    ensures
        is_leaf_layer(g, l, map),
        crate::octree::layer_ok(l),
{
    assert(map.dom() =~= dual_vertices(g));
    assert forall|a: VertexKey, b: VertexKey, face: int|
        map.contains_key(a) && map.contains_key(b) && 0 <= face < 6 implies (crate::octree::lists(
        l,
        map[a] as int,
        face,
        map[b] as int,
    ) <==> #[trigger] neighbors_across(a, face, b)) by {
        assert(leaf_resolved(l[map[a] as int], links[map[a] as int], map));
        lemma_resolved_lists(g, l, links, map, a, b, face);
    }
    assert forall|v: int| 0 <= v < l.len() implies #[trigger] has_number(map, v) by {
        assert(map.contains_key(links[v].key) && map[links[v].key] == v);
    }
    assert forall|key: VertexKey| #[trigger] map.contains_key(key) implies map[key] < l.len()
        && is_leaf(l[map[key] as int], key) by {
        assert(leaf_resolved(l[map[key] as int], links[map[key] as int], map));
    }
    assert forall|v: int, face: int| 0 <= v < l.len() && 0 <= face < 6 implies (
    #[trigger] l[v].neighbors[face]@).no_duplicates() by {
        assert(leaf_resolved(l[v], links[v], map));
        lemma_leaf_lists_once(g, l, links, map, v, face);
    }
    assert forall|v: int, face: int| 0 <= v < l.len() && 0 <= face < 6 implies #[trigger] neighbors_in_order(
        l,
        map,
        v,
        face,
    ) by {
        let ll = links[v];
        let keys = ll.across[face]@;
        assert(leaf_resolved(l[v], ll, map));
        assert(links_complete(g, ll));
        assert(keys_in_order(keys));
        assert forall|j: int| 0 <= j < keys.len() implies map.contains_key(#[trigger] keys[j])
            && map[keys[j]] == l[v].neighbors[face]@[j] by {
            assert(ll.across[face]@.contains(keys[j]));
            assert(is_dual_vertex(g, keys[j]));
        }
    }
    assert forall|u: int, face: int, v: int| #[trigger]
        crate::octree::lists(l, u, face, v) implies 0 <= v < l.len() && pos(l[v].index) == face_step(
        pos(l[u].index),
        face,
    ) && crate::octree::lists(l, v, opposite(face), u) by {
        lemma_leaf_link(g, l, links, map, u, face, v);
    }
    assert forall|u: int, face: int, k: int|
        0 <= u < l.len() && 0 <= face < 6 && 0 <= k < l[u].neighbors[face]@.len() implies (
    #[trigger] l[u].neighbors[face]@[k]) < l.len() by {
        assert(crate::octree::lists(l, u, face, l[u].neighbors[face]@[k] as int));
    }
}

/// Counts that are each at most 1 sum to at most their number.
proof fn lemma_small_counts(counts: Seq<u32>, k: int)
    requires
        0 <= k <= counts.len(),
        forall|e: int| 0 <= e < k ==> counts[e] <= 1,
    ensures
        crate::vertex::sum_counts(counts, |e: int| true, k) <= k,
    decreases k,
{
    if k > 0 {
        lemma_small_counts(counts, k - 1);
    }
}

/// A layer of leaves weighs at most 13 a leaf.
proof fn lemma_leaves_weight(l: Seq<Vertex>)
    requires
        forall|v: int|
            0 <= v < l.len() ==> (#[trigger] l[v]).euler_characteristic == 1 && forall|e: int|
                0 <= e < 12 ==> l[v].edge_intersections[e] <= 1,
    ensures
        crate::octree::layer_weight(l) <= 13 * l.len(),
    decreases l.len(),
{
    if l.len() > 0 {
        lemma_leaves_weight(l.drop_last());
        let v = l[l.len() - 1];
        lemma_small_counts(v.edge_intersections@, 12);
    }
}

/// After the edges before `n` have been dealt with, the keys that the map
/// holds are those of the dual vertices around them.
pub open spec fn keys_are_around(
    g: Map<Corner, i64>,
    es: Seq<EdgeIndex>,
    n: int,
    map: Map<VertexKey, usize>,
) -> bool {
    forall|key: VertexKey| #[trigger]
        map.contains_key(key) <==> exists|i: int|
            0 <= i < n && #[trigger] is_around(g, es[i].edge.ord(), pos(es[i].index), 4, key)
}

/// Once every sign-change edge has been dealt with, the keys of the map are
/// those of the dual vertices of the grid.
proof fn lemma_keys_are_dual_vertices(g: Map<Corner, i64>, es: Seq<EdgeIndex>, map: Map<VertexKey, usize>)
    requires
        is_edge_grid(g, es),
        all_edges_ready(g, es),
        keys_are_around(g, es, es.len() as int, map),
    ensures
        forall|key: VertexKey| #[trigger] map.contains_key(key) <==> is_dual_vertex(g, key),
{
    assert forall|key: VertexKey| #[trigger] map.contains_key(key) <==> is_dual_vertex(g, key) by {
        if map.contains_key(key) {
            let i = choose|i: int|
                0 <= i < es.len() && #[trigger] is_around(
                    g,
                    es[i].edge.ord(),
                    pos(es[i].index),
                    4,
                    key,
                );
            let axis = es[i].edge.ord();
            let p = pos(es[i].index);
            let k = choose|k: int| 0 <= k < 4 && key == #[trigger] vertex_around(g, axis, p, k);
            assert(es[i].is_base());
            assert(edge_ready(g, axis, p));
            assert(around_ready(g, axis, p, k));
            lemma_vertex_around(g, axis, p, k);
        }
        if is_dual_vertex(g, key) {
            let (i, k) = lemma_dual_vertex_is_around(g, es, key);
            assert(is_around(g, es[i].edge.ord(), pos(es[i].index), 4, key));
        }
    }
}

/// The leaves of the octree: one vertex for every dual vertex of the grid,
/// each with its neighbors, and the map that numbers them by their keys.
/// Fails if a cell around a sign-change edge is not ready.
pub fn generate_leaf_vertices(grid: &BTreeMap<Corner, i64>, edge_grid: &Vec<EdgeIndex>) -> (r: Result<
    (Vec<Vertex>, BTreeMap<VertexKey, usize>),
    DualContouringError,
>)
    requires
        is_edge_grid(grid@, edge_grid@),
    ensures
        r is Ok <==> all_edges_ready(grid@, edge_grid@),
        r matches Ok(out) ==> {
            &&& is_leaf_layer(grid@, out.0@, out.1@)
            &&& crate::octree::layer_ok(out.0@)
            &&& crate::octree::layer_weight(out.0@) <= 13 * out.0@.len()
        },
        r matches Err(e) ==> e is MissingValue && reports_first_unready(grid@, edge_grid@, e),
{
    let ghost g = grid@;
    let ghost es = edge_grid@;
    let mut index_map: BTreeMap<VertexKey, usize> = BTreeMap::new();
    let mut vertices: Vec<Vertex> = Vec::new();
    let mut links: Vec<LeafLinks> = Vec::new();
    let mut i: usize = 0;
    while i < edge_grid.len()
        invariant
            i <= es.len(),
            g == grid@,
            es == edge_grid@,
            is_edge_grid(g, es),
            building(g, vertices@, links@, index_map@),
            forall|j: int|
                0 <= j < i ==> edge_ready(g, (#[trigger] es[j]).edge.ord(), pos(es[j].index)),
            keys_are_around(g, es, i as int, index_map@),
        decreases es.len() - i,
    {
        let ghost map0 = index_map@;
        assert(es[i as int].is_base());
        match add_vertices_for_minimal_egde(
            grid,
            &edge_grid[i],
            &mut vertices,
            &mut links,
            &mut index_map,
        ) {
            Some(e) => {
                assert(reports_unready_edge(
                    g,
                    es[i as int].edge.ord(),
                    pos(es[i as int].index),
                    e,
                ));
                return Err(e);
            },
            None => {},
        }
        proof {
            assert forall|key: VertexKey| #[trigger]
                index_map@.contains_key(key) <==> exists|j: int|
                    0 <= j < i + 1 && #[trigger] is_around(
                        g,
                        es[j].edge.ord(),
                        pos(es[j].index),
                        4,
                        key,
                    ) by {
                let here = is_around(g, es[i as int].edge.ord(), pos(es[i as int].index), 4, key);
                assert(index_map@.contains_key(key) <==> (map0.contains_key(key) || here));
                if map0.contains_key(key) {
                    let j = choose|j: int|
                        0 <= j < i && #[trigger] is_around(
                            g,
                            es[j].edge.ord(),
                            pos(es[j].index),
                            4,
                            key,
                        );
                    assert(0 <= j < i + 1 && is_around(
                        g,
                        es[j].edge.ord(),
                        pos(es[j].index),
                        4,
                        key,
                    ));
                }
                if exists|j: int|
                    0 <= j < i + 1 && #[trigger] is_around(
                        g,
                        es[j].edge.ord(),
                        pos(es[j].index),
                        4,
                        key,
                    ) {
                    let j = choose|j: int|
                        0 <= j < i + 1 && #[trigger] is_around(
                            g,
                            es[j].edge.ord(),
                            pos(es[j].index),
                            4,
                            key,
                        );
                    if j < i {
                        assert(map0.contains_key(key));
                    }
                }
            }
        }
        i += 1;
    }
    proof {
        lemma_keys_are_dual_vertices(g, es, index_map@);
        assert(numbered(g, links@, index_map@)) by {
            assert forall|v: int| 0 <= v < links@.len() implies index_map@.contains_key(
                (#[trigger] links@[v]).key,
            ) && index_map@[links@[v].key] == v && links_complete(g, links@[v]) by {
                assert(leaf_pending(g, vertices@[v], links@[v]));
            }
        }
    }
    let mut v: usize = 0;
    while v < vertices.len()
        invariant
            v <= vertices@.len(),
            vertices@.len() == links@.len(),
            numbered(g, links@, index_map@),
            forall|w: int| 0 <= w < v ==> leaf_resolved(#[trigger] vertices@[w], links@[w], index_map@),
            forall|w: int| v <= w < vertices@.len() ==> is_leaf(#[trigger] vertices@[w], links@[w].key),
        decreases vertices@.len() - v,
    {
        let ghost before = vertices@;
        proof {
            let ll = links@[v as int];
            assert(links_complete(g, ll));
            assert forall|face: int, k: int|
                0 <= face < 6 && 0 <= k < ll.across[face]@.len() implies index_map@.contains_key(
                #[trigger] ll.across[face]@[k],
            ) by {
                assert(ll.across[face]@.contains(ll.across[face]@[k]));
            }
        }
        let resolved = resolve_links(&links[v], &index_map);
        vertices[v].neighbors = resolved;
        proof {
            assert forall|w: int| 0 <= w < v + 1 implies leaf_resolved(
                #[trigger] vertices@[w],
                links@[w],
                index_map@,
            ) by {
                if w < v {
                    assert(vertices@[w] == before[w]);
                }
            }
            assert forall|w: int| v + 1 <= w < vertices@.len() implies is_leaf(
                #[trigger] vertices@[w],
                links@[w].key,
            ) by {
                assert(vertices@[w] == before[w]);
            }
        }
        v += 1;
    }
    proof {
        lemma_leaf_layer(g, vertices@, links@, index_map@);
        assert forall|w: int| 0 <= w < vertices@.len() implies (
        #[trigger] vertices@[w]).euler_characteristic == 1 && forall|e: int|
            0 <= e < 12 ==> vertices@[w].edge_intersections[e] <= 1 by {
            assert(leaf_resolved(vertices@[w], links@[w], index_map@));
        }
        lemma_leaves_weight(vertices@);
    }
    Ok((vertices, index_map))
}

} // verus!
