use std::collections::BTreeMap;
use tessellation::bitset::BitSet;
use tessellation::edge::{Edge, EdgeIndex};
use tessellation::edge_grid::generate_edge_grid;
use tessellation::engine::grow_octree;
use tessellation::face::face_to_vec;
use tessellation::leaf::generate_leaf_vertices;
use tessellation::quads::{
    climb_from_leaf, compute_quad, leaf_for, lookup_cell_point, mesh_vertex_for, MeshTopology,
};
use tessellation::solve::{solve_qefs, QefSolver};
use tessellation::vertex::{QefState, Residual, Vertex};

struct Always(Residual, usize);

impl QefSolver for Always {
    fn solve(&mut self, _: &Vec<Vec<Vertex>>, _: usize, _: usize) -> Residual {
        self.1 += 1;
        self.0
    }
}

/// A block of 6^3 corners, negative in the cube of the corners 2..=3.
fn grid() -> BTreeMap<(usize, usize, usize), i64> {
    let mut grid = BTreeMap::new();
    for z in 0..6 {
        for y in 0..6 {
            for x in 0..6 {
                let inside = (2..4).contains(&x) && (2..4).contains(&y) && (2..4).contains(&z);
                grid.insert((x, y, z), if inside { -1 } else { 1 });
            }
        }
    }
    grid
}

fn octree() -> (BTreeMap<(usize, usize, usize), i64>, Vec<EdgeIndex>, BTreeMap<(usize, usize, usize, u32), usize>, Vec<Vec<Vertex>>) {
    let grid = grid();
    let edges = generate_edge_grid(&grid);
    let (leaves, map) = generate_leaf_vertices(&grid, &edges).unwrap();
    let tree = grow_octree(leaves).unwrap();
    (grid, edges, map, tree)
}

#[test]
fn small_cube_has_a_leaf_in_each_of_27_cells_but_the_middle() {
    let (_, edges, map, tree) = octree();
    // 8 negative corners with 3 outward edges each
    assert_eq!(edges.len(), 24);
    assert_eq!(map.len(), 26);
    assert_eq!(tree[0].len(), 26);
    // the leaves lie in the cells 1..=3, which eight cells of twice the size hold
    assert_eq!(tree[1].len(), 8);
    assert_eq!(tree[2].len(), 1);
    assert_eq!(tree.len(), 3);
    assert_eq!(tree[2][0].children, vec![0, 1, 2, 3, 4, 5, 6, 7]);
    assert_eq!(tree[2][0].index, [0, 0, 0]);
}

#[test]
fn leaf_of_an_edge() {
    let (grid, _, map, _) = octree();
    // the edge A of cell (1, 2, 2) runs from the positive corner (1, 2, 2)
    // to the negative corner (2, 2, 2)
    let leaf = leaf_for(&grid, &map, Edge::A, [1, 2, 2]);
    let key = (1, 2, 2, BitSet::from_4bits(0, 3, 6, 9).as_u32());
    assert_eq!(leaf, map[&key]);
    // in the cell (1, 1, 1) the corner (2, 2, 2) is corner 7
    let corner = leaf_for(&grid, &map, Edge::J, [1, 1, 1]);
    assert_eq!(corner, map[&(1, 1, 1, BitSet::from_3bits(9, 10, 11).as_u32())]);
}

/// Gives the top layer a residual below minus the tolerance, every other
/// layer one within it.
struct TopExceeds(usize);

impl QefSolver for TopExceeds {
    fn solve(&mut self, _: &Vec<Vec<Vertex>>, layer: usize, _: usize) -> Residual {
        if layer == self.0 {
            Residual::Below
        } else {
            Residual::Within
        }
    }
}

#[test]
fn climb_stops_at_the_leaf_below_an_unsolved_parent() {
    let (_, _, _, mut tree) = octree();
    assert_eq!(tree.len(), 3);
    for leaf in 0..tree[0].len() {
        assert_eq!(climb_from_leaf(&tree, leaf), (0, leaf));
    }
    // only the top is solved where its residual is within the tolerance
    solve_qefs(&mut tree, &mut Always(Residual::Within, 0));
    for leaf in 0..tree[0].len() {
        assert_eq!(climb_from_leaf(&tree, leaf), (0, leaf));
    }
}

#[test]
fn climb_stops_below_the_top() {
    let (_, _, _, mut tree) = octree();
    assert_eq!(tree.len(), 3);
    solve_qefs(&mut tree, &mut TopExceeds(2));
    let mut up = 0;
    for leaf in 0..tree[0].len() {
        let parent = tree[0][leaf].parent.unwrap();
        assert_eq!(tree[1][parent].qef, QefState::Solved(Residual::Within));
        if tree[1][parent].is_2manifold() {
            assert_eq!(climb_from_leaf(&tree, leaf), (1, parent));
            up += 1;
        } else {
            assert_eq!(climb_from_leaf(&tree, leaf), (0, leaf));
        }
    }
    assert!(up > 0);
}

/// A chain of single vertices, layer upon layer, all solved within the
/// tolerance but the leaf.
fn chain(depth: usize, manifold: &[bool]) -> Vec<Vec<Vertex>> {
    let mut tree = Vec::new();
    for layer in 0..depth {
        let mut edge_intersections = [0u32; 12];
        if !manifold[layer] {
            edge_intersections[0] = 1;
        }
        tree.push(vec![Vertex {
            index: [0, 0, 0],
            qef: if layer == 0 { QefState::Unsolved } else { QefState::Solved(Residual::Within) },
            neighbors: [Vec::new(), Vec::new(), Vec::new(), Vec::new(), Vec::new(), Vec::new()],
            parent: if layer + 1 < depth { Some(0) } else { None },
            children: if layer > 0 { vec![0] } else { Vec::new() },
            mesh_index: None,
            edge_intersections,
            euler_characteristic: 1,
        }]);
    }
    tree
}

#[test]
fn climb_goes_up_through_manifold_parents_solved_within_the_tolerance() {
    let tree = chain(5, &[true; 5]);
    assert_eq!(climb_from_leaf(&tree, 0), (3, 0));
    let single = chain(1, &[true]);
    assert_eq!(climb_from_leaf(&single, 0), (0, 0));
    let two = chain(2, &[true, true]);
    assert_eq!(climb_from_leaf(&two, 0), (0, 0));
}

#[test]
fn climb_stops_below_an_unsolved_parent() {
    let mut tree = chain(5, &[true; 5]);
    tree[2][0].qef = QefState::Unsolved;
    assert_eq!(climb_from_leaf(&tree, 0), (1, 0));
    tree[1][0].qef = QefState::Unsolved;
    assert_eq!(climb_from_leaf(&tree, 0), (0, 0));
}

#[test]
fn climb_stops_below_a_parent_that_is_no_manifold() {
    let tree = chain(5, &[true, true, false, true, true]);
    assert_eq!(climb_from_leaf(&tree, 0), (1, 0));
    let leaf = chain(5, &[false, true, true, true, true]);
    assert_eq!(climb_from_leaf(&leaf, 0), (3, 0));
    let first = chain(5, &[true, false, true, true, true]);
    assert_eq!(climb_from_leaf(&first, 0), (0, 0));
}

#[test]
fn climb_stops_below_a_parent_with_a_residual_above_the_tolerance() {
    let mut tree = chain(5, &[true; 5]);
    tree[2][0].qef = QefState::Solved(Residual::Above);
    assert_eq!(climb_from_leaf(&tree, 0), (1, 0));
    tree[2][0].qef = QefState::Solved(Residual::Within);
    assert_eq!(climb_from_leaf(&tree, 0), (3, 0));
    tree[2][0].qef = QefState::Solved(Residual::Below);
    assert_eq!(climb_from_leaf(&tree, 0), (3, 0));
}

#[test]
fn mesh_vertices_are_numbered_as_they_come() {
    let mut tree = chain(4, &[true; 4]);
    let mut sources = Vec::new();
    let mut solver = Always(Residual::Within, 0);
    assert_eq!(mesh_vertex_for(&mut tree, &mut sources, &mut solver, 0), 0);
    assert_eq!(sources, vec![(2, 0)]);
    assert_eq!(tree[2][0].mesh_index, Some(0));
    assert_eq!(tree[2][0].qef, QefState::Solved(Residual::Within));
    // the vertex had been solved
    assert_eq!(solver.1, 0);
    // a second time the vertex is in the mesh already
    assert_eq!(mesh_vertex_for(&mut tree, &mut sources, &mut solver, 0), 0);
    assert_eq!(sources, vec![(2, 0)]);
    assert_eq!(solver.1, 0);
    // a leaf that is not solved is solved as it is taken
    let mut tree = chain(2, &[true; 2]);
    let mut sources = vec![(1, 0)];
    tree[1][0].mesh_index = Some(0);
    let mut above = Always(Residual::Above, 0);
    assert_eq!(mesh_vertex_for(&mut tree, &mut sources, &mut above, 0), 1);
    assert_eq!(sources, vec![(1, 0), (0, 0)]);
    assert_eq!(tree[0][0].qef, QefState::Solved(Residual::Above));
    assert_eq!(above.1, 1);
    // and a second lookup gives the same vertex, whatever its residual
    assert_eq!(mesh_vertex_for(&mut tree, &mut sources, &mut above, 0), 1);
    assert_eq!(sources, vec![(1, 0), (0, 0)]);
    assert_eq!(above.1, 1);
}

#[test]
fn lookup_below_an_unsolved_parent_is_repeatable() {
    // the middle vertex is not solved: the walk ends at the leaf, also after
    // the leaf has been solved with a residual above the tolerance
    let mut tree = chain(3, &[true; 3]);
    tree[1][0].qef = QefState::Unsolved;
    let mut sources = Vec::new();
    let mut solver = Always(Residual::Above, 0);
    assert_eq!(climb_from_leaf(&tree, 0), (0, 0));
    assert_eq!(mesh_vertex_for(&mut tree, &mut sources, &mut solver, 0), 0);
    assert_eq!(sources, vec![(0, 0)]);
    assert_eq!(climb_from_leaf(&tree, 0), (0, 0));
    assert_eq!(mesh_vertex_for(&mut tree, &mut sources, &mut solver, 0), 0);
    assert_eq!(sources, vec![(0, 0)]);
    assert_eq!(solver.1, 1);
    assert_eq!(tree[1][0].qef, QefState::Unsolved);
}

#[test]
fn quad_of_an_edge_joins_the_four_cells_around_it() {
    let (grid, _, map, mut tree) = octree();
    let mut solver = Always(Residual::Above, 0);
    solve_qefs(&mut tree, &mut solver);
    let mut mesh = MeshTopology { vertices: Vec::new(), faces: Vec::new() };
    // the lattice edge from (1, 2, 2) to the negative corner (2, 2, 2)
    let edge = EdgeIndex { edge: Edge::A, index: [1, 2, 2] };
    compute_quad(&grid, &map, &mut tree, &mut mesh, &mut solver, edge);
    let cells: Vec<[usize; 3]> = mesh.vertices.iter().map(|&(l, i)| tree[l][i].index).collect();
    assert_eq!(cells, vec![[1, 2, 2], [1, 2, 1], [1, 1, 1], [1, 1, 2]]);
    let faces: Vec<Vec<usize>> = mesh.faces.iter().map(face_to_vec).collect();
    assert_eq!(faces, vec![vec![0, 1, 2], vec![2, 3, 0]]);
    // the edge from the negative corner (3, 2, 2) to (4, 2, 2) is walked the
    // other way round
    let back = EdgeIndex { edge: Edge::A, index: [3, 2, 2] };
    compute_quad(&grid, &map, &mut tree, &mut mesh, &mut solver, back);
    let faces: Vec<Vec<usize>> = mesh.faces.iter().map(face_to_vec).collect();
    assert_eq!(faces[2..], [vec![7, 6, 5], vec![5, 4, 7]]);
    // the same cell point comes under the same number
    let again = lookup_cell_point(&grid, &map, &mut tree, &mut mesh.vertices, &mut solver, Edge::A, [1, 2, 2]);
    assert_eq!(again, 0);
    assert_eq!(mesh.vertices.len(), 8);
}

#[test]
fn quad_with_fewer_than_three_vertices_is_dropped() {
    let (grid, _, map, mut tree) = octree();
    let mut solver = Always(Residual::Above, 0);
    solve_qefs(&mut tree, &mut solver);
    // all four leaves around the edge come under the same number
    let around: Vec<usize> = [(Edge::A, [1, 2, 2]), (Edge::G, [1, 2, 1]), (Edge::J, [1, 1, 1]), (Edge::D, [1, 1, 2])]
        .iter()
        .map(|&(e, idx)| leaf_for(&grid, &map, e, idx))
        .collect();
    for &leaf in &around {
        tree[0][leaf].mesh_index = Some(0);
    }
    // the mesh is not well-formed after this, which the quad does not see
    let mut mesh = MeshTopology { vertices: vec![(0, around[0])], faces: Vec::new() };
    let edge = EdgeIndex { edge: Edge::A, index: [1, 2, 2] };
    compute_quad(&grid, &map, &mut tree, &mut mesh, &mut solver, edge);
    assert!(mesh.faces.is_empty());
    assert_eq!(mesh.vertices.len(), 1);
}
