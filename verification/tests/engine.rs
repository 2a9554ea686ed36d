use std::collections::BTreeMap;
use std::collections::BTreeSet;
use tessellation::engine::ManifoldDualContouringImpl;
use tessellation::error::DualContouringError;
use tessellation::face::face_to_vec;
use tessellation::quads::MeshTopology;
use tessellation::solve::QefSolver;
use tessellation::value_grid::LatticeField;
use tessellation::vertex::{QefState, Residual, Vertex};

/// A sphere on the lattice: center and radius in cells.
struct Sphere {
    center: [f64; 3],
    radius: f64,
}

fn quantize(d: f64) -> i64 {
    if d == 0.0 {
        0
    } else {
        let m = (d.abs() / 3f64.sqrt()).ceil().max(1.0) as i64;
        if d < 0.0 {
            -m
        } else {
            m
        }
    }
}

impl LatticeField for Sphere {
    fn value(&self, idx: [usize; 3]) -> i64 {
        let dx = idx[0] as f64 - self.center[0];
        let dy = idx[1] as f64 - self.center[1];
        let dz = idx[2] as f64 - self.center[2];
        quantize((dx * dx + dy * dy + dz * dz).sqrt() - self.radius)
    }
}

/// Two spheres: the field is the lesser of the two distances.
struct TwoSpheres {
    a: Sphere,
    b: Sphere,
}

impl LatticeField for TwoSpheres {
    fn value(&self, idx: [usize; 3]) -> i64 {
        let d = |s: &Sphere| {
            let dx = idx[0] as f64 - s.center[0];
            let dy = idx[1] as f64 - s.center[1];
            let dz = idx[2] as f64 - s.center[2];
            (dx * dx + dy * dy + dz * dz).sqrt() - s.radius
        };
        quantize(d(&self.a).min(d(&self.b)))
    }
}

/// A cube in the Chebyshev norm.
struct Cube {
    center: [f64; 3],
    half: f64,
}

impl LatticeField for Cube {
    fn value(&self, idx: [usize; 3]) -> i64 {
        let dx = (idx[0] as f64 - self.center[0]).abs();
        let dy = (idx[1] as f64 - self.center[1]).abs();
        let dz = (idx[2] as f64 - self.center[2]).abs();
        quantize(dx.max(dy).max(dz) - self.half)
    }
}

/// The half space below the plane y = height.
struct Floor {
    height: f64,
}

impl LatticeField for Floor {
    fn value(&self, idx: [usize; 3]) -> i64 {
        quantize(idx[1] as f64 - self.height)
    }
}

/// A solver that gives every function the same residual and counts its
/// calls.
struct Always {
    residual: Residual,
    calls: usize,
}

impl QefSolver for Always {
    fn solve(&mut self, octree: &Vec<Vec<Vertex>>, layer: usize, index: usize) -> Residual {
        assert!(octree[layer][index].qef == QefState::Unsolved);
        self.calls += 1;
        self.residual
    }
}

fn run<F: LatticeField>(field: &F, dim: usize, residual: Residual) -> (ManifoldDualContouringImpl, MeshTopology, usize) {
    let mut engine = ManifoldDualContouringImpl::new([dim, dim, dim]);
    let mut solver = Always { residual, calls: 0 };
    let mesh = engine.try_tessellate(field, &mut solver).expect("tessellation succeeds");
    (engine, mesh, solver.calls)
}

/// The mean of the centers of the leaf cells below a vertex.
fn position(tree: &Vec<Vec<Vertex>>, layer: usize, index: usize) -> [f64; 3] {
    let v = &tree[layer][index];
    if layer == 0 {
        return [v.index[0] as f64 + 0.5, v.index[1] as f64 + 0.5, v.index[2] as f64 + 0.5];
    }
    let mut sum = [0.0; 3];
    for &c in v.children.iter() {
        let p = position(tree, layer - 1, c);
        for k in 0..3 {
            sum[k] += p[k];
        }
    }
    let n = v.children.len() as f64;
    [sum[0] / n, sum[1] / n, sum[2] / n]
}

fn faces_of(mesh: &MeshTopology) -> Vec<Vec<usize>> {
    mesh.faces.iter().map(|f| face_to_vec(f)).collect()
}

/// V - E + F of a mesh of triangles, and whether every edge is walked once
/// in each direction.
fn euler_and_closed(mesh: &MeshTopology) -> (i64, bool) {
    let faces = faces_of(mesh);
    let mut directed: BTreeMap<(usize, usize), usize> = BTreeMap::new();
    for f in &faces {
        for k in 0..3 {
            *directed.entry((f[k], f[(k + 1) % 3])).or_insert(0) += 1;
        }
    }
    let mut closed = true;
    let mut edges: BTreeSet<(usize, usize)> = BTreeSet::new();
    for (&(a, b), &n) in &directed {
        if n != 1 || directed.get(&(b, a)) != Some(&1) {
            closed = false;
        }
        edges.insert((a.min(b), a.max(b)));
    }
    let used: BTreeSet<usize> = faces.iter().flatten().copied().collect();
    (used.len() as i64 - edges.len() as i64 + faces.len() as i64, closed)
}

fn components(mesh: &MeshTopology) -> usize {
    let n = mesh.vertices.len();
    let mut root: Vec<usize> = (0..n).collect();
    fn find(root: &mut Vec<usize>, mut a: usize) -> usize {
        while root[a] != a {
            root[a] = root[root[a]];
            a = root[a];
        }
        a
    }
    let faces = faces_of(mesh);
    for f in &faces {
        for k in 1..f.len() {
            let a = find(&mut root, f[0]);
            let b = find(&mut root, f[k]);
            root[a] = b;
        }
    }
    let used: BTreeSet<usize> = faces.iter().flatten().copied().collect();
    let roots: BTreeSet<usize> = used.iter().map(|&v| find(&mut root, v)).collect();
    roots.len()
}

#[test]
fn sphere_is_closed_surface() {
    let sphere = Sphere { center: [7.3, 7.4, 7.6], radius: 5.0 };
    let (_, mesh, _) = run(&sphere, 15, Residual::Above);
    assert!(!mesh.faces.is_empty());
    let (euler, closed) = euler_and_closed(&mesh);
    assert!(closed);
    assert_eq!(euler, 2);
    assert_eq!(components(&mesh), 1);
}

#[test]
fn sphere_winding_points_outwards() {
    let sphere = Sphere { center: [7.3, 7.4, 7.6], radius: 5.0 };
    let (engine, mesh, _) = run(&sphere, 15, Residual::Above);
    let tree = &engine.vertex_octtree;
    for f in faces_of(&mesh) {
        let p: Vec<[f64; 3]> = f.iter().map(|&m| {
            let (layer, index) = mesh.vertices[m];
            position(tree, layer, index)
        }).collect();
        let u = [p[1][0] - p[0][0], p[1][1] - p[0][1], p[1][2] - p[0][2]];
        let v = [p[2][0] - p[0][0], p[2][1] - p[0][1], p[2][2] - p[0][2]];
        let normal = [u[1] * v[2] - u[2] * v[1], u[2] * v[0] - u[0] * v[2], u[0] * v[1] - u[1] * v[0]];
        let mut dot = 0.0;
        for k in 0..3 {
            let centroid = (p[0][k] + p[1][k] + p[2][k]) / 3.0 - sphere.center[k];
            dot += normal[k] * centroid;
        }
        assert!(dot > 0.0, "face {:?} has dot {}", f, dot);
    }
}

#[test]
fn cube_is_closed_surface() {
    let cube = Cube { center: [7.3, 7.4, 7.6], half: 4.0 };
    let (_, mesh, _) = run(&cube, 15, Residual::Above);
    let (euler, closed) = euler_and_closed(&mesh);
    assert!(closed);
    assert_eq!(euler, 2);
    assert_eq!(components(&mesh), 1);
}

#[test]
fn two_disjoint_spheres_make_two_components() {
    let field = TwoSpheres {
        a: Sphere { center: [8.3, 8.4, 8.6], radius: 4.0 },
        b: Sphere { center: [22.3, 20.4, 21.6], radius: 5.0 },
    };
    let (_, mesh, _) = run(&field, 30, Residual::Above);
    let (euler, closed) = euler_and_closed(&mesh);
    assert!(closed);
    assert_eq!(euler, 4);
    assert_eq!(components(&mesh), 2);
}

#[test]
fn tangent_spheres_hit_zero_until_the_origin_moves() {
    let aligned = TwoSpheres {
        a: Sphere { center: [5.5, 8.0, 8.0], radius: 2.5 },
        b: Sphere { center: [10.5, 8.0, 8.0], radius: 2.5 },
    };
    let mut engine = ManifoldDualContouringImpl::new([15, 15, 15]);
    let mut solver = Always { residual: Residual::Above, calls: 0 };
    // the spheres touch at a corner of the lattice
    assert_eq!(aligned.value([8, 8, 8]), 0);
    let r = engine.try_tessellate(&aligned, &mut solver);
    match r {
        Err(DualContouringError::HitZero(at)) => {
            assert_eq!(aligned.value(at), 0);
            // the first zero on the way through the cubes
            assert_eq!(at, [4, 8, 6]);
        }
        _ => panic!("a zero must stop the attempt"),
    }
    assert_eq!(solver.calls, 0);
    // the origin moves by a tenth of a cell along each axis
    engine.reset();
    assert!(engine.value_grid.is_empty() && engine.vertex_octtree.is_empty());
    let moved = TwoSpheres {
        a: Sphere { center: [5.6, 8.1, 8.1], radius: 2.5 },
        b: Sphere { center: [10.6, 8.1, 8.1], radius: 2.5 },
    };
    let mesh = engine.try_tessellate(&moved, &mut solver).unwrap();
    let (euler, closed) = euler_and_closed(&mesh);
    assert!(closed);
    // the corners (8, 8, 8) and (9, 8, 8) next to the point of contact are
    // both negative: on the lattice the two balls are one body
    assert!(moved.value([8, 8, 8]) < 0 && moved.value([9, 8, 8]) < 0);
    assert_eq!(components(&mesh), 1);
    assert_eq!(euler, 2);
}

#[test]
fn plane_runs_off_the_lattice() {
    let mut engine = ManifoldDualContouringImpl::new([15, 15, 15]);
    let mut solver = Always { residual: Residual::Above, calls: 0 };
    let r = engine.try_tessellate(&Floor { height: 7.5 }, &mut solver);
    assert!(matches!(r, Err(DualContouringError::MissingValue(_))));
}

#[test]
fn top_of_a_box_is_flat() {
    let cube = Cube { center: [7.5, 7.5, 7.5], half: 4.2 };
    let (engine, mesh, _) = run(&cube, 15, Residual::Above);
    // the vertices of the faces whose corners all lie in the top cells
    let mut flat = 0;
    for f in faces_of(&mesh) {
        let cells: Vec<[usize; 3]> = f.iter().map(|&m| {
            let (layer, index) = mesh.vertices[m];
            assert_eq!(layer, 0);
            engine.vertex_octtree[0][index].index
        }).collect();
        if cells.iter().all(|c| c[1] == 11 && (4..11).contains(&c[0]) && (4..11).contains(&c[2])) {
            flat += 1;
        }
    }
    // 6 x 6 quads of two triangles each
    assert_eq!(flat, 72);
}

#[test]
fn thin_shell_has_two_surfaces() {
    struct Shell;
    impl LatticeField for Shell {
        fn value(&self, idx: [usize; 3]) -> i64 {
            let dx = idx[0] as f64 - 15.3;
            let dy = idx[1] as f64 - 15.4;
            let dz = idx[2] as f64 - 15.6;
            quantize(((dx * dx + dy * dy + dz * dz).sqrt() - 10.0).abs() - 1.3)
        }
    }
    let (_, mesh, _) = run(&Shell, 31, Residual::Above);
    assert!(!mesh.faces.is_empty());
    let (euler, closed) = euler_and_closed(&mesh);
    assert!(closed);
    assert_eq!(components(&mesh), 2);
    assert_eq!(euler, 4);
}

#[test]
fn every_function_is_solved_where_all_residuals_exceed() {
    let sphere = Sphere { center: [7.3, 7.4, 7.6], radius: 5.0 };
    let mut engine = ManifoldDualContouringImpl::new([15, 15, 15]);
    let mut solver = Always { residual: Residual::Above, calls: 0 };
    assert_eq!(engine.tessellation_step1(&sphere), None);
    let sampled = engine.value_grid.len();
    engine.compact_value_grid();
    assert!(engine.value_grid.len() < sampled);
    engine.generate_edge_grid();
    assert!(!engine.edge_grid.is_empty());
    let (leaves, map) = engine.generate_leaf_vertices().unwrap();
    assert_eq!(leaves.len(), map.len());
    engine.vertex_index_map = map;
    engine.vertex_octtree = tessellation::engine::grow_octree(leaves).unwrap();
    let total: usize = engine.vertex_octtree.iter().map(|l| l.len()).sum();
    let solved = engine.solve_qefs(&mut solver);
    assert_eq!(solved, total);
    assert_eq!(solver.calls, total);
    for layer in &engine.vertex_octtree {
        for v in layer {
            assert_eq!(v.qef, QefState::Solved(Residual::Above));
        }
    }
    let edges = engine.edge_grid.clone();
    for e in edges {
        engine.compute_quad(&mut solver, e);
    }
    // no function is solved a second time for the quads
    assert_eq!(solver.calls, total);
    let (euler, closed) = euler_and_closed(&engine.mesh);
    assert!(closed);
    assert_eq!(euler, 2);
}

#[test]
fn only_the_top_is_solved_at_first_where_all_residuals_are_within() {
    let sphere = Sphere { center: [7.3, 7.4, 7.6], radius: 5.0 };
    let mut engine = ManifoldDualContouringImpl::new([15, 15, 15]);
    let mut solver = Always { residual: Residual::Within, calls: 0 };
    assert_eq!(engine.tessellation_step1(&sphere), None);
    engine.compact_value_grid();
    engine.generate_edge_grid();
    let (leaves, map) = engine.generate_leaf_vertices().unwrap();
    engine.vertex_index_map = map;
    engine.vertex_octtree = tessellation::engine::grow_octree(leaves).unwrap();
    let depth = engine.vertex_octtree.len();
    assert!(depth >= 3);
    let top = engine.vertex_octtree[depth - 1].len();
    assert_eq!(engine.solve_qefs(&mut solver), top);
    for (n, layer) in engine.vertex_octtree.iter().enumerate() {
        for v in layer {
            assert_eq!(v.qef.is_solved(), n == depth - 1);
        }
    }
    engine.compute_quads(&mut solver);
    let mesh = &engine.mesh;
    // no parent of a leaf is solved: every vertex of the mesh is a leaf,
    // solved as it was taken
    for (m, &(layer, index)) in mesh.vertices.iter().enumerate() {
        let v = &engine.vertex_octtree[layer][index];
        assert_eq!(layer, 0);
        assert_eq!(v.mesh_index, Some(m));
        assert!(v.qef.is_solved());
    }
    assert_eq!(solver.calls, top + mesh.vertices.len());
    let (_, fine, _) = run(&sphere, 15, Residual::Above);
    assert_eq!(mesh.faces.len(), fine.faces.len());
}

#[test]
fn the_mesh_is_coarse_where_all_residuals_are_below_the_tolerance() {
    let sphere = Sphere { center: [7.3, 7.4, 7.6], radius: 5.0 };
    let (engine, mesh, calls) = run(&sphere, 15, Residual::Below);
    let tree = &engine.vertex_octtree;
    let depth = tree.len();
    assert!(depth >= 3);
    // every function is solved, once
    let total: usize = tree.iter().map(|l| l.len()).sum();
    assert_eq!(calls, total);
    // every vertex of the mesh lies below the top layer; all above the
    // leaves on the way to it are 2-manifolds; and it is in the layer below
    // the top or has a parent that is no 2-manifold
    let mut above_leaves = 0;
    for (m, &(layer, index)) in mesh.vertices.iter().enumerate() {
        let v = &tree[layer][index];
        assert_eq!(v.mesh_index, Some(m));
        assert!(layer + 2 <= depth);
        if layer > 0 {
            assert!(v.is_2manifold());
            above_leaves += 1;
        }
        if layer + 2 < depth {
            assert!(!tree[layer + 1][v.parent.unwrap()].is_2manifold());
        }
    }
    assert!(above_leaves > 0);
    let (_, fine, _) = run(&sphere, 15, Residual::Above);
    assert!(mesh.faces.len() < fine.faces.len());
    assert!(!mesh.faces.is_empty());
}

#[test]
fn children_of_exceeding_vertices_are_solved() {
    // the top layer exceeds, the layer below is within: two layers are solved
    struct TopExceeds {
        top: usize,
        calls: usize,
    }
    impl QefSolver for TopExceeds {
        fn solve(&mut self, _: &Vec<Vec<Vertex>>, layer: usize, _: usize) -> Residual {
            self.calls += 1;
            if layer == self.top {
                Residual::Below
            } else {
                Residual::Within
            }
        }
    }
    let sphere = Sphere { center: [7.3, 7.4, 7.6], radius: 5.0 };
    let mut engine = ManifoldDualContouringImpl::new([15, 15, 15]);
    assert_eq!(engine.tessellation_step1(&sphere), None);
    engine.compact_value_grid();
    engine.generate_edge_grid();
    let (leaves, map) = engine.generate_leaf_vertices().unwrap();
    engine.vertex_index_map = map;
    engine.vertex_octtree = tessellation::engine::grow_octree(leaves).unwrap();
    let depth = engine.vertex_octtree.len();
    let mut solver = TopExceeds { top: depth - 1, calls: 0 };
    let expected = engine.vertex_octtree[depth - 1].len() + engine.vertex_octtree[depth - 2].len();
    assert_eq!(engine.solve_qefs(&mut solver), expected);
    for (n, layer) in engine.vertex_octtree.iter().enumerate() {
        for v in layer {
            assert_eq!(v.qef.is_solved(), n + 2 >= depth);
        }
    }
}

#[test]
fn neighbor_links_are_symmetric_in_every_layer() {
    let field = TwoSpheres {
        a: Sphere { center: [8.3, 8.4, 8.6], radius: 4.0 },
        b: Sphere { center: [12.3, 14.4, 10.6], radius: 5.0 },
    };
    let (engine, _, _) = run(&field, 30, Residual::Above);
    assert!(engine.vertex_octtree.len() >= 3);
    for layer in &engine.vertex_octtree {
        for (u, vertex) in layer.iter().enumerate() {
            for face in 0..6 {
                for &v in &vertex.neighbors[face] {
                    assert!(layer[v].neighbors[face ^ 1].contains(&u));
                    let mut expected = vertex.index;
                    if face % 2 == 0 {
                        expected[face / 2] -= 1;
                    } else {
                        expected[face / 2] += 1;
                    }
                    assert_eq!(layer[v].index, expected);
                }
            }
        }
    }
}

#[test]
fn every_child_has_one_parent() {
    let sphere = Sphere { center: [7.3, 7.4, 7.6], radius: 5.0 };
    let (engine, _, _) = run(&sphere, 15, Residual::Above);
    let tree = &engine.vertex_octtree;
    for l in 0..tree.len() - 1 {
        let total: usize = tree[l + 1].iter().map(|p| p.children.len()).sum();
        assert_eq!(total, tree[l].len());
        let mut seen = vec![false; tree[l].len()];
        for (p, parent) in tree[l + 1].iter().enumerate() {
            assert!(!parent.children.is_empty());
            for &c in &parent.children {
                assert!(!seen[c]);
                seen[c] = true;
                assert_eq!(tree[l][c].parent, Some(p));
                assert_eq!(
                    [tree[l][c].index[0] / 2, tree[l][c].index[1] / 2, tree[l][c].index[2] / 2],
                    parent.index
                );
            }
        }
        assert!(seen.iter().all(|&s| s));
        assert!(tree[l + 1].len() < tree[l].len());
    }
}

#[test]
fn euler_accounting_holds_for_every_parent() {
    let outside: [[usize; 3]; 8] = [
        [0, 1, 2],
        [0, 4, 5],
        [1, 3, 8],
        [3, 4, 11],
        [2, 6, 7],
        [5, 6, 10],
        [7, 8, 9],
        [9, 10, 11],
    ];
    let field = TwoSpheres {
        a: Sphere { center: [8.3, 8.4, 8.6], radius: 4.0 },
        b: Sphere { center: [12.3, 14.4, 10.6], radius: 5.0 },
    };
    let (engine, _, _) = run(&field, 30, Residual::Above);
    let tree = &engine.vertex_octtree;
    for l in 0..tree.len() - 1 {
        for parent in &tree[l + 1] {
            let mut sum = 0i32;
            let mut inner = 0u32;
            let mut outer = [0u32; 12];
            for &c in &parent.children {
                let child = &tree[l][c];
                let corner = (child.index[0] & 1) | (child.index[1] & 1) << 1 | (child.index[2] & 1) << 2;
                for e in 0..12 {
                    if outside[corner].contains(&e) {
                        outer[e] += child.edge_intersections[e];
                    } else {
                        inner += child.edge_intersections[e];
                    }
                }
                sum += child.euler_characteristic;
            }
            assert_eq!(inner % 4, 0);
            assert_eq!(parent.euler_characteristic, sum - inner as i32 / 4);
            assert_eq!(parent.edge_intersections, outer);
        }
    }
}

#[test]
fn faces_have_three_different_solved_vertices() {
    for residual in [Residual::Above, Residual::Within, Residual::Below] {
        let sphere = Sphere { center: [7.3, 7.4, 7.6], radius: 5.0 };
        let (engine, mesh, _) = run(&sphere, 15, residual);
        for f in faces_of(&mesh) {
            assert_eq!(f.len(), 3);
            assert!(f[0] != f[1] && f[1] != f[2] && f[0] != f[2]);
            for &m in &f {
                let (layer, index) = mesh.vertices[m];
                let v = &engine.vertex_octtree[layer][index];
                assert!(v.qef.is_solved());
                assert_eq!(v.mesh_index, Some(m));
            }
        }
        assert_eq!(mesh.vertices, engine.mesh.vertices);
        assert_eq!(faces_of(&mesh), faces_of(&engine.mesh));
    }
}

#[test]
fn the_same_field_gives_the_same_mesh() {
    let sphere = Sphere { center: [7.3, 7.4, 7.6], radius: 5.0 };
    let (_, first, _) = run(&sphere, 15, Residual::Below);
    let (_, second, _) = run(&sphere, 15, Residual::Below);
    assert_eq!(first.vertices, second.vertices);
    assert_eq!(faces_of(&first), faces_of(&second));
}

#[test]
fn field_without_surface_gives_an_empty_mesh() {
    struct Far;
    impl LatticeField for Far {
        fn value(&self, _: [usize; 3]) -> i64 {
            1000
        }
    }
    let (engine, mesh, calls) = run(&Far, 15, Residual::Above);
    assert!(mesh.faces.is_empty() && mesh.vertices.is_empty());
    assert!(engine.value_grid.is_empty());
    assert!(engine.edge_grid.is_empty());
    assert_eq!(engine.vertex_octtree.len(), 1);
    assert!(engine.vertex_octtree[0].is_empty());
    assert_eq!(calls, 0);
}

#[test]
fn too_many_leaves_stop_the_attempt() {
    let sphere = Sphere { center: [7.3, 7.4, 7.6], radius: 5.0 };
    let (engine, _, _) = run(&sphere, 15, Residual::Above);
    let leaves = engine.vertex_octtree[0].len();
    assert_eq!(engine.max_leaves, tessellation::engine::MAX_LEAVES);
    // one leaf fewer is allowed than there are
    let mut small = ManifoldDualContouringImpl::new([15, 15, 15]);
    small.max_leaves = leaves - 1;
    let mut solver = Always { residual: Residual::Above, calls: 0 };
    let r = small.try_tessellate(&sphere, &mut solver);
    assert_eq!(r.err(), Some(DualContouringError::TooManyVertices([leaves, leaves, leaves])));
    assert_eq!(solver.calls, 0);
    // as many as there are is enough
    small.reset();
    small.max_leaves = leaves;
    assert!(small.try_tessellate(&sphere, &mut solver).is_ok());
}
