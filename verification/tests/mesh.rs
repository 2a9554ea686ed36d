use tessellation::face::{face_of, face_to_vec};
use tessellation::mesh::{obj_header, push_decimal, Mesh, TriangleMesh};

fn f32slice_eq(a: &[f32], b: &[f32]) -> bool {
    assert_eq!(a.len(), b.len());
    for i in 0..a.len() {
        if (a[i] - b[i]).abs() > f32::EPSILON {
            return false;
        }
    }
    true
}

#[test]
fn simple() {
    let m = TriangleMesh {
        vertices: vec![[0., 0., 0.], [1., 0., 0.], [0., 1., 0.]],
        faces: vec![[0, 1, 2]],
    };
    assert!(f32slice_eq(&m.vertex::<f32>(0), &[0., 0., 0.]));
    assert!(f32slice_eq(&m.vertex::<f32>(1), &[1., 0., 0.]));
    assert!(f32slice_eq(&m.vertex::<f32>(2), &[0., 1., 0.]));
}

#[test]
fn faces_keep_their_vertices_in_order() {
    assert_eq!(face_to_vec(&face_of(&vec![4, 2, 9])), vec![4, 2, 9]);
    assert_eq!(face_to_vec(&face_of(&vec![1, 2, 3, 4, 5, 6])), vec![1, 2, 3, 4, 5, 6]);
    assert_eq!(face_to_vec(&face_of(&Vec::new())), Vec::<usize>::new());
    let f = face_of(&vec![7, 8, 9, 10]);
    assert_eq!(face_to_vec(&f.clone()), vec![7, 8, 9, 10]);
}

fn mesh() -> Mesh<f32> {
    Mesh {
        vertices: vec![[0., 0., 0.], [1., 0., 0.], [1., 1., 0.], [0., 1., 0.], [0., 0., 1.]],
        faces: vec![face_of(&vec![0, 1, 2, 3]), face_of(&vec![0, 1, 4]), face_of(&vec![3, 2, 1, 0])],
    }
}

#[test]
fn quads_are_split_along_the_first_diagonal() {
    let t = mesh().to_triangle_mesh();
    assert_eq!(t.vertices, mesh().vertices);
    assert_eq!(t.faces, vec![[0, 1, 2], [2, 3, 0], [0, 1, 4], [3, 2, 1], [1, 0, 3]]);
    let empty: Mesh<f32> = Mesh { vertices: Vec::new(), faces: Vec::new() };
    let t = empty.to_triangle_mesh();
    assert!(t.vertices.is_empty() && t.faces.is_empty());
}

#[test]
fn flat_topology_lists_arities_and_indices() {
    let (arities, indices) = mesh().flat_topology();
    assert_eq!(arities, vec![4, 3, 4]);
    assert_eq!(indices, vec![0, 1, 2, 3, 0, 1, 4, 3, 2, 1, 0]);
    let t = mesh().to_triangle_mesh();
    assert_eq!(t.flat_topology(), vec![0, 1, 2, 2, 3, 0, 0, 1, 4, 3, 2, 1, 1, 0, 3]);
}

#[test]
fn decimal_digits() {
    for (n, text) in [(0u128, "0"), (7, "7"), (10, "10"), (909, "909"), (18446744073709551616, "18446744073709551616")] {
        let mut out = b"x".to_vec();
        push_decimal(&mut out, n);
        assert_eq!(out, format!("x{}", text).into_bytes());
    }
}

#[test]
fn obj_lines_count_vertices_from_one() {
    assert_eq!(obj_header(), b"o SDFMesh\n".to_vec());
    let m = mesh();
    assert_eq!(m.to_obj_faces(false), b"f 1 2 3 4\nf 1 2 5\nf 4 3 2 1\n".to_vec());
    assert_eq!(m.to_obj_faces(true), b"f 4 3 2 1\nf 5 2 1\nf 1 2 3 4\n".to_vec());
    let big: Mesh<f32> = Mesh { vertices: Vec::new(), faces: vec![face_of(&vec![9, 99, usize::MAX])] };
    assert_eq!(
        big.to_obj_faces(false),
        format!("f 10 100 {}\n", usize::MAX as u128 + 1).into_bytes()
    );
}

#[test]
fn obj_file_has_header_vertices_and_faces() {
    let m = mesh();
    let coordinates: Vec<[Vec<u8>; 3]> = m
        .vertices
        .iter()
        .map(|v| {
            [
                format!("{}", v[0]).into_bytes(),
                format!("{}", v[1]).into_bytes(),
                format!("{}", v[2]).into_bytes(),
            ]
        })
        .collect();
    let expected = "o SDFMesh\nv 0 0 0\nv 1 0 0\nv 1 1 0\nv 0 1 0\nv 0 0 1\nf 1 2 3 4\nf 1 2 5\nf 4 3 2 1\n";
    assert_eq!(m.to_obj(false, &coordinates), expected.as_bytes().to_vec());
    let reversed = "o SDFMesh\nv 0 0 0\nv 1 0 0\nv 1 1 0\nv 0 1 0\nv 0 0 1\nf 4 3 2 1\nf 5 2 1\nf 1 2 3 4\n";
    assert_eq!(m.to_obj(true, &coordinates), reversed.as_bytes().to_vec());
    let empty: Mesh<f32> = Mesh { vertices: Vec::new(), faces: Vec::new() };
    assert_eq!(empty.to_obj(false, &Vec::new()), b"o SDFMesh\n".to_vec());
}

#[test]
fn triangle_mesh_from_a_mesh() {
    let t = TriangleMesh::from(mesh());
    assert_eq!(t, mesh().to_triangle_mesh());
    assert_eq!(t.vertices, mesh().vertices);
    assert_eq!(t.faces, vec![[0, 1, 2], [2, 3, 0], [0, 1, 4], [3, 2, 1], [1, 0, 3]]);
    // a face of five vertices gives the triangle of its first three, a face
    // of two vertices none
    let odd: Mesh<f32> = Mesh {
        vertices: Vec::new(),
        faces: vec![face_of(&vec![5, 6, 7, 8, 9]), face_of(&vec![1, 2]), face_of(&vec![3, 4, 5])],
    };
    let t: TriangleMesh<f32> = odd.into();
    assert_eq!(t.faces, vec![[5, 6, 7], [3, 4, 5]]);
}
