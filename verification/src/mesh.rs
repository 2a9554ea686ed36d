//! Polygon meshes: vertices and the faces that join them.

use vstd::prelude::*;
use vstd::std_specs::convert::FromSpec;
use crate::face::{face_at, face_indices, face_len, Face};

verus! {

/// A polygon mesh of (mostly) quads and triangles.
///
/// This can be tessellated further into a pure [`TriangleMesh`].
#[derive(Clone, Debug, PartialEq)]
pub struct Mesh<S> {
    /// The list of vertices.
    pub vertices: Vec<[S; 3]>,
    /// The list of faces as indexes into vertices.
    pub faces: Vec<Face>,
}

/// A mesh of triangles.
#[derive(Clone, Debug, PartialEq)]
pub struct TriangleMesh<S> {
    /// The list of vertices.
    pub vertices: Vec<[S; 3]>,
    /// The list of triangles as indexes into vertices.
    pub faces: Vec<[usize; 3]>,
}

/// The triangles that stand for a face: a face of four vertices is split
/// along the diagonal from its first to its third vertex; of any other face
/// the first three vertices make the triangle; a face of fewer than three
/// vertices has none.
pub open spec fn triangles_of(f: Seq<usize>) -> Seq<Seq<usize>> {
    if f.len() == 4 {
        seq![seq![f[0], f[1], f[2]], seq![f[2], f[3], f[0]]]
    } else if f.len() >= 3 {
        seq![seq![f[0], f[1], f[2]]]
    } else {
        Seq::empty()
    }
}

/// The triangles that stand for the faces, in the order of the faces.
pub open spec fn triangulated(faces: Seq<Face>) -> Seq<Seq<usize>>
    decreases faces.len(),
{
    if faces.len() == 0 {
        Seq::empty()
    } else {
        triangulated(faces.drop_last()) + triangles_of(face_indices(faces.last()))
    }
}

/// The vertex numbers of all faces, one face after the other.
pub open spec fn flattened(faces: Seq<Face>) -> Seq<usize>
    decreases faces.len(),
{
    if faces.len() == 0 {
        Seq::empty()
    } else {
        flattened(faces.drop_last()) + face_indices(faces.last())
    }
}

/// The vertex numbers of all triangles, one triangle after the other.
pub open spec fn flattened_triangles(faces: Seq<[usize; 3]>) -> Seq<usize>
    decreases faces.len(),
{
    if faces.len() == 0 {
        Seq::empty()
    } else {
        flattened_triangles(faces.drop_last()) + faces.last()@
    }
}

/// The decimal digits of `n`, as ASCII.
pub open spec fn decimal(n: nat) -> Seq<u8>
    decreases n,
{
    if n < 10 {
        seq![(48 + n) as u8]
    } else {
        decimal(n / 10).push((48 + n % 10) as u8)
    }
}

/// The text ` i` for each of the first `k` vertices of a face, where `i` is
/// the number of the vertex counted from 1; the vertices are taken from the
/// last to the first if `reverse` holds.
pub open spec fn face_numbers(f: Seq<usize>, reverse: bool, k: int) -> Seq<u8>
    decreases k,
{
    if k <= 0 {
        Seq::empty()
    } else {
        let i = if reverse {
            f[f.len() - k]
        } else {
            f[k - 1]
        };
        face_numbers(f, reverse, k - 1) + seq![32u8] + decimal((i + 1) as nat)
    }
}

/// The line of a Wavefront OBJ file that describes a face: `f`, the
/// numbers of its vertices counted from 1, each after a blank, and a line
/// feed.
pub open spec fn face_line(f: Seq<usize>, reverse: bool) -> Seq<u8> {
    seq![102u8] + face_numbers(f, reverse, f.len() as int) + seq![10u8]
}

/// The lines of a Wavefront OBJ file that describe the faces.
pub open spec fn face_lines(faces: Seq<Face>, reverse: bool) -> Seq<u8>
    decreases faces.len(),
{
    if faces.len() == 0 {
        Seq::empty()
    } else {
        face_lines(faces.drop_last(), reverse) + face_line(face_indices(faces.last()), reverse)
    }
}

/// The line of a Wavefront OBJ file that describes a vertex whose
/// coordinates read `c[0]`, `c[1]` and `c[2]`: `v`, the three texts, each
/// after a blank, and a line feed.
pub open spec fn vertex_line(c: [Vec<u8>; 3]) -> Seq<u8> {
    seq![118u8, 32] + c[0]@ + seq![32u8] + c[1]@ + seq![32u8] + c[2]@ + seq![10u8]
}

/// The lines of a Wavefront OBJ file that describe the vertices.
pub open spec fn vertex_lines(coordinates: Seq<[Vec<u8>; 3]>) -> Seq<u8>
    decreases coordinates.len(),
{
    if coordinates.len() == 0 {
        Seq::empty()
    } else {
        vertex_lines(coordinates.drop_last()) + vertex_line(coordinates.last())
    }
}

/// Appends the bytes of `text` to `out`.
pub fn push_bytes(out: &mut Vec<u8>, text: &Vec<u8>)
    ensures
        final(out)@ == old(out)@ + text@,
{
    let mut i: usize = 0;
    while i < text.len()
        invariant
            i <= text@.len(),
            out@ == old(out)@ + text@.subrange(0, i as int),
        decreases text@.len() - i,
    {
        out.push(text[i]);
        assert(out@ =~= old(out)@ + text@.subrange(0, i + 1));
        i += 1;
    }
    assert(text@.subrange(0, i as int) =~= text@);
}

/// Appends the decimal digits of `n` to `out`.
pub fn push_decimal(out: &mut Vec<u8>, n: u128)
    ensures
        final(out)@ == old(out)@ + decimal(n as nat),
    decreases n,
{
    if n < 10 {
        out.push(48 + n as u8);
        assert(out@ =~= old(out)@ + decimal(n as nat));
    } else {
        push_decimal(out, n / 10);
        out.push(48 + (n % 10) as u8);
        assert(out@ =~= old(out)@ + decimal(n as nat));
    }
}

/// Whether the triangles `faces` are those that `expected` lists.
pub open spec fn are_triangles(faces: Seq<[usize; 3]>, expected: Seq<Seq<usize>>) -> bool {
    &&& faces.len() == expected.len()
    &&& forall|j: int| 0 <= j < faces.len() ==> (#[trigger] faces[j])@ == expected[j]
}

/// The triangles that stand for the faces, in the order of the faces.
pub fn triangles(faces: &Vec<Face>) -> (r: Vec<[usize; 3]>)
    ensures
        are_triangles(r@, triangulated(faces@)),
{
    let mut r: Vec<[usize; 3]> = Vec::new();
    let mut i: usize = 0;
    assert(faces@.subrange(0, 0) =~= Seq::<Face>::empty());
    while i < faces.len()
        invariant
            i <= faces@.len(),
            are_triangles(r@, triangulated(faces@.subrange(0, i as int))),
        decreases faces@.len() - i,
    {
        let face = &faces[i];
        let n = face_len(face);
        proof {
            assert(faces@.subrange(0, i + 1).drop_last() =~= faces@.subrange(0, i as int));
        }
        if n == 4 {
            r.push([face_at(face, 0), face_at(face, 1), face_at(face, 2)]);
            r.push([face_at(face, 2), face_at(face, 3), face_at(face, 0)]);
        } else if n >= 3 {
            r.push([face_at(face, 0), face_at(face, 1), face_at(face, 2)]);
        }
        proof {
            let next = triangulated(faces@.subrange(0, i + 1));
            assert forall|j: int| 0 <= j < r@.len() implies (#[trigger] r@[j])@ == next[j] by {
                assert(r@[j]@ =~= next[j]);
            }
        }
        i += 1;
    }
    assert(faces@.subrange(0, i as int) =~= faces@);
    r
}

impl<S> From<Mesh<S>> for TriangleMesh<S> {
    /// The mesh tessellated into triangles, with the vertices of the mesh:
    /// quads are split into the triangles (0, 1, 2) and (2, 3, 0), triangles
    /// are passed through, and a face of fewer than three vertices, which a
    /// mesh is not meant to have, has no triangle.
    fn from(mesh: Mesh<S>) -> (r: Self)
        ensures
            r.vertices == mesh.vertices,
            are_triangles(r.faces@, triangulated(mesh.faces@)),
    {
        let faces = triangles(&mesh.faces);
        TriangleMesh { vertices: mesh.vertices, faces }
    }
}

impl<S> vstd::std_specs::convert::FromSpecImpl<Mesh<S>> for TriangleMesh<S> {
    /// The result of `from` is stated by its own contract, not by
    /// `from_spec`: two lists of triangles that hold the same numbers need
    /// not be the same list.
    open spec fn obeys_from_spec() -> bool {
        false
    }

    /// Some mesh of triangles with the vertices of the mesh and the
    /// triangles that stand for its faces.
    open spec fn from_spec(mesh: Mesh<S>) -> Self {
        choose|t: TriangleMesh<S>|
            t.vertices == mesh.vertices && are_triangles(t.faces@, triangulated(mesh.faces@))
    }
}

impl<S> Mesh<S> {
    /// Whether every face has at least three vertices.
    pub open spec fn faces_have_corners(&self) -> bool {
        forall|i: int| 0 <= i < self.faces@.len() ==> face_indices(#[trigger] self.faces@[i]).len() >= 3
    }

    /// Tessellates the mesh into triangles and yields a [`TriangleMesh`]
    /// with the same vertices: quads are split into the triangles (0, 1, 2)
    /// and (2, 3, 0), triangles are passed through.
    pub fn to_triangle_mesh(&self) -> (r: TriangleMesh<S>) where S: Clone
        requires
            self.faces_have_corners(),
        ensures
            r.vertices@.len() == self.vertices@.len(),
            forall|i: int|
                0 <= i < self.vertices@.len() ==> cloned(self.vertices@[i], #[trigger] r.vertices@[i]),
            are_triangles(r.faces@, triangulated(self.faces@)),
    {
        TriangleMesh { vertices: self.vertices.clone(), faces: triangles(&self.faces) }
    }

    /// The topology of the mesh as two flat buffers: the number of vertices
    /// of each face, and the vertex numbers of all faces, one face after the
    /// other.
    pub fn flat_topology(&self) -> (r: (Vec<usize>, Vec<usize>))
        ensures
            r.0@.len() == self.faces@.len(),
            forall|i: int| 0 <= i < r.0@.len() ==> #[trigger] r.0@[i] == face_indices(self.faces@[i]).len(),
            r.1@ == flattened(self.faces@),
    {
        let mut face_arities: Vec<usize> = Vec::new();
        let mut faces: Vec<usize> = Vec::new();
        let mut i: usize = 0;
        assert(self.faces@.subrange(0, 0) =~= Seq::<Face>::empty());
        while i < self.faces.len()
            invariant
                i <= self.faces@.len(),
                face_arities@.len() == i,
                forall|j: int|
                    0 <= j < i ==> #[trigger] face_arities@[j] == face_indices(self.faces@[j]).len(),
                faces@ == flattened(self.faces@.subrange(0, i as int)),
            decreases self.faces@.len() - i,
        {
            let face = &self.faces[i];
            let n = face_len(face);
            face_arities.push(n);
            let ghost before = faces@;
            let mut k: usize = 0;
            while k < n
                invariant
                    k <= n,
                    n == face_indices(*face).len(),
                    faces@ == before + face_indices(*face).subrange(0, k as int),
                decreases n - k,
            {
                faces.push(face_at(face, k));
                assert(faces@ =~= before + face_indices(*face).subrange(0, k + 1));
                k += 1;
            }
            proof {
                assert(face_indices(*face).subrange(0, n as int) =~= face_indices(*face));
                assert(self.faces@.subrange(0, i + 1).drop_last() =~= self.faces@.subrange(
                    0,
                    i as int,
                ));
            }
            i += 1;
        }
        assert(self.faces@.subrange(0, i as int) =~= self.faces@);
        (face_arities, faces)
    }

    /// The mesh as a Wavefront OBJ file: the line `o SDFMesh`, a line `v x y
    /// z` for each vertex, where `coordinates` gives the three texts of the
    /// vertex, and a line `f i j k` for each face, the vertices counted
    /// from 1. With `reverse_face_winding` the vertices of each face are
    /// listed from the last to the first.
    pub fn to_obj(&self, reverse_face_winding: bool, coordinates: &Vec<[Vec<u8>; 3]>) -> (r: Vec<u8>)
        ensures
            r@ == seq![111u8, 32, 83, 68, 70, 77, 101, 115, 104, 10] + vertex_lines(coordinates@)
                + face_lines(self.faces@, reverse_face_winding),
    {
        let mut file = obj_header();
        let ghost header = file@;
        let mut i: usize = 0;
        assert(coordinates@.subrange(0, 0) =~= Seq::<[Vec<u8>; 3]>::empty());
        while i < coordinates.len()
            invariant
                i <= coordinates@.len(),
                file@ == header + vertex_lines(coordinates@.subrange(0, i as int)),
            decreases coordinates@.len() - i,
        {
            let c = &coordinates[i];
            let ghost before = file@;
            file.push(118);
            file.push(32);
            push_bytes(&mut file, &c[0]);
            file.push(32);
            push_bytes(&mut file, &c[1]);
            file.push(32);
            push_bytes(&mut file, &c[2]);
            file.push(10);
            proof {
                assert(coordinates@.subrange(0, i + 1).drop_last() =~= coordinates@.subrange(
                    0,
                    i as int,
                ));
                assert(file@ =~= before + vertex_line(coordinates@[i as int]));
            }
            i += 1;
        }
        assert(coordinates@.subrange(0, i as int) =~= coordinates@);
        let faces = self.to_obj_faces(reverse_face_winding);
        push_bytes(&mut file, &faces);
        file
    }

    /// The lines that describe the faces in a Wavefront OBJ file: for each
    /// face `f` and the numbers of its vertices, counted from 1. With
    /// `reverse_face_winding` the vertices of each face are listed from the
    /// last to the first.
    pub fn to_obj_faces(&self, reverse_face_winding: bool) -> (r: Vec<u8>)
        ensures
            r@ == face_lines(self.faces@, reverse_face_winding),
    {
        let mut file: Vec<u8> = Vec::new();
        let mut i: usize = 0;
        assert(self.faces@.subrange(0, 0) =~= Seq::<Face>::empty());
        while i < self.faces.len()
            invariant
                i <= self.faces@.len(),
                file@ == face_lines(self.faces@.subrange(0, i as int), reverse_face_winding),
            decreases self.faces@.len() - i,
        {
            let face = &self.faces[i];
            let n = face_len(face);
            let ghost before = file@;
            let ghost f = face_indices(*face);
            file.push(102);
            let mut k: usize = 0;
            while k < n
                invariant
                    k <= n,
                    n == f.len(),
                    f == face_indices(*face),
                    file@ == before + seq![102u8] + face_numbers(f, reverse_face_winding, k as int),
                decreases n - k,
            {
                let vertex_index = if reverse_face_winding {
                    face_at(face, n - 1 - k)
                } else {
                    face_at(face, k)
                };
                let ghost mid = file@;
                file.push(32);
                push_decimal(&mut file, vertex_index as u128 + 1);
                assert(file@ =~= before + seq![102u8] + face_numbers(
                    f,
                    reverse_face_winding,
                    k + 1,
                ));
                k += 1;
            }
            file.push(10);
            proof {
                assert(self.faces@.subrange(0, i + 1).drop_last() =~= self.faces@.subrange(
                    0,
                    i as int,
                ));
                assert(file@ =~= before + face_line(f, reverse_face_winding));
            }
            i += 1;
        }
        assert(self.faces@.subrange(0, i as int) =~= self.faces@);
        file
    }
}

/// The first line of a Wavefront OBJ file that holds the mesh: `o SDFMesh`
/// and a line feed.
pub fn obj_header() -> (r: Vec<u8>)
    ensures
        r@ == seq![111u8, 32, 83, 68, 70, 77, 101, 115, 104, 10],
{
    let mut r: Vec<u8> = Vec::new();
    r.push(111);
    r.push(32);
    r.push(83);
    r.push(68);
    r.push(70);
    r.push(77);
    r.push(101);
    r.push(115);
    r.push(104);
    r.push(10);
    assert(r@ =~= seq![111u8, 32, 83, 68, 70, 77, 101, 115, 104, 10]);
    r
}

impl<S> TriangleMesh<S> {
    /// The vertex with number `i`, each coordinate turned into a `T`.
    pub fn vertex<T>(&self, i: usize) -> (r: [T; 3]) where T: From<S>, S: Copy
        requires
            i < self.vertices@.len(),
        ensures
            T::obeys_from_spec() ==> forall|k: int|
                0 <= k < 3 ==> #[trigger] r[k] == T::from_spec(self.vertices@[i as int][k]),
    {
        [
            T::from(self.vertices[i][0]),
            T::from(self.vertices[i][1]),
            T::from(self.vertices[i][2]),
        ]
    }

    /// The topology of the mesh as a flat buffer: the vertex numbers of all
    /// triangles, three for each.
    pub fn flat_topology(&self) -> (r: Vec<usize>)
        ensures
            r@ == flattened_triangles(self.faces@),
            r@.len() == 3 * self.faces@.len(),
    {
        let mut r: Vec<usize> = Vec::new();
        let mut i: usize = 0;
        assert(self.faces@.subrange(0, 0) =~= Seq::<[usize; 3]>::empty());
        while i < self.faces.len()
            invariant
                i <= self.faces@.len(),
                r@ == flattened_triangles(self.faces@.subrange(0, i as int)),
                r@.len() == 3 * i,
            decreases self.faces@.len() - i,
        {
            let face = &self.faces[i];
            let ghost before = r@;
            r.push(face[0]);
            r.push(face[1]);
            r.push(face[2]);
            proof {
                assert(self.faces@.subrange(0, i + 1).drop_last() =~= self.faces@.subrange(
                    0,
                    i as int,
                ));
                assert(r@ =~= before + self.faces@[i as int]@);
            }
            i += 1;
        }
        assert(self.faces@.subrange(0, i as int) =~= self.faces@);
        r
    }
}

} // verus!
