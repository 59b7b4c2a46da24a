//! The mesh: vertices, edges, faces and textures, addressed by dense
//! indices that stay the same for the mesh's lifetime.

use crate::geometry::Point2;
use vstd::prelude::*;

verus! {

/// A point or a direction of space, in fixed point.
#[derive(Clone, Copy, Debug, PartialEq, Eq, Structural)]
pub struct Point3 {
    pub x: i64,
    pub y: i64,
    pub z: i64,
}

/// A vertex of the mesh.
#[derive(Clone, Copy, Debug, PartialEq, Eq, Structural)]
pub struct Vertex {
    pub pos: Point3,
    pub normal: Point3,
    pub uv: Point2,
}

/// An edge of the mesh. Face `f0` runs along the edge from `v0` to `v1`;
/// the face on the other side, if there is one, runs from `v1` to `v0`.
#[derive(Clone, Copy, Debug, PartialEq, Eq, Structural)]
pub struct Edge {
    pub f0: usize,
    pub f1: Option<usize>,
    pub v0: usize,
    pub v1: usize,
    /// Signed fold angle in radians: zero or more for a mountain fold, less
    /// than zero for a valley fold.
    pub angle: i64,
}

/// A face of the mesh: its vertices in winding order, its edges in the same
/// order (edge `i` runs from vertex `i` to the next vertex), and its
/// material.
#[derive(Debug)]
pub struct Face {
    pub vertices: Vec<usize>,
    pub edges: Vec<usize>,
    pub material: usize,
}

/// A texture. `pixels`, where present, holds the rows of the image from top
/// to bottom, four bytes per pixel: red, green, blue, alpha.
#[derive(Debug)]
pub struct Texture {
    pub file_name: String,
    pub width: u32,
    pub height: u32,
    pub pixels: Option<Vec<u8>>,
}

/// The mesh.
#[derive(Debug)]
pub struct Model {
    pub vertices: Vec<Vertex>,
    pub edges: Vec<Edge>,
    pub faces: Vec<Face>,
    pub textures: Vec<Texture>,
}

impl Edge {
    /// The faces on the two sides of the edge.
    pub fn faces(&self) -> (r: (usize, Option<usize>))
        ensures
            r == (self.f0, self.f1),
    {
        (self.f0, self.f1)
    }

    /// The face that runs along the edge in the given direction: `f0` for
    /// `true`, the other face for `false`.
    pub open spec fn face_by_sign_spec(&self, sign: bool) -> Option<usize> {
        if sign {
            Some(self.f0)
        } else {
            self.f1
        }
    }

    /// The face that runs along the edge in the given direction.
    pub fn face_by_sign(&self, sign: bool) -> (f: Option<usize>)
        ensures
            f == self.face_by_sign_spec(sign),
    {
        if sign {
            Some(self.f0)
        } else {
            self.f1
        }
    }

    /// The face across the edge from `face`, where the edge has two faces
    /// and `face` is one of them.
    pub open spec fn other_face_spec(&self, face: usize) -> Option<usize> {
        match self.f1 {
            Some(g) => if self.f0 == face {
                Some(g)
            } else if g == face {
                Some(self.f0)
            } else {
                None
            },
            None => None,
        }
    }

    /// The face across the edge from `face`.
    pub fn other_face(&self, face: usize) -> (g: Option<usize>)
        ensures
            g == self.other_face_spec(face),
    {
        match self.f1 {
            Some(g) => if self.f0 == face {
                Some(g)
            } else if g == face {
                Some(self.f0)
            } else {
                None
            },
            None => None,
        }
    }

    /// Whether the fold along this edge is a valley.
    pub fn is_valley(&self) -> (v: bool)
        ensures
            v == (self.angle < 0),
    {
        self.angle < 0
    }
}

impl Face {
    /// The position after `i` in the cyclic order of a face of `n` corners.
    pub open spec fn next_slot(n: int, i: int) -> int {
        if i + 1 >= n {
            0
        } else {
            i + 1
        }
    }

    /// The first position at which the face lists `edge`, if it lists it.
    pub open spec fn position_of(&self, edge: usize) -> Option<int> {
        if exists|i: int| 0 <= i < self.edges@.len() && self.edges@[i] == edge {
            Some(
                choose|i: int|
                    0 <= i < self.edges@.len() && self.edges@[i] == edge && forall|j: int|
                        0 <= j < i ==> self.edges@[j] != edge,
            )
        } else {
            None
        }
    }

    /// The endpoints of `edge` in the face's winding order, if the face
    /// lists the edge.
    pub open spec fn vertices_of_edge_spec(&self, edge: usize) -> Option<(usize, usize)> {
        match self.position_of(edge) {
            Some(i) => Some(
                (self.vertices@[i], self.vertices@[Self::next_slot(self.vertices@.len() as int, i)]),
            ),
            None => None,
        }
    }

    /// Where the face lists `edge`, `position_of` gives the first position
    /// at which it does.
    pub proof fn lemma_position_of(&self, edge: usize)
        ensures
            match self.position_of(edge) {
                Some(i) => 0 <= i < self.edges@.len() && self.edges@[i] == edge && forall|j: int|
                    0 <= j < i ==> self.edges@[j] != edge,
                None => forall|j: int| 0 <= j < self.edges@.len() ==> self.edges@[j] != edge,
            },
    {
        if exists|i: int| 0 <= i < self.edges@.len() && self.edges@[i] == edge {
            let k = choose|i: int| 0 <= i < self.edges@.len() && self.edges@[i] == edge;
            Self::lemma_first_occurrence(self.edges@, edge, k);
        }
    }

    proof fn lemma_first_occurrence(edges: Seq<usize>, edge: usize, k: int)
        requires
            0 <= k < edges.len(),
            edges[k] == edge,
        ensures
            exists|i: int|
                0 <= i < edges.len() && edges[i] == edge && forall|j: int|
                    0 <= j < i ==> edges[j] != edge,
        decreases k,
    {
        if exists|j: int| 0 <= j < k && edges[j] == edge {
            let j = choose|j: int| 0 <= j < k && edges[j] == edge;
            Self::lemma_first_occurrence(edges, edge, j);
        } else {
            assert(0 <= k < edges.len() && edges[k] == edge && forall|j: int|
                0 <= j < k ==> edges[j] != edge);
        }
    }

    /// Finds the first position at which the face lists `edge`.
    pub fn find_edge(&self, edge: usize) -> (r: Option<usize>)
        ensures
            match r {
                Some(i) => self.position_of(edge) == Some(i as int) && i < self.edges@.len()
                    && self.edges@[i as int] == edge,
                None => self.position_of(edge) is None,
            },
    {
        let mut i: usize = 0;
        while i < self.edges.len()
            invariant
                i <= self.edges@.len(),
                forall|j: int| 0 <= j < i ==> self.edges@[j] != edge,
            decreases self.edges@.len() - i,
        {
            if self.edges[i] == edge {
                proof {
                    let k = choose|k: int|
                        0 <= k < self.edges@.len() && self.edges@[k] == edge && forall|j: int|
                            0 <= j < k ==> self.edges@[j] != edge;
                    assert(0 <= i < self.edges@.len() && self.edges@[i as int] == edge
                        && forall|j: int| 0 <= j < i ==> self.edges@[j] != edge);
                    assert(k == i) by {
                        if k < i {
                            assert(self.edges@[k] != edge);
                        }
                        if i < k {
                            assert(self.edges@[i as int] != edge);
                        }
                    }
                }
                return Some(i);
            }
            i += 1;
        }
        None
    }

    /// The endpoints of `edge` in the face's winding order, or `None` if the
    /// edge is not on the face.
    pub fn vertices_of_edge(&self, edge: usize) -> (r: Option<(usize, usize)>)
        requires
            self.vertices@.len() == self.edges@.len(),
        ensures
            r == self.vertices_of_edge_spec(edge),
    {
        match self.find_edge(edge) {
            Some(i) => {
                let n: usize = self.vertices.len();
                let j: usize = if i + 1 >= n {
                    0
                } else {
                    i + 1
                };
                Some((self.vertices[i], self.vertices[j]))
            },
            None => None,
        }
    }

    /// The material of the face.
    pub fn material(&self) -> (m: usize)
        ensures
            m == self.material,
    {
        self.material
    }
}

impl Texture {
    /// A texture is well formed if its pixels, where present, fill its
    /// width and height.
    pub open spec fn wf(&self) -> bool {
        match self.pixels {
            Some(p) => p@.len() == 4 * self.width * self.height,
            None => true,
        }
    }

    /// Whether the texture has pixels.
    pub fn has_pixels(&self) -> (b: bool)
        ensures
            b == self.pixels.is_some(),
    {
        self.pixels.is_some()
    }

    /// Tests whether the texture is well formed.
    pub fn is_valid(&self) -> (ok: bool)
        ensures
            ok == self.wf(),
    {
        match &self.pixels {
            Some(p) => {
                let w: u128 = self.width as u128;
                let h: u128 = self.height as u128;
                assert(0 <= w * h <= 0x1_0000_0000 * 0x1_0000_0000) by (nonlinear_arith)
                    requires
                        0 <= w <= 0x1_0000_0000,
                        0 <= h <= 0x1_0000_0000,
                ;
                let area: u128 = 4 * (w * h);
                assert(area == 4 * self.width * self.height) by (nonlinear_arith)
                    requires
                        area == 4 * (w * h),
                        w == self.width,
                        h == self.height,
                ;
                p.len() as u128 == area
            },
            None => true,
        }
    }
}

/// Whether face `f` lists no edge twice.
pub open spec fn lists_once(model: &Model, f: int) -> bool {
    forall|i: int, j: int|
        0 <= i < j < model.faces@[f].edges@.len() ==> #[trigger] model.faces@[f].edges@[i]
            != #[trigger] model.faces@[f].edges@[j]
}

/// Whether no face of the mesh lists an edge twice, as is the case where
/// every face is a convex polygon.
pub open spec fn simple_faces(model: &Model) -> bool {
    forall|f: int| 0 <= f < model.faces@.len() ==> #[trigger] lists_once(model, f)
}

/// Tests whether face `f` lists no edge twice.
fn face_lists_once(model: &Model, f: usize) -> (ok: bool)
    requires
        f < model.faces@.len(),
    ensures
        ok == lists_once(model, f as int),
{
    let count: usize = model.faces[f].edges.len();
    let mut j: usize = 0;
    while j < count
        invariant
            f < model.faces@.len(),
            count == model.faces@[f as int].edges@.len(),
            j <= count,
            forall|a: int, b: int|
                0 <= a < b < j ==> #[trigger] model.faces@[f as int].edges@[a]
                    != #[trigger] model.faces@[f as int].edges@[b],
        decreases count - j,
    {
        let mut i: usize = 0;
        while i < j
            invariant
                f < model.faces@.len(),
                count == model.faces@[f as int].edges@.len(),
                j < count,
                i <= j,
                forall|a: int|
                    0 <= a < i ==> #[trigger] model.faces@[f as int].edges@[a]
                        != model.faces@[f as int].edges@[j as int],
            decreases j - i,
        {
            if model.faces[f].edges[i] == model.faces[f].edges[j] {
                return false;
            }
            i += 1;
        }
        j += 1;
    }
    true
}

/// Tests whether no face of the mesh lists an edge twice.
pub fn has_simple_faces(model: &Model) -> (ok: bool)
    ensures
        ok == simple_faces(model),
{
    let mut f: usize = 0;
    while f < model.faces.len()
        invariant
            f <= model.faces@.len(),
            forall|g: int| 0 <= g < f ==> #[trigger] lists_once(model, g),
        decreases model.faces@.len() - f,
    {
        if !face_lists_once(model, f) {
            return false;
        }
        f += 1;
    }
    true
}

impl Model {
    /// Whether position `i` of face `f` agrees with the edge listed there:
    /// the edge names the face on one side, and runs between the corner at
    /// `i` and the next corner, forwards for `f0` and backwards for `f1`.
    pub open spec fn slot_wf(&self, f: int, i: int) -> bool {
        let face = self.faces@[f];
        let n = face.vertices@.len() as int;
        let e = face.edges@[i];
        let from = face.vertices@[i];
        let to = face.vertices@[Face::next_slot(n, i)];
        &&& e < self.edges@.len()
        &&& from < self.vertices@.len()
        &&& {
            let edge = self.edges@[e as int];
            ||| (edge.f0 == f && edge.v0 == from && edge.v1 == to)
            ||| (edge.f1 == Some(f as usize) && edge.v1 == from && edge.v0 == to)
        }
    }

    /// Whether face `f` has at least three corners, as many edges as
    /// corners, and agrees with each edge it lists.
    pub open spec fn face_wf(&self, f: int) -> bool {
        let face = self.faces@[f];
        &&& face.vertices@.len() >= 3
        &&& face.edges@.len() == face.vertices@.len()
        &&& forall|i: int| 0 <= i < face.vertices@.len() ==> self.slot_wf(f, i)
    }

    /// Whether edge `e` names faces and vertices of the mesh, two different
    /// faces if it names two, and is listed by each face it names.
    pub open spec fn edge_wf(&self, e: int) -> bool {
        let edge = self.edges@[e];
        &&& edge.f0 < self.faces@.len()
        &&& edge.v0 < self.vertices@.len()
        &&& edge.v1 < self.vertices@.len()
        &&& self.faces@[edge.f0 as int].position_of(e as usize) is Some
        &&& match edge.f1 {
            Some(g) => g < self.faces@.len() && g != edge.f0 && self.faces@[g as int].position_of(
                e as usize,
            ) is Some,
            None => true,
        }
    }

    /// A mesh is well formed if every face, edge and texture is, and no face
    /// lists an edge twice.
    pub open spec fn wf(&self) -> bool {
        &&& simple_faces(self)
        &&& forall|f: int| 0 <= f < self.faces@.len() ==> self.face_wf(f)
        &&& forall|e: int| 0 <= e < self.edges@.len() ==> self.edge_wf(e)
        &&& forall|t: int| 0 <= t < self.textures@.len() ==> (#[trigger] self.textures@[t]).wf()
    }

    fn slot_ok(&self, f: usize, i: usize) -> (ok: bool)
        requires
            f < self.faces@.len(),
            i < self.faces@[f as int].vertices@.len(),
            self.faces@[f as int].edges@.len() == self.faces@[f as int].vertices@.len(),
        ensures
            ok == self.slot_wf(f as int, i as int),
    {
        let face = &self.faces[f];
        let e = face.edges[i];
        let from = face.vertices[i];
        let n: usize = face.vertices.len();
        let j: usize = if i + 1 >= n {
            0
        } else {
            i + 1
        };
        let to = face.vertices[j];
        if e >= self.edges.len() || from >= self.vertices.len() {
            return false;
        }
        let edge = &self.edges[e];
        let forwards = edge.f0 == f && edge.v0 == from && edge.v1 == to;
        let backwards = match edge.f1 {
            Some(g) => g == f && edge.v1 == from && edge.v0 == to,
            None => false,
        };
        forwards || backwards
    }

    fn face_ok(&self, f: usize) -> (ok: bool)
        requires
            f < self.faces@.len(),
        ensures
            ok == self.face_wf(f as int),
    {
        let face = &self.faces[f];
        if face.vertices.len() < 3 || face.edges.len() != face.vertices.len() {
            return false;
        }
        let mut i: usize = 0;
        while i < face.vertices.len()
            invariant
                f < self.faces@.len(),
                *face == self.faces@[f as int],
                face.edges@.len() == face.vertices@.len(),
                i <= face.vertices@.len(),
                forall|k: int| 0 <= k < i ==> self.slot_wf(f as int, k),
            decreases face.vertices@.len() - i,
        {
            if !self.slot_ok(f, i) {
                return false;
            }
            i += 1;
        }
        true
    }

    fn edge_ok(&self, e: usize) -> (ok: bool)
        requires
            e < self.edges@.len(),
        ensures
            ok == self.edge_wf(e as int),
    {
        let edge = &self.edges[e];
        if edge.f0 >= self.faces.len() || edge.v0 >= self.vertices.len() || edge.v1
            >= self.vertices.len() {
            return false;
        }
        if self.faces[edge.f0].find_edge(e).is_none() {
            return false;
        }
        match edge.f1 {
            Some(g) => g < self.faces.len() && g != edge.f0 && self.faces[g].find_edge(e).is_some(),
            None => true,
        }
    }

    /// Tests whether the mesh is well formed.
    pub fn is_valid(&self) -> (ok: bool)
        ensures
            ok == self.wf(),
    {
        let mut f: usize = 0;
        while f < self.faces.len()
            invariant
                f <= self.faces@.len(),
                forall|k: int| 0 <= k < f ==> self.face_wf(k),
            decreases self.faces@.len() - f,
        {
            if !self.face_ok(f) {
                return false;
            }
            f += 1;
        }
        let mut e: usize = 0;
        while e < self.edges.len()
            invariant
                e <= self.edges@.len(),
                forall|k: int| 0 <= k < e ==> self.edge_wf(k),
            decreases self.edges@.len() - e,
        {
            if !self.edge_ok(e) {
                return false;
            }
            e += 1;
        }
        let mut t: usize = 0;
        while t < self.textures.len()
            invariant
                t <= self.textures@.len(),
                forall|k: int| 0 <= k < t ==> (#[trigger] self.textures@[k]).wf(),
            decreases self.textures@.len() - t,
        {
            if !self.textures[t].is_valid() {
                return false;
            }
            t += 1;
        }
        has_simple_faces(self)
    }

    /// The texture of material `material`, if the mesh has one with pixels.
    pub open spec fn textured(&self, material: usize) -> bool {
        material < self.textures@.len() && self.textures@[material as int].pixels.is_some()
    }

    /// Tests whether material `material` has a texture with pixels.
    pub fn is_textured(&self, material: usize) -> (b: bool)
        ensures
            b == self.textured(material),
    {
        material < self.textures.len() && self.textures[material].has_pixels()
    }
}

} // verus!
