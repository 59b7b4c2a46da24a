//! The SVG emitter: one document for all pages, each page a group of
//! layers.
//!
//! Lengths are in millimetres, the user unit of the document.

use crate::codec::{base64_encode, base64_text, png_encode, png_encoding, BASE64_MAX};
use crate::craft::Papercraft;
use crate::fixed::{decimal, digits, push_decimal, push_digits};
use crate::layout::Unfolding;
use crate::options::{FoldStyle, PaperOptions};
use crate::pages::{export_options, export_options_spec, is_page_shapes, page_shapes};
use crate::text::{collect_texts, is_page_texts, texts_printable};
use crate::geometry::Point2;
use crate::graph::face_count;
use crate::model::Model;
use crate::shapes::{FaceShape, FlapShape, FoldLine, IslandShape};
use crate::text::{escaped, html_escape, PrintableText, TextAlign};
use crate::texture::{
    calc_svg_texture_matrix_triangle, fan_triangulation, svg_texture_matrix, triangulate_polygon,
    AffineMap, TextureMatrix,
};
use vstd::prelude::*;
use vstd::string::StringExecFns;

verus! {

/// A point as it stands in a list of points: its two coordinates with a
/// comma between them.
pub open spec fn point_text(p: Point2) -> Seq<char> {
    decimal(p.x as int) + ","@ + decimal(p.y as int)
}

/// The first `upto` of `points`, each followed by a space.
pub open spec fn points_text(points: Seq<Point2>, upto: int) -> Seq<char>
    decreases upto,
{
    if upto <= 0 {
        Seq::empty()
    } else {
        points_text(points, upto - 1) + point_text(points[upto - 1]) + " "@
    }
}

fn push_point(out: &mut String, p: Point2)
    ensures
        final(out)@ == old(out)@ + decimal(p.x as int) + ","@ + decimal(p.y as int),
{
    push_decimal(out, p.x as i128);
    out.append(",");
    push_decimal(out, p.y as i128);
}

fn points_markup(points: &Vec<Point2>) -> (s: String)
    ensures
        s@ == points_text(points@, points@.len() as int),
{
    let mut s = String::new();
    let mut i: usize = 0;
    while i < points.len()
        invariant
            i <= points@.len(),
            s@ == points_text(points@, i as int),
        decreases points@.len() - i,
    {
        let ghost before = s@;
        push_point(&mut s, points[i]);
        s.append(" ");
        proof {
            assert(s@ =~= before + point_text(points@[i as int]) + " "@);
        }
        i += 1;
    }
    s
}

/// A face without texture: a polygon filled with the colour of the paper.
pub open spec fn svg_solid_face(points: Seq<Point2>, idx: int, fill: Seq<char>) -> Seq<char> {
    "<polygon id=\"face_"@ + digits(idx as nat) + "\" fill=\""@ + fill + "\" stroke=\"none\" points=\""@
        + points_text(points, points.len() as int) + "\"/>\n"@
}

fn solid_face_markup(points: &Vec<Point2>, idx: u128, fill: &String) -> (s: String)
    ensures
        s@ == svg_solid_face(points@, idx as int, fill@),
{
    let mut s = String::from_str("<polygon id=\"face_");
    push_digits(&mut s, idx);
    s.append("\" fill=\"");
    s.append(fill.as_str());
    s.append("\" stroke=\"none\" points=\"");
    let points = points_markup(points);
    s.append(points.as_str());
    s.append("\"/>\n");
    s
}

/// The name of the pattern of triangle `tri` of the face with the index
/// `face`. No two patterns of a document have the same name, since a face
/// is drawn once.
pub open spec fn pattern_name(face: int, tri: int) -> Seq<char> {
    "pat_face_"@ + digits(face as nat) + "_"@ + digits(tri as nat)
}

/// One triangle of a textured face: a pattern that holds the texture,
/// placed by the matrix, and a polygon filled with that pattern.
pub open spec fn svg_textured_triangle(
    pts: [Point2; 3],
    m: AffineMap,
    face: int,
    tri: int,
    texture: int,
    width: u32,
    height: u32,
) -> Seq<char> {
    "<defs>\n<pattern id=\""@ + pattern_name(face, tri) + "\" patternUnits=\"userSpaceOnUse\" width=\""@
        + digits(width as nat) + "\" height=\""@ + digits(height as nat)
        + "\" patternTransform=\"matrix("@ + decimal(m.a) + " "@ + decimal(m.b) + " "@ + decimal(m.c)
        + " "@ + decimal(m.d) + " "@ + decimal(m.e) + " "@ + decimal(m.f) + ")\">\n<use href=\"#tex_"@
        + digits(texture as nat) + "\" width=\""@ + digits(width as nat) + "\" height=\""@ + digits(
        height as nat,
    ) + "\" />\n</pattern>\n</defs>\n<polygon points=\""@ + point_text(pts[0]) + " "@ + point_text(
        pts[1],
    ) + " "@ + point_text(pts[2]) + "\" fill=\"url(#"@ + pattern_name(face, tri)
        + ")\" stroke=\"none\"/>\n"@
}

fn pattern_name_markup(face: usize, tri: usize) -> (s: String)
    ensures
        s@ == pattern_name(face as int, tri as int),
{
    let mut s = String::from_str("pat_face_");
    push_digits(&mut s, face as u128);
    s.append("_");
    push_digits(&mut s, tri as u128);
    s
}

fn point_markup(p: Point2) -> (s: String)
    ensures
        s@ == point_text(p),
{
    let mut s = String::new();
    push_decimal(&mut s, p.x as i128);
    s.append(",");
    push_decimal(&mut s, p.y as i128);
    proof {
        assert(s@ =~= point_text(p));
    }
    s
}

fn textured_triangle_markup(
    pts: &[Point2; 3],
    m: &TextureMatrix,
    face: usize,
    tri: usize,
    texture: usize,
    width: u32,
    height: u32,
) -> (s: String)
    requires
        m.bounded(),
    ensures
        s@ == svg_textured_triangle(
            *pts,
            m@,
            face as int,
            tri as int,
            texture as int,
            width,
            height,
        ),
{
    let name = pattern_name_markup(face, tri);
    let p0 = point_markup(pts[0]);
    let p1 = point_markup(pts[1]);
    let p2 = point_markup(pts[2]);
    let mut s = String::from_str("<defs>\n<pattern id=\"");
    s.append(name.as_str());
    s.append("\" patternUnits=\"userSpaceOnUse\" width=\"");
    push_digits(&mut s, width as u128);
    s.append("\" height=\"");
    push_digits(&mut s, height as u128);
    s.append("\" patternTransform=\"matrix(");
    push_decimal(&mut s, m.a);
    s.append(" ");
    push_decimal(&mut s, m.b);
    s.append(" ");
    push_decimal(&mut s, m.c);
    s.append(" ");
    push_decimal(&mut s, m.d);
    s.append(" ");
    push_decimal(&mut s, m.e);
    s.append(" ");
    push_decimal(&mut s, m.f);
    s.append(")\">\n<use href=\"#tex_");
    push_digits(&mut s, texture as u128);
    s.append("\" width=\"");
    push_digits(&mut s, width as u128);
    s.append("\" height=\"");
    push_digits(&mut s, height as u128);
    s.append("\" />\n</pattern>\n</defs>\n<polygon points=\"");
    s.append(p0.as_str());
    s.append(" ");
    s.append(p1.as_str());
    s.append(" ");
    s.append(p2.as_str());
    s.append("\" fill=\"url(#");
    s.append(name.as_str());
    s.append(")\" stroke=\"none\"/>\n");
    s
}

/// The texture coordinate of corner `i` of face `f`.
pub open spec fn corner_uv(model: &Model, f: int, i: int) -> Point2 {
    model.vertices@[model.faces@[f].vertices@[i] as int].uv
}

/// Whether `shape` names a face of the mesh and has as many corners as
/// that face.
pub open spec fn face_drawable(model: &Model, shape: FaceShape) -> bool {
    &&& shape.face < face_count(model)
    &&& shape.vertices@.len() == model.faces@[shape.face as int].vertices@.len()
}

/// Width and height of texture `texture` as the patterns have them: those
/// of the list of dimensions, or one by one for a texture beyond the
/// list.
pub open spec fn pattern_size(dims: Seq<(u32, u32)>, texture: int) -> (u32, u32) {
    if 0 <= texture < dims.len() {
        dims[texture]
    } else {
        (1u32, 1u32)
    }
}

/// The page points of triangle `tri` of the fan of a face.
pub open spec fn triangle_points(shape: FaceShape, tri: int) -> [Point2; 3] {
    [shape.vertices@[0], shape.vertices@[tri + 1], shape.vertices@[tri + 2]]
}

/// The texture coordinates of triangle `tri` of the fan of a face.
pub open spec fn triangle_uvs(model: &Model, shape: FaceShape, tri: int) -> [Point2; 3] {
    [
        corner_uv(model, shape.face as int, 0),
        corner_uv(model, shape.face as int, tri + 1),
        corner_uv(model, shape.face as int, tri + 2),
    ]
}

/// Triangle `tri` of the fan of a textured face: its pattern and its
/// polygon; nothing where the solver finds no matrix.
pub open spec fn svg_face_triangle(
    model: &Model,
    shape: FaceShape,
    texture: int,
    size: (u32, u32),
    tri: int,
) -> Seq<char> {
    let pts = triangle_points(shape, tri);
    match svg_texture_matrix(triangle_uvs(model, shape, tri), pts, size.0, size.1) {
        Some(m) => svg_textured_triangle(pts, m, shape.face as int, tri, texture, size.0, size.1),
        None => Seq::empty(),
    }
}

/// The first `upto` triangles of a textured face, their patterns named
/// by the index of the face.
pub open spec fn svg_textured_face(
    model: &Model,
    shape: FaceShape,
    texture: int,
    size: (u32, u32),
    upto: int,
) -> Seq<char>
    decreases upto,
{
    if upto <= 0 {
        Seq::empty()
    } else {
        svg_textured_face(model, shape, texture, size, upto - 1) + svg_face_triangle(
            model,
            shape,
            texture,
            size,
            upto - 1,
        )
    }
}

/// A face: the triangles of its fan, each with its pattern, if textures
/// are drawn and the face has one; else one polygon, drawn as number
/// `idx`, filled with the colour of the paper.
pub open spec fn svg_face(
    model: &Model,
    shape: FaceShape,
    idx: int,
    with_textures: bool,
    dims: Seq<(u32, u32)>,
    fill: Seq<char>,
) -> Seq<char> {
    if with_textures && shape.texture is Some {
        let texture = shape.texture.unwrap() as int;
        svg_textured_face(
            model,
            shape,
            texture,
            pattern_size(dims, texture),
            fan_triangulation(shape.vertices@.len()).len() as int,
        )
    } else {
        svg_solid_face(shape.vertices@, idx, fill)
    }
}

fn uv_of_corner(model: &Model, f: usize, i: usize) -> (uv: Point2)
    requires
        model.wf(),
        f < face_count(model),
        i < model.faces@[f as int].vertices@.len(),
    ensures
        uv == corner_uv(model, f as int, i as int),
{
    proof {
        assert(model.face_wf(f as int));
        assert(model.slot_wf(f as int, i as int));
    }
    model.vertices[model.faces[f].vertices[i]].uv
}

fn face_triangle_markup(
    model: &Model,
    shape: &FaceShape,
    texture: usize,
    size: (u32, u32),
    tri: usize,
) -> (s: String)
    requires
        model.wf(),
        face_drawable(model, *shape),
        tri + 2 < shape.vertices.len(),
    ensures
        s@ == svg_face_triangle(model, *shape, texture as int, size, tri as int),
{
    let pts = [shape.vertices[0], shape.vertices[tri + 1], shape.vertices[tri + 2]];
    let uvs = [
        uv_of_corner(model, shape.face, 0),
        uv_of_corner(model, shape.face, tri + 1),
        uv_of_corner(model, shape.face, tri + 2),
    ];
    proof {
        assert(pts == triangle_points(*shape, tri as int));
        assert(uvs == triangle_uvs(model, *shape, tri as int));
    }
    match calc_svg_texture_matrix_triangle(uvs, pts, size.0, size.1) {
        Some(m) => textured_triangle_markup(&pts, &m, shape.face, tri, texture, size.0, size.1),
        None => String::new(),
    }
}

fn textured_face_markup(model: &Model, shape: &FaceShape, texture: usize, size: (u32, u32)) -> (s:
    String)
    requires
        model.wf(),
        face_drawable(model, *shape),
    ensures
        s@ == svg_textured_face(
            model,
            *shape,
            texture as int,
            size,
            fan_triangulation(shape.vertices@.len()).len() as int,
        ),
{
    let triangles = triangulate_polygon(shape.vertices.len());
    let count: usize = triangles.len();
    let mut s = String::new();
    let mut t: usize = 0;
    while t < count
        invariant
            model.wf(),
            face_drawable(model, *shape),
            count == fan_triangulation(shape.vertices@.len()).len(),
            count > 0 ==> count + 2 == shape.vertices@.len(),
            t <= count,
            s@ == svg_textured_face(model, *shape, texture as int, size, t as int),
        decreases count - t,
    {
        let piece = face_triangle_markup(model, shape, texture, size, t);
        s.append(piece.as_str());
        t += 1;
    }
    s
}

fn face_markup(
    model: &Model,
    shape: &FaceShape,
    idx: u128,
    with_textures: bool,
    dims: &Vec<(u32, u32)>,
    fill: &String,
) -> (s: String)
    requires
        model.wf(),
        face_drawable(model, *shape),
    ensures
        s@ == svg_face(model, *shape, idx as int, with_textures, dims@, fill@),
{
    match shape.texture {
        Some(texture) => {
            if with_textures {
                let size: (u32, u32) = if texture < dims.len() {
                    dims[texture]
                } else {
                    (1, 1)
                };
                return textured_face_markup(model, shape, texture, size);
            }
        },
        None => {},
    }
    solid_face_markup(&shape.vertices, idx, fill)
}

/// The first `upto` of `faces`, numbered from `first`.
pub open spec fn svg_faces(
    model: &Model,
    faces: Seq<FaceShape>,
    first: int,
    upto: int,
    with_textures: bool,
    dims: Seq<(u32, u32)>,
    fill: Seq<char>,
) -> Seq<char>
    decreases upto,
{
    if upto <= 0 {
        Seq::empty()
    } else {
        svg_faces(model, faces, first, upto - 1, with_textures, dims, fill) + svg_face(
            model,
            faces[upto - 1],
            first + upto - 1,
            with_textures,
            dims,
            fill,
        )
    }
}

/// Number of faces of the first `upto` islands.
pub open spec fn faces_before(shapes: Seq<IslandShape>, upto: int) -> int
    decreases upto,
{
    if upto <= 0 {
        0
    } else {
        faces_before(shapes, upto - 1) + shapes[upto - 1].faces.len()
    }
}

/// The faces of the first `upto` islands of a page, numbered through.
pub open spec fn svg_page_faces(
    model: &Model,
    shapes: Seq<IslandShape>,
    upto: int,
    with_textures: bool,
    dims: Seq<(u32, u32)>,
    fill: Seq<char>,
) -> Seq<char>
    decreases upto,
{
    if upto <= 0 {
        Seq::empty()
    } else {
        svg_page_faces(model, shapes, upto - 1, with_textures, dims, fill) + svg_faces(
            model,
            shapes[upto - 1].faces@,
            faces_before(shapes, upto - 1),
            shapes[upto - 1].faces@.len() as int,
            with_textures,
            dims,
            fill,
        )
    }
}

/// Whether every face of every island of `shapes` is drawable.
pub open spec fn shapes_drawable(model: &Model, shapes: Seq<IslandShape>) -> bool {
    forall|k: int, j: int|
        0 <= k < shapes.len() && 0 <= j < shapes[k].faces@.len() ==> face_drawable(
            model,
            #[trigger] shapes[k].faces@[j],
        )
}

/// The layer of faces of a page.
pub open spec fn svg_faces_layer(
    model: &Model,
    shapes: Seq<IslandShape>,
    with_textures: bool,
    dims: Seq<(u32, u32)>,
    fill: Seq<char>,
) -> Seq<char> {
    "<g inkscape:label=\"Faces\" inkscape:groupmode=\"layer\" id=\"Faces\">\n"@ + svg_page_faces(
        model,
        shapes,
        shapes.len() as int,
        with_textures,
        dims,
        fill,
    ) + "</g>\n"@
}

fn faces_markup(
    model: &Model,
    faces: &Vec<FaceShape>,
    first: u128,
    with_textures: bool,
    dims: &Vec<(u32, u32)>,
    fill: &String,
) -> (s: String)
    requires
        model.wf(),
        forall|j: int| 0 <= j < faces@.len() ==> face_drawable(model, #[trigger] faces@[j]),
        first + faces@.len() <= u128::MAX,
    ensures
        s@ == svg_faces(
            model,
            faces@,
            first as int,
            faces@.len() as int,
            with_textures,
            dims@,
            fill@,
        ),
{
    let mut s = String::new();
    let mut j: usize = 0;
    while j < faces.len()
        invariant
            model.wf(),
            forall|j: int| 0 <= j < faces@.len() ==> face_drawable(model, #[trigger] faces@[j]),
            first + faces@.len() <= u128::MAX,
            j <= faces@.len(),
            s@ == svg_faces(model, faces@, first as int, j as int, with_textures, dims@, fill@),
        decreases faces@.len() - j,
    {
        let piece = face_markup(model, &faces[j], first + j as u128, with_textures, dims, fill);
        s.append(piece.as_str());
        j += 1;
    }
    s
}

proof fn lemma_faces_before_bound(shapes: Seq<IslandShape>, upto: int)
    requires
        0 <= upto <= shapes.len(),
    ensures
        0 <= faces_before(shapes, upto) <= upto * usize::MAX,
    decreases upto,
{
    if upto > 0 {
        lemma_faces_before_bound(shapes, upto - 1);
        assert(upto * usize::MAX == (upto - 1) * usize::MAX + usize::MAX) by (nonlinear_arith);
    }
}

fn faces_layer_markup(
    model: &Model,
    shapes: &Vec<IslandShape>,
    with_textures: bool,
    dims: &Vec<(u32, u32)>,
    fill: &String,
) -> (s: String)
    requires
        model.wf(),
        shapes_drawable(model, shapes@),
    ensures
        s@ == svg_faces_layer(model, shapes@, with_textures, dims@, fill@),
{
    let mut body = String::new();
    let mut first: u128 = 0;
    let mut k: usize = 0;
    while k < shapes.len()
        invariant
            model.wf(),
            shapes_drawable(model, shapes@),
            k <= shapes@.len(),
            first == faces_before(shapes@, k as int),
            body@ == svg_page_faces(model, shapes@, k as int, with_textures, dims@, fill@),
        decreases shapes@.len() - k,
    {
        proof {
            lemma_faces_before_bound(shapes@, k as int);
            lemma_faces_before_bound(shapes@, k + 1);
            assert((k + 1) * usize::MAX <= 0x1_0000_0000_0000_0000 * 0x1_0000_0000_0000_0000)
                by (nonlinear_arith)
                requires
                    0 <= k + 1 <= 0x1_0000_0000_0000_0000,
                    usize::MAX < 0x1_0000_0000_0000_0000,
            ;
        }
        let piece = faces_markup(model, &shapes[k].faces, first, with_textures, dims, fill);
        body.append(piece.as_str());
        first = first + shapes[k].faces.len() as u128;
        k += 1;
    }
    let mut s = String::from_str(
        "<g inkscape:label=\"Faces\" inkscape:groupmode=\"layer\" id=\"Faces\">\n",
    );
    s.append(body.as_str());
    s.append("</g>\n");
    s
}

/// A flap, drawn as number `idx`: a grey polygon with an outline in the
/// colour of tabs.
pub open spec fn svg_flap(flap: FlapShape, idx: int, stroke: Seq<char>) -> Seq<char> {
    "<polygon id=\"flap_"@ + digits(idx as nat) + "\" fill=\"#E0E0E0\" stroke=\""@ + stroke
        + "\" stroke-width=\"0.1\" points=\""@ + point_text(flap.corners[0]) + " "@ + point_text(
        flap.corners[1],
    ) + " "@ + point_text(flap.corners[2]) + " "@ + point_text(flap.corners[3]) + " \"/>\n"@
}

/// The first `upto` of `flaps`, numbered from `first`.
pub open spec fn svg_flaps(flaps: Seq<FlapShape>, first: int, upto: int, stroke: Seq<char>) -> Seq<
    char,
>
    decreases upto,
{
    if upto <= 0 {
        Seq::empty()
    } else {
        svg_flaps(flaps, first, upto - 1, stroke) + svg_flap(
            flaps[upto - 1],
            first + upto - 1,
            stroke,
        )
    }
}

/// Number of flaps of the first `upto` islands.
pub open spec fn flaps_before(shapes: Seq<IslandShape>, upto: int) -> int
    decreases upto,
{
    if upto <= 0 {
        0
    } else {
        flaps_before(shapes, upto - 1) + shapes[upto - 1].flaps.len()
    }
}

/// The flaps of the first `upto` islands of a page, numbered through.
pub open spec fn svg_page_flaps(shapes: Seq<IslandShape>, upto: int, stroke: Seq<char>) -> Seq<char>
    decreases upto,
{
    if upto <= 0 {
        Seq::empty()
    } else {
        svg_page_flaps(shapes, upto - 1, stroke) + svg_flaps(
            shapes[upto - 1].flaps@,
            flaps_before(shapes, upto - 1),
            shapes[upto - 1].flaps@.len() as int,
            stroke,
        )
    }
}

/// The layer of flaps of a page: none where the page has no flap.
pub open spec fn svg_flaps_layer(shapes: Seq<IslandShape>, stroke: Seq<char>) -> Seq<char> {
    if flaps_before(shapes, shapes.len() as int) == 0 {
        Seq::empty()
    } else {
        "<g inkscape:label=\"Flaps\" inkscape:groupmode=\"layer\" id=\"Flaps\">\n"@ + svg_page_flaps(
            shapes,
            shapes.len() as int,
            stroke,
        ) + "</g>\n"@
    }
}

fn flap_markup(flap: &FlapShape, idx: u128, stroke: &String) -> (s: String)
    ensures
        s@ == svg_flap(*flap, idx as int, stroke@),
{
    let p0 = point_markup(flap.corners[0]);
    let p1 = point_markup(flap.corners[1]);
    let p2 = point_markup(flap.corners[2]);
    let p3 = point_markup(flap.corners[3]);
    let mut s = String::from_str("<polygon id=\"flap_");
    push_digits(&mut s, idx);
    s.append("\" fill=\"#E0E0E0\" stroke=\"");
    s.append(stroke.as_str());
    s.append("\" stroke-width=\"0.1\" points=\"");
    s.append(p0.as_str());
    s.append(" ");
    s.append(p1.as_str());
    s.append(" ");
    s.append(p2.as_str());
    s.append(" ");
    s.append(p3.as_str());
    s.append(" \"/>\n");
    s
}

fn flaps_markup(flaps: &Vec<FlapShape>, first: u128, stroke: &String) -> (s: String)
    requires
        first + flaps@.len() <= u128::MAX,
    ensures
        s@ == svg_flaps(flaps@, first as int, flaps@.len() as int, stroke@),
{
    let mut s = String::new();
    let mut j: usize = 0;
    while j < flaps.len()
        invariant
            first + flaps@.len() <= u128::MAX,
            j <= flaps@.len(),
            s@ == svg_flaps(flaps@, first as int, j as int, stroke@),
        decreases flaps@.len() - j,
    {
        let piece = flap_markup(&flaps[j], first + j as u128, stroke);
        s.append(piece.as_str());
        j += 1;
    }
    s
}

proof fn lemma_flaps_before_bound(shapes: Seq<IslandShape>, upto: int)
    requires
        0 <= upto <= shapes.len(),
    ensures
        0 <= flaps_before(shapes, upto) <= upto * usize::MAX,
    decreases upto,
{
    if upto > 0 {
        lemma_flaps_before_bound(shapes, upto - 1);
        assert(upto * usize::MAX == (upto - 1) * usize::MAX + usize::MAX) by (nonlinear_arith);
    }
}

proof fn lemma_count_fits(k: int)
    requires
        0 <= k <= usize::MAX,
    ensures
        (k + 1) * usize::MAX <= 0x1_0000_0000_0000_0000 * 0x1_0000_0000_0000_0000,
{
    assert((k + 1) * usize::MAX <= 0x1_0000_0000_0000_0000 * 0x1_0000_0000_0000_0000)
        by (nonlinear_arith)
        requires
            0 <= k + 1 <= 0x1_0000_0000_0000_0000,
            usize::MAX < 0x1_0000_0000_0000_0000,
    ;
}

fn flaps_layer_markup(shapes: &Vec<IslandShape>, stroke: &String) -> (s: String)
    ensures
        s@ == svg_flaps_layer(shapes@, stroke@),
{
    let mut body = String::new();
    let mut first: u128 = 0;
    let mut k: usize = 0;
    while k < shapes.len()
        invariant
            k <= shapes@.len(),
            first == flaps_before(shapes@, k as int),
            body@ == svg_page_flaps(shapes@, k as int, stroke@),
        decreases shapes@.len() - k,
    {
        proof {
            lemma_flaps_before_bound(shapes@, k as int);
            lemma_flaps_before_bound(shapes@, k + 1);
            lemma_count_fits(k as int);
        }
        let piece = flaps_markup(&shapes[k].flaps, first, stroke);
        body.append(piece.as_str());
        first = first + shapes[k].flaps.len() as u128;
        k += 1;
    }
    if first == 0 {
        return String::new();
    }
    let mut s = String::from_str(
        "<g inkscape:label=\"Flaps\" inkscape:groupmode=\"layer\" id=\"Flaps\">\n",
    );
    s.append(body.as_str());
    s.append("</g>\n");
    s
}

/// A fold line, drawn as number `idx` of its kind: solid for a mountain
/// fold, dashed for a valley fold.
pub open spec fn svg_line(line: FoldLine, idx: int, stroke: Seq<char>) -> Seq<char> {
    (if line.valley {
        "<line id=\"valley_"@
    } else {
        "<line id=\"mountain_"@
    }) + digits(idx as nat) + "\" x1=\""@ + decimal(line.from.x as int) + "\" y1=\""@ + decimal(
        line.from.y as int,
    ) + "\" x2=\""@ + decimal(line.to.x as int) + "\" y2=\""@ + decimal(line.to.y as int)
        + "\" stroke=\""@ + stroke + (if line.valley {
        "\" stroke-width=\"0.2\" stroke-dasharray=\"1,1\"/>\n"@
    } else {
        "\" stroke-width=\"0.2\" />\n"@
    })
}

/// Number of valley folds, or of mountain folds, among the first `upto` of
/// `folds`.
pub open spec fn lines_count(folds: Seq<FoldLine>, valley: bool, upto: int) -> int
    decreases upto,
{
    if upto <= 0 {
        0
    } else {
        lines_count(folds, valley, upto - 1) + if folds[upto - 1].valley == valley {
            1int
        } else {
            0int
        }
    }
}

/// The valley folds, or the mountain folds, among the first `upto` of
/// `folds`, numbered from `first`.
pub open spec fn svg_lines(
    folds: Seq<FoldLine>,
    valley: bool,
    first: int,
    upto: int,
    stroke: Seq<char>,
) -> Seq<char>
    decreases upto,
{
    if upto <= 0 {
        Seq::empty()
    } else {
        svg_lines(folds, valley, first, upto - 1, stroke) + if folds[upto - 1].valley == valley {
            svg_line(folds[upto - 1], first + lines_count(folds, valley, upto - 1), stroke)
        } else {
            Seq::empty()
        }
    }
}

/// Number of valley folds, or of mountain folds, of the first `upto`
/// islands.
pub open spec fn lines_before(shapes: Seq<IslandShape>, valley: bool, upto: int) -> int
    decreases upto,
{
    if upto <= 0 {
        0
    } else {
        lines_before(shapes, valley, upto - 1) + lines_count(
            shapes[upto - 1].folds@,
            valley,
            shapes[upto - 1].folds@.len() as int,
        )
    }
}

/// The valley folds, or the mountain folds, of the first `upto` islands of
/// a page, numbered through.
pub open spec fn svg_page_lines(
    shapes: Seq<IslandShape>,
    valley: bool,
    upto: int,
    stroke: Seq<char>,
) -> Seq<char>
    decreases upto,
{
    if upto <= 0 {
        Seq::empty()
    } else {
        svg_page_lines(shapes, valley, upto - 1, stroke) + svg_lines(
            shapes[upto - 1].folds@,
            valley,
            lines_before(shapes, valley, upto - 1),
            shapes[upto - 1].folds@.len() as int,
            stroke,
        )
    }
}

/// The layer of fold lines of a page, with a layer of mountain folds and
/// a layer of valley folds in it: none where the options ask for no fold
/// lines.
pub open spec fn svg_fold_layer(shapes: Seq<IslandShape>, with_folds: bool, stroke: Seq<char>) -> Seq<
    char,
> {
    if !with_folds {
        Seq::empty()
    } else {
        "<g inkscape:label=\"Fold\" inkscape:groupmode=\"layer\" id=\"Fold\">\n<g inkscape:label=\"Mountain\" inkscape:groupmode=\"layer\" id=\"Mountain\">\n"@
            + svg_page_lines(shapes, false, shapes.len() as int, stroke)
            + "</g>\n<g inkscape:label=\"Valley\" inkscape:groupmode=\"layer\" id=\"Valley\">\n"@
            + svg_page_lines(shapes, true, shapes.len() as int, stroke) + "</g></g>\n"@
    }
}

fn line_markup(line: &FoldLine, idx: u128, stroke: &String) -> (s: String)
    ensures
        s@ == svg_line(*line, idx as int, stroke@),
{
    let mut s = if line.valley {
        String::from_str("<line id=\"valley_")
    } else {
        String::from_str("<line id=\"mountain_")
    };
    push_digits(&mut s, idx);
    s.append("\" x1=\"");
    push_decimal(&mut s, line.from.x as i128);
    s.append("\" y1=\"");
    push_decimal(&mut s, line.from.y as i128);
    s.append("\" x2=\"");
    push_decimal(&mut s, line.to.x as i128);
    s.append("\" y2=\"");
    push_decimal(&mut s, line.to.y as i128);
    s.append("\" stroke=\"");
    s.append(stroke.as_str());
    if line.valley {
        s.append("\" stroke-width=\"0.2\" stroke-dasharray=\"1,1\"/>\n");
    } else {
        s.append("\" stroke-width=\"0.2\" />\n");
    }
    s
}

proof fn lemma_lines_count_bound(folds: Seq<FoldLine>, valley: bool, upto: int)
    requires
        0 <= upto,
    ensures
        0 <= lines_count(folds, valley, upto) <= upto,
    decreases upto,
{
    if upto > 0 {
        lemma_lines_count_bound(folds, valley, upto - 1);
    }
}

fn lines_markup(folds: &Vec<FoldLine>, valley: bool, first: u128, stroke: &String) -> (r: (
    String,
    u128,
))
    requires
        first + folds@.len() <= u128::MAX,
    ensures
        r.0@ == svg_lines(folds@, valley, first as int, folds@.len() as int, stroke@),
        r.1 == first + lines_count(folds@, valley, folds@.len() as int),
{
    let mut s = String::new();
    let mut idx: u128 = first;
    let mut j: usize = 0;
    while j < folds.len()
        invariant
            first + folds@.len() <= u128::MAX,
            j <= folds@.len(),
            idx == first + lines_count(folds@, valley, j as int),
            s@ == svg_lines(folds@, valley, first as int, j as int, stroke@),
        decreases folds@.len() - j,
    {
        proof {
            lemma_lines_count_bound(folds@, valley, j as int);
        }
        if folds[j].valley == valley {
            let piece = line_markup(&folds[j], idx, stroke);
            s.append(piece.as_str());
            idx = idx + 1;
        } else {
            proof {
                assert(s@ + Seq::<char>::empty() =~= s@);
            }
        }
        j += 1;
    }
    (s, idx)
}

proof fn lemma_lines_before_bound(shapes: Seq<IslandShape>, valley: bool, upto: int)
    requires
        0 <= upto <= shapes.len(),
    ensures
        0 <= lines_before(shapes, valley, upto) <= upto * usize::MAX,
    decreases upto,
{
    if upto > 0 {
        lemma_lines_before_bound(shapes, valley, upto - 1);
        lemma_lines_count_bound(
            shapes[upto - 1].folds@,
            valley,
            shapes[upto - 1].folds.len() as int,
        );
        assert(upto * usize::MAX == (upto - 1) * usize::MAX + usize::MAX) by (nonlinear_arith);
    }
}

fn page_lines_markup(shapes: &Vec<IslandShape>, valley: bool, stroke: &String) -> (s: String)
    ensures
        s@ == svg_page_lines(shapes@, valley, shapes@.len() as int, stroke@),
{
    let mut s = String::new();
    let mut first: u128 = 0;
    let mut k: usize = 0;
    while k < shapes.len()
        invariant
            k <= shapes@.len(),
            first == lines_before(shapes@, valley, k as int),
            s@ == svg_page_lines(shapes@, valley, k as int, stroke@),
        decreases shapes@.len() - k,
    {
        proof {
            lemma_lines_before_bound(shapes@, valley, k as int);
            lemma_count_fits(k as int);
            assert(shapes@[k as int].folds.len() <= usize::MAX);
        }
        let (piece, next) = lines_markup(&shapes[k].folds, valley, first, stroke);
        s.append(piece.as_str());
        first = next;
        k += 1;
    }
    s
}

fn fold_layer_markup(shapes: &Vec<IslandShape>, with_folds: bool, stroke: &String) -> (s: String)
    ensures
        s@ == svg_fold_layer(shapes@, with_folds, stroke@),
{
    if !with_folds {
        return String::new();
    }
    let mountains = page_lines_markup(shapes, false, stroke);
    let valleys = page_lines_markup(shapes, true, stroke);
    let mut s = String::from_str(
        "<g inkscape:label=\"Fold\" inkscape:groupmode=\"layer\" id=\"Fold\">\n<g inkscape:label=\"Mountain\" inkscape:groupmode=\"layer\" id=\"Mountain\">\n",
    );
    s.append(mountains.as_str());
    s.append("</g>\n<g inkscape:label=\"Valley\" inkscape:groupmode=\"layer\" id=\"Valley\">\n");
    s.append(valleys.as_str());
    s.append("</g></g>\n");
    s
}

/// The first `upto` points of a path: the first as it is, each further
/// one after the command `L`, each followed by a space.
pub open spec fn path_points(points: Seq<Point2>, upto: int) -> Seq<char>
    decreases upto,
{
    if upto <= 0 {
        Seq::empty()
    } else if upto == 1 {
        point_text(points[0]) + " "@
    } else {
        path_points(points, upto - 1) + "L "@ + point_text(points[upto - 1]) + " "@
    }
}

/// A contour, drawn as number `idx`: a closed path in the colour of cuts.
pub open spec fn svg_cut(points: Seq<Point2>, idx: int, stroke: Seq<char>) -> Seq<char> {
    "<path id=\"cut_"@ + digits(idx as nat) + "\" fill=\"none\" stroke=\""@ + stroke
        + "\" stroke-width=\"0.3\" d=\"M "@ + path_points(points, points.len() as int) + "Z\"/>\n"@
}

/// Number of the first `upto` islands that have a contour.
pub open spec fn cuts_before(shapes: Seq<IslandShape>, upto: int) -> int
    decreases upto,
{
    if upto <= 0 {
        0
    } else {
        cuts_before(shapes, upto - 1) + if shapes[upto - 1].contour@.len() > 0 {
            1int
        } else {
            0int
        }
    }
}

/// The contours of the first `upto` islands of a page, numbered through.
pub open spec fn svg_page_cuts(shapes: Seq<IslandShape>, upto: int, stroke: Seq<char>) -> Seq<char>
    decreases upto,
{
    if upto <= 0 {
        Seq::empty()
    } else {
        svg_page_cuts(shapes, upto - 1, stroke) + if shapes[upto - 1].contour@.len() > 0 {
            svg_cut(shapes[upto - 1].contour@, cuts_before(shapes, upto - 1), stroke)
        } else {
            Seq::empty()
        }
    }
}

/// The layer of cuts of a page.
pub open spec fn svg_cut_layer(shapes: Seq<IslandShape>, stroke: Seq<char>) -> Seq<char> {
    "<g inkscape:label=\"Cut\" inkscape:groupmode=\"layer\" id=\"Cut\">\n"@ + svg_page_cuts(
        shapes,
        shapes.len() as int,
        stroke,
    ) + "</g>\n"@
}

fn path_points_markup(points: &Vec<Point2>) -> (s: String)
    ensures
        s@ == path_points(points@, points@.len() as int),
{
    let mut s = String::new();
    let mut i: usize = 0;
    while i < points.len()
        invariant
            i <= points@.len(),
            s@ == path_points(points@, i as int),
        decreases points@.len() - i,
    {
        let piece = point_markup(points[i]);
        let ghost before = s@;
        if i > 0 {
            s.append("L ");
        }
        s.append(piece.as_str());
        s.append(" ");
        proof {
            if i == 0 {
                assert(s@ =~= point_text(points@[0]) + " "@);
            }
        }
        i += 1;
    }
    s
}

fn cut_markup(points: &Vec<Point2>, idx: u128, stroke: &String) -> (s: String)
    ensures
        s@ == svg_cut(points@, idx as int, stroke@),
{
    let path = path_points_markup(points);
    let mut s = String::from_str("<path id=\"cut_");
    push_digits(&mut s, idx);
    s.append("\" fill=\"none\" stroke=\"");
    s.append(stroke.as_str());
    s.append("\" stroke-width=\"0.3\" d=\"M ");
    s.append(path.as_str());
    s.append("Z\"/>\n");
    s
}

proof fn lemma_cuts_before_bound(shapes: Seq<IslandShape>, upto: int)
    requires
        0 <= upto,
    ensures
        0 <= cuts_before(shapes, upto) <= upto,
    decreases upto,
{
    if upto > 0 {
        lemma_cuts_before_bound(shapes, upto - 1);
    }
}

fn cut_layer_markup(shapes: &Vec<IslandShape>, stroke: &String) -> (s: String)
    ensures
        s@ == svg_cut_layer(shapes@, stroke@),
{
    let mut body = String::new();
    let mut idx: u128 = 0;
    let mut k: usize = 0;
    while k < shapes.len()
        invariant
            k <= shapes@.len(),
            idx == cuts_before(shapes@, k as int),
            body@ == svg_page_cuts(shapes@, k as int, stroke@),
        decreases shapes@.len() - k,
    {
        proof {
            lemma_cuts_before_bound(shapes@, k as int);
        }
        if shapes[k].contour.len() > 0 {
            let piece = cut_markup(&shapes[k].contour, idx, stroke);
            body.append(piece.as_str());
            idx = idx + 1;
        } else {
            proof {
                assert(body@ + Seq::<char>::empty() =~= body@);
            }
        }
        k += 1;
    }
    let mut s = String::from_str("<g inkscape:label=\"Cut\" inkscape:groupmode=\"layer\" id=\"Cut\">\n");
    s.append(body.as_str());
    s.append("</g>\n");
    s
}

/// The style that places a text relative to its position.
pub open spec fn anchor_style(align: TextAlign) -> Seq<char> {
    match align {
        TextAlign::Near => ""@,
        TextAlign::Center => "text-anchor:middle;"@,
        TextAlign::Far => "text-anchor:end;"@,
    }
}

/// Whether a text is drawn without a rotation: its angle is below a
/// hundredth of a degree in magnitude.
pub open spec fn is_level(angle: i64) -> bool {
    -10_000 < angle < 10_000
}

/// A text: its position, its style and, unless it is level, its rotation
/// about its position, around its escaped content.
pub open spec fn svg_text(text: PrintableText) -> Seq<char> {
    "<text x=\""@ + decimal(text.pos.x as int) + "\" y=\""@ + decimal(text.pos.y as int)
        + "\" style=\""@ + anchor_style(text.align) + "font-size:"@ + decimal(text.size as int)
        + "px;font-family:sans-serif;fill:#000000\""@ + (if is_level(text.angle) {
        ">"@
    } else {
        " transform=\"rotate("@ + decimal(text.angle as int) + " "@ + decimal(text.pos.x as int)
            + " "@ + decimal(text.pos.y as int) + ")\">"@
    }) + escaped(text.text@) + "</text>\n"@
}

/// The first `upto` of `texts`.
pub open spec fn svg_texts(texts: Seq<PrintableText>, upto: int) -> Seq<char>
    decreases upto,
{
    if upto <= 0 {
        Seq::empty()
    } else {
        svg_texts(texts, upto - 1) + svg_text(texts[upto - 1])
    }
}

/// The layer of texts of a page: none where the page has no text.
pub open spec fn svg_text_layer(texts: Seq<PrintableText>) -> Seq<char> {
    if texts.len() == 0 {
        Seq::empty()
    } else {
        "<g inkscape:label=\"Text\" inkscape:groupmode=\"layer\" id=\"Text\">\n"@ + svg_texts(
            texts,
            texts.len() as int,
        ) + "</g>\n"@
    }
}

fn rotation_markup(text: &PrintableText) -> (s: String)
    ensures
        s@ == (if is_level(text.angle) {
            ">"@
        } else {
            " transform=\"rotate("@ + decimal(text.angle as int) + " "@ + decimal(
                text.pos.x as int,
            ) + " "@ + decimal(text.pos.y as int) + ")\">"@
        }),
{
    if -10_000 < text.angle && text.angle < 10_000 {
        String::from_str(">")
    } else {
        let mut s = String::from_str(" transform=\"rotate(");
        push_decimal(&mut s, text.angle as i128);
        s.append(" ");
        push_decimal(&mut s, text.pos.x as i128);
        s.append(" ");
        push_decimal(&mut s, text.pos.y as i128);
        s.append(")\">");
        s
    }
}

fn text_markup(text: &PrintableText) -> (s: String)
    ensures
        s@ == svg_text(*text),
{
    let rotation = rotation_markup(text);
    let content = html_escape(text.text.as_str());
    let mut s = String::from_str("<text x=\"");
    push_decimal(&mut s, text.pos.x as i128);
    s.append("\" y=\"");
    push_decimal(&mut s, text.pos.y as i128);
    s.append("\" style=\"");
    match text.align {
        TextAlign::Near => {
            s.append("");
        },
        TextAlign::Center => {
            s.append("text-anchor:middle;");
        },
        TextAlign::Far => {
            s.append("text-anchor:end;");
        },
    }
    s.append("font-size:");
    push_decimal(&mut s, text.size as i128);
    s.append("px;font-family:sans-serif;fill:#000000\"");
    s.append(rotation.as_str());
    s.append(content.as_str());
    s.append("</text>\n");
    s
}

fn text_layer_markup(texts: &Vec<PrintableText>) -> (s: String)
    ensures
        s@ == svg_text_layer(texts@),
{
    if texts.len() == 0 {
        return String::new();
    }
    let mut body = String::new();
    let mut i: usize = 0;
    while i < texts.len()
        invariant
            i <= texts@.len(),
            body@ == svg_texts(texts@, i as int),
        decreases texts@.len() - i,
    {
        let piece = text_markup(&texts[i]);
        body.append(piece.as_str());
        i += 1;
    }
    let mut s = String::from_str(
        "<g inkscape:label=\"Text\" inkscape:groupmode=\"layer\" id=\"Text\">\n",
    );
    s.append(body.as_str());
    s.append("</g>\n");
    s
}

/// Why an export failed.
#[derive(Clone, Copy, Debug, PartialEq, Eq, Structural)]
pub enum ExportError {
    /// The unfolding does not fit the mesh.
    Layout,
    /// A texture could not be encoded.
    Texture,
}

/// What is drawn on one page: its islands and its texts.
#[derive(Debug)]
pub struct PageContent {
    pub shapes: Vec<IslandShape>,
    pub texts: Vec<PrintableText>,
}

/// Whether `content` is what is drawn on page `page`.
pub open spec fn is_page_content(
    content: PageContent,
    craft: &Papercraft,
    unfolding: &Unfolding,
    options: PaperOptions,
    page: u32,
) -> bool {
    &&& is_page_shapes(content.shapes@, craft, unfolding, options, page)
    &&& is_page_texts(content.texts@, craft, options, page)
}

/// Whether `contents` are the contents of the pages of an export, in
/// order.
pub open spec fn is_export_contents(
    contents: Seq<PageContent>,
    craft: &Papercraft,
    unfolding: &Unfolding,
) -> bool {
    let options = export_options_spec(craft, unfolding);
    &&& contents.len() == options.pages
    &&& forall|p: int|
        0 <= p < contents.len() ==> is_page_content(
            #[trigger] contents[p],
            craft,
            unfolding,
            options,
            p as u32,
        )
}

/// Whether the faces of a page are faces of the mesh, each with as many
/// corners as the mesh gives it.
proof fn lemma_page_shapes_drawable(
    shapes: Seq<IslandShape>,
    craft: &Papercraft,
    unfolding: &Unfolding,
    options: PaperOptions,
    page: u32,
)
    requires
        craft.wf(),
        unfolding.fits(craft.mesh()),
        is_page_shapes(shapes, craft, unfolding, options, page),
    ensures
        shapes_drawable(craft.mesh(), shapes),
{
    let model = craft.mesh();
    let origin = options.page_position_spec(page);
    let on_page = crate::pages::islands_on_page(
        craft,
        unfolding,
        options,
        page,
        craft.island_seq().len() as int,
    );
    assert forall|k: int, j: int|
        0 <= k < shapes.len() && 0 <= j < shapes[k].faces@.len() implies face_drawable(
        model,
        #[trigger] shapes[k].faces@[j],
    ) by {
        let shape = shapes[k];
        assert(crate::shapes::is_island_shape(shape, craft, unfolding, origin, on_page[k]));
        let f = shape.steps@[j].face as int;
        assert(crate::shapes::is_face_shape(shape.faces@[j], model, unfolding, origin, f));
        assert(crate::traverse::step_wf(model, craft.statuses(), shape.steps@, j));
        assert(unfolding.faces@[f]@.len() == model.faces@[f].vertices@.len());
    }
}

/// Collects what is drawn on page `page`.
pub fn page_content(craft: &Papercraft, unfolding: &Unfolding, options: &PaperOptions, page: u32) -> (content:
    PageContent)
    requires
        craft.wf(),
        unfolding.fits(craft.mesh()),
        options.wf(),
    ensures
        is_page_content(content, craft, unfolding, *options, page),
        shapes_drawable(craft.mesh(), content.shapes@),
        texts_printable(content.texts@),
{
    let shapes = page_shapes(craft, unfolding, options, page);
    let texts = collect_texts(craft, options, page);
    proof {
        lemma_page_shapes_drawable(shapes@, craft, unfolding, *options, page);
    }
    PageContent { shapes, texts }
}

/// Collects what is drawn on each page of an export.
pub fn export_contents(craft: &Papercraft, unfolding: &Unfolding) -> (contents: Vec<PageContent>)
    requires
        craft.wf(),
        unfolding.fits(craft.mesh()),
    ensures
        is_export_contents(contents@, craft, unfolding),
        forall|p: int|
            0 <= p < contents@.len() ==> shapes_drawable(
                craft.mesh(),
                (#[trigger] contents@[p]).shapes@,
            ) && texts_printable(contents@[p].texts@),
{
    let options = export_options(craft, unfolding);
    let mut contents: Vec<PageContent> = Vec::new();
    let mut page: u32 = 0;
    while page < options.pages
        invariant
            craft.wf(),
            unfolding.fits(craft.mesh()),
            options == export_options_spec(craft, unfolding),
            options.wf(),
            page <= options.pages,
            contents@.len() == page,
            forall|p: int|
                0 <= p < contents@.len() ==> is_page_content(
                    #[trigger] contents@[p],
                    craft,
                    unfolding,
                    options,
                    p as u32,
                ),
            forall|p: int|
                0 <= p < contents@.len() ==> shapes_drawable(
                    craft.mesh(),
                    (#[trigger] contents@[p]).shapes@,
                ) && texts_printable(contents@[p].texts@),
        decreases options.pages - page,
    {
        let content = page_content(craft, unfolding, &options, page);
        contents.push(content);
        page += 1;
    }
    contents
}

/// The layers of a page: faces, flaps, fold lines, cuts and texts.
#[verifier::opaque]
pub open spec fn svg_layers(
    model: &Model,
    options: PaperOptions,
    content: PageContent,
    with_textures: bool,
    dims: Seq<(u32, u32)>,
) -> Seq<char> {
    svg_faces_layer(model, content.shapes@, with_textures, dims, options.paper_color.hex())
        + svg_flaps_layer(content.shapes@, options.tab_line_color.hex()) + svg_fold_layer(
        content.shapes@,
        options.fold_style != FoldStyle::NoFolds,
        options.fold_line_color.hex(),
    ) + svg_cut_layer(content.shapes@, options.cut_line_color.hex()) + svg_text_layer(
        content.texts@,
    )
}

/// Writes the layers of a page.
pub fn write_svg_layers(
    model: &Model,
    options: &PaperOptions,
    content: &PageContent,
    with_textures: bool,
    tex_dimensions: &Vec<(u32, u32)>,
) -> (s: String)
    requires
        model.wf(),
        shapes_drawable(model, content.shapes@),
    ensures
        s@ == svg_layers(model, *options, *content, with_textures, tex_dimensions@),
{
    reveal(svg_layers);
    let paper = options.paper_color.to_hex();
    let tab = options.tab_line_color.to_hex();
    let fold = options.fold_line_color.to_hex();
    let cut = options.cut_line_color.to_hex();
    let faces = faces_layer_markup(model, &content.shapes, with_textures, tex_dimensions, &paper);
    let flaps = flaps_layer_markup(&content.shapes, &tab);
    let folds = fold_layer_markup(&content.shapes, options.fold_style != FoldStyle::NoFolds, &fold);
    let cuts = cut_layer_markup(&content.shapes, &cut);
    let texts = text_layer_markup(&content.texts);
    let mut s = faces;
    s.append(flaps.as_str());
    s.append(folds.as_str());
    s.append(cuts.as_str());
    s.append(texts.as_str());
    s
}

/// The PNG file of texture `i`, which has pixels; none where the encoder
/// refuses the texture.
pub open spec fn texture_png(model: &Model, i: int) -> Option<Seq<u8>> {
    png_encoding(
        model.textures@[i].width,
        model.textures@[i].height,
        model.textures@[i].pixels.unwrap()@,
    )
}

/// Whether texture `i` can be drawn: it has no pixels, or it has a PNG
/// file of at most `BASE64_MAX` bytes.
pub open spec fn texture_encodable(model: &Model, i: int) -> bool {
    model.textures@[i].pixels is Some ==> texture_png(model, i) is Some && texture_png(
        model,
        i,
    ).unwrap().len() <= BASE64_MAX
}

/// Whether every texture can be drawn.
pub open spec fn textures_encodable(model: &Model) -> bool {
    forall|i: int| 0 <= i < model.textures@.len() ==> #[trigger] texture_encodable(model, i)
}

/// Whether `image` is the image of texture `i`: the base64 text of its
/// PNG file if the texture has pixels, and nothing if it has none.
pub open spec fn is_texture_image(model: &Model, i: int, image: Option<String>) -> bool {
    match image {
        Some(text) => model.textures@[i].pixels is Some && texture_png(model, i) is Some && text@
            == base64_text(texture_png(model, i).unwrap()),
        None => model.textures@[i].pixels is None,
    }
}

/// Whether `images` holds, for each texture with pixels, the base64 text
/// of its PNG file, and nothing for a texture without.
pub open spec fn is_texture_images(model: &Model, images: Seq<Option<String>>) -> bool {
    &&& images.len() == model.textures@.len()
    &&& forall|i: int| 0 <= i < images.len() ==> is_texture_image(model, i, #[trigger] images[i])
}

/// The image of texture `i`: its size and its content as a data URL.
pub open spec fn svg_image(i: int, width: u32, height: u32, data: Seq<char>) -> Seq<char> {
    "<image id=\"tex_"@ + digits(i as nat) + "\" width=\""@ + digits(width as nat) + "\" height=\""@
        + digits(height as nat) + "\" preserveAspectRatio=\"none\" href=\"data:image/png;base64,"@
        + data + "\" />\n"@
}

/// The images of the first `upto` textures; a texture without an image
/// has none.
pub open spec fn svg_images(model: &Model, images: Seq<Option<String>>, upto: int) -> Seq<char>
    decreases upto,
{
    if upto <= 0 {
        Seq::empty()
    } else {
        svg_images(model, images, upto - 1) + match images[upto - 1] {
            Some(text) => svg_image(
                upto - 1,
                model.textures@[upto - 1].width,
                model.textures@[upto - 1].height,
                text@,
            ),
            None => Seq::empty(),
        }
    }
}

/// The definitions of a document: the images of the textures.
pub open spec fn svg_defs(model: &Model, images: Seq<Option<String>>) -> Seq<char> {
    "<defs>\n"@ + svg_images(model, images, images.len() as int) + "</defs>\n"@
}

/// Encodes the texture at position `i` of the list of textures: the
/// base64 text of its PNG file, if it has pixels.
///
/// Fails if the texture cannot be drawn.
fn encode_texture(model: &Model, i: usize) -> (r: Result<Option<String>, ExportError>)
    requires
        model.wf(),
        i < model.textures@.len(),
    ensures
        r is Ok <==> texture_encodable(model, i as int),
        match r {
            Ok(image) => is_texture_image(model, i as int, image),
            Err(e) => e == ExportError::Texture,
        },
{
    let texture = &model.textures[i];
    proof {
        assert(model.textures@[i as int].wf());
    }
    match &texture.pixels {
        Some(pixels) => {
            let png = match png_encode(texture.width, texture.height, pixels) {
                Ok(png) => png,
                Err(_) => {
                    return Err(ExportError::Texture);
                },
            };
            if png.len() > BASE64_MAX {
                return Err(ExportError::Texture);
            }
            Ok(Some(base64_encode(&png)))
        },
        None => Ok(None),
    }
}

/// Encodes each texture that has pixels as the base64 text of a PNG file.
///
/// Fails with `Texture` if a texture cannot be drawn: the encoder of PNG
/// files refuses it, or gives more bytes than `BASE64_MAX`.
pub fn encode_textures(model: &Model) -> (r: Result<Vec<Option<String>>, ExportError>)
    requires
        model.wf(),
    ensures
        r is Ok <==> textures_encodable(model),
        match r {
            Ok(images) => is_texture_images(model, images@),
            Err(e) => e == ExportError::Texture,
        },
{
    let mut images: Vec<Option<String>> = Vec::new();
    let mut i: usize = 0;
    while i < model.textures.len()
        invariant
            model.wf(),
            i <= model.textures@.len(),
            images@.len() == i,
            forall|j: int| 0 <= j < i ==> is_texture_image(model, j, #[trigger] images@[j]),
            forall|j: int| 0 <= j < i ==> #[trigger] texture_encodable(model, j),
        decreases model.textures@.len() - i,
    {
        match encode_texture(model, i) {
            Ok(image) => {
                images.push(image);
            },
            Err(e) => {
                return Err(e);
            },
        }
        i += 1;
    }
    Ok(images)
}

/// Writes the definitions of a document, and lists the width and height
/// of each texture.
pub fn write_svg_defs(model: &Model, images: &Vec<Option<String>>) -> (r: (String, Vec<(u32, u32)>))
    requires
        images@.len() == model.textures@.len(),
    ensures
        r.0@ == svg_defs(model, images@),
        r.1@ == texture_dimensions_of(model, images@),
{
    let mut body = String::new();
    let mut dims: Vec<(u32, u32)> = Vec::new();
    let mut i: usize = 0;
    while i < images.len()
        invariant
            images@.len() == model.textures@.len(),
            i <= images@.len(),
            body@ == svg_images(model, images@, i as int),
            dims@.len() == i,
            forall|j: int| 0 <= j < i ==> dims@[j] == texture_dimensions_of(model, images@)[j],
        decreases images@.len() - i,
    {
        match &images[i] {
            Some(text) => {
                let width: u32 = model.textures[i].width;
                let height: u32 = model.textures[i].height;
                dims.push((width, height));
                let mut piece = String::from_str("<image id=\"tex_");
                push_digits(&mut piece, i as u128);
                piece.append("\" width=\"");
                push_digits(&mut piece, width as u128);
                piece.append("\" height=\"");
                push_digits(&mut piece, height as u128);
                piece.append("\" preserveAspectRatio=\"none\" href=\"data:image/png;base64,");
                piece.append(text.as_str());
                piece.append("\" />\n");
                body.append(piece.as_str());
            },
            None => {
                dims.push((0, 0));
                proof {
                    assert(body@ + Seq::<char>::empty() =~= body@);
                }
            },
        }
        i += 1;
    }
    let mut s = String::from_str("<defs>\n");
    s.append(body.as_str());
    s.append("</defs>\n");
    proof {
        assert(dims@ =~= texture_dimensions_of(model, images@));
    }
    (s, dims)
}

/// Width and height of each texture as the patterns have them: those of a
/// texture with an image, nought by nought for one without.
pub open spec fn texture_dimensions_of(model: &Model, images: Seq<Option<String>>) -> Seq<(u32, u32)> {
    Seq::new(
        images.len(),
        |i: int|
            if images[i] is Some {
                (model.textures@[i].width, model.textures@[i].height)
            } else {
                (0u32, 0u32)
            },
    )
}

/// The definitions of a document and the sizes of its patterns: those of
/// the textures if textures are drawn, else none.
pub open spec fn svg_defs_part(model: &Model, images: Seq<Option<String>>, with_textures: bool) -> (
    Seq<char>,
    Seq<(u32, u32)>,
) {
    if with_textures {
        (svg_defs(model, images), texture_dimensions_of(model, images))
    } else {
        (Seq::empty(), Seq::empty())
    }
}

/// The start of a document: the declaration and the opening tag, with
/// the size of the canvas. A document of several pages names one more
/// namespace, that of the page descriptions.
pub open spec fn svg_header(width: int, height: int, paged: bool) -> Seq<char> {
    "<?xml version=\"1.0\" encoding=\"UTF-8\" standalone=\"no\"?>\n<svg width=\""@ + decimal(width)
        + "mm\" height=\""@ + decimal(height) + "mm\" viewBox=\"0 0 "@ + decimal(width) + " "@
        + decimal(height) + (if paged {
        "\" version=\"1.1\" xmlns=\"http://www.w3.org/2000/svg\" xmlns:inkscape=\"http://www.inkscape.org/namespaces/inkscape\" xmlns:sodipodi=\"http://sodipodi.sourceforge.net/DTD/sodipodi-0.dtd\" xmlns:xlink=\"http://www.w3.org/1999/xlink\">\n"@
    } else {
        "\" version=\"1.1\" xmlns=\"http://www.w3.org/2000/svg\" xmlns:inkscape=\"http://www.inkscape.org/namespaces/inkscape\" xmlns:xlink=\"http://www.w3.org/1999/xlink\">\n"@
    })
}

fn header_markup(width: i64, height: i64, paged: bool) -> (s: String)
    ensures
        s@ == svg_header(width as int, height as int, paged),
{
    let mut s = String::from_str(
        "<?xml version=\"1.0\" encoding=\"UTF-8\" standalone=\"no\"?>\n<svg width=\"",
    );
    push_decimal(&mut s, width as i128);
    s.append("mm\" height=\"");
    push_decimal(&mut s, height as i128);
    s.append("mm\" viewBox=\"0 0 ");
    push_decimal(&mut s, width as i128);
    s.append(" ");
    push_decimal(&mut s, height as i128);
    if paged {
        s.append(
            "\" version=\"1.1\" xmlns=\"http://www.w3.org/2000/svg\" xmlns:inkscape=\"http://www.inkscape.org/namespaces/inkscape\" xmlns:sodipodi=\"http://sodipodi.sourceforge.net/DTD/sodipodi-0.dtd\" xmlns:xlink=\"http://www.w3.org/1999/xlink\">\n",
        );
    } else {
        s.append(
            "\" version=\"1.1\" xmlns=\"http://www.w3.org/2000/svg\" xmlns:inkscape=\"http://www.inkscape.org/namespaces/inkscape\" xmlns:xlink=\"http://www.w3.org/1999/xlink\">\n",
        );
    }
    s
}

/// The description of page `page`: its rectangle on the canvas and its
/// name.
pub open spec fn svg_page_description(options: PaperOptions, page: u32) -> Seq<char> {
    let origin = options.page_position_spec(page);
    "<inkscape:page x=\""@ + decimal(origin.x as int) + "\" y=\""@ + decimal(origin.y as int)
        + "\" width=\""@ + decimal(options.page_size.0 as int) + "\" height=\""@ + decimal(
        options.page_size.1 as int,
    ) + "\" id=\"Page_"@ + digits((page + 1) as nat) + "\" />\n"@
}

/// The descriptions of the first `upto` pages.
pub open spec fn svg_page_descriptions(options: PaperOptions, upto: int) -> Seq<char>
    decreases upto,
{
    if upto <= 0 {
        Seq::empty()
    } else {
        svg_page_descriptions(options, upto - 1) + svg_page_description(options, (upto - 1) as u32)
    }
}

/// The view of a document: a description of each page.
pub open spec fn svg_named_view(options: PaperOptions) -> Seq<char> {
    "<sodipodi:namedview>\n"@ + svg_page_descriptions(options, options.pages as int)
        + "</sodipodi:namedview>\n"@
}

fn named_view_markup(options: &PaperOptions) -> (s: String)
    requires
        options.wf(),
    ensures
        s@ == svg_named_view(*options),
{
    let mut body = String::new();
    let mut page: u32 = 0;
    while page < options.pages
        invariant
            options.wf(),
            page <= options.pages,
            body@ == svg_page_descriptions(*options, page as int),
        decreases options.pages - page,
    {
        let origin = options.page_position(page);
        let mut piece = String::from_str("<inkscape:page x=\"");
        push_decimal(&mut piece, origin.x as i128);
        piece.append("\" y=\"");
        push_decimal(&mut piece, origin.y as i128);
        piece.append("\" width=\"");
        push_decimal(&mut piece, options.page_size.0 as i128);
        piece.append("\" height=\"");
        push_decimal(&mut piece, options.page_size.1 as i128);
        piece.append("\" id=\"Page_");
        push_digits(&mut piece, page as u128 + 1);
        piece.append("\" />\n");
        body.append(piece.as_str());
        page += 1;
    }
    let mut s = String::from_str("<sodipodi:namedview>\n");
    s.append(body.as_str());
    s.append("</sodipodi:namedview>\n");
    s
}

/// The group of page `page`: its layers, moved to the page's place on the
/// canvas.
pub open spec fn svg_page_group(
    model: &Model,
    options: PaperOptions,
    content: PageContent,
    page: u32,
    with_textures: bool,
    dims: Seq<(u32, u32)>,
) -> Seq<char> {
    let origin = options.page_position_spec(page);
    "<g inkscape:label=\"Page_"@ + digits((page + 1) as nat)
        + "\" inkscape:groupmode=\"layer\" id=\"page_"@ + digits((page + 1) as nat)
        + "\" transform=\"translate("@ + decimal(origin.x as int) + ","@ + decimal(origin.y as int)
        + ")\">\n"@ + svg_layers(model, options, content, with_textures, dims) + "</g>\n"@
}

/// The groups of the first `upto` pages.
pub open spec fn svg_page_groups(
    model: &Model,
    options: PaperOptions,
    contents: Seq<PageContent>,
    upto: int,
    with_textures: bool,
    dims: Seq<(u32, u32)>,
) -> Seq<char>
    decreases upto,
{
    if upto <= 0 {
        Seq::empty()
    } else {
        svg_page_groups(model, options, contents, upto - 1, with_textures, dims) + svg_page_group(
            model,
            options,
            contents[upto - 1],
            (upto - 1) as u32,
            with_textures,
            dims,
        )
    }
}

/// The document of all pages: the header with the size of the canvas, the
/// images of the textures if textures are drawn, a description of each
/// page, and a group for each page.
pub open spec fn svg_document(
    model: &Model,
    options: PaperOptions,
    contents: Seq<PageContent>,
    images: Seq<Option<String>>,
    with_textures: bool,
) -> Seq<char> {
    let canvas = options.canvas_size_spec();
    let defs = svg_defs_part(model, images, with_textures);
    svg_header(canvas.x as int, canvas.y as int, true) + defs.0 + svg_named_view(options)
        + svg_page_groups(model, options, contents, contents.len() as int, with_textures, defs.1)
        + "</svg>\n"@
}

fn page_group_markup(
    model: &Model,
    options: &PaperOptions,
    content: &PageContent,
    page: u32,
    with_textures: bool,
    dims: &Vec<(u32, u32)>,
) -> (s: String)
    requires
        model.wf(),
        options.wf(),
        shapes_drawable(model, content.shapes@),
    ensures
        s@ == svg_page_group(model, *options, *content, page, with_textures, dims@),
{
    let origin = options.page_position(page);
    let layers = write_svg_layers(model, options, content, with_textures, dims);
    let mut piece = String::from_str("<g inkscape:label=\"Page_");
    push_digits(&mut piece, page as u128 + 1);
    piece.append("\" inkscape:groupmode=\"layer\" id=\"page_");
    push_digits(&mut piece, page as u128 + 1);
    piece.append("\" transform=\"translate(");
    push_decimal(&mut piece, origin.x as i128);
    piece.append(",");
    push_decimal(&mut piece, origin.y as i128);
    piece.append(")\">\n");
    piece.append(layers.as_str());
    piece.append("</g>\n");
    piece
}

/// Writes the document of all pages.
pub fn write_svg_multipage(
    model: &Model,
    options: &PaperOptions,
    contents: &Vec<PageContent>,
    images: &Vec<Option<String>>,
    with_textures: bool,
) -> (s: String)
    requires
        model.wf(),
        options.wf(),
        contents@.len() == options.pages,
        images@.len() == model.textures@.len(),
        forall|p: int|
            0 <= p < contents@.len() ==> shapes_drawable(model, (#[trigger] contents@[p]).shapes@),
    ensures
        s@ == svg_document(model, *options, contents@, images@, with_textures),
{
    let canvas = options.canvas_size();
    let mut s = header_markup(canvas.x, canvas.y, true);
    let dims: Vec<(u32, u32)> = if with_textures {
        let (defs, dims) = write_svg_defs(model, images);
        s.append(defs.as_str());
        dims
    } else {
        proof {
            assert(s@ + Seq::<char>::empty() =~= s@);
        }
        Vec::new()
    };
    let view = named_view_markup(options);
    s.append(view.as_str());
    let mut groups = String::new();
    let mut page: u32 = 0;
    while page < options.pages
        invariant
            model.wf(),
            options.wf(),
            contents@.len() == options.pages,
            forall|p: int|
                0 <= p < contents@.len() ==> shapes_drawable(
                    model,
                    (#[trigger] contents@[p]).shapes@,
                ),
            page <= options.pages,
            groups@ == svg_page_groups(
                model,
                *options,
                contents@,
                page as int,
                with_textures,
                dims@,
            ),
        decreases options.pages - page,
    {
        let piece = page_group_markup(
            model,
            options,
            &contents[page as usize],
            page,
            with_textures,
            &dims,
        );
        groups.append(piece.as_str());
        page += 1;
    }
    s.append(groups.as_str());
    s.append("</svg>\n");
    s
}

/// The document of one page: the header with the size of the page, the
/// images of the textures if textures are drawn, and the layers of the
/// page.
pub open spec fn svg_page_document(
    model: &Model,
    options: PaperOptions,
    content: PageContent,
    images: Seq<Option<String>>,
    with_textures: bool,
) -> Seq<char> {
    let defs = svg_defs_part(model, images, with_textures);
    svg_header(options.page_size.0 as int, options.page_size.1 as int, false) + defs.0 + svg_layers(
        model,
        options,
        content,
        with_textures,
        defs.1,
    ) + "</svg>\n"@
}

/// Writes the document of one page.
pub fn write_svg_page(
    model: &Model,
    options: &PaperOptions,
    content: &PageContent,
    images: &Vec<Option<String>>,
    with_textures: bool,
) -> (s: String)
    requires
        model.wf(),
        images@.len() == model.textures@.len(),
        shapes_drawable(model, content.shapes@),
    ensures
        s@ == svg_page_document(model, *options, *content, images@, with_textures),
{
    let mut s = header_markup(options.page_size.0, options.page_size.1, false);
    let dims: Vec<(u32, u32)> = if with_textures {
        let (defs, dims) = write_svg_defs(model, images);
        s.append(defs.as_str());
        dims
    } else {
        proof {
            assert(s@ + Seq::<char>::empty() =~= s@);
        }
        Vec::new()
    };
    let layers = write_svg_layers(model, options, content, with_textures, &dims);
    s.append(layers.as_str());
    s.append("</svg>\n");
    s
}

/// Whether `text` is the document of all pages of a papercraft as the
/// unfolding lays it out: the document of what is drawn on each page of
/// the export, with the images of the textures if textures are drawn.
pub open spec fn is_generated_svg(
    text: Seq<char>,
    craft: &Papercraft,
    unfolding: &Unfolding,
    with_textures: bool,
) -> bool {
    exists|contents: Seq<PageContent>, images: Seq<Option<String>>|
        {
            &&& is_export_contents(contents, craft, unfolding)
            &&& with_textures ==> is_texture_images(craft.mesh(), images)
            &&& #[trigger] svg_document(
                craft.mesh(),
                export_options_spec(craft, unfolding),
                contents,
                images,
                with_textures,
            ) == text
        }
}

/// Whether `text` is the document of page `page` of a papercraft as the
/// unfolding lays it out, on the pages of the export: the grid is as wide
/// as the islands ask, so that every island is on a page.
pub open spec fn is_generated_svg_page(
    text: Seq<char>,
    craft: &Papercraft,
    unfolding: &Unfolding,
    page: u32,
    with_textures: bool,
) -> bool {
    exists|content: PageContent, images: Seq<Option<String>>|
        {
            &&& is_page_content(
                content,
                craft,
                unfolding,
                export_options_spec(craft, unfolding),
                page,
            )
            &&& with_textures ==> is_texture_images(craft.mesh(), images)
            &&& #[trigger] svg_page_document(
                craft.mesh(),
                export_options_spec(craft, unfolding),
                content,
                images,
                with_textures,
            ) == text
        }
}

/// Generates the document of all pages of a papercraft as the unfolding
/// lays it out.
///
/// Fails with `Layout` if the unfolding does not fit the mesh, and with
/// `Texture` if textures are drawn and one cannot be encoded.
pub fn generate_svg_multipage(craft: &Papercraft, unfolding: &Unfolding, with_textures: bool) -> (r:
    Result<String, ExportError>)
    requires
        craft.wf(),
    ensures
        !unfolding.fits(craft.mesh()) <==> r == Err::<String, ExportError>(ExportError::Layout),
        r is Ok <==> unfolding.fits(craft.mesh()) && (with_textures ==> textures_encodable(
            craft.mesh(),
        )),
        r is Err ==> r == Err::<String, ExportError>(ExportError::Layout) || r == Err::<
            String,
            ExportError,
        >(ExportError::Texture),
        r matches Ok(s) ==> is_generated_svg(s@, craft, unfolding, with_textures),
{
    let model = craft.model();
    if !unfolding.is_valid_for(model) {
        return Err(ExportError::Layout);
    }
    let images: Vec<Option<String>> = if with_textures {
        match encode_textures(model) {
            Ok(images) => images,
            Err(e) => {
                return Err(e);
            },
        }
    } else {
        no_images(model)
    };
    let options = export_options(craft, unfolding);
    let contents = export_contents(craft, unfolding);
    let s = write_svg_multipage(model, &options, &contents, &images, with_textures);
    proof {
        assert(svg_document(model, options, contents@, images@, with_textures) == s@);
        assert(is_generated_svg(s@, craft, unfolding, with_textures));
    }
    Ok(s)
}

/// Generates the document of page `page` of a papercraft as the unfolding
/// lays it out.
///
/// Fails with `Layout` if the unfolding does not fit the mesh, and with
/// `Texture` if textures are drawn and one cannot be encoded.
pub fn generate_svg(craft: &Papercraft, unfolding: &Unfolding, page: u32, with_textures: bool) -> (r:
    Result<String, ExportError>)
    requires
        craft.wf(),
    ensures
        !unfolding.fits(craft.mesh()) <==> r == Err::<String, ExportError>(ExportError::Layout),
        r is Ok <==> unfolding.fits(craft.mesh()) && (with_textures ==> textures_encodable(
            craft.mesh(),
        )),
        r is Err ==> r == Err::<String, ExportError>(ExportError::Layout) || r == Err::<
            String,
            ExportError,
        >(ExportError::Texture),
        r matches Ok(s) ==> is_generated_svg_page(s@, craft, unfolding, page, with_textures),
{
    let model = craft.model();
    if !unfolding.is_valid_for(model) {
        return Err(ExportError::Layout);
    }
    let images: Vec<Option<String>> = if with_textures {
        match encode_textures(model) {
            Ok(images) => images,
            Err(e) => {
                return Err(e);
            },
        }
    } else {
        no_images(model)
    };
    let options = export_options(craft, unfolding);
    let content = page_content(craft, unfolding, &options, page);
    let s = write_svg_page(model, &options, &content, &images, with_textures);
    proof {
        assert(svg_page_document(model, options, content, images@, with_textures) == s@);
        assert(is_generated_svg_page(s@, craft, unfolding, page, with_textures));
    }
    Ok(s)
}

fn no_images(model: &Model) -> (images: Vec<Option<String>>)
    ensures
        images@.len() == model.textures@.len(),
{
    let mut images: Vec<Option<String>> = Vec::new();
    while images.len() < model.textures.len()
        invariant
            images@.len() <= model.textures@.len(),
        decreases model.textures@.len() - images@.len(),
    {
        images.push(None);
    }
    images
}

} // verus!
