//! The PDF emitter: the drawing operations of each page, in points, with
//! the origin at the lower left corner of the page.
//!
//! The library states what each page holds and what the document is made
//! of: its version, its font, its images and the patterns over them, each
//! with the names and numbers of its dictionary. The file itself is
//! written outside.

use crate::codec::{strip_alpha, without_alpha, zlib_compress, zlib_stream};
use crate::craft::Papercraft;
use crate::fixed::{digits, mm_to_pt, mm_to_pt_spec, mm_to_pt_wide, push_digits};
use crate::geometry::Point2;
use crate::layout::Unfolding;
use crate::model::Model;
use crate::options::{Color, FoldStyle, PaperOptions, PAGE_MAX};
use crate::pages::{export_options, export_options_spec};
use crate::shapes::{FaceShape, FlapShape, FoldLine, IslandShape};
use crate::svg::{
    export_contents, face_drawable, is_export_contents, is_page_content, shapes_drawable,
    triangle_points, triangle_uvs, ExportError, PageContent,
};
use crate::text::{signature, signature_text, texts_printable, PrintableText, TextAlign};
use crate::texture::{
    calc_pdf_texture_matrix_triangle, fan_triangulation, texture_matrix, triangulate_polygon,
    AffineMap, TextureMatrix,
};
use vstd::prelude::*;
use vstd::string::{StrSliceExecFns, StringExecFns};

verus! {

/// One drawing operation of a page. Numbers are in fixed point: lengths
/// in points, colours and factors as ratios.
#[derive(Clone, Copy, Debug, PartialEq, Eq, Structural)]
pub enum PageOp {
    /// `rg`: sets the colour for filling.
    FillColor { r: i128, g: i128, b: i128 },
    /// `RG`: sets the colour for stroking.
    StrokeColor { r: i128, g: i128, b: i128 },
    /// `w`: sets the width of lines.
    LineWidth { width: i128 },
    /// `d`: sets the dash pattern, two on and two off, or solid.
    Dash { dashed: bool },
    /// `m`: starts a path.
    MoveTo { x: i128, y: i128 },
    /// `l`: adds a line to the path.
    LineTo { x: i128, y: i128 },
    /// `f`: fills the path.
    Fill,
    /// `S`: strokes the path.
    Stroke,
    /// `s`: closes and strokes the path.
    CloseStroke,
    /// `q`: saves the graphics state.
    Save,
    /// `Q`: restores the graphics state.
    Restore,
    /// `cm`: applies a matrix to the coordinate system.
    Concat { a: i128, b: i128, c: i128, d: i128, e: i128, f: i128 },
    /// `cs`: selects the colour space of patterns.
    PatternSpace,
    /// `scn`: selects the pattern of a material's texture, by the name
    /// that `pattern_key` gives.
    Pattern { material: usize },
    /// `BT`: begins a block of text.
    BeginText,
    /// `ET`: ends a block of text.
    EndText,
    /// `Tf`: selects the font of the document at a size.
    Font { size: i128 },
    /// `Tm`: places the text, upright, at a point.
    TextMatrix { x: i128, y: i128 },
    /// `Tj`: shows the text with the given number of the page's texts.
    ShowText { index: usize },
}

/// The operations of one page, and the texts that they show.
#[derive(Debug)]
pub struct PdfPage {
    pub ops: Vec<PageOp>,
    pub texts: Vec<String>,
}

/// A point of the page in points, seen from the lower left corner of a
/// page of height `height`.
pub open spec fn pdf_point(p: Point2, height: int) -> (int, int) {
    (mm_to_pt_spec(p.x as int), mm_to_pt_spec(height - p.y))
}

/// The operation that starts a path at `p`.
pub open spec fn move_to(p: Point2, height: int) -> PageOp {
    PageOp::MoveTo { x: pdf_point(p, height).0 as i128, y: pdf_point(p, height).1 as i128 }
}

/// The operation that adds a line to `p`.
pub open spec fn line_to(p: Point2, height: int) -> PageOp {
    PageOp::LineTo { x: pdf_point(p, height).0 as i128, y: pdf_point(p, height).1 as i128 }
}

/// The path through the first `upto` of `points`.
pub open spec fn path_ops(points: Seq<Point2>, height: int, upto: int) -> Seq<PageOp>
    decreases upto,
{
    if upto <= 0 {
        Seq::empty()
    } else if upto == 1 {
        seq![move_to(points[0], height)]
    } else {
        path_ops(points, height, upto - 1).push(line_to(points[upto - 1], height))
    }
}

/// The operation that sets the colour for filling to `color`.
pub open spec fn fill_color(color: Color) -> PageOp {
    PageOp::FillColor { r: color.r as i128, g: color.g as i128, b: color.b as i128 }
}

/// The fill of a face: its outline in the colour of the paper.
pub open spec fn face_fill_ops(shape: FaceShape, options: PaperOptions) -> Seq<PageOp> {
    seq![fill_color(options.paper_color)] + path_ops(
        shape.vertices@,
        options.page_size.1 as int,
        shape.vertices@.len() as int,
    ) + seq![PageOp::Fill]
}

/// The matrix that takes texture coordinates to points of the page, seen
/// from the lower left corner of a page of height `height`.
pub open spec fn pattern_matrix(m: AffineMap, height: int) -> PageOp {
    PageOp::Concat {
        a: mm_to_pt_spec(m.a) as i128,
        b: mm_to_pt_spec(-m.b) as i128,
        c: mm_to_pt_spec(m.c) as i128,
        d: mm_to_pt_spec(-m.d) as i128,
        e: mm_to_pt_spec(m.e) as i128,
        f: mm_to_pt_spec(height - m.f) as i128,
    }
}

/// One triangle of a textured face: the triangle of its texture
/// coordinates, filled with the pattern of the material under the matrix
/// that takes it to the page.
pub open spec fn triangle_ops(uvs: [Point2; 3], m: AffineMap, material: usize, height: int) -> Seq<
    PageOp,
> {
    seq![
        PageOp::Save,
        pattern_matrix(m, height),
        PageOp::PatternSpace,
        PageOp::Pattern { material },
        PageOp::MoveTo { x: uvs[0].x as i128, y: uvs[0].y as i128 },
        PageOp::LineTo { x: uvs[1].x as i128, y: uvs[1].y as i128 },
        PageOp::LineTo { x: uvs[2].x as i128, y: uvs[2].y as i128 },
        PageOp::Fill,
        PageOp::Restore,
    ]
}

/// The first `upto` triangles of a textured face; a triangle for which
/// the solver finds no matrix is left out.
pub open spec fn textured_face_ops(
    model: &Model,
    shape: FaceShape,
    material: usize,
    height: int,
    upto: int,
) -> Seq<PageOp>
    decreases upto,
{
    if upto <= 0 {
        Seq::empty()
    } else {
        let tri = upto - 1;
        let uvs = triangle_uvs(model, shape, tri);
        textured_face_ops(model, shape, material, height, upto - 1) + match texture_matrix(
            uvs,
            triangle_points(shape, tri),
        ) {
            Some(m) => triangle_ops(uvs, m, material, height),
            None => Seq::empty(),
        }
    }
}

/// A face: its fill and, if textures are drawn and the face has one, the
/// triangles of its fan.
pub open spec fn face_ops(model: &Model, shape: FaceShape, options: PaperOptions, with_textures: bool) -> Seq<
    PageOp,
> {
    face_fill_ops(shape, options) + if with_textures && shape.texture is Some {
        textured_face_ops(
            model,
            shape,
            shape.texture.unwrap(),
            options.page_size.1 as int,
            fan_triangulation(shape.vertices@.len()).len() as int,
        )
    } else {
        Seq::empty()
    }
}

/// The first `upto` of `faces`.
pub open spec fn faces_ops(
    model: &Model,
    faces: Seq<FaceShape>,
    options: PaperOptions,
    with_textures: bool,
    upto: int,
) -> Seq<PageOp>
    decreases upto,
{
    if upto <= 0 {
        Seq::empty()
    } else {
        faces_ops(model, faces, options, with_textures, upto - 1) + face_ops(
            model,
            faces[upto - 1],
            options,
            with_textures,
        )
    }
}

/// The faces of the first `upto` islands of a page.
pub open spec fn page_faces_ops(
    model: &Model,
    shapes: Seq<IslandShape>,
    options: PaperOptions,
    with_textures: bool,
    upto: int,
) -> Seq<PageOp>
    decreases upto,
{
    if upto <= 0 {
        Seq::empty()
    } else {
        page_faces_ops(model, shapes, options, with_textures, upto - 1) + faces_ops(
            model,
            shapes[upto - 1].faces@,
            options,
            with_textures,
            shapes[upto - 1].faces@.len() as int,
        )
    }
}

/// A fold line: dashed for a valley fold, solid for a mountain fold.
pub open spec fn fold_ops(line: FoldLine, height: int) -> Seq<PageOp> {
    seq![
        PageOp::Dash { dashed: line.valley },
        move_to(line.from, height),
        line_to(line.to, height),
        PageOp::Stroke,
    ]
}

/// The first `upto` of `folds`.
pub open spec fn folds_ops(folds: Seq<FoldLine>, height: int, upto: int) -> Seq<PageOp>
    decreases upto,
{
    if upto <= 0 {
        Seq::empty()
    } else {
        folds_ops(folds, height, upto - 1) + fold_ops(folds[upto - 1], height)
    }
}

/// The fold lines of an island: none where the options ask for no fold
/// lines.
pub open spec fn island_folds_ops(folds: Seq<FoldLine>, options: PaperOptions) -> Seq<PageOp> {
    if options.fold_style == FoldStyle::NoFolds {
        Seq::empty()
    } else {
        folds_ops(folds, options.page_size.1 as int, folds.len() as int)
    }
}

/// A flap: its four corners filled in grey, then three of its sides
/// stroked with a thin line.
pub open spec fn flap_ops(flap: FlapShape, height: int) -> Seq<PageOp> {
    seq![
        PageOp::FillColor { r: 880_000, g: 880_000, b: 880_000 },
        move_to(flap.corners[0], height),
        line_to(flap.corners[1], height),
        line_to(flap.corners[2], height),
        line_to(flap.corners[3], height),
        PageOp::Fill,
        PageOp::LineWidth { width: 200_000 },
        move_to(flap.corners[0], height),
        line_to(flap.corners[3], height),
        line_to(flap.corners[2], height),
        line_to(flap.corners[1], height),
        PageOp::Stroke,
    ]
}

/// The first `upto` of `flaps`.
pub open spec fn flaps_ops(flaps: Seq<FlapShape>, height: int, upto: int) -> Seq<PageOp>
    decreases upto,
{
    if upto <= 0 {
        Seq::empty()
    } else {
        flaps_ops(flaps, height, upto - 1) + flap_ops(flaps[upto - 1], height)
    }
}

/// The contour of an island: a closed, stroked path; none for an island
/// without contour.
pub open spec fn contour_ops(points: Seq<Point2>, height: int) -> Seq<PageOp> {
    if points.len() == 0 {
        Seq::empty()
    } else {
        path_ops(points, height, points.len() as int).push(PageOp::CloseStroke)
    }
}

/// The lines of an island: its fold lines, its flaps, the return to solid
/// lines, and its contour.
pub open spec fn island_lines_ops(shape: IslandShape, options: PaperOptions) -> Seq<PageOp> {
    island_folds_ops(shape.folds@, options) + flaps_ops(
        shape.flaps@,
        options.page_size.1 as int,
        shape.flaps@.len() as int,
    ) + seq![PageOp::Dash { dashed: false }] + contour_ops(
        shape.contour@,
        options.page_size.1 as int,
    )
}

/// The lines of the first `upto` islands of a page.
pub open spec fn page_lines_ops(shapes: Seq<IslandShape>, options: PaperOptions, upto: int) -> Seq<
    PageOp,
>
    decreases upto,
{
    if upto <= 0 {
        Seq::empty()
    } else {
        page_lines_ops(shapes, options, upto - 1) + island_lines_ops(shapes[upto - 1], options)
    }
}

/// The size of a font in points for a text of the given size in
/// millimetres: the size times 72 / 25.4, divided by 1.1.
pub open spec fn font_size_pt(size: int) -> int {
    crate::fixed::div_round(size * 3600, 1397)
}

/// Number of bytes of a text.
pub open spec fn byte_length(text: Seq<char>) -> int {
    (vstd::utf8::encode_utf8(text).len() as usize) as int
}

/// Where a text starts: at its position if it is aligned there, else to
/// the left of it by half, or by all, of its estimated width, which is half
/// the font size for each byte.
pub open spec fn text_start(text: PrintableText) -> int {
    let width = byte_length(text.text@) * font_size_pt(text.size as int);
    mm_to_pt_spec(text.pos.x as int) - match text.align {
        TextAlign::Near => 0,
        TextAlign::Center => crate::fixed::div_round(width, 4),
        TextAlign::Far => crate::fixed::div_round(width, 2),
    }
}

/// Text number `index` of a page: the font at its size, the place, and
/// the text.
pub open spec fn text_ops(text: PrintableText, index: int, height: int) -> Seq<PageOp> {
    seq![
        PageOp::Font { size: font_size_pt(text.size as int) as i128 },
        PageOp::TextMatrix {
            x: text_start(text) as i128,
            y: mm_to_pt_spec(height - text.pos.y) as i128,
        },
        PageOp::ShowText { index: index as usize },
    ]
}

/// The first `upto` of `texts`.
pub open spec fn texts_ops(texts: Seq<PrintableText>, height: int, upto: int) -> Seq<PageOp>
    decreases upto,
{
    if upto <= 0 {
        Seq::empty()
    } else {
        texts_ops(texts, height, upto - 1) + text_ops(texts[upto - 1], upto - 1, height)
    }
}

/// The block of texts of a page: none for a page without text.
pub open spec fn text_block_ops(texts: Seq<PrintableText>, height: int) -> Seq<PageOp> {
    if texts.len() == 0 {
        Seq::empty()
    } else {
        seq![PageOp::BeginText] + texts_ops(texts, height, texts.len() as int) + seq![
            PageOp::EndText,
        ]
    }
}

/// The operations of a page: the faces of its islands; black lines half a
/// point wide; for each island its fold lines, its flaps, the return to
/// solid lines and its contour; and its texts.
#[verifier::opaque]
pub open spec fn page_ops(
    model: &Model,
    options: PaperOptions,
    content: PageContent,
    with_textures: bool,
) -> Seq<PageOp> {
    page_faces_ops(model, content.shapes@, options, with_textures, content.shapes@.len() as int)
        + seq![PageOp::StrokeColor { r: 0, g: 0, b: 0 }, PageOp::LineWidth { width: 500_000 }]
        + page_lines_ops(content.shapes@, options, content.shapes@.len() as int) + text_block_ops(
        content.texts@,
        options.page_size.1 as int,
    )
}

/// The texts of a page, in order.
pub open spec fn page_text_table(texts: Seq<PrintableText>) -> Seq<Seq<char>> {
    Seq::new(texts.len(), |i: int| texts[i].text@)
}

/// The views of a list of texts.
pub open spec fn text_table_view(texts: Seq<String>) -> Seq<Seq<char>> {
    Seq::new(texts.len(), |i: int| texts[i]@)
}

fn point_move(p: Point2, height: i64) -> (op: PageOp)
    requires
        0 < height <= PAGE_MAX,
    ensures
        op == move_to(p, height as int),
{
    PageOp::MoveTo { x: mm_to_pt(p.x), y: mm_to_pt_wide(height as i128 - p.y as i128) }
}

fn point_line(p: Point2, height: i64) -> (op: PageOp)
    requires
        0 < height <= PAGE_MAX,
    ensures
        op == line_to(p, height as int),
{
    PageOp::LineTo { x: mm_to_pt(p.x), y: mm_to_pt_wide(height as i128 - p.y as i128) }
}

fn path(points: &Vec<Point2>, height: i64) -> (ops: Vec<PageOp>)
    requires
        0 < height <= PAGE_MAX,
    ensures
        ops@ == path_ops(points@, height as int, points@.len() as int),
{
    let mut ops: Vec<PageOp> = Vec::new();
    let mut i: usize = 0;
    while i < points.len()
        invariant
            0 < height <= PAGE_MAX,
            i <= points@.len(),
            ops@ == path_ops(points@, height as int, i as int),
        decreases points@.len() - i,
    {
        if i == 0 {
            ops.push(point_move(points[i], height));
            proof {
                assert(ops@ =~= seq![move_to(points@[0], height as int)]);
            }
        } else {
            ops.push(point_line(points[i], height));
        }
        i += 1;
    }
    ops
}

fn triangle(uvs: &[Point2; 3], m: &TextureMatrix, material: usize, height: i64) -> (ops: Vec<PageOp>)
    requires
        0 < height <= PAGE_MAX,
        m.bounded(),
    ensures
        ops@ == triangle_ops(*uvs, m@, material, height as int),
{
    let mut ops: Vec<PageOp> = Vec::new();
    ops.push(PageOp::Save);
    ops.push(
        PageOp::Concat {
            a: mm_to_pt_wide(m.a),
            b: mm_to_pt_wide(-m.b),
            c: mm_to_pt_wide(m.c),
            d: mm_to_pt_wide(-m.d),
            e: mm_to_pt_wide(m.e),
            f: mm_to_pt_wide(height as i128 - m.f),
        },
    );
    ops.push(PageOp::PatternSpace);
    ops.push(PageOp::Pattern { material });
    ops.push(PageOp::MoveTo { x: uvs[0].x as i128, y: uvs[0].y as i128 });
    ops.push(PageOp::LineTo { x: uvs[1].x as i128, y: uvs[1].y as i128 });
    ops.push(PageOp::LineTo { x: uvs[2].x as i128, y: uvs[2].y as i128 });
    ops.push(PageOp::Fill);
    ops.push(PageOp::Restore);
    proof {
        assert(ops@ =~= triangle_ops(*uvs, m@, material, height as int));
    }
    ops
}

fn textured_face(model: &Model, shape: &FaceShape, material: usize, height: i64) -> (ops: Vec<PageOp>)
    requires
        model.wf(),
        face_drawable(model, *shape),
        0 < height <= PAGE_MAX,
    ensures
        ops@ == textured_face_ops(
            model,
            *shape,
            material,
            height as int,
            fan_triangulation(shape.vertices@.len()).len() as int,
        ),
{
    let triangles = triangulate_polygon(shape.vertices.len());
    let mut ops: Vec<PageOp> = Vec::new();
    let mut t: usize = 0;
    while t < triangles.len()
        invariant
            model.wf(),
            face_drawable(model, *shape),
            0 < height <= PAGE_MAX,
            triangles@ == fan_triangulation(shape.vertices@.len()),
            forall|k: int|
                0 <= k < triangles@.len() ==> {
                    let tr = #[trigger] triangles@[k];
                    tr[0] == 0 && tr[1] == k + 1 && tr[2] == k + 2 && k + 2 < shape.vertices@.len()
                },
            t <= triangles@.len(),
            ops@ == textured_face_ops(model, *shape, material, height as int, t as int),
        decreases triangles@.len() - t,
    {
        let tri = triangles[t];
        proof {
            assert(tri == triangles@[t as int]);
            assert(tri[0] == 0 && tri[1] == t + 1 && tri[2] == t + 2);
            assert(model.face_wf(shape.face as int));
            assert(model.slot_wf(shape.face as int, 0));
            assert(model.slot_wf(shape.face as int, t + 1));
            assert(model.slot_wf(shape.face as int, t + 2));
        }
        let pts = [shape.vertices[tri[0]], shape.vertices[tri[1]], shape.vertices[tri[2]]];
        let face = &model.faces[shape.face];
        let uvs = [
            model.vertices[face.vertices[tri[0]]].uv,
            model.vertices[face.vertices[tri[1]]].uv,
            model.vertices[face.vertices[tri[2]]].uv,
        ];
        proof {
            assert(pts == triangle_points(*shape, t as int));
            assert(uvs == triangle_uvs(model, *shape, t as int));
        }
        match calc_pdf_texture_matrix_triangle(uvs, pts) {
            Some(m) => {
                let mut piece = triangle(&uvs, &m, material, height);
                ops.append(&mut piece);
            },
            None => {
                proof {
                    assert(ops@ + Seq::<PageOp>::empty() =~= ops@);
                }
            },
        }
        t += 1;
    }
    ops
}

fn color_fill(color: &Color) -> (op: PageOp)
    ensures
        op == fill_color(*color),
{
    PageOp::FillColor { r: color.r as i128, g: color.g as i128, b: color.b as i128 }
}

fn face(model: &Model, shape: &FaceShape, options: &PaperOptions, with_textures: bool) -> (ops: Vec<
    PageOp,
>)
    requires
        model.wf(),
        options.wf(),
        face_drawable(model, *shape),
    ensures
        ops@ == face_ops(model, *shape, *options, with_textures),
{
    let height: i64 = options.page_size.1;
    let mut ops: Vec<PageOp> = Vec::new();
    ops.push(color_fill(&options.paper_color));
    proof {
        assert(ops@ =~= seq![fill_color(options.paper_color)]);
    }
    let mut outline = path(&shape.vertices, height);
    ops.append(&mut outline);
    ops.push(PageOp::Fill);
    proof {
        assert(ops@ =~= face_fill_ops(*shape, *options));
    }
    match shape.texture {
        Some(material) => {
            if with_textures {
                let mut triangles = textured_face(model, shape, material, height);
                ops.append(&mut triangles);
                return ops;
            }
        },
        None => {},
    }
    proof {
        assert(ops@ + Seq::<PageOp>::empty() =~= ops@);
    }
    ops
}

fn faces(model: &Model, shapes: &Vec<FaceShape>, options: &PaperOptions, with_textures: bool) -> (ops:
    Vec<PageOp>)
    requires
        model.wf(),
        options.wf(),
        forall|j: int| 0 <= j < shapes@.len() ==> face_drawable(model, #[trigger] shapes@[j]),
    ensures
        ops@ == faces_ops(model, shapes@, *options, with_textures, shapes@.len() as int),
{
    let mut ops: Vec<PageOp> = Vec::new();
    let mut j: usize = 0;
    while j < shapes.len()
        invariant
            model.wf(),
            options.wf(),
            forall|j: int| 0 <= j < shapes@.len() ==> face_drawable(model, #[trigger] shapes@[j]),
            j <= shapes@.len(),
            ops@ == faces_ops(model, shapes@, *options, with_textures, j as int),
        decreases shapes@.len() - j,
    {
        let mut piece = face(model, &shapes[j], options, with_textures);
        ops.append(&mut piece);
        j += 1;
    }
    ops
}

fn fold(line: &FoldLine, height: i64) -> (ops: Vec<PageOp>)
    requires
        0 < height <= PAGE_MAX,
    ensures
        ops@ == fold_ops(*line, height as int),
{
    let mut ops: Vec<PageOp> = Vec::new();
    ops.push(PageOp::Dash { dashed: line.valley });
    ops.push(point_move(line.from, height));
    ops.push(point_line(line.to, height));
    ops.push(PageOp::Stroke);
    proof {
        assert(ops@ =~= fold_ops(*line, height as int));
    }
    ops
}

fn island_folds(folds: &Vec<FoldLine>, options: &PaperOptions) -> (ops: Vec<PageOp>)
    requires
        options.wf(),
    ensures
        ops@ == island_folds_ops(folds@, *options),
{
    let mut ops: Vec<PageOp> = Vec::new();
    if options.fold_style == FoldStyle::NoFolds {
        return ops;
    }
    let height: i64 = options.page_size.1;
    let mut j: usize = 0;
    while j < folds.len()
        invariant
            0 < height <= PAGE_MAX,
            j <= folds@.len(),
            ops@ == folds_ops(folds@, height as int, j as int),
        decreases folds@.len() - j,
    {
        let mut piece = fold(&folds[j], height);
        ops.append(&mut piece);
        j += 1;
    }
    ops
}

fn flap(shape: &FlapShape, height: i64) -> (ops: Vec<PageOp>)
    requires
        0 < height <= PAGE_MAX,
    ensures
        ops@ == flap_ops(*shape, height as int),
{
    let c = &shape.corners;
    let mut ops: Vec<PageOp> = Vec::new();
    ops.push(PageOp::FillColor { r: 880_000, g: 880_000, b: 880_000 });
    ops.push(point_move(c[0], height));
    ops.push(point_line(c[1], height));
    ops.push(point_line(c[2], height));
    ops.push(point_line(c[3], height));
    ops.push(PageOp::Fill);
    ops.push(PageOp::LineWidth { width: 200_000 });
    ops.push(point_move(c[0], height));
    ops.push(point_line(c[3], height));
    ops.push(point_line(c[2], height));
    ops.push(point_line(c[1], height));
    ops.push(PageOp::Stroke);
    proof {
        assert(ops@ =~= flap_ops(*shape, height as int));
    }
    ops
}

fn island_lines(shape: &IslandShape, options: &PaperOptions) -> (ops: Vec<PageOp>)
    requires
        options.wf(),
    ensures
        ops@ == island_lines_ops(*shape, *options),
{
    let height: i64 = options.page_size.1;
    let mut ops = island_folds(&shape.folds, options);
    let mut flaps: Vec<PageOp> = Vec::new();
    let mut j: usize = 0;
    while j < shape.flaps.len()
        invariant
            0 < height <= PAGE_MAX,
            j <= shape.flaps@.len(),
            flaps@ == flaps_ops(shape.flaps@, height as int, j as int),
        decreases shape.flaps@.len() - j,
    {
        let mut piece = flap(&shape.flaps[j], height);
        flaps.append(&mut piece);
        j += 1;
    }
    ops.append(&mut flaps);
    let ghost drawn = ops@;
    ops.push(PageOp::Dash { dashed: false });
    proof {
        assert(ops@ =~= drawn + seq![PageOp::Dash { dashed: false }]);
    }
    if shape.contour.len() > 0 {
        let mut contour = path(&shape.contour, height);
        contour.push(PageOp::CloseStroke);
        ops.append(&mut contour);
    } else {
        proof {
            assert(ops@ + Seq::<PageOp>::empty() =~= ops@);
        }
    }
    ops
}

fn text(item: &PrintableText, index: usize, height: i64) -> (ops: Vec<PageOp>)
    requires
        0 < height <= PAGE_MAX,
        crate::text::is_printable(*item),
    ensures
        ops@ == text_ops(*item, index as int, height as int),
{
    let size: i128 = crate::fixed::round_div((item.size as i128) * 3600, 1397);
    let length: i128 = item.text.as_str().len() as i128;
    proof {
        assert(size == (7200 * item.size + 1397) / 2794);
        assert(length == byte_length(item.text@));
        assert(0 <= length * size <= 0x1_0000_0000_0000_0000 * 6_000_000_000) by (nonlinear_arith)
            requires
                0 <= length <= 0x1_0000_0000_0000_0000,
                0 <= size <= 6_000_000_000,
        ;
    }
    let width: i128 = length * size;
    let shift: i128 = match item.align {
        TextAlign::Near => 0,
        TextAlign::Center => crate::fixed::round_div(width, 4),
        TextAlign::Far => crate::fixed::round_div(width, 2),
    };
    let mut ops: Vec<PageOp> = Vec::new();
    ops.push(PageOp::Font { size });
    ops.push(
        PageOp::TextMatrix {
            x: mm_to_pt(item.pos.x) - shift,
            y: mm_to_pt_wide(height as i128 - item.pos.y as i128),
        },
    );
    ops.push(PageOp::ShowText { index });
    proof {
        assert(ops@ =~= text_ops(*item, index as int, height as int));
    }
    ops
}

fn text_block(texts: &Vec<PrintableText>, height: i64) -> (r: (Vec<PageOp>, Vec<String>))
    requires
        0 < height <= PAGE_MAX,
        texts_printable(texts@),
    ensures
        r.0@ == text_block_ops(texts@, height as int),
        text_table_view(r.1@) == page_text_table(texts@),
{
    let mut table: Vec<String> = Vec::new();
    if texts.len() == 0 {
        proof {
            assert(text_table_view(table@) =~= page_text_table(texts@));
        }
        return (Vec::new(), table);
    }
    let mut body: Vec<PageOp> = Vec::new();
    let mut i: usize = 0;
    while i < texts.len()
        invariant
            0 < height <= PAGE_MAX,
            texts_printable(texts@),
            i <= texts@.len(),
            body@ == texts_ops(texts@, height as int, i as int),
            table@.len() == i,
            forall|j: int| 0 <= j < i ==> (#[trigger] table@[j])@ == texts@[j].text@,
        decreases texts@.len() - i,
    {
        let mut piece = text(&texts[i], i, height);
        body.append(&mut piece);
        table.push(texts[i].text.clone());
        i += 1;
    }
    let mut ops: Vec<PageOp> = Vec::new();
    ops.push(PageOp::BeginText);
    proof {
        assert(ops@ =~= seq![PageOp::BeginText]);
    }
    ops.append(&mut body);
    ops.push(PageOp::EndText);
    proof {
        assert(ops@ =~= text_block_ops(texts@, height as int));
        assert(text_table_view(table@) =~= page_text_table(texts@));
    }
    (ops, table)
}

/// Generates the operations of a page.
pub fn generate_pdf_page_ops(
    model: &Model,
    options: &PaperOptions,
    content: &PageContent,
    with_textures: bool,
) -> (page: PdfPage)
    requires
        model.wf(),
        options.wf(),
        shapes_drawable(model, content.shapes@),
        texts_printable(content.texts@),
    ensures
        page.ops@ == page_ops(model, *options, *content, with_textures),
        text_table_view(page.texts@) == page_text_table(content.texts@),
{
    reveal(page_ops);
    let shapes = &content.shapes;
    let mut ops: Vec<PageOp> = Vec::new();
    let mut k: usize = 0;
    while k < shapes.len()
        invariant
            model.wf(),
            options.wf(),
            shapes_drawable(model, shapes@),
            k <= shapes@.len(),
            ops@ == page_faces_ops(model, shapes@, *options, with_textures, k as int),
        decreases shapes@.len() - k,
    {
        proof {
            assert forall|j: int| 0 <= j < shapes@[k as int].faces@.len() implies face_drawable(
                model,
                #[trigger] shapes@[k as int].faces@[j],
            ) by {}
        }
        let mut piece = faces(model, &shapes[k].faces, options, with_textures);
        ops.append(&mut piece);
        k += 1;
    }
    ops.push(PageOp::StrokeColor { r: 0, g: 0, b: 0 });
    ops.push(PageOp::LineWidth { width: 500_000 });
    let ghost head = ops@;
    proof {
        assert(head =~= page_faces_ops(
            model,
            shapes@,
            *options,
            with_textures,
            shapes@.len() as int,
        ) + seq![PageOp::StrokeColor { r: 0, g: 0, b: 0 }, PageOp::LineWidth { width: 500_000 }]);
    }
    let mut lines: Vec<PageOp> = Vec::new();
    let mut k: usize = 0;
    while k < shapes.len()
        invariant
            options.wf(),
            k <= shapes@.len(),
            lines@ == page_lines_ops(shapes@, *options, k as int),
        decreases shapes@.len() - k,
    {
        let mut piece = island_lines(&shapes[k], options);
        lines.append(&mut piece);
        k += 1;
    }
    ops.append(&mut lines);
    let (mut block, texts) = text_block(&content.texts, options.page_size.1);
    ops.append(&mut block);
    PdfPage { ops, texts }
}

/// The image of a texture as a document holds it: the kind of object it
/// is, its size, the colour space and depth of its pixels, the name of
/// the filter that reads its data, and its pixels, three bytes each, as a
/// zlib stream.
#[derive(Debug)]
pub struct PdfImage {
    pub subtype: String,
    pub width: u32,
    pub height: u32,
    pub color_space: String,
    pub bits_per_component: u8,
    pub filter: String,
    pub data: Vec<u8>,
}

/// The font of the texts of a document.
#[derive(Debug)]
pub struct PdfFont {
    /// The name by which the pages call the font.
    pub key: String,
    pub subtype: String,
    pub base_font: String,
    pub encoding: String,
}

/// A pattern that tiles the plane with the image of a texture, one image
/// to the unit square.
#[derive(Debug)]
pub struct PdfPattern {
    /// The name by which the pages call the pattern.
    pub key: String,
    /// The name by which the pattern calls its image.
    pub image_key: String,
    pub pattern_type: u8,
    pub paint_type: u8,
    pub tiling_type: u8,
    pub bbox: (i64, i64, i64, i64),
    pub x_step: i64,
    pub y_step: i64,
    /// What the pattern draws: its image, once.
    pub content: String,
}

/// The name by which the pages call the font of the texts.
pub open spec fn font_key_text() -> Seq<char> {
    "F1"@
}

/// Whether `font` is the font of the texts: Helvetica, a font of the
/// first type, in the encoding of Windows.
pub open spec fn is_text_font(font: PdfFont) -> bool {
    &&& font.key@ == font_key_text()
    &&& font.subtype@ == "Type1"@
    &&& font.base_font@ == "Helvetica"@
    &&& font.encoding@ == "WinAnsiEncoding"@
}

/// The name by which the pages call the pattern of material `material`:
/// `Pat` and the number of the material.
pub open spec fn pattern_key_text(material: int) -> Seq<char> {
    "Pat"@ + digits(material as nat)
}

/// The name by which the pages call the pattern of material `material`.
pub fn pattern_key(material: usize) -> (s: String)
    ensures
        s@ == pattern_key_text(material as int),
{
    let mut s = String::from_str("Pat");
    push_digits(&mut s, material as u128);
    s
}

/// Whether `pattern` is the pattern of material `material`: a coloured
/// tiling pattern with constant spacing, whose cell is the unit square
/// and holds its image, called `Im`, once.
pub open spec fn is_tiling_pattern(pattern: PdfPattern, material: int) -> bool {
    &&& pattern.key@ == pattern_key_text(material)
    &&& pattern.image_key@ == "Im"@
    &&& pattern.pattern_type == 1
    &&& pattern.paint_type == 1
    &&& pattern.tiling_type == 1
    &&& pattern.bbox == (0i64, 0i64, 1i64, 1i64)
    &&& pattern.x_step == 1
    &&& pattern.y_step == 1
    &&& pattern.content@ == "q /Im Do Q"@
}

/// Whether `patterns` holds a pattern for each image of `images`, and for
/// no other material.
pub open spec fn is_pdf_patterns(patterns: Seq<Option<PdfPattern>>, images: Seq<Option<PdfImage>>) -> bool {
    &&& patterns.len() == images.len()
    &&& forall|i: int|
        0 <= i < patterns.len() ==> match #[trigger] patterns[i] {
            Some(pattern) => images[i] is Some && is_tiling_pattern(pattern, i),
            None => images[i] is None,
        }
}

fn tiling_pattern(material: usize) -> (pattern: PdfPattern)
    ensures
        is_tiling_pattern(pattern, material as int),
{
    PdfPattern {
        key: pattern_key(material),
        image_key: String::from_str("Im"),
        pattern_type: 1,
        paint_type: 1,
        tiling_type: 1,
        bbox: (0, 0, 1, 1),
        x_step: 1,
        y_step: 1,
        content: String::from_str("q /Im Do Q"),
    }
}

/// The patterns of the images of a document.
fn tiling_patterns(images: &Vec<Option<PdfImage>>) -> (patterns: Vec<Option<PdfPattern>>)
    ensures
        is_pdf_patterns(patterns@, images@),
{
    let mut patterns: Vec<Option<PdfPattern>> = Vec::new();
    let mut i: usize = 0;
    while i < images.len()
        invariant
            i <= images@.len(),
            patterns@.len() == i,
            forall|j: int|
                0 <= j < i ==> match #[trigger] patterns@[j] {
                    Some(pattern) => images@[j] is Some && is_tiling_pattern(pattern, j),
                    None => images@[j] is None,
                },
        decreases images@.len() - i,
    {
        if images[i].is_some() {
            patterns.push(Some(tiling_pattern(i)));
        } else {
            patterns.push(None);
        }
        i += 1;
    }
    patterns
}

/// A date and time of day, in universal time.
#[derive(Clone, Copy, Debug, PartialEq, Eq, Structural)]
pub struct PdfDate {
    pub year: u16,
    pub month: u8,
    pub day: u8,
    pub hour: u8,
    pub minute: u8,
    pub second: u8,
}

/// What a document is made of.
#[derive(Debug)]
pub struct PdfDocument {
    /// The version of the format in which the document is written.
    pub version: String,
    /// Width and height of every page, in points.
    pub media_box: (i128, i128),
    /// The font that every page has among its resources.
    pub font: PdfFont,
    /// For each texture, its image, if it has one.
    pub images: Vec<Option<PdfImage>>,
    /// For each texture, the pattern that tiles its image, if it has one.
    pub patterns: Vec<Option<PdfPattern>>,
    /// Whether the pages have the patterns among their resources: they
    /// have where the document was made with textures, of a mesh that has
    /// any.
    pub names_patterns: bool,
    pub pages: Vec<PdfPage>,
    pub title: String,
    pub creator: String,
    pub creation_date: String,
    pub mod_date: String,
}

/// The digits of `n`, with zeros before them where they are fewer than
/// `width`.
pub open spec fn padded(n: nat, width: nat) -> Seq<char> {
    let shown = digits(n);
    Seq::new(
        if shown.len() < width {
            (width - shown.len()) as nat
        } else {
            0nat
        },
        |i: int| '0',
    ) + shown
}

/// A date in the notation of documents: `D:`, the year in four digits,
/// month, day, hour, minute and second in two digits each, and `Z`.
pub open spec fn pdf_date_text(date: PdfDate) -> Seq<char> {
    "D:"@ + padded(date.year as nat, 4) + padded(date.month as nat, 2) + padded(date.day as nat, 2)
        + padded(date.hour as nat, 2) + padded(date.minute as nat, 2) + padded(
        date.second as nat,
        2,
    ) + "Z"@
}

fn push_padded(out: &mut String, n: u16, width: usize)
    ensures
        final(out)@ == old(out)@ + padded(n as nat, width as nat),
{
    let mut shown = String::new();
    push_digits(&mut shown, n as u128);
    proof {
        assert(shown@ =~= digits(n as nat));
    }
    let length: usize = shown.as_str().unicode_len();
    let mut zeros = String::new();
    if length < width {
        let mut i: usize = length;
        while i < width
            invariant
                length <= i <= width,
                zeros@ == Seq::new((i - length) as nat, |k: int| '0'),
            decreases width - i,
        {
            let ghost before = zeros@;
            zeros.push('0');
            proof {
                assert(before.push('0') =~= Seq::new((i + 1 - length) as nat, |k: int| '0'));
            }
            i += 1;
        }
    } else {
        proof {
            assert(zeros@ =~= Seq::new(0nat, |k: int| '0'));
        }
    }
    zeros.append(shown.as_str());
    out.append(zeros.as_str());
}

/// Writes a date in the notation of documents.
pub fn pdf_date(date: &PdfDate) -> (s: String)
    ensures
        s@ == pdf_date_text(*date),
{
    let mut s = String::from_str("D:");
    push_padded(&mut s, date.year, 4);
    push_padded(&mut s, date.month as u16, 2);
    push_padded(&mut s, date.day as u16, 2);
    push_padded(&mut s, date.hour as u16, 2);
    push_padded(&mut s, date.minute as u16, 2);
    push_padded(&mut s, date.second as u16, 2);
    s.append("Z");
    s
}

/// The zlib stream of the pixels of texture `i`, which has pixels, without
/// their alpha channel; none where the compression fails.
pub open spec fn texture_stream(model: &Model, i: int) -> Option<Seq<u8>> {
    zlib_stream(without_alpha(model.textures@[i].pixels.unwrap()@))
}

/// Whether texture `i` can be held in a document: it has no pixels, or
/// its pixels have a zlib stream.
pub open spec fn texture_compressible(model: &Model, i: int) -> bool {
    model.textures@[i].pixels is Some ==> texture_stream(model, i) is Some
}

/// Whether every texture can be held in a document.
pub open spec fn textures_compressible(model: &Model) -> bool {
    forall|i: int| 0 <= i < model.textures@.len() ==> #[trigger] texture_compressible(model, i)
}

/// Whether `image` is the image of texture `i`: its size and the zlib
/// stream of its pixels if the texture has pixels, and nothing if it has
/// none.
pub open spec fn is_pdf_image(model: &Model, i: int, image: Option<PdfImage>) -> bool {
    match image {
        Some(image) => {
            &&& model.textures@[i].pixels is Some
            &&& image.width == model.textures@[i].width
            &&& image.height == model.textures@[i].height
            &&& image.subtype@ == "Image"@
            &&& image.color_space@ == "DeviceRGB"@
            &&& image.bits_per_component == 8
            &&& image.filter@ == "FlateDecode"@
            &&& texture_stream(model, i) == Some(image.data@)
        },
        None => model.textures@[i].pixels is None,
    }
}

/// Whether `images` holds, for each texture with pixels, its image, and
/// nothing for a texture without.
pub open spec fn is_pdf_images(model: &Model, images: Seq<Option<PdfImage>>) -> bool {
    &&& images.len() == model.textures@.len()
    &&& forall|i: int| 0 <= i < images.len() ==> is_pdf_image(model, i, #[trigger] images[i])
}

/// Prepares the image of the texture at position `i` of the list of
/// textures, if it has pixels.
fn embed_pdf_texture(model: &Model, i: usize) -> (r: Result<Option<PdfImage>, ExportError>)
    requires
        i < model.textures@.len(),
    ensures
        r is Ok <==> texture_compressible(model, i as int),
        match r {
            Ok(image) => is_pdf_image(model, i as int, image),
            Err(e) => e == ExportError::Texture,
        },
{
    let texture = &model.textures[i];
    match &texture.pixels {
        Some(pixels) => {
            let rgb = strip_alpha(pixels);
            match zlib_compress(&rgb) {
                Ok(data) => Ok(
                    Some(
                        PdfImage {
                            subtype: String::from_str("Image"),
                            width: texture.width,
                            height: texture.height,
                            color_space: String::from_str("DeviceRGB"),
                            bits_per_component: 8,
                            filter: String::from_str("FlateDecode"),
                            data,
                        },
                    ),
                ),
                Err(_) => Err(ExportError::Texture),
            }
        },
        None => Ok(None),
    }
}

/// Prepares the image of each texture that has pixels: its pixels without
/// the alpha channel, as a zlib stream.
///
/// Fails with `Texture` if the pixels of a texture have no zlib stream.
pub fn embed_pdf_textures(model: &Model) -> (r: Result<Vec<Option<PdfImage>>, ExportError>)
    ensures
        r is Ok <==> textures_compressible(model),
        match r {
            Ok(images) => is_pdf_images(model, images@),
            Err(e) => e == ExportError::Texture,
        },
{
    let mut images: Vec<Option<PdfImage>> = Vec::new();
    let mut i: usize = 0;
    while i < model.textures.len()
        invariant
            i <= model.textures@.len(),
            images@.len() == i,
            forall|j: int| 0 <= j < i ==> is_pdf_image(model, j, #[trigger] images@[j]),
            forall|j: int| 0 <= j < i ==> #[trigger] texture_compressible(model, j),
        decreases model.textures@.len() - i,
    {
        match embed_pdf_texture(model, i) {
            Ok(image) => {
                images.push(image);
            },
            Err(e) => {
                return Err(e);
            },
        }
        i += 1;
    }
    Ok(images)
}

/// The title of every document.
pub open spec fn title_text() -> Seq<char> {
    "Papercraft Export"@
}

/// Whether `document` is the document of the pages `contents`, made at
/// the time `date`: it is of version 1.4, its pages are as large as the
/// options say and hold the operations of the contents, in order; it has
/// the font of the texts, and a pattern for each of its images.
pub open spec fn is_pdf_document(
    document: PdfDocument,
    model: &Model,
    options: PaperOptions,
    contents: Seq<PageContent>,
    with_textures: bool,
    date: PdfDate,
) -> bool {
    &&& document.version@ == "1.4"@
    &&& document.media_box.0 == mm_to_pt_spec(options.page_size.0 as int)
    &&& document.media_box.1 == mm_to_pt_spec(options.page_size.1 as int)
    &&& is_text_font(document.font)
    &&& is_pdf_patterns(document.patterns@, document.images@)
    &&& document.names_patterns == (document.images@.len() > 0)
    &&& document.pages@.len() == contents.len()
    &&& forall|p: int|
        0 <= p < contents.len() ==> {
            &&& (#[trigger] document.pages@[p]).ops@ == page_ops(
                model,
                options,
                contents[p],
                with_textures,
            )
            &&& text_table_view(document.pages@[p].texts@) == page_text_table(contents[p].texts@)
        }
    &&& document.title@ == title_text()
    &&& document.creator@ == signature_text()
    &&& document.creation_date@ == pdf_date_text(date)
    &&& document.mod_date@ == pdf_date_text(date)
}

/// Puts a document together from the contents of its pages.
pub fn pdf_document(
    model: &Model,
    options: &PaperOptions,
    contents: &Vec<PageContent>,
    images: Vec<Option<PdfImage>>,
    with_textures: bool,
    date: &PdfDate,
) -> (document: PdfDocument)
    requires
        model.wf(),
        options.wf(),
        forall|p: int|
            0 <= p < contents@.len() ==> shapes_drawable(model, (#[trigger] contents@[p]).shapes@)
                && texts_printable(contents@[p].texts@),
    ensures
        is_pdf_document(document, model, *options, contents@, with_textures, *date),
        document.images@ == images@,
{
    let mut pages: Vec<PdfPage> = Vec::new();
    let mut p: usize = 0;
    while p < contents.len()
        invariant
            model.wf(),
            options.wf(),
            forall|p: int|
                0 <= p < contents@.len() ==> shapes_drawable(
                    model,
                    (#[trigger] contents@[p]).shapes@,
                ) && texts_printable(contents@[p].texts@),
            p <= contents@.len(),
            pages@.len() == p,
            forall|q: int|
                0 <= q < p ==> {
                    &&& (#[trigger] pages@[q]).ops@ == page_ops(
                        model,
                        *options,
                        contents@[q],
                        with_textures,
                    )
                    &&& text_table_view(pages@[q].texts@) == page_text_table(contents@[q].texts@)
                },
        decreases contents@.len() - p,
    {
        let page = generate_pdf_page_ops(model, options, &contents[p], with_textures);
        pages.push(page);
        p += 1;
    }
    let stamp = pdf_date(date);
    let patterns = tiling_patterns(&images);
    let names_patterns = images.len() > 0;
    PdfDocument {
        version: String::from_str("1.4"),
        media_box: (mm_to_pt(options.page_size.0), mm_to_pt(options.page_size.1)),
        font: PdfFont {
            key: String::from_str("F1"),
            subtype: String::from_str("Type1"),
            base_font: String::from_str("Helvetica"),
            encoding: String::from_str("WinAnsiEncoding"),
        },
        images,
        patterns,
        names_patterns,
        pages,
        title: String::from_str("Papercraft Export"),
        creator: signature(),
        creation_date: stamp.clone(),
        mod_date: stamp,
    }
}

/// Whether `document` is the document of a papercraft as the unfolding
/// lays it out: it has a page for each page of the options, each with the
/// operations of what is drawn on it; with textures it holds the image of
/// each texture that has pixels, and without textures no image.
pub open spec fn is_generated_pdf(
    document: PdfDocument,
    craft: &Papercraft,
    unfolding: &Unfolding,
    with_textures: bool,
    date: PdfDate,
) -> bool {
    &&& with_textures ==> is_pdf_images(craft.mesh(), document.images@)
    &&& !with_textures ==> document.images@.len() == 0
    &&& document.pages@.len() == export_options_spec(craft, unfolding).pages
    &&& exists|contents: Seq<PageContent>|
        is_export_contents(contents, craft, unfolding) && #[trigger] is_pdf_document(
            document,
            craft.mesh(),
            export_options_spec(craft, unfolding),
            contents,
            with_textures,
            date,
        )
}

/// Generates the document of a papercraft as the unfolding lays it out,
/// with the time `date` as the time of its making. Without textures the
/// document holds no images.
///
/// Fails with `Layout` if the unfolding does not fit the mesh, and with
/// `Texture` if textures are drawn and one cannot be compressed.
pub fn generate_pdf(craft: &Papercraft, unfolding: &Unfolding, with_textures: bool, date: &PdfDate) -> (r:
    Result<PdfDocument, ExportError>)
    requires
        craft.wf(),
    ensures
        !unfolding.fits(craft.mesh()) <==> r == Err::<PdfDocument, ExportError>(ExportError::Layout),
        r is Ok <==> unfolding.fits(craft.mesh()) && (with_textures ==> textures_compressible(
            craft.mesh(),
        )),
        r is Err ==> r == Err::<PdfDocument, ExportError>(ExportError::Layout) || r == Err::<
            PdfDocument,
            ExportError,
        >(ExportError::Texture),
        r matches Ok(document) ==> is_generated_pdf(document, craft, unfolding, with_textures, *date),
{
    let model = craft.model();
    if !unfolding.is_valid_for(model) {
        return Err(ExportError::Layout);
    }
    let images: Vec<Option<PdfImage>> = if with_textures {
        match embed_pdf_textures(model) {
            Ok(images) => images,
            Err(e) => {
                return Err(e);
            },
        }
    } else {
        Vec::new()
    };
    let options = export_options(craft, unfolding);
    let contents = export_contents(craft, unfolding);
    let ghost held = images@;
    let document = pdf_document(model, &options, &contents, images, with_textures, date);
    proof {
        assert(document.images@ == held);
        assert(is_pdf_document(
            document,
            craft.mesh(),
            export_options_spec(craft, unfolding),
            contents@,
            with_textures,
            *date,
        ));
    }
    Ok(document)
}

/// Whether every pattern that `ops` select is the pattern of a material
/// whose texture has pixels, and none is selected where no textures are
/// drawn.
pub open spec fn paints_known(ops: Seq<PageOp>, model: &Model, with_textures: bool) -> bool {
    forall|k: int|
        0 <= k < ops.len() ==> match #[trigger] ops[k] {
            PageOp::Pattern { material } => with_textures && model.textured(material),
            _ => true,
        }
}

/// Whether the faces of `shapes` are drawn with textures that have pixels.
pub open spec fn textures_known(model: &Model, shapes: Seq<IslandShape>) -> bool {
    forall|k: int, j: int|
        0 <= k < shapes.len() && 0 <= j < shapes[k].faces@.len() ==> match (#[trigger] shapes[k].faces@[
            j
        ]).texture {
            Some(m) => model.textured(m),
            None => true,
        }
}

proof fn lemma_paints_join(a: Seq<PageOp>, b: Seq<PageOp>, model: &Model, with_textures: bool)
    requires
        paints_known(a, model, with_textures),
        paints_known(b, model, with_textures),
    ensures
        paints_known(a + b, model, with_textures),
{
    assert forall|k: int| 0 <= k < (a + b).len() implies match #[trigger] (a + b)[k] {
        PageOp::Pattern { material } => with_textures && model.textured(material),
        _ => true,
    } by {
        if k < a.len() {
            assert((a + b)[k] == a[k]);
        } else {
            assert((a + b)[k] == b[k - a.len()]);
        }
    }
}

proof fn lemma_paints_path(points: Seq<Point2>, height: int, upto: int, model: &Model, with_textures: bool)
    ensures
        paints_known(path_ops(points, height, upto), model, with_textures),
    decreases upto,
{
    if upto > 1 {
        lemma_paints_path(points, height, upto - 1, model, with_textures);
        let before = path_ops(points, height, upto - 1);
        assert(before.push(line_to(points[upto - 1], height)) =~= before + seq![
            line_to(points[upto - 1], height),
        ]);
        lemma_paints_join(before, seq![line_to(points[upto - 1], height)], model, with_textures);
    }
}

proof fn lemma_paints_textured_face(
    model: &Model,
    shape: FaceShape,
    material: usize,
    height: int,
    upto: int,
)
    requires
        model.textured(material),
    ensures
        paints_known(textured_face_ops(model, shape, material, height, upto), model, true),
    decreases upto,
{
    if upto > 0 {
        lemma_paints_textured_face(model, shape, material, height, upto - 1);
        let tri = upto - 1;
        let uvs = triangle_uvs(model, shape, tri);
        let piece = match texture_matrix(uvs, triangle_points(shape, tri)) {
            Some(m) => triangle_ops(uvs, m, material, height),
            None => Seq::empty(),
        };
        lemma_paints_join(
            textured_face_ops(model, shape, material, height, upto - 1),
            piece,
            model,
            true,
        );
    }
}

proof fn lemma_paints_face(model: &Model, shape: FaceShape, options: PaperOptions, with_textures: bool)
    requires
        shape.texture matches Some(m) ==> model.textured(m),
    ensures
        paints_known(face_ops(model, shape, options, with_textures), model, with_textures),
{
    let height = options.page_size.1 as int;
    let outline = path_ops(shape.vertices@, height, shape.vertices@.len() as int);
    lemma_paints_path(shape.vertices@, height, shape.vertices@.len() as int, model, with_textures);
    lemma_paints_join(seq![fill_color(options.paper_color)], outline, model, with_textures);
    lemma_paints_join(
        seq![fill_color(options.paper_color)] + outline,
        seq![PageOp::Fill],
        model,
        with_textures,
    );
    if with_textures && shape.texture is Some {
        lemma_paints_textured_face(
            model,
            shape,
            shape.texture.unwrap(),
            height,
            fan_triangulation(shape.vertices@.len()).len() as int,
        );
    }
    lemma_paints_join(
        face_fill_ops(shape, options),
        if with_textures && shape.texture is Some {
            textured_face_ops(
                model,
                shape,
                shape.texture.unwrap(),
                height,
                fan_triangulation(shape.vertices@.len()).len() as int,
            )
        } else {
            Seq::empty()
        },
        model,
        with_textures,
    );
}

proof fn lemma_paints_faces(
    model: &Model,
    faces: Seq<FaceShape>,
    options: PaperOptions,
    with_textures: bool,
    upto: int,
)
    requires
        upto <= faces.len(),
        forall|j: int|
            0 <= j < faces.len() ==> ((#[trigger] faces[j]).texture matches Some(m)
                ==> model.textured(m)),
    ensures
        paints_known(faces_ops(model, faces, options, with_textures, upto), model, with_textures),
    decreases upto,
{
    if upto > 0 {
        lemma_paints_faces(model, faces, options, with_textures, upto - 1);
        lemma_paints_face(model, faces[upto - 1], options, with_textures);
        lemma_paints_join(
            faces_ops(model, faces, options, with_textures, upto - 1),
            face_ops(model, faces[upto - 1], options, with_textures),
            model,
            with_textures,
        );
    }
}

proof fn lemma_paints_page_faces(
    model: &Model,
    shapes: Seq<IslandShape>,
    options: PaperOptions,
    with_textures: bool,
    upto: int,
)
    requires
        upto <= shapes.len(),
        textures_known(model, shapes),
    ensures
        paints_known(
            page_faces_ops(model, shapes, options, with_textures, upto),
            model,
            with_textures,
        ),
    decreases upto,
{
    if upto > 0 {
        lemma_paints_page_faces(model, shapes, options, with_textures, upto - 1);
        let faces = shapes[upto - 1].faces@;
        assert forall|j: int| 0 <= j < faces.len() implies ((#[trigger] faces[j]).texture matches Some(
            m,
        ) ==> model.textured(m)) by {
            assert(faces[j] == shapes[upto - 1].faces@[j]);
        }
        lemma_paints_faces(model, faces, options, with_textures, faces.len() as int);
        lemma_paints_join(
            page_faces_ops(model, shapes, options, with_textures, upto - 1),
            faces_ops(model, faces, options, with_textures, faces.len() as int),
            model,
            with_textures,
        );
    }
}

proof fn lemma_paints_folds(folds: Seq<FoldLine>, height: int, upto: int, model: &Model, with_textures: bool)
    ensures
        paints_known(folds_ops(folds, height, upto), model, with_textures),
    decreases upto,
{
    if upto > 0 {
        lemma_paints_folds(folds, height, upto - 1, model, with_textures);
        lemma_paints_join(
            folds_ops(folds, height, upto - 1),
            fold_ops(folds[upto - 1], height),
            model,
            with_textures,
        );
    }
}

proof fn lemma_paints_flaps(flaps: Seq<FlapShape>, height: int, upto: int, model: &Model, with_textures: bool)
    ensures
        paints_known(flaps_ops(flaps, height, upto), model, with_textures),
    decreases upto,
{
    if upto > 0 {
        lemma_paints_flaps(flaps, height, upto - 1, model, with_textures);
        lemma_paints_join(
            flaps_ops(flaps, height, upto - 1),
            flap_ops(flaps[upto - 1], height),
            model,
            with_textures,
        );
    }
}

proof fn lemma_paints_page_lines(
    shapes: Seq<IslandShape>,
    options: PaperOptions,
    upto: int,
    model: &Model,
    with_textures: bool,
)
    ensures
        paints_known(page_lines_ops(shapes, options, upto), model, with_textures),
    decreases upto,
{
    if upto > 0 {
        lemma_paints_page_lines(shapes, options, upto - 1, model, with_textures);
        let shape = shapes[upto - 1];
        let height = options.page_size.1 as int;
        let folds = island_folds_ops(shape.folds@, options);
        let flaps = flaps_ops(shape.flaps@, height, shape.flaps@.len() as int);
        let reset = seq![PageOp::Dash { dashed: false }];
        let contour = contour_ops(shape.contour@, height);
        lemma_paints_folds(shape.folds@, height, shape.folds@.len() as int, model, with_textures);
        lemma_paints_flaps(shape.flaps@, height, shape.flaps@.len() as int, model, with_textures);
        lemma_paints_path(shape.contour@, height, shape.contour@.len() as int, model, with_textures);
        if shape.contour@.len() > 0 {
            let outline = path_ops(shape.contour@, height, shape.contour@.len() as int);
            assert(outline.push(PageOp::CloseStroke) =~= outline + seq![PageOp::CloseStroke]);
            lemma_paints_join(outline, seq![PageOp::CloseStroke], model, with_textures);
        }
        lemma_paints_join(folds, flaps, model, with_textures);
        lemma_paints_join(folds + flaps, reset, model, with_textures);
        lemma_paints_join(folds + flaps + reset, contour, model, with_textures);
        lemma_paints_join(
            page_lines_ops(shapes, options, upto - 1),
            island_lines_ops(shape, options),
            model,
            with_textures,
        );
    }
}

proof fn lemma_paints_texts(
    texts: Seq<PrintableText>,
    height: int,
    upto: int,
    model: &Model,
    with_textures: bool,
)
    ensures
        paints_known(texts_ops(texts, height, upto), model, with_textures),
    decreases upto,
{
    if upto > 0 {
        lemma_paints_texts(texts, height, upto - 1, model, with_textures);
        lemma_paints_join(
            texts_ops(texts, height, upto - 1),
            text_ops(texts[upto - 1], upto - 1, height),
            model,
            with_textures,
        );
    }
}

/// The pages paint with the patterns of textures that have pixels, and
/// with none where no textures are drawn.
pub proof fn lemma_page_paints_known(
    model: &Model,
    options: PaperOptions,
    content: PageContent,
    with_textures: bool,
)
    requires
        textures_known(model, content.shapes@),
    ensures
        paints_known(page_ops(model, options, content, with_textures), model, with_textures),
{
    reveal(page_ops);
    let height = options.page_size.1 as int;
    let faces = page_faces_ops(
        model,
        content.shapes@,
        options,
        with_textures,
        content.shapes@.len() as int,
    );
    let pen = seq![PageOp::StrokeColor { r: 0, g: 0, b: 0 }, PageOp::LineWidth { width: 500_000 }];
    let lines = page_lines_ops(content.shapes@, options, content.shapes@.len() as int);
    let texts = text_block_ops(content.texts@, height);
    lemma_paints_page_faces(
        model,
        content.shapes@,
        options,
        with_textures,
        content.shapes@.len() as int,
    );
    lemma_paints_page_lines(
        content.shapes@,
        options,
        content.shapes@.len() as int,
        model,
        with_textures,
    );
    lemma_paints_texts(content.texts@, height, content.texts@.len() as int, model, with_textures);
    if content.texts@.len() > 0 {
        let shown = texts_ops(content.texts@, height, content.texts@.len() as int);
        lemma_paints_join(seq![PageOp::BeginText], shown, model, with_textures);
        lemma_paints_join(
            seq![PageOp::BeginText] + shown,
            seq![PageOp::EndText],
            model,
            with_textures,
        );
    }
    lemma_paints_join(faces, pen, model, with_textures);
    lemma_paints_join(faces + pen, lines, model, with_textures);
    lemma_paints_join(faces + pen + lines, texts, model, with_textures);
}

/// A generated document holds what its pages paint with: where a page
/// selects the pattern of a material, textures are drawn, the document
/// has the image of that material's texture and the tiling pattern over
/// it, under the name by which the page calls it.
pub proof fn lemma_document_holds_its_patterns(
    document: PdfDocument,
    craft: &Papercraft,
    unfolding: &Unfolding,
    with_textures: bool,
    date: PdfDate,
    p: int,
    k: int,
)
    requires
        craft.wf(),
        unfolding.fits(craft.mesh()),
        is_generated_pdf(document, craft, unfolding, with_textures, date),
        0 <= p < document.pages@.len(),
        0 <= k < document.pages@[p].ops@.len(),
        document.pages@[p].ops@[k] is Pattern,
    ensures
        with_textures,
        document.names_patterns,
        ({
            let material = document.pages@[p].ops@[k]->material as int;
            &&& material < document.patterns@.len()
            &&& document.images@[material] is Some
            &&& document.patterns@[material] is Some
            &&& is_tiling_pattern(document.patterns@[material].unwrap(), material)
        }),
{
    let model = craft.mesh();
    let options = export_options_spec(craft, unfolding);
    let contents = choose|contents: Seq<PageContent>|
        is_export_contents(contents, craft, unfolding) && #[trigger] is_pdf_document(
            document,
            model,
            options,
            contents,
            with_textures,
            date,
        );
    let content = contents[p];
    let shapes = content.shapes@;
    assert(is_page_content(content, craft, unfolding, options, p as u32));
    let on_page = crate::pages::islands_on_page(
        craft,
        unfolding,
        options,
        p as u32,
        craft.island_seq().len() as int,
    );
    assert forall|i: int, j: int|
        0 <= i < shapes.len() && 0 <= j < shapes[i].faces@.len() implies match (#[trigger] shapes[i].faces@[
            j
        ]).texture {
        Some(m) => model.textured(m),
        None => true,
    } by {
        let shape = shapes[i];
        assert(crate::shapes::is_island_shape(
            shape,
            craft,
            unfolding,
            options.page_position_spec(p as u32),
            on_page[i],
        ));
        assert(crate::shapes::is_face_shape(
            shape.faces@[j],
            model,
            unfolding,
            options.page_position_spec(p as u32),
            shape.steps@[j].face as int,
        ));
    }
    lemma_page_paints_known(model, options, content, with_textures);
    let ops = document.pages@[p].ops@;
    assert(ops == page_ops(model, options, content, with_textures));
    let op = ops[k];
    let material = op->material as int;
    assert(with_textures && model.textured(op->material));
    assert(is_pdf_image(model, material, document.images@[material]));
}

} // verus!
