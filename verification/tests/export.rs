use papercraft::arrange::pack_islands;
use papercraft::craft::Papercraft;
use papercraft::geometry::Point2;
use papercraft::graph::{EdgeStatus, FlapSide};
use papercraft::layout::Unfolding;
use papercraft::model::{Edge, Face, Model, Point3, Texture, Vertex};
use papercraft::options::{Color, EdgeIdPosition, FlapStyle, FoldStyle, PaperOptions};
use papercraft::pdf::{generate_pdf, pattern_key, PageOp, PdfDate, PdfDocument};
use papercraft::svg::{generate_svg, generate_svg_multipage, ExportError};
use papercraft::texture::{calc_texture_matrix, TextureMatrix};
use base64::Engine;
use lopdf::content::Operation;
use lopdf::{Dictionary, Document, Object, Stream};
use regex::Regex;
use std::io::Read;

const MM: i64 = 1_000_000;

fn color(r: u32, g: u32, b: u32) -> Color {
    Color { r, g, b, a: 1_000_000 }
}

fn a4() -> PaperOptions {
    PaperOptions {
        page_size: (210 * MM, 297 * MM),
        margin: (10 * MM, 10 * MM, 10 * MM, 10 * MM),
        pages: 1,
        page_cols: 2,
        scale: MM,
        flap_style: FlapStyle::Textured,
        flap_width: 5 * MM,
        fold_style: FoldStyle::Full,
        edge_id_position: EdgeIdPosition::NoIds,
        edge_id_font_size: 8 * MM,
        show_page_number: true,
        show_self_promotion: true,
        paper_color: color(1_000_000, 1_000_000, 1_000_000),
        cut_line_color: color(0, 0, 0),
        fold_line_color: color(0, 0, 0),
        tab_line_color: color(0, 0, 0),
    }
}

fn vertex(x: i64, y: i64, z: i64, u: i64, v: i64) -> Vertex {
    Vertex {
        pos: Point3 { x: x * MM, y: y * MM, z: z * MM },
        normal: Point3 { x: 0, y: 0, z: MM },
        uv: Point2 { x: u, y: v },
    }
}

/// Builds a mesh from faces given as lists of vertex indices: two faces
/// that run along the same pair of vertices in opposite directions share
/// an edge.
fn mesh(vertices: Vec<Vertex>, corners: Vec<Vec<usize>>, textures: Vec<Texture>) -> Model {
    let mut edges: Vec<Edge> = Vec::new();
    let mut faces: Vec<Face> = Vec::new();
    for (f, list) in corners.iter().enumerate() {
        let mut listed = Vec::new();
        for i in 0..list.len() {
            let (a, b) = (list[i], list[(i + 1) % list.len()]);
            let shared = edges.iter().position(|e| e.v0 == b && e.v1 == a && e.f1.is_none());
            match shared {
                Some(e) => {
                    edges[e].f1 = Some(f);
                    listed.push(e);
                }
                None => {
                    edges.push(Edge { f0: f, f1: None, v0: a, v1: b, angle: 1_570_796 });
                    listed.push(edges.len() - 1);
                }
            }
        }
        faces.push(Face { vertices: list.clone(), edges: listed, material: f % textures.len().max(1) });
    }
    Model { vertices, edges, faces, textures }
}

fn plain_texture(name: &str) -> Texture {
    Texture { file_name: name.to_string(), width: 0, height: 0, pixels: None }
}

/// A texture of sixteen by sixteen pixels of scattered colours.
fn dotted_texture(name: &str, shade: u8) -> Texture {
    let mut pixels = Vec::new();
    let mut seed: u32 = 12_345 + shade as u32;
    for _ in 0..256 {
        seed = seed.wrapping_mul(1_103_515_245).wrapping_add(12_345);
        let [r, g, b, _] = seed.to_be_bytes();
        pixels.extend_from_slice(&[r, g, b, 255]);
    }
    Texture { file_name: name.to_string(), width: 16, height: 16, pixels: Some(pixels) }
}

fn triangle() -> Model {
    mesh(
        vec![vertex(0, 0, 0, 0, 0), vertex(1, 0, 0, MM, 0), vertex(0, 1, 0, 0, MM)],
        vec![vec![0, 1, 2]],
        vec![plain_texture("plain")],
    )
}

/// A cube with the side 20 mm. Every face has its own material.
fn cube(textures: Vec<Texture>) -> Model {
    let s = 20;
    let uv = |k: usize| match k % 4 {
        0 => (250_000, 250_000),
        1 => (1_750_000, 250_000),
        2 => (1_750_000, 1_750_000),
        _ => (250_000, 1_750_000),
    };
    let mut vertices = Vec::new();
    for k in 0..8usize {
        let (u, v) = uv(k);
        vertices.push(vertex(
            if k & 1 != 0 { s } else { 0 },
            if k & 2 != 0 { s } else { 0 },
            if k & 4 != 0 { s } else { 0 },
            u,
            v,
        ));
    }
    mesh(
        vertices,
        vec![
            vec![0, 2, 3, 1],
            vec![4, 5, 7, 6],
            vec![0, 1, 5, 4],
            vec![2, 6, 7, 3],
            vec![0, 4, 6, 2],
            vec![1, 3, 7, 5],
        ],
        textures,
    )
}

/// A die: six square faces, each with its own corners, texture
/// coordinates and material.
fn dice() -> Model {
    let mut vertices = Vec::new();
    let mut corners = Vec::new();
    for f in 0..6 {
        vertices.push(vertex(0, 0, f, 250_000, 250_000));
        vertices.push(vertex(20, 0, f, 1_750_000, 250_000));
        vertices.push(vertex(20, 20, f, 1_750_000, 1_750_000));
        vertices.push(vertex(0, 20, f, 250_000, 1_750_000));
        let first = 4 * f as usize;
        corners.push(vec![first, first + 1, first + 2, first + 3]);
    }
    mesh(vertices, corners, (0..6).map(|k| dotted_texture("side", 40 * k as u8)).collect())
}

fn sphere() -> Model {
    cube(vec![plain_texture("plain")])
}

/// Lays face `f` out as a regular polygon in cell `f` of a row of cells
/// 30 mm apart.
fn rows_of_faces(model: &Model) -> Unfolding {
    let mut faces = Vec::new();
    for (f, face) in model.faces.iter().enumerate() {
        let left = 15 * MM + 30 * MM * (f as i64 % 6);
        let top = 15 * MM + 30 * MM * (f as i64 / 6);
        let corners = match face.vertices.len() {
            3 => vec![(0, 0), (20, 0), (0, 20)],
            _ => vec![(0, 0), (20, 0), (20, 20), (0, 20)],
        };
        faces.push(corners.iter().map(|(x, y)| Point2 { x: left + x * MM, y: top + y * MM }).collect());
    }
    Unfolding { faces }
}

fn craft_of(model: Model) -> (Papercraft, Unfolding) {
    let unfolding = rows_of_faces(&model);
    let craft = Papercraft::from_model(model, a4()).expect("the mesh is well formed");
    (craft, unfolding)
}

fn stamp() -> PdfDate {
    PdfDate { year: 2024, month: 3, day: 9, hour: 7, minute: 5, second: 1 }
}

fn number(v: i128) -> Object {
    Object::Real((v as f64 / 1e6) as f32)
}

fn operation(op: &PageOp, font: &str, texts: &[String]) -> Operation {
    match *op {
        PageOp::FillColor { r, g, b } => Operation::new("rg", vec![number(r), number(g), number(b)]),
        PageOp::StrokeColor { r, g, b } => Operation::new("RG", vec![number(r), number(g), number(b)]),
        PageOp::LineWidth { width } => Operation::new("w", vec![number(width)]),
        PageOp::Dash { dashed } => {
            let pattern: Vec<Object> = if dashed { vec![2.into(), 2.into()] } else { vec![] };
            Operation::new("d", vec![pattern.into(), 0.into()])
        }
        PageOp::MoveTo { x, y } => Operation::new("m", vec![number(x), number(y)]),
        PageOp::LineTo { x, y } => Operation::new("l", vec![number(x), number(y)]),
        PageOp::Fill => Operation::new("f", vec![]),
        PageOp::Stroke => Operation::new("S", vec![]),
        PageOp::CloseStroke => Operation::new("s", vec![]),
        PageOp::Save => Operation::new("q", vec![]),
        PageOp::Restore => Operation::new("Q", vec![]),
        PageOp::Concat { a, b, c, d, e, f } => {
            Operation::new("cm", vec![number(a), number(b), number(c), number(d), number(e), number(f)])
        }
        PageOp::PatternSpace => Operation::new("cs", vec![Object::Name(b"Pattern".to_vec())]),
        PageOp::Pattern { material } => {
            Operation::new("scn", vec![Object::Name(pattern_key(material).into_bytes())])
        }
        PageOp::BeginText => Operation::new("BT", vec![]),
        PageOp::EndText => Operation::new("ET", vec![]),
        PageOp::Font { size } => Operation::new("Tf", vec![Object::Name(font.as_bytes().to_vec()), number(size)]),
        PageOp::TextMatrix { x, y } => Operation::new(
            "Tm",
            vec![1.into(), 0.into(), 0.into(), 1.into(), number(x), number(y)],
        ),
        PageOp::ShowText { index } => Operation::new(
            "Tj",
            vec![Object::String(texts[index].clone().into_bytes(), lopdf::StringFormat::Literal)],
        ),
    }
}

fn name(text: &str) -> Object {
    Object::Name(text.as_bytes().to_vec())
}

/// Writes the file of a document: every name and number of its font, its
/// images and its patterns is the one that the document gives.
fn write_pdf(document: &PdfDocument) -> Vec<u8> {
    let mut doc = Document::with_version(document.version.clone());
    let id_pages = doc.new_object_id();
    let mut font = Dictionary::new();
    font.set("Type", name("Font"));
    font.set("Subtype", name(&document.font.subtype));
    font.set("BaseFont", name(&document.font.base_font));
    font.set("Encoding", name(&document.font.encoding));
    let id_font = doc.add_object(font);
    let mut patterns = Dictionary::new();
    for (image, pattern) in document.images.iter().zip(document.patterns.iter()) {
        if let (Some(image), Some(pattern)) = (image, pattern) {
            let mut dict = Dictionary::new();
            dict.set("Type", name("XObject"));
            dict.set("Subtype", name(&image.subtype));
            dict.set("Width", image.width as i64);
            dict.set("Height", image.height as i64);
            dict.set("ColorSpace", name(&image.color_space));
            dict.set("BitsPerComponent", image.bits_per_component as i64);
            dict.set("Filter", name(&image.filter));
            let id_image = doc.add_object(Stream::new(dict, image.data.clone()));
            let mut xobjects = Dictionary::new();
            xobjects.set(pattern.image_key.clone(), id_image);
            let mut resources = Dictionary::new();
            resources.set("XObject", xobjects);
            let (left, bottom, right, top) = pattern.bbox;
            let mut dict = Dictionary::new();
            dict.set("Type", name("Pattern"));
            dict.set("PatternType", pattern.pattern_type as i64);
            dict.set("PaintType", pattern.paint_type as i64);
            dict.set("TilingType", pattern.tiling_type as i64);
            dict.set("BBox", vec![left.into(), bottom.into(), right.into(), top.into()]);
            dict.set("XStep", pattern.x_step);
            dict.set("YStep", pattern.y_step);
            dict.set("Resources", resources);
            let id_pattern = doc.add_object(Stream::new(dict, pattern.content.clone().into_bytes()));
            patterns.set(pattern.key.clone(), id_pattern);
        }
    }
    let mut kids: Vec<Object> = Vec::new();
    for page in &document.pages {
        let operations: Vec<Operation> =
            page.ops.iter().map(|op| operation(op, &document.font.key, &page.texts)).collect();
        let content = lopdf::content::Content { operations };
        let id_content = doc.add_object(Stream::new(Dictionary::new(), content.encode().unwrap()));
        let mut fonts = Dictionary::new();
        fonts.set(document.font.key.clone(), id_font);
        let mut resources = Dictionary::new();
        resources.set("Font", fonts);
        if document.names_patterns {
            resources.set("Pattern", patterns.clone());
        }
        let id_resources = doc.add_object(resources);
        let mut dict = Dictionary::new();
        dict.set("Type", name("Page"));
        dict.set("Parent", id_pages);
        dict.set("Contents", id_content);
        dict.set("Resources", id_resources);
        kids.push(doc.add_object(dict).into());
    }
    let mut pages = Dictionary::new();
    pages.set("Type", name("Pages"));
    pages.set("Count", kids.len() as i64);
    pages.set("Kids", kids);
    pages.set("MediaBox", vec![0.into(), 0.into(), number(document.media_box.0), number(document.media_box.1)]);
    doc.set_object(id_pages, pages);
    let mut catalog = Dictionary::new();
    catalog.set("Type", name("Catalog"));
    catalog.set("Pages", id_pages);
    let id_catalog = doc.add_object(catalog);
    doc.trailer.set("Root", id_catalog);
    let mut info = Dictionary::new();
    info.set("Title", Object::string_literal(document.title.clone()));
    info.set("Creator", Object::string_literal(document.creator.clone()));
    info.set("CreationDate", Object::string_literal(document.creation_date.clone()));
    info.set("ModDate", Object::string_literal(document.mod_date.clone()));
    let id_info = doc.add_object(info);
    doc.trailer.set("Info", id_info);
    let mut buffer = Vec::new();
    doc.save_to(&mut buffer).expect("a vector takes every byte");
    buffer
}

#[test]
fn test_triangle_obj_svg_export() {
    let (papercraft, unfolding) = craft_of(triangle());

    let svg = generate_svg_multipage(&papercraft, &unfolding, false).expect("Failed to generate SVG");

    assert!(svg.contains("<svg"));
    assert!(svg.contains("sodipodi:namedview"));
    assert!(svg.contains("inkscape:page"));
    assert!(svg.contains("Page_1"));
    assert!(svg.contains("<polygon"), "SVG should contain polygon elements for faces");
    assert!(svg.contains("fill=\"#"), "SVG should contain fill colors");
}

#[test]
fn test_sphere_pdo_svg_export() {
    let (papercraft, unfolding) = craft_of(sphere());

    let svg = generate_svg_multipage(&papercraft, &unfolding, false).expect("Failed to generate SVG");

    let re_group =
        Regex::new(r#"<g [^>]*id="page_(\d+)"[^>]*transform="translate\(([^,]+),([^)]+)\)""#)
            .unwrap();

    let mut found_pages = false;
    for cap in re_group.captures_iter(&svg) {
        found_pages = true;
        let page_num = &cap[1];
        let tx: f32 = cap[2].parse().unwrap();
        let ty: f32 = cap[3].parse().unwrap();
        println!("Page {}: Translate({}, {})", page_num, tx, ty);
    }
    assert!(found_pages, "Should have found page groups");
}

#[test]
fn test_sphere_pdo_svg_export_with_textures() {
    let (papercraft, unfolding) = craft_of(sphere());

    let svg = generate_svg_multipage(&papercraft, &unfolding, true).expect("Failed to generate SVG");

    let has_patterns = svg.contains("<pattern");
    let has_pattern_fills = svg.contains("fill=\"url(#pat_");

    let has_textures_with_data = papercraft.model().textures.iter().any(|t| t.pixels.is_some());
    if has_textures_with_data {
        assert!(has_patterns, "Should have pattern definitions for textures");
        assert!(has_pattern_fills, "Should have pattern fills on polygons");
    }
    assert!(!has_textures_with_data);
    assert!(!has_patterns);
}

#[test]
fn test_texture_matrix_calculation_logic() {
    let uvs = [
        Point2 { x: 250_000, y: 250_000 },
        Point2 { x: 750_000, y: 250_000 },
        Point2 { x: 500_000, y: 750_000 },
    ];

    let vertices = [
        Point2 { x: 50 * MM, y: 100 * MM },
        Point2 { x: 80 * MM, y: 100 * MM },
        Point2 { x: 65 * MM, y: 130 * MM },
    ];

    let matrix: TextureMatrix = calc_texture_matrix(uvs, vertices).expect("Should be invertible");

    for i in 0..3 {
        let (u, v) = (uvs[i].x as f64 / 1e6, uvs[i].y as f64 / 1e6);
        let x = matrix.a as f64 / 1e6 * u + matrix.c as f64 / 1e6 * v + matrix.e as f64 / 1e6;
        let y = matrix.b as f64 / 1e6 * u + matrix.d as f64 / 1e6 * v + matrix.f as f64 / 1e6;

        assert!((x - vertices[i].x as f64 / 1e6).abs() < 0.01);
        assert!((y - vertices[i].y as f64 / 1e6).abs() < 0.01);
    }
    assert_eq!(
        matrix,
        TextureMatrix { a: 60_000_000, b: 0, c: 0, d: 60_000_000, e: 35_000_000, f: 85_000_000 }
    );
}

#[test]
fn test_dice_svg_contains_raster_images() {
    let (papercraft, unfolding) = craft_of(dice());

    let svg = generate_svg_multipage(&papercraft, &unfolding, true).expect("Failed to generate SVG");

    assert!(svg.contains("<image"), "SVG export of dice.pdo must contain <image> elements for textures");
    assert!(
        svg.contains("data:image/png;base64,"),
        "SVG export of dice.pdo must contain base64-encoded PNG raster data"
    );

    let has_real_image_data = svg.split("data:image/png;base64,").skip(1).any(|part| {
        let base64_data = part.split('"').next().unwrap_or("");
        base64_data.len() > 200
    });

    assert!(has_real_image_data, "SVG must contain actual image data (base64 length > 200 chars)");
}

#[test]
fn test_dice_pdo_textures_are_extracted() {
    let (papercraft, _) = craft_of(dice());

    let textures: Vec<_> = papercraft.model().textures.iter().collect();

    assert!(!textures.is_empty(), "dice.pdo should have textures defined");

    let textures_with_data: Vec<_> = textures.iter().filter(|t| t.has_pixels()).collect();

    assert!(!textures_with_data.is_empty());
    assert_eq!(textures_with_data.len(), 6);

    for (i, tex) in textures_with_data.iter().enumerate() {
        assert!(
            tex.width > 0 && tex.height > 0,
            "Texture {} should have valid dimensions, got {}x{}",
            i,
            tex.width,
            tex.height
        );
        assert!(tex.is_valid());
    }
}

#[test]
fn test_dice_pdo_svg_export_contains_embedded_textures() {
    let (papercraft, unfolding) = craft_of(dice());

    let svg = generate_svg_multipage(&papercraft, &unfolding, true).expect("Failed to generate SVG");

    let has_tex_image = svg.contains("<image id=\"tex_");
    assert!(has_tex_image, "SVG should contain <image id=\"tex_...> elements in defs");

    let has_base64_png = svg.contains("data:image/png;base64,");
    assert!(has_base64_png, "SVG should contain base64-encoded PNG texture data");

    let re_image =
        Regex::new(r#"<image id="tex_\d+" [^>]*href="data:image/png;base64,([^"]+)""#).unwrap();
    let mut found_valid_texture = false;
    for cap in re_image.captures_iter(&svg) {
        let base64_data = &cap[1];
        if base64_data.len() > 100 {
            found_valid_texture = true;
            break;
        }
    }
    assert!(found_valid_texture, "SVG should contain at least one texture with substantial base64 data");
}

#[test]
fn test_dice_pdo_svg_export_has_texture_transforms() {
    let (papercraft, unfolding) = craft_of(dice());

    let svg = generate_svg_multipage(&papercraft, &unfolding, true).expect("Failed to generate SVG");

    let pattern_count = svg.matches("<pattern").count();
    assert!(pattern_count > 0, "SVG should have patterns for texture triangles, found 0");

    let transform_count = svg.matches("patternTransform=\"matrix(").count();
    assert!(transform_count > 0, "SVG should have matrix transforms on patterns, found 0");

    assert_eq!(
        pattern_count, transform_count,
        "Pattern count ({}) and transform count ({}) should be equal",
        pattern_count, transform_count
    );
    assert_eq!(pattern_count, 12);
}

#[test]
fn test_dice_pdo_uv_coordinates_are_valid() {
    let (papercraft, _) = craft_of(dice());

    let model = papercraft.model();

    let mut total_vertices = 0;
    let mut vertices_with_valid_uvs = 0;

    for face in model.faces.iter() {
        for vertex_idx in face.vertices.iter() {
            total_vertices += 1;
            let uv = model.vertices[*vertex_idx].uv;

            if uv.x != 0 || uv.y != 0 {
                vertices_with_valid_uvs += 1;
            }

            let (u, v) = (uv.x as f64 / 1e6, uv.y as f64 / 1e6);
            assert!(u.is_finite() && v.is_finite(), "UV coordinates should be finite numbers, got ({}, {})", u, v);
        }
    }

    assert!(vertices_with_valid_uvs > 0);

    let ratio = (vertices_with_valid_uvs as f32) / (total_vertices as f32);
    assert!(ratio > 0.5, "At least 50% of vertices should have non-zero UVs, got {:.1}%", ratio * 100.0);
}

#[test]
fn test_dice_pdo_pdf_export_contains_textures() {
    let (papercraft, unfolding) = craft_of(dice());

    let document = generate_pdf(&papercraft, &unfolding, true, &stamp()).expect("Failed to generate PDF");
    let pdf_bytes = write_pdf(&document);

    assert!(pdf_bytes.len() > 1000, "PDF should be larger than 1KB when textures are embedded");
    assert!(pdf_bytes.starts_with(b"%PDF"), "Should be a valid PDF file");

    let pdf_str = String::from_utf8_lossy(&pdf_bytes);

    let has_xobject = pdf_str.contains("/XObject");
    assert!(has_xobject, "PDF should contain /XObject dictionary for textures");

    let has_image_xobject = pdf_str.contains("/Subtype /Image") || pdf_str.contains("/Subtype/Image");
    assert!(has_image_xobject, "PDF should contain Image XObject definitions");

    let has_do_operator = pdf_str.contains("/Im Do") || pdf_str.contains("/Im0 Do");
    assert!(has_do_operator, "PDF should reference textures with Do operator (inside Pattern)");

    let has_pattern_cs = pdf_str.contains("/Pattern cs");
    assert!(has_pattern_cs, "PDF page content should use Pattern color space");

    let has_pattern_scn = pdf_str.contains("/Pat0 scn") || pdf_str.contains("/Pat1 scn");
    assert!(has_pattern_scn, "PDF page content should set pattern color (scn)");
}

#[test]
fn test_dice_pdo_svg_export_without_textures_shows_solid_colors() {
    let (papercraft, unfolding) = craft_of(dice());

    let svg = generate_svg_multipage(&papercraft, &unfolding, false).expect("Failed to generate SVG");

    assert!(svg.contains("<polygon"), "SVG should contain polygon elements");
    assert!(svg.contains("fill=\"#"), "SVG should contain solid color fills");
    assert!(!svg.contains("<image id=\"tex_"), "SVG without textures should not contain texture image definitions");
    assert!(!svg.contains("data:image/png;base64,"), "SVG without textures should not contain base64 image data");
}

#[test]
fn test_dice_pdo_svg_texture_rendering_integration() {
    let (papercraft, unfolding) = craft_of(dice());

    let textures_with_data: Vec<_> =
        papercraft.model().textures.iter().filter(|t| t.pixels.is_some()).collect();

    assert!(
        !textures_with_data.is_empty(),
        "PRECONDITION: dice.pdo must have textures with pixel data for this test"
    );

    let svg = generate_svg_multipage(&papercraft, &unfolding, true).expect("Failed to generate SVG");

    let re_tex_def =
        Regex::new(r#"<image id="tex_(\d+)"[^>]*width="(\d+)"[^>]*height="(\d+)""#).unwrap();
    let tex_defs: Vec<_> = re_tex_def.captures_iter(&svg).collect();
    assert!(!tex_defs.is_empty());

    for cap in &tex_defs {
        let tex_idx: usize = cap[1].parse().unwrap();
        let svg_width: u32 = cap[2].parse().unwrap();
        let svg_height: u32 = cap[3].parse().unwrap();

        if let Some(tex) = papercraft.model().textures.get(tex_idx) {
            if tex.pixels.is_some() {
                assert_eq!(svg_width, tex.width, "Texture {} width mismatch", tex_idx);
                assert_eq!(svg_height, tex.height, "Texture {} height mismatch", tex_idx);
            }
        }
    }

    let re_pattern =
        Regex::new(r#"<pattern id="pat_face_\d+_\d+" patternUnits="userSpaceOnUse""#).unwrap();
    let patterns: Vec<_> = re_pattern.captures_iter(&svg).collect();
    assert!(!patterns.is_empty(), "FAILURE: No texture patterns found. Texture rendering should use patterns.");

    let re_transform = Regex::new(r#"patternTransform="matrix\(([^)]+)\)""#).unwrap();
    let transforms: Vec<_> = re_transform.captures_iter(&svg).collect();
    assert!(!transforms.is_empty(), "FAILURE: No pattern transforms found.");

    for cap in &transforms {
        let matrix_str = &cap[1];
        let values: Vec<f32> = matrix_str.split_whitespace().filter_map(|s| s.parse().ok()).collect();

        assert_eq!(values.len(), 6, "Matrix transform should have 6 values (a b c d e f)");

        for (i, val) in values.iter().enumerate() {
            assert!(val.is_finite(), "Matrix value {} should be finite, got {}", i, val);
        }

        let (a, b, c, d) = (values[0], values[1], values[2], values[3]);
        let has_scale_or_rotation =
            a.abs() > 0.0001 || b.abs() > 0.0001 || c.abs() > 0.0001 || d.abs() > 0.0001;

        assert!(has_scale_or_rotation);
    }

    let re_fill = Regex::new(r#"fill="url\(#pat_face_\d+_\d+\)""#).unwrap();
    let fills: Vec<_> = re_fill.captures_iter(&svg).collect();
    assert!(!fills.is_empty(), "FAILURE: No polygons found filled with texture patterns.");

    println!(
        "SVG texture rendering test passed: {} texture defs, {} patterns, {} fills",
        tex_defs.len(),
        patterns.len(),
        fills.len()
    );
    assert_eq!((tex_defs.len(), patterns.len(), fills.len()), (6, 12, 12));
}

#[test]
fn triangle_svg_has_one_face_and_one_closed_cut() {
    let (craft, unfolding) = craft_of(triangle());
    let svg = generate_svg_multipage(&craft, &unfolding, false).unwrap();
    assert_eq!(svg.matches("<inkscape:page").count(), 1);
    assert_eq!(svg.matches("<polygon").count(), 1);
    assert!(svg.contains(
        "<polygon id=\"face_0\" fill=\"#FFFFFF\" stroke=\"none\" points=\"15,15 35,15 15,35 \"/>\n"
    ));
    assert!(svg.contains(
        "<path id=\"cut_0\" fill=\"none\" stroke=\"#000000\" stroke-width=\"0.3\" d=\"M 15,15 L 35,15 L 15,35 Z\"/>\n"
    ));
    assert_eq!(svg.matches("<line").count(), 0);
    assert!(!svg.contains("id=\"Flaps\""));
    assert!(!svg.contains("<image"));
    assert!(svg.starts_with(
        "<?xml version=\"1.0\" encoding=\"UTF-8\" standalone=\"no\"?>\n<svg width=\"430mm\" height=\"297mm\" viewBox=\"0 0 430 297\""
    ));
    assert!(svg.ends_with("</g>\n</svg>\n"));
}

#[test]
fn single_page_svg_has_the_size_of_the_page() {
    let (craft, unfolding) = craft_of(triangle());
    let svg = generate_svg(&craft, &unfolding, 0, false).unwrap();
    assert!(svg.contains("<svg width=\"210mm\" height=\"297mm\" viewBox=\"0 0 210 297\""));
    assert!(!svg.contains("sodipodi"));
    assert_eq!(svg.matches("<polygon").count(), 1);
    let other = generate_svg(&craft, &unfolding, 1, false).unwrap();
    assert_eq!(other.matches("<polygon").count(), 0);
    assert!(other.contains("Page 2/1"));
}

#[test]
fn svg_texts_are_escaped_and_placed_in_the_footer() {
    let (craft, unfolding) = craft_of(triangle());
    let svg = generate_svg_multipage(&craft, &unfolding, false).unwrap();
    assert!(svg.contains(
        "<text x=\"10\" y=\"290\" style=\"font-size:3px;font-family:sans-serif;fill:#000000\">Created with Papercraft Web. https://github.com/karma-works/papercraft-web</text>\n"
    ));
    assert!(svg.contains(
        "<text x=\"200\" y=\"290\" style=\"text-anchor:end;font-size:3px;font-family:sans-serif;fill:#000000\">Page 1/1</text>\n"
    ));
}

#[test]
fn dice_pdf_has_an_image_and_a_pattern_for_each_side() {
    let (craft, unfolding) = craft_of(dice());
    let document = generate_pdf(&craft, &unfolding, true, &stamp()).unwrap();
    assert_eq!(document.pages.len(), 1);
    assert_eq!(document.images.iter().filter(|i| i.is_some()).count(), 6);
    for k in 0..6 {
        assert!(document.pages[0].ops.contains(&PageOp::Pattern { material: k }));
    }
    assert_eq!(document.creation_date, "D:20240309070501Z");
    assert_eq!(document.mod_date, "D:20240309070501Z");
    assert_eq!(document.title, "Papercraft Export");
    let bytes = write_pdf(&document);
    let text = String::from_utf8_lossy(&bytes);
    assert!(text.starts_with("%PDF-1.4"));
    assert_eq!(text.matches("/Subtype /Image").count() + text.matches("/Subtype/Image").count(), 6);
    assert_eq!(text.matches("/Type /Page\n").count() + text.matches("/Type/Page/").count() + text.matches("/Type /Page ").count() + text.matches("/Type /Page/").count(), 1);
    for k in 0..6 {
        assert!(text.contains(&format!("/Pat{} scn", k)));
    }
}

#[test]
fn pdf_without_textures_holds_no_image() {
    let (craft, unfolding) = craft_of(dice());
    let document = generate_pdf(&craft, &unfolding, false, &stamp()).unwrap();
    assert!(document.images.is_empty());
    assert!(!document.pages[0].ops.iter().any(|op| matches!(op, PageOp::Pattern { .. })));
    assert_eq!(document.media_box, (595_275_591, 841_889_764));
    assert_eq!(
        &document.pages[0].ops[0..6],
        &[
            PageOp::FillColor { r: 1_000_000, g: 1_000_000, b: 1_000_000 },
            PageOp::MoveTo { x: 42_519_685, y: 799_370_079 },
            PageOp::LineTo { x: 99_212_598, y: 799_370_079 },
            PageOp::LineTo { x: 99_212_598, y: 742_677_165 },
            PageOp::LineTo { x: 42_519_685, y: 742_677_165 },
            PageOp::Fill,
        ]
    );
}

#[test]
fn packed_islands_do_not_overlap_and_lie_on_the_pages() {
    let mut vertices = Vec::new();
    let mut corners = Vec::new();
    for k in 0..10 {
        vertices.push(vertex(0, 0, k, 0, 0));
        vertices.push(vertex(1, 0, k, MM, 0));
        vertices.push(vertex(0, 1, k, 0, MM));
        corners.push(vec![3 * k as usize, 3 * k as usize + 1, 3 * k as usize + 2]);
    }
    let model = mesh(vertices, corners, vec![plain_texture("plain")]);
    let faces = (0..10)
        .map(|_| vec![Point2 { x: 0, y: 0 }, Point2 { x: 20 * MM, y: 0 }, Point2 { x: 0, y: 20 * MM }])
        .collect();
    let mut unfolding = Unfolding { faces };
    let mut craft = Papercraft::from_model(model, a4()).unwrap();
    assert_eq!(pack_islands(&mut craft, &mut unfolding), Ok(()));
    let boxes: Vec<(i64, i64, i64, i64)> = unfolding
        .faces
        .iter()
        .map(|face| {
            (
                face.iter().map(|p| p.x).min().unwrap(),
                face.iter().map(|p| p.y).min().unwrap(),
                face.iter().map(|p| p.x).max().unwrap(),
                face.iter().map(|p| p.y).max().unwrap(),
            )
        })
        .collect();
    for i in 0..10 {
        for j in 0..i {
            let (a, b) = (boxes[i], boxes[j]);
            assert!(a.2 <= b.0 || b.2 <= a.0 || a.3 <= b.1 || b.3 <= a.1, "{:?} and {:?}", a, b);
        }
        let center = Point2 { x: (boxes[i].0 + boxes[i].2) / 2, y: (boxes[i].1 + boxes[i].3) / 2 };
        let page = craft.options().owner_page(center).expect("on a page");
        assert!(page < craft.options().pages as u64);
        assert_eq!(craft.islands()[i].pos, Point2 { x: boxes[i].0, y: boxes[i].1 });
    }
    assert_eq!(boxes[0], (10 * MM, 10 * MM, 30 * MM, 30 * MM));
    assert_eq!(boxes[9], (10 * MM, 30 * MM, 30 * MM, 50 * MM));
}

#[test]
fn flaps_show_on_the_chosen_side_only() {
    let (mut craft, unfolding) = craft_of(triangle());
    let svg = generate_svg_multipage(&craft, &unfolding, false).unwrap();
    assert_eq!(svg.matches("id=\"flap_").count(), 0);
    craft.edge_toggle_flap(0, papercraft::craft::EdgeToggleFlapAction::Next).unwrap();
    assert_eq!(craft.edge_status(0), EdgeStatus::Cut(FlapSide::A));
    let svg = generate_svg_multipage(&craft, &unfolding, false).unwrap();
    assert_eq!(svg.matches("id=\"flap_").count(), 1);
    assert!(svg.contains(
        "<polygon id=\"flap_0\" fill=\"#E0E0E0\" stroke=\"#000000\" stroke-width=\"0.1\" points=\"15,15 35,15 32,20 18,20 \"/>\n"
    ));
}

#[test]
fn svg_images_hold_the_pixels_of_the_textures() {
    let (craft, unfolding) = craft_of(dice());
    let svg = generate_svg_multipage(&craft, &unfolding, true).unwrap();
    let re_image = Regex::new(r#"<image id="tex_(\d+)" width="16" height="16" preserveAspectRatio="none" href="data:image/png;base64,([^"]+)" />"#).unwrap();
    let mut seen = 0;
    for cap in re_image.captures_iter(&svg) {
        let index: usize = cap[1].parse().unwrap();
        let png = base64::prelude::BASE64_STANDARD.decode(&cap[2]).expect("base64 text");
        assert!(png.starts_with(&[0x89, b'P', b'N', b'G']));
        let decoded = image::load_from_memory(&png).expect("a PNG file").to_rgba8();
        assert_eq!((decoded.width(), decoded.height()), (16, 16));
        assert_eq!(&decoded.into_raw(), craft.model().textures[index].pixels.as_ref().unwrap());
        seen += 1;
    }
    assert_eq!(seen, 6);
}

#[test]
fn pdf_images_hold_the_pixels_without_alpha() {
    let (craft, unfolding) = craft_of(dice());
    let document = generate_pdf(&craft, &unfolding, true, &stamp()).unwrap();
    for (index, image) in document.images.iter().enumerate() {
        let image = image.as_ref().unwrap();
        let mut rgb = Vec::new();
        flate2::read::ZlibDecoder::new(&image.data[..]).read_to_end(&mut rgb).expect("a zlib stream");
        let pixels = craft.model().textures[index].pixels.as_ref().unwrap();
        assert_eq!(rgb.len(), 768);
        assert_ne!(&image.data, &rgb);
        for p in 0..256 {
            assert_eq!(&rgb[3 * p..3 * p + 3], &pixels[4 * p..4 * p + 3]);
        }
    }
}

#[test]
fn a_texture_without_size_cannot_be_drawn() {
    let mut model = triangle();
    model.textures = vec![Texture { file_name: "empty".to_string(), width: 0, height: 0, pixels: Some(Vec::new()) }];
    let (craft, unfolding) = craft_of(model);
    assert_eq!(generate_svg_multipage(&craft, &unfolding, true), Err(ExportError::Texture));
    assert!(generate_svg_multipage(&craft, &unfolding, false).is_ok());
    let short = Unfolding { faces: Vec::new() };
    assert_eq!(generate_svg_multipage(&craft, &short, true), Err(ExportError::Layout));
    assert_eq!(generate_svg(&craft, &short, 0, false), Err(ExportError::Layout));
    assert!(matches!(generate_pdf(&craft, &short, false, &stamp()), Err(ExportError::Layout)));
}

#[test]
fn pdf_lines_and_texts_of_a_page() {
    let (craft, unfolding) = craft_of(triangle());
    let document = generate_pdf(&craft, &unfolding, false, &stamp()).unwrap();
    let page = &document.pages[0];
    assert_eq!(page.texts, vec![
        "Created with Papercraft Web. https://github.com/karma-works/papercraft-web".to_string(),
        "Page 1/1".to_string(),
    ]);
    assert_eq!(
        &page.ops[..],
        &[
            PageOp::FillColor { r: 1_000_000, g: 1_000_000, b: 1_000_000 },
            PageOp::MoveTo { x: 42_519_685, y: 799_370_079 },
            PageOp::LineTo { x: 99_212_598, y: 799_370_079 },
            PageOp::LineTo { x: 42_519_685, y: 742_677_165 },
            PageOp::Fill,
            PageOp::StrokeColor { r: 0, g: 0, b: 0 },
            PageOp::LineWidth { width: 500_000 },
            PageOp::Dash { dashed: false },
            PageOp::MoveTo { x: 42_519_685, y: 799_370_079 },
            PageOp::LineTo { x: 99_212_598, y: 799_370_079 },
            PageOp::LineTo { x: 42_519_685, y: 742_677_165 },
            PageOp::CloseStroke,
            PageOp::BeginText,
            PageOp::Font { size: 7_730_852 },
            PageOp::TextMatrix { x: 28_346_457, y: 19_842_520 },
            PageOp::ShowText { index: 0 },
            PageOp::Font { size: 7_730_852 },
            PageOp::TextMatrix { x: 536_005_726, y: 19_842_520 },
            PageOp::ShowText { index: 1 },
            PageOp::EndText,
        ]
    );
}

#[test]
fn pdf_folds_flaps_and_patterns() {
    let (mut craft, unfolding) = craft_of(dice());
    craft.edge_toggle_flap(0, papercraft::craft::EdgeToggleFlapAction::Next).unwrap();
    let document = generate_pdf(&craft, &unfolding, true, &stamp()).unwrap();
    let ops = &document.pages[0].ops;
    assert_eq!(
        &ops[6..15],
        &[
            PageOp::Save,
            PageOp::Concat {
                a: 37_795_275,
                b: 0,
                c: 0,
                d: -37_795_275,
                e: 33_070_867,
                f: 808_818_897,
            },
            PageOp::PatternSpace,
            PageOp::Pattern { material: 0 },
            PageOp::MoveTo { x: 250_000, y: 250_000 },
            PageOp::LineTo { x: 1_750_000, y: 250_000 },
            PageOp::LineTo { x: 1_750_000, y: 1_750_000 },
            PageOp::Fill,
            PageOp::Restore,
        ]
    );
    let flap = ops.iter().position(|op| *op == PageOp::FillColor { r: 880_000, g: 880_000, b: 880_000 }).unwrap();
    assert_eq!(
        &ops[flap..flap + 12],
        &[
            PageOp::FillColor { r: 880_000, g: 880_000, b: 880_000 },
            PageOp::MoveTo { x: 42_519_685, y: 799_370_079 },
            PageOp::LineTo { x: 99_212_598, y: 799_370_079 },
            PageOp::LineTo { x: 90_708_661, y: 785_196_850 },
            PageOp::LineTo { x: 51_023_622, y: 785_196_850 },
            PageOp::Fill,
            PageOp::LineWidth { width: 200_000 },
            PageOp::MoveTo { x: 42_519_685, y: 799_370_079 },
            PageOp::LineTo { x: 51_023_622, y: 785_196_850 },
            PageOp::LineTo { x: 90_708_661, y: 785_196_850 },
            PageOp::LineTo { x: 99_212_598, y: 799_370_079 },
            PageOp::Stroke,
        ]
    );
    assert_eq!(ops.iter().filter(|op| **op == PageOp::CloseStroke).count(), 6);
    assert_eq!(ops.iter().filter(|op| matches!(op, PageOp::Dash { dashed: true })).count(), 0);
}

#[test]
fn the_dash_is_reset_after_the_flaps_of_an_island() {
    let (mut craft, unfolding) = craft_of(sphere());
    let fold = craft.model().edges.iter().position(|e| e.f0 == 0 && e.f1 == Some(2)).unwrap();
    let flap = craft.model().edges.iter().position(|e| e.f0 == 0 && e.f1 == Some(4)).unwrap();
    craft.edge_join(fold, None).unwrap();
    craft.edge_toggle_flap(flap, papercraft::craft::EdgeToggleFlapAction::Next).unwrap();
    let document = generate_pdf(&craft, &unfolding, false, &stamp()).unwrap();
    let ops = &document.pages[0].ops;
    let start = ops.iter().position(|op| *op == PageOp::LineWidth { width: 500_000 }).unwrap() + 1;
    assert!(matches!(ops[start], PageOp::Dash { .. }));
    assert!(matches!(ops[start + 1], PageOp::MoveTo { .. }));
    assert!(matches!(ops[start + 2], PageOp::LineTo { .. }));
    assert_eq!(ops[start + 3], PageOp::Stroke);
    assert_eq!(ops[start + 4], PageOp::FillColor { r: 880_000, g: 880_000, b: 880_000 });
    assert_eq!(ops[start + 10], PageOp::LineWidth { width: 200_000 });
    assert_eq!(ops[start + 15], PageOp::Stroke);
    assert_eq!(ops[start + 16], PageOp::Dash { dashed: false });
    assert!(matches!(ops[start + 17], PageOp::MoveTo { .. }));
    let close = ops.iter().position(|op| *op == PageOp::CloseStroke).unwrap();
    assert!(ops[start + 17..close].iter().all(|op| matches!(op, PageOp::MoveTo { .. } | PageOp::LineTo { .. })));
    assert_eq!(ops[start + 17..=close].len(), 6 + 1);
    let islands = 5;
    assert_eq!(ops.iter().filter(|op| **op == PageOp::Dash { dashed: false }).count() >= islands, true);
    assert_eq!(ops.iter().filter(|op| **op == PageOp::CloseStroke).count(), islands);
}

#[test]
fn a_document_describes_its_font_images_and_patterns() {
    let (craft, unfolding) = craft_of(dice());
    let document = generate_pdf(&craft, &unfolding, true, &stamp()).unwrap();
    assert_eq!(document.version, "1.4");
    assert_eq!(
        (document.font.key.as_str(), document.font.subtype.as_str()),
        ("F1", "Type1")
    );
    assert_eq!(
        (document.font.base_font.as_str(), document.font.encoding.as_str()),
        ("Helvetica", "WinAnsiEncoding")
    );
    assert!(document.names_patterns);
    assert_eq!(document.patterns.len(), 6);
    for (k, (image, pattern)) in document.images.iter().zip(document.patterns.iter()).enumerate() {
        let image = image.as_ref().unwrap();
        let pattern = pattern.as_ref().unwrap();
        assert_eq!((image.color_space.as_str(), image.bits_per_component), ("DeviceRGB", 8));
        assert_eq!((image.subtype.as_str(), image.filter.as_str()), ("Image", "FlateDecode"));
        assert_eq!(pattern.key, format!("Pat{}", k));
        assert_eq!(pattern.key, pattern_key(k));
        assert_eq!((pattern.pattern_type, pattern.paint_type, pattern.tiling_type), (1, 1, 1));
        assert_eq!((pattern.bbox, pattern.x_step, pattern.y_step), ((0, 0, 1, 1), 1, 1));
        assert_eq!((pattern.image_key.as_str(), pattern.content.as_str()), ("Im", "q /Im Do Q"));
        assert!(document.pages[0].ops.contains(&PageOp::PatternSpace));
    }
    assert_eq!(pattern_key(12), "Pat12");
    let plain = generate_pdf(&craft, &unfolding, false, &stamp()).unwrap();
    assert!(!plain.names_patterns);
    assert!(plain.patterns.is_empty());
    let (bare, laid) = craft_of(triangle());
    let held = generate_pdf(&bare, &laid, true, &stamp()).unwrap();
    assert!(held.names_patterns);
    assert_eq!(held.patterns.iter().filter(|p| p.is_some()).count(), 0);
}

#[test]
fn cube_with_five_folds_is_one_island() {
    let model = sphere();
    let pairs = [(0, 2), (0, 3), (0, 4), (0, 5), (2, 1)];
    let tree: Vec<usize> = pairs
        .iter()
        .map(|(f, g)| {
            model
                .edges
                .iter()
                .position(|e| (e.f0 == *f && e.f1 == Some(*g)) || (e.f0 == *g && e.f1 == Some(*f)))
                .unwrap()
        })
        .collect();
    let (mut craft, unfolding) = craft_of(model);
    for e in &tree {
        craft.edge_join(*e, None).unwrap();
    }
    assert_eq!(craft.num_islands(), 1);
    let joined = (0..12).filter(|e| craft.edge_status(*e) == EdgeStatus::Joined).count();
    assert_eq!(joined, 5);
    assert_eq!(craft.island_perimeter(craft.islands()[0].key).len(), 14);
    let svg = generate_svg_multipage(&craft, &unfolding, false).unwrap();
    assert_eq!(svg.matches("<line id=\"mountain_").count() + svg.matches("<line id=\"valley_").count(), 5);
    assert_eq!(svg.matches("<path id=\"cut_").count(), 1);
    assert_eq!(svg.matches("<polygon id=\"face_").count(), 6);
    let path = svg.split("<path id=\"cut_0\"").nth(1).unwrap();
    let path = &path[..path.find("Z\"/>").unwrap()];
    assert_eq!(path.matches("L ").count(), 13);
    let document = generate_pdf(&craft, &unfolding, false, &stamp()).unwrap();
    let ops = &document.pages[0].ops;
    assert_eq!(ops.iter().filter(|op| **op == PageOp::Stroke).count(), 5);
    assert_eq!(ops.iter().filter(|op| **op == PageOp::CloseStroke).count(), 1);
}

#[test]
fn patterns_are_named_by_their_faces() {
    let (craft, mut unfolding) = craft_of(dice());
    let mut options = a4();
    options.pages = 2;
    let mut craft = craft;
    craft.replace_options(options).unwrap();
    for f in 3..6 {
        for p in unfolding.faces[f].iter_mut() {
            p.x += 220 * MM - 90 * MM;
        }
    }
    let svg = generate_svg_multipage(&craft, &unfolding, true).unwrap();
    let re_pattern = Regex::new(r#"<pattern id="(pat_face_\d+_\d+)""#).unwrap();
    let mut names: Vec<String> = re_pattern.captures_iter(&svg).map(|c| c[1].to_string()).collect();
    assert_eq!(names.len(), 12);
    assert!(names.contains(&"pat_face_5_1".to_string()));
    assert!(names.contains(&"pat_face_0_0".to_string()));
    names.sort();
    names.dedup();
    assert_eq!(names.len(), 12);
    let second = svg.split("id=\"page_2\"").nth(1).unwrap();
    assert!(second.contains("<pattern id=\"pat_face_3_0\""));
    assert!(second.contains("fill=\"url(#pat_face_3_0)\""));
    assert!(second.contains("<use href=\"#tex_3\""));
    assert!(!second.contains("pat_face_0_0"));
}
