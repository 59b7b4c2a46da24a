use papercraft::action::{export_format, perform_action, Action, ExportFormat, Followup};
use papercraft::codec::strip_alpha;
use papercraft::context::{GlobalContext, PapercraftState};
use papercraft::craft::{CraftError, EdgeToggleFlapAction, Papercraft};
use papercraft::fixed::{floor_div, mm_to_pt, push_decimal, push_digits, round_div};
use papercraft::flap::{flap_polygon, integer_sqrt};
use papercraft::geometry::{Point2, Rect};
use papercraft::graph::{EdgeStatus, FlapSide};
use papercraft::layout::{is_coherent, island_bounding_box, Unfolding};
use papercraft::model::{has_simple_faces, Edge, Face, Model, Point3, Texture, Vertex};
use papercraft::options::{Color, EdgeIdPosition, FlapStyle, FoldStyle, PaperOptions};
use papercraft::pack::{pack_slots, PackItem, Slot};
use papercraft::pages::export_options;
use papercraft::pdf::{pdf_date, PdfDate};
use papercraft::perimeter::PerimeterEdge;
use papercraft::text::{collect_texts, html_escape, signature, TextAlign};
use papercraft::texture::{
    calc_pdf_texture_matrix_triangle, calc_svg_texture_matrix_triangle, calc_texture_matrix,
    triangulate_polygon, TextureMatrix,
};
use papercraft::traverse::Link;
use papercraft::types::renderable;

const MM: i64 = 1_000_000;

fn options() -> PaperOptions {
    let black = Color { r: 0, g: 0, b: 0, a: 1_000_000 };
    PaperOptions {
        page_size: (210 * MM, 297 * MM),
        margin: (10 * MM, 10 * MM, 10 * MM, 10 * MM),
        pages: 4,
        page_cols: 2,
        scale: MM,
        flap_style: FlapStyle::Textured,
        flap_width: 5 * MM,
        fold_style: FoldStyle::Full,
        edge_id_position: EdgeIdPosition::Outside,
        edge_id_font_size: 8 * MM,
        show_page_number: true,
        show_self_promotion: false,
        paper_color: Color { r: 1_000_000, g: 500_000, b: 0, a: 1_000_000 },
        cut_line_color: black,
        fold_line_color: black,
        tab_line_color: black,
    }
}

fn vertex(x: i64, y: i64, z: i64) -> Vertex {
    Vertex {
        pos: Point3 { x: x * MM, y: y * MM, z: z * MM },
        normal: Point3 { x: 0, y: 0, z: MM },
        uv: Point2 { x: 0, y: 0 },
    }
}

fn mesh(vertices: Vec<Vertex>, corners: Vec<Vec<usize>>) -> Model {
    let mut edges: Vec<Edge> = Vec::new();
    let mut faces: Vec<Face> = Vec::new();
    for (f, list) in corners.iter().enumerate() {
        let mut listed = Vec::new();
        for i in 0..list.len() {
            let (a, b) = (list[i], list[(i + 1) % list.len()]);
            match edges.iter().position(|e| e.v0 == b && e.v1 == a && e.f1.is_none()) {
                Some(e) => {
                    edges[e].f1 = Some(f);
                    listed.push(e);
                }
                None => {
                    edges.push(Edge { f0: f, f1: None, v0: a, v1: b, angle: if f % 2 == 0 { 1 } else { -1 } });
                    listed.push(edges.len() - 1);
                }
            }
        }
        faces.push(Face { vertices: list.clone(), edges: listed, material: 0 });
    }
    Model { vertices, edges, faces, textures: Vec::new() }
}

fn cube() -> Model {
    let s = 20;
    let vertices = (0..8usize)
        .map(|k| vertex(if k & 1 != 0 { s } else { 0 }, if k & 2 != 0 { s } else { 0 }, if k & 4 != 0 { s } else { 0 }))
        .collect();
    mesh(
        vertices,
        vec![
            vec![0, 2, 3, 1],
            vec![4, 5, 7, 6],
            vec![0, 1, 5, 4],
            vec![2, 6, 7, 3],
            vec![0, 4, 6, 2],
            vec![1, 3, 7, 5],
        ],
    )
}

/// Two triangles that share the edge between the vertices 1 and 2.
fn kite() -> Model {
    mesh(
        vec![vertex(0, 0, 0), vertex(10, 0, 0), vertex(0, 10, 0), vertex(10, 10, 0)],
        vec![vec![0, 1, 2], vec![1, 3, 2]],
    )
}

fn squares(model: &Model) -> Unfolding {
    let faces = model
        .faces
        .iter()
        .enumerate()
        .map(|(f, face)| {
            let left = 15 * MM + 30 * MM * f as i64;
            let corners: Vec<(i64, i64)> = match face.vertices.len() {
                3 => vec![(0, 0), (20, 0), (0, 20)],
                _ => vec![(0, 0), (20, 0), (20, 20), (0, 20)],
            };
            corners.iter().map(|(x, y)| Point2 { x: left + x * MM, y: 15 * MM + y * MM }).collect()
        })
        .collect();
    Unfolding { faces }
}

/// The edge between two faces of a mesh.
fn edge_between(model: &Model, f: usize, g: usize) -> usize {
    model
        .edges
        .iter()
        .position(|e| (e.f0 == f && e.f1 == Some(g)) || (e.f0 == g && e.f1 == Some(f)))
        .expect("the faces share an edge")
}

fn keys(craft: &Papercraft) -> Vec<u64> {
    (0..craft.model().faces.len()).map(|f| craft.island_of_face(f)).collect()
}

#[test]
fn fan_triangulation_of_polygons() {
    assert_eq!(triangulate_polygon(0), Vec::<[usize; 3]>::new());
    assert_eq!(triangulate_polygon(2), Vec::<[usize; 3]>::new());
    assert_eq!(triangulate_polygon(3), vec![[0, 1, 2]]);
    assert_eq!(triangulate_polygon(5), vec![[0, 1, 2], [0, 2, 3], [0, 3, 4]]);
}

#[test]
fn markup_is_escaped() {
    assert_eq!(html_escape("a<b>&\"c\""), "a&lt;b&gt;&amp;&quot;c&quot;");
    assert_eq!(html_escape(""), "");
    assert_eq!(html_escape("&amp;"), "&amp;amp;");
    assert_eq!(html_escape("plain text \u{e9}"), "plain text \u{e9}");
    assert_eq!(signature(), "Created with Papercraft Web. https://github.com/karma-works/papercraft-web");
}

#[test]
fn numbers_are_written_in_decimal_notation() {
    let cases: [(i128, &str); 9] = [
        (0, "0"),
        (1_000_000, "1"),
        (1_500_000, "1.5"),
        (-1_500_000, "-1.5"),
        (1, "0.000001"),
        (-1, "-0.000001"),
        (12_345_678, "12.345678"),
        (120, "0.00012"),
        (210_000_000, "210"),
    ];
    for (value, text) in cases {
        let mut s = String::from("x=");
        push_decimal(&mut s, value);
        assert_eq!(s, format!("x={}", text));
    }
    let mut s = String::new();
    push_digits(&mut s, 42);
    push_digits(&mut s, 0);
    push_digits(&mut s, u128::MAX);
    assert_eq!(s, "420340282366920938463463374607431768211455");
}

#[test]
fn quotients_are_rounded_as_stated() {
    assert_eq!(floor_div(7, 2), 3);
    assert_eq!(floor_div(-7, 2), -4);
    assert_eq!(floor_div(-8, 2), -4);
    assert_eq!(round_div(7, 2), 4);
    assert_eq!(round_div(-7, 2), -3);
    assert_eq!(round_div(5, 3), 2);
    assert_eq!(round_div(-5, 3), -2);
    assert_eq!(mm_to_pt(25_400_000), 72_000_000);
    assert_eq!(mm_to_pt(210 * MM), 595_275_591);
    assert_eq!(mm_to_pt(-25_400_000), -72_000_000);
}

#[test]
fn colours_in_hexadecimal_notation() {
    assert_eq!(Color { r: 1_000_000, g: 500_000, b: 0, a: 0 }.to_hex(), "#FF8000");
    assert_eq!(Color { r: 2_000_000, g: 1, b: 999_999, a: 0 }.to_hex(), "#FF00FF");
    assert_eq!(Color { r: 878_431, g: 40_000, b: 3_921, a: 0 }.to_hex(), "#E00A01");
}

#[test]
fn pages_lie_in_a_grid_with_separators() {
    let o = options();
    assert!(o.is_valid());
    assert_eq!(o.page_position(0), Point2 { x: 0, y: 0 });
    assert_eq!(o.page_position(1), Point2 { x: 220 * MM, y: 0 });
    assert_eq!(o.page_position(2), Point2 { x: 0, y: 307 * MM });
    assert_eq!(o.page_position(3), Point2 { x: 220 * MM, y: 307 * MM });
    assert_eq!(o.canvas_size(), Point2 { x: 430 * MM, y: 604 * MM });
    assert_eq!(o.row_count(), 2);
    let single = PaperOptions { page_cols: 0, pages: 3, ..o };
    assert_eq!(single.columns(), 1);
    assert_eq!(single.page_position(2), Point2 { x: 0, y: 614 * MM });
    assert_eq!(single.canvas_size(), Point2 { x: 210 * MM, y: 911 * MM });
}

#[test]
fn a_point_belongs_to_the_page_of_its_row_and_column() {
    let o = options();
    assert_eq!(o.owner_page(Point2 { x: 5 * MM, y: 5 * MM }), Some(0));
    assert_eq!(o.owner_page(Point2 { x: 225 * MM, y: 5 * MM }), Some(1));
    assert_eq!(o.owner_page(Point2 { x: 5 * MM, y: 310 * MM }), Some(2));
    assert_eq!(o.owner_page(Point2 { x: 439 * MM, y: 613 * MM }), Some(3));
    assert_eq!(o.owner_page(Point2 { x: 215 * MM, y: 0 }), Some(0));
    assert_eq!(o.owner_page(Point2 { x: 440 * MM, y: 0 }), None);
    assert_eq!(o.owner_page(Point2 { x: -1, y: 0 }), None);
    assert_eq!(o.owner_page(Point2 { x: 0, y: -1 }), None);
    let po = o.global_to_page(Point2 { x: 225 * MM, y: -3 * MM });
    assert_eq!((po.row, po.col), (-1, 1));
    assert_eq!(po.offset, Point2 { x: 5 * MM, y: 304 * MM });
    assert_eq!(o.is_in_page(1, Point2 { x: 225 * MM, y: 5 * MM }), (true, Point2 { x: 5 * MM, y: 5 * MM }));
    assert_eq!(o.is_in_page(0, Point2 { x: 225 * MM, y: 5 * MM }), (false, Point2 { x: 225 * MM, y: 5 * MM }));
}

#[test]
fn invalid_options_are_told_apart() {
    let o = options();
    assert!(!PaperOptions { page_size: (0, 297 * MM), ..o }.is_valid());
    assert!(!PaperOptions { page_size: (210 * MM, 2_000_000_001), ..o }.is_valid());
    assert!(!PaperOptions { margin: (-1, 0, 0, 0), ..o }.is_valid());
    assert!(!PaperOptions { flap_width: -1, ..o }.is_valid());
    assert!(PaperOptions { page_size: (1, 2_000_000_000), ..o }.is_valid());
}

#[test]
fn the_solver_maps_each_corner_to_its_page_point() {
    let uvs = [Point2 { x: 0, y: 0 }, Point2 { x: MM, y: 0 }, Point2 { x: 0, y: MM }];
    let pts = [Point2 { x: 10 * MM, y: 20 * MM }, Point2 { x: 13 * MM, y: 24 * MM }, Point2 { x: 6 * MM, y: 23 * MM }];
    let m = calc_texture_matrix(uvs, pts).unwrap();
    assert_eq!(m, TextureMatrix { a: 3 * MM as i128, b: 4 * MM as i128, c: -4 * MM as i128, d: 3 * MM as i128, e: 10 * MM as i128, f: 20 * MM as i128 });
    assert_eq!(calc_pdf_texture_matrix_triangle(uvs, pts), Some(m));
    let thirds = [Point2 { x: 0, y: 0 }, Point2 { x: 3 * MM, y: 0 }, Point2 { x: 0, y: 3 * MM }];
    let unit = [Point2 { x: 0, y: 0 }, Point2 { x: MM, y: 0 }, Point2 { x: 0, y: MM }];
    let m = calc_texture_matrix(thirds, unit).unwrap();
    assert_eq!((m.a, m.d), (333_333, 333_333));
    for i in 0..3 {
        let x = m.a * thirds[i].x as i128 + m.c * thirds[i].y as i128 + 1_000_000 * m.e;
        let bound = thirds[i].x.abs() as i128 + thirds[i].y.abs() as i128 + 1_000_000;
        assert!((2 * (x - 1_000_000 * unit[i].x as i128)).abs() <= bound);
    }
}

#[test]
fn the_solver_refuses_degenerate_and_distant_triangles() {
    let line = [Point2 { x: 0, y: 0 }, Point2 { x: MM, y: MM }, Point2 { x: 2 * MM, y: 2 * MM }];
    let pts = [Point2 { x: 0, y: 0 }, Point2 { x: MM, y: 0 }, Point2 { x: 0, y: MM }];
    assert_eq!(calc_texture_matrix(line, pts), None);
    assert_eq!(calc_texture_matrix([pts[0], pts[0], pts[1]], pts), None);
    let far = [Point2 { x: 100_000_000_001, y: 0 }, pts[1], pts[2]];
    assert_eq!(calc_texture_matrix(far, pts), None);
    let distant = [Point2 { x: 200_000_000_001, y: 0 }, pts[1], pts[2]];
    assert_eq!(calc_texture_matrix(pts, distant), None);
    assert!(calc_texture_matrix(pts, [Point2 { x: 200_000_000_000, y: 0 }, pts[1], pts[2]]).is_some());
}

#[test]
fn the_matrix_of_a_pattern_is_in_pixels() {
    let uvs = [Point2 { x: 0, y: MM }, Point2 { x: MM, y: MM }, Point2 { x: 0, y: 0 }];
    let pts = [Point2 { x: 0, y: 0 }, Point2 { x: 8 * MM, y: 0 }, Point2 { x: 0, y: 4 * MM }];
    let m = calc_svg_texture_matrix_triangle(uvs, pts, 4, 2).unwrap();
    assert_eq!(m, TextureMatrix { a: 2 * MM as i128, b: 0, c: 0, d: 2 * MM as i128, e: 0, f: 0 });
    assert_eq!(calc_svg_texture_matrix_triangle(uvs, pts, 0, 2), None);
    assert_eq!(calc_svg_texture_matrix_triangle(uvs, pts, 4, 0), None);
    let turned = [Point2 { x: 0, y: 0 }, Point2 { x: 0, y: 8 * MM }, Point2 { x: -4 * MM, y: 0 }];
    let m = calc_svg_texture_matrix_triangle(uvs, turned, 4, 2).unwrap();
    assert_eq!(m, TextureMatrix { a: 0, b: 2 * MM as i128, c: -2 * MM as i128, d: 0, e: 0, f: 0 });
    let corners = [Point2 { x: 0, y: 0 }, Point2 { x: MM, y: 0 }, Point2 { x: 0, y: MM }];
    let quarter = [Point2 { x: 10 * MM, y: 0 }, Point2 { x: 10 * MM, y: 10 * MM }, Point2 { x: 0, y: 0 }];
    let m = calc_svg_texture_matrix_triangle(corners, quarter, 1000, 1000).unwrap();
    assert_eq!(m, TextureMatrix { a: 0, b: 10_000, c: 10_000, d: 0, e: 0, f: 0 });
    for (pixel, point) in [((0, 1000), (10, 0)), ((1000, 1000), (10, 10)), ((0, 0), (0, 0))] {
        let x = (m.a * pixel.0 + m.c * pixel.1) as f64 / 1e6 + m.e as f64 / 1e6;
        let y = (m.b * pixel.0 + m.d * pixel.1) as f64 / 1e6 + m.f as f64 / 1e6;
        assert!((x - point.0 as f64).abs() < 0.01 && (y - point.1 as f64).abs() < 0.01);
    }
    let wide = [Point2 { x: 0, y: MM }, Point2 { x: 30_000 * MM, y: MM }, Point2 { x: 0, y: 0 }];
    assert_eq!(calc_svg_texture_matrix_triangle(wide, pts, 4, 2), None);
}

#[test]
fn integer_square_roots() {
    assert_eq!(integer_sqrt(0), 0);
    assert_eq!(integer_sqrt(1), 1);
    assert_eq!(integer_sqrt(24), 4);
    assert_eq!(integer_sqrt(25), 5);
    assert_eq!(integer_sqrt(1_000_000_000_000_000_000), 1_000_000_000);
    assert_eq!(integer_sqrt(0xffff_ffff_ffff_ffff_ffff_ffff), 281_474_976_710_655);
}

#[test]
fn a_flap_is_a_trapezium_beside_its_edge() {
    let p0 = Point2 { x: 0, y: 0 };
    let p1 = Point2 { x: 20 * MM, y: 0 };
    assert_eq!(
        flap_polygon(p0, p1, 5 * MM),
        [p0, p1, Point2 { x: 17 * MM, y: 5 * MM }, Point2 { x: 3 * MM, y: 5 * MM }]
    );
    assert_eq!(
        flap_polygon(p0, p1, 50 * MM),
        [p0, p1, Point2 { x: 17 * MM, y: 8 * MM }, Point2 { x: 3 * MM, y: 8 * MM }]
    );
    let up = Point2 { x: 0, y: 10 * MM };
    assert_eq!(
        flap_polygon(p0, up, 2 * MM),
        [p0, up, Point2 { x: -2 * MM, y: 8_500_000 }, Point2 { x: -2 * MM, y: 1_500_000 }]
    );
    assert_eq!(flap_polygon(p0, p0, 5 * MM), [p0, p0, p0, p0]);
    let slanted = flap_polygon(p0, Point2 { x: 30 * MM, y: 40 * MM }, 5 * MM);
    assert_eq!(slanted[2], Point2 { x: 30 * MM - 4 * MM - 4_500_000, y: 40 * MM + 3 * MM - 6 * MM });
    assert_eq!(slanted[3], Point2 { x: -4 * MM + 4_500_000, y: 3 * MM + 6 * MM });
}

#[test]
fn flaps_show_on_their_side() {
    assert!(!FlapSide::Neither.flap_visible(true));
    assert!(!FlapSide::Neither.flap_visible(false));
    assert!(FlapSide::A.flap_visible(true));
    assert!(!FlapSide::A.flap_visible(false));
    assert!(!FlapSide::B.flap_visible(true));
    assert!(FlapSide::B.flap_visible(false));
    assert!(FlapSide::Both.flap_visible(true));
    assert!(FlapSide::Both.flap_visible(false));
}

#[test]
fn a_mesh_is_well_formed_or_refused() {
    let model = cube();
    assert!(model.is_valid());
    assert_eq!(model.edges.len(), 12);
    assert!(model.edges.iter().all(|e| e.f1.is_some()));
    let face = &model.faces[0];
    let e = face.edges[1];
    assert_eq!(face.find_edge(e), Some(1));
    assert_eq!(face.vertices_of_edge(e), Some((2, 3)));
    assert_eq!(face.vertices_of_edge(face.edges[3]), Some((1, 0)));
    assert_eq!(model.faces[1].vertices_of_edge(model.faces[0].edges[0]), None);
    let edge = model.edges[e];
    assert_eq!(edge.faces(), (edge.f0, edge.f1));
    assert_eq!(edge.face_by_sign(true), Some(edge.f0));
    assert_eq!(edge.face_by_sign(false), edge.f1);
    assert_eq!(edge.other_face(edge.f0), edge.f1);
    assert_eq!(edge.other_face(edge.f1.unwrap()), Some(edge.f0));
    assert_eq!(edge.other_face(1), None);

    let mut broken = cube();
    broken.faces[0].vertices.swap(0, 1);
    assert!(!broken.is_valid());
    let mut broken = cube();
    broken.faces[0].edges.pop();
    assert!(!broken.is_valid());
    let mut broken = cube();
    broken.edges[3].f0 = 17;
    assert!(!broken.is_valid());
    let mut broken = cube();
    broken.edges[3].f1 = Some(broken.edges[3].f0);
    assert!(!broken.is_valid());
    let mut broken = cube();
    broken.faces[2].vertices.truncate(2);
    broken.faces[2].edges.truncate(2);
    assert!(!broken.is_valid());
    let mut broken = cube();
    broken.textures.push(Texture { file_name: String::new(), width: 2, height: 2, pixels: Some(vec![0; 15]) });
    assert!(!broken.is_valid());
    assert!(Papercraft::from_model(broken, options()).is_none());
    assert!(Papercraft::from_model(cube(), PaperOptions { page_size: (0, 0), ..options() }).is_none());
}

#[test]
fn a_new_papercraft_has_an_island_for_each_face() {
    let craft = Papercraft::from_model(cube(), options()).unwrap();
    assert_eq!(craft.num_islands(), 6);
    assert_eq!(keys(&craft), vec![0, 1, 2, 3, 4, 5]);
    for (i, island) in craft.islands().iter().enumerate() {
        assert_eq!(island.key, i as u64);
        assert_eq!(island.root, i);
        assert_eq!(island.pos, Point2 { x: 0, y: 0 });
        assert_eq!(island.rot, 0);
        assert_eq!(island.name, i.to_string());
    }
    for e in 0..12 {
        assert_eq!(craft.edge_status(e), EdgeStatus::Cut(FlapSide::Neither));
    }
    assert_eq!(craft.island_index(3), Some(3));
    assert_eq!(craft.island_index(6), None);
    assert!(craft.island_by_key(6).is_none());
    assert_eq!(craft.island_by_key(4).unwrap().root, 4);
    let state = PapercraftState { project: craft };
    assert_eq!(state.papercraft().num_islands(), 6);
    let context = GlobalContext { data: state, last_export: String::new(), last_export_filter: None, font_text_line_scale: MM };
    assert_eq!(context.title(true), "Papercraft Web");
}

#[test]
fn joining_merges_islands_and_the_smaller_key_survives() {
    let model = cube();
    let e01 = edge_between(&model, 0, 2);
    let mut craft = Papercraft::from_model(model, options()).unwrap();
    assert_eq!(craft.edge_join(e01, None), Ok(()));
    assert_eq!(craft.edge_status(e01), EdgeStatus::Joined);
    assert_eq!(craft.num_islands(), 5);
    assert_eq!(keys(&craft), vec![0, 1, 0, 3, 4, 5]);
    assert!(craft.island_by_key(2).is_none());
    assert_eq!(craft.island_by_key(0).unwrap().root, 0);
    assert_eq!(craft.edge_join(e01, None), Err(CraftError::InvalidOperation));
    assert_eq!(craft.edge_join(99, None), Err(CraftError::UnknownKey));
    assert_eq!(craft.edge_join(0, Some(6)), Err(CraftError::UnknownKey));
    assert_eq!(keys(&craft), vec![0, 1, 0, 3, 4, 5]);
}

#[test]
fn joining_prefers_the_island_of_the_priority_face() {
    let model = cube();
    let e = edge_between(&model, 0, 2);
    let f = edge_between(&model, 2, 1);
    let mut craft = Papercraft::from_model(model, options()).unwrap();
    assert_eq!(craft.edge_join(e, Some(2)), Ok(()));
    assert_eq!(keys(&craft), vec![2, 1, 2, 3, 4, 5]);
    assert_eq!(craft.edge_join(f, Some(5)), Ok(()));
    assert_eq!(keys(&craft), vec![1, 1, 1, 3, 4, 5]);
    assert_eq!(craft.islands().iter().map(|i| i.key).collect::<Vec<_>>(), vec![1, 3, 4, 5]);
}

#[test]
fn an_edge_with_one_face_cannot_be_joined() {
    let model = kite();
    let border = model.edges.iter().position(|e| e.f1.is_none()).unwrap();
    let mut craft = Papercraft::from_model(model, options()).unwrap();
    assert_eq!(craft.edge_join(border, None), Err(CraftError::InvalidOperation));
    assert_eq!(craft.num_islands(), 2);
}

#[test]
fn cut_then_join_brings_the_islands_back() {
    let model = cube();
    let tree: Vec<usize> = [(0, 2), (0, 3), (0, 4), (0, 5), (2, 1)].iter().map(|(f, g)| edge_between(&model, *f, *g)).collect();
    let mut craft = Papercraft::from_model(model, options()).unwrap();
    for e in &tree {
        assert_eq!(craft.edge_join(*e, None), Ok(()));
    }
    assert_eq!(craft.num_islands(), 1);
    assert_eq!(keys(&craft), vec![0; 6]);

    let e = tree[4];
    let a = craft.model().edges[e].f0;
    let b = craft.model().edges[e].f1.unwrap();
    let key_a = craft.island_of_face(a);
    assert_eq!(craft.edge_cut(e, None), Ok(Some(6)));
    assert_eq!(craft.num_islands(), 2);
    assert_eq!(craft.edge_status(e), EdgeStatus::Cut(FlapSide::Neither));
    assert_eq!(craft.island_of_face(a), 6);
    assert_eq!(craft.island_of_face(b), 0);
    let fresh = craft.island_by_key(6).unwrap();
    assert_eq!((fresh.root, fresh.name.as_str()), (a, "6"));
    assert_ne!(key_a, 6);

    assert_eq!(craft.edge_join(e, Some(a)), Ok(()));
    assert_eq!(craft.num_islands(), 1);
    assert_eq!(keys(&craft), vec![6; 6]);
    assert_eq!(craft.islands()[0].key, craft.island_of_face(a));
}

#[test]
fn cutting_keeps_an_island_whole_where_another_fold_holds_it() {
    let model = cube();
    let ring: Vec<usize> = [(2, 5), (5, 3), (3, 4), (4, 2)].iter().map(|(f, g)| edge_between(&model, *f, *g)).collect();
    let mut craft = Papercraft::from_model(model, options()).unwrap();
    for e in &ring {
        craft.edge_join(*e, None).unwrap();
    }
    assert_eq!(keys(&craft), vec![0, 1, 2, 2, 2, 2]);
    assert_eq!(craft.edge_cut(ring[0], None), Ok(None));
    assert_eq!(keys(&craft), vec![0, 1, 2, 2, 2, 2]);
    assert_eq!(craft.num_islands(), 3);
    assert_eq!(craft.edge_cut(ring[2], Some(-1)), Ok(Some(6)));
    assert_eq!(craft.num_islands(), 4);
    assert_eq!(craft.edge_cut(99, None), Err(CraftError::UnknownKey));
    assert_eq!(craft.edge_cut(0, None), Ok(None));
}

#[test]
fn cutting_moves_the_root_to_the_side_that_stays() {
    let model = kite();
    let e = edge_between(&model, 0, 1);
    let mut craft = Papercraft::from_model(model, options()).unwrap();
    craft.edge_join(e, None).unwrap();
    assert_eq!(craft.islands()[0].root, 0);
    assert_eq!(craft.edge_cut(e, None), Ok(Some(2)));
    assert_eq!(keys(&craft), vec![2, 0]);
    assert_eq!(craft.island_by_key(0).unwrap().root, 1);
    assert_eq!(craft.island_by_key(2).unwrap().root, 0);
}

#[test]
fn flaps_are_toggled_on_cut_edges_only() {
    let model = kite();
    let e = edge_between(&model, 0, 1);
    let border = model.edges.iter().position(|e| e.f1.is_none()).unwrap();
    let mut craft = Papercraft::from_model(model, options()).unwrap();
    let sides = |craft: &mut Papercraft, edge: usize, action: EdgeToggleFlapAction| {
        craft.edge_toggle_flap(edge, action).unwrap();
        craft.edge_status(edge)
    };
    assert_eq!(sides(&mut craft, e, EdgeToggleFlapAction::Next), EdgeStatus::Cut(FlapSide::A));
    assert_eq!(sides(&mut craft, e, EdgeToggleFlapAction::Toggle), EdgeStatus::Cut(FlapSide::B));
    assert_eq!(sides(&mut craft, e, EdgeToggleFlapAction::Next), EdgeStatus::Cut(FlapSide::Both));
    assert_eq!(sides(&mut craft, e, EdgeToggleFlapAction::Toggle), EdgeStatus::Cut(FlapSide::Both));
    assert_eq!(sides(&mut craft, e, EdgeToggleFlapAction::Next), EdgeStatus::Cut(FlapSide::Neither));
    assert_eq!(sides(&mut craft, e, EdgeToggleFlapAction::Toggle), EdgeStatus::Cut(FlapSide::Neither));
    assert_eq!(sides(&mut craft, border, EdgeToggleFlapAction::Next), EdgeStatus::Cut(FlapSide::A));
    assert_eq!(sides(&mut craft, border, EdgeToggleFlapAction::Toggle), EdgeStatus::Cut(FlapSide::A));
    assert_eq!(sides(&mut craft, border, EdgeToggleFlapAction::Next), EdgeStatus::Cut(FlapSide::Neither));
    assert_eq!(sides(&mut craft, e, EdgeToggleFlapAction::Next), EdgeStatus::Cut(FlapSide::A));
    assert_eq!(sides(&mut craft, e, EdgeToggleFlapAction::Hide), EdgeStatus::Cut(FlapSide::Neither));
    craft.edge_join(e, None).unwrap();
    assert_eq!(craft.edge_toggle_flap(e, EdgeToggleFlapAction::Toggle), Err(CraftError::InvalidOperation));
    assert_eq!(craft.edge_toggle_flap(77, EdgeToggleFlapAction::Toggle), Err(CraftError::UnknownKey));
}

#[test]
fn a_traversal_visits_each_face_of_the_island_once() {
    let model = cube();
    let tree: Vec<usize> = [(0, 2), (0, 3), (2, 1)].iter().map(|(f, g)| edge_between(&model, *f, *g)).collect();
    let mut craft = Papercraft::from_model(model, options()).unwrap();
    for e in &tree {
        craft.edge_join(*e, None).unwrap();
    }
    let steps = craft.traverse_faces(0);
    let mut faces: Vec<usize> = steps.iter().map(|s| s.face).collect();
    assert_eq!(faces[0], 0);
    assert!(steps[0].from.is_none());
    faces.sort();
    assert_eq!(faces, vec![0, 1, 2, 3]);
    for (k, step) in steps.iter().enumerate().skip(1) {
        let Link { face, edge } = step.from.unwrap();
        assert!(steps[..k].iter().any(|s| s.face == face));
        assert_eq!(craft.edge_status(edge), EdgeStatus::Joined);
        assert_eq!(craft.model().edges[edge].other_face(face), Some(step.face));
    }
    assert_eq!(craft.traverse_faces(1).len(), 1);
}

#[test]
fn the_neighbours_of_a_face_are_visited_by_ascending_index() {
    let model = cube();
    let tree: Vec<usize> =
        [(0, 5), (0, 3), (0, 4), (3, 1)].iter().map(|(f, g)| edge_between(&model, *f, *g)).collect();
    let mut craft = Papercraft::from_model(model, options()).unwrap();
    for e in &tree {
        craft.edge_join(*e, None).unwrap();
    }
    let faces: Vec<usize> = craft.traverse_faces(0).iter().map(|s| s.face).collect();
    assert_eq!(faces, vec![0, 3, 1, 4, 5]);
}

#[test]
fn the_perimeter_is_a_closed_chain() {
    let model = kite();
    let e = edge_between(&model, 0, 1);
    let mut craft = Papercraft::from_model(model, options()).unwrap();
    let alone = craft.island_perimeter(0);
    assert_eq!(alone.len(), 3);
    assert_eq!(alone[0], PerimeterEdge { edge: craft.model().faces[0].edges[0], face_sign: true });
    craft.edge_join(e, None).unwrap();
    let around = craft.island_perimeter(0);
    assert_eq!(around.len(), 4);
    let ends: Vec<(usize, usize)> = around
        .iter()
        .map(|p| {
            let edge = craft.model().edges[p.i_edge()];
            if p.face_sign() { (edge.v0, edge.v1) } else { (edge.v1, edge.v0) }
        })
        .collect();
    assert_eq!(ends, vec![(0, 1), (1, 3), (3, 2), (2, 0)]);
    assert!(around.iter().all(|p| p.edge != e));
    assert!(craft.island_perimeter(1).is_empty());
    assert!(craft.island_perimeter(9).is_empty());
}

#[test]
fn a_face_that_lists_an_edge_twice_is_not_simple() {
    assert!(has_simple_faces(&cube()));
    assert!(has_simple_faces(&kite()));
    let mut model = kite();
    let first = model.faces[0].edges[0];
    model.faces[0].edges[2] = first;
    assert!(!has_simple_faces(&model));
    assert!(!model.is_valid());
    assert!(Papercraft::from_model(model, options()).is_none());
}

#[test]
fn the_perimeter_runs_along_each_cut_edge_of_its_island_once() {
    let model = cube();
    let tree: Vec<usize> =
        [(0, 5), (0, 3), (0, 4), (3, 1)].iter().map(|(f, g)| edge_between(&model, *f, *g)).collect();
    let mut craft = Papercraft::from_model(model, options()).unwrap();
    for e in &tree {
        craft.edge_join(*e, None).unwrap();
    }
    let around = craft.island_perimeter(0);
    assert_eq!(around.len(), 5 * 4 - 2 * 4);
    for (k, p) in around.iter().enumerate() {
        assert_ne!(craft.edge_status(p.edge), EdgeStatus::Joined);
        let edge = craft.model().edges[p.edge];
        let inside = edge.face_by_sign(p.face_sign).unwrap();
        assert!([0, 1, 3, 4, 5].contains(&inside));
        assert!(around[..k].iter().all(|q| q != p));
    }
}

#[test]
fn an_island_without_cut_edges_has_no_perimeter() {
    let model = cube();
    let mut craft = Papercraft::from_model(model, options()).unwrap();
    for e in 0..12 {
        craft.edge_join(e, None).unwrap();
    }
    assert_eq!(craft.num_islands(), 1);
    assert!(craft.island_perimeter(craft.islands()[0].key).is_empty());
}

#[test]
fn islands_are_moved_and_turned() {
    let mut craft = Papercraft::from_model(kite(), options()).unwrap();
    assert_eq!(craft.island_translate(1, Point2 { x: 5 * MM, y: -2 * MM }), Ok(()));
    assert_eq!(craft.island_by_key(1).unwrap().pos, Point2 { x: 5 * MM, y: -2 * MM });
    assert_eq!(craft.island_by_key(0).unwrap().pos, Point2 { x: 0, y: 0 });
    assert_eq!(craft.island_translate(7, Point2 { x: 1, y: 1 }), Err(CraftError::UnknownKey));
    assert_eq!(craft.island_translate(1, Point2 { x: 1_000_000_000_000, y: 0 }), Err(CraftError::InvalidOperation));
    assert_eq!(craft.island_by_key(1).unwrap().pos, Point2 { x: 5 * MM, y: -2 * MM });
    assert_eq!(craft.island_rotate(1, 1_570_796, Point2 { x: 2 * MM, y: 5 * MM }), Ok(()));
    assert_eq!(craft.island_rotate(1, 1_570_796, Point2 { x: 2 * MM, y: 5 * MM }), Ok(()));
    let island = craft.island_by_key(1).unwrap();
    assert_eq!((island.rot, island.pos), (3_141_592, Point2 { x: 2 * MM, y: 5 * MM }));
    assert_eq!(craft.island_rotate(7, 1, Point2 { x: 0, y: 0 }), Err(CraftError::UnknownKey));
    assert_eq!(craft.island_rotate(1, i64::MAX, Point2 { x: 0, y: 0 }), Err(CraftError::InvalidOperation));
    assert_eq!(craft.island_rotate(1, 0, Point2 { x: 0, y: 1_000_000_000_001 }), Err(CraftError::InvalidOperation));
}

#[test]
fn options_are_replaced_if_they_are_valid() {
    let mut craft = Papercraft::from_model(kite(), options()).unwrap();
    let wider = PaperOptions { page_cols: 5, ..options() };
    assert_eq!(craft.replace_options(wider), Ok(()));
    assert_eq!(craft.options().page_cols, 5);
    assert_eq!(craft.replace_options(PaperOptions { page_size: (0, 0), ..options() }), Err(CraftError::InvalidOperation));
    assert_eq!(craft.options().page_cols, 5);
    let mut unfolding = squares(craft.model());
    let before = unfolding.faces.clone();
    assert_eq!(papercraft::arrange::set_options(&mut craft, &mut unfolding, options(), false), Ok(()));
    assert_eq!(unfolding.faces, before);
    assert_eq!(papercraft::arrange::set_options(&mut craft, &mut unfolding, options(), true), Ok(()));
    assert_eq!(unfolding.faces[0][0], Point2 { x: 10 * MM, y: 10 * MM });
    assert_eq!(unfolding.faces[1][0], Point2 { x: 30 * MM, y: 10 * MM });
}

#[test]
fn the_bounding_box_of_an_island_holds_its_faces() {
    let model = kite();
    let e = edge_between(&model, 0, 1);
    let unfolding = Unfolding {
        faces: vec![
            vec![Point2 { x: 0, y: 0 }, Point2 { x: 10 * MM, y: 0 }, Point2 { x: 0, y: 10 * MM }],
            vec![Point2 { x: 10 * MM, y: 0 }, Point2 { x: 10 * MM, y: 10 * MM }, Point2 { x: 0, y: 10 * MM }],
        ],
    };
    let mut craft = Papercraft::from_model(model, options()).unwrap();
    assert!(unfolding.is_valid_for(craft.model()));
    let second = island_bounding_box(&craft, &unfolding, 1);
    assert_eq!(second, Rect { min: Point2 { x: 0, y: 0 }, max: Point2 { x: 10 * MM, y: 10 * MM } });
    craft.edge_join(e, None).unwrap();
    let all = island_bounding_box(&craft, &unfolding, 0);
    assert_eq!(all.center(), Point2 { x: 5 * MM, y: 5 * MM });
    assert_eq!(Rect { min: Point2 { x: -3, y: -3 }, max: Point2 { x: 0, y: 2 } }.center(), Point2 { x: -2, y: -1 });
    let short = Unfolding { faces: vec![vec![Point2 { x: 0, y: 0 }; 3]] };
    assert!(!short.is_valid_for(craft.model()));
    let far = Unfolding { faces: vec![vec![Point2 { x: 0, y: 1_000_000_000_001 }; 3], vec![Point2 { x: 0, y: 0 }; 3]] };
    assert!(!far.is_valid_for(craft.model()));
    assert!(papercraft::svg::generate_svg_multipage(&craft, &far, false).is_err());
    assert!(renderable(&craft, &far).is_none());
}

#[test]
fn the_page_grid_widens_for_islands_to_its_right() {
    let model = kite();
    let craft = Papercraft::from_model(model, PaperOptions { pages: 2, ..options() }).unwrap();
    let near = squares(craft.model());
    assert_eq!(export_options(&craft, &near).page_cols, 2);
    let mut far = squares(craft.model());
    for p in far.faces[1].iter_mut() {
        p.x += 700 * MM;
    }
    assert_eq!(export_options(&craft, &far).page_cols, 4);
    let svg = papercraft::svg::generate_svg_multipage(&craft, &far, false).unwrap();
    assert!(svg.contains("<svg width=\"870mm\" height=\"297mm\""));
    assert_eq!(svg.matches("<inkscape:page ").count(), 2);
    assert_eq!(svg.matches("<polygon").count(), 1);
    let alone = papercraft::svg::generate_svg(&craft, &far, 3, false).unwrap();
    assert_eq!(alone.matches("<polygon").count(), 1);
    let first = papercraft::svg::generate_svg(&craft, &far, 0, false).unwrap();
    assert_eq!(first.matches("<polygon").count(), 1);
    let none = papercraft::svg::generate_svg(&craft, &far, 1, false).unwrap();
    assert_eq!(none.matches("<polygon").count(), 0);
}

#[test]
fn texts_of_a_page() {
    let mut craft = Papercraft::from_model(kite(), options()).unwrap();
    craft.island_translate(1, Point2 { x: 230 * MM, y: 40 * MM }).unwrap();
    let o = *craft.options();
    let first = collect_texts(&craft, &o, 0);
    assert_eq!(first.len(), 2);
    assert_eq!(first[0].text, "Page 1/4");
    assert_eq!((first[0].align, first[0].size, first[0].angle), (TextAlign::Far, 3 * MM, 0));
    assert_eq!(first[0].pos, Point2 { x: 200 * MM, y: 290 * MM });
    assert_eq!((first[1].text.as_str(), first[1].align), ("0", TextAlign::Center));
    assert_eq!(first[1].size, 2_822_222);
    let second = collect_texts(&craft, &o, 1);
    assert_eq!(second.len(), 2);
    assert_eq!(second[0].text, "Page 2/4");
    assert_eq!((second[1].text.as_str(), second[1].pos), ("1", Point2 { x: 10 * MM, y: 40 * MM }));
    let quiet = PaperOptions { show_page_number: false, edge_id_position: EdgeIdPosition::NoIds, show_self_promotion: true, margin: (0, 7 * MM, 0, MM), ..o };
    let texts = collect_texts(&craft, &quiet, 3);
    assert_eq!(texts.len(), 1);
    assert_eq!((texts[0].align, texts[0].pos), (TextAlign::Near, Point2 { x: 7 * MM, y: 294 * MM }));
}

#[test]
fn the_date_of_a_document() {
    let date = PdfDate { year: 2026, month: 10, day: 28, hour: 0, minute: 59, second: 7 };
    assert_eq!(pdf_date(&date), "D:20261028005907Z");
    let early = PdfDate { year: 7, month: 1, day: 2, hour: 3, minute: 4, second: 5 };
    assert_eq!(pdf_date(&early), "D:00070102030405Z");
    let odd = PdfDate { year: 12345, month: 200, day: 0, hour: 0, minute: 0, second: 0 };
    assert_eq!(pdf_date(&odd), "D:1234520000000000Z");
}

#[test]
fn pixels_lose_their_alpha() {
    assert_eq!(strip_alpha(&vec![1, 2, 3, 4, 5, 6, 7, 8]), vec![1, 2, 3, 5, 6, 7]);
    assert_eq!(strip_alpha(&vec![1, 2, 3, 4, 5, 6]), vec![1, 2, 3]);
    assert_eq!(strip_alpha(&vec![]), Vec::<u8>::new());
}

#[test]
fn boxes_are_packed_in_rows() {
    let items = vec![
        PackItem { key: 0, width: 60, height: 10 },
        PackItem { key: 1, width: 50, height: 30 },
        PackItem { key: 2, width: 50, height: 30 },
        PackItem { key: 3, width: 30, height: 20 },
        PackItem { key: 4, width: 200, height: 5 },
        PackItem { key: 5, width: 10, height: 50 },
    ];
    let slots = pack_slots(&items, 100, 60);
    assert_eq!(
        slots,
        vec![
            Slot { page: 1, x: 0, y: 30 },
            Slot { page: 0, x: 10, y: 0 },
            Slot { page: 1, x: 0, y: 0 },
            Slot { page: 0, x: 60, y: 0 },
            Slot { page: 1, x: 0, y: 40 },
            Slot { page: 0, x: 0, y: 0 },
        ]
    );
    assert_eq!(pack_slots(&Vec::new(), 100, 60), Vec::new());
}

#[test]
fn the_projection_for_clients() {
    let model = kite();
    let e = edge_between(&model, 0, 1);
    let unfolding = Unfolding {
        faces: vec![
            vec![Point2 { x: 0, y: 0 }, Point2 { x: 10 * MM, y: 0 }, Point2 { x: 0, y: 10 * MM }],
            vec![Point2 { x: 10 * MM, y: 0 }, Point2 { x: 10 * MM, y: 10 * MM }, Point2 { x: 0, y: 10 * MM }],
        ],
    };
    let mut craft = Papercraft::from_model(model, options()).unwrap();
    craft.edge_join(e, None).unwrap();
    let border = craft.model().faces[0].edges[0];
    craft.edge_toggle_flap(border, EdgeToggleFlapAction::Next).unwrap();
    let view = renderable(&craft, &unfolding).unwrap();
    assert_eq!(view.islands.len(), 1);
    let island = &view.islands[0];
    assert_eq!((island.id, island.faces.len(), island.edges.len(), island.flaps.len()), (0, 2, 5, 1));
    assert_eq!(island.faces[0].id, 0);
    assert_eq!(island.faces[1].vertices, unfolding.faces[1]);
    let kinds: Vec<&str> = island.edges.iter().map(|e| e.kind.as_str()).collect();
    assert_eq!(kinds, vec!["mountain", "cut", "cut", "cut", "cut"]);
    assert_eq!((island.edges[0].id, island.edges[0].start, island.edges[0].end), (e, Point2 { x: 10 * MM, y: 0 }, Point2 { x: 0, y: 10 * MM }));
    assert_eq!((island.edges[4].start, island.edges[4].end), (Point2 { x: 0, y: 10 * MM }, Point2 { x: 0, y: 0 }));
    assert_eq!(island.flaps[0].id, 0);
    assert_eq!(island.flaps[0].vertices.len(), 4);
    assert_eq!(view.options.pages, 4);
}

#[test]
fn an_unfolding_is_coherent_where_folds_meet() {
    let model = kite();
    let e = edge_between(&model, 0, 1);
    let meeting = Unfolding {
        faces: vec![
            vec![Point2 { x: 0, y: 0 }, Point2 { x: 10 * MM, y: 0 }, Point2 { x: 0, y: 10 * MM }],
            vec![Point2 { x: 10 * MM, y: 3 }, Point2 { x: 10 * MM, y: 10 * MM }, Point2 { x: -2, y: 10 * MM }],
        ],
    };
    let mut craft = Papercraft::from_model(model, options()).unwrap();
    let apart = squares(craft.model());
    assert!(is_coherent(&craft, &apart, 0));
    craft.edge_join(e, None).unwrap();
    assert!(!is_coherent(&craft, &apart, 1000));
    assert!(is_coherent(&craft, &meeting, 3));
    assert!(!is_coherent(&craft, &meeting, 2));
    assert!(!is_coherent(&craft, &meeting, -1));
}

#[test]
fn actions_are_passed_on_to_the_papercraft() {
    let model = kite();
    let e = edge_between(&model, 0, 1);
    let mut craft = Papercraft::from_model(model, options()).unwrap();
    let mut unfolding = squares(craft.model());
    let before = unfolding.faces.clone();
    let join = Action::Join { edge: e, priority_face: None };
    assert_eq!(perform_action(&mut craft, &mut unfolding, join), Ok(Followup::Anchor));
    assert_eq!(craft.num_islands(), 1);
    assert_eq!(perform_action(&mut craft, &mut unfolding, join), Err(CraftError::InvalidOperation));
    let cut = Action::Cut { edge: e, offset: None };
    assert_eq!(perform_action(&mut craft, &mut unfolding, cut), Ok(Followup::Anchor));
    assert_eq!(craft.num_islands(), 2);
    let flap = Action::ToggleFlap { edge: e, action: EdgeToggleFlapAction::Next };
    assert_eq!(perform_action(&mut craft, &mut unfolding, flap), Ok(Followup::Settled));
    assert_eq!(craft.edge_status(e), EdgeStatus::Cut(FlapSide::A));
    let shift = Action::MoveIsland { island: 0, delta: Point2 { x: MM, y: 2 * MM } };
    assert_eq!(perform_action(&mut craft, &mut unfolding, shift), Ok(Followup::Unfold));
    assert_eq!(craft.island_by_key(0).unwrap().pos, Point2 { x: 46 * MM, y: 17 * MM });
    let turn = Action::RotateIsland { island: 9, angle: 5, pos: Point2 { x: 0, y: 0 } };
    assert_eq!(perform_action(&mut craft, &mut unfolding, turn), Err(CraftError::UnknownKey));
    assert_eq!(unfolding.faces, before);
    let wide = Action::SetOptions { options: PaperOptions { page_cols: 7, ..options() }, relocate_pieces: false };
    assert_eq!(perform_action(&mut craft, &mut unfolding, wide), Ok(Followup::Settled));
    assert_eq!(craft.options().page_cols, 7);
    let bad = Action::SetOptions { options: PaperOptions { page_size: (0, 0), ..options() }, relocate_pieces: true };
    assert_eq!(perform_action(&mut craft, &mut unfolding, bad), Err(CraftError::InvalidOperation));
    assert_eq!(craft.options().page_cols, 7);
    assert_eq!(perform_action(&mut craft, &mut unfolding, Action::PackIslands), Ok(Followup::Settled));
    assert_ne!(unfolding.faces, before);
    assert_eq!((craft.island_of_face(0), craft.island_of_face(1)), (2, 0));
    assert_eq!(unfolding.faces[1][0], Point2 { x: 10 * MM, y: 10 * MM });
    assert_eq!(unfolding.faces[0][0], Point2 { x: 30 * MM, y: 10 * MM });
}

#[test]
fn formats_of_an_export_by_name() {
    assert_eq!(export_format("svg"), Some(ExportFormat::Svg));
    assert_eq!(export_format("pdf"), Some(ExportFormat::Pdf));
    assert_eq!(export_format("png"), None);
    assert_eq!(export_format("SVG"), None);
    assert_eq!(export_format("svgs"), None);
    assert_eq!(export_format(""), None);
    assert_eq!(export_format("p\u{e9}f"), None);
}

#[test]
fn join_then_cut_leaves_the_islands_as_they_were() {
    let model = cube();
    let e = edge_between(&model, 0, 2);
    let mut craft = Papercraft::from_model(model, options()).unwrap();
    let before: Vec<EdgeStatus> = (0..12).map(|k| craft.edge_status(k)).collect();
    let together = |craft: &Papercraft| -> Vec<Vec<bool>> {
        (0..6).map(|f| (0..6).map(|g| craft.island_of_face(f) == craft.island_of_face(g)).collect()).collect()
    };
    let partition = together(&craft);
    craft.edge_join(e, None).unwrap();
    assert_ne!(together(&craft), partition);
    assert_eq!(craft.edge_cut(e, None), Ok(Some(6)));
    assert_eq!((0..12).map(|k| craft.edge_status(k)).collect::<Vec<_>>(), before);
    assert_eq!(together(&craft), partition);
    assert_eq!(keys(&craft), vec![6, 1, 0, 3, 4, 5]);
}

#[test]
fn a_new_scale_asks_for_a_new_unfolding() {
    let mut craft = Papercraft::from_model(kite(), options()).unwrap();
    let mut unfolding = squares(craft.model());
    let before = unfolding.faces.clone();
    let doubled = PaperOptions { scale: 2 * MM, ..options() };
    let scale = Action::SetOptions { options: doubled, relocate_pieces: false };
    assert_eq!(perform_action(&mut craft, &mut unfolding, scale), Ok(Followup::Unfold));
    assert_eq!(craft.options().scale, 2 * MM);
    let tripled = PaperOptions { scale: 3 * MM, ..options() };
    let repack = Action::SetOptions { options: tripled, relocate_pieces: true };
    assert_eq!(perform_action(&mut craft, &mut unfolding, repack), Ok(Followup::Repack));
    assert_eq!(craft.options().scale, 3 * MM);
    assert_eq!(unfolding.faces, before);
    assert_eq!(perform_action(&mut craft, &mut unfolding, repack), Ok(Followup::Settled));
    assert_eq!(unfolding.faces[0][0], Point2 { x: 10 * MM, y: 10 * MM });
}

#[test]
fn a_split_leaves_every_island_where_its_root_face_lies() {
    let model = kite();
    let e = edge_between(&model, 0, 1);
    let mut craft = Papercraft::from_model(model, options()).unwrap();
    let mut unfolding = squares(craft.model());
    craft.edge_join(e, None).unwrap();
    craft.island_rotate(0, 7, Point2 { x: 15 * MM, y: 15 * MM }).unwrap();
    let cut = Action::Cut { edge: e, offset: None };
    assert_eq!(perform_action(&mut craft, &mut unfolding, cut), Ok(Followup::Anchor));
    let fresh = craft.island_by_key(2).unwrap();
    assert_eq!((fresh.root, fresh.pos, fresh.rot), (0, unfolding.faces[0][0], 7));
    let kept = craft.island_by_key(0).unwrap();
    assert_eq!((kept.root, kept.pos, kept.rot), (1, unfolding.faces[1][0], 7));
    assert_eq!(kept.pos, Point2 { x: 45 * MM, y: 15 * MM });
    let again = Action::Cut { edge: e, offset: None };
    assert_eq!(perform_action(&mut craft, &mut unfolding, again), Ok(Followup::Anchor));
    assert_eq!(craft.num_islands(), 2);
    assert_eq!(perform_action(&mut craft, &mut unfolding, Action::Cut { edge: 99, offset: None }), Err(CraftError::UnknownKey));
}
