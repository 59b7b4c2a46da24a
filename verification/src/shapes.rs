//! What is drawn of an island: its faces, fold lines, flaps and contour,
//! as the unfolding places them, seen from the origin of a page.

use crate::craft::Papercraft;
use crate::fixed::COORD_MAX;
use crate::flap::{flap_polygon, flap_quad};
use crate::geometry::Point2;
use crate::graph::{face_count, EdgeStatus};
use crate::layout::{coherent, fold_coherent, near, relative, Unfolding};
use crate::model::{Face, Model};
use crate::options::FlapStyle;
use crate::perimeter::{entry_wf, is_chain, is_slot, PerimeterEdge};
use crate::texture::page_point_in_range;
use crate::traverse::{is_traversal, step_wf, traversal_order, TraversalStep};
use vstd::prelude::*;

verus! {

/// A face as it is drawn: its corners on the page, and the texture of its
/// material if the mesh has one with pixels.
#[derive(Debug)]
pub struct FaceShape {
    pub face: usize,
    pub vertices: Vec<Point2>,
    pub texture: Option<usize>,
}

/// A fold line: the edge, its two ends on the page, and whether the fold
/// is a valley.
#[derive(Clone, Copy, Debug, PartialEq, Eq, Structural)]
pub struct FoldLine {
    pub edge: usize,
    pub from: Point2,
    pub to: Point2,
    pub valley: bool,
}

/// How a fold line is drawn: solid for a mountain fold, dashed for a
/// valley fold.
#[derive(Clone, Copy, Debug, PartialEq, Eq, Structural)]
pub enum EdgeDrawKind {
    Mountain,
    Valley,
}

impl FoldLine {
    /// How the fold line is drawn.
    pub open spec fn draw_kind(&self) -> EdgeDrawKind {
        if self.valley {
            EdgeDrawKind::Valley
        } else {
            EdgeDrawKind::Mountain
        }
    }

    /// How the fold line is drawn.
    pub fn kind(&self) -> (k: EdgeDrawKind)
        ensures
            k == self.draw_kind(),
    {
        if self.valley {
            EdgeDrawKind::Valley
        } else {
            EdgeDrawKind::Mountain
        }
    }
}

/// A flap: the cut edge that carries it, the face it belongs to, and its
/// four corners on the page.
#[derive(Clone, Copy, Debug)]
pub struct FlapShape {
    pub edge: usize,
    pub face: usize,
    pub corners: [Point2; 4],
}

/// An island as it is drawn.
#[derive(Debug)]
pub struct IslandShape {
    pub key: u64,
    /// The traversal of the island, from its root.
    pub steps: Vec<TraversalStep>,
    /// The faces, in the order of the traversal.
    pub faces: Vec<FaceShape>,
    pub folds: Vec<FoldLine>,
    pub flaps: Vec<FlapShape>,
    /// The perimeter, in the order of the walk around it.
    pub perimeter: Vec<PerimeterEdge>,
    /// The corners at which the edges of the perimeter start.
    pub contour: Vec<Point2>,
}

/// Whether `origin` is a point from which every accepted position is
/// within the range of page points.
pub open spec fn origin_in_range(origin: Point2) -> bool {
    0 <= origin.x <= COORD_MAX && 0 <= origin.y <= COORD_MAX
}

/// Corner `i` of face `f`, seen from `origin`.
pub open spec fn corner_at(unfolding: &Unfolding, origin: Point2, f: int, i: int) -> Point2 {
    relative(unfolding.corner(f, i), origin)
}

/// The corners of face `f`, seen from `origin`.
pub open spec fn outline(unfolding: &Unfolding, origin: Point2, f: int) -> Seq<Point2> {
    Seq::new(unfolding.faces@[f]@.len(), |i: int| corner_at(unfolding, origin, f, i))
}

/// The texture with which face `f` is drawn, if any.
pub open spec fn texture_of(model: &Model, f: int) -> Option<usize> {
    let material = model.faces@[f].material;
    if model.textured(material) {
        Some(material)
    } else {
        None
    }
}

/// Whether `shape` is face `f` as it is drawn.
pub open spec fn is_face_shape(
    shape: FaceShape,
    model: &Model,
    unfolding: &Unfolding,
    origin: Point2,
    f: int,
) -> bool {
    &&& shape.face == f
    &&& shape.vertices@ == outline(unfolding, origin, f)
    &&& shape.texture == texture_of(model, f)
}

/// The fold line drawn for position `i` of face `f`: one for each fold,
/// drawn with the edge's first face.
pub open spec fn fold_at(
    craft: &Papercraft,
    unfolding: &Unfolding,
    origin: Point2,
    f: int,
    i: int,
) -> Option<FoldLine> {
    let model = craft.mesh();
    let e = model.faces@[f].edges@[i];
    if craft.statuses()[e as int] == EdgeStatus::Joined && model.edges@[e as int].f0 == f {
        Some(
            FoldLine {
                edge: e,
                from: corner_at(unfolding, origin, f, i),
                to: corner_at(
                    unfolding,
                    origin,
                    f,
                    Face::next_slot(model.faces@[f].edges@.len() as int, i),
                ),
                valley: model.edges@[e as int].angle < 0,
            },
        )
    } else {
        None
    }
}

/// The fold lines drawn for the positions of face `f` before `upto`.
pub open spec fn face_folds(
    craft: &Papercraft,
    unfolding: &Unfolding,
    origin: Point2,
    f: int,
    upto: int,
) -> Seq<FoldLine>
    decreases upto,
{
    if upto <= 0 {
        Seq::empty()
    } else {
        let before = face_folds(craft, unfolding, origin, f, upto - 1);
        match fold_at(craft, unfolding, origin, f, upto - 1) {
            Some(line) => before.push(line),
            None => before,
        }
    }
}

/// The fold lines drawn for the first `upto` faces of a traversal.
pub open spec fn island_folds(
    craft: &Papercraft,
    unfolding: &Unfolding,
    origin: Point2,
    steps: Seq<TraversalStep>,
    upto: int,
) -> Seq<FoldLine>
    decreases upto,
{
    if upto <= 0 {
        Seq::empty()
    } else {
        let f = steps[upto - 1].face as int;
        island_folds(craft, unfolding, origin, steps, upto - 1) + face_folds(
            craft,
            unfolding,
            origin,
            f,
            craft.mesh().faces@[f].edges@.len() as int,
        )
    }
}

/// The face of a perimeter entry and the position at which the face lists
/// the entry's edge.
pub open spec fn entry_slot(model: &Model, p: PerimeterEdge) -> (int, int) {
    let f = model.edges@[p.edge as int].face_by_sign_spec(p.face_sign).unwrap();
    (f as int, model.faces@[f as int].position_of(p.edge).unwrap())
}

/// The flap drawn for a perimeter entry: one for a cut edge whose flap
/// shows on the entry's side.
pub open spec fn flap_at(
    craft: &Papercraft,
    unfolding: &Unfolding,
    origin: Point2,
    p: PerimeterEdge,
) -> Option<FlapShape> {
    let model = craft.mesh();
    let (f, i) = entry_slot(model, p);
    match craft.statuses()[p.edge as int] {
        EdgeStatus::Cut(side) => if side.visible_on(p.face_sign) {
            Some(
                FlapShape {
                    edge: p.edge,
                    face: f as usize,
                    corners: flap_quad(
                        corner_at(unfolding, origin, f, i),
                        corner_at(
                            unfolding,
                            origin,
                            f,
                            Face::next_slot(model.faces@[f].edges@.len() as int, i),
                        ),
                        craft.paper().flap_width as int,
                    ),
                },
            )
        } else {
            None
        },
        _ => None,
    }
}

/// The flaps drawn for the first `upto` entries of a perimeter.
pub open spec fn perimeter_flaps(
    craft: &Papercraft,
    unfolding: &Unfolding,
    origin: Point2,
    entries: Seq<PerimeterEdge>,
    upto: int,
) -> Seq<FlapShape>
    decreases upto,
{
    if upto <= 0 {
        Seq::empty()
    } else {
        let before = perimeter_flaps(craft, unfolding, origin, entries, upto - 1);
        match flap_at(craft, unfolding, origin, entries[upto - 1]) {
            Some(flap) => before.push(flap),
            None => before,
        }
    }
}

/// The flaps drawn for a perimeter: none where the options ask for none.
pub open spec fn island_flaps(
    craft: &Papercraft,
    unfolding: &Unfolding,
    origin: Point2,
    entries: Seq<PerimeterEdge>,
) -> Seq<FlapShape> {
    if craft.paper().flap_style == FlapStyle::NoFlaps {
        Seq::empty()
    } else {
        perimeter_flaps(craft, unfolding, origin, entries, entries.len() as int)
    }
}

/// The corners at which the entries of a perimeter start.
pub open spec fn contour_points(
    craft: &Papercraft,
    unfolding: &Unfolding,
    origin: Point2,
    entries: Seq<PerimeterEdge>,
) -> Seq<Point2> {
    Seq::new(
        entries.len(),
        |k: int|
            {
                let (f, i) = entry_slot(craft.mesh(), entries[k]);
                corner_at(unfolding, origin, f, i)
            },
    )
}

/// Whether `shape` is the island at position `index` of the list of
/// islands as it is drawn.
pub open spec fn is_island_shape(
    shape: IslandShape,
    craft: &Papercraft,
    unfolding: &Unfolding,
    origin: Point2,
    index: int,
) -> bool {
    let island = craft.island_seq()[index];
    let entries = craft.perimeter_of(island.key);
    &&& shape.key == island.key
    &&& shape.steps@ == traversal_order(craft.mesh(), craft.statuses(), island.root as int)
    &&& is_traversal(craft.mesh(), craft.statuses(), island.root as int, shape.steps@)
    &&& shape.faces@.len() == shape.steps@.len()
    &&& forall|k: int|
        0 <= k < shape.faces@.len() ==> is_face_shape(
            #[trigger] shape.faces@[k],
            craft.mesh(),
            unfolding,
            origin,
            shape.steps@[k].face as int,
        )
    &&& shape.folds@ == island_folds(craft, unfolding, origin, shape.steps@, shape.steps@.len() as int)
    &&& shape.flaps@ == island_flaps(craft, unfolding, origin, entries)
    &&& shape.perimeter@ == entries
    &&& shape.contour@ == contour_points(craft, unfolding, origin, entries)
}

fn relative_point(p: Point2, origin: Point2) -> (r: Point2)
    requires
        p.in_range(),
        origin_in_range(origin),
    ensures
        r == relative(p, origin),
        page_point_in_range(r),
{
    Point2 { x: p.x - origin.x, y: p.y - origin.y }
}

fn face_outline(unfolding: &Unfolding, origin: Point2, f: usize, Ghost(model): Ghost<&Model>) -> (v:
    Vec<Point2>)
    requires
        unfolding.fits(model),
        f < unfolding.faces@.len(),
        origin_in_range(origin),
    ensures
        v@ == outline(unfolding, origin, f as int),
{
    let mut v: Vec<Point2> = Vec::new();
    let mut i: usize = 0;
    while i < unfolding.faces[f].len()
        invariant
            unfolding.fits(model),
            f < unfolding.faces@.len(),
            origin_in_range(origin),
            i <= unfolding.faces@[f as int]@.len(),
            v@.len() == i,
            forall|j: int| 0 <= j < i ==> v@[j] == corner_at(unfolding, origin, f as int, j),
        decreases unfolding.faces@[f as int]@.len() - i,
    {
        proof {
            assert(unfolding.faces@[f as int]@[i as int].in_range());
        }
        v.push(relative_point(unfolding.faces[f][i], origin));
        i += 1;
    }
    proof {
        assert(v@ =~= outline(unfolding, origin, f as int));
    }
    v
}

fn corner_of(unfolding: &Unfolding, origin: Point2, f: usize, i: usize, Ghost(model): Ghost<&Model>) -> (r:
    Point2)
    requires
        unfolding.fits(model),
        f < unfolding.faces@.len(),
        i < unfolding.faces@[f as int]@.len(),
        origin_in_range(origin),
    ensures
        r == corner_at(unfolding, origin, f as int, i as int),
        page_point_in_range(r),
{
    proof {
        assert(unfolding.faces@[f as int]@[i as int].in_range());
    }
    relative_point(unfolding.faces[f][i], origin)
}

fn push_face_folds(
    craft: &Papercraft,
    unfolding: &Unfolding,
    origin: Point2,
    f: usize,
    folds: &mut Vec<FoldLine>,
)
    requires
        craft.wf(),
        unfolding.fits(craft.mesh()),
        origin_in_range(origin),
        f < face_count(craft.mesh()),
    ensures
        final(folds)@ == old(folds)@ + face_folds(
            craft,
            unfolding,
            origin,
            f as int,
            craft.mesh().faces@[f as int].edges@.len() as int,
        ),
{
    let model = craft.model();
    proof {
        assert(model.face_wf(f as int));
    }
    let count: usize = model.faces[f].edges.len();
    let mut i: usize = 0;
    while i < count
        invariant
            craft.wf(),
            unfolding.fits(craft.mesh()),
            origin_in_range(origin),
            model == craft.mesh(),
            f < face_count(model),
            model.face_wf(f as int),
            count == model.faces@[f as int].edges@.len(),
            i <= count,
            folds@ == old(folds)@ + face_folds(craft, unfolding, origin, f as int, i as int),
        decreases count - i,
    {
        proof {
            assert(model.slot_wf(f as int, i as int));
        }
        let e: usize = model.faces[f].edges[i];
        let ghost before = folds@;
        if craft.edge_status(e) == EdgeStatus::Joined && model.edges[e].f0 == f {
            let next: usize = if i + 1 >= count {
                0
            } else {
                i + 1
            };
            let line = FoldLine {
                edge: e,
                from: corner_of(unfolding, origin, f, i, Ghost(model)),
                to: corner_of(unfolding, origin, f, next, Ghost(model)),
                valley: model.edges[e].is_valley(),
            };
            folds.push(line);
            proof {
                assert(fold_at(craft, unfolding, origin, f as int, i as int) == Some(line));
                assert(folds@ =~= old(folds)@ + face_folds(
                    craft,
                    unfolding,
                    origin,
                    f as int,
                    i as int,
                ).push(line));
            }
        }
        i += 1;
    }
}

/// The face of a perimeter entry and the position of its edge on that
/// face.
fn slot_of_entry(model: &Model, p: PerimeterEdge) -> (r: (usize, usize))
    requires
        model.wf(),
        entry_wf(model, p),
    ensures
        (r.0 as int, r.1 as int) == entry_slot(model, p),
        r.0 < face_count(model),
        r.1 < model.faces@[r.0 as int].edges@.len(),
{
    let f: usize = match model.edges[p.edge].face_by_sign(p.face_sign) {
        Some(f) => f,
        None => {
            proof {
                assert(false);
            }
            0
        },
    };
    let i: usize = match model.faces[f].find_edge(p.edge) {
        Some(i) => i,
        None => {
            proof {
                assert(false);
            }
            0
        },
    };
    (f, i)
}

/// The island at position `index` of the list of islands as it is drawn:
/// its faces in the order of the traversal from its root, a fold line for
/// each fold, a flap for each cut edge of the perimeter whose flap shows,
/// and the corners of the perimeter, all seen from `origin`.
pub fn island_shape(craft: &Papercraft, unfolding: &Unfolding, origin: Point2, index: usize) -> (shape:
    IslandShape)
    requires
        craft.wf(),
        unfolding.fits(craft.mesh()),
        origin_in_range(origin),
        index < craft.island_seq().len(),
    ensures
        is_island_shape(shape, craft, unfolding, origin, index as int),
{
    let model = craft.model();
    let key: u64 = craft.islands()[index].key;
    let steps = craft.traverse_faces(index);
    let ghost root = craft.island_seq()[index as int].root as int;
    let mut faces: Vec<FaceShape> = Vec::new();
    let mut folds: Vec<FoldLine> = Vec::new();
    let mut k: usize = 0;
    while k < steps.len()
        invariant
            craft.wf(),
            unfolding.fits(craft.mesh()),
            origin_in_range(origin),
            model == craft.mesh(),
            is_traversal(model, craft.statuses(), root, steps@),
            steps@ == traversal_order(model, craft.statuses(), root),
            k <= steps@.len(),
            faces@.len() == k,
            forall|j: int|
                0 <= j < k ==> is_face_shape(
                    #[trigger] faces@[j],
                    model,
                    unfolding,
                    origin,
                    steps@[j].face as int,
                ),
            folds@ == island_folds(craft, unfolding, origin, steps@, k as int),
        decreases steps@.len() - k,
    {
        proof {
            assert(step_wf(model, craft.statuses(), steps@, k as int));
        }
        let f: usize = steps[k].face;
        let material: usize = model.faces[f].material;
        let texture: Option<usize> = if model.is_textured(material) {
            Some(material)
        } else {
            None
        };
        let vertices = face_outline(unfolding, origin, f, Ghost(model));
        faces.push(FaceShape { face: f, vertices, texture });
        push_face_folds(craft, unfolding, origin, f, &mut folds);
        k += 1;
    }
    let entries = craft.island_perimeter(key);
    let mut flaps: Vec<FlapShape> = Vec::new();
    let mut contour: Vec<Point2> = Vec::new();
    let with_flaps: bool = craft.options().flap_style != FlapStyle::NoFlaps;
    let width: i64 = craft.options().flap_width;
    let mut j: usize = 0;
    while j < entries.len()
        invariant
            craft.wf(),
            unfolding.fits(craft.mesh()),
            origin_in_range(origin),
            model == craft.mesh(),
            entries@ == craft.perimeter_of(key),
            entries@.len() > 0 ==> is_chain(model, entries@, entries@[0]),
            with_flaps == (craft.paper().flap_style != FlapStyle::NoFlaps),
            width == craft.paper().flap_width,
            j <= entries@.len(),
            contour@.len() == j,
            forall|m: int|
                0 <= m < j ==> contour@[m] == contour_points(craft, unfolding, origin, entries@)[m],
            with_flaps ==> flaps@ == perimeter_flaps(craft, unfolding, origin, entries@, j as int),
            !with_flaps ==> flaps@ == Seq::<FlapShape>::empty(),
        decreases entries@.len() - j,
    {
        let p = entries[j];
        proof {
            assert(entry_wf(model, entries@[j as int]));
        }
        let (f, i) = slot_of_entry(model, p);
        proof {
            assert(model.face_wf(f as int));
        }
        let start = corner_of(unfolding, origin, f, i, Ghost(model));
        contour.push(start);
        if with_flaps {
            match craft.edge_status(p.edge) {
                EdgeStatus::Cut(side) => {
                    if side.flap_visible(p.face_sign) {
                        let count: usize = model.faces[f].edges.len();
                        let next: usize = if i + 1 >= count {
                            0
                        } else {
                            i + 1
                        };
                        let end = corner_of(unfolding, origin, f, next, Ghost(model));
                        flaps.push(
                            FlapShape { edge: p.edge, face: f, corners: flap_polygon(start, end, width) },
                        );
                    }
                },
                _ => {},
            }
        }
        j += 1;
    }
    proof {
        assert(contour@ =~= contour_points(craft, unfolding, origin, entries@));
    }
    IslandShape { key, steps, faces, folds, flaps, perimeter: entries, contour }
}

/// Where the unfolding is coherent, the two faces of a fold are drawn
/// together: the fold line, which joins two corners of the first face of
/// the edge, ends within the tolerance of the corners at which the second
/// face has the ends of the edge.
pub proof fn lemma_fold_line_joins_faces(
    craft: &Papercraft,
    unfolding: &Unfolding,
    origin: Point2,
    f: int,
    i: int,
    tolerance: int,
)
    requires
        craft.wf(),
        unfolding.fits(craft.mesh()),
        origin_in_range(origin),
        coherent(craft, unfolding, tolerance),
        is_slot(craft.mesh(), f, i),
        fold_at(craft, unfolding, origin, f, i) is Some,
    ensures
        ({
            let model = craft.mesh();
            let line = fold_at(craft, unfolding, origin, f, i).unwrap();
            let g = model.edges@[line.edge as int].f1.unwrap() as int;
            let j = model.faces@[g].position_of(line.edge).unwrap();
            let j_next = Face::next_slot(model.faces@[g].edges@.len() as int, j);
            &&& craft.statuses()[line.edge as int] == EdgeStatus::Joined
            &&& near(line.from, corner_at(unfolding, origin, g, j_next), tolerance)
            &&& near(line.to, corner_at(unfolding, origin, g, j), tolerance)
        }),
{
    let model = craft.mesh();
    let e = model.faces@[f].edges@[i];
    assert(model.face_wf(f));
    assert(model.slot_wf(f, i));
    assert(model.edge_wf(e as int));
    assert(fold_coherent(model, unfolding, e as int, tolerance));
    assert(crate::model::lists_once(model, f));
    model.faces@[f].lemma_position_of(e);
    let found = model.faces@[f].position_of(e).unwrap();
    if found < i {
        assert(model.faces@[f].edges@[found] != model.faces@[f].edges@[i]);
    } else if i < found {
        assert(model.faces@[f].edges@[i] != model.faces@[f].edges@[found]);
    }
    let g = model.edges@[e as int].f1.unwrap() as int;
    model.faces@[g].lemma_position_of(e);
    let j = model.faces@[g].position_of(e).unwrap();
    assert(model.face_wf(g));
    assert(model.slot_wf(g, j));
    let i_next = Face::next_slot(model.faces@[f].edges@.len() as int, i);
    let j_next = Face::next_slot(model.faces@[g].edges@.len() as int, j);
    assert(unfolding.corner(f, i).in_range());
    assert(unfolding.corner(f, i_next).in_range());
    assert(unfolding.corner(g, j).in_range());
    assert(unfolding.corner(g, j_next).in_range());
}

} // verus!
