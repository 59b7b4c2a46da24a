//! The projection of a papercraft for clients: each island with its faces,
//! its edges by kind, and its flaps, in the coordinates of the canvas.

use crate::craft::Papercraft;
use crate::geometry::Point2;
use crate::layout::Unfolding;
use crate::model::Model;
use crate::options::PaperOptions;
use crate::shapes::{is_island_shape, island_shape, EdgeDrawKind, FoldLine, IslandShape};
use vstd::prelude::*;
use vstd::string::StringExecFns;

verus! {

/// A face of an island: its index and its corners.
#[derive(Debug)]
pub struct RenderableFace {
    pub id: usize,
    pub vertices: Vec<Point2>,
}

/// An edge of an island: its index, its two ends, and its kind, one of
/// `cut`, `mountain` and `valley`.
#[derive(Debug)]
pub struct RenderableEdge {
    pub id: usize,
    pub start: Point2,
    pub end: Point2,
    pub kind: String,
}

/// A flap of an island: the index of its face, and its corners.
#[derive(Debug)]
pub struct RenderableFlap {
    pub id: usize,
    pub vertices: Vec<Point2>,
}

/// An island: its key, its place, and what is drawn of it.
#[derive(Debug)]
pub struct RenderableIsland {
    pub id: u64,
    pub pos: Point2,
    pub rot: i64,
    pub faces: Vec<RenderableFace>,
    pub edges: Vec<RenderableEdge>,
    pub flaps: Vec<RenderableFlap>,
}

/// A papercraft as clients see it.
#[derive(Debug)]
pub struct RenderablePapercraft<'a> {
    pub model: &'a Model,
    pub islands: Vec<RenderableIsland>,
    pub options: PaperOptions,
}

/// The name of the kind of a fold line.
pub open spec fn fold_kind_text(kind: EdgeDrawKind) -> Seq<char> {
    match kind {
        EdgeDrawKind::Valley => "valley"@,
        EdgeDrawKind::Mountain => "mountain"@,
    }
}

/// Whether `edge` is the fold line `line`.
pub open spec fn is_fold_edge(edge: RenderableEdge, line: FoldLine) -> bool {
    &&& edge.id == line.edge
    &&& edge.start == line.from
    &&& edge.end == line.to
    &&& edge.kind@ == fold_kind_text(line.draw_kind())
}

/// Whether `edge` is edge `k` of the perimeter of `shape`: a cut from the
/// corner at which that edge starts to the corner at which the next one
/// starts.
pub open spec fn is_cut_edge(edge: RenderableEdge, shape: IslandShape, k: int) -> bool {
    let n = shape.contour@.len() as int;
    &&& edge.id == shape.perimeter@[k].edge
    &&& edge.start == shape.contour@[k]
    &&& edge.end == shape.contour@[if k + 1 < n {
        k + 1
    } else {
        0
    }]
    &&& edge.kind@ == "cut"@
}

/// Whether `island` is the island drawn as `shape`, at the place `pos`
/// with the rotation `rot`: its faces in the order of the traversal, its
/// fold lines followed by the cuts of its perimeter, and its flaps.
pub open spec fn is_renderable_island(
    island: RenderableIsland,
    shape: IslandShape,
    pos: Point2,
    rot: i64,
) -> bool {
    let folds = shape.folds@.len() as int;
    &&& island.id == shape.key
    &&& island.pos == pos
    &&& island.rot == rot
    &&& island.faces@.len() == shape.faces@.len()
    &&& forall|k: int|
        0 <= k < island.faces@.len() ==> (#[trigger] island.faces@[k]).id == shape.faces@[k].face
            && island.faces@[k].vertices@ == shape.faces@[k].vertices@
    &&& island.edges@.len() == folds + shape.contour@.len()
    &&& forall|k: int| 0 <= k < folds ==> is_fold_edge(#[trigger] island.edges@[k], shape.folds@[k])
    &&& forall|k: int|
        0 <= k < shape.contour@.len() ==> is_cut_edge(
            #[trigger] island.edges@[folds + k],
            shape,
            k,
        )
    &&& island.flaps@.len() == shape.flaps@.len()
    &&& forall|k: int|
        0 <= k < island.flaps@.len() ==> (#[trigger] island.flaps@[k]).id == shape.flaps@[k].face
            && island.flaps@[k].vertices@ == shape.flaps@[k].corners@
}

fn copy_points(points: &Vec<Point2>) -> (copy: Vec<Point2>)
    ensures
        copy@ == points@,
{
    let mut copy: Vec<Point2> = Vec::new();
    let mut i: usize = 0;
    while i < points.len()
        invariant
            i <= points@.len(),
            copy@ == points@.take(i as int),
        decreases points@.len() - i,
    {
        copy.push(points[i]);
        proof {
            assert(copy@ =~= points@.take(i + 1));
        }
        i += 1;
    }
    proof {
        assert(points@.take(points@.len() as int) =~= points@);
    }
    copy
}

/// Projects an island as it is drawn, at the place `pos` with the
/// rotation `rot`.
pub fn renderable_island(shape: &IslandShape, pos: Point2, rot: i64) -> (island: RenderableIsland)
    requires
        shape.perimeter@.len() == shape.contour@.len(),
    ensures
        is_renderable_island(island, *shape, pos, rot),
{
    let mut faces: Vec<RenderableFace> = Vec::new();
    let mut k: usize = 0;
    while k < shape.faces.len()
        invariant
            k <= shape.faces@.len(),
            faces@.len() == k,
            forall|j: int|
                0 <= j < k ==> (#[trigger] faces@[j]).id == shape.faces@[j].face
                    && faces@[j].vertices@ == shape.faces@[j].vertices@,
        decreases shape.faces@.len() - k,
    {
        faces.push(
            RenderableFace { id: shape.faces[k].face, vertices: copy_points(&shape.faces[k].vertices) },
        );
        k += 1;
    }
    let mut edges: Vec<RenderableEdge> = Vec::new();
    let mut k: usize = 0;
    while k < shape.folds.len()
        invariant
            k <= shape.folds@.len(),
            edges@.len() == k,
            forall|j: int| 0 <= j < k ==> is_fold_edge(#[trigger] edges@[j], shape.folds@[j]),
        decreases shape.folds@.len() - k,
    {
        let line = shape.folds[k];
        let kind = match line.kind() {
            EdgeDrawKind::Valley => String::from_str("valley"),
            EdgeDrawKind::Mountain => String::from_str("mountain"),
        };
        edges.push(RenderableEdge { id: line.edge, start: line.from, end: line.to, kind });
        k += 1;
    }
    let folds: usize = shape.folds.len();
    let n: usize = shape.contour.len();
    let mut k: usize = 0;
    while k < n
        invariant
            shape.perimeter@.len() == shape.contour@.len(),
            folds == shape.folds@.len(),
            n == shape.contour@.len(),
            k <= n,
            edges@.len() == folds + k,
            forall|j: int| 0 <= j < folds ==> is_fold_edge(#[trigger] edges@[j], shape.folds@[j]),
            forall|j: int| 0 <= j < k ==> is_cut_edge(#[trigger] edges@[folds + j], *shape, j),
        decreases n - k,
    {
        let next: usize = if k + 1 < n {
            k + 1
        } else {
            0
        };
        let ghost before = edges@;
        edges.push(
            RenderableEdge {
                id: shape.perimeter[k].edge,
                start: shape.contour[k],
                end: shape.contour[next],
                kind: String::from_str("cut"),
            },
        );
        proof {
            assert forall|j: int| 0 <= j < folds implies is_fold_edge(
                #[trigger] edges@[j],
                shape.folds@[j],
            ) by {
                assert(edges@[j] == before[j]);
            }
            assert forall|j: int| 0 <= j < k + 1 implies is_cut_edge(
                #[trigger] edges@[folds + j],
                *shape,
                j,
            ) by {
                if j < k {
                    assert(edges@[folds + j] == before[folds + j]);
                }
            }
        }
        k += 1;
    }
    let mut flaps: Vec<RenderableFlap> = Vec::new();
    let mut k: usize = 0;
    while k < shape.flaps.len()
        invariant
            k <= shape.flaps@.len(),
            flaps@.len() == k,
            forall|j: int|
                0 <= j < k ==> (#[trigger] flaps@[j]).id == shape.flaps@[j].face
                    && flaps@[j].vertices@ == shape.flaps@[j].corners@,
        decreases shape.flaps@.len() - k,
    {
        let c = &shape.flaps[k].corners;
        let mut vertices: Vec<Point2> = Vec::new();
        vertices.push(c[0]);
        vertices.push(c[1]);
        vertices.push(c[2]);
        vertices.push(c[3]);
        proof {
            assert(vertices@ =~= shape.flaps@[k as int].corners@);
        }
        flaps.push(RenderableFlap { id: shape.flaps[k].face, vertices });
        k += 1;
    }
    RenderableIsland { id: shape.key, pos, rot, faces, edges, flaps }
}

/// Whether `island` is the island at position `index` of the list of
/// islands as it is drawn, seen from the origin of the canvas.
pub open spec fn projects_island(
    island: RenderableIsland,
    craft: &Papercraft,
    unfolding: &Unfolding,
    index: int,
) -> bool {
    exists|shape: IslandShape|
        is_island_shape(shape, craft, unfolding, Point2 { x: 0, y: 0 }, index)
            && #[trigger] is_renderable_island(
            island,
            shape,
            craft.island_seq()[index].pos,
            craft.island_seq()[index].rot,
        )
}

/// Whether `view` is the papercraft as clients see it: its mesh, its
/// options, and each island as it is drawn, seen from the origin of the
/// canvas.
pub open spec fn is_renderable<'a>(
    view: RenderablePapercraft<'a>,
    craft: &'a Papercraft,
    unfolding: &Unfolding,
) -> bool {
    &&& view.model == craft.mesh()
    &&& view.options == craft.paper()
    &&& view.islands@.len() == craft.island_seq().len()
    &&& forall|i: int|
        0 <= i < view.islands@.len() ==> projects_island(
            #[trigger] view.islands@[i],
            craft,
            unfolding,
            i,
        )
}

/// Projects a papercraft, as the unfolding lays it out, for clients.
///
/// Returns `None` where the unfolding does not fit the mesh.
pub fn renderable<'a>(craft: &'a Papercraft, unfolding: &Unfolding) -> (r: Option<
    RenderablePapercraft<'a>,
>)
    requires
        craft.wf(),
    ensures
        r is Some <==> unfolding.fits(craft.mesh()),
        r matches Some(view) ==> is_renderable(view, craft, unfolding),
{
    if !unfolding.is_valid_for(craft.model()) {
        return None;
    }
    let origin = Point2 { x: 0, y: 0 };
    let mut islands: Vec<RenderableIsland> = Vec::new();
    let count: usize = craft.num_islands();
    let mut i: usize = 0;
    while i < count
        invariant
            craft.wf(),
            unfolding.fits(craft.mesh()),
            origin == (Point2 { x: 0, y: 0 }),
            count == craft.island_seq().len(),
            i <= count,
            islands@.len() == i,
            forall|j: int|
                0 <= j < i ==> projects_island(#[trigger] islands@[j], craft, unfolding, j),
        decreases count - i,
    {
        let shape = island_shape(craft, unfolding, origin, i);
        let island = &craft.islands()[i];
        proof {
            let entries = craft.perimeter_of(craft.island_seq()[i as int].key);
            assert(shape.contour@.len() == entries.len());
        }
        let projected = renderable_island(&shape, island.pos, island.rot);
        proof {
            assert(is_renderable_island(
                projected,
                shape,
                craft.island_seq()[i as int].pos,
                craft.island_seq()[i as int].rot,
            ));
            assert(projects_island(projected, craft, unfolding, i as int));
        }
        islands.push(projected);
        i += 1;
    }
    Some(RenderablePapercraft { model: craft.model(), islands, options: *craft.options() })
}

} // verus!
