//! The unfolding: where each corner of each face lies on the canvas.
//!
//! The hinge transforms that flatten an island are computed in floating
//! point, outside this library. The library takes their result, rounded
//! to fixed point, and derives from it what is drawn.

use crate::craft::Papercraft;
use crate::geometry::{Point2, Rect};
use crate::graph::{face_count, EdgeStatus};
use crate::model::{Face, Model};
use vstd::prelude::*;

verus! {

/// For each face of a mesh, the position on the canvas of each of its
/// corners, in winding order.
#[derive(Debug)]
pub struct Unfolding {
    pub faces: Vec<Vec<Point2>>,
}

impl Unfolding {
    /// Whether the unfolding gives an accepted position to each corner of
    /// each face of `model`, and to nothing else.
    pub open spec fn fits(&self, model: &Model) -> bool {
        &&& self.faces@.len() == model.faces@.len()
        &&& forall|f: int|
            0 <= f < self.faces@.len() ==> (#[trigger] self.faces@[f])@.len()
                == model.faces@[f].vertices@.len()
        &&& forall|f: int, i: int|
            0 <= f < self.faces@.len() && 0 <= i < self.faces@[f]@.len() ==> (
            #[trigger] self.faces@[f]@[i]).in_range()
    }

    /// The position of corner `i` of face `f`.
    pub open spec fn corner(&self, f: int, i: int) -> Point2 {
        self.faces@[f]@[i]
    }

    /// Tests whether the unfolding fits `model`.
    pub fn is_valid_for(&self, model: &Model) -> (ok: bool)
        ensures
            ok == self.fits(model),
    {
        if self.faces.len() != model.faces.len() {
            return false;
        }
        let mut f: usize = 0;
        while f < self.faces.len()
            invariant
                self.faces@.len() == model.faces@.len(),
                f <= self.faces@.len(),
                forall|g: int|
                    0 <= g < f ==> (#[trigger] self.faces@[g])@.len()
                        == model.faces@[g].vertices@.len(),
                forall|g: int, i: int|
                    0 <= g < f && 0 <= i < self.faces@[g]@.len() ==> (
                    #[trigger] self.faces@[g]@[i]).in_range(),
            decreases self.faces@.len() - f,
        {
            if self.faces[f].len() != model.faces[f].vertices.len() {
                return false;
            }
            let mut i: usize = 0;
            while i < self.faces[f].len()
                invariant
                    f < self.faces@.len(),
                    i <= self.faces@[f as int]@.len(),
                    forall|j: int| 0 <= j < i ==> (#[trigger] self.faces@[f as int]@[j]).in_range(),
                decreases self.faces@[f as int]@.len() - i,
            {
                if !self.faces[f][i].is_in_range() {
                    return false;
                }
                i += 1;
            }
            f += 1;
        }
        true
    }
}

/// `p` as seen from `origin`.
pub open spec fn relative(p: Point2, origin: Point2) -> Point2 {
    Point2 { x: (p.x - origin.x) as i64, y: (p.y - origin.y) as i64 }
}

/// Whether `r` is the bounding box of the island with key `key`: the least
/// rectangle, with sides along the axes, that holds every corner of every
/// face of the island.
pub open spec fn is_island_box(craft: &Papercraft, unfolding: &Unfolding, key: u64, r: Rect) -> bool {
    let n = face_count(craft.mesh());
    &&& forall|f: int, i: int|
        0 <= f < n && craft.keys()[f] == key && 0 <= i < unfolding.faces@[f]@.len() ==> {
            let p = #[trigger] unfolding.faces@[f]@[i];
            r.min.x <= p.x <= r.max.x && r.min.y <= p.y <= r.max.y
        }
    &&& exists|f: int, i: int|
        0 <= f < n && craft.keys()[f] == key && 0 <= i < unfolding.faces@[f]@.len() && (
        #[trigger] unfolding.faces@[f]@[i]).x == r.min.x
    &&& exists|f: int, i: int|
        0 <= f < n && craft.keys()[f] == key && 0 <= i < unfolding.faces@[f]@.len() && (
        #[trigger] unfolding.faces@[f]@[i]).x == r.max.x
    &&& exists|f: int, i: int|
        0 <= f < n && craft.keys()[f] == key && 0 <= i < unfolding.faces@[f]@.len() && (
        #[trigger] unfolding.faces@[f]@[i]).y == r.min.y
    &&& exists|f: int, i: int|
        0 <= f < n && craft.keys()[f] == key && 0 <= i < unfolding.faces@[f]@.len() && (
        #[trigger] unfolding.faces@[f]@[i]).y == r.max.y
}

/// The bounding box of the island at position `index` of the list of
/// islands, as the unfolding places it.
pub fn island_bounding_box(craft: &Papercraft, unfolding: &Unfolding, index: usize) -> (r: Rect)
    requires
        craft.wf(),
        unfolding.fits(craft.mesh()),
        index < craft.island_seq().len(),
    ensures
        is_island_box(craft, unfolding, craft.island_seq()[index as int].key, r),
        r.min.in_range(),
        r.max.in_range(),
{
    let model = craft.model();
    let island = &craft.islands()[index];
    let key = island.key;
    let root = island.root;
    proof {
        assert(crate::craft::island_ok(craft.island_seq()[index as int], craft.keys(), craft.key_bound()));
        assert(model.face_wf(root as int));
    }
    let first = unfolding.faces[root][0];
    let mut r = Rect { min: first, max: first };
    let ghost mut min_x = (root as int, 0int);
    let ghost mut max_x = (root as int, 0int);
    let ghost mut min_y = (root as int, 0int);
    let ghost mut max_y = (root as int, 0int);
    let n: usize = model.faces.len();
    let mut f: usize = 0;
    while f < n
        invariant
            craft.wf(),
            unfolding.fits(craft.mesh()),
            model == craft.mesh(),
            n == face_count(model),
            f <= n,
            r.min.in_range(),
            r.max.in_range(),
            forall|g: int, i: int|
                0 <= g < f && craft.keys()[g] == key && 0 <= i < unfolding.faces@[g]@.len() ==> {
                    let p = #[trigger] unfolding.faces@[g]@[i];
                    r.min.x <= p.x <= r.max.x && r.min.y <= p.y <= r.max.y
                },
            on_island(craft, unfolding, key, min_x) && unfolding.corner(min_x.0, min_x.1).x
                == r.min.x,
            on_island(craft, unfolding, key, max_x) && unfolding.corner(max_x.0, max_x.1).x
                == r.max.x,
            on_island(craft, unfolding, key, min_y) && unfolding.corner(min_y.0, min_y.1).y
                == r.min.y,
            on_island(craft, unfolding, key, max_y) && unfolding.corner(max_y.0, max_y.1).y
                == r.max.y,
            r.min.x <= r.max.x,
            r.min.y <= r.max.y,
        decreases n - f,
    {
        if craft.island_of_face(f) == key {
            let count: usize = unfolding.faces[f].len();
            let mut i: usize = 0;
            while i < count
                invariant
                    craft.wf(),
                    unfolding.fits(craft.mesh()),
                    model == craft.mesh(),
                    n == face_count(model),
                    f < n,
                    craft.keys()[f as int] == key,
                    count == unfolding.faces@[f as int]@.len(),
                    i <= count,
                    r.min.in_range(),
                    r.max.in_range(),
                    forall|g: int, j: int|
                        0 <= g < f && craft.keys()[g] == key && 0 <= j < unfolding.faces@[g]@.len()
                            ==> {
                            let p = #[trigger] unfolding.faces@[g]@[j];
                            r.min.x <= p.x <= r.max.x && r.min.y <= p.y <= r.max.y
                        },
                    forall|j: int|
                        0 <= j < i ==> {
                            let p = #[trigger] unfolding.faces@[f as int]@[j];
                            r.min.x <= p.x <= r.max.x && r.min.y <= p.y <= r.max.y
                        },
                    on_island(craft, unfolding, key, min_x) && unfolding.corner(min_x.0, min_x.1).x
                        == r.min.x,
                    on_island(craft, unfolding, key, max_x) && unfolding.corner(max_x.0, max_x.1).x
                        == r.max.x,
                    on_island(craft, unfolding, key, min_y) && unfolding.corner(min_y.0, min_y.1).y
                        == r.min.y,
                    on_island(craft, unfolding, key, max_y) && unfolding.corner(max_y.0, max_y.1).y
                        == r.max.y,
                    r.min.x <= r.max.x,
                    r.min.y <= r.max.y,
                decreases count - i,
            {
                let p = unfolding.faces[f][i];
                proof {
                    assert(unfolding.faces@[f as int]@[i as int].in_range());
                }
                if p.x < r.min.x {
                    r.min.x = p.x;
                    proof {
                        min_x = (f as int, i as int);
                    }
                }
                if p.x > r.max.x {
                    r.max.x = p.x;
                    proof {
                        max_x = (f as int, i as int);
                    }
                }
                if p.y < r.min.y {
                    r.min.y = p.y;
                    proof {
                        min_y = (f as int, i as int);
                    }
                }
                if p.y > r.max.y {
                    r.max.y = p.y;
                    proof {
                        max_y = (f as int, i as int);
                    }
                }
                i += 1;
            }
        }
        f += 1;
    }
    proof {
        assert(unfolding.faces@[min_x.0]@[min_x.1].x == r.min.x);
        assert(unfolding.faces@[max_x.0]@[max_x.1].x == r.max.x);
        assert(unfolding.faces@[min_y.0]@[min_y.1].y == r.min.y);
        assert(unfolding.faces@[max_y.0]@[max_y.1].y == r.max.y);
    }
    r
}

/// Whether `at` is a corner of a face of the island with key `key`.
pub open spec fn on_island(craft: &Papercraft, unfolding: &Unfolding, key: u64, at: (int, int)) -> bool {
    &&& 0 <= at.0 < face_count(craft.mesh())
    &&& craft.keys()[at.0] == key
    &&& 0 <= at.1 < unfolding.faces@[at.0]@.len()
}

/// Whether two points lie within `tolerance` of each other along both
/// axes.
pub open spec fn near(p: Point2, q: Point2, tolerance: int) -> bool {
    &&& -tolerance <= p.x - q.x <= tolerance
    &&& -tolerance <= p.y - q.y <= tolerance
}

/// Whether the two faces of edge `e` agree, within `tolerance`, on where
/// the two ends of the edge lie: where the first face has the start of the
/// edge the second has its end, and the other way round.
pub open spec fn fold_coherent(model: &Model, unfolding: &Unfolding, e: int, tolerance: int) -> bool {
    let a = model.edges@[e].f0 as int;
    let b = model.edges@[e].f1.unwrap() as int;
    let i = model.faces@[a].position_of(e as usize).unwrap();
    let j = model.faces@[b].position_of(e as usize).unwrap();
    let i_next = Face::next_slot(model.faces@[a].edges@.len() as int, i);
    let j_next = Face::next_slot(model.faces@[b].edges@.len() as int, j);
    &&& near(unfolding.corner(a, i), unfolding.corner(b, j_next), tolerance)
    &&& near(unfolding.corner(a, i_next), unfolding.corner(b, j), tolerance)
}

/// Whether the unfolding is coherent: the two faces of every fold agree,
/// within `tolerance`, on where the fold lies.
pub open spec fn coherent(craft: &Papercraft, unfolding: &Unfolding, tolerance: int) -> bool {
    forall|e: int|
        0 <= e < craft.statuses().len() && #[trigger] craft.statuses()[e] == EdgeStatus::Joined
            ==> fold_coherent(craft.mesh(), unfolding, e, tolerance)
}

fn is_near(p: Point2, q: Point2, tolerance: i64) -> (ok: bool)
    requires
        p.in_range(),
        q.in_range(),
    ensures
        ok == near(p, q, tolerance as int),
{
    let dx: i64 = p.x - q.x;
    let dy: i64 = p.y - q.y;
    tolerance >= 0 && -tolerance <= dx && dx <= tolerance && -tolerance <= dy && dy <= tolerance
}

/// Tests whether the two faces of the fold `e` agree on where it lies.
fn fold_is_coherent(craft: &Papercraft, unfolding: &Unfolding, e: usize, tolerance: i64) -> (ok: bool)
    requires
        craft.wf(),
        unfolding.fits(craft.mesh()),
        e < craft.statuses().len(),
        craft.statuses()[e as int] == EdgeStatus::Joined,
    ensures
        ok == fold_coherent(craft.mesh(), unfolding, e as int, tolerance as int),
{
    let model = craft.model();
    proof {
        assert(model.edge_wf(e as int));
    }
    let a: usize = model.edges[e].f0;
    let b: usize = match model.edges[e].f1 {
        Some(b) => b,
        None => {
            proof {
                assert(false);
            }
            0
        },
    };
    proof {
        assert(model.face_wf(a as int));
        assert(model.face_wf(b as int));
    }
    let i: usize = match model.faces[a].find_edge(e) {
        Some(i) => i,
        None => {
            proof {
                assert(false);
            }
            0
        },
    };
    let j: usize = match model.faces[b].find_edge(e) {
        Some(j) => j,
        None => {
            proof {
                assert(false);
            }
            0
        },
    };
    let na: usize = model.faces[a].edges.len();
    let nb: usize = model.faces[b].edges.len();
    let i_next: usize = if i + 1 >= na {
        0
    } else {
        i + 1
    };
    let j_next: usize = if j + 1 >= nb {
        0
    } else {
        j + 1
    };
    proof {
        assert(unfolding.faces@[a as int]@.len() == na);
        assert(unfolding.faces@[b as int]@.len() == nb);
        assert(unfolding.faces@[a as int]@[i as int].in_range());
        assert(unfolding.faces@[a as int]@[i_next as int].in_range());
        assert(unfolding.faces@[b as int]@[j as int].in_range());
        assert(unfolding.faces@[b as int]@[j_next as int].in_range());
    }
    let starts = is_near(unfolding.faces[a][i], unfolding.faces[b][j_next], tolerance);
    let ends = is_near(unfolding.faces[a][i_next], unfolding.faces[b][j], tolerance);
    starts && ends
}

/// Tests whether the unfolding is coherent within `tolerance`.
pub fn is_coherent(craft: &Papercraft, unfolding: &Unfolding, tolerance: i64) -> (ok: bool)
    requires
        craft.wf(),
        unfolding.fits(craft.mesh()),
    ensures
        ok == coherent(craft, unfolding, tolerance as int),
{
    let count: usize = craft.model().edges.len();
    let mut e: usize = 0;
    while e < count
        invariant
            craft.wf(),
            unfolding.fits(craft.mesh()),
            count == craft.statuses().len(),
            e <= count,
            forall|k: int|
                0 <= k < e && #[trigger] craft.statuses()[k] == EdgeStatus::Joined ==> fold_coherent(
                    craft.mesh(),
                    unfolding,
                    k,
                    tolerance as int,
                ),
        decreases count - e,
    {
        if craft.edge_status(e) == EdgeStatus::Joined {
            if !fold_is_coherent(craft, unfolding, e, tolerance) {
                return false;
            }
        }
        e += 1;
    }
    true
}

} // verus!
