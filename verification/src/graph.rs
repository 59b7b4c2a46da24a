//! The fold graph: faces as nodes, joined edges as links.
//!
//! Two faces are connected when a chain of folds leads from one to the
//! other. The connected components of this graph are the islands.

use crate::model::Model;
use vstd::prelude::*;

verus! {

/// On which side of a cut edge a flap protrudes: on none, on the side of the
/// edge's first face (`A`), of its second face (`B`), or on both.
#[derive(Clone, Copy, Debug, PartialEq, Eq, Structural)]
pub enum FlapSide {
    Neither,
    A,
    B,
    Both,
}

/// The state of an edge: a fold that joins its two faces, a cut, or hidden.
#[derive(Clone, Copy, Debug, PartialEq, Eq, Structural)]
pub enum EdgeStatus {
    Joined,
    Cut(FlapSide),
    Hidden,
}

impl FlapSide {
    /// Whether a flap on this side shows on the face that runs along the
    /// edge in direction `face_sign`.
    pub open spec fn visible_on(self, face_sign: bool) -> bool {
        match self {
            FlapSide::Neither => false,
            FlapSide::A => face_sign,
            FlapSide::B => !face_sign,
            FlapSide::Both => true,
        }
    }

    /// Tests whether a flap on this side shows on the face that runs along
    /// the edge in direction `face_sign`.
    pub fn flap_visible(self, face_sign: bool) -> (v: bool)
        ensures
            v == self.visible_on(face_sign),
    {
        match self {
            FlapSide::Neither => false,
            FlapSide::A => face_sign,
            FlapSide::B => !face_sign,
            FlapSide::Both => true,
        }
    }
}

/// Number of faces of the mesh.
pub open spec fn face_count(model: &Model) -> int {
    model.faces.len() as int
}

/// Whether edge `e` is a fold between the faces `f` and `g`.
pub open spec fn fold_between(model: &Model, status: Seq<EdgeStatus>, e: int, f: int, g: int) -> bool {
    &&& 0 <= e < model.edges@.len()
    &&& e < status.len()
    &&& status[e] == EdgeStatus::Joined
    &&& match model.edges@[e].f1 {
        Some(h) => (model.edges@[e].f0 == f && h == g) || (model.edges@[e].f0 == g && h == f),
        None => false,
    }
}

/// Whether some fold lies between the faces `f` and `g`.
pub open spec fn adjacent(model: &Model, status: Seq<EdgeStatus>, f: int, g: int) -> bool {
    exists|e: int| fold_between(model, status, e, f, g)
}

/// Whether `path` is a chain of faces, each joined to the next by a fold.
pub open spec fn is_path(model: &Model, status: Seq<EdgeStatus>, path: Seq<int>) -> bool {
    &&& path.len() > 0
    &&& forall|i: int| 0 <= i < path.len() ==> 0 <= #[trigger] path[i] < face_count(model)
    &&& forall|i: int|
        #![trigger path[i]]
        0 <= i < path.len() - 1 ==> adjacent(model, status, path[i], path[i + 1])
}

/// Whether a chain of folds leads from face `f` to face `g`.
pub open spec fn connected(model: &Model, status: Seq<EdgeStatus>, f: int, g: int) -> bool {
    exists|path: Seq<int>| #[trigger]
        is_path(model, status, path) && path[0] == f && path.last() == g
}

/// Every face is connected to itself.
pub proof fn lemma_connected_refl(model: &Model, status: Seq<EdgeStatus>, f: int)
    requires
        0 <= f < face_count(model),
    ensures
        connected(model, status, f, f),
{
    let path = seq![f];
    assert(is_path(model, status, path));
    assert(path[0] == f && path.last() == f);
}

/// A fold extends a chain by one face.
pub proof fn lemma_connected_step(model: &Model, status: Seq<EdgeStatus>, f: int, g: int, h: int)
    requires
        connected(model, status, f, g),
        adjacent(model, status, g, h),
        0 <= h < face_count(model),
    ensures
        connected(model, status, f, h),
{
    let path = choose|path: Seq<int>| #[trigger]
        is_path(model, status, path) && path[0] == f && path.last() == g;
    let longer = path.push(h);
    assert forall|i: int| 0 <= i < longer.len() implies 0 <= #[trigger] longer[i] < face_count(
        model,
    ) by {
        if i < path.len() {
            assert(longer[i] == path[i]);
        }
    }
    assert forall|i: int|
        #![trigger longer[i]]
        0 <= i < longer.len() - 1 implies adjacent(model, status, longer[i], longer[i + 1]) by {
        if i < path.len() - 1 {
            assert(longer[i] == path[i] && longer[i + 1] == path[i + 1]);
        } else {
            assert(longer[i] == g && longer[i + 1] == h);
        }
    }
    assert(is_path(model, status, longer));
    assert(longer[0] == path[0] && longer.last() == h);
}

/// Adjacency does not depend on the order of the two faces.
pub proof fn lemma_adjacent_sym(model: &Model, status: Seq<EdgeStatus>, f: int, g: int)
    requires
        adjacent(model, status, f, g),
    ensures
        adjacent(model, status, g, f),
{
    let e = choose|e: int| fold_between(model, status, e, f, g);
    assert(fold_between(model, status, e, g, f));
}

/// A chain can be walked backwards.
pub proof fn lemma_connected_sym(model: &Model, status: Seq<EdgeStatus>, f: int, g: int)
    requires
        connected(model, status, f, g),
    ensures
        connected(model, status, g, f),
{
    let path = choose|path: Seq<int>| #[trigger]
        is_path(model, status, path) && path[0] == f && path.last() == g;
    let n = path.len() as int;
    let back = Seq::new(path.len(), |i: int| path[n - 1 - i]);
    assert forall|i: int| 0 <= i < back.len() implies 0 <= #[trigger] back[i] < face_count(model) by {
        assert(back[i] == path[n - 1 - i]);
    }
    assert forall|i: int|
        #![trigger back[i]]
        0 <= i < back.len() - 1 implies adjacent(model, status, back[i], back[i + 1]) by {
        let k = n - 2 - i;
        assert(back[i] == path[k + 1] && back[i + 1] == path[k]);
        assert(adjacent(model, status, path[k], path[k + 1]));
        lemma_adjacent_sym(model, status, path[k], path[k + 1]);
    }
    assert(is_path(model, status, back));
    assert(back[0] == g && back.last() == f);
}

/// Two chains that meet make one chain.
pub proof fn lemma_connected_trans(model: &Model, status: Seq<EdgeStatus>, f: int, g: int, h: int)
    requires
        connected(model, status, f, g),
        connected(model, status, g, h),
    ensures
        connected(model, status, f, h),
{
    let first = choose|path: Seq<int>| #[trigger]
        is_path(model, status, path) && path[0] == f && path.last() == g;
    let second = choose|path: Seq<int>| #[trigger]
        is_path(model, status, path) && path[0] == g && path.last() == h;
    lemma_chain_append(model, status, f, g, second, second.len() as int);
}

/// A chain from `f` to `g` followed by the first `n` faces of a chain that
/// starts at `g` leads from `f` to the last of those faces.
proof fn lemma_chain_append(
    model: &Model,
    status: Seq<EdgeStatus>,
    f: int,
    g: int,
    second: Seq<int>,
    n: int,
)
    requires
        connected(model, status, f, g),
        is_path(model, status, second),
        second[0] == g,
        1 <= n <= second.len(),
    ensures
        connected(model, status, f, second[n - 1]),
    decreases n,
{
    if n > 1 {
        lemma_chain_append(model, status, f, g, second, n - 1);
        assert(adjacent(model, status, second[n - 2], second[n - 2 + 1]));
        assert(0 <= second[n - 1] < face_count(model));
        lemma_connected_step(model, status, f, second[n - 2], second[n - 1]);
    }
}

/// A set of faces that holds `start` and, with each face, the faces joined
/// to it by a fold, holds every face connected to `start`.
pub proof fn lemma_closed_set_holds_component(
    model: &Model,
    status: Seq<EdgeStatus>,
    inside: Set<int>,
    start: int,
    g: int,
)
    requires
        inside.contains(start),
        forall|f: int, h: int|
            inside.contains(f) && 0 <= h < face_count(model) && #[trigger] adjacent(
                model,
                status,
                f,
                h,
            ) ==> inside.contains(h),
        connected(model, status, start, g),
    ensures
        inside.contains(g),
{
    let path = choose|path: Seq<int>| #[trigger]
        is_path(model, status, path) && path[0] == start && path.last() == g;
    lemma_closed_set_holds_chain(model, status, inside, path, path.len() as int);
}

proof fn lemma_closed_set_holds_chain(
    model: &Model,
    status: Seq<EdgeStatus>,
    inside: Set<int>,
    path: Seq<int>,
    n: int,
)
    requires
        is_path(model, status, path),
        inside.contains(path[0]),
        forall|f: int, h: int|
            inside.contains(f) && 0 <= h < face_count(model) && #[trigger] adjacent(
                model,
                status,
                f,
                h,
            ) ==> inside.contains(h),
        1 <= n <= path.len(),
    ensures
        inside.contains(path[n - 1]),
    decreases n,
{
    if n > 1 {
        lemma_closed_set_holds_chain(model, status, inside, path, n - 1);
        assert(adjacent(model, status, path[n - 2], path[n - 2 + 1]));
        assert(0 <= path[n - 1] < face_count(model));
    }
}

/// Whether every fold of `fewer` is a fold of `more`.
pub open spec fn folds_kept(fewer: Seq<EdgeStatus>, more: Seq<EdgeStatus>) -> bool {
    &&& fewer.len() == more.len()
    &&& forall|e: int|
        0 <= e < fewer.len() && #[trigger] fewer[e] == EdgeStatus::Joined ==> more[e]
            == EdgeStatus::Joined
}

/// Faces that are connected stay connected when folds are added.
pub proof fn lemma_connected_monotonic(
    model: &Model,
    fewer: Seq<EdgeStatus>,
    more: Seq<EdgeStatus>,
    f: int,
    g: int,
)
    requires
        folds_kept(fewer, more),
        connected(model, fewer, f, g),
    ensures
        connected(model, more, f, g),
{
    let path = choose|path: Seq<int>| #[trigger]
        is_path(model, fewer, path) && path[0] == f && path.last() == g;
    assert forall|i: int|
        #![trigger path[i]]
        0 <= i < path.len() - 1 implies adjacent(model, more, path[i], path[i + 1]) by {
        let (h, k) = (path[i], path[i + 1]);
        assert(adjacent(model, fewer, h, k));
        let e = choose|e: int| fold_between(model, fewer, e, h, k);
        assert(fold_between(model, more, e, h, k));
    }
    assert(is_path(model, more, path));
}

/// Whether `f` and `g` are connected directly or by way of the two faces
/// `a` and `b`, passing from one to the other.
pub open spec fn connected_by_way_of(
    model: &Model,
    status: Seq<EdgeStatus>,
    a: int,
    b: int,
    f: int,
    g: int,
) -> bool {
    ||| connected(model, status, f, g)
    ||| (connected(model, status, f, a) && connected(model, status, b, g))
    ||| (connected(model, status, f, b) && connected(model, status, a, g))
}

/// Joining one edge connects no more than what one passage across that
/// edge connects: faces connected after edge `e`, between the faces `a` and
/// `b`, has become a fold were connected before, directly or by way of `a`
/// and `b`.
pub proof fn lemma_connected_across_new_fold(
    model: &Model,
    status: Seq<EdgeStatus>,
    e: int,
    f: int,
    g: int,
)
    requires
        0 <= e < model.edges@.len(),
        e < status.len(),
        model.edges@[e].f1 is Some,
        model.edges@[e].f0 < face_count(model),
        model.edges@[e].f1.unwrap() < face_count(model),
        connected(model, status.update(e, EdgeStatus::Joined), f, g),
    ensures
        connected_by_way_of(
            model,
            status,
            model.edges@[e].f0 as int,
            model.edges@[e].f1.unwrap() as int,
            f,
            g,
        ),
{
    let joined = status.update(e, EdgeStatus::Joined);
    let path = choose|path: Seq<int>| #[trigger]
        is_path(model, joined, path) && path[0] == f && path.last() == g;
    lemma_chain_across_new_fold(model, status, e, path, path.len() as int);
}

proof fn lemma_chain_across_new_fold(
    model: &Model,
    status: Seq<EdgeStatus>,
    e: int,
    path: Seq<int>,
    n: int,
)
    requires
        0 <= e < model.edges@.len(),
        e < status.len(),
        model.edges@[e].f1 is Some,
        model.edges@[e].f0 < face_count(model),
        model.edges@[e].f1.unwrap() < face_count(model),
        is_path(model, status.update(e, EdgeStatus::Joined), path),
        1 <= n <= path.len(),
    ensures
        connected_by_way_of(
            model,
            status,
            model.edges@[e].f0 as int,
            model.edges@[e].f1.unwrap() as int,
            path[0],
            path[n - 1],
        ),
    decreases n,
{
    let joined = status.update(e, EdgeStatus::Joined);
    let a = model.edges@[e].f0 as int;
    let b = model.edges@[e].f1.unwrap() as int;
    let f = path[0];
    assert(0 <= path[0] < face_count(model));
    if n == 1 {
        lemma_connected_refl(model, status, f);
    } else {
        lemma_chain_across_new_fold(model, status, e, path, n - 1);
        let h = path[n - 2];
        let g = path[n - 1];
        assert(0 <= path[n - 2] < face_count(model));
        assert(0 <= path[n - 1] < face_count(model));
        assert(adjacent(model, joined, path[n - 2], path[n - 2 + 1]));
        let via = choose|via: int| fold_between(model, joined, via, h, g);
        lemma_connected_refl(model, status, a);
        lemma_connected_refl(model, status, b);
        if via != e {
            assert(fold_between(model, status, via, h, g));
            assert(adjacent(model, status, h, g));
            if connected(model, status, f, h) {
                lemma_connected_step(model, status, f, h, g);
            } else if connected(model, status, f, a) && connected(model, status, b, h) {
                lemma_connected_step(model, status, b, h, g);
            } else {
                lemma_connected_step(model, status, a, h, g);
            }
        } else {
            assert((h == a && g == b) || (h == b && g == a));
        }
    }
}

} // verus!
