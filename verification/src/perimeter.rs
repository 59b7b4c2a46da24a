//! The perimeter walker: the contour of cut and hidden edges around an
//! island.
//!
//! The walk goes along one perimeter edge in the winding order of its face.
//! At the corner where the edge ends it turns to the next edge of that face;
//! while that edge is a fold, it crosses the fold into the neighbouring face
//! and turns again, about the same corner. The first edge it finds that is
//! no fold is the next edge of the perimeter.

use crate::graph::{face_count, EdgeStatus};
use crate::model::{Face, Model};
use vstd::prelude::*;

verus! {

/// One edge of a perimeter, and the direction in which the face inside the
/// island runs along it: `true` for the edge's first face.
#[derive(Clone, Copy, Debug, PartialEq, Eq, Structural)]
pub struct PerimeterEdge {
    pub edge: usize,
    pub face_sign: bool,
}

impl PerimeterEdge {
    /// The edge.
    pub fn i_edge(&self) -> (e: usize)
        ensures
            e == self.edge,
    {
        self.edge
    }

    /// The direction in which the face inside the island runs along the
    /// edge.
    pub fn face_sign(&self) -> (s: bool)
        ensures
            s == self.face_sign,
    {
        self.face_sign
    }
}

/// Whether `i` is a position of face `f` of the mesh.
pub open spec fn is_slot(model: &Model, f: int, i: int) -> bool {
    0 <= f < face_count(model) && 0 <= i < model.faces@[f].edges.len()
}

/// Whether every fold of `status` has two faces.
pub open spec fn folds_have_two_faces(model: &Model, status: Seq<EdgeStatus>) -> bool {
    &&& status.len() == model.edges.len()
    &&& forall|e: int|
        0 <= e < status.len() && #[trigger] status[e] == EdgeStatus::Joined ==> model.edges@[e].f1 is Some
}

/// The perimeter entry of the edge at position `i` of face `f`.
pub open spec fn entry_at(model: &Model, f: int, i: int) -> PerimeterEdge {
    let e = model.faces@[f].edges@[i];
    PerimeterEdge { edge: e, face_sign: model.edges@[e as int].f0 == f }
}

/// The vertex at which a face that runs along the edge in the entry's
/// direction enters the edge.
pub open spec fn start_vertex(model: &Model, p: PerimeterEdge) -> usize {
    if p.face_sign {
        model.edges@[p.edge as int].v0
    } else {
        model.edges@[p.edge as int].v1
    }
}

/// The vertex at which a face that runs along the edge in the entry's
/// direction leaves the edge.
pub open spec fn end_vertex(model: &Model, p: PerimeterEdge) -> usize {
    if p.face_sign {
        model.edges@[p.edge as int].v1
    } else {
        model.edges@[p.edge as int].v0
    }
}

/// Whether the entry names an edge of the mesh and a face on that side of
/// it which lists the edge.
pub open spec fn entry_wf(model: &Model, p: PerimeterEdge) -> bool {
    &&& p.edge < model.edges.len()
    &&& match model.edges@[p.edge as int].face_by_sign_spec(p.face_sign) {
        Some(f) => f < face_count(model) && model.faces@[f as int].position_of(p.edge) is Some,
        None => false,
    }
}

/// The most steps that a walk or a turn takes: each edge once in each
/// direction, and one more.
pub open spec fn fuel(model: &Model) -> nat {
    (2 * model.edges.len() + 1) as nat
}

/// The first position, turning about the corner at which position `i` of
/// face `f` starts, whose edge is no fold: position `i` itself if its edge
/// is none, else what turning finds from the position after the fold in
/// the face across it. `None` if `fuel` steps do not find one.
#[verifier::opaque]
pub open spec fn turn(model: &Model, status: Seq<EdgeStatus>, f: int, i: int, fuel: nat) -> Option<
    (int, int),
>
    decreases fuel,
{
    let e = model.faces@[f].edges@[i];
    if fuel == 0 {
        None
    } else if status[e as int] != EdgeStatus::Joined {
        Some((f, i))
    } else {
        match model.edges@[e as int].other_face_spec(f as usize) {
            Some(g) => match model.faces@[g as int].position_of(e) {
                Some(j) => turn(
                    model,
                    status,
                    g as int,
                    Face::next_slot(model.faces@[g as int].edges.len() as int, j),
                    (fuel - 1) as nat,
                ),
                None => None,
            },
            None => None,
        }
    }
}

/// The entries of the walk that starts along the edge at position `i` of
/// face `f` and ends before the entry `first` comes up. `None` if `steps`
/// edges do not lead there.
#[verifier::opaque]
pub open spec fn contour(
    model: &Model,
    status: Seq<EdgeStatus>,
    first: PerimeterEdge,
    f: int,
    i: int,
    steps: nat,
) -> Option<Seq<PerimeterEdge>>
    decreases steps,
{
    if steps == 0 {
        None
    } else {
        match turn(
            model,
            status,
            f,
            Face::next_slot(model.faces@[f].edges.len() as int, i),
            fuel(model),
        ) {
            Some((g, j)) => if entry_at(model, g, j) == first {
                Some(seq![entry_at(model, f, i)])
            } else {
                match contour(model, status, first, g, j, (steps - 1) as nat) {
                    Some(rest) => Some(seq![entry_at(model, f, i)] + rest),
                    None => None,
                }
            },
            None => None,
        }
    }
}

/// The closed contour that starts along the edge at position `i` of face
/// `f`: the entries of the walk from there until it comes back.
pub open spec fn closed_contour(model: &Model, status: Seq<EdgeStatus>, f: int, i: int) -> Option<
    Seq<PerimeterEdge>,
> {
    contour(model, status, entry_at(model, f, i), f, i, fuel(model))
}

/// What a face lists at a position agrees with the perimeter entry there:
/// the entry starts at the corner of that position and ends at the next.
pub proof fn lemma_entry_at(model: &Model, f: int, i: int)
    requires
        model.wf(),
        is_slot(model, f, i),
    ensures
        entry_wf(model, entry_at(model, f, i)),
        model.edges@[entry_at(model, f, i).edge as int].face_by_sign_spec(
            entry_at(model, f, i).face_sign,
        ) == Some(f as usize),
        start_vertex(model, entry_at(model, f, i)) == model.faces@[f].vertices@[i],
        end_vertex(model, entry_at(model, f, i)) == model.faces@[f].vertices@[Face::next_slot(
            model.faces@[f].edges.len() as int,
            i,
        )],
{
    assert(model.face_wf(f));
    assert(model.slot_wf(f, i));
    let e = model.faces@[f].edges@[i];
    assert(model.edge_wf(e as int));
    model.faces@[f].lemma_position_of(e);
}

/// Across a fold, the position after the fold in the other face starts at
/// the corner at which the fold starts in this face.
proof fn lemma_across_fold(model: &Model, status: Seq<EdgeStatus>, f: int, i: int)
    requires
        model.wf(),
        folds_have_two_faces(model, status),
        is_slot(model, f, i),
        status[model.faces@[f].edges@[i] as int] == EdgeStatus::Joined,
    ensures
        ({
            let e = model.faces@[f].edges@[i];
            let across = model.edges@[e as int].other_face_spec(f as usize);
            &&& across is Some
            &&& model.faces@[across.unwrap() as int].position_of(e) is Some
            &&& {
                let g = across.unwrap() as int;
                let j = model.faces@[g].position_of(e).unwrap();
                let k = Face::next_slot(model.faces@[g].edges.len() as int, j);
                is_slot(model, g, k) && model.faces@[g].vertices@[k] == model.faces@[f].vertices@[i]
            }
        }),
{
    assert(model.face_wf(f));
    assert(model.slot_wf(f, i));
    let e = model.faces@[f].edges@[i];
    assert(model.edge_wf(e as int));
    assert(model.edges@[e as int].f1 is Some);
    let g = model.edges@[e as int].other_face_spec(f as usize).unwrap();
    model.faces@[g as int].lemma_position_of(e);
    let j = model.faces@[g as int].position_of(e).unwrap();
    assert(model.face_wf(g as int));
    assert(model.slot_wf(g as int, j));
}

/// Turning stays at its corner: the position it finds is a position of the
/// mesh, its edge is no fold, and it starts at the corner at which the
/// turn began.
pub proof fn lemma_turn(model: &Model, status: Seq<EdgeStatus>, f: int, i: int, steps: nat)
    requires
        model.wf(),
        folds_have_two_faces(model, status),
        is_slot(model, f, i),
        turn(model, status, f, i, steps) is Some,
    ensures
        ({
            let (g, j) = turn(model, status, f, i, steps).unwrap();
            &&& is_slot(model, g, j)
            &&& status[model.faces@[g].edges@[j] as int] != EdgeStatus::Joined
            &&& model.faces@[g].vertices@[j] == model.faces@[f].vertices@[i]
        }),
    decreases steps,
{
    reveal(turn);
    let e = model.faces@[f].edges@[i];
    if steps > 0 && status[e as int] == EdgeStatus::Joined {
        lemma_across_fold(model, status, f, i);
        let g = model.edges@[e as int].other_face_spec(f as usize).unwrap();
        let j = model.faces@[g as int].position_of(e).unwrap();
        let k = Face::next_slot(model.faces@[g as int].edges.len() as int, j);
        lemma_turn(model, status, g as int, k, (steps - 1) as nat);
    }
}

/// Whether each entry of `entries` ends at the vertex at which the next
/// starts, and the last ends where `first` starts.
pub open spec fn is_chain(model: &Model, entries: Seq<PerimeterEdge>, first: PerimeterEdge) -> bool {
    &&& entries.len() >= 1
    &&& forall|k: int| 0 <= k < entries.len() ==> entry_wf(model, #[trigger] entries[k])
    &&& forall|j: int, k: int|
        0 <= j && k == j + 1 && k < entries.len() ==> end_vertex(model, #[trigger] entries[j])
            == start_vertex(model, #[trigger] entries[k])
    &&& end_vertex(model, entries.last()) == start_vertex(model, first)
}

proof fn lemma_chain_extends(
    model: &Model,
    here: PerimeterEdge,
    rest: Seq<PerimeterEdge>,
    first: PerimeterEdge,
)
    requires
        entry_wf(model, here),
        is_chain(model, rest, first),
        end_vertex(model, here) == start_vertex(model, rest[0]),
    ensures
        is_chain(model, seq![here] + rest, first),
{
    let entries = seq![here] + rest;
    assert forall|k: int| 0 <= k < entries.len() implies entry_wf(model, #[trigger] entries[k]) by {
        if k > 0 {
            assert(entries[k] == rest[k - 1]);
        }
    }
    assert forall|j: int, k: int| 0 <= j && k == j + 1 && k < entries.len() implies end_vertex(
        model,
        #[trigger] entries[j],
    ) == start_vertex(model, #[trigger] entries[k]) by {
        if j > 0 {
            assert(entries[j] == rest[j - 1] && entries[k] == rest[k - 1]);
        } else {
            assert(entries[0] == here && entries[1] == rest[0]);
        }
    }
    assert(entries.last() == rest.last());
}

proof fn lemma_chain_of_one(model: &Model, here: PerimeterEdge, first: PerimeterEdge)
    requires
        entry_wf(model, here),
        end_vertex(model, here) == start_vertex(model, first),
    ensures
        is_chain(model, seq![here], first),
{
    let entries = seq![here];
    assert(entries[0] == here);
    assert(entries.last() == here);
}

/// What a walk is, one step unfolded.
proof fn lemma_contour_unfolds(
    model: &Model,
    status: Seq<EdgeStatus>,
    first: PerimeterEdge,
    f: int,
    i: int,
    steps: nat,
)
    requires
        contour(model, status, first, f, i, steps) is Some,
    ensures
        steps > 0,
        turn(
            model,
            status,
            f,
            Face::next_slot(model.faces@[f].edges.len() as int, i),
            fuel(model),
        ) is Some,
        ({
            let found = turn(
                model,
                status,
                f,
                Face::next_slot(model.faces@[f].edges.len() as int, i),
                fuel(model),
            ).unwrap();
            let entries = contour(model, status, first, f, i, steps).unwrap();
            if entry_at(model, found.0, found.1) == first {
                entries == seq![entry_at(model, f, i)]
            } else {
                let rest = contour(model, status, first, found.0, found.1, (steps - 1) as nat);
                rest is Some && entries == seq![entry_at(model, f, i)] + rest.unwrap()
            }
        }),
{
    reveal(contour);
}

/// The entries of a walk form a chain: each is an edge of the mesh, each
/// ends at the vertex at which the next starts, and the last ends at the
/// vertex at which the entry that stopped the walk starts.
pub proof fn lemma_contour_is_chain(
    model: &Model,
    status: Seq<EdgeStatus>,
    first: PerimeterEdge,
    f: int,
    i: int,
    steps: nat,
)
    requires
        model.wf(),
        folds_have_two_faces(model, status),
        is_slot(model, f, i),
        contour(model, status, first, f, i, steps) is Some,
    ensures
        is_chain(model, contour(model, status, first, f, i, steps).unwrap(), first),
        contour(model, status, first, f, i, steps).unwrap()[0] == entry_at(model, f, i),
    decreases steps,
{
    let n = model.faces@[f].edges.len() as int;
    let next = Face::next_slot(n, i);
    let here = entry_at(model, f, i);
    lemma_contour_unfolds(model, status, first, f, i, steps);
    let found = turn(model, status, f, next, fuel(model)).unwrap();
    lemma_entry_at(model, f, i);
    lemma_turn(model, status, f, next, fuel(model));
    lemma_entry_at(model, found.0, found.1);
    if entry_at(model, found.0, found.1) == first {
        lemma_chain_of_one(model, here, first);
    } else {
        let rest = contour(model, status, first, found.0, found.1, (steps - 1) as nat).unwrap();
        lemma_contour_is_chain(model, status, first, found.0, found.1, (steps - 1) as nat);
        lemma_chain_extends(model, here, rest, first);
    }
}

/// A closed contour is cyclic: its entries are edges of the mesh, each
/// ends at the vertex at which the next starts, and the last ends at the
/// vertex at which the first starts.
pub proof fn lemma_perimeter_closes(model: &Model, status: Seq<EdgeStatus>, f: int, i: int)
    requires
        model.wf(),
        folds_have_two_faces(model, status),
        is_slot(model, f, i),
        closed_contour(model, status, f, i) is Some,
    ensures
        ({
            let entries = closed_contour(model, status, f, i).unwrap();
            is_chain(model, entries, entries[0])
        }),
{
    lemma_contour_is_chain(model, status, entry_at(model, f, i), f, i, fuel(model));
}

fn next_index(n: usize, i: usize) -> (r: usize)
    requires
        i < n,
    ensures
        r == Face::next_slot(n as int, i as int),
        r < n,
{
    if i + 1 >= n {
        0
    } else {
        i + 1
    }
}

/// Turns about the corner at which position `i` of face `f` starts, to the
/// first position whose edge is no fold.
pub fn turn_about(model: &Model, status: &Vec<EdgeStatus>, f: usize, i: usize) -> (r: Option<
    (usize, usize),
>)
    requires
        model.wf(),
        folds_have_two_faces(model, status@),
        is_slot(model, f as int, i as int),
    ensures
        match r {
            Some((g, j)) => turn(model, status@, f as int, i as int, fuel(model)) == Some(
                (g as int, j as int),
            ) && is_slot(model, g as int, j as int),
            None => turn(model, status@, f as int, i as int, fuel(model)) is None,
        },
{
    let limit: u128 = 2 * (model.edges.len() as u128) + 1;
    let mut used: u128 = 0;
    let mut cur_f: usize = f;
    let mut cur_i: usize = i;
    while used < limit
        invariant
            model.wf(),
            folds_have_two_faces(model, status@),
            limit == fuel(model),
            used <= limit,
            is_slot(model, cur_f as int, cur_i as int),
            turn(model, status@, f as int, i as int, fuel(model)) == turn(
                model,
                status@,
                cur_f as int,
                cur_i as int,
                (limit - used) as nat,
            ),
        decreases limit - used,
    {
        proof {
            reveal(turn);
            assert(model.face_wf(cur_f as int));
            assert(model.slot_wf(cur_f as int, cur_i as int));
        }
        let e: usize = model.faces[cur_f].edges[cur_i];
        if status[e] != EdgeStatus::Joined {
            return Some((cur_f, cur_i));
        }
        proof {
            assert(model.edge_wf(e as int));
        }
        match model.edges[e].other_face(cur_f) {
            Some(g) => match model.faces[g].find_edge(e) {
                Some(j) => {
                    proof {
                        assert(model.face_wf(g as int));
                    }
                    cur_i = next_index(model.faces[g].edges.len(), j);
                    cur_f = g;
                },
                None => {
                    return None;
                },
            },
            None => {
                return None;
            },
        }
        used += 1;
    }
    proof {
        reveal(turn);
    }
    None
}

/// Walks the closed contour that starts along the edge at position `i` of
/// face `f`.
pub fn walk_contour(model: &Model, status: &Vec<EdgeStatus>, f: usize, i: usize) -> (r: Option<
    Vec<PerimeterEdge>,
>)
    requires
        model.wf(),
        folds_have_two_faces(model, status@),
        is_slot(model, f as int, i as int),
    ensures
        match r {
            Some(entries) => closed_contour(model, status@, f as int, i as int) == Some(entries@),
            None => closed_contour(model, status@, f as int, i as int) is None,
        },
{
    let limit: u128 = 2 * (model.edges.len() as u128) + 1;
    let first = entry_of(model, f, i);
    let mut entries: Vec<PerimeterEdge> = Vec::new();
    let mut used: u128 = 0;
    let mut cur_f: usize = f;
    let mut cur_i: usize = i;
    while used < limit
        invariant
            model.wf(),
            folds_have_two_faces(model, status@),
            limit == fuel(model),
            used <= limit,
            first == entry_at(model, f as int, i as int),
            is_slot(model, cur_f as int, cur_i as int),
            closed_contour(model, status@, f as int, i as int) == prepend(
                entries@,
                contour(model, status@, first, cur_f as int, cur_i as int, (limit - used) as nat),
            ),
        decreases limit - used,
    {
        let here = entry_of(model, cur_f, cur_i);
        let ghost before = entries@;
        entries.push(here);
        proof {
            reveal(contour);
            assert(model.face_wf(cur_f as int));
        }
        let next = next_index(model.faces[cur_f].edges.len(), cur_i);
        match turn_about(model, status, cur_f, next) {
            Some((g, j)) => {
                let found = entry_of(model, g, j);
                if found == first {
                    proof {
                        assert(before + seq![here] =~= entries@);
                    }
                    return Some(entries);
                }
                proof {
                    let rest = contour(model, status@, first, g as int, j as int, (limit - used - 1) as nat);
                    if rest is Some {
                        assert(before + (seq![here] + rest.unwrap()) =~= entries@ + rest.unwrap());
                    }
                }
                cur_f = g;
                cur_i = j;
            },
            None => {
                return None;
            },
        }
        used += 1;
    }
    proof {
        reveal(contour);
    }
    None
}

/// `prefix` followed by `rest`, where there is a rest.
pub open spec fn prepend(prefix: Seq<PerimeterEdge>, rest: Option<Seq<PerimeterEdge>>) -> Option<
    Seq<PerimeterEdge>,
> {
    match rest {
        Some(r) => Some(prefix + r),
        None => None,
    }
}

fn entry_of(model: &Model, f: usize, i: usize) -> (p: PerimeterEdge)
    requires
        model.wf(),
        is_slot(model, f as int, i as int),
    ensures
        p == entry_at(model, f as int, i as int),
{
    proof {
        assert(model.face_wf(f as int));
        assert(model.slot_wf(f as int, i as int));
    }
    let e: usize = model.faces[f].edges[i];
    PerimeterEdge { edge: e, face_sign: model.edges[e].f0 == f }
}

} // verus!
