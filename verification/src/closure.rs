//! Why the perimeter walk comes back to where it began.
//!
//! A face of a well-formed mesh lists no edge twice, so crossing a fold can
//! be undone: the position on the far side tells which fold was crossed and
//! from where. A turn that begins behind an edge that is no fold can
//! therefore never come to a position twice, and as there are only twice as
//! many positions as edges it finds an edge that is no fold. For the same
//! reason the walk from one such edge to the next can be undone, and so it
//! comes back to its first edge.

use crate::graph::{
    connected, fold_between, lemma_connected_refl, lemma_connected_step,
    lemma_connected_trans, EdgeStatus,
};
use crate::model::{lists_once, Face, Model};
use crate::perimeter::{
    closed_contour, contour, entry_at, folds_have_two_faces, fuel, is_slot, lemma_turn, turn,
    PerimeterEdge,
};
use vstd::prelude::*;

verus! {

/// Whether `s` is a position of the mesh whose edge is a fold.
spec fn is_fold(model: &Model, status: Seq<EdgeStatus>, s: (int, int)) -> bool {
    is_slot(model, s.0, s.1) && status[model.faces@[s.0].edges@[s.1] as int] == EdgeStatus::Joined
}

/// Whether `s` is a position of the mesh whose edge is no fold.
spec fn is_rim(model: &Model, status: Seq<EdgeStatus>, s: (int, int)) -> bool {
    is_slot(model, s.0, s.1) && status[model.faces@[s.0].edges@[s.1] as int] != EdgeStatus::Joined
}

/// The position after `s` in its face.
spec fn after(model: &Model, s: (int, int)) -> (int, int) {
    (s.0, Face::next_slot(model.faces@[s.0].edges.len() as int, s.1))
}

/// The position before `s` in its face.
spec fn before(model: &Model, s: (int, int)) -> (int, int) {
    (
        s.0,
        if s.1 == 0 {
            model.faces@[s.0].edges.len() - 1
        } else {
            s.1 - 1
        },
    )
}

/// The position of the edge of `s` in the face across it.
spec fn opposite(model: &Model, s: (int, int)) -> (int, int) {
    let e = model.faces@[s.0].edges@[s.1];
    let g = model.edges@[e as int].other_face_spec(s.0 as usize).unwrap() as int;
    (g, model.faces@[g].position_of(e).unwrap())
}

/// The position at which a turn goes on after it has crossed the fold at `s`.
spec fn hop(model: &Model, s: (int, int)) -> (int, int) {
    after(model, opposite(model, s))
}

/// The position that a turn has reached from `s` after `k` folds.
spec fn trail(model: &Model, s: (int, int), k: nat) -> (int, int)
    decreases k,
{
    if k == 0 {
        s
    } else {
        hop(model, trail(model, s, (k - 1) as nat))
    }
}

/// Whether the first `k` positions of the turn from `s` are folds.
spec fn folds_before(model: &Model, status: Seq<EdgeStatus>, s: (int, int), k: nat) -> bool {
    forall|j: nat| j < k ==> is_fold(model, status, #[trigger] trail(model, s, j))
}

/// The number that stands for the edge of `s` and the side of it on which
/// the face of `s` lies.
spec fn code(model: &Model, s: (int, int)) -> int {
    let p = entry_at(model, s.0, s.1);
    2 * p.edge + if p.face_sign {
        1int
    } else {
        0int
    }
}

/// Among more numbers than `n`, all of them below `n`, two are equal.
proof fn lemma_two_alike(codes: Seq<int>, n: nat) -> (r: (int, int))
    requires
        codes.len() > n,
        forall|k: int| 0 <= k < codes.len() ==> 0 <= #[trigger] codes[k] < n,
    ensures
        0 <= r.0 < r.1 < codes.len(),
        codes[r.0] == codes[r.1],
    decreases n,
{
    if n == 0 {
        assert(codes[0] < n);
        (0, 0)
    } else if exists|k: int| 0 <= k < codes.len() && codes[k] == n - 1 {
        let k = choose|k: int| 0 <= k < codes.len() && codes[k] == n - 1;
        let rest = codes.remove(k);
        if exists|m: int| 0 <= m < rest.len() && rest[m] == n - 1 {
            let m = choose|m: int| 0 <= m < rest.len() && rest[m] == n - 1;
            if m < k {
                (m, k)
            } else {
                (k, m + 1)
            }
        } else {
            assert forall|m: int| 0 <= m < rest.len() implies 0 <= #[trigger] rest[m] < n - 1 by {
                if m < k {
                    assert(rest[m] == codes[m]);
                } else {
                    assert(rest[m] == codes[m + 1]);
                }
            }
            let (a, b) = lemma_two_alike(rest, (n - 1) as nat);
            let x = if a < k {
                a
            } else {
                a + 1
            };
            let y = if b < k {
                b
            } else {
                b + 1
            };
            (x, y)
        }
    } else {
        let rest = codes.drop_last();
        assert forall|m: int| 0 <= m < rest.len() implies 0 <= #[trigger] rest[m] < n - 1 by {
            assert(rest[m] == codes[m]);
        }
        lemma_two_alike(rest, (n - 1) as nat)
    }
}

/// Two positions with the same edge on the same side are one position.
proof fn lemma_code(model: &Model, a: (int, int), b: (int, int))
    requires
        model.wf(),
        is_slot(model, a.0, a.1),
        is_slot(model, b.0, b.1),
    ensures
        0 <= code(model, a) < 2 * model.edges.len(),
        code(model, a) == code(model, b) ==> a == b,
{
    assert(model.face_wf(a.0));
    assert(model.slot_wf(a.0, a.1));
    assert(model.face_wf(b.0));
    assert(model.slot_wf(b.0, b.1));
    if code(model, a) == code(model, b) {
        assert(entry_at(model, a.0, a.1).edge == entry_at(model, b.0, b.1).edge);
        assert(entry_at(model, a.0, a.1).face_sign == entry_at(model, b.0, b.1).face_sign);
        assert(a.0 == b.0);
        assert(lists_once(model, a.0));
        if a.1 < b.1 {
            assert(model.faces@[a.0].edges@[a.1] != model.faces@[a.0].edges@[b.1]);
        } else if b.1 < a.1 {
            assert(model.faces@[a.0].edges@[b.1] != model.faces@[a.0].edges@[a.1]);
        }
    }
}

/// A face that lists no edge twice lists the edge of a position there.
proof fn lemma_position_found(model: &Model, s: (int, int))
    requires
        lists_once(model, s.0),
        is_slot(model, s.0, s.1),
    ensures
        model.faces@[s.0].position_of(model.faces@[s.0].edges@[s.1]) == Some(s.1),
{
    let e = model.faces@[s.0].edges@[s.1];
    model.faces@[s.0].lemma_position_of(e);
    let back = model.faces@[s.0].position_of(e).unwrap();
    if back < s.1 {
        assert(model.faces@[s.0].edges@[back] != model.faces@[s.0].edges@[s.1]);
    } else if s.1 < back {
        assert(model.faces@[s.0].edges@[s.1] != model.faces@[s.0].edges@[back]);
    }
}

/// Opposite a fold lies the same fold, seen from the other face.
proof fn lemma_opposite(model: &Model, status: Seq<EdgeStatus>, s: (int, int))
    requires
        model.wf(),
        folds_have_two_faces(model, status),
        is_fold(model, status, s),
    ensures
        model.edges@[model.faces@[s.0].edges@[s.1] as int].other_face_spec(s.0 as usize) is Some,
        model.faces@[opposite(model, s).0].position_of(model.faces@[s.0].edges@[s.1]) is Some,
        is_fold(model, status, opposite(model, s)),
        model.faces@[opposite(model, s).0].edges@[opposite(model, s).1]
            == model.faces@[s.0].edges@[s.1],
        model.edges@[model.faces@[s.0].edges@[s.1] as int].other_face_spec(
            opposite(model, s).0 as usize,
        ) == Some(s.0 as usize),
{
    assert(model.face_wf(s.0));
    assert(model.slot_wf(s.0, s.1));
    let e = model.faces@[s.0].edges@[s.1];
    assert(model.edge_wf(e as int));
    assert(model.edges@[e as int].f1 is Some);
    let g = model.edges@[e as int].other_face_spec(s.0 as usize).unwrap() as int;
    model.faces@[g].lemma_position_of(e);
}

/// The position before the one after `s` is `s`.
proof fn lemma_before_after(model: &Model, s: (int, int))
    requires
        is_slot(model, s.0, s.1),
    ensures
        is_slot(model, after(model, s).0, after(model, s).1),
        before(model, after(model, s)) == s,
{
}

/// Crossing a fold can be undone: the position before the one at which the
/// turn goes on lies opposite the fold.
proof fn lemma_hop(model: &Model, status: Seq<EdgeStatus>, s: (int, int))
    requires
        model.wf(),
        folds_have_two_faces(model, status),
        is_fold(model, status, s),
    ensures
        model.edges@[model.faces@[s.0].edges@[s.1] as int].other_face_spec(s.0 as usize) is Some,
        model.faces@[opposite(model, s).0].position_of(model.faces@[s.0].edges@[s.1]) is Some,
        is_slot(model, hop(model, s).0, hop(model, s).1),
        is_fold(model, status, before(model, hop(model, s))),
        opposite(model, before(model, hop(model, s))) == s,
{
    lemma_opposite(model, status, s);
    let o = opposite(model, s);
    lemma_before_after(model, o);
    assert(lists_once(model, s.0));
    lemma_position_found(model, s);
}

/// The turn from the position after a fold is the rest of the turn from
/// the fold.
proof fn lemma_trail_shifts(model: &Model, s: (int, int), k: nat)
    ensures
        trail(model, s, k + 1) == trail(model, hop(model, s), k),
    decreases k,
{
    if k > 0 {
        lemma_trail_shifts(model, s, (k - 1) as nat);
        assert(trail(model, s, k + 1) == hop(model, trail(model, s, k)));
    } else {
        assert(trail(model, s, 0) == s);
        assert(trail(model, s, 1) == hop(model, trail(model, s, 0)));
    }
}

/// A turn that finds no edge has crossed a fold at every step.
proof fn lemma_turn_fails(model: &Model, status: Seq<EdgeStatus>, s: (int, int), steps: nat)
    requires
        model.wf(),
        folds_have_two_faces(model, status),
        is_slot(model, s.0, s.1),
        turn(model, status, s.0, s.1, steps) is None,
    ensures
        folds_before(model, status, s, steps),
    decreases steps,
{
    reveal(turn);
    if steps > 0 {
        assert(is_fold(model, status, s));
        lemma_hop(model, status, s);
        let h = hop(model, s);
        assert(turn(model, status, s.0, s.1, steps) == turn(
            model,
            status,
            h.0,
            h.1,
            (steps - 1) as nat,
        ));
        lemma_turn_fails(model, status, h, (steps - 1) as nat);
        assert forall|j: nat| j < steps implies is_fold(
            model,
            status,
            #[trigger] trail(model, s, j),
        ) by {
            if j > 0 {
                lemma_trail_shifts(model, s, (j - 1) as nat);
                assert(is_fold(model, status, trail(model, h, (j - 1) as nat)));
            }
        }
    }
}

/// A turn that finds an edge has crossed folds only until it came there.
proof fn lemma_turn_finds(model: &Model, status: Seq<EdgeStatus>, s: (int, int), steps: nat) -> (k:
    nat)
    requires
        model.wf(),
        folds_have_two_faces(model, status),
        is_slot(model, s.0, s.1),
        turn(model, status, s.0, s.1, steps) is Some,
    ensures
        trail(model, s, k) == turn(model, status, s.0, s.1, steps).unwrap(),
        folds_before(model, status, s, k),
    decreases steps,
{
    reveal(turn);
    if is_fold(model, status, s) {
        lemma_hop(model, status, s);
        let h = hop(model, s);
        assert(turn(model, status, s.0, s.1, steps) == turn(
            model,
            status,
            h.0,
            h.1,
            (steps - 1) as nat,
        ));
        let k = lemma_turn_finds(model, status, h, (steps - 1) as nat);
        lemma_trail_shifts(model, s, k);
        assert forall|j: nat| j < k + 1 implies is_fold(
            model,
            status,
            #[trigger] trail(model, s, j),
        ) by {
            if j > 0 {
                lemma_trail_shifts(model, s, (j - 1) as nat);
                assert(is_fold(model, status, trail(model, h, (j - 1) as nat)));
            }
        }
        k + 1
    } else {
        0
    }
}

/// Two turns that meet have run together: the longer one has passed the
/// position at which the shorter one began.
proof fn lemma_trails_meet(
    model: &Model,
    status: Seq<EdgeStatus>,
    s: (int, int),
    a: nat,
    t: (int, int),
    b: nat,
)
    requires
        model.wf(),
        folds_have_two_faces(model, status),
        a <= b,
        folds_before(model, status, s, a),
        folds_before(model, status, t, b),
        trail(model, s, a) == trail(model, t, b),
    ensures
        s == trail(model, t, (b - a) as nat),
    decreases a,
{
    if a > 0 {
        let x = trail(model, s, (a - 1) as nat);
        let y = trail(model, t, (b - 1) as nat);
        assert(is_fold(model, status, x));
        assert(is_fold(model, status, y));
        lemma_hop(model, status, x);
        lemma_hop(model, status, y);
        assert(x == y);
        assert forall|j: nat| j < a - 1 implies is_fold(
            model,
            status,
            #[trigger] trail(model, s, j),
        ) by {}
        assert forall|j: nat| j < b - 1 implies is_fold(
            model,
            status,
            #[trigger] trail(model, t, j),
        ) by {}
        lemma_trails_meet(model, status, s, (a - 1) as nat, t, (b - 1) as nat);
    }
}

/// No turn comes to the position behind an edge that is no fold.
proof fn lemma_trail_leaves(
    model: &Model,
    status: Seq<EdgeStatus>,
    r: (int, int),
    t: (int, int),
    k: nat,
)
    requires
        model.wf(),
        folds_have_two_faces(model, status),
        is_rim(model, status, r),
        k > 0,
        folds_before(model, status, t, k),
    ensures
        trail(model, t, k) != after(model, r),
{
    let x = trail(model, t, (k - 1) as nat);
    assert(is_fold(model, status, x));
    lemma_hop(model, status, x);
    assert(model.face_wf(r.0));
    if trail(model, t, k) == after(model, r) {
        assert(before(model, after(model, r)) == r);
    }
}

/// The turn behind an edge that is no fold finds an edge.
proof fn lemma_turn_ends(model: &Model, status: Seq<EdgeStatus>, r: (int, int))
    requires
        model.wf(),
        folds_have_two_faces(model, status),
        is_rim(model, status, r),
    ensures
        turn(model, status, after(model, r).0, after(model, r).1, fuel(model)) is Some,
{
    let s = after(model, r);
    assert(model.face_wf(r.0));
    assert(is_slot(model, s.0, s.1));
    if turn(model, status, s.0, s.1, fuel(model)) is None {
        lemma_turn_fails(model, status, s, fuel(model));
        let n = (2 * model.edges.len()) as nat;
        let codes = Seq::new(fuel(model), |k: int| code(model, trail(model, s, k as nat)));
        assert forall|k: int| 0 <= k < codes.len() implies 0 <= #[trigger] codes[k] < n by {
            let x = trail(model, s, k as nat);
            assert(is_fold(model, status, x));
            lemma_code(model, x, x);
        }
        let (a, b) = lemma_two_alike(codes, n);
        let x = trail(model, s, a as nat);
        let y = trail(model, s, b as nat);
        assert(is_fold(model, status, x));
        assert(is_fold(model, status, y));
        assert(codes[a] == code(model, x));
        assert(codes[b] == code(model, y));
        lemma_code(model, x, y);
        assert forall|j: nat| j < a implies is_fold(model, status, #[trigger] trail(model, s, j)) by {}
        assert forall|j: nat| j < b implies is_fold(model, status, #[trigger] trail(model, s, j)) by {}
        lemma_trails_meet(model, status, s, a as nat, s, b as nat);
        assert forall|j: nat| j < b - a implies is_fold(
            model,
            status,
            #[trigger] trail(model, s, j),
        ) by {}
        lemma_trail_leaves(model, status, r, s, (b - a) as nat);
    }
}

/// The next edge of the walk after the edge at `r`.
spec fn round(model: &Model, status: Seq<EdgeStatus>, r: (int, int)) -> (int, int) {
    turn(model, status, after(model, r).0, after(model, r).1, fuel(model)).unwrap()
}

/// The position that the walk from `r` has reached after `k` edges.
spec fn orbit(model: &Model, status: Seq<EdgeStatus>, r: (int, int), k: nat) -> (int, int)
    decreases k,
{
    if k == 0 {
        r
    } else {
        round(model, status, orbit(model, status, r, (k - 1) as nat))
    }
}

/// The edge after one that is no fold is no fold.
proof fn lemma_round(model: &Model, status: Seq<EdgeStatus>, r: (int, int))
    requires
        model.wf(),
        folds_have_two_faces(model, status),
        is_rim(model, status, r),
    ensures
        turn(model, status, after(model, r).0, after(model, r).1, fuel(model)) is Some,
        is_rim(model, status, round(model, status, r)),
{
    lemma_turn_ends(model, status, r);
    assert(model.face_wf(r.0));
    lemma_turn(model, status, after(model, r).0, after(model, r).1, fuel(model));
}

/// The walk goes along edges that are no folds.
proof fn lemma_orbit(model: &Model, status: Seq<EdgeStatus>, r: (int, int), k: nat)
    requires
        model.wf(),
        folds_have_two_faces(model, status),
        is_rim(model, status, r),
    ensures
        is_rim(model, status, orbit(model, status, r, k)),
    decreases k,
{
    if k > 0 {
        lemma_orbit(model, status, r, (k - 1) as nat);
        lemma_round(model, status, orbit(model, status, r, (k - 1) as nat));
    }
}

/// The walk from the next edge is the rest of the walk.
proof fn lemma_orbit_shifts(model: &Model, status: Seq<EdgeStatus>, r: (int, int), k: nat)
    ensures
        orbit(model, status, r, k + 1) == orbit(model, status, round(model, status, r), k),
    decreases k,
{
    if k > 0 {
        lemma_orbit_shifts(model, status, r, (k - 1) as nat);
        assert(orbit(model, status, r, k + 1) == round(model, status, orbit(model, status, r, k)));
    } else {
        assert(orbit(model, status, r, 0) == r);
        assert(orbit(model, status, r, 1) == round(model, status, orbit(model, status, r, 0)));
    }
}

/// One step of the walk can be undone: two edges with the same next edge
/// are one edge.
proof fn lemma_round_back(model: &Model, status: Seq<EdgeStatus>, a: (int, int), b: (int, int))
    requires
        model.wf(),
        folds_have_two_faces(model, status),
        is_rim(model, status, a),
        is_rim(model, status, b),
        round(model, status, a) == round(model, status, b),
    ensures
        a == b,
{
    let s = after(model, a);
    let t = after(model, b);
    assert(model.face_wf(a.0));
    assert(model.face_wf(b.0));
    lemma_round(model, status, a);
    lemma_round(model, status, b);
    let m = lemma_turn_finds(model, status, s, fuel(model));
    let n = lemma_turn_finds(model, status, t, fuel(model));
    if m <= n {
        lemma_trails_meet(model, status, s, m, t, n);
        if m < n {
            assert forall|j: nat| j < n - m implies is_fold(
                model,
                status,
                #[trigger] trail(model, t, j),
            ) by {}
            lemma_trail_leaves(model, status, a, t, (n - m) as nat);
        }
    } else {
        lemma_trails_meet(model, status, t, n, s, m);
        assert forall|j: nat| j < m - n implies is_fold(
            model,
            status,
            #[trigger] trail(model, s, j),
        ) by {}
        lemma_trail_leaves(model, status, b, s, (m - n) as nat);
    }
    assert(s == t);
    assert(before(model, s) == a);
    assert(before(model, t) == b);
}

/// A walk that comes to one edge twice has come back to its first edge.
proof fn lemma_orbit_back(model: &Model, status: Seq<EdgeStatus>, r: (int, int), a: nat, b: nat)
    requires
        model.wf(),
        folds_have_two_faces(model, status),
        is_rim(model, status, r),
        a <= b,
        orbit(model, status, r, a) == orbit(model, status, r, b),
    ensures
        r == orbit(model, status, r, (b - a) as nat),
    decreases a,
{
    if a > 0 {
        let x = orbit(model, status, r, (a - 1) as nat);
        let y = orbit(model, status, r, (b - 1) as nat);
        lemma_orbit(model, status, r, (a - 1) as nat);
        lemma_orbit(model, status, r, (b - 1) as nat);
        lemma_round_back(model, status, x, y);
        lemma_orbit_back(model, status, r, (a - 1) as nat, (b - 1) as nat);
    }
}

/// The walk comes back to its first edge after no more edges than the
/// mesh has sides of edges.
proof fn lemma_orbit_returns(model: &Model, status: Seq<EdgeStatus>, r: (int, int)) -> (m: nat)
    requires
        model.wf(),
        folds_have_two_faces(model, status),
        is_rim(model, status, r),
    ensures
        1 <= m < fuel(model),
        orbit(model, status, r, m) == r,
{
    let n = (2 * model.edges.len()) as nat;
    let codes = Seq::new(fuel(model), |k: int| code(model, orbit(model, status, r, k as nat)));
    assert forall|k: int| 0 <= k < codes.len() implies 0 <= #[trigger] codes[k] < n by {
        let x = orbit(model, status, r, k as nat);
        lemma_orbit(model, status, r, k as nat);
        lemma_code(model, x, x);
    }
    let (a, b) = lemma_two_alike(codes, n);
    let x = orbit(model, status, r, a as nat);
    let y = orbit(model, status, r, b as nat);
    lemma_orbit(model, status, r, a as nat);
    lemma_orbit(model, status, r, b as nat);
    assert(codes[a] == code(model, x));
    assert(codes[b] == code(model, y));
    lemma_code(model, x, y);
    lemma_orbit_back(model, status, r, a as nat, b as nat);
    (b - a) as nat
}

/// A walk that comes to the edge `first` within `steps` edges is a contour.
proof fn lemma_contour_found(
    model: &Model,
    status: Seq<EdgeStatus>,
    first: PerimeterEdge,
    r: (int, int),
    m: nat,
    steps: nat,
)
    requires
        model.wf(),
        folds_have_two_faces(model, status),
        is_rim(model, status, r),
        1 <= m <= steps,
        entry_at(model, orbit(model, status, r, m).0, orbit(model, status, r, m).1) == first,
    ensures
        contour(model, status, first, r.0, r.1, steps) is Some,
    decreases steps,
{
    reveal(contour);
    lemma_round(model, status, r);
    let next = round(model, status, r);
    assert(orbit(model, status, r, 0) == r);
    assert(orbit(model, status, r, 1) == next);
    if entry_at(model, next.0, next.1) != first {
        lemma_orbit_shifts(model, status, r, (m - 1) as nat);
        lemma_contour_found(model, status, first, next, (m - 1) as nat, (steps - 1) as nat);
    }
}

/// The walk that starts along an edge which is no fold comes back to it:
/// the closed contour from there exists.
pub proof fn lemma_contour_returns(model: &Model, status: Seq<EdgeStatus>, f: int, i: int)
    requires
        model.wf(),
        folds_have_two_faces(model, status),
        is_slot(model, f, i),
        status[model.faces@[f].edges@[i] as int] != EdgeStatus::Joined,
    ensures
        closed_contour(model, status, f, i) is Some,
{
    let m = lemma_orbit_returns(model, status, (f, i));
    lemma_contour_found(model, status, entry_at(model, f, i), (f, i), m, fuel(model));
}

/// A turn stays among faces that folds connect.
proof fn lemma_trail_connected(model: &Model, status: Seq<EdgeStatus>, s: (int, int), k: nat)
    requires
        model.wf(),
        folds_have_two_faces(model, status),
        is_slot(model, s.0, s.1),
        folds_before(model, status, s, k),
    ensures
        connected(model, status, s.0, trail(model, s, k).0),
    decreases k,
{
    if k == 0 {
        lemma_connected_refl(model, status, s.0);
    } else {
        let x = trail(model, s, (k - 1) as nat);
        assert forall|j: nat| j < k - 1 implies is_fold(
            model,
            status,
            #[trigger] trail(model, s, j),
        ) by {}
        lemma_trail_connected(model, status, s, (k - 1) as nat);
        assert(is_fold(model, status, x));
        lemma_opposite(model, status, x);
        let e = model.faces@[x.0].edges@[x.1];
        let g = hop(model, x).0;
        assert(model.face_wf(x.0));
        assert(model.slot_wf(x.0, x.1));
        assert(fold_between(model, status, e as int, x.0, g));
        lemma_connected_step(model, status, s.0, x.0, g);
    }
}

/// The walk stays among faces that folds connect.
proof fn lemma_orbit_connected(model: &Model, status: Seq<EdgeStatus>, r: (int, int), k: nat)
    requires
        model.wf(),
        folds_have_two_faces(model, status),
        is_rim(model, status, r),
    ensures
        connected(model, status, r.0, orbit(model, status, r, k).0),
    decreases k,
{
    if k == 0 {
        lemma_connected_refl(model, status, r.0);
    } else {
        let x = orbit(model, status, r, (k - 1) as nat);
        lemma_orbit_connected(model, status, r, (k - 1) as nat);
        lemma_orbit(model, status, r, (k - 1) as nat);
        lemma_round(model, status, x);
        lemma_before_after(model, x);
        let found = lemma_turn_finds(model, status, after(model, x), fuel(model));
        lemma_trail_connected(model, status, after(model, x), found);
        lemma_connected_trans(model, status, r.0, x.0, orbit(model, status, r, k).0);
    }
}

/// The entries of a contour are those of the walk, one for each edge that
/// it goes along before `first` comes up.
proof fn lemma_contour_entries(
    model: &Model,
    status: Seq<EdgeStatus>,
    first: PerimeterEdge,
    r: (int, int),
    steps: nat,
)
    requires
        model.wf(),
        folds_have_two_faces(model, status),
        is_rim(model, status, r),
        contour(model, status, first, r.0, r.1, steps) is Some,
    ensures
        ({
            let entries = contour(model, status, first, r.0, r.1, steps).unwrap();
            &&& entries.len() >= 1
            &&& forall|k: int|
                0 <= k < entries.len() ==> #[trigger] entries[k] == entry_of_walk(
                    model,
                    status,
                    r,
                    k,
                )
            &&& entry_of_walk(model, status, r, entries.len() as int) == first
            &&& forall|k: int|
                1 <= k < entries.len() ==> #[trigger] entry_of_walk(model, status, r, k) != first
        }),
    decreases steps,
{
    reveal(contour);
    lemma_round(model, status, r);
    let next = round(model, status, r);
    let entries = contour(model, status, first, r.0, r.1, steps).unwrap();
    assert(orbit(model, status, r, 0) == r);
    assert(orbit(model, status, r, 1) == next);
    if entry_at(model, next.0, next.1) != first {
        let rest = contour(model, status, first, next.0, next.1, (steps - 1) as nat).unwrap();
        lemma_contour_entries(model, status, first, next, (steps - 1) as nat);
        assert(entries == seq![entry_at(model, r.0, r.1)] + rest);
        assert forall|k: int| 0 <= k <= entries.len() implies entry_of_walk(model, status, r, k) == (if k
            == 0 {
            entry_at(model, r.0, r.1)
        } else {
            entry_of_walk(model, status, next, k - 1)
        }) by {
            if k > 0 {
                lemma_orbit_shifts(model, status, r, (k - 1) as nat);
            }
        }
        assert forall|k: int| 0 <= k < entries.len() implies #[trigger] entries[k] == entry_of_walk(
            model,
            status,
            r,
            k,
        ) by {
            if k > 0 {
                assert(entries[k] == rest[k - 1]);
            }
        }
    }
}

/// The entry of the edge that the walk from `r` goes along after `k` edges.
spec fn entry_of_walk(model: &Model, status: Seq<EdgeStatus>, r: (int, int), k: int) -> PerimeterEdge {
    let at = orbit(model, status, r, k as nat);
    entry_at(model, at.0, at.1)
}

/// Whether `p` is the entry of an edge that is no fold, of a face that
/// folds connect to face `f`.
pub open spec fn bounds_island(model: &Model, status: Seq<EdgeStatus>, f: int, p: PerimeterEdge) -> bool {
    exists|g: int, j: int|
        is_slot(model, g, j) && #[trigger] entry_at(model, g, j) == p && status[p.edge as int]
            != EdgeStatus::Joined && connected(model, status, f, g)
}

/// The closed contour that starts along an edge of face `f` goes along
/// edges that are no folds, of faces that folds connect to `f`, and along
/// none of them twice on the same side.
pub proof fn lemma_contour_bounds(model: &Model, status: Seq<EdgeStatus>, f: int, i: int)
    requires
        model.wf(),
        folds_have_two_faces(model, status),
        is_slot(model, f, i),
        status[model.faces@[f].edges@[i] as int] != EdgeStatus::Joined,
    ensures
        closed_contour(model, status, f, i) is Some,
        ({
            let entries = closed_contour(model, status, f, i).unwrap();
            &&& forall|k: int|
                0 <= k < entries.len() ==> bounds_island(model, status, f, #[trigger] entries[k])
            &&& forall|j: int, k: int|
                0 <= j < k < entries.len() ==> #[trigger] entries[j] != #[trigger] entries[k]
        }),
{
    let r = (f, i);
    lemma_contour_returns(model, status, f, i);
    lemma_contour_entries(model, status, entry_at(model, f, i), r, fuel(model));
    let entries = closed_contour(model, status, f, i).unwrap();
    assert forall|k: int| 0 <= k < entries.len() implies bounds_island(
        model,
        status,
        f,
        #[trigger] entries[k],
    ) by {
        let at = orbit(model, status, r, k as nat);
        lemma_orbit(model, status, r, k as nat);
        lemma_orbit_connected(model, status, r, k as nat);
        assert(entries[k] == entry_of_walk(model, status, r, k));
        assert(entry_at(model, at.0, at.1) == entries[k]);
    }
    assert forall|j: int, k: int| 0 <= j < k < entries.len() implies #[trigger] entries[j]
        != #[trigger] entries[k] by {
        let x = orbit(model, status, r, j as nat);
        let y = orbit(model, status, r, k as nat);
        lemma_orbit(model, status, r, j as nat);
        lemma_orbit(model, status, r, k as nat);
        assert(entries[j] == entry_of_walk(model, status, r, j));
        assert(entries[k] == entry_of_walk(model, status, r, k));
        if entries[j] == entries[k] {
            lemma_code(model, x, y);
            lemma_orbit_back(model, status, r, j as nat, k as nat);
            assert(entry_of_walk(model, status, r, k - j) == entry_at(model, f, i));
        }
    }
}

} // verus!
