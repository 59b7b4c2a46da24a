//! The actions that a client asks for, and the formats of an export.

use crate::arrange::{pack_islands, pack_outcome, set_options, set_options_outcome};
use crate::craft::{posed, CraftError, EdgeToggleFlapAction, Papercraft};
use crate::geometry::Point2;
use crate::graph::{connected, face_count, EdgeStatus, FlapSide};
use crate::layout::Unfolding;
use crate::options::PaperOptions;
use vstd::prelude::*;
use vstd::string::StrSliceExecFns;

verus! {

/// What a client asks to be done to a papercraft.
#[derive(Clone, Copy, Debug)]
pub enum Action {
    ToggleFlap { edge: usize, action: EdgeToggleFlapAction },
    Cut { edge: usize, offset: Option<i64> },
    Join { edge: usize, priority_face: Option<usize> },
    MoveIsland { island: u64, delta: Point2 },
    /// Turns an island by `angle`; `pos` is the place to which the turn
    /// takes the origin of its root face.
    RotateIsland { island: u64, angle: i64, pos: Point2 },
    SetOptions { options: PaperOptions, relocate_pieces: bool },
    PackIslands,
}

/// What is left to do after an action.
#[derive(Clone, Copy, Debug, PartialEq, Eq, Structural)]
pub enum Followup {
    /// The unfolding is as the papercraft asks for it.
    Settled,
    /// Islands have moved or the scale has changed: the unfolding has to
    /// be derived anew from the places of the islands.
    Unfold,
    /// Islands have split or merged: each island has to take its rotation
    /// from how its root face lies in the unfolding, and the unfolding has
    /// to be derived anew. The islands that a split has made are at the
    /// places of their root faces already.
    Anchor,
    /// The scale has changed and the islands are to be arranged: the
    /// unfolding has to be derived anew, and the islands arranged after
    /// that.
    Repack,
}

/// What is left to do after an action on the papercraft `before` that
/// succeeds.
pub open spec fn followup_of(before: &Papercraft, action: Action) -> Followup {
    match action {
        Action::Cut { .. } => Followup::Anchor,
        Action::Join { .. } => Followup::Anchor,
        Action::MoveIsland { .. } => Followup::Unfold,
        Action::RotateIsland { .. } => Followup::Unfold,
        Action::SetOptions { options, relocate_pieces } => if options.scale
            == before.paper().scale {
            Followup::Settled
        } else if relocate_pieces {
            Followup::Repack
        } else {
            Followup::Unfold
        },
        _ => Followup::Settled,
    }
}

/// The result of an operation that tells of nothing but its success.
pub open spec fn plain(r: Result<Followup, CraftError>) -> Result<(), CraftError> {
    match r {
        Ok(_) => Ok(()),
        Err(e) => Err(e),
    }
}

/// Whether a cut of edge `edge` of the papercraft splits an island.
pub open spec fn splits(craft: &Papercraft, edge: usize) -> bool {
    edge < craft.statuses().len() && craft.cut_splits(edge as int)
}

/// The result of a cut of edge `edge`: the key of the new island, if an
/// island splits.
pub open spec fn cut_result(craft: &Papercraft, edge: usize, r: Result<Followup, CraftError>) -> Result<
    Option<u64>,
    CraftError,
> {
    match r {
        Ok(_) => Ok(
            if splits(craft, edge) {
                Some(craft.key_bound())
            } else {
                None
            },
        ),
        Err(e) => Err(e),
    }
}

/// Whether `after` and `r` are what a cut of edge `edge` makes of the
/// papercraft `before`, with the unfolding `laid`: what the cut makes of
/// it and, where an island splits, the new island and the island that it
/// came from at the places at which the unfolding has the origins of
/// their root faces, so that every face keeps its place.
pub open spec fn cut_action_outcome(
    before: &Papercraft,
    laid: &Unfolding,
    after: &Papercraft,
    edge: usize,
    offset: Option<i64>,
    r: Result<Followup, CraftError>,
) -> bool {
    if r is Ok && splits(before, edge) {
        exists|between: Papercraft|
            between.wf() && #[trigger] before.cut_outcome(
                &between,
                edge,
                offset,
                cut_result(before, edge, r),
            ) && between.anchor_outcome(
                after,
                before.key_bound(),
                before.keys()[before.near_face(edge as int, offset)],
                laid,
            )
    } else {
        before.cut_outcome(after, edge, offset, cut_result(before, edge, r))
    }
}

/// Whether `after`, `moved` and `r` are what the action makes of the
/// papercraft `before` and the unfolding `laid`: what the operation that
/// the action asks for makes of them. Only the actions that arrange the
/// islands touch the unfolding.
pub open spec fn action_outcome(
    before: &Papercraft,
    laid: &Unfolding,
    after: &Papercraft,
    moved: &Unfolding,
    action: Action,
    r: Result<Followup, CraftError>,
) -> bool {
    &&& r matches Ok(followup) ==> followup == followup_of(before, action)
    &&& match action {
        Action::ToggleFlap { edge, action } => before.toggle_outcome(after, edge, action, plain(r))
            && moved.faces == laid.faces,
        Action::Cut { edge, offset } => cut_action_outcome(before, laid, after, edge, offset, r)
            && moved.faces == laid.faces,
        Action::Join { edge, priority_face } => before.join_outcome(
            after,
            edge,
            priority_face,
            plain(r),
        ) && moved.faces == laid.faces,
        Action::MoveIsland { island, delta } => before.translate_outcome(
            after,
            island,
            delta,
            plain(r),
        ) && moved.faces == laid.faces,
        Action::RotateIsland { island, angle, pos } => before.rotate_outcome(
            after,
            island,
            angle,
            pos,
            plain(r),
        ) && moved.faces == laid.faces,
        Action::SetOptions { options, relocate_pieces } => set_options_outcome(
            before,
            laid,
            after,
            moved,
            options,
            relocate_pieces,
            plain(r),
        ),
        Action::PackIslands => pack_outcome(before, laid, after, moved, plain(r)),
    }
}

/// The key of the island of the face that a cut of edge `edge` with the
/// hint `offset` names.
fn cut_island(craft: &Papercraft, edge: usize, offset: Option<i64>) -> (key: u64)
    requires
        craft.wf(),
    ensures
        edge < craft.statuses().len() ==> key == craft.keys()[craft.near_face(edge as int, offset)],
{
    let model = craft.model();
    if edge >= model.edges.len() {
        return 0;
    }
    proof {
        assert(model.edge_wf(edge as int));
    }
    let e = model.edges[edge];
    let towards_second: bool = match offset {
        Some(o) => o < 0,
        None => false,
    };
    match e.f1 {
        Some(g) => if towards_second {
            craft.island_of_face(g)
        } else {
            craft.island_of_face(e.f0)
        },
        None => craft.island_of_face(e.f0),
    }
}

/// Does to the papercraft what the action asks for, and tells what is
/// left to do to the unfolding. An action that arranges the islands moves
/// the faces of the unfolding with them.
///
/// Fails as the operations of the papercraft fail.
pub fn perform_action(craft: &mut Papercraft, unfolding: &mut Unfolding, action: Action) -> (r: Result<
    Followup,
    CraftError,
>)
    requires
        old(craft).wf(),
        old(unfolding).fits(old(craft).mesh()),
    ensures
        final(craft).wf(),
        final(craft).mesh() == old(craft).mesh(),
        final(unfolding).fits(final(craft).mesh()),
        action_outcome(old(craft), old(unfolding), final(craft), final(unfolding), action, r),
{
    let r = match action {
        Action::ToggleFlap { edge, action } => match craft.edge_toggle_flap(edge, action) {
            Ok(()) => Ok(Followup::Settled),
            Err(e) => Err(e),
        },
        Action::Cut { edge, offset } => {
            let kept: u64 = cut_island(craft, edge, offset);
            let done = craft.edge_cut(edge, offset);
            let ghost between = *craft;
            match done {
                Ok(Some(fresh)) => {
                    craft.anchor_islands(fresh, kept, unfolding);
                    proof {
                        assert(old(craft).cut_outcome(
                            &between,
                            edge,
                            offset,
                            cut_result(old(craft), edge, Ok(Followup::Anchor)),
                        ));
                    }
                    Ok(Followup::Anchor)
                },
                Ok(None) => Ok(Followup::Anchor),
                Err(e) => Err(e),
            }
        },
        Action::Join { edge, priority_face } => match craft.edge_join(edge, priority_face) {
            Ok(()) => Ok(Followup::Anchor),
            Err(e) => Err(e),
        },
        Action::MoveIsland { island, delta } => match craft.island_translate(island, delta) {
            Ok(()) => Ok(Followup::Unfold),
            Err(e) => Err(e),
        },
        Action::RotateIsland { island, angle, pos } => match craft.island_rotate(island, angle, pos) {
            Ok(()) => Ok(Followup::Unfold),
            Err(e) => Err(e),
        },
        Action::SetOptions { options, relocate_pieces } => {
            let left: Followup = if options.scale == craft.options().scale {
                Followup::Settled
            } else if relocate_pieces {
                Followup::Repack
            } else {
                Followup::Unfold
            };
            let done = set_options(craft, unfolding, options, relocate_pieces);
            let r: Result<Followup, CraftError> = match done {
                Ok(()) => Ok(left),
                Err(e) => Err(e),
            };
            proof {
                if done is Ok {
                    assert(done->Ok_0 == ());
                    assert(done == Ok::<(), CraftError>(()));
                }
                assert(plain(r) == done);
            }
            r
        },
        Action::PackIslands => {
            let done = pack_islands(craft, unfolding);
            let r: Result<Followup, CraftError> = match done {
                Ok(()) => Ok(Followup::Settled),
                Err(e) => Err(e),
            };
            proof {
                if done is Ok {
                    assert(done->Ok_0 == ());
                    assert(done == Ok::<(), CraftError>(()));
                }
                assert(plain(r) == done);
            }
            r
        },
    };
    proof {
        match action {
            Action::ToggleFlap { edge, action } => {
                assert(old(craft).toggle_outcome(craft, edge, action, plain(r)));
            },
            Action::Cut { edge, offset } => {
                assert(cut_action_outcome(old(craft), old(unfolding), craft, edge, offset, r));
            },
            Action::Join { edge, priority_face } => {
                assert(old(craft).join_outcome(craft, edge, priority_face, plain(r)));
            },
            Action::MoveIsland { island, delta } => {
                assert(old(craft).translate_outcome(craft, island, delta, plain(r)));
            },
            Action::RotateIsland { island, angle, pos } => {
                assert(old(craft).rotate_outcome(craft, island, angle, pos, plain(r)));
            },
            Action::SetOptions { options, relocate_pieces } => {
                assert(set_options_outcome(
                    old(craft),
                    old(unfolding),
                    craft,
                    unfolding,
                    options,
                    relocate_pieces,
                    plain(r),
                ));
            },
            Action::PackIslands => {
                assert(pack_outcome(old(craft), old(unfolding), craft, unfolding, plain(r)));
            },
        }
    }
    r
}

/// Joining a cut edge without flap and cutting it again changes nothing
/// but, at most, the keys and roots of islands: the edges are in the state
/// they were in, the options and the places of the faces are as they
/// were, the same faces are together in an island, and there are as many
/// islands as before.
pub proof fn lemma_join_then_cut_restores(
    start: &Papercraft,
    laid: &Unfolding,
    joined: &Papercraft,
    held: &Unfolding,
    cut: &Papercraft,
    kept: &Unfolding,
    edge: usize,
    priority_face: Option<usize>,
    offset: Option<i64>,
    first: Result<Followup, CraftError>,
    second: Result<Followup, CraftError>,
    f: int,
    g: int,
)
    requires
        start.wf(),
        joined.wf(),
        cut.wf(),
        edge < start.statuses().len(),
        start.statuses()[edge as int] == EdgeStatus::Cut(FlapSide::Neither),
        action_outcome(start, laid, joined, held, Action::Join { edge, priority_face }, first),
        action_outcome(joined, held, cut, kept, Action::Cut { edge, offset }, second),
        first is Ok,
        second is Ok,
        0 <= f < face_count(start.mesh()),
        0 <= g < face_count(start.mesh()),
    ensures
        cut.mesh() == start.mesh(),
        cut.paper() == start.paper(),
        cut.statuses() == start.statuses(),
        kept.faces == laid.faces,
        start.keys()[f] == start.keys()[g] <==> cut.keys()[f] == cut.keys()[g],
        cut.island_seq().len() == start.island_seq().len(),
{
    assert(start.join_outcome(joined, edge, priority_face, plain(first)));
    let e = start.mesh().edges@[edge as int];
    let (a, b) = (e.f0 as int, e.f1.unwrap() as int);
    assert(start.mesh().edge_wf(edge as int));
    assert(joined.cut_statuses(edge as int) =~= start.statuses());
    assert(start.keys()[a] == start.keys()[b] <==> connected(
        start.mesh(),
        start.statuses(),
        a,
        b,
    ));
    assert(splits(joined, edge) <==> start.keys()[a] != start.keys()[b]);
    assert(cut_action_outcome(joined, held, cut, edge, offset, second));
    assert(joined.statuses() == start.statuses().update(edge as int, EdgeStatus::Joined));
    assert(cut.statuses() == joined.cut_statuses(edge as int) && cut.mesh() == joined.mesh()
        && cut.paper() == joined.paper()) by {
        if splits(joined, edge) {
            let between = choose|between: Papercraft|
                between.wf() && #[trigger] joined.cut_outcome(
                    &between,
                    edge,
                    offset,
                    cut_result(joined, edge, second),
                ) && between.anchor_outcome(
                    cut,
                    joined.key_bound(),
                    joined.keys()[joined.near_face(edge as int, offset)],
                    held,
                );
        }
    }
    assert(cut.statuses() =~= start.statuses());
    crate::craft::lemma_islands_follow_folds(start, cut, f, g);
}

/// Cutting a fold and joining it again changes nothing but, at most, the
/// keys, roots and places of islands: the edges are in the state they
/// were in, the options and the places of the faces are as they were, and
/// the same faces are together in an island.
pub proof fn lemma_cut_then_join_restores(
    start: &Papercraft,
    laid: &Unfolding,
    cut: &Papercraft,
    held: &Unfolding,
    joined: &Papercraft,
    kept: &Unfolding,
    edge: usize,
    offset: Option<i64>,
    priority_face: Option<usize>,
    first: Result<Followup, CraftError>,
    second: Result<Followup, CraftError>,
    f: int,
    g: int,
)
    requires
        start.wf(),
        cut.wf(),
        joined.wf(),
        edge < start.statuses().len(),
        start.statuses()[edge as int] == EdgeStatus::Joined,
        action_outcome(start, laid, cut, held, Action::Cut { edge, offset }, first),
        action_outcome(cut, held, joined, kept, Action::Join { edge, priority_face }, second),
        first is Ok,
        second is Ok,
        0 <= f < face_count(start.mesh()),
        0 <= g < face_count(start.mesh()),
    ensures
        joined.mesh() == start.mesh(),
        joined.paper() == start.paper(),
        joined.statuses() == start.statuses(),
        kept.faces == laid.faces,
        start.keys()[f] == start.keys()[g] <==> joined.keys()[f] == joined.keys()[g],
        joined.island_seq().len() == start.island_seq().len(),
{
    assert(cut_action_outcome(start, laid, cut, edge, offset, first));
    assert(cut.join_outcome(joined, edge, priority_face, plain(second)));
    assert(cut.statuses() == start.cut_statuses(edge as int) && cut.mesh() == start.mesh()
        && cut.paper() == start.paper()) by {
        if splits(start, edge) {
            let between = choose|between: Papercraft|
                between.wf() && #[trigger] start.cut_outcome(
                    &between,
                    edge,
                    offset,
                    cut_result(start, edge, first),
                ) && between.anchor_outcome(
                    cut,
                    start.key_bound(),
                    start.keys()[start.near_face(edge as int, offset)],
                    laid,
                );
        }
    }
    assert(joined.statuses() =~= start.statuses());
    crate::craft::lemma_islands_follow_folds(start, joined, f, g);
    let e = start.mesh().edges@[edge as int];
    let (a, b) = (e.f0 as int, e.f1.unwrap() as int);
    assert(start.mesh().edge_wf(edge as int));
    if splits(start, edge) {
        let near = start.near_face(edge as int, offset);
        let far = start.far_face(edge as int, offset);
        crate::graph::lemma_connected_refl(cut.mesh(), cut.statuses(), near);
        if connected(cut.mesh(), cut.statuses(), near, far) {
            crate::graph::lemma_connected_sym(cut.mesh(), cut.statuses(), near, far);
        }
        assert(cut.keys()[near] == start.key_bound());
        assert(crate::craft::has_key(start.island_seq(), start.keys()[far]));
        let w = choose|w: int|
            0 <= w < start.island_seq().len() && (#[trigger] start.island_seq()[w]).key
                == start.keys()[far];
        assert(crate::craft::island_ok(start.island_seq()[w], start.keys(), start.key_bound()));
        assert(cut.keys()[far] == start.keys()[far]);
        assert(cut.keys()[a] != cut.keys()[b]);
    } else {
        crate::partition::lemma_fold_connects(start.mesh(), start.statuses(), edge as int, a, b);
        assert(start.keys()[a] == start.keys()[b]);
    }
}

/// A cut that splits an island leaves one island more: the edge is a cut
/// without flap, every face keeps its place, the faces that stay connected
/// to the face that the cut names are the new island, with the next key,
/// and every other face keeps its key. The new island lies where the
/// unfolding has the origin of its root face.
pub proof fn lemma_split_adds_an_island(
    before: &Papercraft,
    laid: &Unfolding,
    after: &Papercraft,
    kept: &Unfolding,
    edge: usize,
    offset: Option<i64>,
    r: Result<Followup, CraftError>,
)
    requires
        before.wf(),
        after.wf(),
        action_outcome(before, laid, after, kept, Action::Cut { edge, offset }, r),
        r is Ok,
        splits(before, edge),
    ensures
        after.island_seq().len() == before.island_seq().len() + 1,
        after.statuses() == before.cut_statuses(edge as int),
        kept.faces == laid.faces,
        forall|f: int|
            0 <= f < before.keys().len() ==> #[trigger] after.keys()[f] == (if connected(
                after.mesh(),
                after.statuses(),
                before.near_face(edge as int, offset),
                f,
            ) {
                before.key_bound()
            } else {
                before.keys()[f]
            }),
        ({
            let newcomer = after.island_seq()[before.island_seq().len() as int];
            &&& newcomer.key == before.key_bound()
            &&& newcomer.root == before.near_face(edge as int, offset)
            &&& newcomer.pos == laid.corner(newcomer.root as int, 0)
        }),
{
    assert(cut_action_outcome(before, laid, after, edge, offset, r));
    let between = choose|between: Papercraft|
        between.wf() && #[trigger] before.cut_outcome(
            &between,
            edge,
            offset,
            cut_result(before, edge, r),
        ) && between.anchor_outcome(
            after,
            before.key_bound(),
            before.keys()[before.near_face(edge as int, offset)],
            laid,
        );
    let count = before.island_seq().len() as int;
    assert(after.island_seq()[count] == posed(
        between.island_seq()[count],
        laid.corner(between.island_seq()[count].root as int, 0),
        between.island_seq()[count].rot,
    ));
    assert forall|f: int| 0 <= f < before.keys().len() implies #[trigger] after.keys()[f] == (
    if connected(after.mesh(), after.statuses(), before.near_face(edge as int, offset), f) {
        before.key_bound()
    } else {
        before.keys()[f]
    }) by {
        assert(between.keys()[f] == after.keys()[f]);
    }
}

/// The format of an export.
#[derive(Clone, Copy, Debug, PartialEq, Eq, Structural)]
pub enum ExportFormat {
    Svg,
    Pdf,
}

/// The format that a name stands for: `svg` and `pdf` stand for theirs, any
/// other name for none.
pub open spec fn format_named(name: Seq<char>) -> Option<ExportFormat> {
    if name == seq!['s', 'v', 'g'] {
        Some(ExportFormat::Svg)
    } else if name == seq!['p', 'd', 'f'] {
        Some(ExportFormat::Pdf)
    } else {
        None
    }
}

/// Finds the format that a name stands for.
pub fn export_format(name: &str) -> (format: Option<ExportFormat>)
    ensures
        format == format_named(name@),
{
    if name.unicode_len() != 3 {
        return None;
    }
    let (a, b, c) = (name.get_char(0), name.get_char(1), name.get_char(2));
    proof {
        assert(name@ =~= seq![a, b, c]);
    }
    if a == 's' && b == 'v' && c == 'g' {
        Some(ExportFormat::Svg)
    } else if a == 'p' && b == 'd' && c == 'f' {
        Some(ExportFormat::Pdf)
    } else {
        proof {
            assert(seq!['s', 'v', 'g'][0] == 's' && seq!['s', 'v', 'g'][1] == 'v' && seq![
                's',
                'v',
                'g',
            ][2] == 'g');
            assert(seq!['p', 'd', 'f'][0] == 'p' && seq!['p', 'd', 'f'][1] == 'd' && seq![
                'p',
                'd',
                'f',
            ][2] == 'f');
        }
        None
    }
}

} // verus!
