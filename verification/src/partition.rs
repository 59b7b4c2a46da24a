//! How the classes of connected faces change when one edge is cut or
//! joined.

use crate::graph::{
    adjacent, connected, connected_by_way_of, face_count, fold_between, folds_kept,
    lemma_connected_across_new_fold, lemma_connected_monotonic, lemma_connected_refl,
    lemma_connected_step, lemma_connected_sym, lemma_connected_trans, EdgeStatus,
};
use crate::model::Model;
use vstd::prelude::*;

verus! {

/// Whether `keys` gives two faces the same key exactly if they are
/// connected.
pub open spec fn keys_match_folds(model: &Model, status: Seq<EdgeStatus>, keys: Seq<u64>) -> bool {
    &&& keys.len() == face_count(model)
    &&& forall|f: int, g: int|
        0 <= f < keys.len() && 0 <= g < keys.len() ==> ((#[trigger] keys[f] == #[trigger] keys[g])
            <==> connected(model, status, f, g))
}

/// Whether the same edges are folds in `first` and in `second`.
pub open spec fn same_folds(first: Seq<EdgeStatus>, second: Seq<EdgeStatus>) -> bool {
    &&& first.len() == second.len()
    &&& forall|e: int|
        0 <= e < first.len() ==> ((#[trigger] first[e] == EdgeStatus::Joined) <==> second[e]
            == EdgeStatus::Joined)
}

/// `keys` with the key `loser` replaced by `survivor`.
pub open spec fn merged_keys(keys: Seq<u64>, loser: u64, survivor: u64) -> Seq<u64> {
    Seq::new(
        keys.len(),
        |f: int|
            if keys[f] == loser {
                survivor
            } else {
                keys[f]
            },
    )
}

/// `keys` with the key of every marked face replaced by `fresh`.
pub open spec fn split_keys(keys: Seq<u64>, marks: Seq<bool>, fresh: u64) -> Seq<u64> {
    Seq::new(
        keys.len(),
        |f: int|
            if marks[f] {
                fresh
            } else {
                keys[f]
            },
    )
}

/// Whether edge `e` lies between the two faces `a` and `b` of the mesh.
pub open spec fn edge_between(model: &Model, e: int, a: int, b: int) -> bool {
    &&& 0 <= e < model.edges.len()
    &&& model.edges@[e].f0 == a
    &&& model.edges@[e].f1 == Some(b as usize)
    &&& 0 <= a < face_count(model)
    &&& 0 <= b < face_count(model)
}

/// Connection depends on which edges are folds, and on nothing else.
pub proof fn lemma_same_folds_same_classes(
    model: &Model,
    first: Seq<EdgeStatus>,
    second: Seq<EdgeStatus>,
    keys: Seq<u64>,
)
    requires
        same_folds(first, second),
        keys_match_folds(model, first, keys),
    ensures
        keys_match_folds(model, second, keys),
{
    assert(folds_kept(first, second));
    assert(folds_kept(second, first));
    assert forall|f: int, g: int| 0 <= f < keys.len() && 0 <= g < keys.len() implies ((
    #[trigger] keys[f] == #[trigger] keys[g]) <==> connected(model, second, f, g)) by {
        if connected(model, first, f, g) {
            lemma_connected_monotonic(model, first, second, f, g);
        }
        if connected(model, second, f, g) {
            lemma_connected_monotonic(model, second, first, f, g);
        }
    }
}

/// The two faces of a fold are connected.
pub proof fn lemma_fold_connects(model: &Model, status: Seq<EdgeStatus>, e: int, a: int, b: int)
    requires
        edge_between(model, e, a, b),
        e < status.len(),
        status[e] == EdgeStatus::Joined,
    ensures
        connected(model, status, a, b),
        connected(model, status, b, a),
{
    lemma_connected_refl(model, status, a);
    assert(fold_between(model, status, e, a, b));
    assert(adjacent(model, status, a, b));
    lemma_connected_step(model, status, a, a, b);
    lemma_connected_sym(model, status, a, b);
}

/// Faces connected by way of two connected faces are connected.
proof fn lemma_by_way_of_connected(
    model: &Model,
    status: Seq<EdgeStatus>,
    a: int,
    b: int,
    f: int,
    g: int,
)
    requires
        connected(model, status, a, b),
        connected_by_way_of(model, status, a, b, f, g),
    ensures
        connected(model, status, f, g),
{
    lemma_connected_sym(model, status, a, b);
    if connected(model, status, f, g) {
    } else if connected(model, status, f, a) && connected(model, status, b, g) {
        lemma_connected_trans(model, status, f, a, b);
        lemma_connected_trans(model, status, f, b, g);
    } else {
        lemma_connected_trans(model, status, f, b, a);
        lemma_connected_trans(model, status, f, a, g);
    }
}

/// Joining an edge whose faces are in the same class leaves the classes
/// as they are.
pub proof fn lemma_join_within_class(
    model: &Model,
    status: Seq<EdgeStatus>,
    keys: Seq<u64>,
    e: int,
    a: int,
    b: int,
)
    requires
        edge_between(model, e, a, b),
        e < status.len(),
        keys_match_folds(model, status, keys),
        keys[a] == keys[b],
    ensures
        keys_match_folds(model, status.update(e, EdgeStatus::Joined), keys),
{
    let joined = status.update(e, EdgeStatus::Joined);
    assert(folds_kept(status, joined));
    assert(connected(model, status, a, b));
    assert forall|f: int, g: int| 0 <= f < keys.len() && 0 <= g < keys.len() implies ((
    #[trigger] keys[f] == #[trigger] keys[g]) <==> connected(model, joined, f, g)) by {
        if connected(model, status, f, g) {
            lemma_connected_monotonic(model, status, joined, f, g);
        }
        if connected(model, joined, f, g) {
            lemma_connected_across_new_fold(model, status, e, f, g);
            lemma_by_way_of_connected(model, status, a, b, f, g);
        }
    }
}

/// Joining an edge whose faces are in two classes makes one class of the
/// two and leaves the others as they are.
pub proof fn lemma_join_merges_classes(
    model: &Model,
    status: Seq<EdgeStatus>,
    keys: Seq<u64>,
    e: int,
    a: int,
    b: int,
    loser: u64,
    survivor: u64,
)
    requires
        edge_between(model, e, a, b),
        e < status.len(),
        keys_match_folds(model, status, keys),
        keys[a] != keys[b],
        (loser == keys[a] && survivor == keys[b]) || (loser == keys[b] && survivor == keys[a]),
    ensures
        keys_match_folds(
            model,
            status.update(e, EdgeStatus::Joined),
            merged_keys(keys, loser, survivor),
        ),
{
    let joined = status.update(e, EdgeStatus::Joined);
    let after = merged_keys(keys, loser, survivor);
    assert(folds_kept(status, joined));
    lemma_fold_connects(model, joined, e, a, b);
    assert forall|f: int, g: int| 0 <= f < after.len() && 0 <= g < after.len() implies ((
    #[trigger] after[f] == #[trigger] after[g]) <==> connected(model, joined, f, g)) by {
        assert(keys[f] == keys[a] <==> connected(model, status, f, a));
        assert(keys[f] == keys[b] <==> connected(model, status, f, b));
        assert(keys[g] == keys[a] <==> connected(model, status, g, a));
        assert(keys[g] == keys[b] <==> connected(model, status, g, b));
        assert(keys[f] == keys[g] <==> connected(model, status, f, g));
        if after[f] == after[g] {
            if keys[f] == keys[g] {
                lemma_connected_monotonic(model, status, joined, f, g);
            } else {
                // One of the two faces was in the class of `a`, the other in that of `b`.
                if keys[f] == keys[a] {
                    lemma_connected_monotonic(model, status, joined, f, a);
                    lemma_connected_monotonic(model, status, joined, g, b);
                    lemma_connected_sym(model, joined, g, b);
                    lemma_connected_trans(model, joined, f, a, b);
                    lemma_connected_trans(model, joined, f, b, g);
                } else {
                    lemma_connected_monotonic(model, status, joined, f, b);
                    lemma_connected_monotonic(model, status, joined, g, a);
                    lemma_connected_sym(model, joined, g, a);
                    lemma_connected_trans(model, joined, f, b, a);
                    lemma_connected_trans(model, joined, f, a, g);
                }
            }
        }
        if connected(model, joined, f, g) {
            lemma_connected_across_new_fold(model, status, e, f, g);
            if connected(model, status, b, g) {
                lemma_connected_sym(model, status, b, g);
            }
            if connected(model, status, a, g) {
                lemma_connected_sym(model, status, a, g);
            }
        }
    }
}

/// Cutting a fold whose faces stay connected leaves the classes as they
/// are.
pub proof fn lemma_cut_within_class(
    model: &Model,
    status: Seq<EdgeStatus>,
    keys: Seq<u64>,
    e: int,
    a: int,
    b: int,
    cut: EdgeStatus,
)
    requires
        edge_between(model, e, a, b),
        e < status.len(),
        status[e] == EdgeStatus::Joined,
        cut != EdgeStatus::Joined,
        keys_match_folds(model, status, keys),
        connected(model, status.update(e, cut), a, b),
    ensures
        keys_match_folds(model, status.update(e, cut), keys),
{
    let after = status.update(e, cut);
    assert(after.update(e, EdgeStatus::Joined) =~= status);
    assert(folds_kept(after, status));
    assert forall|f: int, g: int| 0 <= f < keys.len() && 0 <= g < keys.len() implies ((
    #[trigger] keys[f] == #[trigger] keys[g]) <==> connected(model, after, f, g)) by {
        if connected(model, after, f, g) {
            lemma_connected_monotonic(model, after, status, f, g);
        }
        if connected(model, status, f, g) {
            lemma_connected_across_new_fold(model, after, e, f, g);
            lemma_by_way_of_connected(model, after, a, b, f, g);
        }
    }
}

/// Cutting a fold whose faces do not stay connected splits their class in
/// two and leaves the others as they are: the faces that stay connected to
/// `near`, one of the two faces of the edge, become a class of their own.
pub proof fn lemma_cut_splits_class(
    model: &Model,
    status: Seq<EdgeStatus>,
    keys: Seq<u64>,
    e: int,
    a: int,
    b: int,
    cut: EdgeStatus,
    near: int,
    marks: Seq<bool>,
    fresh: u64,
)
    requires
        edge_between(model, e, a, b),
        e < status.len(),
        status[e] == EdgeStatus::Joined,
        cut != EdgeStatus::Joined,
        keys_match_folds(model, status, keys),
        near == a || near == b,
        marks.len() == keys.len(),
        forall|f: int|
            0 <= f < marks.len() ==> (marks[f] <==> connected(model, status.update(e, cut), near, f)),
        !marks[a] || !marks[b],
        forall|f: int| 0 <= f < keys.len() ==> keys[f] != fresh,
    ensures
        keys_match_folds(model, status.update(e, cut), split_keys(keys, marks, fresh)),
{
    let after = status.update(e, cut);
    let labels = split_keys(keys, marks, fresh);
    assert(after.update(e, EdgeStatus::Joined) =~= status);
    assert(folds_kept(after, status));
    lemma_connected_refl(model, after, near);
    assert(marks[near]);
    assert forall|f: int, g: int| 0 <= f < labels.len() && 0 <= g < labels.len() implies ((
    #[trigger] labels[f] == #[trigger] labels[g]) <==> connected(model, after, f, g)) by {
        assert(keys[f] == keys[g] <==> connected(model, status, f, g));
        if connected(model, after, f, g) {
            lemma_connected_monotonic(model, after, status, f, g);
            if marks[f] {
                lemma_connected_trans(model, after, near, f, g);
            }
            if marks[g] {
                lemma_connected_sym(model, after, f, g);
                lemma_connected_trans(model, after, near, g, f);
            }
        }
        if labels[f] == labels[g] {
            if marks[f] {
                lemma_connected_sym(model, after, near, f);
                lemma_connected_trans(model, after, f, near, g);
            } else {
                lemma_connected_across_new_fold(model, after, e, f, g);
                if !connected(model, after, f, g) {
                    // The chain from `f` to `g` crossed the edge: one of the two
                    // faces would be connected to `near`.
                    if connected(model, after, f, a) && connected(model, after, b, g) {
                        if near == a {
                            lemma_connected_sym(model, after, f, a);
                        }
                    } else {
                        if near == b {
                            lemma_connected_sym(model, after, f, b);
                        }
                    }
                }
            }
        }
    }
}

} // verus!
