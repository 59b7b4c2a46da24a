//! The papercraft: a mesh, the state of its edges, and its islands.

use crate::closure::{bounds_island, lemma_contour_bounds, lemma_contour_returns};
use crate::fixed::{digits, push_digits};
use crate::geometry::Point2;
use crate::graph::{
    adjacent, connected, face_count, fold_between, lemma_closed_set_holds_component,
    lemma_connected_refl, lemma_connected_sym, EdgeStatus, FlapSide,
};
use crate::layout::Unfolding;
use crate::model::Model;
use crate::options::PaperOptions;
use crate::partition::{
    edge_between, keys_match_folds, lemma_cut_splits_class, lemma_cut_within_class,
    lemma_join_merges_classes, lemma_join_within_class, lemma_same_folds_same_classes,
    merged_keys, same_folds, split_keys,
};
use crate::perimeter::{
    closed_contour, entry_at, folds_have_two_faces, is_chain, is_slot, lemma_perimeter_closes,
    walk_contour, PerimeterEdge,
};
use crate::traverse::{explore, is_traversal, traversal_order, TraversalStep};
use vstd::prelude::*;

verus! {

/// Why an operation was refused. A refused operation leaves the papercraft
/// as it was.
#[derive(Clone, Copy, Debug, PartialEq, Eq, Structural)]
pub enum CraftError {
    /// The operation does not apply to the edge in its present state.
    InvalidOperation,
    /// No island, edge or face has the given key or index.
    UnknownKey,
}

/// An island: a group of faces joined by folds, laid out as one rigid piece.
#[derive(Debug)]
pub struct Island {
    /// The island's key, which it keeps for as long as it exists.
    pub key: u64,
    /// The face from which the island's layout is derived.
    pub root: usize,
    /// Position of the root face's origin on the canvas.
    pub pos: Point2,
    /// Rotation about the root face's origin, in radians.
    pub rot: i64,
    /// Display name.
    pub name: String,
}

/// A mesh with the state of each edge and the islands that the folds form.
#[derive(Debug)]
pub struct Papercraft {
    model: Model,
    options: PaperOptions,
    edges: Vec<EdgeStatus>,
    face_island: Vec<u64>,
    islands: Vec<Island>,
    next_key: u64,
}

/// Whether `island` is the island of the single face `f` as a new
/// papercraft has it: with the key `f`, at the origin, named by its key.
pub open spec fn single_face_island(island: Island, f: int) -> bool {
    &&& island.key == f
    &&& island.root == f
    &&& island.pos == (Point2 { x: 0, y: 0 })
    &&& island.rot == 0
    &&& island.name@ == digits(f as nat)
}

/// Whether one of `islands` has the key `key`.
pub open spec fn has_key(islands: Seq<Island>, key: u64) -> bool {
    exists|i: int| 0 <= i < islands.len() && (#[trigger] islands[i]).key == key
}

/// Whether `island` has a key below `bound`, a root face with the island's
/// key, and a position within the accepted range.
pub open spec fn island_ok(island: Island, keys: Seq<u64>, bound: u64) -> bool {
    &&& island.key < bound
    &&& island.root < keys.len()
    &&& keys[island.root as int] == island.key
    &&& island.pos.in_range()
}

/// Whether `islands` is the list of the islands of `keys`: in the strict
/// order of their keys, each with its root face, and with an island for
/// the key of every face.
pub open spec fn islands_ok(islands: Seq<Island>, keys: Seq<u64>, bound: u64) -> bool {
    &&& forall|i: int, j: int|
        0 <= i < j < islands.len() ==> (#[trigger] islands[i]).key < (#[trigger] islands[j]).key
    &&& forall|i: int| 0 <= i < islands.len() ==> island_ok(#[trigger] islands[i], keys, bound)
    &&& forall|f: int| 0 <= f < keys.len() ==> has_key(islands, #[trigger] keys[f])
}

/// `island` with the root face `root`.
pub open spec fn rerooted(island: Island, root: usize) -> Island {
    Island { key: island.key, root, pos: island.pos, rot: island.rot, name: island.name }
}

/// `island` at the position `pos` and with the rotation `rot`.
pub open spec fn posed(island: Island, pos: Point2, rot: i64) -> Island {
    Island { key: island.key, root: island.root, pos, rot, name: island.name }
}

/// What a tool does to the flap of a cut edge.
#[derive(Clone, Copy, Debug, PartialEq, Eq, Structural)]
pub enum EdgeToggleFlapAction {
    /// Moves the flap to the other side of the edge.
    Toggle,
    /// Steps to the next of: no flap, side A, side B, both sides.
    Next,
    /// Removes the flap.
    Hide,
}

/// The flap of a cut edge after `action`, for an edge with two faces or
/// with one. An edge with one face has a flap on side A or none.
pub open spec fn flap_after(action: EdgeToggleFlapAction, side: FlapSide, two_faced: bool) -> FlapSide {
    match action {
        EdgeToggleFlapAction::Hide => FlapSide::Neither,
        EdgeToggleFlapAction::Toggle => if two_faced {
            match side {
                FlapSide::A => FlapSide::B,
                FlapSide::B => FlapSide::A,
                other => other,
            }
        } else {
            match side {
                FlapSide::Neither => FlapSide::Neither,
                _ => FlapSide::A,
            }
        },
        EdgeToggleFlapAction::Next => if two_faced {
            match side {
                FlapSide::Neither => FlapSide::A,
                FlapSide::A => FlapSide::B,
                FlapSide::B => FlapSide::Both,
                FlapSide::Both => FlapSide::Neither,
            }
        } else {
            match side {
                FlapSide::Neither => FlapSide::A,
                _ => FlapSide::Neither,
            }
        },
    }
}

/// The key that survives when the islands with the keys `ka` and `kb` are
/// merged: that of the island preferred, if it is one of the two, else the
/// smaller.
pub open spec fn surviving_key(ka: u64, kb: u64, preferred: Option<u64>) -> u64 {
    if preferred == Some(kb) {
        kb
    } else if preferred == Some(ka) {
        ka
    } else if ka < kb {
        ka
    } else {
        kb
    }
}

impl Papercraft {
    /// The mesh.
    pub closed spec fn mesh(&self) -> &Model {
        &self.model
    }

    /// The paper options.
    pub closed spec fn paper(&self) -> PaperOptions {
        self.options
    }

    /// The state of each edge.
    pub closed spec fn statuses(&self) -> Seq<EdgeStatus> {
        self.edges@
    }

    /// For each face, the key of its island.
    pub closed spec fn keys(&self) -> Seq<u64> {
        self.face_island@
    }

    /// The islands, in the order of their keys.
    pub closed spec fn island_seq(&self) -> Seq<Island> {
        self.islands@
    }

    /// A bound above every key given out so far.
    pub closed spec fn key_bound(&self) -> u64 {
        self.next_key
    }

    /// A papercraft is well formed if its mesh and options are, every fold
    /// has two faces, the islands are in the strict order of their keys,
    /// every island holds its root face, every face is in an island, and
    /// two faces are in the same island exactly if they are connected.
    pub open spec fn wf(&self) -> bool {
        &&& self.mesh().wf()
        &&& self.paper().wf()
        &&& folds_have_two_faces(self.mesh(), self.statuses())
        &&& islands_ok(self.island_seq(), self.keys(), self.key_bound())
        &&& keys_match_folds(self.mesh(), self.statuses(), self.keys())
    }

    /// Whether `other` has the same mesh and options as this papercraft.
    pub open spec fn same_model(&self, other: &Papercraft) -> bool {
        self.mesh() == other.mesh() && self.paper() == other.paper()
    }

    /// Whether `other` has the same islands as this papercraft: the same
    /// list of islands, the same key for every face, and the same bound on
    /// keys.
    pub open spec fn same_islands(&self, other: &Papercraft) -> bool {
        &&& self.island_seq() == other.island_seq()
        &&& self.keys() == other.keys()
        &&& self.key_bound() == other.key_bound()
    }

    /// A papercraft of `model` in which every edge is cut, without flaps,
    /// so that every face is an island of its own: the island of face `f`
    /// has the key `f`, lies at the origin and is named by its key.
    ///
    /// Returns `None` where the mesh or the options are not well formed.
    pub fn from_model(model: Model, options: PaperOptions) -> (r: Option<Papercraft>)
        ensures
            r is Some <==> model.wf() && options.wf(),
            match r {
                Some(craft) => {
                    &&& craft.wf()
                    &&& *craft.mesh() == model
                    &&& craft.paper() == options
                    &&& craft.statuses().len() == model.edges.len()
                    &&& forall|e: int|
                        0 <= e < model.edges.len() ==> #[trigger] craft.statuses()[e]
                            == EdgeStatus::Cut(FlapSide::Neither)
                    &&& craft.island_seq().len() == model.faces.len()
                    &&& craft.keys().len() == model.faces.len()
                    &&& craft.key_bound() == model.faces.len()
                    &&& forall|f: int|
                        0 <= f < model.faces.len() ==> #[trigger] craft.keys()[f] == f
                    &&& forall|f: int|
                        0 <= f < model.faces.len() ==> single_face_island(
                            #[trigger] craft.island_seq()[f],
                            f,
                        )
                },
                None => true,
            },
    {
        if !model.is_valid() || !options.is_valid() {
            return None;
        }
        let edge_count: usize = model.edges.len();
        let face_total: usize = model.faces.len();
        let mut edges: Vec<EdgeStatus> = Vec::new();
        while edges.len() < edge_count
            invariant
                edges@.len() <= edge_count,
                forall|e: int|
                    0 <= e < edges@.len() ==> #[trigger] edges@[e] == EdgeStatus::Cut(
                        FlapSide::Neither,
                    ),
            decreases edge_count - edges@.len(),
        {
            edges.push(EdgeStatus::Cut(FlapSide::Neither));
        }
        let mut face_island: Vec<u64> = Vec::new();
        let mut islands: Vec<Island> = Vec::new();
        let mut f: usize = 0;
        while f < face_total
            invariant
                f <= face_total,
                face_island@.len() == f,
                islands@.len() == f,
                forall|k: int| 0 <= k < f ==> #[trigger] face_island@[k] == k,
                forall|k: int| 0 <= k < f ==> single_face_island(#[trigger] islands@[k], k),
            decreases face_total - f,
        {
            let mut name = String::new();
            push_digits(&mut name, f as u128);
            assert(name@ =~= digits(f as nat));
            let ghost before = islands@;
            face_island.push(f as u64);
            let island = Island { key: f as u64, root: f, pos: Point2 { x: 0, y: 0 }, rot: 0, name };
            islands.push(island);
            proof {
                assert forall|k: int| 0 <= k < f + 1 implies single_face_island(
                    #[trigger] islands@[k],
                    k,
                ) by {
                    if k < f {
                        assert(islands@[k] == before[k]);
                    }
                }
            }
            f += 1;
        }
        let craft = Papercraft {
            model,
            options,
            edges,
            face_island,
            islands,
            next_key: face_total as u64,
        };
        proof {
            let n = face_count(craft.mesh());
            assert forall|x: int| 0 <= x < n implies has_key(
                craft.island_seq(),
                #[trigger] craft.keys()[x],
            ) by {
                assert(single_face_island(craft.island_seq()[x], x));
                assert(craft.keys()[x] == x);
            }
            assert forall|i: int| 0 <= i < craft.island_seq().len() implies island_ok(
                #[trigger] craft.island_seq()[i],
                craft.keys(),
                craft.key_bound(),
            ) by {
                assert(single_face_island(craft.island_seq()[i], i));
                assert(craft.keys()[i] == i);
            }
            assert forall|i: int, j: int| 0 <= i < j < craft.island_seq().len() implies (
            #[trigger] craft.island_seq()[i]).key < (#[trigger] craft.island_seq()[j]).key by {
                assert(single_face_island(craft.island_seq()[i], i));
                assert(single_face_island(craft.island_seq()[j], j));
            }
            assert forall|x: int, y: int| 0 <= x < n && 0 <= y < n implies ((
            #[trigger] craft.keys()[x] == #[trigger] craft.keys()[y]) <==> connected(
                craft.mesh(),
                craft.statuses(),
                x,
                y,
            )) by {
                assert(craft.keys()[x] == x && craft.keys()[y] == y);
                if connected(craft.mesh(), craft.statuses(), x, y) {
                    assert forall|e: int| 0 <= e < craft.statuses().len() implies #[trigger] craft.statuses()[e]
                        != EdgeStatus::Joined by {
                        assert(craft.statuses()[e] == EdgeStatus::Cut(FlapSide::Neither));
                    }
                    lemma_alone_without_folds(craft.mesh(), craft.statuses(), x, y);
                }
                if x == y {
                    lemma_connected_refl(craft.mesh(), craft.statuses(), x);
                }
            }
            assert forall|e: int|
                0 <= e < craft.statuses().len() && #[trigger] craft.statuses()[e]
                    == EdgeStatus::Joined implies craft.mesh().edges@[e].f1 is Some by {
                assert(craft.statuses()[e] == EdgeStatus::Cut(FlapSide::Neither));
            }
        }
        Some(craft)
    }

    /// The mesh.
    pub fn model(&self) -> (m: &Model)
        ensures
            m == self.mesh(),
    {
        &self.model
    }

    /// The paper options.
    pub fn options(&self) -> (o: &PaperOptions)
        ensures
            *o == self.paper(),
    {
        &self.options
    }

    /// The islands, in the order of their keys.
    pub fn islands(&self) -> (list: &Vec<Island>)
        ensures
            list@ == self.island_seq(),
    {
        &self.islands
    }

    /// Number of islands.
    pub fn num_islands(&self) -> (n: usize)
        ensures
            n == self.island_seq().len(),
    {
        self.islands.len()
    }

    /// The state of edge `edge`.
    pub fn edge_status(&self, edge: usize) -> (s: EdgeStatus)
        requires
            edge < self.statuses().len(),
        ensures
            s == self.statuses()[edge as int],
    {
        self.edges[edge]
    }

    /// The key of the island of face `face`.
    pub fn island_of_face(&self, face: usize) -> (key: u64)
        requires
            face < self.keys().len(),
        ensures
            key == self.keys()[face as int],
    {
        self.face_island[face]
    }

    /// The position in the list of islands of the island with key `key`.
    pub fn island_index(&self, key: u64) -> (r: Option<usize>)
        ensures
            match r {
                Some(i) => i < self.island_seq().len() && self.island_seq()[i as int].key == key,
                None => !has_key(self.island_seq(), key),
            },
    {
        let mut i: usize = 0;
        while i < self.islands.len()
            invariant
                i <= self.islands@.len(),
                forall|j: int| 0 <= j < i ==> (#[trigger] self.islands@[j]).key != key,
            decreases self.islands@.len() - i,
        {
            if self.islands[i].key == key {
                return Some(i);
            }
            i += 1;
        }
        None
    }

    /// The island with key `key`.
    pub fn island_by_key(&self, key: u64) -> (r: Option<&Island>)
        ensures
            match r {
                Some(island) => island.key == key && exists|i: int|
                    0 <= i < self.island_seq().len() && *island == #[trigger] self.island_seq()[i],
                None => !has_key(self.island_seq(), key),
            },
    {
        match self.island_index(key) {
            Some(i) => Some(&self.islands[i]),
            None => None,
        }
    }

    /// Whether position `i` of face `f` is on the perimeter of the island
    /// with key `key`: the face is in the island and the edge is no fold.
    pub open spec fn is_island_slot(&self, key: u64, f: int, i: int) -> bool {
        &&& is_slot(self.mesh(), f, i)
        &&& self.keys()[f] == key
        &&& self.statuses()[self.mesh().faces@[f].edges@[i] as int] != EdgeStatus::Joined
    }

    /// Whether position `i` of face `f` is the first on the perimeter of
    /// the island with key `key`: that of the least face and, on that face,
    /// the least position.
    pub open spec fn is_first_island_slot(&self, key: u64, f: int, i: int) -> bool {
        &&& self.is_island_slot(key, f, i)
        &&& forall|g: int, j: int| #[trigger]
            self.is_island_slot(key, g, j) ==> f < g || (f == g && i <= j)
    }

    /// The perimeter of the island with key `key`: the closed contour that
    /// starts at the island's first perimeter position. It is empty where
    /// no island has that key and where no edge of the island is cut or
    /// hidden.
    pub open spec fn perimeter_of(&self, key: u64) -> Seq<PerimeterEdge> {
        if exists|f: int, i: int| self.is_first_island_slot(key, f, i) {
            let (f, i) = choose|f: int, i: int| self.is_first_island_slot(key, f, i);
            match closed_contour(self.mesh(), self.statuses(), f, i) {
                Some(entries) => entries,
                None => Seq::empty(),
            }
        } else {
            Seq::empty()
        }
    }

    /// Finds the first perimeter position of the island with key `key`.
    fn first_island_slot(&self, key: u64) -> (r: Option<(usize, usize)>)
        requires
            self.wf(),
        ensures
            match r {
                Some((f, i)) => self.is_first_island_slot(key, f as int, i as int),
                None => forall|g: int, j: int| !#[trigger] self.is_island_slot(key, g, j),
            },
    {
        let mut f: usize = 0;
        while f < self.model.faces.len()
            invariant
                self.wf(),
                f <= self.model.faces@.len(),
                forall|g: int, j: int| #[trigger] self.is_island_slot(key, g, j) ==> f <= g,
            decreases self.model.faces@.len() - f,
        {
            if self.face_island[f] == key {
                let mut i: usize = 0;
                while i < self.model.faces[f].edges.len()
                    invariant
                        self.wf(),
                        f < self.model.faces@.len(),
                        self.face_island@[f as int] == key,
                        i <= self.model.faces@[f as int].edges@.len(),
                        forall|g: int, j: int| #[trigger]
                            self.is_island_slot(key, g, j) ==> f < g || (f == g && i <= j),
                    decreases self.model.faces@[f as int].edges@.len() - i,
                {
                    proof {
                        assert(self.model.face_wf(f as int));
                        assert(self.model.slot_wf(f as int, i as int));
                    }
                    if self.edges[self.model.faces[f].edges[i]] != EdgeStatus::Joined {
                        return Some((f, i));
                    }
                    i += 1;
                }
            }
            f += 1;
        }
        None
    }

    /// The perimeter of the island with key `key`: the cut and hidden
    /// edges around it, each with the direction in which the face inside
    /// runs along it, in the order of the walk.
    pub fn island_perimeter(&self, key: u64) -> (entries: Vec<PerimeterEdge>)
        requires
            self.wf(),
        ensures
            entries@ == self.perimeter_of(key),
            entries@.len() > 0 ==> is_chain(self.mesh(), entries@, entries@[0]),
            entries@.len() > 0 <==> exists|f: int, i: int| self.is_island_slot(key, f, i),
    {
        match self.first_island_slot(key) {
            Some((f, i)) => {
                proof {
                    let (g, j) = choose|g: int, j: int| self.is_first_island_slot(key, g, j);
                    assert(self.is_island_slot(key, g, j));
                    assert(self.is_island_slot(key, f as int, i as int));
                    assert(g == f && j == i);
                    lemma_contour_returns(self.mesh(), self.statuses(), f as int, i as int);
                }
                match walk_contour(&self.model, &self.edges, f, i) {
                    Some(entries) => {
                        proof {
                            lemma_perimeter_closes(
                                self.mesh(),
                                self.statuses(),
                                f as int,
                                i as int,
                            );
                        }
                        entries
                    },
                    None => Vec::new(),
                }
            },
            None => Vec::new(),
        }
    }

    /// Among the perimeter positions of an island there is a first.
    proof fn lemma_first_slot(&self, key: u64, f: int, i: int) -> (r: (int, int))
        requires
            self.is_island_slot(key, f, i),
        ensures
            self.is_first_island_slot(key, r.0, r.1),
        decreases f, i,
    {
        if exists|g: int, j: int| self.is_island_slot(key, g, j) && (g < f || (g == f && j < i)) {
            let (g, j) = choose|g: int, j: int|
                self.is_island_slot(key, g, j) && (g < f || (g == f && j < i));
            self.lemma_first_slot(key, g, j)
        } else {
            (f, i)
        }
    }

    /// An island with an edge that is no fold has a perimeter, and the
    /// perimeter is closed:
    /// each entry ends at the vertex at which the next starts, and the last
    /// ends at the vertex at which the first starts.
    pub proof fn lemma_island_perimeter_closes(&self, key: u64, f: int, i: int)
        requires
            self.wf(),
            self.is_island_slot(key, f, i),
        ensures
            self.perimeter_of(key).len() > 0,
            is_chain(self.mesh(), self.perimeter_of(key), self.perimeter_of(key)[0]),
    {
        let first = self.lemma_first_slot(key, f, i);
        let (g, j) = choose|g: int, j: int| self.is_first_island_slot(key, g, j);
        assert(self.is_island_slot(key, g, j));
        lemma_contour_returns(self.mesh(), self.statuses(), g, j);
        lemma_perimeter_closes(self.mesh(), self.statuses(), g, j);
    }

    /// Whether `p` is the entry of an edge that is no fold, seen from a face
    /// of the island with key `key`.
    pub open spec fn on_island_rim(&self, key: u64, p: PerimeterEdge) -> bool {
        exists|g: int, j: int| self.is_island_slot(key, g, j) && #[trigger] entry_at(self.mesh(), g, j) == p
    }

    /// The perimeter of an island goes along edges that are no folds, each
    /// seen from a face of that island, and along none of them twice on the
    /// same side.
    pub proof fn lemma_island_perimeter_bounds(&self, key: u64)
        requires
            self.wf(),
        ensures
            forall|k: int|
                0 <= k < self.perimeter_of(key).len() ==> self.on_island_rim(
                    key,
                    #[trigger] self.perimeter_of(key)[k],
                ),
            forall|j: int, k: int|
                0 <= j < k < self.perimeter_of(key).len() ==> #[trigger] self.perimeter_of(key)[j]
                    != #[trigger] self.perimeter_of(key)[k],
    {
        if exists|f: int, i: int| self.is_first_island_slot(key, f, i) {
            let (f, i) = choose|f: int, i: int| self.is_first_island_slot(key, f, i);
            assert(self.is_island_slot(key, f, i));
            lemma_contour_bounds(self.mesh(), self.statuses(), f, i);
            let entries = self.perimeter_of(key);
            assert forall|k: int| 0 <= k < entries.len() implies self.on_island_rim(
                key,
                #[trigger] entries[k],
            ) by {
                assert(bounds_island(self.mesh(), self.statuses(), f, entries[k]));
                let (g, j) = choose|g: int, j: int|
                    is_slot(self.mesh(), g, j) && #[trigger] entry_at(self.mesh(), g, j)
                        == entries[k] && self.statuses()[entries[k].edge as int]
                        != EdgeStatus::Joined && connected(self.mesh(), self.statuses(), f, g);
                assert(self.keys()[f] == self.keys()[g]);
                assert(self.is_island_slot(key, g, j));
            }
        }
    }

    /// Visits every face of the island at position `index` of the list of
    /// islands, starting at its root and crossing folds only.
    pub fn traverse_faces(&self, index: usize) -> (order: Vec<TraversalStep>)
        requires
            self.wf(),
            index < self.island_seq().len(),
        ensures
            order@ == traversal_order(
                self.mesh(),
                self.statuses(),
                self.island_seq()[index as int].root as int,
            ),
            is_traversal(
                self.mesh(),
                self.statuses(),
                self.island_seq()[index as int].root as int,
                order@,
            ),
    {
        let (_, order) = explore(&self.model, &self.edges, self.islands[index].root);
        order
    }
}

/// `keys[root]` is the key of every island but the removed one, so removing
/// an island whose faces take the key of another keeps the list in order.
proof fn lemma_islands_after_merge(
    islands: Seq<Island>,
    keys: Seq<u64>,
    bound: u64,
    i: int,
    survivor: u64,
)
    requires
        islands_ok(islands, keys, bound),
        0 <= i < islands.len(),
        has_key(islands, survivor),
        survivor != islands[i].key,
    ensures
        islands_ok(islands.remove(i), merged_keys(keys, islands[i].key, survivor), bound),
{
    let loser = islands[i].key;
    let after = islands.remove(i);
    let labels = merged_keys(keys, loser, survivor);
    assert forall|j: int| 0 <= j < after.len() implies #[trigger] after[j] == islands[if j < i {
        j
    } else {
        j + 1
    }] by {}
    assert forall|j: int, k: int| 0 <= j < k < after.len() implies (#[trigger] after[j]).key < (
    #[trigger] after[k]).key by {
        let (jj, kk) = (if j < i { j } else { j + 1 }, if k < i { k } else { k + 1 });
        assert(islands[jj].key < islands[kk].key);
    }
    assert forall|j: int| 0 <= j < after.len() implies island_ok(
        #[trigger] after[j],
        labels,
        bound,
    ) by {
        let jj = if j < i { j } else { j + 1 };
        assert(island_ok(islands[jj], keys, bound));
        if jj < i {
            assert(islands[jj].key < islands[i].key);
        } else {
            assert(islands[i].key < islands[jj].key);
        }
    }
    assert forall|f: int| 0 <= f < labels.len() implies has_key(after, #[trigger] labels[f]) by {
        let wanted = labels[f];
        assert(has_key(islands, keys[f]));
        assert(has_key(islands, wanted));
        let w = choose|w: int| 0 <= w < islands.len() && (#[trigger] islands[w]).key == wanted;
        let ww = if w < i { w } else { w - 1 };
        assert(after[ww].key == wanted);
    }
}

/// Splitting an island keeps the list in order: the island keeps its key,
/// with a root that stays in it, and the new island comes last.
proof fn lemma_islands_after_split(
    islands: Seq<Island>,
    keys: Seq<u64>,
    bound: u64,
    idx: int,
    marks: Seq<bool>,
    near: usize,
    far: usize,
    newcomer: Island,
)
    requires
        islands_ok(islands, keys, bound),
        bound < u64::MAX,
        0 <= idx < islands.len(),
        marks.len() == keys.len(),
        near < keys.len(),
        far < keys.len(),
        marks[near as int],
        !marks[far as int],
        keys[far as int] == islands[idx].key,
        forall|f: int| 0 <= f < marks.len() && marks[f] ==> keys[f] == islands[idx].key,
        newcomer.key == bound,
        newcomer.root == near,
        newcomer.pos.in_range(),
    ensures
        islands_ok(
            islands.update(
                idx,
                rerooted(
                    islands[idx],
                    if marks[islands[idx].root as int] {
                        far
                    } else {
                        islands[idx].root
                    },
                ),
            ).push(newcomer),
            split_keys(keys, marks, bound),
            (bound + 1) as u64,
        ),
{
    let root = if marks[islands[idx].root as int] {
        far
    } else {
        islands[idx].root
    };
    let after = islands.update(idx, rerooted(islands[idx], root)).push(newcomer);
    let labels = split_keys(keys, marks, bound);
    let more = (bound + 1) as u64;
    assert(island_ok(islands[idx], keys, bound));
    assert forall|j: int| 0 <= j < islands.len() implies (#[trigger] after[j]).key
        == islands[j].key && after[j].pos == islands[j].pos && (j != idx ==> after[j]
        == islands[j]) by {}
    assert forall|j: int, k: int| 0 <= j < k < after.len() implies (#[trigger] after[j]).key < (
    #[trigger] after[k]).key by {
        assert(island_ok(islands[j], keys, bound));
        if k < islands.len() {
            assert(islands[j].key < islands[k].key);
        }
    }
    assert forall|j: int| 0 <= j < after.len() implies island_ok(#[trigger] after[j], labels, more) by {
        if j < islands.len() {
            assert(island_ok(islands[j], keys, bound));
            if j != idx {
                if idx < j {
                    assert(islands[idx].key < islands[j].key);
                } else {
                    assert(islands[j].key < islands[idx].key);
                }
            }
        }
    }
    assert forall|f: int| 0 <= f < labels.len() implies has_key(after, #[trigger] labels[f]) by {
        if marks[f] {
            assert(after[islands.len() as int].key == bound);
        } else {
            assert(has_key(islands, keys[f]));
            let w = choose|w: int| 0 <= w < islands.len() && (#[trigger] islands[w]).key == keys[f];
            assert(after[w].key == keys[f]);
        }
    }
}

/// Moving an island keeps the list of islands in order.
proof fn lemma_islands_after_move(
    islands: Seq<Island>,
    keys: Seq<u64>,
    bound: u64,
    idx: int,
    pos: Point2,
    rot: i64,
)
    requires
        islands_ok(islands, keys, bound),
        0 <= idx < islands.len(),
        pos.in_range(),
    ensures
        islands_ok(islands.update(idx, posed(islands[idx], pos, rot)), keys, bound),
{
    let after = islands.update(idx, posed(islands[idx], pos, rot));
    assert forall|j: int| 0 <= j < islands.len() implies (#[trigger] after[j]).key
        == islands[j].key && after[j].root == islands[j].root && (j != idx ==> after[j]
        == islands[j]) by {}
    assert forall|j: int, k: int| 0 <= j < k < after.len() implies (#[trigger] after[j]).key < (
    #[trigger] after[k]).key by {
        assert(islands[j].key < islands[k].key);
    }
    assert forall|j: int| 0 <= j < after.len() implies island_ok(#[trigger] after[j], keys, bound) by {
        assert(island_ok(islands[j], keys, bound));
    }
    assert forall|f: int| 0 <= f < keys.len() implies has_key(after, #[trigger] keys[f]) by {
        assert(has_key(islands, keys[f]));
        let w = choose|w: int| 0 <= w < islands.len() && (#[trigger] islands[w]).key == keys[f];
        assert(after[w].key == keys[f]);
    }
}

fn relabel(keys: &mut Vec<u64>, loser: u64, survivor: u64)
    ensures
        final(keys)@ == merged_keys(old(keys)@, loser, survivor),
{
    let mut f: usize = 0;
    while f < keys.len()
        invariant
            keys@.len() == old(keys)@.len(),
            f <= keys@.len(),
            forall|k: int| 0 <= k < f ==> keys@[k] == merged_keys(old(keys)@, loser, survivor)[k],
            forall|k: int| f <= k < keys@.len() ==> keys@[k] == old(keys)@[k],
        decreases keys@.len() - f,
    {
        if keys[f] == loser {
            keys.set(f, survivor);
        }
        f += 1;
    }
    assert(keys@ =~= merged_keys(old(keys)@, loser, survivor));
}

fn relabel_marked(keys: &mut Vec<u64>, marks: &Vec<bool>, fresh: u64)
    requires
        marks@.len() == old(keys)@.len(),
    ensures
        final(keys)@ == split_keys(old(keys)@, marks@, fresh),
{
    let mut f: usize = 0;
    while f < keys.len()
        invariant
            keys@.len() == old(keys)@.len(),
            marks@.len() == keys@.len(),
            f <= keys@.len(),
            forall|k: int| 0 <= k < f ==> keys@[k] == split_keys(old(keys)@, marks@, fresh)[k],
            forall|k: int| f <= k < keys@.len() ==> keys@[k] == old(keys)@[k],
        decreases keys@.len() - f,
    {
        if marks[f] {
            keys.set(f, fresh);
        }
        f += 1;
    }
    assert(keys@ =~= split_keys(old(keys)@, marks@, fresh));
}

impl Papercraft {
    /// Whether `other` is this papercraft, unchanged.
    pub open spec fn unchanged(&self, other: &Papercraft) -> bool {
        self.same_model(other) && self.same_islands(other) && self.statuses() == other.statuses()
    }

    /// The face on the side of edge `edge` that a cut with the hint `offset`
    /// splits off: the edge's second face for a hint below zero, else its
    /// first.
    pub open spec fn near_face(&self, edge: int, offset: Option<i64>) -> int {
        let e = self.mesh().edges@[edge];
        match offset {
            Some(o) => if o < 0 && e.f1 is Some {
                e.f1.unwrap() as int
            } else {
                e.f0 as int
            },
            None => e.f0 as int,
        }
    }

    /// The face on the other side of edge `edge` from `near_face`.
    pub open spec fn far_face(&self, edge: int, offset: Option<i64>) -> int {
        let e = self.mesh().edges@[edge];
        if self.near_face(edge, offset) == e.f0 && e.f1 is Some {
            e.f1.unwrap() as int
        } else {
            e.f0 as int
        }
    }

    /// The state of the edges after edge `edge` has been cut.
    pub open spec fn cut_statuses(&self, edge: int) -> Seq<EdgeStatus> {
        self.statuses().update(edge, EdgeStatus::Cut(FlapSide::Neither))
    }

    /// Whether cutting edge `edge` splits an island: the edge is a fold and
    /// its two faces are not connected without it.
    pub open spec fn cut_splits(&self, edge: int) -> bool {
        let e = self.mesh().edges@[edge];
        &&& self.statuses()[edge] == EdgeStatus::Joined
        &&& !connected(self.mesh(), self.cut_statuses(edge), e.f0 as int, e.f1.unwrap() as int)
    }

    /// Whether `after` and `r` are what a change of the flap of edge
    /// `edge` makes of this papercraft: the new flap, if the edge is a
    /// cut; else an error, and the papercraft as it was.
    pub open spec fn toggle_outcome(
        &self,
        after: &Papercraft,
        edge: usize,
        action: EdgeToggleFlapAction,
        r: Result<(), CraftError>,
    ) -> bool {
        &&& after.same_model(self)
        &&& after.same_islands(self)
        &&& match r {
            Ok(()) => edge < self.statuses().len() && match self.statuses()[edge as int] {
                EdgeStatus::Cut(side) => after.statuses() == self.statuses().update(
                    edge as int,
                    EdgeStatus::Cut(flap_after(action, side, self.mesh().edges@[edge as int].f1 is Some)),
                ),
                _ => false,
            },
            Err(CraftError::UnknownKey) => edge >= self.statuses().len() && after.unchanged(self),
            Err(CraftError::InvalidOperation) => edge < self.statuses().len() && !(
            self.statuses()[edge as int] is Cut) && after.unchanged(self),
        }
    }

    /// Whether `after` and `r` are what joining edge `edge` makes of this
    /// papercraft: the edge a fold and the islands of its faces one, with
    /// the key that survives; or an error, and the papercraft as it was.
    pub open spec fn join_outcome(
        &self,
        after: &Papercraft,
        edge: usize,
        priority_face: Option<usize>,
        r: Result<(), CraftError>,
    ) -> bool {
        let known = edge < self.statuses().len() && match priority_face {
            Some(p) => p < self.keys().len(),
            None => true,
        };
        let joinable = known && self.statuses()[edge as int] != EdgeStatus::Joined
            && self.mesh().edges@[edge as int].f1 is Some;
        &&& after.same_model(self)
        &&& after.key_bound() == self.key_bound()
        &&& !known <==> r == Err::<(), CraftError>(CraftError::UnknownKey)
        &&& known && !joinable <==> r == Err::<(), CraftError>(CraftError::InvalidOperation)
        &&& r is Err ==> after.unchanged(self)
        &&& r is Ok ==> {
            let e = self.mesh().edges@[edge as int];
            let ka = self.keys()[e.f0 as int];
            let kb = self.keys()[e.f1.unwrap() as int];
            let preferred = match priority_face {
                Some(p) => Some(self.keys()[p as int]),
                None => None,
            };
            let survivor = surviving_key(ka, kb, preferred);
            let loser = if survivor == ka {
                kb
            } else {
                ka
            };
            &&& after.statuses() == self.statuses().update(edge as int, EdgeStatus::Joined)
            &&& ka == kb ==> after.same_islands(self)
            &&& ka != kb ==> {
                &&& after.keys() == merged_keys(self.keys(), loser, survivor)
                &&& exists|i: int|
                    0 <= i < self.island_seq().len() && (#[trigger] self.island_seq()[i]).key
                        == loser && after.island_seq() == self.island_seq().remove(i)
            }
        }
    }

    /// Whether `after` and `r` are what cutting edge `edge` makes of this
    /// papercraft: the edge a cut without flap and, if an island splits,
    /// the faces that stay connected to the face that `offset` names in a
    /// new island with the next key; or an error, and the papercraft as it
    /// was.
    pub open spec fn cut_outcome(
        &self,
        after: &Papercraft,
        edge: usize,
        offset: Option<i64>,
        r: Result<Option<u64>, CraftError>,
    ) -> bool {
        let known = edge < self.statuses().len();
        let splits = known && self.cut_splits(edge as int);
        let full = self.key_bound() == u64::MAX;
        &&& after.same_model(self)
        &&& !known <==> r == Err::<Option<u64>, CraftError>(CraftError::UnknownKey)
        &&& splits && full <==> r == Err::<Option<u64>, CraftError>(CraftError::InvalidOperation)
        &&& r is Err ==> after.unchanged(self)
        &&& r is Ok ==> after.statuses() == self.cut_statuses(edge as int)
        &&& r is Ok && !splits ==> r == Ok::<Option<u64>, CraftError>(None) && after.same_islands(
            self,
        )
        &&& r is Ok && splits ==> {
            let near = self.near_face(edge as int, offset);
            let far = self.far_face(edge as int, offset);
            let fresh = self.key_bound();
            let count = self.island_seq().len() as int;
            &&& r == Ok::<Option<u64>, CraftError>(Some(fresh))
            &&& after.key_bound() == fresh + 1
            &&& after.keys().len() == self.keys().len()
            &&& forall|f: int|
                0 <= f < self.keys().len() ==> #[trigger] after.keys()[f] == (if connected(
                    after.mesh(),
                    after.statuses(),
                    near,
                    f,
                ) {
                    fresh
                } else {
                    self.keys()[f]
                })
            &&& after.island_seq().len() == count + 1
            &&& forall|i: int|
                0 <= i < count ==> {
                    let was = #[trigger] self.island_seq()[i];
                    after.island_seq()[i] == (if was.key == self.keys()[near] && connected(
                        after.mesh(),
                        after.statuses(),
                        near,
                        was.root as int,
                    ) {
                        rerooted(was, far as usize)
                    } else {
                        was
                    })
                }
            &&& {
                let newcomer = after.island_seq()[count];
                &&& newcomer.key == fresh
                &&& newcomer.root == near
                &&& newcomer.name@ == digits(fresh as nat)
                &&& exists|i: int|
                    0 <= i < count && (#[trigger] self.island_seq()[i]).key == self.keys()[near]
                        && newcomer.pos == self.island_seq()[i].pos && newcomer.rot
                        == self.island_seq()[i].rot
            }
        }
    }

    /// Whether `after` differs from this papercraft in its list of
    /// islands at most.
    pub open spec fn same_but_islands(&self, after: &Papercraft) -> bool {
        &&& after.same_model(self)
        &&& after.statuses() == self.statuses()
        &&& after.keys() == self.keys()
        &&& after.key_bound() == self.key_bound()
    }

    /// Whether `after` and `r` are what moving the island with key `key`
    /// by `delta` makes of this papercraft: the island at its new place;
    /// or an error, and the papercraft as it was.
    pub open spec fn translate_outcome(
        &self,
        after: &Papercraft,
        key: u64,
        delta: Point2,
        r: Result<(), CraftError>,
    ) -> bool {
        &&& self.same_but_islands(after)
        &&& !has_key(self.island_seq(), key) <==> r == Err::<(), CraftError>(CraftError::UnknownKey)
        &&& r is Err ==> after.unchanged(self)
        &&& has_key(self.island_seq(), key) ==> exists|i: int|
            0 <= i < self.island_seq().len() && (#[trigger] self.island_seq()[i]).key == key && {
                let was = self.island_seq()[i];
                let moved = Point2 {
                    x: (was.pos.x + delta.x) as i64,
                    y: (was.pos.y + delta.y) as i64,
                };
                let fits = crate::fixed::in_range(was.pos.x + delta.x) && crate::fixed::in_range(
                    was.pos.y + delta.y,
                );
                &&& fits <==> r is Ok
                &&& !fits ==> r == Err::<(), CraftError>(CraftError::InvalidOperation)
                &&& fits ==> after.island_seq() == self.island_seq().update(
                    i,
                    posed(was, moved, was.rot),
                )
            }
    }

    /// Whether `after` and `r` are what turning the island with key `key`
    /// by `angle`, to the place `pos`, makes of this papercraft: the
    /// island at its new place with its new rotation; or an error, and
    /// the papercraft as it was.
    pub open spec fn rotate_outcome(
        &self,
        after: &Papercraft,
        key: u64,
        angle: i64,
        pos: Point2,
        r: Result<(), CraftError>,
    ) -> bool {
        &&& self.same_but_islands(after)
        &&& !has_key(self.island_seq(), key) <==> r == Err::<(), CraftError>(CraftError::UnknownKey)
        &&& r is Err ==> after.unchanged(self)
        &&& has_key(self.island_seq(), key) ==> exists|i: int|
            0 <= i < self.island_seq().len() && (#[trigger] self.island_seq()[i]).key == key && {
                let was = self.island_seq()[i];
                let fits = pos.in_range() && i64::MIN <= was.rot + angle <= i64::MAX;
                &&& fits <==> r is Ok
                &&& !fits ==> r == Err::<(), CraftError>(CraftError::InvalidOperation)
                &&& fits ==> after.island_seq() == self.island_seq().update(
                    i,
                    posed(was, pos, (was.rot + angle) as i64),
                )
            }
    }

    /// Whether `after` and `r` are what replacing the options by
    /// `options` makes of this papercraft: the new options, if they are
    /// well formed; else an error, and the papercraft as it was.
    pub open spec fn options_outcome(
        &self,
        after: &Papercraft,
        options: PaperOptions,
        r: Result<(), CraftError>,
    ) -> bool {
        &&& after.mesh() == self.mesh()
        &&& after.same_islands(self)
        &&& after.statuses() == self.statuses()
        &&& options.wf() <==> r is Ok
        &&& r is Ok ==> after.paper() == options
        &&& r is Err ==> r == Err::<(), CraftError>(CraftError::InvalidOperation) && after.unchanged(
            self,
        )
    }

    /// Changes the flap of the cut edge `edge`.
    ///
    /// Fails with `UnknownKey` if the mesh has no such edge, and with
    /// `InvalidOperation` if the edge is not cut.
    pub fn edge_toggle_flap(&mut self, edge: usize, action: EdgeToggleFlapAction) -> (r: Result<
        (),
        CraftError,
    >)
        requires
            old(self).wf(),
        ensures
            final(self).wf(),
            old(self).toggle_outcome(final(self), edge, action, r),
    {
        if edge >= self.edges.len() {
            return Err(CraftError::UnknownKey);
        }
        match self.edges[edge] {
            EdgeStatus::Cut(side) => {
                let two_faced = self.model.edges[edge].f1.is_some();
                let next = match action {
                    EdgeToggleFlapAction::Hide => FlapSide::Neither,
                    EdgeToggleFlapAction::Toggle => if two_faced {
                        match side {
                            FlapSide::A => FlapSide::B,
                            FlapSide::B => FlapSide::A,
                            other => other,
                        }
                    } else {
                        match side {
                            FlapSide::Neither => FlapSide::Neither,
                            _ => FlapSide::A,
                        }
                    },
                    EdgeToggleFlapAction::Next => if two_faced {
                        match side {
                            FlapSide::Neither => FlapSide::A,
                            FlapSide::A => FlapSide::B,
                            FlapSide::B => FlapSide::Both,
                            FlapSide::Both => FlapSide::Neither,
                        }
                    } else {
                        match side {
                            FlapSide::Neither => FlapSide::A,
                            _ => FlapSide::Neither,
                        }
                    },
                };
                let ghost before = self.edges@;
                self.edges.set(edge, EdgeStatus::Cut(next));
                proof {
                    assert(same_folds(before, self.edges@));
                    lemma_same_folds_same_classes(
                        self.mesh(),
                        before,
                        self.edges@,
                        self.keys(),
                    );
                }
                Ok(())
            },
            _ => Err(CraftError::InvalidOperation),
        }
    }

    /// Joins the cut or hidden edge `edge`, so that it becomes a fold, and
    /// merges the islands of its two faces if they are two. Of the two the
    /// island of `priority_face` survives, if that face is in one of them,
    /// else the island with the smaller key; the faces of the other take
    /// its key, and the other island leaves the list.
    ///
    /// Fails with `UnknownKey` if the mesh has no such edge or no such
    /// face, and with `InvalidOperation` if the edge is a fold already or
    /// has one face only.
    #[verifier::rlimit(60)]
    pub fn edge_join(&mut self, edge: usize, priority_face: Option<usize>) -> (r: Result<
        (),
        CraftError,
    >)
        requires
            old(self).wf(),
        ensures
            final(self).wf(),
            old(self).join_outcome(final(self), edge, priority_face, r),
    {
        if edge >= self.edges.len() {
            return Err(CraftError::UnknownKey);
        }
        let preferred: Option<u64> = match priority_face {
            Some(p) => {
                if p >= self.face_island.len() {
                    return Err(CraftError::UnknownKey);
                }
                Some(self.face_island[p])
            },
            None => None,
        };
        if self.edges[edge] == EdgeStatus::Joined {
            return Err(CraftError::InvalidOperation);
        }
        let a: usize = self.model.edges[edge].f0;
        let b: usize = match self.model.edges[edge].f1 {
            Some(b) => b,
            None => {
                return Err(CraftError::InvalidOperation);
            },
        };
        proof {
            assert(self.model.edge_wf(edge as int));
            assert(edge_between(self.mesh(), edge as int, a as int, b as int));
        }
        let ka: u64 = self.face_island[a];
        let kb: u64 = self.face_island[b];
        let ghost before = self.edges@;
        let ghost old_keys = self.face_island@;
        let ghost old_islands = self.islands@;
        self.edges.set(edge, EdgeStatus::Joined);
        if ka == kb {
            proof {
                lemma_join_within_class(self.mesh(), before, old_keys, edge as int, a as int, b as int);
            }
            return Ok(());
        }
        let survivor: u64 = if preferred == Some(kb) {
            kb
        } else if preferred == Some(ka) {
            ka
        } else if ka < kb {
            ka
        } else {
            kb
        };
        let loser: u64 = if survivor == ka {
            kb
        } else {
            ka
        };
        proof {
            assert(has_key(old_islands, old_keys[a as int]));
            assert(has_key(old_islands, old_keys[b as int]));
        }
        let index: usize = match self.island_index(loser) {
            Some(i) => i,
            None => {
                proof {
                    assert(false);
                }
                return Ok(());
            },
        };
        relabel(&mut self.face_island, loser, survivor);
        let _ = self.islands.remove(index);
        proof {
            lemma_join_merges_classes(
                self.mesh(),
                before,
                old_keys,
                edge as int,
                a as int,
                b as int,
                loser,
                survivor,
            );
            lemma_islands_after_merge(old_islands, old_keys, self.next_key, index as int, survivor);
            assert(old_islands[index as int].key == loser);
        }
        Ok(())
    }

    /// Cuts edge `edge`: it becomes a cut without flap. If the edge was a
    /// fold and its faces are not connected without it, the island splits:
    /// the faces that stay connected to the face that `offset` names (the
    /// edge's second face for a hint below zero, else its first) form a new
    /// island with a fresh key, of which the result tells; it has that face
    /// as its root and, until it is moved, the place of the island it came
    /// from. The other faces keep their island, with its root or, if the
    /// root has left, with the other face of the edge as the new root.
    ///
    /// Fails with `UnknownKey` if the mesh has no such edge, and with
    /// `InvalidOperation` if an island would split and no key is left.
    #[verifier::rlimit(80)]
    pub fn edge_cut(&mut self, edge: usize, offset: Option<i64>) -> (r: Result<
        Option<u64>,
        CraftError,
    >)
        requires
            old(self).wf(),
        ensures
            final(self).wf(),
            old(self).cut_outcome(final(self), edge, offset, r),
    {
        if edge >= self.edges.len() {
            return Err(CraftError::UnknownKey);
        }
        let cut = EdgeStatus::Cut(FlapSide::Neither);
        let ghost before = self.edges@;
        let ghost old_keys = self.face_island@;
        let ghost old_islands = self.islands@;
        let was_fold = self.edges[edge] == EdgeStatus::Joined;
        self.edges.set(edge, cut);
        if !was_fold {
            proof {
                assert(same_folds(before, self.edges@));
                lemma_same_folds_same_classes(self.mesh(), before, self.edges@, self.keys());
            }
            return Ok(None);
        }
        proof {
            assert(before[edge as int] == EdgeStatus::Joined);
            assert(self.model.edge_wf(edge as int));
        }
        let a: usize = self.model.edges[edge].f0;
        let b: usize = match self.model.edges[edge].f1 {
            Some(b) => b,
            None => {
                proof {
                    assert(false);
                }
                return Ok(None);
            },
        };
        let towards_b: bool = match offset {
            Some(o) => o < 0,
            None => false,
        };
        let near: usize = if towards_b {
            b
        } else {
            a
        };
        let far: usize = if towards_b {
            a
        } else {
            b
        };
        proof {
            assert(edge_between(self.mesh(), edge as int, a as int, b as int));
            assert(near == old(self).near_face(edge as int, offset));
            assert(far == old(self).far_face(edge as int, offset));
        }
        let (marks, _) = explore(&self.model, &self.edges, near);
        proof {
            lemma_connected_refl(self.mesh(), self.edges@, near as int);
            if connected(self.mesh(), self.edges@, a as int, b as int) {
                lemma_connected_sym(self.mesh(), self.edges@, a as int, b as int);
            }
            if connected(self.mesh(), self.edges@, b as int, a as int) {
                lemma_connected_sym(self.mesh(), self.edges@, b as int, a as int);
            }
            assert(marks@[far as int] <==> connected(self.mesh(), self.edges@, a as int, b as int));
        }
        if marks[far] {
            proof {
                lemma_cut_within_class(
                    self.mesh(),
                    before,
                    old_keys,
                    edge as int,
                    a as int,
                    b as int,
                    cut,
                );
            }
            return Ok(None);
        }
        if self.next_key == u64::MAX {
            self.edges.set(edge, EdgeStatus::Joined);
            proof {
                assert(self.edges@ =~= before);
            }
            return Err(CraftError::InvalidOperation);
        }
        let fresh: u64 = self.next_key;
        self.split_off(edge, near, far, &marks, Ghost(before));
        Ok(Some(fresh))
    }

    /// Gives the marked faces, those that stay connected to `near` after
    /// the cut of edge `edge`, an island of their own.
    fn split_off(
        &mut self,
        edge: usize,
        near: usize,
        far: usize,
        marks: &Vec<bool>,
        Ghost(before): Ghost<Seq<EdgeStatus>>,
    )
        requires
            old(self).mesh().wf(),
            old(self).paper().wf(),
            edge < before.len(),
            before[edge as int] == EdgeStatus::Joined,
            old(self).statuses() == before.update(edge as int, EdgeStatus::Cut(FlapSide::Neither)),
            folds_have_two_faces(old(self).mesh(), before),
            islands_ok(old(self).island_seq(), old(self).keys(), old(self).key_bound()),
            keys_match_folds(old(self).mesh(), before, old(self).keys()),
            old(self).key_bound() < u64::MAX,
            edge_between(old(self).mesh(), edge as int, near as int, far as int) || edge_between(
                old(self).mesh(),
                edge as int,
                far as int,
                near as int,
            ),
            marks@.len() == old(self).keys().len(),
            forall|f: int|
                0 <= f < marks@.len() ==> (marks@[f] <==> connected(
                    old(self).mesh(),
                    old(self).statuses(),
                    near as int,
                    f,
                )),
            !marks@[far as int],
        ensures
            final(self).wf(),
            final(self).same_model(old(self)),
            final(self).statuses() == old(self).statuses(),
            final(self).key_bound() == old(self).key_bound() + 1,
            final(self).keys() == split_keys(old(self).keys(), marks@, old(self).key_bound()),
            final(self).island_seq().len() == old(self).island_seq().len() + 1,
            forall|i: int|
                0 <= i < old(self).island_seq().len() ==> {
                    let was = #[trigger] old(self).island_seq()[i];
                    final(self).island_seq()[i] == (if was.key == old(self).keys()[near as int]
                        && marks@[was.root as int] {
                        rerooted(was, far)
                    } else {
                        was
                    })
                },
            ({
                let newcomer = final(self).island_seq()[old(self).island_seq().len() as int];
                &&& newcomer.key == old(self).key_bound()
                &&& newcomer.root == near
                &&& newcomer.name@ == digits(old(self).key_bound() as nat)
                &&& exists|i: int|
                    0 <= i < old(self).island_seq().len() && (#[trigger] old(self).island_seq()[i]).key
                        == old(self).keys()[near as int] && newcomer.pos == old(self).island_seq()[i].pos
                        && newcomer.rot == old(self).island_seq()[i].rot
            }),
    {
        let cut = EdgeStatus::Cut(FlapSide::Neither);
        let fresh: u64 = self.next_key;
        let ghost old_keys = self.face_island@;
        let ghost old_islands = self.islands@;
        let ghost a = self.mesh().edges@[edge as int].f0 as int;
        let ghost b = self.mesh().edges@[edge as int].f1.unwrap() as int;
        proof {
            lemma_connected_refl(self.mesh(), self.edges@, near as int);
            crate::partition::lemma_fold_connects(self.mesh(), before, edge as int, a, b);
            assert(old_keys[near as int] == old_keys[far as int]);
            assert(has_key(old_islands, old_keys[near as int]));
        }
        let ka: u64 = self.face_island[near];
        let index: usize = match self.island_index(ka) {
            Some(i) => i,
            None => {
                proof {
                    assert(false);
                }
                0
            },
        };
        proof {
            assert(island_ok(old_islands[index as int], old_keys, fresh));
        }
        let mut island = self.islands.remove(index);
        let pos = island.pos;
        let rot = island.rot;
        if marks[island.root] {
            island.root = far;
        }
        self.islands.insert(index, island);
        let mut name = String::new();
        push_digits(&mut name, fresh as u128);
        let newcomer = Island { key: fresh, root: near, pos, rot, name };
        self.islands.push(newcomer);
        relabel_marked(&mut self.face_island, marks, fresh);
        self.next_key = fresh + 1;
        proof {
            assert(name@ =~= digits(fresh as nat));
            let was = old_islands[index as int];
            let root = if marks@[was.root as int] {
                far
            } else {
                was.root
            };
            assert(self.islands@ =~= old_islands.update(index as int, rerooted(was, root)).push(
                newcomer,
            ));
            Self::lemma_split_facts(
                self.mesh(),
                before,
                old_keys,
                old_islands,
                fresh,
                edge as int,
                near as int,
                marks@,
            );
            lemma_cut_splits_class(
                self.mesh(),
                before,
                old_keys,
                edge as int,
                a,
                b,
                cut,
                near as int,
                marks@,
                fresh,
            );
            lemma_islands_after_split(
                old_islands,
                old_keys,
                fresh,
                index as int,
                marks@,
                near,
                far,
                newcomer,
            );
            assert forall|e: int|
                0 <= e < self.edges@.len() && #[trigger] self.edges@[e]
                    == EdgeStatus::Joined implies self.mesh().edges@[e].f1 is Some by {
                assert(before[e] == EdgeStatus::Joined);
            }
            assert forall|i: int| 0 <= i < old_islands.len() implies {
                let w = #[trigger] old_islands[i];
                self.islands@[i] == (if w.key == old_keys[near as int] && marks@[w.root as int] {
                    rerooted(w, far)
                } else {
                    w
                })
            } by {
                let w = old_islands[i];
                assert(island_ok(w, old_keys, fresh));
                if i != index {
                    if i < index {
                        assert(old_islands[i].key < old_islands[index as int].key);
                    } else {
                        assert(old_islands[index as int].key < old_islands[i].key);
                    }
                } else {
                    if !marks@[w.root as int] {
                        assert(rerooted(w, w.root) == w);
                    }
                }
            }
            assert(old_islands[index as int].key == old_keys[near as int]);
        }
    }

    /// No face has the fresh key, and every face that stays connected to
    /// `near` had the key of `near`.
    proof fn lemma_split_facts(
        model: &Model,
        before: Seq<EdgeStatus>,
        keys: Seq<u64>,
        islands: Seq<Island>,
        fresh: u64,
        edge: int,
        near: int,
        marks: Seq<bool>,
    )
        requires
            0 <= edge < before.len(),
            islands_ok(islands, keys, fresh),
            keys_match_folds(model, before, keys),
            0 <= near < keys.len(),
            marks.len() == keys.len(),
            forall|f: int|
                0 <= f < marks.len() ==> (marks[f] <==> connected(
                    model,
                    before.update(edge, EdgeStatus::Cut(FlapSide::Neither)),
                    near,
                    f,
                )),
        ensures
            forall|f: int| 0 <= f < keys.len() ==> keys[f] != fresh,
            forall|f: int| 0 <= f < marks.len() && marks[f] ==> keys[f] == keys[near],
    {
        let after = before.update(edge, EdgeStatus::Cut(FlapSide::Neither));
        assert forall|f: int| 0 <= f < keys.len() implies keys[f] != fresh by {
            assert(has_key(islands, keys[f]));
            let w = choose|w: int| 0 <= w < islands.len() && (#[trigger] islands[w]).key == keys[f];
            assert(island_ok(islands[w], keys, fresh));
        }
        assert forall|f: int| 0 <= f < marks.len() && marks[f] implies keys[f] == keys[near] by {
            assert(crate::graph::folds_kept(after, before));
            crate::graph::lemma_connected_monotonic(model, after, before, near, f);
            assert(keys[near] == keys[f]);
        }
    }

    /// Moves the island with key `key` by `delta`.
    ///
    /// Fails with `UnknownKey` if there is no such island, and with
    /// `InvalidOperation` if the move would take the island out of the
    /// range of coordinates.
    pub fn island_translate(&mut self, key: u64, delta: Point2) -> (r: Result<(), CraftError>)
        requires
            old(self).wf(),
        ensures
            final(self).wf(),
            old(self).translate_outcome(final(self), key, delta, r),
    {
        let index: usize = match self.island_index(key) {
            Some(i) => i,
            None => {
                return Err(CraftError::UnknownKey);
            },
        };
        let ghost old_islands = self.islands@;
        proof {
            assert(island_ok(old_islands[index as int], self.keys(), self.key_bound()));
        }
        let x: i128 = self.islands[index].pos.x as i128 + delta.x as i128;
        let y: i128 = self.islands[index].pos.y as i128 + delta.y as i128;
        let limit: i128 = crate::fixed::COORD_MAX as i128;
        if x < -limit || x > limit || y < -limit || y > limit {
            return Err(CraftError::InvalidOperation);
        }
        let moved = Point2 { x: x as i64, y: y as i64 };
        let mut island = self.islands.remove(index);
        island.pos = moved;
        self.islands.insert(index, island);
        proof {
            let was = old_islands[index as int];
            assert(self.islands@ =~= old_islands.update(index as int, posed(was, moved, was.rot)));
            lemma_islands_after_move(
                old_islands,
                self.keys(),
                self.key_bound(),
                index as int,
                moved,
                was.rot,
            );
        }
        Ok(())
    }

    /// Turns the island with key `key` by `angle`: its rotation grows by
    /// `angle`, and its root face's origin goes to `pos`, the place to which
    /// the turn about its centre takes it.
    ///
    /// Fails with `UnknownKey` if there is no such island, and with
    /// `InvalidOperation` if `pos` is out of the range of coordinates or the
    /// rotation out of the range of its type.
    pub fn island_rotate(&mut self, key: u64, angle: i64, pos: Point2) -> (r: Result<(), CraftError>)
        requires
            old(self).wf(),
        ensures
            final(self).wf(),
            old(self).rotate_outcome(final(self), key, angle, pos, r),
    {
        let index: usize = match self.island_index(key) {
            Some(i) => i,
            None => {
                return Err(CraftError::UnknownKey);
            },
        };
        let ghost old_islands = self.islands@;
        let rot: i128 = self.islands[index].rot as i128 + angle as i128;
        if !pos.is_in_range() || rot < i64::MIN as i128 || rot > i64::MAX as i128 {
            return Err(CraftError::InvalidOperation);
        }
        let mut island = self.islands.remove(index);
        island.pos = pos;
        island.rot = rot as i64;
        self.islands.insert(index, island);
        proof {
            let was = old_islands[index as int];
            assert(self.islands@ =~= old_islands.update(
                index as int,
                posed(was, pos, (was.rot + angle) as i64),
            ));
            lemma_islands_after_move(
                old_islands,
                self.keys(),
                self.key_bound(),
                index as int,
                pos,
                (was.rot + angle) as i64,
            );
        }
        Ok(())
    }

    /// Whether `after` is this papercraft with the islands that have the
    /// key `first` or `second` at the places at which the unfolding has
    /// the first corner of their root faces, which is the origin of a
    /// face.
    pub open spec fn anchor_outcome(
        &self,
        after: &Papercraft,
        first: u64,
        second: u64,
        unfolding: &Unfolding,
    ) -> bool {
        &&& self.same_but_islands(after)
        &&& after.island_seq().len() == self.island_seq().len()
        &&& forall|i: int|
            0 <= i < self.island_seq().len() ==> {
                let was = self.island_seq()[i];
                #[trigger] after.island_seq()[i] == (if was.key == first || was.key == second {
                    posed(was, unfolding.corner(was.root as int, 0), was.rot)
                } else {
                    was
                })
            }
    }

    /// Puts the islands that have the key `first` or `second` at the
    /// places at which the unfolding has the origins of their root faces,
    /// so that their faces stay where they are when the unfolding is
    /// derived anew.
    pub fn anchor_islands(&mut self, first: u64, second: u64, unfolding: &Unfolding)
        requires
            old(self).wf(),
            unfolding.fits(old(self).mesh()),
        ensures
            final(self).wf(),
            old(self).anchor_outcome(final(self), first, second, unfolding),
    {
        let mut i: usize = 0;
        while i < self.islands.len()
            invariant
                self.wf(),
                unfolding.fits(self.mesh()),
                old(self).same_but_islands(self),
                self.island_seq().len() == old(self).island_seq().len(),
                i <= self.island_seq().len(),
                forall|j: int|
                    0 <= j < i ==> {
                        let was = old(self).island_seq()[j];
                        #[trigger] self.island_seq()[j] == (if was.key == first || was.key
                            == second {
                            posed(was, unfolding.corner(was.root as int, 0), was.rot)
                        } else {
                            was
                        })
                    },
                forall|j: int|
                    i <= j < self.island_seq().len() ==> #[trigger] self.island_seq()[j]
                        == old(self).island_seq()[j],
            decreases self.island_seq().len() - i,
        {
            let ghost before = self.islands@;
            proof {
                assert(self.island_seq()[i as int] == old(self).island_seq()[i as int]);
                assert(island_ok(before[i as int], self.keys(), self.key_bound()));
            }
            let key = self.islands[i].key;
            if key == first || key == second {
                let root: usize = self.islands[i].root;
                proof {
                    assert(self.model.face_wf(root as int));
                    assert(unfolding.faces@[root as int]@[0].in_range());
                }
                let pos = unfolding.faces[root][0];
                let mut island = self.islands.remove(i);
                island.pos = pos;
                self.islands.insert(i, island);
                proof {
                    let was = before[i as int];
                    assert(self.islands@ =~= before.update(i as int, posed(was, pos, was.rot)));
                    lemma_islands_after_move(
                        before,
                        self.keys(),
                        self.key_bound(),
                        i as int,
                        pos,
                        was.rot,
                    );
                }
            }
            i += 1;
        }
    }

    /// Moves every island: the island at position `i` of the list by
    /// `deltas[i]`.
    pub fn translate_islands(&mut self, deltas: &Vec<Point2>)
        requires
            old(self).wf(),
            deltas@.len() == old(self).island_seq().len(),
            forall|i: int|
                0 <= i < deltas@.len() ==> crate::fixed::in_range(
                    old(self).island_seq()[i].pos.x + (#[trigger] deltas@[i]).x,
                ) && crate::fixed::in_range(old(self).island_seq()[i].pos.y + deltas@[i].y),
        ensures
            final(self).wf(),
            final(self).same_model(old(self)),
            final(self).statuses() == old(self).statuses(),
            final(self).keys() == old(self).keys(),
            final(self).key_bound() == old(self).key_bound(),
            final(self).island_seq().len() == old(self).island_seq().len(),
            forall|i: int|
                0 <= i < deltas@.len() ==> #[trigger] final(self).island_seq()[i] == posed(
                    old(self).island_seq()[i],
                    Point2 {
                        x: (old(self).island_seq()[i].pos.x + deltas@[i].x) as i64,
                        y: (old(self).island_seq()[i].pos.y + deltas@[i].y) as i64,
                    },
                    old(self).island_seq()[i].rot,
                ),
    {
        let mut i: usize = 0;
        while i < self.islands.len()
            invariant
                self.wf(),
                self.same_model(old(self)),
                self.statuses() == old(self).statuses(),
                self.keys() == old(self).keys(),
                self.key_bound() == old(self).key_bound(),
                self.island_seq().len() == old(self).island_seq().len(),
                deltas@.len() == old(self).island_seq().len(),
                forall|i: int|
                    0 <= i < deltas@.len() ==> crate::fixed::in_range(
                        old(self).island_seq()[i].pos.x + (#[trigger] deltas@[i]).x,
                    ) && crate::fixed::in_range(old(self).island_seq()[i].pos.y + deltas@[i].y),
                i <= self.island_seq().len(),
                forall|j: int|
                    0 <= j < i ==> #[trigger] self.island_seq()[j] == posed(
                        old(self).island_seq()[j],
                        Point2 {
                            x: (old(self).island_seq()[j].pos.x + deltas@[j].x) as i64,
                            y: (old(self).island_seq()[j].pos.y + deltas@[j].y) as i64,
                        },
                        old(self).island_seq()[j].rot,
                    ),
                forall|j: int|
                    i <= j < self.island_seq().len() ==> #[trigger] self.island_seq()[j]
                        == old(self).island_seq()[j],
            decreases self.island_seq().len() - i,
        {
            let ghost before = self.islands@;
            proof {
                assert(self.island_seq()[i as int] == old(self).island_seq()[i as int]);
                assert(crate::fixed::in_range(before[i as int].pos.x + deltas@[i as int].x));
            }
            let delta = deltas[i];
            let mut island = self.islands.remove(i);
            let moved = Point2 { x: island.pos.x + delta.x, y: island.pos.y + delta.y };
            island.pos = moved;
            self.islands.insert(i, island);
            proof {
                let was = before[i as int];
                assert(self.islands@ =~= before.update(i as int, posed(was, moved, was.rot)));
                lemma_islands_after_move(
                    before,
                    self.keys(),
                    self.key_bound(),
                    i as int,
                    moved,
                    was.rot,
                );
            }
            i += 1;
        }
    }

    /// Replaces the paper options.
    ///
    /// Fails with `InvalidOperation` if the new options are not well
    /// formed.
    pub fn replace_options(&mut self, options: PaperOptions) -> (r: Result<(), CraftError>)
        requires
            old(self).wf(),
        ensures
            final(self).wf(),
            old(self).options_outcome(final(self), options, r),
    {
        if !options.is_valid() {
            return Err(CraftError::InvalidOperation);
        }
        self.options = options;
        Ok(())
    }
}

/// The islands follow the folds: two well-formed papercrafts of one mesh in
/// which the same edges are folds have the same faces together in an
/// island, whatever the keys of their islands are.
pub proof fn lemma_islands_follow_folds(first: &Papercraft, second: &Papercraft, f: int, g: int)
    requires
        first.wf(),
        second.wf(),
        first.mesh() == second.mesh(),
        same_folds(first.statuses(), second.statuses()),
        0 <= f < face_count(first.mesh()),
        0 <= g < face_count(first.mesh()),
    ensures
        first.keys()[f] == first.keys()[g] <==> second.keys()[f] == second.keys()[g],
{
    lemma_same_folds_same_classes(
        first.mesh(),
        first.statuses(),
        second.statuses(),
        first.keys(),
    );
}

/// Joining a cut edge without flap and cutting it again changes nothing
/// but, at most, the keys of islands: the edges are in the state they were
/// in, and the same faces are together in an island.
pub proof fn lemma_join_then_cut(
    start: &Papercraft,
    joined: &Papercraft,
    cut: &Papercraft,
    edge: int,
    f: int,
    g: int,
)
    requires
        start.wf(),
        joined.wf(),
        cut.wf(),
        start.mesh() == joined.mesh(),
        joined.mesh() == cut.mesh(),
        0 <= edge < start.statuses().len(),
        start.statuses()[edge] == EdgeStatus::Cut(FlapSide::Neither),
        joined.statuses() == start.statuses().update(edge, EdgeStatus::Joined),
        cut.statuses() == joined.cut_statuses(edge),
        0 <= f < face_count(start.mesh()),
        0 <= g < face_count(start.mesh()),
    ensures
        cut.statuses() == start.statuses(),
        start.keys()[f] == start.keys()[g] <==> cut.keys()[f] == cut.keys()[g],
{
    assert(cut.statuses() =~= start.statuses());
    lemma_islands_follow_folds(start, cut, f, g);
}

/// Cutting a fold and joining it again changes nothing but, at most, the
/// keys of islands: the edges are in the state they were in, and the same
/// faces are together in an island.
pub proof fn lemma_cut_then_join(
    start: &Papercraft,
    cut: &Papercraft,
    joined: &Papercraft,
    edge: int,
    f: int,
    g: int,
)
    requires
        start.wf(),
        cut.wf(),
        joined.wf(),
        start.mesh() == cut.mesh(),
        cut.mesh() == joined.mesh(),
        0 <= edge < start.statuses().len(),
        start.statuses()[edge] == EdgeStatus::Joined,
        cut.statuses() == start.cut_statuses(edge),
        joined.statuses() == cut.statuses().update(edge, EdgeStatus::Joined),
        0 <= f < face_count(start.mesh()),
        0 <= g < face_count(start.mesh()),
    ensures
        joined.statuses() == start.statuses(),
        start.keys()[f] == start.keys()[g] <==> joined.keys()[f] == joined.keys()[g],
{
    assert(joined.statuses() =~= start.statuses());
    lemma_islands_follow_folds(start, joined, f, g);
}

/// No two islands have the same key.
pub proof fn lemma_keys_distinct(craft: &Papercraft, i: int, j: int)
    requires
        craft.wf(),
        0 <= i < craft.island_seq().len(),
        0 <= j < craft.island_seq().len(),
        i != j,
    ensures
        craft.island_seq()[i].key != craft.island_seq()[j].key,
{
    if i < j {
        assert(craft.island_seq()[i].key < craft.island_seq()[j].key);
    } else {
        assert(craft.island_seq()[j].key < craft.island_seq()[i].key);
    }
}

/// Without folds no face is connected to another.
pub proof fn lemma_alone_without_folds(model: &Model, status: Seq<EdgeStatus>, f: int, g: int)
    requires
        forall|e: int| 0 <= e < status.len() ==> #[trigger] status[e] != EdgeStatus::Joined,
        connected(model, status, f, g),
    ensures
        f == g,
{
    let inside = Set::new(|x: int| x == f);
    assert forall|a: int, b: int|
        inside.contains(a) && 0 <= b < face_count(model) && #[trigger] adjacent(
            model,
            status,
            a,
            b,
        ) implies inside.contains(b) by {
        let e = choose|e: int| fold_between(model, status, e, a, b);
        assert(status[e] != EdgeStatus::Joined);
    }
    lemma_closed_set_holds_component(model, status, inside, f, g);
}

/// Every face of a well-formed papercraft is in exactly one island: the
/// island whose root it is connected to.
pub proof fn lemma_face_partition(craft: &Papercraft, f: int)
    requires
        craft.wf(),
        0 <= f < face_count(craft.mesh()),
    ensures
        exists|i: int|
            0 <= i < craft.island_seq().len() && #[trigger] connected(
                craft.mesh(),
                craft.statuses(),
                craft.island_seq()[i].root as int,
                f,
            ),
        forall|i: int, j: int|
            0 <= i < craft.island_seq().len() && 0 <= j < craft.island_seq().len() && connected(
                craft.mesh(),
                craft.statuses(),
                craft.island_seq()[i].root as int,
                f,
            ) && connected(craft.mesh(), craft.statuses(), craft.island_seq()[j].root as int, f)
                ==> i == j,
{
    let islands = craft.island_seq();
    let key = craft.keys()[f];
    assert(has_key(islands, key));
    let i = choose|i: int| 0 <= i < islands.len() && (#[trigger] islands[i]).key == key;
    assert(craft.keys()[islands[i].root as int] == craft.keys()[f]);
    assert(connected(craft.mesh(), craft.statuses(), islands[i].root as int, f));
    assert forall|i: int, j: int|
        0 <= i < islands.len() && 0 <= j < islands.len() && connected(
            craft.mesh(),
            craft.statuses(),
            islands[i].root as int,
            f,
        ) && connected(craft.mesh(), craft.statuses(), islands[j].root as int, f) implies i
        == j by {
        let (ri, rj) = (islands[i].root as int, islands[j].root as int);
        assert(craft.keys()[ri] == craft.keys()[f]);
        assert(craft.keys()[rj] == craft.keys()[f]);
        assert(islands[i].key == islands[j].key);
        if i < j {
            assert(islands[i].key < islands[j].key);
        }
        if j < i {
            assert(islands[j].key < islands[i].key);
        }
    }
}

} // verus!
