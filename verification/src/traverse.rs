//! The traversal that walks an island across its folds, face by face.

use crate::graph::{
    adjacent, connected, face_count, fold_between, lemma_closed_set_holds_component,
    lemma_connected_refl, lemma_connected_step, EdgeStatus,
};
use crate::model::Model;
use vstd::prelude::*;

verus! {

/// The fold by which the traversal entered a face: the face it came from
/// and the edge it crossed.
#[derive(Clone, Copy, Debug, PartialEq, Eq, Structural)]
pub struct Link {
    pub face: usize,
    pub edge: usize,
}

/// One visit of the traversal: a face, and the fold by which it was
/// entered. The face at which the traversal started was entered by none.
#[derive(Clone, Copy, Debug)]
pub struct TraversalStep {
    pub face: usize,
    pub from: Option<Link>,
}

/// Whether one of the visits `steps` is a visit of face `x`.
pub open spec fn visits(steps: Seq<TraversalStep>, x: int) -> bool {
    exists|k: int| 0 <= k < steps.len() && (#[trigger] steps[k]).face == x
}

/// Whether visit `k` of `order` is of a face of the mesh and, unless it is
/// the first, entered that face across a fold from a face visited before.
pub open spec fn step_wf(
    model: &Model,
    status: Seq<EdgeStatus>,
    order: Seq<TraversalStep>,
    k: int,
) -> bool {
    &&& order[k].face < face_count(model)
    &&& match order[k].from {
        None => k == 0,
        Some(link) => fold_between(
            model,
            status,
            link.edge as int,
            link.face as int,
            order[k].face as int,
        ) && visits(order.take(k), link.face as int),
    }
}

/// Whether `order` is a traversal from `start`: it starts there, enters
/// every further face across a fold from a face visited before, visits no
/// face twice, and visits exactly the faces connected to `start`.
pub open spec fn is_traversal(
    model: &Model,
    status: Seq<EdgeStatus>,
    start: int,
    order: Seq<TraversalStep>,
) -> bool {
    &&& order.len() >= 1
    &&& order[0].face == start
    &&& order[0].from is None
    &&& forall|k: int| 0 <= k < order.len() ==> step_wf(model, status, order, k)
    &&& forall|j: int, k: int|
        0 <= j < k < order.len() ==> (#[trigger] order[j]).face != (#[trigger] order[k]).face
    &&& forall|f: int|
        0 <= f < face_count(model) ==> (connected(model, status, start, f) <==> visits(order, f))
}

/// The state of a walk: the faces it has marked, the visits that wait, the
/// last to be made next, and the visits it has made.
pub struct WalkState {
    pub marks: Seq<bool>,
    pub stack: Seq<TraversalStep>,
    pub order: Seq<TraversalStep>,
}

/// The marks and the waiting visits after the walk has looked across the
/// edge at position `i` of face `f`: where that edge is a fold to a face
/// not yet marked, that face is marked and its visit waits.
pub open spec fn look_across(
    model: &Model,
    status: Seq<EdgeStatus>,
    f: int,
    i: int,
    marks: Seq<bool>,
    stack: Seq<TraversalStep>,
) -> (Seq<bool>, Seq<TraversalStep>) {
    let e = model.faces@[f].edges@[i];
    match model.edges@[e as int].other_face_spec(f as usize) {
        Some(g) => if status[e as int] == EdgeStatus::Joined && !marks[g as int] {
            (
                marks.update(g as int, true),
                stack.push(
                    TraversalStep { face: g, from: Some(Link { face: f as usize, edge: e }) },
                ),
            )
        } else {
            (marks, stack)
        },
        None => (marks, stack),
    }
}

/// The face across the edge at position `i` of face `f`, if there is one.
pub open spec fn across(model: &Model, f: int, i: int) -> Option<usize> {
    model.edges@[model.faces@[f].edges@[i] as int].other_face_spec(f as usize)
}

/// The rank of position `i` among the edges of face `f`: the index of the
/// face across it, and -1 where there is none.
pub open spec fn neighbour(model: &Model, f: int, i: int) -> int {
    match across(model, f, i) {
        Some(g) => g as int,
        None => -1,
    }
}

/// Whether the walk looks across position `i` of face `f` no later than
/// across position `j`: the greater neighbour comes first, and of two edges
/// to one neighbour the one listed first.
pub open spec fn looks_first(model: &Model, f: int, i: int, j: int) -> bool {
    neighbour(model, f, i) > neighbour(model, f, j) || (neighbour(model, f, i) == neighbour(
        model,
        f,
        j,
    ) && i <= j)
}

/// `order` with position `x` put behind the last position that is looked
/// across no later than `x`.
pub open spec fn inserted(model: &Model, f: int, order: Seq<usize>, x: usize) -> Seq<usize>
    decreases order.len(),
{
    if order.len() == 0 {
        order.push(x)
    } else if looks_first(model, f, order.last() as int, x as int) {
        order.push(x)
    } else {
        inserted(model, f, order.drop_last(), x).push(order.last())
    }
}

/// The positions before `upto` of face `f` in the order in which the walk
/// looks across them. The visits wait on a stack, so the neighbour looked
/// across last is visited first: the neighbours of a face are visited by
/// ascending face index.
pub open spec fn look_order(model: &Model, f: int, upto: nat) -> Seq<usize>
    decreases upto,
{
    if upto == 0 {
        Seq::empty()
    } else {
        inserted(model, f, look_order(model, f, (upto - 1) as nat), (upto - 1) as usize)
    }
}

/// Whether `order` lists positions of face `f` as the walk looks across them.
pub open spec fn in_look_order(model: &Model, f: int, order: Seq<usize>) -> bool {
    forall|a: int, b: int|
        0 <= a < b < order.len() ==> looks_first(
            model,
            f,
            (#[trigger] order[a]) as int,
            (#[trigger] order[b]) as int,
        )
}

/// The marks and the waiting visits after the walk has looked across the
/// first `upto` edges of face `f`, taken in its look order.
pub open spec fn look_around(
    model: &Model,
    status: Seq<EdgeStatus>,
    f: int,
    upto: int,
    marks: Seq<bool>,
    stack: Seq<TraversalStep>,
) -> (Seq<bool>, Seq<TraversalStep>)
    decreases upto,
{
    if upto <= 0 {
        (marks, stack)
    } else {
        let before = look_around(model, status, f, upto - 1, marks, stack);
        let positions = look_order(model, f, model.faces@[f].edges@.len());
        look_across(model, status, f, positions[upto - 1] as int, before.0, before.1)
    }
}

/// The state of the walk from `start` after `visits` visits. The walk
/// begins with `start` marked and its visit waiting. Each visit is the
/// last of those that wait; after it the walk looks around the face. When
/// no visit waits, the walk stays as it is.
pub open spec fn walk(model: &Model, status: Seq<EdgeStatus>, start: int, visits: nat) -> WalkState
    decreases visits,
{
    if visits == 0 {
        WalkState {
            marks: Seq::new(model.faces.len() as nat, |f: int| f == start),
            stack: seq![TraversalStep { face: start as usize, from: None }],
            order: Seq::empty(),
        }
    } else {
        let before = walk(model, status, start, (visits - 1) as nat);
        if before.stack.len() == 0 {
            before
        } else {
            let step = before.stack.last();
            let after = look_around(
                model,
                status,
                step.face as int,
                model.faces@[step.face as int].edges@.len() as int,
                before.marks,
                before.stack.drop_last(),
            );
            WalkState { marks: after.0, stack: after.1, order: before.order.push(step) }
        }
    }
}

/// The visits of the walk from `start`, in order.
pub open spec fn traversal_order(model: &Model, status: Seq<EdgeStatus>, start: int) -> Seq<
    TraversalStep,
> {
    walk(model, status, start, model.faces.len() as nat).order
}

/// A walk in which no visit waits has made all its visits.
proof fn lemma_walk_settles(
    model: &Model,
    status: Seq<EdgeStatus>,
    start: int,
    visits: nat,
    later: nat,
)
    requires
        visits <= later,
        walk(model, status, start, visits).stack.len() == 0,
    ensures
        walk(model, status, start, later) == walk(model, status, start, visits),
    decreases later,
{
    if later > visits {
        lemma_walk_settles(model, status, start, visits, (later - 1) as nat);
    }
}

/// Number of faces that `marks` marks.
pub open spec fn count_true(marks: Seq<bool>) -> nat
    decreases marks.len(),
{
    if marks.len() == 0 {
        0
    } else {
        count_true(marks.drop_last()) + if marks.last() {
            1nat
        } else {
            0nat
        }
    }
}

proof fn lemma_count_bound(marks: Seq<bool>)
    ensures
        count_true(marks) <= marks.len(),
    decreases marks.len(),
{
    if marks.len() > 0 {
        lemma_count_bound(marks.drop_last());
    }
}

proof fn lemma_count_update(marks: Seq<bool>, i: int)
    requires
        0 <= i < marks.len(),
        !marks[i],
    ensures
        count_true(marks.update(i, true)) == count_true(marks) + 1,
    decreases marks.len(),
{
    let after = marks.update(i, true);
    if i == marks.len() - 1 {
        assert(after.drop_last() =~= marks.drop_last());
    } else {
        assert(after.drop_last() =~= marks.drop_last().update(i, true));
        lemma_count_update(marks.drop_last(), i);
    }
}

/// No more faces are marked than there are.
pub proof fn lemma_count_at_most(marks: Seq<bool>)
    ensures
        count_true(marks) <= marks.len(),
{
    lemma_count_bound(marks);
}

/// Marking one more face adds one to the number of marked faces.
pub proof fn lemma_count_marks(marks: Seq<bool>, i: int)
    requires
        0 <= i < marks.len(),
        !marks[i],
    ensures
        count_true(marks.update(i, true)) == count_true(marks) + 1,
{
    lemma_count_update(marks, i);
}

proof fn lemma_visits_push(steps: Seq<TraversalStep>, step: TraversalStep, x: int)
    ensures
        visits(steps.push(step), x) <==> visits(steps, x) || step.face == x,
{
    let longer = steps.push(step);
    if visits(steps, x) {
        let k = choose|k: int| 0 <= k < steps.len() && (#[trigger] steps[k]).face == x;
        assert(longer[k].face == x);
    }
    if step.face == x {
        assert(longer[steps.len() as int].face == x);
    }
    if visits(longer, x) {
        let k = choose|k: int| 0 <= k < longer.len() && (#[trigger] longer[k]).face == x;
        if k < steps.len() {
            assert(steps[k].face == x);
        }
    }
}

/// Whether every visit of `steps` is of a marked face.
spec fn all_marked(steps: Seq<TraversalStep>, marks: Seq<bool>) -> bool {
    forall|k: int|
        0 <= k < steps.len() ==> (#[trigger] steps[k]).face < marks.len() && marks[steps[k].face as int]
}

/// Whether no two visits of `steps` are of the same face.
spec fn distinct(steps: Seq<TraversalStep>) -> bool {
    forall|j: int, k: int|
        0 <= j < k < steps.len() ==> (#[trigger] steps[j]).face != (#[trigger] steps[k]).face
}

/// Whether no visit of `order` and visit of `stack` are of the same face.
spec fn apart(order: Seq<TraversalStep>, stack: Seq<TraversalStep>) -> bool {
    forall|j: int, k: int|
        0 <= j < order.len() && 0 <= k < stack.len() ==> (#[trigger] order[j]).face != (
        #[trigger] stack[k]).face
}

/// Whether a waiting visit was entered across a fold from a face that
/// `order` has visited.
spec fn waiting_step_wf(
    model: &Model,
    status: Seq<EdgeStatus>,
    order: Seq<TraversalStep>,
    step: TraversalStep,
) -> bool {
    match step.from {
        None => false,
        Some(link) => fold_between(
            model,
            status,
            link.edge as int,
            link.face as int,
            step.face as int,
        ) && visits(order, link.face as int),
    }
}

spec fn waiting_wf(
    model: &Model,
    status: Seq<EdgeStatus>,
    order: Seq<TraversalStep>,
    stack: Seq<TraversalStep>,
) -> bool {
    forall|k: int| 0 <= k < stack.len() ==> waiting_step_wf(model, status, order, #[trigger] stack[k])
}

/// Whether every face joined by a fold to a face that `order` has visited
/// before visit `upto` is marked.
spec fn closed_upto(
    model: &Model,
    status: Seq<EdgeStatus>,
    order: Seq<TraversalStep>,
    marks: Seq<bool>,
    upto: int,
) -> bool {
    forall|k: int, g: int|
        0 <= k < upto && 0 <= g < face_count(model) && #[trigger] adjacent(
            model,
            status,
            (#[trigger] order[k]).face as int,
            g,
        ) ==> marks[g]
}

/// Whether the face across the joined edge at position `j` of face `f`, if
/// there is one, is marked.
spec fn slot_done(model: &Model, status: Seq<EdgeStatus>, marks: Seq<bool>, f: int, j: int) -> bool {
    let e = model.faces@[f].edges@[j] as int;
    status[e] == EdgeStatus::Joined ==> match model.edges@[e].other_face_spec(f as usize) {
        Some(g) => marks[g as int],
        None => true,
    }
}

spec fn slots_done(model: &Model, status: Seq<EdgeStatus>, marks: Seq<bool>, f: int, i: int) -> bool {
    forall|j: int| 0 <= j < i ==> #[trigger] slot_done(model, status, marks, f, j)
}

/// Whether `after` marks every face that `before` marks.
spec fn grown(before: Seq<bool>, after: Seq<bool>) -> bool {
    before.len() == after.len() && forall|x: int| 0 <= x < before.len() && before[x] ==> after[x]
}

/// What holds of the walk between two of its steps.
#[verifier::opaque]
spec fn walking(
    model: &Model,
    status: Seq<EdgeStatus>,
    start: int,
    marks: Seq<bool>,
    order: Seq<TraversalStep>,
    stack: Seq<TraversalStep>,
    upto: int,
) -> bool {
    let n = face_count(model);
    &&& 0 <= start < n
    &&& marks.len() == n
    &&& marks[start]
    &&& forall|x: int| 0 <= x < n && marks[x] ==> connected(model, status, start, x)
    &&& all_marked(order, marks)
    &&& all_marked(stack, marks)
    &&& forall|x: int| 0 <= x < n && marks[x] ==> visits(order, x) || visits(stack, x)
    &&& distinct(order)
    &&& distinct(stack)
    &&& apart(order, stack)
    &&& order.len() + stack.len() == count_true(marks)
    &&& forall|k: int| 0 <= k < order.len() ==> step_wf(model, status, order, k)
    &&& order.len() == 0 ==> stack =~= seq![TraversalStep { face: start as usize, from: None }]
    &&& order.len() > 0 ==> order[0].face == start && waiting_wf(model, status, order, stack)
    &&& closed_upto(model, status, order, marks, upto)
}

proof fn lemma_walk_begins(model: &Model, status: Seq<EdgeStatus>, start: int, blank: Seq<bool>)
    requires
        0 <= start < face_count(model),
        blank.len() == face_count(model),
        forall|j: int| 0 <= j < blank.len() ==> !blank[j],
        count_true(blank) == 0,
    ensures
        walking(
            model,
            status,
            start,
            blank.update(start, true),
            Seq::empty(),
            seq![TraversalStep { face: start as usize, from: None }],
            0,
        ),
{
    reveal(walking);
    let first = TraversalStep { face: start as usize, from: None };
    let stack = seq![first];
    lemma_count_update(blank, start);
    lemma_connected_refl(model, status, start);
    assert(stack[0].face == start);
}

proof fn lemma_walk_pops(
    model: &Model,
    status: Seq<EdgeStatus>,
    start: int,
    marks: Seq<bool>,
    order: Seq<TraversalStep>,
    stack: Seq<TraversalStep>,
)
    requires
        walking(model, status, start, marks, order, stack, order.len() as int),
        stack.len() > 0,
    ensures
        walking(
            model,
            status,
            start,
            marks,
            order.push(stack.last()),
            stack.drop_last(),
            order.len() as int,
        ),
        order.len() < face_count(model),
        stack.last().face < face_count(model),
        marks[stack.last().face as int],
{
    reveal(walking);
    let n = face_count(model);
    let step = stack.last();
    let longer = order.push(step);
    let rest = stack.drop_last();
    lemma_count_bound(marks);
    assert(step == stack[stack.len() - 1]);
    assert(rest.push(step) =~= stack);
    assert forall|x: int| 0 <= x < n && marks[x] implies visits(longer, x) || visits(rest, x) by {
        lemma_visits_push(order, step, x);
        lemma_visits_push(rest, step, x);
    }
    assert(all_marked(longer, marks)) by {
        assert forall|k: int| 0 <= k < longer.len() implies (#[trigger] longer[k]).face
            < marks.len() && marks[longer[k].face as int] by {
            if k < order.len() {
                assert(longer[k] == order[k]);
            }
        }
    }
    assert(all_marked(rest, marks)) by {
        assert forall|k: int| 0 <= k < rest.len() implies (#[trigger] rest[k]).face < marks.len()
            && marks[rest[k].face as int] by {
            assert(rest[k] == stack[k]);
        }
    }
    assert(distinct(longer)) by {
        assert forall|j: int, k: int| 0 <= j < k < longer.len() implies (#[trigger] longer[j]).face
            != (#[trigger] longer[k]).face by {
            assert(longer[j] == order[j]);
            if k < order.len() {
                assert(longer[k] == order[k]);
            } else {
                assert(order[j].face != stack[stack.len() - 1].face);
            }
        }
    }
    assert(distinct(rest)) by {
        assert forall|j: int, k: int| 0 <= j < k < rest.len() implies (#[trigger] rest[j]).face != (
        #[trigger] rest[k]).face by {
            assert(rest[j] == stack[j] && rest[k] == stack[k]);
        }
    }
    assert(apart(longer, rest)) by {
        assert forall|j: int, k: int| 0 <= j < longer.len() && 0 <= k < rest.len() implies (
        #[trigger] longer[j]).face != (#[trigger] rest[k]).face by {
            assert(rest[k] == stack[k]);
            if j < order.len() {
                assert(longer[j] == order[j]);
            } else {
                assert(stack[k].face != stack[stack.len() - 1].face);
            }
        }
    }
    assert forall|k: int| 0 <= k < longer.len() implies step_wf(model, status, longer, k) by {
        if k < order.len() {
            assert(step_wf(model, status, order, k));
            assert(longer[k] == order[k]);
            assert(longer.take(k) =~= order.take(k));
        } else {
            assert(longer.take(k) =~= order);
            if order.len() > 0 {
                assert(waiting_step_wf(model, status, order, stack[stack.len() - 1]));
            }
        }
    }
    assert(waiting_wf(model, status, longer, rest)) by {
        assert forall|k: int| 0 <= k < rest.len() implies waiting_step_wf(
            model,
            status,
            longer,
            #[trigger] rest[k],
        ) by {
            assert(rest[k] == stack[k]);
            assert(order.len() > 0);
            assert(waiting_step_wf(model, status, order, stack[k]));
            lemma_visits_push(order, step, stack[k].from.unwrap().face as int);
        }
    }
    assert(longer[0].face == start) by {
        if order.len() > 0 {
            assert(longer[0] == order[0]);
        }
    }
    assert(closed_upto(model, status, longer, marks, order.len() as int)) by {
        assert forall|k: int, g: int|
            0 <= k < order.len() && 0 <= g < face_count(model) && #[trigger] adjacent(
                model,
                status,
                (#[trigger] longer[k]).face as int,
                g,
            ) implies marks[g] by {
            assert(longer[k] == order[k]);
        }
    }
}

proof fn lemma_walk_pushes(
    model: &Model,
    status: Seq<EdgeStatus>,
    start: int,
    marks: Seq<bool>,
    order: Seq<TraversalStep>,
    stack: Seq<TraversalStep>,
    next: TraversalStep,
)
    requires
        walking(model, status, start, marks, order, stack, order.len() - 1),
        order.len() >= 1,
        next.face < face_count(model),
        !marks[next.face as int],
        next.from is Some,
        next.from.unwrap().face == order.last().face,
        fold_between(
            model,
            status,
            next.from.unwrap().edge as int,
            next.from.unwrap().face as int,
            next.face as int,
        ),
    ensures
        walking(
            model,
            status,
            start,
            marks.update(next.face as int, true),
            order,
            stack.push(next),
            order.len() - 1,
        ),
{
    reveal(walking);
    let n = face_count(model);
    let g = next.face as int;
    let f = order.last().face as int;
    let after = marks.update(g, true);
    let longer = stack.push(next);
    assert(order[order.len() - 1].face == f);
    assert(visits(order, f));
    assert(adjacent(model, status, f, g));
    lemma_connected_step(model, status, start, f, g);
    lemma_count_update(marks, g);
    assert forall|x: int| 0 <= x < n && after[x] implies visits(order, x) || visits(longer, x) by {
        lemma_visits_push(stack, next, x);
    }
    assert(all_marked(longer, after)) by {
        assert forall|k: int| 0 <= k < longer.len() implies (#[trigger] longer[k]).face
            < after.len() && after[longer[k].face as int] by {
            if k < stack.len() {
                assert(longer[k] == stack[k]);
            }
        }
    }
    assert(distinct(longer)) by {
        assert forall|j: int, k: int| 0 <= j < k < longer.len() implies (#[trigger] longer[j]).face
            != (#[trigger] longer[k]).face by {
            assert(longer[j] == stack[j]);
            if k < stack.len() {
                assert(longer[k] == stack[k]);
            }
        }
    }
    assert(apart(order, longer)) by {
        assert forall|j: int, k: int| 0 <= j < order.len() && 0 <= k < longer.len() implies (
        #[trigger] order[j]).face != (#[trigger] longer[k]).face by {
            if k < stack.len() {
                assert(longer[k] == stack[k]);
            }
        }
    }
    assert(waiting_wf(model, status, order, longer)) by {
        assert forall|k: int| 0 <= k < longer.len() implies waiting_step_wf(
            model,
            status,
            order,
            #[trigger] longer[k],
        ) by {
            if k < stack.len() {
                assert(longer[k] == stack[k]);
            }
        }
    }
}

proof fn lemma_walk_closes(
    model: &Model,
    status: Seq<EdgeStatus>,
    start: int,
    marks: Seq<bool>,
    order: Seq<TraversalStep>,
    stack: Seq<TraversalStep>,
)
    requires
        model.wf(),
        status.len() == model.edges@.len(),
        walking(model, status, start, marks, order, stack, order.len() - 1),
        order.len() >= 1,
        slots_done(
            model,
            status,
            marks,
            order.last().face as int,
            model.faces@[order.last().face as int].edges@.len() as int,
        ),
    ensures
        walking(model, status, start, marks, order, stack, order.len() as int),
{
    reveal(walking);
    let f = order.last().face as int;
    assert(order[order.len() - 1].face == f);
    assert forall|k: int, g: int|
        0 <= k < order.len() && 0 <= g < face_count(model) && #[trigger] adjacent(
            model,
            status,
            (#[trigger] order[k]).face as int,
            g,
        ) implies marks[g] by {
        if k == order.len() - 1 {
            let via = choose|via: int| fold_between(model, status, via, f, g);
            assert(model.edges.len() == model.edges@.len());
            assert(model.edge_wf(via));
            model.faces@[f].lemma_position_of(via as usize);
            let j = model.faces@[f].position_of(via as usize).unwrap();
            assert(slot_done(model, status, marks, f, j));
            assert(model.edges@[via].other_face_spec(f as usize) == Some(g as usize));
        }
    }
}

proof fn lemma_walk_ends(
    model: &Model,
    status: Seq<EdgeStatus>,
    start: int,
    marks: Seq<bool>,
    order: Seq<TraversalStep>,
)
    requires
        walking(model, status, start, marks, order, Seq::empty(), order.len() as int),
    ensures
        forall|f: int| 0 <= f < face_count(model) ==> (marks[f] <==> connected(model, status, start, f)),
        is_traversal(model, status, start, order),
{
    reveal(walking);
    let n = face_count(model);
    let inside = Set::new(|x: int| 0 <= x < n && marks[x]);
    let none = Seq::<TraversalStep>::empty();
    assert forall|x: int| 0 <= x < n && marks[x] implies visits(order, x) by {
        assert(!visits(none, x));
    }
    assert forall|x: int| 0 <= x < n && connected(model, status, start, x) implies marks[x] by {
        assert forall|a: int, b: int|
            inside.contains(a) && 0 <= b < face_count(model) && #[trigger] adjacent(
                model,
                status,
                a,
                b,
            ) implies inside.contains(b) by {
            assert(visits(order, a));
            let k = choose|k: int| 0 <= k < order.len() && (#[trigger] order[k]).face == a;
            assert(adjacent(model, status, order[k].face as int, b));
        }
        lemma_closed_set_holds_component(model, status, inside, start, x);
    }
    assert(visits(order, start));
    assert(step_wf(model, status, order, 0));
    assert(order[0].from is None) by {
        if order[0].from is Some {
            assert(!visits(order.take(0), order[0].from.unwrap().face as int));
        }
    }
    assert forall|f: int| 0 <= f < face_count(model) implies (connected(model, status, start, f)
        <==> visits(order, f)) by {
        if visits(order, f) {
            let k = choose|k: int| 0 <= k < order.len() && (#[trigger] order[k]).face == f;
            assert(marks[order[k].face as int]);
        }
    }
}

proof fn lemma_push_holds(order: Seq<usize>, a: usize, j: usize)
    ensures
        order.push(a).contains(j) <==> (order.contains(j) || j == a),
{
    let longer = order.push(a);
    if order.contains(j) {
        let i = choose|i: int| 0 <= i < order.len() && order[i] == j;
        assert(longer[i] == j);
    }
    if j == a {
        assert(longer[order.len() as int] == j);
    }
    if longer.contains(j) {
        let i = choose|i: int| 0 <= i < longer.len() && longer[i] == j;
        if i < order.len() {
            assert(order[i] == j);
        }
    }
}

proof fn lemma_inserted_holds(model: &Model, f: int, order: Seq<usize>, x: usize, j: usize)
    ensures
        inserted(model, f, order, x).len() == order.len() + 1,
        inserted(model, f, order, x).contains(j) <==> (order.contains(j) || j == x),
    decreases order.len(),
{
    if order.len() == 0 || looks_first(model, f, order.last() as int, x as int) {
        lemma_push_holds(order, x, j);
    } else {
        let front = order.drop_last();
        assert(front.push(order.last()) =~= order);
        lemma_inserted_holds(model, f, front, x, j);
        lemma_push_holds(inserted(model, f, front, x), order.last(), j);
        lemma_push_holds(front, order.last(), j);
    }
}

proof fn lemma_inserted_sorted(model: &Model, f: int, order: Seq<usize>, x: usize)
    requires
        in_look_order(model, f, order),
    ensures
        in_look_order(model, f, inserted(model, f, order, x)),
    decreases order.len(),
{
    let longer = inserted(model, f, order, x);
    if order.len() == 0 {
    } else if looks_first(model, f, order.last() as int, x as int) {
        assert forall|a: int, b: int| 0 <= a < b < longer.len() implies looks_first(
            model,
            f,
            (#[trigger] longer[a]) as int,
            (#[trigger] longer[b]) as int,
        ) by {
            if b == order.len() && a < order.len() - 1 {
                assert(looks_first(model, f, order[a] as int, order[order.len() - 1] as int));
            }
        }
    } else {
        let front = order.drop_last();
        let last = order.last();
        let inner = inserted(model, f, front, x);
        assert forall|a: int, b: int| 0 <= a < b < front.len() implies looks_first(
            model,
            f,
            (#[trigger] front[a]) as int,
            (#[trigger] front[b]) as int,
        ) by {
            assert(front[a] == order[a] && front[b] == order[b]);
        }
        lemma_inserted_sorted(model, f, front, x);
        assert forall|a: int, b: int| 0 <= a < b < longer.len() implies looks_first(
            model,
            f,
            (#[trigger] longer[a]) as int,
            (#[trigger] longer[b]) as int,
        ) by {
            lemma_inserted_holds(model, f, front, x, longer[a]);
            if b == inner.len() {
                assert(inner.contains(inner[a]));
                if front.contains(inner[a]) {
                    let i = choose|i: int| 0 <= i < front.len() && front[i] == inner[a];
                    assert(looks_first(model, f, order[i] as int, order[order.len() - 1] as int));
                }
            } else {
                assert(looks_first(model, f, inner[a] as int, inner[b] as int));
            }
        }
    }
}

/// The look order of a face lists each of its positions once, the greater
/// neighbour first.
pub proof fn lemma_look_order(model: &Model, f: int, upto: nat)
    requires
        upto <= usize::MAX,
    ensures
        look_order(model, f, upto).len() == upto,
        forall|j: usize| look_order(model, f, upto).contains(j) <==> j < upto,
        in_look_order(model, f, look_order(model, f, upto)),
    decreases upto,
{
    if upto > 0 {
        let shorter = look_order(model, f, (upto - 1) as nat);
        let x = (upto - 1) as usize;
        lemma_look_order(model, f, (upto - 1) as nat);
        lemma_inserted_sorted(model, f, shorter, x);
        assert forall|j: usize| look_order(model, f, upto).contains(j) <==> j < upto by {
            lemma_inserted_holds(model, f, shorter, x, j);
        }
        lemma_inserted_holds(model, f, shorter, x, x);
    } else {
        assert forall|j: usize| !look_order(model, f, upto).contains(j) by {}
    }
}

/// Whether the walk has dealt with the position that `positions` lists at `k`.
spec fn looked_at(
    model: &Model,
    status: Seq<EdgeStatus>,
    marks: Seq<bool>,
    f: int,
    positions: Seq<usize>,
    k: int,
) -> bool {
    slot_done(model, status, marks, f, positions[k] as int)
}

/// Whether the walk has dealt with the first `upto` positions of `positions`.
spec fn looked(
    model: &Model,
    status: Seq<EdgeStatus>,
    marks: Seq<bool>,
    f: int,
    positions: Seq<usize>,
    upto: int,
) -> bool {
    forall|k: int| 0 <= k < upto ==> #[trigger] looked_at(model, status, marks, f, positions, k)
}

/// Whether `positions` lists positions of face `f` only.
spec fn positions_wf(model: &Model, f: int, positions: Seq<usize>) -> bool {
    forall|k: int| 0 <= k < positions.len() ==> (#[trigger] positions[k]) < model.faces@[f].edges@.len()
}

proof fn lemma_slot_checked(
    model: &Model,
    status: Seq<EdgeStatus>,
    before: Seq<bool>,
    after: Seq<bool>,
    f: int,
    positions: Seq<usize>,
    upto: int,
)
    requires
        model.wf(),
        status.len() == model.edges@.len(),
        0 <= f < face_count(model),
        0 <= upto < positions.len(),
        positions_wf(model, f, positions),
        before.len() == face_count(model),
        looked(model, status, before, f, positions, upto),
        grown(before, after),
        looked_at(model, status, after, f, positions, upto),
    ensures
        looked(model, status, after, f, positions, upto + 1),
{
    assert forall|k: int| 0 <= k < upto implies #[trigger] looked_at(
        model,
        status,
        after,
        f,
        positions,
        k,
    ) by {
        assert(looked_at(model, status, before, f, positions, k));
        let j = positions[k] as int;
        assert(model.face_wf(f));
        assert(model.slot_wf(f, j));
        let e = model.faces@[f].edges@[j] as int;
        assert(model.edge_wf(e));
    }
}

proof fn lemma_looked_around(
    model: &Model,
    status: Seq<EdgeStatus>,
    marks: Seq<bool>,
    f: int,
)
    requires
        model.wf(),
        0 <= f < face_count(model),
        looked(
            model,
            status,
            marks,
            f,
            look_order(model, f, model.faces@[f].edges@.len()),
            model.faces@[f].edges@.len() as int,
        ),
    ensures
        slots_done(model, status, marks, f, model.faces@[f].edges@.len() as int),
{
    let count = model.faces@[f].edges@.len();
    let positions = look_order(model, f, count);
    assert(model.face_wf(f));
    assert(model.faces@[f].edges.len() == count);
    lemma_look_order(model, f, count);
    assert forall|j: int| 0 <= j < count implies #[trigger] slot_done(model, status, marks, f, j) by {
        assert(positions.contains(j as usize));
        let k = choose|k: int| 0 <= k < positions.len() && positions[k] == j as usize;
        assert(looked_at(model, status, marks, f, positions, k));
    }
}

proof fn lemma_walk_counts(
    model: &Model,
    status: Seq<EdgeStatus>,
    start: int,
    marks: Seq<bool>,
    order: Seq<TraversalStep>,
    stack: Seq<TraversalStep>,
)
    requires
        walking(model, status, start, marks, order, stack, order.len() as int),
    ensures
        order.len() + stack.len() <= face_count(model),
{
    reveal(walking);
    lemma_count_bound(marks);
}

/// The face across the edge at position `i` of face `f`.
fn face_across(model: &Model, f: usize, i: usize) -> (g: Option<usize>)
    requires
        model.wf(),
        f < face_count(model),
        i < model.faces@[f as int].edges@.len(),
    ensures
        g == across(model, f as int, i as int),
{
    proof {
        assert(model.face_wf(f as int));
        assert(model.slot_wf(f as int, i as int));
    }
    let e: usize = model.faces[f].edges[i];
    proof {
        assert(model.edge_wf(e as int));
    }
    model.edges[e].other_face(f)
}

/// Whether position `i` of face `f` is looked across no later than `j`.
fn looks_before(model: &Model, f: usize, i: usize, j: usize) -> (b: bool)
    requires
        model.wf(),
        f < face_count(model),
        i < model.faces@[f as int].edges@.len(),
        j < model.faces@[f as int].edges@.len(),
    ensures
        b == looks_first(model, f as int, i as int, j as int),
{
    match (face_across(model, f, i), face_across(model, f, j)) {
        (Some(g), Some(h)) => g > h || (g == h && i <= j),
        (Some(_), None) => true,
        (None, Some(_)) => false,
        (None, None) => i <= j,
    }
}

/// Puts position `x` in its place among `order`.
fn insert_position(model: &Model, f: usize, order: Vec<usize>, x: usize) -> (r: Vec<usize>)
    requires
        model.wf(),
        f < face_count(model),
        x < model.faces@[f as int].edges@.len(),
        positions_wf(model, f as int, order@),
    ensures
        r@ == inserted(model, f as int, order@, x),
    decreases order@.len(),
{
    let ghost whole = order@;
    let mut order = order;
    if order.len() == 0 {
        order.push(x);
        return order;
    }
    let last: usize = order.pop().unwrap();
    proof {
        assert(last == whole[whole.len() - 1]);
        assert(order@ == whole.drop_last());
        assert forall|k: int| 0 <= k < order@.len() implies (#[trigger] order@[k])
            < model.faces@[f as int].edges@.len() by {
            assert(order@[k] == whole[k]);
        }
    }
    if looks_before(model, f, last, x) {
        order.push(last);
        proof {
            assert(order@ =~= whole);
        }
        order.push(x);
        order
    } else {
        let mut r = insert_position(model, f, order, x);
        r.push(last);
        r
    }
}

/// The positions of face `f` in the order in which the walk looks across them.
fn look_positions(model: &Model, f: usize) -> (r: Vec<usize>)
    requires
        model.wf(),
        f < face_count(model),
    ensures
        r@ == look_order(model, f as int, model.faces@[f as int].edges@.len()),
        r@.len() == model.faces@[f as int].edges@.len(),
        positions_wf(model, f as int, r@),
{
    let count: usize = model.faces[f].edges.len();
    let mut r: Vec<usize> = Vec::new();
    let mut i: usize = 0;
    while i < count
        invariant
            model.wf(),
            f < face_count(model),
            count == model.faces@[f as int].edges@.len(),
            i <= count,
            r@ == look_order(model, f as int, i as nat),
            positions_wf(model, f as int, r@),
        decreases count - i,
    {
        r = insert_position(model, f, r, i);
        i += 1;
        proof {
            lemma_look_order(model, f as int, i as nat);
            assert forall|k: int| 0 <= k < r@.len() implies (#[trigger] r@[k])
                < model.faces@[f as int].edges@.len() by {
                assert(r@.contains(r@[k]));
            }
        }
    }
    proof {
        lemma_look_order(model, f as int, count as nat);
    }
    r
}

/// Looks across the edge at position `i` of the face `f` that the walk has
/// just visited, and lets the face on the other side wait for its visit if
/// the edge is a fold and that face is new.
#[verifier::rlimit(40)]
fn visit_slot(
    model: &Model,
    status: &Vec<EdgeStatus>,
    f: usize,
    i: usize,
    marks: &mut Vec<bool>,
    stack: &mut Vec<TraversalStep>,
    Ghost(start): Ghost<int>,
    Ghost(order): Ghost<Seq<TraversalStep>>,
    Ghost(positions): Ghost<Seq<usize>>,
    Ghost(upto): Ghost<int>,
)
    requires
        model.wf(),
        status@.len() == model.edges@.len(),
        f < face_count(model),
        i < model.faces@[f as int].edges@.len(),
        order.len() >= 1,
        order.last().face == f,
        old(marks)@.len() == face_count(model),
        walking(model, status@, start, old(marks)@, order, old(stack)@, order.len() - 1),
        positions_wf(model, f as int, positions),
        0 <= upto < positions.len(),
        positions[upto] == i,
        looked(model, status@, old(marks)@, f as int, positions, upto),
    ensures
        final(marks)@.len() == face_count(model),
        walking(model, status@, start, final(marks)@, order, final(stack)@, order.len() - 1),
        looked(model, status@, final(marks)@, f as int, positions, upto + 1),
        (final(marks)@, final(stack)@) == look_across(
            model,
            status@,
            f as int,
            i as int,
            old(marks)@,
            old(stack)@,
        ),
{
    proof {
        assert(model.face_wf(f as int));
        assert(model.slot_wf(f as int, i as int));
    }
    let e: usize = model.faces[f].edges[i];
    let ghost before = marks@;
    proof {
        assert(model.edge_wf(e as int));
    }
    let fold: bool = status[e] == EdgeStatus::Joined;
    let across: Option<usize> = model.edges[e].other_face(f);
    if fold && across.is_some() {
        let g: usize = across.unwrap();
        if !marks[g] {
            let next = TraversalStep { face: g, from: Some(Link { face: f, edge: e }) };
            proof {
                assert(fold_between(model, status@, e as int, f as int, g as int));
                lemma_walk_pushes(model, status@, start, marks@, order, stack@, next);
            }
            marks.set(g, true);
            stack.push(next);
        }
        proof {
            assert(marks@[g as int]);
        }
    }
    proof {
        assert(slot_done(model, status@, marks@, f as int, i as int));
        assert(grown(before, marks@));
        lemma_slot_checked(model, status@, before, marks@, f as int, positions, upto);
    }
}

/// Walks from face `start` across folds. Returns, for each face of the
/// mesh, whether it is connected to `start`, and the visits in order.
pub fn explore(model: &Model, status: &Vec<EdgeStatus>, start: usize) -> (r: (
    Vec<bool>,
    Vec<TraversalStep>,
))
    requires
        model.wf(),
        status@.len() == model.edges@.len(),
        start < model.faces@.len(),
    ensures
        r.0@.len() == face_count(model),
        forall|f: int|
            0 <= f < face_count(model) ==> (r.0@[f] <==> connected(model, status@, start as int, f)),
        is_traversal(model, status@, start as int, r.1@),
        r.1@ == traversal_order(model, status@, start as int),
{
    let n: usize = model.faces.len();
    let mut marks: Vec<bool> = Vec::new();
    while marks.len() < n
        invariant
            marks@.len() <= n,
            count_true(marks@) == 0,
            forall|j: int| 0 <= j < marks@.len() ==> !marks@[j],
        decreases n - marks@.len(),
    {
        proof {
            assert(marks@.push(false).drop_last() =~= marks@);
        }
        marks.push(false);
    }
    proof {
        lemma_walk_begins(model, status@, start as int, marks@);
    }
    marks.set(start, true);
    let mut stack: Vec<TraversalStep> = Vec::new();
    stack.push(TraversalStep { face: start, from: None });
    let mut order: Vec<TraversalStep> = Vec::new();
    proof {
        assert(stack@ =~= seq![TraversalStep { face: start, from: None }]);
        assert(order@ =~= Seq::empty());
        assert(marks@ =~= Seq::new(n as nat, |f: int| f == start));
        let begun = walk(model, status@, start as int, 0);
        assert(begun.marks == marks@);
        assert(begun.stack == stack@);
        assert(begun.order == order@);
    }
    while stack.len() > 0
        invariant
            model.wf(),
            status@.len() == model.edges@.len(),
            n == face_count(model),
            marks@.len() == n,
            walking(model, status@, start as int, marks@, order@, stack@, order@.len() as int),
            walk(model, status@, start as int, order@.len() as nat) == (WalkState {
                marks: marks@,
                stack: stack@,
                order: order@,
            }),
        decreases n - order@.len(),
    {
        proof {
            lemma_walk_pops(model, status@, start as int, marks@, order@, stack@);
        }
        let ghost before = WalkState { marks: marks@, stack: stack@, order: order@ };
        let step = stack.pop().unwrap();
        order.push(step);
        let f: usize = step.face;
        let positions = look_positions(model, f);
        let count: usize = positions.len();
        let mut i: usize = 0;
        while i < count
            invariant
                (marks@, stack@) == look_around(
                    model,
                    status@,
                    f as int,
                    i as int,
                    before.marks,
                    before.stack.drop_last(),
                ),
                model.wf(),
                status@.len() == model.edges@.len(),
                n == face_count(model),
                f < n,
                count == model.faces@[f as int].edges@.len(),
                positions@ == look_order(model, f as int, count as nat),
                positions@.len() == count,
                positions_wf(model, f as int, positions@),
                i <= count,
                order@.len() >= 1,
                order@[order@.len() - 1].face == f,
                marks@.len() == n,
                walking(model, status@, start as int, marks@, order@, stack@, order@.len() - 1),
                looked(model, status@, marks@, f as int, positions@, i as int),
            decreases count - i,
        {
            visit_slot(
                model,
                status,
                f,
                positions[i],
                &mut marks,
                &mut stack,
                Ghost(start as int),
                Ghost(order@),
                Ghost(positions@),
                Ghost(i as int),
            );
            i += 1;
        }
        proof {
            lemma_looked_around(model, status@, marks@, f as int);
        }
        proof {
            lemma_walk_closes(model, status@, start as int, marks@, order@, stack@);
            assert(walk(model, status@, start as int, (before.order.len() + 1) as nat) == (WalkState {
                marks: marks@,
                stack: stack@,
                order: order@,
            }));
        }
    }
    proof {
        assert(stack@ =~= Seq::empty());
        lemma_walk_ends(model, status@, start as int, marks@, order@);
        lemma_count_bound(marks@);
        lemma_walk_counts(model, status@, start as int, marks@, order@, stack@);
        lemma_walk_settles(model, status@, start as int, order@.len() as nat, n as nat);
    }
    (marks, order)
}

} // verus!
