//! Arranging the islands on the pages.

use crate::craft::{CraftError, Papercraft};
use crate::fixed::{in_range, COORD_MAX};
use crate::geometry::{Point2, Rect};
use crate::graph::face_count;
use crate::layout::{is_island_box, island_bounding_box, Unfolding};
use crate::options::PaperOptions;
use crate::pack::{is_packing, item_ok, pack_slots, packed_slots, PackItem, Slot};
use vstd::prelude::*;

verus! {

/// The part of a length that is left between two margins, but at least
/// nothing.
pub open spec fn between_margins(length: i64, first: i64, second: i64) -> i64 {
    if length - first - second < 0 {
        0
    } else {
        (length - first - second) as i64
    }
}

/// The point of the canvas at which a box on the place `slot` has its
/// least corner: the place in the content area of the slot's page, which
/// starts at the left and upper margins.
pub open spec fn slot_target(options: PaperOptions, slot: Slot) -> (int, int) {
    let origin = options.page_position_spec(slot.page as u32);
    (origin.x + options.margin.1 + slot.x, origin.y + options.margin.0 + slot.y)
}

/// Whether `boxes`, `items` and `slots` are the bounding boxes of the
/// islands, their sizes, and a packing of them into the content area of
/// the pages.
pub open spec fn is_arrangement(
    craft: &Papercraft,
    unfolding: &Unfolding,
    boxes: Seq<Rect>,
    items: Seq<PackItem>,
    slots: Seq<Slot>,
) -> bool {
    let options = craft.paper();
    &&& boxes.len() == craft.island_seq().len()
    &&& items.len() == boxes.len()
    &&& forall|i: int|
        0 <= i < boxes.len() ==> is_island_box(
            craft,
            unfolding,
            craft.island_seq()[i].key,
            #[trigger] boxes[i],
        )
    &&& forall|i: int|
        0 <= i < boxes.len() ==> #[trigger] items[i] == (PackItem {
            key: craft.island_seq()[i].key,
            width: (boxes[i].max.x - boxes[i].min.x) as i64,
            height: (boxes[i].max.y - boxes[i].min.y) as i64,
        })
    &&& slots == packed_slots(
        items,
        between_margins(options.page_size.0, options.margin.1, options.margin.2),
        between_margins(options.page_size.1, options.margin.0, options.margin.3),
    )
    &&& is_packing(
        items,
        slots,
        between_margins(options.page_size.0, options.margin.1, options.margin.2),
        between_margins(options.page_size.1, options.margin.0, options.margin.3),
    )
}

/// By how much the island whose bounding box is `bounds` moves to the
/// place `slot`.
pub open spec fn slot_delta(options: PaperOptions, bounds: Rect, slot: Slot) -> (int, int) {
    (slot_target(options, slot).0 - bounds.min.x, slot_target(options, slot).1 - bounds.min.y)
}

/// Whether every island can move to its place: the page of the place has
/// a number, and the island and its bounding box stay within the range of
/// coordinates.
pub open spec fn arrangement_fits(
    craft: &Papercraft,
    boxes: Seq<Rect>,
    items: Seq<PackItem>,
    slots: Seq<Slot>,
) -> bool {
    forall|i: int|
        0 <= i < boxes.len() ==> {
            let delta = slot_delta(craft.paper(), boxes[i], #[trigger] slots[i]);
            let target = slot_target(craft.paper(), slots[i]);
            &&& slots[i].page <= u32::MAX
            &&& target.0 + items[i].width <= COORD_MAX
            &&& target.1 + items[i].height <= COORD_MAX
            &&& in_range(craft.island_seq()[i].pos.x + delta.0)
            &&& in_range(craft.island_seq()[i].pos.y + delta.1)
        }
}

/// The bounding boxes of the islands, their sizes, and a packing of
/// them.
fn arrange(craft: &Papercraft, unfolding: &Unfolding) -> (r: (Vec<Rect>, Vec<PackItem>, Vec<Slot>))
    requires
        craft.wf(),
        unfolding.fits(craft.mesh()),
    ensures
        is_arrangement(craft, unfolding, r.0@, r.1@, r.2@),
        forall|i: int|
            0 <= i < r.0@.len() ==> (#[trigger] r.0@[i]).min.in_range() && r.0@[i].max.in_range()
                && r.0@[i].min.x <= r.0@[i].max.x && r.0@[i].min.y <= r.0@[i].max.y,
{
    let options = craft.options();
    let count: usize = craft.num_islands();
    let mut boxes: Vec<Rect> = Vec::new();
    let mut items: Vec<PackItem> = Vec::new();
    let mut i: usize = 0;
    while i < count
        invariant
            craft.wf(),
            unfolding.fits(craft.mesh()),
            count == craft.island_seq().len(),
            i <= count,
            boxes@.len() == i,
            items@.len() == i,
            forall|j: int|
                0 <= j < i ==> is_island_box(
                    craft,
                    unfolding,
                    craft.island_seq()[j].key,
                    #[trigger] boxes@[j],
                ),
            forall|j: int|
                0 <= j < i ==> (#[trigger] boxes@[j]).min.in_range() && boxes@[j].max.in_range()
                    && boxes@[j].min.x <= boxes@[j].max.x && boxes@[j].min.y <= boxes@[j].max.y,
            forall|j: int|
                0 <= j < i ==> #[trigger] items@[j] == (PackItem {
                    key: craft.island_seq()[j].key,
                    width: (boxes@[j].max.x - boxes@[j].min.x) as i64,
                    height: (boxes@[j].max.y - boxes@[j].min.y) as i64,
                }),
            forall|j: int| 0 <= j < i ==> item_ok(#[trigger] items@[j]),
        decreases count - i,
    {
        let bounds = island_bounding_box(craft, unfolding, i);
        proof {
            let key = craft.island_seq()[i as int].key;
            let (f, c) = choose|f: int, c: int|
                0 <= f < face_count(craft.mesh()) && craft.keys()[f] == key && 0 <= c
                    < unfolding.faces@[f]@.len() && (#[trigger] unfolding.faces@[f]@[c]).x
                    == bounds.min.x;
            assert(bounds.min.x <= unfolding.faces@[f]@[c].x <= bounds.max.x);
            let (g, d) = choose|g: int, d: int|
                0 <= g < face_count(craft.mesh()) && craft.keys()[g] == key && 0 <= d
                    < unfolding.faces@[g]@.len() && (#[trigger] unfolding.faces@[g]@[d]).y
                    == bounds.min.y;
            assert(bounds.min.y <= unfolding.faces@[g]@[d].y <= bounds.max.y);
        }
        let item = PackItem {
            key: craft.islands()[i].key,
            width: bounds.max.x - bounds.min.x,
            height: bounds.max.y - bounds.min.y,
        };
        boxes.push(bounds);
        items.push(item);
        i += 1;
    }
    let wide: i64 = options.page_size.0 - options.margin.1 - options.margin.2;
    let high: i64 = options.page_size.1 - options.margin.0 - options.margin.3;
    let width: i64 = if wide < 0 {
        0
    } else {
        wide
    };
    let height: i64 = if high < 0 {
        0
    } else {
        high
    };
    let slots = pack_slots(&items, width, height);
    (boxes, items, slots)
}

/// By how much each island moves to its place; `None` where an island
/// cannot move to its place.
fn deltas_of(craft: &Papercraft, boxes: &Vec<Rect>, items: &Vec<PackItem>, slots: &Vec<Slot>) -> (r:
    Option<Vec<Point2>>)
    requires
        craft.wf(),
        boxes@.len() == craft.island_seq().len(),
        items@.len() == boxes@.len(),
        slots@.len() == boxes@.len(),
        forall|i: int| 0 <= i < items@.len() ==> item_ok(#[trigger] items@[i]),
        forall|i: int| 0 <= i < slots@.len() ==> 0 <= (#[trigger] slots@[i]).x && 0 <= slots@[i].y,
        forall|i: int|
            0 <= i < boxes@.len() ==> (#[trigger] boxes@[i]).min.in_range() && boxes@[i].max.in_range(),
    ensures
        r is Some <==> arrangement_fits(craft, boxes@, items@, slots@),
        match r {
            Some(deltas) => deltas@.len() == boxes@.len() && forall|i: int|
                0 <= i < boxes@.len() ==> (#[trigger] deltas@[i]).x == slot_delta(
                    craft.paper(),
                    boxes@[i],
                    slots@[i],
                ).0 && deltas@[i].y == slot_delta(craft.paper(), boxes@[i], slots@[i]).1,
            None => true,
        },
{
    let options = craft.options();
    let islands = craft.islands();
    let mut deltas: Vec<Point2> = Vec::new();
    let limit: i128 = COORD_MAX as i128;
    let mut i: usize = 0;
    while i < boxes.len()
        invariant
            craft.wf(),
            *options == craft.paper(),
            islands@ == craft.island_seq(),
            limit == COORD_MAX,
            boxes@.len() == craft.island_seq().len(),
            items@.len() == boxes@.len(),
            slots@.len() == boxes@.len(),
            forall|i: int| 0 <= i < items@.len() ==> item_ok(#[trigger] items@[i]),
            forall|i: int|
                0 <= i < slots@.len() ==> 0 <= (#[trigger] slots@[i]).x && 0 <= slots@[i].y,
            forall|i: int|
                0 <= i < boxes@.len() ==> (#[trigger] boxes@[i]).min.in_range()
                    && boxes@[i].max.in_range(),
            i <= boxes@.len(),
            deltas@.len() == i,
            forall|j: int|
                0 <= j < i ==> {
                    let delta = slot_delta(craft.paper(), boxes@[j], #[trigger] slots@[j]);
                    let target = slot_target(craft.paper(), slots@[j]);
                    &&& slots@[j].page <= u32::MAX
                    &&& target.0 + items@[j].width <= COORD_MAX
                    &&& target.1 + items@[j].height <= COORD_MAX
                    &&& in_range(craft.island_seq()[j].pos.x + delta.0)
                    &&& in_range(craft.island_seq()[j].pos.y + delta.1)
                },
            forall|j: int|
                0 <= j < i ==> (#[trigger] deltas@[j]).x == slot_delta(
                    craft.paper(),
                    boxes@[j],
                    slots@[j],
                ).0 && deltas@[j].y == slot_delta(craft.paper(), boxes@[j], slots@[j]).1,
        decreases boxes@.len() - i,
    {
        let slot = slots[i];
        proof {
            assert(item_ok(items@[i as int]));
            assert(0 <= slots@[i as int].x);
            assert(boxes@[i as int].min.in_range());
            assert(crate::craft::island_ok(
                craft.island_seq()[i as int],
                craft.keys(),
                craft.key_bound(),
            ));
        }
        if slot.page > u32::MAX as u64 {
            return None;
        }
        let origin = options.page_position(slot.page as u32);
        let tx: i128 = origin.x as i128 + options.margin.1 as i128 + slot.x as i128;
        let ty: i128 = origin.y as i128 + options.margin.0 as i128 + slot.y as i128;
        if tx + items[i].width as i128 > limit || ty + items[i].height as i128 > limit {
            return None;
        }
        let dx: i128 = tx - boxes[i].min.x as i128;
        let dy: i128 = ty - boxes[i].min.y as i128;
        let px: i128 = islands[i].pos.x as i128 + dx;
        let py: i128 = islands[i].pos.y as i128 + dy;
        if px < -limit || px > limit || py < -limit || py > limit {
            return None;
        }
        deltas.push(Point2 { x: dx as i64, y: dy as i64 });
        i += 1;
    }
    Some(deltas)
}

/// Whether `after` is `before` with every corner of every face moved by
/// what its island moves.
pub open spec fn is_moved(
    craft: &Papercraft,
    before: &Unfolding,
    after: &Unfolding,
    boxes: Seq<Rect>,
    slots: Seq<Slot>,
) -> bool {
    &&& after.faces@.len() == before.faces@.len()
    &&& forall|f: int|
        0 <= f < before.faces@.len() ==> (#[trigger] after.faces@[f])@.len()
            == before.faces@[f]@.len()
    &&& forall|f: int, c: int, i: int|
        0 <= f < before.faces@.len() && 0 <= c < before.faces@[f]@.len() && 0 <= i
            < craft.island_seq().len() && craft.island_seq()[i].key == craft.keys()[f] ==> {
            let delta = slot_delta(craft.paper(), #[trigger] boxes[i], slots[i]);
            (#[trigger] after.faces@[f]@[c]).x == before.faces@[f]@[c].x + delta.0
                && after.faces@[f]@[c].y == before.faces@[f]@[c].y + delta.1
        }
}

/// Moves every corner of every face by what its island moves.
fn move_faces(
    craft: &Papercraft,
    unfolding: &Unfolding,
    deltas: &Vec<Point2>,
    Ghost(boxes): Ghost<Seq<Rect>>,
    Ghost(items): Ghost<Seq<PackItem>>,
    Ghost(slots): Ghost<Seq<Slot>>,
) -> (moved: Unfolding)
    requires
        craft.wf(),
        unfolding.fits(craft.mesh()),
        is_arrangement(craft, unfolding, boxes, items, slots),
        arrangement_fits(craft, boxes, items, slots),
        deltas@.len() == boxes.len(),
        forall|i: int|
            0 <= i < boxes.len() ==> (#[trigger] deltas@[i]).x == slot_delta(
                craft.paper(),
                boxes[i],
                slots[i],
            ).0 && deltas@[i].y == slot_delta(craft.paper(), boxes[i], slots[i]).1,
    ensures
        moved.fits(craft.mesh()),
        is_moved(craft, unfolding, &moved, boxes, slots),
{
    let mut faces: Vec<Vec<Point2>> = Vec::new();
    let mut f: usize = 0;
    while f < unfolding.faces.len()
        invariant
            craft.wf(),
            unfolding.fits(craft.mesh()),
            is_arrangement(craft, unfolding, boxes, items, slots),
            arrangement_fits(craft, boxes, items, slots),
            deltas@.len() == boxes.len(),
            forall|i: int|
                0 <= i < boxes.len() ==> (#[trigger] deltas@[i]).x == slot_delta(
                    craft.paper(),
                    boxes[i],
                    slots[i],
                ).0 && deltas@[i].y == slot_delta(craft.paper(), boxes[i], slots[i]).1,
            f <= unfolding.faces@.len(),
            faces@.len() == f,
            forall|g: int|
                0 <= g < f ==> (#[trigger] faces@[g])@.len() == unfolding.faces@[g]@.len(),
            forall|g: int, c: int|
                0 <= g < f && 0 <= c < unfolding.faces@[g]@.len() ==> (
                #[trigger] faces@[g]@[c]).in_range(),
            forall|g: int, c: int, i: int|
                0 <= g < f && 0 <= c < unfolding.faces@[g]@.len() && 0 <= i
                    < craft.island_seq().len() && craft.island_seq()[i].key == craft.keys()[g]
                    ==> {
                    let delta = slot_delta(craft.paper(), #[trigger] boxes[i], slots[i]);
                    (#[trigger] faces@[g]@[c]).x == unfolding.faces@[g]@[c].x + delta.0
                        && faces@[g]@[c].y == unfolding.faces@[g]@[c].y + delta.1
                },
        decreases unfolding.faces@.len() - f,
    {
        let key = craft.island_of_face(f);
        proof {
            assert(crate::craft::has_key(craft.island_seq(), craft.keys()[f as int]));
        }
        let index: usize = match craft.island_index(key) {
            Some(i) => i,
            None => {
                proof {
                    assert(false);
                }
                0
            },
        };
        let delta = deltas[index];
        let ghost bounds = boxes[index as int];
        proof {
            assert(is_island_box(craft, unfolding, craft.island_seq()[index as int].key, bounds));
            assert(items[index as int].width == bounds.max.x - bounds.min.x);
            let d = slot_delta(craft.paper(), boxes[index as int], slots[index as int]);
            assert(delta.x == d.0 && delta.y == d.1);
        }
        let mut corners: Vec<Point2> = Vec::new();
        let mut c: usize = 0;
        while c < unfolding.faces[f].len()
            invariant
                craft.wf(),
                unfolding.fits(craft.mesh()),
                f < unfolding.faces@.len(),
                craft.keys()[f as int] == key,
                index < craft.island_seq().len(),
                craft.island_seq()[index as int].key == key,
                is_island_box(craft, unfolding, key, bounds),
                bounds == boxes[index as int],
                is_arrangement(craft, unfolding, boxes, items, slots),
                arrangement_fits(craft, boxes, items, slots),
                delta.x == slot_delta(craft.paper(), bounds, slots[index as int]).0,
                delta.y == slot_delta(craft.paper(), bounds, slots[index as int]).1,
                c <= unfolding.faces@[f as int]@.len(),
                corners@.len() == c,
                forall|k: int|
                    0 <= k < c ==> (#[trigger] corners@[k]).in_range() && corners@[k].x
                        == unfolding.faces@[f as int]@[k].x + delta.x && corners@[k].y
                        == unfolding.faces@[f as int]@[k].y + delta.y,
            decreases unfolding.faces@[f as int]@.len() - c,
        {
            let p = unfolding.faces[f][c];
            proof {
                let q = unfolding.faces@[f as int]@[c as int];
                assert(bounds.min.x <= q.x <= bounds.max.x && bounds.min.y <= q.y <= bounds.max.y);
                assert(items[index as int].width == bounds.max.x - bounds.min.x);
                assert(items[index as int].height == bounds.max.y - bounds.min.y);
                let target = slot_target(craft.paper(), slots[index as int]);
                assert(target.0 + items[index as int].width <= COORD_MAX);
                assert(crate::pack::fits(
                    items[index as int],
                    slots[index as int],
                    between_margins(
                        craft.paper().page_size.0,
                        craft.paper().margin.1,
                        craft.paper().margin.2,
                    ),
                    between_margins(
                        craft.paper().page_size.1,
                        craft.paper().margin.0,
                        craft.paper().margin.3,
                    ),
                ));
                crate::options::lemma_page_position_bounds(
                    craft.paper(),
                    slots[index as int].page as u32,
                );
                assert(target.0 >= 0 && target.1 >= 0);
            }
            corners.push(Point2 { x: p.x + delta.x, y: p.y + delta.y });
            c += 1;
        }
        faces.push(corners);
        proof {
            assert forall|g: int, c: int, i: int|
                0 <= g < f + 1 && 0 <= c < unfolding.faces@[g]@.len() && 0 <= i
                    < craft.island_seq().len() && craft.island_seq()[i].key
                    == craft.keys()[g] implies {
                let delta = slot_delta(craft.paper(), #[trigger] boxes[i], slots[i]);
                (#[trigger] faces@[g]@[c]).x == unfolding.faces@[g]@[c].x + delta.0
                    && faces@[g]@[c].y == unfolding.faces@[g]@[c].y + delta.1
            } by {
                if g == f {
                    if i != index {
                        crate::craft::lemma_keys_distinct(craft, i, index as int);
                    }
                }
            }
        }
        f += 1;
    }
    Unfolding { faces }
}

/// Whether `after`, `moved` and `r` are what arranging the islands makes
/// of the papercraft `before` and the unfolding `laid`: every island and
/// all its faces moved so that the island's bounding box lies on the place
/// that a packing gives it, within the margins of its page; or, where an
/// island cannot move to its place, an error, and all as it was.
pub open spec fn pack_outcome(
    before: &Papercraft,
    laid: &Unfolding,
    after: &Papercraft,
    moved: &Unfolding,
    r: Result<(), CraftError>,
) -> bool {
    &&& before.same_but_islands(after)
    &&& r is Err ==> r == Err::<(), CraftError>(CraftError::InvalidOperation) && after.unchanged(
        before,
    ) && moved.faces == laid.faces
    &&& exists|boxes: Seq<Rect>, items: Seq<PackItem>, slots: Seq<Slot>| #[trigger]
        is_arrangement(before, laid, boxes, items, slots) && (r is Ok <==> arrangement_fits(
            before,
            boxes,
            items,
            slots,
        )) && (r is Ok ==> is_moved(before, laid, moved, boxes, slots) && after.island_seq().len()
            == boxes.len() && forall|i: int|
            0 <= i < boxes.len() ==> {
                let was = before.island_seq()[i];
                let delta = slot_delta(before.paper(), boxes[i], slots[i]);
                #[trigger] after.island_seq()[i] == crate::craft::posed(
                    was,
                    Point2 { x: (was.pos.x + delta.0) as i64, y: (was.pos.y + delta.1) as i64 },
                    was.rot,
                )
            })
}

/// Arranges the islands on the pages: each island moves, with all its
/// faces, so that its bounding box lies on the place that the packing
/// gives it, within the margins of its page, and no two bounding boxes
/// overlap.
///
/// Fails with `InvalidOperation`, and changes nothing, if an island cannot
/// move to its place because the place is out of the range of
/// coordinates.
pub fn pack_islands(craft: &mut Papercraft, unfolding: &mut Unfolding) -> (r: Result<(), CraftError>)
    requires
        old(craft).wf(),
        old(unfolding).fits(old(craft).mesh()),
    ensures
        final(craft).wf(),
        final(unfolding).fits(final(craft).mesh()),
        pack_outcome(old(craft), old(unfolding), final(craft), final(unfolding), r),
{
    let (boxes, items, slots) = arrange(craft, unfolding);
    proof {
        assert forall|i: int| 0 <= i < items@.len() implies item_ok(#[trigger] items@[i]) by {
            assert(boxes@[i].min.in_range() && boxes@[i].max.in_range());
        }
        assert forall|i: int| 0 <= i < slots@.len() implies 0 <= (#[trigger] slots@[i]).x && 0
            <= slots@[i].y by {
            assert(crate::pack::fits(
                items@[i],
                slots@[i],
                between_margins(
                    craft.paper().page_size.0,
                    craft.paper().margin.1,
                    craft.paper().margin.2,
                ),
                between_margins(
                    craft.paper().page_size.1,
                    craft.paper().margin.0,
                    craft.paper().margin.3,
                ),
            ));
        }
    }
    let deltas = match deltas_of(craft, &boxes, &items, &slots) {
        Some(deltas) => deltas,
        None => {
            return Err(CraftError::InvalidOperation);
        },
    };
    let moved = move_faces(craft, unfolding, &deltas, Ghost(boxes@), Ghost(items@), Ghost(slots@));
    proof {
        assert forall|i: int| 0 <= i < deltas@.len() implies in_range(
            craft.island_seq()[i].pos.x + (#[trigger] deltas@[i]).x,
        ) && in_range(craft.island_seq()[i].pos.y + deltas@[i].y) by {
            let d = slot_delta(craft.paper(), boxes@[i], slots@[i]);
            assert(deltas@[i].x == d.0 && deltas@[i].y == d.1);
        }
    }
    craft.translate_islands(&deltas);
    *unfolding = moved;
    proof {
        assert forall|i: int| 0 <= i < boxes@.len() implies {
            let was = old(craft).island_seq()[i];
            let delta = slot_delta(old(craft).paper(), boxes@[i], slots@[i]);
            #[trigger] craft.island_seq()[i] == crate::craft::posed(
                was,
                Point2 { x: (was.pos.x + delta.0) as i64, y: (was.pos.y + delta.1) as i64 },
                was.rot,
            )
        } by {
            let d = slot_delta(old(craft).paper(), boxes@[i], slots@[i]);
            assert(deltas@[i].x == d.0 && deltas@[i].y == d.1);
        }
        assert(is_arrangement(old(craft), old(unfolding), boxes@, items@, slots@));
        assert(arrangement_fits(old(craft), boxes@, items@, slots@));
    }
    Ok(())
}

/// Whether new options let the islands be arranged at once: the islands
/// are to be arranged, and the scale stays, so that the unfolding shows
/// the islands at their size.
pub open spec fn arranges_at_once(before: &Papercraft, options: PaperOptions, relocate: bool) -> bool {
    options.wf() && relocate && options.scale == before.paper().scale
}

/// Whether `after`, `moved` and `r` are what setting the options, and
/// arranging the islands if that can be done at once, makes of the
/// papercraft `before` and the unfolding `laid`.
pub open spec fn set_options_outcome(
    before: &Papercraft,
    laid: &Unfolding,
    after: &Papercraft,
    moved: &Unfolding,
    options: PaperOptions,
    relocate: bool,
    r: Result<(), CraftError>,
) -> bool {
    if !arranges_at_once(before, options, relocate) {
        before.options_outcome(after, options, r) && moved.faces == laid.faces
    } else {
        exists|between: Papercraft|
            between.wf() && before.options_outcome(&between, options, Ok(()))
                && #[trigger] pack_outcome(&between, laid, after, moved, r)
    }
}

/// Replaces the paper options and, if `relocate` is set and the scale
/// stays, arranges the islands on the pages anew. With a new scale the
/// unfolding shows the islands at their old size: it has to be derived
/// anew before the islands are arranged, and they stay where they are.
///
/// Fails with `InvalidOperation` if the new options are not well formed,
/// and then changes nothing; and if the islands are to be arranged and one
/// cannot move to its place, and then changes the options only.
pub fn set_options(
    craft: &mut Papercraft,
    unfolding: &mut Unfolding,
    options: PaperOptions,
    relocate: bool,
) -> (r: Result<(), CraftError>)
    requires
        old(craft).wf(),
        old(unfolding).fits(old(craft).mesh()),
    ensures
        final(craft).wf(),
        final(craft).mesh() == old(craft).mesh(),
        final(craft).statuses() == old(craft).statuses(),
        final(unfolding).fits(final(craft).mesh()),
        set_options_outcome(
            old(craft),
            old(unfolding),
            final(craft),
            final(unfolding),
            options,
            relocate,
            r,
        ),
{
    let scaled: bool = options.scale != craft.options().scale;
    match craft.replace_options(options) {
        Ok(()) => {},
        Err(e) => {
            return Err(e);
        },
    }
    if relocate && !scaled {
        let ghost between = *craft;
        let r = pack_islands(craft, unfolding);
        proof {
            assert(pack_outcome(&between, old(unfolding), craft, unfolding, r));
        }
        r
    } else {
        Ok(())
    }
}

/// Whether two boxes at their targets on the canvas share no point
/// inside both.
pub open spec fn apart_on_canvas(
    options: PaperOptions,
    first: PackItem,
    at: Slot,
    second: PackItem,
    bt: Slot,
) -> bool {
    let a = slot_target(options, at);
    let b = slot_target(options, bt);
    ||| a.0 + first.width <= b.0
    ||| b.0 + second.width <= a.0
    ||| a.1 + first.height <= b.1
    ||| b.1 + second.height <= a.1
}

/// Whether a box is no larger than the content area of a page.
pub open spec fn fits_content(options: PaperOptions, item: PackItem) -> bool {
    &&& item.width <= between_margins(options.page_size.0, options.margin.1, options.margin.2)
    &&& item.height <= between_margins(options.page_size.1, options.margin.0, options.margin.3)
}

/// The bounding boxes of two islands that are no larger than the content
/// area of a page do not overlap on the canvas once the islands are
/// arranged: on one page the packing keeps them apart, and on two pages
/// each lies within the margins of its page.
pub proof fn lemma_arranged_apart(
    craft: &Papercraft,
    unfolding: &Unfolding,
    boxes: Seq<Rect>,
    items: Seq<PackItem>,
    slots: Seq<Slot>,
    i: int,
    j: int,
)
    requires
        craft.wf(),
        is_arrangement(craft, unfolding, boxes, items, slots),
        0 <= i < items.len(),
        0 <= j < items.len(),
        i != j,
        slots[i].page <= u32::MAX,
        slots[j].page <= u32::MAX,
        0 <= items[i].width && 0 <= items[i].height,
        0 <= items[j].width && 0 <= items[j].height,
        fits_content(craft.paper(), items[i]),
        fits_content(craft.paper(), items[j]),
    ensures
        apart_on_canvas(craft.paper(), items[i], slots[i], items[j], slots[j]),
{
    let options = craft.paper();
    let wide = between_margins(options.page_size.0, options.margin.1, options.margin.2);
    let high = between_margins(options.page_size.1, options.margin.0, options.margin.3);
    let (p, q) = (slots[i].page as u32, slots[j].page as u32);
    assert(crate::pack::fits(items[i], slots[i], wide, high));
    assert(crate::pack::fits(items[j], slots[j], wide, high));
    assert(!crate::pack::overlap(items[i], slots[i], items[j], slots[j]));
    crate::options::lemma_page_origin(options, p);
    crate::options::lemma_page_origin(options, q);
    let cols = options.cols();
    let (cp, rp) = (p as int % cols, p as int / cols);
    let (cq, rq) = (q as int % cols, q as int / cols);
    let (px, py) = (options.pitch_x(), options.pitch_y());
    if p != q {
        if cp != cq {
            if options.page_size.0 - options.margin.1 - options.margin.2 >= 0 {
                if cp < cq {
                    assert(cp * px + px <= cq * px) by (nonlinear_arith)
                        requires
                            cp + 1 <= cq,
                            px > 0,
                    ;
                } else {
                    assert(cq * px + px <= cp * px) by (nonlinear_arith)
                        requires
                            cq + 1 <= cp,
                            px > 0,
                    ;
                }
            }
        } else {
            assert(rp != rq);
            if options.page_size.1 - options.margin.0 - options.margin.3 >= 0 {
                if rp < rq {
                    assert(rp * py + py <= rq * py) by (nonlinear_arith)
                        requires
                            rp + 1 <= rq,
                            py > 0,
                    ;
                } else {
                    assert(rq * py + py <= rp * py) by (nonlinear_arith)
                        requires
                            rq + 1 <= rp,
                            py > 0,
                    ;
                }
            }
        }
    }
}

/// The middle of a box at its target on the canvas.
pub open spec fn centre_on_canvas(options: PaperOptions, item: PackItem, at: Slot) -> Point2 {
    let a = slot_target(options, at);
    Point2 { x: (a.0 + item.width / 2) as i64, y: (a.1 + item.height / 2) as i64 }
}

/// Whether the margins leave a content area on the page.
pub open spec fn margins_leave_room(options: PaperOptions) -> bool {
    &&& options.margin.1 + options.margin.2 <= options.page_size.0
    &&& options.margin.0 + options.margin.3 <= options.page_size.1
}

/// Once the islands are arranged, the middle of the bounding box of an
/// island that is no larger than the content area lies on the page of the
/// island's place: in a column of the grid, and on a page of the options
/// wherever the place is on one.
pub proof fn lemma_arranged_on_page(
    craft: &Papercraft,
    unfolding: &Unfolding,
    boxes: Seq<Rect>,
    items: Seq<PackItem>,
    slots: Seq<Slot>,
    i: int,
)
    requires
        craft.wf(),
        is_arrangement(craft, unfolding, boxes, items, slots),
        0 <= i < items.len(),
        slots[i].page <= u32::MAX,
        0 <= items[i].width && 0 <= items[i].height,
        fits_content(craft.paper(), items[i]),
        margins_leave_room(craft.paper()),
    ensures
        craft.paper().owner_page_spec(centre_on_canvas(craft.paper(), items[i], slots[i])) == Some(
            slots[i].page as int,
        ),
        ({
            let at = craft.paper().global_to_page_spec(
                centre_on_canvas(craft.paper(), items[i], slots[i]),
            );
            &&& 0 <= at.col < craft.paper().cols()
            &&& 0 <= at.row
            &&& at.row * craft.paper().cols() + at.col == slots[i].page
        }),
{
    let options = craft.paper();
    let wide = between_margins(options.page_size.0, options.margin.1, options.margin.2);
    let high = between_margins(options.page_size.1, options.margin.0, options.margin.3);
    let p = slots[i].page as u32;
    assert(crate::pack::fits(items[i], slots[i], wide, high));
    crate::options::lemma_page_origin(options, p);
    crate::options::lemma_page_position_bounds(options, p);
    let cols = options.cols();
    let (col, row) = (p as int % cols, p as int / cols);
    let (px, py) = (options.pitch_x(), options.pitch_y());
    let a = slot_target(options, slots[i]);
    let cx = a.0 + items[i].width / 2;
    let cy = a.1 + items[i].height / 2;
    let (rx, ry) = (cx - col * px, cy - row * py);
    assert(0 <= rx < px);
    assert(0 <= ry < py);
    assert(cx == col * px + rx);
    assert(cy == row * py + ry);
    vstd::arithmetic::div_mod::lemma_fundamental_div_mod_converse(cx, px, col, rx);
    vstd::arithmetic::div_mod::lemma_fundamental_div_mod_converse(cy, py, row, ry);
    assert(row * cols == cols * row) by (nonlinear_arith);
    assert(row * cols + col <= u32::MAX);
}

} // verus!
