//! Packing: a place on the pages for the bounding box of each island.
//!
//! The boxes are taken in the order of their height, the highest first,
//! and set side by side in rows. A box goes into the first row that has
//! room for it; if none has, a new row opens below the last, or at the top
//! of the next page if the page has no room below.

use vstd::prelude::*;

verus! {

/// Largest width or height of a box that is packed.
pub const BOX_MAX: i64 = 2_000_000_000_000;

/// The box of an island: the island's key, and the width and height of
/// its bounding box.
#[derive(Clone, Copy, Debug, PartialEq, Eq, Structural)]
pub struct PackItem {
    pub key: u64,
    pub width: i64,
    pub height: i64,
}

/// The place of a box: a page, and the position of the box's least corner
/// in the content area of that page.
#[derive(Clone, Copy, Debug, PartialEq, Eq, Structural)]
pub struct Slot {
    pub page: u64,
    pub x: i64,
    pub y: i64,
}

/// A row of boxes: its page, its upper edge, its height, and how much of
/// its width is taken.
#[derive(Clone, Copy, Debug, PartialEq, Eq, Structural)]
pub struct Row {
    pub page: u64,
    pub y: i64,
    pub height: i64,
    pub used: i64,
}

/// Whether box `a` is packed before box `b`: the higher first, of two
/// equally high the wider, of two of one size that with the smaller key.
pub open spec fn precedes(a: PackItem, b: PackItem) -> bool {
    a.height > b.height || (a.height == b.height && (a.width > b.width || (a.width == b.width
        && a.key < b.key)))
}

/// Whether a box has a width and a height that can be packed.
pub open spec fn item_ok(item: PackItem) -> bool {
    0 <= item.width <= BOX_MAX && 0 <= item.height <= BOX_MAX
}

/// Whether two boxes on their places share a point inside both.
pub open spec fn overlap(a: PackItem, at: Slot, b: PackItem, bt: Slot) -> bool {
    &&& at.page == bt.page
    &&& at.x < bt.x + b.width && bt.x < at.x + a.width
    &&& at.y < bt.y + b.height && bt.y < at.y + a.height
}

/// Whether a box on its place lies within a content area of the given
/// width and height, as far as the box is no larger than the area.
pub open spec fn fits(item: PackItem, at: Slot, width: i64, height: i64) -> bool {
    &&& 0 <= at.x && 0 <= at.y
    &&& item.width <= width ==> at.x + item.width <= width
    &&& item.height <= height ==> at.y + item.height <= height
}

/// Whether `slots` gives each of `items` a place within the content area,
/// and no two of them places on which they overlap.
pub open spec fn is_packing(items: Seq<PackItem>, slots: Seq<Slot>, width: i64, height: i64) -> bool {
    &&& slots.len() == items.len()
    &&& forall|i: int| 0 <= i < items.len() ==> fits(items[i], #[trigger] slots[i], width, height)
    &&& forall|i: int, j: int|
        0 <= i < items.len() && 0 <= j < items.len() && i != j ==> !overlap(
            items[i],
            #[trigger] slots[i],
            items[j],
            #[trigger] slots[j],
        )
}

/// Whether box `i` is taken before box `u`: it precedes it or, if neither
/// precedes the other, comes before it in the list.
pub open spec fn taken_before(items: Seq<PackItem>, i: int, u: int) -> bool {
    precedes(items[i], items[u]) || (!precedes(items[u], items[i]) && i < u)
}

/// Whether box `i` is the box taken next: it is not placed, and is taken
/// before every other box that is not placed.
pub open spec fn is_next(items: Seq<PackItem>, placed: Seq<bool>, i: int) -> bool {
    &&& 0 <= i < items.len()
    &&& !placed[i]
    &&& forall|u: int|
        0 <= u < items.len() && !placed[u] && u != i ==> #[trigger] taken_before(items, i, u)
}

/// The box taken next.
pub open spec fn next_pick(items: Seq<PackItem>, placed: Seq<bool>) -> int {
    choose|i: int| is_next(items, placed, i)
}

/// The first row, at or after row `from`, with room for a box of the given
/// width; the number of rows if none has room.
pub open spec fn first_room(rows: Seq<Row>, item_width: int, width: int, from: int) -> int
    decreases rows.len() - from,
{
    if from < 0 || from >= rows.len() {
        rows.len() as int
    } else if rows[from].used + item_width <= width {
        from
    } else {
        first_room(rows, item_width, width, from + 1)
    }
}

/// The rows after a box has been placed, and the place of the box: beside
/// the boxes of the first row with room for it or, if no row has room, in
/// a new row below the last, or at the top of the next page if the box
/// does not fit below.
pub open spec fn place(rows: Seq<Row>, item: PackItem, width: i64, height: i64) -> (Seq<Row>, Slot) {
    let k = first_room(rows, item.width as int, width as int, 0);
    if k < rows.len() {
        (
            rows.update(
                k,
                Row {
                    page: rows[k].page,
                    y: rows[k].y,
                    height: rows[k].height,
                    used: (rows[k].used + item.width) as i64,
                },
            ),
            Slot { page: rows[k].page, x: rows[k].used, y: rows[k].y },
        )
    } else {
        let at = if rows.len() == 0 {
            (0u64, 0i64)
        } else if rows.last().y + rows.last().height + item.height <= height {
            (rows.last().page, (rows.last().y + rows.last().height) as i64)
        } else {
            ((rows.last().page + 1) as u64, 0i64)
        };
        (
            rows.push(Row { page: at.0, y: at.1, height: item.height, used: item.width }),
            Slot { page: at.0, x: 0, y: at.1 },
        )
    }
}

/// The state of a packing: which boxes are placed, the rows, and the
/// places.
pub struct PackState {
    pub placed: Seq<bool>,
    pub rows: Seq<Row>,
    pub slots: Seq<Slot>,
}

/// The state of the packing after `taken` boxes have been placed, each the
/// box taken next when its turn came.
pub open spec fn pack_run(items: Seq<PackItem>, width: i64, height: i64, taken: nat) -> PackState
    decreases taken,
{
    if taken == 0 {
        PackState {
            placed: Seq::new(items.len(), |i: int| false),
            rows: Seq::empty(),
            slots: Seq::new(items.len(), |i: int| Slot { page: 0, x: 0, y: 0 }),
        }
    } else {
        let before = pack_run(items, width, height, (taken - 1) as nat);
        let i = next_pick(items, before.placed);
        let after = place(before.rows, items[i], width, height);
        PackState {
            placed: before.placed.update(i, true),
            rows: after.0,
            slots: before.slots.update(i, after.1),
        }
    }
}

/// The places of the boxes when all are packed.
pub open spec fn packed_slots(items: Seq<PackItem>, width: i64, height: i64) -> Seq<Slot> {
    pack_run(items, width, height, items.len()).slots
}

/// No two boxes are the box taken next.
proof fn lemma_next_unique(items: Seq<PackItem>, placed: Seq<bool>, i: int, j: int)
    requires
        is_next(items, placed, i),
        is_next(items, placed, j),
    ensures
        i == j,
{
    if i != j {
        assert(taken_before(items, i, j));
        assert(taken_before(items, j, i));
    }
}

/// Whether the rows lie one below the other on each page, pages in
/// order, and each row within the content area as far as it is no higher
/// than the area.
spec fn rows_wf(rows: Seq<Row>, height: i64) -> bool {
    &&& forall|k: int|
        0 <= k < rows.len() ==> {
            let row = #[trigger] rows[k];
            &&& 0 <= row.y <= height || row.y == 0
            &&& 0 <= row.height <= BOX_MAX
            &&& 0 <= row.used
            &&& row.page <= k
            &&& row.height <= height ==> row.y + row.height <= height
            &&& row.height > height ==> row.y == 0
        }
    &&& forall|k: int, l: int|
        0 <= k < l < rows.len() ==> (#[trigger] rows[k]).page < (#[trigger] rows[l]).page || (rows[k].page
            == rows[l].page && rows[k].y + rows[k].height <= rows[l].y)
}

/// Whether the box `item` on the place `at` lies in the row `row`.
spec fn in_row(item: PackItem, at: Slot, row: Row) -> bool {
    &&& at.page == row.page
    &&& at.y == row.y
    &&& item.height <= row.height
    &&& 0 <= at.x
    &&& at.x + item.width <= row.used
}

/// What holds between the placing of two boxes.
spec fn packing(
    items: Seq<PackItem>,
    slots: Seq<Slot>,
    placed: Seq<bool>,
    rows: Seq<Row>,
    row_of: Seq<int>,
    width: i64,
    height: i64,
) -> bool {
    &&& slots.len() == items.len()
    &&& placed.len() == items.len()
    &&& row_of.len() == items.len()
    &&& rows_wf(rows, height)
    &&& forall|i: int|
        0 <= i < items.len() && placed[i] ==> 0 <= #[trigger] row_of[i] < rows.len() && in_row(
            items[i],
            slots[i],
            rows[row_of[i]],
        ) && fits(items[i], slots[i], width, height)
    &&& forall|i: int, j: int|
        0 <= i < items.len() && 0 <= j < items.len() && i != j && placed[i] && placed[j]
            && #[trigger] row_of[i] == #[trigger] row_of[j] ==> slots[i].x + items[i].width
            <= slots[j].x || slots[j].x + items[j].width <= slots[i].x
    &&& forall|k: int, u: int|
        0 <= k < rows.len() && 0 <= u < items.len() && !placed[u] ==> (#[trigger] rows[k]).height
            >= (#[trigger] items[u]).height
    &&& forall|k: int|
        0 <= k < rows.len() ==> (#[trigger] rows[k]).used <= width || rows[k].used <= BOX_MAX
}

proof fn lemma_packed(
    items: Seq<PackItem>,
    slots: Seq<Slot>,
    placed: Seq<bool>,
    rows: Seq<Row>,
    row_of: Seq<int>,
    width: i64,
    height: i64,
)
    requires
        packing(items, slots, placed, rows, row_of, width, height),
        forall|i: int| 0 <= i < placed.len() ==> placed[i],
        forall|i: int| 0 <= i < items.len() ==> item_ok(#[trigger] items[i]),
    ensures
        is_packing(items, slots, width, height),
{
    assert forall|i: int| 0 <= i < items.len() implies fits(
        items[i],
        #[trigger] slots[i],
        width,
        height,
    ) by {
        assert(placed[i]);
        assert(0 <= row_of[i] < rows.len());
    }
    assert forall|i: int, j: int|
        0 <= i < items.len() && 0 <= j < items.len() && i != j implies !overlap(
        items[i],
        #[trigger] slots[i],
        items[j],
        #[trigger] slots[j],
    ) by {
        assert(placed[i] && placed[j]);
        let (ri, rj) = (row_of[i], row_of[j]);
        assert(in_row(items[i], slots[i], rows[ri]));
        assert(in_row(items[j], slots[j], rows[rj]));
        if ri < rj {
            assert(rows[ri].page < rows[rj].page || (rows[ri].page == rows[rj].page && rows[ri].y
                + rows[ri].height <= rows[rj].y));
        } else if rj < ri {
            assert(rows[rj].page < rows[ri].page || (rows[rj].page == rows[ri].page && rows[rj].y
                + rows[rj].height <= rows[ri].y));
        }
    }
}

/// Finds the first row that has room for a box of the given width.
fn find_row(rows: &Vec<Row>, item_width: i64, width: i64) -> (r: Option<usize>)
    requires
        0 <= item_width <= BOX_MAX,
        forall|k: int| 0 <= k < rows@.len() ==> 0 <= (#[trigger] rows@[k]).used <= BOX_MAX + BOX_MAX,
    ensures
        match r {
            Some(k) => k < rows@.len() && rows@[k as int].used + item_width <= width && k
                == first_room(rows@, item_width as int, width as int, 0),
            None => rows@.len() == first_room(rows@, item_width as int, width as int, 0),
        },
{
    let mut k: usize = 0;
    while k < rows.len()
        invariant
            0 <= item_width <= BOX_MAX,
            forall|k: int|
                0 <= k < rows@.len() ==> 0 <= (#[trigger] rows@[k]).used <= BOX_MAX + BOX_MAX,
            k <= rows@.len(),
            first_room(rows@, item_width as int, width as int, 0) == first_room(
                rows@,
                item_width as int,
                width as int,
                k as int,
            ),
        decreases rows@.len() - k,
    {
        if rows[k].used + item_width <= width {
            return Some(k);
        }
        k += 1;
    }
    None
}

/// Finds the box that is taken next.
fn next_item(items: &Vec<PackItem>, placed: &Vec<bool>) -> (r: Option<usize>)
    requires
        placed@.len() == items@.len(),
    ensures
        match r {
            Some(i) => is_next(items@, placed@, i as int) && i == next_pick(items@, placed@),
            None => forall|u: int| 0 <= u < items@.len() ==> placed@[u],
        },
{
    let mut best: Option<usize> = None;
    let mut i: usize = 0;
    while i < items.len()
        invariant
            placed@.len() == items@.len(),
            i <= items@.len(),
            match best {
                Some(b) => b < i && !placed@[b as int] && forall|u: int|
                    0 <= u < i && !placed@[u] && u != b ==> #[trigger] taken_before(
                        items@,
                        b as int,
                        u,
                    ),
                None => forall|u: int| 0 <= u < i ==> placed@[u],
            },
        decreases items@.len() - i,
    {
        if !placed[i] {
            let better: bool = match best {
                Some(b) => {
                    let (a, o) = (items[i], items[b]);
                    a.height > o.height || (a.height == o.height && (a.width > o.width || (a.width
                        == o.width && a.key < o.key)))
                },
                None => true,
            };
            if better {
                proof {
                    if best is Some {
                        let b = best.unwrap() as int;
                        assert forall|u: int|
                            0 <= u < i + 1 && !placed@[u] && u != i implies #[trigger] taken_before(
                            items@,
                            i as int,
                            u,
                        ) by {
                            if u != b {
                                assert(taken_before(items@, b, u));
                            }
                        }
                    }
                }
                best = Some(i);
            } else {
                proof {
                    let b = best.unwrap() as int;
                    assert(taken_before(items@, b, i as int));
                }
            }
        }
        i += 1;
    }
    proof {
        if best is Some {
            let i = best.unwrap() as int;
            assert(is_next(items@, placed@, i));
            lemma_next_unique(items@, placed@, i, next_pick(items@, placed@));
        }
    }
    best
}

/// Gives each box a place on the pages, within a content area of the
/// given width and height as far as the box is no larger than the area,
/// so that no two boxes overlap.
pub fn pack_slots(items: &Vec<PackItem>, width: i64, height: i64) -> (slots: Vec<Slot>)
    requires
        forall|i: int| 0 <= i < items@.len() ==> item_ok(#[trigger] items@[i]),
        0 <= width <= BOX_MAX,
        0 <= height <= BOX_MAX,
    ensures
        slots@ == packed_slots(items@, width, height),
        is_packing(items@, slots@, width, height),
{
    let n: usize = items.len();
    let mut slots: Vec<Slot> = Vec::new();
    let mut placed: Vec<bool> = Vec::new();
    while slots.len() < n
        invariant
            n == items@.len(),
            slots@.len() == placed@.len(),
            slots@.len() <= n,
            forall|i: int| 0 <= i < placed@.len() ==> !placed@[i],
            forall|i: int| 0 <= i < slots@.len() ==> slots@[i] == (Slot { page: 0, x: 0, y: 0 }),
            crate::traverse::count_true(placed@) == 0,
        decreases n - slots@.len(),
    {
        proof {
            assert(placed@.push(false).drop_last() =~= placed@);
        }
        slots.push(Slot { page: 0, x: 0, y: 0 });
        placed.push(false);
    }
    let mut rows: Vec<Row> = Vec::new();
    let ghost mut row_of: Seq<int> = Seq::new(n as nat, |i: int| 0int);
    let mut done: usize = 0;
    proof {
        let begun = pack_run(items@, width, height, 0);
        assert(begun.placed =~= placed@);
        assert(begun.rows =~= rows@);
        assert(begun.slots =~= slots@);
    }
    while done < n
        invariant
            pack_run(items@, width, height, done as nat) == (PackState {
                placed: placed@,
                rows: rows@,
                slots: slots@,
            }),
            n == items@.len(),
            forall|i: int| 0 <= i < items@.len() ==> item_ok(#[trigger] items@[i]),
            0 <= width <= BOX_MAX,
            0 <= height <= BOX_MAX,
            done <= n,
            rows@.len() <= done,
            packing(items@, slots@, placed@, rows@, row_of, width, height),
            done == crate::traverse::count_true(placed@),
        decreases n - done,
    {
        let pick: usize = match next_item(items, &placed) {
            Some(i) => i,
            None => {
                proof {
                    lemma_all_placed(placed@);
                    assert(false);
                }
                0
            },
        };
        let item = items[pick];
        proof {
            assert(item_ok(items@[pick as int]));
            assert forall|k: int| 0 <= k < rows@.len() implies 0 <= (#[trigger] rows@[k]).used
                <= BOX_MAX + BOX_MAX by {}
        }
        let ghost old_rows = rows@;
        let ghost old_slots = slots@;
        let ghost old_placed = placed@;
        let ghost old_row_of = row_of;
        match find_row(&rows, item.width, width) {
            Some(k) => {
                let row = rows[k];
                slots.set(pick, Slot { page: row.page, x: row.used, y: row.y });
                rows.set(
                    k,
                    Row { page: row.page, y: row.y, height: row.height, used: row.used + item.width },
                );
                proof {
                    row_of = row_of.update(pick as int, k as int);
                }
            },
            None => {
                let (page, y): (u64, i64) = if rows.len() == 0 {
                    (0, 0)
                } else {
                    let last = rows[rows.len() - 1];
                    let below: i64 = last.y + last.height;
                    if below + item.height <= height {
                        (last.page, below)
                    } else {
                        (last.page + 1, 0)
                    }
                };
                slots.set(pick, Slot { page, x: 0, y });
                rows.push(Row { page, y, height: item.height, used: item.width });
                proof {
                    row_of = row_of.update(pick as int, old_rows.len() as int);
                }
            },
        }
        proof {
            crate::traverse::lemma_count_marks(placed@, pick as int);
        }
        placed.set(pick, true);
        proof {
            let after = place(old_rows, items@[pick as int], width, height);
            assert(rows@ =~= after.0);
            assert(slots@[pick as int] == after.1);
            let run = pack_run(items@, width, height, (done + 1) as nat);
            assert(run.placed == placed@);
            assert(run.rows == rows@);
            assert(run.slots == slots@);
            assert forall|u: int| 0 <= u < items@.len() && !old_placed[u] implies (
            #[trigger] items@[u]).height <= items@[pick as int].height by {
                if u != pick {
                    assert(taken_before(items@, pick as int, u));
                }
            }
            lemma_placing(
                items@,
                old_slots,
                old_placed,
                old_rows,
                old_row_of,
                slots@,
                placed@,
                rows@,
                row_of,
                pick as int,
                width,
                height,
            );
        }
        done += 1;
    }
    proof {
        lemma_count_full(placed@);
        lemma_packed(items@, slots@, placed@, rows@, row_of, width, height);
    }
    slots
}

/// Whether the state after the placing of box `pick` is what the placing
/// makes of the state before: the box is on its place, in a row with room
/// for it or in a new row below the last; nothing else has changed.
spec fn placing_step(
    items: Seq<PackItem>,
    before_slots: Seq<Slot>,
    before_placed: Seq<bool>,
    before_rows: Seq<Row>,
    before_row_of: Seq<int>,
    slots: Seq<Slot>,
    placed: Seq<bool>,
    rows: Seq<Row>,
    row_of: Seq<int>,
    pick: int,
    width: i64,
    height: i64,
) -> bool {
    let item = items[pick];
    &&& 0 <= pick < items.len()
    &&& !before_placed[pick]
    &&& placed == before_placed.update(pick, true)
    &&& row_of == before_row_of.update(pick, row_of[pick])
    &&& slots == before_slots.update(pick, slots[pick])
    &&& forall|u: int|
        0 <= u < items.len() && !before_placed[u] ==> (#[trigger] items[u]).height <= item.height
    &&& {
        ||| {
            let k = row_of[pick];
            &&& 0 <= k < before_rows.len()
            &&& before_rows[k].used + item.width <= width
            &&& slots[pick] == (Slot {
                page: before_rows[k].page,
                x: before_rows[k].used,
                y: before_rows[k].y,
            })
            &&& rows == before_rows.update(
                k,
                Row {
                    page: before_rows[k].page,
                    y: before_rows[k].y,
                    height: before_rows[k].height,
                    used: (before_rows[k].used + item.width) as i64,
                },
            )
        }
        ||| {
            &&& row_of[pick] == before_rows.len()
            &&& slots[pick].x == 0
            &&& rows == before_rows.push(
                Row {
                    page: slots[pick].page,
                    y: slots[pick].y,
                    height: item.height,
                    used: item.width,
                },
            )
            &&& if before_rows.len() == 0 {
                slots[pick].page == 0 && slots[pick].y == 0
            } else {
                let last = before_rows.last();
                if last.y + last.height + item.height <= height {
                    slots[pick].page == last.page && slots[pick].y == last.y + last.height
                } else {
                    slots[pick].page == last.page + 1 && slots[pick].y == 0
                }
            }
        }
    }
}

proof fn lemma_placing(
    items: Seq<PackItem>,
    before_slots: Seq<Slot>,
    before_placed: Seq<bool>,
    before_rows: Seq<Row>,
    before_row_of: Seq<int>,
    slots: Seq<Slot>,
    placed: Seq<bool>,
    rows: Seq<Row>,
    row_of: Seq<int>,
    pick: int,
    width: i64,
    height: i64,
)
    requires
        packing(items, before_slots, before_placed, before_rows, before_row_of, width, height),
        forall|i: int| 0 <= i < items.len() ==> item_ok(#[trigger] items[i]),
        0 <= width <= BOX_MAX,
        0 <= height <= BOX_MAX,
        placing_step(
            items,
            before_slots,
            before_placed,
            before_rows,
            before_row_of,
            slots,
            placed,
            rows,
            row_of,
            pick,
            width,
            height,
        ),
    ensures
        packing(items, slots, placed, rows, row_of, width, height),
{
    let item = items[pick];
    let k = row_of[pick];
    assert(item_ok(items[pick]));
    assert forall|r: int| 0 <= r < before_rows.len() implies (#[trigger] before_rows[r]).height
        >= item.height by {
        assert(before_rows[r].height >= items[pick].height);
    }
    if 0 <= k < before_rows.len() && rows.len() == before_rows.len() {
        assert forall|r: int| 0 <= r < rows.len() implies (#[trigger] rows[r]).page
            == before_rows[r].page && rows[r].y == before_rows[r].y && rows[r].height
            == before_rows[r].height && rows[r].used >= before_rows[r].used by {}
        assert(rows_wf(rows, height));
    } else {
        assert forall|r: int| 0 <= r < before_rows.len() implies #[trigger] rows[r]
            == before_rows[r] by {}
        if before_rows.len() > 0 {
            let last = before_rows[before_rows.len() - 1];
            assert(last == before_rows.last());
            assert forall|r: int| 0 <= r < before_rows.len() - 1 implies (
            #[trigger] before_rows[r]).page < last.page || (before_rows[r].page == last.page
                && before_rows[r].y + before_rows[r].height <= last.y) by {}
        }
        assert(rows_wf(rows, height));
    }
    assert forall|i: int| 0 <= i < items.len() && placed[i] implies 0 <= #[trigger] row_of[i]
        < rows.len() && in_row(items[i], slots[i], rows[row_of[i]]) && fits(
        items[i],
        slots[i],
        width,
        height,
    ) by {
        if i != pick {
            assert(before_placed[i]);
            assert(0 <= before_row_of[i] < before_rows.len());
            assert(in_row(items[i], before_slots[i], before_rows[before_row_of[i]]));
        }
    }
    assert forall|i: int, j: int|
        0 <= i < items.len() && 0 <= j < items.len() && i != j && placed[i] && placed[j]
            && #[trigger] row_of[i] == #[trigger] row_of[j] implies slots[i].x + items[i].width
        <= slots[j].x || slots[j].x + items[j].width <= slots[i].x by {
        if i != pick && j != pick {
            assert(before_row_of[i] == before_row_of[j]);
        } else {
            let other = if i == pick {
                j
            } else {
                i
            };
            assert(before_placed[other]);
            assert(0 <= before_row_of[other] < before_rows.len());
            assert(in_row(items[other], before_slots[other], before_rows[before_row_of[other]]));
        }
    }
    assert forall|r: int, u: int|
        0 <= r < rows.len() && 0 <= u < items.len() && !placed[u] implies (#[trigger] rows[r]).height
        >= (#[trigger] items[u]).height by {
        assert(!before_placed[u]);
        assert(items[u].height <= item.height);
        if r < before_rows.len() {
            assert(before_rows[r].height >= items[u].height);
        }
    }
    assert forall|r: int| 0 <= r < rows.len() implies (#[trigger] rows[r]).used <= width
        || rows[r].used <= BOX_MAX by {
        if r < before_rows.len() {
            assert(before_rows[r].used <= width || before_rows[r].used <= BOX_MAX);
        }
    }
}

proof fn lemma_all_placed(placed: Seq<bool>)
    requires
        forall|u: int| 0 <= u < placed.len() ==> placed[u],
    ensures
        crate::traverse::count_true(placed) == placed.len(),
    decreases placed.len(),
{
    if placed.len() > 0 {
        lemma_all_placed(placed.drop_last());
    }
}

proof fn lemma_count_full(placed: Seq<bool>)
    requires
        crate::traverse::count_true(placed) == placed.len(),
    ensures
        forall|u: int| 0 <= u < placed.len() ==> placed[u],
    decreases placed.len(),
{
    if placed.len() > 0 {
        crate::traverse::lemma_count_at_most(placed.drop_last());
        lemma_count_full(placed.drop_last());
        assert forall|u: int| 0 <= u < placed.len() implies placed[u] by {
            if u < placed.len() - 1 {
                assert(placed.drop_last()[u]);
            }
        }
    }
}

} // verus!
