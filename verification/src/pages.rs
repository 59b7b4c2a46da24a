//! Which island is drawn on which page.
//!
//! An island belongs to the page that holds the centre of its bounding
//! box.

use crate::craft::Papercraft;
use crate::geometry::{Point2, Rect};
use crate::layout::{is_island_box, island_bounding_box, Unfolding};
use crate::options::{lemma_owner_page_holds_point, PaperOptions};
use crate::shapes::{is_island_shape, island_shape, IslandShape};
use vstd::prelude::*;

verus! {

/// The bounding box of the island with key `key`.
pub open spec fn island_box(craft: &Papercraft, unfolding: &Unfolding, key: u64) -> Rect {
    choose|r: Rect| is_island_box(craft, unfolding, key, r)
}

/// An island has one bounding box.
pub proof fn lemma_island_box_unique(
    craft: &Papercraft,
    unfolding: &Unfolding,
    key: u64,
    first: Rect,
    second: Rect,
)
    requires
        is_island_box(craft, unfolding, key, first),
        is_island_box(craft, unfolding, key, second),
    ensures
        first == second,
{
}

/// The centre of the bounding box of the island at position `index`.
pub open spec fn island_center(craft: &Papercraft, unfolding: &Unfolding, index: int) -> Point2 {
    island_box(craft, unfolding, craft.island_seq()[index].key).center_spec()
}

/// The page of the island at position `index`, if it lies on one.
pub open spec fn island_page(
    craft: &Papercraft,
    unfolding: &Unfolding,
    options: PaperOptions,
    index: int,
) -> Option<int> {
    options.owner_page_spec(island_center(craft, unfolding, index))
}

/// The centre of the bounding box of the island at position `index`.
pub fn center_of_island(craft: &Papercraft, unfolding: &Unfolding, index: usize) -> (c: Point2)
    requires
        craft.wf(),
        unfolding.fits(craft.mesh()),
        index < craft.island_seq().len(),
    ensures
        c == island_center(craft, unfolding, index as int),
        c.in_range(),
{
    let r = island_bounding_box(craft, unfolding, index);
    proof {
        let key = craft.island_seq()[index as int].key;
        lemma_island_box_unique(craft, unfolding, key, r, island_box(craft, unfolding, key));
    }
    r.center()
}

/// The column of the page grid in which the centre of the island at
/// position `index` lies.
pub open spec fn island_column(
    craft: &Papercraft,
    unfolding: &Unfolding,
    options: PaperOptions,
    index: int,
) -> int {
    island_center(craft, unfolding, index).x as int / options.pitch_x()
}

/// Number of columns that the page grid needs for the first `upto`
/// islands: the columns that the options give it, and a column for each of
/// those islands.
pub open spec fn columns_needed(
    craft: &Papercraft,
    unfolding: &Unfolding,
    options: PaperOptions,
    upto: int,
) -> int
    decreases upto,
{
    if upto <= 0 {
        options.cols()
    } else {
        let before = columns_needed(craft, unfolding, options, upto - 1);
        let here = island_column(craft, unfolding, options, upto - 1) + 1;
        if here > before {
            here
        } else {
            before
        }
    }
}

/// The options of an export: the paper options, with the page grid
/// widened so that no island lies to the right of it.
pub open spec fn export_options_spec(craft: &Papercraft, unfolding: &Unfolding) -> PaperOptions {
    PaperOptions {
        page_cols: columns_needed(
            craft,
            unfolding,
            craft.paper(),
            craft.island_seq().len() as int,
        ) as u32,
        ..craft.paper()
    }
}

/// The options of an export.
pub fn export_options(craft: &Papercraft, unfolding: &Unfolding) -> (options: PaperOptions)
    requires
        craft.wf(),
        unfolding.fits(craft.mesh()),
    ensures
        options == export_options_spec(craft, unfolding),
        options.wf(),
{
    let paper = craft.options();
    let mut cols: u32 = paper.columns();
    let count: usize = craft.num_islands();
    let mut i: usize = 0;
    while i < count
        invariant
            craft.wf(),
            unfolding.fits(craft.mesh()),
            *paper == craft.paper(),
            count == craft.island_seq().len(),
            i <= count,
            cols == columns_needed(craft, unfolding, *paper, i as int),
            cols >= 1,
        decreases count - i,
    {
        let c = center_of_island(craft, unfolding, i);
        let po = paper.global_to_page(c);
        proof {
            let px = paper.pitch_x();
            assert(po.col <= 100_000) by (nonlinear_arith)
                requires
                    c.x == po.col * px + po.offset.x,
                    0 <= po.offset.x,
                    px > 10_000_000,
                    c.x <= 1_000_000_000_000,
            ;
        }
        if po.col + 1 > cols as i64 {
            cols = (po.col + 1) as u32;
        }
        i += 1;
    }
    let mut options = *paper;
    options.page_cols = cols;
    options
}

/// The positions in the list of islands of those of the first `upto`
/// islands that lie on page `page`.
pub open spec fn islands_on_page(
    craft: &Papercraft,
    unfolding: &Unfolding,
    options: PaperOptions,
    page: u32,
    upto: int,
) -> Seq<int>
    decreases upto,
{
    if upto <= 0 {
        Seq::empty()
    } else {
        let before = islands_on_page(craft, unfolding, options, page, upto - 1);
        if island_page(craft, unfolding, options, upto - 1) == Some(page as int) {
            before.push(upto - 1)
        } else {
            before
        }
    }
}

/// Whether `shapes` are the islands of page `page` as they are drawn, seen
/// from the origin of the page, in the order of the list of islands.
pub open spec fn is_page_shapes(
    shapes: Seq<IslandShape>,
    craft: &Papercraft,
    unfolding: &Unfolding,
    options: PaperOptions,
    page: u32,
) -> bool {
    let on_page = islands_on_page(
        craft,
        unfolding,
        options,
        page,
        craft.island_seq().len() as int,
    );
    &&& shapes.len() == on_page.len()
    &&& forall|k: int|
        0 <= k < shapes.len() ==> is_island_shape(
            #[trigger] shapes[k],
            craft,
            unfolding,
            options.page_position_spec(page),
            on_page[k],
        )
}

/// The islands of page `page` as they are drawn.
pub fn page_shapes(craft: &Papercraft, unfolding: &Unfolding, options: &PaperOptions, page: u32) -> (shapes:
    Vec<IslandShape>)
    requires
        craft.wf(),
        unfolding.fits(craft.mesh()),
        options.wf(),
    ensures
        is_page_shapes(shapes@, craft, unfolding, *options, page),
{
    let origin = options.page_position(page);
    let mut shapes: Vec<IslandShape> = Vec::new();
    let count: usize = craft.num_islands();
    let mut i: usize = 0;
    while i < count
        invariant
            craft.wf(),
            unfolding.fits(craft.mesh()),
            options.wf(),
            origin == options.page_position_spec(page),
            count == craft.island_seq().len(),
            i <= count,
            shapes@.len() == islands_on_page(craft, unfolding, *options, page, i as int).len(),
            forall|k: int|
                0 <= k < shapes@.len() ==> is_island_shape(
                    #[trigger] shapes@[k],
                    craft,
                    unfolding,
                    origin,
                    islands_on_page(craft, unfolding, *options, page, i as int)[k],
                ),
        decreases count - i,
    {
        let c = center_of_island(craft, unfolding, i);
        let owner = options.owner_page(c);
        let here: bool = match owner {
            Some(p) => p == page as u64,
            None => false,
        };
        if here {
            proof {
                lemma_owner_page_holds_point(*options, c, page);
            }
            let shape = island_shape(craft, unfolding, origin, i);
            shapes.push(shape);
        }
        i += 1;
    }
    shapes
}

} // verus!
