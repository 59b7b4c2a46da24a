//! Paper options and the grid of pages.
//!
//! Pages lie on one canvas, in a grid of columns, with a separator of ten
//! millimetres between neighbours in both directions.

use crate::fixed::{floor_div, round_div};
use crate::geometry::Point2;
use vstd::prelude::*;

verus! {

/// Width of the separator between neighbouring pages.
pub const PAGE_SEP: i64 = 10_000_000;

/// Largest page width or height that the options accept: two metres. A
/// page number has 32 bits and a coordinate 64; with pages much wider than
/// this the origin of the last page of a row could not be written down.
pub const PAGE_MAX: i64 = 2_000_000_000;

/// How flaps are drawn.
#[derive(Clone, Copy, Debug, PartialEq, Eq, Structural)]
pub enum FlapStyle {
    NoFlaps,
    Textured,
    White,
    NoneHidden,
}

/// How fold lines are drawn.
#[derive(Clone, Copy, Debug, PartialEq, Eq, Structural)]
pub enum FoldStyle {
    NoFolds,
    Full,
    Out,
    In,
    FullAndOut,
}

/// Where the identifiers of edges are printed.
#[derive(Clone, Copy, Debug, PartialEq, Eq, Structural)]
pub enum EdgeIdPosition {
    NoIds,
    Outside,
    Inside,
}

/// A colour: red, green, blue and alpha, each an intensity in millionths.
/// An intensity above one million counts as one million.
#[derive(Clone, Copy, Debug, PartialEq, Eq, Structural)]
pub struct Color {
    pub r: u32,
    pub g: u32,
    pub b: u32,
    pub a: u32,
}

/// The byte of an intensity: `c * 255`, rounded to the nearest integer and
/// held to at most 255.
pub open spec fn channel_byte(c: u32) -> int {
    if c >= 1_000_000 {
        255
    } else {
        crate::fixed::div_round(c * 255, 1_000_000)
    }
}

/// The upper-case character of a hexadecimal digit.
pub open spec fn hex_char(d: int) -> char {
    if d < 10 {
        ((48 + d) as u8) as char
    } else {
        ((55 + d) as u8) as char
    }
}

/// The two hexadecimal digits of a byte.
pub open spec fn hex_byte(b: int) -> Seq<char> {
    seq![hex_char(b / 16), hex_char(b % 16)]
}

impl Color {
    /// The colour in the notation `#RRGGBB`; alpha is left out.
    pub open spec fn hex(self) -> Seq<char> {
        seq!['#'] + hex_byte(channel_byte(self.r)) + hex_byte(channel_byte(self.g)) + hex_byte(
            channel_byte(self.b),
        )
    }

    /// Writes the colour in the notation `#RRGGBB`.
    pub fn to_hex(&self) -> (s: String)
        ensures
            s@ == self.hex(),
    {
        let mut s = String::new();
        s.push('#');
        push_hex_byte(&mut s, to_byte(self.r));
        push_hex_byte(&mut s, to_byte(self.g));
        push_hex_byte(&mut s, to_byte(self.b));
        s
    }
}

fn to_byte(c: u32) -> (b: u8)
    ensures
        b == channel_byte(c),
{
    if c >= 1_000_000 {
        255
    } else {
        let q: i128 = round_div((c as i128) * 255, 1_000_000);
        assert(q == (2 * (c * 255) + 1_000_000) / 2_000_000);
        q as u8
    }
}

fn hex_digit(d: u8) -> (c: char)
    requires
        d < 16,
    ensures
        c == hex_char(d as int),
{
    if d < 10 {
        (48u8 + d) as char
    } else {
        (55u8 + d) as char
    }
}

fn push_hex_byte(out: &mut String, b: u8)
    ensures
        final(out)@ == old(out)@ + hex_byte(b as int),
{
    out.push(hex_digit(b / 16));
    out.push(hex_digit(b % 16));
}

/// The options of one export.
#[derive(Clone, Copy, Debug)]
pub struct PaperOptions {
    /// Page width and height.
    pub page_size: (i64, i64),
    /// Margins: top, left, right, bottom.
    pub margin: (i64, i64, i64, i64),
    /// Number of pages.
    pub pages: u32,
    /// Number of columns of the page grid; zero counts as one.
    pub page_cols: u32,
    /// Scale from model units to millimetres.
    pub scale: i64,
    pub flap_style: FlapStyle,
    /// Width of a flap.
    pub flap_width: i64,
    pub fold_style: FoldStyle,
    pub edge_id_position: EdgeIdPosition,
    /// Size of the edge identifiers, in points.
    pub edge_id_font_size: i64,
    pub show_page_number: bool,
    pub show_self_promotion: bool,
    pub paper_color: Color,
    pub cut_line_color: Color,
    pub fold_line_color: Color,
    pub tab_line_color: Color,
}

/// Where a point of the canvas lies in the page grid: the row and column of
/// its page, and its position on that page.
#[derive(Clone, Copy, Debug, PartialEq, Eq, Structural)]
pub struct PageOffset {
    pub row: i64,
    pub col: i64,
    pub offset: Point2,
}

impl PaperOptions {
    /// Well-formed options have a page of positive size, at most `PAGE_MAX`
    /// wide and high, and margins and flap width within the same bound.
    pub open spec fn wf(&self) -> bool {
        &&& 0 < self.page_size.0 <= PAGE_MAX
        &&& 0 < self.page_size.1 <= PAGE_MAX
        &&& 0 <= self.margin.0 <= PAGE_MAX
        &&& 0 <= self.margin.1 <= PAGE_MAX
        &&& 0 <= self.margin.2 <= PAGE_MAX
        &&& 0 <= self.margin.3 <= PAGE_MAX
        &&& 0 <= self.flap_width <= PAGE_MAX
        &&& 0 <= self.edge_id_font_size <= PAGE_MAX
    }

    /// Tests whether the options are well formed.
    pub fn is_valid(&self) -> (ok: bool)
        ensures
            ok == self.wf(),
    {
        0 < self.page_size.0 && self.page_size.0 <= PAGE_MAX && 0 < self.page_size.1
            && self.page_size.1 <= PAGE_MAX && 0 <= self.margin.0 && self.margin.0 <= PAGE_MAX && 0
            <= self.margin.1 && self.margin.1 <= PAGE_MAX && 0 <= self.margin.2 && self.margin.2
            <= PAGE_MAX && 0 <= self.margin.3 && self.margin.3 <= PAGE_MAX && 0 <= self.flap_width
            && self.flap_width <= PAGE_MAX && 0 <= self.edge_id_font_size
            && self.edge_id_font_size <= PAGE_MAX
    }

    /// Number of columns of the grid: `page_cols`, but at least one.
    pub open spec fn cols(&self) -> int {
        if self.page_cols == 0 {
            1
        } else {
            self.page_cols as int
        }
    }

    /// Number of rows that hold `pages` pages.
    pub open spec fn rows(&self) -> int {
        (self.pages + self.cols() - 1) / self.cols()
    }

    /// Horizontal distance between the origins of neighbouring pages.
    pub open spec fn pitch_x(&self) -> int {
        self.page_size.0 + PAGE_SEP
    }

    /// Vertical distance between the origins of neighbouring pages.
    pub open spec fn pitch_y(&self) -> int {
        self.page_size.1 + PAGE_SEP
    }

    /// Origin of page `page` on the canvas.
    pub open spec fn page_position_spec(&self, page: u32) -> Point2 {
        Point2 {
            x: ((page as int % self.cols()) * self.pitch_x()) as i64,
            y: ((page as int / self.cols()) * self.pitch_y()) as i64,
        }
    }

    /// Row, column and position on the page of the canvas point `p`.
    pub open spec fn global_to_page_spec(&self, p: Point2) -> PageOffset {
        PageOffset {
            row: (p.y as int / self.pitch_y()) as i64,
            col: (p.x as int / self.pitch_x()) as i64,
            offset: Point2 {
                x: (p.x as int % self.pitch_x()) as i64,
                y: (p.y as int % self.pitch_y()) as i64,
            },
        }
    }

    /// Index of the page that holds the canvas point `p`: `row * cols + col`
    /// for a point in row `row` and column `col` of the grid. A point left
    /// of, above or right of the grid is on no page.
    pub open spec fn owner_page_spec(&self, p: Point2) -> Option<int> {
        let row = p.y as int / self.pitch_y();
        let col = p.x as int / self.pitch_x();
        if row >= 0 && 0 <= col < self.cols() {
            Some(row * self.cols() + col)
        } else {
            None
        }
    }

    /// Size of the canvas that holds the whole grid.
    pub open spec fn canvas_size_spec(&self) -> Point2 {
        Point2 {
            x: (self.cols() * self.pitch_x() - PAGE_SEP) as i64,
            y: (self.rows() * self.pitch_y() - PAGE_SEP) as i64,
        }
    }

    /// Number of columns of the grid.
    pub fn columns(&self) -> (c: u32)
        ensures
            c == self.cols(),
    {
        if self.page_cols == 0 {
            1
        } else {
            self.page_cols
        }
    }

    /// Number of rows of the grid.
    pub fn row_count(&self) -> (r: u32)
        ensures
            r == self.rows(),
    {
        let cols: u64 = self.columns() as u64;
        let r: u64 = (self.pages as u64 + cols - 1) / cols;
        proof {
            let c = self.cols();
            let n = self.pages + c - 1;
            vstd::arithmetic::div_mod::lemma_fundamental_div_mod(n, c);
            vstd::arithmetic::div_mod::lemma_mod_bound(n, c);
            assert(n / c <= self.pages) by (nonlinear_arith)
                requires
                    n == c * (n / c) + n % c,
                    0 <= n % c < c,
                    c >= 1,
                    n == self.pages + c - 1,
            ;
        }
        r as u32
    }

    /// Origin of page `page` on the canvas.
    pub fn page_position(&self, page: u32) -> (pos: Point2)
        requires
            self.wf(),
        ensures
            pos == self.page_position_spec(page),
            0 <= pos.x <= 0x1_0000_0000 * 2_010_000_000,
            0 <= pos.y <= 0x1_0000_0000 * 2_010_000_000,
    {
        let cols: u32 = self.columns();
        let col: i64 = (page % cols) as i64;
        let row: i64 = (page / cols) as i64;
        let px: i64 = self.page_size.0 + PAGE_SEP;
        let py: i64 = self.page_size.1 + PAGE_SEP;
        assert(0 <= col * px <= 0x1_0000_0000 * 2_010_000_000) by (nonlinear_arith)
            requires
                0 <= col < 0x1_0000_0000,
                0 < px <= 2_010_000_000,
        ;
        assert(0 <= row * py <= 0x1_0000_0000 * 2_010_000_000) by (nonlinear_arith)
            requires
                0 <= row < 0x1_0000_0000,
                0 < py <= 2_010_000_000,
        ;
        Point2 { x: col * px, y: row * py }
    }

    /// Row, column and position on the page of the canvas point `p`.
    pub fn global_to_page(&self, p: Point2) -> (po: PageOffset)
        requires
            self.wf(),
        ensures
            po == self.global_to_page_spec(p),
            po.row == p.y as int / self.pitch_y(),
            po.col == p.x as int / self.pitch_x(),
            0 <= po.offset.x < self.pitch_x(),
            0 <= po.offset.y < self.pitch_y(),
            p.x == po.col * self.pitch_x() + po.offset.x,
            p.y == po.row * self.pitch_y() + po.offset.y,
    {
        let px: i64 = self.page_size.0 + PAGE_SEP;
        let py: i64 = self.page_size.1 + PAGE_SEP;
        let (col, ox) = split(p.x, px);
        let (row, oy) = split(p.y, py);
        PageOffset { row, col, offset: Point2 { x: ox, y: oy } }
    }

    /// Index of the page that holds the canvas point `p`, if any.
    pub fn owner_page(&self, p: Point2) -> (page: Option<u64>)
        requires
            self.wf(),
            p.in_range(),
        ensures
            match page {
                Some(index) => self.owner_page_spec(p) == Some(index as int),
                None => self.owner_page_spec(p) is None,
            },
    {
        let po = self.global_to_page(p);
        let cols: i64 = self.columns() as i64;
        if po.row >= 0 && 0 <= po.col && po.col < cols {
            proof {
                let py = self.pitch_y();
                assert(po.row <= 100_000) by (nonlinear_arith)
                    requires
                        p.y == po.row * py + po.offset.y,
                        0 <= po.offset.y,
                        py > 10_000_000,
                        p.y <= 1_000_000_000_000,
                        po.row >= 0,
                ;
                assert(0 <= po.row * cols <= 100_000 * 0x1_0000_0000) by (nonlinear_arith)
                    requires
                        0 <= po.row <= 100_000,
                        0 < cols <= 0x1_0000_0000,
                ;
            }
            Some((po.row * cols + po.col) as u64)
        } else {
            None
        }
    }

    /// Whether the canvas point `p` lies on page `page`, and its position
    /// relative to that page's origin.
    pub fn is_in_page(&self, page: u32, p: Point2) -> (r: (bool, Point2))
        requires
            self.wf(),
            p.in_range(),
        ensures
            r.1.x == p.x - self.page_position_spec(page).x,
            r.1.y == p.y - self.page_position_spec(page).y,
            r.0 == (0 <= r.1.x < self.page_size.0 && 0 <= r.1.y < self.page_size.1),
    {
        let origin = self.page_position(page);
        let rel = Point2 { x: p.x - origin.x, y: p.y - origin.y };
        let inside = 0 <= rel.x && rel.x < self.page_size.0 && 0 <= rel.y && rel.y
            < self.page_size.1;
        (inside, rel)
    }

    /// Size of the canvas that holds the whole grid.
    pub fn canvas_size(&self) -> (size: Point2)
        requires
            self.wf(),
        ensures
            size == self.canvas_size_spec(),
    {
        let cols: i64 = self.columns() as i64;
        let rows: i64 = self.row_count() as i64;
        let px: i64 = self.page_size.0 + PAGE_SEP;
        let py: i64 = self.page_size.1 + PAGE_SEP;
        assert(0 <= cols * px <= 0x1_0000_0000 * 2_010_000_000) by (nonlinear_arith)
            requires
                0 <= cols < 0x1_0000_0000,
                0 < px <= 2_010_000_000,
        ;
        assert(0 <= rows * py <= 0x1_0000_0000 * 2_010_000_000) by (nonlinear_arith)
            requires
                0 <= rows < 0x1_0000_0000,
                0 < py <= 2_010_000_000,
        ;
        Point2 { x: cols * px - PAGE_SEP, y: rows * py - PAGE_SEP }
    }
}

/// Quotient and remainder of the floor division of `v` by a positive `d`.
fn split(v: i64, d: i64) -> (r: (i64, i64))
    requires
        d > 0,
    ensures
        r.0 == v as int / d as int,
        r.1 == v as int % d as int,
        0 <= r.1 < d,
        v == r.0 * d + r.1,
{
    let q: i128 = floor_div(v as i128, d as i128);
    proof {
        let vv = v as int;
        let dd = d as int;
        let qq = vv / dd;
        let rr = vv % dd;
        vstd::arithmetic::div_mod::lemma_fundamental_div_mod(vv, dd);
        vstd::arithmetic::div_mod::lemma_mod_bound(vv, dd);
        assert(qq * dd == dd * qq) by (nonlinear_arith);
        assert(vv >= 0 ==> 0 <= qq <= vv) by (nonlinear_arith)
            requires
                vv == qq * dd + rr,
                0 <= rr < dd,
        ;
        assert(vv < 0 ==> vv <= qq < 0) by (nonlinear_arith)
            requires
                vv == qq * dd + rr,
                0 <= rr < dd,
        ;
        assert(-0x8000_0000_0000_0000 <= qq <= 0x7fff_ffff_ffff_ffff);
        assert(qq * dd == vv - rr);
    }
    let rem: i128 = v as i128 - q * (d as i128);
    (q as i64, rem as i64)
}

/// The origin of a page lies as many pages' widths to the right as its
/// column says, and as many pages' heights down as its row says.
pub proof fn lemma_page_origin(options: PaperOptions, page: u32)
    requires
        options.wf(),
    ensures
        options.page_position_spec(page).x == (page as int % options.cols()) * options.pitch_x(),
        options.page_position_spec(page).y == (page as int / options.cols()) * options.pitch_y(),
        0 <= page as int % options.cols() < options.cols(),
        0 <= page as int / options.cols(),
        page == options.cols() * (page as int / options.cols()) + page as int % options.cols(),
{
    lemma_page_position_bounds(options, page);
    let cols = options.cols();
    vstd::arithmetic::div_mod::lemma_fundamental_div_mod(page as int, cols);
    vstd::arithmetic::div_mod::lemma_mod_bound(page as int, cols);
    let col = page as int % cols;
    let row = page as int / cols;
    assert(0 <= row <= page) by (nonlinear_arith)
        requires
            page == cols * row + col,
            0 <= col < cols,
            cols >= 1,
            page >= 0,
    ;
    let (px, py) = (options.pitch_x(), options.pitch_y());
    assert(0 <= col * px <= 0x1_0000_0000 * 2_010_000_000) by (nonlinear_arith)
        requires
            0 <= col < 0x1_0000_0000,
            0 < px <= 2_010_000_000,
    ;
    assert(0 <= row * py <= 0x1_0000_0000 * 2_010_000_000) by (nonlinear_arith)
        requires
            0 <= row < 0x1_0000_0000,
            0 < py <= 2_010_000_000,
    ;
}

/// The origin of a page lies at or beyond the origin of the canvas.
pub proof fn lemma_page_position_bounds(options: PaperOptions, page: u32)
    requires
        options.wf(),
    ensures
        0 <= options.page_position_spec(page).x <= 0x1_0000_0000 * 2_010_000_000,
        0 <= options.page_position_spec(page).y <= 0x1_0000_0000 * 2_010_000_000,
{
    let cols = options.cols();
    let col = page as int % cols;
    let row = page as int / cols;
    let (px, py) = (options.pitch_x(), options.pitch_y());
    vstd::arithmetic::div_mod::lemma_fundamental_div_mod(page as int, cols);
    vstd::arithmetic::div_mod::lemma_mod_bound(page as int, cols);
    assert(0 <= row <= page) by (nonlinear_arith)
        requires
            page == cols * row + col,
            0 <= col < cols,
            cols >= 1,
            page >= 0,
    ;
    assert(0 <= col * px <= 0x1_0000_0000 * 2_010_000_000) by (nonlinear_arith)
        requires
            0 <= col < 0x1_0000_0000,
            0 < px <= 2_010_000_000,
    ;
    assert(0 <= row * py <= 0x1_0000_0000 * 2_010_000_000) by (nonlinear_arith)
        requires
            0 <= row < 0x1_0000_0000,
            0 < py <= 2_010_000_000,
    ;
}

/// A point's page is the one whose rectangle of the grid holds it: where
/// `owner_page_spec` names a page, the point lies at or beyond that page's
/// origin, by less than the distance to the next page in either direction.
pub proof fn lemma_owner_page_holds_point(options: PaperOptions, p: Point2, page: u32)
    requires
        options.wf(),
        options.owner_page_spec(p) == Some(page as int),
    ensures
        0 <= p.x - options.page_position_spec(page).x < options.pitch_x(),
        0 <= p.y - options.page_position_spec(page).y < options.pitch_y(),
        options.page_position_spec(page).x == (p.x as int / options.pitch_x()) * options.pitch_x(),
        options.page_position_spec(page).y == (p.y as int / options.pitch_y()) * options.pitch_y(),
{
    let cols = options.cols();
    let row = p.y as int / options.pitch_y();
    let col = p.x as int / options.pitch_x();
    let px = options.pitch_x();
    let py = options.pitch_y();
    assert(0 <= row * cols) by (nonlinear_arith)
        requires
            row >= 0,
            cols >= 1,
    ;
    assert(page == row * cols + col);
    vstd::arithmetic::div_mod::lemma_fundamental_div_mod_converse(page as int, cols, row, col);
    vstd::arithmetic::div_mod::lemma_fundamental_div_mod(p.x as int, px);
    vstd::arithmetic::div_mod::lemma_mod_bound(p.x as int, px);
    vstd::arithmetic::div_mod::lemma_fundamental_div_mod(p.y as int, py);
    vstd::arithmetic::div_mod::lemma_mod_bound(p.y as int, py);
    assert(0 <= col * px <= p.x && px * col == col * px) by (nonlinear_arith)
        requires
            p.x == px * col + p.x as int % px,
            0 <= p.x as int % px < px,
            col >= 0,
            px > 0,
    ;
    assert(0 <= row * py <= p.y && py * row == row * py) by (nonlinear_arith)
        requires
            p.y == py * row + p.y as int % py,
            0 <= p.y as int % py < py,
            row >= 0,
            py > 0,
    ;
}

} // verus!
