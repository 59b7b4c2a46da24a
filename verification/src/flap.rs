//! The shape of a flap: a trapezium on the outer side of a cut edge.

use crate::fixed::{div_round, round_div};
use crate::geometry::Point2;
use crate::options::PAGE_MAX;
use crate::texture::{page_point_in_range, PAGE_POINT_MAX};
use vstd::prelude::*;

verus! {

/// Whether `r` is the integer square root of `n`: the greatest number whose
/// square is at most `n`.
pub open spec fn is_isqrt(n: int, r: int) -> bool {
    0 <= r && r * r <= n < (r + 1) * (r + 1)
}

/// The integer square root of `n`.
pub open spec fn isqrt(n: int) -> int {
    choose|r: int| is_isqrt(n, r)
}

/// A number has one integer square root.
pub proof fn lemma_isqrt_unique(n: int, r: int, s: int)
    requires
        is_isqrt(n, r),
        is_isqrt(n, s),
    ensures
        r == s,
{
    if r < s {
        assert((r + 1) * (r + 1) <= s * s) by (nonlinear_arith)
            requires
                0 <= r,
                r + 1 <= s,
        ;
    }
    if s < r {
        assert((s + 1) * (s + 1) <= r * r) by (nonlinear_arith)
            requires
                0 <= s,
                s + 1 <= r,
        ;
    }
}

/// Computes the integer square root of `n`.
pub fn integer_sqrt(n: u128) -> (r: u128)
    requires
        n < 0x1_0000_0000_0000_0000_0000_0000,
    ensures
        is_isqrt(n as int, r as int),
        r == isqrt(n as int),
        r < 0x1_0000_0000_0000,
{
    let mut lo: u128 = 0;
    let mut hi: u128 = 0x1_0000_0000_0000;
    assert(n < hi * hi) by (nonlinear_arith)
        requires
            n < 0x1_0000_0000_0000_0000_0000_0000,
            hi == 0x1_0000_0000_0000,
    ;
    while hi - lo > 1
        invariant
            lo < hi <= 0x1_0000_0000_0000,
            lo * lo <= n < hi * hi,
        decreases hi - lo,
    {
        let mid: u128 = lo + (hi - lo) / 2;
        assert(mid * mid < 0x1_0000_0000_0000 * 0x1_0000_0000_0000) by (nonlinear_arith)
            requires
                0 <= mid < 0x1_0000_0000_0000,
        ;
        if mid * mid <= n {
            lo = mid;
        } else {
            hi = mid;
        }
    }
    proof {
        assert(hi == lo + 1);
        let s = isqrt(n as int);
        assert(is_isqrt(n as int, lo as int));
        lemma_isqrt_unique(n as int, lo as int, s);
    }
    lo
}

/// The taper of a flap: each slanted side moves in along the edge by three
/// twentieths of the edge's length.
pub open spec fn taper(d: int) -> int {
    div_round(3 * d, 20)
}

/// Whether a flap of width `width` is as wide as it may be on an edge with
/// the components `dx, dy`: at least two fifths of the edge's length.
pub open spec fn flap_is_capped(dx: int, dy: int, width: int) -> bool {
    25 * (width * width) >= 4 * (dx * dx + dy * dy)
}

/// How far a flap of width `width` reaches out from an edge with the
/// components `dx, dy`, along the direction that has the component `d`
/// where the edge's length is `isqrt(dx * dx + dy * dy)`: the width, but at
/// most two fifths of the length, times `d` over the length.
pub open spec fn reach(dx: int, dy: int, width: int, d: int) -> int {
    if flap_is_capped(dx, dy, width) {
        div_round(2 * d, 5)
    } else {
        div_round(width * d, isqrt(dx * dx + dy * dy))
    }
}

/// The flap on the edge from `p0` to `p1`: the edge itself and, at the
/// flap's width to the left of the edge's direction, a shorter side
/// parallel to it.
pub open spec fn flap_quad(p0: Point2, p1: Point2, width: int) -> [Point2; 4] {
    let dx = p1.x - p0.x;
    let dy = p1.y - p0.y;
    let out_x = reach(dx, dy, width, -dy);
    let out_y = reach(dx, dy, width, dx);
    [
        p0,
        p1,
        Point2 { x: (p1.x + out_x - taper(dx)) as i64, y: (p1.y + out_y - taper(dy)) as i64 },
        Point2 { x: (p0.x + out_x + taper(dx)) as i64, y: (p0.y + out_y + taper(dy)) as i64 },
    ]
}

/// The flap on the edge from `p0` to `p1`, for a flap of width `width`.
pub fn flap_polygon(p0: Point2, p1: Point2, width: i64) -> (quad: [Point2; 4])
    requires
        page_point_in_range(p0),
        page_point_in_range(p1),
        0 <= width <= PAGE_MAX,
    ensures
        quad == flap_quad(p0, p1, width as int),
{
    let dx: i128 = p1.x as i128 - p0.x as i128;
    let dy: i128 = p1.y as i128 - p0.y as i128;
    let w: i128 = width as i128;
    let ghost span: int = 2 * PAGE_POINT_MAX;
    proof {
        crate::texture::lemma_square_bound(dx as int, span);
        crate::texture::lemma_square_bound(dy as int, span);
        crate::texture::lemma_square_bound(w as int, PAGE_MAX as int);
    }
    let d2: i128 = dx * dx + dy * dy;
    let capped: bool = 25 * (w * w) >= 4 * d2;
    let (out_x, out_y): (i128, i128) = if capped {
        (round_div(2 * (-dy), 5), round_div(2 * dx, 5))
    } else {
        let len: i128 = integer_sqrt(d2 as u128) as i128;
        proof {
            assert(len > 0) by {
                if len == 0 {
                    assert((len + 1) * (len + 1) == 1) by (nonlinear_arith)
                        requires
                            len == 0,
                    ;
                    assert(w * w >= 0) by (nonlinear_arith);
                }
            }
            crate::texture::lemma_times_bound(w as int, -dy as int, PAGE_MAX as int, span);
            crate::texture::lemma_times_bound(w as int, dx as int, PAGE_MAX as int, span);
        }
        (round_div(w * (-dy), len), round_div(w * dx, len))
    };
    let tx: i128 = round_div(3 * dx, 20);
    let ty: i128 = round_div(3 * dy, 20);
    proof {
        lemma_reach_bound(dx as int, dy as int, w as int, -dy as int);
        lemma_reach_bound(dx as int, dy as int, w as int, dx as int);
        assert(out_x == reach(dx as int, dy as int, w as int, -dy as int));
        assert(out_y == reach(dx as int, dy as int, w as int, dx as int));
        assert(tx == (6 * dx + 20) / 40);
        assert(ty == (6 * dy + 20) / 40);
    }
    [
        p0,
        p1,
        Point2 { x: (p1.x as i128 + out_x - tx) as i64, y: (p1.y as i128 + out_y - ty) as i64 },
        Point2 { x: (p0.x as i128 + out_x + tx) as i64, y: (p0.y as i128 + out_y + ty) as i64 },
    ]
}

/// A flap reaches out by no more than the magnitude of the component `d`,
/// where that is a component of the edge.
proof fn lemma_reach_bound(dx: int, dy: int, width: int, d: int)
    requires
        d == dx || d == -dy,
        width >= 0,
    ensures
        -(crate::texture::magnitude(d)) - 1 <= reach(dx, dy, width, d) <= crate::texture::magnitude(d)
            + 1,
{
    let m = crate::texture::magnitude(d);
    if flap_is_capped(dx, dy, width) {
        assert(div_round(2 * d, 5) == (4 * d + 5) / 10);
    } else {
        let d2 = dx * dx + dy * dy;
        assert(d2 >= 0) by (nonlinear_arith)
            requires
                d2 == dx * dx + dy * dy,
        ;
        lemma_isqrt_exists(d2);
        let len = isqrt(d2);
        assert(is_isqrt(d2, len));
        // The width is below two fifths of the length, so below the length.
        assert(width * width < d2) by (nonlinear_arith)
            requires
                25 * (width * width) < 4 * d2,
                d2 >= 0,
        ;
        assert(width < len + 1) by (nonlinear_arith)
            requires
                width * width < d2,
                d2 < (len + 1) * (len + 1),
                width >= 0,
                len >= 0,
        ;
        assert(len > 0) by {
            if len == 0 {
                assert((len + 1) * (len + 1) == 1) by (nonlinear_arith)
                    requires
                        len == 0,
                ;
                assert(width * width >= 0) by (nonlinear_arith);
            }
        }
        let q = div_round(width * d, len);
        vstd::arithmetic::div_mod::lemma_fundamental_div_mod(2 * (width * d) + len, 2 * len);
        vstd::arithmetic::div_mod::lemma_mod_bound(2 * (width * d) + len, 2 * len);
        let r = (2 * (width * d) + len) % (2 * len);
        assert(-(m * len) <= width * d <= m * len) by (nonlinear_arith)
            requires
                0 <= width <= len,
                -m <= d <= m,
        ;
        assert(-m - 1 <= q <= m + 1) by (nonlinear_arith)
            requires
                2 * (width * d) + len == (2 * len) * q + r,
                0 <= r < 2 * len,
                -(m * len) <= width * d <= m * len,
                len > 0,
                m >= 0,
        ;
    }
}

/// Every number that is not negative has an integer square root.
pub proof fn lemma_isqrt_exists(n: int)
    requires
        n >= 0,
    ensures
        is_isqrt(n, isqrt(n)),
    decreases n,
{
    if n == 0 {
        assert(is_isqrt(0, 0));
    } else {
        lemma_isqrt_exists(n - 1);
        let r = isqrt(n - 1);
        if (r + 1) * (r + 1) <= n {
            assert((r + 1) * (r + 1) == n);
            assert(n < (r + 2) * (r + 2)) by (nonlinear_arith)
                requires
                    (r + 1) * (r + 1) == n,
                    r >= 0,
            ;
            assert(is_isqrt(n, r + 1));
        } else {
            assert(is_isqrt(n, r));
        }
    }
}

} // verus!
