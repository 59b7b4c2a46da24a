//! Texture mapping of unfolded faces.

use crate::fixed::{div_round, round_div};
use crate::geometry::Point2;
use vstd::prelude::*;

verus! {

/// The `k`-th triangle of the fan that triangulates a convex polygon from
/// its first vertex.
pub open spec fn fan_triangle(k: int) -> [usize; 3] {
    [0usize, (k + 1) as usize, (k + 2) as usize]
}

/// The fan triangulation of a convex polygon with `vertex_count` vertices.
pub open spec fn fan_triangulation(vertex_count: nat) -> Seq<[usize; 3]> {
    if vertex_count < 3 {
        Seq::empty()
    } else {
        Seq::new((vertex_count - 2) as nat, |k: int| fan_triangle(k))
    }
}

/// Triangulates a convex polygon as a fan around its first vertex.
///
/// Each triangle is a triple of indices into the polygon's vertex list. A
/// polygon with fewer than three vertices has no triangles.
pub fn triangulate_polygon(vertex_count: usize) -> (triangles: Vec<[usize; 3]>)
    ensures
        triangles@ == fan_triangulation(vertex_count as nat),
        forall|k: int|
            0 <= k < triangles@.len() ==> {
                let t = #[trigger] triangles@[k];
                t[0] == 0 && t[1] == k + 1 && t[2] == k + 2 && k + 2 < vertex_count
            },
{
    let mut triangles: Vec<[usize; 3]> = Vec::new();
    if vertex_count < 3 {
        return triangles;
    }
    let mut i: usize = 1;
    while i < vertex_count - 1
        invariant
            vertex_count >= 3,
            1 <= i <= vertex_count - 1,
            triangles@.len() == i - 1,
            forall|k: int| 0 <= k < i - 1 ==> #[trigger] triangles@[k] == fan_triangle(k),
            forall|k: int|
                0 <= k < i - 1 ==> {
                    let t = #[trigger] triangles@[k];
                    t[0] == 0 && t[1] == k + 1 && t[2] == k + 2 && k + 2 < vertex_count
                },
        decreases vertex_count - i,
    {
        let triangle: [usize; 3] = [0, i, i + 1];
        assert(triangle == fan_triangle(i - 1));
        triangles.push(triangle);
        i += 1;
    }
    triangles
}

/// Largest magnitude of a texture coordinate that the solver accepts: a
/// hundred thousand units. Within its ranges the solver works in 128 bits
/// without overflow.
pub const UV_MAX: i64 = 100_000_000_000;

/// Largest magnitude of a coordinate of a point on a page.
pub const PAGE_POINT_MAX: i64 = 2_000_000_000_000;

/// Largest magnitude of a page coordinate that the solver accepts: two
/// hundred thousand units.
pub const SOLVER_PAGE_MAX: i64 = 200_000_000_000;

/// Largest magnitude of an entry of a matrix that the solver gives.
pub const ENTRY_MAX: i128 = 50_000_000_000_000_000_000_000_000_000_000_000;

/// The affine map `(u, v) -> (a u + c v + e, b u + d v + f)` from texture
/// coordinates to page coordinates. The four factors are ratios and the two
/// offsets are lengths, all in fixed point.
#[derive(Clone, Copy, Debug, PartialEq, Eq, Structural)]
pub struct TextureMatrix {
    pub a: i128,
    pub b: i128,
    pub c: i128,
    pub d: i128,
    pub e: i128,
    pub f: i128,
}

/// The mathematical value of a `TextureMatrix`.
pub struct AffineMap {
    pub a: int,
    pub b: int,
    pub c: int,
    pub d: int,
    pub e: int,
    pub f: int,
}

impl View for TextureMatrix {
    type V = AffineMap;

    open spec fn view(&self) -> AffineMap {
        AffineMap {
            a: self.a as int,
            b: self.b as int,
            c: self.c as int,
            d: self.d as int,
            e: self.e as int,
            f: self.f as int,
        }
    }
}

/// Whether an entry of a matrix is within the range of entries that the
/// solver gives.
pub open spec fn entry_bounded(v: i128) -> bool {
    -ENTRY_MAX <= v <= ENTRY_MAX
}

impl TextureMatrix {
    /// Whether every entry is within the range of entries that the solver
    /// gives.
    pub open spec fn bounded(&self) -> bool {
        entry_bounded(self.a) && entry_bounded(self.b) && entry_bounded(self.c) && entry_bounded(
            self.d,
        ) && entry_bounded(self.e) && entry_bounded(self.f)
    }
}

/// Whether a texture coordinate is within the solver's range.
pub open spec fn uv_in_range(p: Point2) -> bool {
    -UV_MAX <= p.x <= UV_MAX && -UV_MAX <= p.y <= UV_MAX
}

/// Whether a point is within the range of points on a page.
pub open spec fn page_point_in_range(p: Point2) -> bool {
    -PAGE_POINT_MAX <= p.x <= PAGE_POINT_MAX && -PAGE_POINT_MAX <= p.y <= PAGE_POINT_MAX
}

/// Whether a page point is within the solver's range.
pub open spec fn solver_point_in_range(p: Point2) -> bool {
    -SOLVER_PAGE_MAX <= p.x <= SOLVER_PAGE_MAX && -SOLVER_PAGE_MAX <= p.y <= SOLVER_PAGE_MAX
}

/// Whether the solver accepts the three texture coordinates and page points.
pub open spec fn solver_accepts(uvs: [Point2; 3], pts: [Point2; 3]) -> bool {
    &&& uv_in_range(uvs[0]) && uv_in_range(uvs[1]) && uv_in_range(uvs[2])
    &&& solver_point_in_range(pts[0]) && solver_point_in_range(pts[1]) && solver_point_in_range(
        pts[2],
    )
}

/// `a1 * b2 - a2 * b1`.
pub open spec fn cross(a1: int, b1: int, a2: int, b2: int) -> int {
    a1 * b2 - a2 * b1
}

/// Twice the signed area of the triangle of texture coordinates: the
/// determinant of the homogeneous matrix whose columns are the three
/// coordinates.
pub open spec fn uv_det(uvs: [Point2; 3]) -> int {
    cross(
        uvs[1].x - uvs[0].x,
        uvs[1].y - uvs[0].y,
        uvs[2].x - uvs[0].x,
        uvs[2].y - uvs[0].y,
    )
}

/// `uv_det` times the factor by which the first texture coordinate enters
/// the page coordinate whose values at the three corners are `w0, w1, w2`.
pub open spec fn factor_u(uvs: [Point2; 3], w0: int, w1: int, w2: int) -> int {
    cross(w1 - w0, uvs[1].y - uvs[0].y, w2 - w0, uvs[2].y - uvs[0].y)
}

/// `uv_det` times the factor by which the second texture coordinate enters
/// the page coordinate whose values at the three corners are `w0, w1, w2`.
pub open spec fn factor_v(uvs: [Point2; 3], w0: int, w1: int, w2: int) -> int {
    cross(uvs[1].x - uvs[0].x, w1 - w0, uvs[2].x - uvs[0].x, w2 - w0)
}

/// `uv_det` times the offset of the page coordinate whose values at the
/// three corners are `w0, w1, w2`.
pub open spec fn offset_w(uvs: [Point2; 3], w0: int, w1: int, w2: int) -> int {
    w0 * uv_det(uvs) - factor_u(uvs, w0, w1, w2) * uvs[0].x - factor_v(uvs, w0, w1, w2) * uvs[0].y
}

/// `n / d` rounded to the nearest integer, for a divisor of either sign.
pub open spec fn ratio(n: int, d: int) -> int {
    if d < 0 {
        div_round(-n, -d)
    } else {
        div_round(n, d)
    }
}

/// The affine map that takes each of three texture coordinates to its page
/// point: the product of the matrix of page points and the inverse of the
/// matrix of texture coordinates, each entry rounded to the nearest
/// fixed-point step. There is none where the texture coordinates lie on one
/// line, or where a coordinate is out of the solver's range.
pub open spec fn texture_matrix(uvs: [Point2; 3], pts: [Point2; 3]) -> Option<AffineMap> {
    let det = uv_det(uvs);
    let (x0, x1, x2) = (pts[0].x as int, pts[1].x as int, pts[2].x as int);
    let (y0, y1, y2) = (pts[0].y as int, pts[1].y as int, pts[2].y as int);
    if !solver_accepts(uvs, pts) || det == 0 {
        None
    } else {
        Some(
            AffineMap {
                a: ratio(1_000_000 * factor_u(uvs, x0, x1, x2), det),
                b: ratio(1_000_000 * factor_u(uvs, y0, y1, y2), det),
                c: ratio(1_000_000 * factor_v(uvs, x0, x1, x2), det),
                d: ratio(1_000_000 * factor_v(uvs, y0, y1, y2), det),
                e: ratio(offset_w(uvs, x0, x1, x2), det),
                f: ratio(offset_w(uvs, y0, y1, y2), det),
            },
        )
    }
}

impl AffineMap {
    /// A million times the first page coordinate of the image of `uv`.
    pub open spec fn image_x(self, uv: Point2) -> int {
        self.a * uv.x + self.c * uv.y + 1_000_000 * self.e
    }

    /// A million times the second page coordinate of the image of `uv`.
    pub open spec fn image_y(self, uv: Point2) -> int {
        self.b * uv.x + self.d * uv.y + 1_000_000 * self.f
    }
}

/// The absolute value of `v`.
pub open spec fn magnitude(v: int) -> int {
    if v < 0 {
        -v
    } else {
        v
    }
}

proof fn lemma_ratio_error(n: int, d: int)
    requires
        d != 0,
    ensures
        -magnitude(d) <= 2 * (ratio(n, d) * d - n) <= magnitude(d),
{
    if d > 0 {
        let q = (2 * n + d) / (2 * d);
        let r = (2 * n + d) % (2 * d);
        vstd::arithmetic::div_mod::lemma_fundamental_div_mod(2 * n + d, 2 * d);
        vstd::arithmetic::div_mod::lemma_mod_bound(2 * n + d, 2 * d);
        assert(2 * (q * d - n) == d - r) by (nonlinear_arith)
            requires
                2 * n + d == (2 * d) * q + r,
        ;
    } else {
        let m = -d;
        let q = (2 * (-n) + m) / (2 * m);
        let r = (2 * (-n) + m) % (2 * m);
        vstd::arithmetic::div_mod::lemma_fundamental_div_mod(2 * (-n) + m, 2 * m);
        vstd::arithmetic::div_mod::lemma_mod_bound(2 * (-n) + m, 2 * m);
        assert(2 * (q * d - n) == r - m) by (nonlinear_arith)
            requires
                2 * (-n) + m == (2 * m) * q + r,
                m == -d,
        ;
    }
}

/// `(p d - q b) a + (a q - c p) b == p (a d - c b)`.
proof fn lemma_cross_expand(a: int, b: int, c: int, d: int, p: int, q: int)
    ensures
        cross(p, b, q, d) * a + cross(a, p, c, q) * b == p * cross(a, b, c, d),
        cross(p, b, q, d) * c + cross(a, p, c, q) * d == q * cross(a, b, c, d),
{
    let (pd, qb, aq, cp, ad, cb) = (p * d, q * b, a * q, c * p, a * d, c * b);
    assert((pd - qb) * a == pd * a - qb * a) by (nonlinear_arith);
    assert((aq - cp) * b == aq * b - cp * b) by (nonlinear_arith);
    assert(pd * a == p * ad) by (nonlinear_arith)
        requires
            pd == p * d,
            ad == a * d,
    ;
    assert(qb * a == aq * b) by (nonlinear_arith)
        requires
            qb == q * b,
            aq == a * q,
    ;
    assert(cp * b == p * cb) by (nonlinear_arith)
        requires
            cp == c * p,
            cb == c * b,
    ;
    assert(p * (ad - cb) == p * ad - p * cb) by (nonlinear_arith);
    assert((pd - qb) * c == pd * c - qb * c) by (nonlinear_arith);
    assert((aq - cp) * d == aq * d - cp * d) by (nonlinear_arith);
    assert(pd * c == cp * d) by (nonlinear_arith)
        requires
            pd == p * d,
            cp == c * p,
    ;
    assert(qb * c == q * cb) by (nonlinear_arith)
        requires
            qb == q * b,
            cb == c * b,
    ;
    assert(aq * d == q * ad) by (nonlinear_arith)
        requires
            aq == a * q,
            ad == a * d,
    ;
    assert(q * (ad - cb) == q * ad - q * cb) by (nonlinear_arith);
}

proof fn lemma_row_identity(uvs: [Point2; 3], w0: int, w1: int, w2: int, i: int)
    requires
        0 <= i < 3,
    ensures
        factor_u(uvs, w0, w1, w2) * uvs[i].x + factor_v(uvs, w0, w1, w2) * uvs[i].y + offset_w(
            uvs,
            w0,
            w1,
            w2,
        ) == uv_det(uvs) * (if i == 0 {
            w0
        } else if i == 1 {
            w1
        } else {
            w2
        }),
{
    let (u0, v0) = (uvs[0].x as int, uvs[0].y as int);
    let (a, b) = (uvs[1].x - uvs[0].x, uvs[1].y - uvs[0].y);
    let (c, d) = (uvs[2].x - uvs[0].x, uvs[2].y - uvs[0].y);
    let (p, q) = (w1 - w0, w2 - w0);
    let det = uv_det(uvs);
    let nu = factor_u(uvs, w0, w1, w2);
    let nv = factor_v(uvs, w0, w1, w2);
    let ne = offset_w(uvs, w0, w1, w2);
    lemma_cross_expand(a, b, c, d, p, q);
    assert(det * w0 == w0 * det) by (nonlinear_arith);
    assert(nu * (u0 + a) == nu * u0 + nu * a) by (nonlinear_arith);
    assert(nv * (v0 + b) == nv * v0 + nv * b) by (nonlinear_arith);
    assert(nu * (u0 + c) == nu * u0 + nu * c) by (nonlinear_arith);
    assert(nv * (v0 + d) == nv * v0 + nv * d) by (nonlinear_arith);
    assert(det * (w0 + p) == w0 * det + p * det) by (nonlinear_arith);
    assert(det * (w0 + q) == w0 * det + q * det) by (nonlinear_arith);
    assert(uvs[1].x == u0 + a && uvs[1].y == v0 + b && uvs[2].x == u0 + c && uvs[2].y == v0 + d);
    assert(w1 == w0 + p && w2 == w0 + q);
}

proof fn lemma_row_error(det: int, nu: int, nv: int, ne: int, u: int, v: int, w: int)
    requires
        det != 0,
        nu * u + nv * v + ne == det * w,
    ensures
        -(magnitude(u) + magnitude(v) + 1_000_000) <= 2 * (ratio(1_000_000 * nu, det) * u + ratio(
            1_000_000 * nv,
            det,
        ) * v + 1_000_000 * ratio(ne, det) - 1_000_000 * w) <= magnitude(u) + magnitude(v)
            + 1_000_000,
{
    let a = ratio(1_000_000 * nu, det);
    let c = ratio(1_000_000 * nv, det);
    let e = ratio(ne, det);
    lemma_ratio_error(1_000_000 * nu, det);
    lemma_ratio_error(1_000_000 * nv, det);
    lemma_ratio_error(ne, det);
    let ea = 2 * (a * det - 1_000_000 * nu);
    let ec = 2 * (c * det - 1_000_000 * nv);
    let ee = 2 * (e * det - ne);
    let (au, cv) = (a * u, c * v);
    let x = au + cv + 1_000_000 * e - 1_000_000 * w;
    let m = magnitude(det);
    assert(ea * u == 2 * (au * det) - 2_000_000 * (nu * u)) by (nonlinear_arith)
        requires
            ea == 2 * (a * det - 1_000_000 * nu),
            au == a * u,
    ;
    assert(ec * v == 2 * (cv * det) - 2_000_000 * (nv * v)) by (nonlinear_arith)
        requires
            ec == 2 * (c * det - 1_000_000 * nv),
            cv == c * v,
    ;
    assert(x * det == au * det + cv * det + 1_000_000 * (e * det) - 1_000_000 * (det * w))
        by (nonlinear_arith)
        requires
            x == au + cv + 1_000_000 * e - 1_000_000 * w,
    ;
    assert(2 * (x * det) == ea * u + ec * v + 1_000_000 * ee);
    lemma_product_bound(ea, u, m, magnitude(u));
    lemma_product_bound(ec, v, m, magnitude(v));
    let bound = magnitude(u) + magnitude(v) + 1_000_000;
    assert(m * bound == m * magnitude(u) + m * magnitude(v) + 1_000_000 * m) by (nonlinear_arith)
        requires
            bound == magnitude(u) + magnitude(v) + 1_000_000,
    ;
    assert(-(m * bound) <= 2 * (x * det) <= m * bound);
    assert(-bound <= 2 * x <= bound) by (nonlinear_arith)
        requires
            -(m * bound) <= 2 * (x * det) <= m * bound,
            m > 0,
            det == m || det == -m,
            bound >= 0,
    ;
}

/// The solver's matrix takes each corner's texture coordinate to that
/// corner's page point, up to the rounding of its entries: the image of the
/// coordinate `(u, v)` differs from the page point, in either direction, by at
/// most `(|u| + |v| + 1) / 2` fixed-point steps. For texture coordinates of
/// magnitude up to ten thousand units that is less than a hundredth of a
/// millimetre.
pub proof fn lemma_texture_matrix_maps_corners(uvs: [Point2; 3], pts: [Point2; 3], i: int)
    requires
        0 <= i < 3,
        texture_matrix(uvs, pts) is Some,
    ensures
        ({
            let m = texture_matrix(uvs, pts).unwrap();
            let bound = magnitude(uvs[i].x as int) + magnitude(uvs[i].y as int) + 1_000_000;
            &&& -bound <= 2 * (m.image_x(uvs[i]) - 1_000_000 * pts[i].x) <= bound
            &&& -bound <= 2 * (m.image_y(uvs[i]) - 1_000_000 * pts[i].y) <= bound
        }),
{
    let det = uv_det(uvs);
    let (x0, x1, x2) = (pts[0].x as int, pts[1].x as int, pts[2].x as int);
    let (y0, y1, y2) = (pts[0].y as int, pts[1].y as int, pts[2].y as int);
    lemma_row_identity(uvs, x0, x1, x2, i);
    lemma_row_identity(uvs, y0, y1, y2, i);
    lemma_row_error(
        det,
        factor_u(uvs, x0, x1, x2),
        factor_v(uvs, x0, x1, x2),
        offset_w(uvs, x0, x1, x2),
        uvs[i].x as int,
        uvs[i].y as int,
        pts[i].x as int,
    );
    lemma_row_error(
        det,
        factor_u(uvs, y0, y1, y2),
        factor_v(uvs, y0, y1, y2),
        offset_w(uvs, y0, y1, y2),
        uvs[i].x as int,
        uvs[i].y as int,
        pts[i].y as int,
    );
}

/// The square of a number of magnitude at most `x` is at most `x * x`.
pub proof fn lemma_square_bound(a: int, x: int)
    requires
        -x <= a <= x,
    ensures
        0 <= a * a <= x * x,
{
    assert(0 <= a * a <= x * x) by (nonlinear_arith)
        requires
            -x <= a <= x,
    ;
}

/// The product of two numbers is bounded by the product of their bounds.
pub proof fn lemma_times_bound(a: int, b: int, x: int, y: int)
    requires
        -x <= a <= x,
        -y <= b <= y,
    ensures
        -(x * y) <= a * b <= x * y,
{
    lemma_product_bound(a, b, x, y);
}

proof fn lemma_product_bound(a: int, b: int, x: int, y: int)
    requires
        -x <= a <= x,
        -y <= b <= y,
    ensures
        -(x * y) <= a * b <= x * y,
{
    assert(-(x * y) <= a * b <= x * y) by (nonlinear_arith)
        requires
            -x <= a <= x,
            -y <= b <= y,
    ;
}

proof fn lemma_cross_bound(a1: int, b1: int, a2: int, b2: int, x: int, y: int)
    requires
        -x <= a1 <= x,
        -x <= a2 <= x,
        -y <= b1 <= y,
        -y <= b2 <= y,
    ensures
        -(2 * (x * y)) <= cross(a1, b1, a2, b2) <= 2 * (x * y),
{
    lemma_product_bound(a1, b2, x, y);
    lemma_product_bound(a2, b1, x, y);
}

fn cross_product(
    a1: i128,
    b1: i128,
    a2: i128,
    b2: i128,
    Ghost(x): Ghost<int>,
    Ghost(y): Ghost<int>,
) -> (r: i128)
    requires
        -x <= a1 <= x,
        -x <= a2 <= x,
        -y <= b1 <= y,
        -y <= b2 <= y,
        0 <= x * y <= 0x1000_0000_0000_0000_0000_0000_0000_0000,
    ensures
        r == cross(a1 as int, b1 as int, a2 as int, b2 as int),
        -(2 * (x * y)) <= r <= 2 * (x * y),
{
    proof {
        lemma_product_bound(a1 as int, b2 as int, x, y);
        lemma_product_bound(a2 as int, b1 as int, x, y);
    }
    a1 * b2 - a2 * b1
}

fn signed_ratio(n: i128, d: i128) -> (q: i128)
    requires
        d != 0,
        -0x1000_0000_0000_0000_0000_0000_0000_0000 <= n <= 0x1000_0000_0000_0000_0000_0000_0000_0000,
        -0x1000_0000_0000_0000_0000_0000_0000_0000 <= d <= 0x1000_0000_0000_0000_0000_0000_0000_0000,
    ensures
        q == ratio(n as int, d as int),
        n >= 0 ==> -n - 1 <= q <= n + 1,
        n < 0 ==> n - 1 <= q <= -n + 1,
{
    if d < 0 {
        round_div(-n, -d)
    } else {
        round_div(n, d)
    }
}

fn point_in(p: &Point2, bound: i64) -> (ok: bool)
    requires
        bound >= 0,
    ensures
        ok == (-bound <= p.x <= bound && -bound <= p.y <= bound),
{
    -bound <= p.x && p.x <= bound && -bound <= p.y && p.y <= bound
}

/// One row of the matrix: the two factors and the offset of the page
/// coordinate whose values at the three corners are `w0, w1, w2`.
fn solve_row(uvs: &[Point2; 3], det: i128, w0: i64, w1: i64, w2: i64) -> (r: (i128, i128, i128))
    requires
        uv_in_range(uvs[0]) && uv_in_range(uvs[1]) && uv_in_range(uvs[2]),
        -SOLVER_PAGE_MAX <= w0 <= SOLVER_PAGE_MAX,
        -SOLVER_PAGE_MAX <= w1 <= SOLVER_PAGE_MAX,
        -SOLVER_PAGE_MAX <= w2 <= SOLVER_PAGE_MAX,
        det == uv_det(*uvs),
        det != 0,
    ensures
        r.0 == ratio(1_000_000 * factor_u(*uvs, w0 as int, w1 as int, w2 as int), det as int),
        r.1 == ratio(1_000_000 * factor_v(*uvs, w0 as int, w1 as int, w2 as int), det as int),
        r.2 == ratio(offset_w(*uvs, w0 as int, w1 as int, w2 as int), det as int),
        entry_bounded(r.0) && entry_bounded(r.1) && entry_bounded(r.2),
{
    let du1: i128 = uvs[1].x as i128 - uvs[0].x as i128;
    let dv1: i128 = uvs[1].y as i128 - uvs[0].y as i128;
    let du2: i128 = uvs[2].x as i128 - uvs[0].x as i128;
    let dv2: i128 = uvs[2].y as i128 - uvs[0].y as i128;
    let dw1: i128 = w1 as i128 - w0 as i128;
    let dw2: i128 = w2 as i128 - w0 as i128;
    let ghost du_max: int = 2 * UV_MAX;
    let ghost dw_max: int = 2 * SOLVER_PAGE_MAX;
    proof {
        lemma_cross_bound(du1 as int, dv1 as int, du2 as int, dv2 as int, du_max, du_max);
    }
    let nu: i128 = cross_product(dw1, dv1, dw2, dv2, Ghost(dw_max), Ghost(du_max));
    let nv: i128 = cross_product(du1, dw1, du2, dw2, Ghost(du_max), Ghost(dw_max));
    proof {
        lemma_product_bound(w0 as int, det as int, SOLVER_PAGE_MAX as int, 2 * (du_max * du_max));
        lemma_product_bound(nu as int, uvs[0].x as int, 2 * (dw_max * du_max), UV_MAX as int);
        lemma_product_bound(nv as int, uvs[0].y as int, 2 * (du_max * dw_max), UV_MAX as int);
    }
    let ne: i128 = (w0 as i128) * det - nu * (uvs[0].x as i128) - nv * (uvs[0].y as i128);
    (signed_ratio(1_000_000 * nu, det), signed_ratio(1_000_000 * nv, det), signed_ratio(ne, det))
}

/// Solves for the affine map that takes each texture coordinate `uvs[i]` to
/// its page point `pts[i]`.
///
/// Returns `None` where the texture coordinates lie on one line, so that no
/// such map exists, and where a coordinate is out of the solver's range.
pub fn calc_texture_matrix(uvs: [Point2; 3], pts: [Point2; 3]) -> (m: Option<TextureMatrix>)
    ensures
        match m {
            Some(matrix) => texture_matrix(uvs, pts) == Some(matrix@) && matrix.bounded(),
            None => texture_matrix(uvs, pts) is None,
        },
{
    if !(point_in(&uvs[0], UV_MAX) && point_in(&uvs[1], UV_MAX) && point_in(&uvs[2], UV_MAX)
        && point_in(&pts[0], SOLVER_PAGE_MAX) && point_in(&pts[1], SOLVER_PAGE_MAX) && point_in(
        &pts[2],
        SOLVER_PAGE_MAX,
    )) {
        return None;
    }
    let ghost du_max: int = 2 * UV_MAX;
    let det: i128 = cross_product(
        uvs[1].x as i128 - uvs[0].x as i128,
        uvs[1].y as i128 - uvs[0].y as i128,
        uvs[2].x as i128 - uvs[0].x as i128,
        uvs[2].y as i128 - uvs[0].y as i128,
        Ghost(du_max),
        Ghost(du_max),
    );
    if det == 0 {
        return None;
    }
    let (a, c, e) = solve_row(&uvs, det, pts[0].x, pts[1].x, pts[2].x);
    let (b, d, f) = solve_row(&uvs, det, pts[0].y, pts[1].y, pts[2].y);
    Some(TextureMatrix { a, b, c, d, e, f })
}

/// The place of a texture coordinate in the image of a texture of the
/// given width and height, in pixels: across by the first coordinate, down
/// by one minus the second.
pub open spec fn pixel_uv(uv: Point2, width: u32, height: u32) -> (int, int) {
    (uv.x * width, (1_000_000 - uv.y) * height)
}

/// Whether both coordinates of a place are within the solver's range of
/// texture coordinates.
pub open spec fn place_in_range(place: (int, int)) -> bool {
    -UV_MAX <= place.0 <= UV_MAX && -UV_MAX <= place.1 <= UV_MAX
}

/// The place of a texture coordinate in the image, as a point.
pub open spec fn pixel_point(uv: Point2, width: u32, height: u32) -> Point2 {
    Point2 { x: pixel_uv(uv, width, height).0 as i64, y: pixel_uv(uv, width, height).1 as i64 }
}

/// The places of three texture coordinates in the image.
pub open spec fn pixel_points(uvs: [Point2; 3], width: u32, height: u32) -> [Point2; 3] {
    [
        pixel_point(uvs[0], width, height),
        pixel_point(uvs[1], width, height),
        pixel_point(uvs[2], width, height),
    ]
}

/// The affine map from the pixels of a texture to the page for one
/// triangle: the solver's matrix for the places of the three texture
/// coordinates in the image, as the solver gives it. There is none for a
/// texture without width or height, where a place is out of the solver's
/// range, and where the solver finds none.
pub open spec fn svg_texture_matrix(
    uvs: [Point2; 3],
    pts: [Point2; 3],
    width: u32,
    height: u32,
) -> Option<AffineMap> {
    if width == 0 || height == 0 || !place_in_range(pixel_uv(uvs[0], width, height))
        || !place_in_range(pixel_uv(uvs[1], width, height)) || !place_in_range(
        pixel_uv(uvs[2], width, height),
    ) {
        None
    } else {
        texture_matrix(pixel_points(uvs, width, height), pts)
    }
}

/// The matrix of a pattern takes the place of each corner's texture
/// coordinate in the image to that corner's page point, up to the rounding
/// of its entries: the image of the place `(x, y)`, in pixels, differs from
/// the page point, in either direction, by at most `(|x| + |y| + 1) / 2`
/// fixed-point steps. For textures of up to ten thousand pixels across
/// and down that is less than a hundredth of a millimetre.
pub proof fn lemma_svg_texture_matrix_maps_corners(
    uvs: [Point2; 3],
    pts: [Point2; 3],
    width: u32,
    height: u32,
    i: int,
)
    requires
        0 <= i < 3,
        svg_texture_matrix(uvs, pts, width, height) is Some,
    ensures
        ({
            let m = svg_texture_matrix(uvs, pts, width, height).unwrap();
            let place = pixel_point(uvs[i], width, height);
            let bound = magnitude(place.x as int) + magnitude(place.y as int) + 1_000_000;
            &&& place.x == pixel_uv(uvs[i], width, height).0
            &&& place.y == pixel_uv(uvs[i], width, height).1
            &&& -bound <= 2 * (m.image_x(place) - 1_000_000 * pts[i].x) <= bound
            &&& -bound <= 2 * (m.image_y(place) - 1_000_000 * pts[i].y) <= bound
        }),
{
    let places = pixel_points(uvs, width, height);
    assert(places[i] == pixel_point(uvs[i], width, height));
    lemma_texture_matrix_maps_corners(places, pts, i);
}

fn pixel_place(uv: &Point2, width: u32, height: u32) -> (r: Option<Point2>)
    ensures
        match r {
            Some(p) => place_in_range(pixel_uv(*uv, width, height)) && p.x == pixel_uv(
                *uv,
                width,
                height,
            ).0 && p.y == pixel_uv(*uv, width, height).1,
            None => !place_in_range(pixel_uv(*uv, width, height)),
        },
{
    proof {
        lemma_product_bound(
            uv.x as int,
            width as int,
            0x8000_0000_0000_0000,
            0x1_0000_0000,
        );
        lemma_product_bound(
            1_000_000 - uv.y,
            height as int,
            0x1_0000_0000_0000_0000,
            0x1_0000_0000,
        );
    }
    let x: i128 = (uv.x as i128) * (width as i128);
    let y: i128 = (1_000_000 - uv.y as i128) * (height as i128);
    let max: i128 = UV_MAX as i128;
    if -max <= x && x <= max && -max <= y && y <= max {
        Some(Point2 { x: x as i64, y: y as i64 })
    } else {
        None
    }
}

/// Solves for the affine map from the pixels of a texture of the given
/// width and height to the page, for the triangle with the texture
/// coordinates `uvs` and the page points `pts`.
pub fn calc_svg_texture_matrix_triangle(
    uvs: [Point2; 3],
    pts: [Point2; 3],
    tex_width: u32,
    tex_height: u32,
) -> (m: Option<TextureMatrix>)
    ensures
        match m {
            Some(matrix) => svg_texture_matrix(uvs, pts, tex_width, tex_height) == Some(matrix@)
                && matrix.bounded(),
            None => svg_texture_matrix(uvs, pts, tex_width, tex_height) is None,
        },
{
    if tex_width == 0 || tex_height == 0 {
        return None;
    }
    let p0 = match pixel_place(&uvs[0], tex_width, tex_height) {
        Some(p) => p,
        None => {
            return None;
        },
    };
    let p1 = match pixel_place(&uvs[1], tex_width, tex_height) {
        Some(p) => p,
        None => {
            return None;
        },
    };
    let p2 = match pixel_place(&uvs[2], tex_width, tex_height) {
        Some(p) => p,
        None => {
            return None;
        },
    };
    let places = [p0, p1, p2];
    proof {
        assert(places == pixel_points(uvs, tex_width, tex_height));
    }
    calc_texture_matrix(places, pts)
}

/// Solves for the affine map from texture coordinates to the page, for the
/// triangle with the texture coordinates `uvs` and the page points `pts`.
pub fn calc_pdf_texture_matrix_triangle(uvs: [Point2; 3], pts: [Point2; 3]) -> (m: Option<
    TextureMatrix,
>)
    ensures
        match m {
            Some(matrix) => texture_matrix(uvs, pts) == Some(matrix@) && matrix.bounded(),
            None => texture_matrix(uvs, pts) is None,
        },
{
    calc_texture_matrix(uvs, pts)
}

} // verus!
