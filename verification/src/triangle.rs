//! Point-in-triangle coverage on the integer grid.
//!
//! A pixel is covered by a triangle when its three barycentric weights are
//! all non-negative. The weights are ratios of signed areas, so the test is
//! decided exactly from the signs of integer cross products. Points on an
//! edge or a vertex belong to the triangle; a triangle of zero area covers
//! nothing.

use cgmath::Vector3;
use vstd::prelude::*;

use crate::rect::lemma_bounding_encloses;
use crate::rect::max_x;
use crate::rect::max_y;
use crate::rect::min_x;
use crate::rect::min_y;
use crate::rect::Point;

verus! {

/// Twice the signed area of the triangle `(a, b, c)`.
pub open spec fn orient(a: Point, b: Point, c: Point) -> int {
    (b.x - a.x) * (c.y - a.y) - (b.y - a.y) * (c.x - a.x)
}

/// True when the ratio `w / d` is defined and not negative.
pub open spec fn weight_non_negative(w: int, d: int) -> bool {
    (d > 0 && w >= 0) || (d < 0 && w <= 0)
}

/// The coverage rule: the triangle `(a, b, c)` has non-zero area and the
/// barycentric weights of `p` with respect to `a`, `b` and `c`, which are
/// `orient(b, c, p)`, `orient(c, a, p)` and `orient(a, b, p)` over
/// `orient(a, b, c)`, are all non-negative.
pub open spec fn inside_triangle(p: Point, a: Point, b: Point, c: Point) -> bool {
    let d = orient(a, b, c);
    &&& d != 0
    &&& weight_non_negative(orient(b, c, p), d)
    &&& weight_non_negative(orient(c, a, p), d)
    &&& weight_non_negative(orient(a, b, p), d)
}

/// The pixels that filling the triangle `(a, b, c)` draws: every pixel that
/// the coverage rule accepts, the ones on the edges and the three vertices
/// among them.
pub open spec fn triangle_covers(a: Point, b: Point, c: Point, x: int, y: int) -> bool {
    &&& i32::MIN <= x <= i32::MAX
    &&& i32::MIN <= y <= i32::MAX
    &&& inside_triangle(Point { x: x as i32, y: y as i32 }, a, b, c)
}

/// True when `p` is the weighted mean of `a`, `b` and `c` with the integer
/// weights `wa`, `wb` and `wc`, whose sum is positive.
pub open spec fn is_weighted_mean(
    p: Point,
    a: Point,
    b: Point,
    c: Point,
    wa: int,
    wb: int,
    wc: int,
) -> bool {
    let d = wa + wb + wc;
    &&& d > 0
    &&& d * p.x == wa * a.x + wb * b.x + wc * c.x
    &&& d * p.y == wa * a.y + wb * b.y + wc * c.y
}

/// The closed triangle: `p` is a mean of the vertices with non-negative
/// weights. This is the interior together with the edges and vertices.
pub open spec fn in_closed_triangle(p: Point, a: Point, b: Point, c: Point) -> bool {
    exists|wa: int, wb: int, wc: int|
        wa >= 0 && wb >= 0 && wc >= 0 && #[trigger] is_weighted_mean(p, a, b, c, wa, wb, wc)
}

/// The open triangle: `p` is a mean of the vertices with positive weights.
pub open spec fn strictly_inside_triangle(p: Point, a: Point, b: Point, c: Point) -> bool {
    exists|wa: int, wb: int, wc: int|
        wa > 0 && wb > 0 && wc > 0 && #[trigger] is_weighted_mean(p, a, b, c, wa, wb, wc)
}

/// The cross product of two integer vectors, computed by
/// `cgmath::Vector3::cross`. The contract states the three components as
/// that function computes them; the bounds keep every product and difference
/// inside `i128`.
#[verifier::external_body]
pub(crate) fn cross(a: (i128, i128, i128), b: (i128, i128, i128)) -> (r: (i128, i128, i128))
    requires
        -0x1_0000_0000 <= a.0 <= 0x1_0000_0000,
        -0x1_0000_0000 <= a.1 <= 0x1_0000_0000,
        -0x1_0000_0000 <= a.2 <= 0x1_0000_0000,
        -0x1_0000_0000 <= b.0 <= 0x1_0000_0000,
        -0x1_0000_0000 <= b.1 <= 0x1_0000_0000,
        -0x1_0000_0000 <= b.2 <= 0x1_0000_0000,
    ensures
        r.0 == a.1 * b.2 - a.2 * b.1,
        r.1 == a.2 * b.0 - a.0 * b.2,
        r.2 == a.0 * b.1 - a.1 * b.0,
{
    let v = Vector3::new(a.0, a.1, a.2).cross(Vector3::new(b.0, b.1, b.2));
    (v.x, v.y, v.z)
}

/// The product of two numbers of magnitude at most `m` has magnitude at
/// most `m * m`.
pub proof fn lemma_product_bound(x: int, y: int, m: int)
    requires
        -m <= x <= m,
        -m <= y <= m,
    ensures
        -(m * m) <= x * y <= m * m,
{
    assert(-(m * m) <= x * y <= m * m) by (nonlinear_arith)
        requires
            -m <= x <= m,
            -m <= y <= m,
    ;
}

/// Expands the product of two differences.
proof fn lemma_expand(a: int, b: int, c: int, d: int)
    ensures
        (a - b) * (c - d) == a * c - a * d - b * c + b * d,
{
    assert((a - b) * (c - d) == a * c - a * d - b * c + b * d) by (nonlinear_arith);
}

/// Twice the signed area, written out in monomials.
proof fn lemma_orient_expanded(a: Point, b: Point, c: Point)
    ensures
        orient(a, b, c) == b.x * c.y - b.x * a.y - a.x * c.y - b.y * c.x + b.y * a.x + a.y * c.x,
{
    lemma_expand(b.x as int, a.x as int, c.y as int, a.y as int);
    lemma_expand(b.y as int, a.y as int, c.x as int, a.x as int);
}

/// The three sub-areas that `p` cuts out of a triangle add up to its area.
pub proof fn lemma_orient_sum(p: Point, a: Point, b: Point, c: Point)
    ensures
        orient(b, c, p) + orient(c, a, p) + orient(a, b, p) == orient(a, b, c),
{
    lemma_orient_expanded(b, c, p);
    lemma_orient_expanded(c, a, p);
    lemma_orient_expanded(a, b, p);
    lemma_orient_expanded(a, b, c);
}

/// Cramer's rule for two vectors `u` and `v` and a third vector `q`.
proof fn lemma_cramer(ux: int, uy: int, vx: int, vy: int, qx: int, qy: int)
    ensures
        (vy * qx - vx * qy) * ux + (ux * qy - uy * qx) * vx == (ux * vy - uy * vx) * qx,
        (vy * qx - vx * qy) * uy + (ux * qy - uy * qx) * vy == (ux * vy - uy * vx) * qy,
{
    assert((vy * qx - vx * qy) * ux == vy * qx * ux - vx * qy * ux) by (nonlinear_arith);
    assert((ux * qy - uy * qx) * vx == ux * qy * vx - uy * qx * vx) by (nonlinear_arith);
    assert((ux * vy - uy * vx) * qx == ux * vy * qx - uy * vx * qx) by (nonlinear_arith);
    assert(vx * qy * ux == ux * qy * vx) by (nonlinear_arith);
    assert(vy * qx * ux == ux * vy * qx) by (nonlinear_arith);
    assert(uy * qx * vx == uy * vx * qx) by (nonlinear_arith);
    assert((vy * qx - vx * qy) * uy == vy * qx * uy - vx * qy * uy) by (nonlinear_arith);
    assert((ux * qy - uy * qx) * vy == ux * qy * vy - uy * qx * vy) by (nonlinear_arith);
    assert((ux * vy - uy * vx) * qy == ux * vy * qy - uy * vx * qy) by (nonlinear_arith);
    assert(vy * qx * uy == uy * qx * vy) by (nonlinear_arith);
    assert(vx * qy * uy == uy * vx * qy) by (nonlinear_arith);
    assert(ux * qy * vy == ux * vy * qy) by (nonlinear_arith);
}

/// Shifts a weighted sum of three coordinates to the first of them.
proof fn lemma_shift_weights(d: int, wb: int, wc: int, a: int, u: int, v: int, q: int)
    requires
        wb * u + wc * v == d * q,
    ensures
        d * (a + q) == (d - wb - wc) * a + wb * (a + u) + wc * (a + v),
{
    assert(d * (a + q) == d * a + d * q) by (nonlinear_arith);
    assert((d - wb - wc) * a == d * a - wb * a - wc * a) by (nonlinear_arith);
    assert(wb * (a + u) == wb * a + wb * u) by (nonlinear_arith);
    assert(wc * (a + v) == wc * a + wc * v) by (nonlinear_arith);
}

/// The signed area of `(c, a, p)`, written with every point relative to `a`.
pub proof fn lemma_orient_relative(p: Point, a: Point, c: Point)
    ensures
        orient(c, a, p) == (c.y - a.y) * (p.x - a.x) - (c.x - a.x) * (p.y - a.y),
{
    lemma_expand(a.x as int, c.x as int, p.y as int, c.y as int);
    lemma_expand(a.y as int, c.y as int, p.x as int, c.x as int);
    lemma_expand(c.y as int, a.y as int, p.x as int, a.x as int);
    lemma_expand(c.x as int, a.x as int, p.y as int, a.y as int);
}

/// The components of the cross product of `(c.x - a.x, b.x - a.x, a.x - p.x)`
/// and `(c.y - a.y, b.y - a.y, a.y - p.y)` are signed areas with the sign
/// turned: those of `(a, b, p)`, `(c, a, p)` and `(a, b, c)`.
pub proof fn lemma_cross_is_orient(p: Point, a: Point, b: Point, c: Point)
    ensures
        (b.x - a.x) * (a.y - p.y) - (a.x - p.x) * (b.y - a.y) == -orient(a, b, p),
        (a.x - p.x) * (c.y - a.y) - (c.x - a.x) * (a.y - p.y) == -orient(c, a, p),
        (c.x - a.x) * (b.y - a.y) - (b.x - a.x) * (c.y - a.y) == -orient(a, b, c),
{
    lemma_orient_relative(p, a, c);
    let (ux, uy) = (b.x - a.x, b.y - a.y);
    let (vx, vy) = (c.x - a.x, c.y - a.y);
    let (qx, qy) = (p.x - a.x, p.y - a.y);
    assert(ux * (-qy) - (-qx) * uy == -(ux * qy - uy * qx)) by (nonlinear_arith);
    assert((-qx) * vy - vx * (-qy) == -(vy * qx - vx * qy)) by (nonlinear_arith);
    assert(vx * uy - ux * vy == -(ux * vy - uy * vx)) by (nonlinear_arith);
    assert(a.y - p.y == -qy);
    assert(a.x - p.x == -qx);
}

/// Weighting the vertices by the sub-areas opposite to them gives `p`
/// weighted by the whole area.
pub proof fn lemma_area_weights(p: Point, a: Point, b: Point, c: Point)
    ensures
        orient(a, b, c) * p.x == orient(b, c, p) * a.x + orient(c, a, p) * b.x + orient(a, b, p)
            * c.x,
        orient(a, b, c) * p.y == orient(b, c, p) * a.y + orient(c, a, p) * b.y + orient(a, b, p)
            * c.y,
{
    let (ux, uy) = (b.x - a.x, b.y - a.y);
    let (vx, vy) = (c.x - a.x, c.y - a.y);
    let (qx, qy) = (p.x - a.x, p.y - a.y);
    let d = orient(a, b, c);
    let wb = orient(c, a, p);
    let wc = orient(a, b, p);
    lemma_orient_sum(p, a, b, c);
    lemma_orient_relative(p, a, c);
    lemma_cramer(ux, uy, vx, vy, qx, qy);
    assert(wb * ux + wc * vx == d * qx);
    assert(wb * uy + wc * vy == d * qy);
    lemma_shift_weights(d, wb, wc, a.x as int, ux, vx, qx);
    lemma_shift_weights(d, wb, wc, a.y as int, uy, vy, qy);
}

/// A weighted mean stays a weighted mean when every coordinate is taken
/// relative to `x`.
proof fn lemma_mean_relative(
    d: int,
    wa: int,
    wb: int,
    wc: int,
    p: int,
    a: int,
    b: int,
    c: int,
    x: int,
)
    requires
        d == wa + wb + wc,
        d * p == wa * a + wb * b + wc * c,
    ensures
        d * (p - x) == wa * (a - x) + wb * (b - x) + wc * (c - x),
{
    assert(d * (p - x) == d * p - d * x) by (nonlinear_arith);
    assert(d * x == wa * x + wb * x + wc * x) by (nonlinear_arith)
        requires
            d == wa + wb + wc,
    ;
    assert(wa * (a - x) == wa * a - wa * x) by (nonlinear_arith);
    assert(wb * (b - x) == wb * b - wb * x) by (nonlinear_arith);
    assert(wc * (c - x) == wc * c - wc * x) by (nonlinear_arith);
}

/// Scaling a sum of three products scales one factor of each.
proof fn lemma_scale_sum(m: int, wa: int, a: int, wb: int, b: int, wc: int, c: int)
    ensures
        m * (wa * a + wb * b + wc * c) == wa * (m * a) + wb * (m * b) + wc * (m * c),
{
    let (x, y, z) = (wa * a, wb * b, wc * c);
    assert(m * (x + y + z) == m * x + m * y + m * z) by (nonlinear_arith);
    assert(m * (wa * a) == wa * (m * a)) by (nonlinear_arith);
    assert(m * (wb * b) == wb * (m * b)) by (nonlinear_arith);
    assert(m * (wc * c) == wc * (m * c)) by (nonlinear_arith);
}

/// A linear form of a weighted mean is the weighted mean of the linear form.
proof fn lemma_mean_linear(
    d: int,
    wa: int,
    wb: int,
    wc: int,
    m: int,
    n: int,
    py: int,
    ay: int,
    by: int,
    cy: int,
    px: int,
    ax: int,
    bx: int,
    cx: int,
)
    requires
        d * py == wa * ay + wb * by + wc * cy,
        d * px == wa * ax + wb * bx + wc * cx,
    ensures
        (m * py - n * px) * d == wa * (m * ay - n * ax) + wb * (m * by - n * bx) + wc * (m * cy
            - n * cx),
{
    lemma_scale_sum(m, wa, ay, wb, by, wc, cy);
    lemma_scale_sum(n, wa, ax, wb, bx, wc, cx);
    assert((m * py - n * px) * d == m * (d * py) - n * (d * px)) by (nonlinear_arith);
    assert(wa * (m * ay - n * ax) == wa * (m * ay) - wa * (n * ax)) by (nonlinear_arith);
    assert(wb * (m * by - n * bx) == wb * (m * by) - wb * (n * bx)) by (nonlinear_arith);
    assert(wc * (m * cy - n * cx) == wc * (m * cy) - wc * (n * cx)) by (nonlinear_arith);
}

/// The signed area spanned with a weighted mean of `a`, `b` and `c` is the
/// weighted mean of the areas spanned with `a`, `b` and `c`.
pub proof fn lemma_orient_of_mean(
    x: Point,
    y: Point,
    p: Point,
    a: Point,
    b: Point,
    c: Point,
    wa: int,
    wb: int,
    wc: int,
)
    requires
        is_weighted_mean(p, a, b, c, wa, wb, wc),
    ensures
        orient(x, y, p) * (wa + wb + wc) == wa * orient(x, y, a) + wb * orient(x, y, b) + wc
            * orient(x, y, c),
{
    let d = wa + wb + wc;
    lemma_mean_relative(d, wa, wb, wc, p.x as int, a.x as int, b.x as int, c.x as int, x.x as int);
    lemma_mean_relative(d, wa, wb, wc, p.y as int, a.y as int, b.y as int, c.y as int, x.y as int);
    lemma_mean_linear(
        d,
        wa,
        wb,
        wc,
        y.x - x.x,
        y.y - x.y,
        p.y - x.y,
        a.y - x.y,
        b.y - x.y,
        c.y - x.y,
        p.x - x.x,
        a.x - x.x,
        b.x - x.x,
        c.x - x.x,
    );
}

/// If `w * d` is a non-negative multiple of `area` for a positive `d`, then
/// `w / area` is not negative.
proof fn lemma_weight_sign(w: int, d: int, k: int, area: int)
    requires
        w * d == k * area,
        d > 0,
        k >= 0,
        area != 0,
    ensures
        weight_non_negative(w, area),
        k > 0 ==> w != 0,
{
    if area > 0 {
        assert(w >= 0) by (nonlinear_arith)
            requires
                w * d == k * area,
                d > 0,
                k >= 0,
                area > 0,
        ;
    } else {
        assert(w <= 0) by (nonlinear_arith)
            requires
                w * d == k * area,
                d > 0,
                k >= 0,
                area < 0,
        ;
    }
    if k > 0 {
        assert(w != 0) by (nonlinear_arith)
            requires
                w * d == k * area,
                k > 0,
                area != 0,
        ;
    }
}

/// A weight times nothing adds nothing to a weighted sum.
proof fn lemma_drop_zero_terms(w: int, x: int, u: int, y: int, v: int, z: int)
    requires
        y == 0,
        z == 0,
    ensures
        w * x + u * y + v * z == w * x,
        u * y + w * x + v * z == w * x,
        u * y + v * z + w * x == w * x,
{
    assert(u * y == 0) by (nonlinear_arith)
        requires
            y == 0,
    ;
    assert(v * z == 0) by (nonlinear_arith)
        requires
            z == 0,
    ;
}

/// Every point of the closed triangle passes the coverage rule, provided the
/// triangle has non-zero area.
pub proof fn lemma_closed_is_inside(p: Point, a: Point, b: Point, c: Point)
    requires
        orient(a, b, c) != 0,
        in_closed_triangle(p, a, b, c),
    ensures
        inside_triangle(p, a, b, c),
{
    let (wa, wb, wc) = choose|wa: int, wb: int, wc: int|
        wa >= 0 && wb >= 0 && wc >= 0 && #[trigger] is_weighted_mean(p, a, b, c, wa, wb, wc);
    let d = wa + wb + wc;
    let area = orient(a, b, c);
    lemma_orient_of_mean(b, c, p, a, b, c, wa, wb, wc);
    lemma_orient_of_mean(c, a, p, a, b, c, wa, wb, wc);
    lemma_orient_of_mean(a, b, p, a, b, c, wa, wb, wc);
    lemma_orient_cyclic(a, b, c);
    assert(orient(b, c, b) == 0 && orient(b, c, c) == 0) by {
        lemma_orient_flat(b, c);
    }
    assert(orient(c, a, c) == 0 && orient(c, a, a) == 0) by {
        lemma_orient_flat(c, a);
    }
    assert(orient(a, b, a) == 0 && orient(a, b, b) == 0) by {
        lemma_orient_flat(a, b);
    }
    lemma_drop_zero_terms(wa, area, wb, 0, wc, 0);
    lemma_drop_zero_terms(wb, area, wa, 0, wc, 0);
    lemma_drop_zero_terms(wc, area, wa, 0, wb, 0);
    lemma_weight_sign(orient(b, c, p), d, wa, area);
    lemma_weight_sign(orient(c, a, p), d, wb, area);
    lemma_weight_sign(orient(a, b, p), d, wc, area);
}

/// The signed area does not change when the vertices are rotated.
pub proof fn lemma_orient_cyclic(a: Point, b: Point, c: Point)
    ensures
        orient(b, c, a) == orient(a, b, c),
        orient(c, a, b) == orient(a, b, c),
{
    lemma_orient_expanded(a, b, c);
    lemma_orient_expanded(b, c, a);
    lemma_orient_expanded(c, a, b);
}

/// A triangle with a repeated vertex has no area.
pub proof fn lemma_orient_flat(a: Point, b: Point)
    ensures
        orient(a, b, a) == 0,
        orient(a, b, b) == 0,
{
    assert((b.x - a.x) * (a.y - a.y) - (b.y - a.y) * (a.x - a.x) == 0) by (nonlinear_arith);
    assert((b.x - a.x) * (b.y - a.y) - (b.y - a.y) * (b.x - a.x) == 0) by (nonlinear_arith);
}

/// Every point that passes the coverage rule lies in the closed triangle.
pub proof fn lemma_inside_is_closed(p: Point, a: Point, b: Point, c: Point)
    requires
        inside_triangle(p, a, b, c),
    ensures
        in_closed_triangle(p, a, b, c),
{
    let area = orient(a, b, c);
    lemma_orient_sum(p, a, b, c);
    lemma_area_weights(p, a, b, c);
    let (ta, tb, tc) = (orient(b, c, p), orient(c, a, p), orient(a, b, p));
    if area > 0 {
        assert(is_weighted_mean(p, a, b, c, ta, tb, tc));
    } else {
        lemma_negate_weights(area, ta, tb, tc, p.x as int, a.x as int, b.x as int, c.x as int);
        lemma_negate_weights(area, ta, tb, tc, p.y as int, a.y as int, b.y as int, c.y as int);
        assert(is_weighted_mean(p, a, b, c, -ta, -tb, -tc));
    }
}

/// Negating every weight of a weighted sum negates the sum.
proof fn lemma_negate_weights(d: int, wa: int, wb: int, wc: int, p: int, a: int, b: int, c: int)
    requires
        d * p == wa * a + wb * b + wc * c,
        wa + wb + wc == d,
    ensures
        ((-wa) + (-wb) + (-wc)) * p == (-wa) * a + (-wb) * b + (-wc) * c,
{
    assert((-wa) * a == -(wa * a)) by (nonlinear_arith);
    assert((-wb) * b == -(wb * b)) by (nonlinear_arith);
    assert((-wc) * c == -(wc * c)) by (nonlinear_arith);
    assert((-d) * p == -(d * p)) by (nonlinear_arith);
}

/// The coverage rule accepts exactly the points of the closed triangle: the
/// interior, the edges and the vertices, and nothing outside. A triangle of
/// zero area covers no point.
pub proof fn lemma_inside_iff_closed(p: Point, a: Point, b: Point, c: Point)
    ensures
        orient(a, b, c) != 0 ==> (inside_triangle(p, a, b, c) <==> in_closed_triangle(p, a, b, c)),
        orient(a, b, c) == 0 ==> !inside_triangle(p, a, b, c),
{
    if orient(a, b, c) != 0 {
        if in_closed_triangle(p, a, b, c) {
            lemma_closed_is_inside(p, a, b, c);
        }
        if inside_triangle(p, a, b, c) {
            lemma_inside_is_closed(p, a, b, c);
        }
    }
}

/// A point strictly inside a triangle of non-zero area is covered, and a
/// point strictly outside it is not.
pub proof fn lemma_interior_and_exterior(p: Point, a: Point, b: Point, c: Point)
    requires
        orient(a, b, c) != 0,
    ensures
        strictly_inside_triangle(p, a, b, c) ==> inside_triangle(p, a, b, c),
        !in_closed_triangle(p, a, b, c) ==> !inside_triangle(p, a, b, c),
{
    lemma_inside_iff_closed(p, a, b, c);
    if strictly_inside_triangle(p, a, b, c) {
        let (wa, wb, wc) = choose|wa: int, wb: int, wc: int|
            wa > 0 && wb > 0 && wc > 0 && #[trigger] is_weighted_mean(p, a, b, c, wa, wb, wc);
        assert(wa >= 0 && wb >= 0 && wc >= 0 && is_weighted_mean(p, a, b, c, wa, wb, wc));
    }
}

/// A weighted mean of three numbers with non-negative weights lies between
/// any bounds that hold for the three.
proof fn lemma_mean_between(
    wa: int,
    wb: int,
    wc: int,
    p: int,
    a: int,
    b: int,
    c: int,
    lo: int,
    hi: int,
)
    requires
        wa >= 0,
        wb >= 0,
        wc >= 0,
        wa + wb + wc > 0,
        (wa + wb + wc) * p == wa * a + wb * b + wc * c,
        lo <= a <= hi,
        lo <= b <= hi,
        lo <= c <= hi,
    ensures
        lo <= p <= hi,
{
    let d = wa + wb + wc;
    assert(wa * lo <= wa * a <= wa * hi) by (nonlinear_arith)
        requires
            wa >= 0,
            lo <= a <= hi,
    ;
    assert(wb * lo <= wb * b <= wb * hi) by (nonlinear_arith)
        requires
            wb >= 0,
            lo <= b <= hi,
    ;
    assert(wc * lo <= wc * c <= wc * hi) by (nonlinear_arith)
        requires
            wc >= 0,
            lo <= c <= hi,
    ;
    assert(d * lo == wa * lo + wb * lo + wc * lo) by (nonlinear_arith)
        requires
            d == wa + wb + wc,
    ;
    assert(d * hi == wa * hi + wb * hi + wc * hi) by (nonlinear_arith)
        requires
            d == wa + wb + wc,
    ;
    assert(lo <= p <= hi) by (nonlinear_arith)
        requires
            d > 0,
            d * lo <= d * p <= d * hi,
    ;
}

/// Every covered point lies in the bounding box of the triangle, so a scan
/// of the bounding box finds them all.
pub proof fn lemma_inside_within_bounds(p: Point, a: Point, b: Point, c: Point)
    requires
        inside_triangle(p, a, b, c),
    ensures
        min_x(seq![a, b, c]) <= p.x <= max_x(seq![a, b, c]),
        min_y(seq![a, b, c]) <= p.y <= max_y(seq![a, b, c]),
{
    let pts = seq![a, b, c];
    lemma_inside_is_closed(p, a, b, c);
    let (wa, wb, wc) = choose|wa: int, wb: int, wc: int|
        wa >= 0 && wb >= 0 && wc >= 0 && #[trigger] is_weighted_mean(p, a, b, c, wa, wb, wc);
    lemma_bounding_encloses(pts, 0);
    lemma_bounding_encloses(pts, 1);
    lemma_bounding_encloses(pts, 2);
    lemma_mean_between(
        wa,
        wb,
        wc,
        p.x as int,
        a.x as int,
        b.x as int,
        c.x as int,
        min_x(pts),
        max_x(pts),
    );
    lemma_mean_between(
        wa,
        wb,
        wc,
        p.y as int,
        a.y as int,
        b.y as int,
        c.y as int,
        min_y(pts),
        max_y(pts),
    );
}

/// Filling a triangle of non-zero area draws exactly the pixels of the
/// closed triangle: its interior, its edges and its vertices.
pub proof fn lemma_fill_is_closed_triangle(p: Point, a: Point, b: Point, c: Point)
    requires
        orient(a, b, c) != 0,
    ensures
        triangle_covers(a, b, c, p.x as int, p.y as int) <==> in_closed_triangle(p, a, b, c),
        strictly_inside_triangle(p, a, b, c) ==> triangle_covers(a, b, c, p.x as int, p.y as int),
{
    lemma_inside_iff_closed(p, a, b, c);
    lemma_interior_and_exterior(p, a, b, c);
}

} // verus!
