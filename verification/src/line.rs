//! The pixels of a rasterized line segment.
//!
//! A line is stepped along its major axis, the axis on which its endpoints
//! lie farther apart, one pixel per step, from the endpoint with the smaller
//! major coordinate to the other. On the minor axis each pixel is the one
//! nearest to the ideal line; when the line passes exactly between two
//! pixels, the one nearer to the start is taken.

use vstd::arithmetic::div_mod::lemma_fundamental_div_mod;
use vstd::arithmetic::div_mod::lemma_fundamental_div_mod_converse;
use vstd::arithmetic::div_mod::lemma_mod_bound;
use vstd::prelude::*;

use crate::rect::Point;

verus! {

/// The magnitude of a number.
pub open spec fn abs(v: int) -> int {
    if v < 0 {
        -v
    } else {
        v
    }
}

/// A line is steep when it spans more rows than columns; its major axis is
/// then `y`.
pub open spec fn steep(from: Point, to: Point) -> bool {
    abs(from.x - to.x) < abs(from.y - to.y)
}

/// The coordinate of `p` on the major axis.
pub open spec fn major(steep: bool, p: Point) -> int {
    if steep {
        p.y as int
    } else {
        p.x as int
    }
}

/// The coordinate of `p` on the minor axis.
pub open spec fn minor(steep: bool, p: Point) -> int {
    if steep {
        p.x as int
    } else {
        p.y as int
    }
}

/// The endpoint at which stepping starts.
pub open spec fn line_start(from: Point, to: Point) -> Point {
    if major(steep(from, to), from) > major(steep(from, to), to) {
        to
    } else {
        from
    }
}

/// The endpoint at which stepping ends.
pub open spec fn line_end(from: Point, to: Point) -> Point {
    if major(steep(from, to), from) > major(steep(from, to), to) {
        from
    } else {
        to
    }
}

/// The number of steps along the major axis; the line has one pixel more.
pub open spec fn line_run(from: Point, to: Point) -> int {
    major(steep(from, to), line_end(from, to)) - major(steep(from, to), line_start(from, to))
}

/// The signed distance covered on the minor axis.
pub open spec fn line_rise(from: Point, to: Point) -> int {
    minor(steep(from, to), line_end(from, to)) - minor(steep(from, to), line_start(from, to))
}

/// How far the line has moved on the minor axis after `k` steps of a run of
/// `run` steps that rises by `rise` in all: `rise * k / run` rounded to the
/// nearest integer, a half rounded toward zero.
pub open spec fn line_offset(run: int, rise: int, k: int) -> int {
    if run == 0 {
        0
    } else if rise < 0 {
        -((2 * abs(rise) * k + run - 1) / (2 * run))
    } else {
        (2 * abs(rise) * k + run - 1) / (2 * run)
    }
}

/// The pixel drawn at step `k` of the line from `from` to `to`.
pub open spec fn line_pixel(from: Point, to: Point, k: int) -> (int, int) {
    let s = steep(from, to);
    let u = major(s, line_start(from, to)) + k;
    let v = minor(s, line_start(from, to)) + line_offset(
        line_run(from, to),
        line_rise(from, to),
        k,
    );
    if s {
        (v, u)
    } else {
        (u, v)
    }
}

/// True when `(x, y)` is one of the first `n` pixels of the line.
pub open spec fn on_line_prefix(from: Point, to: Point, n: int, x: int, y: int) -> bool {
    exists|k: int| 0 <= k < n && #[trigger] line_pixel(from, to, k) == (x, y)
}

/// True when `(x, y)` is a pixel of the line from `from` to `to`.
pub open spec fn on_line(from: Point, to: Point, x: int, y: int) -> bool {
    on_line_prefix(from, to, line_run(from, to) + 1, x, y)
}

/// The run of a line is not negative and not shorter than its rise.
pub proof fn lemma_run_bounds_rise(from: Point, to: Point)
    ensures
        0 <= line_run(from, to),
        abs(line_rise(from, to)) <= line_run(from, to),
{
}

/// The offset after `k` steps is the only `n` for which the doubled error
/// `2 * |rise| * k - 2 * run * n` lies in the half-open range from `-run`
/// (excluded) to `run` (included): the pixel row nearest to the ideal line.
pub proof fn lemma_offset_is_nearest(run: int, rise: int, k: int, n: int)
    requires
        run > 0,
        -run < 2 * abs(rise) * k - 2 * run * n <= run,
    ensures
        line_offset(run, rise, k) == (if rise < 0 {
            -n
        } else {
            n
        }),
{
    let x = 2 * abs(rise) * k + run - 1;
    let r = x - n * (2 * run);
    assert(n * (2 * run) == 2 * run * n) by (nonlinear_arith);
    lemma_fundamental_div_mod_converse(x, 2 * run, n, r);
}

/// One more step adds one pixel to a prefix of the line.
pub proof fn lemma_prefix_step(from: Point, to: Point, n: int, x: int, y: int)
    requires
        0 <= n,
    ensures
        on_line_prefix(from, to, n + 1, x, y) <==> (on_line_prefix(from, to, n, x, y) || line_pixel(
            from,
            to,
            n,
        ) == (x, y)),
{
    if on_line_prefix(from, to, n + 1, x, y) {
        let k = choose|k: int| 0 <= k < n + 1 && #[trigger] line_pixel(from, to, k) == (x, y);
        if k < n {
            assert(on_line_prefix(from, to, n, x, y));
        }
    }
    if on_line_prefix(from, to, n, x, y) {
        let k = choose|k: int| 0 <= k < n && #[trigger] line_pixel(from, to, k) == (x, y);
        assert(0 <= k < n + 1 && line_pixel(from, to, k) == (x, y));
    }
    if line_pixel(from, to, n) == (x, y) {
        assert(0 <= n < n + 1 && line_pixel(from, to, n) == (x, y));
    }
}

/// A line starts on one of its endpoints and ends on the other.
pub proof fn lemma_line_ends(from: Point, to: Point)
    ensures
        line_pixel(from, to, 0) == (line_start(from, to).x as int, line_start(from, to).y as int),
        line_pixel(from, to, line_run(from, to)) == (
            line_end(from, to).x as int,
            line_end(from, to).y as int,
        ),
        on_line(from, to, from.x as int, from.y as int),
        on_line(from, to, to.x as int, to.y as int),
{
    let run = line_run(from, to);
    let rise = line_rise(from, to);
    if run > 0 {
        lemma_offset_is_nearest(run, rise, 0, 0);
        assert(2 * abs(rise) * run - 2 * run * abs(rise) == 0) by (nonlinear_arith);
        lemma_offset_is_nearest(run, rise, run, abs(rise));
    }
    assert(0 <= 0 < run + 1 && line_pixel(from, to, 0) == line_pixel(from, to, 0));
    assert(0 <= run < run + 1 && line_pixel(from, to, run) == line_pixel(from, to, run));
}

/// The doubled error of the offset after `k` steps lies in the half-open
/// range from `-run` (excluded) to `run` (included).
pub proof fn lemma_offset_error(run: int, rise: int, k: int)
    requires
        run > 0,
    ensures
        ({
            let n = (2 * abs(rise) * k + run - 1) / (2 * run);
            -run < 2 * abs(rise) * k - 2 * run * n <= run
        }),
{
    let x = 2 * abs(rise) * k + run - 1;
    lemma_fundamental_div_mod(x, 2 * run);
    lemma_mod_bound(x, 2 * run);
}

/// From one step to the next a line stays in its row or moves to the next
/// one in the direction of its rise, and it never turns back.
pub proof fn lemma_line_connected(run: int, rise: int, k: int)
    requires
        0 <= k < run,
        abs(rise) <= run,
    ensures
        rise >= 0 ==> 0 <= line_offset(run, rise, k + 1) - line_offset(run, rise, k) <= 1,
        rise <= 0 ==> -1 <= line_offset(run, rise, k + 1) - line_offset(run, rise, k) <= 0,
{
    let m = abs(rise);
    let n = (2 * m * k + run - 1) / (2 * run);
    lemma_offset_error(run, rise, k);
    lemma_offset_is_nearest(run, rise, k, n);
    assert(2 * m * (k + 1) == 2 * m * k + 2 * m) by (nonlinear_arith);
    assert(2 * run * (n + 1) == 2 * run * n + 2 * run) by (nonlinear_arith);
    if 2 * m * k - 2 * run * n + 2 * m > run {
        lemma_offset_is_nearest(run, rise, k + 1, n + 1);
    } else {
        lemma_offset_is_nearest(run, rise, k + 1, n);
    }
}

/// A line is the same from either end.
pub proof fn lemma_line_symmetric(from: Point, to: Point, x: int, y: int)
    ensures
        line_run(from, to) == line_run(to, from),
        forall|k: int| line_pixel(from, to, k) == line_pixel(to, from, k),
        on_line(from, to, x, y) == on_line(to, from, x, y),
{
    assert forall|k: int| line_pixel(from, to, k) == line_pixel(to, from, k) by {}
    let n = line_run(from, to) + 1;
    if on_line(from, to, x, y) {
        let k = choose|k: int| 0 <= k < n && #[trigger] line_pixel(from, to, k) == (x, y);
        assert(0 <= k < n && line_pixel(to, from, k) == (x, y));
    }
    if on_line(to, from, x, y) {
        let k = choose|k: int| 0 <= k < n && #[trigger] line_pixel(to, from, k) == (x, y);
        assert(0 <= k < n && line_pixel(from, to, k) == (x, y));
    }
}

} // verus!
