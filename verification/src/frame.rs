//! The mathematical model of a frame: a color grid and a depth grid of the
//! same size, and what drawing with a depth test does to them.
//!
//! Depth is an integer; a smaller depth is nearer to the viewer. A pixel is
//! written unless the depth already stored for it is smaller than the depth
//! being drawn, and a write replaces both the stored depth and the color.

use vstd::arithmetic::div_mod::lemma_fundamental_div_mod;
use vstd::arithmetic::div_mod::lemma_fundamental_div_mod_converse;
use vstd::prelude::*;

use crate::bitmap::lemma_offset_in_range;
use crate::bitmap::lemma_offset_injective;
use crate::bitmap::pixel_format::Rgb24;
use crate::rect::Point;

verus! {

/// The depth of a pixel on which nothing has been drawn yet.
pub const FARTHEST: i64 = 0x7fff_ffff_ffff_ffff;

/// A frame as a mathematical value. Both grids are in row-major order.
pub struct Frame {
    pub width: int,
    pub height: int,
    pub color: Seq<Rgb24>,
    pub depth: Seq<i64>,
}

impl Frame {
    /// Both grids hold `width * height` elements.
    pub open spec fn well_formed(self) -> bool {
        &&& 0 <= self.width
        &&& 0 <= self.height
        &&& self.color.len() == self.width * self.height
        &&& self.depth.len() == self.width * self.height
    }

    /// True when `(x, y)` is a pixel of the frame.
    pub open spec fn in_bounds(self, x: int, y: int) -> bool {
        0 <= x < self.width && 0 <= y < self.height
    }

    /// The color of the pixel `(x, y)`.
    pub open spec fn color_at(self, x: int, y: int) -> Rgb24 {
        self.color[y * self.width + x]
    }

    /// The depth stored for the pixel `(x, y)`.
    pub open spec fn depth_at(self, x: int, y: int) -> i64 {
        self.depth[y * self.width + x]
    }

    /// The depth test: a pixel of the frame passes unless something nearer
    /// than `z` is already stored for it.
    pub open spec fn passes(self, x: int, y: int, z: i64) -> bool {
        self.in_bounds(x, y) && !(self.depth_at(x, y) < z)
    }

    /// The frame after one depth-tested draw of the pixel `p`.
    pub open spec fn plot(self, p: Point, z: i64, c: Rgb24) -> Frame {
        if self.passes(p.x as int, p.y as int, z) {
            Frame {
                width: self.width,
                height: self.height,
                color: self.color.update(p.y * self.width + p.x, c),
                depth: self.depth.update(p.y * self.width + p.x, z),
            }
        } else {
            self
        }
    }

    /// True when the element at row-major offset `i` belongs to a covered
    /// pixel that passes the depth test.
    pub open spec fn hit(self, covered: spec_fn(int, int) -> bool, i: int, z: i64) -> bool {
        covered(i % self.width, i / self.width) && !(self.depth[i] < z)
    }

    /// The frame after a depth-tested draw of every pixel that `covered`
    /// selects, all with the same depth and color.
    pub open spec fn paint(self, covered: spec_fn(int, int) -> bool, z: i64, c: Rgb24) -> Frame {
        Frame {
            width: self.width,
            height: self.height,
            color: Seq::new(
                self.color.len(),
                |i: int|
                    if self.hit(covered, i, z) {
                        c
                    } else {
                        self.color[i]
                    },
            ),
            depth: Seq::new(
                self.depth.len(),
                |i: int|
                    if self.hit(covered, i, z) {
                        z
                    } else {
                        self.depth[i]
                    },
            ),
        }
    }

    /// The frame in which every pixel has the color `c` and nothing has been
    /// drawn yet.
    pub open spec fn cleared(self, c: Rgb24) -> Frame {
        Frame {
            width: self.width,
            height: self.height,
            color: Seq::new(self.color.len(), |i: int| c),
            depth: Seq::new(self.depth.len(), |i: int| FARTHEST),
        }
    }

    /// Two frames of the same size agree when they agree pixel by pixel.
    pub open spec fn same_pixels(self, other: Frame) -> bool {
        &&& self.width == other.width
        &&& self.height == other.height
        &&& forall|x: int, y: int| #![trigger self.in_bounds(x, y)]
            self.in_bounds(x, y) ==> self.color_at(x, y) == other.color_at(x, y) && self.depth_at(
                x,
                y,
            ) == other.depth_at(x, y)
    }
}

/// A row-major offset splits back into the coordinates it was made from.
pub proof fn lemma_offset_split(w: int, x: int, y: int)
    requires
        0 <= x < w,
    ensures
        (y * w + x) % w == x,
        (y * w + x) / w == y,
{
    lemma_fundamental_div_mod_converse(y * w + x, w, y, x);
}

/// Every offset into a well-formed frame is the offset of one of its pixels.
pub proof fn lemma_offset_pixel(f: Frame, i: int)
    requires
        f.well_formed(),
        0 <= i < f.width * f.height,
    ensures
        f.in_bounds(i % f.width, i / f.width),
        i == (i / f.width) * f.width + (i % f.width),
{
    let w = f.width;
    assert(w > 0) by (nonlinear_arith)
        requires
            0 <= i < w * f.height,
            0 <= w,
    ;
    lemma_fundamental_div_mod(i, w);
    assert(w * (i / w) == (i / w) * w) by (nonlinear_arith);
    let q = i / w;
    let r = i % w;
    assert(0 <= r < w);
    assert(0 <= q < f.height) by (nonlinear_arith)
        requires
            i == q * w + r,
            0 <= r < w,
            0 <= i < w * f.height,
    ;
}

/// Well-formed frames that agree pixel by pixel are equal.
pub proof fn lemma_same_pixels_equal(f: Frame, g: Frame)
    requires
        f.well_formed(),
        g.well_formed(),
        f.same_pixels(g),
    ensures
        f == g,
{
    assert forall|i: int| 0 <= i < f.color.len() implies f.color[i] == g.color[i] && f.depth[i]
        == g.depth[i] by {
        lemma_offset_pixel(f, i);
        assert(f.in_bounds(i % f.width, i / f.width));
    }
    assert(f.color =~= g.color);
    assert(f.depth =~= g.depth);
}

/// A depth-tested draw keeps the frame's size.
pub proof fn lemma_plot_well_formed(f: Frame, p: Point, z: i64, c: Rgb24)
    requires
        f.well_formed(),
    ensures
        f.plot(p, z, c).well_formed(),
        f.plot(p, z, c).width == f.width,
        f.plot(p, z, c).height == f.height,
{
    if f.passes(p.x as int, p.y as int, z) {
        lemma_offset_in_range(f.width, f.height, p.x as int, p.y as int);
    }
}

/// What one depth-tested draw does, pixel by pixel: the drawn pixel takes
/// the new color and depth if it passes the test, and nothing else changes.
pub proof fn lemma_plot_pixel(f: Frame, p: Point, z: i64, c: Rgb24, x: int, y: int)
    requires
        f.well_formed(),
        f.in_bounds(x, y),
    ensures
        f.plot(p, z, c).color_at(x, y) == (if x == p.x && y == p.y && f.passes(x, y, z) {
            c
        } else {
            f.color_at(x, y)
        }),
        f.plot(p, z, c).depth_at(x, y) == (if x == p.x && y == p.y && f.passes(x, y, z) {
            z
        } else {
            f.depth_at(x, y)
        }),
{
    lemma_offset_in_range(f.width, f.height, x, y);
    if f.passes(p.x as int, p.y as int, z) {
        lemma_offset_in_range(f.width, f.height, p.x as int, p.y as int);
        if y * f.width + x == p.y * f.width + p.x {
            lemma_offset_injective(f.width, x, y, p.x as int, p.y as int);
        }
    }
}

/// What painting does, pixel by pixel: every covered pixel that passes the
/// depth test takes the new color and depth, and nothing else changes.
pub proof fn lemma_paint_pixel(
    f: Frame,
    covered: spec_fn(int, int) -> bool,
    z: i64,
    c: Rgb24,
    x: int,
    y: int,
)
    requires
        f.well_formed(),
        f.in_bounds(x, y),
    ensures
        f.paint(covered, z, c).well_formed(),
        f.paint(covered, z, c).color_at(x, y) == (if covered(x, y) && f.passes(x, y, z) {
            c
        } else {
            f.color_at(x, y)
        }),
        f.paint(covered, z, c).depth_at(x, y) == (if covered(x, y) && f.passes(x, y, z) {
            z
        } else {
            f.depth_at(x, y)
        }),
{
    lemma_offset_in_range(f.width, f.height, x, y);
    lemma_offset_split(f.width, x, y);
}

/// Drawing one pixel is painting the set that holds only that pixel.
pub proof fn lemma_plot_is_paint(f: Frame, p: Point, z: i64, c: Rgb24)
    requires
        f.well_formed(),
    ensures
        f.plot(p, z, c) == f.paint(|x: int, y: int| x == p.x && y == p.y, z, c),
{
    let covered = |x: int, y: int| x == p.x && y == p.y;
    let g = f.plot(p, z, c);
    let h = f.paint(covered, z, c);
    lemma_plot_well_formed(f, p, z, c);
    assert forall|x: int, y: int| #![trigger g.in_bounds(x, y)]
        g.in_bounds(x, y) implies g.color_at(x, y) == h.color_at(x, y) && g.depth_at(x, y)
        == h.depth_at(x, y) by {
        lemma_plot_pixel(f, p, z, c, x, y);
        lemma_paint_pixel(f, covered, z, c, x, y);
    }
    lemma_same_pixels_equal(g, h);
}

/// Drawing the same pixel twice with the same depth and color changes
/// nothing the second time.
pub proof fn lemma_plot_idempotent(f: Frame, p: Point, z: i64, c: Rgb24)
    requires
        f.well_formed(),
    ensures
        f.plot(p, z, c).plot(p, z, c) == f.plot(p, z, c),
{
    let g = f.plot(p, z, c);
    let h = g.plot(p, z, c);
    lemma_plot_well_formed(f, p, z, c);
    lemma_plot_well_formed(g, p, z, c);
    if f.in_bounds(p.x as int, p.y as int) {
        lemma_plot_pixel(f, p, z, c, p.x as int, p.y as int);
        lemma_plot_pixel(g, p, z, c, p.x as int, p.y as int);
        assert forall|x: int, y: int| #![trigger h.in_bounds(x, y)]
            h.in_bounds(x, y) implies h.color_at(x, y) == g.color_at(x, y) && h.depth_at(x, y)
            == g.depth_at(x, y) by {
            lemma_plot_pixel(f, p, z, c, x, y);
            lemma_plot_pixel(g, p, z, c, x, y);
        }
        lemma_same_pixels_equal(h, g);
    }
}

/// After a draw at depth `near`, a draw of the same pixel at a greater depth
/// changes nothing: the nearer color stays.
pub proof fn lemma_plot_nearer_stays(
    f: Frame,
    p: Point,
    near: i64,
    c: Rgb24,
    far: i64,
    other: Rgb24,
)
    requires
        f.well_formed(),
        near < far,
    ensures
        f.plot(p, near, c).plot(p, far, other) == f.plot(p, near, c),
{
    lemma_plot_well_formed(f, p, near, c);
    if f.in_bounds(p.x as int, p.y as int) {
        lemma_plot_pixel(f, p, near, c, p.x as int, p.y as int);
    }
}

/// After clearing, every pixel has the clear color and the farthest depth.
pub proof fn lemma_cleared_pixel(f: Frame, c: Rgb24, x: int, y: int)
    requires
        f.well_formed(),
        f.in_bounds(x, y),
    ensures
        f.cleared(c).well_formed(),
        f.cleared(c).color_at(x, y) == c,
        f.cleared(c).depth_at(x, y) == FARTHEST,
{
    lemma_offset_in_range(f.width, f.height, x, y);
}

} // verus!
