//! The rasterizer: a color buffer and a depth buffer of the same size, and
//! the depth-tested drawing of pixels, lines and filled triangles into them.

use vstd::prelude::*;

use crate::bitmap::pixel_format::Rgb24;
use crate::bitmap::pixel_format::TransferToRgb;
use crate::bitmap::Bitmap;
use crate::frame::lemma_cleared_pixel;
use crate::frame::lemma_paint_pixel;
use crate::frame::lemma_plot_pixel;
use crate::frame::lemma_plot_well_formed;
use crate::frame::lemma_same_pixels_equal;
use crate::frame::Frame;
use crate::frame::FARTHEST;
use crate::line::abs;
use crate::line::lemma_offset_is_nearest;
use crate::line::lemma_prefix_step;
use crate::line::line_offset;
use crate::line::line_pixel;
use crate::line::line_rise;
use crate::line::line_run;
use crate::line::line_start;
use crate::line::major;
use crate::line::minor;
use crate::line::on_line;
use crate::line::on_line_prefix;
use crate::line::steep;
use crate::rect::lemma_intersect_contains;
use crate::rect::max_x;
use crate::rect::max_y;
use crate::rect::min_x;
use crate::rect::min_y;
use crate::rect::Point;
use crate::rect::Rect;
use crate::triangle::cross;
use crate::triangle::inside_triangle;
use crate::triangle::lemma_cross_is_orient;
use crate::triangle::lemma_inside_within_bounds;
use crate::triangle::lemma_orient_sum;
use crate::triangle::lemma_product_bound;
use crate::triangle::triangle_covers;

verus! {

/// A color buffer and a depth buffer, both of the size given at
/// construction.
pub struct Device {
    back_buffer: Bitmap<Rgb24>,
    depth_buffer: Bitmap<i64>,
}

impl View for Device {
    type V = Frame;

    /// The two buffers as one frame.
    closed spec fn view(&self) -> Frame {
        Frame {
            width: self.back_buffer.spec_width() as int,
            height: self.back_buffer.spec_height() as int,
            color: self.back_buffer@,
            depth: self.depth_buffer@,
        }
    }
}

/// A triangle in screen space with the depth and the color it is filled
/// with.
#[derive(Clone, Copy, PartialEq, Eq, Debug, Structural)]
pub struct ScreenTriangle {
    pub a: Point,
    pub b: Point,
    pub c: Point,
    pub depth: i64,
    pub color: Rgb24,
}

/// The frame after filling one triangle.
pub open spec fn fill(frame: Frame, t: ScreenTriangle) -> Frame {
    frame.paint(|x: int, y: int| triangle_covers(t.a, t.b, t.c, x, y), t.depth, t.color)
}

/// The frame after filling the triangles one after the other, the first
/// one first.
pub open spec fn fill_all(frame: Frame, triangles: Seq<ScreenTriangle>) -> Frame
    decreases triangles.len(),
{
    if triangles.len() == 0 {
        frame
    } else {
        fill(fill_all(frame, triangles.drop_last()), triangles.last())
    }
}

/// What the event source reports, as far as the frame loop cares.
#[derive(Clone, Copy, PartialEq, Eq, Debug, Structural)]
pub enum InputEvent {
    /// The window was asked to close.
    Quit,
    /// The escape key went down.
    EscapeKeyDown,
    /// Anything else.
    Other,
}

/// What the frame loop does after polling the events.
#[derive(Clone, Copy, PartialEq, Eq, Debug, Structural)]
pub enum EventPumpAction {
    Quit,
    Continue,
}

/// True for the events that end the frame loop.
pub open spec fn requests_quit(event: InputEvent) -> bool {
    event is Quit || event is EscapeKeyDown
}

/// True when `bytes` holds three bytes for each element of `pixels`, one
/// element after the other, and the three are what `transfer` gives for the
/// element.
pub open spec fn transfers_to<T: TransferToRgb>(pixels: Seq<T>, bytes: Seq<u8>) -> bool {
    &&& bytes.len() == 3 * pixels.len()
    &&& forall|i: int|
        0 <= i < pixels.len() ==> call_ensures(
            T::transfer,
            (&#[trigger] pixels[i],),
            (bytes[3 * i], bytes[3 * i + 1], bytes[3 * i + 2]),
        )
}

/// The red, green and blue bytes of each color, one color after the other.
pub open spec fn rgb_bytes(pixels: Seq<Rgb24>) -> Seq<u8> {
    Seq::new(
        3 * pixels.len(),
        |i: int|
            if i % 3 == 0 {
                pixels[i / 3].r
            } else if i % 3 == 1 {
                pixels[i / 3].g
            } else {
                pixels[i / 3].b
            },
    )
}

/// The distance between two coordinates.
fn abs_diff(a: i32, b: i32) -> (d: i64)
    ensures
        d == abs(a - b),
{
    let d = a as i64 - b as i64;
    if d < 0 {
        -d
    } else {
        d
    }
}

/// While the doubled error of a line stays above the negated run, the line
/// has not risen farther than it will in all.
proof fn lemma_line_row_bound(run: int, rise: int, k: int, n: int)
    requires
        0 <= rise <= run,
        0 <= k <= run,
        0 < run,
        -run < 2 * rise * k - 2 * run * n,
    ensures
        n <= rise,
{
    assert(2 * rise * k <= 2 * rise * run) by (nonlinear_arith)
        requires
            0 <= rise,
            k <= run,
    ;
    assert(n <= rise) by (nonlinear_arith)
        requires
            2 * run * n < 2 * rise * run + run,
            0 < run,
    ;
}

impl Device {
    #[verifier::type_invariant]
    spec fn inv(&self) -> bool {
        &&& self.depth_buffer.spec_width() == self.back_buffer.spec_width()
        &&& self.depth_buffer.spec_height() == self.back_buffer.spec_height()
        &&& self.back_buffer.spec_width() <= i32::MAX
        &&& self.back_buffer.spec_height() <= i32::MAX
        &&& self.back_buffer@.len() == self.back_buffer.spec_width()
            * self.back_buffer.spec_height()
        &&& self.depth_buffer@.len() == self.back_buffer.spec_width()
            * self.back_buffer.spec_height()
    }

    /// A device of `width` by `height` pixels. Every pixel is black and
    /// every depth is zero until the first `clear`.
    pub fn new(width: u32, height: u32) -> (device: Device)
        requires
            width <= i32::MAX,
            height <= i32::MAX,
            width * height <= usize::MAX,
        ensures
            device@.well_formed(),
            device@.width == width,
            device@.height == height,
            device@.color == Seq::new((width * height) as nat, |i: int| Rgb24 { r: 0, g: 0, b: 0 }),
            device@.depth == Seq::new((width * height) as nat, |i: int| 0i64),
    {
        let back_buffer: Bitmap<Rgb24> = Bitmap::new(width, height);
        let depth_buffer: Bitmap<i64> = Bitmap::new(width, height);
        let device = Device { back_buffer: back_buffer, depth_buffer: depth_buffer };
        proof {
            assert(device@.color =~= Seq::new(
                (width * height) as nat,
                |i: int| Rgb24 { r: 0, g: 0, b: 0 },
            ));
            assert(device@.depth =~= Seq::new((width * height) as nat, |i: int| 0i64));
        }
        device
    }

    /// The width in pixels.
    pub fn width(&self) -> (w: i32)
        ensures
            w == self@.width,
            self@.well_formed(),
        no_unwind
    {
        proof {
            use_type_invariant(self);
        }
        self.back_buffer.width() as i32
    }

    /// The height in pixels.
    pub fn height(&self) -> (h: i32)
        ensures
            h == self@.height,
            self@.well_formed(),
        no_unwind
    {
        proof {
            use_type_invariant(self);
        }
        self.back_buffer.height() as i32
    }

    /// The color buffer.
    pub fn back_buffer(&self) -> (buffer: &Bitmap<Rgb24>)
        ensures
            buffer@ == self@.color,
            buffer.spec_width() == self@.width,
            buffer.spec_height() == self@.height,
    {
        &self.back_buffer
    }

    /// The depth buffer.
    pub fn depth_buffer(&self) -> (buffer: &Bitmap<i64>)
        ensures
            buffer@ == self@.depth,
            buffer.spec_width() == self@.width,
            buffer.spec_height() == self@.height,
    {
        proof {
            use_type_invariant(self);
        }
        &self.depth_buffer
    }

    /// Starts a frame: every pixel takes `color` and every depth becomes
    /// the farthest.
    pub fn clear(&mut self, color: Rgb24)
        ensures
            final(self)@ == old(self)@.cleared(color),
            final(self)@.well_formed(),
            forall|x: int, y: int| #![trigger final(self)@.in_bounds(x, y)]
                final(self)@.in_bounds(x, y) ==> {
                    &&& final(self)@.color_at(x, y) == color
                    &&& final(self)@.depth_at(x, y) == FARTHEST
                },
    {
        proof {
            use_type_invariant(&*self);
        }
        self.back_buffer.clear(color);
        self.depth_buffer.clear(FARTHEST);
        proof {
            assert(self@.color =~= old(self)@.cleared(color).color);
            assert(self@.depth =~= old(self)@.cleared(color).depth);
            assert forall|x: int, y: int| #![trigger self@.in_bounds(x, y)]
                self@.in_bounds(x, y) implies self@.color_at(x, y) == color && self@.depth_at(x, y)
                == FARTHEST by {
                lemma_cleared_pixel(old(self)@, color, x, y);
            }
        }
    }

    /// Draws one pixel with a depth test. A point outside the frame is
    /// ignored, and so is a pixel for which a smaller depth is stored.
    pub fn set_pixel(&mut self, point: Point, z: i64, color: Rgb24)
        ensures
            final(self)@ == old(self)@.plot(point, z, color),
            final(self)@.well_formed(),
    {
        proof {
            use_type_invariant(&*self);
        }
        if point.x < self.back_buffer.width() as i32 && point.x >= 0 && point.y
            < self.back_buffer.height() as i32 && point.y >= 0 {
            let ux = point.x as u32;
            let uy = point.y as u32;
            if self.depth_buffer.get_pixel(ux, uy) < z {
                return ;
            }
            self.depth_buffer.set_pixel(ux, uy, z);
            self.back_buffer.set_pixel(ux, uy, color);
        }
    }

    /// Returns whether `pt` is covered by the triangle `(pt0, pt1, pt2)`:
    /// inside it or on its boundary. A triangle without area covers nothing.
    pub fn is_inside_triangle(pt: Point, pt0: Point, pt1: Point, pt2: Point) -> (inside: bool)
        ensures
            inside == inside_triangle(pt, pt0, pt1, pt2),
    {
        let ax = pt0.x as i128;
        let ay = pt0.y as i128;
        let u = cross(
            (pt2.x as i128 - ax, pt1.x as i128 - ax, ax - pt.x as i128),
            (pt2.y as i128 - ay, pt1.y as i128 - ay, ay - pt.y as i128),
        );
        proof {
            let m: int = 0x1_0000_0000;
            lemma_product_bound(pt1.x - pt0.x, pt0.y - pt.y, m);
            lemma_product_bound(pt0.x - pt.x, pt1.y - pt0.y, m);
            lemma_product_bound(pt0.x - pt.x, pt2.y - pt0.y, m);
            lemma_product_bound(pt2.x - pt0.x, pt0.y - pt.y, m);
            lemma_product_bound(pt2.x - pt0.x, pt1.y - pt0.y, m);
            lemma_product_bound(pt1.x - pt0.x, pt2.y - pt0.y, m);
            lemma_cross_is_orient(pt, pt0, pt1, pt2);
            lemma_orient_sum(pt, pt0, pt1, pt2);
        }
        if u.2 == 0 {
            // no area: every barycentric weight is undefined
            false
        } else {
            let w0 = u.2 - (u.0 + u.1);
            if u.2 > 0 {
                w0 >= 0 && u.1 >= 0 && u.0 >= 0
            } else {
                w0 <= 0 && u.1 <= 0 && u.0 <= 0
            }
        }
    }

    /// Fills the triangle `(pt0, pt1, pt2)` with one color at one depth.
    /// Every pixel of the frame that the triangle covers, its edges and
    /// vertices included, is drawn with a depth test; a triangle that lies
    /// off the frame, or has no area, draws nothing.
    pub fn draw_triangle(&mut self, pt0: Point, pt1: Point, pt2: Point, z: i64, color: Rgb24)
        ensures
            final(self)@ == old(self)@.paint(
                |x: int, y: int| triangle_covers(pt0, pt1, pt2, x, y),
                z,
                color,
            ),
            final(self)@.well_formed(),
    {
        let pts = vec![pt0, pt1, pt2];
        let bounds = Rect::from_bounding(pts.as_slice());
        let window_bounds = Rect::new(Point::new(0, 0), Point::new(self.width(), self.height()));
        let ghost before = self@;
        let ghost covered = |x: int, y: int| triangle_covers(pt0, pt1, pt2, x, y);
        proof {
            assert(pts@ =~= seq![pt0, pt1, pt2]);
        }

        if let Some(clipped) = bounds.intersect(window_bounds) {
            // the rows and columns of the box are scanned to the last one;
            // the counters are wider than a coordinate so that they can pass it
            let mut y: i64 = clipped.top as i64;
            while y <= clipped.bottom as i64
                invariant
                    clipped.left <= clipped.right,
                    clipped.top <= y <= clipped.bottom + 1,
                    before.well_formed(),
                    self@.well_formed(),
                    self@.width == before.width,
                    self@.height == before.height,
                    before.width <= i32::MAX,
                    before.height <= i32::MAX,
                    forall|px: int, py: int| #![trigger before.in_bounds(px, py)]
                        before.in_bounds(px, py) ==> {
                            let hit = clipped.left <= px <= clipped.right && clipped.top <= py < y
                                && triangle_covers(pt0, pt1, pt2, px, py) && before.passes(
                                px,
                                py,
                                z,
                            );
                            &&& self@.color_at(px, py) == (if hit {
                                color
                            } else {
                                before.color_at(px, py)
                            })
                            &&& self@.depth_at(px, py) == (if hit {
                                z
                            } else {
                                before.depth_at(px, py)
                            })
                        },
                decreases clipped.bottom + 1 - y,
            {
                let mut x: i64 = clipped.left as i64;
                while x <= clipped.right as i64
                    invariant
                        clipped.left <= x <= clipped.right + 1,
                        clipped.top <= y <= clipped.bottom,
                        before.well_formed(),
                        self@.well_formed(),
                        self@.width == before.width,
                        self@.height == before.height,
                        before.width <= i32::MAX,
                        before.height <= i32::MAX,
                        forall|px: int, py: int| #![trigger before.in_bounds(px, py)]
                            before.in_bounds(px, py) ==> {
                                let hit = clipped.left <= px <= clipped.right && clipped.top <= py
                                    && (py < y || (py == y && px < x)) && triangle_covers(
                                    pt0,
                                    pt1,
                                    pt2,
                                    px,
                                    py,
                                ) && before.passes(px, py, z);
                                &&& self@.color_at(px, py) == (if hit {
                                    color
                                } else {
                                    before.color_at(px, py)
                                })
                                &&& self@.depth_at(px, py) == (if hit {
                                    z
                                } else {
                                    before.depth_at(px, py)
                                })
                            },
                    decreases clipped.right + 1 - x,
                {
                    let pt = Point::new(x as i32, y as i32);
                    let ghost current = self@;
                    if Device::is_inside_triangle(pt, pt0, pt1, pt2) {
                        self.set_pixel(pt, z, color);
                    }
                    proof {
                        assert forall|px: int, py: int| #![trigger before.in_bounds(px, py)]
                            before.in_bounds(px, py) implies {
                            let hit = clipped.left <= px <= clipped.right && clipped.top <= py
                                && (py < y || (py == y && px < x + 1)) && triangle_covers(
                                pt0,
                                pt1,
                                pt2,
                                px,
                                py,
                            ) && before.passes(px, py, z);
                            &&& self@.color_at(px, py) == (if hit {
                                color
                            } else {
                                before.color_at(px, py)
                            })
                            &&& self@.depth_at(px, py) == (if hit {
                                z
                            } else {
                                before.depth_at(px, py)
                            })
                        } by {
                            assert(current.in_bounds(px, py));
                            if inside_triangle(pt, pt0, pt1, pt2) {
                                lemma_plot_pixel(current, pt, z, color, px, py);
                            }
                        }
                    }
                    x += 1;
                }
                y += 1;
            }
        }
        proof {
            let after = self@;
            let painted = before.paint(covered, z, color);
            let clip = bounds.spec_intersect(window_bounds);
            assert forall|px: int, py: int| #![trigger after.in_bounds(px, py)]
                after.in_bounds(px, py) implies after.color_at(px, py) == painted.color_at(px, py)
                && after.depth_at(px, py) == painted.depth_at(px, py) by {
                assert(before.in_bounds(px, py));
                lemma_paint_pixel(before, covered, z, color, px, py);
                if triangle_covers(pt0, pt1, pt2, px, py) {
                    // a covered pixel of the frame lies in the clipped box
                    lemma_inside_within_bounds(
                        Point { x: px as i32, y: py as i32 },
                        pt0,
                        pt1,
                        pt2,
                    );
                    assert(bounds.contains(px, py) && window_bounds.contains(px, py));
                    lemma_intersect_contains(bounds, window_bounds, px, py);
                }
            }
            if before.width > 0 && before.height > 0 {
                assert(before.in_bounds(0, 0));
                lemma_paint_pixel(before, covered, z, color, 0, 0);
            }
            assert(painted.well_formed());
            lemma_same_pixels_equal(after, painted);
        }
    }

    /// Draws the line from `from` to `to` with one color at one depth. Every
    /// pixel of the line is drawn with a depth test; the parts of the line
    /// that lie off the frame are skipped.
    pub fn draw_line(&mut self, from: Point, to: Point, z: i64, color: Rgb24)
        ensures
            final(self)@ == old(self)@.paint(|x: int, y: int| on_line(from, to, x, y), z, color),
            final(self)@.well_formed(),
    {
        proof {
            use_type_invariant(&*self);
        }
        let ghost before = self@;
        let is_steep = abs_diff(from.x, to.x) < abs_diff(from.y, to.y);
        let (a0, b0, a1, b1) = if is_steep {
            (from.y as i64, from.x as i64, to.y as i64, to.x as i64)
        } else {
            (from.x as i64, from.y as i64, to.x as i64, to.y as i64)
        };
        // step from the endpoint with the smaller major coordinate
        let (u0, v0, u1, v1) = if a0 > a1 {
            (a1, b1, a0, b0)
        } else {
            (a0, b0, a1, b1)
        };
        let run = u1 - u0;
        let rise = v1 - v0;
        let step: i64 = if rise > 0 {
            1
        } else {
            -1
        };
        let derror2 = (if rise < 0 {
            -rise
        } else {
            rise
        }) * 2;
        let mut error2: i64 = 0;
        let mut u = u0;
        let mut v = v0;
        let ghost mut n: int = 0;
        proof {
            assert(is_steep == steep(from, to));
            assert(u0 == major(is_steep, line_start(from, to)));
            assert(v0 == minor(is_steep, line_start(from, to)));
            assert(run == line_run(from, to));
            assert(rise == line_rise(from, to));
            assert forall|px: int, py: int| !on_line_prefix(from, to, 0, px, py) by {}
        }
        while u <= u1
            invariant
                is_steep == steep(from, to),
                u0 == major(is_steep, line_start(from, to)),
                v0 == minor(is_steep, line_start(from, to)),
                run == line_run(from, to),
                rise == line_rise(from, to),
                run == u1 - u0,
                0 <= run <= 0xffff_ffff,
                abs(rise as int) <= run,
                i32::MIN <= u0 <= u1 <= i32::MAX,
                i32::MIN <= v0 <= i32::MAX,
                i32::MIN <= v0 + rise <= i32::MAX,
                step == (if rise > 0 {
                    1i64
                } else {
                    -1i64
                }),
                derror2 == 2 * abs(rise as int),
                u0 <= u <= u1 + 1,
                v == v0 + (if rise < 0 {
                    -n
                } else {
                    n
                }),
                0 <= n <= abs(rise as int) + 1,
                error2 == 2 * abs(rise as int) * (u - u0) - 2 * run * n,
                run > 0 ==> -run < error2 <= run,
                run == 0 ==> error2 == 0 && n == 0,
                before.well_formed(),
                self@.well_formed(),
                self@.width == before.width,
                self@.height == before.height,
                forall|px: int, py: int| #![trigger before.in_bounds(px, py)]
                    before.in_bounds(px, py) ==> {
                        let hit = on_line_prefix(from, to, u - u0, px, py) && before.passes(
                            px,
                            py,
                            z,
                        );
                        &&& self@.color_at(px, py) == (if hit {
                            color
                        } else {
                            before.color_at(px, py)
                        })
                        &&& self@.depth_at(px, py) == (if hit {
                            z
                        } else {
                            before.depth_at(px, py)
                        })
                    },
            decreases u1 + 1 - u,
        {
            let ghost k = u - u0;
            let ghost current = self@;
            proof {
                if run > 0 {
                    lemma_offset_is_nearest(run as int, rise as int, k, n);
                    lemma_line_row_bound(run as int, abs(rise as int), k, n);
                }
                assert(v == v0 + line_offset(run as int, rise as int, k));
            }
            let pt = if is_steep {
                Point::new(v as i32, u as i32)
            } else {
                Point::new(u as i32, v as i32)
            };
            assert(line_pixel(from, to, k) == (pt.x as int, pt.y as int));
            self.set_pixel(pt, z, color);
            proof {
                lemma_plot_well_formed(current, pt, z, color);
                assert forall|px: int, py: int| #![trigger before.in_bounds(px, py)]
                    before.in_bounds(px, py) implies {
                    let hit = on_line_prefix(from, to, k + 1, px, py) && before.passes(px, py, z);
                    &&& self@.color_at(px, py) == (if hit {
                        color
                    } else {
                        before.color_at(px, py)
                    })
                    &&& self@.depth_at(px, py) == (if hit {
                        z
                    } else {
                        before.depth_at(px, py)
                    })
                } by {
                    assert(current.in_bounds(px, py));
                    lemma_prefix_step(from, to, k, px, py);
                    lemma_plot_pixel(current, pt, z, color, px, py);
                }
            }
            proof {
                let m = abs(rise as int);
                assert(2 * m * (k + 1) == 2 * m * k + 2 * m) by (nonlinear_arith);
                assert(2 * run * (n + 1) == 2 * run * n + 2 * run) by (nonlinear_arith);
            }
            error2 = error2 + derror2;
            if error2 > run {
                v = v + step;
                error2 = error2 - run * 2;
                proof {
                    n = n + 1;
                }
            }
            u = u + 1;
        }
        proof {
            let after = self@;
            let covered = |x: int, y: int| on_line(from, to, x, y);
            let painted = before.paint(covered, z, color);
            assert forall|px: int, py: int| #![trigger after.in_bounds(px, py)]
                after.in_bounds(px, py) implies after.color_at(px, py) == painted.color_at(px, py)
                && after.depth_at(px, py) == painted.depth_at(px, py) by {
                assert(before.in_bounds(px, py));
                lemma_paint_pixel(before, covered, z, color, px, py);
            }
            if before.width > 0 && before.height > 0 {
                assert(before.in_bounds(0, 0));
                lemma_paint_pixel(before, covered, z, color, 0, 0);
            }
            assert(painted.well_formed());
            lemma_same_pixels_equal(after, painted);
        }
    }

    /// Fills the triangles in order, each with its own depth and color.
    pub fn render(&mut self, triangles: &Vec<ScreenTriangle>)
        ensures
            final(self)@ == fill_all(old(self)@, triangles@),
            final(self)@.well_formed(),
    {
        proof {
            use_type_invariant(&*self);
        }
        let mut i: usize = 0;
        while i < triangles.len()
            invariant
                i <= triangles@.len(),
                self@.well_formed(),
                self@ == fill_all(old(self)@, triangles@.take(i as int)),
            decreases triangles@.len() - i,
        {
            let t = triangles[i];
            proof {
                assert(triangles@.take(i + 1).drop_last() =~= triangles@.take(i as int));
                assert(triangles@.take(i + 1).last() == t);
            }
            self.draw_triangle(t.a, t.b, t.c, t.depth, t.color);
            i += 1;
        }
        proof {
            assert(triangles@.take(triangles@.len() as int) =~= triangles@);
        }
    }

    /// Writes the three display bytes of every element of `src_bitmap`, row
    /// by row, into `dest_texture`, replacing what it held.
    pub fn copy_bitmap_to_texture<T>(src_bitmap: &Bitmap<T>, dest_texture: &mut Vec<u8>) where
        T: Copy + TransferToRgb,

        ensures
            transfers_to(src_bitmap@, final(dest_texture)@),
    {
        let slice = src_bitmap.slice();
        dest_texture.clear();
        let mut offset: usize = 0;
        while offset < slice.len()
            invariant
                slice@ == src_bitmap@,
                offset <= slice@.len(),
                transfers_to(slice@.take(offset as int), dest_texture@),
            decreases slice@.len() - offset,
        {
            let ghost before = dest_texture@;
            let (r, g, b) = slice[offset].transfer();
            dest_texture.push(r);
            dest_texture.push(g);
            dest_texture.push(b);
            proof {
                let pixels = slice@.take(offset + 1);
                let bytes = dest_texture@;
                assert forall|i: int| 0 <= i < pixels.len() implies call_ensures(
                    T::transfer,
                    (&#[trigger] pixels[i],),
                    (bytes[3 * i], bytes[3 * i + 1], bytes[3 * i + 2]),
                ) by {
                    if i < offset {
                        assert(slice@.take(offset as int)[i] == pixels[i]);
                        assert(bytes[3 * i] == before[3 * i]);
                        assert(bytes[3 * i + 1] == before[3 * i + 1]);
                        assert(bytes[3 * i + 2] == before[3 * i + 2]);
                    }
                }
            }
            offset += 1;
        }
        proof {
            assert(slice@.take(slice@.len() as int) =~= slice@);
        }
    }

    /// Copies the color buffer into `texture` as packed red, green and blue
    /// bytes, for the display surface to show. Nothing is drawn.
    pub fn present(&self, texture: &mut Vec<u8>)
        ensures
            final(texture)@ == rgb_bytes(self@.color),
    {
        Device::copy_bitmap_to_texture(&self.back_buffer, texture);
        proof {
            let pixels = self@.color;
            let bytes = texture@;
            assert forall|j: int| 0 <= j < bytes.len() implies bytes[j] == rgb_bytes(pixels)[j] by {
                let i = j / 3;
                assert(call_ensures(
                    Rgb24::transfer,
                    (&pixels[i],),
                    (bytes[3 * i], bytes[3 * i + 1], bytes[3 * i + 2]),
                ));
            }
            assert(bytes =~= rgb_bytes(pixels));
        }
    }

    /// Decides from the events polled for one frame whether the frame loop
    /// goes on: it ends when the window was asked to close or the escape key
    /// went down.
    pub fn poll_events(events: &[InputEvent]) -> (action: EventPumpAction)
        ensures
            action is Quit <==> exists|i: int| 0 <= i < events@.len() && requests_quit(events@[i]),
    {
        let mut i: usize = 0;
        while i < events.len()
            invariant
                i <= events@.len(),
                forall|j: int| 0 <= j < i ==> !requests_quit(events@[j]),
            decreases events@.len() - i,
        {
            match events[i] {
                InputEvent::Quit | InputEvent::EscapeKeyDown => {
                    return EventPumpAction::Quit;
                },
                _ => {},
            }
            i += 1;
        }
        EventPumpAction::Continue
    }
}

} // verus!
