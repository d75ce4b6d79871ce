//! Integer screen points and axis-aligned rectangles.

use vstd::prelude::*;

verus! {

/// A point on the integer pixel grid. `y` grows downward.
#[derive(Clone, Copy, PartialEq, Eq, Debug, Structural)]
pub struct Point {
    pub x: i32,
    pub y: i32,
}

impl Point {
    /// The point at column `x` of row `y`.
    pub fn new(x: i32, y: i32) -> (p: Point)
        ensures
            p == (Point { x, y }),
    {
        Point { x, y }
    }
}

/// The smaller of two numbers.
pub open spec fn min_int(a: int, b: int) -> int {
    if a <= b {
        a
    } else {
        b
    }
}

/// The larger of two numbers.
pub open spec fn max_int(a: int, b: int) -> int {
    if a >= b {
        a
    } else {
        b
    }
}

/// Smallest x coordinate among `pts`; `i32::MAX` when there are none.
pub open spec fn min_x(pts: Seq<Point>) -> int
    decreases pts.len(),
{
    if pts.len() == 0 {
        i32::MAX as int
    } else {
        min_int(pts.last().x as int, min_x(pts.drop_last()))
    }
}

/// Smallest y coordinate among `pts`; `i32::MAX` when there are none.
pub open spec fn min_y(pts: Seq<Point>) -> int
    decreases pts.len(),
{
    if pts.len() == 0 {
        i32::MAX as int
    } else {
        min_int(pts.last().y as int, min_y(pts.drop_last()))
    }
}

/// Largest x coordinate among `pts`; `i32::MIN` when there are none.
pub open spec fn max_x(pts: Seq<Point>) -> int
    decreases pts.len(),
{
    if pts.len() == 0 {
        i32::MIN as int
    } else {
        max_int(pts.last().x as int, max_x(pts.drop_last()))
    }
}

/// Largest y coordinate among `pts`; `i32::MIN` when there are none.
pub open spec fn max_y(pts: Seq<Point>) -> int
    decreases pts.len(),
{
    if pts.len() == 0 {
        i32::MIN as int
    } else {
        max_int(pts.last().y as int, max_y(pts.drop_last()))
    }
}

/// An axis-aligned rectangle given by its four edges.
#[derive(Clone, Copy, PartialEq, Eq, Debug, Structural)]
pub struct Rect {
    pub left: i32,
    pub top: i32,
    pub bottom: i32,
    pub right: i32,
}

impl Rect {
    /// A rectangle is valid when its edges are ordered; a single point
    /// (`left == right`, `top == bottom`) is valid.
    pub open spec fn spec_is_valid(&self) -> bool {
        self.top <= self.bottom && self.left <= self.right
    }

    /// True when the two rectangles share no point: one lies wholly to one
    /// side of the other.
    pub open spec fn disjoint(&self, other: Rect) -> bool {
        self.right < other.left || self.bottom < other.top || other.right < self.left
            || other.bottom < self.top
    }

    /// The coordinate-wise overlap of two rectangles, or `None` when they are
    /// disjoint.
    pub open spec fn spec_intersect(&self, other: Rect) -> Option<Rect> {
        if self.disjoint(other) {
            None
        } else {
            Some(
                Rect {
                    left: if self.left >= other.left { self.left } else { other.left },
                    top: if self.top >= other.top { self.top } else { other.top },
                    right: if self.right <= other.right { self.right } else { other.right },
                    bottom: if self.bottom <= other.bottom { self.bottom } else { other.bottom },
                },
            )
        }
    }

    /// True when `(x, y)` lies in the rectangle, edges included.
    pub open spec fn contains(&self, x: int, y: int) -> bool {
        self.left <= x <= self.right && self.top <= y <= self.bottom
    }

    fn new_unsafe(left: i32, top: i32, right: i32, bottom: i32) -> (r: Rect)
        ensures
            r == (Rect { left, top, bottom, right }),
    {
        Rect { left: left, top: top, right: right, bottom: bottom }
    }

    /// Builds the rectangle spanned by its top-left and bottom-right corners.
    pub fn new(top_left: Point, bottom_right: Point) -> (r: Rect)
        requires
            top_left.x <= bottom_right.x,
            top_left.y <= bottom_right.y,
        ensures
            r == (Rect {
                left: top_left.x,
                top: top_left.y,
                bottom: bottom_right.y,
                right: bottom_right.x,
            }),
            r.spec_is_valid(),
    {
        Rect::new_unsafe(top_left.x, top_left.y, bottom_right.x, bottom_right.y)
    }

    /// The overlap of `self` and `other`, if they overlap at all.
    pub fn intersect(&self, other: Rect) -> (r: Option<Rect>)
        ensures
            r == self.spec_intersect(other),
            r is None <==> self.disjoint(other),
            self.spec_is_valid() && other.spec_is_valid() && r is Some ==> r->0.spec_is_valid(),
    {
        let rect = Rect::new_unsafe(
            if self.left >= other.left { self.left } else { other.left },
            if self.top >= other.top { self.top } else { other.top },
            if self.right <= other.right { self.right } else { other.right },
            if self.bottom <= other.bottom { self.bottom } else { other.bottom },
        );

        if self.right < other.left || self.bottom < other.top || other.right < self.left
            || other.bottom < self.top {
            Option::None
        } else {
            Option::Some(rect)
        }
    }

    #[verifier::when_used_as_spec(spec_is_valid)]
    pub fn is_valid(&self) -> (b: bool)
        ensures
            b == self.spec_is_valid(),
    {
        self.top <= self.bottom && self.left <= self.right
    }

    /// The smallest rectangle that contains every point of `pts`.
    pub fn from_bounding(pts: &[Point]) -> (r: Rect)
        requires
            pts@.len() > 0,
        ensures
            r.left == min_x(pts@),
            r.top == min_y(pts@),
            r.right == max_x(pts@),
            r.bottom == max_y(pts@),
            r.spec_is_valid(),
    {
        let mut rect = Rect::new_unsafe(i32::MAX, i32::MAX, i32::MIN, i32::MIN);
        let mut i: usize = 0;
        while i < pts.len()
            invariant
                i <= pts@.len(),
                rect.left == min_x(pts@.take(i as int)),
                rect.top == min_y(pts@.take(i as int)),
                rect.right == max_x(pts@.take(i as int)),
                rect.bottom == max_y(pts@.take(i as int)),
                i > 0 ==> rect.spec_is_valid(),
            decreases pts@.len() - i,
        {
            let pt = pts[i];
            proof {
                let next = pts@.take(i + 1);
                assert(next.drop_last() =~= pts@.take(i as int));
                assert(next.last() == pt);
            }
            rect = Rect::new_unsafe(
                if pt.x <= rect.left { pt.x } else { rect.left },
                if pt.y <= rect.top { pt.y } else { rect.top },
                if pt.x >= rect.right { pt.x } else { rect.right },
                if pt.y >= rect.bottom { pt.y } else { rect.bottom },
            );
            i += 1;
        }
        proof {
            assert(pts@.take(pts@.len() as int) =~= pts@);
        }
        rect
    }
}

/// Intersection does not depend on the order of its operands.
pub proof fn lemma_intersect_commutative(a: Rect, b: Rect)
    ensures
        a.spec_intersect(b) == b.spec_intersect(a),
{
}

/// A point lies in the intersection exactly when it lies in both rectangles;
/// in particular no point lies in both of two disjoint rectangles.
pub proof fn lemma_intersect_contains(a: Rect, b: Rect, x: int, y: int)
    ensures
        (a.contains(x, y) && b.contains(x, y)) <==> (a.spec_intersect(b) is Some
            && a.spec_intersect(b)->0.contains(x, y)),
{
}

/// The bounding coordinates enclose every point of `pts`.
pub proof fn lemma_bounding_encloses(pts: Seq<Point>, i: int)
    requires
        0 <= i < pts.len(),
    ensures
        min_x(pts) <= pts[i].x <= max_x(pts),
        min_y(pts) <= pts[i].y <= max_y(pts),
    decreases pts.len(),
{
    if i < pts.len() - 1 {
        lemma_bounding_encloses(pts.drop_last(), i);
    }
}

/// Each bounding coordinate of a non-empty point set is attained by one of
/// its points, so no smaller rectangle encloses them all.
pub proof fn lemma_bounding_attained(pts: Seq<Point>)
    requires
        pts.len() > 0,
    ensures
        exists|i: int| 0 <= i < pts.len() && #[trigger] pts[i].x == min_x(pts),
        exists|i: int| 0 <= i < pts.len() && #[trigger] pts[i].y == min_y(pts),
        exists|i: int| 0 <= i < pts.len() && #[trigger] pts[i].x == max_x(pts),
        exists|i: int| 0 <= i < pts.len() && #[trigger] pts[i].y == max_y(pts),
    decreases pts.len(),
{
    let n = pts.len() - 1;
    let rest = pts.drop_last();
    if n == 0 {
        assert(rest.len() == 0);
        assert(min_x(rest) == i32::MAX && min_y(rest) == i32::MAX);
        assert(max_x(rest) == i32::MIN && max_y(rest) == i32::MIN);
        assert(pts[0] == pts.last());
        assert(pts[0].x == min_x(pts));
        assert(pts[0].y == min_y(pts));
        assert(pts[0].x == max_x(pts));
        assert(pts[0].y == max_y(pts));
    } else {
        lemma_bounding_attained(rest);
        let i0 = choose|i: int| 0 <= i < rest.len() && #[trigger] rest[i].x == min_x(rest);
        let i1 = choose|i: int| 0 <= i < rest.len() && #[trigger] rest[i].y == min_y(rest);
        let i2 = choose|i: int| 0 <= i < rest.len() && #[trigger] rest[i].x == max_x(rest);
        let i3 = choose|i: int| 0 <= i < rest.len() && #[trigger] rest[i].y == max_y(rest);
        let j0 = if pts[n].x <= min_x(rest) { n } else { i0 };
        let j1 = if pts[n].y <= min_y(rest) { n } else { i1 };
        let j2 = if pts[n].x >= max_x(rest) { n } else { i2 };
        let j3 = if pts[n].y >= max_y(rest) { n } else { i3 };
        assert(pts[j0].x == min_x(pts));
        assert(pts[j1].y == min_y(pts));
        assert(pts[j2].x == max_x(pts));
        assert(pts[j3].y == max_y(pts));
    }
}

} // verus!
