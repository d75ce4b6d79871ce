//! A framebuffer: a row-major grid of elements addressed by `(x, y)`.

use vstd::prelude::*;

pub mod pixel_format;

verus! {

/// A `width` by `height` grid of elements of type `T`, stored row by row.
pub struct Bitmap<T> {
    buffer: Vec<T>,
    width: u32,
    height: u32,
}

impl<T> View for Bitmap<T> {
    type V = Seq<T>;

    /// The elements in row-major order: `(x, y)` is at `y * width + x`.
    closed spec fn view(&self) -> Seq<T> {
        self.buffer@
    }
}

/// Distinct in-range coordinates have distinct row-major offsets.
pub proof fn lemma_offset_injective(w: int, x1: int, y1: int, x2: int, y2: int)
    requires
        0 <= x1 < w,
        0 <= x2 < w,
        y1 * w + x1 == y2 * w + x2,
    ensures
        x1 == x2,
        y1 == y2,
{
    assert((y1 - y2) * w == x2 - x1) by (nonlinear_arith)
        requires
            y1 * w + x1 == y2 * w + x2,
    ;
    if y1 > y2 {
        assert((y1 - y2) * w >= w) by (nonlinear_arith)
            requires
                y1 - y2 >= 1,
                w > 0,
        ;
    } else if y1 < y2 {
        assert((y1 - y2) * w <= -w) by (nonlinear_arith)
            requires
                y1 - y2 <= -1,
                w > 0,
        ;
    }
}

/// In-range coordinates have an in-range row-major offset.
pub proof fn lemma_offset_in_range(w: int, h: int, x: int, y: int)
    requires
        0 <= x < w,
        0 <= y < h,
    ensures
        0 <= y * w,
        0 <= y * w + x < w * h,
{
    assert(y * w + x < w * h && 0 <= y * w) by (nonlinear_arith)
        requires
            0 <= x < w,
            0 <= y,
            y + 1 <= h,
    ;
}

impl<T> Bitmap<T> {
    #[verifier::type_invariant]
    spec fn inv(&self) -> bool {
        self.buffer@.len() == self.width * self.height
    }
}

impl<T: Copy> Bitmap<T> {
    /// The number of columns.
    pub closed spec fn spec_width(&self) -> u32 {
        self.width
    }

    /// The number of rows.
    pub closed spec fn spec_height(&self) -> u32 {
        self.height
    }

    /// The element at column `x` of row `y`.
    pub open spec fn pixel(&self, x: int, y: int) -> T {
        self@[y * self.spec_width() + x]
    }

    /// True when `(x, y)` addresses an element of the grid.
    pub open spec fn in_bounds(&self, x: int, y: int) -> bool {
        0 <= x < self.spec_width() && 0 <= y < self.spec_height()
    }

    /// A grid of `width * height` elements, each a default value of `T`.
    pub fn new(width: u32, height: u32) -> (b: Bitmap<T>) where T: Default
        requires
            width * height <= usize::MAX,
        ensures
            b.spec_width() == width,
            b.spec_height() == height,
            b@.len() == width * height,
            forall|i: int| 0 <= i < b@.len() ==> call_ensures(T::default, (), #[trigger] b@[i]),
    {
        assert(width * height <= usize::MAX);
        let len: usize = (width as usize) * (height as usize);
        let mut buffer: Vec<T> = Vec::with_capacity(len);
        let mut i: usize = 0;
        while i < len
            invariant
                i <= len,
                buffer@.len() == i,
                forall|j: int| 0 <= j < i ==> call_ensures(T::default, (), #[trigger] buffer@[j]),
            decreases len - i,
        {
            buffer.push(T::default());
            i += 1;
        }
        Bitmap { buffer: buffer, width: width, height: height }
    }

    #[verifier::when_used_as_spec(spec_width)]
    pub fn width(&self) -> (w: u32)
        ensures
            w == self.spec_width(),
            self@.len() == self.spec_width() * self.spec_height(),
        no_unwind
    {
        proof {
            use_type_invariant(self);
        }
        self.width
    }

    #[verifier::when_used_as_spec(spec_height)]
    pub fn height(&self) -> (h: u32)
        ensures
            h == self.spec_height(),
            self@.len() == self.spec_width() * self.spec_height(),
        no_unwind
    {
        proof {
            use_type_invariant(self);
        }
        self.height
    }

    /// The elements as one contiguous row-major slice.
    pub fn slice(&self) -> (s: &[T])
        ensures
            s@ == self@,
            s@.len() == self.spec_width() * self.spec_height(),
    {
        proof {
            use_type_invariant(self);
        }
        self.buffer.as_slice()
    }

    /// Overwrites every element with `t`.
    pub fn clear(&mut self, t: T)
        ensures
            final(self).spec_width() == old(self).spec_width(),
            final(self).spec_height() == old(self).spec_height(),
            final(self)@ == Seq::new(old(self)@.len(), |i: int| t),
            forall|x: int, y: int| final(self).in_bounds(x, y) ==> final(self).pixel(x, y) == t,
        no_unwind
    {
        proof {
            use_type_invariant(&*self);
        }
        let len = self.buffer.len();
        let mut offset: usize = 0;
        while offset < len
            invariant
                offset <= len,
                len == self.buffer@.len(),
                self.width == old(self).width,
                self.height == old(self).height,
                self.buffer@.len() == old(self).buffer@.len(),
                self.buffer@.len() == self.width * self.height,
                forall|j: int| 0 <= j < offset ==> self.buffer@[j] == t,
            decreases len - offset,
        {
            self.buffer[offset] = t;
            offset += 1;
        }
        proof {
            assert(self@ =~= Seq::new(old(self)@.len(), |i: int| t));
            assert forall|x: int, y: int| self.in_bounds(x, y) implies self.pixel(x, y) == t by {
                lemma_offset_in_range(self.width as int, self.height as int, x, y);
            }
        }
    }

    /// Stores `t` at `(x, y)` and leaves every other element as it was.
    pub fn set_pixel(&mut self, x: u32, y: u32, t: T)
        requires
            old(self).in_bounds(x as int, y as int),
        ensures
            final(self).spec_width() == old(self).spec_width(),
            final(self).spec_height() == old(self).spec_height(),
            final(self)@ == old(self)@.update(y * old(self).spec_width() + x, t),
            final(self)@.len() == old(self)@.len(),
            final(self).pixel(x as int, y as int) == t,
            forall|x2: int, y2: int|
                final(self).in_bounds(x2, y2) && (x2 != x || y2 != y) ==> final(self).pixel(x2, y2)
                    == old(self).pixel(x2, y2),
        no_unwind
    {
        proof {
            use_type_invariant(&*self);
            lemma_offset_in_range(self.width as int, self.height as int, x as int, y as int);
            assert(self.buffer@.len() == self.buffer.len());
        }
        let offset: usize = (y as usize) * (self.width as usize) + (x as usize);
        self.buffer[offset] = t;
        proof {
            assert forall|x2: int, y2: int|
                self.in_bounds(x2, y2) && (x2 != x || y2 != y) implies self.pixel(x2, y2)
                == old(self).pixel(x2, y2) by {
                lemma_offset_in_range(self.width as int, self.height as int, x2, y2);
                if y2 * self.width + x2 == y * self.width + x {
                    lemma_offset_injective(self.width as int, x2, y2, x as int, y as int);
                }
            }
        }
    }

    /// The element stored at `(x, y)`.
    pub fn get_pixel(&self, x: u32, y: u32) -> (t: T)
        requires
            self.in_bounds(x as int, y as int),
        ensures
            t == self.pixel(x as int, y as int),
        no_unwind
    {
        proof {
            use_type_invariant(self);
            lemma_offset_in_range(self.width as int, self.height as int, x as int, y as int);
            assert(self.buffer@.len() == self.buffer.len());
        }
        let offset: usize = (y as usize) * (self.width as usize) + (x as usize);
        self.buffer[offset]
    }
}

} // verus!
