//! The image buffer: a flat, row-major array of pixels.

use vstd::prelude::*;

verus! {

use crate::error::CoreError;
use crate::pixel::Pixel;

/// An image with pixel data of one pixel type.
///
/// The buffer is row-major: the pixel at column `x` and row `y` sits at index
/// `y * width + x`.  The well-formedness predicate [`Image::wf`] ties the
/// buffer length to the dimensions; every constructor establishes it and
/// every operation preserves it.  The fields are public so that contracts can
/// speak about them; use the constructors, which check the length invariant,
/// rather than building the struct by hand.
#[derive(Clone, Debug)]
pub struct Image<P: Pixel> {
    /// Number of pixel columns.
    pub width: usize,
    /// Number of pixel rows.
    pub height: usize,
    /// Row-major pixel data of length `width * height`.
    pub data: Vec<P>,
}

/// A row-major index lies inside the buffer.
pub proof fn lemma_row_major_index(w: int, h: int, x: int, y: int)
    requires
        0 <= x < w,
        0 <= y < h,
    ensures
        0 <= y * w + x < w * h,
{
    assert(y * w + x < w * h) by (nonlinear_arith)
        requires
            0 <= x < w,
            0 <= y < h,
    ;
    assert(0 <= y * w) by (nonlinear_arith)
        requires
            0 <= y,
            0 <= w,
    ;
}

/// Distinct in-bounds positions have distinct row-major indices.
pub proof fn lemma_row_major_injective(w: int, h: int, x1: int, y1: int, x2: int, y2: int)
    requires
        0 <= x1 < w,
        0 <= y1 < h,
        0 <= x2 < w,
        0 <= y2 < h,
        !(x1 == x2 && y1 == y2),
    ensures
        y1 * w + x1 != y2 * w + x2,
{
    assert(y1 * w + x1 != y2 * w + x2) by (nonlinear_arith)
        requires
            0 <= x1 < w,
            0 <= y1 < h,
            0 <= x2 < w,
            0 <= y2 < h,
            !(x1 == x2 && y1 == y2),
    ;
}

impl<P: Pixel> Image<P> {
    /// Width as a mathematical integer.
    pub open spec fn w(self) -> int {
        self.width as int
    }

    /// Height as a mathematical integer.
    pub open spec fn h(self) -> int {
        self.height as int
    }

    /// The pixel buffer as a sequence.
    pub open spec fn pix(self) -> Seq<P> {
        self.data@
    }

    /// The buffer holds exactly one pixel per position.
    pub open spec fn wf(self) -> bool {
        self.pix().len() == self.w() * self.h()
    }

    /// Both coordinates lie inside the dimensions.
    pub open spec fn in_bounds(self, x: int, y: int) -> bool {
        0 <= x < self.w() && 0 <= y < self.h()
    }

    /// The pixel at column `x`, row `y`.
    pub open spec fn at(self, x: int, y: int) -> P {
        self.pix()[y * self.w() + x]
    }

    /// Two images have the same width and height.
    pub open spec fn same_dims(self, other: Self) -> bool {
        self.w() == other.w() && self.h() == other.h()
    }

    /// Creates an image of the given dimensions, every pixel at the default
    /// value: transparent black, or zero luminance.
    pub fn new(width: usize, height: usize) -> (img: Self)
        requires
            width * height <= usize::MAX,
        ensures
            img.wf(),
            img.w() == width,
            img.h() == height,
            forall|i: int| 0 <= i < img.pix().len() ==> img.pix()[i] == P::default_spec(),
    {
        let n = width * height;
        let mut data: Vec<P> = Vec::new();
        let mut i: usize = 0;
        while i < n
            invariant
                i <= n,
                data@.len() == i,
                forall|k: int| 0 <= k < i ==> data@[k] == P::default_spec(),
            decreases n - i,
        {
            data.push(P::new());
            i = i + 1;
        }
        Image { width, height, data }
    }

    /// Builds an image from a prefilled row-major buffer.  Fails with
    /// [`CoreError::InvalidData`] if and only if the buffer length does not
    /// equal `width * height`.
    pub fn from_data(width: usize, height: usize, data: Vec<P>) -> (res: Result<Self, CoreError>)
        ensures
            res is Ok <==> data@.len() == width * height,
            res is Ok ==> {
                let img = res->Ok_0;
                &&& img.wf()
                &&& img.w() == width
                &&& img.h() == height
                &&& img.pix() == data@
            },
            res is Err ==> res == Err::<Self, CoreError>(CoreError::InvalidData),
    {
        proof {
            assert((width as u128) * (height as u128) < u128::MAX) by (nonlinear_arith)
                requires
                    width <= u64::MAX,
                    height <= u64::MAX,
            ;
        }
        if (width as u128) * (height as u128) != (data.len() as u128) {
            return Err(CoreError::InvalidData);
        }
        Ok(Image { width, height, data })
    }

    /// Returns the image with every pixel set to `color`.
    pub fn fill(self, color: P) -> (img: Self)
        ensures
            img.w() == self.w(),
            img.h() == self.h(),
            img.pix().len() == self.pix().len(),
            forall|i: int| 0 <= i < img.pix().len() ==> img.pix()[i] == color,
    {
        let n = self.data.len();
        let mut data: Vec<P> = Vec::new();
        let mut i: usize = 0;
        while i < n
            invariant
                i <= n,
                data@.len() == i,
                forall|k: int| 0 <= k < i ==> data@[k] == color,
            decreases n - i,
        {
            data.push(color);
            i = i + 1;
        }
        Image { width: self.width, height: self.height, data }
    }

    /// Stacks `other` below `self`.  Fails with [`CoreError::InvalidData`] if
    /// and only if the widths differ; on success the rows of `other` follow
    /// the rows of `self`.
    pub fn vstack(self, other: &Self) -> (res: Result<Self, CoreError>)
        requires
            self.wf(),
            other.wf(),
            self.h() + other.h() <= usize::MAX,
        ensures
            res is Ok <==> self.w() == other.w(),
            res is Ok ==> {
                let img = res->Ok_0;
                &&& img.wf()
                &&& img.w() == self.w()
                &&& img.h() == self.h() + other.h()
                &&& img.pix() == self.pix() + other.pix()
            },
            res is Err ==> res == Err::<Self, CoreError>(CoreError::InvalidData),
    {
        if self.width != other.width {
            return Err(CoreError::InvalidData);
        }
        let height = self.height + other.height;
        let mut data = self.data;
        let n = other.data.len();
        let mut i: usize = 0;
        proof {
            assert(self.w() * (self.h() + other.h()) == self.w() * self.h() + self.w()
                * other.h()) by (nonlinear_arith);
        }
        while i < n
            invariant
                i <= n,
                n == other.pix().len(),
                data@ == self.pix() + other.pix().take(i as int),
            decreases n - i,
        {
            data.push(other.data[i]);
            proof {
                assert(other.pix().take(i + 1) == other.pix().take(i as int).push(
                    other.pix()[i as int],
                ));
            }
            i = i + 1;
        }
        proof {
            assert(other.pix().take(n as int) == other.pix());
        }
        Ok(Image { width: self.width, height, data })
    }

    /// The pixel at `position == (x, y)`.  Fails with
    /// [`CoreError::OutOfBounds`] if and only if a coordinate is at or beyond
    /// the corresponding dimension; there is no wraparound and no clamping.
    pub fn get_pixel(&self, position: (usize, usize)) -> (res: Result<&P, CoreError>)
        requires
            self.wf(),
        ensures
            res is Ok <==> self.in_bounds(position.0 as int, position.1 as int),
            res is Ok ==> *res->Ok_0 == self.at(position.0 as int, position.1 as int),
            res is Err ==> res == Err::<&P, CoreError>(CoreError::OutOfBounds),
    {
        let (x, y) = position;
        if x >= self.width || y >= self.height {
            return Err(CoreError::OutOfBounds);
        }
        let n = self.data.len();
        proof {
            lemma_row_major_index(self.w(), self.h(), x as int, y as int);
        }
        Ok(&self.data[y * self.width + x])
    }

    /// Sets the pixel at `position == (x, y)` to `color`.  Fails with
    /// [`CoreError::OutOfBounds`] if and only if a coordinate is at or beyond
    /// the corresponding dimension, leaving the image unchanged.
    pub fn set_pixel(&mut self, position: (usize, usize), color: P) -> (res: Result<
        (),
        CoreError,
    >)
        requires
            old(self).wf(),
        ensures
            final(self).wf(),
            final(self).same_dims(*old(self)),
            res is Ok <==> old(self).in_bounds(position.0 as int, position.1 as int),
            res is Ok ==> final(self).pix() == old(self).pix().update(
                position.1 * old(self).w() + position.0,
                color,
            ),
            res is Err ==> *final(self) == *old(self) && res == Err::<(), CoreError>(
                CoreError::OutOfBounds,
            ),
    {
        let (x, y) = position;
        if x >= self.width || y >= self.height {
            return Err(CoreError::OutOfBounds);
        }
        let n = self.data.len();
        proof {
            lemma_row_major_index(self.w(), self.h(), x as int, y as int);
        }
        self.data[y * self.width + x] = color;
        Ok(())
    }

    /// The dimensions as `(width, height)`.
    pub fn dimensions(&self) -> (dims: (usize, usize))
        ensures
            dims.0 == self.w(),
            dims.1 == self.h(),
    {
        (self.width, self.height)
    }

    /// The image holds no pixel data.
    pub fn is_empty(&self) -> (r: bool)
        ensures
            r <==> self.pix().len() == 0,
    {
        self.data.len() == 0
    }
}

/// Writing a pixel and reading it back returns exactly the written color, and
/// leaves every other position untouched: if `after` holds the buffer of
/// `before` updated at the row-major index of an in-bounds `(x, y)` with `c`
/// — which is what a successful `set_pixel` ensures — then `get_pixel` at
/// `(x, y)` sees `c`, and every other in-bounds position keeps its old pixel.
pub proof fn lemma_set_then_get<P: Pixel>(before: Image<P>, after: Image<P>, x: int, y: int, c: P)
    requires
        before.wf(),
        before.in_bounds(x, y),
        after.same_dims(before),
        after.pix() == before.pix().update(y * before.w() + x, c),
    ensures
        after.wf(),
        after.at(x, y) == c,
        forall|i: int, j: int|
            before.in_bounds(i, j) && !(i == x && j == y) ==> after.at(i, j) == before.at(i, j),
{
    lemma_row_major_index(before.w(), before.h(), x, y);
    assert forall|i: int, j: int|
        before.in_bounds(i, j) && !(i == x && j == y) implies after.at(i, j) == before.at(
        i,
        j,
    ) by {
        lemma_row_major_index(before.w(), before.h(), i, j);
        lemma_row_major_injective(before.w(), before.h(), x, y, i, j);
    }
}

} // verus!
