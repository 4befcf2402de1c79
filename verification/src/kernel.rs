//! Convolution kernels and structuring elements.
//!
//! A kernel is a small row-major grid of rational weights sharing one
//! positive denominator: the weight at `(kx, ky)` is
//! `weights[ky * width + kx] / scale`.  All kernel arithmetic is exact; the
//! factories build the classic edge, blur and morphology grids.

use vstd::prelude::*;

verus! {

use crate::error::{CoreError, Error};

/// Largest weight numerator magnitude a kernel may hold.
pub const WEIGHT_LIMIT: i32 = 1_000_000;

/// Largest denominator a kernel may hold.
pub const SCALE_LIMIT: u32 = 1_000_000_000;

/// Largest kernel width and height.
pub const KERNEL_DIM_LIMIT: usize = 255;

/// A convolution kernel: a grid of weight numerators over one denominator.
///
/// The limits on dimensions, numerators and denominator keep every
/// convolution sum within 64-bit range.  Use [`Kernel::from_weights`], which
/// checks them, rather than building the struct by hand.
#[derive(Clone, Debug)]
pub struct Kernel {
    /// Number of weight columns.
    pub width: usize,
    /// Number of weight rows.
    pub height: usize,
    /// Row-major weight numerators.
    pub weights: Vec<i32>,
    /// The common positive denominator of all weights.
    pub scale: u32,
}

impl Kernel {
    /// Width as a mathematical integer.
    pub open spec fn w(self) -> int {
        self.width as int
    }

    /// Height as a mathematical integer.
    pub open spec fn h(self) -> int {
        self.height as int
    }

    /// The weight numerators as a sequence.
    pub open spec fn wts(self) -> Seq<i32> {
        self.weights@
    }

    /// The weight numerator at column `kx`, row `ky`.
    pub open spec fn wt(self, kx: int, ky: int) -> int {
        self.wts()[ky * self.w() + kx] as int
    }

    /// The grid holds one weight per cell and respects the size limits.
    pub open spec fn wf(self) -> bool {
        &&& self.wts().len() == self.w() * self.h()
        &&& 1 <= self.w() <= KERNEL_DIM_LIMIT
        &&& 1 <= self.h() <= KERNEL_DIM_LIMIT
        &&& 1 <= self.scale <= SCALE_LIMIT
        &&& forall|i: int|
            0 <= i < self.wts().len() ==> -WEIGHT_LIMIT <= #[trigger] self.wts()[i] <= WEIGHT_LIMIT
    }

    /// Width and height are both odd, as convolution and morphology require.
    pub open spec fn odd(self) -> bool {
        self.w() % 2 == 1 && self.h() % 2 == 1
    }

    /// The kernel is a 0/1 mask over denominator one: a structuring element.
    pub open spec fn is_mask(self) -> bool {
        &&& self.scale == 1
        &&& forall|i: int|
            0 <= i < self.wts().len() ==> (#[trigger] self.wts()[i] == 0 || self.wts()[i] == 1)
    }

    /// Builds a kernel from a row-major grid of weight numerators over one
    /// denominator.  Fails with [`CoreError::InvalidData`] if and only if
    /// the grid length does not match the dimensions or a size limit is
    /// violated.
    pub fn from_weights(width: usize, height: usize, weights: Vec<i32>, scale: u32) -> (res:
        Result<Kernel, Error>)
        ensures
            res is Ok <==> {
                &&& weights@.len() == width * height
                &&& 1 <= width <= KERNEL_DIM_LIMIT
                &&& 1 <= height <= KERNEL_DIM_LIMIT
                &&& 1 <= scale <= SCALE_LIMIT
                &&& forall|i: int|
                    0 <= i < weights@.len() ==> -WEIGHT_LIMIT <= #[trigger] weights@[i]
                        <= WEIGHT_LIMIT
            },
            res is Ok ==> {
                let k = res->Ok_0;
                &&& k.wf()
                &&& k.w() == width
                &&& k.h() == height
                &&& k.wts() == weights@
                &&& k.scale == scale
            },
            res is Err ==> res == Err::<Kernel, Error>(Error::CoreError(CoreError::InvalidData)),
    {
        if width < 1 || width > KERNEL_DIM_LIMIT || height < 1 || height > KERNEL_DIM_LIMIT {
            return Err(Error::CoreError(CoreError::InvalidData));
        }
        if scale < 1 || scale > SCALE_LIMIT {
            return Err(Error::CoreError(CoreError::InvalidData));
        }
        proof {
            assert(1 <= (width as int) * (height as int) <= 65025) by (nonlinear_arith)
                requires
                    1 <= width <= 255,
                    1 <= height <= 255,
            ;
        }
        if weights.len() != width * height {
            return Err(Error::CoreError(CoreError::InvalidData));
        }
        let n = weights.len();
        let mut i: usize = 0;
        while i < n
            invariant
                i <= n,
                n == weights@.len(),
                forall|j: int|
                    0 <= j < i ==> -WEIGHT_LIMIT <= #[trigger] weights@[j] <= WEIGHT_LIMIT,
            decreases n - i,
        {
            let v = weights[i];
            if v < -WEIGHT_LIMIT || v > WEIGHT_LIMIT {
                return Err(Error::CoreError(CoreError::InvalidData));
            }
            i = i + 1;
        }
        Ok(Kernel { width, height, weights, scale })
    }

    /// The dimensions as `(width, height)`.
    pub fn dimensions(&self) -> (dims: (usize, usize))
        ensures
            dims.0 == self.w(),
            dims.1 == self.h(),
    {
        (self.width, self.height)
    }
}

/// The shape of a morphological structuring element.
pub enum StructuringElementShape {
    /// Every tap active.
    Rectangle,
    /// Taps within the inscribed disk active.
    Disk,
    /// Taps on the horizontal and vertical midline active.
    Cross,
}

/// The 0/1 weight a structuring element of the given shape has at
/// `(kx, ky)`: all ones for a rectangle; one within the disk
/// `(kx - w/2)^2 + (ky - h/2)^2 <= (w/2)^2` for a disk; one on the two
/// midlines for a cross.
pub open spec fn se_weight(
    shape: StructuringElementShape,
    kx: int,
    ky: int,
    w: int,
    h: int,
) -> int {
    match shape {
        StructuringElementShape::Rectangle => 1,
        StructuringElementShape::Disk => {
            let dx = kx - w / 2;
            let dy = ky - h / 2;
            if dx * dx + dy * dy <= (w / 2) * (w / 2) {
                1
            } else {
                0
            }
        },
        StructuringElementShape::Cross => if ky == h / 2 || kx == w / 2 {
            1
        } else {
            0
        },
    }
}

/// Builds the 0/1 mask of the given shape and size, for use by morphology.
/// Fails with [`CoreError::InvalidData`] if and only if a dimension is zero
/// or beyond [`KERNEL_DIM_LIMIT`].
pub fn structuring_element(shape: StructuringElementShape, size: (usize, usize)) -> (res: Result<
    Kernel,
    Error,
>)
    ensures
        res is Ok <==> (1 <= size.0 <= KERNEL_DIM_LIMIT && 1 <= size.1 <= KERNEL_DIM_LIMIT),
        res is Ok ==> {
            let k = res->Ok_0;
            &&& k.wf()
            &&& k.is_mask()
            &&& k.w() == size.0
            &&& k.h() == size.1
            &&& forall|kx: int, ky: int|
                0 <= kx < k.w() && 0 <= ky < k.h() ==> k.wt(kx, ky) == se_weight(
                    shape,
                    kx,
                    ky,
                    k.w(),
                    k.h(),
                )
        },
        res is Err ==> res == Err::<Kernel, Error>(Error::CoreError(CoreError::InvalidData)),
{
    let (width, height) = size;
    if width < 1 || width > KERNEL_DIM_LIMIT || height < 1 || height > KERNEL_DIM_LIMIT {
        return Err(Error::CoreError(CoreError::InvalidData));
    }
    let mut weights: Vec<i32> = Vec::new();
    let mut ky: usize = 0;
    while ky < height
        invariant
            ky <= height,
            1 <= width <= KERNEL_DIM_LIMIT,
            1 <= height <= KERNEL_DIM_LIMIT,
            weights@.len() == ky * width,
            forall|qx: int, qy: int|
                0 <= qx < width && 0 <= qy < ky ==> #[trigger] weights@[qy * width + qx]
                    == se_weight(shape, qx, qy, width as int, height as int),
            forall|j: int| 0 <= j < weights@.len() ==> (#[trigger] weights@[j] == 0 || weights@[j] == 1),
        decreases height - ky,
    {
        let mut kx: usize = 0;
        while kx < width
            invariant
                kx <= width,
                ky < height,
                1 <= width <= KERNEL_DIM_LIMIT,
                1 <= height <= KERNEL_DIM_LIMIT,
                weights@.len() == ky * width + kx,
                forall|qx: int, qy: int|
                    0 <= qx < width && 0 <= qy < ky ==> #[trigger] weights@[qy * width + qx]
                        == se_weight(shape, qx, qy, width as int, height as int),
                forall|qx: int|
                    0 <= qx < kx ==> #[trigger] weights@[ky * width + qx] == se_weight(
                        shape,
                        qx,
                        ky as int,
                        width as int,
                        height as int,
                    ),
                forall|j: int|
                    0 <= j < weights@.len() ==> (#[trigger] weights@[j] == 0 || weights@[j] == 1),
            decreases width - kx,
        {
            let half_w = width / 2;
            let half_h = height / 2;
            let active: bool = match shape {
                StructuringElementShape::Rectangle => true,
                StructuringElementShape::Disk => {
                    let dx: i64 = (kx as i64) - (half_w as i64);
                    let dy: i64 = (ky as i64) - (half_h as i64);
                    proof {
                        crate::math::lemma_square_le(dx as int, 255);
                        crate::math::lemma_square_le(dy as int, 255);
                        crate::math::lemma_square_le(half_w as int, 255);
                    }
                    dx * dx + dy * dy <= (half_w as i64) * (half_w as i64)
                },
                StructuringElementShape::Cross => ky == half_h || kx == half_w,
            };
            weights.push(if active { 1 } else { 0 });
            proof {
                assert forall|qx: int, qy: int|
                    0 <= qx < width as int && 0 <= qy < ky as int implies 0 <= #[trigger] (qy * (
                width as int) + qx) && qy * (width as int) + qx < (ky as int) * (width as int) by {
                    crate::image::lemma_row_major_index(width as int, ky as int, qx, qy);
                    assert((width as int) * (ky as int) == (ky as int) * (width as int))
                        by (nonlinear_arith);
                }
            }
            kx = kx + 1;
        }
        proof {
            assert((ky as int + 1) * (width as int) == (ky as int) * (width as int) + (
            width as int)) by (nonlinear_arith);
            assert forall|qx: int, qy: int|
                0 <= qx < width && 0 <= qy < ky as int + 1 implies #[trigger] weights@[qy * width
                + qx] == se_weight(shape, qx, qy, width as int, height as int) by {
                if qy == ky as int {
                    assert(weights@[(ky as int) * width + qx] == se_weight(
                        shape,
                        qx,
                        ky as int,
                        width as int,
                        height as int,
                    ));
                }
            }
        }
        ky = ky + 1;
    }
    proof {
        assert(weights@.len() == height * width);
        assert(height * width == width * height) by (nonlinear_arith);
    }
    match Kernel::from_weights(width, height, weights, 1) {
        Ok(k) => Ok(k),
        Err(e) => Err(e),
    }
}

/// The horizontal Sobel edge kernel, weights over denominator one.
pub fn sobel_x() -> (k: Kernel)
    ensures
        k.wf(),
        k.odd(),
        k.w() == 3,
        k.h() == 3,
        k.scale == 1,
        k.wts() =~= seq![-1i32, -2i32, -1i32, 0i32, 0i32, 0i32, 1i32, 2i32, 1i32],
{
    let mut w: Vec<i32> = Vec::new();
    w.push(-1);
    w.push(-2);
    w.push(-1);
    w.push(0);
    w.push(0);
    w.push(0);
    w.push(1);
    w.push(2);
    w.push(1);
    Kernel { width: 3, height: 3, weights: w, scale: 1 }
}

/// The vertical Sobel edge kernel, weights over denominator one.
pub fn sobel_y() -> (k: Kernel)
    ensures
        k.wf(),
        k.odd(),
        k.w() == 3,
        k.h() == 3,
        k.scale == 1,
        k.wts() =~= seq![-1i32, 0i32, 1i32, -2i32, 0i32, 2i32, -1i32, 0i32, 1i32],
{
    let mut w: Vec<i32> = Vec::new();
    w.push(-1);
    w.push(0);
    w.push(1);
    w.push(-2);
    w.push(0);
    w.push(2);
    w.push(-1);
    w.push(0);
    w.push(1);
    Kernel { width: 3, height: 3, weights: w, scale: 1 }
}

/// The 3x3 Laplacian kernel, weights over denominator one.
pub fn laplacian_3x3() -> (k: Kernel)
    ensures
        k.wf(),
        k.odd(),
        k.w() == 3,
        k.h() == 3,
        k.scale == 1,
        k.wts() =~= seq![0i32, 1i32, 0i32, 1i32, -4i32, 1i32, 0i32, 1i32, 0i32],
{
    let mut w: Vec<i32> = Vec::new();
    w.push(0);
    w.push(1);
    w.push(0);
    w.push(1);
    w.push(-4);
    w.push(1);
    w.push(0);
    w.push(1);
    w.push(0);
    Kernel { width: 3, height: 3, weights: w, scale: 1 }
}

/// The box blur kernel of the given side length: every weight is
/// `1 / (size * size)`.  Fails with [`CoreError::InvalidData`] if and only
/// if `size` is zero or beyond [`KERNEL_DIM_LIMIT`].
pub fn box_filter(size: usize) -> (res: Result<Kernel, Error>)
    ensures
        res is Ok <==> 1 <= size <= KERNEL_DIM_LIMIT,
        res is Ok ==> {
            let k = res->Ok_0;
            &&& k.wf()
            &&& k.w() == size
            &&& k.h() == size
            &&& k.scale == size * size
            &&& forall|i: int| 0 <= i < k.wts().len() ==> #[trigger] k.wts()[i] == 1
        },
        res is Err ==> res == Err::<Kernel, Error>(Error::CoreError(CoreError::InvalidData)),
{
    if size < 1 || size > KERNEL_DIM_LIMIT {
        return Err(Error::CoreError(CoreError::InvalidData));
    }
    proof {
        assert(1 <= (size as int) * (size as int) <= 65025) by (nonlinear_arith)
            requires
                1 <= size <= 255,
        ;
    }
    let n = size * size;
    let mut w: Vec<i32> = Vec::new();
    let mut i: usize = 0;
    while i < n
        invariant
            i <= n,
            w@.len() == i,
            forall|j: int| 0 <= j < i ==> #[trigger] w@[j] == 1,
        decreases n - i,
    {
        w.push(1);
        i = i + 1;
    }
    Ok(Kernel { width: size, height: size, weights: w, scale: (size * size) as u32 })
}

} // verus!
