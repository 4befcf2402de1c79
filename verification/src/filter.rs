//! 2D convolution with selectable border handling.
//!
//! The output channel at `(x, y)` is the sum over kernel taps of
//! `sample(x + kx - w/2, y + ky - h/2) * weight(kx, ky)`, computed in exact
//! rational arithmetic, rounded to nearest and clamped to the primitive
//! range.  Out-of-range sample coordinates are sourced according to the
//! border mode; the alpha channel of a color image is copied unmodified from
//! the center source pixel.

use vstd::prelude::*;

verus! {

use crate::error::{CoreError, Error};
use crate::image::{Image, lemma_row_major_index};
use crate::kernel::Kernel;
use crate::math::{rdiv, clamp_int, rdiv_i64};
use crate::pixel::{Channel, Luma, Pixel, Rgba};

/// Policy for sourcing samples whose coordinate falls outside the image.
#[derive(Clone, Copy, Debug, PartialEq, Eq, Structural)]
pub enum BorderMode {
    /// Clamp the coordinate to the nearest edge.
    Replicate,
    /// Wrap the coordinate around the image.
    Wrap,
    /// Out-of-range taps contribute this raw channel value; the alpha of
    /// the center pixel is never convolved.
    Constant(u32),
    /// Mirror the coordinate once across the nearest edge.
    Reflect,
}

impl BorderMode {
    /// A constant border value must itself be a channel value of the
    /// primitive with bound `m`.
    pub open spec fn ok_for(self, m: int) -> bool {
        match self {
            BorderMode::Constant(v) => v as int <= m,
            _ => true,
        }
    }
}

/// The in-range coordinate a border mode maps `c` to, on an axis of extent
/// `dim`.  Not used for `Constant`, which substitutes a value instead of
/// moving the coordinate.
pub open spec fn resolve_coord(c: int, dim: int, mode: BorderMode) -> int {
    match mode {
        BorderMode::Replicate => clamp_int(c, 0, dim - 1),
        BorderMode::Wrap => c % dim,
        BorderMode::Constant(_) => c,
        BorderMode::Reflect => if c < 0 {
            -c
        } else if c >= dim {
            2 * (dim - 1) - c
        } else {
            c
        },
    }
}

/// The luminance value convolution reads at `(x, y)`, border mode applied.
pub open spec fn sample_luma<T: Channel>(
    img: Image<Luma<T>>,
    x: int,
    y: int,
    mode: BorderMode,
) -> int {
    match mode {
        BorderMode::Constant(v) => if img.in_bounds(x, y) {
            img.at(x, y).l.val()
        } else {
            v as int
        },
        _ => img.at(resolve_coord(x, img.w(), mode), resolve_coord(y, img.h(), mode)).l.val(),
    }
}

/// The partial convolution sum at output `(x, y)` over the first `kx` taps
/// of kernel row `ky`.
pub open spec fn conv_row_luma<T: Channel>(
    img: Image<Luma<T>>,
    k: Kernel,
    mode: BorderMode,
    x: int,
    y: int,
    ky: int,
    kx: int,
) -> int
    decreases kx,
{
    if kx <= 0 {
        0
    } else {
        conv_row_luma(img, k, mode, x, y, ky, kx - 1) + k.wt(kx - 1, ky) * sample_luma(
            img,
            x + (kx - 1) - k.w() / 2,
            y + ky - k.h() / 2,
            mode,
        )
    }
}

/// The partial convolution sum at output `(x, y)` over the first `ky` full
/// kernel rows.
pub open spec fn conv_rows_luma<T: Channel>(
    img: Image<Luma<T>>,
    k: Kernel,
    mode: BorderMode,
    x: int,
    y: int,
    ky: int,
) -> int
    decreases ky,
{
    if ky <= 0 {
        0
    } else {
        conv_rows_luma(img, k, mode, x, y, ky - 1) + conv_row_luma(img, k, mode, x, y, ky - 1, k.w())
    }
}

/// The convolved output pixel at `(x, y)`: the full tap sum over the
/// kernel's denominator, rounded to nearest and clamped to the primitive
/// range.
pub open spec fn conv_px_luma<T: Channel>(
    img: Image<Luma<T>>,
    k: Kernel,
    mode: BorderMode,
    x: int,
    y: int,
) -> Luma<T> {
    Luma {
        l: T::of_val(
            clamp_int(
                rdiv(conv_rows_luma(img, k, mode, x, y, k.h()), k.scale as int),
                0,
                T::max_spec(),
            ),
        ),
    }
}

/// Every sample lies within the primitive range.
pub proof fn lemma_sample_luma_range<T: Channel>(
    img: Image<Luma<T>>,
    x: int,
    y: int,
    mode: BorderMode,
)
    requires
        mode.ok_for(T::max_spec()),
    ensures
        0 <= sample_luma(img, x, y, mode) <= T::max_spec(),
{
    img.at(x, y).l.lemma_in_bound();
    img.at(resolve_coord(x, img.w(), mode), resolve_coord(y, img.h(), mode)).l.lemma_in_bound();
}

/// A partial row sum of a well-formed kernel is bounded by the tap count
/// times the largest weight-sample product.
pub proof fn lemma_conv_row_luma_bound<T: Channel>(
    img: Image<Luma<T>>,
    k: Kernel,
    mode: BorderMode,
    x: int,
    y: int,
    ky: int,
    kx: int,
)
    requires
        k.wf(),
        mode.ok_for(T::max_spec()),
        0 <= ky < k.h(),
        0 <= kx <= k.w(),
    ensures
        -(kx * 65_535_000_000) <= conv_row_luma(img, k, mode, x, y, ky, kx) <= kx * 65_535_000_000,
    decreases kx,
{
    T::lemma_bound_range();
    if kx > 0 {
        lemma_conv_row_luma_bound(img, k, mode, x, y, ky, kx - 1);
        lemma_sample_luma_range(img, x + (kx - 1) - k.w() / 2, y + ky - k.h() / 2, mode);
        lemma_row_major_index(k.w(), k.h(), kx - 1, ky);
        let w = k.wt(kx - 1, ky);
        let s = sample_luma(img, x + (kx - 1) - k.w() / 2, y + ky - k.h() / 2, mode);
        assert(-65_535_000_000 <= w * s <= 65_535_000_000) by (nonlinear_arith)
            requires
                -1_000_000 <= w <= 1_000_000,
                0 <= s <= 0xFFFF,
        ;
    }
}

/// A partial sum over full kernel rows is bounded by the row count times
/// the largest row sum.
pub proof fn lemma_conv_rows_luma_bound<T: Channel>(
    img: Image<Luma<T>>,
    k: Kernel,
    mode: BorderMode,
    x: int,
    y: int,
    ky: int,
)
    requires
        k.wf(),
        mode.ok_for(T::max_spec()),
        0 <= ky <= k.h(),
    ensures
        -(ky * 16_711_425_000_000) <= conv_rows_luma(img, k, mode, x, y, ky) <= ky
            * 16_711_425_000_000,
    decreases ky,
{
    if ky > 0 {
        lemma_conv_rows_luma_bound(img, k, mode, x, y, ky - 1);
        lemma_conv_row_luma_bound(img, k, mode, x, y, ky - 1, k.w());
    }
}

/// The in-range coordinate of a non-constant border mode, in executable
/// form.
fn resolve_coord_exec(c: i128, dim: usize, mode: BorderMode) -> (r: usize)
    requires
        1 <= dim,
        -(dim as int) < c,
        c < 2 * (dim as int) - 1,
        !(mode is Constant),
    ensures
        r as int == resolve_coord(c as int, dim as int, mode),
        r < dim,
{
    match mode {
        BorderMode::Replicate => {
            if c < 0 {
                0
            } else if c > (dim as i128) - 1 {
                dim - 1
            } else {
                c as usize
            }
        },
        BorderMode::Wrap => {
            let shifted: i128 = c + (dim as i128);
            let r: i128 = shifted % (dim as i128);
            proof {
                vstd::arithmetic::div_mod::lemma_mod_multiples_vanish(
                    1,
                    c as int,
                    dim as int,
                );
                vstd::arithmetic::div_mod::lemma_mod_division_less_than_divisor(
                    c as int,
                    dim as int,
                );
            }
            r as usize
        },
        BorderMode::Constant(_) => {
            proof {
                assert(false);
            }
            0
        },
        BorderMode::Reflect => {
            if c < 0 {
                (-c) as usize
            } else if c >= dim as i128 {
                (2 * ((dim as i128) - 1) - c) as usize
            } else {
                c as usize
            }
        },
    }
}

impl<T: Channel> Image<Luma<T>> {
    /// Convolves the image with `kernel` under the given border mode.  The
    /// output at `(x, y)` is the rounded, clamped tap sum of
    /// [`conv_px_luma`].  Fails with [`CoreError::InvalidData`] if and only
    /// if a kernel dimension is even or exceeds the corresponding image
    /// dimension.
    pub fn convolve_2d(self, kernel: Kernel, mode: BorderMode) -> (res: Result<Self, Error>)
        requires
            self.wf(),
            kernel.wf(),
            mode.ok_for(T::max_spec()),
        ensures
            res is Ok <==> (kernel.odd() && kernel.w() <= self.w() && kernel.h() <= self.h()),
            res is Ok ==> {
                let img = res->Ok_0;
                &&& img.wf()
                &&& img.same_dims(self)
                &&& forall|px: int, py: int|
                    self.in_bounds(px, py) ==> img.at(px, py) == conv_px_luma(
                        self,
                        kernel,
                        mode,
                        px,
                        py,
                    )
            },
            res is Err ==> res == Err::<Self, Error>(Error::CoreError(CoreError::InvalidData)),
    {
        if kernel.width % 2 == 0 || kernel.height % 2 == 0 {
            return Err(Error::CoreError(CoreError::InvalidData));
        }
        if kernel.width > self.width || kernel.height > self.height {
            return Err(Error::CoreError(CoreError::InvalidData));
        }
        let m = T::max_raw();
        proof {
            T::lemma_bound_range();
        }
        let kw = kernel.width;
        let kh = kernel.height;
        let half_w = kw / 2;
        let half_h = kh / 2;
        let mut data: Vec<Luma<T>> = Vec::new();
        let mut y: usize = 0;
        while y < self.height
            invariant
                y <= self.height,
                self.wf(),
                kernel.wf(),
                mode.ok_for(T::max_spec()),
                kernel.w() <= self.w(),
                kernel.h() <= self.h(),
                m as int == T::max_spec(),
                255 <= m <= 0xFFFF,
                kw == kernel.w(),
                kh == kernel.h(),
                half_w == kernel.w() / 2,
                half_h == kernel.h() / 2,
                data@.len() == y * self.w(),
                forall|px: int, py: int|
                    0 <= px < self.w() && 0 <= py < y ==> #[trigger] data@[py * self.w() + px]
                        == conv_px_luma(self, kernel, mode, px, py),
            decreases self.h() - y,
        {
            let mut x: usize = 0;
            while x < self.width
                invariant
                    y < self.height,
                    x <= self.width,
                    self.wf(),
                    kernel.wf(),
                    mode.ok_for(T::max_spec()),
                    kernel.w() <= self.w(),
                    kernel.h() <= self.h(),
                    m as int == T::max_spec(),
                    255 <= m <= 0xFFFF,
                    kw == kernel.w(),
                    kh == kernel.h(),
                    half_w == kernel.w() / 2,
                    half_h == kernel.h() / 2,
                    data@.len() == y * self.w() + x,
                    forall|px: int, py: int|
                        0 <= px < self.w() && 0 <= py < y ==> #[trigger] data@[py * self.w() + px]
                            == conv_px_luma(self, kernel, mode, px, py),
                    forall|px: int|
                        0 <= px < x ==> #[trigger] data@[y * self.w() + px] == conv_px_luma(
                            self,
                            kernel,
                            mode,
                            px,
                            y as int,
                        ),
                decreases self.w() - x,
            {
                let mut acc: i64 = 0;
                let mut ky: usize = 0;
                while ky < kh
                    invariant
                        ky <= kh,
                        x < self.width,
                        y < self.height,
                        self.wf(),
                        kernel.wf(),
                        mode.ok_for(T::max_spec()),
                        kernel.w() <= self.w(),
                        kernel.h() <= self.h(),
                        m as int == T::max_spec(),
                        255 <= m <= 0xFFFF,
                        kw == kernel.w(),
                        kh == kernel.h(),
                        half_w == kernel.w() / 2,
                        half_h == kernel.h() / 2,
                        acc as int == conv_rows_luma(self, kernel, mode, x as int, y as int, ky as int),
                    decreases kh - ky,
                {
                    let mut kx: usize = 0;
                    while kx < kw
                        invariant
                            kx <= kw,
                            ky < kh,
                            x < self.width,
                            y < self.height,
                            self.wf(),
                            kernel.wf(),
                            mode.ok_for(T::max_spec()),
                            kernel.w() <= self.w(),
                            kernel.h() <= self.h(),
                            m as int == T::max_spec(),
                            255 <= m <= 0xFFFF,
                            kw == kernel.w(),
                            kh == kernel.h(),
                            half_w == kernel.w() / 2,
                            half_h == kernel.h() / 2,
                            acc as int == conv_rows_luma(self, kernel, mode, x as int, y as int, ky as int)
                                + conv_row_luma(self, kernel, mode, x as int, y as int, ky as int, kx as int),
                        decreases kw - kx,
                    {
                        let sxc: i128 = (x as i128) + (kx as i128) - (half_w as i128);
                        let syc: i128 = (y as i128) + (ky as i128) - (half_h as i128);
                        let sval: u32 = match mode {
                            BorderMode::Constant(v) => {
                                if sxc >= 0 && syc >= 0 && sxc < self.width as i128 && syc
                                    < self.height as i128 {
                                    let n = self.data.len();
                                    proof {
                                        lemma_row_major_index(
                                            self.w(),
                                            self.h(),
                                            sxc as int,
                                            syc as int,
                                        );
                                    }
                                    self.data[(syc as usize) * self.width + (sxc as usize)].l.raw()
                                } else {
                                    v
                                }
                            },
                            _ => {
                                let rx = resolve_coord_exec(sxc, self.width, mode);
                                let ry = resolve_coord_exec(syc, self.height, mode);
                                let n = self.data.len();
                                proof {
                                    lemma_row_major_index(self.w(), self.h(), rx as int, ry as int);
                                }
                                self.data[ry * self.width + rx].l.raw()
                            },
                        };
                        proof {
                            lemma_sample_luma_range(
                                self,
                                sxc as int,
                                syc as int,
                                mode,
                            );
                            lemma_row_major_index(kernel.w(), kernel.h(), kx as int, ky as int);
                            lemma_conv_rows_luma_bound(
                                self,
                                kernel,
                                mode,
                                x as int,
                                y as int,
                                ky as int,
                            );
                            lemma_conv_row_luma_bound(
                                self,
                                kernel,
                                mode,
                                x as int,
                                y as int,
                                ky as int,
                                kx as int,
                            );
                            let w = kernel.wt(kx as int, ky as int);
                            let s = sample_luma(self, sxc as int, syc as int, mode);
                            assert(-65_535_000_000 <= w * s <= 65_535_000_000) by (nonlinear_arith)
                                requires
                                    -1_000_000 <= w <= 1_000_000,
                                    0 <= s <= 0xFFFF,
                            ;
                        }
                        let wn = kernel.weights[ky * kw + kx];
                        acc = acc + (wn as i64) * (sval as i64);
                        kx = kx + 1;
                    }
                    ky = ky + 1;
                }
                proof {
                    lemma_conv_rows_luma_bound(self, kernel, mode, x as int, y as int, kh as int);
                }
                let q: i64 = rdiv_i64(acc, kernel.scale as i64);
                let lv: i64 = if q < 0 {
                    0
                } else if q > m as i64 {
                    m as i64
                } else {
                    q
                };
                data.push(Luma { l: T::from_raw(lv as u32) });
                proof {
                    assert forall|px: int, py: int|
                        0 <= px < self.w() && 0 <= py < y implies 0 <= #[trigger] (py * self.w()
                        + px) && py * self.w() + px < (y as int) * self.w() by {
                        lemma_row_major_index(self.w(), y as int, px, py);
                        assert(self.w() * (y as int) == (y as int) * self.w()) by (nonlinear_arith);
                    }
                }
                x = x + 1;
            }
            proof {
                assert((y as int + 1) * self.w() == (y as int) * self.w() + self.w())
                    by (nonlinear_arith);
                assert forall|px: int, py: int|
                    0 <= px < self.w() && 0 <= py < y as int + 1 implies #[trigger] data@[py
                    * self.w() + px] == conv_px_luma(self, kernel, mode, px, py) by {
                    if py == y as int {
                        assert(data@[(y as int) * self.w() + px] == conv_px_luma(
                            self,
                            kernel,
                            mode,
                            px,
                            y as int,
                        ));
                    }
                }
            }
            y = y + 1;
        }
        proof {
            assert(data@.len() == self.h() * self.w());
            assert(self.h() * self.w() == self.w() * self.h()) by (nonlinear_arith);
        }
        let out = Image { width: self.width, height: self.height, data };
        proof {
            assert forall|px: int, py: int| self.in_bounds(px, py) implies out.at(px, py)
                == conv_px_luma(self, kernel, mode, px, py) by {
                lemma_row_major_index(self.w(), self.h(), px, py);
            }
        }
        Ok(out)
    }
}

/// The red, green and blue values convolution reads at `(x, y)`, border
/// mode applied.
pub open spec fn sample_rgb<T: Channel>(
    img: Image<Rgba<T>>,
    x: int,
    y: int,
    mode: BorderMode,
) -> (int, int, int) {
    match mode {
        BorderMode::Constant(v) => if img.in_bounds(x, y) {
            (img.at(x, y).r.val(), img.at(x, y).g.val(), img.at(x, y).b.val())
        } else {
            (v as int, v as int, v as int)
        },
        _ => {
            let p = img.at(resolve_coord(x, img.w(), mode), resolve_coord(y, img.h(), mode));
            (p.r.val(), p.g.val(), p.b.val())
        },
    }
}

/// The partial red, green and blue convolution sums at output `(x, y)` over
/// the first `kx` taps of kernel row `ky`.
pub open spec fn conv_row_rgb<T: Channel>(
    img: Image<Rgba<T>>,
    k: Kernel,
    mode: BorderMode,
    x: int,
    y: int,
    ky: int,
    kx: int,
) -> (int, int, int)
    decreases kx,
{
    if kx <= 0 {
        (0, 0, 0)
    } else {
        let p = conv_row_rgb(img, k, mode, x, y, ky, kx - 1);
        let s = sample_rgb(img, x + (kx - 1) - k.w() / 2, y + ky - k.h() / 2, mode);
        let w = k.wt(kx - 1, ky);
        (p.0 + w * s.0, p.1 + w * s.1, p.2 + w * s.2)
    }
}

/// The partial red, green and blue convolution sums at output `(x, y)` over
/// the first `ky` full kernel rows.
pub open spec fn conv_rows_rgb<T: Channel>(
    img: Image<Rgba<T>>,
    k: Kernel,
    mode: BorderMode,
    x: int,
    y: int,
    ky: int,
) -> (int, int, int)
    decreases ky,
{
    if ky <= 0 {
        (0, 0, 0)
    } else {
        let p = conv_rows_rgb(img, k, mode, x, y, ky - 1);
        let r = conv_row_rgb(img, k, mode, x, y, ky - 1, k.w());
        (p.0 + r.0, p.1 + r.1, p.2 + r.2)
    }
}

/// The convolved output pixel at `(x, y)`: each color channel is its
/// rounded, clamped tap sum; alpha is copied from the center source pixel.
pub open spec fn conv_px_rgba<T: Channel>(
    img: Image<Rgba<T>>,
    k: Kernel,
    mode: BorderMode,
    x: int,
    y: int,
) -> Rgba<T> {
    let t = conv_rows_rgb(img, k, mode, x, y, k.h());
    Rgba {
        r: T::of_val(clamp_int(rdiv(t.0, k.scale as int), 0, T::max_spec())),
        g: T::of_val(clamp_int(rdiv(t.1, k.scale as int), 0, T::max_spec())),
        b: T::of_val(clamp_int(rdiv(t.2, k.scale as int), 0, T::max_spec())),
        a: img.at(x, y).a,
    }
}

/// Every color sample lies within the primitive range.
pub proof fn lemma_sample_rgb_range<T: Channel>(
    img: Image<Rgba<T>>,
    x: int,
    y: int,
    mode: BorderMode,
)
    requires
        mode.ok_for(T::max_spec()),
    ensures
        ({
            let s = sample_rgb(img, x, y, mode);
            &&& 0 <= s.0 <= T::max_spec()
            &&& 0 <= s.1 <= T::max_spec()
            &&& 0 <= s.2 <= T::max_spec()
        }),
{
    img.at(x, y).r.lemma_in_bound();
    img.at(x, y).g.lemma_in_bound();
    img.at(x, y).b.lemma_in_bound();
    let p = img.at(resolve_coord(x, img.w(), mode), resolve_coord(y, img.h(), mode));
    p.r.lemma_in_bound();
    p.g.lemma_in_bound();
    p.b.lemma_in_bound();
}

/// A partial color row sum of a well-formed kernel is bounded by the tap
/// count times the largest weight-sample product.
pub proof fn lemma_conv_row_rgb_bound<T: Channel>(
    img: Image<Rgba<T>>,
    k: Kernel,
    mode: BorderMode,
    x: int,
    y: int,
    ky: int,
    kx: int,
)
    requires
        k.wf(),
        mode.ok_for(T::max_spec()),
        0 <= ky < k.h(),
        0 <= kx <= k.w(),
    ensures
        ({
            let p = conv_row_rgb(img, k, mode, x, y, ky, kx);
            &&& -(kx * 65_535_000_000) <= p.0 <= kx * 65_535_000_000
            &&& -(kx * 65_535_000_000) <= p.1 <= kx * 65_535_000_000
            &&& -(kx * 65_535_000_000) <= p.2 <= kx * 65_535_000_000
        }),
    decreases kx,
{
    T::lemma_bound_range();
    if kx > 0 {
        lemma_conv_row_rgb_bound(img, k, mode, x, y, ky, kx - 1);
        lemma_sample_rgb_range(img, x + (kx - 1) - k.w() / 2, y + ky - k.h() / 2, mode);
        lemma_row_major_index(k.w(), k.h(), kx - 1, ky);
        let w = k.wt(kx - 1, ky);
        let s = sample_rgb(img, x + (kx - 1) - k.w() / 2, y + ky - k.h() / 2, mode);
        assert(-65_535_000_000 <= w * s.0 <= 65_535_000_000 && -65_535_000_000 <= w * s.1
            <= 65_535_000_000 && -65_535_000_000 <= w * s.2 <= 65_535_000_000)
            by (nonlinear_arith)
            requires
                -1_000_000 <= w <= 1_000_000,
                0 <= s.0 <= 0xFFFF,
                0 <= s.1 <= 0xFFFF,
                0 <= s.2 <= 0xFFFF,
        ;
    }
}

/// A partial color sum over full kernel rows is bounded by the row count
/// times the largest row sum.
pub proof fn lemma_conv_rows_rgb_bound<T: Channel>(
    img: Image<Rgba<T>>,
    k: Kernel,
    mode: BorderMode,
    x: int,
    y: int,
    ky: int,
)
    requires
        k.wf(),
        mode.ok_for(T::max_spec()),
        0 <= ky <= k.h(),
    ensures
        ({
            let p = conv_rows_rgb(img, k, mode, x, y, ky);
            &&& -(ky * 16_711_425_000_000) <= p.0 <= ky * 16_711_425_000_000
            &&& -(ky * 16_711_425_000_000) <= p.1 <= ky * 16_711_425_000_000
            &&& -(ky * 16_711_425_000_000) <= p.2 <= ky * 16_711_425_000_000
        }),
    decreases ky,
{
    if ky > 0 {
        lemma_conv_rows_rgb_bound(img, k, mode, x, y, ky - 1);
        lemma_conv_row_rgb_bound(img, k, mode, x, y, ky - 1, k.w());
    }
}

impl<T: Channel> Image<Rgba<T>> {
    /// Convolves the color channels with `kernel` under the given border
    /// mode; the alpha channel of each output pixel is copied from the
    /// center source pixel.  The output at `(x, y)` is
    /// [`conv_px_rgba`].  Fails with [`CoreError::InvalidData`] if and only
    /// if a kernel dimension is even or exceeds the corresponding image
    /// dimension.
    pub fn convolve_2d(self, kernel: Kernel, mode: BorderMode) -> (res: Result<Self, Error>)
        requires
            self.wf(),
            kernel.wf(),
            mode.ok_for(T::max_spec()),
        ensures
            res is Ok <==> (kernel.odd() && kernel.w() <= self.w() && kernel.h() <= self.h()),
            res is Ok ==> {
                let img = res->Ok_0;
                &&& img.wf()
                &&& img.same_dims(self)
                &&& forall|px: int, py: int|
                    self.in_bounds(px, py) ==> img.at(px, py) == conv_px_rgba(
                        self,
                        kernel,
                        mode,
                        px,
                        py,
                    )
            },
            res is Err ==> res == Err::<Self, Error>(Error::CoreError(CoreError::InvalidData)),
    {
        if kernel.width % 2 == 0 || kernel.height % 2 == 0 {
            return Err(Error::CoreError(CoreError::InvalidData));
        }
        if kernel.width > self.width || kernel.height > self.height {
            return Err(Error::CoreError(CoreError::InvalidData));
        }
        let m = T::max_raw();
        proof {
            T::lemma_bound_range();
        }
        let kw = kernel.width;
        let kh = kernel.height;
        let half_w = kw / 2;
        let half_h = kh / 2;
        let mut data: Vec<Rgba<T>> = Vec::new();
        let mut y: usize = 0;
        while y < self.height
            invariant
                y <= self.height,
                self.wf(),
                kernel.wf(),
                mode.ok_for(T::max_spec()),
                kernel.w() <= self.w(),
                kernel.h() <= self.h(),
                m as int == T::max_spec(),
                255 <= m <= 0xFFFF,
                kw == kernel.w(),
                kh == kernel.h(),
                half_w == kernel.w() / 2,
                half_h == kernel.h() / 2,
                data@.len() == y * self.w(),
                forall|px: int, py: int|
                    0 <= px < self.w() && 0 <= py < y ==> #[trigger] data@[py * self.w() + px]
                        == conv_px_rgba(self, kernel, mode, px, py),
            decreases self.h() - y,
        {
            let mut x: usize = 0;
            while x < self.width
                invariant
                    y < self.height,
                    x <= self.width,
                    self.wf(),
                    kernel.wf(),
                    mode.ok_for(T::max_spec()),
                    kernel.w() <= self.w(),
                    kernel.h() <= self.h(),
                    m as int == T::max_spec(),
                    255 <= m <= 0xFFFF,
                    kw == kernel.w(),
                    kh == kernel.h(),
                    half_w == kernel.w() / 2,
                    half_h == kernel.h() / 2,
                    data@.len() == y * self.w() + x,
                    forall|px: int, py: int|
                        0 <= px < self.w() && 0 <= py < y ==> #[trigger] data@[py * self.w() + px]
                            == conv_px_rgba(self, kernel, mode, px, py),
                    forall|px: int|
                        0 <= px < x ==> #[trigger] data@[y * self.w() + px] == conv_px_rgba(
                            self,
                            kernel,
                            mode,
                            px,
                            y as int,
                        ),
                decreases self.w() - x,
            {
                let mut acc_r: i64 = 0;
                let mut acc_g: i64 = 0;
                let mut acc_b: i64 = 0;
                let mut ky: usize = 0;
                while ky < kh
                    invariant
                        ky <= kh,
                        x < self.width,
                        y < self.height,
                        self.wf(),
                        kernel.wf(),
                        mode.ok_for(T::max_spec()),
                        kernel.w() <= self.w(),
                        kernel.h() <= self.h(),
                        m as int == T::max_spec(),
                        255 <= m <= 0xFFFF,
                        kw == kernel.w(),
                        kh == kernel.h(),
                        half_w == kernel.w() / 2,
                        half_h == kernel.h() / 2,
                        (acc_r as int, acc_g as int, acc_b as int) == conv_rows_rgb(
                            self,
                            kernel,
                            mode,
                            x as int,
                            y as int,
                            ky as int,
                        ),
                    decreases kh - ky,
                {
                    let mut kx: usize = 0;
                    while kx < kw
                        invariant
                            kx <= kw,
                            ky < kh,
                            x < self.width,
                            y < self.height,
                            self.wf(),
                            kernel.wf(),
                            mode.ok_for(T::max_spec()),
                            kernel.w() <= self.w(),
                            kernel.h() <= self.h(),
                            m as int == T::max_spec(),
                            255 <= m <= 0xFFFF,
                            kw == kernel.w(),
                            kh == kernel.h(),
                            half_w == kernel.w() / 2,
                            half_h == kernel.h() / 2,
                            ({
                                let rows = conv_rows_rgb(
                                    self,
                                    kernel,
                                    mode,
                                    x as int,
                                    y as int,
                                    ky as int,
                                );
                                let row = conv_row_rgb(
                                    self,
                                    kernel,
                                    mode,
                                    x as int,
                                    y as int,
                                    ky as int,
                                    kx as int,
                                );
                                acc_r as int == rows.0 + row.0 && acc_g as int == rows.1 + row.1
                                    && acc_b as int == rows.2 + row.2
                            }),
                        decreases kw - kx,
                    {
                        let sxc: i128 = (x as i128) + (kx as i128) - (half_w as i128);
                        let syc: i128 = (y as i128) + (ky as i128) - (half_h as i128);
                        let (sr, sg, sb): (u32, u32, u32) = match mode {
                            BorderMode::Constant(v) => {
                                if sxc >= 0 && syc >= 0 && sxc < self.width as i128 && syc
                                    < self.height as i128 {
                                    let n = self.data.len();
                                    proof {
                                        lemma_row_major_index(
                                            self.w(),
                                            self.h(),
                                            sxc as int,
                                            syc as int,
                                        );
                                    }
                                    let p = self.data[(syc as usize) * self.width + (sxc as usize)];
                                    (p.r.raw(), p.g.raw(), p.b.raw())
                                } else {
                                    (v, v, v)
                                }
                            },
                            _ => {
                                let rx = resolve_coord_exec(sxc, self.width, mode);
                                let ry = resolve_coord_exec(syc, self.height, mode);
                                let n = self.data.len();
                                proof {
                                    lemma_row_major_index(self.w(), self.h(), rx as int, ry as int);
                                }
                                let p = self.data[ry * self.width + rx];
                                (p.r.raw(), p.g.raw(), p.b.raw())
                            },
                        };
                        proof {
                            lemma_sample_rgb_range(self, sxc as int, syc as int, mode);
                            lemma_row_major_index(kernel.w(), kernel.h(), kx as int, ky as int);
                            lemma_conv_rows_rgb_bound(
                                self,
                                kernel,
                                mode,
                                x as int,
                                y as int,
                                ky as int,
                            );
                            lemma_conv_row_rgb_bound(
                                self,
                                kernel,
                                mode,
                                x as int,
                                y as int,
                                ky as int,
                                kx as int,
                            );
                            let w = kernel.wt(kx as int, ky as int);
                            let s = sample_rgb(self, sxc as int, syc as int, mode);
                            assert(-65_535_000_000 <= w * s.0 <= 65_535_000_000 && -65_535_000_000
                                <= w * s.1 <= 65_535_000_000 && -65_535_000_000 <= w * s.2
                                <= 65_535_000_000) by (nonlinear_arith)
                                requires
                                    -1_000_000 <= w <= 1_000_000,
                                    0 <= s.0 <= 0xFFFF,
                                    0 <= s.1 <= 0xFFFF,
                                    0 <= s.2 <= 0xFFFF,
                            ;
                        }
                        let wn = kernel.weights[ky * kw + kx];
                        acc_r = acc_r + (wn as i64) * (sr as i64);
                        acc_g = acc_g + (wn as i64) * (sg as i64);
                        acc_b = acc_b + (wn as i64) * (sb as i64);
                        kx = kx + 1;
                    }
                    ky = ky + 1;
                }
                proof {
                    lemma_conv_rows_rgb_bound(self, kernel, mode, x as int, y as int, kh as int);
                    lemma_row_major_index(self.w(), self.h(), x as int, y as int);
                }
                let n = self.data.len();
                let center = self.data[y * self.width + x];
                let qr = clamp_channel(rdiv_i64(acc_r, kernel.scale as i64), m);
                let qg = clamp_channel(rdiv_i64(acc_g, kernel.scale as i64), m);
                let qb = clamp_channel(rdiv_i64(acc_b, kernel.scale as i64), m);
                data.push(
                    Rgba {
                        r: T::from_raw(qr),
                        g: T::from_raw(qg),
                        b: T::from_raw(qb),
                        a: center.a,
                    },
                );
                proof {
                    assert forall|px: int, py: int|
                        0 <= px < self.w() && 0 <= py < y implies 0 <= #[trigger] (py * self.w()
                        + px) && py * self.w() + px < (y as int) * self.w() by {
                        lemma_row_major_index(self.w(), y as int, px, py);
                        assert(self.w() * (y as int) == (y as int) * self.w()) by (nonlinear_arith);
                    }
                }
                x = x + 1;
            }
            proof {
                assert((y as int + 1) * self.w() == (y as int) * self.w() + self.w())
                    by (nonlinear_arith);
                assert forall|px: int, py: int|
                    0 <= px < self.w() && 0 <= py < y as int + 1 implies #[trigger] data@[py
                    * self.w() + px] == conv_px_rgba(self, kernel, mode, px, py) by {
                    if py == y as int {
                        assert(data@[(y as int) * self.w() + px] == conv_px_rgba(
                            self,
                            kernel,
                            mode,
                            px,
                            y as int,
                        ));
                    }
                }
            }
            y = y + 1;
        }
        proof {
            assert(data@.len() == self.h() * self.w());
            assert(self.h() * self.w() == self.w() * self.h()) by (nonlinear_arith);
        }
        let out = Image { width: self.width, height: self.height, data };
        proof {
            assert forall|px: int, py: int| self.in_bounds(px, py) implies out.at(px, py)
                == conv_px_rgba(self, kernel, mode, px, py) by {
                lemma_row_major_index(self.w(), self.h(), px, py);
            }
        }
        Ok(out)
    }
}

/// Clamps a rounded convolution quotient to the primitive range `[0, m]`.
fn clamp_channel(q: i64, m: u32) -> (r: u32)
    ensures
        r as int == clamp_int(q as int, 0, m as int),
{
    if q < 0 {
        0
    } else if q > m as i64 {
        m
    } else {
        q as u32
    }
}

/// Convolving with the 1x1 kernel of weight one reproduces the luminance of
/// every pixel exactly, whatever the border mode.
pub proof fn lemma_conv_unit_luma<T: Channel>(
    img: Image<Luma<T>>,
    k: Kernel,
    mode: BorderMode,
    x: int,
    y: int,
)
    requires
        img.wf(),
        k.w() == 1,
        k.h() == 1,
        k.wt(0, 0) == 1,
        k.scale == 1,
        img.in_bounds(x, y),
    ensures
        conv_px_luma(img, k, mode, x, y) == img.at(x, y),
{
    let v = sample_luma(img, x, y, mode);
    assert(resolve_coord(x, img.w(), mode) == x && resolve_coord(y, img.h(), mode) == y) by {
        if mode is Wrap {
            vstd::arithmetic::div_mod::lemma_small_mod(x as nat, img.w() as nat);
            vstd::arithmetic::div_mod::lemma_small_mod(y as nat, img.h() as nat);
        }
    }
    assert(v == img.at(x, y).l.val());
    assert(conv_rows_luma(img, k, mode, x, y, 1) == conv_row_luma(img, k, mode, x, y, 0, 1)) by {
        reveal_with_fuel(conv_rows_luma, 2);
    }
    assert(conv_row_luma(img, k, mode, x, y, 0, 1) == v) by {
        reveal_with_fuel(conv_row_luma, 2);
    }
    img.at(x, y).l.lemma_in_bound();
    vstd::arithmetic::div_mod::lemma_div_multiples_vanish_fancy(v, 1, 2);
    assert(rdiv(v, 1) == v);
    img.at(x, y).l.lemma_of_val_val();
}

/// Convolving with the 1x1 kernel of weight one reproduces the color
/// channels of every pixel exactly and keeps its alpha, whatever the border
/// mode.
pub proof fn lemma_conv_unit_rgba<T: Channel>(
    img: Image<Rgba<T>>,
    k: Kernel,
    mode: BorderMode,
    x: int,
    y: int,
)
    requires
        img.wf(),
        k.w() == 1,
        k.h() == 1,
        k.wt(0, 0) == 1,
        k.scale == 1,
        img.in_bounds(x, y),
    ensures
        conv_px_rgba(img, k, mode, x, y) == img.at(x, y),
{
    let p = img.at(x, y);
    assert(resolve_coord(x, img.w(), mode) == x && resolve_coord(y, img.h(), mode) == y) by {
        if mode is Wrap {
            vstd::arithmetic::div_mod::lemma_small_mod(x as nat, img.w() as nat);
            vstd::arithmetic::div_mod::lemma_small_mod(y as nat, img.h() as nat);
        }
    }
    let s = sample_rgb(img, x, y, mode);
    assert(s == (p.r.val(), p.g.val(), p.b.val()));
    assert(conv_rows_rgb(img, k, mode, x, y, 1) == conv_row_rgb(img, k, mode, x, y, 0, 1)) by {
        reveal_with_fuel(conv_rows_rgb, 2);
    }
    assert(conv_row_rgb(img, k, mode, x, y, 0, 1) == s) by {
        reveal_with_fuel(conv_row_rgb, 2);
    }
    p.r.lemma_in_bound();
    p.g.lemma_in_bound();
    p.b.lemma_in_bound();
    vstd::arithmetic::div_mod::lemma_div_multiples_vanish_fancy(p.r.val(), 1, 2);
    vstd::arithmetic::div_mod::lemma_div_multiples_vanish_fancy(p.g.val(), 1, 2);
    vstd::arithmetic::div_mod::lemma_div_multiples_vanish_fancy(p.b.val(), 1, 2);
    p.r.lemma_of_val_val();
    p.g.lemma_of_val_val();
    p.b.lemma_of_val_val();
}

} // verus!
