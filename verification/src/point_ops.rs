//! Per-pixel point operations.
//!
//! Each operation is a pure function of one pixel (or of one pixel from each
//! of two images), applied across the buffer in row-major order.  All
//! arithmetic happens in the pixel's native primitive scale.

use vstd::prelude::*;

verus! {

use crate::error::{CoreError, Error};
use crate::image::Image;
use crate::math::{rdiv, clamp_int, lemma_rdiv_le, rdiv_u64};
use crate::pixel::{Channel, Luma, Pixel, Rgba, luma601, luma601_u32};

/// How a threshold rewrites a luminance value.
#[derive(Clone, Copy, Debug, PartialEq, Eq, Structural)]
pub enum ThresholdType {
    /// Values at or above the threshold become `max_intensity`, others zero.
    Binary,
    /// Values above the threshold become the threshold, others stay.
    Truncate,
    /// Values above the threshold stay, others become zero.
    ToZero,
}

/// One channel inverted against the primitive bound `m`.
pub open spec fn invert_chan(v: int, m: int) -> int {
    m - v
}

/// A color pixel with red, green and blue inverted and alpha untouched.
pub open spec fn invert_rgba<T: Channel>(p: Rgba<T>) -> Rgba<T> {
    Rgba {
        r: T::of_val(invert_chan(p.r.val(), T::max_spec())),
        g: T::of_val(invert_chan(p.g.val(), T::max_spec())),
        b: T::of_val(invert_chan(p.b.val(), T::max_spec())),
        a: p.a,
    }
}

/// A luminance pixel inverted against the primitive bound.
pub open spec fn invert_luma<T: Channel>(p: Luma<T>) -> Luma<T> {
    Luma { l: T::of_val(invert_chan(p.l.val(), T::max_spec())) }
}

/// One channel shifted by `delta` and clamped to the primitive range.
pub open spec fn bright_chan(v: int, delta: int, m: int) -> int {
    clamp_int(v + delta, 0, m)
}

/// One channel scaled by the ratio `num / den`, rounded to nearest and
/// clamped to the primitive range.
pub open spec fn contrast_chan(v: int, num: int, den: int, m: int) -> int {
    clamp_int(rdiv(v * num, den), 0, m)
}

/// Linear interpolation between two channel values with blend factor
/// `num / den`, rounded to nearest: at `num == 0` the first value, at
/// `num == den` the second.
pub open spec fn lerp_chan(a: int, b: int, num: int, den: int) -> int {
    rdiv(a * (den - num) + b * num, den)
}

/// A threshold applied to one luminance value.  The `Binary` comparison is
/// deliberately inclusive at the threshold where `Truncate` and `ToZero`
/// are strict.
pub open spec fn threshold_chan(v: int, t: int, maxi: int, kind: ThresholdType) -> int {
    match kind {
        ThresholdType::Binary => if v >= t {
            maxi
        } else {
            0
        },
        ThresholdType::Truncate => if v > t {
            t
        } else {
            v
        },
        ThresholdType::ToZero => if v > t {
            v
        } else {
            0
        },
    }
}

/// Interpolating two in-range channels stays in range.
pub proof fn lemma_lerp_chan_in_range(a: int, b: int, num: int, den: int, m: int)
    requires
        0 <= a <= m,
        0 <= b <= m,
        0 <= num <= den,
        1 <= den,
    ensures
        0 <= lerp_chan(a, b, num, den) <= m,
{
    assert(0 <= a * (den - num) + b * num <= m * den) by (nonlinear_arith)
        requires
            0 <= a <= m,
            0 <= b <= m,
            0 <= num <= den,
            1 <= den,
    ;
    lemma_rdiv_le(a * (den - num) + b * num, den, m);
}

/// Inverting a color pixel twice restores it exactly.
pub proof fn lemma_invert_rgba_involutive<T: Channel>(p: Rgba<T>)
    ensures
        invert_rgba(invert_rgba(p)) == p,
{
    let m = T::max_spec();
    p.r.lemma_in_bound();
    p.g.lemma_in_bound();
    p.b.lemma_in_bound();
    T::lemma_of_val(m - p.r.val());
    T::lemma_of_val(m - p.g.val());
    T::lemma_of_val(m - p.b.val());
    p.r.lemma_of_val_val();
    p.g.lemma_of_val_val();
    p.b.lemma_of_val_val();
}

/// Inverting a luminance pixel twice restores it exactly.
pub proof fn lemma_invert_luma_involutive<T: Channel>(p: Luma<T>)
    ensures
        invert_luma(invert_luma(p)) == p,
{
    let m = T::max_spec();
    p.l.lemma_in_bound();
    T::lemma_of_val(m - p.l.val());
    p.l.lemma_of_val_val();
}

/// Inverting an image twice restores it exactly: if `b` is `a` inverted and
/// `c` is `b` inverted — what two calls of `invert` ensure — then `c` equals
/// `a`, pixel for pixel.
pub proof fn lemma_invert_involutive<T: Channel>(
    a: Image<Rgba<T>>,
    b: Image<Rgba<T>>,
    c: Image<Rgba<T>>,
)
    requires
        b.pix().len() == a.pix().len(),
        forall|i: int| 0 <= i < a.pix().len() ==> b.pix()[i] == invert_rgba(a.pix()[i]),
        c.pix().len() == b.pix().len(),
        forall|i: int| 0 <= i < b.pix().len() ==> c.pix()[i] == invert_rgba(b.pix()[i]),
    ensures
        c.pix() == a.pix(),
{
    assert forall|i: int| 0 <= i < a.pix().len() implies c.pix()[i] == a.pix()[i] by {
        lemma_invert_rgba_involutive(a.pix()[i]);
    }
    assert(c.pix() =~= a.pix());
}

impl<T: Channel> Image<Rgba<T>> {
    /// Inverts the red, green and blue channel of every pixel against the
    /// primitive bound, preserving alpha.
    pub fn invert(self) -> (img: Self)
        requires
            self.wf(),
        ensures
            img.wf(),
            img.same_dims(self),
            img.pix().len() == self.pix().len(),
            forall|i: int| 0 <= i < self.pix().len() ==> img.pix()[i] == invert_rgba(self.pix()[i]),
    {
        let m = T::max_raw();
        let n = self.data.len();
        let mut data: Vec<Rgba<T>> = Vec::new();
        let mut i: usize = 0;
        while i < n
            invariant
                i <= n,
                n == self.pix().len(),
                m as int == T::max_spec(),
                data@.len() == i,
                forall|j: int| 0 <= j < i ==> data@[j] == invert_rgba(self.pix()[j]),
            decreases n - i,
        {
            let p = self.data[i];
            proof {
                p.r.lemma_in_bound();
                p.g.lemma_in_bound();
                p.b.lemma_in_bound();
            }
            let q = Rgba {
                r: T::from_raw(m - p.r.raw()),
                g: T::from_raw(m - p.g.raw()),
                b: T::from_raw(m - p.b.raw()),
                a: p.a,
            };
            data.push(q);
            i = i + 1;
        }
        Image { width: self.width, height: self.height, data }
    }

    /// Converts to a luminance image of the same primitive: each output
    /// pixel is the BT.601 luma of the red, green and blue channels, rounded
    /// to nearest.  Alpha does not take part.
    pub fn grayscale(self) -> (img: Image<Luma<T>>)
        requires
            self.wf(),
        ensures
            img.wf(),
            img.w() == self.w(),
            img.h() == self.h(),
            forall|i: int|
                0 <= i < self.pix().len() ==> img.pix()[i] == (Luma {
                    l: T::of_val(
                        luma601(
                            self.pix()[i].r.val(),
                            self.pix()[i].g.val(),
                            self.pix()[i].b.val(),
                        ),
                    ),
                }),
    {
        let m = T::max_raw();
        proof {
            T::lemma_bound_range();
        }
        let n = self.data.len();
        let mut data: Vec<Luma<T>> = Vec::new();
        let mut i: usize = 0;
        while i < n
            invariant
                i <= n,
                n == self.pix().len(),
                m as int == T::max_spec(),
                255 <= m <= 0xFFFF,
                data@.len() == i,
                forall|j: int|
                    0 <= j < i ==> data@[j] == (Luma {
                        l: T::of_val(
                            luma601(
                                self.pix()[j].r.val(),
                                self.pix()[j].g.val(),
                                self.pix()[j].b.val(),
                            ),
                        ),
                    }),
            decreases n - i,
        {
            let p = self.data[i];
            proof {
                p.r.lemma_in_bound();
                p.g.lemma_in_bound();
                p.b.lemma_in_bound();
            }
            let l = luma601_u32(p.r.raw(), p.g.raw(), p.b.raw(), m);
            data.push(Luma { l: T::from_raw(l) });
            i = i + 1;
        }
        Image { width: self.width, height: self.height, data }
    }

    /// Shifts every red, green and blue channel by `delta`, clamping to the
    /// primitive range; alpha is preserved.
    pub fn brightness(self, delta: i64) -> (img: Self)
        requires
            self.wf(),
        ensures
            img.wf(),
            img.same_dims(self),
            img.pix().len() == self.pix().len(),
            forall|i: int|
                0 <= i < self.pix().len() ==> img.pix()[i] == (Rgba {
                    r: T::of_val(bright_chan(self.pix()[i].r.val(), delta as int, T::max_spec())),
                    g: T::of_val(bright_chan(self.pix()[i].g.val(), delta as int, T::max_spec())),
                    b: T::of_val(bright_chan(self.pix()[i].b.val(), delta as int, T::max_spec())),
                    a: self.pix()[i].a,
                }),
    {
        let m = T::max_raw();
        let n = self.data.len();
        let mut data: Vec<Rgba<T>> = Vec::new();
        let mut i: usize = 0;
        while i < n
            invariant
                i <= n,
                n == self.pix().len(),
                m as int == T::max_spec(),
                data@.len() == i,
                forall|j: int|
                    0 <= j < i ==> data@[j] == (Rgba {
                        r: T::of_val(
                            bright_chan(self.pix()[j].r.val(), delta as int, T::max_spec()),
                        ),
                        g: T::of_val(
                            bright_chan(self.pix()[j].g.val(), delta as int, T::max_spec()),
                        ),
                        b: T::of_val(
                            bright_chan(self.pix()[j].b.val(), delta as int, T::max_spec()),
                        ),
                        a: self.pix()[j].a,
                    }),
            decreases n - i,
        {
            let p = self.data[i];
            proof {
                p.r.lemma_in_bound();
                p.g.lemma_in_bound();
                p.b.lemma_in_bound();
            }
            let q = Rgba {
                r: bright_chan_exec::<T>(p.r, delta, m),
                g: bright_chan_exec::<T>(p.g, delta, m),
                b: bright_chan_exec::<T>(p.b, delta, m),
                a: p.a,
            };
            data.push(q);
            i = i + 1;
        }
        Image { width: self.width, height: self.height, data }
    }

    /// Scales every red, green and blue channel by the ratio `num / den`,
    /// rounding to nearest and clamping to the primitive range; alpha is
    /// preserved.
    pub fn contrast(self, num: u32, den: u32) -> (img: Self)
        requires
            self.wf(),
            den >= 1,
        ensures
            img.wf(),
            img.same_dims(self),
            img.pix().len() == self.pix().len(),
            forall|i: int|
                0 <= i < self.pix().len() ==> img.pix()[i] == (Rgba {
                    r: T::of_val(
                        contrast_chan(self.pix()[i].r.val(), num as int, den as int, T::max_spec()),
                    ),
                    g: T::of_val(
                        contrast_chan(self.pix()[i].g.val(), num as int, den as int, T::max_spec()),
                    ),
                    b: T::of_val(
                        contrast_chan(self.pix()[i].b.val(), num as int, den as int, T::max_spec()),
                    ),
                    a: self.pix()[i].a,
                }),
    {
        let m = T::max_raw();
        proof {
            T::lemma_bound_range();
        }
        let n = self.data.len();
        let mut data: Vec<Rgba<T>> = Vec::new();
        let mut i: usize = 0;
        while i < n
            invariant
                i <= n,
                n == self.pix().len(),
                den >= 1,
                m as int == T::max_spec(),
                m <= 0xFFFF,
                data@.len() == i,
                forall|j: int|
                    0 <= j < i ==> data@[j] == (Rgba {
                        r: T::of_val(
                            contrast_chan(
                                self.pix()[j].r.val(),
                                num as int,
                                den as int,
                                T::max_spec(),
                            ),
                        ),
                        g: T::of_val(
                            contrast_chan(
                                self.pix()[j].g.val(),
                                num as int,
                                den as int,
                                T::max_spec(),
                            ),
                        ),
                        b: T::of_val(
                            contrast_chan(
                                self.pix()[j].b.val(),
                                num as int,
                                den as int,
                                T::max_spec(),
                            ),
                        ),
                        a: self.pix()[j].a,
                    }),
            decreases n - i,
        {
            let p = self.data[i];
            proof {
                p.r.lemma_in_bound();
                p.g.lemma_in_bound();
                p.b.lemma_in_bound();
            }
            let q = Rgba {
                r: contrast_chan_exec::<T>(p.r, num, den, m),
                g: contrast_chan_exec::<T>(p.g, num, den, m),
                b: contrast_chan_exec::<T>(p.b, num, den, m),
                a: p.a,
            };
            data.push(q);
            i = i + 1;
        }
        Image { width: self.width, height: self.height, data }
    }

    /// Interpolates linearly toward `other` with blend factor `num / den`,
    /// every channel including alpha.  Fails with
    /// [`CoreError::InvalidData`] if and only if the dimensions differ.
    pub fn lerp(self, other: &Image<Rgba<T>>, num: u32, den: u32) -> (res: Result<Self, Error>)
        requires
            self.wf(),
            other.wf(),
            den >= 1,
            num <= den,
        ensures
            res is Ok <==> self.same_dims(*other),
            res is Ok ==> {
                let img = res->Ok_0;
                &&& img.wf()
                &&& img.same_dims(self)
                &&& img.pix().len() == self.pix().len()
                &&& forall|i: int|
                    0 <= i < self.pix().len() ==> img.pix()[i] == (Rgba {
                        r: T::of_val(
                            lerp_chan(
                                self.pix()[i].r.val(),
                                other.pix()[i].r.val(),
                                num as int,
                                den as int,
                            ),
                        ),
                        g: T::of_val(
                            lerp_chan(
                                self.pix()[i].g.val(),
                                other.pix()[i].g.val(),
                                num as int,
                                den as int,
                            ),
                        ),
                        b: T::of_val(
                            lerp_chan(
                                self.pix()[i].b.val(),
                                other.pix()[i].b.val(),
                                num as int,
                                den as int,
                            ),
                        ),
                        a: T::of_val(
                            lerp_chan(
                                self.pix()[i].a.val(),
                                other.pix()[i].a.val(),
                                num as int,
                                den as int,
                            ),
                        ),
                    })
            },
            res is Err ==> res == Err::<Self, Error>(Error::CoreError(CoreError::InvalidData)),
    {
        if self.width != other.width || self.height != other.height {
            return Err(Error::CoreError(CoreError::InvalidData));
        }
        let m = T::max_raw();
        proof {
            T::lemma_bound_range();
        }
        let n = self.data.len();
        let mut data: Vec<Rgba<T>> = Vec::new();
        let mut i: usize = 0;
        while i < n
            invariant
                i <= n,
                n == self.pix().len(),
                n == other.pix().len(),
                den >= 1,
                num <= den,
                m as int == T::max_spec(),
                m <= 0xFFFF,
                data@.len() == i,
                forall|j: int|
                    0 <= j < i ==> data@[j] == (Rgba {
                        r: T::of_val(
                            lerp_chan(
                                self.pix()[j].r.val(),
                                other.pix()[j].r.val(),
                                num as int,
                                den as int,
                            ),
                        ),
                        g: T::of_val(
                            lerp_chan(
                                self.pix()[j].g.val(),
                                other.pix()[j].g.val(),
                                num as int,
                                den as int,
                            ),
                        ),
                        b: T::of_val(
                            lerp_chan(
                                self.pix()[j].b.val(),
                                other.pix()[j].b.val(),
                                num as int,
                                den as int,
                            ),
                        ),
                        a: T::of_val(
                            lerp_chan(
                                self.pix()[j].a.val(),
                                other.pix()[j].a.val(),
                                num as int,
                                den as int,
                            ),
                        ),
                    }),
            decreases n - i,
        {
            let p = self.data[i];
            let o = other.data[i];
            let q = Rgba {
                r: lerp_chan_exec::<T>(p.r, o.r, num, den, m),
                g: lerp_chan_exec::<T>(p.g, o.g, num, den, m),
                b: lerp_chan_exec::<T>(p.b, o.b, num, den, m),
                a: lerp_chan_exec::<T>(p.a, o.a, num, den, m),
            };
            data.push(q);
            i = i + 1;
        }
        Ok(Image { width: self.width, height: self.height, data })
    }
}

impl<T: Channel> Image<Luma<T>> {
    /// Inverts every luminance value against the primitive bound.
    pub fn invert(self) -> (img: Self)
        requires
            self.wf(),
        ensures
            img.wf(),
            img.same_dims(self),
            img.pix().len() == self.pix().len(),
            forall|i: int| 0 <= i < self.pix().len() ==> img.pix()[i] == invert_luma(self.pix()[i]),
    {
        let m = T::max_raw();
        let n = self.data.len();
        let mut data: Vec<Luma<T>> = Vec::new();
        let mut i: usize = 0;
        while i < n
            invariant
                i <= n,
                n == self.pix().len(),
                m as int == T::max_spec(),
                data@.len() == i,
                forall|j: int| 0 <= j < i ==> data@[j] == invert_luma(self.pix()[j]),
            decreases n - i,
        {
            let p = self.data[i];
            proof {
                p.l.lemma_in_bound();
            }
            data.push(Luma { l: T::from_raw(m - p.l.raw()) });
            i = i + 1;
        }
        Image { width: self.width, height: self.height, data }
    }

    /// Interpolates linearly toward `other` with blend factor `num / den`.
    /// Fails with [`CoreError::InvalidData`] if and only if the dimensions
    /// differ.
    pub fn lerp(self, other: &Image<Luma<T>>, num: u32, den: u32) -> (res: Result<Self, Error>)
        requires
            self.wf(),
            other.wf(),
            den >= 1,
            num <= den,
        ensures
            res is Ok <==> self.same_dims(*other),
            res is Ok ==> {
                let img = res->Ok_0;
                &&& img.wf()
                &&& img.same_dims(self)
                &&& img.pix().len() == self.pix().len()
                &&& forall|i: int|
                    0 <= i < self.pix().len() ==> img.pix()[i] == (Luma {
                        l: T::of_val(
                            lerp_chan(
                                self.pix()[i].l.val(),
                                other.pix()[i].l.val(),
                                num as int,
                                den as int,
                            ),
                        ),
                    })
            },
            res is Err ==> res == Err::<Self, Error>(Error::CoreError(CoreError::InvalidData)),
    {
        if self.width != other.width || self.height != other.height {
            return Err(Error::CoreError(CoreError::InvalidData));
        }
        let m = T::max_raw();
        proof {
            T::lemma_bound_range();
        }
        let n = self.data.len();
        let mut data: Vec<Luma<T>> = Vec::new();
        let mut i: usize = 0;
        while i < n
            invariant
                i <= n,
                n == self.pix().len(),
                n == other.pix().len(),
                den >= 1,
                num <= den,
                m as int == T::max_spec(),
                m <= 0xFFFF,
                data@.len() == i,
                forall|j: int|
                    0 <= j < i ==> data@[j] == (Luma {
                        l: T::of_val(
                            lerp_chan(
                                self.pix()[j].l.val(),
                                other.pix()[j].l.val(),
                                num as int,
                                den as int,
                            ),
                        ),
                    }),
            decreases n - i,
        {
            let p = self.data[i];
            let o = other.data[i];
            data.push(Luma { l: lerp_chan_exec::<T>(p.l, o.l, num, den, m) });
            i = i + 1;
        }
        Ok(Image { width: self.width, height: self.height, data })
    }

    /// Applies a threshold to every luminance value: `Binary` maps values at
    /// or above `threshold` to `max_intensity` and the rest to zero;
    /// `Truncate` caps values above the threshold at the threshold; `ToZero`
    /// keeps values above the threshold and zeroes the rest.
    pub fn threshold(self, threshold: u32, max_intensity: u32, kind: ThresholdType) -> (img: Self)
        requires
            self.wf(),
            threshold as int <= T::max_spec(),
            max_intensity as int <= T::max_spec(),
        ensures
            img.wf(),
            img.same_dims(self),
            img.pix().len() == self.pix().len(),
            forall|i: int|
                0 <= i < self.pix().len() ==> img.pix()[i] == (Luma {
                    l: T::of_val(
                        threshold_chan(
                            self.pix()[i].l.val(),
                            threshold as int,
                            max_intensity as int,
                            kind,
                        ),
                    ),
                }),
    {
        let n = self.data.len();
        let mut data: Vec<Luma<T>> = Vec::new();
        let mut i: usize = 0;
        while i < n
            invariant
                i <= n,
                n == self.pix().len(),
                threshold as int <= T::max_spec(),
                max_intensity as int <= T::max_spec(),
                data@.len() == i,
                forall|j: int|
                    0 <= j < i ==> data@[j] == (Luma {
                        l: T::of_val(
                            threshold_chan(
                                self.pix()[j].l.val(),
                                threshold as int,
                                max_intensity as int,
                                kind,
                            ),
                        ),
                    }),
            decreases n - i,
        {
            let p = self.data[i];
            proof {
                p.l.lemma_in_bound();
            }
            let v = p.l.raw();
            let w = match kind {
                ThresholdType::Binary => if v >= threshold {
                    max_intensity
                } else {
                    0
                },
                ThresholdType::Truncate => if v > threshold {
                    threshold
                } else {
                    v
                },
                ThresholdType::ToZero => if v > threshold {
                    v
                } else {
                    0
                },
            };
            data.push(Luma { l: T::from_raw(w) });
            i = i + 1;
        }
        Image { width: self.width, height: self.height, data }
    }
}

/// The smallest element of a sequence of channel values; zero for an empty
/// sequence.
pub open spec fn seq_min(s: Seq<int>) -> int
    decreases s.len(),
{
    if s.len() == 0 {
        0
    } else if s.len() == 1 {
        s[0]
    } else {
        let m = seq_min(s.drop_last());
        if s.last() < m {
            s.last()
        } else {
            m
        }
    }
}

/// The largest element of a sequence of channel values; zero for an empty
/// sequence.
pub open spec fn seq_max(s: Seq<int>) -> int
    decreases s.len(),
{
    if s.len() == 0 {
        0
    } else if s.len() == 1 {
        s[0]
    } else {
        let m = seq_max(s.drop_last());
        if s.last() > m {
            s.last()
        } else {
            m
        }
    }
}

/// Every element lies between the sequence's extrema.
pub proof fn lemma_seq_extrema(s: Seq<int>, i: int)
    requires
        0 <= i < s.len(),
    ensures
        seq_min(s) <= s[i],
        s[i] <= seq_max(s),
    decreases s.len(),
{
    if s.len() > 1 && i < s.len() - 1 {
        lemma_seq_extrema(s.drop_last(), i);
    }
}

/// One channel min-max normalized from the interval `[lo, hi]` onto the
/// primitive range `[0, m]`, rounded to nearest; unchanged when the
/// interval is degenerate.
pub open spec fn norm_chan(v: int, lo: int, hi: int, m: int) -> int {
    if hi > lo {
        rdiv((v - lo) * m, hi - lo)
    } else {
        v
    }
}

/// Normalizing a channel between its extrema stays in the primitive range.
pub proof fn lemma_norm_chan_in_range(v: int, lo: int, hi: int, m: int)
    requires
        lo <= v <= hi,
        0 <= m,
    ensures
        hi > lo ==> 0 <= norm_chan(v, lo, hi, m) <= m,
{
    if hi > lo {
        assert(0 <= (v - lo) * m <= m * (hi - lo)) by (nonlinear_arith)
            requires
                lo <= v <= hi,
                0 <= m,
        ;
        lemma_rdiv_le((v - lo) * m, hi - lo, m);
    }
}

/// One channel of `normalize`, in executable form.
fn norm_chan_exec<T: Channel>(v: u32, lo: u32, hi: u32, m: u32) -> (r: T)
    requires
        lo <= v <= hi,
        hi <= 0xFFFF,
        v <= m,
        m as int == T::max_spec(),
        m <= 0xFFFF,
    ensures
        r == T::of_val(norm_chan(v as int, lo as int, hi as int, m as int)),
{
    proof {
        lemma_norm_chan_in_range(v as int, lo as int, hi as int, m as int);
        assert(((v - lo) as int) * (m as int) <= 0xFFFF * 0xFFFF) by (nonlinear_arith)
            requires
                v <= 0xFFFF,
                lo <= v,
                m <= 0xFFFF,
        ;
    }
    if hi > lo {
        let n: u64 = ((v - lo) as u64) * (m as u64);
        let q: u64 = rdiv_u64(n, (hi - lo) as u64);
        T::from_raw(q as u32)
    } else {
        proof {
            T::lemma_of_val(v as int);
        }
        T::from_raw(v)
    }
}

impl<T: Channel> Image<Rgba<T>> {
    /// Min-max normalizes the red, green and blue channels independently:
    /// each channel is rescaled so that its smallest value over the image
    /// maps to zero and its largest to the primitive bound, rounded to
    /// nearest.  A channel whose values are all equal, and the alpha
    /// channel, are left unchanged.
    pub fn normalize(&self) -> (img: Self)
        requires
            self.wf(),
        ensures
            img.wf(),
            img.same_dims(*self),
            img.pix().len() == self.pix().len(),
            ({
                let rv = self.pix().map_values(|p: Rgba<T>| p.r.val());
                let gv = self.pix().map_values(|p: Rgba<T>| p.g.val());
                let bv = self.pix().map_values(|p: Rgba<T>| p.b.val());
                forall|i: int|
                    0 <= i < self.pix().len() ==> img.pix()[i] == (Rgba {
                        r: T::of_val(
                            norm_chan(
                                self.pix()[i].r.val(),
                                seq_min(rv),
                                seq_max(rv),
                                T::max_spec(),
                            ),
                        ),
                        g: T::of_val(
                            norm_chan(
                                self.pix()[i].g.val(),
                                seq_min(gv),
                                seq_max(gv),
                                T::max_spec(),
                            ),
                        ),
                        b: T::of_val(
                            norm_chan(
                                self.pix()[i].b.val(),
                                seq_min(bv),
                                seq_max(bv),
                                T::max_spec(),
                            ),
                        ),
                        a: self.pix()[i].a,
                    })
            }),
    {
        let ghost rv = self.pix().map_values(|p: Rgba<T>| p.r.val());
        let ghost gv = self.pix().map_values(|p: Rgba<T>| p.g.val());
        let ghost bv = self.pix().map_values(|p: Rgba<T>| p.b.val());
        let m = T::max_raw();
        proof {
            T::lemma_bound_range();
        }
        let n = self.data.len();
        if n == 0 {
            return Image { width: self.width, height: self.height, data: Vec::new() };
        }
        proof {
            self.data@[0].r.lemma_in_bound();
            self.data@[0].g.lemma_in_bound();
            self.data@[0].b.lemma_in_bound();
        }
        let p0 = self.data[0];
        let mut rmin = p0.r.raw();
        let mut rmax = rmin;
        let mut gmin = p0.g.raw();
        let mut gmax = gmin;
        let mut bmin = p0.b.raw();
        let mut bmax = bmin;
        let mut i: usize = 1;
        proof {
            assert(rv.take(1).len() == 1 && rv.take(1)[0] == rv[0]);
            assert(gv.take(1).len() == 1 && gv.take(1)[0] == gv[0]);
            assert(bv.take(1).len() == 1 && bv.take(1)[0] == bv[0]);
        }
        while i < n
            invariant
                1 <= i <= n,
                n == self.pix().len(),
                self.wf(),
                m as int == T::max_spec(),
                m <= 0xFFFF,
                rv == self.pix().map_values(|p: Rgba<T>| p.r.val()),
                gv == self.pix().map_values(|p: Rgba<T>| p.g.val()),
                bv == self.pix().map_values(|p: Rgba<T>| p.b.val()),
                rmin as int == seq_min(rv.take(i as int)),
                rmax as int == seq_max(rv.take(i as int)),
                gmin as int == seq_min(gv.take(i as int)),
                gmax as int == seq_max(gv.take(i as int)),
                bmin as int == seq_min(bv.take(i as int)),
                bmax as int == seq_max(bv.take(i as int)),
                rmax <= 0xFFFF,
                gmax <= 0xFFFF,
                bmax <= 0xFFFF,
            decreases n - i,
        {
            let p = self.data[i];
            proof {
                p.r.lemma_in_bound();
                p.g.lemma_in_bound();
                p.b.lemma_in_bound();
                assert(rv.take(i + 1).drop_last() =~= rv.take(i as int));
                assert(gv.take(i + 1).drop_last() =~= gv.take(i as int));
                assert(bv.take(i + 1).drop_last() =~= bv.take(i as int));
                assert(rv.take(i + 1).last() == rv[i as int]);
                assert(gv.take(i + 1).last() == gv[i as int]);
                assert(bv.take(i + 1).last() == bv[i as int]);
            }
            let r = p.r.raw();
            let g = p.g.raw();
            let b = p.b.raw();
            if r < rmin {
                rmin = r;
            }
            if r > rmax {
                rmax = r;
            }
            if g < gmin {
                gmin = g;
            }
            if g > gmax {
                gmax = g;
            }
            if b < bmin {
                bmin = b;
            }
            if b > bmax {
                bmax = b;
            }
            i = i + 1;
        }
        proof {
            assert(rv.take(n as int) =~= rv);
            assert(gv.take(n as int) =~= gv);
            assert(bv.take(n as int) =~= bv);
        }
        let mut data: Vec<Rgba<T>> = Vec::new();
        let mut j: usize = 0;
        while j < n
            invariant
                j <= n,
                n == self.pix().len(),
                self.wf(),
                m as int == T::max_spec(),
                m <= 0xFFFF,
                rv == self.pix().map_values(|p: Rgba<T>| p.r.val()),
                gv == self.pix().map_values(|p: Rgba<T>| p.g.val()),
                bv == self.pix().map_values(|p: Rgba<T>| p.b.val()),
                rmin as int == seq_min(rv),
                rmax as int == seq_max(rv),
                gmin as int == seq_min(gv),
                gmax as int == seq_max(gv),
                bmin as int == seq_min(bv),
                bmax as int == seq_max(bv),
                rmax <= 0xFFFF,
                gmax <= 0xFFFF,
                bmax <= 0xFFFF,
                data@.len() == j,
                forall|q: int|
                    0 <= q < j ==> data@[q] == (Rgba {
                        r: T::of_val(
                            norm_chan(
                                self.pix()[q].r.val(),
                                seq_min(rv),
                                seq_max(rv),
                                T::max_spec(),
                            ),
                        ),
                        g: T::of_val(
                            norm_chan(
                                self.pix()[q].g.val(),
                                seq_min(gv),
                                seq_max(gv),
                                T::max_spec(),
                            ),
                        ),
                        b: T::of_val(
                            norm_chan(
                                self.pix()[q].b.val(),
                                seq_min(bv),
                                seq_max(bv),
                                T::max_spec(),
                            ),
                        ),
                        a: self.pix()[q].a,
                    }),
            decreases n - j,
        {
            let p = self.data[j];
            proof {
                p.r.lemma_in_bound();
                p.g.lemma_in_bound();
                p.b.lemma_in_bound();
                lemma_seq_extrema(rv, j as int);
                lemma_seq_extrema(gv, j as int);
                lemma_seq_extrema(bv, j as int);
            }
            let q = Rgba {
                r: norm_chan_exec::<T>(p.r.raw(), rmin, rmax, m),
                g: norm_chan_exec::<T>(p.g.raw(), gmin, gmax, m),
                b: norm_chan_exec::<T>(p.b.raw(), bmin, bmax, m),
                a: p.a,
            };
            data.push(q);
            j = j + 1;
        }
        Image { width: self.width, height: self.height, data }
    }
}

impl<T: Channel> Image<Luma<T>> {
    /// Min-max normalizes the luminance channel: the smallest value over
    /// the image maps to zero and the largest to the primitive bound,
    /// rounded to nearest.  An image whose values are all equal is left
    /// unchanged.
    pub fn normalize(&self) -> (img: Self)
        requires
            self.wf(),
        ensures
            img.wf(),
            img.same_dims(*self),
            img.pix().len() == self.pix().len(),
            ({
                let lv = self.pix().map_values(|p: Luma<T>| p.l.val());
                forall|i: int|
                    0 <= i < self.pix().len() ==> img.pix()[i] == (Luma {
                        l: T::of_val(
                            norm_chan(
                                self.pix()[i].l.val(),
                                seq_min(lv),
                                seq_max(lv),
                                T::max_spec(),
                            ),
                        ),
                    })
            }),
    {
        let ghost lv = self.pix().map_values(|p: Luma<T>| p.l.val());
        let m = T::max_raw();
        proof {
            T::lemma_bound_range();
        }
        let n = self.data.len();
        if n == 0 {
            return Image { width: self.width, height: self.height, data: Vec::new() };
        }
        proof {
            self.data@[0].l.lemma_in_bound();
        }
        let mut lmin = self.data[0].l.raw();
        let mut lmax = lmin;
        let mut i: usize = 1;
        proof {
            assert(lv.take(1).len() == 1 && lv.take(1)[0] == lv[0]);
        }
        while i < n
            invariant
                1 <= i <= n,
                n == self.pix().len(),
                self.wf(),
                m as int == T::max_spec(),
                m <= 0xFFFF,
                lv == self.pix().map_values(|p: Luma<T>| p.l.val()),
                lmin as int == seq_min(lv.take(i as int)),
                lmax as int == seq_max(lv.take(i as int)),
                lmax <= 0xFFFF,
            decreases n - i,
        {
            let p = self.data[i];
            proof {
                p.l.lemma_in_bound();
                assert(lv.take(i + 1).drop_last() =~= lv.take(i as int));
                assert(lv.take(i + 1).last() == lv[i as int]);
            }
            let l = p.l.raw();
            if l < lmin {
                lmin = l;
            }
            if l > lmax {
                lmax = l;
            }
            i = i + 1;
        }
        proof {
            assert(lv.take(n as int) =~= lv);
        }
        let mut data: Vec<Luma<T>> = Vec::new();
        let mut j: usize = 0;
        while j < n
            invariant
                j <= n,
                n == self.pix().len(),
                self.wf(),
                m as int == T::max_spec(),
                m <= 0xFFFF,
                lv == self.pix().map_values(|p: Luma<T>| p.l.val()),
                lmin as int == seq_min(lv),
                lmax as int == seq_max(lv),
                lmax <= 0xFFFF,
                data@.len() == j,
                forall|q: int|
                    0 <= q < j ==> data@[q] == (Luma {
                        l: T::of_val(
                            norm_chan(
                                self.pix()[q].l.val(),
                                seq_min(lv),
                                seq_max(lv),
                                T::max_spec(),
                            ),
                        ),
                    }),
            decreases n - j,
        {
            let p = self.data[j];
            proof {
                p.l.lemma_in_bound();
                lemma_seq_extrema(lv, j as int);
            }
            data.push(Luma { l: norm_chan_exec::<T>(p.l.raw(), lmin, lmax, m) });
            j = j + 1;
        }
        Image { width: self.width, height: self.height, data }
    }
}

/// One channel of `brightness`, in executable form.
fn bright_chan_exec<T: Channel>(c: T, delta: i64, m: u32) -> (r: T)
    requires
        m as int == T::max_spec(),
    ensures
        r == T::of_val(bright_chan(c.val(), delta as int, T::max_spec())),
{
    proof {
        c.lemma_in_bound();
    }
    let v: i128 = (c.raw() as i128) + (delta as i128);
    let w: i128 = if v < 0 {
        0
    } else if v > (m as i128) {
        m as i128
    } else {
        v
    };
    T::from_raw(w as u32)
}

/// One channel of `contrast`, in executable form.
fn contrast_chan_exec<T: Channel>(c: T, num: u32, den: u32, m: u32) -> (r: T)
    requires
        den >= 1,
        m as int == T::max_spec(),
        m <= 0xFFFF,
    ensures
        r == T::of_val(contrast_chan(c.val(), num as int, den as int, T::max_spec())),
{
    proof {
        c.lemma_in_bound();
        assert(0 <= c.val() * (num as int) <= 0xFFFF * 0xFFFF_FFFF) by (nonlinear_arith)
            requires
                0 <= c.val() <= 0xFFFF,
                num <= 0xFFFF_FFFF,
        ;
        assert(c.val() * (num as int) <= ((0xFFFF as int) * (0xFFFF_FFFF as int)) * (den as int))
            by (nonlinear_arith)
            requires
                0 <= c.val() * (num as int) <= 0xFFFF * 0xFFFF_FFFF,
                den >= 1,
        ;
        crate::math::lemma_rdiv_le(
            c.val() * num,
            den as int,
            (0xFFFF as int) * (0xFFFF_FFFF as int),
        );
    }
    let n: u64 = (c.raw() as u64) * (num as u64);
    let q: u64 = rdiv_u64(n, den as u64);
    let w: u64 = if q > (m as u64) {
        m as u64
    } else {
        q
    };
    T::from_raw(w as u32)
}

/// One channel of `lerp`, in executable form.
fn lerp_chan_exec<T: Channel>(a: T, b: T, num: u32, den: u32, m: u32) -> (r: T)
    requires
        den >= 1,
        num <= den,
        m as int == T::max_spec(),
        m <= 0xFFFF,
    ensures
        r == T::of_val(lerp_chan(a.val(), b.val(), num as int, den as int)),
{
    proof {
        a.lemma_in_bound();
        b.lemma_in_bound();
        lemma_lerp_chan_in_range(a.val(), b.val(), num as int, den as int, T::max_spec());
        assert(a.val() * ((den - num) as int) <= 0xFFFF * 0xFFFF_FFFF && 0 <= a.val() * ((den
            - num) as int) && b.val() * (num as int) <= 0xFFFF * 0xFFFF_FFFF && 0 <= b.val() * (
        num as int)) by (nonlinear_arith)
            requires
                0 <= a.val() <= 0xFFFF,
                0 <= b.val() <= 0xFFFF,
                num <= den <= 0xFFFF_FFFF,
        ;
    }
    let n: u64 = (a.raw() as u64) * ((den - num) as u64) + (b.raw() as u64) * (num as u64);
    let q: u64 = rdiv_u64(n, den as u64);
    T::from_raw(q as u32)
}

/// How many elements of `s` equal `v`.
pub open spec fn count_eq(s: Seq<int>, v: int) -> int
    decreases s.len(),
{
    if s.len() == 0 {
        0
    } else {
        count_eq(s.drop_last(), v) + if s.last() == v {
            1int
        } else {
            0int
        }
    }
}

/// How many elements of `s` are at most `v`.
pub open spec fn count_le(s: Seq<int>, v: int) -> int
    decreases s.len(),
{
    if s.len() == 0 {
        0
    } else {
        count_le(s.drop_last(), v) + if s.last() <= v {
            1int
        } else {
            0int
        }
    }
}

/// Both counts lie between zero and the sequence length.
pub proof fn lemma_count_bounds(s: Seq<int>, v: int)
    ensures
        0 <= count_eq(s, v) <= s.len(),
        0 <= count_le(s, v) <= s.len(),
    decreases s.len(),
{
    if s.len() > 0 {
        lemma_count_bounds(s.drop_last(), v);
    }
}

/// The cumulative count at `v` is the cumulative count at `v - 1` plus the
/// bin at `v`.
pub proof fn lemma_count_le_split(s: Seq<int>, v: int)
    ensures
        count_le(s, v) == count_le(s, v - 1) + count_eq(s, v),
    decreases s.len(),
{
    if s.len() > 0 {
        lemma_count_le_split(s.drop_last(), v);
    }
}

/// Nothing is at most `v` when every element is above `v`.
pub proof fn lemma_count_le_none(s: Seq<int>, v: int)
    requires
        forall|i: int| 0 <= i < s.len() ==> #[trigger] s[i] > v,
    ensures
        count_le(s, v) == 0,
    decreases s.len(),
{
    if s.len() > 0 {
        assert forall|i: int| 0 <= i < s.drop_last().len() implies #[trigger] s.drop_last()[i]
            > v by {
            assert(s.drop_last()[i] == s[i]);
        }
        lemma_count_le_none(s.drop_last(), v);
        assert(s.last() == s[s.len() - 1]);
    }
}

/// Everything is at most `v` when every element is at most `v`.
pub proof fn lemma_count_le_all(s: Seq<int>, v: int)
    requires
        forall|i: int| 0 <= i < s.len() ==> #[trigger] s[i] <= v,
    ensures
        count_le(s, v) == s.len(),
    decreases s.len(),
{
    if s.len() > 0 {
        assert forall|i: int| 0 <= i < s.drop_last().len() implies #[trigger] s.drop_last()[i]
            <= v by {
            assert(s.drop_last()[i] == s[i]);
        }
        lemma_count_le_all(s.drop_last(), v);
        assert(s.last() == s[s.len() - 1]);
    }
}

/// The first nonzero entry of the cumulative histogram of `s`, scanning
/// bins `v` through `m`; zero when all bins up to `m` are empty.
pub open spec fn first_nonzero(s: Seq<int>, v: int, m: int) -> int
    decreases m + 1 - v,
        when v <= m + 1
{
    if v > m {
        0
    } else if count_le(s, v) > 0 {
        count_le(s, v)
    } else {
        first_nonzero(s, v + 1, m)
    }
}

/// One entry of the equalization lookup table: the cumulative count above
/// the first nonzero entry, rescaled onto the primitive range, rounded to
/// nearest and clamped.
pub open spec fn eq_table(cdfv: int, cm: int, cnt: int, m: int) -> int {
    clamp_int(rdiv((cdfv - cm) * m, cnt - cm), 0, m)
}

/// Scanning from any bin at or below the first occupied bin finds that
/// bin's cumulative count.
proof fn lemma_first_nonzero_skip(s: Seq<int>, u: int, v0: int, m: int)
    requires
        0 <= u <= v0 <= m,
        forall|w: int| u <= w < v0 ==> #[trigger] count_le(s, w) == 0,
        count_le(s, v0) > 0,
    ensures
        first_nonzero(s, u, m) == count_le(s, v0),
    decreases v0 - u,
{
    if u < v0 {
        lemma_first_nonzero_skip(s, u + 1, v0, m);
    }
}

/// On a uniform single-valued sequence the first nonzero cumulative count
/// is the whole length: histogram equalization's degenerate branch fires,
/// and the image comes back unchanged.
pub proof fn lemma_equalize_uniform(s: Seq<int>, v0: int, m: int)
    requires
        s.len() >= 1,
        0 <= v0 <= m,
        forall|i: int| 0 <= i < s.len() ==> #[trigger] s[i] == v0,
    ensures
        first_nonzero(s, 0, m) == s.len(),
{
    lemma_count_le_all(s, v0);
    assert forall|w: int| 0 <= w < v0 implies #[trigger] count_le(s, w) == 0 by {
        lemma_count_le_none(s, w);
    }
    lemma_first_nonzero_skip(s, 0, v0, m);
}

impl<T: Channel> Image<Rgba<T>> {
    /// Applies a lookup table to every channel of every pixel, alpha
    /// included: channel `v` becomes `table[v]`.  Fails with
    /// [`CoreError::InvalidData`] if and only if the table does not hold
    /// exactly one in-range entry per representable channel value.
    pub fn apply(self, table: &Vec<u32>) -> (res: Result<Self, Error>)
        requires
            self.wf(),
        ensures
            res is Ok <==> (table@.len() == T::max_spec() + 1 && forall|i: int|
                0 <= i < table@.len() ==> #[trigger] table@[i] as int <= T::max_spec()),
            res is Ok ==> {
                let img = res->Ok_0;
                &&& img.wf()
                &&& img.same_dims(self)
                &&& img.pix().len() == self.pix().len()
                &&& forall|i: int|
                    0 <= i < self.pix().len() ==> img.pix()[i] == (Rgba {
                        r: T::of_val(table@[self.pix()[i].r.val()] as int),
                        g: T::of_val(table@[self.pix()[i].g.val()] as int),
                        b: T::of_val(table@[self.pix()[i].b.val()] as int),
                        a: T::of_val(table@[self.pix()[i].a.val()] as int),
                    })
            },
            res is Err ==> res == Err::<Self, Error>(Error::CoreError(CoreError::InvalidData)),
    {
        let m = T::max_raw();
        proof {
            T::lemma_bound_range();
        }
        if table.len() != m as usize + 1 {
            return Err(Error::CoreError(CoreError::InvalidData));
        }
        let tn = table.len();
        let mut t: usize = 0;
        while t < tn
            invariant
                t <= tn,
                tn == table@.len(),
                m as int == T::max_spec(),
                forall|i: int| 0 <= i < t ==> #[trigger] table@[i] <= m,
            decreases tn - t,
        {
            if table[t] > m {
                return Err(Error::CoreError(CoreError::InvalidData));
            }
            t = t + 1;
        }
        let n = self.data.len();
        let mut data: Vec<Rgba<T>> = Vec::new();
        let mut i: usize = 0;
        while i < n
            invariant
                i <= n,
                n == self.pix().len(),
                m as int == T::max_spec(),
                table@.len() == T::max_spec() + 1,
                forall|q: int| 0 <= q < table@.len() ==> #[trigger] table@[q] <= m,
                data@.len() == i,
                forall|j: int|
                    0 <= j < i ==> data@[j] == (Rgba {
                        r: T::of_val(table@[self.pix()[j].r.val()] as int),
                        g: T::of_val(table@[self.pix()[j].g.val()] as int),
                        b: T::of_val(table@[self.pix()[j].b.val()] as int),
                        a: T::of_val(table@[self.pix()[j].a.val()] as int),
                    }),
            decreases n - i,
        {
            let p = self.data[i];
            proof {
                p.r.lemma_in_bound();
                p.g.lemma_in_bound();
                p.b.lemma_in_bound();
                p.a.lemma_in_bound();
            }
            let q = Rgba {
                r: T::from_raw(table[p.r.raw() as usize]),
                g: T::from_raw(table[p.g.raw() as usize]),
                b: T::from_raw(table[p.b.raw() as usize]),
                a: T::from_raw(table[p.a.raw() as usize]),
            };
            data.push(q);
            i = i + 1;
        }
        Ok(Image { width: self.width, height: self.height, data })
    }
}

impl<T: Channel> Image<Luma<T>> {
    /// Applies a lookup table to every luminance value: `v` becomes
    /// `table[v]`.  Fails with [`CoreError::InvalidData`] if and only if
    /// the table does not hold exactly one in-range entry per representable
    /// channel value.
    pub fn apply(self, table: &Vec<u32>) -> (res: Result<Self, Error>)
        requires
            self.wf(),
        ensures
            res is Ok <==> (table@.len() == T::max_spec() + 1 && forall|i: int|
                0 <= i < table@.len() ==> #[trigger] table@[i] as int <= T::max_spec()),
            res is Ok ==> {
                let img = res->Ok_0;
                &&& img.wf()
                &&& img.same_dims(self)
                &&& img.pix().len() == self.pix().len()
                &&& forall|i: int|
                    0 <= i < self.pix().len() ==> img.pix()[i] == (Luma {
                        l: T::of_val(table@[self.pix()[i].l.val()] as int),
                    })
            },
            res is Err ==> res == Err::<Self, Error>(Error::CoreError(CoreError::InvalidData)),
    {
        let m = T::max_raw();
        proof {
            T::lemma_bound_range();
        }
        if table.len() != m as usize + 1 {
            return Err(Error::CoreError(CoreError::InvalidData));
        }
        let tn = table.len();
        let mut t: usize = 0;
        while t < tn
            invariant
                t <= tn,
                tn == table@.len(),
                m as int == T::max_spec(),
                forall|i: int| 0 <= i < t ==> #[trigger] table@[i] <= m,
            decreases tn - t,
        {
            if table[t] > m {
                return Err(Error::CoreError(CoreError::InvalidData));
            }
            t = t + 1;
        }
        let n = self.data.len();
        let mut data: Vec<Luma<T>> = Vec::new();
        let mut i: usize = 0;
        while i < n
            invariant
                i <= n,
                n == self.pix().len(),
                m as int == T::max_spec(),
                table@.len() == T::max_spec() + 1,
                forall|q: int| 0 <= q < table@.len() ==> #[trigger] table@[q] <= m,
                data@.len() == i,
                forall|j: int|
                    0 <= j < i ==> data@[j] == (Luma {
                        l: T::of_val(table@[self.pix()[j].l.val()] as int),
                    }),
            decreases n - i,
        {
            let p = self.data[i];
            proof {
                p.l.lemma_in_bound();
            }
            data.push(Luma { l: T::from_raw(table[p.l.raw() as usize]) });
            i = i + 1;
        }
        Ok(Image { width: self.width, height: self.height, data })
    }

    /// Histogram equalization: builds the cumulative distribution of the
    /// luminance values over one bin per representable value, and remaps
    /// each value `v` to
    /// `clamp(round((cdf(v) - cdf_min) * bound / (count - cdf_min)), 0, bound)`
    /// where `cdf_min` is the first nonzero cumulative count.  A uniform
    /// single-valued image — where `count == cdf_min` — comes back
    /// unchanged rather than dividing by zero.
    pub fn histrogram_equalize(self) -> (img: Self)
        requires
            self.wf(),
        ensures
            img.wf(),
            img.same_dims(self),
            img.pix().len() == self.pix().len(),
            ({
                let lv = self.pix().map_values(|p: Luma<T>| p.l.val());
                let cnt = lv.len() as int;
                let cm = first_nonzero(lv, 0, T::max_spec());
                if cnt == cm {
                    img.pix() == self.pix()
                } else {
                    forall|i: int|
                        0 <= i < self.pix().len() ==> img.pix()[i] == (Luma {
                            l: T::of_val(
                                eq_table(
                                    count_le(lv, self.pix()[i].l.val()),
                                    cm,
                                    cnt,
                                    T::max_spec(),
                                ),
                            ),
                        })
                }
            }),
    {
        let ghost lv = self.pix().map_values(|p: Luma<T>| p.l.val());
        let m = T::max_raw();
        proof {
            T::lemma_bound_range();
        }
        let n = self.data.len();
        let bins = m as usize + 1;
        // Histogram over one bin per representable value.
        let mut hist: Vec<u64> = Vec::new();
        let mut t: usize = 0;
        while t < bins
            invariant
                t <= bins,
                hist@.len() == t,
                forall|k: int| 0 <= k < t ==> #[trigger] hist@[k] == 0,
            decreases bins - t,
        {
            hist.push(0);
            t = t + 1;
        }
        proof {
            assert(lv.take(0) =~= Seq::<int>::empty());
        }
        let mut i: usize = 0;
        while i < n
            invariant
                i <= n,
                n == self.pix().len(),
                self.wf(),
                m as int == T::max_spec(),
                255 <= m <= 0xFFFF,
                bins == m + 1,
                lv == self.pix().map_values(|p: Luma<T>| p.l.val()),
                hist@.len() == bins,
                forall|k: int|
                    0 <= k < bins ==> #[trigger] hist@[k] as int == count_eq(lv.take(i as int), k),
                forall|k: int| 0 <= k < bins ==> #[trigger] hist@[k] <= i,
            decreases n - i,
        {
            let p = self.data[i];
            proof {
                p.l.lemma_in_bound();
                lemma_count_bounds(lv.take(i as int), p.l.val());
                assert forall|k: int| 0 <= k < bins implies count_eq(lv.take(i + 1), k)
                    == count_eq(lv.take(i as int), k) + (if lv[i as int] == k {
                    1int
                } else {
                    0int
                }) by {
                    assert(lv.take(i + 1).drop_last() =~= lv.take(i as int));
                    assert(lv.take(i + 1).last() == lv[i as int]);
                }
            }
            let v = p.l.raw() as usize;
            let c = hist[v];
            hist[v] = c + 1;
            i = i + 1;
        }
        proof {
            assert(lv.take(n as int) =~= lv);
        }
        // Cumulative distribution.
        let mut cdf: Vec<u64> = Vec::new();
        proof {
            assert forall|q: int| 0 <= q < lv.len() implies #[trigger] lv[q] >= 0 by {
                self.pix()[q].l.lemma_in_bound();
            }
            lemma_count_le_none(lv, -1);
            lemma_count_le_split(lv, 0);
            lemma_count_bounds(lv, 0);
        }
        cdf.push(hist[0]);
        let mut v: usize = 1;
        while v < bins
            invariant
                1 <= v <= bins,
                n == self.pix().len(),
                self.wf(),
                m as int == T::max_spec(),
                bins == m + 1,
                lv == self.pix().map_values(|p: Luma<T>| p.l.val()),
                hist@.len() == bins,
                forall|k: int| 0 <= k < bins ==> #[trigger] hist@[k] as int == count_eq(lv, k),
                cdf@.len() == v,
                forall|k: int| 0 <= k < v ==> #[trigger] cdf@[k] as int == count_le(lv, k),
                forall|k: int| 0 <= k < v ==> #[trigger] cdf@[k] <= n,
            decreases bins - v,
        {
            proof {
                lemma_count_le_split(lv, v as int);
                lemma_count_bounds(lv, v as int);
                lemma_count_bounds(lv, v as int - 1);
            }
            let c = cdf[v - 1] + hist[v];
            cdf.push(c);
            v = v + 1;
        }
        // First nonzero cumulative count.
        let mut cm: u64 = 0;
        let mut found = false;
        let mut u: usize = 0;
        while u < bins
            invariant
                u <= bins,
                n == self.pix().len(),
                self.wf(),
                m as int == T::max_spec(),
                bins == m + 1,
                lv == self.pix().map_values(|p: Luma<T>| p.l.val()),
                cdf@.len() == bins,
                forall|k: int| 0 <= k < bins ==> #[trigger] cdf@[k] as int == count_le(lv, k),
                forall|k: int| 0 <= k < bins ==> #[trigger] cdf@[k] <= n,
                !found ==> cm == 0 && (forall|w: int|
                    0 <= w < u ==> #[trigger] count_le(lv, w) == 0),
                found ==> cm as int == first_nonzero(lv, 0, T::max_spec()) && cm <= n,
            decreases bins - u,
        {
            if !found && cdf[u] > 0 {
                cm = cdf[u];
                found = true;
                proof {
                    lemma_first_nonzero_skip(lv, 0, u as int, m as int);
                    lemma_count_bounds(lv, u as int);
                }
            }
            u = u + 1;
        }
        proof {
            if !found {
                lemma_first_nonzero_zero(lv, 0, m as int);
            }
        }
        // The degenerate, uniform-valued image: leave it unchanged.
        if cm == n as u64 {
            return self;
        }
        // Equalization lookup table.
        let mut table: Vec<u32> = Vec::new();
        let mut w: usize = 0;
        while w < bins
            invariant
                0 <= w <= bins,
                n == self.pix().len(),
                m as int == T::max_spec(),
                m <= 0xFFFF,
                bins == m + 1,
                lv == self.pix().map_values(|p: Luma<T>| p.l.val()),
                cdf@.len() == bins,
                forall|k: int| 0 <= k < bins ==> #[trigger] cdf@[k] as int == count_le(lv, k),
                forall|k: int| 0 <= k < bins ==> #[trigger] cdf@[k] <= n,
                cm as int == first_nonzero(lv, 0, T::max_spec()),
                cm <= n,
                cm != n,
                table@.len() == w,
                forall|k: int|
                    0 <= k < w ==> #[trigger] table@[k] as int == eq_table(
                        count_le(lv, k),
                        cm as int,
                        n as int,
                        m as int,
                    ),
                forall|k: int| 0 <= k < w ==> #[trigger] table@[k] <= m,
            decreases bins - w,
        {
            proof {
                assert(-0x1_0000_0000_0000_0000_0000 <= ((cdf@[w as int] as int) - (cm as int)) * (
                m as int) <= 0x1_0000_0000_0000_0000_0000) by (nonlinear_arith)
                    requires
                        0 <= cdf@[w as int] <= 0xFFFF_FFFF_FFFF_FFFF,
                        0 <= cm <= 0xFFFF_FFFF_FFFF_FFFF,
                        0 <= m <= 0xFFFF,
                ;
            }
            let num: i128 = ((cdf[w] as i128) - (cm as i128)) * (m as i128);
            let q: i128 = crate::math::rdiv_i128(num, (n as i128) - (cm as i128));
            let e: u32 = if q < 0 {
                0
            } else if q > m as i128 {
                m
            } else {
                q as u32
            };
            table.push(e);
            w = w + 1;
        }
        // Remap every pixel through the table.
        let mut data: Vec<Luma<T>> = Vec::new();
        let mut j: usize = 0;
        while j < n
            invariant
                j <= n,
                n == self.pix().len(),
                self.wf(),
                m as int == T::max_spec(),
                bins == m + 1,
                lv == self.pix().map_values(|p: Luma<T>| p.l.val()),
                table@.len() == bins,
                forall|k: int|
                    0 <= k < bins ==> #[trigger] table@[k] as int == eq_table(
                        count_le(lv, k),
                        cm as int,
                        n as int,
                        m as int,
                    ),
                forall|k: int| 0 <= k < bins ==> #[trigger] table@[k] <= m,
                data@.len() == j,
                forall|q: int|
                    0 <= q < j ==> data@[q] == (Luma {
                        l: T::of_val(
                            eq_table(
                                count_le(lv, self.pix()[q].l.val()),
                                cm as int,
                                n as int,
                                m as int,
                            ),
                        ),
                    }),
            decreases n - j,
        {
            let p = self.data[j];
            proof {
                p.l.lemma_in_bound();
            }
            data.push(Luma { l: T::from_raw(table[p.l.raw() as usize]) });
            j = j + 1;
        }
        Image { width: self.width, height: self.height, data }
    }
}

/// Scanning bins that are all empty up to `m` yields zero.
proof fn lemma_first_nonzero_zero(s: Seq<int>, u: int, m: int)
    requires
        0 <= u <= m + 1,
        forall|w: int| u <= w <= m ==> #[trigger] count_le(s, w) == 0,
    ensures
        first_nonzero(s, u, m) == 0,
    decreases m + 1 - u,
{
    if u <= m {
        lemma_first_nonzero_zero(s, u + 1, m);
    }
}

} // verus!
