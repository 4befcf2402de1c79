//! The pixel model: channel primitives and pixel kinds.
//!
//! A channel primitive is a bounded integer type; the library's closed set is
//! 8-bit (`u8`, bound 255) and 16-bit (`u16`, bound 65535).  A pixel is a
//! fixed-arity tuple of same-typed channels: four-channel color ([`Rgba`]) or
//! single-channel luminance ([`Luma`]).  Conversion to and from the canonical
//! 8-bit-per-channel encoding rescales linearly between the bounds, rounded
//! to nearest.

use vstd::prelude::*;

verus! {

use crate::error::CoreError;
use crate::math::{
    rdiv, rescale, lemma_rescale_in_range, lemma_rdiv_le, rescale_u32, rdiv_u64,
};

/// A bounded integer channel primitive.
///
/// `val` is the channel's native value as a mathematical integer, always in
/// `[0, max_spec()]`; `of_val` is its inverse on that range.  The bound is at
/// least the canonical 8-bit range and at most 16 bits, so that all channel
/// arithmetic fits comfortably in 64-bit intermediates.
pub trait Channel: Copy + Sized {
    /// The channel's native value.
    spec fn val(self) -> int;

    /// The primitive's largest representable value.
    spec fn max_spec() -> int;

    /// The channel holding native value `v`.
    spec fn of_val(v: int) -> Self;

    /// Every channel value lies within the primitive's bound.
    proof fn lemma_in_bound(self)
        ensures
            0 <= self.val() <= Self::max_spec(),
    ;

    /// The bound covers at least the canonical 8-bit range and at most 16
    /// bits.
    proof fn lemma_bound_range()
        ensures
            255 <= Self::max_spec() <= 0xFFFF,
    ;

    /// `of_val` inverts `val` on the representable range.
    proof fn lemma_of_val(v: int)
        requires
            0 <= v <= Self::max_spec(),
        ensures
            Self::of_val(v).val() == v,
    ;

    /// A channel is determined by its value.
    proof fn lemma_of_val_val(self)
        ensures
            Self::of_val(self.val()) == self,
    ;

    /// The native value, widened to `u32`.
    fn raw(self) -> (r: u32)
        ensures
            r as int == self.val(),
    ;

    /// The channel holding native value `v`.
    fn from_raw(v: u32) -> (c: Self)
        requires
            v as int <= Self::max_spec(),
        ensures
            c == Self::of_val(v as int),
            c.val() == v as int,
    ;

    /// The primitive's bound, as a `u32`.
    fn max_raw() -> (r: u32)
        ensures
            r as int == Self::max_spec(),
    ;
}

impl Channel for u8 {
    open spec fn val(self) -> int {
        self as int
    }

    open spec fn max_spec() -> int {
        255
    }

    open spec fn of_val(v: int) -> Self {
        v as u8
    }

    proof fn lemma_in_bound(self) {
    }

    proof fn lemma_bound_range() {
    }

    proof fn lemma_of_val(v: int) {
    }

    proof fn lemma_of_val_val(self) {
    }

    fn raw(self) -> u32 {
        self as u32
    }

    fn from_raw(v: u32) -> Self {
        v as u8
    }

    fn max_raw() -> u32 {
        255
    }
}

impl Channel for u16 {
    open spec fn val(self) -> int {
        self as int
    }

    open spec fn max_spec() -> int {
        0xFFFF
    }

    open spec fn of_val(v: int) -> Self {
        v as u16
    }

    proof fn lemma_in_bound(self) {
    }

    proof fn lemma_bound_range() {
    }

    proof fn lemma_of_val(v: int) {
    }

    proof fn lemma_of_val_val(self) {
    }

    fn raw(self) -> u32 {
        self as u32
    }

    fn from_raw(v: u32) -> Self {
        v as u16
    }

    fn max_raw() -> u32 {
        0xFFFF
    }
}

/// The BT.601 luma of native-scale red, green and blue values, rounded to
/// nearest: weights 0.299, 0.587 and 0.114.
pub open spec fn luma601(r: int, g: int, b: int) -> int {
    rdiv(299 * r + 587 * g + 114 * b, 1000)
}

/// The luma of in-range channels is in range.
pub proof fn lemma_luma601_in_range(r: int, g: int, b: int, m: int)
    requires
        0 <= r <= m,
        0 <= g <= m,
        0 <= b <= m,
    ensures
        0 <= luma601(r, g, b) <= m,
{
    lemma_rdiv_le(299 * r + 587 * g + 114 * b, 1000, m);
}

/// Executable BT.601 luma on raw channel values.
pub fn luma601_u32(r: u32, g: u32, b: u32, m: u32) -> (l: u32)
    requires
        r <= m,
        g <= m,
        b <= m,
        m <= 0xFFFF,
    ensures
        l as int == luma601(r as int, g as int, b as int),
        l <= m,
{
    proof {
        lemma_luma601_in_range(r as int, g as int, b as int, m as int);
    }
    let n: u64 = 299 * (r as u64) + 587 * (g as u64) + 114 * (b as u64);
    let q: u64 = rdiv_u64(n, 1000);
    q as u32
}

/// A pixel: a fixed-arity tuple of channels of one primitive, with a defined
/// conversion to and from the canonical 8-bit-per-channel encoding.
pub trait Pixel: Copy + Sized {
    /// The pixel all of whose channels are zero: transparent black, or zero
    /// luminance.
    spec fn default_spec() -> Self;

    /// How many channels the pixel kind has.
    spec fn count_spec() -> int;

    /// The ordered native channel values.
    spec fn chans(self) -> Seq<int>;

    /// The pixel decoded from one canonical 8-bit `[r, g, b, a]` quadruple.
    spec fn decode_spec(r: int, g: int, b: int, a: int) -> Self;

    /// The canonical 8-bit `[r, g, b, a]` encoding of the pixel.
    spec fn encode_spec(self) -> Seq<int>;

    /// The arity of `chans` is the kind's channel count.
    proof fn lemma_chan_count(self)
        ensures
            self.chans().len() == Self::count_spec(),
    ;

    /// How many channels the pixel kind has.
    fn channel_count() -> (n: usize)
        ensures
            n as int == Self::count_spec(),
    ;

    /// The default pixel value.
    fn new() -> (p: Self)
        ensures
            p == Self::default_spec(),
    ;

    /// Decodes a canonical 8-bit quadruple, rescaling each channel onto the
    /// primitive's bound.  The rescaled values are checked against the bound;
    /// a value that cannot be represented is an [`CoreError::InvalidCast`],
    /// which for the supported primitives never happens.
    fn from_rgba8(rgba: [u8; 4]) -> (p: Result<Self, CoreError>)
        ensures
            p == Ok::<Self, CoreError>(
                Self::decode_spec(
                    rgba@[0] as int,
                    rgba@[1] as int,
                    rgba@[2] as int,
                    rgba@[3] as int,
                ),
            ),
    ;

    /// Encodes the pixel as a canonical 8-bit quadruple, rescaling each
    /// channel onto the 8-bit bound.  Total: encoding never fails.
    fn to_rgba8(&self) -> (r: [u8; 4])
        ensures
            r@[0] as int == self.encode_spec()[0],
            r@[1] as int == self.encode_spec()[1],
            r@[2] as int == self.encode_spec()[2],
            r@[3] as int == self.encode_spec()[3],
    ;

    /// The ordered raw channel values.
    fn channels(&self) -> (v: Vec<u32>)
        ensures
            v@.len() == self.chans().len(),
            forall|i: int| 0 <= i < v@.len() ==> v@[i] as int == self.chans()[i],
    ;
}

/// A four-channel color pixel: red, green, blue, alpha.
#[derive(Clone, Copy, Debug, PartialEq, Eq)]
pub struct Rgba<T: Channel> {
    /// Red channel, in native scale.
    pub r: T,
    /// Green channel, in native scale.
    pub g: T,
    /// Blue channel, in native scale.
    pub b: T,
    /// Alpha (opacity) channel, in native scale.
    pub a: T,
}

/// A single-channel luminance pixel.
#[derive(Clone, Copy, Debug, PartialEq, Eq)]
pub struct Luma<T: Channel> {
    /// Luminance, in native scale.
    pub l: T,
}

impl<T: Channel> Pixel for Rgba<T> {
    open spec fn default_spec() -> Self {
        Rgba { r: T::of_val(0), g: T::of_val(0), b: T::of_val(0), a: T::of_val(0) }
    }

    open spec fn count_spec() -> int {
        4
    }

    open spec fn chans(self) -> Seq<int> {
        seq![self.r.val(), self.g.val(), self.b.val(), self.a.val()]
    }

    open spec fn decode_spec(r: int, g: int, b: int, a: int) -> Self {
        Rgba {
            r: T::of_val(rescale(r, 255, T::max_spec())),
            g: T::of_val(rescale(g, 255, T::max_spec())),
            b: T::of_val(rescale(b, 255, T::max_spec())),
            a: T::of_val(rescale(a, 255, T::max_spec())),
        }
    }

    open spec fn encode_spec(self) -> Seq<int> {
        seq![
            rescale(self.r.val(), T::max_spec(), 255),
            rescale(self.g.val(), T::max_spec(), 255),
            rescale(self.b.val(), T::max_spec(), 255),
            rescale(self.a.val(), T::max_spec(), 255),
        ]
    }

    proof fn lemma_chan_count(self) {
    }

    fn channel_count() -> usize {
        4
    }

    fn new() -> Self {
        proof {
            T::lemma_bound_range();
        }
        Rgba { r: T::from_raw(0), g: T::from_raw(0), b: T::from_raw(0), a: T::from_raw(0) }
    }

    fn from_rgba8(rgba: [u8; 4]) -> Result<Self, CoreError> {
        proof {
            T::lemma_bound_range();
        }
        let m = T::max_raw();
        let r = rescale_u32(rgba[0] as u32, 255, m);
        let g = rescale_u32(rgba[1] as u32, 255, m);
        let b = rescale_u32(rgba[2] as u32, 255, m);
        let a = rescale_u32(rgba[3] as u32, 255, m);
        if r > m || g > m || b > m || a > m {
            return Err(CoreError::InvalidCast);
        }
        Ok(Rgba {
            r: T::from_raw(r),
            g: T::from_raw(g),
            b: T::from_raw(b),
            a: T::from_raw(a),
        })
    }

    fn to_rgba8(&self) -> [u8; 4] {
        proof {
            T::lemma_bound_range();
            self.r.lemma_in_bound();
            self.g.lemma_in_bound();
            self.b.lemma_in_bound();
            self.a.lemma_in_bound();
        }
        let m = T::max_raw();
        let r = rescale_u32(self.r.raw(), m, 255);
        let g = rescale_u32(self.g.raw(), m, 255);
        let b = rescale_u32(self.b.raw(), m, 255);
        let a = rescale_u32(self.a.raw(), m, 255);
        [r as u8, g as u8, b as u8, a as u8]
    }

    fn channels(&self) -> Vec<u32> {
        let mut v: Vec<u32> = Vec::new();
        v.push(self.r.raw());
        v.push(self.g.raw());
        v.push(self.b.raw());
        v.push(self.a.raw());
        v
    }
}

impl<T: Channel> Pixel for Luma<T> {
    open spec fn default_spec() -> Self {
        Luma { l: T::of_val(0) }
    }

    open spec fn count_spec() -> int {
        1
    }

    open spec fn chans(self) -> Seq<int> {
        seq![self.l.val()]
    }

    open spec fn decode_spec(r: int, g: int, b: int, a: int) -> Self {
        Luma {
            l: T::of_val(
                luma601(
                    rescale(r, 255, T::max_spec()),
                    rescale(g, 255, T::max_spec()),
                    rescale(b, 255, T::max_spec()),
                ),
            ),
        }
    }

    open spec fn encode_spec(self) -> Seq<int> {
        let v = rescale(self.l.val(), T::max_spec(), 255);
        seq![v, v, v, 255]
    }

    proof fn lemma_chan_count(self) {
    }

    fn channel_count() -> usize {
        1
    }

    fn new() -> Self {
        proof {
            T::lemma_bound_range();
        }
        Luma { l: T::from_raw(0) }
    }

    fn from_rgba8(rgba: [u8; 4]) -> Result<Self, CoreError> {
        proof {
            T::lemma_bound_range();
        }
        let m = T::max_raw();
        let r = rescale_u32(rgba[0] as u32, 255, m);
        let g = rescale_u32(rgba[1] as u32, 255, m);
        let b = rescale_u32(rgba[2] as u32, 255, m);
        let l = luma601_u32(r, g, b, m);
        if l > m {
            return Err(CoreError::InvalidCast);
        }
        Ok(Luma { l: T::from_raw(l) })
    }

    fn to_rgba8(&self) -> [u8; 4] {
        proof {
            T::lemma_bound_range();
            self.l.lemma_in_bound();
        }
        let m = T::max_raw();
        let v = rescale_u32(self.l.raw(), m, 255);
        [v as u8, v as u8, v as u8, 255]
    }

    fn channels(&self) -> Vec<u32> {
        let mut v: Vec<u32> = Vec::new();
        v.push(self.l.raw());
        v
    }
}

/// Decoding a canonical 8-bit quadruple into a color pixel of any supported
/// primitive and encoding it back is exact: the quantization error of the
/// round trip is zero, in particular within one least-significant unit per
/// channel.
pub proof fn lemma_rgba8_round_trip<T: Channel>(r: int, g: int, b: int, a: int)
    requires
        0 <= r <= 255,
        0 <= g <= 255,
        0 <= b <= 255,
        0 <= a <= 255,
    ensures
        Rgba::<T>::decode_spec(r, g, b, a).encode_spec() =~= seq![r, g, b, a],
{
    T::lemma_bound_range();
    let m = T::max_spec();
    lemma_rescale_in_range(r, 255, m);
    lemma_rescale_in_range(g, 255, m);
    lemma_rescale_in_range(b, 255, m);
    lemma_rescale_in_range(a, 255, m);
    T::lemma_of_val(rescale(r, 255, m));
    T::lemma_of_val(rescale(g, 255, m));
    T::lemma_of_val(rescale(b, 255, m));
    T::lemma_of_val(rescale(a, 255, m));
    crate::math::lemma_rescale_round_trip(r, m);
    crate::math::lemma_rescale_round_trip(g, m);
    crate::math::lemma_rescale_round_trip(b, m);
    crate::math::lemma_rescale_round_trip(a, m);
}

} // verus!
