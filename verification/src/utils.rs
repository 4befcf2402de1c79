//! Compositing helpers on canonical 8-bit `[r, g, b, a]` quadruples.

use vstd::prelude::*;

verus! {

use crate::error::CoreError;
use crate::image::{Image, lemma_row_major_index};
use crate::math::{rdiv, lemma_rdiv_le};
use crate::pixel::Rgba;

/// The common denominator of the "over" operator for foreground alpha `af`
/// and background alpha `ab`, both in 8-bit scale: `255 * 255` times the
/// blended alpha.  Zero exactly when both alphas are zero.
pub open spec fn blend_denom(af: int, ab: int) -> int {
    255 * af + ab * (255 - af)
}

/// A blended color channel of the "over" operator, rounded to nearest:
/// `(cf * af + cb * ab * (1 - af)) / a_out` carried out in exact integer
/// arithmetic over 8-bit values.  Meaningful when `blend_denom(af, ab) > 0`.
pub open spec fn blend_chan(cf: int, cb: int, af: int, ab: int) -> int {
    rdiv(255 * cf * af + cb * ab * (255 - af), blend_denom(af, ab))
}

/// The blended alpha of the "over" operator in 8-bit scale, rounded to
/// nearest: `af + ab * (1 - af)`.
pub open spec fn blend_alpha(af: int, ab: int) -> int {
    rdiv(blend_denom(af, ab), 255)
}

/// Alpha-blends a foreground over a background quadruple with the "over"
/// operator.  When the blended alpha is zero — both inputs fully transparent
/// — the result is fully transparent black, avoiding the division by zero.
pub fn alpha_blend(fg: [u8; 4], bg: [u8; 4]) -> (out: [u8; 4])
    ensures
        blend_denom(fg@[3] as int, bg@[3] as int) == 0 ==> out@ =~= seq![0u8, 0u8, 0u8, 0u8],
        blend_denom(fg@[3] as int, bg@[3] as int) > 0 ==> {
            &&& out@[0] as int == blend_chan(fg@[0] as int, bg@[0] as int, fg@[3] as int, bg@[3] as int)
            &&& out@[1] as int == blend_chan(fg@[1] as int, bg@[1] as int, fg@[3] as int, bg@[3] as int)
            &&& out@[2] as int == blend_chan(fg@[2] as int, bg@[2] as int, fg@[3] as int, bg@[3] as int)
            &&& out@[3] as int == blend_alpha(fg@[3] as int, bg@[3] as int)
        },
{
    let af: u32 = fg[3] as u32;
    let ab: u32 = bg[3] as u32;
    proof {
        assert((ab as int) * (255 - (af as int)) <= 65025) by (nonlinear_arith)
            requires
                ab <= 255,
                af <= 255,
        ;
        assert(0 <= (ab as int) * (255 - (af as int))) by (nonlinear_arith)
            requires
                ab <= 255,
                af <= 255,
        ;
    }
    let denom: u32 = 255 * af + ab * (255 - af);
    if denom == 0 {
        return [0, 0, 0, 0];
    }
    let r = blend_chan_u32(fg[0] as u32, bg[0] as u32, af, ab, denom);
    let g = blend_chan_u32(fg[1] as u32, bg[1] as u32, af, ab, denom);
    let b = blend_chan_u32(fg[2] as u32, bg[2] as u32, af, ab, denom);
    proof {
        assert(denom <= 65025) by (nonlinear_arith)
            requires
                af <= 255,
                ab <= 255,
                denom as int == 255 * (af as int) + (ab as int) * (255 - (af as int)),
        ;
        lemma_rdiv_le(denom as int, 255, 255);
    }
    let a = crate::math::rdiv_u64(denom as u64, 255) as u32;
    [r as u8, g as u8, b as u8, a as u8]
}

/// One color channel of [`alpha_blend`], over raw 8-bit values.
fn blend_chan_u32(cf: u32, cb: u32, af: u32, ab: u32, denom: u32) -> (r: u32)
    requires
        cf <= 255,
        cb <= 255,
        af <= 255,
        ab <= 255,
        denom as int == blend_denom(af as int, ab as int),
        denom > 0,
    ensures
        r as int == blend_chan(cf as int, cb as int, af as int, ab as int),
        r <= 255,
{
    proof {
        assert((cf as int) * (af as int) <= 65025 && 0 <= (cf as int) * (af as int) && (cb as int)
            * (ab as int) <= 65025 && 0 <= (cb as int) * (ab as int)) by (nonlinear_arith)
            requires
                cf <= 255,
                cb <= 255,
                af <= 255,
                ab <= 255,
        ;
    }
    let t1: u64 = (cf as u64) * (af as u64);
    let t2: u64 = (cb as u64) * (ab as u64);
    proof {
        assert((t2 as int) * (255 - (af as int)) <= 0xFDFE01 && 0 <= (t2 as int) * (255 - (
        af as int))) by (nonlinear_arith)
            requires
                t2 <= 65025,
                af <= 255,
        ;
    }
    let n: u64 = 255 * t1 + t2 * (255 - (af as u64));
    proof {
        assert(n as int == 255 * (cf as int) * (af as int) + (cb as int) * (ab as int) * (255 - (
        af as int))) by (nonlinear_arith)
            requires
                t1 as int == (cf as int) * (af as int),
                t2 as int == (cb as int) * (ab as int),
                n as int == 255 * (t1 as int) + (t2 as int) * (255 - (af as int)),
        ;
        assert(n <= 255 * (denom as int)) by (nonlinear_arith)
            requires
                cf <= 255,
                cb <= 255,
                af <= 255,
                ab <= 255,
                denom as int == 255 * (af as int) + (ab as int) * (255 - (af as int)),
                n as int == 255 * (cf as int) * (af as int) + (cb as int) * (ab as int) * (255
                    - (af as int)),
        ;
        lemma_rdiv_le(n as int, denom as int, 255);
    }
    crate::math::rdiv_u64(n, denom as u64) as u32
}

/// The "over" composite of a foreground color onto a background pixel of
/// the canonical 8-bit primitive: transparent everywhere both are fully
/// transparent, the rounded blend otherwise.
pub open spec fn blend_px(fg: Rgba<u8>, bg: Rgba<u8>) -> Rgba<u8> {
    if blend_denom(fg.a as int, bg.a as int) == 0 {
        Rgba { r: 0u8, g: 0u8, b: 0u8, a: 0u8 }
    } else {
        Rgba {
            r: blend_chan(fg.r as int, bg.r as int, fg.a as int, bg.a as int) as u8,
            g: blend_chan(fg.g as int, bg.g as int, fg.a as int, bg.a as int) as u8,
            b: blend_chan(fg.b as int, bg.b as int, fg.a as int, bg.a as int) as u8,
            a: blend_alpha(fg.a as int, bg.a as int) as u8,
        }
    }
}

impl Image<Rgba<u8>> {
    /// Alpha-blends `color` over the pixel at `position` with the "over"
    /// operator.  Fails with [`CoreError::OutOfBounds`] if and only if a
    /// coordinate is at or beyond the corresponding dimension, leaving the
    /// image unchanged.
    pub fn alpha_blend_pixel(&mut self, position: (usize, usize), color: Rgba<u8>) -> (res: Result<
        (),
        CoreError,
    >)
        requires
            old(self).wf(),
        ensures
            final(self).wf(),
            final(self).same_dims(*old(self)),
            res is Ok <==> old(self).in_bounds(position.0 as int, position.1 as int),
            res is Ok ==> final(self).pix() == old(self).pix().update(
                position.1 * old(self).w() + position.0,
                blend_px(color, old(self).at(position.0 as int, position.1 as int)),
            ),
            res is Err ==> *final(self) == *old(self) && res == Err::<(), CoreError>(
                CoreError::OutOfBounds,
            ),
    {
        let (x, y) = position;
        if x >= self.width || y >= self.height {
            return Err(CoreError::OutOfBounds);
        }
        let n = self.data.len();
        proof {
            lemma_row_major_index(self.w(), self.h(), x as int, y as int);
        }
        let bg = self.data[y * self.width + x];
        let out = alpha_blend([color.r, color.g, color.b, color.a], [bg.r, bg.g, bg.b, bg.a]);
        let px = Rgba { r: out[0], g: out[1], b: out[2], a: out[3] };
        proof {
            assert(px == blend_px(color, bg));
        }
        self.data[y * self.width + x] = px;
        Ok(())
    }
}

/// The 32-bit framebuffer word of a canonical 8-bit quadruple, as a window
/// presents it: fully transparent pixels map to the zero sentinel, all others
/// pack `[a, r, g, b]` big-endian.
pub fn framebuffer_pixel(rgba: [u8; 4]) -> (w: u32)
    ensures
        rgba@[3] == 0 ==> w == 0,
        rgba@[3] != 0 ==> w as int == 0x1000000 * (rgba@[3] as int) + 0x10000 * (rgba@[0] as int)
            + 0x100 * (rgba@[1] as int) + (rgba@[2] as int),
{
    if rgba[3] == 0 {
        return 0;
    }
    0x1000000 * (rgba[3] as u32) + 0x10000 * (rgba[0] as u32) + 0x100 * (rgba[1] as u32) + (
    rgba[2] as u32)
}

} // verus!
