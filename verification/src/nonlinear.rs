//! Nonlinear neighborhood filters: grayscale morphology and median blur.
//!
//! Morphology takes the extremum of the luminance values under the active
//! taps of a 0/1 structuring element; taps outside the image are skipped,
//! not substituted.  Median blur sorts the in-bounds square neighborhood of
//! each pixel and takes the middle element.

use vstd::prelude::*;

verus! {

use vstd::relations::{sorted_by, total_ordering};
use vstd::seq_lib::lemma_sorted_unique;
use crate::error::{CoreError, Error};
use crate::image::{Image, lemma_row_major_index};
use crate::kernel::Kernel;
use crate::pixel::{Channel, Luma, Pixel};

/// The running maximum over the first `kx` active in-bounds taps of mask
/// row `ky`, seeded at zero.
pub open spec fn dilate_row<T: Channel>(
    img: Image<Luma<T>>,
    k: Kernel,
    x: int,
    y: int,
    ky: int,
    kx: int,
) -> int
    decreases kx,
{
    if kx <= 0 {
        0
    } else {
        let p = dilate_row(img, k, x, y, ky, kx - 1);
        let sx = x + (kx - 1) - k.w() / 2;
        let sy = y + ky - k.h() / 2;
        if k.wt(kx - 1, ky) != 0 && img.in_bounds(sx, sy) {
            if img.at(sx, sy).l.val() > p {
                img.at(sx, sy).l.val()
            } else {
                p
            }
        } else {
            p
        }
    }
}

/// The running maximum over the first `ky` full mask rows, seeded at zero.
pub open spec fn dilate_rows<T: Channel>(
    img: Image<Luma<T>>,
    k: Kernel,
    x: int,
    y: int,
    ky: int,
) -> int
    decreases ky,
{
    if ky <= 0 {
        0
    } else {
        let p = dilate_rows(img, k, x, y, ky - 1);
        let r = dilate_row(img, k, x, y, ky - 1, k.w());
        if r > p {
            r
        } else {
            p
        }
    }
}

/// The running minimum over the first `kx` active in-bounds taps of mask
/// row `ky`, seeded at the primitive's maximum.
pub open spec fn erode_row<T: Channel>(
    img: Image<Luma<T>>,
    k: Kernel,
    x: int,
    y: int,
    ky: int,
    kx: int,
) -> int
    decreases kx,
{
    if kx <= 0 {
        T::max_spec()
    } else {
        let p = erode_row(img, k, x, y, ky, kx - 1);
        let sx = x + (kx - 1) - k.w() / 2;
        let sy = y + ky - k.h() / 2;
        if k.wt(kx - 1, ky) != 0 && img.in_bounds(sx, sy) {
            if img.at(sx, sy).l.val() < p {
                img.at(sx, sy).l.val()
            } else {
                p
            }
        } else {
            p
        }
    }
}

/// The running minimum over the first `ky` full mask rows, seeded at the
/// primitive's maximum.
pub open spec fn erode_rows<T: Channel>(
    img: Image<Luma<T>>,
    k: Kernel,
    x: int,
    y: int,
    ky: int,
) -> int
    decreases ky,
{
    if ky <= 0 {
        T::max_spec()
    } else {
        let p = erode_rows(img, k, x, y, ky - 1);
        let r = erode_row(img, k, x, y, ky - 1, k.w());
        if r < p {
            r
        } else {
            p
        }
    }
}

impl<T: Channel> Image<Luma<T>> {
    /// Grayscale dilation: each output pixel is the maximum luminance under
    /// the active in-bounds taps of the mask centered there, and zero where
    /// no such tap exists.  Fails with [`CoreError::InvalidData`] if and
    /// only if a mask dimension is even or exceeds the corresponding image
    /// dimension.
    pub fn dilate(self, kernel: &Kernel) -> (res: Result<Self, Error>)
        requires
            self.wf(),
            kernel.wf(),
            kernel.is_mask(),
        ensures
            res is Ok <==> (kernel.odd() && kernel.w() <= self.w() && kernel.h() <= self.h()),
            res is Ok ==> {
                let img = res->Ok_0;
                &&& img.wf()
                &&& img.same_dims(self)
                &&& forall|px: int, py: int|
                    self.in_bounds(px, py) ==> img.at(px, py) == (Luma {
                        l: T::of_val(dilate_rows(self, *kernel, px, py, kernel.h())),
                    })
            },
            res is Err ==> res == Err::<Self, Error>(Error::CoreError(CoreError::InvalidData)),
    {
        if kernel.width % 2 == 0 || kernel.height % 2 == 0 {
            return Err(Error::CoreError(CoreError::InvalidData));
        }
        if kernel.width > self.width || kernel.height > self.height {
            return Err(Error::CoreError(CoreError::InvalidData));
        }
        let m = T::max_raw();
        let kw = kernel.width;
        let kh = kernel.height;
        let half_w = kw / 2;
        let half_h = kh / 2;
        let mut data: Vec<Luma<T>> = Vec::new();
        let mut y: usize = 0;
        while y < self.height
            invariant
                y <= self.height,
                self.wf(),
                kernel.wf(),
                kernel.w() <= self.w(),
                kernel.h() <= self.h(),
                m as int == T::max_spec(),
                kw == kernel.w(),
                kh == kernel.h(),
                half_w == kernel.w() / 2,
                half_h == kernel.h() / 2,
                data@.len() == y * self.w(),
                forall|px: int, py: int|
                    0 <= px < self.w() && 0 <= py < y ==> #[trigger] data@[py * self.w() + px]
                        == (Luma { l: T::of_val(dilate_rows(self, *kernel, px, py, kernel.h())) }),
            decreases self.h() - y,
        {
            let mut x: usize = 0;
            while x < self.width
                invariant
                    y < self.height,
                    x <= self.width,
                    self.wf(),
                    kernel.wf(),
                    kernel.w() <= self.w(),
                    kernel.h() <= self.h(),
                    m as int == T::max_spec(),
                    kw == kernel.w(),
                    kh == kernel.h(),
                    half_w == kernel.w() / 2,
                    half_h == kernel.h() / 2,
                    data@.len() == y * self.w() + x,
                    forall|px: int, py: int|
                        0 <= px < self.w() && 0 <= py < y ==> #[trigger] data@[py * self.w() + px]
                            == (Luma {
                            l: T::of_val(dilate_rows(self, *kernel, px, py, kernel.h())),
                        }),
                    forall|px: int|
                        0 <= px < x ==> #[trigger] data@[y * self.w() + px] == (Luma {
                            l: T::of_val(dilate_rows(self, *kernel, px, y as int, kernel.h())),
                        }),
                decreases self.w() - x,
            {
                let mut cur: u32 = 0;
                let mut ky: usize = 0;
                while ky < kh
                    invariant
                        ky <= kh,
                        x < self.width,
                        y < self.height,
                        self.wf(),
                        kernel.wf(),
                        kernel.w() <= self.w(),
                        kernel.h() <= self.h(),
                        m as int == T::max_spec(),
                        kw == kernel.w(),
                        kh == kernel.h(),
                        half_w == kernel.w() / 2,
                        half_h == kernel.h() / 2,
                        cur as int == dilate_rows(self, *kernel, x as int, y as int, ky as int),
                        cur <= m,
                    decreases kh - ky,
                {
                    let mut kx: usize = 0;
                    while kx < kw
                        invariant
                            kx <= kw,
                            ky < kh,
                            x < self.width,
                            y < self.height,
                            self.wf(),
                            kernel.wf(),
                            kernel.w() <= self.w(),
                            kernel.h() <= self.h(),
                            m as int == T::max_spec(),
                            kw == kernel.w(),
                            kh == kernel.h(),
                            half_w == kernel.w() / 2,
                            half_h == kernel.h() / 2,
                            ({
                                let rows = dilate_rows(self, *kernel, x as int, y as int, ky as int);
                                let row = dilate_row(
                                    self,
                                    *kernel,
                                    x as int,
                                    y as int,
                                    ky as int,
                                    kx as int,
                                );
                                cur as int == if row > rows {
                                    row
                                } else {
                                    rows
                                }
                            }),
                            cur <= m,
                        decreases kw - kx,
                    {
                        let sxc: i128 = (x as i128) + (kx as i128) - (half_w as i128);
                        let syc: i128 = (y as i128) + (ky as i128) - (half_h as i128);
                        let wlen = kernel.weights.len();
                        proof {
                            lemma_row_major_index(kernel.w(), kernel.h(), kx as int, ky as int);
                        }
                        let wn = kernel.weights[ky * kw + kx];
                        if wn != 0 && sxc >= 0 && syc >= 0 && sxc < self.width as i128 && syc
                            < self.height as i128 {
                            let n = self.data.len();
                            proof {
                                lemma_row_major_index(self.w(), self.h(), sxc as int, syc as int);
                                self.data@[(syc as int) * self.w() + (sxc as int)].l.lemma_in_bound();
                            }
                            let s = self.data[(syc as usize) * self.width + (sxc as usize)].l.raw();
                            if s > cur {
                                cur = s;
                            }
                        }
                        kx = kx + 1;
                    }
                    ky = ky + 1;
                }
                data.push(Luma { l: T::from_raw(cur) });
                proof {
                    assert forall|px: int, py: int|
                        0 <= px < self.w() && 0 <= py < y implies 0 <= #[trigger] (py * self.w()
                        + px) && py * self.w() + px < (y as int) * self.w() by {
                        lemma_row_major_index(self.w(), y as int, px, py);
                        assert(self.w() * (y as int) == (y as int) * self.w()) by (nonlinear_arith);
                    }
                }
                x = x + 1;
            }
            proof {
                assert((y as int + 1) * self.w() == (y as int) * self.w() + self.w())
                    by (nonlinear_arith);
                assert forall|px: int, py: int|
                    0 <= px < self.w() && 0 <= py < y as int + 1 implies #[trigger] data@[py
                    * self.w() + px] == (Luma {
                    l: T::of_val(dilate_rows(self, *kernel, px, py, kernel.h())),
                }) by {
                    if py == y as int {
                        assert(data@[(y as int) * self.w() + px] == (Luma {
                            l: T::of_val(dilate_rows(self, *kernel, px, y as int, kernel.h())),
                        }));
                    }
                }
            }
            y = y + 1;
        }
        proof {
            assert(data@.len() == self.h() * self.w());
            assert(self.h() * self.w() == self.w() * self.h()) by (nonlinear_arith);
        }
        let out = Image { width: self.width, height: self.height, data };
        proof {
            assert forall|px: int, py: int| self.in_bounds(px, py) implies out.at(px, py) == (Luma {
                l: T::of_val(dilate_rows(self, *kernel, px, py, kernel.h())),
            }) by {
                lemma_row_major_index(self.w(), self.h(), px, py);
            }
        }
        Ok(out)
    }

    /// Grayscale erosion: each output pixel is the minimum luminance under
    /// the active in-bounds taps of the mask centered there; where no such
    /// tap exists the seed persists, which is defined as the primitive's
    /// maximum value.  Fails with [`CoreError::InvalidData`] if and only if
    /// a mask dimension is even or exceeds the corresponding image
    /// dimension.
    pub fn erode(self, kernel: &Kernel) -> (res: Result<Self, Error>)
        requires
            self.wf(),
            kernel.wf(),
            kernel.is_mask(),
        ensures
            res is Ok <==> (kernel.odd() && kernel.w() <= self.w() && kernel.h() <= self.h()),
            res is Ok ==> {
                let img = res->Ok_0;
                &&& img.wf()
                &&& img.same_dims(self)
                &&& forall|px: int, py: int|
                    self.in_bounds(px, py) ==> img.at(px, py) == (Luma {
                        l: T::of_val(erode_rows(self, *kernel, px, py, kernel.h())),
                    })
            },
            res is Err ==> res == Err::<Self, Error>(Error::CoreError(CoreError::InvalidData)),
    {
        if kernel.width % 2 == 0 || kernel.height % 2 == 0 {
            return Err(Error::CoreError(CoreError::InvalidData));
        }
        if kernel.width > self.width || kernel.height > self.height {
            return Err(Error::CoreError(CoreError::InvalidData));
        }
        let m = T::max_raw();
        let kw = kernel.width;
        let kh = kernel.height;
        let half_w = kw / 2;
        let half_h = kh / 2;
        let mut data: Vec<Luma<T>> = Vec::new();
        let mut y: usize = 0;
        while y < self.height
            invariant
                y <= self.height,
                self.wf(),
                kernel.wf(),
                kernel.w() <= self.w(),
                kernel.h() <= self.h(),
                m as int == T::max_spec(),
                kw == kernel.w(),
                kh == kernel.h(),
                half_w == kernel.w() / 2,
                half_h == kernel.h() / 2,
                data@.len() == y * self.w(),
                forall|px: int, py: int|
                    0 <= px < self.w() && 0 <= py < y ==> #[trigger] data@[py * self.w() + px]
                        == (Luma { l: T::of_val(erode_rows(self, *kernel, px, py, kernel.h())) }),
            decreases self.h() - y,
        {
            let mut x: usize = 0;
            while x < self.width
                invariant
                    y < self.height,
                    x <= self.width,
                    self.wf(),
                    kernel.wf(),
                    kernel.w() <= self.w(),
                    kernel.h() <= self.h(),
                    m as int == T::max_spec(),
                    kw == kernel.w(),
                    kh == kernel.h(),
                    half_w == kernel.w() / 2,
                    half_h == kernel.h() / 2,
                    data@.len() == y * self.w() + x,
                    forall|px: int, py: int|
                        0 <= px < self.w() && 0 <= py < y ==> #[trigger] data@[py * self.w() + px]
                            == (Luma {
                            l: T::of_val(erode_rows(self, *kernel, px, py, kernel.h())),
                        }),
                    forall|px: int|
                        0 <= px < x ==> #[trigger] data@[y * self.w() + px] == (Luma {
                            l: T::of_val(erode_rows(self, *kernel, px, y as int, kernel.h())),
                        }),
                decreases self.w() - x,
            {
                proof {
                    T::lemma_bound_range();
                }
                let mut cur: u32 = m;
                let mut ky: usize = 0;
                while ky < kh
                    invariant
                        ky <= kh,
                        x < self.width,
                        y < self.height,
                        self.wf(),
                        kernel.wf(),
                        kernel.w() <= self.w(),
                        kernel.h() <= self.h(),
                        m as int == T::max_spec(),
                        kw == kernel.w(),
                        kh == kernel.h(),
                        half_w == kernel.w() / 2,
                        half_h == kernel.h() / 2,
                        cur as int == erode_rows(self, *kernel, x as int, y as int, ky as int),
                        cur <= m,
                    decreases kh - ky,
                {
                    let mut kx: usize = 0;
                    while kx < kw
                        invariant
                            kx <= kw,
                            ky < kh,
                            x < self.width,
                            y < self.height,
                            self.wf(),
                            kernel.wf(),
                            kernel.w() <= self.w(),
                            kernel.h() <= self.h(),
                            m as int == T::max_spec(),
                            kw == kernel.w(),
                            kh == kernel.h(),
                            half_w == kernel.w() / 2,
                            half_h == kernel.h() / 2,
                            ({
                                let rows = erode_rows(self, *kernel, x as int, y as int, ky as int);
                                let row = erode_row(
                                    self,
                                    *kernel,
                                    x as int,
                                    y as int,
                                    ky as int,
                                    kx as int,
                                );
                                cur as int == if row < rows {
                                    row
                                } else {
                                    rows
                                }
                            }),
                            cur <= m,
                        decreases kw - kx,
                    {
                        let sxc: i128 = (x as i128) + (kx as i128) - (half_w as i128);
                        let syc: i128 = (y as i128) + (ky as i128) - (half_h as i128);
                        let wlen = kernel.weights.len();
                        proof {
                            lemma_row_major_index(kernel.w(), kernel.h(), kx as int, ky as int);
                        }
                        let wn = kernel.weights[ky * kw + kx];
                        if wn != 0 && sxc >= 0 && syc >= 0 && sxc < self.width as i128 && syc
                            < self.height as i128 {
                            let n = self.data.len();
                            proof {
                                lemma_row_major_index(self.w(), self.h(), sxc as int, syc as int);
                                self.data@[(syc as int) * self.w() + (sxc as int)].l.lemma_in_bound();
                            }
                            let s = self.data[(syc as usize) * self.width + (sxc as usize)].l.raw();
                            if s < cur {
                                cur = s;
                            }
                        }
                        kx = kx + 1;
                    }
                    ky = ky + 1;
                }
                data.push(Luma { l: T::from_raw(cur) });
                proof {
                    assert forall|px: int, py: int|
                        0 <= px < self.w() && 0 <= py < y implies 0 <= #[trigger] (py * self.w()
                        + px) && py * self.w() + px < (y as int) * self.w() by {
                        lemma_row_major_index(self.w(), y as int, px, py);
                        assert(self.w() * (y as int) == (y as int) * self.w()) by (nonlinear_arith);
                    }
                }
                x = x + 1;
            }
            proof {
                assert((y as int + 1) * self.w() == (y as int) * self.w() + self.w())
                    by (nonlinear_arith);
                assert forall|px: int, py: int|
                    0 <= px < self.w() && 0 <= py < y as int + 1 implies #[trigger] data@[py
                    * self.w() + px] == (Luma {
                    l: T::of_val(erode_rows(self, *kernel, px, py, kernel.h())),
                }) by {
                    if py == y as int {
                        assert(data@[(y as int) * self.w() + px] == (Luma {
                            l: T::of_val(erode_rows(self, *kernel, px, y as int, kernel.h())),
                        }));
                    }
                }
            }
            y = y + 1;
        }
        proof {
            assert(data@.len() == self.h() * self.w());
            assert(self.h() * self.w() == self.w() * self.h()) by (nonlinear_arith);
        }
        let out = Image { width: self.width, height: self.height, data };
        proof {
            assert forall|px: int, py: int| self.in_bounds(px, py) implies out.at(px, py) == (Luma {
                l: T::of_val(erode_rows(self, *kernel, px, py, kernel.h())),
            }) by {
                lemma_row_major_index(self.w(), self.h(), px, py);
            }
        }
        Ok(out)
    }
}

/// The total order on raw channel values that the median sorts by.
pub open spec fn u32_leq() -> spec_fn(u32, u32) -> bool {
    |a: u32, b: u32| a <= b
}

/// `u32_leq` is a total order.
pub proof fn lemma_u32_leq_total()
    ensures
        total_ordering(u32_leq()),
{
}

/// The in-bounds samples of the first `kx` taps of neighborhood row `ky`,
/// for a square neighborhood of side `ks` centered at `(x, y)`, in tap
/// order.
pub open spec fn neigh_row<T: Channel>(
    img: Image<Luma<T>>,
    ks: int,
    x: int,
    y: int,
    ky: int,
    kx: int,
) -> Seq<u32>
    decreases kx,
{
    if kx <= 0 {
        Seq::empty()
    } else {
        let p = neigh_row(img, ks, x, y, ky, kx - 1);
        let sx = x + (kx - 1) - ks / 2;
        let sy = y + ky - ks / 2;
        if img.in_bounds(sx, sy) {
            p.push(img.at(sx, sy).l.val() as u32)
        } else {
            p
        }
    }
}

/// The in-bounds samples of the first `ky` full neighborhood rows, in tap
/// order.
pub open spec fn neigh_rows<T: Channel>(
    img: Image<Luma<T>>,
    ks: int,
    x: int,
    y: int,
    ky: int,
) -> Seq<u32>
    decreases ky,
{
    if ky <= 0 {
        Seq::empty()
    } else {
        neigh_rows(img, ks, x, y, ky - 1) + neigh_row(img, ks, x, y, ky - 1, ks)
    }
}

/// The middle element of the sequence sorted ascending.
pub open spec fn median_of(s: Seq<u32>) -> u32 {
    s.sort_by(u32_leq())[s.len() as int / 2]
}

/// The center row of the neighborhood of an in-bounds position contributes
/// at least its center sample.
proof fn lemma_neigh_row_center<T: Channel>(
    img: Image<Luma<T>>,
    ks: int,
    x: int,
    y: int,
    kx: int,
)
    requires
        1 <= ks,
        img.in_bounds(x, y),
        ks / 2 + 1 <= kx <= ks,
    ensures
        neigh_row(img, ks, x, y, ks / 2, kx).len() >= 1,
    decreases kx,
{
    if kx == ks / 2 + 1 {
        assert(x + (kx - 1) - ks / 2 == x);
        assert(y + ks / 2 - ks / 2 == y);
    } else {
        lemma_neigh_row_center(img, ks, x, y, kx - 1);
    }
}

/// The neighborhood of an in-bounds position is never empty: the center
/// sample is always in bounds.
pub proof fn lemma_neigh_nonempty<T: Channel>(
    img: Image<Luma<T>>,
    ks: int,
    x: int,
    y: int,
    ky: int,
)
    requires
        1 <= ks,
        img.in_bounds(x, y),
        ks / 2 + 1 <= ky <= ks,
    ensures
        neigh_rows(img, ks, x, y, ky).len() >= 1,
    decreases ky,
{
    if ky == ks / 2 + 1 {
        lemma_neigh_row_center(img, ks, x, y, ks);
    } else {
        lemma_neigh_nonempty(img, ks, x, y, ky - 1);
    }
}

/// The median of a nonempty sequence of in-range values is in range.
pub proof fn lemma_median_in_range(s: Seq<u32>, m: u32)
    requires
        s.len() >= 1,
        forall|i: int| 0 <= i < s.len() ==> #[trigger] s[i] <= m,
    ensures
        median_of(s) <= m,
{
    broadcast use vstd::seq_lib::group_to_multiset_ensures;

    s.lemma_sort_by_ensures(u32_leq());
    let t = s.sort_by(u32_leq());
    assert(t.to_multiset().len() == s.to_multiset().len());
    assert(t.len() == s.len());
    let mid = s.len() as int / 2;
    assert(t.to_multiset().contains(t[mid]));
    assert(s.to_multiset().contains(t[mid]));
    assert(s.contains(t[mid]));
}

/// Sorts raw channel values ascending, keeping exactly the same values.
#[verifier::rlimit(50)]
fn sort_u32(v: &Vec<u32>) -> (r: Vec<u32>)
    ensures
        sorted_by(r@, u32_leq()),
        r@.to_multiset() == v@.to_multiset(),
        r@.len() == v@.len(),
{
    let mut out: Vec<u32> = Vec::new();
    proof {
        assert(v@.take(0) =~= out@);
    }
    let mut i: usize = 0;
    while i < v.len()
        invariant
            i <= v@.len(),
            sorted_by(out@, u32_leq()),
            out@.to_multiset() == v@.take(i as int).to_multiset(),
            out@.len() == i,
        decreases v@.len() - i,
    {
        let x = v[i];
        let mut pos: usize = 0;
        while pos < out.len() && out[pos] <= x
            invariant
                pos <= out@.len(),
                forall|j: int| 0 <= j < pos ==> #[trigger] out@[j] <= x,
            decreases out@.len() - pos,
        {
            pos = pos + 1;
        }
        let ghost old_out = out@;
        out.insert(pos, x);
        proof {
            broadcast use vstd::seq_lib::group_to_multiset_ensures;

            old_out.insert_ensures(pos as int, x);
            let ins = old_out.insert(pos as int, x);
            assert(out@ == ins);
            assert forall|a: int, b: int|
                0 <= a < b < out@.len() implies u32_leq()(out@[a], out@[b]) by {
                if b < pos {
                    assert(ins[a] == old_out[a] && ins[b] == old_out[b]);
                } else if b == pos {
                    assert(ins[a] == old_out[a] && ins[pos as int] == x);
                } else if a < pos {
                    assert(ins[a] == old_out[a]);
                    assert(ins[(b - 1) + 1] == old_out[b - 1]);
                    if a < b - 1 {
                        assert(u32_leq()(old_out[a], old_out[b - 1]));
                    }
                } else if a == pos {
                    assert(ins[pos as int] == x);
                    assert(ins[(b - 1) + 1] == old_out[b - 1]);
                    assert(!(old_out[pos as int] <= x));
                    if pos < b - 1 {
                        assert(u32_leq()(old_out[pos as int], old_out[b - 1]));
                    }
                } else {
                    assert(ins[(a - 1) + 1] == old_out[a - 1]);
                    assert(ins[(b - 1) + 1] == old_out[b - 1]);
                    assert(u32_leq()(old_out[a - 1], old_out[b - 1]));
                }
            }
            assert(out@.to_multiset() == old_out.insert(pos as int, x).to_multiset());
            assert(v@.take(i + 1) =~= v@.take(i as int).push(v@[i as int]));
            assert(v@.take(i + 1).to_multiset() == v@.take(i as int).push(
                v@[i as int],
            ).to_multiset());
        }
        i = i + 1;
    }
    proof {
        assert(v@.take(v@.len() as int) =~= v@);
    }
    out
}

impl<T: Channel> Image<Luma<T>> {
    /// Median blur with a square neighborhood of side `kernel_size`: each
    /// output pixel is the middle element of its sorted in-bounds
    /// neighborhood samples.  Fails with [`CoreError::InvalidData`] if and
    /// only if `kernel_size` is even or exceeds an image dimension.
    pub fn median_blur(self, kernel_size: usize) -> (res: Result<Self, Error>)
        requires
            self.wf(),
        ensures
            res is Ok <==> (kernel_size % 2 == 1 && kernel_size <= self.w() && kernel_size
                <= self.h()),
            res is Ok ==> {
                let img = res->Ok_0;
                &&& img.wf()
                &&& img.same_dims(self)
                &&& forall|px: int, py: int|
                    self.in_bounds(px, py) ==> img.at(px, py) == (Luma {
                        l: T::of_val(
                            median_of(
                                neigh_rows(self, kernel_size as int, px, py, kernel_size as int),
                            ) as int,
                        ),
                    })
            },
            res is Err ==> res == Err::<Self, Error>(Error::CoreError(CoreError::InvalidData)),
    {
        if kernel_size % 2 == 0 {
            return Err(Error::CoreError(CoreError::InvalidData));
        }
        if kernel_size > self.width || kernel_size > self.height {
            return Err(Error::CoreError(CoreError::InvalidData));
        }
        let m = T::max_raw();
        let ks = kernel_size;
        let half = ks / 2;
        let mut data: Vec<Luma<T>> = Vec::new();
        let mut y: usize = 0;
        while y < self.height
            invariant
                y <= self.height,
                self.wf(),
                1 <= ks <= self.w(),
                ks <= self.h(),
                m as int == T::max_spec(),
                half == ks as int / 2,
                data@.len() == y * self.w(),
                forall|px: int, py: int|
                    0 <= px < self.w() && 0 <= py < y ==> #[trigger] data@[py * self.w() + px]
                        == (Luma {
                        l: T::of_val(
                            median_of(neigh_rows(self, ks as int, px, py, ks as int)) as int,
                        ),
                    }),
            decreases self.h() - y,
        {
            let mut x: usize = 0;
            while x < self.width
                invariant
                    y < self.height,
                    x <= self.width,
                    self.wf(),
                    1 <= ks <= self.w(),
                    ks <= self.h(),
                    m as int == T::max_spec(),
                    half == ks as int / 2,
                    data@.len() == y * self.w() + x,
                    forall|px: int, py: int|
                        0 <= px < self.w() && 0 <= py < y ==> #[trigger] data@[py * self.w() + px]
                            == (Luma {
                            l: T::of_val(
                                median_of(neigh_rows(self, ks as int, px, py, ks as int)) as int,
                            ),
                        }),
                    forall|px: int|
                        0 <= px < x ==> #[trigger] data@[y * self.w() + px] == (Luma {
                            l: T::of_val(
                                median_of(
                                    neigh_rows(self, ks as int, px, y as int, ks as int),
                                ) as int,
                            ),
                        }),
                decreases self.w() - x,
            {
                let mut vals: Vec<u32> = Vec::new();
                let mut ky: usize = 0;
                while ky < ks
                    invariant
                        ky <= ks,
                        x < self.width,
                        y < self.height,
                        self.wf(),
                        1 <= ks <= self.w(),
                        ks <= self.h(),
                        m as int == T::max_spec(),
                        half == ks as int / 2,
                        vals@ == neigh_rows(self, ks as int, x as int, y as int, ky as int),
                        forall|i: int| 0 <= i < vals@.len() ==> #[trigger] vals@[i] <= m,
                    decreases ks - ky,
                {
                    let mut kx: usize = 0;
                    while kx < ks
                        invariant
                            kx <= ks,
                            ky < ks,
                            x < self.width,
                            y < self.height,
                            self.wf(),
                            1 <= ks <= self.w(),
                            ks <= self.h(),
                            m as int == T::max_spec(),
                            half == ks as int / 2,
                            vals@ == neigh_rows(self, ks as int, x as int, y as int, ky as int)
                                + neigh_row(
                                self,
                                ks as int,
                                x as int,
                                y as int,
                                ky as int,
                                kx as int,
                            ),
                            forall|i: int| 0 <= i < vals@.len() ==> #[trigger] vals@[i] <= m,
                        decreases ks - kx,
                    {
                        let sxc: i128 = (x as i128) + (kx as i128) - (half as i128);
                        let syc: i128 = (y as i128) + (ky as i128) - (half as i128);
                        if sxc >= 0 && syc >= 0 && sxc < self.width as i128 && syc
                            < self.height as i128 {
                            let n = self.data.len();
                            proof {
                                lemma_row_major_index(self.w(), self.h(), sxc as int, syc as int);
                                self.data@[(syc as int) * self.w() + (sxc as int)].l.lemma_in_bound();
                            }
                            let s = self.data[(syc as usize) * self.width + (sxc as usize)].l.raw();
                            vals.push(s);
                            proof {
                                assert(vals@ =~= neigh_rows(
                                    self,
                                    ks as int,
                                    x as int,
                                    y as int,
                                    ky as int,
                                ) + neigh_row(
                                    self,
                                    ks as int,
                                    x as int,
                                    y as int,
                                    ky as int,
                                    kx as int + 1,
                                ));
                            }
                        }
                        kx = kx + 1;
                    }
                    proof {
                        assert(vals@ =~= neigh_rows(
                            self,
                            ks as int,
                            x as int,
                            y as int,
                            ky as int + 1,
                        ));
                    }
                    ky = ky + 1;
                }
                proof {
                    lemma_neigh_nonempty(self, ks as int, x as int, y as int, ks as int);
                    lemma_median_in_range(vals@, m);
                }
                let sorted_vals = sort_u32(&vals);
                proof {
                    broadcast use vstd::seq_lib::group_to_multiset_ensures;

                    vals@.lemma_sort_by_ensures(u32_leq());
                    lemma_u32_leq_total();
                    lemma_sorted_unique(sorted_vals@, vals@.sort_by(u32_leq()), u32_leq());
                }
                let mid = sorted_vals.len() / 2;
                let v = sorted_vals[mid];
                data.push(Luma { l: T::from_raw(v) });
                proof {
                    assert forall|px: int, py: int|
                        0 <= px < self.w() && 0 <= py < y implies 0 <= #[trigger] (py * self.w()
                        + px) && py * self.w() + px < (y as int) * self.w() by {
                        lemma_row_major_index(self.w(), y as int, px, py);
                        assert(self.w() * (y as int) == (y as int) * self.w()) by (nonlinear_arith);
                    }
                }
                x = x + 1;
            }
            proof {
                assert((y as int + 1) * self.w() == (y as int) * self.w() + self.w())
                    by (nonlinear_arith);
                assert forall|px: int, py: int|
                    0 <= px < self.w() && 0 <= py < y as int + 1 implies #[trigger] data@[py
                    * self.w() + px] == (Luma {
                    l: T::of_val(median_of(neigh_rows(self, ks as int, px, py, ks as int)) as int),
                }) by {
                    if py == y as int {
                        assert(data@[(y as int) * self.w() + px] == (Luma {
                            l: T::of_val(
                                median_of(
                                    neigh_rows(self, ks as int, px, y as int, ks as int),
                                ) as int,
                            ),
                        }));
                    }
                }
            }
            y = y + 1;
        }
        proof {
            assert(data@.len() == self.h() * self.w());
            assert(self.h() * self.w() == self.w() * self.h()) by (nonlinear_arith);
        }
        let out = Image { width: self.width, height: self.height, data };
        proof {
            assert forall|px: int, py: int| self.in_bounds(px, py) implies out.at(px, py) == (Luma {
                l: T::of_val(median_of(neigh_rows(self, ks as int, px, py, ks as int)) as int),
            }) by {
                lemma_row_major_index(self.w(), self.h(), px, py);
            }
        }
        Ok(out)
    }
}

} // verus!
