//! Shape rasterization: circle, axis-aligned box, line.
//!
//! Every shape draws by overwriting covered pixels with its color.  Drawing
//! clips silently: covered positions outside the image are skipped, never an
//! error, so that partially-off-canvas shapes draw their visible part.  Each
//! shape's coverage predicate says exactly which pixels it touches.

use vstd::prelude::*;

verus! {

use crate::error::CoreError;
use crate::image::{Image, lemma_row_major_index, lemma_row_major_injective};
use crate::pixel::Pixel;

/// A circle, filled or drawn as an outline of the given thickness.
pub struct Circle<P: Pixel> {
    /// Center of the circle `(x, y)`.
    pub position: (usize, usize),
    /// The color drawn onto covered pixels.
    pub color: P,
    /// Radius in pixels.
    pub radius: u32,
    /// Fill the shape (`true`) or draw an outline (`false`).
    pub filled: bool,
    /// Outline thickness, used when `filled == false`.
    pub thickness: u32,
}

impl<P: Pixel> Circle<P> {
    /// The circle touches `(x, y)`: the offset from the center lies in the
    /// scanned square `[-(r + t), r + t)` in both axes, and its squared
    /// distance is at most `r^2` for a filled circle, or within the band
    /// `[r^2, (r + t)^2]` for an outline.
    pub open spec fn covers(self, x: int, y: int) -> bool {
        let dx = x - self.position.0;
        let dy = y - self.position.1;
        let r = self.radius as int;
        let rr = self.radius + self.thickness;
        &&& -rr <= dx < rr
        &&& -rr <= dy < rr
        &&& if self.filled {
            dx * dx + dy * dy <= r * r
        } else {
            r * r <= dx * dx + dy * dy <= rr * rr
        }
    }

    /// Rasterizes the circle onto `image`, overwriting exactly the covered
    /// in-bounds pixels with the circle's color.  Never fails; covered
    /// positions outside the image are clipped.
    pub fn draw_on(&self, image: &mut Image<P>) -> (res: Result<(), CoreError>)
        requires
            old(image).wf(),
        ensures
            res is Ok,
            final(image).wf(),
            final(image).same_dims(*old(image)),
            forall|x: int, y: int|
                old(image).in_bounds(x, y) ==> final(image).at(x, y) == (if self.covers(x, y) {
                    self.color
                } else {
                    old(image).at(x, y)
                }),
    {
        let ghost img0 = *image;
        let cx: i128 = self.position.0 as i128;
        let cy: i128 = self.position.1 as i128;
        let rr: i128 = (self.radius as i128) + (self.thickness as i128);
        proof {
            crate::math::lemma_square_le(self.radius as int, 0x1_0000_0000);
            crate::math::lemma_square_le(rr as int, 0x2_0000_0000);
        }
        let inner_sq: i128 = (self.radius as i128) * (self.radius as i128);
        let outer_sq: i128 = rr * rr;
        let mut dy: i128 = -rr;
        while dy < rr
            invariant
                image.wf(),
                image.same_dims(img0),
                img0.wf(),
                -rr <= dy <= rr,
                cx == self.position.0,
                cy == self.position.1,
                rr == self.radius + self.thickness,
                inner_sq == (self.radius as int) * (self.radius as int),
                outer_sq == rr * rr,
                forall|x: int, y: int|
                    img0.in_bounds(x, y) ==> image.at(x, y) == (if self.covers(x, y) && y - cy
                        < dy {
                        self.color
                    } else {
                        img0.at(x, y)
                    }),
            decreases rr - dy,
        {
            let mut dx: i128 = -rr;
            while dx < rr
                invariant
                    image.wf(),
                    image.same_dims(img0),
                    img0.wf(),
                    -rr <= dy < rr,
                    -rr <= dx <= rr,
                    cx == self.position.0,
                    cy == self.position.1,
                    rr == self.radius + self.thickness,
                    inner_sq == (self.radius as int) * (self.radius as int),
                    outer_sq == rr * rr,
                    forall|x: int, y: int|
                        img0.in_bounds(x, y) ==> image.at(x, y) == (if self.covers(x, y) && (y - cy
                            < dy || (y - cy == dy && x - cx < dx)) {
                            self.color
                        } else {
                            img0.at(x, y)
                        }),
                decreases rr - dx,
            {
                let nx: i128 = cx + dx;
                let ny: i128 = cy + dy;
                if nx >= 0 && ny >= 0 && nx < (image.width as i128) && ny < (image.height as i128) {
                    proof {
                        crate::math::lemma_square_le(dx as int, 0x2_0000_0000);
                        crate::math::lemma_square_le(dy as int, 0x2_0000_0000);
                    }
                    let distance_sq: i128 = dx * dx + dy * dy;
                    let draw_pixel = if self.filled {
                        distance_sq <= inner_sq
                    } else {
                        distance_sq <= outer_sq && distance_sq >= inner_sq
                    };
                    if draw_pixel {
                        let _ = image.set_pixel((nx as usize, ny as usize), self.color);
                        proof {
                            lemma_row_major_index(img0.w(), img0.h(), nx as int, ny as int);
                            assert forall|x: int, y: int| img0.in_bounds(x, y) implies image.at(
                                x,
                                y,
                            ) == (if self.covers(x, y) && (y - cy < dy || (y - cy == dy && x - cx
                                < dx + 1)) {
                                self.color
                            } else {
                                img0.at(x, y)
                            }) by {
                                lemma_row_major_index(img0.w(), img0.h(), x, y);
                                if !(x == nx as int && y == ny as int) {
                                    lemma_row_major_injective(
                                        img0.w(),
                                        img0.h(),
                                        nx as int,
                                        ny as int,
                                        x,
                                        y,
                                    );
                                }
                            }
                        }
                    }
                }
                dx = dx + 1;
            }
            dy = dy + 1;
        }
        Ok(())
    }
}

/// An axis-aligned box, filled or drawn as an outline of the given
/// thickness.
pub struct AABB<P: Pixel> {
    /// Top-left corner `(x, y)`.
    pub position: (usize, usize),
    /// Size as `(width, height)`.
    pub size: (usize, usize),
    /// The color drawn onto covered pixels.
    pub color: P,
    /// Fill the shape (`true`) or draw an outline (`false`).
    pub filled: bool,
    /// Outline thickness, used when `filled == false`.
    pub thickness: u32,
}

impl<P: Pixel> AABB<P> {
    /// The box touches `(x, y)`: the position lies in the outer rectangle
    /// `[x0 - t, x0 + w + t) x [y0 - t, y0 + h + t)`, and the box is filled
    /// or the position lies within `t` of one of the rectangle's edges.  The
    /// top edge test is strict where the other three are inclusive.
    pub open spec fn covers(self, x: int, y: int) -> bool {
        let t = self.thickness as int;
        let left = self.position.0 - t;
        let right = self.position.0 + self.size.0 + t;
        let top = self.position.1 - t;
        let bottom = self.position.1 + self.size.1 + t;
        &&& left <= x < right
        &&& top <= y < bottom
        &&& (self.filled || x - left <= t || right - x <= t || y - top < t || bottom - y <= t)
    }

    /// Rasterizes the box onto `image`, overwriting exactly the covered
    /// in-bounds pixels with the box's color.  Never fails; covered positions
    /// outside the image are clipped.
    pub fn draw_on(&self, image: &mut Image<P>) -> (res: Result<(), CoreError>)
        requires
            old(image).wf(),
        ensures
            res is Ok,
            final(image).wf(),
            final(image).same_dims(*old(image)),
            forall|x: int, y: int|
                old(image).in_bounds(x, y) ==> final(image).at(x, y) == (if self.covers(x, y) {
                    self.color
                } else {
                    old(image).at(x, y)
                }),
    {
        let ghost img0 = *image;
        let t: i128 = self.thickness as i128;
        let left: i128 = (self.position.0 as i128) - t;
        let right: i128 = (self.position.0 as i128) + (self.size.0 as i128) + t;
        let top: i128 = (self.position.1 as i128) - t;
        let bottom: i128 = (self.position.1 as i128) + (self.size.1 as i128) + t;
        let mut x: i128 = left;
        while x < right
            invariant
                image.wf(),
                image.same_dims(img0),
                img0.wf(),
                left <= x <= right,
                t == self.thickness,
                left == self.position.0 - t,
                right == self.position.0 + self.size.0 + t,
                top == self.position.1 - t,
                bottom == self.position.1 + self.size.1 + t,
                forall|px: int, py: int|
                    img0.in_bounds(px, py) ==> image.at(px, py) == (if self.covers(px, py) && px
                        < x {
                        self.color
                    } else {
                        img0.at(px, py)
                    }),
            decreases right - x,
        {
            let mut y: i128 = top;
            while y < bottom
                invariant
                    image.wf(),
                    image.same_dims(img0),
                    img0.wf(),
                    left <= x < right,
                    top <= y <= bottom,
                    t == self.thickness,
                    left == self.position.0 - t,
                    right == self.position.0 + self.size.0 + t,
                    top == self.position.1 - t,
                    bottom == self.position.1 + self.size.1 + t,
                    forall|px: int, py: int|
                        img0.in_bounds(px, py) ==> image.at(px, py) == (if self.covers(px, py) && (
                        px < x || (px == x && py < y)) {
                            self.color
                        } else {
                            img0.at(px, py)
                        }),
                decreases bottom - y,
            {
                if x >= 0 && y >= 0 && x < (image.width as i128) && y < (image.height as i128) {
                    let on_left_edge = x - left <= t;
                    let on_right_edge = right - x <= t;
                    let on_top_edge = y - top < t;
                    let on_bottom_edge = bottom - y <= t;
                    let draw_pixel = self.filled || on_left_edge || on_right_edge || on_top_edge
                        || on_bottom_edge;
                    if draw_pixel {
                        let _ = image.set_pixel((x as usize, y as usize), self.color);
                        proof {
                            lemma_row_major_index(img0.w(), img0.h(), x as int, y as int);
                            assert forall|px: int, py: int| img0.in_bounds(px, py) implies image.at(
                                px,
                                py,
                            ) == (if self.covers(px, py) && (px < x || (px == x && py < y + 1)) {
                                self.color
                            } else {
                                img0.at(px, py)
                            }) by {
                                lemma_row_major_index(img0.w(), img0.h(), px, py);
                                if !(px == x as int && py == y as int) {
                                    lemma_row_major_injective(
                                        img0.w(),
                                        img0.h(),
                                        x as int,
                                        y as int,
                                        px,
                                        py,
                                    );
                                }
                            }
                        }
                    }
                }
                y = y + 1;
            }
            x = x + 1;
        }
        Ok(())
    }
}

/// State sanity of the Bresenham walk toward `(x1, y1)`: `dx` and `dy` are
/// the usual constants `|x1 - x0|` and `-|y1 - y0|`, the remaining distance
/// along each axis lies between zero and the axis total, and the error
/// accumulator equals its closed form over the remaining distances.
pub open spec fn bres_inv(
    x: int,
    y: int,
    x1: int,
    y1: int,
    err: int,
    dx: int,
    dy: int,
    sx: int,
    sy: int,
) -> bool {
    let rx = if sx == 1 {
        x1 - x
    } else {
        x - x1
    };
    let ry = if sy == 1 {
        y1 - y
    } else {
        y - y1
    };
    &&& dx >= 0
    &&& dy <= 0
    &&& (sx == 1 || sx == -1)
    &&& (sy == 1 || sy == -1)
    &&& 0 <= rx <= dx
    &&& 0 <= ry <= -dy
    &&& err == dx + dy - rx * dy - ry * dx
}

/// A Bresenham step never leaves the bounding box of the segment, and it
/// brings the traced point strictly closer to the end point.
proof fn lemma_bres_step(
    x: int,
    y: int,
    x1: int,
    y1: int,
    err: int,
    dx: int,
    dy: int,
    sx: int,
    sy: int,
)
    requires
        bres_inv(x, y, x1, y1, err, dx, dy, sx, sy),
        !(x == x1 && y == y1),
    ensures
        ({
            let e2 = 2 * err;
            let nx = if e2 >= dy {
                x + sx
            } else {
                x
            };
            let ny = if e2 <= dx {
                y + sy
            } else {
                y
            };
            let nerr = err + (if e2 >= dy {
                dy
            } else {
                0
            }) + (if e2 <= dx {
                dx
            } else {
                0
            });
            &&& bres_inv(nx, ny, x1, y1, nerr, dx, dy, sx, sy)
            &&& (if sx == 1 {
                x1 - nx
            } else {
                nx - x1
            }) + (if sy == 1 {
                y1 - ny
            } else {
                ny - y1
            }) < (if sx == 1 {
                x1 - x
            } else {
                x - x1
            }) + (if sy == 1 {
                y1 - y
            } else {
                y - y1
            })
        }),
{
    let rx = if sx == 1 {
        x1 - x
    } else {
        x - x1
    };
    let ry = if sy == 1 {
        y1 - y
    } else {
        y - y1
    };
    let e2 = 2 * err;
    if e2 >= dy {
        assert(rx >= 1) by (nonlinear_arith)
            requires
                dx >= 0,
                dy <= 0,
                0 <= rx <= dx,
                0 <= ry <= -dy,
                err == dx + dy - rx * dy - ry * dx,
                2 * err >= dy,
                rx != 0 || ry != 0,
        ;
    }
    if e2 <= dx {
        assert(ry >= 1) by (nonlinear_arith)
            requires
                dx >= 0,
                dy <= 0,
                0 <= rx <= dx,
                0 <= ry <= -dy,
                err == dx + dy - rx * dy - ry * dx,
                2 * err <= dx,
                rx != 0 || ry != 0,
        ;
    }
    let nrx = if e2 >= dy {
        rx - 1
    } else {
        rx
    };
    let nry = if e2 <= dx {
        ry - 1
    } else {
        ry
    };
    let nerr = err + (if e2 >= dy {
        dy
    } else {
        0
    }) + (if e2 <= dx {
        dx
    } else {
        0
    });
    assert(nerr == dx + dy - nrx * dy - nry * dx) by (nonlinear_arith)
        requires
            err == dx + dy - rx * dy - ry * dx,
            nrx == if e2 >= dy {
                rx - 1
            } else {
                rx
            },
            nry == if e2 <= dx {
                ry - 1
            } else {
                ry
            },
            nerr == err + (if e2 >= dy {
                dy
            } else {
                0
            }) + (if e2 <= dx {
                dx
            } else {
                0
            }),
    ;
}

/// The Bresenham trace from `(x, y)` to `(x1, y1)`: the current point, then
/// the points of the walk that steps `x` when twice the error is at least
/// `dy` and steps `y` when it is at most `dx`, until the end point is
/// reached.  Meaningful under [`bres_inv`].
pub open spec fn bres_trace(
    x: int,
    y: int,
    x1: int,
    y1: int,
    err: int,
    dx: int,
    dy: int,
    sx: int,
    sy: int,
) -> Seq<(int, int)>
    decreases
            (if sx == 1 {
                x1 - x
            } else {
                x - x1
            }) + (if sy == 1 {
                y1 - y
            } else {
                y - y1
            }),
        when bres_inv(x, y, x1, y1, err, dx, dy, sx, sy)
        via bres_trace_decreases
{
    if x == x1 && y == y1 {
        seq![(x, y)]
    } else {
        let e2 = 2 * err;
        let nx = if e2 >= dy {
            x + sx
        } else {
            x
        };
        let ny = if e2 <= dx {
            y + sy
        } else {
            y
        };
        let nerr = err + (if e2 >= dy {
            dy
        } else {
            0
        }) + (if e2 <= dx {
            dx
        } else {
            0
        });
        seq![(x, y)] + bres_trace(nx, ny, x1, y1, nerr, dx, dy, sx, sy)
    }
}

#[via_fn]
proof fn bres_trace_decreases(
    x: int,
    y: int,
    x1: int,
    y1: int,
    err: int,
    dx: int,
    dy: int,
    sx: int,
    sy: int,
) {
    if !(x == x1 && y == y1) {
        lemma_bres_step(x, y, x1, y1, err, dx, dy, sx, sy);
    }
}

/// The square brush of half-width `ht` centered on `p` covers `(x, y)`.
pub open spec fn brush_covers(p: (int, int), ht: int, x: int, y: int) -> bool {
    &&& p.0 - ht <= x <= p.0 + ht
    &&& p.1 - ht <= y <= p.1 + ht
}

/// A line segment traced with Bresenham's algorithm, drawn with a square
/// brush of half-width `thickness / 2`.
pub struct Line<P: Pixel> {
    /// Start point `(x, y)`.
    pub start: (usize, usize),
    /// End point `(x, y)`.
    pub end: (usize, usize),
    /// The color drawn onto covered pixels.
    pub color: P,
    /// Brush size: the square brush extends `thickness / 2` pixels from each
    /// traced point in every direction.
    pub thickness: u32,
}

impl<P: Pixel> Line<P> {
    /// Half the brush width, truncated.
    pub open spec fn half_thickness(self) -> int {
        (self.thickness as int) / 2
    }

    /// The points the segment traces, start to end.
    pub open spec fn trace(self) -> Seq<(int, int)> {
        let x0 = self.start.0 as int;
        let y0 = self.start.1 as int;
        let x1 = self.end.0 as int;
        let y1 = self.end.1 as int;
        let dx = if x1 >= x0 {
            x1 - x0
        } else {
            x0 - x1
        };
        let dy = if y1 >= y0 {
            y0 - y1
        } else {
            y1 - y0
        };
        let sx: int = if x0 < x1 {
            1
        } else {
            -1
        };
        let sy: int = if y0 < y1 {
            1
        } else {
            -1
        };
        bres_trace(x0, y0, x1, y1, dx + dy, dx, dy, sx, sy)
    }

    /// The brush of one of the first `k` traced points covers `(x, y)`.
    pub open spec fn covered_upto(self, k: int, x: int, y: int) -> bool {
        exists|i: int|
            0 <= i < k && brush_covers(#[trigger] self.trace()[i], self.half_thickness(), x, y)
    }

    /// The line touches `(x, y)`: the square brush around some traced point
    /// covers it.
    pub open spec fn covers(self, x: int, y: int) -> bool {
        self.covered_upto(self.trace().len() as int, x, y)
    }

    /// Rasterizes the line onto `image`, overwriting exactly the covered
    /// in-bounds pixels with the line's color.  Never fails; covered
    /// positions outside the image are clipped.
    pub fn draw_on(&self, image: &mut Image<P>) -> (res: Result<(), CoreError>)
        requires
            old(image).wf(),
            self.start.0 <= 0x7FFF_FFFF,
            self.start.1 <= 0x7FFF_FFFF,
            self.end.0 <= 0x7FFF_FFFF,
            self.end.1 <= 0x7FFF_FFFF,
        ensures
            res is Ok,
            final(image).wf(),
            final(image).same_dims(*old(image)),
            forall|x: int, y: int|
                old(image).in_bounds(x, y) ==> final(image).at(x, y) == (if self.covers(x, y) {
                    self.color
                } else {
                    old(image).at(x, y)
                }),
    {
        let ghost img0 = *image;
        let x0: i128 = self.start.0 as i128;
        let y0: i128 = self.start.1 as i128;
        let x1: i128 = self.end.0 as i128;
        let y1: i128 = self.end.1 as i128;
        let ht: i128 = (self.thickness as i128) / 2;
        let dx: i128 = if x1 >= x0 {
            x1 - x0
        } else {
            x0 - x1
        };
        let dy: i128 = if y1 >= y0 {
            y0 - y1
        } else {
            y1 - y0
        };
        let sx: i128 = if x0 < x1 {
            1
        } else {
            -1
        };
        let sy: i128 = if y0 < y1 {
            1
        } else {
            -1
        };
        let mut err: i128 = dx + dy;
        let mut x: i128 = x0;
        let mut y: i128 = y0;
        let ghost full = self.trace();
        let ghost mut k: int = 0;
        proof {
            assert((dx as int) + (dy as int) - (dx as int) * (dy as int) - (-(dy as int)) * (
            dx as int) == (dx as int) + (dy as int)) by (nonlinear_arith);
            assert(bres_inv(
                x as int,
                y as int,
                x1 as int,
                y1 as int,
                err as int,
                dx as int,
                dy as int,
                sx as int,
                sy as int,
            ));
            assert(full.skip(0) =~= full);
            assert(full.len() >= 1);
        }
        loop
            invariant_except_break
                forall|px: int, py: int|
                    img0.in_bounds(px, py) ==> image.at(px, py) == (if self.covered_upto(k, px, py) {
                        self.color
                    } else {
                        img0.at(px, py)
                    }),
            invariant
                image.wf(),
                image.same_dims(img0),
                img0.wf(),
                self.start.0 <= 0x7FFF_FFFF,
                self.start.1 <= 0x7FFF_FFFF,
                self.end.0 <= 0x7FFF_FFFF,
                self.end.1 <= 0x7FFF_FFFF,
                x0 == self.start.0 && y0 == self.start.1,
                x1 == self.end.0 && y1 == self.end.1,
                ht == self.half_thickness(),
                dx == if x1 >= x0 {
                    x1 - x0
                } else {
                    x0 - x1
                },
                dy == if y1 >= y0 {
                    y0 - y1
                } else {
                    y1 - y0
                },
                sx == if x0 < x1 {
                    1int
                } else {
                    -1int
                },
                sy == if y0 < y1 {
                    1int
                } else {
                    -1int
                },
                bres_inv(x as int, y as int, x1 as int, y1 as int, err as int, dx as int, dy as int, sx as int, sy as int),
                full == self.trace(),
                0 <= k,
                bres_trace(x as int, y as int, x1 as int, y1 as int, err as int, dx as int, dy as int, sx as int, sy as int)
                    == full.skip(k),
                k < full.len(),
            ensures
                image.wf(),
                image.same_dims(img0),
                forall|px: int, py: int|
                    img0.in_bounds(px, py) ==> image.at(px, py) == (if self.covers(px, py) {
                        self.color
                    } else {
                        img0.at(px, py)
                    }),
            decreases (if sx == 1 {
                x1 - x
            } else {
                x - x1
            }) + (if sy == 1 {
                y1 - y
            } else {
                y - y1
            }),
        {
            let ghost cur = bres_trace(
                x as int,
                y as int,
                x1 as int,
                y1 as int,
                err as int,
                dx as int,
                dy as int,
                sx as int,
                sy as int,
            );
            proof {
                assert(cur[0] == (x as int, y as int));
                assert(full[k] == (x as int, y as int));
            }
            // Draw the square brush centered on the current traced point.
            let mut tx: i128 = -ht;
            while tx <= ht
                invariant
                    image.wf(),
                    image.same_dims(img0),
                    img0.wf(),
                    -ht <= tx <= ht + 1,
                    ht == self.half_thickness(),
                    0 <= k < full.len(),
                    full == self.trace(),
                    full[k] == (x as int, y as int),
                    -0x8000_0000 <= x <= 0x8000_0000,
                    -0x8000_0000 <= y <= 0x8000_0000,
                    forall|px: int, py: int|
                        img0.in_bounds(px, py) ==> image.at(px, py) == (if self.covered_upto(
                            k,
                            px,
                            py,
                        ) || (brush_covers((x as int, y as int), ht as int, px, py) && px - x
                            < tx) {
                            self.color
                        } else {
                            img0.at(px, py)
                        }),
                decreases ht + 1 - tx,
            {
                let mut ty: i128 = -ht;
                while ty <= ht
                    invariant
                        image.wf(),
                        image.same_dims(img0),
                        img0.wf(),
                        -ht <= tx <= ht,
                        -ht <= ty <= ht + 1,
                        ht == self.half_thickness(),
                        0 <= k < full.len(),
                        full == self.trace(),
                        full[k] == (x as int, y as int),
                        -0x8000_0000 <= x <= 0x8000_0000,
                        -0x8000_0000 <= y <= 0x8000_0000,
                        forall|px: int, py: int|
                            img0.in_bounds(px, py) ==> image.at(px, py) == (if self.covered_upto(
                                k,
                                px,
                                py,
                            ) || (brush_covers((x as int, y as int), ht as int, px, py) && (px - x
                                < tx || (px - x == tx && py - y < ty))) {
                                self.color
                            } else {
                                img0.at(px, py)
                            }),
                    decreases ht + 1 - ty,
                {
                    let nx: i128 = x + tx;
                    let ny: i128 = y + ty;
                    if nx >= 0 && ny >= 0 && nx < (image.width as i128) && ny < (
                    image.height as i128) {
                        let _ = image.set_pixel((nx as usize, ny as usize), self.color);
                        proof {
                            lemma_row_major_index(img0.w(), img0.h(), nx as int, ny as int);
                            assert forall|px: int, py: int| img0.in_bounds(px, py) implies image.at(
                                px,
                                py,
                            ) == (if self.covered_upto(k, px, py) || (brush_covers(
                                (x as int, y as int),
                                ht as int,
                                px,
                                py,
                            ) && (px - x < tx || (px - x == tx && py - y < ty + 1))) {
                                self.color
                            } else {
                                img0.at(px, py)
                            }) by {
                                lemma_row_major_index(img0.w(), img0.h(), px, py);
                                if !(px == nx as int && py == ny as int) {
                                    lemma_row_major_injective(
                                        img0.w(),
                                        img0.h(),
                                        nx as int,
                                        ny as int,
                                        px,
                                        py,
                                    );
                                }
                            }
                        }
                    }
                    ty = ty + 1;
                }
                tx = tx + 1;
            }
            proof {
                assert forall|px: int, py: int| img0.in_bounds(px, py) implies image.at(px, py)
                    == (if self.covered_upto(k + 1, px, py) {
                    self.color
                } else {
                    img0.at(px, py)
                }) by {
                    if brush_covers((x as int, y as int), ht as int, px, py) {
                        assert(brush_covers(#[trigger] self.trace()[k], self.half_thickness(), px, py));
                    }
                }
            }
            // Done once the traced point reaches the end point.
            if x == x1 && y == y1 {
                proof {
                    assert(cur == seq![(x as int, y as int)]);
                    assert(full.len() == k + 1);
                }
                break;
            }
            let ghost ox = x as int;
            let ghost oy = y as int;
            let ghost oerr = err as int;
            proof {
                lemma_bres_step(
                    ox,
                    oy,
                    x1 as int,
                    y1 as int,
                    oerr,
                    dx as int,
                    dy as int,
                    sx as int,
                    sy as int,
                );
                let rxv = if sx as int == 1 {
                    x1 as int - ox
                } else {
                    ox - x1 as int
                };
                let ryv = if sy as int == 1 {
                    y1 as int - oy
                } else {
                    oy - y1 as int
                };
                assert(-0x1_0000_0000_0000_0000 <= oerr <= 0x1_0000_0000_0000_0000)
                    by (nonlinear_arith)
                    requires
                        oerr == dx as int + dy as int - rxv * (dy as int) - ryv * (dx as int),
                        0 <= rxv <= dx as int,
                        0 <= ryv <= -(dy as int),
                        dx as int <= 0x8000_0000,
                        -0x8000_0000 <= dy as int <= 0,
                ;
            }
            let e2: i128 = 2 * err;
            if e2 >= dy {
                err = err + dy;
                x = x + sx;
            }
            if e2 <= dx {
                err = err + dx;
                y = y + sy;
            }
            proof {
                assert(x as int == (if 2 * oerr >= dy as int {
                    ox + sx as int
                } else {
                    ox
                }));
                assert(y as int == (if 2 * oerr <= dx as int {
                    oy + sy as int
                } else {
                    oy
                }));
                assert(err as int == oerr + (if 2 * oerr >= dy as int {
                    dy as int
                } else {
                    0int
                }) + (if 2 * oerr <= dx as int {
                    dx as int
                } else {
                    0int
                }));
                let nxt = bres_trace(
                    x as int,
                    y as int,
                    x1 as int,
                    y1 as int,
                    err as int,
                    dx as int,
                    dy as int,
                    sx as int,
                    sy as int,
                );
                assert(cur == seq![(ox, oy)] + nxt);
                assert(0 <= k < full.len());
                assert(cur.len() == full.len() - k);
                assert(nxt.len() == full.len() - k - 1);
                assert forall|i: int| 0 <= i < nxt.len() implies full.skip(k + 1)[i] == nxt[i] by {
                    assert((seq![(ox, oy)] + nxt)[i + 1] == nxt[i]);
                    assert(full.subrange(k, full.len() as int)[i + 1] == full[(i + 1) + k]);
                    assert(full.subrange(k + 1, full.len() as int)[i] == full[i + (k + 1)]);
                    assert(cur[i + 1] == nxt[i]);
                }
                assert(full.skip(k + 1) =~= nxt);
                k = k + 1;
            }
        }
        Ok(())
    }
}

/// One of the drawable shapes: the closed set the rasterizer understands.
pub enum Shape<P: Pixel> {
    /// A circle, filled or outlined.
    Circle(Circle<P>),
    /// An axis-aligned box, filled or outlined.
    Aabb(AABB<P>),
    /// A line segment with a square brush.
    Line(Line<P>),
}

impl<P: Pixel> Shape<P> {
    /// The shape touches `(x, y)`.
    pub open spec fn covers(self, x: int, y: int) -> bool {
        match self {
            Shape::Circle(c) => c.covers(x, y),
            Shape::Aabb(b) => b.covers(x, y),
            Shape::Line(l) => l.covers(x, y),
        }
    }

    /// The color the shape draws.
    pub open spec fn color(self) -> P {
        match self {
            Shape::Circle(c) => c.color,
            Shape::Aabb(b) => b.color,
            Shape::Line(l) => l.color,
        }
    }

    /// The shape's coordinates stay within the range the rasterizer's
    /// integer arithmetic covers: only line endpoints are restricted.
    pub open spec fn coords_bounded(self) -> bool {
        match self {
            Shape::Circle(_) => true,
            Shape::Aabb(_) => true,
            Shape::Line(l) => l.start.0 <= 0x7FFF_FFFF && l.start.1 <= 0x7FFF_FFFF && l.end.0
                <= 0x7FFF_FFFF && l.end.1 <= 0x7FFF_FFFF,
        }
    }
}

impl<P: Pixel> Image<P> {
    /// Draws a shape, overwriting exactly the covered in-bounds pixels with
    /// the shape's color.  Never fails; covered positions outside the image
    /// are clipped.
    pub fn draw(&mut self, shape: Shape<P>) -> (res: Result<(), CoreError>)
        requires
            old(self).wf(),
            shape.coords_bounded(),
        ensures
            res is Ok,
            final(self).wf(),
            final(self).same_dims(*old(self)),
            forall|x: int, y: int|
                old(self).in_bounds(x, y) ==> final(self).at(x, y) == (if shape.covers(x, y) {
                    shape.color()
                } else {
                    old(self).at(x, y)
                }),
    {
        match shape {
            Shape::Circle(c) => c.draw_on(self),
            Shape::Aabb(b) => b.draw_on(self),
            Shape::Line(l) => l.draw_on(self),
        }
    }
}

/// A filled circle of radius zero covers at most the single center pixel: it
/// covers exactly the center when the scanned square is nonempty — thickness
/// at least one — and nothing at all when the thickness is zero.
pub proof fn lemma_circle_radius_zero<P: Pixel>(c: Circle<P>, x: int, y: int)
    requires
        c.filled,
        c.radius == 0,
    ensures
        c.covers(x, y) <==> (c.thickness >= 1 && x == c.position.0 && y == c.position.1),
{
    let dx = x - c.position.0;
    let dy = y - c.position.1;
    if c.covers(x, y) {
        assert(dx * dx >= 0 && dy * dy >= 0) by (nonlinear_arith);
        assert(dx * dx + dy * dy <= 0);
        assert(dx * dx == 0 && dy * dy == 0);
        assert(dx == 0) by (nonlinear_arith)
            requires
                dx * dx == 0,
        ;
        assert(dy == 0) by (nonlinear_arith)
            requires
                dy * dy == 0,
        ;
    }
}

} // verus!
