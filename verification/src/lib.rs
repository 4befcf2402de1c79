//! An in-memory image-processing toolkit.
//!
//! The crate models images as flat, row-major buffers of pixels.  Pixels are
//! polymorphic over a small closed set of bounded integer channel primitives
//! (8-bit and 16-bit), and come in two kinds: four-channel color ([`Rgba`])
//! and single-channel luminance ([`Luma`]).  On top of the buffer sit shape
//! rasterization (circle, axis-aligned box, line), 2D convolution with
//! selectable border handling, per-pixel point operations, and grayscale
//! morphology.
//!
//! Every operation carries a contract describing its exact result; file
//! decoding, encoding and window display are left to callers, which hand the
//! library plain pixel data.

pub mod drawing;
pub mod error;
pub mod math;
pub mod filter;
pub mod image;
pub mod kernel;
pub mod nonlinear;
pub mod pixel;
pub mod point_ops;
pub mod utils;

pub use drawing::{Circle, AABB, Line, Shape};
pub use error::{CoreError, Error};
pub use filter::BorderMode;
pub use image::Image;
pub use kernel::{
    Kernel, StructuringElementShape, box_filter, laplacian_3x3, sobel_x, sobel_y,
    structuring_element,
};
pub use pixel::{Channel, Luma, Pixel, Rgba};
pub use point_ops::ThresholdType;
pub use utils::{alpha_blend, framebuffer_pixel};
