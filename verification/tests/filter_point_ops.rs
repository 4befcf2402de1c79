use glance::{
    box_filter, laplacian_3x3, sobel_x, sobel_y, structuring_element, BorderMode, CoreError,
    Error, Image, Kernel, Luma, Rgba, StructuringElementShape, ThresholdType,
};

fn luma_image(width: usize, height: usize, values: &[u8]) -> Image<Luma<u8>> {
    let data: Vec<Luma<u8>> = values.iter().map(|&l| Luma { l }).collect();
    Image::from_data(width, height, data).unwrap()
}

fn luma_values(img: &Image<Luma<u8>>) -> Vec<u8> {
    let (w, h) = img.dimensions();
    let mut out = Vec::new();
    for y in 0..h {
        for x in 0..w {
            out.push(img.get_pixel((x, y)).unwrap().l);
        }
    }
    out
}

fn unit_kernel() -> Kernel {
    Kernel::from_weights(1, 1, vec![1], 1).unwrap()
}

#[test]
fn unit_kernel_reproduces_color_channels() {
    let px = Rgba {
        r: 5u8,
        g: 6,
        b: 7,
        a: 8,
    };
    let img: Image<Rgba<u8>> = Image::new(3, 2).fill(px);
    let out = img.convolve_2d(unit_kernel(), BorderMode::Reflect).unwrap();
    assert_eq!(out.dimensions(), (3, 2));
    for y in 0..2 {
        for x in 0..3 {
            assert_eq!(*out.get_pixel((x, y)).unwrap(), px);
        }
    }
}

#[test]
fn unit_kernel_reproduces_luminance() {
    let img = luma_image(2, 2, &[9, 18, 27, 36]);
    let out = img.convolve_2d(unit_kernel(), BorderMode::Wrap).unwrap();
    assert_eq!(luma_values(&out), vec![9, 18, 27, 36]);
}

#[test]
fn box_filter_on_zero_image_stays_zero() {
    let img = luma_image(3, 3, &[0; 9]);
    let out = img
        .convolve_2d(box_filter(3).unwrap(), BorderMode::Replicate)
        .unwrap();
    assert_eq!(luma_values(&out), vec![0; 9]);
}

#[test]
fn box_filter_averages_with_replicate_border() {
    let img = luma_image(3, 3, &[0, 1, 2, 3, 4, 5, 6, 7, 8]);
    let out = img
        .convolve_2d(box_filter(3).unwrap(), BorderMode::Replicate)
        .unwrap();
    // center: round(36 / 9) == 4; corner (0, 0): clamped samples sum to 12,
    // round(12 / 9) == 1
    let vals = luma_values(&out);
    assert_eq!(vals[4], 4);
    assert_eq!(vals[0], 1);
}

#[test]
fn constant_border_contributes_the_constant() {
    let img = luma_image(3, 3, &[9; 9]);
    let out = img
        .convolve_2d(box_filter(3).unwrap(), BorderMode::Constant(0))
        .unwrap();
    let vals = luma_values(&out);
    // corner: four in-bounds taps of 9, five zero taps: round(36 / 9) == 4
    assert_eq!(vals[0], 4);
    assert_eq!(vals[4], 9);
}

#[test]
fn sobel_on_uniform_image_is_zero() {
    let img = luma_image(4, 4, &[7; 16]);
    let out = img.convolve_2d(sobel_x(), BorderMode::Replicate).unwrap();
    assert_eq!(luma_values(&out), vec![0; 16]);
    let img = luma_image(4, 4, &[7; 16]);
    let out = img.convolve_2d(sobel_y(), BorderMode::Replicate).unwrap();
    assert_eq!(luma_values(&out), vec![0; 16]);
}

#[test]
fn laplacian_weights_sum_to_zero() {
    assert_eq!(
        laplacian_3x3().weights,
        vec![0, 1, 0, 1, -4, 1, 0, 1, 0]
    );
    assert_eq!(sobel_x().weights, vec![-1, -2, -1, 0, 0, 0, 1, 2, 1]);
    assert_eq!(sobel_y().weights, vec![-1, 0, 1, -2, 0, 2, -1, 0, 1]);
}

#[test]
fn convolve_rejects_even_or_oversized_kernels() {
    let img = luma_image(3, 3, &[0; 9]);
    let even = Kernel::from_weights(2, 2, vec![1; 4], 1).unwrap();
    assert_eq!(
        img.convolve_2d(even, BorderMode::Replicate).unwrap_err(),
        Error::CoreError(CoreError::InvalidData)
    );
    let img = luma_image(3, 3, &[0; 9]);
    let big = Kernel::from_weights(5, 5, vec![1; 25], 1).unwrap();
    assert_eq!(
        img.convolve_2d(big, BorderMode::Replicate).unwrap_err(),
        Error::CoreError(CoreError::InvalidData)
    );
}

#[test]
fn structuring_element_shapes() {
    let rect = structuring_element(StructuringElementShape::Rectangle, (3, 3)).unwrap();
    assert_eq!(rect.weights, vec![1; 9]);
    let disk = structuring_element(StructuringElementShape::Disk, (3, 3)).unwrap();
    assert_eq!(disk.weights, vec![0, 1, 0, 1, 1, 1, 0, 1, 0]);
    let cross = structuring_element(StructuringElementShape::Cross, (3, 3)).unwrap();
    assert_eq!(cross.weights, vec![0, 1, 0, 1, 1, 1, 0, 1, 0]);
}

#[test]
fn dilate_spreads_the_maximum() {
    let img = luma_image(3, 3, &[0, 0, 0, 0, 5, 0, 0, 0, 0]);
    let cross = structuring_element(StructuringElementShape::Cross, (3, 3)).unwrap();
    let out = img.dilate(&cross).unwrap();
    assert_eq!(luma_values(&out), vec![0, 5, 0, 5, 5, 5, 0, 5, 0]);
}

#[test]
fn erode_shrinks_to_the_minimum() {
    let img = luma_image(3, 3, &[5; 9]);
    let rect = structuring_element(StructuringElementShape::Rectangle, (3, 3)).unwrap();
    let out = img.erode(&rect).unwrap();
    assert_eq!(luma_values(&out), vec![5; 9]);
    let img = luma_image(3, 3, &[0, 0, 0, 0, 5, 0, 0, 0, 0]);
    let cross = structuring_element(StructuringElementShape::Cross, (3, 3)).unwrap();
    let out = img.erode(&cross).unwrap();
    assert_eq!(luma_values(&out), vec![0; 9]);
}

#[test]
fn erode_without_reachable_taps_yields_the_seed() {
    // only the top-left tap is active; for the top-left pixel it falls
    // outside the image, so the seed — the primitive's maximum — persists
    let mask = Kernel::from_weights(3, 3, vec![1, 0, 0, 0, 0, 0, 0, 0, 0], 1).unwrap();
    let img = luma_image(3, 3, &[0; 9]);
    let out = img.erode(&mask).unwrap();
    let vals = luma_values(&out);
    assert_eq!(vals[0], 255);
    assert_eq!(vals[8], 0);
}

#[test]
fn morphology_rejects_even_masks() {
    let img = luma_image(3, 3, &[0; 9]);
    let even = structuring_element(StructuringElementShape::Rectangle, (2, 2)).unwrap();
    assert_eq!(
        img.dilate(&even).unwrap_err(),
        Error::CoreError(CoreError::InvalidData)
    );
}

#[test]
fn median_blur_takes_the_middle_sample() {
    let img = luma_image(3, 3, &[0, 1, 2, 3, 4, 5, 6, 7, 8]);
    let out = img.median_blur(3).unwrap();
    let vals = luma_values(&out);
    // center: median of all nine values; corner: median of [0, 1, 3, 4] is
    // the upper of the two middle elements
    assert_eq!(vals[4], 4);
    assert_eq!(vals[0], 3);
}

#[test]
fn median_blur_rejects_even_size() {
    let img = luma_image(3, 3, &[0; 9]);
    assert_eq!(
        img.median_blur(2).unwrap_err(),
        Error::CoreError(CoreError::InvalidData)
    );
}

#[test]
fn invert_twice_restores_the_image() {
    let img: Image<Rgba<u8>> = Image::new(2, 2).fill(Rgba {
        r: 10u8,
        g: 20,
        b: 30,
        a: 40,
    });
    let once = img.invert();
    assert_eq!(
        *once.get_pixel((0, 0)).unwrap(),
        Rgba {
            r: 245u8,
            g: 235,
            b: 225,
            a: 40
        }
    );
    let twice = once.invert();
    assert_eq!(
        *twice.get_pixel((1, 1)).unwrap(),
        Rgba {
            r: 10u8,
            g: 20,
            b: 30,
            a: 40
        }
    );
}

#[test]
fn invert_luma_u16_spans_the_full_range() {
    let img: Image<Luma<u16>> = Image::new(1, 1);
    let out = img.invert();
    assert_eq!(out.get_pixel((0, 0)).unwrap().l, 65535);
    let back = out.invert();
    assert_eq!(back.get_pixel((0, 0)).unwrap().l, 0);
}

#[test]
fn grayscale_applies_bt601() {
    let img: Image<Rgba<u8>> = Image::new(1, 1).fill(Rgba {
        r: 100u8,
        g: 50,
        b: 200,
        a: 7,
    });
    let gray = img.grayscale();
    assert_eq!(gray.get_pixel((0, 0)).unwrap().l, 82);
}

#[test]
fn threshold_binary_scenario() {
    let img = luma_image(5, 1, &[0, 64, 128, 192, 255]);
    let out = img.threshold(128, 255, ThresholdType::Binary);
    assert_eq!(luma_values(&out), vec![0, 0, 255, 255, 255]);
}

#[test]
fn threshold_truncate_and_to_zero() {
    let img = luma_image(5, 1, &[0, 64, 128, 192, 255]);
    let out = img.threshold(128, 255, ThresholdType::Truncate);
    assert_eq!(luma_values(&out), vec![0, 64, 128, 128, 128]);
    let img = luma_image(5, 1, &[0, 64, 128, 192, 255]);
    let out = img.threshold(128, 255, ThresholdType::ToZero);
    assert_eq!(luma_values(&out), vec![0, 0, 0, 192, 255]);
}

#[test]
fn brightness_shifts_and_clamps() {
    let img: Image<Rgba<u8>> = Image::new(1, 1).fill(Rgba {
        r: 250u8,
        g: 10,
        b: 100,
        a: 9,
    });
    let up = img.brightness(10);
    assert_eq!(
        *up.get_pixel((0, 0)).unwrap(),
        Rgba {
            r: 255u8,
            g: 20,
            b: 110,
            a: 9
        }
    );
    let down = up.brightness(-30);
    assert_eq!(
        *down.get_pixel((0, 0)).unwrap(),
        Rgba {
            r: 225u8,
            g: 0,
            b: 80,
            a: 9
        }
    );
}

#[test]
fn contrast_scales_and_clamps() {
    let img: Image<Rgba<u8>> = Image::new(1, 1).fill(Rgba {
        r: 100u8,
        g: 200,
        b: 0,
        a: 3,
    });
    // a contrast factor of 19 / 10
    let out = img.contrast(19, 10);
    assert_eq!(
        *out.get_pixel((0, 0)).unwrap(),
        Rgba {
            r: 190u8,
            g: 255,
            b: 0,
            a: 3
        }
    );
}

#[test]
fn lerp_halfway_blends_all_channels() {
    let a: Image<Rgba<u8>> = Image::new(1, 1).fill(Rgba {
        r: 0u8,
        g: 100,
        b: 255,
        a: 0,
    });
    let b: Image<Rgba<u8>> = Image::new(1, 1).fill(Rgba {
        r: 100u8,
        g: 100,
        b: 0,
        a: 255,
    });
    let out = a.lerp(&b, 1, 2).unwrap();
    // ties round away from zero: 255 / 2 becomes 128
    assert_eq!(
        *out.get_pixel((0, 0)).unwrap(),
        Rgba {
            r: 50u8,
            g: 100,
            b: 128,
            a: 128
        }
    );
}

#[test]
fn lerp_rejects_dimension_mismatch() {
    let a: Image<Luma<u8>> = Image::new(2, 1);
    let b: Image<Luma<u8>> = Image::new(1, 2);
    assert_eq!(
        a.lerp(&b, 1, 2).unwrap_err(),
        Error::CoreError(CoreError::InvalidData)
    );
}

#[test]
fn histogram_equalize_uniform_image_is_identity() {
    let img = luma_image(3, 3, &[42; 9]);
    let out = img.histrogram_equalize();
    assert_eq!(luma_values(&out), vec![42; 9]);
}

#[test]
fn histogram_equalize_spreads_two_levels() {
    let img = luma_image(2, 2, &[100, 100, 200, 200]);
    let out = img.histrogram_equalize();
    assert_eq!(luma_values(&out), vec![0, 0, 255, 255]);
}

#[test]
fn normalize_stretches_the_range() {
    let img = luma_image(2, 1, &[50, 100]);
    let out = img.normalize();
    assert_eq!(luma_values(&out), vec![0, 255]);
}

#[test]
fn normalize_leaves_flat_channels() {
    let img: Image<Rgba<u8>> = Image::new(2, 1).fill(Rgba {
        r: 77u8,
        g: 10,
        b: 20,
        a: 200,
    });
    let out = img.normalize();
    assert_eq!(
        *out.get_pixel((1, 0)).unwrap(),
        Rgba {
            r: 77u8,
            g: 10,
            b: 20,
            a: 200
        }
    );
}

#[test]
fn apply_maps_channels_through_the_table() {
    let table: Vec<u32> = (0..=255u32).rev().collect();
    let img: Image<Luma<u8>> = Image::new(1, 1).fill(Luma { l: 3u8 });
    let out = img.apply(&table).unwrap();
    assert_eq!(out.get_pixel((0, 0)).unwrap().l, 252);
}

#[test]
fn apply_rejects_bad_tables() {
    let img: Image<Luma<u8>> = Image::new(1, 1);
    let short: Vec<u32> = vec![0; 10];
    assert_eq!(
        img.apply(&short).unwrap_err(),
        Error::CoreError(CoreError::InvalidData)
    );
    let img: Image<Luma<u8>> = Image::new(1, 1);
    let mut oversized: Vec<u32> = vec![0; 256];
    oversized[7] = 999;
    assert_eq!(
        img.apply(&oversized).unwrap_err(),
        Error::CoreError(CoreError::InvalidData)
    );
}

#[test]
fn kernel_from_weights_checks_shape() {
    assert_eq!(
        Kernel::from_weights(2, 2, vec![1; 3], 1).unwrap_err(),
        Error::CoreError(CoreError::InvalidData)
    );
    assert_eq!(
        Kernel::from_weights(1, 1, vec![1], 0).unwrap_err(),
        Error::CoreError(CoreError::InvalidData)
    );
    let k = Kernel::from_weights(1, 3, vec![1, 2, 3], 6).unwrap();
    assert_eq!(k.dimensions(), (1, 3));
}
