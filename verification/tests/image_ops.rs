use glance::{alpha_blend, framebuffer_pixel, CoreError, Image, Luma, Pixel, Rgba};

fn rgba8(r: u8, g: u8, b: u8, a: u8) -> Rgba<u8> {
    Rgba { r, g, b, a }
}

#[test]
fn new_image_is_transparent_black() {
    let img: Image<Rgba<u8>> = Image::new(3, 2);
    assert_eq!(img.dimensions(), (3, 2));
    assert!(!img.is_empty());
    for y in 0..2 {
        for x in 0..3 {
            assert_eq!(*img.get_pixel((x, y)).unwrap(), rgba8(0, 0, 0, 0));
        }
    }
}

#[test]
fn empty_image() {
    let img: Image<Luma<u8>> = Image::new(0, 5);
    assert!(img.is_empty());
    assert_eq!(img.dimensions(), (0, 5));
}

#[test]
fn set_then_get_returns_exact_color() {
    let mut img: Image<Rgba<u8>> = Image::new(4, 4);
    let red = rgba8(255, 0, 0, 255);
    img.set_pixel((2, 3), red).unwrap();
    assert_eq!(*img.get_pixel((2, 3)).unwrap(), red);
    // every other pixel is untouched
    for y in 0..4 {
        for x in 0..4 {
            if (x, y) != (2, 3) {
                assert_eq!(*img.get_pixel((x, y)).unwrap(), rgba8(0, 0, 0, 0));
            }
        }
    }
}

#[test]
fn get_pixel_out_of_bounds() {
    let img: Image<Rgba<u8>> = Image::new(4, 4);
    assert_eq!(img.get_pixel((4, 0)).unwrap_err(), CoreError::OutOfBounds);
    assert_eq!(img.get_pixel((0, 4)).unwrap_err(), CoreError::OutOfBounds);
}

#[test]
fn set_pixel_out_of_bounds() {
    let mut img: Image<Rgba<u8>> = Image::new(4, 4);
    let e = img.set_pixel((0, 7), rgba8(1, 2, 3, 4)).unwrap_err();
    assert_eq!(e, CoreError::OutOfBounds);
}

#[test]
fn from_data_checks_length() {
    let data = vec![Luma { l: 1u8 }; 6];
    let img = Image::from_data(3, 2, data.clone()).unwrap();
    assert_eq!(img.dimensions(), (3, 2));
    assert_eq!(
        Image::from_data(4, 2, data).unwrap_err(),
        CoreError::InvalidData
    );
}

#[test]
fn fill_overwrites_every_pixel() {
    let img: Image<Rgba<u8>> = Image::new(2, 2);
    let green = rgba8(0, 255, 0, 255);
    let img = img.fill(green);
    for y in 0..2 {
        for x in 0..2 {
            assert_eq!(*img.get_pixel((x, y)).unwrap(), green);
        }
    }
}

#[test]
fn vstack_concatenates_rows() {
    let top = Image::new(2, 1).fill(Luma { l: 1u8 });
    let bottom = Image::new(2, 2).fill(Luma { l: 2u8 });
    let stacked = top.vstack(&bottom).unwrap();
    assert_eq!(stacked.dimensions(), (2, 3));
    assert_eq!(stacked.get_pixel((0, 0)).unwrap().l, 1);
    assert_eq!(stacked.get_pixel((1, 1)).unwrap().l, 2);
    assert_eq!(stacked.get_pixel((1, 2)).unwrap().l, 2);
}

#[test]
fn vstack_rejects_width_mismatch() {
    let a: Image<Luma<u8>> = Image::new(2, 1);
    let b: Image<Luma<u8>> = Image::new(3, 1);
    assert_eq!(a.vstack(&b).unwrap_err(), CoreError::InvalidData);
}

#[test]
fn rgba8_round_trip_u8_is_exact() {
    let p = Rgba::<u8>::from_rgba8([10, 20, 30, 40]).unwrap();
    assert_eq!(p, rgba8(10, 20, 30, 40));
    assert_eq!(p.to_rgba8(), [10, 20, 30, 40]);
}

#[test]
fn rgba8_round_trip_u16_is_exact() {
    let p = Rgba::<u16>::from_rgba8([1, 2, 3, 255]).unwrap();
    // decoding rescales by 65535 / 255 == 257
    assert_eq!((p.r, p.g, p.b, p.a), (257, 514, 771, 65535));
    assert_eq!(p.to_rgba8(), [1, 2, 3, 255]);
}

#[test]
fn luma_decode_uses_bt601_weights() {
    let p = Luma::<u8>::from_rgba8([100, 50, 200, 7]).unwrap();
    // round((299 * 100 + 587 * 50 + 114 * 200) / 1000) == 82
    assert_eq!(p.l, 82);
    let white = Luma::<u8>::from_rgba8([255, 255, 255, 7]).unwrap();
    assert_eq!(white.l, 255);
    assert_eq!(white.to_rgba8(), [255, 255, 255, 255]);
}

#[test]
fn channel_counts_and_channels() {
    assert_eq!(Rgba::<u8>::channel_count(), 4);
    assert_eq!(Luma::<u16>::channel_count(), 1);
    let p = rgba8(9, 8, 7, 6);
    assert_eq!(p.channels(), vec![9, 8, 7, 6]);
    assert_eq!(Luma { l: 65535u16 }.channels(), vec![65535]);
}

#[test]
fn alpha_blend_opaque_foreground_wins() {
    let out = alpha_blend([100, 150, 200, 255], [1, 2, 3, 77]);
    assert_eq!(out, [100, 150, 200, 255]);
}

#[test]
fn alpha_blend_both_transparent_is_transparent_black() {
    let out = alpha_blend([100, 150, 200, 0], [1, 2, 3, 0]);
    assert_eq!(out, [0, 0, 0, 0]);
}

#[test]
fn alpha_blend_half_over_opaque() {
    let out = alpha_blend([200, 0, 0, 128], [0, 100, 0, 255]);
    assert_eq!(out, [100, 50, 0, 255]);
}

#[test]
fn alpha_blend_pixel_composites_in_place() {
    let mut img: Image<Rgba<u8>> = Image::new(2, 2).fill(rgba8(0, 100, 0, 255));
    img.alpha_blend_pixel((1, 0), rgba8(200, 0, 0, 128)).unwrap();
    assert_eq!(*img.get_pixel((1, 0)).unwrap(), rgba8(100, 50, 0, 255));
    assert_eq!(*img.get_pixel((0, 0)).unwrap(), rgba8(0, 100, 0, 255));
    assert_eq!(
        img.alpha_blend_pixel((2, 0), rgba8(1, 1, 1, 1)).unwrap_err(),
        CoreError::OutOfBounds
    );
}

#[test]
fn framebuffer_pixel_packs_argb() {
    assert_eq!(framebuffer_pixel([1, 2, 3, 0]), 0);
    assert_eq!(
        framebuffer_pixel([1, 2, 3, 255]),
        u32::from_be_bytes([255, 1, 2, 3])
    );
}
