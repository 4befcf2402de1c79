use glance::{Circle, Image, Line, Rgba, Shape, AABB};

fn rgba8(r: u8, g: u8, b: u8, a: u8) -> Rgba<u8> {
    Rgba { r, g, b, a }
}

fn black() -> Rgba<u8> {
    rgba8(0, 0, 0, 255)
}

fn red() -> Rgba<u8> {
    rgba8(255, 0, 0, 255)
}

#[test]
fn filled_box_overwrites_exactly_its_span() {
    // a 4x4 fully-opaque black image; a filled box at (1, 1) of size (2, 2)
    let mut img: Image<Rgba<u8>> = Image::new(4, 4).fill(black());
    img.draw(Shape::Aabb(AABB {
        position: (1, 1),
        size: (2, 2),
        color: red(),
        filled: true,
        thickness: 0,
    }))
    .unwrap();
    for y in 0..4 {
        for x in 0..4 {
            let expect = if (1..3).contains(&x) && (1..3).contains(&y) {
                red()
            } else {
                black()
            };
            assert_eq!(*img.get_pixel((x, y)).unwrap(), expect);
        }
    }
}

#[test]
fn box_outline_leaves_interior() {
    let mut img: Image<Rgba<u8>> = Image::new(6, 6).fill(black());
    let shape = AABB {
        position: (1, 1),
        size: (4, 4),
        color: red(),
        filled: false,
        thickness: 1,
    };
    shape.draw_on(&mut img).unwrap();
    // (3, 3) is in the middle of the outer rectangle [0,6)x[0,6): more than
    // one pixel from every edge, so it stays black
    assert_eq!(*img.get_pixel((3, 3)).unwrap(), black());
    assert_eq!(*img.get_pixel((0, 0)).unwrap(), red());
    assert_eq!(*img.get_pixel((5, 3)).unwrap(), red());
}

#[test]
fn filled_circle_radius_zero_draws_only_center() {
    let mut img: Image<Rgba<u8>> = Image::new(5, 5).fill(black());
    let c = Circle {
        position: (2, 2),
        color: red(),
        radius: 0,
        filled: true,
        thickness: 1,
    };
    c.draw_on(&mut img).unwrap();
    for y in 0..5 {
        for x in 0..5 {
            let expect = if (x, y) == (2, 2) { red() } else { black() };
            assert_eq!(*img.get_pixel((x, y)).unwrap(), expect);
        }
    }
}

#[test]
fn filled_circle_radius_zero_thickness_zero_draws_nothing() {
    let mut img: Image<Rgba<u8>> = Image::new(5, 5).fill(black());
    let c = Circle {
        position: (2, 2),
        color: red(),
        radius: 0,
        filled: true,
        thickness: 0,
    };
    c.draw_on(&mut img).unwrap();
    for y in 0..5 {
        for x in 0..5 {
            assert_eq!(*img.get_pixel((x, y)).unwrap(), black());
        }
    }
}

#[test]
fn filled_circle_radius_one_scans_half_open_square() {
    let mut img: Image<Rgba<u8>> = Image::new(5, 5).fill(black());
    let c = Circle {
        position: (2, 2),
        color: red(),
        radius: 1,
        filled: true,
        thickness: 0,
    };
    c.draw_on(&mut img).unwrap();
    // offsets are scanned over [-1, 1), so only the center and the pixels
    // left of and above it satisfy dx^2 + dy^2 <= 1
    let covered = [(2, 2), (1, 2), (2, 1)];
    for y in 0..5 {
        for x in 0..5 {
            let expect = if covered.contains(&(x, y)) {
                red()
            } else {
                black()
            };
            assert_eq!(*img.get_pixel((x, y)).unwrap(), expect);
        }
    }
}

#[test]
fn circle_clips_silently_at_the_border() {
    let mut img: Image<Rgba<u8>> = Image::new(3, 3).fill(black());
    let c = Circle {
        position: (0, 0),
        color: red(),
        radius: 1,
        filled: true,
        thickness: 0,
    };
    c.draw_on(&mut img).unwrap();
    assert_eq!(*img.get_pixel((0, 0)).unwrap(), red());
    assert_eq!(*img.get_pixel((2, 2)).unwrap(), black());
}

#[test]
fn horizontal_line_traces_every_column() {
    let mut img: Image<Rgba<u8>> = Image::new(4, 5).fill(black());
    let l = Line {
        start: (0, 2),
        end: (3, 2),
        color: red(),
        thickness: 1,
    };
    l.draw_on(&mut img).unwrap();
    for y in 0..5 {
        for x in 0..4 {
            let expect = if y == 2 { red() } else { black() };
            assert_eq!(*img.get_pixel((x, y)).unwrap(), expect);
        }
    }
}

#[test]
fn diagonal_line_traces_the_diagonal() {
    let mut img: Image<Rgba<u8>> = Image::new(3, 3).fill(black());
    let l = Line {
        start: (0, 0),
        end: (2, 2),
        color: red(),
        thickness: 1,
    };
    l.draw_on(&mut img).unwrap();
    for y in 0..3 {
        for x in 0..3 {
            let expect = if x == y { red() } else { black() };
            assert_eq!(*img.get_pixel((x, y)).unwrap(), expect);
        }
    }
}

#[test]
fn thick_line_uses_square_brush() {
    let mut img: Image<Rgba<u8>> = Image::new(5, 5).fill(black());
    let l = Line {
        start: (2, 2),
        end: (2, 2),
        color: red(),
        thickness: 3,
    };
    l.draw_on(&mut img).unwrap();
    // a single traced point with half-width 3 / 2 == 1 paints a 3x3 brush
    for y in 0..5 {
        for x in 0..5 {
            let expect = if (1..4).contains(&x) && (1..4).contains(&y) {
                red()
            } else {
                black()
            };
            assert_eq!(*img.get_pixel((x, y)).unwrap(), expect);
        }
    }
}

#[test]
fn line_clips_beyond_the_canvas() {
    let mut img: Image<Rgba<u8>> = Image::new(3, 1).fill(black());
    let l = Line {
        start: (0, 0),
        end: (9, 0),
        color: red(),
        thickness: 1,
    };
    l.draw_on(&mut img).unwrap();
    for x in 0..3 {
        assert_eq!(*img.get_pixel((x, 0)).unwrap(), red());
    }
}

#[test]
fn shape_dispatch_draws_each_variant() {
    let mut img: Image<Rgba<u8>> = Image::new(4, 4).fill(black());
    img.draw(Shape::Circle(Circle {
        position: (0, 0),
        color: red(),
        radius: 0,
        filled: true,
        thickness: 1,
    }))
    .unwrap();
    img.draw(Shape::Line(Line {
        start: (3, 0),
        end: (3, 3),
        color: red(),
        thickness: 1,
    }))
    .unwrap();
    assert_eq!(*img.get_pixel((0, 0)).unwrap(), red());
    assert_eq!(*img.get_pixel((3, 1)).unwrap(), red());
    assert_eq!(*img.get_pixel((1, 1)).unwrap(), black());
}
