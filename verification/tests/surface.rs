use bootgfx::screen::{Color, PixelOp, Rect, Screen, SurfaceError};

fn red() -> Color {
    Color { r: 255, g: 0, b: 0 }
}

fn green() -> Color {
    Color { r: 0, g: 255, b: 0 }
}

fn black() -> Color {
    Color { r: 0, g: 0, b: 0 }
}

fn snapshot(s: &Screen) -> Vec<Vec<Color>> {
    let mut rows = Vec::new();
    for y in 0..s.height() {
        let mut row = Vec::new();
        for x in 0..s.stride() {
            row.push(s.get_pixel(x, y));
        }
        rows.push(row);
    }
    rows
}

#[test]
fn new_surface_is_black() {
    let s = Screen::new(4, 4, 4).unwrap();
    assert_eq!(s.width(), 4);
    assert_eq!(s.height(), 4);
    assert_eq!(s.stride(), 4);
    for y in 0..4 {
        for x in 0..4 {
            assert_eq!(s.get_pixel(x, y), black());
        }
    }
}

#[test]
fn new_rejects_bad_geometry() {
    assert!(Screen::new(5, 4, 4).is_none(), "stride under the width");
    assert!(Screen::new(2000, 1, 2000).is_none(), "width over the cap");
    assert!(Screen::new(4, 4, 6).is_some());
}

#[test]
fn write_pixel_in_and_out_of_bounds() {
    let mut s = Screen::new(4, 4, 4).unwrap();
    assert_eq!(s.write_pixel(3, 3, red()), Ok(()));
    assert_eq!(s.get_pixel(3, 3), red());
    let before = snapshot(&s);
    assert_eq!(s.write_pixel(4, 0, red()), Err(SurfaceError::BoundsError));
    assert_eq!(s.write_pixel(0, 4, red()), Err(SurfaceError::BoundsError));
    assert_eq!(snapshot(&s), before, "a rejected write leaves memory unchanged");
}

#[test]
fn strict_rectangle_is_half_open() {
    let mut s = Screen::new(4, 4, 4).unwrap();
    assert_eq!(s.rectangle((0, 0), (2, 2), red(), true), Ok(()));
    for y in 0..4 {
        for x in 0..4 {
            let expected = if x < 2 && y < 2 { red() } else { black() };
            assert_eq!(s.get_pixel(x, y), expected, "pixel ({x},{y})");
        }
    }
}

#[test]
fn non_strict_rectangle_is_closed() {
    let mut s = Screen::new(4, 4, 4).unwrap();
    assert_eq!(s.rectangle((0, 0), (1, 1), red(), false), Ok(()));
    for y in 0..4 {
        for x in 0..4 {
            let expected = if x < 2 && y < 2 { red() } else { black() };
            assert_eq!(s.get_pixel(x, y), expected, "pixel ({x},{y})");
        }
    }
}

#[test]
fn strict_rectangle_may_touch_the_edge() {
    let mut s = Screen::new(4, 4, 4).unwrap();
    assert_eq!(s.rectangle((2, 2), (4, 4), green(), true), Ok(()));
    for y in 0..4 {
        for x in 0..4 {
            let expected = if x >= 2 && y >= 2 { green() } else { black() };
            assert_eq!(s.get_pixel(x, y), expected, "pixel ({x},{y})");
        }
    }
    // the closed form must stay strictly inside
    assert_eq!(
        s.rectangle((2, 2), (4, 4), green(), false),
        Err(SurfaceError::BoundsError)
    );
}

#[test]
fn inverted_rectangle_is_invalid_in_both_modes() {
    let mut s = Screen::new(4, 4, 4).unwrap();
    for strict in [true, false] {
        assert_eq!(
            s.rectangle((2, 0), (2, 3), red(), strict),
            Err(SurfaceError::InvalidRectangle),
            "max.x == min.x, strict={strict}"
        );
        assert_eq!(
            s.rectangle((3, 0), (1, 3), red(), strict),
            Err(SurfaceError::InvalidRectangle),
            "max.x < min.x, strict={strict}"
        );
    }
    for y in 0..4 {
        for x in 0..4 {
            assert_eq!(s.get_pixel(x, y), black());
        }
    }
}

#[test]
fn out_of_bounds_rectangle_changes_nothing() {
    let mut s = Screen::new(4, 4, 4).unwrap();
    assert_eq!(
        s.rectangle((0, 0), (5, 5), red(), true),
        Err(SurfaceError::BoundsError)
    );
    assert_eq!(
        s.rectangle((0, 0), (3, 5), red(), false),
        Err(SurfaceError::BoundsError)
    );
    for y in 0..4 {
        for x in 0..4 {
            assert_eq!(s.get_pixel(x, y), black());
        }
    }
}

#[test]
fn row_padding_is_never_written() {
    let mut s = Screen::new(4, 4, 6).unwrap();
    assert_eq!(s.rectangle((0, 0), (4, 4), red(), true), Ok(()));
    for y in 0..4 {
        for x in 0..6 {
            let expected = if x < 4 { red() } else { black() };
            assert_eq!(s.get_pixel(x, y), expected, "pixel ({x},{y})");
        }
    }
}

#[test]
fn rectangle_matches_repeated_single_pixel_writes() {
    let mut bulk = Screen::new(4, 4, 6).unwrap();
    let mut manual = Screen::new(4, 4, 6).unwrap();
    assert_eq!(bulk.rectangle((1, 0), (3, 2), red(), true), Ok(()));
    for y in 0..2 {
        for x in 1..3 {
            assert_eq!(manual.write_pixel(x, y, red()), Ok(()));
        }
    }
    for y in 0..4 {
        for x in 0..6 {
            assert_eq!(bulk.get_pixel(x, y), manual.get_pixel(x, y), "pixel ({x},{y})");
        }
    }
}

#[test]
fn reset_clears_the_visible_surface() {
    let mut s = Screen::new(4, 4, 4).unwrap();
    assert_eq!(s.rectangle((0, 0), (4, 4), green(), true), Ok(()));
    s.reset();
    for y in 0..4 {
        for x in 0..4 {
            assert_eq!(s.get_pixel(x, y), black());
        }
    }
}

#[test]
fn bounding_box_names_the_resolution() {
    let s = Screen::new(4, 3, 6).unwrap();
    let b = s.bounding_box();
    assert_eq!(b, Rect { x: 0, y: 0, width: 4, height: 3 });
}

#[test]
fn draw_iter_applies_every_pixel() {
    let mut s = Screen::new(4, 4, 4).unwrap();
    let ops = vec![
        PixelOp { x: 0, y: 0, color: red() },
        PixelOp { x: 1, y: 2, color: green() },
        PixelOp { x: 0, y: 0, color: green() },
    ];
    assert_eq!(s.draw_iter(&ops), Ok(()));
    assert_eq!(s.get_pixel(0, 0), green(), "later writes win");
    assert_eq!(s.get_pixel(1, 2), green());
    assert_eq!(s.get_pixel(2, 2), black());
}

#[test]
fn draw_iter_stops_at_the_first_bad_pixel() {
    let mut s = Screen::new(4, 4, 4).unwrap();
    let ops = vec![
        PixelOp { x: 0, y: 0, color: red() },
        PixelOp { x: 9, y: 0, color: red() },
        PixelOp { x: 2, y: 2, color: red() },
    ];
    assert_eq!(s.draw_iter(&ops), Err(SurfaceError::BoundsError));
    assert_eq!(s.get_pixel(0, 0), red(), "pixels before the failure land");
    assert_eq!(s.get_pixel(2, 2), black(), "pixels after the failure do not");
}

#[test]
fn fill_solid_uses_the_closed_fast_path() {
    let mut s = Screen::new(4, 4, 4).unwrap();
    assert_eq!(
        s.fill_solid(&Rect { x: 1, y: 1, width: 2, height: 2 }, red()),
        Ok(())
    );
    for y in 0..4 {
        for x in 0..4 {
            let expected = if (1..3).contains(&x) && (1..3).contains(&y) { red() } else { black() };
            assert_eq!(s.get_pixel(x, y), expected, "pixel ({x},{y})");
        }
    }
}

#[test]
fn fill_solid_rejects_thin_and_outsized_areas() {
    let mut s = Screen::new(4, 4, 4).unwrap();
    assert_eq!(
        s.fill_solid(&Rect { x: 0, y: 0, width: 0, height: 2 }, red()),
        Err(SurfaceError::InvalidRectangle)
    );
    assert_eq!(
        s.fill_solid(&Rect { x: 0, y: 0, width: 1, height: 1 }, red()),
        Err(SurfaceError::InvalidRectangle),
        "a unit area cannot name a corner beyond its origin"
    );
    assert_eq!(
        s.fill_solid(&Rect { x: 3, y: 3, width: 2, height: 2 }, red()),
        Err(SurfaceError::BoundsError)
    );
    for y in 0..4 {
        for x in 0..4 {
            assert_eq!(s.get_pixel(x, y), black());
        }
    }
}
