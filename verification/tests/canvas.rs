use ray_tracer::{canvas, color, pixel_at, write_pixel, RangeError};

fn bits(v: f64) -> u64 {
    v.to_bits()
}

#[test]
fn test_canvas_has_given_dimensions() {
    let c = canvas(10, 20);
    assert_eq!(c.width, 10);
    assert_eq!(c.height, 20);
    assert_eq!(c.pixels.len(), 200);
}

#[test]
fn test_fresh_canvas_is_black() {
    let c = canvas(10, 20);
    let black = color(bits(0.0), bits(0.0), bits(0.0));
    for pixel in &c.pixels {
        assert_eq!(*pixel, black);
    }
}

#[test]
fn test_write_then_read_pixel_round_trip() {
    let mut c = canvas(10, 20);
    let red = color(bits(1.0), bits(0.0), bits(0.0));
    write_pixel(&mut c, 2, 3, red);
    assert_eq!(pixel_at(&c, 2, 3), Ok(red));
}

#[test]
fn test_out_of_range_read_is_reported() {
    let c = canvas(3, 3);
    assert_eq!(pixel_at(&c, 3, 0), Err(RangeError));
    assert_eq!(pixel_at(&c, 0, 3), Err(RangeError));
    assert_eq!(pixel_at(&c, 17, 17), Err(RangeError));
}

#[test]
fn test_out_of_range_write_is_ignored() {
    let mut c = canvas(2, 2);
    let green = color(bits(0.0), bits(1.0), bits(0.0));
    write_pixel(&mut c, 2, 0, green);
    write_pixel(&mut c, 0, 2, green);
    let black = color(bits(0.0), bits(0.0), bits(0.0));
    for pixel in &c.pixels {
        assert_eq!(*pixel, black);
    }
}

#[test]
fn test_write_pixel_leaves_other_pixels_alone() {
    let mut c = canvas(3, 3);
    let blue = color(bits(0.0), bits(0.0), bits(1.0));
    write_pixel(&mut c, 1, 1, blue);
    let black = color(bits(0.0), bits(0.0), bits(0.0));
    for y in 0..3 {
        for x in 0..3 {
            let expected = if (x, y) == (1, 1) { blue } else { black };
            assert_eq!(pixel_at(&c, x, y), Ok(expected));
        }
    }
}
