use ray_tracer::{canvas, clamp_srgb, color, encode_ppm, to_decimal, write_pixel, Canvas};

fn scale(value: f64) -> u8 {
    clamp_srgb((value * 255.0).round() as i64)
}

fn scaled_channels(canvas: &Canvas) -> Vec<u8> {
    canvas
        .pixels
        .iter()
        .flat_map(|pixel| [pixel.red, pixel.green, pixel.blue])
        .map(|channel| scale(f64::from_bits(channel)))
        .collect()
}

fn bits(v: f64) -> u64 {
    v.to_bits()
}

#[test]
fn test_srgb_scaling_returns_correct_value() {
    assert_eq!(scale(0.5), 128);
    assert_eq!(scale(0.15), 38);
    assert_eq!(scale(0.7), 179);
    assert_eq!(scale(0.91), 232);
}

#[test]
fn test_srgb_scaling_clamps_out_of_range_values() {
    assert_eq!(scale(-5.0), 0);
    assert_eq!(scale(2.5), 255);
    assert_eq!(scale(-0.01), 0);
    assert_eq!(scale(1.01), 255);
}

#[test]
fn test_clamp_srgb_passes_in_range_values_through() {
    assert_eq!(clamp_srgb(0), 0);
    assert_eq!(clamp_srgb(1), 1);
    assert_eq!(clamp_srgb(254), 254);
    assert_eq!(clamp_srgb(255), 255);
    assert_eq!(clamp_srgb(256), 255);
    assert_eq!(clamp_srgb(-1), 0);
    assert_eq!(clamp_srgb(i64::MAX), 255);
    assert_eq!(clamp_srgb(i64::MIN), 0);
}

#[test]
fn test_to_decimal_renders_digits() {
    assert_eq!(to_decimal(0), "0");
    assert_eq!(to_decimal(7), "7");
    assert_eq!(to_decimal(10), "10");
    assert_eq!(to_decimal(255), "255");
    assert_eq!(to_decimal(3041), "3041");
}

#[test]
fn test_ppm_header_and_body_of_painted_canvas() {
    let mut c = canvas(5, 3);
    let c1 = color(bits(1.5), bits(0.0), bits(0.0));
    let c2 = color(bits(0.0), bits(0.5), bits(0.0));
    let c3 = color(bits(-0.5), bits(0.0), bits(1.0));
    write_pixel(&mut c, 0, 0, c1);
    write_pixel(&mut c, 2, 1, c2);
    write_pixel(&mut c, 4, 2, c3);
    let ppm = encode_ppm(c.width, c.height, &scaled_channels(&c));
    let lines: Vec<&str> = ppm.lines().collect();
    assert_eq!(lines[0], "P3");
    assert_eq!(lines[1], "5 3");
    assert_eq!(lines[2], "255");
    assert_eq!(lines[3], "255 0 0 0 0 0 0 0 0 0 0 0 0 0 0");
    assert_eq!(lines[4], "0 0 0 0 0 0 0 128 0 0 0 0 0 0 0");
    assert_eq!(lines[5], "0 0 0 0 0 0 0 0 0 0 0 0 0 0 255");
    assert!(ppm.ends_with('\n'));
}

#[test]
fn test_ppm_wraps_long_rows() {
    let mut c = canvas(10, 2);
    let bright = color(bits(1.0), bits(0.8), bits(0.6));
    for y in 0..2 {
        for x in 0..10 {
            write_pixel(&mut c, x, y, bright);
        }
    }
    let ppm = encode_ppm(c.width, c.height, &scaled_channels(&c));
    let lines: Vec<&str> = ppm.lines().collect();
    assert_eq!(
        lines[3],
        "255 204 153 255 204 153 255 204 153 255 204 153 255 204 153 255 204"
    );
    assert_eq!(lines[4], "153 255 204 153 255 204 153 255 204 153 255 204 153");
    assert_eq!(
        lines[5],
        "255 204 153 255 204 153 255 204 153 255 204 153 255 204 153 255 204"
    );
    assert_eq!(lines[6], "153 255 204 153 255 204 153 255 204 153 255 204 153");
    assert_eq!(lines.len(), 7);
}

#[test]
fn test_no_ppm_line_exceeds_69_characters() {
    let mut c = canvas(13, 4);
    let bright = color(bits(0.999), bits(1.0), bits(0.42));
    for y in 0..4 {
        for x in 0..13 {
            write_pixel(&mut c, x, y, bright);
        }
    }
    let ppm = encode_ppm(c.width, c.height, &scaled_channels(&c));
    for line in ppm.lines() {
        assert!(line.len() <= 69);
    }
}

#[test]
fn test_ppm_of_empty_canvas_is_header_only() {
    let c = canvas(0, 0);
    let ppm = encode_ppm(c.width, c.height, &scaled_channels(&c));
    assert_eq!(ppm, "P3\n0 0\n255\n");
    let wide = canvas(4, 0);
    let ppm_wide = encode_ppm(wide.width, wide.height, &scaled_channels(&wide));
    assert_eq!(ppm_wide, "P3\n4 0\n255\n");
}

#[test]
fn test_ppm_ends_with_newline() {
    let c = canvas(2, 2);
    let ppm = encode_ppm(c.width, c.height, &scaled_channels(&c));
    assert!(ppm.ends_with('\n'));
    assert!(!ppm.ends_with("\n\n"));
}
