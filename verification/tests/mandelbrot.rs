use toolbox::mandelbrot::{escape_iterations, fixed_mul, pixel_point, try_escape_iterations};

const ONE: i32 = 1 << 24;

#[test]
fn fixed_mul_values() {
    assert_eq!(fixed_mul(3 * ONE, 2 * ONE), 6 * ONE);
    // The second factor is rounded down to an integer first.
    assert_eq!(fixed_mul(ONE, ONE + ONE / 2), ONE);
    assert_eq!(fixed_mul(ONE, -ONE / 2), -ONE);
    assert_eq!(fixed_mul(-ONE, -ONE), ONE);
    assert_eq!(fixed_mul(12345, 100), 0);
    // Truncated to 32 bits.
    assert_eq!(fixed_mul(i32::MAX, i32::MAX), (i32::MAX as i64 * 127) as i32);
}

#[test]
fn origin_never_escapes() {
    assert_eq!(escape_iterations(0, 0), 4096);
    assert_eq!(try_escape_iterations(0, 0), Some(4096));
}

#[test]
fn far_point_escapes_at_once() {
    // c = 2 + 2i: z1 = c, |z1|^2 = 8 > 4.
    assert_eq!(escape_iterations(2 * ONE, 2 * ONE), 1);
    assert_eq!(escape_iterations(-2 * ONE, 2 * ONE), 1);
}

#[test]
fn minus_two_stays() {
    // c = -2: z goes 0, -2, 2, 2, ... and never exceeds 4.
    assert_eq!(escape_iterations(-2 * ONE, 0), 4096);
}

#[test]
fn overflow_is_reported() {
    assert_eq!(try_escape_iterations(i32::MAX, i32::MAX), None);
}

#[test]
fn pixel_points() {
    assert_eq!(pixel_point(0, 0), (-(2 << 24) + 0x4000, -(5 << 22) + 0x4000));
    assert_eq!(pixel_point(119, 29), (-(2 << 24) + 0x8000 * 119 + 0x4000, -(5 << 22) + 0x8000 * 29 + 0x4000));
}

#[test]
fn whole_picture_stays_in_range() {
    let mut total: u64 = 0;
    for y in 0..30 {
        for x in 0..120 {
            let (cr, ci) = pixel_point(x, y);
            let k = try_escape_iterations(cr, ci).expect("no overflow");
            assert!(k <= 4096);
            total += k as u64;
        }
    }
    assert!(total > 0);
}
