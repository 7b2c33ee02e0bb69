use mandelbrot::{escape_time, shade, ITERATION_LIMIT};
use num::Complex;

const ORIGIN: Complex<f64> = Complex { re: 0.0, im: 0.0 };

fn escaped(z: Complex<f64>) -> bool {
    z.norm_sqr() > 4.0
}

fn step(z: Complex<f64>, c: Complex<f64>) -> Complex<f64> {
    z * z + c
}

fn mandelbrot_time(c: Complex<f64>, limit: usize) -> Option<usize> {
    escape_time(c, limit, ORIGIN, &escaped, &step)
}

#[test]
fn the_limit_fits_the_output_range() {
    assert_eq!(ITERATION_LIMIT, 255);
}

#[test]
fn an_interior_point_never_escapes() {
    let time = mandelbrot_time(Complex { re: 0.0, im: 0.0 }, 255);
    assert_eq!(time, None);
    assert_eq!(shade(time), 0);
    assert_eq!(mandelbrot_time(Complex { re: -1.0, im: 0.0 }, 255), None);
}

#[test]
fn a_far_point_escapes_at_the_first_test_after_the_origin() {
    // The test comes before the update, and the origin itself is inside:
    // the earliest escape is seen at iteration 1.
    let time = mandelbrot_time(Complex { re: 5.0, im: 5.0 }, 255);
    assert_eq!(time, Some(1));
    assert_eq!(shade(time), 254);
}

#[test]
fn escape_times_count_the_updates_before_the_escape() {
    // z: 0, 1, 2, 5: the first value beyond the radius shows at iteration 3.
    assert_eq!(mandelbrot_time(Complex { re: 1.0, im: 0.0 }, 255), Some(3));
    // z: 0, 2, 6.
    assert_eq!(mandelbrot_time(Complex { re: 2.0, im: 0.0 }, 255), Some(2));
    // z: 0, -2, 2, 2, ...: on the radius, never beyond it.
    assert_eq!(mandelbrot_time(Complex { re: -2.0, im: 0.0 }, 255), None);
}

#[test]
fn an_escape_beyond_the_limit_is_not_seen() {
    let c = Complex { re: 1.0, im: 0.0 };
    assert_eq!(mandelbrot_time(c, 0), None);
    assert_eq!(mandelbrot_time(c, 1), None);
    assert_eq!(mandelbrot_time(c, 3), None);
    assert_eq!(mandelbrot_time(c, 4), Some(3));
}

#[test]
fn escape_time_is_below_the_limit() {
    for limit in [0usize, 1, 2, 5, 50, 255] {
        for i in 0..40 {
            for j in 0..40 {
                let c = Complex {
                    re: -2.5 + 0.1 * i as f64,
                    im: -2.0 + 0.1 * j as f64,
                };
                if let Some(time) = mandelbrot_time(c, limit) {
                    assert!(time < limit);
                }
            }
        }
    }
}

#[test]
fn escape_time_is_repeatable() {
    for i in 0..40 {
        for j in 0..40 {
            let c = Complex {
                re: -2.5 + 0.1 * i as f64,
                im: -2.0 + 0.1 * j as f64,
            };
            assert_eq!(mandelbrot_time(c, 255), mandelbrot_time(c, 255));
        }
    }
}

#[test]
fn escape_time_makes_its_tests_before_its_updates() {
    // A counter as the orbit: element k of the orbit is k.
    let beyond_three = |z: u32| z > 3;
    let successor = |z: u32, c: u32| z + c;
    assert_eq!(escape_time(1, 10, 0, &beyond_three, &successor), Some(4));
    assert_eq!(escape_time(1, 4, 0, &beyond_three, &successor), None);
    assert_eq!(escape_time(1, 5, 0, &beyond_three, &successor), Some(4));
    assert_eq!(escape_time(1, 10, 7, &beyond_three, &successor), Some(0));
    assert_eq!(escape_time(0, 10, 0, &beyond_three, &successor), None);
}

#[test]
fn shade_is_brightest_for_the_fastest_escape() {
    assert_eq!(shade(None), 0);
    assert_eq!(shade(Some(0)), 255);
    assert_eq!(shade(Some(1)), 254);
    assert_eq!(shade(Some(100)), 155);
    assert_eq!(shade(Some(254)), 1);
    assert_eq!(shade(Some(255)), 0);
}

#[test]
fn shade_keeps_the_low_eight_bits_of_a_late_escape() {
    assert_eq!(shade(Some(256)), 255);
    assert_eq!(shade(Some(257)), 254);
    assert_eq!(shade(Some(511)), 0);
}
