use mandelbrot::{partition, render};
use num::Complex;

const ORIGIN: Complex<f64> = Complex { re: 0.0, im: 0.0 };

fn escaped(z: Complex<f64>) -> bool {
    z.norm_sqr() > 4.0
}

fn step(z: Complex<f64>, c: Complex<f64>) -> Complex<f64> {
    z * z + c
}

fn pixel_to_point(
    bounds: (usize, usize),
    pixel: (usize, usize),
    upper_left: Complex<f64>,
    lower_right: Complex<f64>,
) -> Complex<f64> {
    let (w, h) = (
        lower_right.re - upper_left.re,
        upper_left.im - lower_right.im,
    );
    Complex {
        re: upper_left.re + pixel.0 as f64 * w / bounds.0 as f64,
        im: upper_left.im - pixel.1 as f64 * h / bounds.1 as f64,
    }
}

fn render_plane(
    pixels: &mut [u8],
    bounds: (usize, usize),
    upper_left: Complex<f64>,
    lower_right: Complex<f64>,
) {
    assert_eq!(pixels.len(), bounds.0 * bounds.1);
    render(
        pixels,
        bounds,
        |column, row| pixel_to_point(bounds, (column, row), upper_left, lower_right),
        ORIGIN,
        escaped,
        step,
    );
}

fn render_in_bands(
    bounds: (usize, usize),
    threads: usize,
    upper_left: Complex<f64>,
    lower_right: Complex<f64>,
) -> Vec<u8> {
    let mut pixels = vec![0u8; bounds.0 * bounds.1];
    let mut rest: &mut [u8] = &mut pixels;
    for band in partition(bounds, threads) {
        let (slice, tail) = std::mem::take(&mut rest).split_at_mut(band.len());
        rest = tail;
        let band_upper_left =
            pixel_to_point(bounds, band.upper_left_pixel(), upper_left, lower_right);
        let band_lower_right =
            pixel_to_point(bounds, band.lower_right_pixel(), upper_left, lower_right);
        render_plane(slice, band.bounds(), band_upper_left, band_lower_right);
    }
    assert!(rest.is_empty());
    pixels
}

#[test]
fn render_writes_each_pixel_to_its_row_major_slot() {
    // The point of a pixel is its own slot number, and slot n escapes at
    // iteration n: the orbit counts up from 0 and has escaped once it
    // reaches the point.
    let bounds = (5, 4);
    let mut pixels = vec![7u8; 20];
    let mut reached = vec![7u8; 20];
    for (slot, byte) in reached.iter_mut().enumerate() {
        *byte = 255 - slot as u8;
    }
    // An orbit element is a count of updates and the goal it is bound for.
    render(
        &mut pixels,
        bounds,
        |column, row| (0usize, row * 5 + column),
        (0usize, 0usize),
        |z: (usize, usize)| z.1 > 0 && z.0 >= z.1,
        |z: (usize, usize), c: (usize, usize)| (z.0 + 1, c.1),
    );
    // Slot 0 has goal 0, which the test never accepts: it never escapes.
    reached[0] = 0;
    // The origin carries no goal; the first update brings the point's goal in,
    // so slot n is seen to have escaped at iteration n, for n at least 1.
    assert_eq!(pixels, reached);
}

#[test]
fn render_draws_the_interior_black_and_the_far_outside_bright() {
    let mut pixels = vec![9u8; 2];
    render(
        &mut pixels,
        (2, 1),
        |column, _row| {
            if column == 0 {
                Complex { re: 0.0, im: 0.0 }
            } else {
                Complex { re: 5.0, im: 5.0 }
            }
        },
        ORIGIN,
        escaped,
        step,
    );
    assert_eq!(pixels, vec![0, 254]);
}

#[test]
fn render_of_an_empty_band_writes_nothing() {
    let mut none: Vec<u8> = Vec::new();
    render_plane(
        &mut none,
        (0, 0),
        Complex { re: -1.0, im: 1.0 },
        Complex { re: 1.0, im: -1.0 },
    );
    assert!(none.is_empty());
    render_plane(
        &mut none,
        (3, 0),
        Complex { re: -1.0, im: 1.0 },
        Complex { re: 1.0, im: -1.0 },
    );
    assert!(none.is_empty());
}

#[test]
fn render_of_a_small_view() {
    // Real parts -2, -1, 0, 1 and imaginary parts 1, 0.
    let mut pixels = vec![0u8; 8];
    render_plane(
        &mut pixels,
        (4, 2),
        Complex { re: -2.0, im: 1.0 },
        Complex { re: 2.0, im: -1.0 },
    );
    // -2+i: z1 = -2+i, |z1|^2 = 5: escape at 1.
    // -1+i: z1 = -1+i, z2 = -1-i, z3 = -1+3i: escape at 3.
    //    i: 0, i, -1+i, -i, -1+i, ...: never.
    //  1+i: z1 = 1+i, z2 = 1+3i: escape at 2.
    //   -2: on the radius for ever. -1: 0, -1, 0, ...: never. 0: never.
    //    1: 0, 1, 2, 5: escape at 3.
    assert_eq!(pixels, vec![254, 252, 0, 253, 0, 0, 0, 252]);
}

#[test]
fn one_band_and_sixteen_bands_give_the_same_image() {
    let upper_left = Complex { re: -2.0, im: 1.0 };
    let lower_right = Complex { re: 1.0, im: -1.0 };
    let bounds = (96, 64);
    let one = render_in_bands(bounds, 1, upper_left, lower_right);
    let sixteen = render_in_bands(bounds, 16, upper_left, lower_right);
    assert_eq!(one.len(), 96 * 64);
    assert_eq!(one, sixteen);
}

#[test]
fn the_standard_view_fills_the_whole_buffer() {
    let upper_left = Complex { re: -1.20, im: 0.35 };
    let lower_right = Complex { re: -1.0, im: 0.20 };
    let pixels = render_in_bands((1000, 750), 16, upper_left, lower_right);
    assert_eq!(pixels.len(), 750_000);
    assert!(pixels.iter().any(|&byte| byte == 0));
    assert!(pixels.iter().any(|&byte| byte != 0));
}
