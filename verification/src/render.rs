//! The band renderer: fills a row-major buffer of pixels, one escape-time
//! evaluation per pixel.

use vstd::prelude::*;
use crate::escape::{
    escape_time, escape_time_of, lemma_escape_time_deterministic, shade, shade_of,
    step_is_deterministic, test_is_deterministic, ITERATION_LIMIT,
};

verus! {

/// The slot of the pixel at (`column`, `row`) in a row-major buffer of rows
/// that are `width` pixels wide.
pub open spec fn pixel_index(width: int, column: int, row: int) -> int {
    row * width + column
}

/// Every pixel of a `width` by `height` grid has a slot inside a buffer of
/// `width * height` pixels.
pub proof fn lemma_pixel_index_in_buffer(width: int, height: int, column: int, row: int)
    by (nonlinear_arith)
    requires
        0 <= column < width,
        0 <= row < height,
    ensures
        0 <= pixel_index(width, column, row) < width * height,
{
}

/// Two pixels that share a slot are the same pixel.
pub proof fn lemma_pixel_index_injective(
    width: int,
    column: int,
    row: int,
    other_column: int,
    other_row: int,
)
    by (nonlinear_arith)
    requires
        0 <= column < width,
        0 <= other_column < width,
        0 <= row,
        0 <= other_row,
        pixel_index(width, column, row) == pixel_index(width, other_column, other_row),
    ensures
        column == other_column,
        row == other_row,
{
}

/// The pixel at (`column`, `row`) of `pixels` holds the shade of an escape
/// time, within [`ITERATION_LIMIT`] iterations, of a point that `point_at`
/// gave for that position.
pub open spec fn is_rendered<Z, P: Fn(usize, usize) -> Z, E: Fn(Z) -> bool, S: Fn(Z, Z) -> Z>(
    pixels: Seq<u8>,
    width: usize,
    column: usize,
    row: usize,
    point_at: P,
    origin: Z,
    escaped: E,
    step: S,
) -> bool {
    exists|c: Z, time: Option<usize>|
        {
            &&& call_ensures(point_at, (column, row), c)
            &&& #[trigger] escape_time_of(c, ITERATION_LIMIT, origin, escaped, step, time)
            &&& pixels[pixel_index(width as int, column as int, row as int)] == shade_of(time)
        }
}

/// `pixels` is a rendering of a grid of `bounds.0` by `bounds.1` pixels: it
/// has one slot for each pixel, and each pixel is rendered.
pub open spec fn is_rendering<Z, P: Fn(usize, usize) -> Z, E: Fn(Z) -> bool, S: Fn(Z, Z) -> Z>(
    pixels: Seq<u8>,
    bounds: (usize, usize),
    point_at: P,
    origin: Z,
    escaped: E,
    step: S,
) -> bool {
    &&& pixels.len() == bounds.0 * bounds.1
    &&& forall|column: usize, row: usize|
        column < bounds.0 && row < bounds.1 ==> #[trigger] is_rendered(
            pixels,
            bounds.0,
            column,
            row,
            point_at,
            origin,
            escaped,
            step,
        )
}

/// `point_at` gives the same point whenever it is asked about the same pixel.
pub open spec fn mapper_is_deterministic<Z, P: Fn(usize, usize) -> Z>(point_at: P) -> bool {
    forall|column: usize, row: usize, a: Z, b: Z|
        call_ensures(point_at, (column, row), a) && call_ensures(point_at, (column, row), b) ==> a
            == b
}

/// Rendering is deterministic: where the mapper, the escape test and the
/// step are, a grid has one rendering.
pub proof fn lemma_rendering_deterministic<
    Z,
    P: Fn(usize, usize) -> Z,
    E: Fn(Z) -> bool,
    S: Fn(Z, Z) -> Z,
>(first: Seq<u8>, second: Seq<u8>, bounds: (usize, usize), point_at: P, origin: Z, escaped: E, step: S)
    requires
        mapper_is_deterministic(point_at),
        test_is_deterministic(escaped),
        step_is_deterministic(step),
        is_rendering(first, bounds, point_at, origin, escaped, step),
        is_rendering(second, bounds, point_at, origin, escaped, step),
    ensures
        first == second,
{
    let width = bounds.0 as int;
    let height = bounds.1 as int;
    assert forall|slot: int| 0 <= slot < first.len() implies first[slot] == second[slot] by {
        assert(0 < width) by (nonlinear_arith)
            requires
                0 <= slot < width * height,
                0 <= width,
        ;
        let row = slot / width;
        let column = slot % width;
        assert(0 <= row < height && 0 <= column < width && slot == row * width + column)
            by (nonlinear_arith)
            requires
                0 < width,
                0 <= slot < width * height,
                row == slot / width,
                column == slot % width,
        ;
        let column = column as usize;
        let row = row as usize;
        assert(is_rendered(first, bounds.0, column, row, point_at, origin, escaped, step));
        assert(is_rendered(second, bounds.0, column, row, point_at, origin, escaped, step));
        let (c, time) = choose|c: Z, time: Option<usize>|
            {
                &&& call_ensures(point_at, (column, row), c)
                &&& #[trigger] escape_time_of(c, ITERATION_LIMIT, origin, escaped, step, time)
                &&& first[pixel_index(width, column as int, row as int)] == shade_of(time)
            };
        let (other_c, other_time) = choose|c: Z, time: Option<usize>|
            {
                &&& call_ensures(point_at, (column, row), c)
                &&& #[trigger] escape_time_of(c, ITERATION_LIMIT, origin, escaped, step, time)
                &&& second[pixel_index(width, column as int, row as int)] == shade_of(time)
            };
        lemma_escape_time_deterministic(
            c,
            ITERATION_LIMIT,
            origin,
            escaped,
            step,
            time,
            other_time,
        );
    }
    assert(first =~= second);
}

/// Renders a band of `bounds.0` by `bounds.1` pixels into `pixels`.
///
/// For every position of the band, `point_at` gives the point of the plane
/// that the pixel stands for; its escape time is evaluated from `origin` with
/// `escaped` and `step`, within [`ITERATION_LIMIT`] iterations; and the shade
/// of that escape time is written to the pixel's slot. Rows are filled from
/// the top, each from left to right, and nothing but `pixels` is changed.
pub fn render<Z: Copy, P: Fn(usize, usize) -> Z, E: Fn(Z) -> bool, S: Fn(Z, Z) -> Z>(
    pixels: &mut [u8],
    bounds: (usize, usize),
    point_at: P,
    origin: Z,
    escaped: E,
    step: S,
)
    requires
        old(pixels)@.len() == bounds.0 * bounds.1,
        forall|column: usize, row: usize|
            column < bounds.0 && row < bounds.1 ==> call_requires(point_at, (column, row)),
        forall|z: Z| call_requires(escaped, (z,)),
        forall|z: Z, c: Z| call_requires(step, (z, c)),
    ensures
        is_rendering(final(pixels)@, bounds, point_at, origin, escaped, step),
{
    let width: usize = bounds.0;
    let height: usize = bounds.1;
    proof {
        let slots = pixels.len();
        assert(slots == pixels@.len());
    }
    for row in 0..height
        invariant
            pixels@.len() == width * height,
            width * height <= usize::MAX,
            forall|column: usize, row: usize|
                column < width && row < height ==> call_requires(point_at, (column, row)),
            forall|z: Z| call_requires(escaped, (z,)),
            forall|z: Z, c: Z| call_requires(step, (z, c)),
            forall|c: usize, r: usize|
                c < width && r < row ==> #[trigger] is_rendered(
                    pixels@,
                    width,
                    c,
                    r,
                    point_at,
                    origin,
                    escaped,
                    step,
                ),
    {
        for column in 0..width
            invariant
                row < height,
                pixels@.len() == width * height,
                width * height <= usize::MAX,
                forall|column: usize, row: usize|
                    column < width && row < height ==> call_requires(point_at, (column, row)),
                forall|z: Z| call_requires(escaped, (z,)),
                forall|z: Z, c: Z| call_requires(step, (z, c)),
                forall|c: usize, r: usize|
                    c < width && r < row ==> #[trigger] is_rendered(
                        pixels@,
                        width,
                        c,
                        r,
                        point_at,
                        origin,
                        escaped,
                        step,
                    ),
                forall|c: usize|
                    c < column ==> #[trigger] is_rendered(
                        pixels@,
                        width,
                        c,
                        row,
                        point_at,
                        origin,
                        escaped,
                        step,
                    ),
        {
            let point = point_at(column, row);
            let time = escape_time(point, ITERATION_LIMIT, origin, &escaped, &step);
            proof {
                lemma_pixel_index_in_buffer(
                    width as int,
                    height as int,
                    column as int,
                    row as int,
                );
                assert(0 <= row * width) by (nonlinear_arith);
            }
            let ghost before = pixels@;
            pixels[row * width + column] = shade(time);
            proof {
                assert forall|c: usize, r: usize|
                    c < width && (r < row || (r == row && c < column)) implies pixels@[pixel_index(
                    width as int,
                    c as int,
                    r as int,
                )] == before[pixel_index(width as int, c as int, r as int)] by {
                    lemma_pixel_index_in_buffer(width as int, height as int, c as int, r as int);
                    if pixel_index(width as int, c as int, r as int) == pixel_index(
                        width as int,
                        column as int,
                        row as int,
                    ) {
                        lemma_pixel_index_injective(
                            width as int,
                            c as int,
                            r as int,
                            column as int,
                            row as int,
                        );
                    }
                }
                assert forall|c: usize, r: usize| c < width && r < row implies #[trigger] is_rendered(
                    pixels@,
                    width,
                    c,
                    r,
                    point_at,
                    origin,
                    escaped,
                    step,
                ) by {
                    assert(is_rendered(before, width, c, r, point_at, origin, escaped, step));
                }
                assert forall|c: usize| c < column + 1 implies #[trigger] is_rendered(
                    pixels@,
                    width,
                    c,
                    row,
                    point_at,
                    origin,
                    escaped,
                    step,
                ) by {
                    if c < column {
                        assert(is_rendered(before, width, c, row, point_at, origin, escaped, step));
                    }
                }
            }
        }
    }
}

} // verus!
