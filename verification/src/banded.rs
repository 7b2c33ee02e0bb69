//! What the renderings of the bands of an image amount to between them.
//!
//! Each worker renders its band into its own part of the image's buffer,
//! with a mapper of its own from the band's pixels to the plane. Where those
//! mappers agree with the mapper of the whole image, the buffer that the
//! workers leave is a rendering of the whole image, however many workers
//! there were.

use vstd::prelude::*;
use crate::band::{band_at, band_count, band_of_slot, lemma_band_extent, lemma_slot_is_held};
use crate::escape::{escape_time_of, shade_of, step_is_deterministic, test_is_deterministic, ITERATION_LIMIT};
use crate::render::{
    is_rendered, is_rendering, lemma_pixel_index_in_buffer, lemma_rendering_deterministic,
    mapper_is_deterministic, pixel_index,
};

verus! {

/// The part of `pixels` that band `i` holds is a rendering of that band,
/// made with `mapper`.
pub open spec fn band_is_rendered<Z, Q: Fn(usize, usize) -> Z, E: Fn(Z) -> bool, S: Fn(Z, Z) -> Z>(
    pixels: Seq<u8>,
    bounds: (usize, usize),
    threads: usize,
    i: int,
    mapper: Q,
    origin: Z,
    escaped: E,
    step: S,
) -> bool {
    let band = band_at(bounds.0 as int, bounds.1 as int, threads as int, i);
    is_rendering(
        pixels.subrange(band.offset(), band.end()),
        (bounds.0, band.height as usize),
        mapper,
        origin,
        escaped,
        step,
    )
}

/// `pixels` is an image rendered in bands for `threads` workers, band `i`
/// with the mapper `mappers(i)`.
pub open spec fn is_rendered_in_bands<
    Z,
    Q: Fn(usize, usize) -> Z,
    E: Fn(Z) -> bool,
    S: Fn(Z, Z) -> Z,
>(
    pixels: Seq<u8>,
    bounds: (usize, usize),
    threads: usize,
    mappers: spec_fn(int) -> Q,
    origin: Z,
    escaped: E,
    step: S,
) -> bool {
    &&& pixels.len() == bounds.0 * bounds.1
    &&& forall|i: int|
        0 <= i < band_count(bounds.1 as int, threads as int) ==> #[trigger] band_is_rendered(
            pixels,
            bounds,
            threads,
            i,
            mappers(i),
            origin,
            escaped,
            step,
        )
}

/// The mapper of band `i` gives, for a pixel of the band, only what
/// `point_at` gives for the same pixel of the whole image, which lies
/// `top` rows further down.
pub open spec fn mapper_agrees<Z, P: Fn(usize, usize) -> Z, Q: Fn(usize, usize) -> Z>(
    bounds: (usize, usize),
    threads: usize,
    i: int,
    point_at: P,
    mapper: Q,
) -> bool {
    let band = band_at(bounds.0 as int, bounds.1 as int, threads as int, i);
    forall|column: usize, row: usize, point: Z|
        column < bounds.0 && row < band.height && #[trigger] call_ensures(
            mapper,
            (column, row),
            point,
        ) ==> call_ensures(point_at, (column, (band.top + row) as usize), point)
}

/// The mapper of every band agrees with the mapper of the whole image.
pub open spec fn mappers_agree<Z, P: Fn(usize, usize) -> Z, Q: Fn(usize, usize) -> Z>(
    bounds: (usize, usize),
    threads: usize,
    point_at: P,
    mappers: spec_fn(int) -> Q,
) -> bool {
    forall|i: int|
        0 <= i < band_count(bounds.1 as int, threads as int) ==> #[trigger] mapper_agrees(
            bounds,
            threads,
            i,
            point_at,
            mappers(i),
        )
}

/// An image rendered in bands, with band mappers that agree with the
/// image's mapper, is a rendering of the whole image.
pub proof fn lemma_bands_render_the_image<
    Z,
    P: Fn(usize, usize) -> Z,
    Q: Fn(usize, usize) -> Z,
    E: Fn(Z) -> bool,
    S: Fn(Z, Z) -> Z,
>(
    pixels: Seq<u8>,
    bounds: (usize, usize),
    threads: usize,
    point_at: P,
    mappers: spec_fn(int) -> Q,
    origin: Z,
    escaped: E,
    step: S,
)
    requires
        0 < bounds.0,
        0 < threads,
        is_rendered_in_bands(pixels, bounds, threads, mappers, origin, escaped, step),
        mappers_agree(bounds, threads, point_at, mappers),
    ensures
        is_rendering(pixels, bounds, point_at, origin, escaped, step),
{
    let width = bounds.0 as int;
    let height = bounds.1 as int;
    assert forall|column: usize, row: usize|
        column < bounds.0 && row < bounds.1 implies #[trigger] is_rendered(
        pixels,
        bounds.0,
        column,
        row,
        point_at,
        origin,
        escaped,
        step,
    ) by {
        let slot = pixel_index(width, column as int, row as int);
        lemma_pixel_index_in_buffer(width, height, column as int, row as int);
        assert(slot / width == row) by (nonlinear_arith)
            requires
                slot == row * width + column,
                0 <= column < width,
        ;
        lemma_slot_is_held(width, height, threads as int, slot);
        let i = band_of_slot(width, height, threads as int, slot);
        lemma_band_extent(width, height, threads as int, i);
        let band = band_at(width, height, threads as int, i);
        assert(band.top <= row < band.top + band.height) by (nonlinear_arith)
            requires
                band.top * width <= row * width + column,
                row * width + column < band.top * width + width * band.height,
                0 <= column < width,
        ;
        assert(0 <= band.offset() <= band.end() <= width * height) by (nonlinear_arith)
            requires
                band.offset() == band.top * width,
                band.end() == band.top * width + width * band.height,
                0 <= band.top,
                0 < band.height,
                band.top + band.height <= height,
                0 < width,
        ;
        let band_row = (row - band.top) as usize;
        let part = pixels.subrange(band.offset(), band.end());
        assert(band_is_rendered(pixels, bounds, threads, i, mappers(i), origin, escaped, step));
        assert(is_rendered(part, bounds.0, column, band_row, mappers(i), origin, escaped, step));
        let (point, time) = choose|point: Z, time: Option<usize>|
            {
                &&& call_ensures(mappers(i), (column, band_row), point)
                &&& #[trigger] escape_time_of(point, ITERATION_LIMIT, origin, escaped, step, time)
                &&& part[pixel_index(width, column as int, band_row as int)] == shade_of(time)
            };
        assert(mapper_agrees(bounds, threads, i, point_at, mappers(i)));
        assert(call_ensures(point_at, (column, row), point));
        assert(band.offset() + pixel_index(width, column as int, band_row as int) == slot)
            by (nonlinear_arith)
            requires
                band.offset() == band.top * width,
                slot == row * width + column,
                pixel_index(width, column as int, band_row as int) == (row - band.top) * width
                    + column,
        ;
        lemma_pixel_index_in_buffer(width, band.height, column as int, band_row as int);
        assert(part[pixel_index(width, column as int, band_row as int)] == pixels[slot]);
    }
}

/// The image does not depend on the partition: two buffers rendered in
/// bands, for any two numbers of workers, hold the same bytes, where the
/// mappers of all bands agree with one mapper of the whole image and that
/// mapper, the escape test and the step are deterministic.
pub proof fn lemma_image_independent_of_partition<
    Z,
    P: Fn(usize, usize) -> Z,
    Q: Fn(usize, usize) -> Z,
    R: Fn(usize, usize) -> Z,
    E: Fn(Z) -> bool,
    S: Fn(Z, Z) -> Z,
>(
    first: Seq<u8>,
    second: Seq<u8>,
    bounds: (usize, usize),
    first_threads: usize,
    second_threads: usize,
    point_at: P,
    first_mappers: spec_fn(int) -> Q,
    second_mappers: spec_fn(int) -> R,
    origin: Z,
    escaped: E,
    step: S,
)
    requires
        0 < bounds.0,
        0 < first_threads,
        0 < second_threads,
        mapper_is_deterministic(point_at),
        test_is_deterministic(escaped),
        step_is_deterministic(step),
        is_rendered_in_bands(first, bounds, first_threads, first_mappers, origin, escaped, step),
        is_rendered_in_bands(second, bounds, second_threads, second_mappers, origin, escaped, step),
        mappers_agree(bounds, first_threads, point_at, first_mappers),
        mappers_agree(bounds, second_threads, point_at, second_mappers),
    ensures
        first == second,
{
    lemma_bands_render_the_image(
        first,
        bounds,
        first_threads,
        point_at,
        first_mappers,
        origin,
        escaped,
        step,
    );
    lemma_bands_render_the_image(
        second,
        bounds,
        second_threads,
        point_at,
        second_mappers,
        origin,
        escaped,
        step,
    );
    lemma_rendering_deterministic(first, second, bounds, point_at, origin, escaped, step);
}

} // verus!
