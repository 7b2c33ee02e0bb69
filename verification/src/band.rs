//! The partition of an image into bands: runs of whole rows that lie one
//! after another in the pixel buffer, so that each can be handed to a worker
//! of its own.

use vstd::prelude::*;

verus! {

/// A band as the contracts see it: its first row, counted from the top of
/// the image, and its own width and height in pixels.
pub struct BandShape {
    pub top: int,
    pub width: int,
    pub height: int,
}

impl BandShape {
    /// The slot of the band's first pixel in the buffer of the whole image.
    pub open spec fn offset(self) -> int {
        self.top * self.width
    }

    /// The number of pixels of the band.
    pub open spec fn len(self) -> int {
        self.width * self.height
    }

    /// The slot behind the band's last pixel.
    pub open spec fn end(self) -> int {
        self.offset() + self.len()
    }

    /// The band holds the given slot of the image's buffer.
    pub open spec fn holds(self, slot: int) -> bool {
        self.offset() <= slot < self.end()
    }
}

/// The number of rows of every band but the last: the rows of the image
/// divided among the workers, rounded down, and one more.
pub open spec fn rows_per_band_spec(height: int, threads: int) -> int {
    height / threads + 1
}

/// The number of bands: as many as it takes to hold all rows of the image,
/// with the last band possibly shorter than the others.
pub open spec fn band_count(height: int, threads: int) -> int {
    let rows = rows_per_band_spec(height, threads);
    (height + rows - 1) / rows
}

/// The shape of band `i` of an image of `width` by `height` pixels that is
/// divided among `threads` workers.
pub open spec fn band_at(width: int, height: int, threads: int, i: int) -> BandShape {
    let rows = rows_per_band_spec(height, threads);
    let top = i * rows;
    BandShape { top, width, height: if height - top < rows { height - top } else { rows } }
}

/// A band of an image: a run of whole rows, to be rendered by one worker.
#[derive(Clone, Copy, Debug)]
pub struct Band {
    top: usize,
    width: usize,
    height: usize,
}

impl View for Band {
    type V = BandShape;

    closed spec fn view(&self) -> BandShape {
        BandShape { top: self.top as int, width: self.width as int, height: self.height as int }
    }
}

impl Band {
    /// A band has columns, and ends inside a buffer that the machine can
    /// address.
    #[verifier::type_invariant]
    spec fn addressable(self) -> bool {
        &&& 0 < self.width
        &&& (self.top + self.height) * self.width <= usize::MAX
    }

    /// The band's first row, counted from the top of the image.
    pub fn top(&self) -> (top: usize)
        ensures
            top == self@.top,
    {
        self.top
    }

    /// The band's own width and height in pixels.
    pub fn bounds(&self) -> (bounds: (usize, usize))
        ensures
            bounds.0 == self@.width,
            bounds.1 == self@.height,
    {
        (self.width, self.height)
    }

    /// The slot of the band's first pixel in the buffer of the whole image.
    pub fn offset(&self) -> (offset: usize)
        ensures
            offset == self@.offset(),
    {
        proof {
            use_type_invariant(self);
            assert(0 <= self.top * self.width <= (self.top + self.height) * self.width)
                by (nonlinear_arith);
        }
        self.top * self.width
    }

    /// The number of pixels of the band.
    pub fn len(&self) -> (len: usize)
        ensures
            len == self@.len(),
    {
        proof {
            use_type_invariant(self);
            assert(0 <= self.width * self.height <= (self.top + self.height) * self.width)
                by (nonlinear_arith);
        }
        self.width * self.height
    }

    /// The pixel of the whole image at the band's upper left corner.
    pub fn upper_left_pixel(&self) -> (pixel: (usize, usize))
        ensures
            pixel.0 == 0,
            pixel.1 == self@.top,
    {
        (0, self.top)
    }

    /// The pixel of the whole image just past the band's lower right corner:
    /// one column beyond its last column, in the row below its last row.
    pub fn lower_right_pixel(&self) -> (pixel: (usize, usize))
        ensures
            pixel.0 == self@.width,
            pixel.1 == self@.top + self@.height,
    {
        proof {
            use_type_invariant(self);
            assert(self.top + self.height <= (self.top + self.height) * self.width)
                by (nonlinear_arith)
                requires
                    0 < self.width,
            ;
        }
        (self.width, self.top + self.height)
    }
}

/// The number of rows that each band but the last is given.
pub fn rows_per_band(height: usize, threads: usize) -> (rows: usize)
    requires
        threads > 0,
        height / threads < usize::MAX,
    ensures
        rows == rows_per_band_spec(height as int, threads as int),
{
    height / threads + 1
}

/// Divides an image of `bounds.0` by `bounds.1` pixels into bands for
/// `threads` workers, from the top of the image down.
///
/// Every band but the last has `bounds.1 / threads + 1` rows, and the last
/// has the rows that are left. The bands lie one after another in the
/// image's buffer and cover it: see [`lemma_partition_complete`].
pub fn partition(bounds: (usize, usize), threads: usize) -> (bands: Vec<Band>)
    requires
        bounds.0 > 0,
        threads > 0,
        bounds.0 * bounds.1 <= usize::MAX,
        bounds.1 / threads < usize::MAX,
    ensures
        bands@.len() == band_count(bounds.1 as int, threads as int),
        forall|i: int|
            0 <= i < bands@.len() ==> (#[trigger] bands@[i])@ == band_at(
                bounds.0 as int,
                bounds.1 as int,
                threads as int,
                i,
            ),
{
    let width: usize = bounds.0;
    let height: usize = bounds.1;
    let rows: usize = rows_per_band(height, threads);
    let ghost count = band_count(height as int, threads as int);
    let mut bands: Vec<Band> = Vec::new();
    let mut top: usize = 0;
    proof {
        lemma_band_count_sign(height as int, threads as int);
    }
    while top < height
        invariant
            0 < width,
            0 < threads,
            width * height <= usize::MAX,
            rows == rows_per_band_spec(height as int, threads as int),
            count == band_count(height as int, threads as int),
            bands@.len() <= count,
            bands@.len() < count ==> top == bands@.len() * rows,
            bands@.len() == count ==> top == height,
            forall|i: int|
                0 <= i < bands@.len() ==> (#[trigger] bands@[i])@ == band_at(
                    width as int,
                    height as int,
                    threads as int,
                    i,
                ),
        decreases height - top,
    {
        let ghost i = bands@.len() as int;
        proof {
            lemma_band_rows(height as int, threads as int, i);
            assert((i + 1) * rows == i * rows + rows) by (nonlinear_arith);
        }
        let band_height: usize = if height - top < rows {
            height - top
        } else {
            rows
        };
        proof {
            assert((top + band_height) * width <= height * width) by (nonlinear_arith)
                requires
                    top + band_height <= height,
                    0 < width,
            ;
            assert(height * width == width * height) by (nonlinear_arith);
        }
        bands.push(Band { top, width, height: band_height });
        top = top + band_height;
    }
    proof {
        if bands@.len() < count {
            lemma_band_rows(height as int, threads as int, bands@.len() as int);
        }
    }
    bands
}

/// A band has at least one row, and the band count is the least number of
/// bands of that many rows that hold all rows of the image.
proof fn lemma_rows_bracket_height(height: int, threads: int)
    requires
        0 <= height,
        0 < threads,
    ensures
        0 < rows_per_band_spec(height, threads),
        (band_count(height, threads) - 1) * rows_per_band_spec(height, threads) < height,
        height <= band_count(height, threads) * rows_per_band_spec(height, threads),
{
    let rows = rows_per_band_spec(height, threads);
    let count = band_count(height, threads);
    assert(0 < rows) by (nonlinear_arith)
        requires
            0 <= height,
            0 < threads,
            rows == height / threads + 1,
    ;
    assert((count - 1) * rows < height <= count * rows) by (nonlinear_arith)
        requires
            0 < rows,
            count == (height + rows - 1) / rows,
    ;
}

/// The rows of all bands but the last lie strictly inside the image, and the
/// rows of the last one reach its bottom.
proof fn lemma_band_rows(height: int, threads: int, i: int)
    requires
        0 <= height,
        0 < threads,
        0 <= i < band_count(height, threads),
    ensures
        0 < rows_per_band_spec(height, threads),
        0 <= i * rows_per_band_spec(height, threads) < height,
        i + 1 < band_count(height, threads) ==> (i + 1) * rows_per_band_spec(height, threads)
            < height,
        i + 1 == band_count(height, threads) ==> height <= (i + 1) * rows_per_band_spec(
            height,
            threads,
        ),
{
    let rows = rows_per_band_spec(height, threads);
    let count = band_count(height, threads);
    lemma_rows_bracket_height(height, threads);
    assert(0 <= i * rows <= (count - 1) * rows) by (nonlinear_arith)
        requires
            0 <= i <= count - 1,
            0 < rows,
    ;
    if i + 1 < count {
        assert((i + 1) * rows <= (count - 1) * rows) by (nonlinear_arith)
            requires
                i + 1 <= count - 1,
                0 < rows,
        ;
    }
}

/// An image without rows has no bands, and any other has at least one.
proof fn lemma_band_count_sign(height: int, threads: int)
    requires
        0 <= height,
        0 < threads,
    ensures
        0 <= band_count(height, threads),
        height == 0 <==> band_count(height, threads) == 0,
{
    let rows = rows_per_band_spec(height, threads);
    let count = band_count(height, threads);
    lemma_rows_bracket_height(height, threads);
    assert(0 <= count && (height == 0 <==> count == 0)) by (nonlinear_arith)
        requires
            0 <= height,
            0 < rows,
            (count - 1) * rows < height <= count * rows,
    ;
}

/// Every band has rows, all of them rows of the image; every band but the
/// last has the full number of rows, and the last ends with the image.
pub proof fn lemma_band_extent(width: int, height: int, threads: int, i: int)
    requires
        0 < width,
        0 <= height,
        0 < threads,
        0 <= i < band_count(height, threads),
    ensures
        band_at(width, height, threads, i).width == width,
        band_at(width, height, threads, i).top == i * rows_per_band_spec(height, threads),
        0 < band_at(width, height, threads, i).height <= rows_per_band_spec(height, threads),
        i + 1 < band_count(height, threads) ==> band_at(width, height, threads, i).height
            == rows_per_band_spec(height, threads),
        i + 1 == band_count(height, threads) ==> band_at(width, height, threads, i).top + band_at(
            width,
            height,
            threads,
            i,
        ).height == height,
        0 <= band_at(width, height, threads, i).top,
        band_at(width, height, threads, i).top + band_at(width, height, threads, i).height
            <= height,
{
    lemma_band_rows(height, threads, i);
    let rows = rows_per_band_spec(height, threads);
    assert((i + 1) * rows == i * rows + rows) by (nonlinear_arith);
}

/// The bands lie one after another in the buffer: the first starts at slot
/// 0, each later one starts where the one before it ends, and the last ends
/// with the buffer. No band is empty.
pub proof fn lemma_bands_adjacent(width: int, height: int, threads: int, i: int)
    requires
        0 < width,
        0 <= height,
        0 < threads,
        0 <= i < band_count(height, threads),
    ensures
        band_at(width, height, threads, i).offset() < band_at(width, height, threads, i).end(),
        i == 0 ==> band_at(width, height, threads, i).offset() == 0,
        i + 1 < band_count(height, threads) ==> band_at(width, height, threads, i + 1).offset()
            == band_at(width, height, threads, i).end(),
        i + 1 == band_count(height, threads) ==> band_at(width, height, threads, i).end() == width
            * height,
{
    lemma_band_extent(width, height, threads, i);
    let band = band_at(width, height, threads, i);
    assert(band.end() == (band.top + band.height) * width) by (nonlinear_arith)
        requires
            band.end() == band.top * band.width + band.width * band.height,
            band.width == width,
    ;
    assert(band.offset() < band.end()) by (nonlinear_arith)
        requires
            band.end() == band.top * band.width + band.width * band.height,
            band.offset() == band.top * band.width,
            0 < band.width,
            0 < band.height,
    ;
    if i == 0 {
        assert(band.top * band.width == 0) by (nonlinear_arith)
            requires
                band.top == i * rows_per_band_spec(height, threads),
                i == 0,
        ;
    }
    if i + 1 < band_count(height, threads) {
        let rows = rows_per_band_spec(height, threads);
        assert((i + 1) * rows == i * rows + rows) by (nonlinear_arith);
    } else {
        assert(height * width == width * height) by (nonlinear_arith);
    }
}

/// The band count never exceeds the number of workers.
pub proof fn lemma_band_count_at_most_threads(height: int, threads: int)
    requires
        0 <= height,
        0 < threads,
    ensures
        0 <= band_count(height, threads) <= threads,
{
    lemma_band_count_sign(height, threads);
    let rows = rows_per_band_spec(height, threads);
    let count = band_count(height, threads);
    if count > 0 {
        lemma_band_rows(height, threads, count - 1);
        assert(height < threads * rows) by (nonlinear_arith)
            requires
                0 <= height,
                0 < threads,
                rows == height / threads + 1,
        ;
        assert(count - 1 < threads) by (nonlinear_arith)
            requires
                (count - 1) * rows < height,
                height < threads * rows,
                0 < rows,
        ;
    }
}

/// The band that holds a slot of the buffer: the one that its row falls in.
pub open spec fn band_of_slot(width: int, height: int, threads: int, slot: int) -> int {
    (slot / width) / rows_per_band_spec(height, threads)
}

/// Every slot of the buffer lies in the band that its row falls in.
pub proof fn lemma_slot_is_held(width: int, height: int, threads: int, slot: int)
    requires
        0 < width,
        0 <= height,
        0 < threads,
        0 <= slot < width * height,
    ensures
        0 <= band_of_slot(width, height, threads, slot) < band_count(height, threads),
        band_at(width, height, threads, band_of_slot(width, height, threads, slot)).holds(slot),
{
    let rows = rows_per_band_spec(height, threads);
    let count = band_count(height, threads);
    let row = slot / width;
    let i = row / rows;
    lemma_rows_bracket_height(height, threads);
    assert(0 <= row < height && row * width <= slot < (row + 1) * width) by (nonlinear_arith)
        requires
            0 < width,
            0 <= slot < width * height,
            row == slot / width,
    ;
    assert(0 <= i && i * rows <= row < (i + 1) * rows) by (nonlinear_arith)
        requires
            0 < rows,
            0 <= row,
            i == row / rows,
    ;
    assert(i < count) by (nonlinear_arith)
        requires
            i * rows <= row,
            row < height,
            height <= count * rows,
            0 < rows,
    ;
    lemma_band_extent(width, height, threads, i);
    let band = band_at(width, height, threads, i);
    assert((i + 1) * rows == i * rows + rows) by (nonlinear_arith);
    assert(band.top <= row < band.top + band.height);
    assert(band.top * width <= row * width && (row + 1) * width <= (band.top + band.height)
        * width) by (nonlinear_arith)
        requires
            band.top <= row,
            row + 1 <= band.top + band.height,
            0 < width,
    ;
    assert((band.top + band.height) * width == band.top * width + width * band.height)
        by (nonlinear_arith);
}

/// Two different bands share no slot.
pub proof fn lemma_bands_disjoint(width: int, height: int, threads: int, i: int, j: int, slot: int)
    requires
        0 < width,
        0 <= height,
        0 < threads,
        0 <= i < band_count(height, threads),
        0 <= j < band_count(height, threads),
        band_at(width, height, threads, i).holds(slot),
        band_at(width, height, threads, j).holds(slot),
    ensures
        i == j,
{
    if i < j {
        lemma_bands_ordered(width, height, threads, i, j);
    } else if j < i {
        lemma_bands_ordered(width, height, threads, j, i);
    }
}

/// An earlier band ends before a later band starts.
proof fn lemma_bands_ordered(width: int, height: int, threads: int, i: int, j: int)
    requires
        0 < width,
        0 <= height,
        0 < threads,
        0 <= i < j < band_count(height, threads),
    ensures
        band_at(width, height, threads, i).end() <= band_at(width, height, threads, j).offset(),
{
    lemma_band_extent(width, height, threads, i);
    lemma_band_extent(width, height, threads, j);
    let rows = rows_per_band_spec(height, threads);
    let early = band_at(width, height, threads, i);
    let late = band_at(width, height, threads, j);
    assert(early.top + early.height <= late.top) by (nonlinear_arith)
        requires
            early.top == i * rows,
            early.height <= rows,
            late.top == j * rows,
            i + 1 <= j,
            0 < rows,
    ;
    assert(early.top * width + width * early.height <= late.top * width) by (nonlinear_arith)
        requires
            early.top + early.height <= late.top,
            0 < width,
    ;
}

/// The slots that the bands of a partition hold between them.
pub open spec fn partition_slots(width: int, height: int, threads: int) -> Set<int> {
    Set::new(
        |slot: int|
            exists|i: int|
                0 <= i < band_count(height, threads) && #[trigger] band_at(
                    width,
                    height,
                    threads,
                    i,
                ).holds(slot),
    )
}

/// The partition is complete: whatever the number of workers, and whether or
/// not it divides the number of rows, the bands between them hold exactly
/// the slots of the image's buffer, and no slot lies in two bands.
pub proof fn lemma_partition_complete(width: int, height: int, threads: int)
    requires
        0 < width,
        0 <= height,
        0 < threads,
    ensures
        partition_slots(width, height, threads) == Set::new(
            |slot: int| 0 <= slot < width * height,
        ),
        forall|i: int, j: int, slot: int|
            #![trigger band_at(width, height, threads, i).holds(slot), band_at(width, height, threads, j).holds(slot)]
            {
                &&& 0 <= i < band_count(height, threads)
                &&& 0 <= j < band_count(height, threads)
                &&& band_at(width, height, threads, i).holds(slot)
                &&& band_at(width, height, threads, j).holds(slot)
            } ==> i == j,
{
    let buffer = Set::new(|slot: int| 0 <= slot < width * height);
    assert forall|slot: int| partition_slots(width, height, threads).contains(slot) implies buffer.contains(
        slot,
    ) by {
        let i = choose|i: int|
            0 <= i < band_count(height, threads) && #[trigger] band_at(
                width,
                height,
                threads,
                i,
            ).holds(slot);
        lemma_band_extent(width, height, threads, i);
        let band = band_at(width, height, threads, i);
        assert(0 <= band.top * width && band.top * width + width * band.height <= width * height)
            by (nonlinear_arith)
            requires
                0 <= band.top,
                band.top + band.height <= height,
                0 < width,
        ;
    }
    assert forall|slot: int| buffer.contains(slot) implies partition_slots(
        width,
        height,
        threads,
    ).contains(slot) by {
        lemma_slot_is_held(width, height, threads, slot);
    }
    assert(partition_slots(width, height, threads) =~= buffer);
    assert forall|i: int, j: int, slot: int|
        #![trigger band_at(width, height, threads, i).holds(slot), band_at(width, height, threads, j).holds(slot)]
        {
            &&& 0 <= i < band_count(height, threads)
            &&& 0 <= j < band_count(height, threads)
            &&& band_at(width, height, threads, i).holds(slot)
            &&& band_at(width, height, threads, j).holds(slot)
        } implies i == j by {
        lemma_bands_disjoint(width, height, threads, i, j, slot);
    }
}

} // verus!
