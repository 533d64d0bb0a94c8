use vstd::prelude::*;

verus! {

/// A run of whole rows of an image: rows `top` up to, not including,
/// `top + height`.
#[derive(Clone, Copy, Debug, PartialEq, Eq, Structural)]
pub struct Band {
    /// The band's first row, counted from the top of the image.
    pub top: usize,
    /// The number of rows in the band.
    pub height: usize,
}

/// The rows that each band gets when `height` rows are shared out among
/// `workers` workers: `height / workers`, rounded up.
pub open spec fn rows_per_band_of(height: int, workers: int) -> int {
    (height + workers - 1) / workers
}

/// The number of bands that `height` rows fall into.
pub open spec fn band_count_of(height: int, workers: int) -> int {
    let rows = rows_per_band_of(height, workers);
    (height + rows - 1) / rows
}

/// The first row of band number `index`.
pub open spec fn band_top_of(index: int, height: int, workers: int) -> int {
    index * rows_per_band_of(height, workers)
}

/// The number of rows of band number `index`: the full share, or what is left
/// of the image below the band's first row if that is less.
pub open spec fn band_height_of(index: int, height: int, workers: int) -> int {
    let rows = rows_per_band_of(height, workers);
    let left = height - index * rows;
    if left < rows {
        left
    } else {
        rows
    }
}

/// Whether `row` is one of the rows of band number `index`.
pub open spec fn band_holds_row(index: int, height: int, workers: int, row: int) -> bool {
    band_top_of(index, height, workers) <= row < band_top_of(index, height, workers)
        + band_height_of(index, height, workers)
}

/// The number of the band that `row` falls into.
pub open spec fn band_of_row(row: int, height: int, workers: int) -> int {
    row / rows_per_band_of(height, workers)
}

/// `bands` is the split of `height` rows for `workers` workers.
pub open spec fn is_row_split(bands: Seq<Band>, height: int, workers: int) -> bool {
    &&& bands.len() == band_count_of(height, workers)
    &&& forall|i: int|
        0 <= i < bands.len() ==> (#[trigger] bands[i]).top == band_top_of(i, height, workers)
            && bands[i].height == band_height_of(i, height, workers)
}

/// The share of rows is the rounded-up quotient: `workers` bands of that many
/// rows hold every row, and with one row less per band they would not.
pub proof fn lemma_rows_per_band_is_ceiling(height: int, workers: int)
    requires
        height >= 1,
        workers >= 1,
    ensures
        1 <= rows_per_band_of(height, workers) <= height,
        rows_per_band_of(height, workers) * workers >= height,
        (rows_per_band_of(height, workers) - 1) * workers < height,
{
    let rows = rows_per_band_of(height, workers);
    assert(rows * workers >= height && (rows - 1) * workers < height && 1 <= rows <= height)
        by (nonlinear_arith)
        requires
            height >= 1,
            workers >= 1,
            rows == (height + workers - 1) / workers,
    ;
}

/// There is at least one band and there are at most `workers` of them; the
/// bands before the last are full, and the last one ends with the image.
pub proof fn lemma_band_count(height: int, workers: int)
    requires
        height >= 1,
        workers >= 1,
    ensures
        1 <= band_count_of(height, workers) <= workers,
        (band_count_of(height, workers) - 1) * rows_per_band_of(height, workers) < height,
        band_count_of(height, workers) * rows_per_band_of(height, workers) >= height,
{
    lemma_rows_per_band_is_ceiling(height, workers);
    let rows = rows_per_band_of(height, workers);
    let count = band_count_of(height, workers);
    assert(count * rows >= height && (count - 1) * rows < height && 1 <= count) by (nonlinear_arith)
        requires
            height >= 1,
            rows >= 1,
            count == (height + rows - 1) / rows,
    ;
    assert(count <= workers) by (nonlinear_arith)
        requires
            (count - 1) * rows < height,
            rows * workers >= height,
            rows >= 1,
    ;
}

/// The bands lie end to end: the first starts at row 0, each next one starts
/// where the one before it stops, none is empty, and the last stops at the
/// image's last row.
pub proof fn lemma_bands_tile(height: int, workers: int)
    requires
        height >= 1,
        workers >= 1,
    ensures
        band_top_of(0, height, workers) == 0,
        forall|i: int|
            0 <= i < band_count_of(height, workers) ==> #[trigger] band_height_of(
                i,
                height,
                workers,
            ) >= 1,
        forall|i: int|
            0 <= i < band_count_of(height, workers) - 1 ==> band_top_of(i, height, workers)
                + #[trigger] band_height_of(i, height, workers) == band_top_of(
                i + 1,
                height,
                workers,
            ),
        band_top_of(band_count_of(height, workers) - 1, height, workers) + band_height_of(
            band_count_of(height, workers) - 1,
            height,
            workers,
        ) == height,
{
    lemma_rows_per_band_is_ceiling(height, workers);
    lemma_band_count(height, workers);
    let rows = rows_per_band_of(height, workers);
    let count = band_count_of(height, workers);
    assert forall|i: int| 0 <= i < count implies #[trigger] band_height_of(i, height, workers)
        >= 1 by {
        assert(i * rows < height) by (nonlinear_arith)
            requires
                0 <= i <= count - 1,
                (count - 1) * rows < height,
                rows >= 1,
        ;
    }
    assert forall|i: int| 0 <= i < count - 1 implies band_top_of(i, height, workers)
        + #[trigger] band_height_of(i, height, workers) == band_top_of(i + 1, height, workers) by {
        assert(height - i * rows >= rows && (i + 1) * rows == i * rows + rows)
            by (nonlinear_arith)
            requires
                0 <= i <= count - 2,
                (count - 1) * rows < height,
                rows >= 1,
        ;
    }
    assert(height - (count - 1) * rows <= rows) by (nonlinear_arith)
        requires
            count * rows >= height,
    ;
}

/// A row of the image lies in the band that its number divided by the share
/// of rows gives, and in no other band.
pub proof fn lemma_row_has_one_band(height: int, workers: int, row: int)
    requires
        height >= 1,
        workers >= 1,
        0 <= row < height,
    ensures
        0 <= band_of_row(row, height, workers) < band_count_of(height, workers),
        band_holds_row(band_of_row(row, height, workers), height, workers, row),
        forall|i: int|
            0 <= i < band_count_of(height, workers) && #[trigger] band_holds_row(
                i,
                height,
                workers,
                row,
            ) ==> i == band_of_row(row, height, workers),
{
    lemma_rows_per_band_is_ceiling(height, workers);
    lemma_band_count(height, workers);
    let rows = rows_per_band_of(height, workers);
    let count = band_count_of(height, workers);
    let own = row / rows;
    assert(0 <= own < count && own * rows <= row < own * rows + rows) by (nonlinear_arith)
        requires
            0 <= row < height,
            rows >= 1,
            own == row / rows,
            count * rows >= height,
    ;
    assert forall|i: int|
        0 <= i < count && #[trigger] band_holds_row(i, height, workers, row) implies i == own by {
        assert(i == own) by (nonlinear_arith)
            requires
                i * rows <= row < i * rows + rows,
                own * rows <= row < own * rows + rows,
                rows >= 1,
        ;
    }
}

/// The bands share out the rows of the image: each row lies in exactly one
/// band, and no band holds a row outside the image.
pub proof fn lemma_rows_partitioned(height: int, workers: int)
    requires
        height >= 1,
        workers >= 1,
    ensures
        forall|row: int|
            0 <= row < height ==> 0 <= #[trigger] band_of_row(row, height, workers)
                < band_count_of(height, workers) && band_holds_row(
                band_of_row(row, height, workers),
                height,
                workers,
                row,
            ),
        forall|i: int, j: int, row: int|
            0 <= i < band_count_of(height, workers) && 0 <= j < band_count_of(height, workers)
                && #[trigger] band_holds_row(i, height, workers, row) && #[trigger] band_holds_row(
                j,
                height,
                workers,
                row,
            ) ==> i == j,
        forall|i: int, row: int|
            0 <= i < band_count_of(height, workers) && #[trigger] band_holds_row(
                i,
                height,
                workers,
                row,
            ) ==> 0 <= row < height,
{
    lemma_rows_per_band_is_ceiling(height, workers);
    lemma_band_count(height, workers);
    let rows = rows_per_band_of(height, workers);
    let count = band_count_of(height, workers);
    assert forall|i: int, row: int|
        0 <= i < count && #[trigger] band_holds_row(i, height, workers, row) implies 0 <= row
        < height by {
        assert(0 <= i * rows) by (nonlinear_arith)
            requires
                0 <= i,
                rows >= 1,
        ;
    }
    assert forall|row: int| 0 <= row < height implies 0 <= #[trigger] band_of_row(
        row,
        height,
        workers,
    ) < count && band_holds_row(band_of_row(row, height, workers), height, workers, row) by {
        lemma_row_has_one_band(height, workers, row);
    }
    assert forall|i: int, j: int, row: int|
        0 <= i < count && 0 <= j < count && #[trigger] band_holds_row(i, height, workers, row)
            && #[trigger] band_holds_row(j, height, workers, row) implies i == j by {
        lemma_row_has_one_band(height, workers, row);
    }
}

/// The number of rows that each band but the last one gets.
pub fn rows_per_band(height: usize, workers: usize) -> (rows: usize)
    requires
        height >= 1,
        workers >= 1,
    ensures
        rows == rows_per_band_of(height as int, workers as int),
        1 <= rows <= height,
{
    let whole: usize = height / workers;
    let rows: usize = if height % workers == 0 {
        whole
    } else {
        assert(whole < height) by (nonlinear_arith)
            requires
                height >= 1,
                workers >= 1,
                height % workers != 0,
                whole == height / workers,
        ;
        whole + 1
    };
    proof {
        lemma_rows_per_band_is_ceiling(height as int, workers as int);
        let h = height as int;
        let w = workers as int;
        assert(rows == (h + w - 1) / w) by (nonlinear_arith)
            requires
                h >= 1,
                w >= 1,
                rows == if h % w == 0 {
                    h / w
                } else {
                    h / w + 1
                },
        ;
    }
    rows
}

/// Splits the rows of an image of `height` rows into bands for `workers`
/// workers, from the top down.
pub fn partition_rows(height: usize, workers: usize) -> (bands: Vec<Band>)
    requires
        height >= 1,
        workers >= 1,
    ensures
        is_row_split(bands@, height as int, workers as int),
{
    let rows: usize = rows_per_band(height, workers);
    let mut bands: Vec<Band> = Vec::new();
    let mut top: usize = 0;
    proof {
        lemma_band_count(height as int, workers as int);
    }
    while top < height
        invariant
            height >= 1,
            workers >= 1,
            rows == rows_per_band_of(height as int, workers as int),
            rows >= 1,
            top <= height,
            top < height ==> top == bands@.len() * rows,
            top == height ==> bands@.len() == band_count_of(height as int, workers as int),
            bands@.len() <= band_count_of(height as int, workers as int),
            forall|i: int|
                0 <= i < bands@.len() ==> (#[trigger] bands@[i]).top == band_top_of(
                    i,
                    height as int,
                    workers as int,
                ) && bands@[i].height == band_height_of(i, height as int, workers as int),
        decreases height - top,
    {
        let left: usize = height - top;
        let band_height: usize = if left < rows {
            left
        } else {
            rows
        };
        proof {
            let n = bands@.len() as int;
            let count = band_count_of(height as int, workers as int);
            lemma_band_count(height as int, workers as int);
            assert(n < count && (top + band_height == height ==> n + 1 == count) && (top
                + band_height < height ==> top + band_height == (n + 1) * rows))
                by (nonlinear_arith)
                requires
                    top == n * rows,
                    top < height,
                    rows >= 1,
                    n >= 0,
                    (count - 1) * rows < height,
                    count * rows >= height,
                    band_height == if height - top < rows {
                        height - top
                    } else {
                        rows as int
                    },
            ;
        }
        bands.push(Band { top, height: band_height });
        top += band_height;
    }
    bands
}

} // verus!
