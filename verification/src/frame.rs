use vstd::prelude::*;
use crate::bands::{
    band_count_of, band_height_of, band_of_row, band_top_of, is_row_split, lemma_band_count,
    lemma_bands_tile, lemma_row_has_one_band, lemma_rows_per_band_is_ceiling, partition_rows,
    rows_per_band_of, Band,
};
use crate::palette::{intensity, ColorPolicy};
use crate::render::{is_rendered, pixel_index_of, pixel_shows};

verus! {

/// The pieces of a buffer put one after another, in order.
pub open spec fn joined(pieces: Seq<Seq<u8>>) -> Seq<u8>
    decreases pieces.len(),
{
    if pieces.len() == 0 {
        Seq::empty()
    } else {
        joined(pieces.drop_last()) + pieces.last()
    }
}

/// The part of the buffer `pixels`, of rows `width` pixels long, that holds
/// the rows of band number `index`.
pub open spec fn band_pixels(
    pixels: Seq<u8>,
    width: int,
    index: int,
    height: int,
    workers: int,
) -> Seq<u8> {
    pixels.subrange(
        band_top_of(index, height, workers) * width,
        (band_top_of(index, height, workers) + band_height_of(index, height, workers)) * width,
    )
}

/// The number of rows of the image that lie above band number `index`; for
/// the number of bands itself, all the rows of the image.
pub open spec fn rows_above(index: int, height: int, workers: int) -> int {
    if index * rows_per_band_of(height, workers) < height {
        index * rows_per_band_of(height, workers)
    } else {
        height
    }
}

/// `pieces` has one piece for each band of the row split, each as long as its
/// band's rows.
pub open spec fn are_band_pieces(
    pieces: Seq<Seq<u8>>,
    width: int,
    height: int,
    workers: int,
) -> bool {
    &&& pieces.len() == band_count_of(height, workers)
    &&& forall|i: int|
        0 <= i < pieces.len() ==> (#[trigger] pieces[i]).len() == band_height_of(
            i,
            height,
            workers,
        ) * width
}

/// The first `count` band pieces, joined, are the rows above band number
/// `count`, with each piece at the place of its band.
pub proof fn lemma_joined_prefix(
    pieces: Seq<Seq<u8>>,
    width: int,
    height: int,
    workers: int,
    count: int,
)
    requires
        height >= 1,
        workers >= 1,
        width >= 0,
        are_band_pieces(pieces, width, height, workers),
        0 <= count <= pieces.len(),
    ensures
        joined(pieces.take(count)).len() == rows_above(count, height, workers) * width,
        forall|i: int|
            0 <= i < count ==> #[trigger] band_pixels(
                joined(pieces.take(count)),
                width,
                i,
                height,
                workers,
            ) == pieces[i],
    decreases count,
{
    lemma_rows_per_band_is_ceiling(height, workers);
    lemma_band_count(height, workers);
    lemma_bands_tile(height, workers);
    let rows = rows_per_band_of(height, workers);
    let bands = band_count_of(height, workers);
    if count == 0 {
        assert(0 * rows == 0) by (nonlinear_arith);
        assert(0 * width == 0) by (nonlinear_arith);
    } else {
        let last = count - 1;
        let shorter = joined(pieces.take(last));
        let longer = joined(pieces.take(count));
        let top = band_top_of(last, height, workers);
        let own = band_height_of(last, height, workers);
        lemma_joined_prefix(pieces, width, height, workers, last);
        assert(pieces.take(count).drop_last() =~= pieces.take(last));
        assert(pieces.take(count).last() == pieces[last]);
        assert(longer == shorter + pieces[last]);
        assert(last * rows < height) by (nonlinear_arith)
            requires
                0 <= last <= bands - 1,
                (bands - 1) * rows < height,
                rows >= 1,
        ;
        assert(rows_above(last, height, workers) == top);
        assert(rows_above(count, height, workers) == top + own) by {
            assert(count * rows == last * rows + rows) by (nonlinear_arith)
                requires
                    count == last + 1,
            ;
        }
        assert((top + own) * width == top * width + own * width) by (nonlinear_arith);
        assert forall|i: int| 0 <= i < count implies #[trigger] band_pixels(
            longer,
            width,
            i,
            height,
            workers,
        ) == pieces[i] by {
            let from = band_top_of(i, height, workers);
            let rows_here = band_height_of(i, height, workers);
            if i < last {
                assert(0 <= from * width <= (from + rows_here) * width <= top * width)
                    by (nonlinear_arith)
                    requires
                        from == i * rows,
                        0 <= i < last,
                        top == last * rows,
                        0 <= rows_here <= rows,
                        width >= 0,
                        rows >= 1,
                ;
                assert(band_pixels(shorter, width, i, height, workers) == pieces[i]);
                assert(band_pixels(longer, width, i, height, workers) =~= band_pixels(
                    shorter,
                    width,
                    i,
                    height,
                    workers,
                ));
            } else {
                assert(band_pixels(longer, width, i, height, workers) =~= pieces[i]);
            }
        }
    }
}

/// The band pieces of an image, joined, make up its buffer: the buffer is as
/// long as the image has pixels, and each piece lies at the place of its
/// band's rows, so that no pixel is left out and none belongs to two pieces.
pub proof fn lemma_joined_bands(pieces: Seq<Seq<u8>>, width: int, height: int, workers: int)
    requires
        height >= 1,
        workers >= 1,
        width >= 0,
        are_band_pieces(pieces, width, height, workers),
    ensures
        joined(pieces).len() == width * height,
        forall|i: int|
            0 <= i < pieces.len() ==> #[trigger] band_pixels(
                joined(pieces),
                width,
                i,
                height,
                workers,
            ) == pieces[i],
{
    lemma_band_count(height, workers);
    lemma_joined_prefix(pieces, width, height, workers, pieces.len() as int);
    assert(pieces.take(pieces.len() as int) =~= pieces);
    assert(height * width == width * height) by (nonlinear_arith);
}

/// Rendering band by band renders the image, whatever the number of workers:
/// where each band piece shows what its own `evaluators` entry reports, and
/// that entry reports for a pixel of the band what `whole` reports for the
/// same pixel of the image, the joined pieces show what `whole` reports.
pub proof fn lemma_rendered_bands_make_image<
    F: Fn(usize, usize) -> Option<u32>,
    G: Fn(usize, usize) -> Option<u32>,
>(
    pieces: Seq<Seq<u8>>,
    evaluators: Seq<F>,
    whole: G,
    size: (usize, usize),
    workers: usize,
    policy: ColorPolicy,
)
    requires
        size.1 >= 1,
        workers >= 1,
        pieces.len() == band_count_of(size.1 as int, workers as int),
        evaluators.len() == pieces.len(),
        forall|i: int|
            0 <= i < pieces.len() ==> is_rendered(
                #[trigger] pieces[i],
                (size.0, band_height_of(i, size.1 as int, workers as int) as usize),
                policy,
                evaluators[i],
            ),
        forall|i: int, column: usize, row: usize, escape: Option<u32>|
            0 <= i < pieces.len() && column < size.0 && row < band_height_of(
                i,
                size.1 as int,
                workers as int,
            ) && #[trigger] call_ensures(evaluators[i], (column, row), escape) ==> call_ensures(
                whole,
                (column, (band_top_of(i, size.1 as int, workers as int) + row) as usize),
                escape,
            ),
    ensures
        is_rendered(joined(pieces), size, policy, whole),
{
    let width = size.0 as int;
    let height = size.1 as int;
    let share = workers as int;
    let rows = rows_per_band_of(height, share);
    let image = joined(pieces);
    lemma_rows_per_band_is_ceiling(height, share);
    lemma_band_count(height, share);
    lemma_bands_tile(height, share);
    assert forall|i: int| 0 <= i < pieces.len() implies 0 <= band_height_of(i, height, share)
        <= height && 0 <= band_top_of(i, height, share) by {
        assert(0 <= i * rows) by (nonlinear_arith)
            requires
                0 <= i,
                rows >= 1,
        ;
    }
    assert(are_band_pieces(pieces, width, height, share)) by {
        assert forall|i: int| 0 <= i < pieces.len() implies (#[trigger] pieces[i]).len()
            == band_height_of(i, height, share) * width by {
            let own = band_height_of(i, height, share);
            assert(is_rendered(pieces[i], (size.0, own as usize), policy, evaluators[i]));
            assert(size.0 * own == own * width) by (nonlinear_arith)
                requires
                    width == size.0,
            ;
        }
    }
    lemma_joined_bands(pieces, width, height, share);
    assert forall|column: usize, row: usize| column < size.0 && row < size.1 implies #[trigger] pixel_shows(
        image,
        size.0,
        column,
        row,
        policy,
        whole,
    ) by {
        lemma_row_has_one_band(height, share, row as int);
        let i = band_of_row(row as int, height, share);
        let top = band_top_of(i, height, share);
        let own = band_height_of(i, height, share);
        let inner: usize = (row - top) as usize;
        assert(is_rendered(pieces[i], (size.0, own as usize), policy, evaluators[i]));
        assert(pixel_shows(pieces[i], size.0, column, inner, policy, evaluators[i]));
        let escape = choose|escape: Option<u32>| #[trigger]
            call_ensures(evaluators[i], (column, inner), escape) && pieces[i][pixel_index_of(
                width,
                column as int,
                inner as int,
            )] == intensity(policy, escape);
        assert(call_ensures(whole, (column, (top + inner) as usize), escape));
        assert(band_pixels(image, width, i, height, share) == pieces[i]);
        assert(0 <= column + inner * width < own * width && top * width + (column + inner * width)
            == column + row * width && 0 <= top * width && (top + own) * width == top * width + own
            * width && (top + own) * width <= width * height) by (nonlinear_arith)
            requires
                0 <= column < width,
                0 <= inner < own,
                row == top + inner,
                0 <= top,
                top + own <= height,
        ;
        assert(image[pixel_index_of(width, column as int, row as int)] == pieces[i][pixel_index_of(
            width,
            column as int,
            inner as int,
        )]);
    }
}

/// A buffer for an image of `size.0` columns and `size.1` rows, one byte for
/// each pixel, all of them 0.
pub fn blank_frame(size: (usize, usize)) -> (pixels: Vec<u8>)
    requires
        size.0 * size.1 <= usize::MAX,
    ensures
        pixels@ == Seq::new((size.0 * size.1) as nat, |i: int| 0u8),
{
    let pixels: Vec<u8> = vec![0u8; size.0 * size.1];
    assert(pixels@ =~= Seq::new((size.0 * size.1) as nat, |i: int| 0u8));
    pixels
}

/// Hands out the buffer of an image band by band: each band of the row split
/// comes with the part of the buffer that holds its rows, and the parts
/// together, in order, are the whole buffer.
pub fn split_bands<'a>(pixels: &'a mut [u8], size: (usize, usize), workers: usize) -> (jobs: Vec<
    (Band, &'a mut [u8]),
>)
    requires
        size.1 >= 1,
        workers >= 1,
        old(pixels)@.len() == size.0 * size.1,
    ensures
        jobs@.len() == band_count_of(size.1 as int, workers as int),
        forall|i: int|
            0 <= i < jobs@.len() ==> (#[trigger] jobs@[i]).0.top == band_top_of(
                i,
                size.1 as int,
                workers as int,
            ) && jobs@[i].0.height == band_height_of(i, size.1 as int, workers as int),
        forall|i: int|
            0 <= i < jobs@.len() ==> (#[trigger] jobs@[i]).1@ == band_pixels(
                old(pixels)@,
                size.0 as int,
                i,
                size.1 as int,
                workers as int,
            ),
        final(pixels)@ == joined(Seq::new(jobs@.len(), |i: int| final(jobs@[i].1)@)),
{
    let ghost at_start = pixels@;
    let ghost at_end = final(pixels)@;
    let ghost height = size.1 as int;
    let ghost share = workers as int;
    let ghost mut offset: int = 0;
    let bands: Vec<Band> = partition_rows(size.1, workers);
    let mut rest: &'a mut [u8] = pixels;
    let mut jobs: Vec<(Band, &'a mut [u8])> = Vec::new();
    let mut index: usize = 0;
    proof {
        assert(rest@.len() == rest.len());
        lemma_bands_tile(height, share);
        lemma_band_count(height, share);
        assert(Seq::new(jobs@.len(), |i: int| final(jobs@[i].1)@) =~= Seq::<Seq<u8>>::empty());
        assert(rest@ =~= at_start.subrange(0, at_start.len() as int));
    }
    while index < bands.len()
        invariant
            height == size.1,
            share == workers,
            height >= 1,
            share >= 1,
            at_start.len() == size.0 * size.1,
            at_start.len() <= usize::MAX,
            is_row_split(bands@, height, share),
            index <= bands@.len(),
            jobs@.len() == index,
            0 <= offset <= at_start.len(),
            rest@ == at_start.subrange(offset, at_start.len() as int),
            index < bands@.len() ==> offset == band_top_of(index as int, height, share) * size.0,
            index == bands@.len() ==> offset == at_start.len(),
            forall|i: int|
                0 <= i < index ==> (#[trigger] jobs@[i]).0 == bands@[i] && jobs@[i].1@
                    == band_pixels(at_start, size.0 as int, i, height, share),
            at_end == joined(Seq::new(jobs@.len(), |i: int| final(jobs@[i].1)@)) + final(rest)@,
        decreases bands@.len() - index,
    {
        let band: Band = bands[index];
        let ghost done = jobs@;
        let ghost top = band_top_of(index as int, height, share);
        let ghost rows = band_height_of(index as int, height, share);
        proof {
            lemma_bands_tile(height, share);
            lemma_band_count(height, share);
            assert(rows >= 1);
            assert(top + rows <= height && (index + 1 < bands@.len() ==> top + rows == band_top_of(
                index + 1,
                height,
                share,
            )) && (index + 1 == bands@.len() ==> top + rows == height));
            assert(0 <= top * size.0 <= (top + rows) * size.0 <= size.0 * size.1 && (top + rows)
                * size.0 - top * size.0 == rows * size.0 && size.1 * size.0 == size.0 * size.1)
                by (nonlinear_arith)
                requires
                    0 <= top,
                    0 <= rows,
                    top + rows <= size.1,
            ;
        }
        let (head, tail) = rest.split_at_mut(band.height * size.0);
        proof {
            assert(head@ =~= band_pixels(at_start, size.0 as int, index as int, height, share));
            assert(tail@ =~= at_start.subrange((top + rows) * size.0, at_start.len() as int));
            offset = (top + rows) * size.0;
        }
        jobs.push((band, head));
        rest = tail;
        proof {
            assert(jobs@.drop_last() =~= done);
            assert(Seq::new(jobs@.len(), |i: int| final(jobs@[i].1)@).drop_last() =~= Seq::new(
                done.len(),
                |i: int| final(done[i].1)@,
            ));
        }
        index += 1;
    }
    jobs
}

} // verus!
