use vstd::prelude::*;
use crate::palette::{intensity, shade, ColorPolicy};

verus! {

/// The place in a buffer of the pixel in column `column` of row `row`, where
/// the buffer holds the rows one after another, each `width` pixels long.
pub open spec fn pixel_index_of(width: int, column: int, row: int) -> int {
    column + row * width
}

/// The pixel at `(column, row)` of `pixels` has the gray level that `policy`
/// gives to an escape count that `escape_at` reports for that pixel.
pub open spec fn pixel_shows<F: Fn(usize, usize) -> Option<u32>>(
    pixels: Seq<u8>,
    width: usize,
    column: usize,
    row: usize,
    policy: ColorPolicy,
    escape_at: F,
) -> bool {
    exists|escape: Option<u32>| #[trigger]
        call_ensures(escape_at, (column, row), escape) && pixels[pixel_index_of(
            width as int,
            column as int,
            row as int,
        )] == intensity(policy, escape)
}

/// `pixels` is an image of `size.0` columns and `size.1` rows in which every
/// pixel shows what `escape_at` reports for it.
pub open spec fn is_rendered<F: Fn(usize, usize) -> Option<u32>>(
    pixels: Seq<u8>,
    size: (usize, usize),
    policy: ColorPolicy,
    escape_at: F,
) -> bool {
    &&& pixels.len() == size.0 * size.1
    &&& forall|column: usize, row: usize|
        column < size.0 && row < size.1 ==> #[trigger] pixel_shows(
            pixels,
            size.0,
            column,
            row,
            policy,
            escape_at,
        )
}

/// Pixels of one image that differ in row or column lie at different places
/// of the buffer, inside the buffer, in reading order.
pub proof fn lemma_pixel_index_order(
    width: int,
    height: int,
    column: int,
    row: int,
    later_column: int,
    later_row: int,
)
    requires
        0 <= column < width,
        0 <= later_column < width,
        0 <= row,
        later_row < height,
        row < later_row || (row == later_row && column < later_column),
    ensures
        0 <= pixel_index_of(width, column, row) < pixel_index_of(width, later_column, later_row)
            < width * height,
{
    assert(0 <= column + row * width < later_column + later_row * width < width * height)
        by (nonlinear_arith)
        requires
            0 <= column < width,
            0 <= later_column < width,
            0 <= row,
            later_row < height,
            row < later_row || (row == later_row && column < later_column),
    ;
}

/// Rendering is repeatable: where `escape_at` reports one thing only for each
/// pixel, two images rendered from it with the same size and policy are the
/// same, byte for byte.
pub proof fn lemma_rendered_is_determined<F: Fn(usize, usize) -> Option<u32>>(
    first: Seq<u8>,
    second: Seq<u8>,
    size: (usize, usize),
    policy: ColorPolicy,
    escape_at: F,
)
    requires
        is_rendered(first, size, policy, escape_at),
        is_rendered(second, size, policy, escape_at),
        forall|column: usize, row: usize, one: Option<u32>, other: Option<u32>|
            #[trigger] call_ensures(escape_at, (column, row), one) && #[trigger] call_ensures(
                escape_at,
                (column, row),
                other,
            ) ==> one == other,
    ensures
        first == second,
{
    let width = size.0 as int;
    let height = size.1 as int;
    assert forall|index: int| 0 <= index < first.len() implies first[index] == second[index] by {
        assert(width > 0 && 0 <= index / width < height && 0 <= index % width < width && index
            == index % width + (index / width) * width) by (nonlinear_arith)
            requires
                0 <= index < width * height,
                0 <= width,
                0 <= height,
        ;
        let column: usize = (index % width) as usize;
        let row: usize = (index / width) as usize;
        assert(pixel_shows(first, size.0, column, row, policy, escape_at));
        assert(pixel_shows(second, size.0, column, row, policy, escape_at));
    }
    assert(first =~= second);
}

/// The place in the buffer of the pixel in column `column` of row `row`.
pub fn pixel_index(size: (usize, usize), column: usize, row: usize) -> (index: usize)
    requires
        column < size.0,
        row < size.1,
        size.0 * size.1 <= usize::MAX,
    ensures
        index == pixel_index_of(size.0 as int, column as int, row as int),
        index < size.0 * size.1,
{
    assert(0 <= row * size.0 && column + row * size.0 < size.0 * size.1) by (nonlinear_arith)
        requires
            column < size.0,
            row < size.1,
    ;
    column + row * size.0
}

/// Fills an image, or a band of one, row by row: each pixel gets the gray
/// level that `policy` gives to what `escape_at` reports for its column and
/// row.
pub fn render<F: Fn(usize, usize) -> Option<u32>>(
    pixels: &mut [u8],
    size: (usize, usize),
    policy: ColorPolicy,
    escape_at: F,
)
    requires
        old(pixels)@.len() == size.0 * size.1,
        forall|column: usize, row: usize|
            column < size.0 && row < size.1 ==> call_requires(escape_at, (column, row)),
    ensures
        is_rendered(final(pixels)@, size, policy, escape_at),
{
    assert(pixels@.len() == pixels.len());
    let mut row: usize = 0;
    while row < size.1
        invariant
            row <= size.1,
            pixels@.len() == size.0 * size.1,
            size.0 * size.1 <= usize::MAX,
            forall|column: usize, row: usize|
                column < size.0 && row < size.1 ==> call_requires(escape_at, (column, row)),
            forall|c: usize, r: usize|
                c < size.0 && r < row ==> #[trigger] pixel_shows(
                    pixels@,
                    size.0,
                    c,
                    r,
                    policy,
                    escape_at,
                ),
        decreases size.1 - row,
    {
        let mut column: usize = 0;
        while column < size.0
            invariant
                row < size.1,
                column <= size.0,
                pixels@.len() == size.0 * size.1,
                size.0 * size.1 <= usize::MAX,
                forall|column: usize, row: usize|
                    column < size.0 && row < size.1 ==> call_requires(escape_at, (column, row)),
                forall|c: usize, r: usize|
                    c < size.0 && (r < row || (r == row && c < column)) ==> #[trigger] pixel_shows(
                        pixels@,
                        size.0,
                        c,
                        r,
                        policy,
                        escape_at,
                    ),
            decreases size.0 - column,
        {
            let escape = escape_at(column, row);
            let index: usize = pixel_index(size, column, row);
            let ghost before = pixels@;
            pixels[index] = shade(policy, escape);
            proof {
                assert forall|c: usize, r: usize|
                    c < size.0 && (r < row || (r == row && c < column + 1)) implies #[trigger] pixel_shows(
                    pixels@,
                    size.0,
                    c,
                    r,
                    policy,
                    escape_at,
                ) by {
                    if r == row && c == column {
                        assert(call_ensures(escape_at, (c, r), escape));
                    } else {
                        lemma_pixel_index_order(
                            size.0 as int,
                            size.1 as int,
                            c as int,
                            r as int,
                            column as int,
                            row as int,
                        );
                        assert(pixel_shows(before, size.0, c, r, policy, escape_at));
                        let seen = choose|seen: Option<u32>| #[trigger]
                            call_ensures(escape_at, (c, r), seen) && before[pixel_index_of(
                                size.0 as int,
                                c as int,
                                r as int,
                            )] == intensity(policy, seen);
                        assert(call_ensures(escape_at, (c, r), seen));
                    }
                }
            }
            column += 1;
        }
        row += 1;
    }
}

} // verus!
