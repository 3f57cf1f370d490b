use vstd::prelude::*;

use crate::io::text::{pieces_view, split_at_chars, split_on_any, trim, trimmed};

verus! {

/// The separators between the values of a depth map in text form.
pub open spec fn depth_separators() -> Seq<char> {
    seq![' ', ',', '\n']
}

/// The value texts of a depth map: the trimmed text split at every space,
/// comma and line break.
pub open spec fn depth_tokens_spec(contents: Seq<char>) -> Seq<Seq<char>> {
    split_at_chars(trimmed(contents), depth_separators())
}

/// The position of pixel `(r, c)` in row-major order for rows of `width` pixels.
pub open spec fn cell_index(r: int, c: int, width: int) -> int {
    r * width + c
}

/// The row of the text that becomes image row `r`: the same row, or, when the
/// image is flipped vertically, the row as far from the bottom as `r` is from the top.
pub open spec fn source_row(r: int, height: int, invert_y: bool) -> int {
    if invert_y {
        height - 1 - r
    } else {
        r
    }
}

/// Laying the rows out is a reordering of whole rows: every image row takes
/// its values from one text row, flipping sends the top row to the bottom and
/// back, and without flipping every row stays where it is.
pub proof fn lemma_rows_are_reordered(height: int, invert_y: bool, r: int)
    requires
        0 <= r < height,
    ensures
        0 <= source_row(r, height, invert_y) < height,
        source_row(source_row(r, height, invert_y), height, invert_y) == r,
        !invert_y ==> source_row(r, height, invert_y) == r,
        invert_y ==> source_row(r, height, invert_y) + r == height - 1,
{
}

/// The value texts of a depth map in text form.
pub fn depth_tokens(contents: &Vec<char>) -> (tokens: Vec<Vec<char>>)
    ensures
        pieces_view(tokens@) == depth_tokens_spec(contents@),
        tokens.len() >= 1,
{
    let trimmed_contents = trim(contents);
    let separators = vec![' ', ',', '\n'];
    assert(separators@ =~= depth_separators());
    split_on_any(&trimmed_contents, &separators)
}

/// Rows of a `width` by `height` image are consecutive runs of `width` values.
proof fn lemma_cell_in_range(r: int, c: int, width: int, height: int)
    requires
        0 <= r < height,
        0 <= c < width,
    ensures
        0 <= cell_index(r, c, width) < width * height,
        cell_index(r, c, width) + 1 <= width * height,
        cell_index(r, c, width) == r * width + c,
{
    assert(0 <= r * width + c < width * height) by (nonlinear_arith)
        requires
            0 <= r < height,
            0 <= c < width,
    ;
}

/// The values of a depth map in the order of the image rows: row `r` of the
/// image holds the values of text row `source_row(r)`; each text row holds
/// `width` consecutive values.
pub fn depth_rows_in_order<T: Copy>(values: &Vec<T>, width: usize, height: usize, invert_y: bool) -> (grid: Vec<T>)
    requires
        values.len() == width * height,
        width > 0,
    ensures
        grid.len() == values.len(),
        forall|r: int, c: int|
            0 <= r < height && 0 <= c < width ==> grid@[#[trigger] cell_index(r, c, width as int)]
                == values@[cell_index(source_row(r, height as int, invert_y), c, width as int)],
{
    let mut grid = Vec::<T>::with_capacity(values.len());
    let mut r: usize = 0;
    while r < height
        invariant
            values.len() == width * height,
            width > 0,
            r <= height,
            grid.len() == r * width,
            forall|rr: int, c: int|
                0 <= rr < r && 0 <= c < width ==> grid@[#[trigger] cell_index(rr, c, width as int)]
                    == values@[cell_index(source_row(rr, height as int, invert_y), c, width as int)],
        decreases height - r,
    {
        let src: usize = if invert_y {
            height - 1 - r
        } else {
            r
        };
        assert(src == source_row(r as int, height as int, invert_y));
        let mut c: usize = 0;
        while c < width
            invariant
                values.len() == width * height,
                width > 0,
                r < height,
                src < height,
                src == source_row(r as int, height as int, invert_y),
                c <= width,
                grid.len() == r * width + c,
                forall|rr: int, cc: int|
                    0 <= rr < r && 0 <= cc < width ==> grid@[#[trigger] cell_index(rr, cc, width as int)]
                        == values@[cell_index(source_row(rr, height as int, invert_y), cc, width as int)],
                forall|cc: int|
                    0 <= cc < c ==> grid@[#[trigger] cell_index(r as int, cc, width as int)]
                        == values@[cell_index(src as int, cc, width as int)],
            decreases width - c,
        {
            proof {
                lemma_cell_in_range(src as int, c as int, width as int, height as int);
                lemma_cell_in_range(r as int, c as int, width as int, height as int);
            }
            let ghost before = grid@;
            grid.push(values[src * width + c]);
            proof {
                assert forall|rr: int, cc: int|
                    0 <= rr < r && 0 <= cc < width implies grid@[#[trigger] cell_index(rr, cc, width as int)]
                        == values@[cell_index(source_row(rr, height as int, invert_y), cc, width as int)] by {
                    assert(cell_index(rr, cc, width as int) < r * width) by (nonlinear_arith)
                        requires
                            0 <= rr < r,
                            0 <= cc < width,
                    ;
                    assert(grid@[cell_index(rr, cc, width as int)] == before[cell_index(rr, cc, width as int)]);
                }
                assert forall|cc: int| 0 <= cc < c + 1 implies grid@[#[trigger] cell_index(r as int, cc, width as int)]
                    == values@[cell_index(src as int, cc, width as int)] by {
                    if cc < c {
                        assert(grid@[cell_index(r as int, cc, width as int)] == before[cell_index(r as int, cc, width as int)]);
                    }
                }
            }
            c += 1;
        }
        assert((r + 1) * width == r * width + width) by (nonlinear_arith);
        proof {
            assert forall|rr: int, cc: int|
                0 <= rr < r + 1 && 0 <= cc < width implies grid@[#[trigger] cell_index(rr, cc, width as int)]
                    == values@[cell_index(source_row(rr, height as int, invert_y), cc, width as int)] by {
                if rr == r {
                    assert(grid@[cell_index(r as int, cc, width as int)] == values@[cell_index(src as int, cc, width as int)]);
                }
            }
        }
        r += 1;
    }
    assert(height * width == width * height) by (nonlinear_arith);
    grid
}

} // verus!
