//! Row-major indexing: the cell in column `x` of row `y` of a grid with rows
//! of `width` cells sits at index `y * width + x`. Grids of cells and buffers
//! of pixels are both laid out this way.

use vstd::prelude::*;
use vstd::arithmetic::div_mod::lemma_fundamental_div_mod_converse;

verus! {

/// A cell inside the grid has its index inside the sequence, and the column
/// and the row can be read back from the index.
pub proof fn lemma_index_in_grid(width: int, height: int, x: int, y: int)
    requires
        0 <= x < width,
        0 <= y < height,
    ensures
        0 <= y * width + x < width * height,
        (y * width + x) % width == x,
        (y * width + x) / width == y,
{
    assert(y * width >= 0 && (y + 1) * width <= height * width && (y + 1) * width == y * width
        + width && width * height == height * width) by (nonlinear_arith)
        requires
            0 <= y < height,
            width > 0,
    ;
    lemma_fundamental_div_mod_converse(y * width + x, width, y, x);
}

} // verus!
