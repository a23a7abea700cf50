//! Tables laid out row by row in one list.
use vstd::prelude::*;

verus! {

/// The place of a cell: inside the table, and found again by division.
pub proof fn cell_place(rows: int, width: int, row: int, column: int)
    requires
        0 <= row < rows,
        0 <= column < width,
    ensures
        0 <= row * width <= row * width + column < rows * width,
        (row + 1) * width == row * width + width,
        (row + 1) * width <= rows * width,
        (row * width + column) / width == row,
        (row * width + column) % width == column,
{
    assert((row + 1) * width == row * width + width) by (nonlinear_arith);
    assert(row * width >= 0) by (nonlinear_arith)
        requires
            row >= 0,
            width > 0,
    ;
    assert((row + 1) * width <= rows * width) by (nonlinear_arith)
        requires
            row + 1 <= rows,
            width > 0,
    ;
    vstd::arithmetic::div_mod::lemma_fundamental_div_mod_converse(
        row * width + column,
        width,
        row,
        column,
    );
}

} // verus!
