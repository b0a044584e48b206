use vstd::prelude::*;

verus! {

/// Position of cell `(x, y)` in the row-major cell array of a board that is
/// `width` cells wide.
pub open spec fn cell_index(width: int, x: int, y: int) -> int {
    y * width + x
}

/// Column and row of the cell stored at `place` of a row-major cell array.
pub open spec fn coords(width: int, place: int) -> (u8, u8) {
    ((place % width) as u8, (place / width) as u8)
}

/// Whether `(x, y)` names a cell of a `width` by `height` board.
pub open spec fn on_board(width: int, height: int, x: int, y: int) -> bool {
    0 <= x < width && 0 <= y < height
}

/// The charge a cell can hold, from where it lies: 2 in a corner, 3 on an
/// edge, 4 inside the board.
pub open spec fn position_capacity(width: int, height: int, x: int, y: int) -> int {
    let side = x == 0 || x == width - 1;
    let end = y == 0 || y == height - 1;
    if side && end {
        2
    } else if side || end {
        3
    } else {
        4
    }
}

/// Every cell of the board has a place inside the cell array.
pub proof fn lemma_cell_index_in_range(width: int, height: int, x: int, y: int)
    requires
        on_board(width, height, x, y),
    ensures
        0 <= cell_index(width, x, y) < width * height,
{
    assert(0 <= y * width + x < width * height) by (nonlinear_arith)
        requires
            0 <= x < width,
            0 <= y < height,
    ;
}

/// Two cells that share a place in the cell array are the same cell.
pub proof fn lemma_cell_index_unique(width: int, x1: int, y1: int, x2: int, y2: int)
    requires
        0 <= x1 < width,
        0 <= x2 < width,
        cell_index(width, x1, y1) == cell_index(width, x2, y2),
    ensures
        x1 == x2,
        y1 == y2,
{
    assert(y1 == y2) by (nonlinear_arith)
        requires
            0 <= x1 < width,
            0 <= x2 < width,
            y1 * width + x1 == y2 * width + x2,
    ;
}

/// Column and row are recovered from a place in the cell array by remainder
/// and quotient.
pub proof fn lemma_cell_index_split(width: int, x: int, y: int)
    requires
        0 <= x < width,
        0 <= y,
    ensures
        cell_index(width, x, y) % width == x,
        cell_index(width, x, y) / width == y,
{
    vstd::arithmetic::div_mod::lemma_fundamental_div_mod_converse(y * width + x, width, y, x);
}

/// Every place in the cell array belongs to exactly one cell of the board.
pub proof fn lemma_cell_index_join(width: int, height: int, i: int)
    requires
        0 <= i < width * height,
        0 < width,
    ensures
        on_board(width, height, i % width, i / width),
        cell_index(width, i % width, i / width) == i,
{
    vstd::arithmetic::div_mod::lemma_fundamental_div_mod(i, width);
    vstd::arithmetic::div_mod::lemma_mod_bound(i, width);
    let q = i / width;
    let r = i % width;
    assert(i == width * q + r);
    assert(q * width == width * q) by (nonlinear_arith);
    assert(0 <= q < height) by (nonlinear_arith)
        requires
            i == width * q + r,
            0 <= r < width,
            0 <= i < width * height,
    ;
}

} // verus!
