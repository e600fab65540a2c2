//! Distances on a bounded rectangular grid whose cells are numbered row by
//! row: the cell in column `x` of row `y` has the index `y * width + x`.

use vstd::prelude::*;
use vstd::arithmetic::div_mod::{lemma_fundamental_div_mod, lemma_fundamental_div_mod_converse};

verus! {

/// Distance between two coordinates on one axis.
pub open spec fn span(a: int, b: int) -> int {
    if a >= b {
        a - b
    } else {
        b - a
    }
}

/// Manhattan distance between the positions that two indices decompose to
/// on a grid of the given width. Neither index needs to lie on the grid.
pub open spec fn manhattan(width: int, a: int, b: int) -> int {
    span(a % width, b % width) + span(a / width, b / width)
}

/// `cell` lies on the `width` x `height` grid, at most `distance` steps
/// away from the position that `origin` decomposes to.
pub open spec fn within(width: int, height: int, origin: int, distance: int, cell: int) -> bool {
    0 <= cell < width * height && manhattan(width, cell, origin) <= distance
}

/// All cells of the grid at most `distance` steps away from `origin`.
pub open spec fn cells_within(width: usize, height: usize, origin: usize, distance: int) -> Set<
    usize,
> {
    Set::new(|cell: usize| within(width as int, height as int, origin as int, distance, cell as int))
}

/// `cell` is within `distance` of `origin` and comes, in a scan that goes
/// column by column and down each column, before the cell in column `col`
/// of row `row`.
pub open spec fn scanned(
    width: int,
    height: int,
    origin: int,
    distance: int,
    col: int,
    row: int,
    cell: int,
) -> bool {
    within(width, height, origin, distance, cell) && (cell % width < col || (cell % width == col
        && cell / width < row))
}

/// The index built from a row and a column decomposes to that row and column,
/// and lies on the grid when both do.
pub proof fn lemma_cell_index(width: int, height: int, row: int, col: int)
    requires
        0 <= col < width,
        0 <= row,
    ensures
        (row * width + col) % width == col,
        (row * width + col) / width == row,
        0 <= row * width + col,
        row < height ==> row * width + col < width * height,
{
    lemma_fundamental_div_mod_converse(row * width + col, width, row, col);
    assert(0 <= row * width) by (nonlinear_arith)
        requires
            0 <= row,
            0 < width,
    ;
    if row < height {
        assert(row * width + width <= width * height) by (nonlinear_arith)
            requires
                row + 1 <= height,
                0 < width,
        ;
    }
}

/// An index decomposes to a column on the grid, and is rebuilt from its row
/// and column; a cell of the grid decomposes to a row on the grid.
pub proof fn lemma_cell_position(width: int, height: int, cell: int)
    requires
        0 < width,
        0 <= cell,
    ensures
        0 <= cell % width < width,
        0 <= cell / width,
        cell == (cell / width) * width + cell % width,
        cell < width * height ==> cell / width < height,
{
    lemma_fundamental_div_mod(cell, width);
    let q = cell / width;
    let r = cell % width;
    assert(width * q == q * width) by (nonlinear_arith);
    assert(0 <= q) by (nonlinear_arith)
        requires
            0 < width,
            0 <= r < width,
            0 <= q * width + r,
    ;
    if cell < width * height {
        assert(q < height) by (nonlinear_arith)
            requires
                0 < width,
                0 <= r,
                q * width + r < width * height,
        ;
    }
}

/// Every index decomposes to a column on the grid and a row from which it
/// is rebuilt, and every cell of the grid to a row on the grid.
pub open spec fn positions_hold(width: int, height: int) -> bool {
    forall|cell: int|
        0 <= cell ==> {
            &&& 0 <= #[trigger] (cell % width) < width
            &&& 0 <= cell / width
            &&& cell == (cell / width) * width + cell % width
            &&& (cell < width * height ==> cell / width < height)
        }
}

/// On a grid with columns every index has its position.
pub proof fn lemma_positions_hold(width: int, height: int)
    requires
        0 < width,
    ensures
        positions_hold(width, height),
{
    assert forall|cell: int| 0 <= cell implies {
        &&& 0 <= #[trigger] (cell % width) < width
        &&& 0 <= cell / width
        &&& cell == (cell / width) * width + cell % width
        &&& (cell < width * height ==> cell / width < height)
    } by {
        lemma_cell_position(width, height, cell);
    }
}

/// A larger distance reaches every cell that a smaller one reaches.
pub proof fn lemma_cells_within_monotonic(
    width: usize,
    height: usize,
    origin: usize,
    near: int,
    far: int,
)
    requires
        near <= far,
    ensures
        cells_within(width, height, origin, near).subset_of(
            cells_within(width, height, origin, far),
        ),
{
}

/// An origin that lies on the grid is within every distance of itself.
pub proof fn lemma_cells_within_holds_origin(
    width: usize,
    height: usize,
    origin: usize,
    distance: int,
)
    requires
        origin < width * height,
        0 <= distance,
    ensures
        cells_within(width, height, origin, distance).contains(origin),
{
}

} // verus!
