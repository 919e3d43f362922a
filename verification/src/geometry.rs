//! The shape of the grid: coordinates, the three groups a cell belongs to,
//! and the relation between two cells that constrain each other.

use vstd::prelude::*;
use vstd::arithmetic::mul::{lemma_mul_inequality, lemma_mul_is_commutative};
use crate::arith::{lemma_join, lemma_split};

verus! {

/// The largest quadrant edge for which every digit still fits in a `u8`.
pub const MAX_QUADRANT_SIDE: usize = 15;

/// Edge length of a grid whose quadrants have edge `q`; also its largest digit.
pub open spec fn side_of(q: int) -> int {
    q * q
}

/// Number of cells of a grid whose quadrants have edge `q`.
pub open spec fn cells_of(q: int) -> int {
    side_of(q) * side_of(q)
}

/// Flat position of the cell in column `x` and row `y`.
pub open spec fn cell_at(q: int, x: int, y: int) -> int {
    x + y * side_of(q)
}

/// Column of the cell at flat position `i`.
pub open spec fn column_of(q: int, i: int) -> int {
    i % side_of(q)
}

/// Row of the cell at flat position `i`.
pub open spec fn row_of(q: int, i: int) -> int {
    i / side_of(q)
}

/// Two cells are peers when they share a column, a row or a quadrant.
/// A cell is a peer of itself.
pub open spec fn peers(q: int, i: int, j: int) -> bool {
    ||| column_of(q, i) == column_of(q, j)
    ||| row_of(q, i) == row_of(q, j)
    ||| (column_of(q, i) / q == column_of(q, j) / q && row_of(q, i) / q == row_of(q, j) / q)
}

/// The cells of column `x`, from the top row down.
pub open spec fn column_cells(q: int, x: int) -> Seq<usize> {
    Seq::new(side_of(q) as nat, |k: int| cell_at(q, x, k) as usize)
}

/// The cells of row `y`, from the left column on.
pub open spec fn row_cells(q: int, y: int) -> Seq<usize> {
    Seq::new(side_of(q) as nat, |k: int| cell_at(q, k, y) as usize)
}

/// The cells of the quadrant that holds `(x, y)`: its columns from the left,
/// each of them from its top row down.
pub open spec fn quadrant_cells(q: int, x: int, y: int) -> Seq<usize> {
    Seq::new(
        side_of(q) as nat,
        |k: int| cell_at(q, (x / q) * q + k / q, (y / q) * q + k % q) as usize,
    )
}

/// Column, then row, then quadrant of `(x, y)`. The cell itself occurs three times.
pub open spec fn neighborhood_cells(q: int, x: int, y: int) -> Seq<usize> {
    column_cells(q, x) + row_cells(q, y) + quadrant_cells(q, x, y)
}

/// A quadrant edge between one and the largest supported gives a grid edge
/// between one and 225.
pub proof fn lemma_side_bounds(q: int)
    requires
        1 <= q <= MAX_QUADRANT_SIDE,
    ensures
        q <= side_of(q) <= 225,
        1 <= cells_of(q) <= 50625,
        cells_of(q) >= side_of(q),
{
    let s = side_of(q);
    lemma_mul_inequality(1, q, q);
    lemma_mul_inequality(q, 15, q);
    lemma_mul_is_commutative(q, 15);
    assert(q * 15 <= 225);
    lemma_mul_inequality(1, s, s);
    lemma_mul_inequality(s, 225, s);
    lemma_mul_is_commutative(s, 225);
    assert(s * 225 <= 50625);
}

/// Coordinates inside the grid give a flat position inside it, and the
/// position gives the coordinates back.
pub proof fn lemma_cell_at_in_range(q: int, x: int, y: int)
    requires
        1 <= q,
        0 <= x < side_of(q),
        0 <= y < side_of(q),
    ensures
        0 <= cell_at(q, x, y) < cells_of(q),
        column_of(q, cell_at(q, x, y)) == x,
        row_of(q, cell_at(q, x, y)) == y,
{
    lemma_join(side_of(q), y, x, side_of(q));
}

/// A flat position inside the grid gives coordinates inside it, and the
/// coordinates give the position back.
pub proof fn lemma_coordinates_in_range(q: int, i: int)
    requires
        1 <= q,
        0 <= i < cells_of(q),
    ensures
        0 <= column_of(q, i) < side_of(q),
        0 <= row_of(q, i) < side_of(q),
        cell_at(q, column_of(q, i), row_of(q, i)) == i,
{
    lemma_mul_inequality(1, q, q);
    lemma_split(side_of(q), i, side_of(q));
}

/// The first column (or row) of the quadrant that holds coordinate `c` is a
/// multiple of `q`, at most `c`, and the whole quadrant lies inside the grid.
pub proof fn lemma_quadrant_corner(q: int, c: int)
    requires
        1 <= q,
        0 <= c < side_of(q),
    ensures
        0 <= (c / q) * q <= c < (c / q) * q + q,
        (c / q) * q + q <= side_of(q),
        0 <= c / q < q,
        ((c / q) * q) / q == c / q,
{
    lemma_split(q, c, q);
    lemma_join(q, c / q, 0, q);
    lemma_join(q, c / q, q - 1, q);
}

/// The `k`-th cell of a quadrant, counted column by column, lies `k / q`
/// columns and `k % q` rows from the quadrant's corner.
pub proof fn lemma_quadrant_offset(q: int, dx: int, dy: int)
    requires
        1 <= q,
        0 <= dx < q,
        0 <= dy < q,
    ensures
        0 <= dx * q + dy < side_of(q),
        (dx * q + dy) / q == dx,
        (dx * q + dy) % q == dy,
{
    lemma_join(q, dx, dy, q);
}

/// The `k`-th cell of the quadrant that holds `(x, y)` lies in the grid,
/// in the same quadrant, at the place that `k` names.
pub proof fn lemma_quadrant_cell(q: int, x: int, y: int, k: int)
    requires
        1 <= q <= MAX_QUADRANT_SIDE,
        0 <= x < side_of(q),
        0 <= y < side_of(q),
        0 <= k < side_of(q),
    ensures
        quadrant_cells(q, x, y)[k] < cells_of(q),
        column_of(q, quadrant_cells(q, x, y)[k] as int) == (x / q) * q + k / q,
        row_of(q, quadrant_cells(q, x, y)[k] as int) == (y / q) * q + k % q,
        column_of(q, quadrant_cells(q, x, y)[k] as int) / q == x / q,
        row_of(q, quadrant_cells(q, x, y)[k] as int) / q == y / q,
        0 <= k / q < q,
        0 <= k % q < q,
        k == (k / q) * q + k % q,
{
    lemma_side_bounds(q);
    lemma_split(q, x, q);
    lemma_split(q, y, q);
    lemma_split(q, k, q);
    lemma_join(q, x / q, k / q, q);
    lemma_join(q, y / q, k % q, q);
    lemma_cell_at_in_range(q, (x / q) * q + k / q, (y / q) * q + k % q);
}

} // verus!
