//! The rule of the game: which digits a cell may still take, and when a grid
//! is solved.

use vstd::prelude::*;
use crate::geometry::{
    cell_at, cells_of, column_cells, column_of, lemma_cell_at_in_range,
    lemma_coordinates_in_range, lemma_quadrant_cell, lemma_quadrant_corner,
    lemma_quadrant_offset, lemma_side_bounds,
    neighborhood_cells, peers, quadrant_cells, row_cells, row_of, side_of, MAX_QUADRANT_SIDE,
};

verus! {

/// Digit `d` is not held by any peer of cell `i` other than `i` itself.
pub open spec fn free_at(grid: Seq<u8>, q: int, i: int, d: u8) -> bool {
    forall|j: int| 0 <= j < grid.len() && j != i && peers(q, i, j) ==> #[trigger] grid[j] != d
}

/// The digits that cell `i` may take: those from `1` to the grid's edge that
/// none of its peers holds. What the cell itself holds does not count.
pub open spec fn candidates(grid: Seq<u8>, q: int, i: int) -> Set<u8> {
    Set::new(|d: u8| 1 <= d <= side_of(q) && free_at(grid, q, i, d))
}

/// Every cell holds a digit and no two peers hold the same one.
pub open spec fn solved(grid: Seq<u8>, q: int) -> bool {
    &&& grid.len() == cells_of(q)
    &&& forall|i: int| 0 <= i < grid.len() ==> 1 <= #[trigger] grid[i] <= side_of(q)
    &&& forall|i: int, j: int|
        0 <= i < grid.len() && 0 <= j < grid.len() && i != j && peers(q, i, j) ==> grid[i]
            != grid[j]
}

/// Digit `d` is not held by any of the first `n` cells of `cells`, where the
/// cell `skip` does not count.
pub open spec fn unused_by(grid: Seq<u8>, cells: Seq<usize>, skip: int, n: int, d: u8) -> bool {
    forall|k: int| 0 <= k < n && cells[k] != skip ==> grid[#[trigger] cells[k] as int] != d
}

/// The neighborhood of a cell lists peers of the cell and nothing else.
pub proof fn lemma_neighborhood_holds_peers(q: int, i: int, k: int)
    requires
        1 <= q <= MAX_QUADRANT_SIDE,
        0 <= i < cells_of(q),
        0 <= k < 3 * side_of(q),
    ensures
        0 <= neighborhood_cells(q, column_of(q, i), row_of(q, i))[k] < cells_of(q),
        peers(q, i, neighborhood_cells(q, column_of(q, i), row_of(q, i))[k] as int),
{
    let s = side_of(q);
    let x = column_of(q, i);
    let y = row_of(q, i);
    lemma_coordinates_in_range(q, i);
    lemma_side_bounds(q);
    if k < s {
        lemma_cell_at_in_range(q, x, k);
        assert(neighborhood_cells(q, x, y)[k] == column_cells(q, x)[k]);
    } else if k < 2 * s {
        lemma_cell_at_in_range(q, k - s, y);
        assert(neighborhood_cells(q, x, y)[k] == row_cells(q, y)[k - s]);
    } else {
        let m = k - 2 * s;
        lemma_quadrant_cell(q, x, y, m);
        assert(neighborhood_cells(q, x, y)[k] == quadrant_cells(q, x, y)[m]);
    }
}

/// Every peer of a cell occurs in the cell's neighborhood.
pub proof fn lemma_peer_in_neighborhood(q: int, i: int, j: int) -> (k: int)
    requires
        1 <= q <= MAX_QUADRANT_SIDE,
        0 <= i < cells_of(q),
        0 <= j < cells_of(q),
        peers(q, i, j),
    ensures
        0 <= k < 3 * side_of(q),
        neighborhood_cells(q, column_of(q, i), row_of(q, i))[k] == j,
{
    let s = side_of(q);
    let x = column_of(q, i);
    let y = row_of(q, i);
    lemma_coordinates_in_range(q, i);
    lemma_coordinates_in_range(q, j);
    lemma_side_bounds(q);
    let xj = column_of(q, j);
    let yj = row_of(q, j);
    if xj == x {
        assert(neighborhood_cells(q, x, y)[yj] == column_cells(q, x)[yj]);
        yj
    } else if yj == y {
        assert(neighborhood_cells(q, x, y)[s + xj] == row_cells(q, y)[xj]);
        s + xj
    } else {
        lemma_quadrant_corner(q, xj);
        lemma_quadrant_corner(q, yj);
        let dx = xj - (xj / q) * q;
        let dy = yj - (yj / q) * q;
        lemma_quadrant_offset(q, dx, dy);
        let m = dx * q + dy;
        assert(neighborhood_cells(q, x, y)[2 * s + m] == quadrant_cells(q, x, y)[m]);
        assert(cell_at(q, (x / q) * q + m / q, (y / q) * q + m % q) == j);
        2 * s + m
    }
}

/// A digit is held by no cell of the neighborhood but the cell itself
/// exactly when it is held by no other peer.
pub proof fn lemma_unused_by_neighborhood(grid: Seq<u8>, q: int, i: int)
    requires
        1 <= q <= MAX_QUADRANT_SIDE,
        grid.len() == cells_of(q),
        0 <= i < cells_of(q),
    ensures
        forall|d: u8|
            free_at(grid, q, i, d) <==> #[trigger] unused_by(
                grid,
                neighborhood_cells(q, column_of(q, i), row_of(q, i)),
                i,
                3 * side_of(q),
                d,
            ),
{
    let cells = neighborhood_cells(q, column_of(q, i), row_of(q, i));
    let n = 3 * side_of(q);
    assert forall|d: u8| free_at(grid, q, i, d) <==> #[trigger] unused_by(
        grid,
        cells,
        i,
        n,
        d,
    ) by {
        if free_at(grid, q, i, d) {
            assert forall|k: int|
                0 <= k < n && cells[k] != i implies grid[#[trigger] cells[k] as int] != d by {
                lemma_neighborhood_holds_peers(q, i, k);
            }
        }
        if unused_by(grid, cells, i, n, d) {
            assert forall|j: int|
                0 <= j < grid.len() && j != i && peers(q, i, j) implies #[trigger] grid[j] != d by {
                let k = lemma_peer_in_neighborhood(q, i, j);
                assert(cells[k] == j);
            }
        }
    }
}

/// The digits from `1` to `n`.
pub open spec fn digits_up_to(n: nat) -> Set<u8>
    decreases n,
{
    if n == 0 {
        Set::empty()
    } else {
        digits_up_to((n - 1) as nat).insert(n as u8)
    }
}

/// There are `n` digits from `1` to `n`.
pub proof fn lemma_digits_up_to(n: nat)
    requires
        n <= u8::MAX,
    ensures
        digits_up_to(n).finite(),
        digits_up_to(n).len() == n,
        forall|d: u8| digits_up_to(n).contains(d) <==> 1 <= d <= n,
    decreases n,
{
    if n > 0 {
        lemma_digits_up_to((n - 1) as nat);
    }
}

/// A cell has finitely many candidates, at most as many as there are digits.
pub proof fn lemma_candidates_finite(grid: Seq<u8>, q: int, i: int)
    requires
        1 <= q <= MAX_QUADRANT_SIDE,
    ensures
        candidates(grid, q, i).finite(),
        candidates(grid, q, i).len() <= side_of(q),
{
    lemma_side_bounds(q);
    let all = digits_up_to(side_of(q) as nat);
    lemma_digits_up_to(side_of(q) as nat);
    assert(candidates(grid, q, i).subset_of(all));
    vstd::set_lib::lemma_len_subset(candidates(grid, q, i), all);
}

/// Digit `d` is held by exactly one of the cells listed.
pub open spec fn holds_once(grid: Seq<u8>, cells: Seq<usize>, d: u8) -> bool {
    exists|k: int|
        0 <= k < cells.len() && #[trigger] grid[cells[k] as int] == d && forall|m: int|
            0 <= m < cells.len() && #[trigger] grid[cells[m] as int] == d ==> m == k
}

/// The `k`-th and the `m`-th of the cells listed are different cells and
/// peers of each other.
pub open spec fn apart(q: int, cells: Seq<usize>, k: int, m: int) -> bool {
    cells[k] != cells[m] && peers(q, cells[k] as int, cells[m] as int)
}

/// The cells listed are different cells of the grid, as many as there are
/// digits, and each is a peer of each other.
pub open spec fn is_group(q: int, cells: Seq<usize>) -> bool {
    &&& cells.len() == side_of(q)
    &&& forall|k: int| 0 <= k < cells.len() ==> #[trigger] cells[k] < cells_of(q)
    &&& forall|k: int, m: int|
        0 <= k < cells.len() && 0 <= m < cells.len() && k != m ==> #[trigger] apart(q, cells, k, m)
}

/// As many different digits as there are digits are all the digits.
pub proof fn lemma_distinct_digits_cover(values: Seq<u8>, n: nat, d: u8)
    requires
        n <= u8::MAX,
        values.len() == n,
        values.no_duplicates(),
        forall|k: int| 0 <= k < values.len() ==> 1 <= #[trigger] values[k] <= n,
        1 <= d <= n,
    ensures
        values.contains(d),
{
    broadcast use vstd::seq_lib::seq_to_set_is_finite;

    lemma_digits_up_to(n);
    values.unique_seq_to_set();
    assert(values.to_set().subset_of(digits_up_to(n))) by {
        assert forall|v: u8| values.to_set().contains(v) implies digits_up_to(n).contains(v) by {
            let k = choose|k: int| 0 <= k < values.len() && values[k] == v;
            assert(1 <= values[k] <= n);
        }
    }
    vstd::set_lib::lemma_subset_equality(values.to_set(), digits_up_to(n));
    assert(values.to_set().contains(d));
}

/// In a solved grid, a group of as many cells as there are digits, each a
/// peer of each other, holds every digit exactly once.
pub proof fn lemma_group_holds_every_digit_once(grid: Seq<u8>, q: int, cells: Seq<usize>, d: u8)
    requires
        1 <= q <= MAX_QUADRANT_SIDE,
        solved(grid, q),
        is_group(q, cells),
        1 <= d <= side_of(q),
    ensures
        holds_once(grid, cells, d),
{
    lemma_side_bounds(q);
    let values = Seq::new(cells.len(), |k: int| grid[cells[k] as int]);
    assert(values.no_duplicates()) by {
        assert forall|k: int, m: int|
            0 <= k < values.len() && 0 <= m < values.len() && k != m implies values[k]
            != values[m] by {
            assert(apart(q, cells, k, m));
        }
    }
    assert forall|k: int| 0 <= k < values.len() implies 1 <= #[trigger] values[k] <= side_of(q) by {
        assert(cells[k] < cells_of(q));
        assert(1 <= grid[cells[k] as int] <= side_of(q));
    }
    lemma_distinct_digits_cover(values, side_of(q) as nat, d);
    let k = choose|k: int| 0 <= k < values.len() && values[k] == d;
    assert(grid[cells[k] as int] == d);
    assert forall|m: int| 0 <= m < cells.len() && #[trigger] grid[cells[m] as int] == d implies m
        == k by {
        if m != k {
            assert(apart(q, cells, k, m));
        }
    }
}

/// The cells of a column are a group.
pub proof fn lemma_column_is_group(q: int, x: int)
    requires
        1 <= q <= MAX_QUADRANT_SIDE,
        0 <= x < side_of(q),
    ensures
        is_group(q, column_cells(q, x)),
{
    lemma_side_bounds(q);
    let cells = column_cells(q, x);
    assert forall|k: int| 0 <= k < cells.len() implies #[trigger] cells[k] < cells_of(q) by {
        lemma_cell_at_in_range(q, x, k);
    }
    assert forall|k: int, m: int|
        0 <= k < cells.len() && 0 <= m < cells.len() && k != m implies #[trigger] apart(
        q,
        cells,
        k,
        m,
    ) by {
        lemma_cell_at_in_range(q, x, k);
        lemma_cell_at_in_range(q, x, m);
    }
}

/// The cells of a row are a group.
pub proof fn lemma_row_is_group(q: int, y: int)
    requires
        1 <= q <= MAX_QUADRANT_SIDE,
        0 <= y < side_of(q),
    ensures
        is_group(q, row_cells(q, y)),
{
    lemma_side_bounds(q);
    let cells = row_cells(q, y);
    assert forall|k: int| 0 <= k < cells.len() implies #[trigger] cells[k] < cells_of(q) by {
        lemma_cell_at_in_range(q, k, y);
    }
    assert forall|k: int, m: int|
        0 <= k < cells.len() && 0 <= m < cells.len() && k != m implies #[trigger] apart(
        q,
        cells,
        k,
        m,
    ) by {
        lemma_cell_at_in_range(q, k, y);
        lemma_cell_at_in_range(q, m, y);
    }
}

/// The cells of a quadrant are a group.
pub proof fn lemma_quadrant_is_group(q: int, x: int, y: int)
    requires
        1 <= q <= MAX_QUADRANT_SIDE,
        0 <= x < side_of(q),
        0 <= y < side_of(q),
    ensures
        is_group(q, quadrant_cells(q, x, y)),
{
    let cells = quadrant_cells(q, x, y);
    assert forall|k: int| 0 <= k < cells.len() implies #[trigger] cells[k] < cells_of(q) by {
        lemma_quadrant_cell(q, x, y, k);
    }
    assert forall|k: int, m: int|
        0 <= k < cells.len() && 0 <= m < cells.len() && k != m implies #[trigger] apart(
        q,
        cells,
        k,
        m,
    ) by {
        lemma_quadrant_cell(q, x, y, k);
        lemma_quadrant_cell(q, x, y, m);
    }
}

/// In a solved grid every column, every row and every quadrant holds every
/// digit exactly once.
pub proof fn lemma_solved_groups_hold_every_digit_once(
    grid: Seq<u8>,
    q: int,
    x: int,
    y: int,
    d: u8,
)
    requires
        1 <= q <= MAX_QUADRANT_SIDE,
        solved(grid, q),
        0 <= x < side_of(q),
        0 <= y < side_of(q),
        1 <= d <= side_of(q),
    ensures
        holds_once(grid, column_cells(q, x), d),
        holds_once(grid, row_cells(q, y), d),
        holds_once(grid, quadrant_cells(q, x, y), d),
{
    lemma_column_is_group(q, x);
    lemma_row_is_group(q, y);
    lemma_quadrant_is_group(q, x, y);
    lemma_group_holds_every_digit_once(grid, q, column_cells(q, x), d);
    lemma_group_holds_every_digit_once(grid, q, row_cells(q, y), d);
    lemma_group_holds_every_digit_once(grid, q, quadrant_cells(q, x, y), d);
}

/// In a solved grid the only candidate of a cell is the digit it holds:
/// every other digit is held by one of its peers.
pub proof fn lemma_solved_cell_has_no_other_candidate(grid: Seq<u8>, q: int, i: int)
    requires
        1 <= q <= MAX_QUADRANT_SIDE,
        solved(grid, q),
        0 <= i < grid.len(),
    ensures
        candidates(grid, q, i) =~= set![grid[i]],
{
    lemma_side_bounds(q);
    lemma_coordinates_in_range(q, i);
    let y = row_of(q, i);
    let cells = row_cells(q, y);
    lemma_row_is_group(q, y);
    assert(free_at(grid, q, i, grid[i]));
    assert forall|d: u8| candidates(grid, q, i).contains(d) implies d == grid[i] by {
        lemma_group_holds_every_digit_once(grid, q, cells, d);
        let k = choose|k: int| 0 <= k < cells.len() && #[trigger] grid[cells[k] as int] == d;
        lemma_cell_at_in_range(q, k, y);
        let j = cells[k] as int;
        assert(row_of(q, j) == y);
        assert(peers(q, i, j));
        if j != i {
            assert(grid[j] != d);
        }
    }
}

} // verus!
