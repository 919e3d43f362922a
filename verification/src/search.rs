//! Completing a grid cell by cell in row-major order.

use vstd::prelude::*;
use crate::geometry::{cells_of, peers, side_of, MAX_QUADRANT_SIDE};
use crate::rules::{candidates, free_at, solved};

verus! {

/// `grid` has the size of `start` and the same first `k` cells.
pub open spec fn extends(grid: Seq<u8>, start: Seq<u8>, k: int) -> bool {
    &&& grid.len() == start.len()
    &&& forall|i: int| 0 <= i < k && i < grid.len() ==> #[trigger] grid[i] == start[i]
}

/// From cell `k` on, every cell holds a digit that none of the peers
/// before it holds.
pub open spec fn filled_from(grid: Seq<u8>, q: int, k: int) -> bool {
    forall|j: int|
        k <= j < grid.len() && 0 <= j ==> 1 <= #[trigger] grid[j] <= side_of(q) && differs_before(
            grid,
            q,
            j,
        )
}

/// No peer before cell `j` holds what cell `j` holds.
pub open spec fn differs_before(grid: Seq<u8>, q: int, j: int) -> bool {
    forall|i: int| 0 <= i < j && peers(q, i, j) ==> #[trigger] grid[i] != grid[j]
}

/// From cell `k` on, every cell is empty.
pub open spec fn empty_from(grid: Seq<u8>, k: int) -> bool {
    forall|j: int| k <= j < grid.len() && 0 <= j ==> #[trigger] grid[j] == 0
}

/// `grid` keeps the first `k` cells of `start` and fills the others by the rule.
pub open spec fn completes(grid: Seq<u8>, q: int, start: Seq<u8>, k: int) -> bool {
    extends(grid, start, k) && filled_from(grid, q, k)
}

/// The first `k` cells of `start` can be kept and the others filled by the rule.
pub open spec fn completable(start: Seq<u8>, q: int, k: int) -> bool {
    exists|grid: Seq<u8>| completes(grid, q, start, k)
}

/// No cell changed but to become empty.
pub open spec fn kept_or_emptied(grid: Seq<u8>, start: Seq<u8>) -> bool {
    &&& grid.len() == start.len()
    &&& forall|i: int| 0 <= i < grid.len() ==> #[trigger] grid[i] == start[i] || grid[i] == 0
}

/// A grid filled by the rule from its first cell on is a solved grid, and
/// the other way round.
pub proof fn lemma_filled_is_solved(grid: Seq<u8>, q: int)
    requires
        grid.len() == cells_of(q),
    ensures
        filled_from(grid, q, 0) <==> solved(grid, q),
{
    if filled_from(grid, q, 0) {
        assert forall|i: int, j: int|
            0 <= i < grid.len() && 0 <= j < grid.len() && i != j && peers(q, i, j) implies grid[i]
            != grid[j] by {
            if i < j {
                assert(1 <= grid[j] && differs_before(grid, q, j));
            } else {
                assert(1 <= grid[i] && differs_before(grid, q, i));
                assert(peers(q, j, i));
            }
        }
        assert forall|i: int| 0 <= i < grid.len() implies 1 <= #[trigger] grid[i] <= side_of(q) by {
            assert(1 <= grid[i] && differs_before(grid, q, i));
        }
    }
    if solved(grid, q) {
        assert forall|j: int| 0 <= j < grid.len() implies 1 <= #[trigger] grid[j] <= side_of(q)
            && differs_before(grid, q, j) by {
        }
    }
}

/// Where the cells from `k` on are empty, whatever a completion puts into
/// cell `k` is one of the cell's candidates, and the completion also
/// completes the grid in which cell `k` holds that digit.
pub proof fn lemma_completion_takes_candidate(grid: Seq<u8>, q: int, start: Seq<u8>, k: int)
    requires
        0 <= k < start.len(),
        empty_from(start, k),
        completes(grid, q, start, k),
    ensures
        candidates(start, q, k).contains(grid[k]),
        completes(grid, q, start.update(k, grid[k]), k + 1),
{
    let d = grid[k];
    assert(1 <= grid[k] && differs_before(grid, q, k));
    assert forall|j: int|
        0 <= j < start.len() && j != k && peers(q, k, j) implies #[trigger] start[j] != d by {
        if j < k {
            assert(grid[j] == start[j]);
            assert(peers(q, j, k));
        } else {
            assert(start[j] == 0);
        }
    }
    assert(free_at(start, q, k, d));
    let next = start.update(k, d);
    assert forall|i: int|
        0 <= i < k + 1 && i < grid.len() implies #[trigger] grid[i] == next[i] by {
        if i < k {
            assert(grid[i] == start[i]);
        }
    }
    assert forall|j: int| k + 1 <= j < grid.len() && 0 <= j implies 1 <= #[trigger] grid[j]
        <= side_of(q) && differs_before(grid, q, j) by {
        assert(k <= j);
    }
}

/// A completion from the next cell on, of a grid whose cell `k` holds one
/// of the candidates that the cell has in `start`, completes `start` from
/// cell `k` on.
pub proof fn lemma_candidate_extends_completion(
    grid: Seq<u8>,
    q: int,
    start: Seq<u8>,
    tried: Seq<u8>,
    k: int,
)
    requires
        0 <= k < start.len(),
        extends(tried, start, k),
        candidates(start, q, k).contains(tried[k]),
        completes(grid, q, tried, k + 1),
    ensures
        completes(grid, q, start, k),
{
    assert forall|i: int| 0 <= i < k && i < grid.len() implies #[trigger] grid[i] == start[i] by {
        assert(grid[i] == tried[i]);
        assert(tried[i] == start[i]);
    }
    assert(grid[k] == tried[k]);
    assert(free_at(start, q, k, tried[k]));
    assert forall|j: int| k <= j < grid.len() && 0 <= j implies 1 <= #[trigger] grid[j] <= side_of(
        q,
    ) && differs_before(grid, q, j) by {
        if j == k {
            assert forall|i: int| 0 <= i < k && peers(q, i, k) implies #[trigger] grid[i]
                != grid[k] by {
                assert(grid[i] == tried[i]);
                assert(tried[i] == start[i]);
                assert(peers(q, k, i));
                assert(start[i] != tried[k]);
            }
        } else {
            assert(k + 1 <= j);
        }
    }
}

/// Every grid of a supported size can be filled by the rule from its first
/// cell on: a solved grid exists.
pub proof fn lemma_empty_grid_completable(start: Seq<u8>, q: int)
    requires
        1 <= q <= MAX_QUADRANT_SIDE,
        start.len() == cells_of(q),
    ensures
        completable(start, q, 0),
{
    let grid = crate::pattern::pattern_grid(q);
    crate::pattern::lemma_pattern_solved(q);
    lemma_filled_is_solved(grid, q);
    assert(completes(grid, q, start, 0));
}

} // verus!
