//! Making a puzzle of a filled grid: cells are emptied one by one, in a
//! round over the grid, as long as the holes stay deducible.

use vstd::prelude::*;
use crate::deduction::{
    blank_at, deducible, emptied, lemma_no_holes_deducible, lists, playable, played, within,
};
use crate::solution::{lemma_deduction_restores_solution, lemma_fewer_holes_stay_deducible};
use crate::geometry::{lemma_side_bounds, MAX_QUADRANT_SIDE};
use crate::rules::solved;
use crate::arith::lemma_remainders_differ;

verus! {

/// The cell visited at turn `n` of a round over `cells` cells that starts
/// at cell `start`.
pub open spec fn visited(cells: int, start: int, n: int) -> int {
    (n + start) % cells
}

/// The holes accepted in the first `n` turns of the round that starts at
/// `start`. The cell visited joins the holes if they are deducible with it.
pub open spec fn accepted(grid: Seq<u8>, q: int, start: int, n: nat) -> Set<usize>
    decreases n,
{
    if n == 0 {
        Set::empty()
    } else {
        let before = accepted(grid, q, start, (n - 1) as nat);
        let trial = before.insert(visited(grid.len() as int, start, n - 1) as usize);
        if deducible(emptied(grid, trial), q, trial) {
            trial
        } else {
            before
        }
    }
}

/// The puzzle that a whole round leaves: the grid without the digits of the
/// accepted holes.
pub open spec fn punched(grid: Seq<u8>, q: int, start: int) -> Seq<u8> {
    emptied(grid, accepted(grid, q, start, grid.len()))
}

/// The empty cells of the grid.
pub open spec fn blanks(grid: Seq<u8>) -> Set<usize> {
    Set::new(|h: usize| h < grid.len() && grid[h as int] == 0)
}

/// No cell of the grid is empty.
pub open spec fn full(grid: Seq<u8>) -> bool {
    forall|i: int| 0 <= i < grid.len() ==> #[trigger] grid[i] != 0
}

/// A round visits every cell at most once: two turns visit different cells.
pub proof fn lemma_visits_differ(cells: int, start: int, m: int, n: int)
    requires
        0 <= m < n < cells,
        0 <= start,
    ensures
        visited(cells, start, m) != visited(cells, start, n),
{
    lemma_remainders_differ(m + start, n + start, cells);
}

/// Every turn of a round visits a cell of the grid.
pub proof fn lemma_visited_in_range(cells: int, start: int, n: int)
    requires
        0 < cells,
    ensures
        0 <= visited(cells, start, n) < cells,
{
    vstd::arithmetic::div_mod::lemma_mod_bound(n + start, cells);
}

/// The holes accepted in `n` turns are cells visited in these turns.
pub proof fn lemma_accepted_were_visited(grid: Seq<u8>, q: int, start: int, n: nat, h: usize)
    requires
        accepted(grid, q, start, n).contains(h),
    ensures
        exists|m: int| 0 <= m < n && h == visited(grid.len() as int, start, m) as usize,
    decreases n,
{
    if n > 0 {
        let before = accepted(grid, q, start, (n - 1) as nat);
        if before.contains(h) {
            lemma_accepted_were_visited(grid, q, start, (n - 1) as nat, h);
            let cells = grid.len() as int;
            let m = choose|m: int| 0 <= m < n - 1 && h == visited(cells, start, m) as usize;
            assert(0 <= m < n && h == visited(cells, start, m) as usize);
        } else {
            assert(h == visited(grid.len() as int, start, n - 1) as usize);
        }
    }
}

/// The empty cells of a full grid that lost the digits of some holes are
/// these holes.
pub proof fn lemma_blanks_of_emptied(grid: Seq<u8>, holes: Set<usize>)
    requires
        full(grid),
        within(holes, grid.len()),
    ensures
        blanks(emptied(grid, holes)) == holes,
        blank_at(emptied(grid, holes), holes),
{
    assert(blanks(emptied(grid, holes)) =~= holes);
}

/// The holes accepted are cells of the grid.
pub proof fn lemma_accepted_within(grid: Seq<u8>, q: int, start: int, n: nat)
    requires
        0 < grid.len() <= usize::MAX,
        0 <= start,
    ensures
        within(accepted(grid, q, start, n), grid.len()),
{
    assert forall|h: usize| accepted(grid, q, start, n).contains(h) implies h < grid.len() by {
        lemma_accepted_were_visited(grid, q, start, n, h);
        let m = choose|m: int| 0 <= m < n && h == visited(grid.len() as int, start, m) as usize;
        lemma_visited_in_range(grid.len() as int, start, m);
    }
}

/// At every turn of the round the holes accepted so far are deducible.
pub proof fn lemma_accepted_stay_deducible(grid: Seq<u8>, q: int, start: int, n: nat)
    ensures
        deducible(emptied(grid, accepted(grid, q, start, n)), q, accepted(grid, q, start, n)),
    decreases n,
{
    if n == 0 {
        lemma_no_holes_deducible(emptied(grid, Set::<usize>::empty()), q);
    } else {
        lemma_accepted_stay_deducible(grid, q, start, (n - 1) as nat);
    }
}

/// Solving the puzzle gives the solution back. Make a puzzle of a solved
/// grid in a round from any cell, and fill its holes by forced moves, in
/// any order in which that can be done: the result is the solved grid.
pub proof fn lemma_puzzle_solves_back(solution: Seq<u8>, q: int, start: int, chain: Seq<usize>)
    requires
        1 <= q <= MAX_QUADRANT_SIDE,
        solved(solution, q),
        0 <= start < solution.len(),
        lists(chain, accepted(solution, q, start, solution.len())),
        playable(punched(solution, q, start), q, chain),
    ensures
        played(punched(solution, q, start), q, chain) == solution,
{
    lemma_side_bounds(q);
    lemma_accepted_within(solution, q, start, solution.len());
    lemma_deduction_restores_solution(
        solution,
        q,
        accepted(solution, q, start, solution.len()),
        chain,
    );
}

/// A hole once accepted stays accepted.
pub proof fn lemma_accepted_grow(grid: Seq<u8>, q: int, start: int, n: nat, m: nat)
    requires
        n <= m,
    ensures
        accepted(grid, q, start, n).subset_of(accepted(grid, q, start, m)),
    decreases m,
{
    if n < m {
        lemma_accepted_grow(grid, q, start, n, (m - 1) as nat);
    }
}

/// A round visits every cell.
pub proof fn lemma_every_cell_visited(cells: int, start: int, i: int) -> (turn: int)
    requires
        0 <= start < cells,
        0 <= i < cells,
    ensures
        0 <= turn < cells,
        visited(cells, start, turn) == i,
{
    if i >= start {
        vstd::arithmetic::div_mod::lemma_small_mod(i as nat, cells as nat);
        i - start
    } else {
        vstd::arithmetic::div_mod::lemma_small_mod(i as nat, cells as nat);
        vstd::arithmetic::div_mod::lemma_mod_add_multiples_vanish(i, cells);
        i - start + cells
    }
}

/// The round leaves no hole unmade that could be made: with any further
/// cell of a solved grid the holes accepted are no longer deducible.
pub proof fn lemma_round_is_maximal(solution: Seq<u8>, q: int, start: int, i: usize)
    requires
        1 <= q <= MAX_QUADRANT_SIDE,
        solved(solution, q),
        0 <= start < solution.len(),
        i < solution.len(),
        !accepted(solution, q, start, solution.len()).contains(i),
    ensures
        !deducible(
            emptied(solution, accepted(solution, q, start, solution.len()).insert(i)),
            q,
            accepted(solution, q, start, solution.len()).insert(i),
        ),
{
    let cells = solution.len();
    let all = accepted(solution, q, start, cells);
    lemma_side_bounds(q);
    let turn = lemma_every_cell_visited(cells as int, start, i as int);
    let before = accepted(solution, q, start, turn as nat);
    let trial = before.insert(i);
    lemma_accepted_grow(solution, q, start, turn as nat, cells);
    lemma_accepted_grow(solution, q, start, (turn + 1) as nat, cells);
    assert(!accepted(solution, q, start, (turn + 1) as nat).contains(i));
    assert(visited(cells as int, start, turn + 1 - 1) as usize == i);
    assert(!deducible(emptied(solution, trial), q, trial)) by {
        if deducible(emptied(solution, trial), q, trial) {
            assert(accepted(solution, q, start, (turn + 1) as nat) == trial);
            assert(trial.contains(i));
        }
    }
    if deducible(emptied(solution, all.insert(i)), q, all.insert(i)) {
        lemma_accepted_within(solution, q, start, cells);
        assert(trial.subset_of(all.insert(i)));
        lemma_fewer_holes_stay_deducible(solution, q, trial, all.insert(i));
    }
}

} // verus!
