//! Deduction on puzzles made of a solved grid: forced moves put back the
//! digits of the solution, and fewer holes are easier than more.

use vstd::prelude::*;
use crate::deduction::{
    blocked, deducible, emptied, forced_digit, forced_to, hopeless, is_hole, left_by,
    lemma_emptied_again, lemma_forced_digit, lists, place, playable, played, stalls,
    stalls_after, within,
};
use crate::geometry::{peers, side_of, MAX_QUADRANT_SIDE};
use crate::order::{fresh, lemma_fresh_rest, lemma_listed_blank_is_fresh};
use crate::rules::{candidates, lemma_solved_cell_has_no_other_candidate, solved};

verus! {

/// The chain names `i`.
pub open spec fn names(chain: Seq<usize>, i: int) -> bool {
    exists|k: int| 0 <= k < chain.len() && chain[k] == i
}

/// Where every filled cell of the grid agrees with a solved grid, forced
/// moves put the digits of that solved grid into the cells they fill.
pub proof fn lemma_forced_moves_follow_solution(
    grid: Seq<u8>,
    q: int,
    solution: Seq<u8>,
    chain: Seq<usize>,
)
    requires
        solved(solution, q),
        grid.len() == solution.len(),
        forall|i: int| 0 <= i < grid.len() ==> #[trigger] grid[i] == solution[i] || grid[i] == 0,
        fresh(grid, chain),
        playable(grid, q, chain),
    ensures
        played(grid, q, chain).len() == grid.len(),
        forall|i: int|
            0 <= i < grid.len() ==> #[trigger] played(grid, q, chain)[i] == (if names(chain, i) {
                solution[i]
            } else {
                grid[i]
            }),
    decreases chain.len(),
{
    if chain.len() > 0 {
        let h = chain[0] as int;
        let rest = chain.drop_first();
        let d = forced_digit(grid, q, h);
        let next = place(grid, q, h);
        assert(forced_to(grid, q, h, d));
        assert(candidates(grid, q, h).contains(solution[h])) by {
            assert(1 <= solution[h] <= side_of(q));
            assert forall|j: int|
                0 <= j < grid.len() && j != h && peers(q, h, j) implies
                #[trigger] grid[j] != solution[h] by {
                assert(grid[j] == solution[j] || grid[j] == 0);
            }
        }
        assert(set![d].contains(solution[h]));
        assert(d == solution[h]);
        lemma_fresh_rest(grid, q, chain);
        assert forall|i: int| 0 <= i < next.len() implies #[trigger] next[i] == solution[i]
            || next[i] == 0 by {
            assert(grid[i] == solution[i] || grid[i] == 0);
        }
        lemma_forced_moves_follow_solution(next, q, solution, rest);
        assert forall|i: int| 0 <= i < grid.len() implies #[trigger] played(grid, q, chain)[i] == (
        if names(chain, i) {
            solution[i]
        } else {
            grid[i]
        }) by {
            if names(rest, i) {
                let k = choose|k: int| 0 <= k < rest.len() && rest[k] == i;
                assert(chain[k + 1] == i);
            }
            if names(chain, i) && i != h {
                let k = choose|k: int| 0 <= k < chain.len() && chain[k] == i;
                assert(rest[k - 1] == i);
            }
            if i == h {
                assert(chain[0] == i);
                if names(rest, i) {
                    let k = choose|k: int| 0 <= k < rest.len() && rest[k] == i;
                    assert(chain[k + 1] == chain[0]);
                }
            }
        }
    }
}

/// Solving gives the solution back. Take a solved grid, empty some of its
/// cells, and fill them again by forced moves, in any order in which that
/// can be done: the result is the solved grid.
pub proof fn lemma_deduction_restores_solution(
    solution: Seq<u8>,
    q: int,
    holes: Set<usize>,
    chain: Seq<usize>,
)
    requires
        solved(solution, q),
        within(holes, solution.len()),
        lists(chain, holes),
        playable(emptied(solution, holes), q, chain),
    ensures
        played(emptied(solution, holes), q, chain) == solution,
{
    let puzzle = emptied(solution, holes);
    lemma_emptied_again(solution, holes);
    lemma_listed_blank_is_fresh(puzzle, holes, chain);
    lemma_forced_moves_follow_solution(puzzle, q, solution, chain);
    assert forall|i: int| 0 <= i < solution.len() implies played(puzzle, q, chain)[i]
        == solution[i] by {
        if !names(chain, i) && is_hole(holes, i) {
            assert(chain.to_set().contains(i as usize));
            let k = choose|k: int| 0 <= k < chain.len() && chain[k] == i as usize;
            assert(chain[k] == i);
        }
    }
    assert(played(puzzle, q, chain) =~= solution);
}

/// Forced moves on a solved grid change nothing.
proof fn lemma_solved_grid_stays(grid: Seq<u8>, q: int, chain: Seq<usize>)
    requires
        1 <= q <= MAX_QUADRANT_SIDE,
        solved(grid, q),
        playable(grid, q, chain),
    ensures
        played(grid, q, chain) == grid,
    decreases chain.len(),
{
    if chain.len() > 0 {
        let h = chain[0] as int;
        lemma_solved_cell_has_no_other_candidate(grid, q, h);
        lemma_forced_digit(grid, q, h, grid[h]);
        assert(place(grid, q, h) =~= grid);
        lemma_solved_grid_stays(grid, q, chain.drop_first());
    }
}

/// On a solved grid no run of forced moves gets stuck, whatever cells are
/// taken for holes: while the holes still hold their digits, each of them
/// is forced to the digit it holds.
pub proof fn lemma_solved_grid_never_stalls(grid: Seq<u8>, q: int, holes: Set<usize>)
    requires
        1 <= q <= MAX_QUADRANT_SIDE,
        solved(grid, q),
        within(holes, grid.len()),
    ensures
        !stalls(grid, q, holes),
{
    if stalls(grid, q, holes) {
        let chain = choose|chain: Seq<usize>| stalls_after(grid, q, holes, chain);
        lemma_solved_grid_stays(grid, q, chain);
        let h = choose|h: usize| left_by(holes, chain).contains(h);
        lemma_solved_cell_has_no_other_candidate(grid, q, h as int);
        assert(forced_to(grid, q, h as int, grid[h as int]));
        assert(set![grid[h as int]].contains(grid[h as int]));
        if blocked(grid, q, left_by(holes, chain)) {
            let dead = choose|k: usize|
                left_by(holes, chain).contains(k) && hopeless(grid, q, k as int);
            lemma_solved_cell_has_no_other_candidate(grid, q, dead as int);
            assert(set![grid[dead as int]].contains(grid[dead as int]));
        }
    }
}

/// The cells of `chain` that are in `keep`, in the order of the chain.
pub open spec fn kept(chain: Seq<usize>, keep: Set<usize>) -> Seq<usize>
    decreases chain.len(),
{
    if chain.len() == 0 {
        Seq::empty()
    } else if keep.contains(chain[0]) {
        seq![chain[0]] + kept(chain.drop_first(), keep)
    } else {
        kept(chain.drop_first(), keep)
    }
}

/// What is kept of a chain are the cells of the chain that are to be kept,
/// in an order in which they occur in the chain.
proof fn lemma_kept_members(chain: Seq<usize>, keep: Set<usize>)
    ensures
        forall|x: usize|
            #[trigger] kept(chain, keep).contains(x) <==> chain.contains(x) && keep.contains(x),
        chain.no_duplicates() ==> kept(chain, keep).no_duplicates(),
    decreases chain.len(),
{
    if chain.len() > 0 {
        let rest = chain.drop_first();
        let first = chain[0];
        lemma_kept_members(rest, keep);
        let sub = kept(chain, keep);
        let sub_rest = kept(rest, keep);
        assert forall|x: usize| #[trigger]
            sub.contains(x) <==> chain.contains(x) && keep.contains(x) by {
            assert(sub_rest.contains(x) <==> rest.contains(x) && keep.contains(x));
            if sub.contains(x) {
                let a = choose|a: int| 0 <= a < sub.len() && sub[a] == x;
                if keep.contains(first) {
                    if a > 0 {
                        assert(sub_rest[a - 1] == x);
                        assert(sub_rest.contains(x));
                    } else {
                        assert(chain[0] == x);
                    }
                } else {
                    assert(sub_rest.contains(x));
                }
                if sub_rest.contains(x) {
                    let b = choose|b: int| 0 <= b < rest.len() && rest[b] == x;
                    assert(chain[b + 1] == x);
                }
            }
            if chain.contains(x) && keep.contains(x) {
                let b = choose|b: int| 0 <= b < chain.len() && chain[b] == x;
                if b == 0 {
                    assert(sub[0] == x);
                } else {
                    assert(rest[b - 1] == x);
                    assert(sub_rest.contains(x));
                    let a = choose|a: int| 0 <= a < sub_rest.len() && sub_rest[a] == x;
                    if keep.contains(first) {
                        assert(sub[a + 1] == x);
                    }
                }
            }
        }
        if chain.no_duplicates() {
            assert(rest.no_duplicates()) by {
                assert forall|a: int, b: int|
                    0 <= a < rest.len() && 0 <= b < rest.len() && a != b implies rest[a]
                    != rest[b] by {
                    assert(rest[a] == chain[a + 1] && rest[b] == chain[b + 1]);
                }
            }
            if keep.contains(first) {
                assert(!sub_rest.contains(first)) by {
                    if rest.contains(first) {
                        let b = choose|b: int| 0 <= b < rest.len() && rest[b] == first;
                        assert(chain[b + 1] == chain[0]);
                    }
                }
                assert forall|a: int, b: int|
                    0 <= a < sub.len() && 0 <= b < sub.len() && a != b implies sub[a] != sub[b] by {
                    if a > 0 {
                        assert(sub[a] == sub_rest[a - 1]);
                        assert(sub_rest.contains(sub_rest[a - 1]));
                    }
                    if b > 0 {
                        assert(sub[b] == sub_rest[b - 1]);
                        assert(sub_rest.contains(sub_rest[b - 1]));
                    }
                }
            }
        }
    }
}

/// A grid in which more cells of the solution are known allows the forced
/// moves of a grid in which fewer are known, as far as its own holes go.
proof fn lemma_known_cells_keep_moves(
    solution: Seq<u8>,
    q: int,
    sparse: Seq<u8>,
    dense: Seq<u8>,
    chain: Seq<usize>,
    keep: Set<usize>,
)
    requires
        solved(solution, q),
        sparse.len() == solution.len(),
        dense.len() == solution.len(),
        forall|i: int|
            0 <= i < sparse.len() ==> #[trigger] sparse[i] == solution[i] || sparse[i] == 0,
        forall|i: int|
            0 <= i < dense.len() ==> #[trigger] dense[i] == solution[i] || (dense[i] == 0
                && sparse[i] == 0),
        fresh(sparse, chain),
        playable(sparse, q, chain),
        forall|k: int|
            0 <= k < chain.len() ==> (keep.contains(#[trigger] chain[k]) <==> dense[chain[k] as int]
                == 0),
    ensures
        playable(dense, q, kept(chain, keep)),
    decreases chain.len(),
{
    if chain.len() > 0 {
        let h = chain[0] as int;
        let rest = chain.drop_first();
        let d = solution[h];
        assert(keep.contains(chain[0]) <==> dense[h] == 0);
        assert(1 <= d <= side_of(q));
        // The move of the sparse grid puts the digit of the solution.
        assert(candidates(sparse, q, h).contains(d)) by {
            assert forall|j: int|
                0 <= j < sparse.len() && j != h && peers(q, h, j) implies
                #[trigger] sparse[j] != d by {
                assert(sparse[j] == solution[j] || sparse[j] == 0);
            }
        }
        let e = forced_digit(sparse, q, h);
        assert(forced_to(sparse, q, h, e));
        assert(set![e].contains(d));
        let next = place(sparse, q, h);
        lemma_fresh_rest(sparse, q, chain);
        assert forall|i: int| 0 <= i < next.len() implies #[trigger] next[i] == solution[i]
            || next[i] == 0 by {
            assert(sparse[i] == solution[i] || sparse[i] == 0);
        }
        assert forall|k: int| 0 <= k < rest.len() implies (keep.contains(#[trigger] rest[k])
            <==> dense[rest[k] as int] == 0) by {
            assert(rest[k] == chain[k + 1]);
        }
        if keep.contains(chain[0]) {
            // The dense grid is forced to the same digit.
            assert(candidates(dense, q, h).contains(d)) by {
                assert forall|j: int|
                    0 <= j < dense.len() && j != h && peers(q, h, j) implies
                    #[trigger] dense[j] != d by {
                    assert(dense[j] == solution[j] || dense[j] == 0);
                }
            }
            assert forall|c: u8| candidates(dense, q, h).contains(c) implies c == d by {
                assert forall|j: int|
                    0 <= j < sparse.len() && j != h && peers(q, h, j) implies #[trigger] sparse[j]
                    != c by {
                    assert(dense[j] != c);
                    assert(dense[j] == solution[j] || (dense[j] == 0 && sparse[j] == 0));
                    assert(sparse[j] == solution[j] || sparse[j] == 0);
                }
                assert(candidates(sparse, q, h).contains(c));
                assert(set![e].contains(c));
            }
            assert(candidates(dense, q, h) =~= set![d]);
            lemma_forced_digit(dense, q, h, d);
            let denser = place(dense, q, h);
            assert forall|i: int| 0 <= i < denser.len() implies #[trigger] denser[i] == solution[i]
                || (denser[i] == 0 && next[i] == 0) by {
                assert(dense[i] == solution[i] || (dense[i] == 0 && sparse[i] == 0));
            }
            assert forall|k: int| 0 <= k < rest.len() implies (keep.contains(#[trigger] rest[k])
                <==> denser[rest[k] as int] == 0) by {
                assert(rest[k] == chain[k + 1]);
                assert(chain[k + 1] != chain[0]);
            }
            lemma_known_cells_keep_moves(solution, q, next, denser, rest, keep);
            let sub = kept(chain, keep);
            assert(sub[0] == chain[0]);
            assert(sub.drop_first() =~= kept(rest, keep));
        } else {
            assert forall|i: int| 0 <= i < dense.len() implies #[trigger] dense[i] == solution[i]
                || (dense[i] == 0 && next[i] == 0) by {
                assert(dense[i] == solution[i] || (dense[i] == 0 && sparse[i] == 0));
            }
            lemma_known_cells_keep_moves(solution, q, next, dense, rest, keep);
        }
    }
}

/// Fewer holes are easier: where the holes of a solved grid are deducible,
/// so is every part of them.
pub proof fn lemma_fewer_holes_stay_deducible(
    solution: Seq<u8>,
    q: int,
    fewer: Set<usize>,
    holes: Set<usize>,
)
    requires
        solved(solution, q),
        within(holes, solution.len()),
        fewer.subset_of(holes),
        deducible(emptied(solution, holes), q, holes),
    ensures
        deducible(emptied(solution, fewer), q, fewer),
{
    let sparse = emptied(solution, holes);
    let dense = emptied(solution, fewer);
    let chain = choose|chain: Seq<usize>| lists(chain, holes) && playable(sparse, q, chain);
    lemma_emptied_again(solution, holes);
    lemma_listed_blank_is_fresh(sparse, holes, chain);
    assert forall|k: int| 0 <= k < chain.len() implies (fewer.contains(#[trigger] chain[k])
        <==> dense[chain[k] as int] == 0) by {
        assert(chain.to_set().contains(chain[k]));
        assert(1 <= solution[chain[k] as int]);
    }
    assert forall|i: int| 0 <= i < dense.len() implies #[trigger] dense[i] == solution[i] || (
    dense[i] == 0 && sparse[i] == 0) by {
        if is_hole(fewer, i) {
            assert(holes.contains(i as usize));
        }
    }
    lemma_known_cells_keep_moves(solution, q, sparse, dense, chain, fewer);
    lemma_kept_members(chain, fewer);
    let sub = kept(chain, fewer);
    assert(sub.to_set() =~= fewer) by {
        assert forall|x: usize| sub.to_set().contains(x) <==> fewer.contains(x) by {
            if fewer.contains(x) {
                assert(chain.to_set().contains(x));
                assert(chain.contains(x));
                assert(sub.contains(x));
            }
            if sub.to_set().contains(x) {
                assert(sub.contains(x));
            }
        }
    }
    assert(lists(sub, fewer) && playable(dense, q, sub));
}

} // verus!
