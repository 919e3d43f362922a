//! Solving by forced moves: a hole with a single candidate takes it. A set
//! of holes is deducible when such moves alone fill all of them.

use vstd::prelude::*;
use crate::geometry::{peers, side_of};
use crate::rules::{candidates, free_at};

verus! {

/// Digit `d` is the only one that cell `h` may take.
pub open spec fn forced_to(grid: Seq<u8>, q: int, h: int, d: u8) -> bool {
    candidates(grid, q, h) =~= set![d]
}

/// Cell `h` may take exactly one digit.
pub open spec fn forced(grid: Seq<u8>, q: int, h: int) -> bool {
    exists|d: u8| forced_to(grid, q, h, d)
}

/// The digit that a forced cell takes.
pub open spec fn forced_digit(grid: Seq<u8>, q: int, h: int) -> u8 {
    choose|d: u8| forced_to(grid, q, h, d)
}

/// Cell `h` may take no digit at all.
pub open spec fn hopeless(grid: Seq<u8>, q: int, h: int) -> bool {
    candidates(grid, q, h) =~= Set::<u8>::empty()
}

/// The grid after the forced cell `h` has taken its digit.
pub open spec fn place(grid: Seq<u8>, q: int, h: int) -> Seq<u8> {
    grid.update(h, forced_digit(grid, q, h))
}

/// Every hole is a cell of the grid.
pub open spec fn within(holes: Set<usize>, cells: nat) -> bool {
    forall|h: usize| holes.contains(h) ==> h < cells
}

/// Every hole is a cell of the grid and holds nothing.
pub open spec fn blank_at(grid: Seq<u8>, holes: Set<usize>) -> bool {
    forall|h: usize| holes.contains(h) ==> h < grid.len() && grid[h as int] == 0
}

/// Cell `i` is one of the holes.
pub open spec fn is_hole(holes: Set<usize>, i: int) -> bool {
    0 <= i <= usize::MAX && holes.contains(i as usize)
}

/// The grid with every hole emptied.
pub open spec fn emptied(grid: Seq<u8>, holes: Set<usize>) -> Seq<u8> {
    Seq::new(
        grid.len(),
        |i: int|
            if is_hole(holes, i) {
                0u8
            } else {
                grid[i]
            },
    )
}

/// The cells of `chain` can be filled one after the other, each of them
/// forced at its turn.
pub open spec fn playable(grid: Seq<u8>, q: int, chain: Seq<usize>) -> bool
    decreases chain.len(),
{
    chain.len() == 0 || (chain[0] < grid.len() && forced(grid, q, chain[0] as int) && playable(
        place(grid, q, chain[0] as int),
        q,
        chain.drop_first(),
    ))
}

/// The grid after the cells of `chain` have taken their forced digits in turn.
pub open spec fn played(grid: Seq<u8>, q: int, chain: Seq<usize>) -> Seq<u8>
    decreases chain.len(),
{
    if chain.len() == 0 {
        grid
    } else {
        played(place(grid, q, chain[0] as int), q, chain.drop_first())
    }
}

/// `chain` names every hole once and nothing else.
pub open spec fn lists(chain: Seq<usize>, holes: Set<usize>) -> bool {
    chain.no_duplicates() && chain.to_set() =~= holes
}

/// Forced moves alone fill all the holes, in some order.
pub open spec fn deducible(grid: Seq<u8>, q: int, holes: Set<usize>) -> bool {
    exists|chain: Seq<usize>| lists(chain, holes) && playable(grid, q, chain)
}

/// One of the holes has no candidate.
pub open spec fn blocked(grid: Seq<u8>, q: int, holes: Set<usize>) -> bool {
    exists|h: usize| holes.contains(h) && hopeless(grid, q, h as int)
}

/// None of the holes is forced.
pub open spec fn idle(grid: Seq<u8>, q: int, holes: Set<usize>) -> bool {
    forall|h: usize| holes.contains(h) ==> !forced(grid, q, h as int)
}

/// The forced hole `h` took its digit: that gave the grid `after` and left
/// the holes `left`.
pub open spec fn moved(
    grid: Seq<u8>,
    q: int,
    holes: Set<usize>,
    h: usize,
    after: Seq<u8>,
    left: Set<usize>,
) -> bool {
    &&& holes.contains(h)
    &&& forced(grid, q, h as int)
    &&& after == place(grid, q, h as int)
    &&& left == holes.remove(h)
}

/// The holes that `chain` does not name.
pub open spec fn left_by(holes: Set<usize>, chain: Seq<usize>) -> Set<usize> {
    holes.difference(chain.to_set())
}

/// Forced moves on the holes of `chain`, in turn, lead to a grid in which
/// holes are left and no further forced move helps: one of the holes left
/// has no candidate, or none of them is forced.
pub open spec fn stalls_after(grid: Seq<u8>, q: int, holes: Set<usize>, chain: Seq<usize>) -> bool {
    &&& chain.no_duplicates()
    &&& chain.to_set().subset_of(holes)
    &&& playable(grid, q, chain)
    &&& exists|h: usize| left_by(holes, chain).contains(h)
    &&& (blocked(played(grid, q, chain), q, left_by(holes, chain)) || idle(
        played(grid, q, chain),
        q,
        left_by(holes, chain),
    ))
}

/// Some run of forced moves on the holes gets stuck before all are filled.
pub open spec fn stalls(grid: Seq<u8>, q: int, holes: Set<usize>) -> bool {
    exists|chain: Seq<usize>| stalls_after(grid, q, holes, chain)
}

/// A forced cell takes the digit it is forced to, and that digit is a digit
/// of the grid.
pub proof fn lemma_forced_digit(grid: Seq<u8>, q: int, h: int, d: u8)
    requires
        forced_to(grid, q, h, d),
    ensures
        forced(grid, q, h),
        forced_digit(grid, q, h) == d,
        1 <= d <= side_of(q),
        free_at(grid, q, h, d),
{
    let e = forced_digit(grid, q, h);
    assert(forced_to(grid, q, h, e));
    assert(set![d].contains(d));
    assert(candidates(grid, q, h).contains(d));
    assert(set![e].contains(d));
}

/// Filling an empty cell takes the digit away from the candidates of the
/// cell's peers and changes nothing else.
pub proof fn lemma_candidates_after_fill(grid: Seq<u8>, q: int, i: int, v: u8, h: int)
    requires
        0 <= i < grid.len(),
        grid[i] == 0,
    ensures
        forall|d: u8|
            #[trigger] candidates(grid.update(i, v), q, h).contains(d) <==> candidates(
                grid,
                q,
                h,
            ).contains(d) && !(i != h && peers(q, h, i) && d == v),
{
    let after = grid.update(i, v);
    assert forall|d: u8| #[trigger]
        candidates(after, q, h).contains(d) <==> candidates(grid, q, h).contains(d) && !(i != h
            && peers(q, h, i) && d == v) by {
        if candidates(after, q, h).contains(d) {
            assert forall|j: int|
                0 <= j < grid.len() && j != h && peers(q, h, j) implies #[trigger] grid[j] != d by {
                if j != i {
                    assert(after[j] == grid[j]);
                }
            }
            if i != h && peers(q, h, i) {
                assert(after[i] != d);
            }
        }
        if candidates(grid, q, h).contains(d) && !(i != h && peers(q, h, i) && d == v) {
            assert forall|j: int|
                0 <= j < after.len() && j != h && peers(q, h, j) implies
                #[trigger] after[j] != d by {
                if j != i {
                    assert(grid[j] != d);
                }
            }
        }
    }
}

/// With no hole there is nothing to deduce.
pub proof fn lemma_no_holes_deducible(grid: Seq<u8>, q: int)
    ensures
        deducible(grid, q, Set::<usize>::empty()),
{
    let chain = Seq::<usize>::empty();
    assert(chain.to_set() =~= Set::<usize>::empty());
    assert(lists(chain, Set::<usize>::empty()) && playable(grid, q, chain));
}

/// A playable chain can be made longer by a cell that is forced once the
/// chain has been played.
pub proof fn lemma_play_one_more(grid: Seq<u8>, q: int, chain: Seq<usize>, h: usize)
    requires
        playable(grid, q, chain),
        h < grid.len(),
        forced(played(grid, q, chain), q, h as int),
    ensures
        playable(grid, q, chain.push(h)),
        played(grid, q, chain.push(h)) == place(played(grid, q, chain), q, h as int),
    decreases chain.len(),
{
    let longer = chain.push(h);
    if chain.len() == 0 {
        assert(longer.drop_first() =~= Seq::<usize>::empty());
        assert(longer[0] == h);
        assert(playable(place(grid, q, h as int), q, longer.drop_first()));
        assert(played(place(grid, q, h as int), q, longer.drop_first()) == place(
            grid,
            q,
            h as int,
        ));
    } else {
        let next = place(grid, q, chain[0] as int);
        lemma_play_one_more(next, q, chain.drop_first(), h);
        assert(longer.drop_first() =~= chain.drop_first().push(h));
        assert(longer[0] == chain[0]);
    }
}

/// Playing a chain changes no cell that the chain does not name.
pub proof fn lemma_played_elsewhere(grid: Seq<u8>, q: int, chain: Seq<usize>, i: int)
    requires
        playable(grid, q, chain),
        0 <= i < grid.len(),
        forall|k: int| 0 <= k < chain.len() ==> chain[k] != i,
    ensures
        played(grid, q, chain)[i] == grid[i],
    decreases chain.len(),
{
    if chain.len() > 0 {
        let rest = chain.drop_first();
        assert forall|k: int| 0 <= k < rest.len() implies rest[k] != i by {
            assert(rest[k] == chain[k + 1]);
        }
        lemma_played_elsewhere(place(grid, q, chain[0] as int), q, rest, i);
    }
}

/// Emptying the holes a second time changes nothing, and emptying holes
/// that are empty changes nothing at all. So a question about the holes
/// leaves the grid as the question before left it, and is asked of the same
/// grid and holes again: where the holes were empty from the start, every
/// time.
pub proof fn lemma_emptied_again(grid: Seq<u8>, holes: Set<usize>)
    requires
        within(holes, grid.len()),
    ensures
        blank_at(emptied(grid, holes), holes),
        emptied(emptied(grid, holes), holes) == emptied(grid, holes),
        blank_at(grid, holes) ==> emptied(grid, holes) == grid,
        holes.is_empty() ==> emptied(grid, holes) == grid,
{
    assert(emptied(emptied(grid, holes), holes) =~= emptied(grid, holes));
    if blank_at(grid, holes) {
        assert forall|i: int| 0 <= i < grid.len() implies emptied(grid, holes)[i] == grid[i] by {
            if is_hole(holes, i) {
                assert(grid[(i as usize) as int] == 0);
            }
        }
        assert(emptied(grid, holes) =~= grid);
    }
    if holes.is_empty() {
        assert(emptied(grid, holes) =~= grid);
    }
}

} // verus!
