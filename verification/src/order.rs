//! The order of forced moves does not matter: where the holes are empty,
//! whether forced moves fill them all does not depend on which forced hole
//! is filled first.

use vstd::prelude::*;
use crate::deduction::{
    blank_at, blocked, deducible, forced, forced_digit, forced_to, hopeless, left_by,
    lemma_candidates_after_fill, lemma_forced_digit, lists, place, playable, stalls_after,
};
use crate::geometry::peers;
use crate::rules::{candidates, free_at};

verus! {

/// The chain names empty cells of the grid, none of them twice.
pub open spec fn fresh(grid: Seq<u8>, chain: Seq<usize>) -> bool {
    &&& chain.no_duplicates()
    &&& forall|k: int|
        0 <= k < chain.len() ==> #[trigger] chain[k] < grid.len() && grid[chain[k] as int] == 0
}

/// After the first move of a fresh chain, the rest of it is fresh.
pub proof fn lemma_fresh_rest(grid: Seq<u8>, q: int, chain: Seq<usize>)
    requires
        fresh(grid, chain),
        chain.len() > 0,
    ensures
        fresh(place(grid, q, chain[0] as int), chain.drop_first()),
{
    let rest = chain.drop_first();
    let next = place(grid, q, chain[0] as int);
    assert forall|k: int| 0 <= k < rest.len() implies #[trigger] rest[k] < next.len()
        && next[rest[k] as int] == 0 by {
        assert(rest[k] == chain[k + 1]);
        assert(chain[k + 1] != chain[0]);
    }
    assert forall|a: int, b: int|
        0 <= a < rest.len() && 0 <= b < rest.len() && a != b implies rest[a] != rest[b] by {
        assert(rest[a] == chain[a + 1] && rest[b] == chain[b + 1]);
    }
}

/// A chain that lists blank holes is fresh.
pub proof fn lemma_listed_blank_is_fresh(grid: Seq<u8>, holes: Set<usize>, chain: Seq<usize>)
    requires
        blank_at(grid, holes),
        lists(chain, holes),
    ensures
        fresh(grid, chain),
{
    assert forall|k: int| 0 <= k < chain.len() implies #[trigger] chain[k] < grid.len()
        && grid[chain[k] as int] == 0 by {
        assert(chain.to_set().contains(chain[k]));
    }
}

/// A cell that a playable chain fills at some turn has a candidate from
/// the start: filling other cells only takes candidates away.
pub proof fn lemma_chain_needs_candidates(grid: Seq<u8>, q: int, chain: Seq<usize>, j: int)
    requires
        fresh(grid, chain),
        playable(grid, q, chain),
        0 <= j < chain.len(),
    ensures
        !hopeless(grid, q, chain[j] as int),
    decreases j,
{
    let h = chain[j] as int;
    if j == 0 {
        let d = forced_digit(grid, q, h);
        assert(forced_to(grid, q, h, d));
        assert(set![d].contains(d));
        assert(candidates(grid, q, h).contains(d));
    } else {
        let first = chain[0] as int;
        let rest = chain.drop_first();
        let next = place(grid, q, first);
        lemma_fresh_rest(grid, q, chain);
        assert(rest[j - 1] == chain[j]);
        lemma_chain_needs_candidates(next, q, rest, j - 1);
        lemma_candidates_after_fill(grid, q, first, forced_digit(grid, q, first), h);
        if hopeless(grid, q, h) {
            assert forall|d: u8| !candidates(next, q, h).contains(d) by {
                assert(!candidates(grid, q, h).contains(d));
            }
            assert(candidates(next, q, h) =~= Set::<u8>::empty());
        }
    }
}

/// A forced move that a playable chain makes later can be made first: the
/// other moves of the chain stay forced, to the same digits.
pub proof fn lemma_forced_move_first(grid: Seq<u8>, q: int, chain: Seq<usize>, j: int)
    requires
        fresh(grid, chain),
        playable(grid, q, chain),
        0 <= j < chain.len(),
        forced(grid, q, chain[j] as int),
    ensures
        playable(place(grid, q, chain[j] as int), q, chain.remove(j)),
    decreases j,
{
    let h = chain[j] as int;
    if j == 0 {
        assert(chain.remove(0) =~= chain.drop_first());
    } else {
        let first = chain[0] as int;
        let rest = chain.drop_first();
        let v1 = forced_digit(grid, q, first);
        let v = forced_digit(grid, q, h);
        let next = place(grid, q, first);
        let other = place(grid, q, h);
        assert(forced_to(grid, q, first, v1));
        assert(forced_to(grid, q, h, v));
        lemma_forced_digit(grid, q, first, v1);
        lemma_forced_digit(grid, q, h, v);
        lemma_fresh_rest(grid, q, chain);
        assert(rest[j - 1] == chain[j]);
        assert(first != h);
        // The later cell is still forced after the first move, to the same digit.
        lemma_chain_needs_candidates(next, q, rest, j - 1);
        lemma_candidates_after_fill(grid, q, first, v1, h);
        assert(candidates(next, q, h).contains(v)) by {
            if !candidates(next, q, h).contains(v) {
                assert forall|d: u8| !candidates(next, q, h).contains(d) by {
                    if candidates(next, q, h).contains(d) {
                        assert(candidates(grid, q, h).contains(d));
                        assert(set![v].contains(d));
                    }
                }
                assert(candidates(next, q, h) =~= Set::<u8>::empty());
            }
        }
        assert(forced_to(next, q, h, v)) by {
            assert forall|d: u8| candidates(next, q, h).contains(d) implies d == v by {
                assert(candidates(grid, q, h).contains(d));
                assert(set![v].contains(d));
            }
            assert(candidates(next, q, h) =~= set![v]);
        }
        lemma_forced_digit(next, q, h, v);
        lemma_forced_move_first(next, q, rest, j - 1);
        // The first cell is still forced after the later move, to the same digit.
        lemma_candidates_after_fill(grid, q, h, v, first);
        assert(!(peers(q, first, h) && v1 == v)) by {
            if peers(q, first, h) && v1 == v {
                assert(peers(q, h, first));
                assert(next[first] == v1);
                assert(free_at(next, q, h, v));
            }
        }
        assert(forced_to(other, q, first, v1)) by {
            assert(set![v1].contains(v1));
            assert(candidates(grid, q, first).contains(v1));
            assert(candidates(other, q, first).contains(v1));
            assert forall|d: u8| candidates(other, q, first).contains(d) implies d == v1 by {
                assert(candidates(grid, q, first).contains(d));
                assert(set![v1].contains(d));
            }
            assert(candidates(other, q, first) =~= set![v1]);
        }
        lemma_forced_digit(other, q, first, v1);
        assert(place(other, q, first) =~= place(next, q, h));
        assert(chain.remove(j).drop_first() =~= rest.remove(j - 1));
        assert(chain.remove(j)[0] == chain[0]);
    }
}

/// A forced move on one of the blank holes does not change whether the
/// holes are deducible: whichever forced hole is filled first, the verdict
/// is the same.
pub proof fn lemma_forced_move_keeps_verdict(grid: Seq<u8>, q: int, holes: Set<usize>, h: usize)
    requires
        blank_at(grid, holes),
        holes.contains(h),
        forced(grid, q, h as int),
    ensures
        blank_at(place(grid, q, h as int), holes.remove(h)),
        deducible(grid, q, holes) == deducible(place(grid, q, h as int), q, holes.remove(h)),
{
    let next = place(grid, q, h as int);
    let fewer = holes.remove(h);
    if deducible(grid, q, holes) {
        let chain = choose|chain: Seq<usize>| lists(chain, holes) && playable(grid, q, chain);
        lemma_listed_blank_is_fresh(grid, holes, chain);
        assert(chain.to_set().contains(h));
        let j = choose|j: int| 0 <= j < chain.len() && chain[j] == h;
        lemma_forced_move_first(grid, q, chain, j);
        let shorter = chain.remove(j);
        assert(shorter.no_duplicates()) by {
            assert forall|a: int, b: int|
                0 <= a < shorter.len() && 0 <= b < shorter.len() && a != b implies shorter[a]
                != shorter[b] by {
                let a0 = if a < j {
                    a
                } else {
                    a + 1
                };
                let b0 = if b < j {
                    b
                } else {
                    b + 1
                };
                assert(shorter[a] == chain[a0] && shorter[b] == chain[b0]);
            }
        }
        assert(shorter.to_set() =~= fewer) by {
            assert forall|x: usize| shorter.to_set().contains(x) <==> fewer.contains(x) by {
                if shorter.to_set().contains(x) {
                    let a = choose|a: int| 0 <= a < shorter.len() && shorter[a] == x;
                    let a0 = if a < j {
                        a
                    } else {
                        a + 1
                    };
                    assert(shorter[a] == chain[a0]);
                    assert(chain.to_set().contains(chain[a0]));
                }
                if fewer.contains(x) {
                    assert(chain.to_set().contains(x));
                    let a0 = choose|a0: int| 0 <= a0 < chain.len() && chain[a0] == x;
                    let a = if a0 < j {
                        a0
                    } else {
                        a0 - 1
                    };
                    assert(shorter[a] == x);
                }
            }
        }
        assert(lists(shorter, fewer) && playable(next, q, shorter));
    }
    if deducible(next, q, fewer) {
        let rest = choose|rest: Seq<usize>| lists(rest, fewer) && playable(next, q, rest);
        let chain = seq![h] + rest;
        assert(chain.drop_first() =~= rest);
        assert(chain[0] == h);
        assert(chain.no_duplicates()) by {
            assert forall|a: int, b: int|
                0 <= a < chain.len() && 0 <= b < chain.len() && a != b implies chain[a]
                != chain[b] by {
                if a > 0 {
                    assert(chain[a] == rest[a - 1]);
                    assert(rest.to_set().contains(rest[a - 1]));
                }
                if b > 0 {
                    assert(chain[b] == rest[b - 1]);
                    assert(rest.to_set().contains(rest[b - 1]));
                }
            }
        }
        assert(chain.to_set() =~= holes) by {
            assert forall|x: usize| chain.to_set().contains(x) <==> holes.contains(x) by {
                if chain.to_set().contains(x) {
                    let a = choose|a: int| 0 <= a < chain.len() && chain[a] == x;
                    if a > 0 {
                        assert(chain[a] == rest[a - 1]);
                        assert(rest.to_set().contains(rest[a - 1]));
                    }
                }
                if holes.contains(x) {
                    if x == h {
                        assert(chain[0] == x);
                    } else {
                        assert(rest.to_set().contains(x));
                        let a = choose|a: int| 0 <= a < rest.len() && rest[a] == x;
                        assert(chain[a + 1] == x);
                    }
                }
            }
        }
        assert(lists(chain, holes) && playable(grid, q, chain));
    }
}

/// Blank holes one of which has no candidate are not deducible.
pub proof fn lemma_hopeless_hole_blocks(grid: Seq<u8>, q: int, holes: Set<usize>, h: usize)
    requires
        blank_at(grid, holes),
        holes.contains(h),
        hopeless(grid, q, h as int),
    ensures
        !deducible(grid, q, holes),
{
    if deducible(grid, q, holes) {
        let chain = choose|chain: Seq<usize>| lists(chain, holes) && playable(grid, q, chain);
        lemma_listed_blank_is_fresh(grid, holes, chain);
        assert(chain.to_set().contains(h));
        let j = choose|j: int| 0 <= j < chain.len() && chain[j] == h;
        lemma_chain_needs_candidates(grid, q, chain, j);
    }
}

/// Holes none of which is forced are not deducible, unless there is none.
pub proof fn lemma_nothing_forced_blocks(grid: Seq<u8>, q: int, holes: Set<usize>, h: usize)
    requires
        holes.contains(h),
        forall|k: usize| holes.contains(k) ==> !forced(grid, q, k as int),
    ensures
        !deducible(grid, q, holes),
{
    if deducible(grid, q, holes) {
        let chain = choose|chain: Seq<usize>| lists(chain, holes) && playable(grid, q, chain);
        assert(chain.to_set().contains(h));
        assert(chain.len() > 0);
        assert(chain.to_set().contains(chain[0]));
    }
}

/// Blank holes on which some run of forced moves gets stuck are not
/// deducible: no other order of moves does better.
pub proof fn lemma_stall_blocks(grid: Seq<u8>, q: int, holes: Set<usize>, chain: Seq<usize>)
    requires
        blank_at(grid, holes),
        stalls_after(grid, q, holes, chain),
    ensures
        !deducible(grid, q, holes),
    decreases chain.len(),
{
    if chain.len() == 0 {
        assert(chain.to_set() =~= Set::<usize>::empty());
        assert(left_by(holes, chain) =~= holes);
        let h = choose|h: usize| left_by(holes, chain).contains(h);
        if blocked(grid, q, holes) {
            let dead = choose|k: usize| holes.contains(k) && hopeless(grid, q, k as int);
            lemma_hopeless_hole_blocks(grid, q, holes, dead);
        } else {
            lemma_nothing_forced_blocks(grid, q, holes, h);
        }
    } else {
        let h = chain[0];
        let rest = chain.drop_first();
        let next = place(grid, q, h as int);
        let fewer = holes.remove(h);
        assert(chain.to_set().contains(h));
        lemma_forced_move_keeps_verdict(grid, q, holes, h);
        assert(rest.no_duplicates()) by {
            assert forall|a: int, b: int|
                0 <= a < rest.len() && 0 <= b < rest.len() && a != b implies rest[a] != rest[b] by {
                assert(rest[a] == chain[a + 1] && rest[b] == chain[b + 1]);
            }
        }
        assert forall|x: usize| rest.to_set().contains(x) implies fewer.contains(x) by {
            let a = choose|a: int| 0 <= a < rest.len() && rest[a] == x;
            assert(rest[a] == chain[a + 1]);
            assert(chain.to_set().contains(chain[a + 1]));
            assert(chain[a + 1] != chain[0]);
        }
        assert(left_by(fewer, rest) =~= left_by(holes, chain)) by {
            assert forall|x: usize| left_by(fewer, rest).contains(x) <==> left_by(
                holes,
                chain,
            ).contains(x) by {
                if chain.to_set().contains(x) && x != h {
                    let a = choose|a: int| 0 <= a < chain.len() && chain[a] == x;
                    assert(rest[a - 1] == x);
                }
                if rest.to_set().contains(x) {
                    let a = choose|a: int| 0 <= a < rest.len() && rest[a] == x;
                    assert(chain[a + 1] == x);
                }
            }
        }
        assert(stalls_after(next, q, fewer, rest));
        lemma_stall_blocks(next, q, fewer, rest);
    }
}

} // verus!
