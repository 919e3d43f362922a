//! The grid itself and the operations on it.

use vstd::prelude::*;
use std::collections::HashSet;
use vstd::std_specs::iter::IteratorSpec;
use crate::deduction::{
    blank_at, blocked, deducible, emptied, forced, forced_digit, forced_to, idle, left_by,
    lemma_emptied_again, lemma_forced_digit, lemma_play_one_more, lemma_played_elsewhere, lists,
    moved, place, playable, played, stalls, stalls_after, within,
};
use crate::members::{copy_of, digits_in, lemma_cells_finite, only_member};
use crate::order::lemma_stall_blocks;
use crate::puzzle::{
    accepted, blanks, full, lemma_accepted_stay_deducible, lemma_accepted_were_visited,
    lemma_blanks_of_emptied,
    lemma_visited_in_range, lemma_visits_differ, punched, visited,
};
use crate::random::{random_below, shuffle};
use crate::search::{
    completable, completes, empty_from, extends, filled_from, kept_or_emptied,
    lemma_candidate_extends_completion, lemma_completion_takes_candidate,
    lemma_empty_grid_completable, lemma_filled_is_solved,
};
use crate::rules::{
    candidates, lemma_candidates_finite, lemma_neighborhood_holds_peers,
    lemma_unused_by_neighborhood, solved, unused_by,
};
use crate::geometry::{
    cell_at, cells_of, column_cells, column_of, lemma_cell_at_in_range,
    lemma_coordinates_in_range, lemma_quadrant_corner, lemma_quadrant_offset, lemma_side_bounds,
    neighborhood_cells, quadrant_cells, row_cells, row_of, side_of, MAX_QUADRANT_SIDE,
};

verus! {

/// A square grid of digits in row-major order. `0` is an empty cell, the
/// digits run from `1` to `side`.
pub struct Table {
    pub grid: Vec<u8>,
    pub quadrant_side: usize,
    pub side: usize,
}

impl Table {
    /// The quadrant edge as a mathematical integer.
    pub open spec fn q(&self) -> int {
        self.quadrant_side as int
    }

    /// The size parameters agree and the buffer has one cell per position.
    pub open spec fn well_shaped(&self) -> bool {
        &&& 1 <= self.quadrant_side <= MAX_QUADRANT_SIDE
        &&& self.side == side_of(self.q())
        &&& self.grid@.len() == cells_of(self.q())
    }

    /// The table is well shaped and no cell holds more than the largest digit.
    pub open spec fn wf(&self) -> bool {
        &&& self.well_shaped()
        &&& forall|i: int| 0 <= i < self.grid@.len() ==> #[trigger] self.grid@[i] <= self.side
    }

    /// An empty grid whose quadrants have edge `quadrant_side`.
    pub fn new(quadrant_side: usize) -> (table: Table)
        requires
            1 <= quadrant_side <= MAX_QUADRANT_SIDE,
        ensures
            table.wf(),
            table.quadrant_side == quadrant_side,
            table.grid@ == Seq::new(cells_of(quadrant_side as int) as nat, |i: int| 0u8),
    {
        proof {
            lemma_side_bounds(quadrant_side as int);
        }
        let side: usize = quadrant_side * quadrant_side;
        let cells: usize = side * side;
        let mut grid: Vec<u8> = Vec::new();
        while grid.len() < cells
            invariant
                grid@.len() <= cells,
                forall|i: int| 0 <= i < grid@.len() ==> grid@[i] == 0u8,
            decreases cells - grid@.len(),
        {
            grid.push(0u8);
        }
        assert(grid@ =~= Seq::new(cells_of(quadrant_side as int) as nat, |i: int| 0u8));
        Table { grid, quadrant_side, side }
    }

    /// Empties every cell.
    pub fn clear(&mut self)
        ensures
            final(self).quadrant_side == old(self).quadrant_side,
            final(self).side == old(self).side,
            final(self).grid@ == Seq::new(old(self).grid@.len(), |i: int| 0u8),
            old(self).well_shaped() ==> final(self).wf(),
    {
        let cells: usize = self.grid.len();
        let mut i: usize = 0;
        while i < cells
            invariant
                i <= cells,
                self.grid@.len() == cells,
                self.quadrant_side == old(self).quadrant_side,
                self.side == old(self).side,
                forall|k: int| 0 <= k < i ==> self.grid@[k] == 0u8,
            decreases cells - i,
        {
            self.grid[i] = 0u8;
            i += 1;
        }
        assert(self.grid@ =~= Seq::new(old(self).grid@.len(), |i: int| 0u8));
    }

    /// Flat position of the cell in column `x` and row `y`.
    pub fn index(&self, x: usize, y: usize) -> (i: usize)
        requires
            self.well_shaped(),
            x < self.side,
            y < self.side,
        ensures
            i == cell_at(self.q(), x as int, y as int),
            i < self.grid@.len(),
            column_of(self.q(), i as int) == x,
            row_of(self.q(), i as int) == y,
    {
        proof {
            lemma_side_bounds(self.q());
            lemma_cell_at_in_range(self.q(), x as int, y as int);
            assert(y * self.side <= 225 * 225) by (nonlinear_arith)
                requires
                    y < self.side,
                    self.side <= 225,
            ;
        }
        x + y * self.side
    }

    /// Column and row of the cell at flat position `index`.
    pub fn position(&self, index: usize) -> (at: (usize, usize))
        requires
            self.well_shaped(),
        ensures
            at.0 == column_of(self.q(), index as int),
            at.1 == row_of(self.q(), index as int),
            index < self.grid@.len() ==> at.0 < self.side && at.1 < self.side && cell_at(
                self.q(),
                at.0 as int,
                at.1 as int,
            ) == index,
    {
        proof {
            lemma_side_bounds(self.q());
            if index < self.grid@.len() {
                lemma_coordinates_in_range(self.q(), index as int);
            }
        }
        (index % self.side, index / self.side)
    }

    /// The cells of the quadrant that holds `(x, y)`: its columns from the
    /// left, each of them from its top row down.
    pub fn quadrant(&self, x: usize, y: usize) -> (cells: Vec<usize>)
        requires
            self.well_shaped(),
            x < self.side,
            y < self.side,
        ensures
            cells@ == quadrant_cells(self.q(), x as int, y as int),
    {
        let q: usize = self.quadrant_side;
        proof {
            lemma_side_bounds(self.q());
            lemma_quadrant_corner(self.q(), x as int);
            lemma_quadrant_corner(self.q(), y as int);
        }
        let start_x: usize = (x / q) * q;
        let start_y: usize = (y / q) * q;
        let mut cells: Vec<usize> = Vec::new();
        let mut dx: usize = 0;
        while dx < q
            invariant
                self.well_shaped(),
                q == self.quadrant_side,
                x < self.side,
                y < self.side,
                start_x == (x as int / self.q()) * self.q(),
                start_y == (y as int / self.q()) * self.q(),
                start_x + q <= self.side,
                start_y + q <= self.side,
                dx <= q,
                cells@.len() == dx * q,
                forall|k: int|
                    0 <= k < cells@.len() ==> cells@[k] == quadrant_cells(
                        self.q(),
                        x as int,
                        y as int,
                    )[k],
            decreases q - dx,
        {
            let mut dy: usize = 0;
            while dy < q
                invariant
                    self.well_shaped(),
                    q == self.quadrant_side,
                    x < self.side,
                    y < self.side,
                    start_x == (x as int / self.q()) * self.q(),
                    start_y == (y as int / self.q()) * self.q(),
                    start_x + q <= self.side,
                    start_y + q <= self.side,
                    dx < q,
                    dy <= q,
                    cells@.len() == dx * q + dy,
                    forall|k: int|
                        0 <= k < cells@.len() ==> cells@[k] == quadrant_cells(
                            self.q(),
                            x as int,
                            y as int,
                        )[k],
                decreases q - dy,
            {
                proof {
                    lemma_quadrant_offset(self.q(), dx as int, dy as int);
                }
                let i = self.index(start_x + dx, start_y + dy);
                cells.push(i);
                dy += 1;
            }
            proof {
                assert(dx * q + q == (dx + 1) * q) by (nonlinear_arith);
            }
            dx += 1;
        }
        proof {
            assert(dx * q == side_of(self.q())) by (nonlinear_arith)
                requires
                    dx == q,
                    q == self.q(),
            ;
            assert(cells@ =~= quadrant_cells(self.q(), x as int, y as int));
        }
        cells
    }

    /// The cells of column `x`, from the top row down.
    pub fn column(&self, x: usize) -> (cells: Vec<usize>)
        requires
            self.well_shaped(),
            x < self.side,
        ensures
            cells@ == column_cells(self.q(), x as int),
    {
        let mut cells: Vec<usize> = Vec::new();
        let mut y: usize = 0;
        while y < self.side
            invariant
                self.well_shaped(),
                x < self.side,
                y <= self.side,
                cells@.len() == y,
                forall|k: int| 0 <= k < y ==> cells@[k] == column_cells(self.q(), x as int)[k],
            decreases self.side - y,
        {
            let i = self.index(x, y);
            cells.push(i);
            y += 1;
        }
        assert(cells@ =~= column_cells(self.q(), x as int));
        cells
    }

    /// The cells of row `y`, from the left column on.
    pub fn row(&self, y: usize) -> (cells: Vec<usize>)
        requires
            self.well_shaped(),
            y < self.side,
        ensures
            cells@ == row_cells(self.q(), y as int),
    {
        let mut cells: Vec<usize> = Vec::new();
        let mut x: usize = 0;
        while x < self.side
            invariant
                self.well_shaped(),
                y < self.side,
                x <= self.side,
                cells@.len() == x,
                forall|k: int| 0 <= k < x ==> cells@[k] == row_cells(self.q(), y as int)[k],
            decreases self.side - x,
        {
            let i = self.index(x, y);
            cells.push(i);
            x += 1;
        }
        assert(cells@ =~= row_cells(self.q(), y as int));
        cells
    }

    /// Column, then row, then quadrant of `(x, y)`: three times `side` cells,
    /// with the cell itself among them three times.
    pub fn neighborhood(&self, x: usize, y: usize) -> (cells: Vec<usize>)
        requires
            self.well_shaped(),
            x < self.side,
            y < self.side,
        ensures
            cells@ == neighborhood_cells(self.q(), x as int, y as int),
    {
        let mut cells = self.column(x);
        let mut row = self.row(y);
        let mut quadrant = self.quadrant(x, y);
        cells.append(&mut row);
        cells.append(&mut quadrant);
        cells
    }

    /// The digits that the cell at `index` may take: those that none of its
    /// peers holds. What the cell itself holds does not count.
    pub fn valid(&self, index: usize) -> (possibles: HashSet<u8>)
        requires
            self.wf(),
            index < self.grid@.len(),
        ensures
            possibles@ == candidates(self.grid@, self.q(), index as int),
    {
        broadcast use vstd::std_specs::hash::group_hash_axioms;

        let (x, y) = self.position(index);
        proof {
            lemma_side_bounds(self.q());
        }
        let mut possibles: HashSet<u8> = HashSet::new();
        let mut digit: usize = 1;
        while digit <= self.side
            invariant
                self.wf(),
                self.side <= 225,
                1 <= digit <= self.side + 1,
                possibles@ == Set::new(|d: u8| 1 <= d < digit),
            decreases self.side + 1 - digit,
        {
            possibles.insert(digit as u8);
            assert(possibles@ =~= Set::new(|d: u8| 1 <= d < digit + 1));
            digit += 1;
        }
        let used = self.neighborhood(x, y);
        let ghost cells = neighborhood_cells(self.q(), x as int, y as int);
        let mut k: usize = 0;
        while k < used.len()
            invariant
                self.wf(),
                index < self.grid@.len(),
                x == column_of(self.q(), index as int),
                y == row_of(self.q(), index as int),
                used@ == cells,
                cells == neighborhood_cells(self.q(), x as int, y as int),
                cells.len() == 3 * self.side,
                k <= used@.len(),
                possibles@ == Set::new(
                    |d: u8|
                        1 <= d <= self.side && unused_by(
                            self.grid@,
                            cells,
                            index as int,
                            k as int,
                            d,
                        ),
                ),
            decreases used@.len() - k,
        {
            proof {
                lemma_neighborhood_holds_peers(self.q(), index as int, k as int);
            }
            let i = used[k];
            let value: u8 = if i == index {
                0
            } else {
                self.grid[i]
            };
            possibles.remove(&value);
            assert(possibles@ =~= Set::new(
                |d: u8|
                    1 <= d <= self.side && unused_by(
                        self.grid@,
                        cells,
                        index as int,
                        k as int + 1,
                        d,
                    ),
            ));
            k += 1;
        }
        proof {
            lemma_unused_by_neighborhood(self.grid@, self.q(), index as int);
            assert(possibles@ =~= candidates(self.grid@, self.q(), index as int));
        }
        possibles
    }

    /// One step of deduction. The holes are scanned in the order in which
    /// the set hands them out, up to the first that has no candidate or a
    /// single one. A hole with a single candidate takes it and leaves the
    /// set: that is progress. A hole without candidates, or none of either
    /// kind, is no progress and changes nothing.
    pub fn obvious_step(&mut self, holes: &mut HashSet<usize>) -> (progress: bool)
        requires
            old(self).wf(),
            within(old(holes)@, old(self).grid@.len()),
        ensures
            final(self).wf(),
            final(self).quadrant_side == old(self).quadrant_side,
            progress ==> exists|h: usize|
                moved(
                    old(self).grid@,
                    old(self).q(),
                    old(holes)@,
                    h,
                    final(self).grid@,
                    final(holes)@,
                ),
            !progress ==> final(self).grid@ == old(self).grid@ && final(holes)@ == old(holes)@,
            !progress ==> blocked(old(self).grid@, old(self).q(), old(holes)@) || idle(
                old(self).grid@,
                old(self).q(),
                old(holes)@,
            ),
    {
        broadcast use vstd::std_specs::hash::group_hash_axioms;

        let ghost all = holes.iter().remaining().unref();
        for to_place in it: holes.iter()
            invariant
                self.wf(),
                *self == *old(self),
                *holes == *old(holes),
                within(holes@, self.grid@.len()),
                it.seq().unref() == all,
                all.to_set() == holes@,
                forall|k: int|
                    0 <= k < it.index() ==> !forced(self.grid@, self.q(), #[trigger] all[k] as int),
        {
            let to_place: usize = *to_place;
            assert(all.to_set().contains(all[it.index() as int]));
            let possibles = self.valid(to_place);
            proof {
                lemma_candidates_finite(self.grid@, self.q(), to_place as int);
            }
            if possibles.is_empty() {
                return false;
            } else if possibles.len() == 1 {
                let digit = only_member(&possibles);
                proof {
                    lemma_forced_digit(self.grid@, self.q(), to_place as int, digit);
                }
                self.grid[to_place] = digit;
                holes.remove(&to_place);
                proof {
                    assert(self.grid@ =~= place(old(self).grid@, old(self).q(), to_place as int));
                    assert(holes@ == old(holes)@.remove(to_place));
                    assert(moved(
                        old(self).grid@,
                        old(self).q(),
                        old(holes)@,
                        to_place,
                        self.grid@,
                        holes@,
                    ));
                }
                return true;
            }
            proof {
                if forced(self.grid@, self.q(), to_place as int) {
                    let d = forced_digit(self.grid@, self.q(), to_place as int);
                    assert(forced_to(self.grid@, self.q(), to_place as int, d));
                    assert(set![d].len() == 1);
                }
            }
        }
        proof {
            assert forall|h: usize| holes@.contains(h) implies !forced(
                self.grid@,
                self.q(),
                h as int,
            ) by {
                assert(all.to_set().contains(h));
                let k = choose|k: int| 0 <= k < all.len() && all[k] == h;
                assert(!forced(self.grid@, self.q(), all[k] as int));
            }
        }
        false
    }

    /// Can the holes be filled by forced moves alone? Steps of deduction
    /// are made until no hole is left or a step makes no progress. Whatever
    /// the verdict, every hole is empty afterwards and no other cell has
    /// changed.
    ///
    /// Where the holes are empty from the start, the verdict does not depend
    /// on the order in which the set hands out its members: it says whether
    /// the holes are deducible.
    pub fn obvious(&mut self, initial: &HashSet<usize>) -> (solvable: bool)
        requires
            old(self).wf(),
            within(initial@, old(self).grid@.len()),
        ensures
            final(self).wf(),
            final(self).quadrant_side == old(self).quadrant_side,
            final(self).grid@ == emptied(old(self).grid@, initial@),
            solvable ==> deducible(old(self).grid@, old(self).q(), initial@),
            !solvable ==> stalls(old(self).grid@, old(self).q(), initial@),
            blank_at(old(self).grid@, initial@) ==> solvable == deducible(
                old(self).grid@,
                old(self).q(),
                initial@,
            ),
            initial@.is_empty() ==> solvable && final(self).grid@ == old(self).grid@,
    {
        broadcast use vstd::std_specs::hash::group_hash_axioms;

        let mut holes = copy_of(initial);
        let ghost mut chain: Seq<usize> = Seq::empty();
        let mut solvable = false;
        proof {
            lemma_cells_finite(&holes);
            assert(chain.to_set() =~= Set::<usize>::empty());
            assert(holes@ =~= left_by(initial@, chain));
        }
        loop
            invariant
                self.wf(),
                self.quadrant_side == old(self).quadrant_side,
                within(initial@, self.grid@.len()),
                self.grid@.len() == old(self).grid@.len(),
                holes@.finite(),
                chain.no_duplicates(),
                chain.to_set().subset_of(initial@),
                holes@ == left_by(initial@, chain),
                playable(old(self).grid@, old(self).q(), chain),
                self.grid@ == played(old(self).grid@, old(self).q(), chain),
            ensures
                solvable ==> deducible(old(self).grid@, old(self).q(), initial@),
                !solvable ==> stalls(old(self).grid@, old(self).q(), initial@),
                initial@.is_empty() ==> solvable,
            decreases holes@.len(),
        {
            let ghost before = holes@;
            let ghost grid_before = self.grid@;
            let placed_something = self.obvious_step(&mut holes);
            proof {
                if placed_something {
                    let h = choose|h: usize|
                        moved(grid_before, old(self).q(), before, h, self.grid@, holes@);
                    lemma_play_one_more(old(self).grid@, old(self).q(), chain, h);
                    let longer = chain.push(h);
                    assert(longer.no_duplicates()) by {
                        assert forall|a: int, b: int|
                            0 <= a < longer.len() && 0 <= b < longer.len() && a != b implies
                            longer[a] != longer[b] by {
                            if a < chain.len() {
                                assert(chain.to_set().contains(chain[a]));
                            }
                            if b < chain.len() {
                                assert(chain.to_set().contains(chain[b]));
                            }
                        }
                    }
                    assert forall|x: usize| longer.to_set().contains(x) implies initial@.contains(
                        x,
                    ) by {
                        let a = choose|a: int| 0 <= a < longer.len() && longer[a] == x;
                        if a < chain.len() {
                            assert(chain.to_set().contains(chain[a]));
                        }
                    }
                    assert(holes@ =~= left_by(initial@, longer)) by {
                        assert forall|x: usize| holes@.contains(x) <==> left_by(
                            initial@,
                            longer,
                        ).contains(x) by {
                            if longer.to_set().contains(x) {
                                let a = choose|a: int| 0 <= a < longer.len() && longer[a] == x;
                                if a < chain.len() {
                                    assert(chain.to_set().contains(chain[a]));
                                }
                            }
                            if chain.to_set().contains(x) {
                                let a = choose|a: int| 0 <= a < chain.len() && chain[a] == x;
                                assert(longer[a] == x);
                            }
                            if x == h {
                                assert(longer[chain.len() as int] == x);
                            }
                        }
                    }
                    chain = longer;
                }
            }
            if holes.is_empty() {
                proof {
                    assert forall|x: usize| initial@.contains(x) implies chain.to_set().contains(
                        x,
                    ) by {
                        if !chain.to_set().contains(x) {
                            assert(left_by(initial@, chain).contains(x));
                        }
                    }
                    assert(chain.to_set() =~= initial@);
                    assert(lists(chain, initial@));
                }
                solvable = true;
                break ;
            } else if !placed_something {
                proof {
                    assert(exists|h: usize| holes@.contains(h)) by {
                        if forall|h: usize| !holes@.contains(h) {
                            assert(holes@ =~= Set::<usize>::empty());
                        }
                    }
                    assert(stalls_after(old(self).grid@, old(self).q(), initial@, chain));
                }
                solvable = false;
                break ;
            }
        }
        let ghost reached = self.grid@;
        let ghost all = initial.iter().remaining().unref();
        proof {
            lemma_side_bounds(self.q());
        }
        for init in it: initial.iter()
            invariant
                self.wf(),
                self.quadrant_side == old(self).quadrant_side,
                self.grid@.len() == reached.len(),
                reached.len() <= 50625,
                within(initial@, self.grid@.len()),
                it.seq().unref() == all,
                all.to_set() == initial@,
                forall|h: usize|
                    h < reached.len() ==> #[trigger] self.grid@[h as int] == (if all.take(
                        it.index() as int,
                    ).contains(h) {
                        0u8
                    } else {
                        reached[h as int]
                    }),
        {
            let ghost done = all.take(it.index() as int);
            assert(all.to_set().contains(all[it.index() as int]));
            self.grid[*init] = 0;
            proof {
                let more = all.take(it.index() + 1);
                assert(more =~= done.push(*init));
                assert forall|h: usize| h < reached.len() implies #[trigger] self.grid@[h as int]
                    == (if more.contains(h) {
                    0u8
                } else {
                    reached[h as int]
                }) by {
                    if done.contains(h) {
                        let a = choose|a: int| 0 <= a < done.len() && done[a] == h;
                        assert(more[a] == h);
                    }
                    if h == *init {
                        assert(more[done.len() as int] == h);
                    }
                    if more.contains(h) && h != *init {
                        let a = choose|a: int| 0 <= a < more.len() && more[a] == h;
                        assert(done[a] == h);
                    }
                }
            }
        }
        proof {
            assert(all.take(all.len() as int) =~= all);
            assert forall|i: int| 0 <= i < reached.len() implies self.grid@[i] == emptied(
                old(self).grid@,
                initial@,
            )[i] by {
                let h = i as usize;
                if initial@.contains(h) {
                    assert(all.to_set().contains(h));
                    assert(all.contains(h));
                } else {
                    assert(!all.contains(h)) by {
                        if all.contains(h) {
                            assert(all.to_set().contains(h));
                        }
                    }
                    assert forall|k: int| 0 <= k < chain.len() implies chain[k] != i by {
                        assert(chain.to_set().contains(chain[k]));
                    }
                    lemma_played_elsewhere(old(self).grid@, old(self).q(), chain, i);
                }
            }
            assert(self.grid@ =~= emptied(old(self).grid@, initial@));
            lemma_emptied_again(old(self).grid@, initial@);
            if blank_at(old(self).grid@, initial@) && !solvable {
                let stuck = choose|stuck: Seq<usize>|
                    stalls_after(old(self).grid@, old(self).q(), initial@, stuck);
                lemma_stall_blocks(old(self).grid@, old(self).q(), initial@, stuck);
            }
        }
        solvable
    }

    /// Fills the grid from `current_cell` on, in row-major order, by
    /// backtracking: each cell tries its candidates in random order and
    /// keeps the first with which the rest can be filled.
    ///
    /// The cells before `current_cell` are never touched. On success every
    /// cell from `current_cell` on holds a digit that none of its peers
    /// before it holds. Where the cells from `current_cell` on are empty
    /// at the start, the search is complete: it fails only if no such
    /// filling exists, and then leaves the grid as it was. From the first
    /// cell of an empty grid it always succeeds, with a solved grid.
    pub fn fill(&mut self, current_cell: usize) -> (done: bool)
        requires
            old(self).wf(),
        ensures
            final(self).wf(),
            final(self).quadrant_side == old(self).quadrant_side,
            extends(final(self).grid@, old(self).grid@, current_cell as int),
            done ==> filled_from(final(self).grid@, old(self).q(), current_cell as int),
            !done ==> kept_or_emptied(final(self).grid@, old(self).grid@),
            !done ==> current_cell < old(self).grid@.len() && final(self).grid@[current_cell as int]
                == 0,
            empty_from(old(self).grid@, current_cell as int) ==> done == completable(
                old(self).grid@,
                old(self).q(),
                current_cell as int,
            ),
            empty_from(old(self).grid@, current_cell as int) && !done ==> final(self).grid@ == old(
                self,
            ).grid@,
            empty_from(old(self).grid@, 0) && current_cell == 0 ==> done && solved(
                final(self).grid@,
                old(self).q(),
            ),
        decreases old(self).grid@.len() - current_cell,
    {
        let ghost start = self.grid@;
        let ghost q = self.q();
        let ghost cell = current_cell as int;
        proof {
            lemma_side_bounds(q);
        }
        if current_cell >= self.side * self.side {
            proof {
                assert(completes(start, q, start, cell));
            }
            return true;
        }
        let possibles = self.valid(current_cell);
        let mut order = digits_in(&possibles, self.side as u8);
        let ghost listed = order@;
        shuffle(&mut order);
        proof {
            listed.to_multiset_ensures();
            order@.to_multiset_ensures();
            assert forall|d: u8| order@.contains(d) <==> candidates(start, q, cell).contains(d) by {
                assert(order@.to_multiset().count(d) == listed.to_multiset().count(d));
            }
        }
        let mut k: usize = 0;
        while k < order.len()
            invariant
                self.wf(),
                self.quadrant_side == old(self).quadrant_side,
                q == self.q(),
                start == old(self).grid@,
                cell == current_cell,
                current_cell < start.len() <= 50625,
                extends(self.grid@, start, cell),
                k <= order@.len(),
                forall|d: u8| order@.contains(d) <==> candidates(start, q, cell).contains(d),
                forall|i: int|
                    0 <= i < start.len() && i != cell ==> #[trigger] self.grid@[i] == start[i]
                        || self.grid@[i] == 0,
                empty_from(start, cell) ==> forall|i: int|
                    0 <= i < start.len() && i != cell ==> #[trigger] self.grid@[i] == start[i],
                empty_from(start, cell) ==> forall|m: int|
                    0 <= m < k ==> !completable(
                        start.update(cell, #[trigger] order@[m]),
                        q,
                        cell + 1,
                    ),
            decreases order@.len() - k,
        {
            let n = order[k];
            assert(order@.contains(n));
            self.grid[current_cell] = n;
            let ghost tried = self.grid@;
            proof {
                assert(candidates(start, q, cell).contains(n));
                if empty_from(start, cell) {
                    assert(tried =~= start.update(cell, n));
                    assert(empty_from(tried, cell + 1));
                }
            }
            if self.fill(current_cell + 1) {
                proof {
                    assert(extends(tried, start, cell));
                    lemma_candidate_extends_completion(self.grid@, q, start, tried, cell);
                    if current_cell == 0 {
                        lemma_filled_is_solved(self.grid@, q);
                    }
                }
                return true;
            }
            proof {
                assert(extends(self.grid@, start, cell)) by {
                    assert forall|i: int|
                        0 <= i < cell && i < self.grid@.len() implies
                        #[trigger] self.grid@[i] == start[i] by {
                        assert(self.grid@[i] == tried[i]);
                    }
                }
                assert forall|i: int|
                    0 <= i < start.len() && i != cell implies
                    #[trigger] self.grid@[i] == start[i] || self.grid@[i] == 0 by {
                    assert(self.grid@[i] == tried[i] || self.grid@[i] == 0);
                }
            }
            k += 1;
        }
        self.grid[current_cell] = 0;
        proof {
            assert(extends(self.grid@, start, cell)) by {
                assert forall|i: int|
                    0 <= i < cell && i < self.grid@.len() implies
                    #[trigger] self.grid@[i] == start[i] by {
                }
            }
            assert(kept_or_emptied(self.grid@, start));
            if empty_from(start, cell) {
                assert(self.grid@ =~= start);
                if completable(start, q, cell) {
                    let grid = choose|grid: Seq<u8>| completes(grid, q, start, cell);
                    lemma_completion_takes_candidate(grid, q, start, cell);
                    let d = grid[cell];
                    assert(order@.contains(d));
                    let m = choose|m: int| 0 <= m < order@.len() && order@[m] == d;
                    assert(!completable(start.update(cell, order@[m]), q, cell + 1));
                }
                if current_cell == 0 {
                    lemma_empty_grid_completable(start, q);
                }
            }
        }
        false
    }

    /// Makes a puzzle of the grid in one round that starts at cell `start`
    /// and visits every cell once. The cell visited is emptied; if the holes
    /// made so far are no longer deducible with it, it gets its digit back.
    ///
    /// What is left is the puzzle of that round, and its holes are deducible.
    /// Where the grid was full, its holes are its empty cells.
    pub fn unsolve_from(&mut self, start: usize)
        requires
            old(self).wf(),
            start < old(self).grid@.len(),
        ensures
            final(self).wf(),
            final(self).quadrant_side == old(self).quadrant_side,
            final(self).grid@ == punched(old(self).grid@, old(self).q(), start as int),
            deducible(
                final(self).grid@,
                old(self).q(),
                accepted(old(self).grid@, old(self).q(), start as int, old(self).grid@.len()),
            ),
            full(old(self).grid@) ==> deducible(
                final(self).grid@,
                old(self).q(),
                blanks(final(self).grid@),
            ),
    {
        broadcast use vstd::std_specs::hash::group_hash_axioms;

        let ghost origin = self.grid@;
        let ghost q = self.q();
        proof {
            lemma_side_bounds(q);
        }
        let length: usize = self.side * self.side;
        let mut holes: HashSet<usize> = HashSet::new();
        assert(self.grid@ =~= emptied(origin, holes@));
        let mut turn: usize = 0;
        while turn < length
            invariant
                self.wf(),
                self.quadrant_side == old(self).quadrant_side,
                q == self.q(),
                origin == old(self).grid@,
                length == origin.len(),
                length <= 50625,
                start < length,
                turn <= length,
                holes@ == accepted(origin, q, start as int, turn as nat),
                within(holes@, origin.len()),
                self.grid@ == emptied(origin, holes@),
            decreases length - turn,
        {
            let i: usize = (turn + start) % length;
            let ghost before = holes@;
            let ghost trial = before.insert(i);
            proof {
                lemma_visited_in_range(length as int, start as int, turn as int);
                assert(i == visited(length as int, start as int, turn as int));
                if before.contains(i) {
                    lemma_accepted_were_visited(origin, q, start as int, turn as nat, i);
                    let m = choose|m: int|
                        0 <= m < turn && i == visited(length as int, start as int, m) as usize;
                    lemma_visits_differ(length as int, start as int, m, turn as int);
                    lemma_visited_in_range(length as int, start as int, m);
                }
                assert(!before.contains(i));
            }
            let original = self.grid[i];
            self.grid[i] = 0;
            holes.insert(i);
            proof {
                assert(self.grid@ =~= emptied(origin, trial));
                assert(blank_at(self.grid@, trial));
            }
            if !self.obvious(&holes) {
                self.grid[i] = original;
                holes.remove(&i);
                proof {
                    assert(holes@ =~= before);
                    assert(self.grid@ =~= emptied(origin, before));
                }
            } else {
                proof {
                    assert(self.grid@ =~= emptied(origin, trial));
                }
            }
            turn += 1;
        }
        proof {
            lemma_accepted_stay_deducible(origin, q, start as int, length as nat);
            if full(origin) {
                lemma_blanks_of_emptied(origin, holes@);
            }
        }
    }

    /// A cell of the grid, drawn at random.
    pub fn random_cell(&self) -> (cell: usize)
        requires
            self.well_shaped(),
        ensures
            cell < self.grid@.len(),
    {
        proof {
            lemma_side_bounds(self.q());
        }
        random_below(self.side * self.side)
    }

    /// Makes a puzzle of the grid in one round that starts at a cell drawn
    /// at random: see [`Table::unsolve_from`].
    pub fn unsolve(&mut self)
        requires
            old(self).wf(),
        ensures
            final(self).wf(),
            final(self).quadrant_side == old(self).quadrant_side,
            exists|start: int|
                0 <= start < old(self).grid@.len() && final(self).grid@ == #[trigger] punched(
                    old(self).grid@,
                    old(self).q(),
                    start,
                ),
            full(old(self).grid@) ==> deducible(
                final(self).grid@,
                old(self).q(),
                blanks(final(self).grid@),
            ),
    {
        let start = self.random_cell();
        self.unsolve_from(start);
        assert(self.grid@ == punched(old(self).grid@, old(self).q(), start as int));
    }
}

} // verus!
