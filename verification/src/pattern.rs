//! A solved grid for every size: each row is the row above shifted by the
//! quadrant edge, and each band of rows starts one column further.

use vstd::prelude::*;
use crate::geometry::{
    cells_of, column_of, lemma_coordinates_in_range, lemma_side_bounds, peers, row_of, side_of,
    MAX_QUADRANT_SIDE,
};
use crate::arith::{lemma_remainders_differ, lemma_split, lemma_two_digits};
use crate::rules::solved;

verus! {

/// How far the row `y` is shifted: rows of one band lie a quadrant edge
/// apart, bands lie one column apart.
pub open spec fn row_shift(q: int, y: int) -> int {
    q * (y % q) + y / q
}

/// The digit of the pattern in column `x` and row `y`.
pub open spec fn pattern_digit(q: int, x: int, y: int) -> int {
    (row_shift(q, y) + x) % side_of(q) + 1
}

/// The pattern as a grid.
pub open spec fn pattern_grid(q: int) -> Seq<u8> {
    Seq::new(
        cells_of(q) as nat,
        |i: int| pattern_digit(q, column_of(q, i), row_of(q, i)) as u8,
    )
}

/// Two different cells that are peers hold different digits of the pattern.
proof fn lemma_pattern_peers_differ(q: int, i: int, j: int)
    requires
        1 <= q <= MAX_QUADRANT_SIDE,
        0 <= i < cells_of(q),
        0 <= j < cells_of(q),
        i != j,
        peers(q, i, j),
    ensures
        pattern_digit(q, column_of(q, i), row_of(q, i)) != pattern_digit(
            q,
            column_of(q, j),
            row_of(q, j),
        ),
{
    let s = side_of(q);
    let (xi, yi) = (column_of(q, i), row_of(q, i));
    let (xj, yj) = (column_of(q, j), row_of(q, j));
    lemma_side_bounds(q);
    lemma_coordinates_in_range(q, i);
    lemma_coordinates_in_range(q, j);
    lemma_split(q, xi, q);
    lemma_split(q, yi, q);
    lemma_split(q, xj, q);
    lemma_split(q, yj, q);
    let a = row_shift(q, yi) + xi;
    let b = row_shift(q, yj) + xj;
    let (m, e) = if xi == xj {
        (yi % q - yj % q, yi / q - yj / q)
    } else if yi == yj {
        (xi / q - xj / q, xi % q - xj % q)
    } else {
        (yi % q - yj % q, xi % q - xj % q)
    };
    assert(a - b == q * m + e) by (nonlinear_arith)
        requires
            a == q * (yi % q) + yi / q + xi,
            b == q * (yj % q) + yj / q + xj,
            xi == (xi / q) * q + xi % q,
            xj == (xj / q) * q + xj % q,
            xi == xj ==> m == yi % q - yj % q && e == yi / q - yj / q,
            xi != xj && yi == yj ==> m == xi / q - xj / q && e == xi % q - xj % q,
            xi != xj && yi != yj ==> m == yi % q - yj % q && e == xi % q - xj % q && xi / q == xj
                / q && yi / q == yj / q,
    ;
    lemma_two_digits(q, m, e);
    if a == b {
        assert(m == 0 && e == 0);
        assert(xi == xj && yi == yj);
        assert(false);
    }
    lemma_remainders_differ(a, b, s);
}

/// The pattern is a solved grid.
pub proof fn lemma_pattern_solved(q: int)
    requires
        1 <= q <= MAX_QUADRANT_SIDE,
    ensures
        solved(pattern_grid(q), q),
{
    let grid = pattern_grid(q);
    let s = side_of(q);
    lemma_side_bounds(q);
    assert forall|i: int| 0 <= i < grid.len() implies 1 <= #[trigger] grid[i] <= s by {
        let a = row_shift(q, row_of(q, i)) + column_of(q, i);
        vstd::arithmetic::div_mod::lemma_mod_bound(a, s);
    }
    assert forall|i: int, j: int|
        0 <= i < grid.len() && 0 <= j < grid.len() && i != j && peers(q, i, j) implies grid[i]
        != grid[j] by {
        lemma_pattern_peers_differ(q, i, j);
        let a = row_shift(q, row_of(q, i)) + column_of(q, i);
        let b = row_shift(q, row_of(q, j)) + column_of(q, j);
        vstd::arithmetic::div_mod::lemma_mod_bound(a, s);
        vstd::arithmetic::div_mod::lemma_mod_bound(b, s);
    }
}

} // verus!
