//! Quotients and remainders: the few facts of arithmetic that the grid's
//! coordinates rest on.

use vstd::prelude::*;
use vstd::arithmetic::div_mod::{
    lemma_div_pos_is_pos, lemma_fundamental_div_mod, lemma_fundamental_div_mod_converse,
    lemma_mod_bound, lemma_multiply_divide_lt,
};
use vstd::arithmetic::mul::{
    lemma_mul_inequality, lemma_mul_is_commutative, lemma_mul_is_distributive_add_other_way,
};

verus! {

/// A number below `d * n` splits into a quotient below `n` and a remainder
/// below `d`.
pub proof fn lemma_split(d: int, c: int, n: int)
    requires
        0 < d,
        0 <= c < d * n,
    ensures
        0 <= c / d < n,
        0 <= c % d < d,
        c == (c / d) * d + c % d,
{
    lemma_fundamental_div_mod(c, d);
    lemma_mod_bound(c, d);
    lemma_div_pos_is_pos(c, d);
    lemma_multiply_divide_lt(c, d, n);
    lemma_mul_is_commutative(d, c / d);
}

/// A quotient below `n` and a remainder below `d` join into a number below
/// `d * n`, which splits into the two again.
pub proof fn lemma_join(d: int, hi: int, lo: int, n: int)
    requires
        0 < d,
        0 <= lo < d,
        0 <= hi < n,
    ensures
        0 <= hi * d + lo < d * n,
        (hi * d + lo) / d == hi,
        (hi * d + lo) % d == lo,
{
    lemma_fundamental_div_mod_converse(hi * d + lo, d, hi, lo);
    lemma_mul_inequality(0, hi, d);
    lemma_mul_inequality(hi + 1, n, d);
    lemma_mul_is_distributive_add_other_way(d, hi, 1);
    lemma_mul_is_commutative(d, n);
}

/// Two numbers less than `s` apart have different remainders by `s`,
/// unless they are equal.
pub proof fn lemma_remainders_differ(a: int, b: int, s: int)
    requires
        0 < s,
        a != b,
        -s < a - b < s,
    ensures
        a % s != b % s,
{
    lemma_fundamental_div_mod(a, s);
    lemma_fundamental_div_mod(b, s);
    if a % s == b % s {
        let k = a / s - b / s;
        assert(a - b == s * k) by (nonlinear_arith)
            requires
                a == s * (a / s) + a % s,
                b == s * (b / s) + b % s,
                a % s == b % s,
                k == a / s - b / s,
        ;
        assert(k == 0) by (nonlinear_arith)
            requires
                0 < s,
                -s < s * k < s,
        ;
    }
}

/// A multiple of `q` and a number smaller than `q` add up to less than `q * q`
/// if the factor is smaller than `q`, and to zero only if both are zero.
pub proof fn lemma_two_digits(q: int, m: int, e: int)
    requires
        1 <= q,
        -q < m < q,
        -q < e < q,
    ensures
        -(q * q) < q * m + e < q * q,
        q * m + e == 0 ==> m == 0 && e == 0,
{
    lemma_mul_inequality(m, q - 1, q);
    lemma_mul_inequality(1 - q, m, q);
    lemma_mul_is_distributive_add_other_way(q, q, -1);
    lemma_mul_is_distributive_add_other_way(q, 1, -q);
    lemma_mul_is_commutative(q, m);
    assert((q - 1) * q == q * q - q);
    assert((1 - q) * q == q - q * q) by {
        lemma_mul_is_commutative(-q, q);
        assert((-q) * q == -(q * q)) by (nonlinear_arith);
    }
    if q * m + e == 0 {
        if m > 0 {
            lemma_mul_inequality(1, m, q);
        }
        if m < 0 {
            lemma_mul_inequality(m, -1, q);
            assert((-1) * q == -q);
        }
    }
}

} // verus!
