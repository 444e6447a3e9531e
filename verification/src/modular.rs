//! Arithmetic modulo an odd modulus: the base `R = 2^(64 n)` can be divided
//! out of a congruence, so an element's Montgomery words determine its
//! integer value and back.
use vstd::prelude::*;
use vstd::arithmetic::div_mod::{
    lemma_fundamental_div_mod, lemma_mod_equivalence, lemma_mod_multiples_basic, lemma_small_mod,
};
use crate::ir::{word, wpow};

verus! {

/// 2 raised to `k`.
pub open spec fn two_pow(k: nat) -> int
    decreases k,
{
    if k == 0 {
        1
    } else {
        2 * two_pow((k - 1) as nat)
    }
}

/// `v` is the integer value of an element whose Montgomery words stand for
/// `x`: `v` is below the modulus `m` and `v * R` is congruent to `x`.
pub open spec fn is_repr_of(v: nat, x: nat, m: nat, n: nat) -> bool {
    v < m && (v * wpow(n)) % m == x % m
}

/// An odd modulus that divides `2 * z` divides `z`.
pub proof fn lemma_halve(z: int, m: int)
    requires
        m > 0,
        m % 2 == 1,
        (2 * z) % m == 0,
    ensures
        z % m == 0,
{
    lemma_fundamental_div_mod(2 * z, m);
    let q = (2 * z) / m;
    let qh = q / 2;
    let qb = q % 2;
    let mh = m / 2;
    assert(q == 2 * qh + qb);
    assert(m == 2 * mh + 1);
    assert(m * q == 2 * (2 * mh * qh + mh * qb + qh) + qb) by (nonlinear_arith)
        requires
            q == 2 * qh + qb,
            m == 2 * mh + 1,
    ;
    assert(qb == 0);
    assert(z == qh * m) by (nonlinear_arith)
        requires
            2 * z == m * q,
            q == 2 * qh,
    ;
    lemma_mod_multiples_basic(qh, m);
}

/// An odd modulus that divides `z * 2^k` divides `z`.
proof fn lemma_cancel_two_pow(z: int, m: int, k: nat)
    requires
        m > 0,
        m % 2 == 1,
        (z * two_pow(k)) % m == 0,
    ensures
        z % m == 0,
    decreases k,
{
    if k == 0 {
        assert(z * two_pow(0) == z);
    } else {
        let h = (k - 1) as nat;
        assert(z * two_pow(k) == 2 * (z * two_pow(h))) by (nonlinear_arith)
            requires
                two_pow(k) == 2 * two_pow(h),
        ;
        lemma_halve(z * two_pow(h), m);
        lemma_cancel_two_pow(z, m, h);
    }
}

/// An odd modulus that divides `z * R` divides `z`.
proof fn lemma_cancel_wpow(z: int, m: int, n: nat)
    requires
        m > 0,
        m % 2 == 1,
        (z * wpow(n)) % m == 0,
    ensures
        z % m == 0,
    decreases n,
{
    if n == 0 {
        assert(wpow(0) == 1);
        assert(z * wpow(0) == z) by (nonlinear_arith)
            requires
                wpow(0) == 1,
        ;
    } else {
        let h = (n - 1) as nat;
        assert(two_pow(64) == 0x1_0000_0000_0000_0000) by {
            reveal_with_fuel(two_pow, 65);
        }
        assert(z * wpow(n) == (z * wpow(h)) * two_pow(64)) by (nonlinear_arith)
            requires
                wpow(n) == word() * wpow(h),
                two_pow(64) == word(),
        ;
        lemma_cancel_two_pow(z * wpow(h), m, 64);
        lemma_cancel_wpow(z, m, h);
    }
}

/// Dividing `R` out of a congruence modulo an odd modulus.
pub proof fn lemma_cancel_r(x: int, y: int, m: int, n: nat)
    requires
        m > 0,
        m % 2 == 1,
        (x * wpow(n)) % m == (y * wpow(n)) % m,
    ensures
        x % m == y % m,
{
    lemma_mod_equivalence(x * wpow(n), y * wpow(n), m);
    assert(x * wpow(n) - y * wpow(n) == (x - y) * wpow(n)) by (nonlinear_arith);
    lemma_cancel_wpow(x - y, m, n);
    lemma_mod_equivalence(x, y, m);
}

/// An element has one integer value: two values of the same Montgomery
/// words are equal (for an odd modulus).
pub proof fn theorem_repr_unique(v1: nat, v2: nat, x: nat, m: nat, n: nat)
    requires
        m % 2 == 1,
        is_repr_of(v1, x, m, n),
        is_repr_of(v2, x, m, n),
    ensures
        v1 == v2,
{
    lemma_cancel_r(v1 as int, v2 as int, m as int, n);
    lemma_small_mod(v1, m);
    lemma_small_mod(v2, m);
}

/// Words below the modulus are determined by their integer value: two
/// elements with the same value have the same words (for an odd modulus).
pub proof fn theorem_words_unique(x1: nat, x2: nat, v: nat, m: nat, n: nat)
    requires
        m % 2 == 1,
        x1 < m,
        x2 < m,
        is_repr_of(v, x1, m, n),
        is_repr_of(v, x2, m, n),
    ensures
        x1 == x2,
{
    lemma_small_mod(x1, m);
    lemma_small_mod(x2, m);
}

/// Two results below the modulus that, times `R`, are congruent to the same
/// number are equal: the Montgomery product has one value.
pub proof fn theorem_mont_result_unique(o1: nat, o2: nat, t: nat, m: nat, n: nat)
    requires
        m % 2 == 1,
        o1 < m,
        o2 < m,
        (o1 * wpow(n)) % m == t % m,
        (o2 * wpow(n)) % m == t % m,
    ensures
        o1 == o2,
{
    lemma_cancel_r(o1 as int, o2 as int, m as int, n);
    lemma_small_mod(o1, m);
    lemma_small_mod(o2, m);
}

} // verus!
