//! What `self.reduce()` does to the limbs of a field element.
use vstd::prelude::*;
use vstd::arithmetic::div_mod::{
    lemma_breakdown, lemma_mod_multiples_vanish, lemma_mul_mod_noop_left, lemma_small_mod,
};
use crate::arith::{lemma_seq_val_bound, lemma_wpow_pos};
use crate::ir::{digits, reduce_limbs, seq_val, word, wpow};
use crate::range_check::theorem_valid_is_less_than;

verus! {

/// The limbs that `digits` writes stand for `v` modulo `wpow(k)`.
pub proof fn lemma_digits_val(v: nat, k: nat)
    ensures
        digits(v, k).len() == k,
        seq_val(digits(v, k)) == v % wpow(k),
    decreases k,
{
    if k == 0 {
        assert(wpow(0) == 1);
        assert(v % 1 == 0) by (nonlinear_arith);
    } else {
        let h = (k - 1) as nat;
        lemma_digits_val(v, h);
        assert(digits(v, k).drop_last() =~= digits(v, h));
        lemma_wpow_pos(h);
        let d = (v / wpow(h)) % word();
        assert(digits(v, k).last() == d as u64);
        assert(wpow(k) == word() * wpow(h));
        assert(wpow(h) * word() == word() * wpow(h)) by (nonlinear_arith);
        lemma_breakdown(v as int, wpow(h) as int, word() as int);
        assert(v % wpow(k) == wpow(h) * d + v % wpow(h));
        assert(wpow(h) * d == d * wpow(h)) by (nonlinear_arith);
    }
}

/// `self.reduce()` on the `k` limbs of an element that stands for less than
/// twice the modulus (in its first `k` limbs) leaves that number modulo the
/// modulus: the one representative below the modulus.
pub proof fn theorem_reduce(limbs: Seq<u64>, modulus: Seq<u64>)
    requires
        1 <= limbs.len() <= usize::MAX,
        limbs.len() <= modulus.len(),
        seq_val(limbs) < 2 * seq_val(modulus.take(limbs.len() as int)),
    ensures
        reduce_limbs(limbs, modulus).len() == limbs.len(),
        seq_val(reduce_limbs(limbs, modulus)) == seq_val(limbs) % seq_val(
            modulus.take(limbs.len() as int),
        ),
        seq_val(reduce_limbs(limbs, modulus)) < seq_val(modulus.take(limbs.len() as int)),
{
    let k = limbs.len();
    let x = seq_val(limbs);
    let m = seq_val(modulus.take(k as int));
    assert(limbs.take(k as int) =~= limbs);
    theorem_valid_is_less_than(k, limbs, modulus);
    assert(m > 0);
    if x < m {
        lemma_small_mod(x, m);
    } else {
        lemma_seq_val_bound(limbs);
        lemma_wpow_pos(k);
        let d = (x - m) as nat;
        lemma_small_mod(d, wpow(k));
        assert(((x - m) % (wpow(k) as int)) as nat == d);
        lemma_digits_val(d, k);
        lemma_small_mod(d, m);
        assert(x % m == d) by (nonlinear_arith)
            requires
                x == d + m,
                d < m,
                d % m == d,
                m > 0,
        ;
    }
}

/// `self.reduce()` on limbs that stand for `x < 2 * modulus` with
/// `x * r` congruent to `p` leaves the number below the modulus with the same
/// congruence.
pub proof fn lemma_reduce_congruent(limbs: Seq<u64>, modulus: Seq<u64>, r: nat, p: nat)
    requires
        1 <= limbs.len() <= usize::MAX,
        limbs.len() <= modulus.len(),
        seq_val(limbs) < 2 * seq_val(modulus.take(limbs.len() as int)),
        (seq_val(limbs) * r) % seq_val(modulus.take(limbs.len() as int)) == p % seq_val(
            modulus.take(limbs.len() as int),
        ),
    ensures
        ({
            let out = seq_val(reduce_limbs(limbs, modulus));
            let m = seq_val(modulus.take(limbs.len() as int));
            &&& reduce_limbs(limbs, modulus).len() == limbs.len()
            &&& out < m
            &&& (out * r) % m == p % m
        }),
{
    theorem_reduce(limbs, modulus);
    let m = seq_val(modulus.take(limbs.len() as int));
    lemma_mul_mod_noop_left(seq_val(limbs) as int, r as int, m as int);
}

/// From `x * r == p + q * m` to the congruence of `x * r` and `p` modulo `m`.
pub proof fn lemma_product_congruent(x: nat, r: nat, p: nat, q: nat, m: nat)
    requires
        m > 0,
        x * r == p + q * m,
    ensures
        (x * r) % m == p % m,
{
    lemma_mod_multiples_vanish(q as int, p as int, m as int);
    assert(m * q == q * m) by (nonlinear_arith);
}

} // verus!
