//! Facts about numbers written in 64-bit limbs.
use vstd::prelude::*;
use crate::ir::{hi, lo, seq_val, word, wpow};
use vstd::arithmetic::div_mod::{lemma_fundamental_div_mod, lemma_mod_multiples_basic};

verus! {

/// Every power of the base is positive.
pub proof fn lemma_wpow_pos(k: nat)
    ensures
        wpow(k) > 0,
    decreases k,
{
    if k > 0 {
        lemma_wpow_pos((k - 1) as nat);
        assert(word() * wpow((k - 1) as nat) > 0) by (nonlinear_arith)
            requires
                wpow((k - 1) as nat) > 0,
                word() > 0,
        ;
    }
}

/// A number of `s.len()` limbs is below `wpow(s.len())`.
pub proof fn lemma_seq_val_bound(s: Seq<u64>)
    ensures
        seq_val(s) < wpow(s.len()),
    decreases s.len(),
{
    if s.len() > 0 {
        let p = wpow((s.len() - 1) as nat);
        lemma_seq_val_bound(s.drop_last());
        let l = s.last() as nat;
        assert(l * p + p <= word() * p) by (nonlinear_arith)
            requires
                l < word(),
        ;
    } else {
        lemma_wpow_pos(0);
    }
}

/// Comparing two numbers by their top limb, then by the rest.
pub proof fn lemma_compare_by_top(low_x: nat, low_m: nat, top_x: nat, top_m: nat, p: nat)
    requires
        low_x < p,
        low_m < p,
    ensures
        (low_x + top_x * p < low_m + top_m * p) == (top_x < top_m || (top_x == top_m
            && low_x < low_m)),
{
    if top_x < top_m {
        assert(top_x * p + p <= top_m * p) by (nonlinear_arith)
            requires
                top_x < top_m,
        ;
    } else if top_x > top_m {
        assert(top_m * p + p <= top_x * p) by (nonlinear_arith)
            requires
                top_x > top_m,
        ;
    }
}

/// The value of the first `k + 1` limbs, from the first `k` and limb `k`.
pub proof fn lemma_seq_val_take_succ(s: Seq<u64>, k: int)
    requires
        0 <= k < s.len(),
    ensures
        seq_val(s.take(k + 1)) == seq_val(s.take(k)) + (s[k] as nat) * wpow(k as nat),
{
    assert(s.take(k + 1).drop_last() =~= s.take(k));
}

/// Powers of the base multiply by adding exponents.
pub proof fn lemma_wpow_add(x: nat, y: nat)
    ensures
        wpow(x + y) == wpow(x) * wpow(y),
    decreases y,
{
    if y > 0 {
        lemma_wpow_add(x, (y - 1) as nat);
        assert(wpow(x + y) == word() * wpow((x + y - 1) as nat));
        assert(word() * (wpow(x) * wpow((y - 1) as nat)) == wpow(x) * (word() * wpow((y - 1) as nat)))
            by (nonlinear_arith);
        assert(wpow(y) == word() * wpow((y - 1) as nat));
        assert((x + y - 1) as nat == x + (y - 1) as nat);
    } else {
        assert(wpow(0) == 1);
        assert(x + y == x);
    }
}

/// The low and high words of a sum below `word() * word()` give it back.
pub proof fn lemma_lo_hi(t: int)
    requires
        0 <= t < word() * word(),
    ensures
        lo(t) as int + (hi(t) as int) * word() == t,
        hi(t) as int == t / (word() as int),
        lo(t) as int == t % (word() as int),
{
    assert(t / (word() as int) < word() as int);
}

/// The value of two runs of limbs, one after the other.
pub proof fn lemma_seq_val_concat(s1: Seq<u64>, s2: Seq<u64>)
    ensures
        seq_val(s1 + s2) == seq_val(s1) + wpow(s1.len()) * seq_val(s2),
    decreases s2.len(),
{
    if s2.len() == 0 {
        assert(s1 + s2 =~= s1);
        assert(seq_val(s2) == 0);
        assert(wpow(s1.len()) * 0 == 0);
    } else {
        lemma_seq_val_concat(s1, s2.drop_last());
        assert((s1 + s2).drop_last() =~= s1 + s2.drop_last());
        lemma_wpow_add(s1.len(), (s2.len() - 1) as nat);
        let p = wpow(s1.len());
        let q = wpow((s2.len() - 1) as nat);
        let l = s2.last() as nat;
        assert(p * seq_val(s2.drop_last()) + l * (p * q) == p * (seq_val(s2.drop_last()) + l * q))
            by (nonlinear_arith);
        assert((s1 + s2).last() == s2.last());
        assert(((s1 + s2).len() - 1) as nat == s1.len() + (s2.len() - 1) as nat);
        assert(seq_val(s1 + s2) == seq_val((s1 + s2).drop_last()) + l * wpow(((s1 + s2).len() - 1) as nat));
        assert(seq_val(s2) == seq_val(s2.drop_last()) + l * q);
    }
}

/// With `INV = -1 / m0` modulo 2^64, adding `lo(x * INV) * m0` to `x` clears
/// its low word.
pub proof fn lemma_inv_clears(x: int, inv: int, m0: int)
    requires
        0 <= x,
        0 <= inv,
        0 <= m0,
        (m0 * inv + 1) % (word() as int) == 0,
    ensures
        (x + ((x * inv) % (word() as int)) * m0) % (word() as int) == 0,
{
    let w = word() as int;
    let xi = x * inv;
    lemma_fundamental_div_mod(xi, w);
    lemma_fundamental_div_mod(m0 * inv + 1, w);
    let e = (m0 * inv + 1) / w;
    let qx = xi / w;
    assert(x + (xi % w) * m0 == (x * e - qx * m0) * w) by (nonlinear_arith)
        requires
            xi == x * inv,
            xi == w * qx + xi % w,
            m0 * inv + 1 == w * e + 0,
    ;
    lemma_mod_multiples_basic(x * e - qx * m0, w);
}

/// One multiply-add step, in numbers: if the words so far and the carry
/// stand for `x_low + a_i * b_low * w_i`, they still do after the next word.
pub proof fn lemma_mac_column(
    s: int,
    c: int,
    x_low: int,
    x: int,
    al: int,
    bl: int,
    b_low: int,
    wi: int,
    wj: int,
    l: int,
    h: int,
)
    requires
        s + c * (wi * wj) == x_low + al * b_low * wi,
        l + h * word() == x + al * bl + c,
    ensures
        (s + l * (wi * wj)) + h * (word() * (wi * wj)) == (x_low + x * (wi * wj)) + al * (b_low + bl
            * wj) * wi,
{
    assert((s + l * (wi * wj)) + h * (word() * (wi * wj)) == s + (l + h * word()) * (wi * wj))
        by (nonlinear_arith);
    assert(s + (x + al * bl + c) * (wi * wj) == s + c * (wi * wj) + x * (wi * wj) + al * bl * wi * wj)
        by (nonlinear_arith);
    assert(al * (b_low + bl * wj) * wi == al * b_low * wi + al * bl * wi * wj) by (nonlinear_arith);
}

/// Shifting a word left by one, with the top bit of the word below moved in.
pub proof fn lemma_shift_word(x: u64, y: u64)
    ensures
        ((x << 1u64) | (y >> 63u64)) as int == (x << 1u64) as int + (y >> 63u64) as int,
        (x << 1u64) as int + ((x >> 63u64) as int) * word() == 2 * x,
{
    assert(((x << 1u64) | (y >> 63u64)) == (x << 1u64) + (y >> 63u64)) by (bit_vector);
    assert((x << 1u64) + (x >> 63u64) * 0x1_0000_0000_0000_0000 == 2 * x) by (bit_vector);
}

/// A longer prefix of limbs stands for at least as much.
pub proof fn lemma_seq_val_prefix_le(s: Seq<u64>, j: nat, k: nat)
    requires
        j <= k <= s.len(),
    ensures
        seq_val(s.take(j as int)) <= seq_val(s.take(k as int)),
    decreases k - j,
{
    if j < k {
        lemma_seq_val_prefix_le(s, j, (k - 1) as nat);
        lemma_seq_val_take_succ(s, k - 1);
        assert((k - 1) as int + 1 == k as int);
    }
}

} // verus!
