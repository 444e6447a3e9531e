//! The fixed methods of the emitted field type, in numbers.
//!
//! Besides the code that depends on the number of limbs, the implementation
//! of a prime field holds methods whose text is the same for every field:
//! `add_assign`, `double`, `sub_assign`, `negate`, `reduce`, `is_zero`,
//! `zero`, `one`, `random`, `cmp`. They work on the representation type with
//! its operations `add_nocarry`, `sub_noborrow`, `mul2` and `is_zero`. Here a
//! field element is the number `x` in its `k` limbs (its Montgomery words),
//! `p` the number in the limbs of the modulus, and each method is the number
//! it leaves; the laws below say what that is.
use vstd::prelude::*;
use vstd::arithmetic::div_mod::{
    lemma_add_mod_noop, lemma_mod_multiples_vanish, lemma_mul_mod_noop_left, lemma_small_mod,
    lemma_sub_mod_noop,
};
use crate::gen::valid_spec;
use crate::ir::{cond_holds, digits, reduce_limbs, seq_val, word, wpow};
use crate::modular::{is_repr_of, theorem_repr_unique, theorem_words_unique};
use crate::range_check::theorem_valid_is_less_than;
use crate::reduce_law::lemma_digits_val;
use crate::arith::{lemma_seq_val_bound, lemma_seq_val_take_succ, lemma_wpow_pos};

verus! {

/// `add_nocarry` ("add another representation to this one") on `k` limbs:
/// the carry out of the top limb is lost.
pub open spec fn add_nocarry(x: nat, y: nat, k: nat) -> nat {
    (x + y) % wpow(k)
}

/// `sub_noborrow` ("subtract another representation from this one") on `k`
/// limbs: the borrow out of the top limb is lost.
pub open spec fn sub_noborrow(x: nat, y: nat, k: nat) -> nat {
    ((x - y) % (wpow(k) as int)) as nat
}

/// `mul2` ("a leftwise bitshift ... effectively multiplying it by 2.
/// Overflow is ignored.") on `k` limbs.
pub open spec fn mul2(x: nat, k: nat) -> nat {
    (2 * x) % wpow(k)
}

/// `self.reduce()`: the modulus is subtracted where the range check fails.
pub open spec fn reduce(x: nat, p: nat, k: nat) -> nat {
    if x < p {
        x
    } else {
        sub_noborrow(x, p, k)
    }
}

/// `add_assign`: `add_nocarry`, then `reduce`. The path for four limbs on
/// x86_64 (`add_assign_x86_limbs`) leaves the same number
/// (`theorem_add_assign_x86`).
pub open spec fn add_assign_val(x: nat, y: nat, p: nat, k: nat) -> nat {
    reduce(add_nocarry(x, y, k), p, k)
}

/// `double`: `mul2`, then `reduce`.
pub open spec fn double_val(x: nat, p: nat, k: nat) -> nat {
    reduce(mul2(x, k), p, k)
}

/// `sub_assign`: where `other.0 > self.0`, the modulus is added first
/// (`add_nocarry`); then `other` is subtracted (`sub_noborrow`). The
/// comparison of the two representations is taken as that of their numbers.
pub open spec fn sub_assign_val(x: nat, y: nat, p: nat, k: nat) -> nat {
    sub_noborrow(
        if y > x {
            add_nocarry(x, p, k)
        } else {
            x
        },
        y,
        k,
    )
}

/// `negate`: zero stays zero; otherwise the element is subtracted from the
/// modulus (`sub_noborrow`).
pub open spec fn negate_val(x: nat, p: nat, k: nat) -> nat {
    if x == 0 {
        0
    } else {
        sub_noborrow(p, x, k)
    }
}

/// The number in the limbs after `self.reduce()` is `reduce` of the number
/// before it.
pub proof fn theorem_reduce_limbs_value(limbs: Seq<u64>, modulus: Seq<u64>)
    requires
        1 <= limbs.len() <= usize::MAX,
        limbs.len() <= modulus.len(),
    ensures
        reduce_limbs(limbs, modulus).len() == limbs.len(),
        seq_val(reduce_limbs(limbs, modulus)) == reduce(
            seq_val(limbs),
            seq_val(modulus.take(limbs.len() as int)),
            limbs.len(),
        ),
{
    let k = limbs.len();
    assert(limbs.take(k as int) =~= limbs);
    theorem_valid_is_less_than(k, limbs, modulus);
    if !cond_holds(valid_spec(k), limbs, modulus) {
        lemma_wpow_pos(k);
        let d = ((seq_val(limbs) - seq_val(modulus.take(k as int))) % (wpow(k) as int)) as nat;
        lemma_digits_val(d, k);
        lemma_small_mod(d, wpow(k));
    }
}

/// A number `s` with `p <= s < 2p`, less `p`, is `s` modulo `p`.
proof fn lemma_minus_once(s: nat, p: nat)
    requires
        p <= s < 2 * p,
    ensures
        (s - p) as nat == s % p,
{
    lemma_mod_multiples_vanish(1, (s - p) as int, p as int);
    lemma_small_mod((s - p) as nat, p);
}

/// `reduce` of a number below twice the modulus is that number modulo the
/// modulus.
proof fn lemma_reduce_val(s: nat, p: nat, k: nat)
    requires
        1 <= p,
        s < 2 * p,
        2 * p <= wpow(k),
    ensures
        reduce(s, p, k) == s % p,
{
    if s < p {
        lemma_small_mod(s, p);
    } else {
        lemma_minus_once(s, p);
        lemma_small_mod((s - p) as nat, wpow(k));
    }
}

/// From `e * R` congruent to `t` and `r` congruent to `t`: `e % p` is the
/// value of the words `r`.
proof fn lemma_is_repr(e: nat, t: int, r: nat, p: nat, n: nat)
    requires
        1 <= p,
        ((e * wpow(n)) as int) % (p as int) == t % (p as int),
        (r as int) % (p as int) == t % (p as int),
    ensures
        is_repr_of(e % p, r, p, n),
{
    lemma_mul_mod_noop_left(e as int, wpow(n) as int, p as int);
}

/// The values add: if `a * R` is congruent to `x` and `b * R` to `y`, then
/// `(a + b) * R` is congruent to `x + y`.
proof fn lemma_repr_add(a: nat, b: nat, x: nat, y: nat, p: nat, n: nat)
    requires
        1 <= p,
        is_repr_of(a, x, p, n),
        is_repr_of(b, y, p, n),
    ensures
        (((a + b) * wpow(n)) as int) % (p as int) == ((x + y) as int) % (p as int),
{
    let r = wpow(n) as int;
    let pi = p as int;
    assert((a + b) * r == a * r + b * r) by (nonlinear_arith);
    lemma_add_mod_noop(a * r, b * r, pi);
    lemma_add_mod_noop(x as int, y as int, pi);
}

/// The values subtract: `(a + p - b) * R` is congruent to `x + p - y`.
proof fn lemma_repr_sub(a: nat, b: nat, x: nat, y: nat, p: nat, n: nat)
    requires
        1 <= p,
        is_repr_of(a, x, p, n),
        is_repr_of(b, y, p, n),
    ensures
        (((a + p - b) * wpow(n)) as int) % (p as int) == ((x + p - y) as int) % (p as int),
{
    let r = wpow(n) as int;
    let pi = p as int;
    assert((a + p - b) * wpow(n) == p * wpow(n) + (a * wpow(n) - b * wpow(n))) by (nonlinear_arith);
    lemma_mod_multiples_vanish(r, a * r - b * r, pi);
    lemma_sub_mod_noop(a * r, b * r, pi);
    lemma_mod_multiples_vanish(1, x - y, pi);
    lemma_sub_mod_noop(x as int, y as int, pi);
}

/// `add_assign` on elements below the modulus, when twice the modulus fits
/// in the `k` limbs, leaves `(x + y) % p`; the value of the result is
/// `(a + b) % p` where `a` and `b` are the values of the operands.
pub proof fn theorem_add_assign(x: nat, y: nat, a: nat, b: nat, p: nat, k: nat)
    requires
        x < p,
        y < p,
        2 * p <= wpow(k),
    ensures
        add_assign_val(x, y, p, k) == (x + y) % p,
        add_assign_val(x, y, p, k) < p,
        is_repr_of(a, x, p, k) && is_repr_of(b, y, p, k) ==> is_repr_of(
            (a + b) % p,
            add_assign_val(x, y, p, k),
            p,
            k,
        ),
{
    lemma_small_mod(x + y, wpow(k));
    lemma_reduce_val(x + y, p, k);
    if is_repr_of(a, x, p, k) && is_repr_of(b, y, p, k) {
        lemma_repr_add(a, b, x, y, p, k);
        lemma_small_mod(add_assign_val(x, y, p, k), p);
        lemma_is_repr(a + b, (x + y) as int, add_assign_val(x, y, p, k), p, k);
    }
}

/// `double` is `add_assign` of the element to itself: `(2 x) % p`, of value
/// `(2 a) % p`.
pub proof fn theorem_double(x: nat, a: nat, p: nat, k: nat)
    requires
        x < p,
        2 * p <= wpow(k),
    ensures
        double_val(x, p, k) == add_assign_val(x, x, p, k),
        double_val(x, p, k) == (2 * x) % p,
        double_val(x, p, k) < p,
        is_repr_of(a, x, p, k) ==> is_repr_of((2 * a) % p, double_val(x, p, k), p, k),
{
    theorem_add_assign(x, x, a, a, p, k);
    assert(2 * x == x + x);
    assert(2 * a == a + a);
}

/// `sub_assign` on elements below the modulus, when twice the modulus fits
/// in the `k` limbs, leaves `(x + p - y) % p`, of value `(a + p - b) % p`.
pub proof fn theorem_sub_assign(x: nat, y: nat, a: nat, b: nat, p: nat, k: nat)
    requires
        x < p,
        y < p,
        2 * p <= wpow(k),
    ensures
        sub_assign_val(x, y, p, k) == (x + p - y) as nat % p,
        sub_assign_val(x, y, p, k) < p,
        is_repr_of(a, x, p, k) && is_repr_of(b, y, p, k) ==> is_repr_of(
            (a + p - b) as nat % p,
            sub_assign_val(x, y, p, k),
            p,
            k,
        ),
{
    let w = wpow(k);
    if y > x {
        lemma_small_mod(x + p, w);
        lemma_small_mod((x + p - y) as nat, w);
        lemma_small_mod((x + p - y) as nat, p);
    } else {
        lemma_small_mod((x - y) as nat, w);
        lemma_minus_once((x + p - y) as nat, p);
    }
    if is_repr_of(a, x, p, k) && is_repr_of(b, y, p, k) {
        lemma_repr_sub(a, b, x, y, p, k);
        lemma_small_mod(sub_assign_val(x, y, p, k), p);
        lemma_is_repr((a + p - b) as nat, (x + p - y) as int, sub_assign_val(x, y, p, k), p, k);
    }
}

/// `negate` on an element below the modulus leaves `(p - x) % p` (zero stays
/// zero, never the modulus itself), of value `(p - a) % p`; added to the
/// element it gives zero.
pub proof fn theorem_negate(x: nat, a: nat, p: nat, k: nat)
    requires
        x < p,
        2 * p <= wpow(k),
    ensures
        negate_val(x, p, k) == (p - x) as nat % p,
        negate_val(x, p, k) < p,
        negate_val(x, p, k) == sub_assign_val(0, x, p, k),
        add_assign_val(x, negate_val(x, p, k), p, k) == 0,
        is_repr_of(a, x, p, k) ==> is_repr_of((p - a) as nat % p, negate_val(x, p, k), p, k),
{
    theorem_sub_assign(0, x, 0, a, p, k);
    if x == 0 {
        lemma_mod_multiples_vanish(1, 0, p as int);
        assert(sub_assign_val(0, 0, p, k) == 0) by {
            lemma_small_mod(0, wpow(k));
        }
    } else {
        lemma_small_mod((p - x) as nat, wpow(k));
    }
    theorem_add_assign(x, negate_val(x, p, k), a, a, p, k);
    if x != 0 {
        lemma_small_mod((p - x) as nat, p);
        lemma_mod_multiples_vanish(1, 0, p as int);
    }
    if is_repr_of(a, x, p, k) {
        assert(is_repr_of(0, 0, p, k)) by {
            lemma_small_mod(0, p);
            assert(0 * wpow(k) == 0);
        }
        assert((0 + p - a) as nat == (p - a) as nat);
        assert((0 + p - x) as nat == (p - x) as nat);
    }
}

/// Zero and one: the words `0` stand for the value 0, and the words of the
/// constant `R % p` for the value 1; zero added to an element leaves it.
pub proof fn theorem_zero_one(x: nat, p: nat, k: nat)
    requires
        1 < p,
        x < p,
        2 * p <= wpow(k),
    ensures
        is_repr_of(0, 0, p, k),
        is_repr_of(1, wpow(k) % p, p, k),
        add_assign_val(x, 0, p, k) == x,
        add_assign_val(0, x, p, k) == x,
{
    lemma_small_mod(0, p);
    assert(0 * wpow(k) == 0);
    assert(1 * wpow(k) == wpow(k));
    assert((wpow(k) % p) % p == wpow(k) % p) by {
        vstd::arithmetic::div_mod::lemma_mod_twice(wpow(k) as int, p as int);
    }
    vstd::arithmetic::div_mod::lemma_mod_bound(wpow(k) as int, p as int);
    theorem_add_assign(x, 0, 0, 0, p, k);
    theorem_add_assign(0, x, 0, 0, p, k);
    lemma_small_mod(x, p);
}

/// How two elements compare.
#[derive(Debug, Clone, Copy, PartialEq, Eq, Structural)]
pub enum Order {
    Less,
    Equal,
    Greater,
}

/// The emitted `cmp` (and `partial_cmp`, which wraps it in `Some`): the
/// comparison of the two elements' `into_repr`, of values `a` and `b`, taken
/// as the comparison of their numbers.
pub open spec fn order_of(a: nat, b: nat) -> Order {
    if a < b {
        Order::Less
    } else if a == b {
        Order::Equal
    } else {
        Order::Greater
    }
}

/// Elements are ordered by their values, not by their Montgomery words, and
/// two elements below the modulus compare `Equal` exactly when their words
/// are equal (when `==` holds).
pub proof fn theorem_order(x: nat, y: nat, a: nat, b: nat, p: nat, k: nat)
    requires
        p % 2 == 1,
        x < p,
        y < p,
        is_repr_of(a, x, p, k),
        is_repr_of(b, y, p, k),
    ensures
        (order_of(a, b) == Order::Equal) <==> x == y,
        (order_of(a, b) == Order::Less) <==> a < b,
        order_of(b, a) == Order::Less <==> order_of(a, b) == Order::Greater,
{
    if x == y {
        theorem_repr_unique(a, b, x, p, k);
    }
    if a == b {
        theorem_words_unique(x, y, a, p, k);
    }
}

/// The candidate that `random` makes of the `k` words that the rng yields:
/// the top limb masked with `u64::MAX >> shave`.
pub open spec fn masked(words: Seq<u64>, shave: u64) -> Seq<u64> {
    words.update(words.len() - 1, words[words.len() - 1] & (0xffff_ffff_ffff_ffffu64 >> shave))
}

/// What `random` returns when the rng yields the words `cands[0]`,
/// `cands[1]`, ... in turn: the first masked candidate that passes the range
/// check (`None` where none of these does: the loop draws on).
pub open spec fn random_pick(cands: Seq<Seq<u64>>, modulus: Seq<u64>, shave: u64) -> Option<Seq<u64>>
    decreases cands.len(),
{
    if cands.len() == 0 {
        None
    } else {
        let c = masked(cands[0], shave);
        if cond_holds(valid_spec(c.len()), c, modulus) {
            Some(c)
        } else {
            random_pick(cands.drop_first(), modulus, shave)
        }
    }
}

/// `random` returns the first masked candidate below the modulus: the
/// result is below the modulus, it is the masked `cands[i]` for some `i`,
/// and every earlier masked candidate is at least the modulus. It returns
/// nothing only when every candidate is at least the modulus.
pub proof fn theorem_random(cands: Seq<Seq<u64>>, modulus: Seq<u64>, shave: u64, k: nat)
    requires
        1 <= k <= usize::MAX,
        k <= modulus.len(),
        forall|i: int| 0 <= i < cands.len() ==> (#[trigger] cands[i]).len() == k,
    ensures
        match random_pick(cands, modulus, shave) {
            Some(x) => {
                &&& seq_val(x) < seq_val(modulus.take(k as int))
                &&& exists|i: int|
                    0 <= i < cands.len() && x == masked(cands[i], shave) && forall|j: int|
                        0 <= j < i ==> seq_val(masked(#[trigger] cands[j], shave)) >= seq_val(
                            modulus.take(k as int),
                        )
            },
            None => forall|j: int|
                0 <= j < cands.len() ==> seq_val(masked(#[trigger] cands[j], shave)) >= seq_val(
                    modulus.take(k as int),
                ),
        },
    decreases cands.len(),
{
    if cands.len() > 0 {
        let c = masked(cands[0], shave);
        assert(c.len() == k);
        assert(c.take(k as int) =~= c);
        theorem_valid_is_less_than(k, c, modulus);
        let rest = cands.drop_first();
        assert forall|i: int| 0 <= i < rest.len() implies (#[trigger] rest[i]).len() == k by {
            assert(rest[i] == cands[i + 1]);
        }
        theorem_random(rest, modulus, shave, k);
        if !cond_holds(valid_spec(c.len()), c, modulus) {
            match random_pick(rest, modulus, shave) {
                Some(x) => {
                    let i = choose|i: int|
                        0 <= i < rest.len() && x == masked(rest[i], shave) && forall|j: int|
                            0 <= j < i ==> seq_val(masked(#[trigger] rest[j], shave)) >= seq_val(
                                modulus.take(k as int),
                            );
                    assert(x == masked(cands[i + 1], shave));
                    assert forall|j: int| 0 <= j < i + 1 implies seq_val(
                        masked(#[trigger] cands[j], shave),
                    ) >= seq_val(modulus.take(k as int)) by {
                        if j > 0 {
                            assert(cands[j] == rest[j - 1]);
                        }
                    }
                },
                None => {
                    assert forall|j: int| 0 <= j < cands.len() implies seq_val(
                        masked(#[trigger] cands[j], shave),
                    ) >= seq_val(modulus.take(k as int)) by {
                        if j > 0 {
                            assert(cands[j] == rest[j - 1]);
                        }
                    }
                },
            }
        }
    }
}

/// The chain of `_addcarry_u64` over the first `k` limbs of `x` and `y`: each
/// writes the low word of `x[i] + y[i] + carry` and passes on its carry. The
/// result holds the `k` words written and the last carry.
pub open spec fn add_carry_chain(x: Seq<u64>, y: Seq<u64>, k: nat) -> (Seq<u64>, nat)
    decreases k,
{
    if k == 0 {
        (Seq::empty(), 0)
    } else {
        let (low, c) = add_carry_chain(x, y, (k - 1) as nat);
        let t = x[k - 1] as nat + y[k - 1] as nat + c;
        (low.push((t % word()) as u64), t / word())
    }
}

/// The chain of `_subborrow_u64` over the first `k` limbs of `x` and `m`:
/// each writes the low word of `x[i] - m[i] - borrow` and passes on whether
/// it borrowed. The result holds the `k` words written and the last borrow.
pub open spec fn sub_borrow_chain(x: Seq<u64>, m: Seq<u64>, k: nat) -> (Seq<u64>, nat)
    decreases k,
{
    if k == 0 {
        (Seq::empty(), 0)
    } else {
        let (low, b) = sub_borrow_chain(x, m, (k - 1) as nat);
        let t = x[k - 1] as int - m[k - 1] as int - b as int;
        (low.push((t % (word() as int)) as u64), if t < 0 { 1 } else { 0 })
    }
}

/// The path of `add_assign` for four limbs on x86_64, on `k` limbs: the
/// carry chain adds `other` to `self` (the last carry is dropped), the borrow
/// chain subtracts the modulus into `s_sub`, and `s_sub` is kept only where
/// that chain ends without a borrow.
pub open spec fn add_assign_x86_limbs(x: Seq<u64>, y: Seq<u64>, m: Seq<u64>, k: nat) -> Seq<u64> {
    let s = add_carry_chain(x, y, k).0;
    let (d, borrow) = sub_borrow_chain(s, m, k);
    if borrow == 0 {
        d
    } else {
        s
    }
}

/// The carry chain adds: its words and its last carry stand for the sum.
proof fn lemma_add_carry_chain(x: Seq<u64>, y: Seq<u64>, k: nat)
    requires
        k <= x.len(),
        k <= y.len(),
    ensures
        add_carry_chain(x, y, k).0.len() == k,
        add_carry_chain(x, y, k).1 <= 1,
        seq_val(add_carry_chain(x, y, k).0) + add_carry_chain(x, y, k).1 * wpow(k) == seq_val(
            x.take(k as int),
        ) + seq_val(y.take(k as int)),
    decreases k,
{
    if k == 0 {
        assert(x.take(0) =~= Seq::<u64>::empty());
        assert(y.take(0) =~= Seq::<u64>::empty());
        assert(0 * wpow(0) == 0);
    } else {
        let h = (k - 1) as nat;
        lemma_add_carry_chain(x, y, h);
        let (low, c) = add_carry_chain(x, y, h);
        let t = x[h as int] as nat + y[h as int] as nat + c;
        let out = low.push((t % word()) as u64);
        assert(out.drop_last() =~= low);
        lemma_seq_val_take_succ(x, h as int);
        lemma_seq_val_take_succ(y, h as int);
        assert(t == word() * (t / word()) + t % word()) by (nonlinear_arith)
            requires
                word() > 0,
        ;
        assert(t / word() <= 1) by (nonlinear_arith)
            requires
                t < 2 * word(),
                word() > 0,
        ;
        assert(wpow(k) == word() * wpow(h));
        let q = t / word();
        assert(q * wpow(k) == (q * word()) * wpow(h)) by (nonlinear_arith)
            requires
                wpow(k) == word() * wpow(h),
        ;
        assert(t * wpow(h) == (x[h as int] as nat) * wpow(h) + (y[h as int] as nat) * wpow(h) + c
            * wpow(h)) by (nonlinear_arith)
            requires
                t == x[h as int] as nat + y[h as int] as nat + c,
        ;
        assert((t % word()) * wpow(h) + (q * word()) * wpow(h) == t * wpow(h)) by (nonlinear_arith)
            requires
                t == word() * q + t % word(),
        ;
    }
}

/// The borrow chain subtracts: its words, less its last borrow times
/// `wpow(k)`, stand for the difference.
proof fn lemma_sub_borrow_chain(x: Seq<u64>, m: Seq<u64>, k: nat)
    requires
        k <= x.len(),
        k <= m.len(),
    ensures
        sub_borrow_chain(x, m, k).0.len() == k,
        sub_borrow_chain(x, m, k).1 <= 1,
        seq_val(sub_borrow_chain(x, m, k).0) - sub_borrow_chain(x, m, k).1 * wpow(k) == seq_val(
            x.take(k as int),
        ) - seq_val(m.take(k as int)),
    decreases k,
{
    if k == 0 {
        assert(x.take(0) =~= Seq::<u64>::empty());
        assert(m.take(0) =~= Seq::<u64>::empty());
        assert(0 * wpow(0) == 0);
    } else {
        let h = (k - 1) as nat;
        lemma_sub_borrow_chain(x, m, h);
        let (low, b) = sub_borrow_chain(x, m, h);
        let t = x[h as int] as int - m[h as int] as int - b as int;
        let w = word() as int;
        let dig = t % w;
        let nb: int = if t < 0 { 1 } else { 0 };
        let out = low.push(dig as u64);
        assert(out.drop_last() =~= low);
        lemma_seq_val_take_succ(x, h as int);
        lemma_seq_val_take_succ(m, h as int);
        assert(dig == t + nb * w) by (nonlinear_arith)
            requires
                -w <= t < w,
                w > 0,
                dig == t % w,
                nb == (if t < 0 { 1int } else { 0int }),
        ;
        assert(wpow(k) == word() * wpow(h));
        assert(dig * wpow(h) - nb * wpow(k) == (x[h as int] as int) * wpow(h) - (m[h as int] as int)
            * wpow(h) - (b as int) * wpow(h)) by (nonlinear_arith)
            requires
                dig == t + nb * w,
                t == x[h as int] as int - m[h as int] as int - b as int,
                wpow(k) == w * wpow(h),
        ;
    }
}

/// The x86_64 path of `add_assign` leaves the same number as the portable
/// one, for elements below the modulus when twice the modulus fits in the
/// `k` limbs.
pub proof fn theorem_add_assign_x86(x: Seq<u64>, y: Seq<u64>, m: Seq<u64>, k: nat)
    requires
        x.len() == k,
        y.len() == k,
        m.len() == k,
        seq_val(x) < seq_val(m),
        seq_val(y) < seq_val(m),
        2 * seq_val(m) <= wpow(k),
    ensures
        add_assign_x86_limbs(x, y, m, k).len() == k,
        seq_val(add_assign_x86_limbs(x, y, m, k)) == add_assign_val(
            seq_val(x),
            seq_val(y),
            seq_val(m),
            k,
        ),
{
    let p = seq_val(m);
    assert(x.take(k as int) =~= x);
    assert(y.take(k as int) =~= y);
    assert(m.take(k as int) =~= m);
    lemma_add_carry_chain(x, y, k);
    let (s, c) = add_carry_chain(x, y, k);
    lemma_seq_val_bound(s);
    lemma_wpow_pos(k);
    // The sum is below twice the modulus, so the carry is zero.
    if c == 1 {
        assert(seq_val(s) + wpow(k) == seq_val(x) + seq_val(y));
    }
    assert(c == 0);
    assert(0 * wpow(k) == 0);
    assert(s.take(k as int) =~= s);
    lemma_sub_borrow_chain(s, m, k);
    let (d, borrow) = sub_borrow_chain(s, m, k);
    lemma_seq_val_bound(d);
    let sum = seq_val(x) + seq_val(y);
    lemma_small_mod(sum, wpow(k));
    if borrow == 0 {
        assert(0 * wpow(k) == 0);
        assert(seq_val(d) == sum - p);
        lemma_small_mod((sum - p) as nat, wpow(k));
    } else {
        assert(1 * wpow(k) == wpow(k));
        assert(seq_val(d) - wpow(k) == sum - p);
        assert(sum < p);
    }
}

} // verus!
