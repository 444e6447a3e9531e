//! The emitted `inverse`: the binary extended Euclidean algorithm on the
//! representation, in numbers, and the law that it meets for a prime modulus.
use vstd::prelude::*;
use vstd::arithmetic::div_mod::{
    lemma_add_mod_noop, lemma_mod_equivalence, lemma_mul_mod_noop, lemma_mul_mod_noop_left,
    lemma_mul_mod_noop_right, lemma_small_mod, lemma_sub_mod_noop,
};
use crate::field_ops::{add_nocarry, sub_assign_val, sub_noborrow, theorem_sub_assign};
use crate::ir::wpow;
use crate::modular::{is_repr_of, lemma_cancel_r, lemma_halve};

verus! {

/// `d` divides `a`.
pub open spec fn divides(d: nat, a: nat) -> bool {
    a % d == 0
}

/// No number above one divides both `u` and `v`.
pub open spec fn coprime(u: nat, v: nat) -> bool {
    forall|d: nat| d > 1 ==> !(#[trigger] divides(d, u) && #[trigger] divides(d, v))
}

/// `p` is a prime.
pub open spec fn is_prime(p: nat) -> bool {
    p > 1 && forall|d: nat| 1 < d < p ==> !#[trigger] divides(d, p)
}

/// `div2` ("a rightwise bitshift of this number, effectively dividing it by 2").
pub open spec fn div2(x: nat) -> nat {
    x / 2
}

/// What the loop does to `b` where it halves `u`: `b.0.div2()` where `b` is
/// even, `b.0.add_nocarry(&MODULUS); b.0.div2();` where it is odd.
pub open spec fn halve_coef(b: nat, p: nat, k: nat) -> nat {
    if b % 2 == 0 {
        div2(b)
    } else {
        div2(add_nocarry(b, p, k))
    }
}

/// The inner loop `while u.is_even() { u.div2(); ... }`, with what it does to
/// the coefficient `b` that goes with `u`.
pub open spec fn halve_loop(u: nat, b: nat, p: nat, k: nat) -> (nat, nat)
    decreases u,
    when u > 0
{
    if u % 2 == 0 {
        halve_loop(div2(u), halve_coef(b, p, k), p, k)
    } else {
        (u, b)
    }
}

/// The inner loop leaves an odd number no larger than it started from.
pub proof fn lemma_halve_loop_bound(u: nat, b: nat, p: nat, k: nat)
    requires
        u > 0,
    ensures
        0 < halve_loop(u, b, p, k).0 <= u,
        halve_loop(u, b, p, k).0 % 2 == 1,
    decreases u,
{
    if u % 2 == 0 {
        lemma_halve_loop_bound(div2(u), halve_coef(b, p, k), p, k);
    }
}

/// The outer loop of `inverse`, from `u`, `v` and their coefficients `b`,
/// `c`: while neither `u` nor `v` is one, both are made odd, then the smaller
/// is subtracted from the larger (`sub_noborrow`) and its coefficient from
/// the other's (`sub_assign`); the result is `b` where `u` is one, else `c`.
/// The comparison `v < u` of the representations is taken as that of their
/// numbers.
pub open spec fn bea(u: nat, v: nat, b: nat, c: nat, p: nat, k: nat) -> nat
    decreases u + v,
    when (u > 0 && v > 0 && u < wpow(k) && v < wpow(k)) || u == 1 || v == 1
{
    if u == 1 {
        b
    } else if v == 1 {
        c
    } else {
        let (u1, b1) = halve_loop(u, b, p, k);
        let (v1, c1) = halve_loop(v, c, p, k);
        proof {
            lemma_halve_loop_bound(u, b, p, k);
            lemma_halve_loop_bound(v, c, p, k);
        }
        if v1 < u1 {
            proof {
                lemma_small_mod((u1 - v1) as nat, wpow(k));
            }
            bea(sub_noborrow(u1, v1, k), v1, sub_assign_val(b1, c1, p, k), c1, p, k)
        } else {
            proof {
                lemma_small_mod((v1 - u1) as nat, wpow(k));
            }
            bea(u1, sub_noborrow(v1, u1, k), b1, sub_assign_val(c1, b1, p, k), p, k)
        }
    }
}

/// The emitted `inverse` of the element with words `x`, where `r2` is the
/// number in the constant `R2`: `None` for zero, otherwise the loop run from
/// `u = x`, `v = p`, `b = R2`, `c = 0`.
pub open spec fn inverse_val(x: nat, r2: nat, p: nat, k: nat) -> Option<nat> {
    if x == 0 {
        None
    } else {
        Some(bea(x, p, r2, 0, p, k))
    }
}

/// A common divisor of `a` and `b` divides `a + b`.
proof fn lemma_divides_add(d: nat, a: nat, b: nat)
    requires
        d > 0,
        divides(d, a),
        divides(d, b),
    ensures
        divides(d, a + b),
{
    lemma_add_mod_noop(a as int, b as int, d as int);
    lemma_small_mod(0, d);
}

/// A divisor of half an even number divides the number.
proof fn lemma_divides_double(d: nat, a: nat)
    requires
        d > 0,
        divides(d, a),
    ensures
        divides(d, 2 * a),
{
    lemma_mul_mod_noop_right(2, a as int, d as int);
    lemma_small_mod(0, d);
}

/// Halving an even `u` keeps it coprime with `v`.
proof fn lemma_coprime_halve(u: nat, v: nat)
    requires
        coprime(u, v),
        u % 2 == 0,
    ensures
        coprime(u / 2, v),
{
    assert forall|d: nat| d > 1 implies !(#[trigger] divides(d, u / 2) && #[trigger] divides(d, v)) by {
        if divides(d, u / 2) && divides(d, v) {
            lemma_divides_double(d, u / 2);
            assert(2 * (u / 2) == u);
            assert(divides(d, u) && divides(d, v));
        }
    }
}

/// Subtracting the smaller keeps the pair coprime.
proof fn lemma_coprime_sub(u: nat, v: nat)
    requires
        coprime(u, v),
        v <= u,
    ensures
        coprime((u - v) as nat, v),
        coprime(v, (u - v) as nat),
{
    assert forall|d: nat| d > 1 implies !(#[trigger] divides(d, (u - v) as nat) && #[trigger] divides(d, v))
        by {
        if divides(d, (u - v) as nat) && divides(d, v) {
            lemma_divides_add(d, (u - v) as nat, v);
            assert(divides(d, u) && divides(d, v));
        }
    }
}

/// A positive multiple of `d` is at least `d`.
proof fn lemma_divides_le(d: nat, a: nat)
    requires
        d > 0,
        a > 0,
        divides(d, a),
    ensures
        d <= a,
{
    if a < d {
        lemma_small_mod(a, d);
    }
}

/// A number between zero and a prime is coprime with it.
proof fn lemma_coprime_prime(x: nat, p: nat)
    requires
        is_prime(p),
        0 < x < p,
    ensures
        coprime(x, p),
{
    assert forall|d: nat| d > 1 implies !(#[trigger] divides(d, x) && #[trigger] divides(d, p)) by {
        if divides(d, x) && divides(d, p) {
            lemma_divides_le(d, x);
            assert(1 < d < p);
        }
    }
}

/// Where `x * b` is congruent to `u * t`, halving `u` and its coefficient
/// keeps that congruence (the modulus being odd).
proof fn lemma_halve_step(u: nat, b: nat, x: nat, t: nat, p: nat, k: nat)
    requires
        p % 2 == 1,
        b < p,
        2 * p <= wpow(k),
        u % 2 == 0,
        (x * b) % p == (u * t) % p,
    ensures
        halve_coef(b, p, k) < p,
        (x * halve_coef(b, p, k)) % p == ((u / 2) * t) % p,
{
    let h = halve_coef(b, p, k);
    let pi = p as int;
    if b % 2 == 1 {
        lemma_small_mod(b + p, wpow(k));
        assert(2 * h == b + p);
    } else {
        assert(2 * h == b);
    }
    // 2 * (x * h - (u / 2) * t) is x * b - u * t, plus a multiple of p.
    let z = x * h - (u / 2) * t;
    assert(2 * z == (x * b - u * t) + x * (2 * h - b)) by (nonlinear_arith)
        requires
            z == x * h - (u / 2) * t,
            u == 2 * (u / 2),
    ;
    lemma_mod_equivalence((x * b) as int, (u * t) as int, pi);
    if b % 2 == 1 {
        assert(x * (2 * h - b) == pi * x) by (nonlinear_arith)
            requires
                2 * h == b + p,
                pi == p,
        ;
    } else {
        assert(x * (2 * h - b) == pi * 0) by (nonlinear_arith)
            requires
                2 * h == b,
        ;
    }
    vstd::arithmetic::div_mod::lemma_mod_multiples_vanish(
        if b % 2 == 1 { x as int } else { 0 },
        x * b - u * t,
        pi,
    );
    lemma_halve(z, pi);
    lemma_mod_equivalence((x * h) as int, ((u / 2) * t) as int, pi);
}

/// The inner loop keeps `x * b` congruent to `u * t`, the coefficient below
/// the modulus, and `u` coprime with `v`.
proof fn lemma_halve_loop_inv(u: nat, v: nat, b: nat, x: nat, t: nat, p: nat, k: nat)
    requires
        p % 2 == 1,
        u > 0,
        b < p,
        2 * p <= wpow(k),
        (x * b) % p == (u * t) % p,
        coprime(u, v),
    ensures
        ({
            let (u1, b1) = halve_loop(u, b, p, k);
            &&& b1 < p
            &&& (x * b1) % p == (u1 * t) % p
            &&& coprime(u1, v)
        }),
    decreases u,
{
    if u % 2 == 0 {
        lemma_halve_step(u, b, x, t, p, k);
        lemma_coprime_halve(u, v);
        lemma_halve_loop_inv(div2(u), v, halve_coef(b, p, k), x, t, p, k);
    }
}

/// Subtracting `v`'s line from `u`'s keeps the congruence.
proof fn lemma_sub_step(u: nat, v: nat, b: nat, c: nat, x: nat, t: nat, p: nat, k: nat)
    requires
        1 <= p,
        b < p,
        c < p,
        2 * p <= wpow(k),
        v <= u,
        (x * b) % p == (u * t) % p,
        (x * c) % p == (v * t) % p,
    ensures
        sub_assign_val(b, c, p, k) < p,
        (x * sub_assign_val(b, c, p, k)) % p == (((u - v) as nat) * t) % p,
{
    theorem_sub_assign(b, c, 0, 0, p, k);
    let s = sub_assign_val(b, c, p, k);
    let pi = p as int;
    // x * s is congruent to x * (b + p - c), which is x * b - x * c plus a multiple of p.
    lemma_mul_mod_noop_right(x as int, (b + p - c) as int, pi);
    assert(x * (b + p - c) == pi * x + (x * b - x * c)) by (nonlinear_arith)
        requires
            pi == p,
    ;
    vstd::arithmetic::div_mod::lemma_mod_multiples_vanish(x as int, x * b - x * c, pi);
    lemma_sub_mod_noop((x * b) as int, (x * c) as int, pi);
    lemma_sub_mod_noop((u * t) as int, (v * t) as int, pi);
    assert(u * t - v * t == ((u - v) as nat) * t) by (nonlinear_arith)
        requires
            v <= u,
    ;
}

/// The outer loop: from `x * b` congruent to `u * t` and `x * c` to `v * t`,
/// with `u`, `v` coprime and positive, it returns a coefficient below the
/// modulus whose product with `x` is congruent to `t`.
proof fn lemma_bea(u: nat, v: nat, b: nat, c: nat, x: nat, t: nat, p: nat, k: nat)
    requires
        p % 2 == 1,
        b < p,
        c < p,
        0 < u < wpow(k),
        0 < v < wpow(k),
        2 * p <= wpow(k),
        coprime(u, v),
        (x * b) % p == (u * t) % p,
        (x * c) % p == (v * t) % p,
    ensures
        bea(u, v, b, c, p, k) < p,
        (x * bea(u, v, b, c, p, k)) % p == t % p,
    decreases u + v,
{
    if u == 1 {
        assert(1 * t == t);
    } else if v == 1 {
        assert(1 * t == t);
    } else {
        let (u1, b1) = halve_loop(u, b, p, k);
        let (v1, c1) = halve_loop(v, c, p, k);
        lemma_halve_loop_bound(u, b, p, k);
        lemma_halve_loop_bound(v, c, p, k);
        lemma_halve_loop_inv(u, v, b, x, t, p, k);
        assert(coprime(v, u1)) by {
            assert forall|d: nat| d > 1 implies !(#[trigger] divides(d, v) && #[trigger] divides(d, u1)) by {
                assert(!(divides(d, u1) && divides(d, v)));
            }
        }
        lemma_halve_loop_inv(v, u1, c, x, t, p, k);
        assert(coprime(u1, v1)) by {
            assert forall|d: nat| d > 1 implies !(#[trigger] divides(d, u1) && #[trigger] divides(d, v1)) by {
                assert(!(divides(d, v1) && divides(d, u1)));
            }
        }
        if v1 < u1 {
            lemma_small_mod((u1 - v1) as nat, wpow(k));
            lemma_sub_step(u1, v1, b1, c1, x, t, p, k);
            lemma_coprime_sub(u1, v1);
            lemma_bea((u1 - v1) as nat, v1, sub_assign_val(b1, c1, p, k), c1, x, t, p, k);
        } else {
            lemma_small_mod((v1 - u1) as nat, wpow(k));
            lemma_sub_step(v1, u1, c1, b1, x, t, p, k);
            lemma_coprime_sub(v1, u1);
            if v1 == u1 {
                // Coprime and equal: both are one, and the loop ends with `b`.
                if u1 > 1 {
                    assert(divides(u1, u1) && divides(u1, v1)) by {
                        vstd::arithmetic::div_mod::lemma_mod_self_0(u1 as int);
                    }
                }
                assert(u1 == 1);
                assert(1 * t == t);
            } else {
                lemma_bea(u1, (v1 - u1) as nat, b1, sub_assign_val(c1, b1, p, k), x, t, p, k);
            }
        }
    }
}

/// `inverse` for a prime modulus (twice of which fits in the `k` limbs): it
/// returns `None` exactly for zero; otherwise an element `y` below the
/// modulus with `x * y` congruent to `R2`, which in values is the inverse:
/// where `a` is the value of `x` and `w` that of `y`, `a * w` is one modulo
/// the modulus.
pub proof fn theorem_inverse(x: nat, r2: nat, a: nat, p: nat, k: nat)
    requires
        is_prime(p),
        p % 2 == 1,
        2 * p <= wpow(k),
        x < p,
        r2 < p,
        r2 == (wpow(k) * wpow(k)) % p,
    ensures
        inverse_val(x, r2, p, k) is None <==> x == 0,
        x != 0 ==> ({
            let y = inverse_val(x, r2, p, k)->0;
            &&& y < p
            &&& (x * y) % p == r2
            &&& forall|w: nat|
                is_repr_of(a, x, p, k) && is_repr_of(w, y, p, k) ==> #[trigger] ((a * w) % p) == 1
        }),
{
    if x != 0 {
        lemma_coprime_prime(x, p);
        assert((x * r2) % p == (x * r2) % p);
        assert((x * 0) % p == (p * r2) % p) by {
            assert(x * 0 == 0);
            lemma_small_mod(0, p);
            lemma_mul_mod_noop_left(p as int, r2 as int, p as int);
            vstd::arithmetic::div_mod::lemma_mod_self_0(p as int);
            assert(0 * r2 == 0);
        }
        lemma_bea(x, p, r2, 0, x, r2, p, k);
        let y = bea(x, p, r2, 0, p, k);
        lemma_small_mod(r2, p);
        assert forall|w: nat| is_repr_of(a, x, p, k) && is_repr_of(w, y, p, k) implies #[trigger] ((a * w)
            % p) == 1 by {
            lemma_inverse_value(x, y, a, w, p, k);
        }
    }
}

/// From `x * y` congruent to `R^2` to the values: `a * w` is one.
proof fn lemma_inverse_value(x: nat, y: nat, a: nat, w: nat, p: nat, k: nat)
    requires
        p % 2 == 1,
        p > 1,
        (x * y) % p == (wpow(k) * wpow(k)) % p,
        is_repr_of(a, x, p, k),
        is_repr_of(w, y, p, k),
    ensures
        (a * w) % p == 1,
{
    let r = wpow(k) as int;
    let pi = p as int;
    lemma_mul_mod_noop(x as int, y as int, pi);
    lemma_mul_mod_noop(a * r, w * r, pi);
    assert((a * r) * (w * r) == ((a * w) * r) * r) by (nonlinear_arith);
    assert(r * r == (1 * r) * r) by (nonlinear_arith);
    lemma_cancel_r((a * w) * r, 1 * r, pi, k);
    lemma_cancel_r((a * w) as int, 1, pi, k);
    lemma_small_mod(1, p);
}

} // verus!
