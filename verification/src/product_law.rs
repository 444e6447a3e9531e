//! The multiplication that `prime_field_impl` chooses, and what the emitted
//! products and `from_repr` mean for the values of the elements.
use vstd::prelude::*;
use vstd::arithmetic::div_mod::{
    lemma_mul_mod_noop, lemma_mul_mod_noop_left, lemma_mul_mod_noop_right, lemma_small_mod,
};
use crate::cios_law::{prefix_val, theorem_cios_product};
use crate::field_law::{
    mont_reduce_body, repr_arg_val, theorem_default_mul_assign, theorem_into_repr, theorem_square,
};
use crate::gen::{
    cios_spec, into_repr_args_spec, mul_default_spec, no_carry_spec, sqr_spec, uses_asm,
    uses_no_carry,
};
use crate::ir::{Ctx, Elem, State, Stmt, Var, run, seq_val, wpow};
use crate::modular::{
    is_repr_of, lemma_cancel_r, theorem_mont_result_unique, theorem_repr_unique, theorem_words_unique,
};
use crate::mont_law::{inv_ok, modulus_val};
use crate::no_carry_law::theorem_no_carry_product;
use crate::semantics::lemma_run_concat;

verus! {

/// The code that the emitted `mul_assign` runs, as `prime_field_impl`
/// writes it: the variant without a carry word or CIOS, or, where the
/// assembly routine is chosen, its portable fallback (the schoolbook code and
/// the body of the `mont_reduce` that it calls).
pub open spec fn mul_assign_spec(n: nat, modulus_raw: Seq<char>, no_carry: bool, x86_64: bool) -> Seq<
    Stmt,
> {
    if uses_asm(n, modulus_raw, x86_64) {
        mul_default_spec(Elem::SelfElem, Elem::Other, 4) + mont_reduce_body(4)
    } else if uses_no_carry(n, modulus_raw, no_carry, x86_64) {
        no_carry_spec(Elem::SelfElem, Elem::Other, n)
    } else {
        cios_spec(Elem::SelfElem, Elem::Other, n)
    }
}

/// The product in the field, however it is chosen: for `self` (`a`) and
/// `other` (`b`) below the modulus, `mul_assign` leaves in the `n` limbs of
/// `self` the number below the modulus that, times `R`, is congruent to
/// `a * b`. The variant without a carry word needs two limbs or more.
pub proof fn theorem_mul_assign(
    n: nat,
    modulus_raw: Seq<char>,
    no_carry: bool,
    x86_64: bool,
    st: State,
    ctx: Ctx,
)
    requires
        1 <= n <= usize::MAX / 2,
        st.limbs.len() == n,
        ctx.other.len() >= n,
        ctx.modulus.len() >= n,
        inv_ok(ctx),
        prefix_val(st.limbs, n) < modulus_val(ctx, n),
        prefix_val(ctx.other, n) < modulus_val(ctx, n),
        2 * modulus_val(ctx, n) <= wpow(n),
        uses_no_carry(n, modulus_raw, no_carry, x86_64) ==> 2 <= n,
    ensures
        ({
            let fin = run(mul_assign_spec(n, modulus_raw, no_carry, x86_64), st, ctx);
            let out = seq_val(fin.limbs);
            &&& fin.limbs.len() == n
            &&& out < modulus_val(ctx, n)
            &&& (out * wpow(n)) % modulus_val(ctx, n) == (prefix_val(st.limbs, n) * prefix_val(
                ctx.other,
                n,
            )) % modulus_val(ctx, n)
        }),
{
    if uses_asm(n, modulus_raw, x86_64) {
        lemma_run_concat(mul_default_spec(Elem::SelfElem, Elem::Other, 4), mont_reduce_body(4), st, ctx);
        theorem_default_mul_assign(Elem::SelfElem, Elem::Other, 4, st, ctx);
    } else if uses_no_carry(n, modulus_raw, no_carry, x86_64) {
        theorem_no_carry_product(Elem::SelfElem, Elem::Other, n, st, ctx);
    } else {
        theorem_cios_product(Elem::SelfElem, Elem::Other, n, st, ctx);
    }
}

/// From a Montgomery product to the values: if `out * R` is congruent to
/// `a * b` and `va`, `vb` are the values of `a` and `b`, then `out` has the
/// value `va * vb % p`.
pub proof fn lemma_product_value(out: nat, a: nat, b: nat, va: nat, vb: nat, p: nat, n: nat)
    requires
        p % 2 == 1,
        out < p,
        (out * wpow(n)) % p == (a * b) % p,
        is_repr_of(va, a, p, n),
        is_repr_of(vb, b, p, n),
    ensures
        is_repr_of((va * vb) % p, out, p, n),
{
    let r = wpow(n) as int;
    let pi = p as int;
    lemma_mul_mod_noop(a as int, b as int, pi);
    lemma_mul_mod_noop(va * r, vb * r, pi);
    assert((va * r) * (vb * r) == ((va * vb) * r) * r) by (nonlinear_arith);
    lemma_cancel_r(out as int, (va * vb) * r, pi, n);
    lemma_small_mod(out, p);
    lemma_mul_mod_noop_left((va * vb) as int, r, pi);
}

/// `mul_assign` in values: with `va` and `vb` the values of `self` and
/// `other` (what their `into_repr` gives), the product has the value
/// `va * vb % p`.
pub proof fn theorem_mul_assign_value(
    n: nat,
    modulus_raw: Seq<char>,
    no_carry: bool,
    x86_64: bool,
    st: State,
    ctx: Ctx,
    va: nat,
    vb: nat,
)
    requires
        1 <= n <= usize::MAX / 2,
        st.limbs.len() == n,
        ctx.other.len() >= n,
        ctx.modulus.len() >= n,
        inv_ok(ctx),
        modulus_val(ctx, n) % 2 == 1,
        prefix_val(st.limbs, n) < modulus_val(ctx, n),
        prefix_val(ctx.other, n) < modulus_val(ctx, n),
        2 * modulus_val(ctx, n) <= wpow(n),
        uses_no_carry(n, modulus_raw, no_carry, x86_64) ==> 2 <= n,
        is_repr_of(va, prefix_val(st.limbs, n), modulus_val(ctx, n), n),
        is_repr_of(vb, prefix_val(ctx.other, n), modulus_val(ctx, n), n),
    ensures
        is_repr_of(
            (va * vb) % modulus_val(ctx, n),
            seq_val(run(mul_assign_spec(n, modulus_raw, no_carry, x86_64), st, ctx).limbs),
            modulus_val(ctx, n),
            n,
        ),
{
    theorem_mul_assign(n, modulus_raw, no_carry, x86_64, st, ctx);
    lemma_product_value(
        seq_val(run(mul_assign_spec(n, modulus_raw, no_carry, x86_64), st, ctx).limbs),
        prefix_val(st.limbs, n),
        prefix_val(ctx.other, n),
        va,
        vb,
        modulus_val(ctx, n),
        n,
    );
}

/// `one` is the identity of `mul_assign`: where `other` holds the words of
/// `R % p` (the constant `R` of `one()`), the product leaves `self` as it was.
pub proof fn theorem_mul_by_one(
    n: nat,
    modulus_raw: Seq<char>,
    no_carry: bool,
    x86_64: bool,
    st: State,
    ctx: Ctx,
)
    requires
        1 <= n <= usize::MAX / 2,
        st.limbs.len() == n,
        ctx.other.len() >= n,
        ctx.modulus.len() >= n,
        inv_ok(ctx),
        modulus_val(ctx, n) % 2 == 1,
        prefix_val(st.limbs, n) < modulus_val(ctx, n),
        prefix_val(ctx.other, n) == wpow(n) % modulus_val(ctx, n),
        2 * modulus_val(ctx, n) <= wpow(n),
        uses_no_carry(n, modulus_raw, no_carry, x86_64) ==> 2 <= n,
    ensures
        seq_val(run(mul_assign_spec(n, modulus_raw, no_carry, x86_64), st, ctx).limbs) == seq_val(
            st.limbs,
        ),
{
    let p = modulus_val(ctx, n);
    let a = prefix_val(st.limbs, n);
    assert(st.limbs.take(n as int) =~= st.limbs);
    vstd::arithmetic::div_mod::lemma_mod_bound(wpow(n) as int, p as int);
    theorem_mul_assign(n, modulus_raw, no_carry, x86_64, st, ctx);
    let out = seq_val(run(mul_assign_spec(n, modulus_raw, no_carry, x86_64), st, ctx).limbs);
    lemma_mul_mod_noop_right(a as int, wpow(n) as int, p as int);
    lemma_cancel_r(out as int, a as int, p as int, n);
    lemma_small_mod(out, p);
    lemma_small_mod(a, p);
}

/// `square` and `mul_assign` of an element by itself leave the same number,
/// for two limbs or more.
pub proof fn theorem_square_is_mul(
    n: nat,
    modulus_raw: Seq<char>,
    no_carry: bool,
    x86_64: bool,
    st: State,
    ctx: Ctx,
)
    requires
        2 <= n <= usize::MAX / 2,
        st.limbs.len() == n,
        ctx.other.len() >= n,
        ctx.other.take(n as int) == st.limbs,
        ctx.modulus.len() >= n,
        inv_ok(ctx),
        modulus_val(ctx, n) % 2 == 1,
        prefix_val(st.limbs, n) < modulus_val(ctx, n),
        2 * modulus_val(ctx, n) <= wpow(n),
    ensures
        seq_val(run(mont_reduce_body(n), run(sqr_spec(Elem::SelfElem, n), st, ctx), ctx).limbs)
            == seq_val(run(mul_assign_spec(n, modulus_raw, no_carry, x86_64), st, ctx).limbs),
{
    assert(st.limbs.take(n as int) =~= st.limbs);
    assert(prefix_val(ctx.other, n) == prefix_val(st.limbs, n));
    theorem_mul_assign(n, modulus_raw, no_carry, x86_64, st, ctx);
    theorem_square(Elem::SelfElem, n, st, ctx);
    let a = prefix_val(st.limbs, n);
    theorem_mont_result_unique(
        seq_val(run(mont_reduce_body(n), run(sqr_spec(Elem::SelfElem, n), st, ctx), ctx).limbs),
        seq_val(run(mul_assign_spec(n, modulus_raw, no_carry, x86_64), st, ctx).limbs),
        a * a,
        modulus_val(ctx, n),
        n,
    );
}

/// The three portable multiplications agree: CIOS, the variant without a
/// carry word, and the schoolbook code followed by `mont_reduce` leave the
/// same number, for two limbs or more.
pub proof fn theorem_mul_variants_agree(n: nat, st: State, ctx: Ctx)
    requires
        2 <= n <= usize::MAX / 2,
        st.limbs.len() == n,
        ctx.other.len() >= n,
        ctx.modulus.len() >= n,
        inv_ok(ctx),
        modulus_val(ctx, n) % 2 == 1,
        prefix_val(st.limbs, n) < modulus_val(ctx, n),
        prefix_val(ctx.other, n) < modulus_val(ctx, n),
        2 * modulus_val(ctx, n) <= wpow(n),
    ensures
        seq_val(run(cios_spec(Elem::SelfElem, Elem::Other, n), st, ctx).limbs) == seq_val(
            run(no_carry_spec(Elem::SelfElem, Elem::Other, n), st, ctx).limbs,
        ),
        seq_val(run(cios_spec(Elem::SelfElem, Elem::Other, n), st, ctx).limbs) == seq_val(
            run(mont_reduce_body(n), run(mul_default_spec(Elem::SelfElem, Elem::Other, n), st, ctx), ctx).limbs,
        ),
{
    theorem_cios_product(Elem::SelfElem, Elem::Other, n, st, ctx);
    theorem_no_carry_product(Elem::SelfElem, Elem::Other, n, st, ctx);
    theorem_default_mul_assign(Elem::SelfElem, Elem::Other, n, st, ctx);
    let t = prefix_val(st.limbs, n) * prefix_val(ctx.other, n);
    let c = seq_val(run(cios_spec(Elem::SelfElem, Elem::Other, n), st, ctx).limbs);
    theorem_mont_result_unique(
        c,
        seq_val(run(no_carry_spec(Elem::SelfElem, Elem::Other, n), st, ctx).limbs),
        t,
        modulus_val(ctx, n),
        n,
    );
    theorem_mont_result_unique(
        c,
        seq_val(
            run(mont_reduce_body(n), run(mul_default_spec(Elem::SelfElem, Elem::Other, n), st, ctx), ctx).limbs,
        ),
        t,
        modulus_val(ctx, n),
        n,
    );
}

/// `from_repr`: the emitted code accepts `r` exactly when its range check
/// holds (`theorem_valid_is_less_than`: when `r < p`), and then multiplies it
/// by the constant `R2` (`R^2 % p`). The element it returns is below the
/// modulus and has the value `r`: its `into_repr` gives `r` back.
pub proof fn theorem_from_repr(
    n: nat,
    modulus_raw: Seq<char>,
    no_carry: bool,
    x86_64: bool,
    st: State,
    ctx: Ctx,
)
    requires
        1 <= n <= usize::MAX / 2,
        st.limbs.len() == n,
        ctx.other.len() >= n,
        ctx.modulus.len() >= n,
        inv_ok(ctx),
        modulus_val(ctx, n) % 2 == 1,
        prefix_val(st.limbs, n) < modulus_val(ctx, n),
        prefix_val(ctx.other, n) == (wpow(n) * wpow(n)) % modulus_val(ctx, n),
        2 * modulus_val(ctx, n) <= wpow(n),
        uses_no_carry(n, modulus_raw, no_carry, x86_64) ==> 2 <= n,
    ensures
        ({
            let out = seq_val(run(mul_assign_spec(n, modulus_raw, no_carry, x86_64), st, ctx).limbs);
            &&& out < modulus_val(ctx, n)
            &&& is_repr_of(seq_val(st.limbs), out, modulus_val(ctx, n), n)
        }),
{
    let p = modulus_val(ctx, n);
    let r = prefix_val(st.limbs, n);
    let w = wpow(n) as int;
    assert(st.limbs.take(n as int) =~= st.limbs);
    vstd::arithmetic::div_mod::lemma_mod_bound(w * w, p as int);
    theorem_mul_assign(n, modulus_raw, no_carry, x86_64, st, ctx);
    let out = seq_val(run(mul_assign_spec(n, modulus_raw, no_carry, x86_64), st, ctx).limbs);
    lemma_mul_mod_noop_right(r as int, w * w, p as int);
    assert(r * (w * w) == (r * w) * w) by (nonlinear_arith);
    lemma_cancel_r(out as int, r * w, p as int, n);
    lemma_small_mod(out, p);
}

/// The words that `into_repr` hands to `mont_reduce`: the limbs of `self`,
/// then zeros, in `r0 .. r{2n-1}`.
pub open spec fn into_repr_ready(n: nat, st: State) -> bool {
    forall|t: usize|
        t < 2 * n ==> #[trigger] (st.vars)(Var::Temp(t)) == repr_arg_val(into_repr_args_spec(n)[t as int], st)
}

/// `into_repr` after `from_repr` gives back the number that went in: for
/// `r < p`, the element that `from_repr(r)` makes has `into_repr` equal to `r`.
pub proof fn theorem_from_repr_into_repr(
    n: nat,
    modulus_raw: Seq<char>,
    no_carry: bool,
    x86_64: bool,
    st: State,
    st2: State,
    ctx: Ctx,
)
    requires
        1 <= n <= usize::MAX / 2,
        st.limbs.len() == n,
        ctx.other.len() >= n,
        ctx.modulus.len() >= n,
        inv_ok(ctx),
        modulus_val(ctx, n) % 2 == 1,
        prefix_val(st.limbs, n) < modulus_val(ctx, n),
        prefix_val(ctx.other, n) == (wpow(n) * wpow(n)) % modulus_val(ctx, n),
        2 * modulus_val(ctx, n) <= wpow(n),
        uses_no_carry(n, modulus_raw, no_carry, x86_64) ==> 2 <= n,
        st2.limbs == run(mul_assign_spec(n, modulus_raw, no_carry, x86_64), st, ctx).limbs,
        into_repr_ready(n, st2),
    ensures
        run(mont_reduce_body(n), st2, ctx).limbs.len() == n,
        seq_val(run(mont_reduce_body(n), st2, ctx).limbs) == seq_val(st.limbs),
{
    theorem_mul_assign(n, modulus_raw, no_carry, x86_64, st, ctx);
    theorem_from_repr(n, modulus_raw, no_carry, x86_64, st, ctx);
    theorem_into_repr(n, st2, ctx);
    theorem_repr_unique(
        seq_val(run(mont_reduce_body(n), st2, ctx).limbs),
        seq_val(st.limbs),
        seq_val(st2.limbs),
        modulus_val(ctx, n),
        n,
    );
}

/// `from_repr` after `into_repr` gives back the element: for words below the
/// modulus, `from_repr` of their `into_repr` makes the same words.
pub proof fn theorem_into_repr_from_repr(
    n: nat,
    modulus_raw: Seq<char>,
    no_carry: bool,
    x86_64: bool,
    st: State,
    st2: State,
    ctx: Ctx,
)
    requires
        1 <= n <= usize::MAX / 2,
        st.limbs.len() == n,
        ctx.other.len() >= n,
        ctx.modulus.len() >= n,
        inv_ok(ctx),
        modulus_val(ctx, n) % 2 == 1,
        seq_val(st.limbs) < modulus_val(ctx, n),
        prefix_val(ctx.other, n) == (wpow(n) * wpow(n)) % modulus_val(ctx, n),
        2 * modulus_val(ctx, n) <= wpow(n),
        uses_no_carry(n, modulus_raw, no_carry, x86_64) ==> 2 <= n,
        into_repr_ready(n, st),
        st2.limbs == run(mont_reduce_body(n), st, ctx).limbs,
    ensures
        seq_val(run(mul_assign_spec(n, modulus_raw, no_carry, x86_64), st2, ctx).limbs) == seq_val(
            st.limbs,
        ),
{
    theorem_into_repr(n, st, ctx);
    assert(st2.limbs.take(n as int) =~= st2.limbs);
    theorem_from_repr(n, modulus_raw, no_carry, x86_64, st2, ctx);
    theorem_mul_assign(n, modulus_raw, no_carry, x86_64, st2, ctx);
    theorem_words_unique(
        seq_val(run(mul_assign_spec(n, modulus_raw, no_carry, x86_64), st2, ctx).limbs),
        seq_val(st.limbs),
        seq_val(st2.limbs),
        modulus_val(ctx, n),
        n,
    );
}

} // verus!
