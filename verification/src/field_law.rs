//! Laws of the emitted field arithmetic as a whole: the products and the
//! conversion out of Montgomery form, each followed by the reduction.
use vstd::prelude::*;
use crate::arith::{lemma_seq_val_bound, lemma_seq_val_concat, lemma_wpow_pos};
use crate::cios_law::prefix_val;
use crate::gen::{into_repr_args_spec, mont_spec, mul_default_spec, sqr_spec};
use crate::ir::{Ctx, Elem, ReprArg, State, Stmt, Var, run, seq_val, step, wpow};
use crate::mont_law::{inv_ok, lemma_modulus_pos, modulus_val, theorem_mont_reduce_in_range};
use crate::reduce_law::lemma_reduce_congruent;
use crate::mul_law::theorem_mul_default_product;
use crate::semantics::{elem_limbs, lemma_run_concat, lemma_run_one, temps};
use crate::sqr_law::theorem_sqr_square;

verus! {

/// What an argument of the call of `mont_reduce` in `into_repr` evaluates to.
pub open spec fn repr_arg_val(arg: ReprArg, st: State) -> u64 {
    match arg {
        ReprArg::SelfLimb(i) => st.limbs[i as int],
        ReprArg::Zero => 0,
    }
}

/// The whole body of the emitted `mont_reduce`: the generated reduction, then
/// `self.reduce()`.
pub open spec fn mont_reduce_body(n: nat) -> Seq<Stmt> {
    mont_spec(n) + seq![Stmt::Reduce]
}

/// `mont_reduce` as a whole, on `2n` words `T < modulus * R` in
/// `r0 .. r{2n-1}`: it leaves in the `n` limbs of `self` the number below the
/// modulus that, times `R`, is congruent to `T`.
proof fn lemma_mont_reduce_body(n: nat, st: State, ctx: Ctx)
    requires
        1 <= n <= usize::MAX / 2,
        ctx.modulus.len() >= n,
        st.limbs.len() == n,
        inv_ok(ctx),
        seq_val(temps(st.vars, 2 * n)) < modulus_val(ctx, n) * wpow(n),
        2 * modulus_val(ctx, n) <= wpow(n),
    ensures
        ({
            let fin = run(mont_reduce_body(n), st, ctx);
            let out = seq_val(fin.limbs);
            &&& fin.limbs.len() == n
            &&& out < modulus_val(ctx, n)
            &&& (out * wpow(n)) % modulus_val(ctx, n) == seq_val(temps(st.vars, 2 * n)) % modulus_val(
                ctx,
                n,
            )
        }),
{
    theorem_mont_reduce_in_range(n, st, ctx);
    let s1 = run(mont_spec(n), st, ctx);
    lemma_run_concat(mont_spec(n), seq![Stmt::Reduce], st, ctx);
    lemma_run_one(Stmt::Reduce, s1, ctx);
    assert(run(mont_reduce_body(n), st, ctx) == step(Stmt::Reduce, s1, ctx));
    assert(s1.limbs.take(n as int) =~= s1.limbs);
    lemma_reduce_congruent(s1.limbs, ctx.modulus, wpow(n), seq_val(temps(st.vars, 2 * n)));
}

/// A product below `modulus^2` is below `modulus * R` when twice the
/// modulus fits in `n` limbs.
proof fn lemma_product_in_range(x: nat, y: nat, m: nat, r: nat)
    requires
        x < m,
        y < m,
        2 * m <= r,
    ensures
        x * y < m * r,
{
    assert(x * y < m * r) by (nonlinear_arith)
        requires
            x < m,
            y < m,
            2 * m <= r,
    ;
}

/// The schoolbook multiplication followed by `mont_reduce` (the code for
/// four limbs that falls back from the assembly routine): for `a` and `b`
/// below the modulus, it leaves in the `n` limbs of `self` the Montgomery
/// product, the number below the modulus that, times `R`, is congruent to
/// `a * b`.
pub proof fn theorem_default_mul_assign(a: Elem, b: Elem, n: nat, st: State, ctx: Ctx)
    requires
        1 <= n <= usize::MAX / 2,
        st.limbs.len() == n,
        elem_limbs(a, st, ctx).len() >= n,
        elem_limbs(b, st, ctx).len() >= n,
        ctx.modulus.len() >= n,
        inv_ok(ctx),
        prefix_val(elem_limbs(a, st, ctx), n) < modulus_val(ctx, n),
        prefix_val(elem_limbs(b, st, ctx), n) < modulus_val(ctx, n),
        2 * modulus_val(ctx, n) <= wpow(n),
    ensures
        ({
            let fin = run(mont_reduce_body(n), run(mul_default_spec(a, b, n), st, ctx), ctx);
            let out = seq_val(fin.limbs);
            &&& fin.limbs.len() == n
            &&& out < modulus_val(ctx, n)
            &&& (out * wpow(n)) % modulus_val(ctx, n) == (prefix_val(elem_limbs(a, st, ctx), n)
                * prefix_val(elem_limbs(b, st, ctx), n)) % modulus_val(ctx, n)
        }),
{
    theorem_mul_default_product(a, b, n, st, ctx);
    let s1 = run(mul_default_spec(a, b, n), st, ctx);
    lemma_product_in_range(
        prefix_val(elem_limbs(a, st, ctx), n),
        prefix_val(elem_limbs(b, st, ctx), n),
        modulus_val(ctx, n),
        wpow(n),
    );
    lemma_mont_reduce_body(n, s1, ctx);
}

/// The squaring followed by `mont_reduce`: for `a` below the modulus, it
/// leaves in the `n` limbs of `self` the number below the modulus that, times
/// `R`, is congruent to `a * a`.
pub proof fn theorem_square(a: Elem, n: nat, st: State, ctx: Ctx)
    requires
        2 <= n <= usize::MAX / 2,
        st.limbs.len() == n,
        elem_limbs(a, st, ctx).len() >= n,
        ctx.modulus.len() >= n,
        inv_ok(ctx),
        prefix_val(elem_limbs(a, st, ctx), n) < modulus_val(ctx, n),
        2 * modulus_val(ctx, n) <= wpow(n),
    ensures
        ({
            let fin = run(mont_reduce_body(n), run(sqr_spec(a, n), st, ctx), ctx);
            let out = seq_val(fin.limbs);
            &&& fin.limbs.len() == n
            &&& out < modulus_val(ctx, n)
            &&& (out * wpow(n)) % modulus_val(ctx, n) == (prefix_val(elem_limbs(a, st, ctx), n)
                * prefix_val(elem_limbs(a, st, ctx), n)) % modulus_val(ctx, n)
        }),
{
    theorem_sqr_square(a, n, st, ctx);
    let s1 = run(sqr_spec(a, n), st, ctx);
    lemma_product_in_range(
        prefix_val(elem_limbs(a, st, ctx), n),
        prefix_val(elem_limbs(a, st, ctx), n),
        modulus_val(ctx, n),
        wpow(n),
    );
    lemma_mont_reduce_body(n, s1, ctx);
}

/// `into_repr`: `mont_reduce` run on the arguments that the generator writes
/// for it (the limbs of `self`, then zeros) leaves in the `n` limbs the number
/// below the modulus that, times `R`, is congruent to `self`: it takes `self`
/// out of Montgomery form.
pub proof fn theorem_into_repr(n: nat, st: State, ctx: Ctx)
    requires
        1 <= n <= usize::MAX / 2,
        st.limbs.len() == n,
        ctx.modulus.len() >= n,
        inv_ok(ctx),
        2 * modulus_val(ctx, n) <= wpow(n),
        forall|t: usize|
            t < 2 * n ==> #[trigger] (st.vars)(Var::Temp(t)) == repr_arg_val(
                into_repr_args_spec(n)[t as int],
                st,
            ),
    ensures
        ({
            let fin = run(mont_reduce_body(n), st, ctx);
            let out = seq_val(fin.limbs);
            &&& fin.limbs.len() == n
            &&& out < modulus_val(ctx, n)
            &&& (out * wpow(n)) % modulus_val(ctx, n) == seq_val(st.limbs) % modulus_val(ctx, n)
        }),
{
    let zeros = Seq::new(n, |t: int| 0u64);
    assert forall|t: int| 0 <= t < 2 * n implies #[trigger] temps(st.vars, 2 * n)[t] == (st.limbs.take(
        n as int,
    ) + zeros)[t] by {
        let u = t as usize;
        assert((st.vars)(Var::Temp(u)) == repr_arg_val(into_repr_args_spec(n)[t], st));
    }
    assert(temps(st.vars, 2 * n) =~= st.limbs.take(n as int) + zeros);
    lemma_seq_val_concat(st.limbs.take(n as int), zeros);
    lemma_zeros_val(n);
    let av = prefix_val(st.limbs, n);
    assert(st.limbs.take(n as int) =~= st.limbs);
    assert(seq_val(temps(st.vars, 2 * n)) == av) by (nonlinear_arith)
        requires
            seq_val(temps(st.vars, 2 * n)) == av + wpow(n) * seq_val(zeros),
            seq_val(zeros) == 0,
    ;
    lemma_seq_val_bound(st.limbs.take(n as int));
    lemma_wpow_pos(n);
    let m = modulus_val(ctx, n);
    lemma_modulus_pos(n, ctx);
    assert(av < m * wpow(n)) by (nonlinear_arith)
        requires
            av < wpow(n),
            m >= 1,
    ;
    lemma_mont_reduce_body(n, st, ctx);
}

/// Words that are all zero stand for zero.
proof fn lemma_zeros_val(n: nat)
    ensures
        seq_val(Seq::new(n, |t: int| 0u64)) == 0,
    decreases n,
{
    if n > 0 {
        lemma_zeros_val((n - 1) as nat);
        let z = Seq::new(n, |t: int| 0u64);
        assert(z.drop_last() =~= Seq::new((n - 1) as nat, |t: int| 0u64));
        assert(z.last() == 0);
        assert((z.last() as nat) * wpow((n - 1) as nat) == 0);
    }
}

} // verus!
