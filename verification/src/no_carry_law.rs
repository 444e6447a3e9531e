//! What the emitted multiplication without a carry word computes.
use vstd::prelude::*;
use crate::arith::{
    lemma_inv_clears, lemma_lo_hi, lemma_seq_val_take_succ, lemma_wpow_pos,
};
use crate::cios_law::prefix_val;
use crate::gen::{
    concat_blocks, no_carry_inner, no_carry_mul_step, no_carry_prelude, no_carry_red_step,
    no_carry_row, no_carry_rows, no_carry_spec, store_and_reduce, temp, tv,
};
use crate::ir::{
    Bind, Ctx, Elem, Rhs, State, Stmt, Term, Var, hi, lo, run, seq_val, step, word, wpow,
};
use crate::mont_law::{inv_ok, lemma_modulus_pos, modulus_val};
use crate::reduce_law::{lemma_product_congruent, lemma_reduce_congruent};
use crate::semantics::{
    elem_limbs, lemma_run_blocks_succ, lemma_run_concat, lemma_run_new_succ, lemma_run_one,
    lemma_stores, lemma_temps_agree, lemma_temps_succ, lemma_temps_zero, lemma_zero_temps, temps,
};

verus! {

/// The first four statements of row `i`: `v = a[i]`, the first product into
/// `c1:c0`, `m = c0 * INV`, and the step that clears `c0` into `c2`.
pub open spec fn nc_head(a: Elem, b: Elem, i: nat) -> Seq<Stmt> {
    seq![
        Stmt::Assign(Bind::LetMut, Var::V, Rhs::Value(Term::Limb(a, i as usize))),
        Stmt::Assign(
            Bind::Plain,
            Var::C0,
            Rhs::MacSimple(
                if i == 0 {
                    Term::Zero
                } else {
                    tv(0)
                },
                Term::Var(Var::V),
                Term::Limb(b, 0),
                Var::C1,
            ),
        ),
        Stmt::Assign(Bind::LetMut, Var::M, Rhs::MulInv(Var::C0)),
        Stmt::Assign(
            Bind::Plain,
            Var::C,
            Rhs::MacSimple(Term::Var(Var::C0), Term::Var(Var::M), Term::Modulus(0), Var::C2),
        ),
    ]
}

/// What the head of row `i` does: with `x0` the old `r0` and `u0 + c1 * 2^64 ==
/// x0 + a[i] * b[0]`, `m` is `u0 * INV` modulo 2^64 and `c2 * 2^64 == u0 + m *
/// modulus[0]`. The temporaries are left alone.
#[verifier::spinoff_prover]
proof fn lemma_nc_head(a: Elem, b: Elem, i: nat, st: State, ctx: Ctx)
    requires
        i <= usize::MAX,
        elem_limbs(a, st, ctx).len() > i,
        elem_limbs(b, st, ctx).len() >= 1,
        ctx.modulus.len() >= 1,
        inv_ok(ctx),
        i == 0 ==> (st.vars)(Var::Temp(0)) == 0,
    ensures
        ({
            let s2 = run(nc_head(a, b, i), st, ctx);
            let ai = elem_limbs(a, st, ctx)[i as int];
            let x0 = (st.vars)(Var::Temp(0));
            let u0 = (s2.vars)(Var::C0);
            let m = (s2.vars)(Var::M);
            &&& s2.limbs == st.limbs
            &&& forall|u: usize| #[trigger] (s2.vars)(Var::Temp(u)) == (st.vars)(Var::Temp(u))
            &&& (s2.vars)(Var::V) == ai
            &&& (u0 as int) + ((s2.vars)(Var::C1) as int) * word() == (x0 as int) + (ai as int) * (
            elem_limbs(b, st, ctx)[0] as int)
            &&& m == lo((u0 as int) * (ctx.inv as int))
            &&& ((s2.vars)(Var::C2) as int) * word() == (u0 as int) + (m as int) * (ctx.modulus[0] as int)
        }),
{
    let p = nc_head(a, b, i);
    let s1 = step(p[0], st, ctx);
    let s2 = step(p[1], s1, ctx);
    let s3 = step(p[2], s2, ctx);
    let s4 = step(p[3], s3, ctx);
    assert(p.drop_last() =~= seq![p[0], p[1], p[2]]);
    assert(seq![p[0], p[1], p[2]].drop_last() =~= seq![p[0], p[1]]);
    assert(seq![p[0], p[1]].drop_last() =~= seq![p[0]]);
    lemma_run_one(p[0], st, ctx);
    assert(run(seq![p[0], p[1]], st, ctx) == s2);
    assert(run(seq![p[0], p[1], p[2]], st, ctx) == s3);
    assert(run(p, st, ctx) == s4);
    assert(temp(0) == Var::Temp(0));
    let ai = elem_limbs(a, st, ctx)[i as int];
    let b0 = elem_limbs(b, st, ctx)[0];
    let x0 = (st.vars)(Var::Temp(0));
    let t1 = (x0 as int) + (ai as int) * (b0 as int);
    assert(0 <= t1 < word() * word()) by (nonlinear_arith)
        requires
            0 <= x0 < word(),
            0 <= ai < word(),
            0 <= b0 < word(),
            t1 == (x0 as int) + (ai as int) * (b0 as int),
    ;
    lemma_lo_hi(t1);
    let u0 = lo(t1);
    assert((s2.vars)(Var::C0) == u0);
    let m = lo((u0 as int) * (ctx.inv as int));
    assert((s3.vars)(Var::M) == m);
    let q0 = ctx.modulus[0];
    let t2 = (u0 as int) + (m as int) * (q0 as int);
    assert(0 <= t2 < word() * word()) by (nonlinear_arith)
        requires
            0 <= u0 < word(),
            0 <= m < word(),
            0 <= q0 < word(),
            t2 == (u0 as int) + (m as int) * (q0 as int),
    ;
    lemma_lo_hi(t2);
    lemma_inv_clears(u0 as int, ctx.inv as int, q0 as int);
    assert((q0 as int) * (ctx.inv as int) == (ctx.inv as int) * (q0 as int)) by (nonlinear_arith);
    assert(lo(t2) == 0);
}

/// What one product step and one reduction step (not the last) of row `i`
/// do for limb `j`: with `x` the old `r{j}`, the product
/// `x + v * b[j] + c1` goes into `c1:u`, and `c2 + m * modulus[j] + u` into
/// `c2:r{j-1}`.
proof fn lemma_nc_pair(b: Elem, n: nat, i: nat, j: nat, s: State, ctx: Ctx)
    requires
        1 <= j,
        j + 1 < n <= usize::MAX / 2,
        i <= usize::MAX,
        elem_limbs(b, s, ctx).len() >= n,
        ctx.modulus.len() >= n,
        i == 0 ==> (s.vars)(Var::Temp(j as usize)) == 0,
    ensures
        ({
            let s1 = step(no_carry_mul_step(b, i, j), s, ctx);
            let s2 = step(no_carry_red_step(n, j), s1, ctx);
            let x = (s.vars)(Var::Temp(j as usize));
            let t1 = ((s.vars)(Var::C1) as int) + ((s.vars)(Var::V) as int) * (elem_limbs(b, s, ctx)[j as int]
                as int) + (x as int);
            let t2 = ((s.vars)(Var::C2) as int) + ((s.vars)(Var::M) as int) * (ctx.modulus[j as int]
                as int) + (lo(t1) as int);
            &&& 0 <= t1 < word() * word()
            &&& 0 <= t2 < word() * word()
            &&& s2.limbs == s.limbs
            &&& (s2.vars)(Var::V) == (s.vars)(Var::V)
            &&& (s2.vars)(Var::M) == (s.vars)(Var::M)
            &&& (s2.vars)(Var::C1) == hi(t1)
            &&& (s2.vars)(Var::C2) == hi(t2)
            &&& (s2.vars)(Var::Temp((j - 1) as usize)) == lo(t2)
            &&& forall|u: usize| u != j - 1 ==> #[trigger] (s2.vars)(Var::Temp(u)) == (s.vars)(Var::Temp(u))
        }),
{
    let x = (s.vars)(Var::Temp(j as usize));
    let v = (s.vars)(Var::V);
    let bj = elem_limbs(b, s, ctx)[j as int];
    let c1 = (s.vars)(Var::C1);
    let t1 = (c1 as int) + (v as int) * (bj as int) + (x as int);
    assert(0 <= t1 < word() * word()) by (nonlinear_arith)
        requires
            0 <= x < word(),
            0 <= v < word(),
            0 <= bj < word(),
            0 <= c1 < word(),
            t1 == (c1 as int) + (v as int) * (bj as int) + (x as int),
    ;
    let m = (s.vars)(Var::M);
    let qj = ctx.modulus[j as int];
    let c2 = (s.vars)(Var::C2);
    let u = lo(t1);
    let t2 = (c2 as int) + (m as int) * (qj as int) + (u as int);
    assert(0 <= t2 < word() * word()) by (nonlinear_arith)
        requires
            0 <= u < word(),
            0 <= m < word(),
            0 <= qj < word(),
            0 <= c2 < word(),
            t2 == (c2 as int) + (m as int) * (qj as int) + (u as int),
    ;
    assert(tv(j) == Term::Var(Var::Temp(j as usize)));
    assert(temp((j - 1) as nat) == Var::Temp((j - 1) as usize));
}

/// What the last product step and the last reduction step of row `i` do:
/// the product `x + v * b[n-1] + c1` goes into `c1:u`, and
/// `u + m * modulus[n-1] + c2 + c1 * 2^64` into `r{n-1}:r{n-2}`, wrapped to
/// two words.
proof fn lemma_nc_last(b: Elem, n: nat, i: nat, s: State, ctx: Ctx)
    requires
        2 <= n <= usize::MAX / 2,
        i <= usize::MAX,
        elem_limbs(b, s, ctx).len() >= n,
        ctx.modulus.len() >= n,
        i == 0 ==> (s.vars)(Var::Temp((n - 1) as usize)) == 0,
    ensures
        ({
            let j = (n - 1) as nat;
            let s1 = step(no_carry_mul_step(b, i, j), s, ctx);
            let s2 = step(no_carry_red_step(n, j), s1, ctx);
            let x = (s.vars)(Var::Temp(j as usize));
            let t1 = ((s.vars)(Var::C1) as int) + ((s.vars)(Var::V) as int) * (elem_limbs(b, s, ctx)[j as int]
                as int) + (x as int);
            let te = (lo(t1) as int) + ((s.vars)(Var::M) as int) * (ctx.modulus[j as int] as int) + (
            (s.vars)(Var::C2) as int) + (hi(t1) as int) * word();
            &&& 0 <= t1 < word() * word()
            &&& 0 <= te
            &&& s2.limbs == s.limbs
            &&& (s2.vars)(Var::Temp((n - 2) as usize)) == lo(te)
            &&& (s2.vars)(Var::Temp((n - 1) as usize)) == hi(te)
            &&& forall|u: usize| u < n - 2 ==> #[trigger] (s2.vars)(Var::Temp(u)) == (s.vars)(Var::Temp(u))
        }),
{
    let j = (n - 1) as nat;
    let x = (s.vars)(Var::Temp(j as usize));
    let v = (s.vars)(Var::V);
    let bj = elem_limbs(b, s, ctx)[j as int];
    let c1 = (s.vars)(Var::C1);
    let t1 = (c1 as int) + (v as int) * (bj as int) + (x as int);
    assert(0 <= t1 < word() * word()) by (nonlinear_arith)
        requires
            0 <= x < word(),
            0 <= v < word(),
            0 <= bj < word(),
            0 <= c1 < word(),
            t1 == (c1 as int) + (v as int) * (bj as int) + (x as int),
    ;
    assert(tv(j) == Term::Var(Var::Temp(j as usize)));
    assert(temp((j - 1) as nat) == Var::Temp((n - 2) as usize));
    assert(temp((n - 1) as nat) == Var::Temp((n - 1) as usize));
    let m = (s.vars)(Var::M);
    let qj = ctx.modulus[j as int];
    assert((m as int) * (qj as int) >= 0) by (nonlinear_arith)
        requires
            m >= 0,
            qj >= 0,
    ;
}

/// After `k` pairs of steps (`k + 2 <= n`), row `i` has written
/// `r0 .. r{k-1}` one word down, and with the carries `c1`, `c2` they stand
/// for `(x[0..=k] + v * b[0..=k] + m * modulus[0..=k]) / 2^64`, where `x` are
/// the words before the row.
#[verifier::spinoff_prover]
proof fn lemma_nc_pairs(b: Elem, n: nat, i: nat, k: nat, sh: State, ctx: Ctx)
    requires
        2 <= n <= usize::MAX / 2,
        k + 2 <= n,
        i <= usize::MAX,
        elem_limbs(b, sh, ctx).len() >= n,
        ctx.modulus.len() >= n,
        i == 0 ==> forall|u: usize| u < n ==> #[trigger] (sh.vars)(Var::Temp(u)) == 0,
        (((sh.vars)(Var::C2) as int) + ((sh.vars)(Var::C1) as int)) * word() == ((sh.vars)(
            Var::Temp(0),
        ) as int) + ((sh.vars)(Var::V) as int) * (elem_limbs(b, sh, ctx)[0] as int) + ((sh.vars)(
            Var::M,
        ) as int) * (ctx.modulus[0] as int),
    ensures
        ({
            let sk = run(Seq::new(2 * k, |kk: int| no_carry_inner(b, n, i, kk as nat)), sh, ctx);
            &&& sk.limbs == sh.limbs
            &&& (sk.vars)(Var::V) == (sh.vars)(Var::V)
            &&& (sk.vars)(Var::M) == (sh.vars)(Var::M)
            &&& forall|u: usize| u >= k ==> #[trigger] (sk.vars)(Var::Temp(u)) == (sh.vars)(Var::Temp(u))
            &&& (seq_val(temps(sk.vars, k)) as int) * word() + (((sk.vars)(Var::C2) as int) + ((sk.vars)(
                Var::C1,
            ) as int)) * wpow(k + 1) == (seq_val(temps(sh.vars, k + 1)) as int) + ((sh.vars)(Var::V)
                as int) * (prefix_val(elem_limbs(b, sh, ctx), k + 1) as int) + ((sh.vars)(Var::M)
                as int) * (prefix_val(ctx.modulus, k + 1) as int)
        }),
    decreases k,
{
    let f = |kk: int| no_carry_inner(b, n, i, kk as nat);
    let bl = elem_limbs(b, sh, ctx);
    let v = (sh.vars)(Var::V) as int;
    let m = (sh.vars)(Var::M) as int;
    if k == 0 {
        assert(run(Seq::new(0, f), sh, ctx) == sh);
        assert(temps(sh.vars, 0) =~= Seq::<u64>::empty());
        lemma_temps_succ(sh.vars, 0);
        lemma_seq_val_take_succ(ctx.modulus, 0);
        lemma_seq_val_take_succ(bl, 0);
        assert(ctx.modulus.take(0) =~= Seq::<u64>::empty());
        assert(bl.take(0) =~= Seq::<u64>::empty());
        assert(wpow(0) == 1);
        assert(wpow(1) == word());
        assert(Seq::new(0, f) == Seq::new(2 * k, |kk: int| no_carry_inner(b, n, i, kk as nat)));
    } else {
        let h = (k - 1) as nat;
        lemma_nc_pairs(b, n, i, h, sh, ctx);
        let j = k;
        lemma_run_new_succ(f, 2 * h, sh, ctx);
        lemma_run_new_succ(f, 2 * h + 1, sh, ctx);
        assert(2 * h + 1 + 1 == 2 * k);
        let sp = run(Seq::new(2 * h, f), sh, ctx);
        let sk = run(Seq::new(2 * k, f), sh, ctx);
        assert((2 * h) / 2 + 1 == j);
        assert((2 * h + 1) / 2 + 1 == j);
        assert(f((2 * h) as int) == no_carry_mul_step(b, i, j));
        assert(f((2 * h + 1) as int) == no_carry_red_step(n, j));
        assert(elem_limbs(b, sp, ctx) == bl);
        let ju = j as usize;
        let x = (sp.vars)(Var::Temp(ju));
        assert(x == (sh.vars)(Var::Temp(ju)));
        lemma_nc_pair(b, n, i, j, sp, ctx);
        let bj = bl[j as int];
        let qj = ctx.modulus[j as int];
        let c1 = (sp.vars)(Var::C1) as int;
        let c2 = (sp.vars)(Var::C2) as int;
        let t1 = c1 + v * (bj as int) + (x as int);
        let t2 = c2 + m * (qj as int) + (lo(t1) as int);
        lemma_lo_hi(t1);
        lemma_lo_hi(t2);
        let hu = h as usize;
        assert forall|u: usize| u < h implies #[trigger] (sk.vars)(Var::Temp(u)) == (sp.vars)(Var::Temp(u)) by {}
        lemma_temps_agree(sk.vars, sp.vars, h);
        lemma_temps_succ(sk.vars, h);
        lemma_temps_succ(sh.vars, k);
        lemma_seq_val_take_succ(bl, k as int);
        lemma_seq_val_take_succ(ctx.modulus, k as int);
        assert(wpow(k) == word() * wpow(h));
        assert(wpow(k + 1) == word() * wpow(k));
        let wk = wpow(k) as int;
        let sv = seq_val(temps(sp.vars, h)) as int;
        let l1 = lo(t1) as int;
        let h1 = hi(t1) as int;
        let l2 = lo(t2) as int;
        let h2 = hi(t2) as int;
        assert((sv + l2 * wpow(h)) * word() + (h2 + h1) * (word() * wk) == sv * word() + (c2 + c1) * wk
            + (x as int) * wk + v * (bj as int) * wk + m * (qj as int) * wk) by (nonlinear_arith)
            requires
                l1 + h1 * word() == t1,
                l2 + h2 * word() == t2,
                t1 == c1 + v * (bj as int) + (x as int),
                t2 == c2 + m * (qj as int) + l1,
                wk == word() * wpow(h),
        ;
        let pb = prefix_val(bl, k) as int;
        let pq = prefix_val(ctx.modulus, k) as int;
        assert(v * (pb + (bj as int) * wk) + m * (pq + (qj as int) * wk) == v * pb + m * pq + v * (bj
            as int) * wk + m * (qj as int) * wk) by (nonlinear_arith);
        assert(Seq::new(2 * k, f) == Seq::new(2 * k, |kk: int| no_carry_inner(b, n, i, kk as nat)));
    }
}

/// Row `i` of the multiplication without a carry word takes the words
/// `r0 .. r{n-1}` from `acc` to `(acc + a[i] * b + m * modulus) / 2^64`,
/// exactly, for the `m < 2^64` that it computes, while `acc < 2 * modulus`,
/// `b < modulus` and twice the modulus fits in `n` limbs. Row 0 starts from
/// zeros.
#[verifier::spinoff_prover]
proof fn lemma_nc_row(a: Elem, b: Elem, n: nat, i: nat, st: State, ctx: Ctx) -> (m: nat)
    requires
        2 <= n <= usize::MAX / 2,
        i < n,
        elem_limbs(a, st, ctx).len() >= n,
        elem_limbs(b, st, ctx).len() >= n,
        ctx.modulus.len() >= n,
        inv_ok(ctx),
        seq_val(temps(st.vars, n)) < 2 * modulus_val(ctx, n),
        prefix_val(elem_limbs(b, st, ctx), n) < modulus_val(ctx, n),
        2 * modulus_val(ctx, n) <= wpow(n),
        i == 0 ==> forall|u: usize| u < n ==> #[trigger] (st.vars)(Var::Temp(u)) == 0,
    ensures
        ({
            let s2 = run(no_carry_row(a, b, n, i), st, ctx);
            &&& m < word()
            &&& s2.limbs == st.limbs
            &&& (seq_val(temps(s2.vars, n)) as int) * word() == seq_val(temps(st.vars, n)) + (
            elem_limbs(a, st, ctx)[i as int] as int) * (prefix_val(elem_limbs(b, st, ctx), n) as int)
                + (m as int) * (modulus_val(ctx, n) as int)
        }),
{
    let f = |kk: int| no_carry_inner(b, n, i, kk as nat);
    let inner = Seq::new((2 * (n - 1)) as nat, f);
    assert(no_carry_row(a, b, n, i) =~= nc_head(a, b, i) + inner);
    let al = elem_limbs(a, st, ctx);
    let bl = elem_limbs(b, st, ctx);
    // The head.
    lemma_nc_head(a, b, i, st, ctx);
    let sh = run(nc_head(a, b, i), st, ctx);
    lemma_run_concat(nc_head(a, b, i), inner, st, ctx);
    assert(elem_limbs(b, sh, ctx) == bl);
    assert(forall|u: usize| u < n ==> #[trigger] (sh.vars)(Var::Temp(u)) == (st.vars)(Var::Temp(u)));
    let m = (sh.vars)(Var::M);
    let v = (sh.vars)(Var::V) as int;
    assert((((sh.vars)(Var::C2) as int) + ((sh.vars)(Var::C1) as int)) * word() == ((sh.vars)(
        Var::Temp(0),
    ) as int) + v * (bl[0] as int) + (m as int) * (ctx.modulus[0] as int)) by (nonlinear_arith)
        requires
            ((sh.vars)(Var::C0) as int) + ((sh.vars)(Var::C1) as int) * word() == ((st.vars)(Var::Temp(0))
                as int) + v * (bl[0] as int),
            ((sh.vars)(Var::C2) as int) * word() == ((sh.vars)(Var::C0) as int) + (m as int) * (
            ctx.modulus[0] as int),
            (sh.vars)(Var::Temp(0)) == (st.vars)(Var::Temp(0)),
    ;
    // The pairs of steps before the last.
    let k = (n - 2) as nat;
    lemma_nc_pairs(b, n, i, k, sh, ctx);
    assert(Seq::new(2 * k, |kk: int| no_carry_inner(b, n, i, kk as nat)) == Seq::new(2 * k, f));
    let sk = run(Seq::new(2 * k, f), sh, ctx);
    // The last pair.
    lemma_run_new_succ(f, 2 * k, sh, ctx);
    lemma_run_new_succ(f, 2 * k + 1, sh, ctx);
    assert(2 * k + 1 + 1 == (2 * (n - 1)) as nat);
    let j = (n - 1) as nat;
    assert((2 * k) / 2 + 1 == j);
    assert((2 * k + 1) / 2 + 1 == j);
    assert(f((2 * k) as int) == no_carry_mul_step(b, i, j));
    assert(f((2 * k + 1) as int) == no_carry_red_step(n, j));
    assert(elem_limbs(b, sk, ctx) == bl);
    let ju = j as usize;
    let x = (sk.vars)(Var::Temp(ju));
    assert(x == (sh.vars)(Var::Temp(ju)));
    lemma_nc_last(b, n, i, sk, ctx);
    let s2 = run(inner, sh, ctx);
    let bj = bl[j as int];
    let qj = ctx.modulus[j as int];
    let c1 = (sk.vars)(Var::C1) as int;
    let c2 = (sk.vars)(Var::C2) as int;
    let t1 = c1 + v * (bj as int) + (x as int);
    lemma_lo_hi(t1);
    let te = (lo(t1) as int) + (m as int) * (qj as int) + c2 + (hi(t1) as int) * word();
    // The numbers, before any wrap.
    let sv = seq_val(temps(sk.vars, k)) as int;
    let acc = seq_val(temps(st.vars, n)) as int;
    lemma_temps_agree(sh.vars, st.vars, n);
    lemma_temps_succ(sh.vars, j);
    assert(j + 1 == n);
    lemma_seq_val_take_succ(bl, j as int);
    lemma_seq_val_take_succ(ctx.modulus, j as int);
    assert(k + 1 == j);
    assert(wpow(j) == word() * wpow(k));
    assert(wpow(n) == word() * wpow(j));
    let wj = wpow(j) as int;
    let bv = prefix_val(bl, n) as int;
    let qv = modulus_val(ctx, n) as int;
    let tot = acc + v * bv + (m as int) * qv;
    let vb = v * (bj as int);
    let mq = (m as int) * (qj as int);
    assert(te == c1 + c2 + vb + (x as int) + mq);
    assert(te * wj == (c2 + c1) * wj + vb * wj + (x as int) * wj + mq * wj) by (nonlinear_arith)
        requires
            te == c1 + c2 + vb + (x as int) + mq,
    ;
    assert(v * bv == v * (prefix_val(bl, j) as int) + vb * wj) by (nonlinear_arith)
        requires
            bv == (prefix_val(bl, j) as int) + (bj as int) * wj,
            vb == v * (bj as int),
    ;
    assert((m as int) * qv == (m as int) * (prefix_val(ctx.modulus, j) as int) + mq * wj)
        by (nonlinear_arith)
        requires
            qv == (prefix_val(ctx.modulus, j) as int) + (qj as int) * wj,
            mq == (m as int) * (qj as int),
    ;
    assert(sv * word() + te * wj == tot);
    // No wrap: the total is below `2 * modulus * 2^64 <= 2^(64 (n + 1))`.
    assert(tot < word() * wpow(n)) by (nonlinear_arith)
        requires
            tot == acc + v * bv + (m as int) * qv,
            0 <= acc < 2 * qv,
            0 <= v < word(),
            0 <= bv < qv,
            0 <= m < word(),
            2 * qv <= wpow(n),
    ;
    lemma_wpow_pos(k);
    assert(te < word() * word()) by (nonlinear_arith)
        requires
            sv * word() + te * wj == tot,
            tot < word() * wpow(n),
            wpow(n) == word() * wj,
            sv >= 0,
            wj > 0,
            te >= 0,
    ;
    lemma_lo_hi(te);
    // The words after the row.
    assert forall|u: usize| u < k implies #[trigger] (s2.vars)(Var::Temp(u)) == (sk.vars)(Var::Temp(u)) by {}
    lemma_temps_agree(s2.vars, sk.vars, k);
    lemma_temps_succ(s2.vars, k);
    lemma_temps_succ(s2.vars, j);
    assert((k as usize) == (n - 2) as usize);
    assert(((seq_val(temps(s2.vars, n)) as int)) * word() == sv * word() + te * wj) by (nonlinear_arith)
        requires
            (seq_val(temps(s2.vars, n)) as int) == sv + (lo(te) as int) * wpow(k) + (hi(te) as int) * wj,
            (lo(te) as int) + (hi(te) as int) * word() == te,
            wj == word() * wpow(k),
    ;
    m as nat
}

/// The first `i` rows of the multiplication without a carry word leave in
/// `r0 .. r{n-1}` a number `acc < 2 * modulus` with
/// `acc * 2^(64 i) == (a[0..i]) * b + q * modulus` for some `q < 2^(64 i)`.
#[verifier::spinoff_prover]
proof fn lemma_nc_rows(a: Elem, b: Elem, n: nat, i: nat, sp: State, ctx: Ctx) -> (q: nat)
    requires
        2 <= n <= usize::MAX / 2,
        i <= n,
        elem_limbs(a, sp, ctx).len() >= n,
        elem_limbs(b, sp, ctx).len() >= n,
        ctx.modulus.len() >= n,
        inv_ok(ctx),
        forall|u: usize| u < n ==> #[trigger] (sp.vars)(Var::Temp(u)) == 0,
        prefix_val(elem_limbs(b, sp, ctx), n) < modulus_val(ctx, n),
        2 * modulus_val(ctx, n) <= wpow(n),
    ensures
        ({
            let si = run(concat_blocks(no_carry_rows(a, b, n), i), sp, ctx);
            let acc = seq_val(temps(si.vars, n));
            &&& q < wpow(i)
            &&& si.limbs == sp.limbs
            &&& acc < 2 * modulus_val(ctx, n)
            &&& acc * wpow(i) == prefix_val(elem_limbs(a, sp, ctx), i) * prefix_val(
                elem_limbs(b, sp, ctx),
                n,
            ) + q * modulus_val(ctx, n)
        }),
    decreases i,
{
    let al = elem_limbs(a, sp, ctx);
    let bl = elem_limbs(b, sp, ctx);
    let bv = prefix_val(bl, n);
    let qv = modulus_val(ctx, n);
    if i == 0 {
        assert(concat_blocks(no_carry_rows(a, b, n), 0) == Seq::<Stmt>::empty());
        assert(run(Seq::<Stmt>::empty(), sp, ctx) == sp);
        lemma_temps_zero(sp.vars, n);
        assert(al.take(0) =~= Seq::<u64>::empty());
        assert(wpow(0) == 1);
        lemma_wpow_pos(n);
        assert(0 * bv == 0);
        0
    } else {
        let h = (i - 1) as nat;
        let q0 = lemma_nc_rows(a, b, n, h, sp, ctx);
        let sh = run(concat_blocks(no_carry_rows(a, b, n), h), sp, ctx);
        lemma_run_blocks_succ(no_carry_rows(a, b, n), h, sp, ctx);
        assert(no_carry_rows(a, b, n)(h) == no_carry_row(a, b, n, h));
        let acc = seq_val(temps(sh.vars, n));
        if h == 0 {
            assert(sh == sp);
        }
        assert(elem_limbs(a, sh, ctx) == al);
        assert(elem_limbs(b, sh, ctx) == bl);
        let m = lemma_nc_row(a, b, n, h, sh, ctx);
        let si = run(no_carry_row(a, b, n, h), sh, ctx);
        let acc2 = seq_val(temps(si.vars, n));
        let ah = al[h as int];
        lemma_seq_val_take_succ(al, h as int);
        let wh = wpow(h);
        assert(wpow(i) == word() * wh);
        let av = prefix_val(al, h);
        assert(acc2 * wpow(i) == (acc2 * word()) * wh) by (nonlinear_arith)
            requires
                wpow(i) == word() * wh,
        ;
        assert((acc + ah * bv + m * qv) * wh == acc * wh + (ah * wh) * bv + (m * wh) * qv)
            by (nonlinear_arith);
        assert((av + ah * wh) * bv == av * bv + (ah * wh) * bv) by (nonlinear_arith);
        assert((q0 + m * wh) * qv == q0 * qv + (m * wh) * qv) by (nonlinear_arith);
        assert(acc2 * wpow(i) == (av + ah * wh) * bv + (q0 + m * wh) * qv);
        assert(acc2 < 2 * qv) by (nonlinear_arith)
            requires
                acc2 * word() == acc + ah * bv + m * qv,
                acc < 2 * qv,
                ah < word(),
                m < word(),
                bv < qv,
        ;
        assert(q0 + m * wh < word() * wh) by (nonlinear_arith)
            requires
                q0 < wh,
                m < word(),
        ;
        q0 + m * wh
    }
}

/// The multiplication without a carry word that the generator writes for
/// `n >= 2` limbs, with its final `self.reduce()`, leaves in the `n` limbs of
/// `self` the Montgomery product of `a` and `b`: the number `out` below the
/// modulus with `out * R` congruent to `a * b` modulo the modulus,
/// `R = 2^(64 n)`. It needs `INV` to be the negated inverse of the lowest limb
/// of the modulus modulo 2^64, `b` below the modulus, and twice the modulus
/// to fit in `n` limbs (the top bit of the modulus clear).
#[verifier::spinoff_prover]
pub proof fn theorem_no_carry_product(a: Elem, b: Elem, n: nat, st: State, ctx: Ctx)
    requires
        2 <= n <= usize::MAX / 2,
        st.limbs.len() == n,
        elem_limbs(a, st, ctx).len() >= n,
        elem_limbs(b, st, ctx).len() >= n,
        ctx.modulus.len() >= n,
        inv_ok(ctx),
        prefix_val(elem_limbs(b, st, ctx), n) < modulus_val(ctx, n),
        2 * modulus_val(ctx, n) <= wpow(n),
    ensures
        ({
            let fin = run(no_carry_spec(a, b, n), st, ctx);
            let out = seq_val(fin.limbs);
            &&& fin.limbs.len() == n
            &&& out < modulus_val(ctx, n)
            &&& (out * wpow(n)) % modulus_val(ctx, n) == (prefix_val(elem_limbs(a, st, ctx), n)
                * prefix_val(elem_limbs(b, st, ctx), n)) % modulus_val(ctx, n)
        }),
{
    let zeros = Seq::new(n, |i: int| Stmt::Assign(Bind::LetMut, temp(i as nat), Rhs::Value(Term::Zero)));
    let cs = seq![
        Stmt::Assign(Bind::LetMut, Var::C, Rhs::Value(Term::Zero)),
        Stmt::Assign(Bind::LetMut, Var::C0, Rhs::Value(Term::Zero)),
        Stmt::Assign(Bind::LetMut, Var::C1, Rhs::Value(Term::Zero)),
        Stmt::Assign(Bind::LetMut, Var::C2, Rhs::Value(Term::Zero)),
    ];
    assert(no_carry_prelude(n) =~= cs + zeros);
    let rows = concat_blocks(no_carry_rows(a, b, n), n);
    assert(no_carry_spec(a, b, n) =~= cs + zeros + rows + store_and_reduce(n));
    let sc = run(cs, st, ctx);
    assert(cs.drop_last() =~= seq![cs[0], cs[1], cs[2]]);
    assert(seq![cs[0], cs[1], cs[2]].drop_last() =~= seq![cs[0], cs[1]]);
    assert(seq![cs[0], cs[1]].drop_last() =~= seq![cs[0]]);
    lemma_run_one(cs[0], st, ctx);
    assert(run(seq![cs[0], cs[1]], st, ctx).limbs == st.limbs);
    assert(run(seq![cs[0], cs[1], cs[2]], st, ctx).limbs == st.limbs);
    assert(sc.limbs == st.limbs);
    lemma_run_concat(cs, zeros, st, ctx);
    lemma_zero_temps(n, sc, ctx);
    let sp = run(zeros, sc, ctx);
    assert(elem_limbs(a, sp, ctx) == elem_limbs(a, st, ctx));
    assert(elem_limbs(b, sp, ctx) == elem_limbs(b, st, ctx));
    let q = lemma_nc_rows(a, b, n, n, sp, ctx);
    lemma_run_concat(cs + zeros, rows, st, ctx);
    let sr = run(rows, sp, ctx);
    lemma_run_concat(cs + zeros + rows, store_and_reduce(n), st, ctx);
    lemma_stores(n, n, sr, ctx);
    let stores = Seq::new(n, |i: int| Stmt::StoreLimb(i as usize, temp(i as nat)));
    assert(store_and_reduce(n) =~= stores + seq![Stmt::Reduce]);
    lemma_run_concat(stores, seq![Stmt::Reduce], sr, ctx);
    let ss = run(stores, sr, ctx);
    lemma_run_one(Stmt::Reduce, ss, ctx);
    let fin = run(no_carry_spec(a, b, n), st, ctx);
    assert(fin == step(Stmt::Reduce, ss, ctx));
    assert(ss.limbs =~= temps(sr.vars, n));
    let acc = seq_val(ss.limbs);
    let m = modulus_val(ctx, n);
    let p = prefix_val(elem_limbs(a, st, ctx), n) * prefix_val(elem_limbs(b, st, ctx), n);
    lemma_modulus_pos(n, ctx);
    lemma_product_congruent(acc, wpow(n), p, q, m);
    lemma_reduce_congruent(ss.limbs, ctx.modulus, wpow(n), p);
}

} // verus!
