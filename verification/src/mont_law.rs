//! What the emitted Montgomery reduction computes.
use vstd::prelude::*;
use crate::arith::{
    lemma_inv_clears, lemma_lo_hi, lemma_seq_val_concat,
    lemma_seq_val_prefix_le, lemma_seq_val_take_succ, lemma_wpow_add, lemma_wpow_pos,
};
use vstd::arithmetic::div_mod::lemma_mod_multiples_vanish;
use crate::gen::{concat_blocks, mont_col, mont_row, mont_rows, mont_spec, mont_stores, temp, tv};
use crate::ir::{
    Bind, Ctx, Rhs, State, Stmt, Term, Var, hi, lo, run, seq_val, set_var, step, word, wpow,
};
use crate::semantics::{
    lemma_run_blocks_succ, lemma_run_concat, lemma_run_new_succ, lemma_run_one, lemma_temps_agree,
    lemma_temps_succ, lemma_temps_update, temps,
};

verus! {

/// The number in the first `n` limbs of the modulus.
pub open spec fn modulus_val(ctx: Ctx, n: nat) -> nat {
    seq_val(ctx.modulus.take(n as int))
}

/// Whether `INV` is the negated inverse of the lowest limb of the modulus
/// modulo 2^64, as the reduction needs.
pub open spec fn inv_ok(ctx: Ctx) -> bool {
    ((ctx.modulus[0] as int) * (ctx.inv as int) + 1) % (word() as int) == 0
}

/// One column of a reduction row, in numbers.
proof fn lemma_red_column(
    pm: int,
    pn: int,
    cm: int,
    base: int,
    k: int,
    m0: int,
    m_low: int,
    mj: int,
    xp: int,
    wi: int,
    wj: int,
    l: int,
    h: int,
)
    requires
        pm + cm * (wi * wj) + k * m0 * wi == base + k * m_low * wi,
        pn + xp * (wi * wj) == pm + l * (wi * wj),
        l + h * word() == xp + k * mj + cm,
    ensures
        pn + h * (word() * (wi * wj)) + k * m0 * wi == base + k * (m_low + mj * wj) * wi,
{
    assert(pn + h * (word() * (wi * wj)) == pm + (l + h * word()) * (wi * wj) - xp * (wi * wj))
        by (nonlinear_arith)
        requires
            pn + xp * (wi * wj) == pm + l * (wi * wj),
    ;
    assert((xp + k * mj + cm) * (wi * wj) == xp * (wi * wj) + cm * (wi * wj) + k * mj * wj * wi)
        by (nonlinear_arith);
    assert(k * (m_low + mj * wj) * wi == k * m_low * wi + k * mj * wj * wi) by (nonlinear_arith);
}

/// The columns of row `i` of the reduction: after `m` of them the
/// temporaries and the carry have taken in `k * m_low * 2^(64 i)`, where
/// `m_low` is the number in limbs `1 ..= m` of the modulus.
#[verifier::spinoff_prover]
proof fn lemma_mont_cols(n: nat, i: nat, m: nat, s0: State, ctx: Ctx)
    requires
        1 <= n <= usize::MAX / 2,
        i < n,
        m < n,
        ctx.modulus.len() >= n,
    ensures
        ({
            let sm = run(Seq::new(m, |jj: int| mont_col(i, (jj + 1) as nat)), s0, ctx);
            let k = (s0.vars)(Var::K) as int;
            &&& sm.limbs == s0.limbs
            &&& (sm.vars)(Var::K) == (s0.vars)(Var::K)
            &&& (sm.vars)(Var::Carry2) == (s0.vars)(Var::Carry2)
            &&& forall|t: usize|
                (t <= i || t > i + m) ==> #[trigger] (sm.vars)(Var::Temp(t)) == (s0.vars)(Var::Temp(t))
            &&& seq_val(temps(sm.vars, 2 * n)) + ((sm.vars)(Var::Carry) as int) * wpow(i + m + 1) + k
                * (ctx.modulus[0] as int) * wpow(i) == seq_val(temps(s0.vars, 2 * n)) + ((s0.vars)(
                Var::Carry,
            ) as int) * wpow(i + 1) + k * (seq_val(ctx.modulus.take(m as int + 1)) as int) * wpow(i)
        }),
    decreases m,
{
    let f = |jj: int| mont_col(i, (jj + 1) as nat);
    let k = (s0.vars)(Var::K) as int;
    if m == 0 {
        assert(run(Seq::new(0, f), s0, ctx) == s0);
        lemma_seq_val_take_succ(ctx.modulus, 0);
        assert(ctx.modulus.take(0) =~= Seq::<u64>::empty());
        assert(wpow(0) == 1);
        assert(Seq::new(0, f) == Seq::new(m, |jj: int| mont_col(i, (jj + 1) as nat)));
    } else {
        let mm = (m - 1) as nat;
        lemma_mont_cols(n, i, mm, s0, ctx);
        lemma_run_new_succ(f, mm, s0, ctx);
        let sp = run(Seq::new(mm, f), s0, ctx);
        let sm = run(Seq::new(m, f), s0, ctx);
        let j = m;
        let p = i + j;
        let pu = p as usize;
        assert(f(mm as int) == mont_col(i, j));
        assert(temp(p) == Var::Temp(pu));
        let xp = (sp.vars)(Var::Temp(pu));
        let mj = ctx.modulus[j as int];
        let cm = (sp.vars)(Var::Carry);
        let t = xp as int + k * (mj as int) + cm as int;
        assert(0 <= t < word() * word()) by (nonlinear_arith)
            requires
                0 <= xp < word(),
                0 <= k < word(),
                0 <= mj < word(),
                0 <= cm < word(),
                t == xp as int + k * (mj as int) + cm as int,
        ;
        lemma_lo_hi(t);
        assert(sm.vars == set_var(set_var(sp.vars, Var::Carry, hi(t)), Var::Temp(pu), lo(t)));
        assert forall|u: usize| u != p implies #[trigger] (sm.vars)(Var::Temp(u)) == (sp.vars)(
            Var::Temp(u),
        ) by {}
        lemma_temps_update(sp.vars, sm.vars, p, 2 * n);
        lemma_seq_val_take_succ(ctx.modulus, j as int);
        lemma_wpow_add(i, j);
        assert(wpow(p + 1) == word() * wpow(p));
        lemma_red_column(
            seq_val(temps(sp.vars, 2 * n)) as int,
            seq_val(temps(sm.vars, 2 * n)) as int,
            cm as int,
            seq_val(temps(s0.vars, 2 * n)) + ((s0.vars)(Var::Carry) as int) * wpow(i + 1),
            k,
            ctx.modulus[0] as int,
            seq_val(ctx.modulus.take(j as int)) as int,
            mj as int,
            xp as int,
            wpow(i) as int,
            wpow(j) as int,
            lo(t) as int,
            hi(t) as int,
        );
        assert(Seq::new(m, f) == Seq::new(m, |jj: int| mont_col(i, (jj + 1) as nat)));
    }
}

/// The word `k` that row `i` multiplies the modulus by.
pub open spec fn row_factor(i: nat, st: State, ctx: Ctx) -> nat {
    lo(((st.vars)(temp(i)) as int) * (ctx.inv as int)) as nat
}

/// Row `i` of the reduction adds `k * modulus * 2^(64 i)` to the temporaries
/// (and to the carry in from the row before), where `k` clears word `i`; it
/// changes only the words `i + 1 ..= i + n`.
#[verifier::spinoff_prover]
proof fn lemma_mont_row(n: nat, i: nat, st: State, ctx: Ctx)
    requires
        1 <= n <= usize::MAX / 2,
        i < n,
        ctx.modulus.len() >= n,
        inv_ok(ctx),
    ensures
        ({
            let s2 = run(mont_row(n, i), st, ctx);
            let k = row_factor(i, st, ctx) as int;
            let cc: int = if i == 0 {
                0
            } else {
                (st.vars)(Var::Carry2) as int
            };
            &&& s2.limbs == st.limbs
            &&& forall|t: usize|
                (t <= i || t > i + n) ==> #[trigger] (s2.vars)(Var::Temp(t)) == (st.vars)(Var::Temp(t))
            &&& i + 1 != n ==> (s2.vars)(Var::Carry2) == (s2.vars)(Var::Carry)
            &&& seq_val(temps(s2.vars, 2 * n)) + ((s2.vars)(Var::Carry) as int) * wpow(i + n + 1)
                == seq_val(temps(st.vars, 2 * n)) + ((st.vars)(temp(i)) as int) * wpow(i) + cc * wpow(
                i + n,
            ) + k * (modulus_val(ctx, n) as int) * wpow(i)
        }),
{
    let iu = i as usize;
    let s_k = Stmt::Assign(Bind::Let, Var::K, Rhs::MulInv(temp(i)));
    let s_c = Stmt::Assign(Bind::LetMut, Var::Carry, Rhs::Value(Term::Zero));
    let s_e = Stmt::Eval(Rhs::Mac(tv(i), Term::Var(Var::K), Term::Modulus(0), Var::Carry));
    let cols = Seq::new((n - 1) as nat, |jj: int| mont_col(i, (jj + 1) as nat));
    let s_a = Stmt::Assign(
        Bind::Plain,
        temp(i + n),
        Rhs::Adc(
            tv(i + n),
            if i == 0 {
                Term::Zero
            } else {
                Term::Var(Var::Carry2)
            },
            Var::Carry,
        ),
    );
    let tail = if i + 1 != n {
        seq![Stmt::Assign(Bind::Let, Var::Carry2, Rhs::Value(Term::Var(Var::Carry)))]
    } else {
        Seq::<Stmt>::empty()
    };
    assert(mont_row(n, i) =~= seq![s_k, s_c, s_e] + cols + seq![s_a] + tail);
    // The head: `k`, `carry = 0`, and the step that clears word `i`.
    let s1 = step(s_k, st, ctx);
    let s2 = step(s_c, s1, ctx);
    let s3 = step(s_e, s2, ctx);
    assert(seq![s_k, s_c, s_e].drop_last() =~= seq![s_k, s_c]);
    assert(seq![s_k, s_c].drop_last() =~= seq![s_k]);
    lemma_run_one(s_k, st, ctx);
    assert(seq![s_k, s_c, s_e].last() == s_e);
    assert(seq![s_k, s_c].last() == s_c);
    assert(run(seq![s_k, s_c], st, ctx) == s2);
    assert(run(seq![s_k, s_c, s_e], st, ctx) == s3);
    let xi = (st.vars)(Var::Temp(iu));
    assert(temp(i) == Var::Temp(iu));
    let k = row_factor(i, st, ctx) as int;
    assert((s3.vars)(Var::K) == k);
    let m0 = ctx.modulus[0];
    let t0 = xi as int + k * (m0 as int);
    assert(0 <= t0 < word() * word()) by (nonlinear_arith)
        requires
            0 <= xi < word(),
            0 <= k < word(),
            0 <= m0 < word(),
            t0 == xi as int + k * (m0 as int),
    ;
    lemma_lo_hi(t0);
    lemma_inv_clears(xi as int, ctx.inv as int, m0 as int);
    assert(lo(t0) == 0) by {
        assert((m0 as int) * (ctx.inv as int) == (ctx.inv as int) * (m0 as int)) by (nonlinear_arith);
        assert(k * (m0 as int) == (m0 as int) * k) by (nonlinear_arith);
        assert(((xi as int) * (ctx.inv as int)) % (word() as int) == k);
        assert((xi as int + k * (m0 as int)) % (word() as int) == 0) by (nonlinear_arith)
            requires
                (xi as int + (((xi as int) * (ctx.inv as int)) % (word() as int)) * (m0 as int)) % (
                word() as int) == 0,
                ((xi as int) * (ctx.inv as int)) % (word() as int) == k,
        ;
    }
    let c0 = hi(t0);
    assert((s3.vars)(Var::Carry) == c0);
    assert(forall|u: usize| #[trigger] (s3.vars)(Var::Temp(u)) == (st.vars)(Var::Temp(u)));
    lemma_temps_agree(s3.vars, st.vars, 2 * n);
    // The columns.
    lemma_mont_cols(n, i, (n - 1) as nat, s3, ctx);
    assert(Seq::new((n - 1) as nat, |jj: int| mont_col(i, (jj + 1) as nat)) =~= cols);
    let sc = run(cols, s3, ctx);
    lemma_run_concat(seq![s_k, s_c, s_e], cols, st, ctx);
    // The carry into word `i + n`.
    let q = i + n;
    let qu = q as usize;
    assert(temp(q) == Var::Temp(qu));
    let xq = (sc.vars)(Var::Temp(qu));
    assert(xq == (st.vars)(Var::Temp(qu)));
    let cc: int = if i == 0 {
        0
    } else {
        (st.vars)(Var::Carry2) as int
    };
    assert((sc.vars)(Var::Carry2) == (st.vars)(Var::Carry2));
    let c = (sc.vars)(Var::Carry);
    let ta = xq as int + cc + c as int;
    lemma_lo_hi(ta);
    let sa = step(s_a, sc, ctx);
    assert(sa.vars == set_var(set_var(sc.vars, Var::Carry, hi(ta)), Var::Temp(qu), lo(ta)));
    assert forall|u: usize| u != q implies #[trigger] (sa.vars)(Var::Temp(u)) == (sc.vars)(
        Var::Temp(u),
    ) by {}
    lemma_temps_update(sc.vars, sa.vars, q, 2 * n);
    lemma_run_concat(seq![s_k, s_c, s_e] + cols, seq![s_a], st, ctx);
    lemma_run_one(s_a, sc, ctx);
    lemma_run_concat(seq![s_k, s_c, s_e] + cols + seq![s_a], tail, st, ctx);
    let fin = run(tail, sa, ctx);
    if i + 1 != n {
        lemma_run_one(Stmt::Assign(Bind::Let, Var::Carry2, Rhs::Value(Term::Var(Var::Carry))), sa, ctx);
    } else {
        assert(fin == sa);
    }
    assert(forall|u: usize| #[trigger] (fin.vars)(Var::Temp(u)) == (sa.vars)(Var::Temp(u)));
    lemma_temps_agree(fin.vars, sa.vars, 2 * n);
    assert((fin.vars)(Var::Carry) == hi(ta));
    // The numbers.
    assert(wpow(i + 1) == word() * wpow(i));
    assert(wpow(q + 1) == word() * wpow(q));
    assert((n - 1) as nat + 1 == n);
    assert(i + (n - 1) as nat + 1 == q);
    let wi = wpow(i) as int;
    let wq = wpow(q) as int;
    assert(c0 as int * (word() * wi) == (xi as int + k * (m0 as int)) * wi) by (nonlinear_arith)
        requires
            c0 as int * word() == t0,
            t0 == xi as int + k * (m0 as int),
    ;
    assert(hi(ta) as int * (word() * wq) == (lo(ta) as int + hi(ta) as int * word()) * wq - lo(ta)
        as int * wq) by (nonlinear_arith);
    assert((xq as int + cc + c as int) * wq == xq as int * wq + cc * wq + c as int * wq)
        by (nonlinear_arith);
    assert(k * (m0 as int) * wi == (xi as int + k * (m0 as int)) * wi - (xi as int) * wi)
        by (nonlinear_arith);
}

/// The first `i` rows of the reduction add `q * modulus` to the
/// temporaries, for some `q < 2^(64 i)`, while the words below `i` are left
/// behind: above them, and with the carry out of the last row at word
/// `i + n`, the temporaries stand for `T + q * modulus`.
#[verifier::spinoff_prover]
proof fn lemma_mont_rows(n: nat, i: nat, st: State, ctx: Ctx) -> (q: nat)
    requires
        1 <= n <= usize::MAX / 2,
        i <= n,
        ctx.modulus.len() >= n,
        inv_ok(ctx),
    ensures
        ({
            let si = run(concat_blocks(mont_rows(n), i), st, ctx);
            &&& q < wpow(i)
            &&& si.limbs == st.limbs
            &&& 0 < i < n ==> (si.vars)(Var::Carry2) == (si.vars)(Var::Carry)
            &&& seq_val(temps(si.vars, 2 * n)) + (if i > 0 {
                ((si.vars)(Var::Carry) as nat) * wpow(i + n)
            } else {
                0
            }) == seq_val(temps(st.vars, 2 * n)) + q * modulus_val(ctx, n) + seq_val(
                temps(si.vars, i),
            )
        }),
    decreases i,
{
    if i == 0 {
        assert(concat_blocks(mont_rows(n), 0) == Seq::<Stmt>::empty());
        assert(run(Seq::<Stmt>::empty(), st, ctx) == st);
        assert(temps(st.vars, 0) =~= Seq::<u64>::empty());
        assert(wpow(0) == 1);
        0
    } else {
        let h = (i - 1) as nat;
        let q0 = lemma_mont_rows(n, h, st, ctx);
        let sh = run(concat_blocks(mont_rows(n), h), st, ctx);
        lemma_run_blocks_succ(mont_rows(n), h, st, ctx);
        assert(mont_rows(n)(h) == mont_row(n, h));
        lemma_mont_row(n, h, sh, ctx);
        let si = run(mont_row(n, h), sh, ctx);
        let k = row_factor(h, sh, ctx);
        let hu = h as usize;
        assert(temp(h) == Var::Temp(hu));
        lemma_temps_agree(si.vars, sh.vars, h);
        lemma_temps_succ(si.vars, h);
        assert(h + n + 1 == i + n);
        let wh = wpow(h);
        assert(wpow(i) == word() * wh);
        assert(k < word());
        assert(q0 + k * wh < word() * wh) by (nonlinear_arith)
            requires
                q0 < wh,
                k < word(),
        ;
        let m = modulus_val(ctx, n);
        assert((q0 + k * wh) * m == q0 * m + k * m * wh) by (nonlinear_arith);
        q0 + k * wh
    }
}

/// The stores of the reduction copy `r{n+t}` into limb `t` of `self`, for the
/// first `i` limbs.
proof fn lemma_mont_stores(n: nat, i: nat, st: State, ctx: Ctx)
    requires
        i <= n <= usize::MAX / 2,
        st.limbs.len() >= n,
    ensures
        ({
            let f = run(
                Seq::new(i, |ii: int| Stmt::StoreLimb(ii as usize, temp(n + ii as nat))),
                st,
                ctx,
            );
            &&& f.vars == st.vars
            &&& f.limbs.len() == st.limbs.len()
            &&& forall|t: int| 0 <= t < i ==> #[trigger] f.limbs[t] == (st.vars)(Var::Temp((n + t) as usize))
        }),
    decreases i,
{
    let g = |ii: int| Stmt::StoreLimb(ii as usize, temp(n + ii as nat));
    if i == 0 {
        assert(run(Seq::new(0, g), st, ctx) == st);
        assert(Seq::new(0, g) == Seq::new(i, |ii: int| Stmt::StoreLimb(ii as usize, temp(n + ii as nat))));
    } else {
        let h = (i - 1) as nat;
        lemma_mont_stores(n, h, st, ctx);
        lemma_run_new_succ(g, h, st, ctx);
        assert(Seq::new(i, g) == Seq::new(i, |ii: int| Stmt::StoreLimb(ii as usize, temp(n + ii as nat))));
    }
}

/// The relation between what the reduction leaves and what it started from:
/// `out * R + carry * R^2 == t + q * m`, with `R = 2^(64 n)`.
pub open spec fn reduces_to(out: nat, carry: nat, t: nat, q: nat, m: nat, n: nat) -> bool {
    out * wpow(n) + carry * wpow(2 * n) == t + q * m
}

/// The Montgomery reduction that the generator writes for `n` limbs, run on
/// the `2n` words `T` in `r0 .. r{2n-1}`, leaves in the first `n` limbs of
/// `self` (and in the carry that it drops) the number `(T + q * modulus) / R`
/// for some `q < R = 2^(64 n)`, when `INV` is the negated inverse of the
/// lowest limb of the modulus modulo 2^64. Thus `out * R` is congruent to `T`
/// modulo the modulus whenever the dropped carry is zero.
#[verifier::spinoff_prover]
pub proof fn theorem_mont_reduce(n: nat, st: State, ctx: Ctx)
    requires
        1 <= n <= usize::MAX / 2,
        ctx.modulus.len() >= n,
        st.limbs.len() >= n,
        inv_ok(ctx),
    ensures
        run(mont_spec(n), st, ctx).limbs.len() == st.limbs.len(),
        ({
            let fin = run(mont_spec(n), st, ctx);
            exists|q: nat|
                q < wpow(n) && #[trigger] reduces_to(
                    seq_val(fin.limbs.take(n as int)),
                    (fin.vars)(Var::Carry) as nat,
                    seq_val(temps(st.vars, 2 * n)),
                    q,
                    modulus_val(ctx, n),
                    n,
                )
        }),
{
    let q = lemma_mont_rows(n, n, st, ctx);
    let rows = concat_blocks(mont_rows(n), n);
    let sr = run(rows, st, ctx);
    lemma_run_concat(rows, mont_stores(n), st, ctx);
    lemma_mont_stores(n, n, sr, ctx);
    assert(Seq::new(n, |ii: int| Stmt::StoreLimb(ii as usize, temp(n + ii as nat))) =~= mont_stores(n));
    let fin = run(mont_spec(n), st, ctx);
    let high = Seq::new(n, |t: int| (sr.vars)(Var::Temp((n + t) as usize)));
    assert(fin.limbs.take(n as int) =~= high);
    assert(temps(sr.vars, 2 * n) =~= temps(sr.vars, n) + high);
    lemma_seq_val_concat(temps(sr.vars, n), high);
    assert(n + n == 2 * n);
    let out = seq_val(fin.limbs.take(n as int));
    assert(out * wpow(n) == wpow(n) * seq_val(high)) by (nonlinear_arith)
        requires
            out == seq_val(high),
    ;
    assert(reduces_to(
        out,
        (fin.vars)(Var::Carry) as nat,
        seq_val(temps(st.vars, 2 * n)),
        q,
        modulus_val(ctx, n),
        n,
    ));
}

/// With `INV` the negated inverse of its lowest limb, the modulus is not zero.
pub proof fn lemma_modulus_pos(n: nat, ctx: Ctx)
    requires
        1 <= n,
        ctx.modulus.len() >= n,
        inv_ok(ctx),
    ensures
        modulus_val(ctx, n) > 0,
{
    lemma_seq_val_take_succ(ctx.modulus, 0);
    assert(ctx.modulus.take(0) =~= Seq::<u64>::empty());
    assert(wpow(0) == 1);
    lemma_seq_val_prefix_le(ctx.modulus, 1, n);
    assert((ctx.modulus[0] as nat) * wpow(0) == ctx.modulus[0] as nat) by (nonlinear_arith)
        requires
            wpow(0) == 1,
    ;
    assert(seq_val(ctx.modulus.take(0)) == 0);
    if ctx.modulus[0] == 0 {
        assert(((ctx.modulus[0] as int) * (ctx.inv as int) + 1) % (word() as int) == 1);
    }
}

/// When the words handed to the reduction stand for less than
/// `modulus * R` and twice the modulus fits in `n` limbs, the reduction drops
/// no carry, its result is below twice the modulus, and `out * R` is congruent
/// to the input modulo the modulus: `out == T / R` in the field.
#[verifier::spinoff_prover]
pub proof fn theorem_mont_reduce_in_range(n: nat, st: State, ctx: Ctx)
    requires
        1 <= n <= usize::MAX / 2,
        ctx.modulus.len() >= n,
        st.limbs.len() >= n,
        inv_ok(ctx),
        seq_val(temps(st.vars, 2 * n)) < modulus_val(ctx, n) * wpow(n),
        2 * modulus_val(ctx, n) <= wpow(n),
    ensures
        ({
            let fin = run(mont_spec(n), st, ctx);
            let out = seq_val(fin.limbs.take(n as int));
            &&& fin.limbs.len() == st.limbs.len()
            &&& (fin.vars)(Var::Carry) == 0
            &&& out < 2 * modulus_val(ctx, n)
            &&& (out * wpow(n)) % modulus_val(ctx, n) == seq_val(temps(st.vars, 2 * n)) % modulus_val(
                ctx,
                n,
            )
        }),
{
    theorem_mont_reduce(n, st, ctx);
    let fin = run(mont_spec(n), st, ctx);
    let out = seq_val(fin.limbs.take(n as int));
    let c = (fin.vars)(Var::Carry) as nat;
    let t = seq_val(temps(st.vars, 2 * n));
    let m = modulus_val(ctx, n);
    let r = wpow(n);
    let q = choose|q: nat| q < wpow(n) && #[trigger] reduces_to(out, c, t, q, m, n);
    assert(reduces_to(out, c, t, q, m, n));
    lemma_wpow_add(n, n);
    assert(n + n == 2 * n);
    lemma_wpow_pos(n);
    lemma_modulus_pos(n, ctx);
    assert(c == 0) by (nonlinear_arith)
        requires
            out * r + c * (r * r) == t + q * m,
            t < m * r,
            q < r,
            2 * m <= r,
            r > 0,
    ;
    assert(out < 2 * m) by (nonlinear_arith)
        requires
            out * r + c * (r * r) == t + q * m,
            c == 0,
            t < m * r,
            q < r,
            r > 0,
    ;
    assert(out * r == t + q * m) by (nonlinear_arith)
        requires
            out * r + c * (r * r) == t + q * m,
            c == 0,
    ;
    lemma_mod_multiples_vanish(q as int, t as int, m as int);
    assert(m * q == q * m) by (nonlinear_arith);
}

} // verus!
