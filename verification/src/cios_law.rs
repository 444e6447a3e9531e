//! What the emitted CIOS multiplication computes.
use vstd::prelude::*;
use crate::arith::{
    lemma_inv_clears, lemma_lo_hi, lemma_seq_val_take_succ, lemma_wpow_pos,
};
use crate::gen::{
    cios_mul_step, cios_red_step, cios_row, cios_rows, cios_spec, concat_blocks, store_and_reduce,
    temp, tv,
};
use crate::ir::{
    Bind, Ctx, Elem, Rhs, State, Stmt, Term, Var, hi, lo, run, seq_val, set_var, step, word, wpow,
};
use crate::mont_law::{inv_ok, lemma_modulus_pos, modulus_val};
use crate::reduce_law::{lemma_product_congruent, lemma_reduce_congruent};
use crate::semantics::{
    elem_limbs, lemma_run_blocks_succ, lemma_run_concat, lemma_run_new_succ, lemma_run_one,
    lemma_stores, lemma_temps_agree, lemma_zero_temps, lemma_temps_succ, lemma_temps_zero, temps,
};

verus! {

/// The number in the first `m` limbs of `s`.
pub open spec fn prefix_val(s: Seq<u64>, m: nat) -> nat {
    seq_val(s.take(m as int))
}

/// One product step of a CIOS row, in numbers.
proof fn lemma_cios_mul_column(
    s: int,
    c: int,
    base: int,
    x: int,
    bi: int,
    aj: int,
    a_low: int,
    wj: int,
    l: int,
    h: int,
)
    requires
        s + c * wj == base + bi * a_low,
        l + h * word() == x + bi * aj + c,
    ensures
        (s + l * wj) + h * (word() * wj) == (base + x * wj) + bi * (a_low + aj * wj),
{
    assert(l * wj + h * (word() * wj) == (l + h * word()) * wj) by (nonlinear_arith);
    assert((x + bi * aj + c) * wj == x * wj + bi * aj * wj + c * wj) by (nonlinear_arith);
    assert(bi * (a_low + aj * wj) == bi * a_low + bi * aj * wj) by (nonlinear_arith);
}

/// The first statement of row `i`: `r0 = mac_with_carry_simple(r0 (or 0), b[i], a[0], &mut carry);`
pub open spec fn cios_first(a: Elem, b: Elem, i: nat) -> Stmt {
    Stmt::Assign(
        Bind::Plain,
        temp(0),
        Rhs::MacSimple(
            if i == 0 {
                Term::Zero
            } else {
                tv(0)
            },
            Term::Limb(b, i as usize),
            Term::Limb(a, 0),
            Var::Carry,
        ),
    )
}

/// The state after `carry = 0` and the first statement of row `i`.
#[verifier::opaque]
pub open spec fn cios_head_state(a: Elem, b: Elem, i: nat, st: State, ctx: Ctx) -> State {
    step(
        cios_first(a, b, i),
        step(Stmt::Assign(Bind::LetMut, Var::Carry, Rhs::Value(Term::Zero)), st, ctx),
        ctx,
    )
}

/// What `carry = 0` and the first statement of row `i` do.
proof fn lemma_cios_head(a: Elem, b: Elem, i: nat, st: State, ctx: Ctx)
    requires
        elem_limbs(a, st, ctx).len() >= 1,
        elem_limbs(b, st, ctx).len() > i,
        i <= usize::MAX,
        i == 0 ==> (st.vars)(Var::Temp(0)) == 0,
    ensures
        ({
            let s0 = cios_head_state(a, b, i, st, ctx);
            let t = ((st.vars)(Var::Temp(0)) as int) + (elem_limbs(b, st, ctx)[i as int] as int) * (
            elem_limbs(a, st, ctx)[0] as int);
            &&& 0 <= t < word() * word()
            &&& s0.limbs == st.limbs
            &&& s0.vars == set_var(set_var(st.vars, Var::Carry, hi(t)), Var::Temp(0), lo(t))
        }),
{
    reveal(cios_head_state);
    let x0 = (st.vars)(Var::Temp(0));
    let bi = elem_limbs(b, st, ctx)[i as int];
    let a0 = elem_limbs(a, st, ctx)[0];
    let t = x0 as int + (bi as int) * (a0 as int);
    assert(0 <= t < word() * word()) by (nonlinear_arith)
        requires
            0 <= x0 < word(),
            0 <= bi < word(),
            0 <= a0 < word(),
            t == x0 as int + (bi as int) * (a0 as int),
    ;
    let s0 = cios_head_state(a, b, i, st, ctx);
    assert(temp(0) == Var::Temp(0));
    assert(s0.vars =~= set_var(set_var(st.vars, Var::Carry, hi(t)), Var::Temp(0), lo(t)));
}

/// What one product step of row `i` does.
proof fn lemma_cios_mul_step_state(a: Elem, b: Elem, i: nat, j: nat, s: State, ctx: Ctx)
    requires
        i <= usize::MAX,
        j <= usize::MAX,
        elem_limbs(a, s, ctx).len() > j,
        elem_limbs(b, s, ctx).len() > i,
        i == 0 ==> (s.vars)(Var::Temp(j as usize)) == 0,
    ensures
        ({
            let t = ((s.vars)(Var::Temp(j as usize)) as int) + (elem_limbs(b, s, ctx)[i as int] as int)
                * (elem_limbs(a, s, ctx)[j as int] as int) + ((s.vars)(Var::Carry) as int);
            let s2 = step(cios_mul_step(a, b, i, j), s, ctx);
            &&& 0 <= t < word() * word()
            &&& s2.limbs == s.limbs
            &&& s2.vars == set_var(set_var(s.vars, Var::Carry, hi(t)), Var::Temp(j as usize), lo(t))
        }),
{
    let x = (s.vars)(Var::Temp(j as usize));
    let bi = elem_limbs(b, s, ctx)[i as int];
    let aj = elem_limbs(a, s, ctx)[j as int];
    let cr = (s.vars)(Var::Carry);
    let t = x as int + (bi as int) * (aj as int) + cr as int;
    assert(0 <= t < word() * word()) by (nonlinear_arith)
        requires
            0 <= x < word(),
            0 <= bi < word(),
            0 <= aj < word(),
            0 <= cr < word(),
            t == x as int + (bi as int) * (aj as int) + cr as int,
    ;
    assert(temp(j) == Var::Temp(j as usize));
    if i == 0 {
        assert((aj as int) * (bi as int) == (bi as int) * (aj as int)) by (nonlinear_arith);
    }
}

/// The product half of row `i`: after the first word and `c` more, the words
/// `r0 .. r{c}` and the carry have taken in `b[i] * (a[0..=c] as a number)`.
/// Row 0 starts from all-zero words.
#[verifier::spinoff_prover]
proof fn lemma_cios_mults(a: Elem, b: Elem, n: nat, i: nat, c: nat, st: State, ctx: Ctx)
    requires
        1 <= n <= usize::MAX / 2,
        i < n,
        c + 1 <= n,
        elem_limbs(a, st, ctx).len() >= n,
        elem_limbs(b, st, ctx).len() >= n,
        i == 0 ==> forall|u: usize| u <= n ==> #[trigger] (st.vars)(Var::Temp(u)) == 0,
    ensures
        ({
            let s0 = cios_head_state(a, b, i, st, ctx);
            let sc = run(Seq::new(c, |jj: int| cios_mul_step(a, b, i, (jj + 1) as nat)), s0, ctx);
            &&& sc.limbs == st.limbs
            &&& forall|u: usize| u > c ==> #[trigger] (sc.vars)(Var::Temp(u)) == (st.vars)(Var::Temp(u))
            &&& seq_val(temps(sc.vars, c + 1)) + ((sc.vars)(Var::Carry) as int) * wpow(c + 1) == seq_val(
                temps(st.vars, c + 1),
            ) + (elem_limbs(b, st, ctx)[i as int] as int) * (prefix_val(elem_limbs(a, st, ctx), c + 1) as int)
        }),
    decreases c,
{
    let al = elem_limbs(a, st, ctx);
    let bl = elem_limbs(b, st, ctx);
    let bi = bl[i as int];
    let z = Stmt::Assign(Bind::LetMut, Var::Carry, Rhs::Value(Term::Zero));
    let s0 = cios_head_state(a, b, i, st, ctx);
    lemma_cios_head(a, b, i, st, ctx);
    let f = |jj: int| cios_mul_step(a, b, i, (jj + 1) as nat);
    assert(temp(0) == Var::Temp(0));
    if c == 0 {
        let x0 = (st.vars)(Var::Temp(0));
        let t = x0 as int + (bi as int) * (al[0] as int);
        lemma_lo_hi(t);
        assert(run(Seq::new(0, f), s0, ctx) == s0);
        lemma_temps_succ(s0.vars, 0);
        lemma_temps_succ(st.vars, 0);
        assert(temps(s0.vars, 0) =~= Seq::<u64>::empty());
        assert(temps(st.vars, 0) =~= Seq::<u64>::empty());
        lemma_seq_val_take_succ(al, 0);
        assert(al.take(0) =~= Seq::<u64>::empty());
        assert(wpow(0) == 1);
        assert(wpow(1) == word());
        assert(Seq::new(0, f) == Seq::new(c, |jj: int| cios_mul_step(a, b, i, (jj + 1) as nat)));
    } else {
        let k = (c - 1) as nat;
        lemma_cios_mults(a, b, n, i, k, st, ctx);
        lemma_run_new_succ(f, k, s0, ctx);
        let sk = run(Seq::new(k, f), s0, ctx);
        let sc = run(Seq::new(c, f), s0, ctx);
        let cu = c as usize;
        assert(f(k as int) == cios_mul_step(a, b, i, c));
        assert(temp(c) == Var::Temp(cu));
        let x = (sk.vars)(Var::Temp(cu));
        assert(x == (st.vars)(Var::Temp(cu)));
        let aj = al[c as int];
        let cr = (sk.vars)(Var::Carry);
        let t = x as int + (bi as int) * (aj as int) + cr as int;
        assert(elem_limbs(a, sk, ctx) == al);
        assert(elem_limbs(b, sk, ctx) == bl);
        lemma_cios_mul_step_state(a, b, i, c, sk, ctx);
        lemma_lo_hi(t);
        assert forall|u: usize| u != cu implies #[trigger] (sc.vars)(Var::Temp(u)) == (sk.vars)(
            Var::Temp(u),
        ) by {}
        lemma_temps_agree(sc.vars, sk.vars, c);
        lemma_temps_succ(sc.vars, c);
        lemma_temps_succ(st.vars, c);
        lemma_seq_val_take_succ(al, c as int);
        assert(wpow(c + 1) == word() * wpow(c));
        lemma_cios_mul_column(
            seq_val(temps(sk.vars, c)) as int,
            cr as int,
            seq_val(temps(st.vars, c)) as int,
            x as int,
            bi as int,
            aj as int,
            prefix_val(al, c) as int,
            wpow(c) as int,
            lo(t) as int,
            hi(t) as int,
        );
        assert(Seq::new(c, f) == Seq::new(c, |jj: int| cios_mul_step(a, b, i, (jj + 1) as nat)));
    }
}

/// What one reduction step of a row does, while the top word is zero.
proof fn lemma_cios_red_step_state(n: nat, j: nat, s: State, ctx: Ctx)
    requires
        1 <= j < n <= usize::MAX / 2,
        ctx.modulus.len() >= n,
        (s.vars)(Var::Temp(n as usize)) == 0,
    ensures
        ({
            let t = ((s.vars)(Var::Temp(j as usize)) as int) + ((s.vars)(Var::M) as int) * (
            ctx.modulus[j as int] as int) + ((s.vars)(Var::Carry) as int);
            let s2 = step(cios_red_step(n, j), s, ctx);
            &&& 0 <= t < word() * word()
            &&& s2.limbs == s.limbs
            &&& s2.vars == set_var(set_var(s.vars, Var::Carry, hi(t)), Var::Temp((j - 1) as usize), lo(t))
        }),
{
    let x = (s.vars)(Var::Temp(j as usize));
    let m = (s.vars)(Var::M);
    let qj = ctx.modulus[j as int];
    let cr = (s.vars)(Var::Carry);
    let t = x as int + (m as int) * (qj as int) + cr as int;
    assert(0 <= t < word() * word()) by (nonlinear_arith)
        requires
            0 <= x < word(),
            0 <= m < word(),
            0 <= qj < word(),
            0 <= cr < word(),
            t == x as int + (m as int) * (qj as int) + cr as int,
    ;
    assert(temp(j) == Var::Temp(j as usize));
    assert(temp(n) == Var::Temp(n as usize));
    assert(temp((j - 1) as nat) == Var::Temp((j - 1) as usize));
    assert(0 * word() == 0);
}

/// The reduction half of a row: after `c` steps the words move down by one,
/// `r0 .. r{c-1}` and the carry holding `(r0 .. r{c}) + m * (modulus[0..=c])`,
/// divided by 2^64.
#[verifier::spinoff_prover]
proof fn lemma_cios_reds(n: nat, c: nat, s0: State, ctx: Ctx)
    requires
        1 <= n <= usize::MAX / 2,
        c + 1 <= n,
        ctx.modulus.len() >= n,
        (s0.vars)(Var::Temp(n as usize)) == 0,
        ((s0.vars)(Var::Carry) as int) * word() == ((s0.vars)(Var::Temp(0)) as int) + ((s0.vars)(
            Var::M,
        ) as int) * (ctx.modulus[0] as int),
    ensures
        ({
            let sc = run(Seq::new(c, |jj: int| cios_red_step(n, (jj + 1) as nat)), s0, ctx);
            &&& sc.limbs == s0.limbs
            &&& (sc.vars)(Var::D) == (s0.vars)(Var::D)
            &&& (sc.vars)(Var::M) == (s0.vars)(Var::M)
            &&& forall|u: usize| u >= c ==> #[trigger] (sc.vars)(Var::Temp(u)) == (s0.vars)(Var::Temp(u))
            &&& (seq_val(temps(sc.vars, c)) as int) * word() + ((sc.vars)(Var::Carry) as int) * wpow(c + 1)
                == seq_val(temps(s0.vars, c + 1)) + ((s0.vars)(Var::M) as int) * (prefix_val(
                ctx.modulus,
                c + 1,
            ) as int)
        }),
    decreases c,
{
    let f = |jj: int| cios_red_step(n, (jj + 1) as nat);
    let m = (s0.vars)(Var::M);
    if c == 0 {
        assert(run(Seq::new(0, f), s0, ctx) == s0);
        assert(temps(s0.vars, 0) =~= Seq::<u64>::empty());
        lemma_temps_succ(s0.vars, 0);
        lemma_seq_val_take_succ(ctx.modulus, 0);
        assert(ctx.modulus.take(0) =~= Seq::<u64>::empty());
        assert(wpow(0) == 1);
        assert(wpow(1) == word());
        assert(seq_val(temps(s0.vars, 1)) == (s0.vars)(Var::Temp(0)));
        assert(prefix_val(ctx.modulus, 1) == ctx.modulus[0]);
        assert(((s0.vars)(Var::Carry) as int) * wpow(1) == ((s0.vars)(Var::Carry) as int) * word());
        assert(Seq::new(0, f) == Seq::new(c, |jj: int| cios_red_step(n, (jj + 1) as nat)));
    } else {
        let k = (c - 1) as nat;
        lemma_cios_reds(n, k, s0, ctx);
        lemma_run_new_succ(f, k, s0, ctx);
        let sk = run(Seq::new(k, f), s0, ctx);
        let sc = run(Seq::new(c, f), s0, ctx);
        let j = c;
        assert(f(k as int) == cios_red_step(n, j));
        let ju = j as usize;
        let ku = k as usize;
        let x = (sk.vars)(Var::Temp(ju));
        assert(x == (s0.vars)(Var::Temp(ju)));
        assert((sk.vars)(Var::Temp(n as usize)) == 0);
        lemma_cios_red_step_state(n, j, sk, ctx);
        let qj = ctx.modulus[j as int];
        let cr = (sk.vars)(Var::Carry);
        let t = x as int + (m as int) * (qj as int) + cr as int;
        lemma_lo_hi(t);
        assert forall|u: usize| u != ku implies #[trigger] (sc.vars)(Var::Temp(u)) == (sk.vars)(
            Var::Temp(u),
        ) by {}
        lemma_temps_agree(sc.vars, sk.vars, k);
        lemma_temps_succ(sc.vars, k);
        lemma_temps_succ(s0.vars, c);
        lemma_seq_val_take_succ(ctx.modulus, c as int);
        assert(wpow(c) == word() * wpow(k));
        assert(wpow(c + 1) == word() * wpow(c));
        let wk = wpow(k) as int;
        let sv = seq_val(temps(sk.vars, k)) as int;
        assert((sv + (lo(t) as int) * wk) * word() + (hi(t) as int) * (word() * (word() * wk)) == sv
            * word() + (cr as int) * (word() * wk) + (x as int) * (word() * wk) + (m as int) * (qj
            as int) * (word() * wk)) by (nonlinear_arith)
            requires
                (lo(t) as int) + (hi(t) as int) * word() == t,
                t == x as int + (m as int) * (qj as int) + cr as int,
        ;
        assert((m as int) * ((prefix_val(ctx.modulus, c) as int) + (qj as int) * (word() * wk)) == (m
            as int) * (prefix_val(ctx.modulus, c) as int) + (m as int) * (qj as int) * (word() * wk))
            by (nonlinear_arith);
        assert(Seq::new(c, f) == Seq::new(c, |jj: int| cios_red_step(n, (jj + 1) as nat)));
    }
}

/// The statements of row `i` after the product half and before the
/// reduction steps: `d = carry`, `m = r0 * INV`, and the step that clears `r0`.
pub open spec fn cios_mid(n: nat) -> Seq<Stmt> {
    seq![
        Stmt::Assign(Bind::LetMut, Var::D, Rhs::Value(Term::Var(Var::Carry))),
        Stmt::Assign(Bind::LetMut, Var::M, Rhs::MacSimple(Term::Zero, tv(0), Term::Inv, Var::Carry)),
        Stmt::Eval(Rhs::MacSimple(tv(0), Term::Var(Var::M), Term::Modulus(0), Var::Carry)),
    ]
}

/// The last statement of a row: `r{n-1} = mac_with_carry_simple(d, carry, 1, &mut r{n});`
pub open spec fn cios_last(n: nat) -> Stmt {
    Stmt::Assign(
        Bind::Plain,
        temp((n - 1) as nat),
        Rhs::MacSimple(Term::Var(Var::D), Term::Var(Var::Carry), Term::One, temp(n)),
    )
}

/// What the middle statements of a row do: `d` takes the carry, `m` is
/// `r0 * INV` modulo 2^64, and the carry becomes `(r0 + m * modulus[0]) / 2^64`,
/// which is exact.
#[verifier::spinoff_prover]
proof fn lemma_cios_mid(n: nat, s: State, ctx: Ctx)
    requires
        1 <= n,
        ctx.modulus.len() >= n,
        inv_ok(ctx),
    ensures
        ({
            let s2 = run(cios_mid(n), s, ctx);
            let m = lo(((s.vars)(Var::Temp(0)) as int) * (ctx.inv as int));
            &&& s2.limbs == s.limbs
            &&& forall|u: usize| #[trigger] (s2.vars)(Var::Temp(u)) == (s.vars)(Var::Temp(u))
            &&& (s2.vars)(Var::D) == (s.vars)(Var::Carry)
            &&& (s2.vars)(Var::M) == m
            &&& ((s2.vars)(Var::Carry) as int) * word() == ((s.vars)(Var::Temp(0)) as int) + (m as int)
                * (ctx.modulus[0] as int)
        }),
{
    let p = cios_mid(n);
    let s1 = step(p[0], s, ctx);
    let s2 = step(p[1], s1, ctx);
    let s3 = step(p[2], s2, ctx);
    assert(p.drop_last() =~= seq![p[0], p[1]]);
    assert(seq![p[0], p[1]].drop_last() =~= seq![p[0]]);
    lemma_run_one(p[0], s, ctx);
    assert(run(seq![p[0], p[1]], s, ctx) == s2);
    assert(run(p, s, ctx) == s3);
    assert(temp(0) == Var::Temp(0));
    let r0 = (s.vars)(Var::Temp(0));
    let t1 = (r0 as int) * (ctx.inv as int);
    assert(0 <= t1 < word() * word()) by (nonlinear_arith)
        requires
            0 <= r0 < word(),
            0 <= ctx.inv < word(),
            t1 == (r0 as int) * (ctx.inv as int),
    ;
    let m = lo(t1);
    assert(0 + (r0 as int) * (ctx.inv as int) == t1);
    assert((s2.vars)(Var::M) == m);
    let q0 = ctx.modulus[0];
    let t0 = r0 as int + (m as int) * (q0 as int);
    assert(0 <= t0 < word() * word()) by (nonlinear_arith)
        requires
            0 <= r0 < word(),
            0 <= m < word(),
            0 <= q0 < word(),
            t0 == r0 as int + (m as int) * (q0 as int),
    ;
    lemma_lo_hi(t0);
    lemma_lo_hi(t1);
    lemma_inv_clears(r0 as int, ctx.inv as int, q0 as int);
    assert((q0 as int) * (ctx.inv as int) == (ctx.inv as int) * (q0 as int)) by (nonlinear_arith);
    assert(lo(t0) == 0);
}

/// What the last statement of a row does: `d + carry` goes into `r{n-1}`
/// and `r{n}`.
proof fn lemma_cios_last(n: nat, s: State, ctx: Ctx)
    requires
        1 <= n <= usize::MAX / 2,
    ensures
        ({
            let s2 = step(cios_last(n), s, ctx);
            let t = ((s.vars)(Var::D) as int) + ((s.vars)(Var::Carry) as int);
            &&& s2.limbs == s.limbs
            &&& forall|u: usize| (u != n - 1 && u != n) ==> #[trigger] (s2.vars)(Var::Temp(u)) == (s.vars)(
                Var::Temp(u),
            )
            &&& (s2.vars)(Var::Temp((n - 1) as usize)) as int + ((s2.vars)(Var::Temp(n as usize)) as int)
                * word() == t
        }),
{
    let t = ((s.vars)(Var::D) as int) + ((s.vars)(Var::Carry) as int);
    assert(t == ((s.vars)(Var::D) as int) + ((s.vars)(Var::Carry) as int) * 1);
    lemma_lo_hi(t);
    assert(temp((n - 1) as nat) == Var::Temp((n - 1) as usize));
    assert(temp(n) == Var::Temp(n as usize));
}

/// Row `i` of the CIOS multiplication takes the words `r0 .. r{n}` (the
/// top one zero) from `acc` to `(acc + b[i] * a + m * modulus) / 2^64`,
/// exactly, for the `m < 2^64` that it computes. Row 0 starts from zeros.
#[verifier::spinoff_prover]
proof fn lemma_cios_row(a: Elem, b: Elem, n: nat, i: nat, st: State, ctx: Ctx) -> (m: nat)
    requires
        1 <= n <= usize::MAX / 2,
        i < n,
        elem_limbs(a, st, ctx).len() >= n,
        elem_limbs(b, st, ctx).len() >= n,
        ctx.modulus.len() >= n,
        inv_ok(ctx),
        (st.vars)(Var::Temp(n as usize)) == 0,
        i == 0 ==> forall|u: usize| u <= n ==> #[trigger] (st.vars)(Var::Temp(u)) == 0,
    ensures
        ({
            let s2 = run(cios_row(a, b, n, i), st, ctx);
            &&& m < word()
            &&& s2.limbs == st.limbs
            &&& (seq_val(temps(s2.vars, n + 1)) as int) * word() == seq_val(temps(st.vars, n + 1)) + (
            elem_limbs(b, st, ctx)[i as int] as int) * (prefix_val(elem_limbs(a, st, ctx), n) as int)
                + (m as int) * (modulus_val(ctx, n) as int)
        }),
{
    let z = Stmt::Assign(Bind::LetMut, Var::Carry, Rhs::Value(Term::Zero));
    let first = cios_first(a, b, i);
    let mults = Seq::new((n - 1) as nat, |jj: int| cios_mul_step(a, b, i, (jj + 1) as nat));
    let reds = Seq::new((n - 1) as nat, |jj: int| cios_red_step(n, (jj + 1) as nat));
    assert(cios_row(a, b, n, i) =~= seq![z, first] + mults + cios_mid(n) + reds + seq![cios_last(n)]);
    // `carry = 0` and the first product.
    reveal(cios_head_state);
    let s0 = cios_head_state(a, b, i, st, ctx);
    assert(seq![z, first].drop_last() =~= seq![z]);
    lemma_run_one(z, st, ctx);
    assert(run(seq![z, first], st, ctx) == s0);
    // The product half.
    lemma_cios_mults(a, b, n, i, (n - 1) as nat, st, ctx);
    assert(Seq::new((n - 1) as nat, |jj: int| cios_mul_step(a, b, i, (jj + 1) as nat)) =~= mults);
    let sm = run(mults, s0, ctx);
    lemma_run_concat(seq![z, first], mults, st, ctx);
    assert((n - 1) as nat + 1 == n);
    assert((sm.vars)(Var::Temp(n as usize)) == 0);
    // `d`, `m`, and the cleared `r0`.
    lemma_cios_mid(n, sm, ctx);
    let se = run(cios_mid(n), sm, ctx);
    lemma_run_concat(seq![z, first] + mults, cios_mid(n), st, ctx);
    let m = lo(((sm.vars)(Var::Temp(0)) as int) * (ctx.inv as int));
    // The reduction half.
    lemma_cios_reds(n, (n - 1) as nat, se, ctx);
    assert(Seq::new((n - 1) as nat, |jj: int| cios_red_step(n, (jj + 1) as nat)) =~= reds);
    let sr = run(reds, se, ctx);
    lemma_run_concat(seq![z, first] + mults + cios_mid(n), reds, st, ctx);
    // The last statement.
    lemma_cios_last(n, sr, ctx);
    let sl = step(cios_last(n), sr, ctx);
    lemma_run_one(cios_last(n), sr, ctx);
    lemma_run_concat(seq![z, first] + mults + cios_mid(n) + reds, seq![cios_last(n)], st, ctx);
    assert(run(cios_row(a, b, n, i), st, ctx) == sl);
    // The numbers.
    let k = (n - 1) as nat;
    assert forall|u: usize| u < k implies #[trigger] (sl.vars)(Var::Temp(u)) == (sr.vars)(Var::Temp(u)) by {}
    lemma_temps_agree(sl.vars, sr.vars, k);
    lemma_temps_succ(sl.vars, k);
    lemma_temps_succ(sl.vars, n);
    assert(k + 1 == n);
    lemma_temps_agree(se.vars, sm.vars, n);
    lemma_temps_succ(st.vars, n);
    assert(wpow(n) == word() * wpow(k));
    let wk = wpow(k) as int;
    let lo_w = (sl.vars)(Var::Temp(k as usize)) as int;
    let hi_w = (sl.vars)(Var::Temp(n as usize)) as int;
    let d = (sr.vars)(Var::D) as int;
    let c = (sr.vars)(Var::Carry) as int;
    assert(((seq_val(temps(sr.vars, k)) as int) + lo_w * wk + hi_w * (word() * wk)) * word() == (seq_val(
        temps(sr.vars, k),
    ) as int) * word() + (d + c) * (word() * wk)) by (nonlinear_arith)
        requires
            lo_w + hi_w * word() == d + c,
    ;
    assert((d + c) * (word() * wk) == d * (word() * wk) + c * (word() * wk)) by (nonlinear_arith);
    assert(0 * wpow(n) == 0);
    m as nat
}

/// The first `i` rows of the CIOS multiplication leave in `r0 .. r{n}` a
/// number `acc < 2 * modulus` with `acc * 2^(64 i) == a * (b[0..i]) + q * modulus`
/// for some `q < 2^(64 i)`.
#[verifier::spinoff_prover]
proof fn lemma_cios_rows(a: Elem, b: Elem, n: nat, i: nat, sp: State, ctx: Ctx) -> (q: nat)
    requires
        1 <= n <= usize::MAX / 2,
        i <= n,
        elem_limbs(a, sp, ctx).len() >= n,
        elem_limbs(b, sp, ctx).len() >= n,
        ctx.modulus.len() >= n,
        inv_ok(ctx),
        forall|u: usize| u <= n ==> #[trigger] (sp.vars)(Var::Temp(u)) == 0,
        prefix_val(elem_limbs(a, sp, ctx), n) < modulus_val(ctx, n),
        2 * modulus_val(ctx, n) <= wpow(n),
    ensures
        ({
            let si = run(concat_blocks(cios_rows(a, b, n), i), sp, ctx);
            let acc = seq_val(temps(si.vars, n + 1));
            &&& q < wpow(i)
            &&& si.limbs == sp.limbs
            &&& acc < 2 * modulus_val(ctx, n)
            &&& acc * wpow(i) == prefix_val(elem_limbs(a, sp, ctx), n) * prefix_val(
                elem_limbs(b, sp, ctx),
                i,
            ) + q * modulus_val(ctx, n)
        }),
    decreases i,
{
    let al = elem_limbs(a, sp, ctx);
    let bl = elem_limbs(b, sp, ctx);
    let av = prefix_val(al, n);
    let qv = modulus_val(ctx, n);
    if i == 0 {
        assert(concat_blocks(cios_rows(a, b, n), 0) == Seq::<Stmt>::empty());
        assert(run(Seq::<Stmt>::empty(), sp, ctx) == sp);
        lemma_temps_zero(sp.vars, n + 1);
        assert(bl.take(0) =~= Seq::<u64>::empty());
        assert(wpow(0) == 1);
        lemma_wpow_pos(n);
        assert(av * 0 == 0);
        0
    } else {
        let h = (i - 1) as nat;
        let q0 = lemma_cios_rows(a, b, n, h, sp, ctx);
        let sh = run(concat_blocks(cios_rows(a, b, n), h), sp, ctx);
        lemma_run_blocks_succ(cios_rows(a, b, n), h, sp, ctx);
        assert(cios_rows(a, b, n)(h) == cios_row(a, b, n, h));
        let acc = seq_val(temps(sh.vars, n + 1));
        // The top word is zero, since `acc < 2 * modulus <= 2^(64 n)`.
        lemma_temps_succ(sh.vars, n);
        let top = (sh.vars)(Var::Temp(n as usize));
        assert(top == 0) by (nonlinear_arith)
            requires
                acc == seq_val(temps(sh.vars, n)) + (top as nat) * wpow(n),
                acc < wpow(n),
                wpow(n) > 0,
                top >= 0,
        {
            lemma_wpow_pos(n);
        }
        if h == 0 {
            assert(sh == sp);
        }
        assert(elem_limbs(a, sh, ctx) == al);
        assert(elem_limbs(b, sh, ctx) == bl);
        let m = lemma_cios_row(a, b, n, h, sh, ctx);
        let si = run(cios_row(a, b, n, h), sh, ctx);
        let acc2 = seq_val(temps(si.vars, n + 1));
        let bh = bl[h as int];
        lemma_seq_val_take_succ(bl, h as int);
        let wh = wpow(h);
        assert(wpow(i) == word() * wh);
        let bv = prefix_val(bl, h);
        assert(acc2 * wpow(i) == (acc2 * word()) * wh) by (nonlinear_arith)
            requires
                wpow(i) == word() * wh,
        ;
        assert((acc + bh * av + m * qv) * wh == acc * wh + av * (bh * wh) + (m * wh) * qv)
            by (nonlinear_arith);
        assert(av * (bv + bh * wh) == av * bv + av * (bh * wh)) by (nonlinear_arith);
        assert((q0 + m * wh) * qv == q0 * qv + (m * wh) * qv) by (nonlinear_arith);
        assert(acc2 * wpow(i) == av * (bv + bh * wh) + (q0 + m * wh) * qv);
        assert(acc2 < 2 * qv) by (nonlinear_arith)
            requires
                acc2 * word() == acc + bh * av + m * qv,
                acc < 2 * qv,
                bh < word(),
                m < word(),
                av < qv,
        ;
        assert(q0 + m * wh < word() * wh) by (nonlinear_arith)
            requires
                q0 < wh,
                m < word(),
        ;
        q0 + m * wh
    }
}

/// The CIOS multiplication that the generator writes for `n` limbs, with its
/// final `self.reduce()`, leaves in the `n` limbs of `self` the Montgomery
/// product of `a` and `b`: the number `out` below the modulus with
/// `out * R` congruent to `a * b` modulo the modulus, `R = 2^(64 n)`. It needs
/// `INV` to be the negated inverse of the lowest limb of the modulus modulo
/// 2^64, `a` below the modulus, and twice the modulus to fit in `n` limbs.
#[verifier::spinoff_prover]
pub proof fn theorem_cios_product(a: Elem, b: Elem, n: nat, st: State, ctx: Ctx)
    requires
        1 <= n <= usize::MAX / 2,
        st.limbs.len() == n,
        elem_limbs(a, st, ctx).len() >= n,
        elem_limbs(b, st, ctx).len() >= n,
        ctx.modulus.len() >= n,
        inv_ok(ctx),
        prefix_val(elem_limbs(a, st, ctx), n) < modulus_val(ctx, n),
        2 * modulus_val(ctx, n) <= wpow(n),
    ensures
        ({
            let fin = run(cios_spec(a, b, n), st, ctx);
            let out = seq_val(fin.limbs);
            &&& fin.limbs.len() == n
            &&& out < modulus_val(ctx, n)
            &&& (out * wpow(n)) % modulus_val(ctx, n) == (prefix_val(elem_limbs(a, st, ctx), n)
                * prefix_val(elem_limbs(b, st, ctx), n)) % modulus_val(ctx, n)
        }),
{
    let prelude = Seq::new(
        n + 1,
        |i: int| Stmt::Assign(Bind::LetMut, temp(i as nat), Rhs::Value(Term::Zero)),
    );
    let rows = concat_blocks(cios_rows(a, b, n), n);
    assert(cios_spec(a, b, n) =~= prelude + rows + store_and_reduce(n));
    lemma_zero_temps(n + 1, st, ctx);
    let sp = run(prelude, st, ctx);
    assert(elem_limbs(a, sp, ctx) == elem_limbs(a, st, ctx));
    assert(elem_limbs(b, sp, ctx) == elem_limbs(b, st, ctx));
    let q = lemma_cios_rows(a, b, n, n, sp, ctx);
    lemma_run_concat(prelude, rows, st, ctx);
    let sr = run(rows, sp, ctx);
    lemma_run_concat(prelude + rows, store_and_reduce(n), st, ctx);
    lemma_stores(n, n, sr, ctx);
    let stores = Seq::new(n, |i: int| Stmt::StoreLimb(i as usize, temp(i as nat)));
    assert(store_and_reduce(n) =~= stores + seq![Stmt::Reduce]);
    lemma_run_concat(stores, seq![Stmt::Reduce], sr, ctx);
    let ss = run(stores, sr, ctx);
    lemma_run_one(Stmt::Reduce, ss, ctx);
    let fin = run(cios_spec(a, b, n), st, ctx);
    assert(fin == step(Stmt::Reduce, ss, ctx));
    assert(ss.limbs =~= temps(sr.vars, n));
    // The top word is zero.
    lemma_temps_succ(sr.vars, n);
    let acc = seq_val(temps(sr.vars, n + 1));
    let top = (sr.vars)(Var::Temp(n as usize));
    lemma_wpow_pos(n);
    assert(top == 0) by (nonlinear_arith)
        requires
            acc == seq_val(temps(sr.vars, n)) + (top as nat) * wpow(n),
            acc < wpow(n),
            wpow(n) > 0,
    ;
    assert(0 * wpow(n) == 0);
    assert(seq_val(ss.limbs) == acc);
    let m = modulus_val(ctx, n);
    let p = prefix_val(elem_limbs(a, st, ctx), n) * prefix_val(elem_limbs(b, st, ctx), n);
    lemma_modulus_pos(n, ctx);
    lemma_product_congruent(acc, wpow(n), p, q, m);
    lemma_reduce_congruent(ss.limbs, ctx.modulus, wpow(n), p);
}

} // verus!
