//! The schoolbook multiplication hands `mont_reduce` the full product.
use vstd::prelude::*;
use crate::arith::{lemma_lo_hi, lemma_mac_column, lemma_seq_val_take_succ, lemma_wpow_add};
use crate::gen::{concat_blocks, mul_col, mul_default_spec, mul_row, mul_rows, temp};
use crate::ir::{
    Bind, Ctx, Elem, Rhs, State, Stmt, Term, Var, hi, lo, run, seq_val, set_var, step, word, wpow,
};
use crate::semantics::{
    elem_limbs, lemma_run_blocks_succ, lemma_run_concat, lemma_run_new_succ, lemma_run_one,
    lemma_temps_agree, lemma_temps_succ, temps,
};

verus! {

/// The state after one step of row `i`.
proof fn lemma_mul_col_step(a: Elem, b: Elem, i: nat, j: nat, s: State, ctx: Ctx)
    requires
        i + j <= usize::MAX,
    ensures
        ({
            let x: int = if i == 0 {
                0
            } else {
                (s.vars)(temp(i + j)) as int
            };
            let t = x + (elem_limbs(a, s, ctx)[i as int] as int) * (elem_limbs(b, s, ctx)[j as int] as int)
                + (s.vars)(Var::Carry) as int;
            step(mul_col(a, b, i, j), s, ctx) == State {
                vars: set_var(set_var(s.vars, Var::Carry, hi(t)), temp(i + j), lo(t)),
                limbs: s.limbs,
            }
        }),
{
}

/// The value that the temporaries held before row `i`, as far as the row
/// reads them: row 0 reads none.
pub open spec fn row_base(i: nat, st: State, k: nat) -> int {
    if i == 0 {
        0
    } else {
        seq_val(temps(st.vars, k)) as int
    }
}

/// After the first `j` steps of row `i`, the temporaries `r0 .. r{i+j-1}` and
/// the carry stand for what they stood for before plus `a[i] * b_low * 2^(64 i)`,
/// where `b_low` is the number in the first `j` limbs of `b`.
#[verifier::spinoff_prover]
proof fn lemma_mul_row_cols(a: Elem, b: Elem, n: nat, i: nat, j: nat, st: State, ctx: Ctx)
    requires
        i < n,
        j <= n,
        n <= usize::MAX / 2,
        elem_limbs(a, st, ctx).len() >= n,
        elem_limbs(b, st, ctx).len() >= n,
        (st.vars)(Var::Carry) == 0,
    ensures
        ({
            let sj = run(Seq::new(j, |jj: int| mul_col(a, b, i, jj as nat)), st, ctx);
            &&& sj.limbs == st.limbs
            &&& forall|t: usize|
                (t < i || t >= i + j) ==> #[trigger] (sj.vars)(Var::Temp(t)) == (st.vars)(Var::Temp(t))
            &&& seq_val(temps(sj.vars, i + j)) + ((sj.vars)(Var::Carry) as int) * wpow(i + j) == row_base(
                i,
                st,
                i + j,
            ) + (elem_limbs(a, st, ctx)[i as int] as int) * (seq_val(
                elem_limbs(b, st, ctx).take(j as int),
            ) as int) * (wpow(i) as int)
        }),
    decreases j,
{
    let f = |jj: int| mul_col(a, b, i, jj as nat);
    let al = elem_limbs(a, st, ctx)[i as int];
    if j == 0 {
        assert(run(Seq::new(0, f), st, ctx) == st);
        assert(elem_limbs(b, st, ctx).take(0) =~= Seq::<u64>::empty());
        assert(temps(st.vars, i) == temps(st.vars, i + 0));
        if i == 0 {
            assert(temps(st.vars, 0) =~= Seq::<u64>::empty());
        }
        assert(seq_val(elem_limbs(b, st, ctx).take(0)) == 0);
        assert((al as int) * 0 * (wpow(i) as int) == 0) by (nonlinear_arith);
        assert(Seq::new(0, f) == Seq::new(j, |jj: int| mul_col(a, b, i, jj as nat)));
    } else {
        let k = (j - 1) as nat;
        lemma_mul_row_cols(a, b, n, i, k, st, ctx);
        let sk = run(Seq::new(k, f), st, ctx);
        lemma_run_new_succ(f, k, st, ctx);
        let sj = run(Seq::new(j, f), st, ctx);
        assert(sj == step(mul_col(a, b, i, k), sk, ctx));
        lemma_mul_col_step(a, b, i, k, sk, ctx);
        let bl = elem_limbs(b, st, ctx)[k as int];
        let xs = (sk.vars)(temp(i + k));
        let x: int = if i == 0 {
            0
        } else {
            xs as int
        };
        let c = (sk.vars)(Var::Carry);
        let t = x + (al as int) * (bl as int) + c as int;
        assert(0 <= t < word() * word()) by (nonlinear_arith)
            requires
                0 <= x < word(),
                0 <= al < word(),
                0 <= bl < word(),
                0 <= c < word(),
                t == x + (al as int) * (bl as int) + c as int,
        ;
        lemma_lo_hi(t);
        let idx = (i + k) as usize;
        assert(temp(i + k) == Var::Temp(idx));
        assert((sj.vars)(Var::Temp(idx)) == lo(t));
        assert((sj.vars)(Var::Carry) == hi(t));
        assert forall|u: usize| u != idx implies #[trigger] (sj.vars)(Var::Temp(u)) == (sk.vars)(
            Var::Temp(u),
        ) by {}
        lemma_temps_agree(sj.vars, sk.vars, i + k);
        lemma_temps_succ(sj.vars, i + k);
        assert((st.vars)(Var::Temp(idx)) == xs);
        if i > 0 {
            lemma_temps_succ(st.vars, i + k);
        }
        assert(row_base(i, st, i + j) == row_base(i, st, i + k) + x * wpow(i + k)) by {
            assert(i + j == i + k + 1);
        }
        lemma_seq_val_take_succ(elem_limbs(b, st, ctx), k as int);
        lemma_wpow_add(i, k);
        assert(wpow(i + j) == word() * wpow(i + k)) by {
            assert(i + j == (i + k) + 1);
        }
        lemma_mac_column(
            seq_val(temps(sk.vars, i + k)) as int,
            c as int,
            row_base(i, st, i + k),
            x,
            al as int,
            bl as int,
            seq_val(elem_limbs(b, st, ctx).take(k as int)) as int,
            wpow(i) as int,
            wpow(k) as int,
            lo(t) as int,
            hi(t) as int,
        );
        assert(Seq::new(j, f) == Seq::new(j, |jj: int| mul_col(a, b, i, jj as nat)));
    }
}

/// After row `i`, the temporaries `r0 .. r{i+n}` hold `a_low * b`, where
/// `a_low` is the number in the first `i + 1` limbs of `a`, given that before
/// the row `r0 .. r{i+n-1}` held the same for `i` limbs.
#[verifier::spinoff_prover]
proof fn lemma_mul_row(a: Elem, b: Elem, n: nat, i: nat, st: State, ctx: Ctx)
    requires
        i < n,
        n <= usize::MAX / 2,
        elem_limbs(a, st, ctx).len() >= n,
        elem_limbs(b, st, ctx).len() >= n,
        i > 0 ==> seq_val(temps(st.vars, i + n)) == seq_val(elem_limbs(a, st, ctx).take(i as int))
            * seq_val(elem_limbs(b, st, ctx).take(n as int)),
    ensures
        run(mul_row(a, b, n, i), st, ctx).limbs == st.limbs,
        seq_val(temps(run(mul_row(a, b, n, i), st, ctx).vars, i + n + 1)) == seq_val(
            elem_limbs(a, st, ctx).take(i as int + 1),
        ) * seq_val(elem_limbs(b, st, ctx).take(n as int)),
{
    let first = Stmt::Assign(Bind::LetMut, Var::Carry, Rhs::Value(Term::Zero));
    let cols = Seq::new(n, |jj: int| mul_col(a, b, i, jj as nat));
    let last = Stmt::Assign(Bind::Let, temp(i + n), Rhs::Value(Term::Var(Var::Carry)));
    assert(mul_row(a, b, n, i) =~= seq![first] + cols + seq![last]);
    lemma_run_concat(seq![first] + cols, seq![last], st, ctx);
    lemma_run_concat(seq![first], cols, st, ctx);
    lemma_run_one(first, st, ctx);
    let s1 = step(first, st, ctx);
    lemma_run_one(last, run(cols, s1, ctx), ctx);
    assert(forall|t: usize| #[trigger] (s1.vars)(Var::Temp(t)) == (st.vars)(Var::Temp(t)));
    lemma_mul_row_cols(a, b, n, i, n, s1, ctx);
    assert(Seq::new(n, |jj: int| mul_col(a, b, i, jj as nat)) =~= cols);
    let sn = run(cols, s1, ctx);
    let fin = step(last, sn, ctx);
    assert(run(mul_row(a, b, n, i), st, ctx) == fin);
    let idx = (i + n) as usize;
    assert(temp(i + n) == Var::Temp(idx));
    assert forall|u: usize| u != idx implies #[trigger] (fin.vars)(Var::Temp(u)) == (sn.vars)(
        Var::Temp(u),
    ) by {}
    lemma_temps_agree(fin.vars, sn.vars, i + n);
    lemma_temps_succ(fin.vars, i + n);
    lemma_temps_agree(s1.vars, st.vars, i + n);
    let al = elem_limbs(a, st, ctx)[i as int];
    let bv = seq_val(elem_limbs(b, st, ctx).take(n as int));
    lemma_seq_val_take_succ(elem_limbs(a, st, ctx), i as int);
    let av = seq_val(elem_limbs(a, st, ctx).take(i as int));
    if i == 0 {
        assert(elem_limbs(a, st, ctx).take(0) =~= Seq::<u64>::empty());
        assert(av == 0);
        assert(av * bv == 0) by (nonlinear_arith)
            requires
                av == 0,
        ;
        assert(row_base(i, s1, i + n) == 0);
    } else {
        assert(row_base(i, s1, i + n) == seq_val(temps(s1.vars, i + n)));
        assert(temps(s1.vars, i + n) == temps(st.vars, i + n));
    }
    assert(row_base(i, s1, i + n) == av * bv);
    assert(av * bv + (al as int) * (bv as int) * (wpow(i) as int) == (av + al * wpow(i)) * bv)
        by (nonlinear_arith);
}

/// The schoolbook multiplication that the generator writes for `n` limbs
/// leaves in `r0 .. r{2n-1}`, which it passes to `mont_reduce`, the product
/// of the numbers in the first `n` limbs of `a` and of `b`, whatever the
/// state it starts from.
pub proof fn theorem_mul_default_product(a: Elem, b: Elem, n: nat, st: State, ctx: Ctx)
    requires
        1 <= n <= usize::MAX / 2,
        elem_limbs(a, st, ctx).len() >= n,
        elem_limbs(b, st, ctx).len() >= n,
    ensures
        run(mul_default_spec(a, b, n), st, ctx).limbs == st.limbs,
        seq_val(temps(run(mul_default_spec(a, b, n), st, ctx).vars, 2 * n)) == seq_val(
            elem_limbs(a, st, ctx).take(n as int),
        ) * seq_val(elem_limbs(b, st, ctx).take(n as int)),
{
    lemma_mul_rows(a, b, n, n, st, ctx);
    let body = concat_blocks(mul_rows(a, b, n), n);
    let call = Stmt::MontReduceCall((2 * n) as usize);
    lemma_run_concat(body, seq![call], st, ctx);
    lemma_run_one(call, run(body, st, ctx), ctx);
    assert(n + n == 2 * n);
}

/// The first `i` rows of the product leave `a_low * b` in `r0 .. r{i+n-1}`.
#[verifier::spinoff_prover]
proof fn lemma_mul_rows(a: Elem, b: Elem, n: nat, i: nat, st: State, ctx: Ctx)
    requires
        1 <= i <= n,
        n <= usize::MAX / 2,
        elem_limbs(a, st, ctx).len() >= n,
        elem_limbs(b, st, ctx).len() >= n,
    ensures
        run(concat_blocks(mul_rows(a, b, n), i), st, ctx).limbs == st.limbs,
        seq_val(temps(run(concat_blocks(mul_rows(a, b, n), i), st, ctx).vars, i + n)) == seq_val(
            elem_limbs(a, st, ctx).take(i as int),
        ) * seq_val(elem_limbs(b, st, ctx).take(n as int)),
    decreases i,
{
    let k = (i - 1) as nat;
    lemma_run_blocks_succ(mul_rows(a, b, n), k, st, ctx);
    let sk = run(concat_blocks(mul_rows(a, b, n), k), st, ctx);
    if k > 0 {
        lemma_mul_rows(a, b, n, k, st, ctx);
    } else {
        assert(sk == st);
    }
    assert(mul_rows(a, b, n)(k) == mul_row(a, b, n, k));
    lemma_mul_row(a, b, n, k, sk, ctx);
    assert(elem_limbs(a, sk, ctx) == elem_limbs(a, st, ctx));
    assert(elem_limbs(b, sk, ctx) == elem_limbs(b, st, ctx));
    assert(k + n + 1 == i + n);
}

} // verus!
