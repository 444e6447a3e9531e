//! The squaring hands `mont_reduce` the square.
use vstd::prelude::*;
use crate::arith::{
    lemma_lo_hi, lemma_seq_val_bound, lemma_wpow_pos, lemma_mac_column, lemma_seq_val_take_succ, lemma_shift_word, lemma_wpow_add,
};
use crate::gen::{concat_blocks, sqr_col, sqr_diag, sqr_row, sqr_rows, sqr_shift, sqr_spec, temp};
use crate::ir::{
    Bind, Ctx, Elem, Rhs, State, Stmt, Term, Var, hi, lo, run, seq_val, set_var, step, word, wpow,
};
use crate::semantics::{
    elem_limbs, lemma_run_blocks_succ, lemma_run_concat, lemma_run_new_succ, lemma_run_one,
    lemma_temps_agree, lemma_temps_succ, lemma_temps_update, temps,
};

verus! {

/// The number in the first `m` limbs of `s`.
pub open spec fn low_val(s: Seq<u64>, m: nat) -> int {
    seq_val(s.take(m as int)) as int
}

/// The sum of the squares of the first `m` limbs, each at twice its place:
/// `sum a[t]^2 * 2^(128 t)`.
pub open spec fn sq_sum(s: Seq<u64>, m: nat) -> int
    decreases m,
{
    if m == 0 {
        0
    } else {
        sq_sum(s, (m - 1) as nat) + (s[m - 1] as int) * (s[m - 1] as int) * wpow(
            2 * (m - 1) as nat,
        )
    }
}

/// The sum of the products of two different limbs among the first `n`, with
/// the lower one among the first `m`: `sum a[t] * a[j] * 2^(64 (t + j))` over
/// `t < m`, `t < j < n`.
pub open spec fn cross_sum(s: Seq<u64>, n: nat, m: nat) -> int
    decreases m,
{
    if m == 0 {
        0
    } else {
        cross_sum(s, n, (m - 1) as nat) + (s[m - 1] as int) * (low_val(s, n) - low_val(s, m)) * wpow(
            (m - 1) as nat,
        )
    }
}

/// The square of a number is the sum of the squares of its limbs plus twice
/// the products of two different limbs.
#[verifier::spinoff_prover]
proof fn lemma_square_split(s: Seq<u64>, n: nat, m: nat)
    requires
        m <= n <= s.len(),
    ensures
        sq_sum(s, m) + 2 * cross_sum(s, n, m) + (low_val(s, n) - low_val(s, m)) * (low_val(s, n)
            - low_val(s, m)) == low_val(s, n) * low_val(s, n),
    decreases m,
{
    if m == 0 {
        assert(s.take(0) =~= Seq::<u64>::empty());
    } else {
        let h = (m - 1) as nat;
        lemma_square_split(s, n, h);
        lemma_seq_val_take_succ(s, h as int);
        lemma_wpow_add(h, h);
        assert(h + h == 2 * h);
        let x = s[h as int] as int;
        let w = wpow(h) as int;
        let b = low_val(s, n) - low_val(s, m);
        assert(low_val(s, n) - low_val(s, h) == b + x * w);
        assert(x * x * (w * w) + 2 * (x * b * w) + b * b == (b + x * w) * (b + x * w))
            by (nonlinear_arith);
    }
}

/// What row `i` of the cross products starts from, as far as it reads it:
/// row 0 reads only `r0` (which no row writes).
pub open spec fn sqr_base(i: nat, st: State, k: nat) -> int {
    if i == 0 {
        (st.vars)(Var::Temp(0)) as int
    } else {
        seq_val(temps(st.vars, k)) as int
    }
}

/// The state after one step of row `i` of the cross products.
proof fn lemma_sqr_col_step(a: Elem, i: nat, j: nat, s: State, ctx: Ctx)
    requires
        i + j <= usize::MAX,
    ensures
        ({
            let x: int = if i == 0 {
                0
            } else {
                (s.vars)(temp(i + j)) as int
            };
            let t = x + (elem_limbs(a, s, ctx)[i as int] as int) * (elem_limbs(a, s, ctx)[j as int] as int)
                + (s.vars)(Var::Carry) as int;
            step(sqr_col(a, i, j), s, ctx) == State {
                vars: set_var(set_var(s.vars, Var::Carry, hi(t)), temp(i + j), lo(t)),
                limbs: s.limbs,
            }
        }),
{
}

/// After `c` steps of row `i`, the words up to `2i + c` and the carry have
/// taken in `a[i] * (a[i+1] * 2^(64 (i+1)) + ... + a[i+c] * 2^(64 (i+c))) * 2^(64 i)`.
#[verifier::spinoff_prover]
proof fn lemma_sqr_row_cols(a: Elem, n: nat, i: nat, c: nat, st: State, ctx: Ctx)
    requires
        i + 1 < n,
        i + 1 + c <= n,
        n <= usize::MAX / 2,
        elem_limbs(a, st, ctx).len() >= n,
        (st.vars)(Var::Carry) == 0,
    ensures
        ({
            let sc = run(Seq::new(c, |jj: int| sqr_col(a, i, (i + 1 + jj) as nat)), st, ctx);
            let al = elem_limbs(a, st, ctx);
            &&& sc.limbs == st.limbs
            &&& forall|u: usize|
                (u < 2 * i + 1 || u >= 2 * i + 1 + c) ==> #[trigger] (sc.vars)(Var::Temp(u)) == (
                st.vars)(Var::Temp(u))
            &&& seq_val(temps(sc.vars, 2 * i + 1 + c)) + ((sc.vars)(Var::Carry) as int) * wpow(
                2 * i + 1 + c,
            ) == sqr_base(i, st, 2 * i + 1 + c) + (al[i as int] as int) * (low_val(al, i + 1 + c)
                - low_val(al, i + 1)) * (wpow(i) as int)
        }),
    decreases c,
{
    let f = |jj: int| sqr_col(a, i, (i + 1 + jj) as nat);
    let al = elem_limbs(a, st, ctx);
    let ai = al[i as int];
    if c == 0 {
        assert(run(Seq::new(0, f), st, ctx) == st);
        if i == 0 {
            lemma_temps_succ(st.vars, 0);
            assert(temps(st.vars, 0) =~= Seq::<u64>::empty());
            assert(wpow(0) == 1);
        }
        assert((ai as int) * 0 * (wpow(i) as int) == 0) by (nonlinear_arith);
        assert(Seq::new(0, f) == Seq::new(c, |jj: int| sqr_col(a, i, (i + 1 + jj) as nat)));
    } else {
        let k = (c - 1) as nat;
        lemma_sqr_row_cols(a, n, i, k, st, ctx);
        let sk = run(Seq::new(k, f), st, ctx);
        lemma_run_new_succ(f, k, st, ctx);
        let sc = run(Seq::new(c, f), st, ctx);
        let j = i + 1 + k;
        let p = 2 * i + 1 + k;
        assert(i + j == p);
        assert(f(k as int) == sqr_col(a, i, j));
        lemma_sqr_col_step(a, i, j, sk, ctx);
        let aj = al[j as int];
        let pu = p as usize;
        assert(temp(p) == Var::Temp(pu));
        let xs = (sk.vars)(Var::Temp(pu));
        let x: int = if i == 0 {
            0
        } else {
            xs as int
        };
        let cr = (sk.vars)(Var::Carry);
        let t = x + (ai as int) * (aj as int) + cr as int;
        assert(0 <= t < word() * word()) by (nonlinear_arith)
            requires
                0 <= x < word(),
                0 <= ai < word(),
                0 <= aj < word(),
                0 <= cr < word(),
                t == x + (ai as int) * (aj as int) + cr as int,
        ;
        lemma_lo_hi(t);
        assert(sc.vars == set_var(set_var(sk.vars, Var::Carry, hi(t)), Var::Temp(pu), lo(t)));
        assert forall|u: usize| u != pu implies #[trigger] (sc.vars)(Var::Temp(u)) == (sk.vars)(
            Var::Temp(u),
        ) by {}
        lemma_temps_agree(sc.vars, sk.vars, p);
        lemma_temps_succ(sc.vars, p);
        assert((st.vars)(Var::Temp(pu)) == xs);
        if i > 0 {
            lemma_temps_succ(st.vars, p);
        }
        assert(sqr_base(i, st, p + 1) == sqr_base(i, st, p) + x * wpow(p));
        lemma_seq_val_take_succ(al, j as int);
        lemma_wpow_add(i, j);
        assert(wpow(p + 1) == word() * wpow(p));
        assert(i + 1 + c == j + 1);
        lemma_mac_column(
            seq_val(temps(sk.vars, p)) as int,
            cr as int,
            sqr_base(i, st, p),
            x,
            ai as int,
            aj as int,
            low_val(al, j) - low_val(al, i + 1),
            wpow(i) as int,
            wpow(j) as int,
            lo(t) as int,
            hi(t) as int,
        );
        assert(Seq::new(c, f) == Seq::new(c, |jj: int| sqr_col(a, i, (i + 1 + jj) as nat)));
    }
}

/// Row `i` of the cross products adds `a[i] * (a[i+1..n] as a number) *
/// 2^(64 i)` to `r1 .. r{i+n}`; `r0` is left alone.
#[verifier::spinoff_prover]
proof fn lemma_sqr_row(a: Elem, n: nat, i: nat, st: State, ctx: Ctx)
    requires
        i + 1 < n,
        n <= usize::MAX / 2,
        elem_limbs(a, st, ctx).len() >= n,
        i > 0 ==> seq_val(temps(st.vars, i + n)) == (st.vars)(Var::Temp(0)) + cross_sum(
            elem_limbs(a, st, ctx),
            n,
            i,
        ),
    ensures
        ({
            let s2 = run(sqr_row(a, n, i), st, ctx);
            &&& s2.limbs == st.limbs
            &&& (s2.vars)(Var::Temp(0)) == (st.vars)(Var::Temp(0))
            &&& seq_val(temps(s2.vars, i + n + 1)) == (st.vars)(Var::Temp(0)) + cross_sum(
                elem_limbs(a, st, ctx),
                n,
                i + 1,
            )
        }),
{
    let first = Stmt::Assign(Bind::LetMut, Var::Carry, Rhs::Value(Term::Zero));
    let cols = Seq::new((n - i - 1) as nat, |jj: int| sqr_col(a, i, (i + 1 + jj) as nat));
    let last = Stmt::Assign(Bind::Let, temp(i + n), Rhs::Value(Term::Var(Var::Carry)));
    assert(sqr_row(a, n, i) =~= seq![first] + cols + seq![last]);
    lemma_run_concat(seq![first] + cols, seq![last], st, ctx);
    lemma_run_concat(seq![first], cols, st, ctx);
    lemma_run_one(first, st, ctx);
    let s1 = step(first, st, ctx);
    assert(forall|t: usize| #[trigger] (s1.vars)(Var::Temp(t)) == (st.vars)(Var::Temp(t)));
    let c = (n - i - 1) as nat;
    lemma_sqr_row_cols(a, n, i, c, s1, ctx);
    assert(Seq::new(c, |jj: int| sqr_col(a, i, (i + 1 + jj) as nat)) =~= cols);
    let sc = run(cols, s1, ctx);
    lemma_run_one(last, sc, ctx);
    let fin = step(last, sc, ctx);
    assert(run(sqr_row(a, n, i), st, ctx) == fin);
    assert(2 * i + 1 + c == i + n);
    let idx = (i + n) as usize;
    assert(temp(i + n) == Var::Temp(idx));
    assert forall|u: usize| u != idx implies #[trigger] (fin.vars)(Var::Temp(u)) == (sc.vars)(
        Var::Temp(u),
    ) by {}
    lemma_temps_agree(fin.vars, sc.vars, i + n);
    lemma_temps_succ(fin.vars, i + n);
    lemma_temps_agree(s1.vars, st.vars, i + n);
    assert(i + 1 + c == n);
    let al = elem_limbs(a, st, ctx);
    if i == 0 {
        assert(cross_sum(al, n, 0) == 0);
        assert(wpow(0) == 1);
    }
    assert(cross_sum(al, n, i + 1) == cross_sum(al, n, i) + (al[i as int] as int) * (low_val(al, n)
        - low_val(al, i + 1)) * wpow(i));
}

/// The first `i` rows of the cross products leave their sum in
/// `r1 .. r{i+n-1}`.
proof fn lemma_sqr_rows(a: Elem, n: nat, i: nat, st: State, ctx: Ctx)
    requires
        1 <= i < n,
        n <= usize::MAX / 2,
        elem_limbs(a, st, ctx).len() >= n,
    ensures
        ({
            let si = run(concat_blocks(sqr_rows(a, n), i), st, ctx);
            &&& si.limbs == st.limbs
            &&& (si.vars)(Var::Temp(0)) == (st.vars)(Var::Temp(0))
            &&& seq_val(temps(si.vars, i + n)) == (st.vars)(Var::Temp(0)) + cross_sum(
                elem_limbs(a, st, ctx),
                n,
                i,
            )
        }),
    decreases i,
{
    let h = (i - 1) as nat;
    lemma_run_blocks_succ(sqr_rows(a, n), h, st, ctx);
    let sh = run(concat_blocks(sqr_rows(a, n), h), st, ctx);
    if h > 0 {
        lemma_sqr_rows(a, n, h, st, ctx);
    } else {
        assert(sh == st);
    }
    assert(sqr_rows(a, n)(h) == sqr_row(a, n, h));
    lemma_sqr_row(a, n, h, sh, ctx);
    assert(elem_limbs(a, sh, ctx) == elem_limbs(a, st, ctx));
    assert(h + n + 1 == i + n);
}

/// The first `m` statements of the doubling (`1 <= m <= 2n - 2`), from the
/// top word down: above word `2n - m` the temporaries hold twice the old
/// `r{2n-m} .. r{2n-2}`, plus the top bit of `r{2n-m-1}` at word `2n - m`.
#[verifier::spinoff_prover]
proof fn lemma_sqr_shifts(n: nat, m: nat, s0: State, ctx: Ctx)
    requires
        2 <= n <= usize::MAX / 2,
        1 <= m <= 2 * n - 2,
    ensures
        ({
            let sm = run(Seq::new(m, |ii: int| sqr_shift(n, (ii + 1) as nat)), s0, ctx);
            let p = (2 * n - m) as nat;
            &&& sm.limbs == s0.limbs
            &&& forall|u: usize| u < p ==> #[trigger] (sm.vars)(Var::Temp(u)) == (s0.vars)(Var::Temp(u))
            &&& seq_val(temps(sm.vars, 2 * n)) == 2 * seq_val(temps(s0.vars, (2 * n - 1) as nat))
                - seq_val(temps(s0.vars, p)) + (((s0.vars)(Var::Temp((p - 1) as usize)) >> 63u64) as int)
                * wpow(p)
        }),
    decreases m,
{
    let f = |ii: int| sqr_shift(n, (ii + 1) as nat);
    let top = (2 * n - 1) as nat;
    if m == 1 {
        lemma_run_new_succ(f, 0, s0, ctx);
        assert(run(Seq::new(0, f), s0, ctx) == s0);
        let s1 = run(Seq::new(1, f), s0, ctx);
        let tu = top as usize;
        let bu = (top - 1) as usize;
        assert(f(0) == Stmt::Assign(Bind::Let, Var::Temp(tu), Rhs::Shr63(Var::Temp(bu))));
        let y = (s0.vars)(Var::Temp(bu));
        assert((s1.vars)(Var::Temp(tu)) == y >> 63u64);
        assert forall|u: usize| u != top implies #[trigger] (s1.vars)(Var::Temp(u)) == (s0.vars)(
            Var::Temp(u),
        ) by {}
        lemma_temps_update(s0.vars, s1.vars, top, 2 * n);
        lemma_temps_succ(s0.vars, top);
        assert(top + 1 == 2 * n);
        assert((top - 1) as usize == bu);
        assert(seq_val(temps(s1.vars, 2 * n)) == 2 * seq_val(temps(s0.vars, top))
                - seq_val(temps(s0.vars, top)) + ((y >> 63u64) as int) * wpow(top));
        assert(forall|u: usize| u < top ==> #[trigger] (s1.vars)(Var::Temp(u)) == (s0.vars)(Var::Temp(u)));
        assert(Seq::new(1, f) == Seq::new(m, |ii: int| sqr_shift(n, (ii + 1) as nat)));
    } else {
        let h = (m - 1) as nat;
        lemma_sqr_shifts(n, h, s0, ctx);
        lemma_run_new_succ(f, h, s0, ctx);
        let sh = run(Seq::new(h, f), s0, ctx);
        let sm = run(Seq::new(m, f), s0, ctx);
        let p = (2 * n - m) as nat;
        let pu = p as usize;
        let bu = (p - 1) as usize;
        assert(f(h as int) == Stmt::Assign(
            Bind::Let,
            Var::Temp(pu),
            Rhs::Shl1Or(Var::Temp(pu), Var::Temp(bu)),
        ));
        let x = (sh.vars)(Var::Temp(pu));
        let y = (sh.vars)(Var::Temp(bu));
        assert(x == (s0.vars)(Var::Temp(pu)));
        assert(y == (s0.vars)(Var::Temp(bu)));
        lemma_shift_word(x, y);
        assert((sm.vars)(Var::Temp(pu)) == ((x << 1u64) as u64) | (y >> 63u64));
        assert forall|u: usize| u != p implies #[trigger] (sm.vars)(Var::Temp(u)) == (sh.vars)(
            Var::Temp(u),
        ) by {}
        lemma_temps_update(sh.vars, sm.vars, p, 2 * n);
        lemma_temps_succ(s0.vars, p);
        assert(p + 1 == (2 * n - h) as nat);
        assert(wpow(p + 1) == word() * wpow(p));
        let w = wpow(p) as int;
        assert(((x >> 63u64) as int) * (word() * w) + (x << 1u64) as int * w - 2 * (x as int) * w
            == 0) by (nonlinear_arith)
            requires
                (x << 1u64) as int + ((x >> 63u64) as int) * word() == 2 * x,
        ;
        assert(((p + 1) - 1) as usize == pu);
        let nw = (((x << 1u64) as u64) | (y >> 63u64)) as int;
        assert(nw * w == (x << 1u64) as int * w + ((y >> 63u64) as int) * w) by (nonlinear_arith)
            requires
                nw == (x << 1u64) as int + (y >> 63u64) as int,
        ;
        assert(((x >> 63u64) as int) * wpow(p + 1) == ((x >> 63u64) as int) * (word() * w));
        let old = seq_val(temps(s0.vars, (2 * n - 1) as nat)) as int;
        assert(2 * (x as int) * w == 2 * ((x as int) * w)) by (nonlinear_arith);
        assert(seq_val(temps(sh.vars, 2 * n)) == 2 * old - seq_val(temps(s0.vars, p + 1)) + ((x >> 63u64) as int) * wpow(p + 1));
        assert(seq_val(temps(sm.vars, 2 * n)) + (x as int) * w == seq_val(temps(sh.vars, 2 * n)) + nw * w);
        assert(seq_val(temps(s0.vars, p + 1)) == seq_val(temps(s0.vars, p)) + (x as int) * w);
        assert(forall|u: usize| u < p ==> #[trigger] (sm.vars)(Var::Temp(u)) == (s0.vars)(Var::Temp(u)));
        assert(seq_val(temps(sm.vars, 2 * n)) == 2 * seq_val(temps(s0.vars, (2 * n - 1) as nat))
                - seq_val(temps(s0.vars, p)) + (((s0.vars)(Var::Temp((p - 1) as usize)) >> 63u64) as int)
                * wpow(p));
        assert(Seq::new(m, f) == Seq::new(m, |ii: int| sqr_shift(n, (ii + 1) as nat)));
    }
}

/// The doubling as a whole: `r1 .. r{2n-1}` end up holding twice what
/// `r1 .. r{2n-2}` held; `r0` is left alone.
#[verifier::spinoff_prover]
proof fn lemma_sqr_double(n: nat, s0: State, ctx: Ctx)
    requires
        2 <= n <= usize::MAX / 2,
    ensures
        ({
            let sf = run(Seq::new((2 * n - 1) as nat, |ii: int| sqr_shift(n, (ii + 1) as nat)), s0, ctx);
            &&& sf.limbs == s0.limbs
            &&& (sf.vars)(Var::Temp(0)) == (s0.vars)(Var::Temp(0))
            &&& seq_val(temps(sf.vars, 2 * n)) == 2 * seq_val(temps(s0.vars, (2 * n - 1) as nat)) - (
            s0.vars)(Var::Temp(0))
        }),
{
    let f = |ii: int| sqr_shift(n, (ii + 1) as nat);
    let h = (2 * n - 2) as nat;
    lemma_sqr_shifts(n, h, s0, ctx);
    lemma_run_new_succ(f, h, s0, ctx);
    let sh = run(Seq::new(h, f), s0, ctx);
    let sf = run(Seq::new(h + 1, f), s0, ctx);
    assert(h + 1 == (2 * n - 1) as nat);
    assert(f(h as int) == Stmt::Assign(Bind::Let, Var::Temp(1), Rhs::Shl1(Var::Temp(1))));
    let x = (sh.vars)(Var::Temp(1));
    assert(x == (s0.vars)(Var::Temp(1)));
    lemma_shift_word(x, 0);
    assert(forall|u: usize| u != 1 ==> #[trigger] (sf.vars)(Var::Temp(u)) == (sh.vars)(Var::Temp(u)));
    lemma_temps_update(sh.vars, sf.vars, 1, 2 * n);
    lemma_temps_succ(s0.vars, 1);
    lemma_temps_succ(s0.vars, 0);
    assert(temps(s0.vars, 0) =~= Seq::<u64>::empty());
    assert(wpow(0) == 1);
    assert(wpow(1) == word());
    assert(wpow(2) == word() * word());
    assert((2 * n - h) as nat == 2);
    assert(((x >> 63u64) as int) * (word() * word()) + (x << 1u64) as int * word() - 2 * (x as int)
        * word() == 0) by (nonlinear_arith)
        requires
            (x << 1u64) as int + ((x >> 63u64) as int) * word() == 2 * x,
    ;
    assert(Seq::new(h + 1, f) =~= Seq::new((2 * n - 1) as nat, |ii: int| sqr_shift(n, (ii + 1) as nat)));
}

/// What the adding of the squares starts from, as far as it reads it: the
/// temporaries below word `2i`, except `r0`, which it reads as zero.
pub open spec fn diag_base(i: nat, d0: State) -> int {
    if i == 0 {
        0
    } else {
        seq_val(temps(d0.vars, 2 * i)) - (d0.vars)(Var::Temp(0))
    }
}

/// One square and its carry, in numbers.
proof fn lemma_diag_step(
    s: int,
    c: int,
    base: int,
    x: int,
    y: int,
    sq: int,
    wp: int,
    l: int,
    h: int,
    l2: int,
    h2: int,
)
    requires
        s + c * wp == base,
        l + h * word() == x + sq + c,
        l2 + h2 * word() == y + h,
    ensures
        (s + l * wp) + l2 * (word() * wp) + h2 * (word() * (word() * wp)) == base + x * wp + y * (
        word() * wp) + sq * wp,
{
    assert(l2 * (word() * wp) + h2 * (word() * (word() * wp)) == (l2 + h2 * word()) * (word() * wp))
        by (nonlinear_arith);
    assert((y + h) * (word() * wp) == y * (word() * wp) + h * word() * wp) by (nonlinear_arith);
    assert(l * wp + h * word() * wp == (l + h * word()) * wp) by (nonlinear_arith);
    assert((x + sq + c) * wp == x * wp + sq * wp + c * wp) by (nonlinear_arith);
}

/// The start of the adding of the squares, one pair of words further.
proof fn lemma_diag_base_succ(h: nat, d0: State)
    requires
        2 * h + 1 <= usize::MAX,
    ensures
        ({
            let p = 2 * h;
            let x: int = if h == 0 {
                0
            } else {
                (d0.vars)(Var::Temp(p as usize)) as int
            };
            diag_base(h + 1, d0) == diag_base(h, d0) + x * wpow(p) + ((d0.vars)(Var::Temp((p + 1) as usize))
                as int) * wpow(p + 1)
        }),
{
    let p = 2 * h;
    let q = p + 1;
    lemma_temps_succ(d0.vars, p);
    lemma_temps_succ(d0.vars, q);
    assert(2 * (h + 1) == q + 1);
    let a = seq_val(temps(d0.vars, p)) as int;
    let xs = (d0.vars)(Var::Temp(p as usize)) as int;
    let y = (d0.vars)(Var::Temp(q as usize)) as int;
    assert(seq_val(temps(d0.vars, 2 * (h + 1))) == a + xs * wpow(p) + y * wpow(q));
    if h == 0 {
        assert(temps(d0.vars, 0) =~= Seq::<u64>::empty());
        assert(a == 0);
        assert(wpow(0) == 1);
        assert(xs * wpow(0) == xs) by (nonlinear_arith)
            requires
                wpow(0) == 1,
        ;
        assert(diag_base(0, d0) == 0);
    } else {
        assert(diag_base(h, d0) == a - (d0.vars)(Var::Temp(0)));
    }
}

/// After the first `i` squares (`2i` statements), the words below `2i` and
/// the carry hold what they held (with `r0` as zero) plus the squares of the
/// first `i` limbs, each at twice its place.
#[verifier::spinoff_prover]
proof fn lemma_sqr_diags(a: Elem, n: nat, i: nat, d0: State, ctx: Ctx)
    requires
        i <= n <= usize::MAX / 2,
        elem_limbs(a, d0, ctx).len() >= n,
        (d0.vars)(Var::Carry) == 0,
    ensures
        ({
            let si = run(Seq::new(2 * i, |k: int| sqr_diag(a, k as nat)), d0, ctx);
            &&& si.limbs == d0.limbs
            &&& forall|u: usize| u >= 2 * i ==> #[trigger] (si.vars)(Var::Temp(u)) == (d0.vars)(Var::Temp(u))
            &&& seq_val(temps(si.vars, 2 * i)) + ((si.vars)(Var::Carry) as int) * wpow(2 * i)
                == diag_base(i, d0) + sq_sum(elem_limbs(a, d0, ctx), i)
        }),
    decreases i,
{
    let f = |k: int| sqr_diag(a, k as nat);
    let al = elem_limbs(a, d0, ctx);
    if i == 0 {
        assert(run(Seq::new(0, f), d0, ctx) == d0);
        assert(temps(d0.vars, 0) =~= Seq::<u64>::empty());
        assert(Seq::new(0, f) == Seq::new(2 * i, |k: int| sqr_diag(a, k as nat)));
    } else {
        let h = (i - 1) as nat;
        lemma_sqr_diags(a, n, h, d0, ctx);
        let p = 2 * h;
        let q = p + 1;
        lemma_run_new_succ(f, p, d0, ctx);
        lemma_run_new_succ(f, q, d0, ctx);
        assert(q + 1 == 2 * i);
        let sh = run(Seq::new(p, f), d0, ctx);
        let sa = run(Seq::new(q, f), d0, ctx);
        let sb = run(Seq::new(2 * i, f), d0, ctx);
        let pu = p as usize;
        let qu = q as usize;
        assert(p / 2 == h);
        assert(q / 2 == h);
        assert(temp(p) == Var::Temp(pu));
        assert(temp(2 * h + 1) == Var::Temp(qu));
        let ah = al[h as int];
        let xs = (sh.vars)(Var::Temp(pu));
        let x: int = if h == 0 {
            0
        } else {
            xs as int
        };
        let c = (sh.vars)(Var::Carry);
        let t = x + (ah as int) * (ah as int) + c as int;
        assert(0 <= t < word() * word()) by (nonlinear_arith)
            requires
                0 <= x < word(),
                0 <= ah < word(),
                0 <= c < word(),
                t == x + (ah as int) * (ah as int) + c as int,
        ;
        lemma_lo_hi(t);
        assert(f(p as int) == sqr_diag(a, p));
        assert(sa.vars == set_var(set_var(sh.vars, Var::Carry, hi(t)), Var::Temp(pu), lo(t)));
        let y = (sa.vars)(Var::Temp(qu));
        assert(y == (d0.vars)(Var::Temp(qu)));
        let t2 = y as int + hi(t) as int;
        lemma_lo_hi(t2);
        assert(f(q as int) == sqr_diag(a, q));
        assert(sb.vars == set_var(set_var(sa.vars, Var::Carry, hi(t2)), Var::Temp(qu), lo(t2)));
        assert forall|u: usize| u != pu implies #[trigger] (sa.vars)(Var::Temp(u)) == (sh.vars)(
            Var::Temp(u),
        ) by {}
        assert forall|u: usize| u != qu implies #[trigger] (sb.vars)(Var::Temp(u)) == (sa.vars)(
            Var::Temp(u),
        ) by {}
        lemma_temps_agree(sa.vars, sh.vars, p);
        lemma_temps_succ(sa.vars, p);
        lemma_temps_agree(sb.vars, sa.vars, q);
        lemma_temps_succ(sb.vars, q);
        assert(y == (d0.vars)(Var::Temp(qu)));
        lemma_diag_base_succ(h, d0);
        if h > 0 {
            assert(xs == (d0.vars)(Var::Temp(pu)));
        }
        assert(diag_base(i, d0) == diag_base(h, d0) + x * wpow(p) + (y as int) * wpow(q));
        assert(wpow(q) == word() * wpow(p));
        assert(wpow(2 * i) == word() * wpow(q));
        assert(2 * h == p);
        lemma_diag_step(
            seq_val(temps(sh.vars, p)) as int,
            c as int,
            diag_base(h, d0) + sq_sum(al, h),
            x,
            y as int,
            (ah as int) * (ah as int),
            wpow(p) as int,
            lo(t) as int,
            hi(t) as int,
            lo(t2) as int,
            hi(t2) as int,
        );
        assert(Seq::new(2 * i, f) == Seq::new(2 * i, |k: int| sqr_diag(a, k as nat)));
    }
}

/// The squaring that the generator writes for `n >= 2` limbs leaves in
/// `r0 .. r{2n-1}`, which it passes to `mont_reduce`, the square of the number
/// in the first `n` limbs of `a`, whatever the state it starts from.
#[verifier::spinoff_prover]
pub proof fn theorem_sqr_square(a: Elem, n: nat, st: State, ctx: Ctx)
    requires
        2 <= n <= usize::MAX / 2,
        elem_limbs(a, st, ctx).len() >= n,
    ensures
        run(sqr_spec(a, n), st, ctx).limbs == st.limbs,
        seq_val(temps(run(sqr_spec(a, n), st, ctx).vars, 2 * n)) == seq_val(
            elem_limbs(a, st, ctx).take(n as int),
        ) * seq_val(elem_limbs(a, st, ctx).take(n as int)),
{
    let al = elem_limbs(a, st, ctx);
    let rows = concat_blocks(sqr_rows(a, n), (n - 1) as nat);
    let shifts = Seq::new((2 * n - 1) as nat, |ii: int| sqr_shift(n, (ii + 1) as nat));
    let zero = Stmt::Assign(Bind::LetMut, Var::Carry, Rhs::Value(Term::Zero));
    let diags = Seq::new(2 * n, |k: int| sqr_diag(a, k as nat));
    let call = Stmt::MontReduceCall((2 * n) as usize);
    assert(sqr_spec(a, n) =~= rows + shifts + seq![zero] + diags + seq![call]);
    // The cross products.
    lemma_sqr_rows(a, n, (n - 1) as nat, st, ctx);
    let s1 = run(rows, st, ctx);
    let g0 = (st.vars)(Var::Temp(0));
    assert((n - 1) as nat + n == (2 * n - 1) as nat);
    // The doubling.
    lemma_sqr_double(n, s1, ctx);
    lemma_run_concat(rows, shifts, st, ctx);
    let s2 = run(shifts, s1, ctx);
    // The squares.
    lemma_run_concat(rows + shifts, seq![zero], st, ctx);
    lemma_run_one(zero, s2, ctx);
    let s3 = step(zero, s2, ctx);
    assert(forall|u: usize| #[trigger] (s3.vars)(Var::Temp(u)) == (s2.vars)(Var::Temp(u)));
    lemma_temps_agree(s3.vars, s2.vars, 2 * n);
    lemma_sqr_diags(a, n, n, s3, ctx);
    assert(Seq::new(2 * n, |k: int| sqr_diag(a, k as nat)) =~= diags);
    lemma_run_concat(rows + shifts + seq![zero], diags, st, ctx);
    let s4 = run(diags, s3, ctx);
    lemma_run_concat(rows + shifts + seq![zero] + diags, seq![call], st, ctx);
    lemma_run_one(call, s4, ctx);
    let fin = run(sqr_spec(a, n), st, ctx);
    assert(fin == s4);
    // The numbers.
    let av = low_val(al, n);
    assert((al[n - 1] as int) * (low_val(al, n) - low_val(al, n)) * wpow((n - 1) as nat) == 0)
        by (nonlinear_arith);
    assert(cross_sum(al, n, n) == cross_sum(al, n, (n - 1) as nat));
    lemma_square_split(al, n, n);
    assert(diag_base(n, s3) == 2 * cross_sum(al, n, (n - 1) as nat));
    let c = (s4.vars)(Var::Carry) as int;
    let v = seq_val(temps(s4.vars, 2 * n)) as int;
    assert(v + c * wpow(2 * n) == av * av);
    lemma_seq_val_bound(al.take(n as int));
    lemma_wpow_add(n, n);
    assert(n + n == 2 * n);
    let w = wpow(n) as int;
    assert(av * av < w * w) by (nonlinear_arith)
        requires
            0 <= av < w,
    ;
    lemma_wpow_pos(2 * n);
    assert(c == 0) by (nonlinear_arith)
        requires
            v + c * wpow(2 * n) < wpow(2 * n),
            v >= 0,
            c >= 0,
    ;
    assert(c * wpow(2 * n) == 0) by (nonlinear_arith)
        requires
            c == 0,
    ;
    assert(v == av * av);
}

} // verus!
