//! Which variables the emitted code reads and binds, and that the squaring
//! binds each one before it reads it.
use vstd::prelude::*;
use crate::gen::{
    cios_mul_step, cios_red_step, cios_row, cios_rows, cios_spec, concat_blocks, mont_col, mont_row,
    mont_rows, mont_spec, mont_stores, mul_col, mul_default_spec, mul_row, mul_rows, no_carry_inner,
    no_carry_mul_step, no_carry_prelude, no_carry_red_step, no_carry_row, no_carry_rows,
    no_carry_spec, sqr_col, sqr_diag, sqr_row, sqr_rows, sqr_shift, sqr_spec, store_and_reduce,
    temp, tv,
};
use crate::ir::{Bind, Elem, Rhs, Stmt, Term, Var};

verus! {

/// The term reads the variable `v`.
pub open spec fn term_uses(t: Term, v: Var) -> bool {
    t == Term::Var(v)
}

/// The right-hand side reads `v`, or writes it through a `&mut` argument.
pub open spec fn rhs_uses(r: Rhs, v: Var) -> bool {
    match r {
        Rhs::Mac(a, b, c, k) => term_uses(a, v) || term_uses(b, v) || term_uses(c, v) || k == v,
        Rhs::MacSimple(a, b, c, k) => term_uses(a, v) || term_uses(b, v) || term_uses(c, v) || k == v,
        Rhs::MacD(a, b, c, d, k) => term_uses(a, v) || term_uses(b, v) || term_uses(c, v)
            || term_uses(d, v) || k == v,
        Rhs::MacE(a, b, c, d, e, k) => term_uses(a, v) || term_uses(b, v) || term_uses(c, v)
            || term_uses(d, v) || term_uses(e, v) || k == v,
        Rhs::Adc(a, b, k) => term_uses(a, v) || term_uses(b, v) || k == v,
        Rhs::MulInv(x) => x == v,
        Rhs::Value(t) => term_uses(t, v),
        Rhs::Shr63(x) => x == v,
        Rhs::Shl1(x) => x == v,
        Rhs::Shl1Or(x, y) => x == v || y == v,
    }
}

/// The statement needs `v` to be bound before it: it reads `v`, writes it
/// through `&mut`, or assigns it without `let`.
pub open spec fn stmt_uses(s: Stmt, v: Var) -> bool {
    match s {
        Stmt::Assign(bind, x, r) => rhs_uses(r, v) || (bind == Bind::Plain && x == v),
        Stmt::Eval(r) => rhs_uses(r, v),
        Stmt::StoreLimb(_, x) => x == v,
        Stmt::Reduce => false,
        Stmt::MontReduceCall(c) => exists|t: usize| t < c && v == Var::Temp(t),
    }
}

/// The statement binds `v` with `let` or `let mut`.
pub open spec fn stmt_binds(s: Stmt, v: Var) -> bool {
    match s {
        Stmt::Assign(Bind::Let, x, _) => x == v,
        Stmt::Assign(Bind::LetMut, x, _) => x == v,
        _ => false,
    }
}

/// Every variable that a statement of `p` needs is in `pre` (bound before
/// the code, as a parameter) or bound by an earlier statement of `p`.
pub open spec fn bound_before_use(p: Seq<Stmt>, pre: Set<Var>) -> bool {
    forall|i: int, v: Var|
        0 <= i < p.len() && #[trigger] stmt_uses(p[i], v) ==> pre.contains(v) || exists|j: int|
            0 <= j < i && #[trigger] stmt_binds(p[j], v)
}

/// The variables that some statement of `p` binds.
pub open spec fn bound_by(p: Seq<Stmt>) -> Set<Var> {
    Set::new(|v: Var| exists|j: int| 0 <= j < p.len() && #[trigger] stmt_binds(p[j], v))
}

/// Code that needs only what is bound before it.
proof fn lemma_uses_in_pre(p: Seq<Stmt>, pre: Set<Var>)
    requires
        forall|i: int, v: Var| 0 <= i < p.len() && #[trigger] stmt_uses(p[i], v) ==> pre.contains(v),
    ensures
        bound_before_use(p, pre),
{
}

/// Two pieces in a row: the second may use what the first binds.
proof fn lemma_concat(p: Seq<Stmt>, q: Seq<Stmt>, pre: Set<Var>)
    requires
        bound_before_use(p, pre),
        bound_before_use(q, pre + bound_by(p)),
    ensures
        bound_before_use(p + q, pre),
        bound_by(p + q) == bound_by(p) + bound_by(q),
{
    let pq = p + q;
    assert forall|i: int, v: Var| 0 <= i < pq.len() && #[trigger] stmt_uses(pq[i], v) implies pre.contains(v)
        || exists|j: int| 0 <= j < i && #[trigger] stmt_binds(pq[j], v) by {
        if i < p.len() {
            assert(pq[i] == p[i]);
            if !pre.contains(v) {
                let j = choose|j: int| 0 <= j < i && #[trigger] stmt_binds(p[j], v);
                assert(pq[j] == p[j]);
            }
        } else {
            let ii = i - p.len();
            assert(pq[i] == q[ii]);
            if !pre.contains(v) {
                if bound_by(p).contains(v) {
                    let j = choose|j: int| 0 <= j < p.len() && #[trigger] stmt_binds(p[j], v);
                    assert(pq[j] == p[j]);
                } else {
                    let j = choose|j: int| 0 <= j < ii && #[trigger] stmt_binds(q[j], v);
                    assert(pq[j + p.len()] == q[j]);
                }
            }
        }
    }
    assert forall|v: Var| #[trigger] bound_by(pq).contains(v) == (bound_by(p) + bound_by(q)).contains(v) by {
        if bound_by(pq).contains(v) {
            let j = choose|j: int| 0 <= j < pq.len() && #[trigger] stmt_binds(pq[j], v);
            if j < p.len() {
                assert(pq[j] == p[j]);
            } else {
                assert(pq[j] == q[j - p.len()]);
            }
        }
        if bound_by(p).contains(v) {
            let j = choose|j: int| 0 <= j < p.len() && #[trigger] stmt_binds(p[j], v);
            assert(pq[j] == p[j]);
        }
        if bound_by(q).contains(v) {
            let j = choose|j: int| 0 <= j < q.len() && #[trigger] stmt_binds(q[j], v);
            assert(pq[j + p.len()] == q[j]);
        }
    }
    assert(bound_by(pq) =~= bound_by(p) + bound_by(q));
}

/// Row `m` of the squaring needs only `carry`, which it binds first, and,
/// from row 1 on, the temporaries `r{2m+1} .. r{m+n-1}`; it binds
/// `r{2m+1} .. r{m+n}`.
proof fn lemma_sqr_row(a: Elem, n: nat, m: nat, pre: Set<Var>)
    requires
        2 <= n <= usize::MAX / 2,
        m + 1 < n,
        m >= 1 ==> forall|t: nat| 2 * m + 1 <= t <= m + n - 1 ==> #[trigger] pre.contains(temp(t)),
    ensures
        bound_before_use(sqr_row(a, n, m), pre),
        forall|t: nat| 2 * m + 1 <= t <= m + n ==> #[trigger] bound_by(sqr_row(a, n, m)).contains(temp(t)),
{
    let row = sqr_row(a, n, m);
    let cnt = (n - m - 1) as nat;
    let first = Stmt::Assign(Bind::LetMut, Var::Carry, Rhs::Value(Term::Zero));
    let last = Stmt::Assign(Bind::Let, temp(m + n), Rhs::Value(Term::Var(Var::Carry)));
    let cols = Seq::new(cnt, |jj: int| sqr_col(a, m, (m + 1 + jj) as nat));
    assert(row == seq![first] + cols + seq![last]);
    assert(row.len() == cnt + 2);
    assert(row[0] == first);
    assert(stmt_binds(row[0], Var::Carry));
    assert forall|i: int, v: Var| 0 <= i < row.len() && #[trigger] stmt_uses(row[i], v) implies pre.contains(v)
        || exists|j: int| 0 <= j < i && #[trigger] stmt_binds(row[j], v) by {
        if i == 0 {
            assert(!stmt_uses(first, v));
        } else if i == row.len() - 1 {
            assert(row[i] == last);
            assert(v == Var::Carry);
        } else {
            let jj = i - 1;
            assert(row[i] == cols[jj]);
            let j = (m + 1 + jj) as nat;
            assert(row[i] == sqr_col(a, m, j));
            if v != Var::Carry {
                assert(m >= 1 && v == temp(m + j));
                assert(pre.contains(temp(m + j)));
            }
        }
    }
    assert forall|t: nat| 2 * m + 1 <= t <= m + n implies #[trigger] bound_by(row).contains(temp(t)) by {
        if t == m + n {
            assert(row[row.len() - 1] == last);
            assert(stmt_binds(row[row.len() - 1], temp(t)));
        } else {
            let jj = t - 2 * m - 1;
            assert(row[jj + 1] == cols[jj]);
            assert(row[jj + 1] == sqr_col(a, m, (m + 1 + jj) as nat));
            assert(m + (m + 1 + jj) == t);
            assert(stmt_binds(row[jj + 1], temp(t)));
        }
    }
}

/// The first `m` rows of the squaring bind `r1 .. r{m+n-1}` and need
/// nothing from before them.
proof fn lemma_sqr_rows(a: Elem, n: nat, m: nat)
    requires
        2 <= n <= usize::MAX / 2,
        m < n,
    ensures
        bound_before_use(concat_blocks(sqr_rows(a, n), m), Set::empty()),
        m >= 1 ==> forall|t: nat| 1 <= t <= m + n - 1 ==> #[trigger] bound_by(
            concat_blocks(sqr_rows(a, n), m),
        ).contains(temp(t)),
    decreases m,
{
    if m == 0 {
        assert(concat_blocks(sqr_rows(a, n), 0) == Seq::<Stmt>::empty());
    } else {
        let h = (m - 1) as nat;
        lemma_sqr_rows(a, n, h);
        let before = concat_blocks(sqr_rows(a, n), h);
        let pre = Set::<Var>::empty() + bound_by(before);
        lemma_sqr_row(a, n, h, pre);
        assert(concat_blocks(sqr_rows(a, n), m) == before + sqr_row(a, n, h));
        lemma_concat(before, sqr_row(a, n, h), Set::empty());
        assert forall|t: nat| 1 <= t <= m + n - 1 implies #[trigger] bound_by(
            concat_blocks(sqr_rows(a, n), m),
        ).contains(temp(t)) by {
            if t < 2 * h + 1 {
                assert(bound_by(before).contains(temp(t)));
            }
        }
    }
}

/// The squaring that the generator writes for two limbs or more binds every
/// variable before it reads it.
pub proof fn theorem_sqr_bound_before_use(a: Elem, n: nat)
    requires
        2 <= n <= usize::MAX / 2,
    ensures
        bound_before_use(sqr_spec(a, n), Set::empty()),
{
    let rows = concat_blocks(sqr_rows(a, n), (n - 1) as nat);
    let shifts = Seq::new((2 * n - 1) as nat, |ii: int| sqr_shift(n, (ii + 1) as nat));
    let zero = seq![Stmt::Assign(Bind::LetMut, Var::Carry, Rhs::Value(Term::Zero))];
    let diags = Seq::new(2 * n, |k: int| sqr_diag(a, k as nat));
    let call = seq![Stmt::MontReduceCall((2 * n) as usize)];
    assert(sqr_spec(a, n) == rows + shifts + zero + diags + call);
    lemma_sqr_rows(a, n, (n - 1) as nat);
    let s1 = Set::<Var>::empty() + bound_by(rows);
    // The doubling reads r1 .. r{2n-2}, which the rows bind.
    assert forall|i: int, v: Var| 0 <= i < shifts.len() && #[trigger] stmt_uses(shifts[i], v) implies s1.contains(
        v,
    ) by {
        let k = (i + 1) as nat;
        assert(shifts[i] == sqr_shift(n, k));
        if k == 1 {
            assert(v == temp((2 * n - 2) as nat));
        } else if k == 2 * n - 1 {
            assert(v == temp(1));
        } else {
            assert(v == temp((2 * n - k) as nat) || v == temp((2 * n - k - 1) as nat));
        }
        let t = choose|t: nat| 1 <= t <= 2 * n - 2 && v == temp(t);
        assert(bound_by(rows).contains(temp(t)));
    }
    lemma_uses_in_pre(shifts, s1);
    lemma_concat(rows, shifts, Set::empty());
    let p2 = rows + shifts;
    assert(shifts[0] == sqr_shift(n, 1));
    assert(stmt_binds(shifts[0], temp((2 * n - 1) as nat)));
    assert(bound_by(shifts).contains(temp((2 * n - 1) as nat)));
    lemma_uses_in_pre(zero, Set::<Var>::empty() + bound_by(p2));
    lemma_concat(p2, zero, Set::empty());
    let p3 = p2 + zero;
    assert(stmt_binds(zero[0], Var::Carry));
    assert(bound_by(zero).contains(Var::Carry));
    let s3 = Set::<Var>::empty() + bound_by(p3);
    assert forall|t: nat| 1 <= t <= 2 * n - 1 implies #[trigger] s3.contains(temp(t)) by {
        if t <= 2 * n - 2 {
            assert(bound_by(rows).contains(temp(t)));
        }
    }
    // The squares read carry and r1 .. r{2n-1}.
    assert forall|i: int, v: Var| 0 <= i < diags.len() && #[trigger] stmt_uses(diags[i], v) implies s3.contains(
        v,
    ) by {
        let k = i as nat;
        assert(diags[i] == sqr_diag(a, k));
        if v != Var::Carry {
            if k % 2 == 0 {
                assert(v == temp(k));
                assert(k >= 2);
            } else {
                assert(v == temp(k));
            }
            assert(s3.contains(temp(k)));
        }
    }
    lemma_uses_in_pre(diags, s3);
    lemma_concat(p3, diags, Set::empty());
    let p4 = p3 + diags;
    assert(diags[0] == sqr_diag(a, 0));
    assert(stmt_binds(diags[0], temp(0)));
    assert(bound_by(diags).contains(temp(0)));
    let s4 = Set::<Var>::empty() + bound_by(p4);
    assert forall|i: int, v: Var| 0 <= i < call.len() && #[trigger] stmt_uses(call[i], v) implies s4.contains(v) by {
        let t = choose|t: usize| t < 2 * n && v == Var::Temp(t);
        if t == 0 {
            assert(temp(0) == v);
        } else {
            assert(temp(t as nat) == v);
            assert(s3.contains(temp(t as nat)));
        }
    }
    lemma_uses_in_pre(call, s4);
    lemma_concat(p4, call, Set::empty());
}

/// For one limb the squaring reads `r0` before binding it: its first
/// statement is `let r1 = r0 >> 63;`.
pub proof fn theorem_sqr_one_limb_unbound(a: Elem)
    ensures
        !bound_before_use(sqr_spec(a, 1), Set::empty()),
{
    let p = sqr_spec(a, 1);
    let rows = concat_blocks(sqr_rows(a, 1), 0);
    assert(rows == Seq::<Stmt>::empty());
    let shifts = Seq::new(1, |ii: int| sqr_shift(1, (ii + 1) as nat));
    assert(p[0] == shifts[0]);
    assert(p[0] == Stmt::Assign(Bind::Let, temp(1), Rhs::Shr63(temp(0))));
    assert(stmt_uses(p[0], temp(0)));
}

/// A single statement that needs only what is in `pre`.
proof fn lemma_single(st: Stmt, pre: Set<Var>)
    requires
        forall|v: Var| #[trigger] stmt_uses(st, v) ==> pre.contains(v),
    ensures
        bound_before_use(seq![st], pre),
        forall|v: Var| stmt_binds(st, v) ==> #[trigger] bound_by(seq![st]).contains(v),
{
    assert forall|v: Var| stmt_binds(st, v) implies #[trigger] bound_by(seq![st]).contains(v) by {
        assert(seq![st][0] == st);
    }
}

/// A piece appended after code that is bound before use, needing only what
/// is in `pre` or bound by that code.
proof fn lemma_then(p: Seq<Stmt>, q: Seq<Stmt>, pre: Set<Var>)
    requires
        bound_before_use(p, pre),
        forall|i: int, v: Var|
            0 <= i < q.len() && #[trigger] stmt_uses(q[i], v) ==> pre.contains(v) || bound_by(p).contains(v),
    ensures
        bound_before_use(p + q, pre),
        forall|v: Var| bound_by(p).contains(v) ==> #[trigger] bound_by(p + q).contains(v),
        forall|v: Var| bound_by(q).contains(v) ==> #[trigger] bound_by(p + q).contains(v),
{
    lemma_uses_in_pre(q, pre + bound_by(p));
    lemma_concat(p, q, pre);
}

/// Blocks in a row, each needing only what is in `pre` or bound by the
/// blocks before it.
proof fn lemma_blocks(f: spec_fn(nat) -> Seq<Stmt>, m: nat, pre: Set<Var>)
    requires
        forall|i: nat| i < m ==> bound_before_use(#[trigger] f(i), pre + bound_by(concat_blocks(f, i))),
    ensures
        bound_before_use(concat_blocks(f, m), pre),
    decreases m,
{
    if m == 0 {
        assert(concat_blocks(f, 0) == Seq::<Stmt>::empty());
    } else {
        let h = (m - 1) as nat;
        lemma_blocks(f, h, pre);
        assert(concat_blocks(f, m) == concat_blocks(f, h) + f(h));
        lemma_concat(concat_blocks(f, h), f(h), pre);
    }
}

/// What a block binds stays bound after the later blocks.
proof fn lemma_bound_by_blocks(f: spec_fn(nat) -> Seq<Stmt>, m: nat, k: nat, v: Var)
    requires
        k < m,
        bound_by(f(k)).contains(v),
    ensures
        bound_by(concat_blocks(f, m)).contains(v),
    decreases m,
{
    let h = (m - 1) as nat;
    let before = concat_blocks(f, h);
    assert(concat_blocks(f, m) == before + f(h));
    let pq = before + f(h);
    if k == h {
        let j = choose|j: int| 0 <= j < f(h).len() && #[trigger] stmt_binds(f(h)[j], v);
        assert(pq[j + before.len()] == f(h)[j]);
    } else {
        lemma_bound_by_blocks(f, h, k, v);
        let j = choose|j: int| 0 <= j < before.len() && #[trigger] stmt_binds(before[j], v);
        assert(pq[j] == before[j]);
    }
}

/// The schoolbook multiplication for one limb or more binds every variable
/// before it reads it.
pub proof fn theorem_mul_default_bound_before_use(a: Elem, b: Elem, n: nat)
    requires
        1 <= n <= usize::MAX / 2,
    ensures
        bound_before_use(mul_default_spec(a, b, n), Set::empty()),
{
    let f = mul_rows(a, b, n);
    let pre = Set::<Var>::empty();
    // Row i binds r{i} .. r{i+n}.
    assert forall|i: nat, t: nat| i < n && i <= t <= i + n implies #[trigger] bound_by(f(i)).contains(
        temp(t),
    ) by {
        let row = mul_row(a, b, n, i);
        if t == i + n {
            assert(row[n as int + 1] == Stmt::Assign(Bind::Let, temp(i + n), Rhs::Value(Term::Var(Var::Carry))));
            assert(stmt_binds(row[n as int + 1], temp(t)));
        } else {
            let j = t - i;
            assert(row[j + 1] == mul_col(a, b, i, j as nat));
            assert(stmt_binds(row[j + 1], temp(t)));
        }
    }
    assert forall|i: nat| i < n implies bound_before_use(#[trigger] f(i), pre + bound_by(concat_blocks(f, i)))
        by {
        let row = mul_row(a, b, n, i);
        let s = pre + bound_by(concat_blocks(f, i));
        assert(stmt_binds(row[0], Var::Carry));
        assert forall|ii: int, v: Var| 0 <= ii < row.len() && #[trigger] stmt_uses(row[ii], v) implies s.contains(v)
            || exists|j: int| 0 <= j < ii && #[trigger] stmt_binds(row[j], v) by {
            if ii >= 1 && ii <= n && v != Var::Carry {
                let j = (ii - 1) as nat;
                assert(row[ii] == mul_col(a, b, i, j));
                assert(i >= 1 && v == temp(i + j));
                lemma_bound_by_blocks(f, i, (i - 1) as nat, temp(i + j));
            }
        }
    }
    lemma_blocks(f, n, pre);
    let rows = concat_blocks(f, n);
    let call = seq![Stmt::MontReduceCall((2 * n) as usize)];
    assert forall|ii: int, v: Var| 0 <= ii < call.len() && #[trigger] stmt_uses(call[ii], v) implies pre.contains(
        v,
    ) || bound_by(rows).contains(v) by {
        let t = choose|t: usize| t < 2 * n && v == Var::Temp(t);
        let k: nat = if t < n { t as nat } else { (t - n) as nat };
        assert(temp(t as nat) == v);
        lemma_bound_by_blocks(f, n, k, temp(t as nat));
    }
    lemma_then(rows, call, pre);
}

/// The CIOS multiplication binds every variable before it reads it.
pub proof fn theorem_cios_bound_before_use(a: Elem, b: Elem, n: nat)
    requires
        1 <= n <= usize::MAX / 2,
    ensures
        bound_before_use(cios_spec(a, b, n), Set::empty()),
{
    let pre = Set::<Var>::empty();
    let prelude = Seq::new(n + 1, |i: int| Stmt::Assign(Bind::LetMut, temp(i as nat), Rhs::Value(Term::Zero)));
    lemma_uses_in_pre(prelude, pre);
    assert forall|t: nat| t <= n implies #[trigger] bound_by(prelude).contains(temp(t)) by {
        assert(stmt_binds(prelude[t as int], temp(t)));
    }
    let tmps = pre + bound_by(prelude);
    let f = cios_rows(a, b, n);
    assert forall|i: nat| i < n implies bound_before_use(#[trigger] f(i), tmps + bound_by(concat_blocks(f, i)))
        by {
        lemma_cios_row(a, b, n, i, tmps + bound_by(concat_blocks(f, i)));
    }
    lemma_blocks(f, n, tmps);
    let rows = concat_blocks(f, n);
    lemma_concat(prelude, rows, pre);
    let p2 = prelude + rows;
    let fin = store_and_reduce(n);
    assert forall|ii: int, v: Var| 0 <= ii < fin.len() && #[trigger] stmt_uses(fin[ii], v) implies pre.contains(v)
        || bound_by(p2).contains(v) by {
        assert(v == temp(ii as nat));
        assert(tmps.contains(temp(ii as nat)));
    }
    lemma_then(p2, fin, pre);
    assert(cios_spec(a, b, n) == p2 + fin);
}

/// Row `i` of CIOS needs only `r0 .. r{n}` from before it.
proof fn lemma_cios_row(a: Elem, b: Elem, n: nat, i: nat, pre: Set<Var>)
    requires
        1 <= n <= usize::MAX / 2,
        forall|t: nat| t <= n ==> #[trigger] pre.contains(temp(t)),
    ensures
        bound_before_use(cios_row(a, b, n, i), pre),
{
    let s0 = Stmt::Assign(Bind::LetMut, Var::Carry, Rhs::Value(Term::Zero));
    let s1 = Stmt::Assign(
        Bind::Plain,
        temp(0),
        Rhs::MacSimple(if i == 0 { Term::Zero } else { tv(0) }, Term::Limb(b, i as usize), Term::Limb(a, 0), Var::Carry),
    );
    let muls = Seq::new((n - 1) as nat, |jj: int| cios_mul_step(a, b, i, (jj + 1) as nat));
    let sd = Stmt::Assign(Bind::LetMut, Var::D, Rhs::Value(Term::Var(Var::Carry)));
    let sm = Stmt::Assign(Bind::LetMut, Var::M, Rhs::MacSimple(Term::Zero, tv(0), Term::Inv, Var::Carry));
    let se = Stmt::Eval(Rhs::MacSimple(tv(0), Term::Var(Var::M), Term::Modulus(0), Var::Carry));
    let reds = Seq::new((n - 1) as nat, |jj: int| cios_red_step(n, (jj + 1) as nat));
    let sl = Stmt::Assign(
        Bind::Plain,
        temp((n - 1) as nat),
        Rhs::MacSimple(Term::Var(Var::D), Term::Var(Var::Carry), Term::One, temp(n)),
    );
    assert(cios_row(a, b, n, i) == seq![s0, s1] + muls + seq![sd, sm, se] + reds + seq![sl]);
    let p0 = seq![s0];
    lemma_single(s0, pre);
    assert(bound_by(p0).contains(Var::Carry));
    assert(pre.contains(temp(0)));
    lemma_then(p0, seq![s1], pre);
    let p1 = p0 + seq![s1];
    assert(p1 == seq![s0, s1]);
    assert forall|ii: int, v: Var| 0 <= ii < muls.len() && #[trigger] stmt_uses(muls[ii], v) implies pre.contains(v)
        || bound_by(p1).contains(v) by {
        let j = (ii + 1) as nat;
        assert(muls[ii] == cios_mul_step(a, b, i, j));
        if v != Var::Carry {
            assert(v == temp(j));
        }
    }
    lemma_then(p1, muls, pre);
    let p2 = p1 + muls;
    lemma_then(p2, seq![sd], pre);
    let p3 = p2 + seq![sd];
    lemma_single(sd, pre + bound_by(p2));
    assert(bound_by(seq![sd]).contains(Var::D));
    lemma_then(p3, seq![sm], pre);
    let p4 = p3 + seq![sm];
    lemma_single(sm, pre + bound_by(p3));
    assert(bound_by(seq![sm]).contains(Var::M));
    lemma_then(p4, seq![se], pre);
    let p5 = p4 + seq![se];
    assert forall|ii: int, v: Var| 0 <= ii < reds.len() && #[trigger] stmt_uses(reds[ii], v) implies pre.contains(v)
        || bound_by(p5).contains(v) by {
        let j = (ii + 1) as nat;
        assert(reds[ii] == cios_red_step(n, j));
        if v != Var::Carry && v != Var::M {
            assert(v == temp((j - 1) as nat) || v == temp(j) || v == temp(n));
        }
    }
    lemma_then(p5, reds, pre);
    let p6 = p5 + reds;
    lemma_then(p6, seq![sl], pre);
    assert(seq![s0, s1] + muls + seq![sd, sm, se] + reds + seq![sl] == p6 + seq![sl]);
}

/// The multiplication without a carry word binds every variable before it
/// reads it.
pub proof fn theorem_no_carry_bound_before_use(a: Elem, b: Elem, n: nat)
    requires
        1 <= n <= usize::MAX / 2,
    ensures
        bound_before_use(no_carry_spec(a, b, n), Set::empty()),
{
    let pre = Set::<Var>::empty();
    let prelude = no_carry_prelude(n);
    lemma_uses_in_pre(prelude, pre);
    assert forall|t: nat| t < n implies #[trigger] bound_by(prelude).contains(temp(t)) by {
        assert(stmt_binds(prelude[t as int + 4], temp(t)));
    }
    assert(stmt_binds(prelude[0], Var::C));
    assert(stmt_binds(prelude[1], Var::C0));
    assert(stmt_binds(prelude[2], Var::C1));
    assert(stmt_binds(prelude[3], Var::C2));
    let ps = pre + bound_by(prelude);
    let f = no_carry_rows(a, b, n);
    assert forall|i: nat| i < n implies bound_before_use(#[trigger] f(i), ps + bound_by(concat_blocks(f, i)))
        by {
        lemma_no_carry_row(a, b, n, i, ps + bound_by(concat_blocks(f, i)));
    }
    lemma_blocks(f, n, ps);
    let rows = concat_blocks(f, n);
    lemma_concat(prelude, rows, pre);
    let p2 = prelude + rows;
    let fin = store_and_reduce(n);
    assert forall|ii: int, v: Var| 0 <= ii < fin.len() && #[trigger] stmt_uses(fin[ii], v) implies pre.contains(v)
        || bound_by(p2).contains(v) by {
        assert(v == temp(ii as nat));
        assert(ps.contains(temp(ii as nat)));
    }
    lemma_then(p2, fin, pre);
    assert(no_carry_spec(a, b, n) == p2 + fin);
}

/// Row `i` of the multiplication without a carry word needs only `c`, `c0`,
/// `c1`, `c2` and `r0 .. r{n-1}` from before it.
proof fn lemma_no_carry_row(a: Elem, b: Elem, n: nat, i: nat, pre: Set<Var>)
    requires
        1 <= n <= usize::MAX / 2,
        forall|t: nat| t < n ==> #[trigger] pre.contains(temp(t)),
        pre.contains(Var::C),
        pre.contains(Var::C0),
        pre.contains(Var::C1),
        pre.contains(Var::C2),
    ensures
        bound_before_use(no_carry_row(a, b, n, i), pre),
{
    let sv = Stmt::Assign(Bind::LetMut, Var::V, Rhs::Value(Term::Limb(a, i as usize)));
    let s1 = Stmt::Assign(
        Bind::Plain,
        Var::C0,
        Rhs::MacSimple(if i == 0 { Term::Zero } else { tv(0) }, Term::Var(Var::V), Term::Limb(b, 0), Var::C1),
    );
    let sm = Stmt::Assign(Bind::LetMut, Var::M, Rhs::MulInv(Var::C0));
    let s3 = Stmt::Assign(
        Bind::Plain,
        Var::C,
        Rhs::MacSimple(Term::Var(Var::C0), Term::Var(Var::M), Term::Modulus(0), Var::C2),
    );
    let inner = Seq::new((2 * (n - 1)) as nat, |k: int| no_carry_inner(b, n, i, k as nat));
    assert(no_carry_row(a, b, n, i) == seq![sv, s1, sm, s3] + inner);
    let p0 = seq![sv];
    lemma_single(sv, pre);
    assert(bound_by(p0).contains(Var::V));
    assert(pre.contains(temp(0)));
    lemma_then(p0, seq![s1], pre);
    let p1 = p0 + seq![s1];
    lemma_then(p1, seq![sm], pre);
    let p2 = p1 + seq![sm];
    lemma_single(sm, pre + bound_by(p1));
    assert(bound_by(seq![sm]).contains(Var::M));
    lemma_then(p2, seq![s3], pre);
    let p3 = p2 + seq![s3];
    assert(p3 == seq![sv, s1, sm, s3]);
    assert forall|ii: int, v: Var| 0 <= ii < inner.len() && #[trigger] stmt_uses(inner[ii], v) implies pre.contains(
        v,
    ) || bound_by(p3).contains(v) by {
        let k = ii as nat;
        let j = k / 2 + 1;
        assert(inner[ii] == no_carry_inner(b, n, i, k));
        if k % 2 == 0 {
            assert(inner[ii] == no_carry_mul_step(b, i, j));
            if v != Var::V && v != Var::C0 && v != Var::C1 {
                assert(v == temp(j));
            }
        } else {
            assert(inner[ii] == no_carry_red_step(n, j));
            if v != Var::M && v != Var::C0 && v != Var::C1 && v != Var::C2 {
                assert(v == temp((j - 1) as nat) || v == temp((n - 1) as nat));
            }
        }
    }
    lemma_then(p3, inner, pre);
}

/// The Montgomery reduction binds every variable before it reads it, its
/// parameters `r0 .. r{2n-1}` being bound on entry.
pub proof fn theorem_mont_bound_before_use(n: nat)
    requires
        1 <= n <= usize::MAX / 2,
    ensures
        bound_before_use(mont_spec(n), Set::new(|v: Var| exists|t: usize| t < 2 * n && v == Var::Temp(t))),
{
    let pre = Set::new(|v: Var| exists|t: usize| t < 2 * n && v == Var::Temp(t));
    assert forall|t: nat| t < 2 * n implies #[trigger] pre.contains(temp(t)) by {
        assert(temp(t) == Var::Temp(t as usize));
    }
    let f = mont_rows(n);
    assert forall|i: nat| i < n implies bound_before_use(#[trigger] f(i), pre + bound_by(concat_blocks(f, i))) by {
        if i >= 1 {
            let h = (i - 1) as nat;
            let prev = mont_row(n, h);
            let last = Stmt::Assign(Bind::Let, Var::Carry2, Rhs::Value(Term::Var(Var::Carry)));
            assert(prev[prev.len() - 1] == last);
            assert(stmt_binds(prev[prev.len() - 1], Var::Carry2));
            lemma_bound_by_blocks(f, i, h, Var::Carry2);
        }
        lemma_mont_row(n, i, pre + bound_by(concat_blocks(f, i)));
    }
    lemma_blocks(f, n, pre);
    let rows = concat_blocks(f, n);
    let stores = mont_stores(n);
    assert forall|ii: int, v: Var| 0 <= ii < stores.len() && #[trigger] stmt_uses(stores[ii], v) implies pre.contains(
        v,
    ) || bound_by(rows).contains(v) by {
        assert(v == temp(n + ii as nat));
    }
    lemma_then(rows, stores, pre);
}

/// Row `i` of the reduction needs only the parameters and, from row 1 on,
/// `carry2` from before it.
proof fn lemma_mont_row(n: nat, i: nat, pre: Set<Var>)
    requires
        1 <= n <= usize::MAX / 2,
        i < n,
        forall|t: nat| t < 2 * n ==> #[trigger] pre.contains(temp(t)),
        i >= 1 ==> pre.contains(Var::Carry2),
    ensures
        bound_before_use(mont_row(n, i), pre),
{
    let sk = Stmt::Assign(Bind::Let, Var::K, Rhs::MulInv(temp(i)));
    let sc = Stmt::Assign(Bind::LetMut, Var::Carry, Rhs::Value(Term::Zero));
    let se = Stmt::Eval(Rhs::Mac(tv(i), Term::Var(Var::K), Term::Modulus(0), Var::Carry));
    let cols = Seq::new((n - 1) as nat, |jj: int| mont_col(i, (jj + 1) as nat));
    let sa = Stmt::Assign(
        Bind::Plain,
        temp(i + n),
        Rhs::Adc(tv(i + n), if i == 0 { Term::Zero } else { Term::Var(Var::Carry2) }, Var::Carry),
    );
    let tail = if i + 1 != n {
        seq![Stmt::Assign(Bind::Let, Var::Carry2, Rhs::Value(Term::Var(Var::Carry)))]
    } else {
        Seq::<Stmt>::empty()
    };
    assert(mont_row(n, i) == seq![sk, sc, se] + cols + seq![sa] + tail);
    assert(pre.contains(temp(i)));
    let p0 = seq![sk];
    lemma_single(sk, pre);
    assert(bound_by(p0).contains(Var::K));
    lemma_then(p0, seq![sc], pre);
    let p1 = p0 + seq![sc];
    lemma_single(sc, pre + bound_by(p0));
    assert(bound_by(seq![sc]).contains(Var::Carry));
    lemma_then(p1, seq![se], pre);
    let p2 = p1 + seq![se];
    assert(p2 == seq![sk, sc, se]);
    assert forall|ii: int, v: Var| 0 <= ii < cols.len() && #[trigger] stmt_uses(cols[ii], v) implies pre.contains(v)
        || bound_by(p2).contains(v) by {
        let j = (ii + 1) as nat;
        assert(cols[ii] == mont_col(i, j));
        if v != Var::K && v != Var::Carry {
            assert(v == temp(i + j));
        }
    }
    lemma_then(p2, cols, pre);
    let p3 = p2 + cols;
    assert(pre.contains(temp(i + n)));
    lemma_then(p3, seq![sa], pre);
    let p4 = p3 + seq![sa];
    assert forall|ii: int, v: Var| 0 <= ii < tail.len() && #[trigger] stmt_uses(tail[ii], v) implies pre.contains(v)
        || bound_by(p4).contains(v) by {
        assert(v == Var::Carry);
    }
    lemma_then(p4, tail, pre);
}

/// The right-hand side writes `v` through its `&mut` argument.
pub open spec fn rhs_writes(r: Rhs, v: Var) -> bool {
    match r {
        Rhs::Mac(_, _, _, k) => k == v,
        Rhs::MacSimple(_, _, _, k) => k == v,
        Rhs::MacD(_, _, _, _, k) => k == v,
        Rhs::MacE(_, _, _, _, _, k) => k == v,
        Rhs::Adc(_, _, k) => k == v,
        _ => false,
    }
}

/// The statement writes `v`: it assigns `v` without `let`, or hands it on as
/// `&mut`.
pub open spec fn stmt_writes(s: Stmt, v: Var) -> bool {
    match s {
        Stmt::Assign(bind, x, r) => (bind == Bind::Plain && x == v) || rhs_writes(r, v),
        Stmt::Eval(r) => rhs_writes(r, v),
        _ => false,
    }
}

/// The statement binds `v` with `let mut`.
pub open spec fn stmt_binds_mut(s: Stmt, v: Var) -> bool {
    match s {
        Stmt::Assign(Bind::LetMut, x, _) => x == v,
        _ => false,
    }
}

/// Every variable that `p` writes is mutable where it is written: each
/// binding of it before the write is a `let mut`, and where no binding comes
/// before, it is a `mut` parameter (in `pre_mut`). Then the latest binding
/// before each write, the one that the write refers to, is mutable.
pub open spec fn writes_mutable(p: Seq<Stmt>, pre_mut: Set<Var>) -> bool {
    forall|i: int, v: Var|
        0 <= i < p.len() && #[trigger] stmt_writes(p[i], v) ==> (pre_mut.contains(v) || exists|j: int|
            0 <= j < i && #[trigger] stmt_binds(p[j], v)) && forall|j: int|
            0 <= j < i && #[trigger] stmt_binds(p[j], v) ==> stmt_binds_mut(p[j], v)
}

/// The statement writes only variables in `w`, and binds those only with
/// `let mut`.
pub open spec fn writes_within(s: Stmt, w: spec_fn(Var) -> bool) -> bool {
    &&& forall|v: Var| #[trigger] stmt_writes(s, v) ==> w(v)
    &&& forall|v: Var| #[trigger] stmt_binds(s, v) && w(v) ==> stmt_binds_mut(s, v)
}

/// Every statement of `p` writes only in `w` and binds it only mutably.
pub open spec fn all_write_within(p: Seq<Stmt>, w: spec_fn(Var) -> bool) -> bool {
    forall|k: int| 0 <= k < p.len() ==> writes_within(#[trigger] p[k], w)
}

proof fn lemma_all_concat(p: Seq<Stmt>, q: Seq<Stmt>, w: spec_fn(Var) -> bool)
    requires
        all_write_within(p, w),
        all_write_within(q, w),
    ensures
        all_write_within(p + q, w),
{
    assert forall|k: int| 0 <= k < (p + q).len() implies writes_within(#[trigger] (p + q)[k], w) by {
        if k < p.len() {
            assert((p + q)[k] == p[k]);
        } else {
            assert((p + q)[k] == q[k - p.len()]);
        }
    }
}

proof fn lemma_all_blocks(f: spec_fn(nat) -> Seq<Stmt>, m: nat, w: spec_fn(Var) -> bool)
    requires
        forall|i: nat| i < m ==> all_write_within(#[trigger] f(i), w),
    ensures
        all_write_within(concat_blocks(f, m), w),
    decreases m,
{
    if m == 0 {
        assert(concat_blocks(f, 0) == Seq::<Stmt>::empty());
    } else {
        let h = (m - 1) as nat;
        lemma_all_blocks(f, h, w);
        assert(concat_blocks(f, m) == concat_blocks(f, h) + f(h));
        lemma_all_concat(concat_blocks(f, h), f(h), w);
    }
}

/// Code that binds before use, writes only in `w` and binds that only with
/// `let mut`, with every parameter in `w` a `mut` parameter, writes only
/// mutable variables.
proof fn lemma_writes_mutable(p: Seq<Stmt>, pre: Set<Var>, pre_mut: Set<Var>, w: spec_fn(Var) -> bool)
    requires
        bound_before_use(p, pre),
        all_write_within(p, w),
        forall|v: Var| pre.contains(v) && w(v) ==> #[trigger] pre_mut.contains(v),
    ensures
        writes_mutable(p, pre_mut),
{
    assert forall|i: int, v: Var| 0 <= i < p.len() && #[trigger] stmt_writes(p[i], v) implies (pre_mut.contains(v)
        || exists|j: int| 0 <= j < i && #[trigger] stmt_binds(p[j], v)) && forall|j: int|
        0 <= j < i && #[trigger] stmt_binds(p[j], v) ==> stmt_binds_mut(p[j], v) by {
        assert(writes_within(p[i], w));
        assert(w(v));
        assert(stmt_uses(p[i], v));
        assert forall|j: int| 0 <= j < i && #[trigger] stmt_binds(p[j], v) implies stmt_binds_mut(p[j], v) by {
            assert(writes_within(p[j], w));
        }
    }
}

/// The squaring, from two limbs on, writes only `carry`, and only where it is
/// a `let mut`.
pub proof fn theorem_sqr_writes_mutable(a: Elem, n: nat)
    requires
        2 <= n <= usize::MAX / 2,
    ensures
        writes_mutable(sqr_spec(a, n), Set::empty()),
{
    let w = |v: Var| v == Var::Carry;
    let f = sqr_rows(a, n);
    assert forall|i: nat| i < n - 1 implies all_write_within(#[trigger] f(i), w) by {
        let row = sqr_row(a, n, i);
        assert forall|k: int| 0 <= k < row.len() implies writes_within(#[trigger] row[k], w) by {
            if k >= 1 && k < row.len() - 1 {
                assert(row[k] == sqr_col(a, i, (i + 1 + (k - 1)) as nat));
            }
        }
    }
    lemma_all_blocks(f, (n - 1) as nat, w);
    let rows = concat_blocks(f, (n - 1) as nat);
    let shifts = Seq::new((2 * n - 1) as nat, |ii: int| sqr_shift(n, (ii + 1) as nat));
    let zero = seq![Stmt::Assign(Bind::LetMut, Var::Carry, Rhs::Value(Term::Zero))];
    let diags = Seq::new(2 * n, |k: int| sqr_diag(a, k as nat));
    let call = seq![Stmt::MontReduceCall((2 * n) as usize)];
    assert forall|k: int| 0 <= k < shifts.len() implies writes_within(#[trigger] shifts[k], w) by {
        assert(shifts[k] == sqr_shift(n, (k + 1) as nat));
    }
    assert forall|k: int| 0 <= k < diags.len() implies writes_within(#[trigger] diags[k], w) by {
        assert(diags[k] == sqr_diag(a, k as nat));
    }
    assert(writes_within(zero[0], w));
    assert(writes_within(call[0], w));
    lemma_all_concat(rows, shifts, w);
    lemma_all_concat(rows + shifts, zero, w);
    lemma_all_concat(rows + shifts + zero, diags, w);
    lemma_all_concat(rows + shifts + zero + diags, call, w);
    assert(sqr_spec(a, n) == rows + shifts + zero + diags + call);
    theorem_sqr_bound_before_use(a, n);
    lemma_writes_mutable(sqr_spec(a, n), Set::empty(), Set::empty(), w);
}

/// The schoolbook multiplication writes only `carry`, and only where it is a
/// `let mut`.
pub proof fn theorem_mul_default_writes_mutable(a: Elem, b: Elem, n: nat)
    requires
        1 <= n <= usize::MAX / 2,
    ensures
        writes_mutable(mul_default_spec(a, b, n), Set::empty()),
{
    let w = |v: Var| v == Var::Carry;
    let f = mul_rows(a, b, n);
    assert forall|i: nat| i < n implies all_write_within(#[trigger] f(i), w) by {
        let row = mul_row(a, b, n, i);
        assert forall|k: int| 0 <= k < row.len() implies writes_within(#[trigger] row[k], w) by {
            if k >= 1 && k < row.len() - 1 {
                assert(row[k] == mul_col(a, b, i, (k - 1) as nat));
            }
        }
    }
    lemma_all_blocks(f, n, w);
    let call = seq![Stmt::MontReduceCall((2 * n) as usize)];
    assert(writes_within(call[0], w));
    lemma_all_concat(concat_blocks(f, n), call, w);
    theorem_mul_default_bound_before_use(a, b, n);
    lemma_writes_mutable(mul_default_spec(a, b, n), Set::empty(), Set::empty(), w);
}

/// Stores and the final reduction write no variable.
proof fn lemma_store_and_reduce_within(n: nat, w: spec_fn(Var) -> bool)
    ensures
        all_write_within(store_and_reduce(n), w),
{
    let fin = store_and_reduce(n);
    assert forall|k: int| 0 <= k < fin.len() implies writes_within(#[trigger] fin[k], w) by {
        if k < n {
            assert(fin[k] == Stmt::StoreLimb(k as usize, temp(k as nat)));
        } else {
            assert(fin[k] == Stmt::Reduce);
        }
    }
}

/// CIOS binds every variable with `let mut`, so each one that it writes is
/// mutable.
pub proof fn theorem_cios_writes_mutable(a: Elem, b: Elem, n: nat)
    requires
        1 <= n <= usize::MAX / 2,
    ensures
        writes_mutable(cios_spec(a, b, n), Set::empty()),
{
    let w = |v: Var| true;
    let prelude = Seq::new(n + 1, |i: int| Stmt::Assign(Bind::LetMut, temp(i as nat), Rhs::Value(Term::Zero)));
    assert forall|k: int| 0 <= k < prelude.len() implies writes_within(#[trigger] prelude[k], w) by {}
    let f = cios_rows(a, b, n);
    assert forall|i: nat| i < n implies all_write_within(#[trigger] f(i), w) by {
        let row = cios_row(a, b, n, i);
        let m = (n - 1) as nat;
        assert forall|k: int| 0 <= k < row.len() implies writes_within(#[trigger] row[k], w) by {
            if 2 <= k < 2 + m {
                assert(row[k] == cios_mul_step(a, b, i, (k - 1) as nat));
            } else if 5 + m <= k < 5 + 2 * m {
                assert(row[k] == cios_red_step(n, (k - 4 - m) as nat));
            }
        }
    }
    lemma_all_blocks(f, n, w);
    lemma_all_concat(prelude, concat_blocks(f, n), w);
    lemma_store_and_reduce_within(n, w);
    lemma_all_concat(prelude + concat_blocks(f, n), store_and_reduce(n), w);
    assert(cios_spec(a, b, n) == prelude + concat_blocks(f, n) + store_and_reduce(n));
    theorem_cios_bound_before_use(a, b, n);
    lemma_writes_mutable(cios_spec(a, b, n), Set::empty(), Set::empty(), w);
}

/// The multiplication without a carry word binds every variable with
/// `let mut`, so each one that it writes is mutable.
pub proof fn theorem_no_carry_writes_mutable(a: Elem, b: Elem, n: nat)
    requires
        1 <= n <= usize::MAX / 2,
    ensures
        writes_mutable(no_carry_spec(a, b, n), Set::empty()),
{
    let w = |v: Var| true;
    let prelude = no_carry_prelude(n);
    assert forall|k: int| 0 <= k < prelude.len() implies writes_within(#[trigger] prelude[k], w) by {}
    let f = no_carry_rows(a, b, n);
    assert forall|i: nat| i < n implies all_write_within(#[trigger] f(i), w) by {
        let row = no_carry_row(a, b, n, i);
        assert forall|k: int| 0 <= k < row.len() implies writes_within(#[trigger] row[k], w) by {
            if k >= 4 {
                let kk = (k - 4) as nat;
                assert(row[k] == no_carry_inner(b, n, i, kk));
                if kk % 2 == 0 {
                    assert(row[k] == no_carry_mul_step(b, i, kk / 2 + 1));
                } else {
                    assert(row[k] == no_carry_red_step(n, kk / 2 + 1));
                }
            }
        }
    }
    lemma_all_blocks(f, n, w);
    lemma_all_concat(prelude, concat_blocks(f, n), w);
    lemma_store_and_reduce_within(n, w);
    lemma_all_concat(prelude + concat_blocks(f, n), store_and_reduce(n), w);
    assert(no_carry_spec(a, b, n) == prelude + concat_blocks(f, n) + store_and_reduce(n));
    theorem_no_carry_bound_before_use(a, b, n);
    lemma_writes_mutable(no_carry_spec(a, b, n), Set::empty(), Set::empty(), w);
}

/// The Montgomery reduction writes `carry`, which it binds with `let mut`,
/// and its parameters `r1 .. r{2n-1}`, never `r0`: the parameters that
/// `prime_field_impl` declares `mut`.
pub proof fn theorem_mont_writes_mutable(n: nat)
    requires
        1 <= n <= usize::MAX / 2,
    ensures
        writes_mutable(mont_spec(n), Set::new(|v: Var| exists|t: usize| 1 <= t < 2 * n && v == Var::Temp(t))),
{
    let w = |v: Var| v == Var::Carry || exists|t: usize| 1 <= t < 2 * n && v == Var::Temp(t);
    let f = mont_rows(n);
    assert forall|i: nat| i < n implies all_write_within(#[trigger] f(i), w) by {
        let row = mont_row(n, i);
        let m = (n - 1) as nat;
        assert forall|k: int| 0 <= k < row.len() implies writes_within(#[trigger] row[k], w) by {
            if 3 <= k < 3 + m {
                let j = (k - 2) as nat;
                assert(row[k] == mont_col(i, j));
                assert(temp(i + j) == Var::Temp((i + j) as usize));
            } else if k == 3 + m {
                assert(temp(i + n) == Var::Temp((i + n) as usize));
            }
        }
    }
    lemma_all_blocks(f, n, w);
    let stores = mont_stores(n);
    assert forall|k: int| 0 <= k < stores.len() implies writes_within(#[trigger] stores[k], w) by {}
    lemma_all_concat(concat_blocks(f, n), stores, w);
    theorem_mont_bound_before_use(n);
    let pre = Set::new(|v: Var| exists|t: usize| t < 2 * n && v == Var::Temp(t));
    let pre_mut = Set::new(|v: Var| exists|t: usize| 1 <= t < 2 * n && v == Var::Temp(t));
    assert forall|v: Var| pre.contains(v) && w(v) implies #[trigger] pre_mut.contains(v) by {}
    lemma_writes_mutable(mont_spec(n), pre, pre_mut, w);
}

/// The statement, if it calls `mont_reduce`, hands it `c` words.
pub open spec fn calls_mont_with(s: Stmt, c: nat) -> bool {
    match s {
        Stmt::MontReduceCall(k) => k == c,
        _ => true,
    }
}

/// Every call of `mont_reduce` in `p` hands it `c` words.
pub open spec fn all_calls_with(p: Seq<Stmt>, c: nat) -> bool {
    forall|k: int| 0 <= k < p.len() ==> calls_mont_with(#[trigger] p[k], c)
}

proof fn lemma_calls_concat(p: Seq<Stmt>, q: Seq<Stmt>, c: nat)
    requires
        all_calls_with(p, c),
        all_calls_with(q, c),
    ensures
        all_calls_with(p + q, c),
{
    assert forall|k: int| 0 <= k < (p + q).len() implies calls_mont_with(#[trigger] (p + q)[k], c) by {
        if k < p.len() {
            assert((p + q)[k] == p[k]);
        } else {
            assert((p + q)[k] == q[k - p.len()]);
        }
    }
}

proof fn lemma_calls_blocks(f: spec_fn(nat) -> Seq<Stmt>, m: nat, c: nat)
    requires
        forall|i: nat| i < m ==> all_calls_with(#[trigger] f(i), c),
    ensures
        all_calls_with(concat_blocks(f, m), c),
    decreases m,
{
    if m == 0 {
        assert(concat_blocks(f, 0) == Seq::<Stmt>::empty());
    } else {
        let h = (m - 1) as nat;
        lemma_calls_blocks(f, h, c);
        assert(concat_blocks(f, m) == concat_blocks(f, h) + f(h));
        lemma_calls_concat(concat_blocks(f, h), f(h), c);
    }
}

/// The squaring and the schoolbook multiplication call `mont_reduce` with
/// `2n` words, as many as it has parameters (`r0 .. r{2n-1}`).
pub proof fn theorem_mont_calls_match(a: Elem, b: Elem, n: nat)
    requires
        1 <= n <= usize::MAX / 2,
    ensures
        all_calls_with(mul_default_spec(a, b, n), 2 * n),
        n >= 2 ==> all_calls_with(sqr_spec(a, n), 2 * n),
        exists|k: int| 0 <= k < mul_default_spec(a, b, n).len() && #[trigger] mul_default_spec(a, b, n)[k]
            is MontReduceCall,
{
    let c = 2 * n;
    let f = mul_rows(a, b, n);
    assert forall|i: nat| i < n implies all_calls_with(#[trigger] f(i), c) by {
        let row = mul_row(a, b, n, i);
        assert forall|k: int| 0 <= k < row.len() implies calls_mont_with(#[trigger] row[k], c) by {
            if k >= 1 && k < row.len() - 1 {
                assert(row[k] == mul_col(a, b, i, (k - 1) as nat));
            }
        }
    }
    lemma_calls_blocks(f, n, c);
    let call = seq![Stmt::MontReduceCall((2 * n) as usize)];
    assert(calls_mont_with(call[0], c));
    lemma_calls_concat(concat_blocks(f, n), call, c);
    let md = mul_default_spec(a, b, n);
    assert(md[md.len() - 1] == Stmt::MontReduceCall((2 * n) as usize));
    if n >= 2 {
        let g = sqr_rows(a, n);
        assert forall|i: nat| i < n - 1 implies all_calls_with(#[trigger] g(i), c) by {
            let row = sqr_row(a, n, i);
            assert forall|k: int| 0 <= k < row.len() implies calls_mont_with(#[trigger] row[k], c) by {
                if k >= 1 && k < row.len() - 1 {
                    assert(row[k] == sqr_col(a, i, (i + 1 + (k - 1)) as nat));
                }
            }
        }
        lemma_calls_blocks(g, (n - 1) as nat, c);
        let rows = concat_blocks(g, (n - 1) as nat);
        let shifts = Seq::new((2 * n - 1) as nat, |ii: int| sqr_shift(n, (ii + 1) as nat));
        let zero = seq![Stmt::Assign(Bind::LetMut, Var::Carry, Rhs::Value(Term::Zero))];
        let diags = Seq::new(2 * n, |k: int| sqr_diag(a, k as nat));
        assert forall|k: int| 0 <= k < shifts.len() implies calls_mont_with(#[trigger] shifts[k], c) by {
            assert(shifts[k] == sqr_shift(n, (k + 1) as nat));
        }
        assert forall|k: int| 0 <= k < diags.len() implies calls_mont_with(#[trigger] diags[k], c) by {
            assert(diags[k] == sqr_diag(a, k as nat));
        }
        assert(calls_mont_with(zero[0], c));
        lemma_calls_concat(rows, shifts, c);
        lemma_calls_concat(rows + shifts, zero, c);
        lemma_calls_concat(rows + shifts + zero, diags, c);
        lemma_calls_concat(rows + shifts + zero + diags, call, c);
        assert(sqr_spec(a, n) == rows + shifts + zero + diags + call);
    }
}

} // verus!
