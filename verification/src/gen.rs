//! The generators: from a number of limbs to the emitted code.
use vstd::prelude::*;
use crate::ir::{Bind, Cond, Elem, MontParam, MulCode, PrimeFieldCode, ReprArg, Rhs, Stmt, Term, Var};
use vstd::string::StrSliceExecFns;

verus! {

/// The range check for `n` limbs, as the generator writes it: the comparison
/// of limb 0, wrapped once for each higher limb, the highest outermost.
pub open spec fn valid_spec(n: nat) -> Cond
    decreases n,
{
    if n <= 1 {
        Cond::Lt(0)
    } else {
        Cond::LtOrEqAnd((n - 1) as usize, Box::new(valid_spec((n - 1) as nat)))
    }
}

/// Writes the expression that decides whether `self` is below the modulus,
/// comparing limbs from the most significant one down.
pub fn valid_impl(limbs: usize) -> (c: Cond)
    ensures
        c == valid_spec(limbs as nat),
{
    let mut current = Cond::Lt(0);
    let mut i: usize = 1;
    while i < limbs
        invariant
            1 <= i,
            i <= limbs || i == 1,
            current == valid_spec(i as nat),
        decreases limbs - i,
    {
        current = Cond::LtOrEqAnd(i, Box::new(current));
        i = i + 1;
    }
    assert(valid_spec(0) == valid_spec(1));
    current
}

/// Temporary `r{i}`.
pub open spec fn temp(i: nat) -> Var {
    Var::Temp(i as usize)
}

/// The term that reads temporary `r{i}`.
pub open spec fn tv(i: nat) -> Term {
    Term::Var(temp(i))
}

/// The statements of `blocks(i)` for `i` in `0..n`, one after another.
pub open spec fn concat_blocks(blocks: spec_fn(nat) -> Seq<Stmt>, n: nat) -> Seq<Stmt>
    decreases n,
{
    if n == 0 {
        Seq::empty()
    } else {
        concat_blocks(blocks, (n - 1) as nat) + blocks((n - 1) as nat)
    }
}

/// The name of temporary number `n`: `r{n}`.
pub fn get_temp(n: usize) -> (v: Var)
    ensures
        v == temp(n as nat),
        v == Var::Temp(n),
{
    Var::Temp(n)
}

// ---------------------------------------------------------------------------
// Montgomery reduction
// ---------------------------------------------------------------------------

/// In row `i` of the reduction, the step for limb `j >= 1` of the modulus:
/// `r{i+j} = mac_with_carry(r{i+j}, k, MODULUS.0[j], &mut carry);`
pub open spec fn mont_col(i: nat, j: nat) -> Stmt {
    Stmt::Assign(
        Bind::Plain,
        temp(i + j),
        Rhs::Mac(tv(i + j), Term::Var(Var::K), Term::Modulus(j as usize), Var::Carry),
    )
}

/// Row `i` of the reduction for `n` limbs: it clears limb `i` of the
/// accumulator by adding `k * MODULUS * 2^(64 i)`, and passes the carry on.
pub open spec fn mont_row(n: nat, i: nat) -> Seq<Stmt> {
    seq![
        Stmt::Assign(Bind::Let, Var::K, Rhs::MulInv(temp(i))),
        Stmt::Assign(Bind::LetMut, Var::Carry, Rhs::Value(Term::Zero)),
        Stmt::Eval(Rhs::Mac(tv(i), Term::Var(Var::K), Term::Modulus(0), Var::Carry)),
    ] + Seq::new((n - 1) as nat, |jj: int| mont_col(i, (jj + 1) as nat)) + seq![
        Stmt::Assign(
            Bind::Plain,
            temp(i + n),
            Rhs::Adc(
                tv(i + n),
                if i == 0 {
                    Term::Zero
                } else {
                    Term::Var(Var::Carry2)
                },
                Var::Carry,
            ),
        ),
    ] + if i + 1 != n {
        seq![Stmt::Assign(Bind::Let, Var::Carry2, Rhs::Value(Term::Var(Var::Carry)))]
    } else {
        Seq::empty()
    }
}

/// The rows of the reduction, as one family.
pub open spec fn mont_rows(n: nat) -> spec_fn(nat) -> Seq<Stmt> {
    |i: nat| mont_row(n, i)
}

/// The final stores of the reduction: limb `i` of `self` from `r{n+i}`.
pub open spec fn mont_stores(n: nat) -> Seq<Stmt> {
    Seq::new(n, |i: int| Stmt::StoreLimb(i as usize, temp(n + i as nat)))
}

/// The body of the emitted `mont_reduce` for `n` limbs (before its final
/// `self.reduce()`).
pub open spec fn mont_spec(n: nat) -> Seq<Stmt> {
    concat_blocks(mont_rows(n), n) + mont_stores(n)
}

/// Writes the Montgomery reduction of the `2 * limbs` words `r0, r1, ...` into
/// the limbs of `self`.
pub fn mont_impl(limbs: usize) -> (code: Vec<Stmt>)
    requires
        limbs <= usize::MAX / 2,
    ensures
        code@ == mont_spec(limbs as nat),
{
    let ghost n = limbs as nat;
    let mut code: Vec<Stmt> = Vec::new();
    let mut i: usize = 0;
    while i < limbs
        invariant
            limbs <= usize::MAX / 2,
            n == limbs,
            i <= limbs,
            code@ == concat_blocks(mont_rows(n), i as nat),
        decreases limbs - i,
    {
        let mut row: Vec<Stmt> = Vec::new();
        let t = get_temp(i);
        row.push(Stmt::Assign(Bind::Let, Var::K, Rhs::MulInv(t)));
        row.push(Stmt::Assign(Bind::LetMut, Var::Carry, Rhs::Value(Term::Zero)));
        row.push(Stmt::Eval(Rhs::Mac(Term::Var(t), Term::Var(Var::K), Term::Modulus(0), Var::Carry)));
        let mut j: usize = 1;
        while j < limbs
            invariant
                limbs <= usize::MAX / 2,
                n == limbs,
                i < limbs,
                1 <= j <= limbs,
                row@ == seq![
                    Stmt::Assign(Bind::Let, Var::K, Rhs::MulInv(temp(i as nat))),
                    Stmt::Assign(Bind::LetMut, Var::Carry, Rhs::Value(Term::Zero)),
                    Stmt::Eval(Rhs::Mac(tv(i as nat), Term::Var(Var::K), Term::Modulus(0), Var::Carry)),
                ] + Seq::new((j - 1) as nat, |jj: int| mont_col(i as nat, (jj + 1) as nat)),
            decreases limbs - j,
        {
            let t = get_temp(i + j);
            row.push(Stmt::Assign(
                Bind::Plain,
                t,
                Rhs::Mac(Term::Var(t), Term::Var(Var::K), Term::Modulus(j), Var::Carry),
            ));
            j = j + 1;
        }
        let t = get_temp(i + limbs);
        if i == 0 {
            row.push(Stmt::Assign(Bind::Plain, t, Rhs::Adc(Term::Var(t), Term::Zero, Var::Carry)));
        } else {
            row.push(Stmt::Assign(
                Bind::Plain,
                t,
                Rhs::Adc(Term::Var(t), Term::Var(Var::Carry2), Var::Carry),
            ));
        }
        if i != limbs - 1 {
            row.push(Stmt::Assign(Bind::Let, Var::Carry2, Rhs::Value(Term::Var(Var::Carry))));
        }
        assert(row@ =~= mont_row(n, i as nat));
        code.append(&mut row);
        i = i + 1;
    }
    let mut i: usize = 0;
    while i < limbs
        invariant
            limbs <= usize::MAX / 2,
            n == limbs,
            i <= limbs,
            code@ == concat_blocks(mont_rows(n), n) + Seq::new(
                i as nat,
                |ii: int| Stmt::StoreLimb(ii as usize, temp(n + ii as nat)),
            ),
        decreases limbs - i,
    {
        code.push(Stmt::StoreLimb(i, get_temp(limbs + i)));
        i = i + 1;
    }
    code
}

// ---------------------------------------------------------------------------
// Schoolbook multiplication
// ---------------------------------------------------------------------------

/// In row `i` of the product, the step for limb `j` of `b`:
/// `let r{i+j} = mac_with_carry(r{i+j} (or 0 in row 0), a[i], b[j], &mut carry);`
pub open spec fn mul_col(a: Elem, b: Elem, i: nat, j: nat) -> Stmt {
    Stmt::Assign(
        Bind::Let,
        temp(i + j),
        Rhs::Mac(
            if i == 0 {
                Term::Zero
            } else {
                tv(i + j)
            },
            Term::Limb(a, i as usize),
            Term::Limb(b, j as usize),
            Var::Carry,
        ),
    )
}

/// Row `i` of the product for `n` limbs: adds `a[i] * b * 2^(64 i)`.
pub open spec fn mul_row(a: Elem, b: Elem, n: nat, i: nat) -> Seq<Stmt> {
    seq![Stmt::Assign(Bind::LetMut, Var::Carry, Rhs::Value(Term::Zero))] + Seq::new(
        n,
        |j: int| mul_col(a, b, i, j as nat),
    ) + seq![Stmt::Assign(Bind::Let, temp(i + n), Rhs::Value(Term::Var(Var::Carry)))]
}

/// The rows of the product, as one family.
pub open spec fn mul_rows(a: Elem, b: Elem, n: nat) -> spec_fn(nat) -> Seq<Stmt> {
    |i: nat| mul_row(a, b, n, i)
}

/// The emitted schoolbook multiplication for `n` limbs: the product into
/// `r0 .. r{2n-1}`, then the call of `mont_reduce` on them.
pub open spec fn mul_default_spec(a: Elem, b: Elem, n: nat) -> Seq<Stmt> {
    concat_blocks(mul_rows(a, b, n), n) + seq![Stmt::MontReduceCall((2 * n) as usize)]
}

/// Writes the multiplication of `a` by `b` as the full product of their limbs
/// followed by a Montgomery reduction.
pub fn mul_impl_default(a: Elem, b: Elem, limbs: usize) -> (code: Vec<Stmt>)
    requires
        limbs <= usize::MAX / 2,
    ensures
        code@ == mul_default_spec(a, b, limbs as nat),
{
    let ghost n = limbs as nat;
    let mut code: Vec<Stmt> = Vec::new();
    let mut i: usize = 0;
    while i < limbs
        invariant
            limbs <= usize::MAX / 2,
            n == limbs,
            i <= limbs,
            code@ == concat_blocks(mul_rows(a, b, n), i as nat),
        decreases limbs - i,
    {
        let mut row: Vec<Stmt> = Vec::new();
        row.push(Stmt::Assign(Bind::LetMut, Var::Carry, Rhs::Value(Term::Zero)));
        let mut j: usize = 0;
        while j < limbs
            invariant
                limbs <= usize::MAX / 2,
                n == limbs,
                i < limbs,
                j <= limbs,
                row@ == seq![Stmt::Assign(Bind::LetMut, Var::Carry, Rhs::Value(Term::Zero))]
                    + Seq::new(j as nat, |jj: int| mul_col(a, b, i as nat, jj as nat)),
            decreases limbs - j,
        {
            let t = get_temp(i + j);
            if i == 0 {
                row.push(Stmt::Assign(
                    Bind::Let,
                    t,
                    Rhs::Mac(Term::Zero, Term::Limb(a, i), Term::Limb(b, j), Var::Carry),
                ));
            } else {
                row.push(Stmt::Assign(
                    Bind::Let,
                    t,
                    Rhs::Mac(Term::Var(t), Term::Limb(a, i), Term::Limb(b, j), Var::Carry),
                ));
            }
            j = j + 1;
        }
        let t = get_temp(i + limbs);
        row.push(Stmt::Assign(Bind::Let, t, Rhs::Value(Term::Var(Var::Carry))));
        assert(row@ =~= mul_row(a, b, n, i as nat));
        code.append(&mut row);
        i = i + 1;
    }
    code.push(Stmt::MontReduceCall(limbs * 2));
    code
}

// ---------------------------------------------------------------------------
// Squaring
// ---------------------------------------------------------------------------

/// In row `i` of the squaring, the step for limb `j > i`:
/// `let r{i+j} = mac_with_carry(r{i+j} (or 0 in row 0), a[i], a[j], &mut carry);`
pub open spec fn sqr_col(a: Elem, i: nat, j: nat) -> Stmt {
    Stmt::Assign(
        Bind::Let,
        temp(i + j),
        Rhs::Mac(
            if i == 0 {
                Term::Zero
            } else {
                tv(i + j)
            },
            Term::Limb(a, i as usize),
            Term::Limb(a, j as usize),
            Var::Carry,
        ),
    )
}

/// Row `i` of the products `a[i] * a[j]` with `j > i`.
pub open spec fn sqr_row(a: Elem, n: nat, i: nat) -> Seq<Stmt> {
    seq![Stmt::Assign(Bind::LetMut, Var::Carry, Rhs::Value(Term::Zero))] + Seq::new(
        (n - i - 1) as nat,
        |jj: int| sqr_col(a, i, (i + 1 + jj) as nat),
    ) + seq![Stmt::Assign(Bind::Let, temp(i + n), Rhs::Value(Term::Var(Var::Carry)))]
}

/// The rows of the off-diagonal products, as one family.
pub open spec fn sqr_rows(a: Elem, n: nat) -> spec_fn(nat) -> Seq<Stmt> {
    |i: nat| sqr_row(a, n, i)
}

/// Step `i` (from 1 up) of the doubling of `r1 .. r{2n-1}`, from the top down.
pub open spec fn sqr_shift(n: nat, i: nat) -> Stmt {
    let t0 = temp((2 * n - i) as nat);
    let t1 = temp((2 * n - i - 1) as nat);
    if i == 1 {
        Stmt::Assign(Bind::Let, t0, Rhs::Shr63(t1))
    } else if i == 2 * n - 1 {
        Stmt::Assign(Bind::Let, t0, Rhs::Shl1(t0))
    } else {
        Stmt::Assign(Bind::Let, t0, Rhs::Shl1Or(t0, t1))
    }
}

/// Statement `k` of the adding of the squares `a[i] * a[i]`: for `k = 2 i` the
/// multiply-add into `r{2i}`, for `k = 2 i + 1` the carry into `r{2i+1}`.
pub open spec fn sqr_diag(a: Elem, k: nat) -> Stmt {
    let i = k / 2;
    if k % 2 == 0 {
        Stmt::Assign(
            Bind::Let,
            temp(2 * i),
            Rhs::Mac(
                if i == 0 {
                    Term::Zero
                } else {
                    tv(2 * i)
                },
                Term::Limb(a, i as usize),
                Term::Limb(a, i as usize),
                Var::Carry,
            ),
        )
    } else {
        Stmt::Assign(Bind::Let, temp(2 * i + 1), Rhs::Adc(tv(2 * i + 1), Term::Zero, Var::Carry))
    }
}

/// The emitted squaring for `n` limbs: the off-diagonal products, doubled,
/// plus the squares of the limbs, then the call of `mont_reduce`.
pub open spec fn sqr_spec(a: Elem, n: nat) -> Seq<Stmt> {
    concat_blocks(sqr_rows(a, n), (n - 1) as nat) + Seq::new(
        (2 * n - 1) as nat,
        |ii: int| sqr_shift(n, (ii + 1) as nat),
    ) + seq![Stmt::Assign(Bind::LetMut, Var::Carry, Rhs::Value(Term::Zero))] + Seq::new(
        2 * n,
        |k: int| sqr_diag(a, k as nat),
    ) + seq![Stmt::MontReduceCall((2 * n) as usize)]
}

/// Writes the squaring of `a`: each product of two different limbs once, the
/// sum doubled by a shift, the squares of the limbs added, and a Montgomery
/// reduction.
pub fn sqr_impl(a: Elem, limbs: usize) -> (code: Vec<Stmt>)
    requires
        1 <= limbs <= usize::MAX / 2,
    ensures
        code@ == sqr_spec(a, limbs as nat),
{
    let ghost n = limbs as nat;
    let mut code: Vec<Stmt> = Vec::new();
    let mut i: usize = 0;
    while i < limbs - 1
        invariant
            1 <= limbs <= usize::MAX / 2,
            n == limbs,
            i <= limbs - 1,
            code@ == concat_blocks(sqr_rows(a, n), i as nat),
        decreases limbs - 1 - i,
    {
        let mut row: Vec<Stmt> = Vec::new();
        row.push(Stmt::Assign(Bind::LetMut, Var::Carry, Rhs::Value(Term::Zero)));
        let mut j: usize = i + 1;
        while j < limbs
            invariant
                1 <= limbs <= usize::MAX / 2,
                n == limbs,
                i < limbs - 1,
                i + 1 <= j <= limbs,
                row@ == seq![Stmt::Assign(Bind::LetMut, Var::Carry, Rhs::Value(Term::Zero))]
                    + Seq::new((j - i - 1) as nat, |jj: int| sqr_col(a, i as nat, (i + 1 + jj) as nat)),
            decreases limbs - j,
        {
            let t = get_temp(i + j);
            if i == 0 {
                row.push(Stmt::Assign(
                    Bind::Let,
                    t,
                    Rhs::Mac(Term::Zero, Term::Limb(a, i), Term::Limb(a, j), Var::Carry),
                ));
            } else {
                row.push(Stmt::Assign(
                    Bind::Let,
                    t,
                    Rhs::Mac(Term::Var(t), Term::Limb(a, i), Term::Limb(a, j), Var::Carry),
                ));
            }
            j = j + 1;
        }
        let t = get_temp(i + limbs);
        row.push(Stmt::Assign(Bind::Let, t, Rhs::Value(Term::Var(Var::Carry))));
        assert(row@ =~= sqr_row(a, n, i as nat));
        code.append(&mut row);
        i = i + 1;
    }
    let ghost rows_part = code@;
    let mut i: usize = 1;
    while i < limbs * 2
        invariant
            1 <= limbs <= usize::MAX / 2,
            n == limbs,
            1 <= i <= limbs * 2,
            code@ == rows_part + Seq::new((i - 1) as nat, |ii: int| sqr_shift(n, (ii + 1) as nat)),
        decreases limbs * 2 - i,
    {
        let t0 = get_temp(limbs * 2 - i);
        let t1 = get_temp(limbs * 2 - i - 1);
        if i == 1 {
            code.push(Stmt::Assign(Bind::Let, t0, Rhs::Shr63(t1)));
        } else if i == limbs * 2 - 1 {
            code.push(Stmt::Assign(Bind::Let, t0, Rhs::Shl1(t0)));
        } else {
            code.push(Stmt::Assign(Bind::Let, t0, Rhs::Shl1Or(t0, t1)));
        }
        i = i + 1;
    }
    code.push(Stmt::Assign(Bind::LetMut, Var::Carry, Rhs::Value(Term::Zero)));
    let ghost shift_part = code@;
    let mut i: usize = 0;
    while i < limbs
        invariant
            1 <= limbs <= usize::MAX / 2,
            n == limbs,
            i <= limbs,
            code@ == shift_part + Seq::new(2 * i as nat, |k: int| sqr_diag(a, k as nat)),
        decreases limbs - i,
    {
        let t0 = get_temp(i * 2);
        let t1 = get_temp(i * 2 + 1);
        if i == 0 {
            code.push(Stmt::Assign(
                Bind::Let,
                t0,
                Rhs::Mac(Term::Zero, Term::Limb(a, i), Term::Limb(a, i), Var::Carry),
            ));
        } else {
            code.push(Stmt::Assign(
                Bind::Let,
                t0,
                Rhs::Mac(Term::Var(t0), Term::Limb(a, i), Term::Limb(a, i), Var::Carry),
            ));
        }
        code.push(Stmt::Assign(Bind::Let, t1, Rhs::Adc(Term::Var(t1), Term::Zero, Var::Carry)));
        assert(code@ =~= shift_part + Seq::new(2 * (i + 1) as nat, |k: int| sqr_diag(a, k as nat))) by {
            assert((2 * i) as nat / 2 == i);
            assert((2 * i + 1) as nat / 2 == i);
        }
        i = i + 1;
    }
    code.push(Stmt::MontReduceCall(limbs * 2));
    code
}

// ---------------------------------------------------------------------------
// Montgomery multiplication without the final carry word
// ---------------------------------------------------------------------------

/// The declarations that open the multiplication without a carry word.
pub open spec fn no_carry_prelude(n: nat) -> Seq<Stmt> {
    seq![
        Stmt::Assign(Bind::LetMut, Var::C, Rhs::Value(Term::Zero)),
        Stmt::Assign(Bind::LetMut, Var::C0, Rhs::Value(Term::Zero)),
        Stmt::Assign(Bind::LetMut, Var::C1, Rhs::Value(Term::Zero)),
        Stmt::Assign(Bind::LetMut, Var::C2, Rhs::Value(Term::Zero)),
    ] + Seq::new(n, |i: int| Stmt::Assign(Bind::LetMut, temp(i as nat), Rhs::Value(Term::Zero)))
}

/// In row `i`, the product step for limb `j >= 1` of `b`, into `c1:c0`.
pub open spec fn no_carry_mul_step(b: Elem, i: nat, j: nat) -> Stmt {
    if i == 0 {
        Stmt::Assign(
            Bind::Plain,
            Var::C0,
            Rhs::MacSimple(Term::Var(Var::C1), Term::Var(Var::V), Term::Limb(b, j as usize), Var::C1),
        )
    } else {
        Stmt::Assign(
            Bind::Plain,
            Var::C0,
            Rhs::MacD(
                Term::Var(Var::C1),
                Term::Var(Var::V),
                Term::Limb(b, j as usize),
                tv(j),
                Var::C1,
            ),
        )
    }
}

/// The reduction step for limb `j >= 1` of the modulus, into `r{j-1}`; the
/// last one also writes the top word `r{n-1}`.
pub open spec fn no_carry_red_step(n: nat, j: nat) -> Stmt {
    if j == n - 1 {
        Stmt::Assign(
            Bind::Plain,
            temp((j - 1) as nat),
            Rhs::MacE(
                Term::Var(Var::C0),
                Term::Var(Var::M),
                Term::Modulus(j as usize),
                Term::Var(Var::C2),
                Term::Var(Var::C1),
                temp((n - 1) as nat),
            ),
        )
    } else {
        Stmt::Assign(
            Bind::Plain,
            temp((j - 1) as nat),
            Rhs::MacD(
                Term::Var(Var::C2),
                Term::Var(Var::M),
                Term::Modulus(j as usize),
                Term::Var(Var::C0),
                Var::C2,
            ),
        )
    }
}

/// Statement `k` of the inner steps of row `i`: the product step and the
/// reduction step for limb `j = k / 2 + 1`, in that order.
pub open spec fn no_carry_inner(b: Elem, n: nat, i: nat, k: nat) -> Stmt {
    if k % 2 == 0 {
        no_carry_mul_step(b, i, k / 2 + 1)
    } else {
        no_carry_red_step(n, k / 2 + 1)
    }
}

/// Row `i` of the multiplication without a carry word.
pub open spec fn no_carry_row(a: Elem, b: Elem, n: nat, i: nat) -> Seq<Stmt> {
    seq![
        Stmt::Assign(Bind::LetMut, Var::V, Rhs::Value(Term::Limb(a, i as usize))),
        Stmt::Assign(
            Bind::Plain,
            Var::C0,
            Rhs::MacSimple(
                if i == 0 {
                    Term::Zero
                } else {
                    tv(0)
                },
                Term::Var(Var::V),
                Term::Limb(b, 0),
                Var::C1,
            ),
        ),
        Stmt::Assign(Bind::LetMut, Var::M, Rhs::MulInv(Var::C0)),
        Stmt::Assign(
            Bind::Plain,
            Var::C,
            Rhs::MacSimple(Term::Var(Var::C0), Term::Var(Var::M), Term::Modulus(0), Var::C2),
        ),
    ] + Seq::new((2 * (n - 1)) as nat, |k: int| no_carry_inner(b, n, i, k as nat))
}

/// The rows of the multiplication without a carry word, as one family.
pub open spec fn no_carry_rows(a: Elem, b: Elem, n: nat) -> spec_fn(nat) -> Seq<Stmt> {
    |i: nat| no_carry_row(a, b, n, i)
}

/// The stores of `r0 .. r{n-1}` into the limbs of `self`, then `self.reduce()`.
pub open spec fn store_and_reduce(n: nat) -> Seq<Stmt> {
    Seq::new(n, |i: int| Stmt::StoreLimb(i as usize, temp(i as nat))) + seq![Stmt::Reduce]
}

/// The emitted multiplication without a carry word, for `n` limbs.
pub open spec fn no_carry_spec(a: Elem, b: Elem, n: nat) -> Seq<Stmt> {
    no_carry_prelude(n) + concat_blocks(no_carry_rows(a, b, n), n) + store_and_reduce(n)
}

/// Writes the product of `a` and `b` in Montgomery form with the reduction
/// interleaved row by row, for moduli whose top bit leaves room for the
/// missing carry word.
pub fn mul_impl_no_carry(a: Elem, b: Elem, limbs: usize) -> (code: Vec<Stmt>)
    requires
        limbs <= usize::MAX / 2,
    ensures
        code@ == no_carry_spec(a, b, limbs as nat),
{
    let ghost n = limbs as nat;
    let mut code: Vec<Stmt> = Vec::new();
    code.push(Stmt::Assign(Bind::LetMut, Var::C, Rhs::Value(Term::Zero)));
    code.push(Stmt::Assign(Bind::LetMut, Var::C0, Rhs::Value(Term::Zero)));
    code.push(Stmt::Assign(Bind::LetMut, Var::C1, Rhs::Value(Term::Zero)));
    code.push(Stmt::Assign(Bind::LetMut, Var::C2, Rhs::Value(Term::Zero)));
    let ghost head = code@;
    let mut i: usize = 0;
    while i < limbs
        invariant
            limbs <= usize::MAX / 2,
            n == limbs,
            i <= limbs,
            code@ == head + Seq::new(
                i as nat,
                |ii: int| Stmt::Assign(Bind::LetMut, temp(ii as nat), Rhs::Value(Term::Zero)),
            ),
        decreases limbs - i,
    {
        code.push(Stmt::Assign(Bind::LetMut, get_temp(i), Rhs::Value(Term::Zero)));
        i = i + 1;
    }
    assert(code@ =~= no_carry_prelude(n));
    let ghost prelude = code@;
    let mut i: usize = 0;
    while i < limbs
        invariant
            limbs <= usize::MAX / 2,
            n == limbs,
            i <= limbs,
            code@ == prelude + concat_blocks(no_carry_rows(a, b, n), i as nat),
        decreases limbs - i,
    {
        let mut row: Vec<Stmt> = Vec::new();
        row.push(Stmt::Assign(Bind::LetMut, Var::V, Rhs::Value(Term::Limb(a, i))));
        if i == 0 {
            row.push(Stmt::Assign(
                Bind::Plain,
                Var::C0,
                Rhs::MacSimple(Term::Zero, Term::Var(Var::V), Term::Limb(b, 0), Var::C1),
            ));
            row.push(Stmt::Assign(Bind::LetMut, Var::M, Rhs::MulInv(Var::C0)));
            row.push(Stmt::Assign(
                Bind::Plain,
                Var::C,
                Rhs::MacSimple(Term::Var(Var::C0), Term::Var(Var::M), Term::Modulus(0), Var::C2),
            ));
            let ghost row_head = row@;
            let mut j: usize = 1;
            while j < limbs
                invariant
                    limbs <= usize::MAX / 2,
                    n == limbs,
                    i == 0,
                    1 <= j <= limbs,
                    row@ == row_head + Seq::new(
                        (2 * (j - 1)) as nat,
                        |k: int| no_carry_inner(b, n, i as nat, k as nat),
                    ),
                decreases limbs - j,
            {
                row.push(Stmt::Assign(
                    Bind::Plain,
                    Var::C0,
                    Rhs::MacSimple(Term::Var(Var::C1), Term::Var(Var::V), Term::Limb(b, j), Var::C1),
                ));
                let temp0 = get_temp(j - 1);
                let temp1 = get_temp(limbs - 1);
                if j == limbs - 1 {
                    row.push(Stmt::Assign(
                        Bind::Plain,
                        temp0,
                        Rhs::MacE(
                            Term::Var(Var::C0),
                            Term::Var(Var::M),
                            Term::Modulus(j),
                            Term::Var(Var::C2),
                            Term::Var(Var::C1),
                            temp1,
                        ),
                    ));
                } else {
                    row.push(Stmt::Assign(
                        Bind::Plain,
                        temp0,
                        Rhs::MacD(
                            Term::Var(Var::C2),
                            Term::Var(Var::M),
                            Term::Modulus(j),
                            Term::Var(Var::C0),
                            Var::C2,
                        ),
                    ));
                }
                assert(row@ =~= row_head + Seq::new(
                    (2 * j) as nat,
                    |k: int| no_carry_inner(b, n, i as nat, k as nat),
                )) by {
                    assert((2 * (j - 1)) as nat / 2 + 1 == j);
                    assert((2 * (j - 1) + 1) as nat / 2 + 1 == j);
                }
                j = j + 1;
            }
        } else {
            // The last row and the rows between the first and the last are
            // written alike.
            let temp0 = get_temp(0);
            row.push(Stmt::Assign(
                Bind::Plain,
                Var::C0,
                Rhs::MacSimple(Term::Var(temp0), Term::Var(Var::V), Term::Limb(b, 0), Var::C1),
            ));
            row.push(Stmt::Assign(Bind::LetMut, Var::M, Rhs::MulInv(Var::C0)));
            row.push(Stmt::Assign(
                Bind::Plain,
                Var::C,
                Rhs::MacSimple(Term::Var(Var::C0), Term::Var(Var::M), Term::Modulus(0), Var::C2),
            ));
            let ghost row_head = row@;
            let mut j: usize = 1;
            while j < limbs
                invariant
                    limbs <= usize::MAX / 2,
                    n == limbs,
                    0 < i < limbs,
                    1 <= j <= limbs,
                    row@ == row_head + Seq::new(
                        (2 * (j - 1)) as nat,
                        |k: int| no_carry_inner(b, n, i as nat, k as nat),
                    ),
                decreases limbs - j,
            {
                let tempj = get_temp(j);
                row.push(Stmt::Assign(
                    Bind::Plain,
                    Var::C0,
                    Rhs::MacD(
                        Term::Var(Var::C1),
                        Term::Var(Var::V),
                        Term::Limb(b, j),
                        Term::Var(tempj),
                        Var::C1,
                    ),
                ));
                let temp1 = get_temp(j - 1);
                if j == limbs - 1 {
                    let temp0 = get_temp(limbs - 1);
                    row.push(Stmt::Assign(
                        Bind::Plain,
                        temp1,
                        Rhs::MacE(
                            Term::Var(Var::C0),
                            Term::Var(Var::M),
                            Term::Modulus(j),
                            Term::Var(Var::C2),
                            Term::Var(Var::C1),
                            temp0,
                        ),
                    ));
                } else {
                    row.push(Stmt::Assign(
                        Bind::Plain,
                        temp1,
                        Rhs::MacD(
                            Term::Var(Var::C2),
                            Term::Var(Var::M),
                            Term::Modulus(j),
                            Term::Var(Var::C0),
                            Var::C2,
                        ),
                    ));
                }
                assert(row@ =~= row_head + Seq::new(
                    (2 * j) as nat,
                    |k: int| no_carry_inner(b, n, i as nat, k as nat),
                )) by {
                    assert((2 * (j - 1)) as nat / 2 + 1 == j);
                    assert((2 * (j - 1) + 1) as nat / 2 + 1 == j);
                }
                j = j + 1;
            }
        }
        assert(row@ =~= no_carry_row(a, b, n, i as nat));
        code.append(&mut row);
        i = i + 1;
    }
    let ghost body = code@;
    let mut i: usize = 0;
    while i < limbs
        invariant
            limbs <= usize::MAX / 2,
            n == limbs,
            i <= limbs,
            code@ == body + Seq::new(i as nat, |ii: int| Stmt::StoreLimb(ii as usize, temp(ii as nat))),
        decreases limbs - i,
    {
        code.push(Stmt::StoreLimb(i, get_temp(i)));
        i = i + 1;
    }
    code.push(Stmt::Reduce);
    code
}

// ---------------------------------------------------------------------------
// Montgomery multiplication, coarsely integrated operand scanning
// ---------------------------------------------------------------------------

/// In row `i`, the product step for limb `j >= 1` of `a`, into `r{j}`.
pub open spec fn cios_mul_step(a: Elem, b: Elem, i: nat, j: nat) -> Stmt {
    if i == 0 {
        Stmt::Assign(
            Bind::Plain,
            temp(j),
            Rhs::MacSimple(
                Term::Var(Var::Carry),
                Term::Limb(a, j as usize),
                Term::Limb(b, i as usize),
                Var::Carry,
            ),
        )
    } else {
        Stmt::Assign(
            Bind::Plain,
            temp(j),
            Rhs::MacD(
                tv(j),
                Term::Limb(b, i as usize),
                Term::Limb(a, j as usize),
                Term::Var(Var::Carry),
                Var::Carry,
            ),
        )
    }
}

/// The reduction step for limb `j >= 1` of the modulus: the sum moves down
/// one word, into `r{j-1}`; the last step takes in the top word `r{n}`.
pub open spec fn cios_red_step(n: nat, j: nat) -> Stmt {
    if j == n - 1 {
        Stmt::Assign(
            Bind::Plain,
            temp((j - 1) as nat),
            Rhs::MacE(
                tv(j),
                Term::Var(Var::M),
                Term::Modulus(j as usize),
                Term::Var(Var::Carry),
                tv(n),
                Var::Carry,
            ),
        )
    } else {
        Stmt::Assign(
            Bind::Plain,
            temp((j - 1) as nat),
            Rhs::MacD(
                tv(j),
                Term::Var(Var::M),
                Term::Modulus(j as usize),
                Term::Var(Var::Carry),
                Var::Carry,
            ),
        )
    }
}

/// Row `i`: add `b[i] * a`, then reduce by one word.
pub open spec fn cios_row(a: Elem, b: Elem, n: nat, i: nat) -> Seq<Stmt> {
    seq![
        Stmt::Assign(Bind::LetMut, Var::Carry, Rhs::Value(Term::Zero)),
        Stmt::Assign(
            Bind::Plain,
            temp(0),
            Rhs::MacSimple(
                if i == 0 {
                    Term::Zero
                } else {
                    tv(0)
                },
                Term::Limb(b, i as usize),
                Term::Limb(a, 0),
                Var::Carry,
            ),
        ),
    ] + Seq::new((n - 1) as nat, |jj: int| cios_mul_step(a, b, i, (jj + 1) as nat)) + seq![
        Stmt::Assign(Bind::LetMut, Var::D, Rhs::Value(Term::Var(Var::Carry))),
        Stmt::Assign(Bind::LetMut, Var::M, Rhs::MacSimple(Term::Zero, tv(0), Term::Inv, Var::Carry)),
        Stmt::Eval(Rhs::MacSimple(tv(0), Term::Var(Var::M), Term::Modulus(0), Var::Carry)),
    ] + Seq::new((n - 1) as nat, |jj: int| cios_red_step(n, (jj + 1) as nat)) + seq![
        Stmt::Assign(
            Bind::Plain,
            temp((n - 1) as nat),
            Rhs::MacSimple(Term::Var(Var::D), Term::Var(Var::Carry), Term::One, temp(n)),
        ),
    ]
}

/// The rows of the CIOS multiplication, as one family.
pub open spec fn cios_rows(a: Elem, b: Elem, n: nat) -> spec_fn(nat) -> Seq<Stmt> {
    |i: nat| cios_row(a, b, n, i)
}

/// The emitted CIOS multiplication for `n` limbs.
pub open spec fn cios_spec(a: Elem, b: Elem, n: nat) -> Seq<Stmt> {
    Seq::new(n + 1, |i: int| Stmt::Assign(Bind::LetMut, temp(i as nat), Rhs::Value(Term::Zero)))
        + concat_blocks(cios_rows(a, b, n), n) + store_and_reduce(n)
}

/// Writes the product of `a` and `b` in Montgomery form, each row of the
/// product followed by one word of reduction, with `n + 1` words of state.
pub fn mul_impl_cios(a: Elem, b: Elem, limbs: usize) -> (code: Vec<Stmt>)
    requires
        limbs <= usize::MAX / 2,
    ensures
        code@ == cios_spec(a, b, limbs as nat),
{
    let ghost n = limbs as nat;
    let mut code: Vec<Stmt> = Vec::new();
    let mut i: usize = 0;
    while i < limbs + 1
        invariant
            limbs <= usize::MAX / 2,
            n == limbs,
            i <= limbs + 1,
            code@ == Seq::new(
                i as nat,
                |ii: int| Stmt::Assign(Bind::LetMut, temp(ii as nat), Rhs::Value(Term::Zero)),
            ),
        decreases limbs + 1 - i,
    {
        code.push(Stmt::Assign(Bind::LetMut, get_temp(i), Rhs::Value(Term::Zero)));
        i = i + 1;
    }
    let ghost prelude = code@;
    let mut i: usize = 0;
    while i < limbs
        invariant
            limbs <= usize::MAX / 2,
            n == limbs,
            i <= limbs,
            code@ == prelude + concat_blocks(cios_rows(a, b, n), i as nat),
        decreases limbs - i,
    {
        let mut row: Vec<Stmt> = Vec::new();
        row.push(Stmt::Assign(Bind::LetMut, Var::Carry, Rhs::Value(Term::Zero)));
        let temp0 = get_temp(0);
        if i == 0 {
            row.push(Stmt::Assign(
                Bind::Plain,
                temp0,
                Rhs::MacSimple(Term::Zero, Term::Limb(b, i), Term::Limb(a, 0), Var::Carry),
            ));
            let ghost row_head = row@;
            let mut j: usize = 1;
            while j < limbs
                invariant
                    limbs <= usize::MAX / 2,
                    n == limbs,
                    i == 0,
                    1 <= j <= limbs,
                    row@ == row_head + Seq::new(
                        (j - 1) as nat,
                        |jj: int| cios_mul_step(a, b, i as nat, (jj + 1) as nat),
                    ),
                decreases limbs - j,
            {
                row.push(Stmt::Assign(
                    Bind::Plain,
                    get_temp(j),
                    Rhs::MacSimple(Term::Var(Var::Carry), Term::Limb(a, j), Term::Limb(b, i), Var::Carry),
                ));
                j = j + 1;
            }
        } else {
            row.push(Stmt::Assign(
                Bind::Plain,
                temp0,
                Rhs::MacSimple(Term::Var(temp0), Term::Limb(b, i), Term::Limb(a, 0), Var::Carry),
            ));
            let ghost row_head = row@;
            let mut j: usize = 1;
            while j < limbs
                invariant
                    limbs <= usize::MAX / 2,
                    n == limbs,
                    0 < i < limbs,
                    1 <= j <= limbs,
                    row@ == row_head + Seq::new(
                        (j - 1) as nat,
                        |jj: int| cios_mul_step(a, b, i as nat, (jj + 1) as nat),
                    ),
                decreases limbs - j,
            {
                let tempj = get_temp(j);
                row.push(Stmt::Assign(
                    Bind::Plain,
                    tempj,
                    Rhs::MacD(
                        Term::Var(tempj),
                        Term::Limb(b, i),
                        Term::Limb(a, j),
                        Term::Var(Var::Carry),
                        Var::Carry,
                    ),
                ));
                j = j + 1;
            }
        }
        row.push(Stmt::Assign(Bind::LetMut, Var::D, Rhs::Value(Term::Var(Var::Carry))));
        row.push(Stmt::Assign(
            Bind::LetMut,
            Var::M,
            Rhs::MacSimple(Term::Zero, Term::Var(temp0), Term::Inv, Var::Carry),
        ));
        row.push(Stmt::Eval(
            Rhs::MacSimple(Term::Var(temp0), Term::Var(Var::M), Term::Modulus(0), Var::Carry),
        ));
        let ghost row_mid = row@;
        let mut j: usize = 1;
        while j < limbs
            invariant
                limbs <= usize::MAX / 2,
                n == limbs,
                i < limbs,
                1 <= j <= limbs,
                row@ == row_mid + Seq::new((j - 1) as nat, |jj: int| cios_red_step(n, (jj + 1) as nat)),
            decreases limbs - j,
        {
            let tempjm = get_temp(j - 1);
            let templ = get_temp(limbs);
            let tempj = get_temp(j);
            if j == limbs - 1 {
                row.push(Stmt::Assign(
                    Bind::Plain,
                    tempjm,
                    Rhs::MacE(
                        Term::Var(tempj),
                        Term::Var(Var::M),
                        Term::Modulus(j),
                        Term::Var(Var::Carry),
                        Term::Var(templ),
                        Var::Carry,
                    ),
                ));
            } else {
                row.push(Stmt::Assign(
                    Bind::Plain,
                    tempjm,
                    Rhs::MacD(
                        Term::Var(tempj),
                        Term::Var(Var::M),
                        Term::Modulus(j),
                        Term::Var(Var::Carry),
                        Var::Carry,
                    ),
                ));
            }
            j = j + 1;
        }
        let templm = get_temp(limbs - 1);
        let templ = get_temp(limbs);
        row.push(Stmt::Assign(
            Bind::Plain,
            templm,
            Rhs::MacSimple(Term::Var(Var::D), Term::Var(Var::Carry), Term::One, templ),
        ));
        assert(row@ =~= cios_row(a, b, n, i as nat));
        code.append(&mut row);
        i = i + 1;
    }
    let ghost body = code@;
    let mut i: usize = 0;
    while i < limbs
        invariant
            limbs <= usize::MAX / 2,
            n == limbs,
            i <= limbs,
            code@ == body + Seq::new(i as nat, |ii: int| Stmt::StoreLimb(ii as usize, temp(ii as nat))),
        decreases limbs - i,
    {
        code.push(Stmt::StoreLimb(i, get_temp(i)));
        i = i + 1;
    }
    code.push(Stmt::Reduce);
    code
}

// ---------------------------------------------------------------------------
// The choice of multiplication
// ---------------------------------------------------------------------------

/// The modulus of the scalar field of BLS12-381, in decimal.
pub const BLS_381_FR_MODULUS: &'static str =
    "52435875175126190479447740508185965837690552500527637822603658699938581184513";

/// Whether two strings hold the same characters.
fn str_eq(x: &str, y: &str) -> (r: bool)
    ensures
        r == (x@ == y@),
{
    let n = x.unicode_len();
    if n != y.unicode_len() {
        return false;
    }
    let mut i: usize = 0;
    while i < n
        invariant
            n == x@.len(),
            n == y@.len(),
            i <= n,
            forall|k: int| 0 <= k < i ==> x@[k] == y@[k],
        decreases n - i,
    {
        if x.get_char(i) != y.get_char(i) {
            return false;
        }
        i = i + 1;
    }
    assert(x@ =~= y@);
    true
}

/// Whether the multiplication is the assembly routine for four limbs, with the
/// portable code as its fallback.
pub open spec fn uses_asm(limbs: nat, modulus_raw: Seq<char>, x86_64: bool) -> bool {
    limbs == 4 && modulus_raw == BLS_381_FR_MODULUS@ && x86_64
}

/// Whether the multiplication is the one without a carry word.
pub open spec fn uses_no_carry(limbs: nat, modulus_raw: Seq<char>, no_carry: bool, x86_64: bool) -> bool {
    !uses_asm(limbs, modulus_raw, x86_64) && limbs < 12 && no_carry
}

/// Writes the multiplication for four limbs that calls the assembly routine
/// where the processor has the ADX instructions, and the schoolbook code
/// elsewhere.
pub fn mul_impl_asm4(a: Elem, b: Elem) -> (code: MulCode)
    ensures
        code matches MulCode::AdxOrElse(a2, b2, fallback) && a2 == a && b2 == b && fallback@
            == mul_default_spec(a, b, 4),
{
    let default_impl = mul_impl_default(a, b, 4);
    MulCode::AdxOrElse(a, b, default_impl)
}

/// Writes the multiplication of `a` by `b`: the assembly routine for the
/// BLS12-381 scalar field on x86_64, the variant without a carry word for fewer
/// than 12 limbs when the modulus leaves room for it, and CIOS otherwise.
pub fn mul_impl(a: Elem, b: Elem, limbs: usize, modulus_raw: &str, no_carry: bool, x86_64: bool) -> (code: MulCode)
    requires
        limbs <= usize::MAX / 2,
    ensures
        uses_asm(limbs as nat, modulus_raw@, x86_64) ==> (code matches MulCode::AdxOrElse(a2, b2, fallback)
            && a2 == a && b2 == b && fallback@ == mul_default_spec(a, b, 4)),
        uses_no_carry(limbs as nat, modulus_raw@, no_carry, x86_64) ==> (code matches MulCode::Straight(s)
            && s@ == no_carry_spec(a, b, limbs as nat)),
        !uses_asm(limbs as nat, modulus_raw@, x86_64) && !uses_no_carry(limbs as nat, modulus_raw@, no_carry, x86_64)
            ==> (code matches MulCode::Straight(s) && s@ == cios_spec(a, b, limbs as nat)),
        // The assembly routine is wired to the BLS12-381 scalar field: it is
        // chosen for four limbs of that modulus on x86_64, and for nothing else.
        (code is AdxOrElse) <==> (limbs == 4 && modulus_raw@ == BLS_381_FR_MODULUS@ && x86_64),
        // Elsewhere: the variant without a carry word when it is asked for and
        // there are fewer than 12 limbs, CIOS otherwise.
        !(limbs == 4 && modulus_raw@ == BLS_381_FR_MODULUS@ && x86_64) && limbs < 12 && no_carry ==> (
        code matches MulCode::Straight(s) && s@ == no_carry_spec(a, b, limbs as nat)),
        !(limbs == 4 && modulus_raw@ == BLS_381_FR_MODULUS@ && x86_64) && !(limbs < 12 && no_carry) ==> (
        code matches MulCode::Straight(s) && s@ == cios_spec(a, b, limbs as nat)),
{
    if limbs == 4 && str_eq(modulus_raw, BLS_381_FR_MODULUS) && x86_64 {
        mul_impl_asm4(a, b)
    } else if limbs < 12 && no_carry {
        MulCode::Straight(mul_impl_no_carry(a, b, limbs))
    } else {
        MulCode::Straight(mul_impl_cios(a, b, limbs))
    }
}

// ---------------------------------------------------------------------------
// The whole implementation
// ---------------------------------------------------------------------------

/// The parameters of `mont_reduce` for `n` limbs: `r0: u64, mut r1: u64, ...`.
pub open spec fn mont_params_spec(n: nat) -> Seq<MontParam> {
    Seq::new(2 * n, |i: int| MontParam { index: i as usize, mutable: i != 0 })
}

/// The arguments of `mont_reduce` in `into_repr`: the limbs of `self`, then
/// as many zeros.
pub open spec fn into_repr_args_spec(n: nat) -> Seq<ReprArg> {
    Seq::new(
        2 * n,
        |i: int|
            if i < n {
                ReprArg::SelfLimb(i as usize)
            } else {
                ReprArg::Zero
            },
    )
}

/// Writes the implementation of a prime field of `limbs` 64-bit limbs: the
/// Montgomery reduction, the squaring and multiplication of `self` (by
/// `other`), the range check and the conversion out of Montgomery form.
pub fn prime_field_impl(limbs: usize, modulus_raw: &str, no_carry: bool, x86_64: bool) -> (code: PrimeFieldCode)
    requires
        1 <= limbs <= usize::MAX / 2,
    ensures
        code.mont_params@ == mont_params_spec(limbs as nat),
        code.squaring@ == sqr_spec(Elem::SelfElem, limbs as nat),
        uses_asm(limbs as nat, modulus_raw@, x86_64) ==> (code.multiply matches MulCode::AdxOrElse(
            a2,
            b2,
            fallback,
        ) && a2 == Elem::SelfElem && b2 == Elem::Other && fallback@ == mul_default_spec(
            Elem::SelfElem,
            Elem::Other,
            4,
        )),
        uses_no_carry(limbs as nat, modulus_raw@, no_carry, x86_64) ==> (code.multiply matches MulCode::Straight(s)
            && s@ == no_carry_spec(Elem::SelfElem, Elem::Other, limbs as nat)),
        !uses_asm(limbs as nat, modulus_raw@, x86_64) && !uses_no_carry(limbs as nat, modulus_raw@, no_carry, x86_64)
            ==> (code.multiply matches MulCode::Straight(s) && s@ == cios_spec(
            Elem::SelfElem,
            Elem::Other,
            limbs as nat,
        )),
        (code.multiply is AdxOrElse) <==> (limbs == 4 && modulus_raw@ == BLS_381_FR_MODULUS@ && x86_64),
        !(limbs == 4 && modulus_raw@ == BLS_381_FR_MODULUS@ && x86_64) && limbs < 12 && no_carry ==> (
        code.multiply matches MulCode::Straight(s) && s@ == no_carry_spec(
            Elem::SelfElem,
            Elem::Other,
            limbs as nat,
        )),
        !(limbs == 4 && modulus_raw@ == BLS_381_FR_MODULUS@ && x86_64) && !(limbs < 12 && no_carry) ==> (
        code.multiply matches MulCode::Straight(s) && s@ == cios_spec(Elem::SelfElem, Elem::Other, limbs as nat)),
        // Parameter `i` of `mont_reduce` is `r{i}`, so that the call
        // `self.mont_reduce(r0, r1, ...)` hands word `i` to parameter `i`; all
        // but `r0` are `mut`, as the reduction writes them.
        code.mont_params@.len() == 2 * limbs,
        forall|i: int|
            0 <= i < 2 * limbs ==> (#[trigger] code.mont_params@[i]).index == i && code.mont_params@[i].mutable
                == (i != 0),
        code.montgomery@ == mont_spec(limbs as nat),
        code.is_valid == valid_spec(limbs as nat),
        code.into_repr_args@ == into_repr_args_spec(limbs as nat),
        code.top_limb_index == limbs - 1,
{
    let ghost n = limbs as nat;
    let mut mont_params: Vec<MontParam> = Vec::new();
    let mut i: usize = 0;
    while i < limbs * 2
        invariant
            1 <= limbs <= usize::MAX / 2,
            n == limbs,
            i <= limbs * 2,
            mont_params@ == Seq::new(i as nat, |k: int| MontParam { index: k as usize, mutable: k != 0 }),
        decreases limbs * 2 - i,
    {
        mont_params.push(MontParam { index: i, mutable: i != 0 });
        i = i + 1;
    }
    let squaring = sqr_impl(Elem::SelfElem, limbs);
    let multiply = mul_impl(Elem::SelfElem, Elem::Other, limbs, modulus_raw, no_carry, x86_64);
    let montgomery = mont_impl(limbs);
    let is_valid = valid_impl(limbs);
    let mut into_repr_args: Vec<ReprArg> = Vec::new();
    let mut i: usize = 0;
    while i < limbs
        invariant
            1 <= limbs <= usize::MAX / 2,
            n == limbs,
            i <= limbs,
            into_repr_args@ == Seq::new(i as nat, |k: int| ReprArg::SelfLimb(k as usize)),
        decreases limbs - i,
    {
        into_repr_args.push(ReprArg::SelfLimb(i));
        i = i + 1;
    }
    let mut i: usize = 0;
    while i < limbs
        invariant
            1 <= limbs <= usize::MAX / 2,
            n == limbs,
            i <= limbs,
            into_repr_args@ == Seq::new(n, |k: int| ReprArg::SelfLimb(k as usize)) + Seq::new(
                i as nat,
                |k: int| ReprArg::Zero,
            ),
        decreases limbs - i,
    {
        into_repr_args.push(ReprArg::Zero);
        i = i + 1;
    }
    assert(into_repr_args@ =~= into_repr_args_spec(n));
    let top_limb_index = limbs - 1;
    PrimeFieldCode {
        mont_params,
        squaring,
        multiply,
        montgomery,
        is_valid,
        into_repr_args,
        top_limb_index,
    }
}

} // verus!
