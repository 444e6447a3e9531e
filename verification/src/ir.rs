//! The straight-line code that the generator emits, as plain data.
//!
//! Each value of these types stands for one Rust statement (or expression) of
//! the field implementation that is written out for a prime field: the
//! Montgomery reduction, the multiplications, the squaring and the range check.
//! The spec functions at the end of the file give that code its meaning, word
//! by word, over 64-bit limbs.
use vstd::prelude::*;
use crate::gen::valid_spec;

verus! {

/// A local variable of the emitted code.
#[derive(Debug, Clone, Copy, PartialEq, Eq, Structural)]
pub enum Var {
    /// `r0`, `r1`, ...: the numbered temporaries.
    Temp(usize),
    /// `carry`
    Carry,
    /// `carry2`
    Carry2,
    /// `k`
    K,
    /// `c`
    C,
    /// `c0`
    C0,
    /// `c1`
    C1,
    /// `c2`
    C2,
    /// `v`
    V,
    /// `m`
    M,
    /// `d`
    D,
}

/// The field element whose limbs an expression reads: the code is written for
/// `self`, and the multiplications also read `other`.
#[derive(Debug, Clone, Copy, PartialEq, Eq, Structural)]
pub enum Elem {
    /// `self`
    SelfElem,
    /// `other`
    Other,
}

/// An argument of a call or the source of a copy.
#[derive(Debug, Clone, Copy, PartialEq, Eq, Structural)]
pub enum Term {
    /// the literal `0`
    Zero,
    /// the literal `1`
    One,
    /// a local variable
    Var(Var),
    /// `(e.0).0[i]`: limb `i` of a field element
    Limb(Elem, usize),
    /// `MODULUS.0[i]`: limb `i` of the modulus
    Modulus(usize),
    /// the constant `INV`
    Inv,
}

/// The right-hand side of an assignment.
#[derive(Debug, Clone, Copy, PartialEq, Eq, Structural)]
pub enum Rhs {
    /// `::fff::mac_with_carry(a, b, c, &mut k)`
    Mac(Term, Term, Term, Var),
    /// `::fff::mac_with_carry_simple(a, b, c, &mut k)`
    MacSimple(Term, Term, Term, Var),
    /// `::fff::mac_with_carry_d(a, b, c, d, &mut k)`
    MacD(Term, Term, Term, Term, Var),
    /// `::fff::mac_with_carry_e(a, b, c, d, e, &mut k)`
    MacE(Term, Term, Term, Term, Term, Var),
    /// `::fff::adc(a, b, &mut k)`
    Adc(Term, Term, Var),
    /// `x.wrapping_mul(INV)`
    MulInv(Var),
    /// a plain copy of a term
    Value(Term),
    /// `x >> 63`
    Shr63(Var),
    /// `x << 1`
    Shl1(Var),
    /// `(x << 1) | (y >> 63)`
    Shl1Or(Var, Var),
}

/// How an assignment binds its target.
#[derive(Debug, Clone, Copy, PartialEq, Eq, Structural)]
pub enum Bind {
    /// `let x = ...;`
    Let,
    /// `let mut x = ...;`
    LetMut,
    /// `x = ...;`
    Plain,
}

/// One emitted statement.
#[derive(Debug, Clone, Copy, PartialEq, Eq, Structural)]
pub enum Stmt {
    /// an assignment `[let [mut]] dst = rhs;`
    Assign(Bind, Var, Rhs),
    /// a call whose returned word is dropped: `rhs;`
    Eval(Rhs),
    /// `(self.0).0[i] = x;`
    StoreLimb(usize, Var),
    /// `self.reduce();`
    Reduce,
    /// `self.mont_reduce(r0, r1, ..., r{n-1});` with the given number of arguments
    MontReduceCall(usize),
}

/// The range check: the expression that decides whether the limbs of `self`
/// are below those of the modulus.
#[derive(Debug, PartialEq, Eq)]
pub enum Cond {
    /// `((self.0).0[i] < MODULUS.0[i])`
    Lt(usize),
    /// `((self.0).0[i] < MODULUS.0[i] || ((self.0).0[i] == MODULUS.0[i] && rest))`
    LtOrEqAnd(usize, Box<Cond>),
}

/// The emitted body of `mul_assign`.
#[derive(Debug)]
pub enum MulCode {
    /// straight-line code
    Straight(Vec<Stmt>),
    /// `if *::fff::CPU_SUPPORTS_ADX_INSTRUCTION { ::fff::mod_mul_4w_assign(&mut (a.0).0, &(b.0).0); } else { fallback }`
    AdxOrElse(Elem, Elem, Vec<Stmt>),
}

/// One parameter of the emitted `mont_reduce`: `r{index}: u64`, with `mut`
/// before it where `mutable` holds.
#[derive(Debug, Clone, Copy, PartialEq, Eq, Structural)]
pub struct MontParam {
    pub index: usize,
    pub mutable: bool,
}

/// One argument of the call of `mont_reduce` inside the emitted `into_repr`.
#[derive(Debug, Clone, Copy, PartialEq, Eq, Structural)]
pub enum ReprArg {
    /// `(self.0).0[i]`
    SelfLimb(usize),
    /// `0`
    Zero,
}

/// The pieces of the field implementation that depend on the number of limbs
/// and the choice of multiplication; the rest of the implementation is fixed
/// text around them.
#[derive(Debug)]
pub struct PrimeFieldCode {
    /// the parameters of `mont_reduce`
    pub mont_params: Vec<MontParam>,
    /// the body of `square`
    pub squaring: Vec<Stmt>,
    /// the body of `mul_assign`
    pub multiply: MulCode,
    /// the body of `mont_reduce`, before its `self.reduce()`
    pub montgomery: Vec<Stmt>,
    /// the body of `is_valid`
    pub is_valid: Cond,
    /// the arguments of the call of `mont_reduce` in `into_repr`
    pub into_repr_args: Vec<ReprArg>,
    /// the index of the most significant limb, masked in `random`
    pub top_limb_index: usize,
}

// ---------------------------------------------------------------------------
// The meaning of the emitted code.
// ---------------------------------------------------------------------------

/// The base of the limbs, 2^64.
pub open spec fn word() -> nat {
    0x1_0000_0000_0000_0000
}

/// `word()` raised to `k`.
pub open spec fn wpow(k: nat) -> nat
    decreases k,
{
    if k == 0 {
        1
    } else {
        word() * wpow((k - 1) as nat)
    }
}

/// The number whose little-endian limbs are `s`.
pub open spec fn seq_val(s: Seq<u64>) -> nat
    decreases s.len(),
{
    if s.len() == 0 {
        0
    } else {
        seq_val(s.drop_last()) + (s.last() as nat) * wpow((s.len() - 1) as nat)
    }
}

/// The low word of `t`.
pub open spec fn lo(t: int) -> u64 {
    (t % (word() as int)) as u64
}

/// The high word of `t`, wrapped to 64 bits.
pub open spec fn hi(t: int) -> u64 {
    ((t / (word() as int)) % (word() as int)) as u64
}

/// What the emitted code reads but never writes: the limbs of `other`, of the
/// modulus, and the constant `INV`.
pub struct Ctx {
    pub other: Seq<u64>,
    pub modulus: Seq<u64>,
    pub inv: u64,
}

/// The state of the emitted code: its local variables and the limbs of `self`.
pub struct State {
    pub vars: spec_fn(Var) -> u64,
    pub limbs: Seq<u64>,
}

/// The value of a term.
pub open spec fn term_val(t: Term, st: State, ctx: Ctx) -> u64 {
    match t {
        Term::Zero => 0,
        Term::One => 1,
        Term::Var(v) => (st.vars)(v),
        Term::Limb(Elem::SelfElem, i) => st.limbs[i as int],
        Term::Limb(Elem::Other, i) => ctx.other[i as int],
        Term::Modulus(i) => ctx.modulus[i as int],
        Term::Inv => ctx.inv,
    }
}

/// `vars` with `x` set to `val`.
pub open spec fn set_var(vars: spec_fn(Var) -> u64, x: Var, val: u64) -> spec_fn(Var) -> u64 {
    |y: Var| if y == x { val } else { vars(y) }
}

/// The word that a right-hand side yields, and the variables after the write
/// through its `&mut` argument, if it has one.
///
/// `mac_with_carry(a, b, c, &mut k)` is `a + b * c + k` and `adc(a, b, &mut k)`
/// is `a + b + k`, as the fff crate defines them. The `simple`, `d` and `e`
/// forms, which the CIOS code and the code without a carry word call, are not
/// defined by the version of fff that this crate builds against; their meaning
/// here is this library's reading of them: no incoming carry, and
/// `a + b * c`, `a + b * c + d` and `a + b * c + d + e * 2^64`. The laws of
/// those two multiplications rest on that reading. Each form returns the low
/// word and leaves the high word in `k`.
pub open spec fn rhs_eval(r: Rhs, st: State, ctx: Ctx) -> (u64, spec_fn(Var) -> u64) {
    let tv = |t: Term| term_val(t, st, ctx) as int;
    match r {
        Rhs::Mac(a, b, c, k) => {
            let t = tv(a) + tv(b) * tv(c) + (st.vars)(k) as int;
            (lo(t), set_var(st.vars, k, hi(t)))
        },
        Rhs::MacSimple(a, b, c, k) => {
            let t = tv(a) + tv(b) * tv(c);
            (lo(t), set_var(st.vars, k, hi(t)))
        },
        Rhs::MacD(a, b, c, d, k) => {
            let t = tv(a) + tv(b) * tv(c) + tv(d);
            (lo(t), set_var(st.vars, k, hi(t)))
        },
        Rhs::MacE(a, b, c, d, e, k) => {
            let t = tv(a) + tv(b) * tv(c) + tv(d) + tv(e) * word();
            (lo(t), set_var(st.vars, k, hi(t)))
        },
        Rhs::Adc(a, b, k) => {
            let t = tv(a) + tv(b) + (st.vars)(k) as int;
            (lo(t), set_var(st.vars, k, hi(t)))
        },
        Rhs::MulInv(x) => (lo((st.vars)(x) as int * ctx.inv as int), st.vars),
        Rhs::Value(t) => (term_val(t, st, ctx), st.vars),
        Rhs::Shr63(x) => ((st.vars)(x) >> 63u64, st.vars),
        Rhs::Shl1(x) => (((st.vars)(x) << 1u64) as u64, st.vars),
        Rhs::Shl1Or(x, y) => ((((st.vars)(x) << 1u64) as u64) | ((st.vars)(y) >> 63u64), st.vars),
    }
}

/// The number `v` modulo `wpow(k)`, written in `k` little-endian limbs.
pub open spec fn digits(v: nat, k: nat) -> Seq<u64> {
    Seq::new(k, |i: int| ((v / wpow(i as nat)) % word()) as u64)
}

/// The limbs after `self.reduce()`: where the emitted range check fails, the
/// modulus is subtracted from the limbs, with the borrow out of the top limb
/// dropped (`sub_noborrow`).
pub open spec fn reduce_limbs(limbs: Seq<u64>, modulus: Seq<u64>) -> Seq<u64> {
    let k = limbs.len();
    if k == 0 || cond_holds(valid_spec(k), limbs, modulus) {
        limbs
    } else {
        digits(
            ((seq_val(limbs) - seq_val(modulus.take(k as int))) % (wpow(k) as int)) as nat,
            k,
        )
    }
}

/// The state after one statement. A call of `mont_reduce` leaves the state as
/// it is here: what that method does is stated of its own emitted code.
pub open spec fn step(s: Stmt, st: State, ctx: Ctx) -> State {
    match s {
        Stmt::Assign(_, x, r) => {
            let (val, vars) = rhs_eval(r, st, ctx);
            State { vars: set_var(vars, x, val), limbs: st.limbs }
        },
        Stmt::Eval(r) => State { vars: rhs_eval(r, st, ctx).1, limbs: st.limbs },
        Stmt::StoreLimb(i, x) => State {
            vars: st.vars,
            limbs: st.limbs.update(i as int, (st.vars)(x)),
        },
        Stmt::Reduce => State { vars: st.vars, limbs: reduce_limbs(st.limbs, ctx.modulus) },
        Stmt::MontReduceCall(_) => st,
    }
}

/// The state after a sequence of statements, run in order.
pub open spec fn run(p: Seq<Stmt>, st: State, ctx: Ctx) -> State
    decreases p.len(),
{
    if p.len() == 0 {
        st
    } else {
        step(p.last(), run(p.drop_last(), st, ctx), ctx)
    }
}

/// The truth value of the range check, for the limbs `x` of `self` and `m` of
/// the modulus.
pub open spec fn cond_holds(c: Cond, x: Seq<u64>, m: Seq<u64>) -> bool
    decreases c,
{
    match c {
        Cond::Lt(i) => x[i as int] < m[i as int],
        Cond::LtOrEqAnd(i, rest) => x[i as int] < m[i as int] || (x[i as int] == m[i as int]
            && cond_holds(*rest, x, m)),
    }
}

} // verus!
