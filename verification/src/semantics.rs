//! How runs of emitted code compose, and the words it leaves in its
//! temporaries.
use vstd::prelude::*;
use crate::gen::{concat_blocks, temp};
use crate::ir::{Bind, Ctx, Elem, Rhs, State, Stmt, Term, Var, run, seq_val, step, wpow};

verus! {

/// The temporaries `r0 .. r{k-1}` of a state, in order.
pub open spec fn temps(vars: spec_fn(Var) -> u64, k: nat) -> Seq<u64> {
    Seq::new(k, |t: int| vars(Var::Temp(t as usize)))
}

/// The limbs of a field element in a state.
pub open spec fn elem_limbs(e: Elem, st: State, ctx: Ctx) -> Seq<u64> {
    match e {
        Elem::SelfElem => st.limbs,
        Elem::Other => ctx.other,
    }
}

/// Running two pieces of code one after the other is running their
/// concatenation.
pub proof fn lemma_run_concat(p: Seq<Stmt>, q: Seq<Stmt>, st: State, ctx: Ctx)
    ensures
        run(p + q, st, ctx) == run(q, run(p, st, ctx), ctx),
    decreases q.len(),
{
    if q.len() == 0 {
        assert(p + q =~= p);
    } else {
        lemma_run_concat(p, q.drop_last(), st, ctx);
        assert((p + q).drop_last() =~= p + q.drop_last());
        assert((p + q).last() == q.last());
    }
}

/// Running one more block.
pub proof fn lemma_run_blocks_succ(f: spec_fn(nat) -> Seq<Stmt>, i: nat, st: State, ctx: Ctx)
    ensures
        run(concat_blocks(f, i + 1), st, ctx) == run(f(i), run(concat_blocks(f, i), st, ctx), ctx),
{
    assert(concat_blocks(f, i + 1) == concat_blocks(f, i) + f(i));
    lemma_run_concat(concat_blocks(f, i), f(i), st, ctx);
}

/// Running a single statement.
pub proof fn lemma_run_one(s: Stmt, st: State, ctx: Ctx)
    ensures
        run(seq![s], st, ctx) == step(s, st, ctx),
{
    assert(seq![s].drop_last() =~= Seq::<Stmt>::empty());
    assert(run(Seq::<Stmt>::empty(), st, ctx) == st);
    assert(seq![s].last() == s);
}

/// Running the first `j + 1` statements of a family.
pub proof fn lemma_run_new_succ(f: spec_fn(int) -> Stmt, j: nat, st: State, ctx: Ctx)
    ensures
        run(Seq::new(j + 1, f), st, ctx) == step(f(j as int), run(Seq::new(j, f), st, ctx), ctx),
{
    assert(Seq::new(j + 1, f).drop_last() =~= Seq::new(j, f));
}

/// Temporaries that two states agree on have the same value.
pub proof fn lemma_temps_agree(v1: spec_fn(Var) -> u64, v2: spec_fn(Var) -> u64, k: nat)
    requires
        forall|t: usize| t < k ==> #[trigger] v1(Var::Temp(t)) == v2(Var::Temp(t)),
    ensures
        temps(v1, k) == temps(v2, k),
{
    assert forall|t: int| 0 <= t < k implies temps(v1, k)[t] == temps(v2, k)[t] by {
        let u = t as usize;
        assert(v1(Var::Temp(u)) == v2(Var::Temp(u)));
    }
    assert(temps(v1, k) =~= temps(v2, k));
}

/// The value of the first `k + 1` temporaries.
pub proof fn lemma_temps_succ(v: spec_fn(Var) -> u64, k: nat)
    ensures
        seq_val(temps(v, k + 1)) == seq_val(temps(v, k)) + (v(Var::Temp(k as usize)) as nat) * wpow(k),
{
    assert(temps(v, k + 1).drop_last() =~= temps(v, k));
}

/// Changing one temporary `r{p}` below `k` changes the value of
/// `r0 .. r{k-1}` by the difference at `p`.
pub proof fn lemma_temps_update(v1: spec_fn(Var) -> u64, v2: spec_fn(Var) -> u64, p: nat, k: nat)
    requires
        p < k,
        k <= usize::MAX + 1,
        forall|t: usize| t != p ==> #[trigger] v2(Var::Temp(t)) == v1(Var::Temp(t)),
    ensures
        seq_val(temps(v2, k)) + (v1(Var::Temp(p as usize)) as nat) * wpow(p) == seq_val(temps(v1, k))
            + (v2(Var::Temp(p as usize)) as nat) * wpow(p),
    decreases k,
{
    let m = (k - 1) as nat;
    lemma_temps_succ(v1, m);
    lemma_temps_succ(v2, m);
    if m == p {
        lemma_temps_agree(v1, v2, m);
    } else {
        lemma_temps_update(v1, v2, p, m);
        assert(v2(Var::Temp(m as usize)) == v1(Var::Temp(m as usize)));
    }
}

/// Temporaries that are all zero stand for zero.
pub proof fn lemma_temps_zero(v: spec_fn(Var) -> u64, k: nat)
    requires
        forall|u: usize| u < k ==> #[trigger] v(Var::Temp(u)) == 0,
    ensures
        seq_val(temps(v, k)) == 0,
    decreases k,
{
    if k == 0 {
        assert(temps(v, 0) =~= Seq::<u64>::empty());
    } else {
        lemma_temps_zero(v, (k - 1) as nat);
        lemma_temps_succ(v, (k - 1) as nat);
        assert(v(Var::Temp((k - 1) as usize)) == 0);
    }
}

/// The stores `(self.0).0[i] = r{i}` for the first `k` limbs.
pub proof fn lemma_stores(n: nat, k: nat, st: State, ctx: Ctx)
    requires
        k <= n <= usize::MAX / 2,
        st.limbs.len() >= n,
    ensures
        ({
            let f = run(Seq::new(k, |i: int| Stmt::StoreLimb(i as usize, temp(i as nat))), st, ctx);
            &&& f.vars == st.vars
            &&& f.limbs.len() == st.limbs.len()
            &&& forall|t: int| 0 <= t < k ==> #[trigger] f.limbs[t] == (st.vars)(Var::Temp(t as usize))
        }),
    decreases k,
{
    let g = |i: int| Stmt::StoreLimb(i as usize, temp(i as nat));
    if k == 0 {
        assert(run(Seq::new(0, g), st, ctx) == st);
    } else {
        let h = (k - 1) as nat;
        lemma_stores(n, h, st, ctx);
        lemma_run_new_succ(g, h, st, ctx);
    }
    assert(Seq::new(k, g) == Seq::new(k, |i: int| Stmt::StoreLimb(i as usize, temp(i as nat))));
}

/// Declaring `r0 .. r{k-1}` as zero sets them to zero.
pub proof fn lemma_zero_temps(k: nat, st: State, ctx: Ctx)
    requires
        k <= usize::MAX,
    ensures
        ({
            let s2 = run(
                Seq::new(k, |i: int| Stmt::Assign(Bind::LetMut, temp(i as nat), Rhs::Value(Term::Zero))),
                st,
                ctx,
            );
            &&& s2.limbs == st.limbs
            &&& forall|u: usize| u < k ==> #[trigger] (s2.vars)(Var::Temp(u)) == 0
        }),
    decreases k,
{
    let f = |i: int| Stmt::Assign(Bind::LetMut, temp(i as nat), Rhs::Value(Term::Zero));
    if k == 0 {
        assert(run(Seq::new(0, f), st, ctx) == st);
    } else {
        let h = (k - 1) as nat;
        lemma_zero_temps(h, st, ctx);
        lemma_run_new_succ(f, h, st, ctx);
        assert(temp(h) == Var::Temp(h as usize));
    }
    assert(Seq::new(k, f) == Seq::new(k, |i: int| Stmt::Assign(Bind::LetMut, temp(i as nat), Rhs::Value(Term::Zero))));
}

} // verus!
