//! What the emitted range check decides.
use vstd::prelude::*;
use crate::arith::{lemma_compare_by_top, lemma_seq_val_bound, lemma_seq_val_take_succ};
use crate::gen::valid_spec;
use crate::ir::{Cond, cond_holds, seq_val, wpow};

verus! {

/// The range check that `valid_impl` writes for `n` limbs holds exactly when
/// the number in the first `n` limbs of `self` is below the one in the first
/// `n` limbs of the modulus.
pub proof fn theorem_valid_is_less_than(n: nat, x: Seq<u64>, m: Seq<u64>)
    requires
        1 <= n <= usize::MAX,
        n <= x.len(),
        n <= m.len(),
    ensures
        cond_holds(valid_spec(n), x, m) == (seq_val(x.take(n as int)) < seq_val(
            m.take(n as int),
        )),
    decreases n,
{
    if n == 1 {
        lemma_seq_val_take_succ(x, 0);
        lemma_seq_val_take_succ(m, 0);
        assert(x.take(0) =~= Seq::<u64>::empty());
        assert(m.take(0) =~= Seq::<u64>::empty());
        assert(wpow(0) == 1);
        assert(valid_spec(n) == Cond::Lt(0));
    } else {
        let k = (n - 1) as nat;
        theorem_valid_is_less_than(k, x, m);
        lemma_seq_val_take_succ(x, k as int);
        lemma_seq_val_take_succ(m, k as int);
        lemma_seq_val_bound(x.take(k as int));
        lemma_seq_val_bound(m.take(k as int));
        lemma_compare_by_top(
            seq_val(x.take(k as int)),
            seq_val(m.take(k as int)),
            x[k as int] as nat,
            m[k as int] as nat,
            wpow(k),
        );
        assert(valid_spec(n) == Cond::LtOrEqAnd(k as usize, Box::new(valid_spec(k))));
        assert(cond_holds(valid_spec(n), x, m) == (x[k as int] < m[k as int] || (x[k as int] == m[k as int] && cond_holds(valid_spec(k), x, m))));
    }
}

} // verus!
