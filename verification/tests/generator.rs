use ff_derive::gen::{
    get_temp, mont_impl, mul_impl, mul_impl_asm4, mul_impl_cios, mul_impl_default,
    mul_impl_no_carry, prime_field_impl, sqr_impl, valid_impl, BLS_381_FR_MODULUS,
};
use ff_derive::ir::{Bind, Cond, Elem, MontParam, MulCode, ReprArg, Rhs, Stmt, Term, Var};

fn t(i: usize) -> Var {
    Var::Temp(i)
}

#[test]
fn get_temp_names_the_numbered_temporary() {
    assert_eq!(get_temp(0), Var::Temp(0));
    assert_eq!(get_temp(17), Var::Temp(17));
}

#[test]
fn valid_impl_nests_from_the_top_limb() {
    assert_eq!(valid_impl(0), Cond::Lt(0));
    assert_eq!(valid_impl(1), Cond::Lt(0));
    assert_eq!(
        valid_impl(3),
        Cond::LtOrEqAnd(2, Box::new(Cond::LtOrEqAnd(1, Box::new(Cond::Lt(0)))))
    );
}

#[test]
fn mont_impl_for_two_limbs() {
    let k = Term::Var(Var::K);
    let expected = vec![
        Stmt::Assign(Bind::Let, Var::K, Rhs::MulInv(t(0))),
        Stmt::Assign(Bind::LetMut, Var::Carry, Rhs::Value(Term::Zero)),
        Stmt::Eval(Rhs::Mac(Term::Var(t(0)), k, Term::Modulus(0), Var::Carry)),
        Stmt::Assign(Bind::Plain, t(1), Rhs::Mac(Term::Var(t(1)), k, Term::Modulus(1), Var::Carry)),
        Stmt::Assign(Bind::Plain, t(2), Rhs::Adc(Term::Var(t(2)), Term::Zero, Var::Carry)),
        Stmt::Assign(Bind::Let, Var::Carry2, Rhs::Value(Term::Var(Var::Carry))),
        Stmt::Assign(Bind::Let, Var::K, Rhs::MulInv(t(1))),
        Stmt::Assign(Bind::LetMut, Var::Carry, Rhs::Value(Term::Zero)),
        Stmt::Eval(Rhs::Mac(Term::Var(t(1)), k, Term::Modulus(0), Var::Carry)),
        Stmt::Assign(Bind::Plain, t(2), Rhs::Mac(Term::Var(t(2)), k, Term::Modulus(1), Var::Carry)),
        Stmt::Assign(
            Bind::Plain,
            t(3),
            Rhs::Adc(Term::Var(t(3)), Term::Var(Var::Carry2), Var::Carry),
        ),
        Stmt::StoreLimb(0, t(2)),
        Stmt::StoreLimb(1, t(3)),
    ];
    assert_eq!(mont_impl(2), expected);
}

#[test]
fn mont_impl_for_no_limbs_is_empty() {
    assert!(mont_impl(0).is_empty());
}

#[test]
fn mul_impl_default_for_one_limb() {
    let a = Elem::SelfElem;
    let b = Elem::Other;
    let expected = vec![
        Stmt::Assign(Bind::LetMut, Var::Carry, Rhs::Value(Term::Zero)),
        Stmt::Assign(
            Bind::Let,
            t(0),
            Rhs::Mac(Term::Zero, Term::Limb(a, 0), Term::Limb(b, 0), Var::Carry),
        ),
        Stmt::Assign(Bind::Let, t(1), Rhs::Value(Term::Var(Var::Carry))),
        Stmt::MontReduceCall(2),
    ];
    assert_eq!(mul_impl_default(a, b, 1), expected);
}

#[test]
fn mul_impl_default_sizes() {
    for n in 1..8usize {
        // n rows of n + 2 statements, then the call
        assert_eq!(mul_impl_default(Elem::SelfElem, Elem::Other, n).len(), n * (n + 2) + 1);
    }
}

#[test]
fn sqr_impl_for_two_limbs() {
    let a = Elem::SelfElem;
    let expected = vec![
        Stmt::Assign(Bind::LetMut, Var::Carry, Rhs::Value(Term::Zero)),
        Stmt::Assign(
            Bind::Let,
            t(1),
            Rhs::Mac(Term::Zero, Term::Limb(a, 0), Term::Limb(a, 1), Var::Carry),
        ),
        Stmt::Assign(Bind::Let, t(2), Rhs::Value(Term::Var(Var::Carry))),
        Stmt::Assign(Bind::Let, t(3), Rhs::Shr63(t(2))),
        Stmt::Assign(Bind::Let, t(2), Rhs::Shl1Or(t(2), t(1))),
        Stmt::Assign(Bind::Let, t(1), Rhs::Shl1(t(1))),
        Stmt::Assign(Bind::LetMut, Var::Carry, Rhs::Value(Term::Zero)),
        Stmt::Assign(
            Bind::Let,
            t(0),
            Rhs::Mac(Term::Zero, Term::Limb(a, 0), Term::Limb(a, 0), Var::Carry),
        ),
        Stmt::Assign(Bind::Let, t(1), Rhs::Adc(Term::Var(t(1)), Term::Zero, Var::Carry)),
        Stmt::Assign(
            Bind::Let,
            t(2),
            Rhs::Mac(Term::Var(t(2)), Term::Limb(a, 1), Term::Limb(a, 1), Var::Carry),
        ),
        Stmt::Assign(Bind::Let, t(3), Rhs::Adc(Term::Var(t(3)), Term::Zero, Var::Carry)),
        Stmt::MontReduceCall(4),
    ];
    assert_eq!(sqr_impl(a, 2), expected);
}

#[test]
fn no_carry_opens_with_zeroed_words_and_ends_with_reduce() {
    let code = mul_impl_no_carry(Elem::SelfElem, Elem::Other, 3);
    assert_eq!(code[0], Stmt::Assign(Bind::LetMut, Var::C, Rhs::Value(Term::Zero)));
    assert_eq!(code[4], Stmt::Assign(Bind::LetMut, t(0), Rhs::Value(Term::Zero)));
    assert_eq!(code[6], Stmt::Assign(Bind::LetMut, t(2), Rhs::Value(Term::Zero)));
    assert_eq!(code[code.len() - 1], Stmt::Reduce);
    assert_eq!(code[code.len() - 2], Stmt::StoreLimb(2, t(2)));
    // prelude 4 + 3, three rows of 4 + 2 * 2, stores 3, reduce
    assert_eq!(code.len(), 7 + 3 * 8 + 3 + 1);
    // the last reduction step of a row writes the top word
    assert_eq!(
        code[7 + 7],
        Stmt::Assign(
            Bind::Plain,
            t(1),
            Rhs::MacE(
                Term::Var(Var::C0),
                Term::Var(Var::M),
                Term::Modulus(2),
                Term::Var(Var::C2),
                Term::Var(Var::C1),
                t(2),
            ),
        )
    );
}

#[test]
fn cios_row_ends_by_spreading_d_plus_carry() {
    let code = mul_impl_cios(Elem::SelfElem, Elem::Other, 2);
    // prelude r0, r1, r2
    assert_eq!(code[2], Stmt::Assign(Bind::LetMut, t(2), Rhs::Value(Term::Zero)));
    // each row: carry, first product, one more, d, m, clear, one reduction step, last
    assert_eq!(code.len(), 3 + 2 * 8 + 2 + 1);
    assert_eq!(
        code[3 + 7],
        Stmt::Assign(
            Bind::Plain,
            t(1),
            Rhs::MacSimple(Term::Var(Var::D), Term::Var(Var::Carry), Term::One, t(2)),
        )
    );
    assert_eq!(
        code[3 + 4],
        Stmt::Assign(
            Bind::LetMut,
            Var::M,
            Rhs::MacSimple(Term::Zero, Term::Var(t(0)), Term::Inv, Var::Carry),
        )
    );
}

#[test]
fn mul_impl_picks_the_assembly_for_bls12_381_on_x86_64() {
    match mul_impl(Elem::SelfElem, Elem::Other, 4, BLS_381_FR_MODULUS, true, true) {
        MulCode::AdxOrElse(a, b, fallback) => {
            assert_eq!(a, Elem::SelfElem);
            assert_eq!(b, Elem::Other);
            assert_eq!(fallback, mul_impl_default(Elem::SelfElem, Elem::Other, 4));
        }
        other => panic!("unexpected {:?}", other),
    }
}

#[test]
fn mul_impl_without_x86_64_uses_no_carry_when_asked() {
    match mul_impl(Elem::SelfElem, Elem::Other, 4, BLS_381_FR_MODULUS, true, false) {
        MulCode::Straight(code) => {
            assert_eq!(code, mul_impl_no_carry(Elem::SelfElem, Elem::Other, 4))
        }
        other => panic!("unexpected {:?}", other),
    }
}

#[test]
fn mul_impl_other_modulus_uses_no_carry_below_twelve_limbs() {
    match mul_impl(Elem::SelfElem, Elem::Other, 4, "17", true, true) {
        MulCode::Straight(code) => {
            assert_eq!(code, mul_impl_no_carry(Elem::SelfElem, Elem::Other, 4))
        }
        other => panic!("unexpected {:?}", other),
    }
}

#[test]
fn mul_impl_uses_cios_from_twelve_limbs_or_without_no_carry() {
    match mul_impl(Elem::SelfElem, Elem::Other, 12, "17", true, true) {
        MulCode::Straight(code) => assert_eq!(code, mul_impl_cios(Elem::SelfElem, Elem::Other, 12)),
        other => panic!("unexpected {:?}", other),
    }
    match mul_impl(Elem::SelfElem, Elem::Other, 6, "17", false, true) {
        MulCode::Straight(code) => assert_eq!(code, mul_impl_cios(Elem::SelfElem, Elem::Other, 6)),
        other => panic!("unexpected {:?}", other),
    }
}

#[test]
fn mul_impl_asm4_falls_back_to_the_schoolbook_code() {
    match mul_impl_asm4(Elem::SelfElem, Elem::Other) {
        MulCode::AdxOrElse(_, _, fallback) => {
            assert_eq!(fallback.len(), 4 * 6 + 1);
            assert_eq!(fallback[fallback.len() - 1], Stmt::MontReduceCall(8));
        }
        other => panic!("unexpected {:?}", other),
    }
}

#[test]
fn prime_field_impl_for_four_limbs() {
    let code = prime_field_impl(4, BLS_381_FR_MODULUS, true, true);
    assert_eq!(code.top_limb_index, 3);
    assert_eq!(code.mont_params.len(), 8);
    assert_eq!(code.mont_params[0], MontParam { index: 0, mutable: false });
    assert_eq!(code.mont_params[7], MontParam { index: 7, mutable: true });
    assert_eq!(code.into_repr_args.len(), 8);
    assert_eq!(code.into_repr_args[3], ReprArg::SelfLimb(3));
    assert_eq!(code.into_repr_args[4], ReprArg::Zero);
    assert_eq!(code.montgomery, mont_impl(4));
    assert_eq!(code.squaring, sqr_impl(Elem::SelfElem, 4));
    assert_eq!(code.is_valid, valid_impl(4));
    assert!(matches!(code.multiply, MulCode::AdxOrElse(..)));
}

#[test]
fn prime_field_impl_for_one_limb() {
    let code = prime_field_impl(1, "7", false, false);
    assert_eq!(code.top_limb_index, 0);
    assert_eq!(
        code.mont_params,
        vec![MontParam { index: 0, mutable: false }, MontParam { index: 1, mutable: true }]
    );
    assert_eq!(code.into_repr_args, vec![ReprArg::SelfLimb(0), ReprArg::Zero]);
    assert_eq!(code.is_valid, Cond::Lt(0));
    match code.multiply {
        MulCode::Straight(c) => assert_eq!(c, mul_impl_cios(Elem::SelfElem, Elem::Other, 1)),
        other => panic!("unexpected {:?}", other),
    }
}
