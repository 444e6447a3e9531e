//! Runs the emitted code on numbers, with the arithmetic of `fff` where it
//! has the routine, and checks what it computes.
use ff_derive::gen::{mont_impl, mul_impl_cios, mul_impl_default, mul_impl_no_carry, sqr_impl};
use ff_derive::ir::{Elem, Rhs, Stmt, Term, Var};

struct Machine {
    temps: Vec<u64>,
    named: [u64; 10],
    this: Vec<u64>,
    other: Vec<u64>,
    modulus: Vec<u64>,
    inv: u64,
}

fn named_index(v: Var) -> usize {
    match v {
        Var::Carry => 0,
        Var::Carry2 => 1,
        Var::K => 2,
        Var::C => 3,
        Var::C0 => 4,
        Var::C1 => 5,
        Var::C2 => 6,
        Var::V => 7,
        Var::M => 8,
        Var::D => 9,
        Var::Temp(_) => unreachable!(),
    }
}

impl Machine {
    fn new(this: Vec<u64>, other: Vec<u64>, modulus: Vec<u64>, inv: u64) -> Machine {
        Machine { temps: vec![0xdead_beef; 64], named: [0xdead_beef; 10], this, other, modulus, inv }
    }

    fn get(&self, v: Var) -> u64 {
        match v {
            Var::Temp(i) => self.temps[i],
            other => self.named[named_index(other)],
        }
    }

    fn set(&mut self, v: Var, x: u64) {
        match v {
            Var::Temp(i) => self.temps[i] = x,
            other => self.named[named_index(other)] = x,
        }
    }

    fn term(&self, t: Term) -> u64 {
        match t {
            Term::Zero => 0,
            Term::One => 1,
            Term::Var(v) => self.get(v),
            Term::Limb(Elem::SelfElem, i) => self.this[i],
            Term::Limb(Elem::Other, i) => self.other[i],
            Term::Modulus(i) => self.modulus[i],
            Term::Inv => self.inv,
        }
    }

    fn split(&mut self, t: u128, k: Var) -> u64 {
        self.set(k, (t >> 64) as u64);
        t as u64
    }

    fn rhs(&mut self, r: Rhs) -> u64 {
        match r {
            Rhs::Mac(a, b, c, k) => {
                let mut carry = self.get(k);
                let out = fff::mac_with_carry(self.term(a), self.term(b), self.term(c), &mut carry);
                self.set(k, carry);
                out
            }
            Rhs::Adc(a, b, k) => {
                let mut carry = self.get(k);
                let out = fff::adc(self.term(a), self.term(b), &mut carry);
                self.set(k, carry);
                out
            }
            Rhs::MacSimple(a, b, c, k) => {
                let t = self.term(a) as u128 + self.term(b) as u128 * self.term(c) as u128;
                self.split(t, k)
            }
            Rhs::MacD(a, b, c, d, k) => {
                let t = self.term(a) as u128
                    + self.term(b) as u128 * self.term(c) as u128
                    + self.term(d) as u128;
                self.split(t, k)
            }
            Rhs::MacE(a, b, c, d, e, k) => {
                let t = (self.term(a) as u128 + self.term(b) as u128 * self.term(c) as u128)
                    .wrapping_add(self.term(d) as u128)
                    .wrapping_add((self.term(e) as u128) << 64);
                self.split(t, k)
            }
            Rhs::MulInv(x) => self.get(x).wrapping_mul(self.inv),
            Rhs::Value(t) => self.term(t),
            Rhs::Shr63(x) => self.get(x) >> 63,
            Rhs::Shl1(x) => self.get(x) << 1,
            Rhs::Shl1Or(x, y) => (self.get(x) << 1) | (self.get(y) >> 63),
        }
    }

    fn run(&mut self, code: &[Stmt]) {
        for s in code {
            match *s {
                Stmt::Assign(_, x, r) => {
                    let v = self.rhs(r);
                    self.set(x, v);
                }
                Stmt::Eval(r) => {
                    self.rhs(r);
                }
                Stmt::StoreLimb(i, x) => self.this[i] = self.get(x),
                Stmt::Reduce => self.reduce(),
                Stmt::MontReduceCall(_) => {}
            }
        }
    }

    /// `self.reduce()`: where the emitted range check fails, subtract the
    /// modulus with the borrow out of the top limb dropped.
    fn reduce(&mut self) {
        let check = ff_derive::gen::valid_impl(self.this.len());
        if !cond_holds(&check, &self.this, &self.modulus) {
            let mut borrow = 0u64;
            for i in 0..self.this.len() {
                self.this[i] = fff::sbb(self.this[i], self.modulus[i], &mut borrow);
            }
        }
    }

    /// The body of the emitted `mont_reduce`: the reduction, then `self.reduce()`.
    fn mont_reduce(&mut self, n: usize) {
        self.run(&mont_impl(n));
        self.reduce();
    }
}

/// `-1 / m mod 2^64` for odd `m`.
fn neg_inv(m: u64) -> u64 {
    let mut inv = 1u64;
    for _ in 0..6 {
        inv = inv.wrapping_mul(2u64.wrapping_sub(m.wrapping_mul(inv)));
    }
    inv.wrapping_neg()
}

fn to_u128(limbs: &[u64]) -> u128 {
    limbs[0] as u128 | (limbs[1] as u128) << 64
}

/// `x * y mod m` for `m < 2^127`.
fn mul_mod(x: u128, y: u128, m: u128) -> u128 {
    let mut acc = 0u128;
    let mut base = x % m;
    let mut e = y;
    while e > 0 {
        if e & 1 == 1 {
            acc = (acc + base) % m;
        }
        base = (base + base) % m;
        e >>= 1;
    }
    acc
}

/// The product of two numbers of two limbs, as four limbs.
fn product_2x2(a: &[u64], b: &[u64]) -> Vec<u64> {
    let mut out = vec![0u64; 4];
    for i in 0..2 {
        let mut carry = 0u128;
        for j in 0..2 {
            let t = out[i + j] as u128 + a[i] as u128 * b[j] as u128 + carry;
            out[i + j] = t as u64;
            carry = t >> 64;
        }
        out[i + 2] = carry as u64;
    }
    out
}

const M61: u64 = (1 << 61) - 1;
const M127: [u64; 2] = [u64::MAX, (1 << 63) - 1];

#[test]
fn neg_inv_is_the_negated_inverse() {
    assert_eq!(M61.wrapping_mul(neg_inv(M61)).wrapping_add(1), 0);
    assert_eq!(M127[0].wrapping_mul(neg_inv(M127[0])).wrapping_add(1), 0);
}

#[test]
fn schoolbook_product_of_one_limb() {
    let a = 0xfedc_ba98_7654_3210u64;
    let b = 0x0123_4567_89ab_cdefu64;
    let mut m = Machine::new(vec![a], vec![b], vec![M61], neg_inv(M61));
    m.run(&mul_impl_default(Elem::SelfElem, Elem::Other, 1));
    let p = a as u128 * b as u128;
    assert_eq!(m.temps[0], p as u64);
    assert_eq!(m.temps[1], (p >> 64) as u64);
}

#[test]
fn schoolbook_product_of_two_limbs() {
    let a = vec![u64::MAX, u64::MAX - 5];
    let b = vec![0x8000_0000_0000_0001, u64::MAX];
    let mut m = Machine::new(a.clone(), b.clone(), M127.to_vec(), neg_inv(M127[0]));
    m.run(&mul_impl_default(Elem::SelfElem, Elem::Other, 2));
    assert_eq!(m.temps[0..4].to_vec(), product_2x2(&a, &b));
}

#[test]
fn square_of_two_and_three_limbs() {
    for a in [vec![u64::MAX, u64::MAX], vec![3, 0x8000_0000_0000_0000], vec![12345, 0]] {
        let mut m = Machine::new(a.clone(), vec![], M127.to_vec(), 0);
        m.run(&sqr_impl(Elem::SelfElem, 2));
        assert_eq!(m.temps[0..4].to_vec(), product_2x2(&a, &a));
    }
    let a = vec![u64::MAX, 7, u64::MAX - 1];
    let mut sq = Machine::new(a.clone(), vec![], vec![], 0);
    sq.run(&sqr_impl(Elem::SelfElem, 3));
    let mut mul = Machine::new(a.clone(), a.clone(), vec![], 0);
    mul.run(&mul_impl_default(Elem::SelfElem, Elem::Other, 3));
    assert_eq!(sq.temps[0..6].to_vec(), mul.temps[0..6].to_vec());
}

#[test]
fn montgomery_reduction_of_one_limb() {
    let r = (1u128 << 64) % M61 as u128;
    for t in [0u128, 1, 12345, (M61 as u128) * (M61 as u128) - 1, (M61 as u128) << 40] {
        let mut m = Machine::new(vec![0], vec![], vec![M61], neg_inv(M61));
        m.temps[0] = t as u64;
        m.temps[1] = (t >> 64) as u64;
        m.mont_reduce(1);
        let out = m.this[0] as u128;
        assert!(out < M61 as u128);
        assert_eq!(out * r % M61 as u128, t % M61 as u128);
    }
}

#[test]
fn montgomery_reduction_of_two_limbs() {
    let p = to_u128(&M127);
    let r = (u128::MAX % p + 1) % p; // 2^128 mod p
    let x = vec![0x1234_5678_9abc_def0, 0x0fed_cba9_8765_4321];
    let y = vec![u64::MAX - 1, 0x7fff_ffff_0000_0000];
    let t = product_2x2(&x, &y);
    let mut m = Machine::new(vec![0, 0], vec![], M127.to_vec(), neg_inv(M127[0]));
    m.temps[0..4].copy_from_slice(&t);
    m.mont_reduce(2);
    let out = to_u128(&m.this);
    assert!(out < p);
    assert_eq!(mul_mod(out, r, p), mul_mod(to_u128(&x), to_u128(&y), p));
}

#[test]
fn cios_product_of_one_and_two_limbs() {
    let r1 = (1u128 << 64) % M61 as u128;
    let a = M61 - 3;
    let b = 0x1234_5678_9abc_def0 % M61;
    let mut m = Machine::new(vec![a], vec![b], vec![M61], neg_inv(M61));
    m.run(&mul_impl_cios(Elem::SelfElem, Elem::Other, 1));
    let out = m.this[0] as u128;
    assert!(out < M61 as u128);
    assert_eq!(out * r1 % M61 as u128, a as u128 * b as u128 % M61 as u128);

    let p = to_u128(&M127);
    let r2 = (u128::MAX % p + 1) % p;
    let a = vec![u64::MAX - 10, 0x7fff_ffff_ffff_fff0];
    let b = vec![0xdead_beef_dead_beef, 0x1234_5678_9abc_def0];
    let mut m = Machine::new(a.clone(), b.clone(), M127.to_vec(), neg_inv(M127[0]));
    m.run(&mul_impl_cios(Elem::SelfElem, Elem::Other, 2));
    let out = to_u128(&m.this);
    assert!(out < p);
    assert_eq!(mul_mod(out, r2, p), mul_mod(to_u128(&a), to_u128(&b), p));
}

#[test]
fn no_carry_product_of_two_limbs() {
    let p = to_u128(&M127);
    let r2 = (u128::MAX % p + 1) % p;
    for (a, b) in [
        (vec![u64::MAX - 10, 0x7fff_ffff_ffff_fff0], vec![0xdead_beef_dead_beef, 0x1234_5678_9abc_def0]),
        (vec![1, 0], vec![1, 0]),
        (vec![u64::MAX - 1, 0x7fff_ffff_ffff_ffff], vec![u64::MAX - 1, 0x7fff_ffff_ffff_ffff]),
    ] {
        let mut m = Machine::new(a.clone(), b.clone(), M127.to_vec(), neg_inv(M127[0]));
        m.run(&mul_impl_no_carry(Elem::SelfElem, Elem::Other, 2));
        let out = to_u128(&m.this);
        assert!(out < p);
        assert_eq!(mul_mod(out, r2, p), mul_mod(to_u128(&a), to_u128(&b), p));
    }
}

fn cond_holds(c: &ff_derive::ir::Cond, x: &[u64], m: &[u64]) -> bool {
    match c {
        ff_derive::ir::Cond::Lt(i) => x[*i] < m[*i],
        ff_derive::ir::Cond::LtOrEqAnd(i, rest) => {
            x[*i] < m[*i] || (x[*i] == m[*i] && cond_holds(rest, x, m))
        }
    }
}

#[test]
fn range_check_is_the_numeric_comparison() {
    let cond = ff_derive::gen::valid_impl(2);
    let values: [[u64; 2]; 6] = [[0, 0], [1, 0], [u64::MAX, 0], [0, 1], [5, 7], [u64::MAX, 7]];
    for x in values.iter() {
        for m in values.iter() {
            assert_eq!(cond_holds(&cond, x, m), to_u128(x) < to_u128(m), "{:?} {:?}", x, m);
        }
    }
}

#[test]
fn into_repr_takes_out_of_montgomery_form() {
    let p = to_u128(&M127);
    let r2 = (u128::MAX % p + 1) % p;
    let x = vec![0x0123_4567_89ab_cdef, 0x7654_3210_fedc_ba98];
    let args = ff_derive::gen::prime_field_impl(2, "x", true, false).into_repr_args;
    let mut m = Machine::new(x.clone(), vec![], M127.to_vec(), neg_inv(M127[0]));
    for (t, arg) in args.iter().enumerate() {
        m.temps[t] = match *arg {
            ff_derive::ir::ReprArg::SelfLimb(i) => x[i],
            ff_derive::ir::ReprArg::Zero => 0,
        };
    }
    m.mont_reduce(2);
    let out = to_u128(&m.this);
    assert!(out < p);
    assert_eq!(mul_mod(out, r2, p), to_u128(&x) % p);
}

#[test]
fn schoolbook_then_reduction_is_the_montgomery_product() {
    let p = to_u128(&M127);
    let r2 = (u128::MAX % p + 1) % p;
    let a = vec![0xffff_0000_ffff_0000, 0x7000_0000_0000_0001];
    let b = vec![0x1111_2222_3333_4444, 0x0555_6666_7777_8888];
    let mut m = Machine::new(a.clone(), b.clone(), M127.to_vec(), neg_inv(M127[0]));
    m.run(&mul_impl_default(Elem::SelfElem, Elem::Other, 2));
    m.mont_reduce(2);
    let out = to_u128(&m.this);
    assert!(out < p);
    assert_eq!(mul_mod(out, r2, p), mul_mod(to_u128(&a), to_u128(&b), p));
}

#[test]
fn reduce_subtracts_the_modulus_once() {
    let p = to_u128(&M127);
    for x in [0u128, 5, p - 1, p, p + 5, 2 * p - 1] {
        let limbs = vec![x as u64, (x >> 64) as u64];
        let mut m = Machine::new(limbs, vec![], M127.to_vec(), 0);
        m.reduce();
        assert_eq!(to_u128(&m.this), x % p);
    }
    let mut m = Machine::new(vec![M61 + 9], vec![], vec![M61], 0);
    m.reduce();
    assert_eq!(m.this, vec![9]);
}

#[test]
fn square_then_reduction_is_the_montgomery_square() {
    let p = to_u128(&M127);
    let r2 = (u128::MAX % p + 1) % p;
    let a = vec![0x0f0f_0f0f_0f0f_0f0f, 0x7fff_ffff_ffff_fff0];
    let mut m = Machine::new(a.clone(), vec![], M127.to_vec(), neg_inv(M127[0]));
    m.run(&sqr_impl(Elem::SelfElem, 2));
    m.mont_reduce(2);
    let out = to_u128(&m.this);
    assert!(out < p);
    assert_eq!(mul_mod(out, r2, p), mul_mod(to_u128(&a), to_u128(&a), p));
}

const BLS_FR: [u64; 4] = [
    0xffffffff00000001,
    0x53bda402fffe5bfe,
    0x3339d80809a1d805,
    0x73eda753299d7d48,
];

fn less_256(x: &[u64], y: &[u64]) -> bool {
    for i in (0..4).rev() {
        if x[i] != y[i] {
            return x[i] < y[i];
        }
    }
    false
}

/// `2 x mod p` for `x < p < 2^255`.
fn double_mod(x: &[u64], p: &[u64]) -> Vec<u64> {
    let mut out = vec![0u64; 4];
    let mut carry = 0u64;
    for i in 0..4 {
        out[i] = (x[i] << 1) | carry;
        carry = x[i] >> 63;
    }
    if !less_256(&out, p) {
        let mut borrow = 0u64;
        for i in 0..4 {
            out[i] = fff::sbb(out[i], p[i], &mut borrow);
        }
    }
    out
}

/// `2^k mod p`.
fn pow2_mod(k: usize, p: &[u64]) -> Vec<u64> {
    let mut x = vec![1u64, 0, 0, 0];
    for _ in 0..k {
        x = double_mod(&x, p);
    }
    x
}

/// The emitted `from_repr` of the BLS12-381 scalar field: the range check,
/// then the product with `R2` as `prime_field_impl` writes it.
fn bls_from_repr(r: &[u64]) -> Option<Vec<u64>> {
    let code = ff_derive::gen::prime_field_impl(4, ff_derive::gen::BLS_381_FR_MODULUS, false, false);
    if !cond_holds(&code.is_valid, r, &BLS_FR) {
        return None;
    }
    let mul = match code.multiply {
        ff_derive::ir::MulCode::Straight(s) => s,
        ff_derive::ir::MulCode::AdxOrElse(_, _, _) => unreachable!(),
    };
    let mut m = Machine::new(r.to_vec(), pow2_mod(512, &BLS_FR), BLS_FR.to_vec(), neg_inv(BLS_FR[0]));
    m.run(&mul);
    Some(m.this)
}

/// The emitted `into_repr` of the BLS12-381 scalar field.
fn bls_into_repr(x: &[u64]) -> Vec<u64> {
    let code = ff_derive::gen::prime_field_impl(4, ff_derive::gen::BLS_381_FR_MODULUS, false, false);
    let mut m = Machine::new(x.to_vec(), vec![], BLS_FR.to_vec(), neg_inv(BLS_FR[0]));
    for (t, arg) in code.into_repr_args.iter().enumerate() {
        m.temps[t] = match *arg {
            ff_derive::ir::ReprArg::SelfLimb(i) => x[i],
            ff_derive::ir::ReprArg::Zero => 0,
        };
    }
    m.mont_reduce(4);
    m.this
}

#[test]
fn bls_from_repr_checks_and_round_trips() {
    assert_eq!(bls_from_repr(&BLS_FR), None);
    let below = [BLS_FR[0] - 1, BLS_FR[1], BLS_FR[2], BLS_FR[3]];
    let x = bls_from_repr(&below).unwrap();
    assert!(less_256(&x, &BLS_FR));
    assert_eq!(bls_into_repr(&x), below.to_vec());
    assert_eq!(bls_from_repr(&[0, 0, 0, 0]).unwrap(), vec![0, 0, 0, 0]);
    let one = bls_from_repr(&[1, 0, 0, 0]).unwrap();
    assert_eq!(one, pow2_mod(256, &BLS_FR));
}

#[test]
fn bls_elements_order_by_value_not_by_words() {
    let four = bls_from_repr(&[4, 0, 0, 0]).unwrap();
    let five = bls_from_repr(&[5, 0, 0, 0]).unwrap();
    // The Montgomery words order the other way round ...
    assert!(less_256(&five, &four));
    // ... but `cmp` compares what `into_repr` gives.
    let (a, b) = (bls_into_repr(&four), bls_into_repr(&five));
    assert_eq!(a, vec![4, 0, 0, 0]);
    assert_eq!(b, vec![5, 0, 0, 0]);
    assert!(less_256(&a, &b));
}
