//! Modular rings and precomputed divisors on concrete values.

use bignum::fast_div::ConstDivisor;
use bignum::fops::FBig;
use bignum::ibig::IBig;
use bignum::modular::{ModuloRingDouble, ModuloRingSingle};
use bignum::round::Zero;
use bignum::ubig::UBig;

#[test]
fn modulo_ring_single_mul() {
    let ring = ModuloRingSingle::new(10);
    let a = ring.convert(7);
    let b = ring.convert(8);
    let p = ring.mul(a, b);
    assert_eq!(ring.retrieve(p), 6);
}

#[test]
fn modulo_ring_single_sqr() {
    let ring = ModuloRingSingle::new(97);
    let a = ring.convert(1234);
    let s = ring.sqr(a);
    assert_eq!(ring.retrieve(s), (1234u64 * 1234) % 97);
}

#[test]
fn modulo_ring_double_mul() {
    let m: u128 = (1u128 << 80) + 1;
    let ring = ModuloRingDouble::new(m);
    let a = ring.convert(3u128 << 40);
    let b = ring.convert(5u128 << 40);
    let p = ring.mul(a, b);
    // 15 * 2^80 == 15 * (2^80 + 1) - 15
    assert_eq!(ring.retrieve(p), m - 15);
}

#[test]
fn modulo_ring_double_sqr() {
    let m: u128 = u128::MAX - 4;
    let ring = ModuloRingDouble::new(m);
    let a = ring.convert(1u128 << 90);
    let s = ring.sqr(a);
    // 2^180 mod (2^128 - 5): 2^180 == 2^52 * (2^128 - 5) + 5 * 2^52
    assert_eq!(ring.retrieve(s), 5u128 << 52);
}

#[test]
fn const_divisor_div_rem_of() {
    let d = ConstDivisor::from_word(97);
    let x = UBig::from_word(1000);
    let (q, r) = d.div_rem_of(&x);
    assert_eq!(q, UBig::from_word(10));
    assert_eq!(r, UBig::from_word(30));
    assert_eq!(d.div_of(&x), UBig::from_word(10));

    let dd = ConstDivisor::from_dword(1u128 << 100);
    let y = UBig::from_dword((7u128 << 100) + 12345);
    let (q2, r2) = dd.div_rem_of(&y);
    assert_eq!(q2, UBig::from_word(7));
    assert_eq!(r2, UBig::from_word(12345));
}

#[test]
fn fbig_div_exact_value() {
    let one = FBig::<Zero, 10>::from_parts(IBig::from(1u64), 0);
    let two = FBig::<Zero, 10>::from_parts(IBig::from(2u64), 0);
    let q = one.div(&two);
    let (s, e) = q.into_parts();
    assert_eq!(s, IBig::from(5u64));
    assert_eq!(e, -1);
}
