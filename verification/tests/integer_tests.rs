//! Integer arithmetic: ring operations, division, gcd, roots, logarithms,
//! byte conversions and precomputed divisors.

use bignum::buffer::Buffer;
use bignum::fast_div::{ConstDivisor, ConstSingleDivisor, ConstDoubleDivisor, ConstLargeDivisor};
use bignum::ibig::IBig;
use bignum::log_ops::log_with_power;
use bignum::ring::{DivRem, ExtendedGcd, Gcd, RootRem};
use bignum::futils::{get_precision, shl_radix, shr_radix, shr_rem_radix, shr_rem_radix_in_place};
use bignum::repr::{Repr, TypedRepr};
use bignum::ring::{AndNot, BitTest, PowerOfTwo};
use bignum::root_ops::{sqrt_rem_42, memory_requirement_sqrt_rem};
use bignum::sign::Sign;
use bignum::convert::OutOfBoundsError;
use bignum::ubig::UBig;

/// Build an unsigned value from a decimal string.
fn dec(s: &str) -> UBig {
    let ten = UBig::from_word(10);
    let mut v = UBig::zero();
    for c in s.bytes() {
        let d = (c - b'0') as u64;
        v = v.mul(&ten).add(&UBig::from_word(d));
    }
    v
}

/// A simple deterministic xorshift generator for randomized checks.
fn xorshift(state: &mut u64) -> u64 {
    let mut x = *state;
    x ^= x << 13;
    x ^= x >> 7;
    x ^= x << 17;
    *state = x;
    x
}

#[test]
fn test_add_sub_round_trip() {
    let a = dec("987654321987654321987654321987654321");
    let b = dec("123456789123456789123456789");
    let s = a.add(&b);
    let back = s.sub(&b);
    assert_eq!(back, a);
}

#[test]
fn test_neutral_elements() {
    let x = dec("240282366920938463463374607431768211455");
    assert_eq!(x.add(&UBig::zero()), x);
    assert_eq!(x.mul(&UBig::one()), x);
    assert_eq!(x.mul(&UBig::zero()), UBig::zero());
}

#[test]
fn test_commutative_and_associative() {
    let mut state = 0x853c49e6748fea9bu64;
    for _ in 0..50 {
        let a = UBig::from_dword(
            (xorshift(&mut state) as u128) << 64 | xorshift(&mut state) as u128,
        );
        let b = UBig::from_dword(
            (xorshift(&mut state) as u128) << 64 | xorshift(&mut state) as u128,
        );
        let c = UBig::from_word(xorshift(&mut state));
        assert_eq!(a.add(&b), b.add(&a));
        assert_eq!(a.mul(&b), b.mul(&a));
        assert_eq!(a.add(&b).add(&c), a.add(&b.add(&c)));
        assert_eq!(a.mul(&b).mul(&c), a.mul(&b.mul(&c)));
    }
}

#[test]
fn test_div_rem_euclidean() {
    let a = UBig::from_word(23);
    let b = UBig::from_word(10);
    let (q, r) = a.div_rem(&b);
    assert_eq!(q, UBig::from_word(2));
    assert_eq!(r, UBig::from_word(3));

    let big = dec("100000000000000000000000000000000000000000000000001");
    let d = dec("99999999999999999999999");
    let (q, r) = big.div_rem(&d);
    let back = q.mul(&d).add(&r);
    assert_eq!(back, big);
    assert_eq!(r.cmp(&d), -1);
}

#[test]
fn test_div_rem_primitive() {
    assert_eq!(23u64.div_rem(10u64), (2, 3));
    assert_eq!((1u128 << 100).div_rem(3u128), ((1u128 << 100) / 3, 1));
}

#[test]
fn test_shifts() {
    let x = dec("123456789012345678901234567890");
    let up = x.shl(130);
    let down = up.shr(130);
    assert_eq!(down, x);
    assert_eq!(UBig::one().shl(128), UBig::from_dword(u128::MAX).add(&UBig::one()));
}

#[test]
fn test_gcd() {
    let a = UBig::from_word(12);
    let b = UBig::from_word(18);
    assert_eq!(a.gcd(&b), UBig::from_word(6));

    let x = dec("123456789123456789123456789");
    let y = dec("987654321987654321");
    let g = x.gcd(&y);
    let (_, rx) = x.div_rem(&g);
    let (_, ry) = y.div_rem(&g);
    assert_eq!(rx, UBig::zero());
    assert_eq!(ry, UBig::zero());
}

#[test]
fn test_extended_gcd_bezout() {
    let a = dec("123456789123456789123456789");
    let b = dec("987654321987654321");
    let (g, s, t) = a.extended_gcd(&b);
    // the Bezout identity: s*a + t*b == g
    let sa = s.mul(&IBig::from(a.clone()));
    let tb = t.mul(&IBig::from(b.clone()));
    let total = sa.add(&tb);
    assert_eq!(total, IBig::from(g));
}

#[test]
fn test_gcd_ext_small() {
    let (g, cx, cy) = 12u8.gcd_ext(10u8);
    assert_eq!(g, 12u8.gcd(10u8));
    assert_eq!(g as i64, 12 * cx + 10 * cy);
    assert_eq!(g, 2);
}

#[test]
fn test_sqrt_rem_ubig() {
    // 2^256 - 1: the root and remainder of the Karatsuba-range case
    let n = UBig::from_dword(u128::MAX)
        .add(&UBig::one())
        .mul(&UBig::from_dword(u128::MAX).add(&UBig::one()))
        .sub(&UBig::one());
    let (s, e) = n.sqrt_rem();
    assert_eq!(s, dec("340282366920938463463374607431768211455"));
    // the remainder is 2s: one carry bit past two words, low part 2^128 - 2
    assert_eq!(e, dec("680564733841876926926749214863536422910"));
    assert_eq!(e, s.mul(&UBig::from_word(2)));
    let check = s.mul(&s).add(&e);
    assert_eq!(check, n);
}

#[test]
fn test_sqrt_42() {
    let a_words: [u64; 4] = [
        0xad89bea2c00e11d7,
        0x57ef5ccc20845169,
        0x29cf33821ea7b14e,
        0xded426442e1003f4,
    ];
    let mut a = Buffer::from_words(&a_words);
    let mut b = Buffer::from_words(&[0, 0]);
    let c = sqrt_rem_42(&mut b, &mut a);
    assert!(c);
    let s = UBig::from_le_bytes(&words_bytes(b.as_slice()));
    let r = UBig::from_le_bytes(&words_bytes(&a.as_slice()[..2]));
    assert_eq!(s, dec("317471712232297416216550966658362741242"));
    assert_eq!(r, dec("207656855896179259254063594487929956787"));

    let mut a = Buffer::from_words(&[u64::MAX, u64::MAX, u64::MAX, u64::MAX]);
    let mut b = Buffer::from_words(&[0, 0]);
    let c = sqrt_rem_42(&mut b, &mut a);
    assert!(c);
    let s = UBig::from_le_bytes(&words_bytes(b.as_slice()));
    let r = UBig::from_le_bytes(&words_bytes(&a.as_slice()[..2]));
    assert_eq!(s, dec("340282366920938463463374607431768211455"));
    assert_eq!(r, dec("340282366920938463463374607431768211454"));
    assert_eq!(memory_requirement_sqrt_rem(2), 0);
}

/// Little-endian bytes of a word slice.
fn words_bytes(words: &[u64]) -> Vec<u8> {
    let mut out = Vec::new();
    for w in words {
        for i in 0..8 {
            out.push(((w >> (8 * i)) & 0xff) as u8);
        }
    }
    out
}

#[test]
fn test_sqrt() {
    let mut state = 0x9e3779b97f4a7c15u64;
    for _ in 0..2000 {
        let n: u64 = xorshift(&mut state);
        let (root, rem) = n.sqrt_rem();
        assert!(rem <= root * 2, "sqrt({}) remainder too large", n);
        assert_eq!(n, root * root + rem, "sqrt({}) != {}, {}", n, root, rem);
    }
    for _ in 0..500 {
        let n: u128 = (xorshift(&mut state) as u128) << 64 | xorshift(&mut state) as u128;
        let (root, rem) = n.sqrt_rem();
        assert!(rem <= root * 2, "sqrt({}) remainder too large", n);
        assert_eq!(n, root * root + rem, "sqrt({}) != {}, {}", n, root, rem);
    }
}

#[test]
fn test_cbrt() {
    let mut state = 0xd1b54a32d192ed03u64;
    for _ in 0..2000 {
        let n: u64 = xorshift(&mut state);
        let (root, rem) = n.cbrt_rem();
        assert!(rem <= 3 * (root * (root + 1)));
        assert_eq!(n, root * root * root + rem, "cbrt({}) != {}, {}", n, root, rem);
    }
}

#[test]
fn test_log_truncated() {
    // 3^6 == 729 <= 1000 < 3^7
    let x = UBig::from_word(1000);
    let base = UBig::from_word(3);
    assert_eq!(x.log(&base), 6);
    let (k, p) = log_with_power(&x, &base);
    assert_eq!(k, 6);
    assert_eq!(p, UBig::from_word(729));

    let big = dec("81");
    assert_eq!(big.log(&UBig::from_word(3)), 4);
}

#[test]
fn test_bytes_round_trip() {
    let samples = [
        dec("0"),
        dec("1"),
        dec("255"),
        dec("256"),
        dec("18446744073709551616"),
        dec("340282366920938463463374607431768211456"),
        dec("100788288067706660892852085821456193179743392153874910688885216801600345870807"),
    ];
    for x in samples.iter() {
        let le = x.to_le_bytes();
        let be = x.to_be_bytes();
        assert_eq!(&UBig::from_le_bytes(&le), x);
        assert_eq!(&UBig::from_be_bytes(&be), x);
    }
    assert!(UBig::zero().to_le_bytes().is_empty());
    assert_eq!(UBig::from_le_bytes(&[3, 2, 1]), UBig::from_word(0x010203));
    assert_eq!(UBig::from_be_bytes(&[1, 2, 3]), UBig::from_word(0x010203));
}

#[test]
fn test_ibig_sign_algebra() {
    let x = IBig::from(-425i64);
    assert_eq!(x.neg().neg(), x);
    assert_eq!(x.add(&x.neg()), IBig::zero());
    assert_eq!(x.sub(&x), IBig::zero());
    assert_eq!(x.signum(), IBig::neg_one());
    assert_eq!(IBig::from(-500i64).signum(), IBig::from(-1i64));
    let (s, m) = x.clone().into_parts();
    assert_eq!(IBig::from_parts(s, m), x);
}

#[test]
fn test_ibig_div_rem() {
    let a = IBig::from(-23i64);
    let b = IBig::from(10i64);
    let (q, r) = a.div_rem(&b);
    assert_eq!(q, IBig::from(-2i64));
    assert_eq!(r, IBig::from(-3i64));
}

#[test]
fn test_const_divisor() {
    let d = ConstDivisor::from_word(10);
    let x = dec("123456789123456789123456789");
    let r = d.rem_of(&x);
    assert_eq!(r, UBig::from_word(9));

    let dd = ConstDivisor::from_dword(u128::MAX);
    let y = UBig::from_dword(u128::MAX).mul(&UBig::from_word(7)).add(&UBig::from_word(5));
    assert_eq!(dd.rem_of(&y), UBig::from_word(5));

    let big = dec("340282366920938463463374607431768211507");
    let dl = ConstDivisor::new(big.clone());
    let z = big.mul(&big).add(&UBig::from_word(41));
    assert_eq!(dl.rem_of(&z), UBig::from_word(41));
}

#[test]
fn test_const_single_divisor() {
    let d = ConstSingleDivisor::new(10);
    assert_eq!(d.divisor(), 10);
    // remainders come back in the normalized (shifted) scale
    let shifted = d.rem_word(7);
    assert_eq!(shifted >> d.shift, 7);
    let shifted = d.rem_dword(123456789012345678901234567890u128);
    assert_eq!(shifted >> d.shift, 0);

    let d2 = ConstDoubleDivisor::new(u128::MAX);
    assert_eq!(d2.divisor(), u128::MAX);

    let base = dec("340282366920938463463374607431768211507");
    let dl = ConstLargeDivisor::new(base.to_buffer());
    let back = dl.divisor();
    assert_eq!(UBig::from_le_bytes(&words_bytes(back.as_slice())), base);
}

#[test]
fn test_add_one_sub_one() {
    let x = UBig::from_dword(u128::MAX);
    let up = UBig(Repr { sign: Sign::Positive, magnitude: TypedRepr::Small(u128::MAX) });
    let bumped = up.into_repr().add_one();
    assert_eq!(UBig(bumped), x.add(&UBig::one()));
    let back = x.add(&UBig::one()).repr().sub_one();
    assert_eq!(UBig(back), x);
}

#[test]
fn test_radix_shifts() {
    let mut v = IBig::from(123i64);
    shl_radix::<10>(&mut v, 3);
    assert_eq!(v, IBig::from(123000i64));
    shr_radix::<10>(&mut v, 4);
    assert_eq!(v, IBig::from(12i64));
    assert_eq!(get_precision::<10>(&v), 2);

    let (q, r) = shr_rem_radix::<10>(&IBig::from(-12345i64), 2);
    assert_eq!(q, IBig::from(-123i64));
    assert_eq!(r, IBig::from(-45i64));

    let mut w = IBig::from(0b1011_0110i64);
    let rem = shr_rem_radix_in_place::<2>(&mut w, 3);
    assert_eq!(w, IBig::from(0b1_0110i64));
    assert_eq!(rem, IBig::from(0b110i64));
}

#[test]
fn test_bit_operations() {
    assert_eq!(0xffu64.and_not(0x11u64), 0xee);
    assert_eq!(12u64.bit_len(), 4);
    assert!(12u64.bit(2));
    assert!(!12u64.bit(1));
    assert_eq!(BitTest::trailing_zeros(&12u64), Some(2));
    assert_eq!(BitTest::trailing_zeros(&0u64), None);
    assert!(PowerOfTwo::is_power_of_two(&8u64));
    assert!(!PowerOfTwo::is_power_of_two(&12u64));

    let x = dec("340282366920938463463374607431768211456");
    assert_eq!(x.bit_len(), 129);
    assert!(x.bit(128));
    assert!(!x.bit(64));
}

#[test]
fn test_pow() {
    let three = UBig::from_word(3);
    assert_eq!(three.pow(0), UBig::one());
    assert_eq!(three.pow(5), UBig::from_word(243));
    assert_eq!(UBig::from_word(10).pow(30), dec("1000000000000000000000000000000"));
}

#[test]
fn extended_gcd_cofactor_bound() {
    let a = UBig::from_word(240);
    let b = UBig::from_word(46);
    let (g, s, t) = a.extended_gcd(&b);
    assert_eq!(g, UBig::from_word(2));
    // |s| * g <= b and |t| * g <= a
    let gm = 2u64;
    let sm = s.magnitude();
    let tm = t.magnitude();
    assert!(sm.mul(&UBig::from_word(gm)).cmp(&b) <= 0);
    assert!(tm.mul(&UBig::from_word(gm)).cmp(&a) <= 0);
    // the halved bounds: |s| <= b/(2g), |t| <= a/(2g)
    assert!(sm.cmp(&UBig::from_word(46 / (2 * gm))) <= 0);
    assert!(tm.cmp(&UBig::from_word(240 / (2 * gm))) <= 0);
}

#[test]
fn byte_strings_stay_short() {
    let x = UBig::from_dword(u128::MAX);
    let le = x.to_le_bytes();
    let be = x.to_be_bytes();
    assert_eq!(le.len(), 16);
    assert_eq!(be.len(), 16);
}

#[test]
fn narrowing_conversions() {
    let small = UBig::from_word(12345);
    assert_eq!(small.try_to_u64(), Ok(12345u64));
    assert_eq!(small.try_to_u128(), Ok(12345u128));
    let mid = UBig::from_dword(u128::MAX);
    assert_eq!(mid.try_to_u64(), Err(OutOfBoundsError));
    assert_eq!(mid.try_to_u128(), Ok(u128::MAX));
    let big = UBig::from_dword(u128::MAX).mul(&UBig::from_dword(u128::MAX));
    assert_eq!(big.try_to_u64(), Err(OutOfBoundsError));
    assert_eq!(big.try_to_u128(), Err(OutOfBoundsError));
}

#[test]
fn clone_from_reuses_allocation() {
    let big = UBig::from_le_bytes(&[0xff; 40]);
    let big2 = UBig::from_le_bytes(&[0xaa; 33]);
    let mut dst = big.clone();
    let cap_before = dst.0.capacity();
    dst.clone_from(&big2);
    assert_eq!(dst, big2);
    assert_eq!(dst.0.capacity(), cap_before);
}
