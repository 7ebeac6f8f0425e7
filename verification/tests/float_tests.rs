//! Float kernel: normalization, rounded division, and the logarithm series.

use bignum::fbig::{Context, FloatRepr};
use bignum::fops::FBig;
use bignum::ibig::IBig;
use bignum::round::{Approximation, HalfAway, Zero};
use bignum::ubig::UBig;

/// Build an unsigned value from a decimal string.
fn dec(s: &str) -> UBig {
    let ten = UBig::from_word(10);
    let mut v = UBig::zero();
    for c in s.bytes() {
        let d = (c - b'0') as u64;
        v = v.mul(&ten).add(&UBig::from_word(d));
    }
    v
}

fn idec(s: &str) -> IBig {
    IBig::from(dec(s))
}

#[test]
fn test_normalization() {
    // trailing base factors move into the exponent
    let f = FBig::<Zero, 10>::from_parts(IBig::from(123000u64), -2);
    let (s, e) = f.into_parts();
    assert_eq!(s, IBig::from(123u64));
    assert_eq!(e, 1);

    let b = FBig::<Zero, 2>::from_parts(IBig::from(96u64), 0);
    let (s, e) = b.into_parts();
    assert_eq!(s, IBig::from(3u64));
    assert_eq!(e, 5);

    let z = FBig::<Zero, 10>::from_parts(IBig::zero(), 7);
    let (s, e) = z.into_parts();
    assert_eq!(s, IBig::zero());
    assert_eq!(e, 0);
}

#[test]
fn test_division_with_rounding() {
    // 1/3 at precision 10, toward zero: significand 3333333333, exponent -10
    let f = FBig::<Zero, 10>::from_ratio(IBig::from(1u64), IBig::from(3u64), 10);
    let (s, e) = f.into_parts();
    assert_eq!(s, IBig::from(3333333333u64));
    assert_eq!(e, -10);

    // the same division reports the direction of the error
    let n = FBig::<Zero, 10>::from_parts(IBig::from(1u64), 0);
    let d = FBig::<Zero, 10>::from_parts(IBig::from(3u64), 0);
    let ctx = Context::<Zero>::new(10);
    let res = ctx.div(&n, &d);
    match res {
        Approximation::Inexact(v, sign) => {
            let (s, e) = v.into_parts();
            assert_eq!(s, IBig::from(3333333333u64));
            assert_eq!(e, -10);
            assert_eq!(sign, -1);
        }
        Approximation::Exact(_) => panic!("1/3 is not exact in base 10"),
    }

    // an exact division is reported exact
    let n = FBig::<Zero, 10>::from_parts(IBig::from(1u64), 0);
    let d = FBig::<Zero, 10>::from_parts(IBig::from(8u64), 0);
    let res = Context::<Zero>::new(10).div(&n, &d);
    match res {
        Approximation::Exact(v) => {
            let (s, e) = v.into_parts();
            assert_eq!(s, IBig::from(125u64));
            assert_eq!(e, -3);
        }
        Approximation::Inexact(..) => panic!("1/8 is exact in base 10"),
    }
}

#[test]
fn test_rounding_half_away() {
    // 1/6 = 0.1666...; at precision 3 half-away gives 0.167
    let f = FBig::<HalfAway, 10>::from_ratio(IBig::from(1u64), IBig::from(6u64), 3);
    let (s, e) = f.into_parts();
    assert_eq!(s, IBig::from(167u64));
    assert_eq!(e, -3);
}

#[test]
fn test_mul_normalized() {
    let a = FBig::<Zero, 10>::from_parts(IBig::from(25u64), 0);
    let b = FBig::<Zero, 10>::from_parts(IBig::from(4u64), 0);
    let p = a.mul(&b);
    let (s, e) = p.into_parts();
    // 100 normalizes to 1 * 10^2
    assert_eq!(s, IBig::from(1u64));
    assert_eq!(e, 2);
}

#[test]
fn test_add_aligns_exponents() {
    let a = FBig::<Zero, 10>::from_parts(IBig::from(5u64), 1).with_precision(5).value();
    let b = FBig::<Zero, 10>::from_parts(IBig::from(25u64), -1).with_precision(5).value();
    let s = a.add(&b);
    let (sv, e) = s.into_parts();
    // 50 + 2.5 == 52.5
    assert_eq!(sv, IBig::from(525u64));
    assert_eq!(e, -1);

    // at the operands' own short precision the sum rounds to two digits
    let a = FBig::<Zero, 10>::from_parts(IBig::from(5u64), 1);
    let b = FBig::<Zero, 10>::from_parts(IBig::from(25u64), -1);
    let (sv, e) = a.add(&b).into_parts();
    assert_eq!(sv, IBig::from(52u64));
    assert_eq!(e, 0);
}

#[test]
fn test_iacoth() {
    let context = Context::<Zero>::new(10);
    let binary_6 = context.iacoth::<2>(UBig::from_word(6)).with_precision(10).value();
    assert_eq!(binary_6.repr.significand, IBig::from(689u64));
    let decimal_6 = context.iacoth::<10>(UBig::from_word(6)).with_precision(10).value();
    assert_eq!(decimal_6.repr.significand, IBig::from(1682361183u64));

    let context = Context::<Zero>::new(40);
    let decimal_6 = context.iacoth::<10>(UBig::from_word(6)).with_precision(40).value();
    assert_eq!(
        decimal_6.repr.significand,
        idec("1682361183106064652522967051084960450557")
    );

    let context = Context::<Zero>::new(201);
    let binary_6 = context.iacoth::<2>(UBig::from_word(6)).with_precision(201).value();
    assert_eq!(
        binary_6.repr.significand,
        idec("2162760151454160450909229890833066944953539957685348083415205")
    );
}

#[test]
fn test_ln2_ln10() {
    let context = Context::<Zero>::new(45);
    let decimal_ln2 = context.ln2::<10>().with_precision(45).value();
    assert_eq!(
        decimal_ln2.repr.significand,
        idec("693147180559945309417232121458176568075500134")
    );
    let decimal_ln10 = context.ln10::<10>().with_precision(45).value();
    assert_eq!(
        decimal_ln10.repr.significand,
        idec("230258509299404568401799145468436420760110148")
    );

    let context = Context::<Zero>::new(180);
    let binary_ln2 = context.ln2::<2>().with_precision(180).value();
    assert_eq!(
        binary_ln2.repr.significand,
        idec("1062244963371879310175186301324412638028404515790072203")
    );
    let binary_ln10 = context.ln10::<2>().with_precision(180).value();
    assert_eq!(
        binary_ln10.repr.significand,
        idec("882175346869410758689845931257775553286341791676474847")
    );
}

#[test]
fn test_ln() {
    // ln(1) is exactly zero
    let one = FBig::<Zero, 10>::from_parts(IBig::from(1u64), 0);
    let r = Context::<Zero>::new(20).ln(&one).value();
    let (s, e) = r.into_parts();
    assert_eq!(s, IBig::zero());
    assert_eq!(e, 0);

    // ln(2) in base 10 at precision 45 matches the ln(2) constant
    let two = FBig::<Zero, 10>::from_parts(IBig::from(2u64), 0);
    let r = Context::<Zero>::new(45).ln(&two).value();
    let (s, e) = r.into_parts();
    assert_eq!(s, idec("693147180559945309417232121458176568075500134"));
    assert_eq!(e, -45);

    // ln(2) in base 2: the scaling reduces to the constant itself
    let two = FBig::<Zero, 2>::from_parts(IBig::from(2u64), 0);
    let r = Context::<Zero>::new(180).ln(&two).value();
    let (s, _) = r.into_parts();
    assert_eq!(s, idec("1062244963371879310175186301324412638028404515790072203"));

    // ln(1/4) in base 10 is negative
    let quarter = FBig::<Zero, 10>::from_parts(IBig::from(25u64), -2);
    let r = Context::<Zero>::new(20).ln(&quarter).value();
    let (s, _) = r.into_parts();
    assert!(s.sign() == bignum::sign::Sign::Negative);
}

#[test]
fn test_float_repr_forms() {
    let zero = FloatRepr::<10>::zero();
    assert!(zero.is_zero());
    let inf = FloatRepr::<10>::infinity();
    assert!(inf.is_infinite());
    let one = FloatRepr::<10>::one();
    assert_eq!(one.digits(), 1);
}

#[test]
fn fbig_sub_exact_value() {
    let a = FBig::<Zero, 10>::from_parts(IBig::from(5u64), 0);
    let b = FBig::<Zero, 10>::from_parts(IBig::from(3u64), 0);
    let d = a.sub(&b);
    let (s, e) = d.into_parts();
    assert_eq!(s, IBig::from(2u64));
    assert_eq!(e, 0);
}

#[test]
fn fbig_ln_positive() {
    let x = FBig::<Zero, 2>::from_parts(IBig::from(4u64), 0);
    let r = x.ln();
    let (s, _) = r.into_parts();
    assert!(s.sign() == bignum::sign::Sign::Positive);
    assert!(s != IBig::from(0u64));
}

#[test]
fn from_parts_wide_exponent() {
    let f = FBig::<Zero, 10>::from_parts(IBig::from(7u64), 1_000_000_000);
    let (s, e) = f.into_parts();
    assert_eq!(s, IBig::from(7u64));
    assert_eq!(e, 1_000_000_000);
}

#[test]
fn context_div_wide_dividend() {
    let ctx = Context::<Zero>::new(2);
    let a = FBig::<Zero, 10>::from_parts(IBig::from(123456789u64), 0);
    let b = FBig::<Zero, 10>::from_parts(IBig::from(3u64), 0);
    let v = ctx.div(&a, &b).value();
    let (s, e) = v.into_parts();
    // the dividend pre-rounds to 123e6; 123 / 3 is exactly 41
    assert_eq!(s, IBig::from(41u64));
    assert_eq!(e, 6);
}
