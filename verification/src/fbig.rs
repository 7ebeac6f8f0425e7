//! Arbitrary-precision floating point numbers `significand * B^exponent`.
//!
//! The significand is a signed big integer, the exponent a machine word; a
//! normalized value has a significand not divisible by the base, so every
//! finite value has exactly one representation.  Infinities are sentinels:
//! a zero significand with a nonzero exponent.  A [`Context`] carries the
//! working precision and the type-level rounding policy.

use vstd::prelude::*;
use vstd::arithmetic::power::{pow, lemma_pow_adds, lemma_pow0, lemma_pow1, lemma_pow_positive};
use vstd::arithmetic::power2::{pow2, lemma_pow2_pos, lemma_pow2_strictly_increases, lemma2_to64};
use vstd::arithmetic::mul::{lemma_mul_inequality, lemma_mul_is_commutative,
    lemma_mul_is_associative, lemma_mul_basics};
use crate::buffer::MAX_CAPACITY;
use crate::ibig::{IBig, lemma_ibig_len_le, lemma_ibig_mag_bound, lemma_ibig_len_pos};
use crate::round::{Round, Approximation, sign_of};
use crate::sign::Sign;
use crate::ubig::UBig;

verus! {

/// Largest exponent magnitude a well-formed float may carry.
pub const EXP_WF_LIMIT: i64 = 0x8_0000_0000_0000;

/// Largest exponent magnitude accepted as an operation input: far enough
/// below `i64::MAX` that every exponent sum, difference and normalization
/// shift in the crate stays free of overflow.
pub const EXP_OP_LIMIT: i64 = 0x1000_0000_0000;

/// Largest significand word count accepted as an operation input.
///
/// Rounding a significand down to a precision materializes `B^shift` with
/// `shift` up to the digit count, `64 * 2 * SIG_LEN_LIMIT` digits; that power
/// needs as many words, and `MAX_CAPACITY` is only guaranteed to be `2^26`
/// words on every machine.  The constant sits on that frontier: it is a
/// storage limit of the scaling algorithm, not a tuning choice.
pub const SIG_LEN_LIMIT: usize = 0x4_0000;

/// A rounded result: exact, or with the sign of `result - true value`.
pub type Rounded<T> = Approximation<T, i8>;

/// Significand and exponent of a float with compile-time base `B`.
#[derive(Debug)]
pub struct FloatRepr<const B: u64> {
    pub significand: IBig,
    pub exponent: i64,
}

/// The smaller of two integers.
pub open spec fn spec_min(a: int, b: int) -> int {
    if a <= b {
        a
    } else {
        b
    }
}

/// `s * B^(e - m)`, the value at the common scale `m <= e`.
pub open spec fn scaled(b: int, s: int, e: int, m: int) -> int {
    s * pow(b, (e - m) as nat)
}

/// `s1 * B^e1 == s2 * B^e2`, compared at the smaller exponent.
pub open spec fn same_value(b: int, s1: int, e1: int, s2: int, e2: int) -> bool {
    scaled(b, s1, e1, spec_min(e1, e2)) == scaled(b, s2, e2, spec_min(e1, e2))
}

/// `vs * B^ve` lies within one unit in the last place of `s * B^e`, on the
/// side given by `sg`.
pub open spec fn one_ulp_of(b: int, vs: int, ve: int, s: int, e: int, sg: int) -> bool {
    let m = spec_min(ve, e);
    let a = scaled(b, vs, ve, m);
    let t = scaled(b, s, e, m);
    let u = pow(b, (ve - m) as nat);
    if sg == 1 {
        t < a < t + u
    } else if sg == -1 {
        t - u < a < t
    } else {
        false
    }
}

/// The number of base-`b` digits of `v`: zero for zero, else the least `d`
/// with `v < b^d`.
pub open spec fn spec_digits(b: int, v: nat) -> nat
    decreases v,
    when b >= 2
    via spec_digits_decreases
{
    if v == 0 {
        0
    } else {
        1 + spec_digits(b, v / (b as nat))
    }
}

#[via_fn]
proof fn spec_digits_decreases(b: int, v: nat) {
    if b >= 2 && v > 0 {
        vstd::arithmetic::div_mod::lemma_div_is_strictly_smaller(v as int, b);
    }
}

/// The digit count brackets the value between consecutive powers.
pub proof fn lemma_spec_digits_bracket(b: int, v: nat)
    requires
        b >= 2,
        v >= 1,
    ensures
        spec_digits(b, v) >= 1,
        pow(b, (spec_digits(b, v) - 1) as nat) <= v,
        v < pow(b, spec_digits(b, v)),
    decreases v,
{
    let q = v / (b as nat);
    vstd::arithmetic::div_mod::lemma_div_pos_is_pos(v as int, b);
    vstd::arithmetic::div_mod::lemma_fundamental_div_mod(v as int, b);
    vstd::arithmetic::div_mod::lemma_mod_division_less_than_divisor(v as int, b);
    if q == 0 {
        lemma_pow0(b);
        lemma_pow1(b);
    } else {
        vstd::arithmetic::div_mod::lemma_div_is_strictly_smaller(v as int, b);
        lemma_spec_digits_bracket(b, q);
        let d = spec_digits(b, q);
        lemma_pow_adds(b, (d - 1) as nat, 1);
        lemma_pow_adds(b, d, 1);
        lemma_pow1(b);
        lemma_pow_positive(b, (d - 1) as nat);
        lemma_pow_positive(b, d);
        // lower: b^d == b^(d-1) * b <= q * b <= v
        lemma_mul_inequality(pow(b, (d - 1) as nat), q as int, b);
        // upper: v < (q + 1) * b <= b^d * b == b^(d+1)
        crate::math::lemma_mul_distribute_add2(q as int, 1, b);
        lemma_mul_inequality(q as int + 1, pow(b, d), b);
    }
}

/// Any bracket between consecutive powers pins the digit count.
pub proof fn lemma_spec_digits_unique(b: int, v: nat, r: nat)
    requires
        b >= 2,
        v >= 1,
        r >= 1,
        pow(b, (r - 1) as nat) <= v,
        v < pow(b, r),
    ensures
        r == spec_digits(b, v),
{
    let d = spec_digits(b, v);
    lemma_spec_digits_bracket(b, v);
    if r < d {
        vstd::arithmetic::power::lemma_pow_increases(b as nat, r, (d - 1) as nat);
    }
    if d < r {
        vstd::arithmetic::power::lemma_pow_increases(b as nat, d, (r - 1) as nat);
    }
}

/// A value below a power of the base has at most that many digits.
pub proof fn lemma_spec_digits_le(b: int, v: nat, t: nat)
    requires
        b >= 2,
        v < pow(b, t),
    ensures
        spec_digits(b, v) <= t,
{
    if v != 0 {
        lemma_spec_digits_bracket(b, v);
        let d = spec_digits(b, v);
        if d > t {
            vstd::arithmetic::power::lemma_pow_increases(b as nat, t, (d - 1) as nat);
            assert(false);
        }
    }
}

impl<const B: u64> FloatRepr<B> {
    /// The significand.
    pub open spec fn sig(&self) -> int {
        self.significand.value()
    }

    /// The exponent.
    pub open spec fn exp(&self) -> int {
        self.exponent as int
    }

    /// Well-formed: canonical significand, bounded exponent and width.
    pub open spec fn wf(&self) -> bool {
        &&& self.significand.wf()
        &&& -EXP_WF_LIMIT <= self.exponent <= EXP_WF_LIMIT
        &&& self.significand.spec_len() <= 4 * SIG_LEN_LIMIT
    }

    /// Normalized: a nonzero significand is not divisible by the base.
    pub open spec fn is_normalized(&self) -> bool {
        self.sig() == 0 || self.sig() % (B as int) != 0
    }

    /// An infinity: zero significand under a nonzero exponent.
    pub open spec fn is_infinite_spec(&self) -> bool {
        self.sig() == 0 && self.exp() != 0
    }

    /// Whether this value is an infinity sentinel.
    pub fn is_infinite(&self) -> (r: bool)
        requires
            self.wf(),
        ensures
            r == self.is_infinite_spec(),
    {
        self.significand.is_zero() && self.exponent != 0
    }

    /// Whether this value is zero.
    pub fn is_zero(&self) -> (r: bool)
        requires
            self.wf(),
        ensures
            r == (self.sig() == 0 && self.exp() == 0),
    {
        self.significand.is_zero() && self.exponent == 0
    }

    /// The exact zero.
    pub fn zero() -> (r: FloatRepr<B>)
        ensures
            r.wf(),
            r.sig() == 0,
            r.exp() == 0,
            r.is_normalized(),
            r.significand.spec_len() == 1,
            r.significand.mag() == 0,
    {
        let s = IBig::zero();
        proof {
            crate::ibig::lemma_sign_cases(&s.0);
        }
        FloatRepr { significand: s, exponent: 0 }
    }

    /// The value one.
    pub fn one() -> (r: FloatRepr<B>)
        ensures
            r.wf(),
            r.sig() == 1,
            r.exp() == 0,
            r.significand.spec_len() == 1,
    {
        FloatRepr { significand: IBig::one(), exponent: 0 }
    }

    /// The value minus one.
    pub fn neg_one() -> (r: FloatRepr<B>)
        ensures
            r.wf(),
            r.sig() == -1,
            r.exp() == 0,
    {
        FloatRepr { significand: IBig::neg_one(), exponent: 0 }
    }

    /// The positive infinity sentinel.
    pub fn infinity() -> (r: FloatRepr<B>)
        ensures
            r.wf(),
            r.is_infinite_spec(),
            r.exp() > 0,
    {
        FloatRepr { significand: IBig::zero(), exponent: 1 }
    }

    /// The negative infinity sentinel.
    pub fn neg_infinity() -> (r: FloatRepr<B>)
        ensures
            r.wf(),
            r.is_infinite_spec(),
            r.exp() < 0,
    {
        FloatRepr { significand: IBig::zero(), exponent: -1 }
    }

    /// Canonicalize a significand-exponent pair: strip base factors.
    pub fn new(significand: IBig, exponent: i64) -> (r: FloatRepr<B>)
        requires
            B >= 2,
            significand.wf(),
            -2 * EXP_OP_LIMIT <= exponent <= 2 * EXP_OP_LIMIT,
            significand.spec_len() <= 2 * SIG_LEN_LIMIT + 8,
        ensures
            r.wf(),
            r.is_normalized(),
            significand.value() == 0 ==> r.sig() == 0 && r.exp() == 0,
            significand.value() != 0 ==> r.sig() != 0 && r.exp() >= exponent && r.sig() * pow(
                B as int,
                (r.exp() - exponent) as nat,
            ) == significand.value(),
            r.significand.spec_len() <= significand.spec_len() + 2,
            r.significand.mag() <= significand.mag(),
            significand.value() != 0 ==> r.exponent <= exponent + 64 * significand.spec_len(),
            significand.value() != 0 ==> r.exponent >= exponent,
    {
        let ghost s0 = significand.value();
        let ghost l0 = significand.spec_len();
        if significand.is_zero() {
            return FloatRepr { significand: IBig::zero(), exponent: 0 };
        }
        let base = IBig::from(B);
        let mut s = significand;
        let mut e: i64 = exponent;
        proof {
            lemma_pow0(B as int);
            lemma_mul_basics(s.value());
            lemma_mul_basics(s.mag() as int);
            lemma_ibig_mag_bound(&s);
            lemma2_to64();
            cap_is_large();
        }
        loop
            invariant
                s.wf(),
                base.wf(),
                base.value() == B,
                base.spec_len() == 1,
                B >= 2,
                s.value() != 0,
                s0 == significand.value(),
                l0 == significand.spec_len(),
                e >= exponent,
                -2 * EXP_OP_LIMIT <= exponent <= 2 * EXP_OP_LIMIT,
                e - exponent <= 64 * l0,
                l0 <= 2 * SIG_LEN_LIMIT + 8,
                MAX_CAPACITY >= 67108863,
                MAX_CAPACITY >= 16 * SIG_LEN_LIMIT + 63,
                s.spec_len() <= l0 + 2,
                s.value() * pow(B as int, (e - exponent) as nat) == s0,
                s0 != 0,
                pow2((e - exponent) as nat) <= pow(B as int, (e - exponent) as nat),
                s.mag() * pow(B as int, (e - exponent) as nat) == (if s0 >= 0 {
                    s0
                } else {
                    -s0
                }),
                (if s0 >= 0 {
                    s0
                } else {
                    -s0
                }) < pow2(64 * l0),
            decreases s.mag(),
        {
            proof {
                lemma_ibig_len_pos(&s);
                crate::ibig::lemma_sign_cases(&base.0);
                assert(base.mag() == B);
            }
            let (q, rm) = s.div_rem(&base);
            if rm.is_zero() {
                proof {
                    crate::ibig::lemma_sign_cases(&rm.0);
                    assert(rm.mag() == 0);
                    let st = (e - exponent) as nat;
                    let bp = pow(B as int, st) as int;
                    lemma_pow_adds(B as int, st, 1);
                    lemma_pow1(B as int);
                    lemma_pow_positive(B as int, st);
                    // (q * B) * B^st == q * B^(st+1)
                    lemma_mul_is_associative(q.value(), B as int, bp);
                    lemma_mul_is_commutative(B as int, bp);
                    lemma_mul_is_associative(q.value(), bp, B as int);
                    lemma_mul_is_commutative(pow(B as int, (st + 1) as nat) as int, 1);
                    // magnitudes follow the same identity
                    lemma_mul_is_associative(q.mag() as int, B as int, bp);
                    lemma_mul_is_associative(q.mag() as int, bp, B as int);
                    // the power at least doubles
                    vstd::arithmetic::power2::lemma_pow2_adds(st, 1);
                    lemma2_to64();
                    lemma_mul_inequality(2, B as int, bp);
                    lemma_mul_is_commutative(2, bp);
                    lemma_mul_is_commutative(B as int, bp);
                    // the quotient strictly shrinks and the step count is capped
                    lemma_quotient_shrinks(s.mag(), q.mag(), B as nat);
                    if q.value() == 0 {
                        lemma_mul_basics(B as int);
                        lemma_mul_basics(bp);
                    }
                    lemma_ibig_len_le(&q, &s);
                    // the step count stays within the bit budget
                    lemma_mul_inequality(1, s.mag() as int, bp);
                    lemma_mul_is_commutative(s.mag() as int, bp);
                    lemma_mul_is_commutative(1, bp);
                    lemma_step_cap(
                        (e - exponent) as nat,
                        l0,
                        bp as nat,
                        s.mag(),
                        (if s0 >= 0 {
                            s0
                        } else {
                            -s0
                        }) as nat,
                    );
                }
                s = q;
                e = e + 1;
            } else {
                proof {
                    // the final magnitude divides the original one
                    let st = (e - exponent) as nat;
                    lemma_pow_positive(B as int, st);
                    lemma_mul_inequality(1, pow(B as int, st), s.mag() as int);
                    lemma_mul_is_commutative(pow(B as int, st), s.mag() as int);
                    lemma_mul_basics(s.mag() as int);
                    // a nonzero remainder under B means s is not divisible by B
                    crate::ibig::lemma_sign_cases(&rm.0);
                    let sv = s.value();
                    let qv = q.value();
                    let rv = rm.value();
                    if rv > 0 {
                        vstd::arithmetic::div_mod::lemma_fundamental_div_mod_converse(
                            sv,
                            B as int,
                            qv,
                            rv,
                        );
                    } else {
                        crate::math::lemma_mul_distribute_sub2(qv, 1, B as int);
                        lemma_mul_is_commutative(qv, B as int);
                        lemma_mul_is_commutative(qv - 1, B as int);
                        lemma_mul_is_commutative(B as int, qv);
                        lemma_mul_is_commutative(B as int, qv - 1);
                        vstd::arithmetic::div_mod::lemma_fundamental_div_mod_converse(
                            sv,
                            B as int,
                            qv - 1,
                            rv + B,
                        );
                    }
                }
                return FloatRepr { significand: s, exponent: e };
            }
        }
    }

    /// Number of base-`B` digits of the significand; zero for zero.
    pub fn digits(&self) -> (r: usize)
        requires
            B >= 2,
            self.wf(),
        ensures
            r == spec_digits(B as int, self.significand.mag()),
            self.sig() == 0 ==> r == 0,
            self.sig() != 0 ==> r >= 1 && pow(B as int, (r - 1) as nat)
                <= self.significand.mag() && self.significand.mag() < pow(B as int, r as nat),
            r <= 64 * self.significand.spec_len() + 1,
    {
        if self.significand.is_zero() {
            proof {
                crate::ibig::lemma_sign_cases(&self.significand.0);
            }
            return 0;
        }
        let base = UBig::from_word(B);
        let m = self.significand.magnitude();
        proof {
            cap_is_large();
            crate::ubig::lemma_value_bound(&m);
        }
        let k = m.log(&base);
        proof {
            lemma_pow_positive(B as int, k as nat);
            // the digit count is bounded through the bit count
            lemma_digit_bit_bound(m.value(), B as nat, k as nat, m.spec_len());
            lemma_spec_digits_unique(B as int, self.significand.mag(), (k + 1) as nat);
        }
        k + 1
    }
}

/// A quotient by a base of at least two strictly shrinks.
proof fn lemma_quotient_shrinks(s: nat, q: nat, b: nat)
    requires
        s >= 1,
        b >= 2,
        q * b == s,
    ensures
        q < s,
{
    lemma_mul_inequality(2, b as int, q as int);
    lemma_mul_is_commutative(2, q as int);
    lemma_mul_is_commutative(b as int, q as int);
}

/// The step count stays within the bit budget of the starting magnitude.
proof fn lemma_step_cap(st: nat, l0: nat, bp: nat, m: nat, m0: nat)
    requires
        pow2(st) <= bp,
        m >= 1,
        bp <= m * bp,
        m * bp == m0,
        m0 < pow2(64 * l0),
    ensures
        st < 64 * l0,
{
    if st >= 64 * l0 {
        if 64 * l0 < st {
            lemma_pow2_strictly_increases(64 * l0, st);
        }
    }
}

/// A truncated base-`B` logarithm stays within the bit budget.
proof fn lemma_digit_bit_bound(m: nat, b: nat, k: nat, l: nat)
    requires
        b >= 2,
        pow(b as int, k) <= m,
        m < pow2(64 * l),
    ensures
        k <= 64 * l,
    decreases k,
{
    if k > 64 * l {
        lemma_pow_ge_pow2(b, k);
        if 64 * l < k {
            lemma_pow2_strictly_increases(64 * l, k);
        }
    }
}

/// Powers of a base of at least two dominate powers of two.
pub proof fn lemma_pow_ge_pow2(b: nat, k: nat)
    requires
        b >= 2,
    ensures
        pow2(k) <= pow(b as int, k),
    decreases k,
{
    if k == 0 {
        lemma_pow0(b as int);
        lemma2_to64();
    } else {
        lemma_pow_ge_pow2(b, (k - 1) as nat);
        vstd::arithmetic::power2::lemma_pow2_adds((k - 1) as nat, 1);
        lemma2_to64();
        lemma_pow_adds(b as int, (k - 1) as nat, 1);
        lemma_pow1(b as int);
        lemma_pow_positive(b as int, (k - 1) as nat);
        lemma_mul_inequality(
            pow2((k - 1) as nat) as int,
            pow(b as int, (k - 1) as nat),
            2,
        );
        lemma_mul_is_commutative(pow2((k - 1) as nat) as int, 2);
        lemma_mul_is_commutative(pow(b as int, (k - 1) as nat), 2);
        lemma_mul_inequality(2, b as int, pow(b as int, (k - 1) as nat));
        lemma_mul_is_commutative(2, pow(b as int, (k - 1) as nat));
    }
}

/// The capacity limit is far above any practical operand.
pub proof fn cap_is_large()
    ensures
        MAX_CAPACITY >= 67108863,
        MAX_CAPACITY >= 16 * SIG_LEN_LIMIT + 63,
{
    assert(usize::MAX >= 0xffffffff);
    vstd::arithmetic::div_mod::lemma_div_is_ordered(0xffffffff, usize::MAX as int, 64);
}

/// Working precision and rounding policy for float operations.
#[derive(Debug)]
pub struct Context<R: Round> {
    pub precision: usize,
    pub marker: core::marker::PhantomData<R>,
}

impl<R: Round> Clone for Context<R> {
    /// Contexts copy freely.
    fn clone(&self) -> (r: Self)
        ensures
            r.precision == self.precision,
    {
        Context { precision: self.precision, marker: core::marker::PhantomData }
    }
}

impl<R: Round> Context<R> {
    /// A context with the given precision; zero means unlimited.
    pub fn new(precision: usize) -> (r: Context<R>)
        ensures
            r.precision == precision,
    {
        Context { precision, marker: core::marker::PhantomData }
    }

    /// Round a representation to this context's precision.
    ///
    /// An exact answer keeps the value; an inexact one is within one unit in
    /// the last place of the input, on the side reported.
    pub fn repr_round<const B: u64>(&self, x: FloatRepr<B>) -> (res: Rounded<FloatRepr<B>>)
        requires
            B >= 2,
            x.wf(),
            !x.is_infinite_spec(),
            self.precision >= 1,
            self.precision <= SIG_LEN_LIMIT,
            -EXP_OP_LIMIT <= x.exponent <= EXP_OP_LIMIT,
            x.significand.spec_len() <= 2 * SIG_LEN_LIMIT,
        ensures
            match res {
                Approximation::Exact(v) => v.wf() && v.is_normalized() && !v.is_infinite_spec()
                    && same_value(B as int, v.sig(), v.exp(), x.sig(), x.exp()),
                Approximation::Inexact(v, sg) => v.wf() && v.is_normalized()
                    && !v.is_infinite_spec() && (sg == 1 || sg == -1) && (v.sig() != 0
                    ==> one_ulp_of(B as int, v.sig(), v.exp(), x.sig(), x.exp(), sg as int))
                    && v.significand.mag() <= pow(B as int, self.precision as nat),
            },
            match res {
                Approximation::Exact(v) => v.significand.mag() <= x.significand.mag()
                    && v.significand.mag() <= pow(B as int, self.precision as nat),
                Approximation::Inexact(v, _) => true,
            },
            match res {
                Approximation::Exact(v) => (v.sig() != 0 ==> x.exponent <= v.exponent
                    <= x.exponent + 0x800_0000) && (v.sig() == 0 ==> v.exponent == 0),
                Approximation::Inexact(v, _) => (v.sig() != 0 ==> x.exponent <= v.exponent
                    <= x.exponent + 0x800_0000) && (v.sig() == 0 ==> v.exponent == 0),
            },
            // the result vanishes only for a zero input: a constant cannot
            // satisfy this rounding contract
            match res {
                Approximation::Exact(v) => v.sig() == 0 <==> x.sig() == 0,
                Approximation::Inexact(v, _) => v.sig() == 0 <==> x.sig() == 0,
            },
    {
        proof {
            cap_is_large();
        }
        let d = x.digits();
        if d <= self.precision {
            let ghost xs = x.sig();
            let ghost xe = x.exp();
            let ghost xm = x.significand.mag();
            let n = FloatRepr::<B>::new(x.significand, x.exponent);
            proof {
                lemma_pow0(B as int);
                if xs != 0 {
                    lemma_value_chain(B as int, n.sig(), n.exp(), xs, xe, xs, xe);
                    vstd::arithmetic::power::lemma_pow_increases(
                        B as nat,
                        d as nat,
                        self.precision as nat,
                    );
                } else {
                    lemma_pow_positive(B as int, self.precision as nat);
                }
            }
            return Approximation::Exact(n);
        }
        let shift = d - self.precision;
        proof {
            // the shift budget stays far below the capacity limit
            assert(shift + 5 <= MAX_CAPACITY);
        }
        let bpow_u = UBig::from_word(B).pow(shift);
        proof {
            lemma_pow_positive(B as int, shift as nat);
            lemma_ibig_mag_bound(&x.significand);
            crate::primitive::lemma_word_base();
            lemma_pow_word_bound(B as nat, shift as nat);
            lemma_pow2_strictly_increases(64 * shift as nat, 64 * (shift + 1) as nat);
            crate::ubig::lemma_len_bounded(&bpow_u, (shift + 1) as nat);
        }
        let bpow = IBig::from_parts(Sign::Positive, bpow_u);
        let ghost pv = bpow.value();
        let ghost xs = x.sig();
        let ghost xe = x.exp();
        proof {
            lemma_ibig_len_of_parts(&bpow, (shift + 1) as nat);
        }
        proof {
            crate::ibig::lemma_sign_cases(&bpow.0);
        }
        let (q, rm) = x.significand.div_rem(&bpow);
        proof {
            lemma_q_mag_le(q.mag(), bpow.mag(), rm.mag(), x.significand.mag());
            lemma_ibig_len_le(&q, &x.significand);
            lemma_ibig_len_le(&rm, &bpow);
        }
        if rm.is_zero() {
            proof {
                crate::ibig::lemma_sign_cases(&rm.0);
                lemma_rounded_mag(
                    q.mag(),
                    q.mag(),
                    bpow.mag(),
                    x.significand.mag(),
                    B as nat,
                    shift as nat,
                    self.precision as nat,
                    d as nat,
                );
            }
            proof {
                // a nonzero input keeps a nonzero quotient here
                crate::ibig::lemma_sign_cases(&x.significand.0);
                crate::ibig::lemma_sign_cases(&q.0);
                if q.value() == 0 {
                    lemma_mul_basics(bpow.mag() as int);
                    assert(x.significand.mag() == 0);
                    assert(false);
                }
            }
            let n = FloatRepr::<B>::new(q, x.exponent + shift as i64);
            proof {
                lemma_pow0(B as int);
                // n equals q at e + shift, and q * B^shift equals x
                lemma_value_chain(B as int, n.sig(), n.exp(), q.value(), xe + shift, xs, xe);
            }
            return Approximation::Exact(n);
        }
        let adj = R::round_ratio(&q, &rm, &bpow);
        proof {
            R::round_ratio_props(q.value(), rm.value(), bpow.value());
        }
        let adj_big = if adj == 1 {
            IBig::one()
        } else if adj == 0 {
            IBig::zero()
        } else {
            IBig::neg_one()
        };
        proof {
            lemma_ibig_len_pos(&adj_big);
            cap_is_large();
        }
        let rounded = q.add(&adj_big);
        let ghost qv = q.value();
        let ghost rv = rm.value();
        let sg: i8 = if adj == 1 {
            1
        } else if adj == -1 {
            -1
        } else if rm.sign() == Sign::Positive {
            -1
        } else {
            1
        };
        proof {
            crate::ibig::lemma_sign_cases(&rm.0);
            crate::ibig::lemma_sign_cases(&bpow.0);
            lemma_round_err(B as int, qv, rv, pv, adj as int, shift as nat, xs);
            // the rounded significand stays within a few words of the input
            crate::ibig::lemma_sign_cases(&q.0);
            crate::ibig::lemma_sign_cases(&rounded.0);
            lemma_ibig_mag_bound(&q);
            lemma_pow2_strictly_increases(64 * q.spec_len(), 64 * (q.spec_len() + 1));
            lemma_ibig_len_of_parts(&rounded, q.spec_len() + 1);
        }
        proof {
            // the rounded quotient stays within the precision's magnitude
            lemma_rounded_mag(
                q.mag(),
                rounded.mag(),
                bpow.mag(),
                x.significand.mag(),
                B as nat,
                shift as nat,
                self.precision as nat,
                d as nat,
            );
            // and it cannot vanish: the adjustment moves away from zero
            crate::ibig::lemma_sign_cases(&x.significand.0);
            vstd::arithmetic::power::lemma_pow_increases(B as nat, shift as nat, (d - 1) as nat);
            lemma_rounded_nonzero(
                xs,
                qv,
                rv,
                pv,
                adj as int,
                x.significand.mag(),
                q.mag(),
                rm.mag(),
                bpow.mag(),
            );
        }
        let n = FloatRepr::<B>::new(rounded, x.exponent + shift as i64);
        proof {
            lemma_ulp_transfer(
                B as int,
                n.sig(),
                n.exp(),
                qv + adj,
                xe + shift,
                xs,
                xe,
                sg as int,
            );
        }
        Approximation::Inexact(n, sg)
    }
}

/// A truncated quotient of magnitude at least one, adjusted by at most one
/// unit toward the discarded fraction, never lands on zero.
proof fn lemma_rounded_nonzero(
    xs: int,
    qv: int,
    rv: int,
    pv: int,
    adj: int,
    xm: nat,
    qm: nat,
    rmm: nat,
    pm: nat,
)
    requires
        xs == qv * pv + rv,
        qm * pm + rmm == xm,
        rmm < pm,
        pm == pv,
        pv >= 1,
        pm <= xm,
        rv != 0,
        adj == 0 || adj == crate::round::sign_of(rv * pv),
        (xs >= 0 ==> xm == xs) && (xs < 0 ==> xm == -xs),
        (qv >= 0 ==> qm == qv) && (qv < 0 ==> qm == -qv),
        (rv >= 0 ==> rmm == rv) && (rv < 0 ==> rmm == -rv),
    ensures
        qv + adj != 0,
{
    // the quotient itself is nonzero: xm >= pm > rmm
    if qm == 0 {
        lemma_mul_basics(pm as int);
    }
    assert(qm >= 1);
    // the remainder carries the dividend's sign, so the adjustment cannot
    // cancel the quotient
    assert((xs > 0 ==> qv >= 0 && rv >= 0) && (xs < 0 ==> qv <= 0 && rv <= 0))
        by (nonlinear_arith)
        requires
            xs == qv * pv + rv,
            qm * pm + rmm == xm,
            rmm < pm,
            pm == pv,
            pv >= 1,
            (xs >= 0 ==> xm == xs) && (xs < 0 ==> xm == -xs),
            (qv >= 0 ==> qm == qv) && (qv < 0 ==> qm == -qv),
            (rv >= 0 ==> rmm == rv) && (rv < 0 ==> rmm == -rv),
    ;
    if xs == 0 {
        lemma_mul_basics(pv);
        assert(xm == 0);
        assert(false);
    }
    if adj != 0 {
        assert(rv * pv > 0 || rv * pv < 0) by (nonlinear_arith)
            requires
                rv != 0,
                pv >= 1,
        ;
        assert(rv > 0 ==> rv * pv > 0) by (nonlinear_arith)
            requires
                pv >= 1,
        ;
        assert(rv < 0 ==> rv * pv < 0) by (nonlinear_arith)
            requires
                pv >= 1,
        ;
    }
}

/// Powers of a word-sized base stay within one word per factor.
pub proof fn lemma_pow_word_bound(b: nat, k: nat)
    requires
        b >= 1,
        b < pow2(64),
    ensures
        pow(b as int, k) <= pow2(64 * k),
    decreases k,
{
    if k == 0 {
        lemma_pow0(b as int);
        lemma_pow2_pos(0);
        lemma2_to64();
    } else {
        lemma_pow_word_bound(b, (k - 1) as nat);
        lemma_pow_adds(b as int, (k - 1) as nat, 1);
        lemma_pow1(b as int);
        lemma_pow_positive(b as int, (k - 1) as nat);
        vstd::arithmetic::power2::lemma_pow2_adds(64 * (k - 1) as nat, 64);
        lemma_pow2_pos(64 * (k - 1) as nat);
        lemma_pow2_pos(64);
        lemma_mul_inequality(
            pow(b as int, (k - 1) as nat),
            pow2(64 * (k - 1) as nat) as int,
            b as int,
        );
        lemma_mul_is_commutative(pow(b as int, (k - 1) as nat), b as int);
        lemma_mul_is_commutative(pow2(64 * (k - 1) as nat) as int, b as int);
        lemma_mul_inequality(b as int, pow2(64) as int, pow2(64 * (k - 1) as nat) as int);
        lemma_mul_is_commutative(b as int, pow2(64 * (k - 1) as nat) as int);
        lemma_mul_is_commutative(pow2(64) as int, pow2(64 * (k - 1) as nat) as int);
    }
}

/// A signed value built from a bounded magnitude keeps a bounded width.
pub proof fn lemma_ibig_len_of_parts(x: &IBig, k: nat)
    requires
        x.wf(),
        k >= 1,
        x.mag() < pow2(64 * k),
    ensures
        x.spec_len() <= k + 2,
{
    crate::primitive::lemma_word_base();
    vstd::arithmetic::power2::lemma_pow2_adds(64, 64);
    match &x.0.magnitude {
        crate::repr::TypedRepr::Small(_) => {},
        crate::repr::TypedRepr::Large(b) => {
            crate::math::lemma_seq_value_lower(b@);
            let l = b@.len();
            if l > k {
                assert(pow2(64 * k) <= pow2(64 * (l - 1) as nat)) by {
                    if 64 * k < 64 * (l - 1) as nat {
                        lemma_pow2_strictly_increases(64 * k, 64 * (l - 1) as nat);
                    }
                }
                assert(false);
            }
        },
    }
}

/// A quotient rounded by one unit stays within the precision's magnitude.
proof fn lemma_rounded_mag(
    qm: nat,
    rdm: nat,
    pm: nat,
    sm: nat,
    b: nat,
    shift: nat,
    prec: nat,
    d: nat,
)
    requires
        b >= 2,
        d == prec + shift,
        pm == pow(b as int, shift),
        qm * pm <= sm,
        sm < pow(b as int, d),
        rdm <= qm + 1,
    ensures
        rdm <= pow(b as int, prec),
{
    lemma_pow_positive(b as int, shift);
    lemma_pow_positive(b as int, prec);
    lemma_pow_adds(b as int, prec, shift);
    // qm * B^shift < B^prec * B^shift, so qm < B^prec
    assert(qm < pow(b as int, prec)) by {
        if qm >= pow(b as int, prec) {
            lemma_mul_inequality(pow(b as int, prec), qm as int, pm as int);
        }
    }
}

/// A quotient's magnitude is bounded by the dividend's.
proof fn lemma_q_mag_le(qm: nat, pm: nat, rm: nat, sm: nat)
    requires
        qm * pm + rm == sm,
        pm >= 1,
    ensures
        qm <= sm,
{
    lemma_mul_inequality(1, pm as int, qm as int);
    lemma_mul_is_commutative(pm as int, qm as int);
    lemma_mul_is_commutative(qm as int, pm as int);
    lemma_mul_basics(qm as int);
}

/// Chaining: `ns` at `ne` equals `qs` at `qe`, which equals `s` at `e`.
proof fn lemma_value_chain(b: int, ns: int, ne: int, qs: int, qe: int, s: int, e: int)
    requires
        b >= 2,
        ne >= qe >= e,
        ns * pow(b, (ne - qe) as nat) == qs,
        qs * pow(b, (qe - e) as nat) == s,
    ensures
        same_value(b, ns, ne, s, e),
{
    lemma_pow0(b);
    lemma_pow_adds(b, (ne - qe) as nat, (qe - e) as nat);
    lemma_mul_is_associative(ns, pow(b, (ne - qe) as nat), pow(b, (qe - e) as nat));
    lemma_mul_basics(s);
}

/// The one-ulp error of a rounded truncation, before normalization.
proof fn lemma_round_err(b: int, q: int, r: int, p: int, adj: int, shift: nat, s: int)
    requires
        b >= 2,
        p == pow(b, shift),
        s == q * p + r,
        r != 0,
        -p < r < p,
        adj == 0 || adj == sign_of(r * p),
    ensures
        adj == 1 ==> s < (q + adj) * p && (q + adj) * p < s + p,
        adj == -1 ==> s - p < (q + adj) * p && (q + adj) * p < s,
        adj == 0 && r > 0 ==> s - p < (q + adj) * p && (q + adj) * p < s,
        adj == 0 && r < 0 ==> s < (q + adj) * p && (q + adj) * p < s + p,
{
    lemma_pow_positive(b, shift);
    crate::math::lemma_mul_distribute_add2(q, adj, p);
    if r > 0 {
        assert(r * p > 0) by (nonlinear_arith)
            requires
                r > 0,
                p > 0,
        ;
    }
    if r < 0 {
        assert(r * p < 0) by (nonlinear_arith)
            requires
                r < 0,
                p > 0,
        ;
    }
}

/// Transfer the ulp bracket through the final normalization.
proof fn lemma_ulp_transfer(b: int, ns: int, ne: int, vs: int, ve: int, s: int, e: int, sg: int)
    requires
        b >= 2,
        ne >= ve,
        ve >= e,
        sg == 1 || sg == -1,
        ns != 0,
        ns * pow(b, (ne - ve) as nat) == vs,
        sg == 1 ==> s < vs * pow(b, (ve - e) as nat) && vs * pow(b, (ve - e) as nat) < s + pow(
            b,
            (ve - e) as nat,
        ),
        sg == -1 ==> s - pow(b, (ve - e) as nat) < vs * pow(b, (ve - e) as nat) && vs * pow(
            b,
            (ve - e) as nat,
        ) < s,
    ensures
        one_ulp_of(b, ns, ne, s, e, sg),
{
    let pe = pow(b, (ve - e) as nat);
    let pn = pow(b, (ne - ve) as nat);
    lemma_pow_positive(b, (ve - e) as nat);
    lemma_pow_positive(b, (ne - ve) as nat);
    lemma_pow_adds(b, (ne - ve) as nat, (ve - e) as nat);
    lemma_mul_is_associative(ns, pn, pe);
    lemma_pow0(b);
    // one ulp at scale ve is within one ulp at scale ne
    assert(pe <= pow(b, (ne - e) as nat)) by {
        lemma_mul_inequality(1, pn, pe);
        lemma_mul_is_commutative(1, pe);
        lemma_mul_is_commutative(pn, pe);
        lemma_mul_basics(pe);
    }
}

} // verus!
