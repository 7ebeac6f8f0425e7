//! The float type and its rounded arithmetic.
//!
//! An [`FBig`] pairs a [`FloatRepr`] with a [`Context`]; every operation
//! computes the exact intermediate and rounds it through
//! [`Context::repr_round`], so results are always normalized and fit the
//! working precision.  Arithmetic with an infinity operand is excluded by
//! contract, as is division by zero.

use vstd::prelude::*;
use vstd::arithmetic::power::{pow, lemma_pow_adds, lemma_pow0, lemma_pow1, lemma_pow_positive,
    lemma_pow_increases};
use vstd::arithmetic::power2::{pow2, lemma_pow2_pos, lemma_pow2_strictly_increases, lemma2_to64};
use vstd::arithmetic::mul::{lemma_mul_inequality, lemma_mul_is_commutative,
    lemma_mul_is_associative, lemma_mul_basics};
use crate::buffer::MAX_CAPACITY;
use crate::fbig::{FloatRepr, Context, Rounded, same_value, one_ulp_of, spec_min, cap_is_large, spec_digits,
    SIG_LEN_LIMIT, EXP_OP_LIMIT};
use crate::ibig::{IBig, lemma_ibig_len_le, lemma_ibig_mag_bound, lemma_ibig_len_pos,
    lemma_sign_cases};
use crate::round::{Round, Approximation, frac_sign};
use crate::sign::Sign;
use crate::ubig::UBig;

verus! {

/// Significand word budget for one operand of a float operation.
///
/// Addition computes the exact aligned sum before rounding, so an operand
/// pair needs `2 * (OP_SIG_WORDS + OP_EXP) + 8` words of storage, and the sum
/// must fit the rounding kernel's input budget of `2 * SIG_LEN_LIMIT` words.
/// `MAX_CAPACITY` is only guaranteed to be `2^26` words on every machine, so
/// these two constants sit on that frontier; they are storage limits of the
/// exact-alignment algorithm, not tuning choices.
pub const OP_SIG_WORDS: usize = 0x2_0000;

/// Exponent magnitude budget for one operand of a float operation: aligning
/// two summands materializes `B^(e1 - e2)`, which needs that many words (see
/// [`OP_SIG_WORDS`]).
pub const OP_EXP: i64 = 0x1_e000;

/// Divisor word budget for a float division.
///
/// Division scales the dividend by `B^(precision + digits(divisor) -
/// digits(dividend))` and that target digit count is also the pre-rounding
/// precision, so `DIV_PRECISION + 64 * DIV_SIG_WORDS` must stay within the
/// rounding kernel's `SIG_LEN_LIMIT` digit budget; both constants sit on that
/// frontier.
pub const DIV_SIG_WORDS: usize = 0x800;

/// Precision budget for a float division (see [`DIV_SIG_WORDS`]).
pub const DIV_PRECISION: usize = 0x1_8000;

/// The pair `(vs, ve)` is the value `(s, e)` either exactly or to within one
/// unit in the last place: the shape of every rounded result.
pub open spec fn rounds_to(b: int, vs: int, ve: int, s: int, e: int) -> bool {
    same_value(b, vs, ve, s, e) || one_ulp_of(b, vs, ve, s, e, 1) || one_ulp_of(
        b,
        vs,
        ve,
        s,
        e,
        -1,
    )
}

/// The exact sum of two floats, written at the smaller exponent.
pub open spec fn aligned_sum(b: int, s1: int, e1: int, s2: int, e2: int) -> int {
    crate::fbig::scaled(b, s1, e1, spec_min(e1, e2)) + crate::fbig::scaled(
        b,
        s2,
        e2,
        spec_min(e1, e2),
    )
}

/// `(vs, ve)` times the divisor equals the dividend: an exact quotient.
pub open spec fn ratio_exact(b: int, vs: int, ve: int, ls: int, le: int, rs: int, re: int) -> bool {
    same_value(b, vs * rs, ve + re, ls, le)
}

/// The magnitude of a signed value.
pub open spec fn abs_of(x: int) -> int {
    if x >= 0 {
        x
    } else {
        -x
    }
}

/// `(vs, ve)` is within one of its units of the true quotient `l / r`, on the
/// side `sg`: the one-ulp bracket multiplied through by the divisor.
pub open spec fn ratio_bracket(
    b: int,
    vs: int,
    ve: int,
    ls: int,
    le: int,
    rs: int,
    re: int,
    sg: int,
) -> bool {
    let m = spec_min(ve + re, le);
    let a = crate::fbig::scaled(b, vs * rs, ve + re, m);
    let t = crate::fbig::scaled(b, ls, le, m);
    let u = pow(b, (ve + re - m) as nat);
    let err = a - t;
    &&& err != 0
    &&& sg == crate::round::sign_of(err * rs)
    &&& abs_of(err) < u * abs_of(rs)
}

/// `(ls, le)` is the dividend `(ols, ole)` brought down to at most `t`
/// digits: the same value, or off by one unit in its last place.
pub open spec fn rounded_dividend(b: int, t: nat, ls: int, le: int, ols: int, ole: int) -> bool {
    &&& spec_digits(b, abs_of(ls) as nat) <= t
    &&& ls != 0
    &&& rounds_to(b, ls, le, ols, ole)
}

/// The quotient of `a` by nonzero `b`, truncated toward zero.
pub open spec fn quot_trunc(a: int, b: int) -> int {
    let m = abs_of(a) / abs_of(b);
    if (a >= 0) == (b >= 0) {
        m
    } else {
        -m
    }
}

/// The remainder the truncated quotient leaves: `a - b * quot_trunc(a, b)`.
pub open spec fn rem_trunc(a: int, b: int) -> int {
    a - b * quot_trunc(a, b)
}

/// Digits by which division scales its dividend: the quotient then carries
/// the working precision.
pub open spec fn quot_shift(b: int, p: nat, lm: nat, rm: nat) -> nat {
    (p + spec_digits(b, rm) - spec_digits(b, lm)) as nat
}

/// The result `(vs, ve)` is the rounded quotient of `(ls, le)` by `(rs, re)`
/// at precision `p`: the dividend is scaled by `quot_shift` digits, divided
/// with truncation, and, when a remainder is left, adjusted by the rounding
/// policy's unit step.  Together with normalization this pins the result.
pub open spec fn div_pinned<Rd: Round>(
    b: int,
    p: nat,
    vs: int,
    ve: int,
    ls: int,
    le: int,
    rs: int,
    re: int,
    exact: bool,
) -> bool {
    let sh = quot_shift(b, p, abs_of(ls) as nat, abs_of(rs) as nat);
    let e0 = le - re - sh;
    let sa = ls * pow(b, sh);
    let q = quot_trunc(sa, rs);
    let r = rem_trunc(sa, rs);
    &&& ve >= e0
    &&& (exact ==> r == 0 && vs * pow(b, (ve - e0) as nat) == q)
    &&& (!exact ==> r != 0 && vs * pow(b, (ve - e0) as nat) == q + Rd::round_ratio_spec(q, r, rs))
}

/// A Euclidean division of magnitudes whose signs follow the dividend is the
/// truncated division.
proof fn lemma_trunc_division(
    sav: int,
    qv: int,
    rv: int,
    rsv: int,
    sam: nat,
    qm: nat,
    rmm: nat,
    rsm: nat,
)
    requires
        sav == qv * rsv + rv,
        qm * rsm + rmm == sam,
        rmm < rsm,
        rsv != 0,
        (sav >= 0 ==> sam == sav) && (sav < 0 ==> sam == -sav),
        (qv >= 0 ==> qm == qv) && (qv < 0 ==> qm == -qv),
        (rv >= 0 ==> rmm == rv) && (rv < 0 ==> rmm == -rv),
        (rsv >= 0 ==> rsm == rsv) && (rsv < 0 ==> rsm == -rsv),
    ensures
        qv == quot_trunc(sav, rsv),
        rv == rem_trunc(sav, rsv),
{
    crate::div_ops::lemma_euclidean_unique(sam, rsm, qm, rmm);
    vstd::arithmetic::div_mod::lemma_fundamental_div_mod_converse(
        sam as int,
        rsm as int,
        (sam / rsm) as int,
        (sam % rsm) as int,
    );
    assert(abs_of(sav) / abs_of(rsv) == qm as int);
    // when the quotient is nonzero, the dividend's sign is the product of the
    // divisor's and the quotient's
    assert((qv > 0 ==> ((sav >= 0) <==> (rsv >= 0))) && (qv < 0 ==> ((sav >= 0) <==> !(rsv
        >= 0)))) by (nonlinear_arith)
        requires
            sav == qv * rsv + rv,
            rmm < rsm,
            rsv != 0,
            (sav >= 0 ==> sam == sav) && (sav < 0 ==> sam == -sav),
            (rv >= 0 ==> rmm == rv) && (rv < 0 ==> rmm == -rv),
            (rsv >= 0 ==> rsm == rsv) && (rsv < 0 ==> rsm == -rsv),
    ;
    if qv == 0 {
        assert(quot_trunc(sav, rsv) == 0);
    }
    assert(sav - rsv * qv == rv) by (nonlinear_arith)
        requires
            sav == qv * rsv + rv,
    ;
}

/// The quotient is exact or within one unit in the last place./// The quotient is exact or within one unit in the last place.
pub open spec fn rounds_ratio(b: int, vs: int, ve: int, ls: int, le: int, rs: int, re: int) -> bool {
    ratio_exact(b, vs, ve, ls, le, rs, re) || ratio_bracket(b, vs, ve, ls, le, rs, re, 1)
        || ratio_bracket(b, vs, ve, ls, le, rs, re, -1)
}

/// The zero pair stands for any zero value.
proof fn lemma_zero_same_value(b: int, s: int, e: int)
    requires
        b >= 2,
        s == 0,
    ensures
        same_value(b, 0, 0, s, e),
{
    lemma_pow0(b);
    lemma_mul_basics(pow(b, (0 - spec_min(0, e)) as nat));
    lemma_mul_basics(pow(b, (e - spec_min(0, e)) as nat));
    vstd::arithmetic::mul::lemma_mul_basics(pow(b, (0 - spec_min(0, e)) as nat));
    vstd::arithmetic::mul::lemma_mul_basics(pow(b, (e - spec_min(0, e)) as nat));
    assert(0 * pow(b, (0 - spec_min(0, e)) as nat) == 0);
    assert(s * pow(b, (e - spec_min(0, e)) as nat) == 0);
}

/// An arbitrary precision float: a representation and its context.
#[derive(Debug)]
pub struct FBig<R: Round, const B: u64> {
    pub repr: FloatRepr<B>,
    pub context: Context<R>,
}

impl<R: Round, const B: u64> FBig<R, B> {
    /// Well-formed representation.
    pub open spec fn wf(&self) -> bool {
        self.repr.wf()
    }

    /// Within the operand budgets of the rounded operations.
    pub open spec fn op_ready(&self) -> bool {
        &&& self.repr.wf()
        &&& self.repr.significand.spec_len() <= OP_SIG_WORDS
        &&& -OP_EXP <= self.repr.exponent <= OP_EXP
    }

    /// Pair a representation with a context.
    pub fn new(repr: FloatRepr<B>, context: Context<R>) -> (r: FBig<R, B>)
        ensures
            r.repr == repr,
            r.context == context,
    {
        FBig { repr, context }
    }

    /// The value zero, at precision 1.
    pub fn zero() -> (r: FBig<R, B>)
        ensures
            r.wf(),
            r.op_ready(),
            r.repr.sig() == 0,
            r.repr.exp() == 0,
            r.context.precision == 1,
    {
        FBig { repr: FloatRepr::zero(), context: Context::new(1) }
    }

    /// The value one, at precision 1.
    pub fn one() -> (r: FBig<R, B>)
        ensures
            r.wf(),
            r.op_ready(),
            r.repr.sig() == 1,
            r.repr.exp() == 0,
            r.context.precision == 1,
    {
        FBig { repr: FloatRepr::one(), context: Context::new(1) }
    }

    /// The value minus one, at precision 1.
    pub fn neg_one() -> (r: FBig<R, B>)
        ensures
            r.wf(),
            r.repr.sig() == -1,
            r.repr.exp() == 0,
    {
        FBig { repr: FloatRepr::neg_one(), context: Context::new(1) }
    }

    /// The positive infinity sentinel.
    pub fn inf() -> (r: FBig<R, B>)
        ensures
            r.wf(),
            r.repr.is_infinite_spec(),
    {
        FBig { repr: FloatRepr::infinity(), context: Context::new(0) }
    }

    /// The negative infinity sentinel.
    pub fn neg_inf() -> (r: FBig<R, B>)
        ensures
            r.wf(),
            r.repr.is_infinite_spec(),
    {
        FBig { repr: FloatRepr::neg_infinity(), context: Context::new(0) }
    }

    /// The context's precision.
    pub fn precision(&self) -> (r: usize)
        ensures
            r == self.context.precision,
    {
        self.context.precision
    }

    /// The context of this number.
    pub fn context(&self) -> (r: Context<R>)
        ensures
            r.precision == self.context.precision,
    {
        self.context.clone()
    }

    /// The number of significant base-`B` digits.
    pub fn digits(&self) -> (r: usize)
        requires
            B >= 2,
            self.wf(),
        ensures
            r == spec_digits(B as int, self.repr.significand.mag()),
            self.repr.sig() == 0 ==> r == 0,
            self.repr.sig() != 0 ==> r >= 1 && pow(B as int, (r - 1) as nat)
                <= self.repr.significand.mag() && self.repr.significand.mag() < pow(
                B as int,
                r as nat,
            ),
    {
        self.repr.digits()
    }

    /// The sign of the value; infinities take the exponent's sign.
    pub fn sign(&self) -> (r: Sign)
        requires
            self.wf(),
        ensures
            self.repr.sig() > 0 ==> r == Sign::Positive,
            self.repr.sig() < 0 ==> r == Sign::Negative,
            self.repr.sig() == 0 && self.repr.exp() >= 0 ==> r == Sign::Positive,
            self.repr.sig() == 0 && self.repr.exp() < 0 ==> r == Sign::Negative,
    {
        if self.repr.significand.is_zero() {
            if self.repr.exponent >= 0 {
                Sign::Positive
            } else {
                Sign::Negative
            }
        } else {
            self.repr.significand.sign()
        }
    }

    /// Build from a significand and exponent; the precision is the digit
    /// count of the significand (at least 1).
    pub fn from_parts(significand: IBig, exponent: i64) -> (r: FBig<R, B>)
        requires
            B >= 2,
            significand.wf(),
            -EXP_OP_LIMIT <= exponent <= EXP_OP_LIMIT,
            significand.spec_len() <= 2 * SIG_LEN_LIMIT,
        ensures
            r.wf(),
            r.repr.is_normalized(),
            significand.value() != 0 ==> r.repr.sig() != 0 && r.repr.sig() * pow(
                B as int,
                (r.repr.exp() - exponent) as nat,
            ) == significand.value(),
            significand.value() == 0 ==> r.repr.sig() == 0 && r.repr.exp() == 0,
            r.repr.significand.spec_len() <= significand.spec_len() + 2,
            significand.value() != 0 ==> exponent <= r.repr.exponent <= exponent + 64
                * significand.spec_len(),
            significand.value() == 0 ==> r.context.precision == 1,
            significand.value() != 0 ==> r.context.precision == spec_digits(
                B as int,
                r.repr.significand.mag(),
            ),
    {
        proof {
            op_budget_fits();
        }
        let repr = FloatRepr::<B>::new(significand, exponent);
        let d = repr.digits();
        let precision = if d == 0 {
            1
        } else {
            d
        };
        FBig { repr, context: Context::new(precision) }
    }

    /// Build from a sign, a machine-word significand and an exponent.
    pub fn from_parts_const(sign: Sign, significand: u128, exponent: i64) -> (r: FBig<R, B>)
        requires
            B >= 2,
            -EXP_OP_LIMIT <= exponent <= EXP_OP_LIMIT,
        ensures
            r.wf(),
            r.repr.is_normalized(),
            significand != 0 ==> r.repr.sig() != 0 && r.repr.sig() * pow(
                B as int,
                (r.repr.exp() - exponent) as nat,
            ) == sign.apply(significand as nat),
            significand == 0 ==> r.repr.sig() == 0 && r.repr.exp() == 0,
            significand == 0 ==> r.context.precision == 1,
            significand != 0 ==> r.context.precision == spec_digits(
                B as int,
                r.repr.significand.mag(),
            ),
    {
        let mag = UBig::from_dword(significand);
        let s = IBig::from_parts(sign, mag);
        proof {
            op_budget_fits();
            crate::repr::lemma_dword_value_upper(significand);
            crate::primitive::lemma_word_base();
            vstd::arithmetic::power2::lemma_pow2_adds(64, 64);
            vstd::arithmetic::power2::lemma_pow2_strictly_increases(128, 64 * 3);
            crate::fbig::lemma_ibig_len_of_parts(&s, 2);
        }
        Self::from_parts(s, exponent)
    }

    /// Split into significand and exponent.
    pub fn into_parts(self) -> (r: (IBig, i64))
        requires
            self.wf(),
        ensures
            r.0.value() == self.repr.sig(),
            r.1 == self.repr.exponent,
    {
        (self.repr.significand, self.repr.exponent)
    }

    /// The opposite value.
    pub fn neg(&self) -> (r: FBig<R, B>)
        requires
            B >= 2,
            self.wf(),
            !self.repr.is_infinite_spec(),
        ensures
            r.wf(),
            r.repr.sig() == -self.repr.sig(),
            r.repr.exp() == self.repr.exp(),
            r.context.precision == self.context.precision,
            self.repr.is_normalized() ==> r.repr.is_normalized(),
            self.op_ready() ==> r.op_ready(),
    {
        proof {
            lemma_neg_mod(self.repr.sig(), B as int);
            lemma_ibig_len_pos(&self.repr.significand);
        }
        let s = self.repr.significand.neg();
        proof {
            lemma_ibig_len_le(&s, &self.repr.significand);
            lemma_neg_len(&s, &self.repr.significand);
        }
        FBig {
            repr: FloatRepr { significand: s, exponent: self.repr.exponent },
            context: self.context.clone(),
        }
    }

    /// Reduce the value to a new precision.
    pub fn with_precision(self, precision: usize) -> (r: Rounded<FBig<R, B>>)
        requires
            B >= 2,
            self.wf(),
            self.repr.significand.spec_len() <= 2 * SIG_LEN_LIMIT,
            -EXP_OP_LIMIT <= self.repr.exponent <= EXP_OP_LIMIT,
            !self.repr.is_infinite_spec(),
            1 <= precision <= SIG_LEN_LIMIT,
        ensures
            match r {
                Approximation::Exact(v) => v.wf() && v.repr.is_normalized()
                    && !v.repr.is_infinite_spec() && v.context.precision == precision && same_value(
                    B as int,
                    v.repr.sig(),
                    v.repr.exp(),
                    self.repr.sig(),
                    self.repr.exp(),
                ),
                Approximation::Inexact(v, sg) => v.wf() && v.repr.is_normalized()
                    && !v.repr.is_infinite_spec() && v.context.precision == precision && (sg == 1
                    || sg == -1) && (v.repr.sig()
                    == 0 <==> self.repr.sig() == 0) && (self.repr.sig() != 0 ==> one_ulp_of(
                    B as int,
                    v.repr.sig(),
                    v.repr.exp(),
                    self.repr.sig(),
                    self.repr.exp(),
                    sg as int,
                )),
            },
    {
        proof {
            op_budget_fits();
        }
        let ctx = Context::<R>::new(precision);
        let rounded = ctx.repr_round(self.repr);
        match rounded {
            Approximation::Exact(v) => Approximation::Exact(FBig { repr: v, context: ctx }),
            Approximation::Inexact(v, sg) => Approximation::Inexact(
                FBig { repr: v, context: ctx },
                sg,
            ),
        }
    }

    /// The rounded product, at the larger of the two precisions.
    pub fn mul(&self, rhs: &FBig<R, B>) -> (r: FBig<R, B>)
        requires
            B >= 2,
            self.op_ready(),
            rhs.op_ready(),
            !self.repr.is_infinite_spec(),
            !rhs.repr.is_infinite_spec(),
            1 <= self.context.precision <= SIG_LEN_LIMIT,
            rhs.context.precision <= SIG_LEN_LIMIT,
        ensures
            r.wf(),
            r.repr.is_normalized(),
            r.context.precision == max_usize(self.context.precision, rhs.context.precision),
            r.repr.significand.mag() <= pow(B as int, r.context.precision as nat),
            rounds_to(
                B as int,
                r.repr.sig(),
                r.repr.exp(),
                self.repr.sig() * rhs.repr.sig(),
                self.repr.exp() + rhs.repr.exp(),
            ),
    {
        proof {
            op_budget_fits();
            lemma_ibig_len_pos(&self.repr.significand);
            lemma_ibig_len_pos(&rhs.repr.significand);
        }
        let prod = self.repr.significand.mul(&rhs.repr.significand);
        let e = self.repr.exponent + rhs.repr.exponent;
        proof {
            lemma_mul_len(&prod, &self.repr.significand, &rhs.repr.significand);
            crate::fbig::lemma_ibig_len_of_parts(
                &prod,
                self.repr.significand.spec_len() + rhs.repr.significand.spec_len(),
            );
        }
        let precision = max_prec(self.context.precision, rhs.context.precision);
        let ctx = Context::<R>::new(precision);
        if prod.is_zero() {
            proof {
                lemma_pow_positive(B as int, precision as nat);
                lemma_zero_same_value(B as int, prod.value(), e as int);
            }
            return FBig { repr: FloatRepr::zero(), context: ctx };
        }
        let rounded = ctx.repr_round(FloatRepr { significand: prod, exponent: e });
        let v = rounded.value();
        FBig { repr: v, context: ctx }
    }

    /// The rounded sum, at the larger of the two precisions.
    pub fn add(&self, rhs: &FBig<R, B>) -> (r: FBig<R, B>)
        requires
            B >= 2,
            self.op_ready(),
            rhs.op_ready(),
            !self.repr.is_infinite_spec(),
            !rhs.repr.is_infinite_spec(),
            1 <= self.context.precision <= SIG_LEN_LIMIT,
            rhs.context.precision <= SIG_LEN_LIMIT,
        ensures
            r.wf(),
            r.repr.is_normalized(),
            r.context.precision == max_usize(self.context.precision, rhs.context.precision),
            r.repr.significand.mag() <= pow(B as int, r.context.precision as nat),
            rounds_to(
                B as int,
                r.repr.sig(),
                r.repr.exp(),
                aligned_sum(
                    B as int,
                    self.repr.sig(),
                    self.repr.exp(),
                    rhs.repr.sig(),
                    rhs.repr.exp(),
                ),
                spec_min(self.repr.exp(), rhs.repr.exp()),
            ),
    {
        proof {
            op_budget_fits();
            lemma_ibig_len_pos(&self.repr.significand);
            lemma_ibig_len_pos(&rhs.repr.significand);
            crate::primitive::lemma_word_base();
        }
        // align both significands at the smaller exponent
        let (lo, hi, m) = if self.repr.exponent <= rhs.repr.exponent {
            (&self.repr, &rhs.repr, self.repr.exponent)
        } else {
            (&rhs.repr, &self.repr, rhs.repr.exponent)
        };
        let diff = (hi.exponent - m) as usize;
        let scale_u = UBig::from_word(B).pow(diff);
        proof {
            lemma_pow_positive(B as int, diff as nat);
            crate::fbig::lemma_pow_word_bound(B as nat, diff as nat);
            lemma_pow2_strictly_increases(64 * diff as nat, 64 * (diff + 1) as nat);
            crate::ubig::lemma_len_bounded(&scale_u, (diff + 1) as nat);
        }
        let scale = IBig::from_parts(Sign::Positive, scale_u);
        proof {
            crate::fbig::lemma_ibig_len_of_parts(&scale, (diff + 1) as nat);
        }
        let shifted = hi.significand.mul(&scale);
        proof {
            lemma_mul_len(&shifted, &hi.significand, &scale);
            crate::fbig::lemma_ibig_len_of_parts(
                &shifted,
                hi.significand.spec_len() + scale.spec_len(),
            );
        }
        let total = shifted.add(&lo.significand);
        proof {
            lemma_add_len(&total, &shifted, &lo.significand);
            crate::fbig::lemma_ibig_len_of_parts(
                &total,
                shifted.spec_len() + lo.significand.spec_len() + 1,
            );
            // the joined significand is the exact sum at the smaller exponent
            lemma_pow0(B as int);
            vstd::arithmetic::mul::lemma_mul_basics(lo.sig());
            assert(spec_min(self.repr.exp(), rhs.repr.exp()) == m as int);
            assert(total.value() == hi.sig() * pow(B as int, diff as nat) + lo.sig());
            assert(total.value() == aligned_sum(
                B as int,
                self.repr.sig(),
                self.repr.exp(),
                rhs.repr.sig(),
                rhs.repr.exp(),
            ));
        }
        let precision = max_prec(self.context.precision, rhs.context.precision);
        let ctx = Context::<R>::new(precision);
        if total.is_zero() {
            proof {
                lemma_pow_positive(B as int, precision as nat);
                lemma_zero_same_value(
                    B as int,
                    aligned_sum(
                        B as int,
                        self.repr.sig(),
                        self.repr.exp(),
                        rhs.repr.sig(),
                        rhs.repr.exp(),
                    ),
                    spec_min(self.repr.exp(), rhs.repr.exp()),
                );
            }
            return FBig { repr: FloatRepr::zero(), context: ctx };
        }
        let rounded = ctx.repr_round(FloatRepr { significand: total, exponent: m });
        let v = rounded.value();
        FBig { repr: v, context: ctx }
    }

    /// The rounded difference, at the larger of the two precisions.
    pub fn sub(&self, rhs: &FBig<R, B>) -> (r: FBig<R, B>)
        requires
            B >= 2,
            self.op_ready(),
            rhs.op_ready(),
            !self.repr.is_infinite_spec(),
            !rhs.repr.is_infinite_spec(),
            1 <= self.context.precision <= SIG_LEN_LIMIT,
            rhs.context.precision <= SIG_LEN_LIMIT,
        ensures
            r.wf(),
            r.repr.is_normalized(),
            r.context.precision == max_usize(self.context.precision, rhs.context.precision),
            r.repr.significand.mag() <= pow(
                B as int,
                max_usize(self.context.precision, rhs.context.precision) as nat,
            ),
            rounds_to(
                B as int,
                r.repr.sig(),
                r.repr.exp(),
                aligned_sum(
                    B as int,
                    self.repr.sig(),
                    self.repr.exp(),
                    -rhs.repr.sig(),
                    rhs.repr.exp(),
                ),
                spec_min(self.repr.exp(), rhs.repr.exp()),
            ),
    {
        let n = rhs.neg();
        let n2 = FBig::<R, B> { repr: n.repr, context: Context::new(rhs.context.precision) };
        self.add(&n2)
    }

    /// The rounded quotient, at the larger of the two precisions.
    pub fn div(&self, rhs: &FBig<R, B>) -> (r: FBig<R, B>)
        requires
            B >= 2,
            self.op_ready(),
            rhs.op_ready(),
            !self.repr.is_infinite_spec(),
            !rhs.repr.is_infinite_spec(),
            rhs.repr.sig() != 0,
            1 <= self.context.precision <= DIV_PRECISION,
            rhs.context.precision <= DIV_PRECISION,
            rhs.repr.significand.spec_len() <= DIV_SIG_WORDS,
        ensures
            r.wf(),
            r.repr.is_normalized(),
            !r.repr.is_infinite_spec(),
            r.context.precision == max_usize(self.context.precision, rhs.context.precision),
            r.repr.significand.mag() <= pow(
                B as int,
                (max_usize(self.context.precision, rhs.context.precision) + 1) as nat,
            ),
            spec_digits(B as int, self.repr.significand.mag()) <= max_usize(
                self.context.precision,
                rhs.context.precision,
            ) + spec_digits(B as int, rhs.repr.significand.mag()) ==> rounds_ratio(
                B as int,
                r.repr.sig(),
                r.repr.exp(),
                self.repr.sig(),
                self.repr.exp(),
                rhs.repr.sig(),
                rhs.repr.exp(),
            ) && (self.repr.sig() != 0 ==> div_pinned::<R>(
                B as int,
                max_usize(self.context.precision, rhs.context.precision) as nat,
                r.repr.sig(),
                r.repr.exp(),
                self.repr.sig(),
                self.repr.exp(),
                rhs.repr.sig(),
                rhs.repr.exp(),
                true,
            ) || div_pinned::<R>(
                B as int,
                max_usize(self.context.precision, rhs.context.precision) as nat,
                r.repr.sig(),
                r.repr.exp(),
                self.repr.sig(),
                self.repr.exp(),
                rhs.repr.sig(),
                rhs.repr.exp(),
                false,
            )),
    {
        let precision = max_prec(self.context.precision, rhs.context.precision);
        let ctx = Context::<R>::new(precision);
        let lhs_clone = FBig::<R, B> { repr: clone_repr(&self.repr), context: self.context.clone() };
        let res = ctx.div(&lhs_clone, rhs);
        let v = res.value();
        v
    }
}

impl<R: Round, const B: u64> FBig<R, B> {
    /// The rounded ratio of two integers at the given precision.
    pub fn from_ratio(numerator: IBig, denominator: IBig, precision: usize) -> (r: FBig<R, B>)
        requires
            B >= 2,
            numerator.wf(),
            denominator.wf(),
            denominator.value() != 0,
            1 <= precision <= DIV_PRECISION,
            numerator.spec_len() + 2 <= 0x400,
            denominator.spec_len() + 2 <= 0x400,
        ensures
            r.wf(),
            r.repr.is_normalized(),
            !r.repr.is_infinite_spec(),
            r.context.precision == precision,
            r.repr.significand.mag() <= pow(B as int, (precision + 1) as nat),
            spec_digits(B as int, numerator.mag()) <= precision + spec_digits(
                B as int,
                denominator.mag(),
            ) ==> rounds_ratio(
                B as int,
                r.repr.sig(),
                r.repr.exp(),
                numerator.value(),
                0,
                denominator.value(),
                0,
            ) && (numerator.value() != 0 ==> div_pinned::<R>(
                B as int,
                precision as nat,
                r.repr.sig(),
                r.repr.exp(),
                numerator.value(),
                0,
                denominator.value(),
                0,
                true,
            ) || div_pinned::<R>(
                B as int,
                precision as nat,
                r.repr.sig(),
                r.repr.exp(),
                numerator.value(),
                0,
                denominator.value(),
                0,
                false,
            )),
    {
        proof {
            op_budget_fits();
        }
        let nr = FloatRepr::<B> { significand: numerator, exponent: 0 };
        let dr = FloatRepr::<B> { significand: denominator, exponent: 0 };
        let n = FBig::<R, B> { repr: nr, context: Context::new(1) };
        let d = FBig::<R, B> { repr: dr, context: Context::new(1) };
        let ctx = Context::<R>::new(precision);
        let res = ctx.div(&n, &d);
        res.value()
    }
}

/// A copy of a float representation.
pub fn clone_repr<const B: u64>(x: &FloatRepr<B>) -> (r: FloatRepr<B>)
    requires
        x.wf(),
    ensures
        r.wf(),
        r.sig() == x.sig(),
        r.exp() == x.exp(),
        r.significand.spec_len() == x.significand.spec_len(),
        r.significand.mag() == x.significand.mag(),
        x.is_normalized() ==> r.is_normalized(),
        x.is_infinite_spec() == r.is_infinite_spec(),
{
    FloatRepr { significand: x.significand.clone(), exponent: x.exponent }
}

/// The larger precision, preferring a positive one.
pub fn max_prec(a: usize, b: usize) -> (r: usize)
    ensures
        r == max_usize(a, b),
{
    if a >= b {
        a
    } else {
        b
    }
}

/// The larger of two word counts.
pub open spec fn max_usize(a: usize, b: usize) -> usize {
    if a >= b {
        a
    } else {
        b
    }
}

/// Negating preserves divisibility by the base.
proof fn lemma_neg_mod(s: int, b: int)
    requires
        b >= 2,
    ensures
        s % b != 0 ==> (-s) % b != 0,
{
    if s % b == 0 {
    } else {
        if (-s) % b == 0 {
            vstd::arithmetic::div_mod::lemma_fundamental_div_mod(-s, b);
            let k = (-s) / b;
            assert(s == b * (-k)) by {
                vstd::arithmetic::mul::lemma_mul_is_distributive_sub(b, 0, k);
                lemma_mul_basics(b);
            }
            vstd::arithmetic::div_mod::lemma_mod_multiples_basic(-k, b);
            lemma_mul_is_commutative(-k, b);
        }
    }
}

/// Negation keeps the stored words.
proof fn lemma_neg_len(r: &IBig, x: &IBig)
    requires
        r.wf(),
        x.wf(),
        r.value() == -x.value(),
    ensures
        r.spec_len() <= x.spec_len() || r.spec_len() <= 2,
{
    lemma_sign_cases(&r.0);
    lemma_sign_cases(&x.0);
    lemma_ibig_len_le(r, x);
}

/// The operand budgets stay far below the capacity limit.
proof fn op_budget_fits()
    ensures
        MAX_CAPACITY >= 67108863,
        8 * OP_SIG_WORDS + 63 <= MAX_CAPACITY,
{
    assert(usize::MAX >= 0xffffffff);
    vstd::arithmetic::div_mod::lemma_div_is_ordered(0xffffffff, usize::MAX as int, 64);
}

/// A product's words are bounded by the sum of the factors' words.
proof fn lemma_mul_len(p: &IBig, a: &IBig, b: &IBig)
    requires
        p.wf(),
        a.wf(),
        b.wf(),
        p.value() == a.value() * b.value(),
    ensures
        p.mag() < pow2(64 * (a.spec_len() + b.spec_len())),
{
    lemma_sign_cases(&p.0);
    lemma_sign_cases(&a.0);
    lemma_sign_cases(&b.0);
    assert(p.mag() == a.mag() * b.mag()) by (nonlinear_arith)
        requires
            p.value() == a.value() * b.value(),
            p.mag() == (if p.value() >= 0 {
                p.value()
            } else {
                -p.value()
            }),
            a.mag() == (if a.value() >= 0 {
                a.value()
            } else {
                -a.value()
            }),
            b.mag() == (if b.value() >= 0 {
                b.value()
            } else {
                -b.value()
            }),
    ;
    lemma_ibig_mag_bound(a);
    lemma_ibig_mag_bound(b);
    crate::math::lemma_mul_bound_lt(
        a.mag() as int,
        pow2(64 * a.spec_len()) as int,
        b.mag() as int,
        pow2(64 * b.spec_len()) as int,
    );
    vstd::arithmetic::power2::lemma_pow2_adds(64 * a.spec_len(), 64 * b.spec_len());
}

/// A sum's words are bounded by one more than the larger operand's words.
proof fn lemma_add_len(t: &IBig, a: &IBig, b: &IBig)
    requires
        t.wf(),
        a.wf(),
        b.wf(),
        t.value() == a.value() + b.value(),
    ensures
        t.mag() < pow2(64 * (a.spec_len() + b.spec_len() + 1)),
{
    lemma_sign_cases(&t.0);
    lemma_sign_cases(&a.0);
    lemma_sign_cases(&b.0);
    lemma_ibig_mag_bound(a);
    lemma_ibig_mag_bound(b);
    vstd::arithmetic::power2::lemma_pow2_adds(
        64 * a.spec_len(),
        64 * (b.spec_len() + 1),
    );
    vstd::arithmetic::power2::lemma_pow2_adds(64 * a.spec_len(), 64 * b.spec_len());
    vstd::arithmetic::power2::lemma_pow2_pos(64 * a.spec_len());
    vstd::arithmetic::power2::lemma_pow2_pos(64 * b.spec_len());
    lemma_pow2_strictly_increases(
        64 * b.spec_len(),
        64 * (a.spec_len() + b.spec_len()),
    );
    lemma_pow2_strictly_increases(
        64 * a.spec_len(),
        64 * (a.spec_len() + b.spec_len()),
    );
    vstd::arithmetic::power2::lemma_pow2_adds(64 * (a.spec_len() + b.spec_len()), 64);
    lemma2_to64();
}


/// Two scaled values equal at a common lower scale are the same value.
pub proof fn lemma_eq_at_scale(b: int, s1: int, e1: int, s2: int, e2: int, m0: int)
    requires
        b >= 2,
        m0 <= e1,
        m0 <= e2,
        s1 * pow(b, (e1 - m0) as nat) == s2 * pow(b, (e2 - m0) as nat),
    ensures
        same_value(b, s1, e1, s2, e2),
{
    let m = spec_min(e1, e2);
    let d = (m - m0) as nat;
    let p1 = pow(b, (e1 - m) as nat);
    let p2 = pow(b, (e2 - m) as nat);
    let pd = pow(b, d);
    lemma_pow_positive(b, d);
    lemma_pow_adds(b, (e1 - m) as nat, d);
    lemma_pow_adds(b, (e2 - m) as nat, d);
    assert(pow(b, (e1 - m0) as nat) == p1 * pd);
    assert(pow(b, (e2 - m0) as nat) == p2 * pd);
    assert((s1 * p1) * pd == (s2 * p2) * pd) by (nonlinear_arith)
        requires
            s1 * (p1 * pd) == s2 * (p2 * pd),
    ;
    assert(s1 * p1 == s2 * p2) by (nonlinear_arith)
        requires
            (s1 * p1) * pd == (s2 * p2) * pd,
            pd >= 1,
    ;
}

/// A shared value also agrees at every scale below both exponents.
pub proof fn lemma_same_value_lower(b: int, s1: int, e1: int, s2: int, e2: int, m0: int)
    requires
        b >= 2,
        same_value(b, s1, e1, s2, e2),
        m0 <= e1,
        m0 <= e2,
    ensures
        s1 * pow(b, (e1 - m0) as nat) == s2 * pow(b, (e2 - m0) as nat),
{
    let m = spec_min(e1, e2);
    let d = (m - m0) as nat;
    let p1 = pow(b, (e1 - m) as nat);
    let p2 = pow(b, (e2 - m) as nat);
    let pd = pow(b, d);
    lemma_pow_positive(b, d);
    lemma_pow_adds(b, (e1 - m) as nat, d);
    lemma_pow_adds(b, (e2 - m) as nat, d);
    assert(s1 * (p1 * pd) == s2 * (p2 * pd)) by (nonlinear_arith)
        requires
            s1 * p1 == s2 * p2,
    ;
}

/// Sameness of value carries across a middle pair.
pub proof fn lemma_same_value_trans(
    b: int,
    s1: int,
    e1: int,
    s2: int,
    e2: int,
    s3: int,
    e3: int,
)
    requires
        b >= 2,
        same_value(b, s1, e1, s2, e2),
        same_value(b, s2, e2, s3, e3),
    ensures
        same_value(b, s1, e1, s3, e3),
{
    let m0 = spec_min(spec_min(e1, e2), e3);
    lemma_same_value_lower(b, s1, e1, s2, e2, m0);
    lemma_same_value_lower(b, s2, e2, s3, e3, m0);
    lemma_eq_at_scale(b, s1, e1, s3, e3, m0);
}

/// A one-ulp bracket around a reference value holds around any pair denoting
/// the same value.
pub proof fn lemma_ulp_subst(
    b: int,
    vs: int,
    ve: int,
    s: int,
    e: int,
    s2: int,
    e2: int,
    sg: int,
)
    requires
        b >= 2,
        one_ulp_of(b, vs, ve, s, e, sg),
        same_value(b, s, e, s2, e2),
        sg == 1 || sg == -1,
    ensures
        one_ulp_of(b, vs, ve, s2, e2, sg),
{
    let m0 = spec_min(spec_min(ve, e), e2);
    let m = spec_min(ve, e);
    let m2 = spec_min(ve, e2);
    let d = (m - m0) as nat;
    let d2 = (m2 - m0) as nat;
    let pd = pow(b, d);
    let pd2 = pow(b, d2);
    lemma_pow_positive(b, d);
    lemma_pow_positive(b, d2);
    lemma_pow_adds(b, (ve - m) as nat, d);
    lemma_pow_adds(b, (e - m) as nat, d);
    lemma_pow_adds(b, (ve - m2) as nat, d2);
    lemma_pow_adds(b, (e2 - m2) as nat, d2);
    lemma_same_value_lower(b, s, e, s2, e2, m0);
    let a = vs * pow(b, (ve - m) as nat);
    let t = s * pow(b, (e - m) as nat);
    let u = pow(b, (ve - m) as nat);
    let a0 = vs * pow(b, (ve - m0) as nat);
    let t0 = s * pow(b, (e - m0) as nat);
    let u0 = pow(b, (ve - m0) as nat);
    // lower the bracket to the shared scale
    assert(a0 == a * pd && t0 == t * pd && u0 == u * pd) by (nonlinear_arith)
        requires
            pow(b, (ve - m0) as nat) == pow(b, (ve - m) as nat) * pd,
            pow(b, (e - m0) as nat) == pow(b, (e - m) as nat) * pd,
            a0 == vs * pow(b, (ve - m0) as nat),
            a == vs * pow(b, (ve - m) as nat),
            t0 == s * pow(b, (e - m0) as nat),
            t == s * pow(b, (e - m) as nat),
            u0 == pow(b, (ve - m0) as nat),
            u == pow(b, (ve - m) as nat),
    ;
    assert((t < a ==> t0 < a0) && (a < t + u ==> a0 < t0 + u0) && (t - u < a ==> t0 - u0 < a0)
        && (a < t ==> a0 < t0)) by (nonlinear_arith)
        requires
            a0 == a * pd,
            t0 == t * pd,
            u0 == u * pd,
            pd >= 1,
    ;
    // the reference rewrites at that scale
    assert(t0 == s2 * pow(b, (e2 - m0) as nat));
    // and the bracket lifts to the new pair's own scale
    let a2 = vs * pow(b, (ve - m2) as nat);
    let t2 = s2 * pow(b, (e2 - m2) as nat);
    let u2 = pow(b, (ve - m2) as nat);
    assert(a0 == a2 * pd2 && t0 == t2 * pd2 && u0 == u2 * pd2) by (nonlinear_arith)
        requires
            pow(b, (ve - m0) as nat) == pow(b, (ve - m2) as nat) * pd2,
            pow(b, (e2 - m0) as nat) == pow(b, (e2 - m2) as nat) * pd2,
            a0 == vs * pow(b, (ve - m0) as nat),
            a2 == vs * pow(b, (ve - m2) as nat),
            t0 == s2 * pow(b, (e2 - m0) as nat),
            t2 == s2 * pow(b, (e2 - m2) as nat),
            u0 == pow(b, (ve - m0) as nat),
            u2 == pow(b, (ve - m2) as nat),
    ;
    assert((t0 < a0 ==> t2 < a2) && (a0 < t0 + u0 ==> a2 < t2 + u2) && (t0 - u0 < a0 ==> t2 - u2
        < a2) && (a0 < t0 ==> a2 < t2)) by (nonlinear_arith)
        requires
            a0 == a2 * pd2,
            t0 == t2 * pd2,
            u0 == u2 * pd2,
            pd2 >= 1,
    ;
}

/// A one-unit quotient bracket at a common lower scale lifts to the bracket
/// at the operands' own scale.
proof fn lemma_bracket_lift(
    b: int,
    vs: int,
    ve: int,
    ls: int,
    le: int,
    rs: int,
    re: int,
    sg: int,
    m0: int,
)
    requires
        b >= 2,
        rs != 0,
        m0 <= ve + re,
        m0 <= le,
        (vs * rs) * pow(b, ((ve + re) - m0) as nat) - ls * pow(b, (le - m0) as nat) != 0,
        sg == crate::round::sign_of(
            ((vs * rs) * pow(b, ((ve + re) - m0) as nat) - ls * pow(b, (le - m0) as nat)) * rs,
        ),
        abs_of((vs * rs) * pow(b, ((ve + re) - m0) as nat) - ls * pow(b, (le - m0) as nat)) < pow(
            b,
            ((ve + re) - m0) as nat,
        ) * abs_of(rs),
    ensures
        ratio_bracket(b, vs, ve, ls, le, rs, re, sg),
{
    let m = spec_min(ve + re, le);
    let d = (m - m0) as nat;
    let pd = pow(b, d);
    let pa = pow(b, ((ve + re) - m) as nat);
    let pt = pow(b, (le - m) as nat);
    lemma_pow_positive(b, d);
    lemma_pow_positive(b, ((ve + re) - m) as nat);
    lemma_pow_adds(b, ((ve + re) - m) as nat, d);
    lemma_pow_adds(b, (le - m) as nat, d);
    let a = (vs * rs) * pa;
    let t = ls * pt;
    let err = a - t;
    let a0 = (vs * rs) * pow(b, ((ve + re) - m0) as nat);
    let t0 = ls * pow(b, (le - m0) as nat);
    let err0 = a0 - t0;
    assert(a0 == a * pd) by (nonlinear_arith)
        requires
            a0 == (vs * rs) * (pa * pd),
            a == (vs * rs) * pa,
    ;
    assert(t0 == t * pd) by (nonlinear_arith)
        requires
            t0 == ls * (pt * pd),
            t == ls * pt,
    ;
    assert(err0 == err * pd) by (nonlinear_arith)
        requires
            a0 == a * pd,
            t0 == t * pd,
            err0 == a0 - t0,
            err == a - t,
    ;
    assert(err != 0) by (nonlinear_arith)
        requires
            err0 == err * pd,
            err0 != 0,
    ;
    assert(err0 * rs == (err * rs) * pd) by (nonlinear_arith)
        requires
            err0 == err * pd,
    ;
    assert((err * rs > 0 <==> err0 * rs > 0) && (err * rs < 0 <==> err0 * rs < 0))
        by (nonlinear_arith)
        requires
            err0 * rs == (err * rs) * pd,
            pd >= 1,
    ;
    let ae = abs_of(err);
    let ae0 = abs_of(err0);
    let ar = abs_of(rs);
    assert(ae0 == ae * pd) by (nonlinear_arith)
        requires
            err0 == err * pd,
            pd >= 1,
            (err >= 0 ==> ae == err) && (err < 0 ==> ae == -err),
            (err0 >= 0 ==> ae0 == err0) && (err0 < 0 ==> ae0 == -err0),
    ;
    assert(ae < pa * ar) by (nonlinear_arith)
        requires
            ae * pd < (pa * pd) * ar,
            pd >= 1,
            ae >= 0,
            ar >= 0,
            pa >= 1,
    ;
}

/// A product's magnitude is the product of the magnitudes.
proof fn lemma_mag_mul(p: &IBig, a: &IBig, b: &IBig)
    requires
        p.wf(),
        a.wf(),
        b.wf(),
        p.value() == a.value() * b.value(),
    ensures
        p.mag() == a.mag() * b.mag(),
{
    lemma_sign_cases(&p.0);
    lemma_sign_cases(&a.0);
    lemma_sign_cases(&b.0);
    assert(p.mag() == a.mag() * b.mag()) by (nonlinear_arith)
        requires
            p.value() == a.value() * b.value(),
            p.mag() == (if p.value() >= 0 {
                p.value()
            } else {
                -p.value()
            }),
            a.mag() == (if a.value() >= 0 {
                a.value()
            } else {
                -a.value()
            }),
            b.mag() == (if b.value() >= 0 {
                b.value()
            } else {
                -b.value()
            }),
    ;
}

/// A truncated quotient under a unit rounding step: the adjusted quotient is
/// nonzero, and the residual error is nonzero, smaller than the divisor, and
/// directed by the step or, absent one, against the discarded fraction.
proof fn lemma_adjusted_quotient(
    sav: int,
    qv: int,
    rv: int,
    rsv: int,
    adj: int,
    sam: nat,
    qm: nat,
    rmm: nat,
    rsm: nat,
)
    requires
        sav == qv * rsv + rv,
        qm * rsm + rmm == sam,
        rmm < rsm,
        rsm <= sam,
        rv != 0,
        rsv != 0,
        adj == 0 || adj == crate::round::sign_of(rv * rsv),
        (sav >= 0 ==> sam == sav) && (sav < 0 ==> sam == -sav),
        (qv >= 0 ==> qm == qv) && (qv < 0 ==> qm == -qv),
        (rv >= 0 ==> rmm == rv) && (rv < 0 ==> rmm == -rv),
        (rsv >= 0 ==> rsm == rsv) && (rsv < 0 ==> rsm == -rsv),
    ensures
        qv + adj != 0,
        adj * rsv - rv != 0,
        abs_of(adj * rsv - rv) < abs_of(rsv),
        adj == 1 ==> crate::round::sign_of((adj * rsv - rv) * rsv) == 1,
        adj == -1 ==> crate::round::sign_of((adj * rsv - rv) * rsv) == -1,
        adj == 0 ==> crate::round::sign_of((adj * rsv - rv) * rsv) == -crate::round::sign_of(
            rv * rsv,
        ),
{
    if qm == 0 {
        assert(qm * rsm == 0) by (nonlinear_arith)
            requires
                qm == 0,
        ;
        assert(false);
    }
    assert(rv * rsv != 0) by (nonlinear_arith)
        requires
            rv != 0,
            rsv != 0,
    ;
    // a truncated quotient shares the discarded fraction's direction
    assert((rv * rsv > 0 ==> qv >= 0) && (rv * rsv < 0 ==> qv <= 0)) by (nonlinear_arith)
        requires
            sav == qv * rsv + rv,
            qm * rsm + rmm == sam,
            rmm < rsm,
            qm >= 1,
            (sav >= 0 ==> sam == sav) && (sav < 0 ==> sam == -sav),
            (qv >= 0 ==> qm == qv) && (qv < 0 ==> qm == -qv),
            (rv >= 0 ==> rmm == rv) && (rv < 0 ==> rmm == -rv),
            (rsv >= 0 ==> rsm == rsv) && (rsv < 0 ==> rsm == -rsv),
    ;
    if adj == 0 {
        assert(adj * rsv - rv == -rv) by (nonlinear_arith)
            requires
                adj == 0,
        ;
        assert((-rv) * rsv == -(rv * rsv)) by (nonlinear_arith);
    } else if rv * rsv > 0 {
        assert(adj == 1);
        let err = adj * rsv - rv;
        assert(err == rsv - rv) by (nonlinear_arith)
            requires
                adj == 1,
                err == adj * rsv - rv,
        ;
        assert((0 < rsv ==> 0 < err < rsv) && (rsv < 0 ==> rsv < err < 0)) by (nonlinear_arith)
            requires
                err == rsv - rv,
                rv * rsv > 0,
                rmm < rsm,
                rv != 0,
                (rv >= 0 ==> rmm == rv) && (rv < 0 ==> rmm == -rv),
                (rsv >= 0 ==> rsm == rsv) && (rsv < 0 ==> rsm == -rsv),
        ;
        assert(err * rsv > 0) by (nonlinear_arith)
            requires
                (0 < err && 0 < rsv) || (err < 0 && rsv < 0),
        ;
        assert(qv >= 1);
    } else {
        assert(adj == -1);
        let err = adj * rsv - rv;
        assert(err == -rsv - rv) by (nonlinear_arith)
            requires
                adj == -1,
                err == adj * rsv - rv,
        ;
        assert((0 < rsv ==> -rsv < err < 0) && (rsv < 0 ==> 0 < err < -rsv)) by (nonlinear_arith)
            requires
                err == -rsv - rv,
                rv * rsv < 0,
                rmm < rsm,
                rv != 0,
                (rv >= 0 ==> rmm == rv) && (rv < 0 ==> rmm == -rv),
                (rsv >= 0 ==> rsm == rsv) && (rsv < 0 ==> rsm == -rsv),
        ;
        assert(err * rsv < 0) by (nonlinear_arith)
            requires
                (err < 0 && 0 < rsv) || (0 < err && rsv < 0),
        ;
        assert(qv <= -1);
    }
}

impl<R: Round> Context<R> {
    /// Rounded division of two float representations.
    ///
    /// The dividend is pre-rounded so that the quotient carries about
    /// `precision` digits; the final digit is rounded by the policy.
    ///
    /// An inexact result's flag is the sign of `result - true quotient`
    /// (the error's direction); the policy's own unit step is what
    /// `div_pinned` pins instead.
    #[verifier::rlimit(100)]
    pub fn repr_div<const B: u64>(&self, lhs: FloatRepr<B>, rhs: &FloatRepr<B>) -> (res: Rounded<
        FloatRepr<B>,
    >)
        requires
            B >= 2,
            lhs.wf(),
            rhs.wf(),
            !lhs.is_infinite_spec(),
            !rhs.is_infinite_spec(),
            rhs.sig() != 0,
            1 <= self.precision <= DIV_PRECISION,
            lhs.significand.spec_len() <= 2 * OP_SIG_WORDS,
            rhs.significand.spec_len() <= DIV_SIG_WORDS,
            -EXP_OP_LIMIT <= lhs.exponent <= EXP_OP_LIMIT,
            -OP_EXP <= rhs.exponent <= OP_EXP,
            spec_digits(B as int, lhs.significand.mag()) <= self.precision + spec_digits(
                B as int,
                rhs.significand.mag(),
            ),
        ensures
            match res {
                Approximation::Exact(v) => v.wf() && v.is_normalized() && !v.is_infinite_spec()
                    && (lhs.sig() == 0 <==> v.sig() == 0) && v.significand.mag() <= pow(
                    B as int,
                    (self.precision + 1) as nat,
                ) && ratio_exact(
                    B as int,
                    v.sig(),
                    v.exp(),
                    lhs.sig(),
                    lhs.exp(),
                    rhs.sig(),
                    rhs.exp(),
                ) && (lhs.sig() != 0 ==> div_pinned::<R>(
                    B as int,
                    self.precision as nat,
                    v.sig(),
                    v.exp(),
                    lhs.sig(),
                    lhs.exp(),
                    rhs.sig(),
                    rhs.exp(),
                    true,
                )),
                Approximation::Inexact(v, sg) => v.wf() && v.is_normalized()
                    && !v.is_infinite_spec() && v.sig() != 0 && (sg == 1 || sg == -1)
                    && v.significand.mag() <= pow(B as int, (self.precision + 1) as nat)
                    && ratio_bracket(
                    B as int,
                    v.sig(),
                    v.exp(),
                    lhs.sig(),
                    lhs.exp(),
                    rhs.sig(),
                    rhs.exp(),
                    sg as int,
                ) && div_pinned::<R>(
                    B as int,
                    self.precision as nat,
                    v.sig(),
                    v.exp(),
                    lhs.sig(),
                    lhs.exp(),
                    rhs.sig(),
                    rhs.exp(),
                    false,
                ),
            },
    {
        proof {
            op_budget_fits();
            cap_is_large();
        }
        if lhs.significand.is_zero() {
            proof {
                let b = B as int;
                let m = spec_min(0 + rhs.exp(), lhs.exp());
                lemma_mul_basics(rhs.sig());
                vstd::arithmetic::mul::lemma_mul_basics(pow(b, ((0 + rhs.exp()) - m) as nat));
                vstd::arithmetic::mul::lemma_mul_basics(pow(b, (lhs.exp() - m) as nat));
                lemma_pow_positive(b, (self.precision + 1) as nat);
            }
            return Approximation::Exact(FloatRepr::zero());
        }
        let dd = rhs.digits();
        let target = dd + self.precision;
        let ld = lhs.digits();
        let shift = if ld < target {
            target - ld
        } else {
            0
        };
        proof {
            assert(ld + shift == target);
            assert(target <= 64 * DIV_SIG_WORDS + 1 + DIV_PRECISION);
            assert(shift + 5 <= MAX_CAPACITY);
        }
        let bpow_u = UBig::from_word(B).pow(shift);
        proof {
            crate::primitive::lemma_word_base();
            vstd::arithmetic::power2::lemma2_to64_rest();
            lemma_pow_positive(B as int, shift as nat);
            crate::fbig::lemma_pow_word_bound(B as nat, shift as nat);
            lemma_pow2_strictly_increases(64 * shift as nat, 64 * (shift + 1) as nat);
            crate::ubig::lemma_len_bounded(&bpow_u, (shift + 1) as nat);
        }
        let scale = IBig::from_parts(Sign::Positive, bpow_u);
        proof {
            crate::fbig::lemma_ibig_len_of_parts(&scale, (shift + 1) as nat);
            lemma_ibig_len_pos(&lhs.significand);
        }
        let sa = lhs.significand.mul(&scale);
        let e = lhs.exponent - rhs.exponent - shift as i64;
        proof {
            lemma_mul_len(&sa, &lhs.significand, &scale);
            crate::fbig::lemma_ibig_len_of_parts(
                &sa,
                lhs.significand.spec_len() + scale.spec_len(),
            );
            lemma_ibig_len_pos(&rhs.significand);
            // the scaled dividend outweighs the divisor
            lemma_mag_mul(&sa, &lhs.significand, &scale);
            lemma_sign_cases(&scale.0);
            lemma_pow_adds(B as int, (ld - 1) as nat, shift as nat);
            lemma_mul_inequality(
                pow(B as int, (ld - 1) as nat),
                lhs.significand.mag() as int,
                pow(B as int, shift as nat),
            );
            assert(pow(B as int, (target - 1) as nat) <= sa.mag());
            vstd::arithmetic::power::lemma_pow_increases(B as nat, dd as nat, (target - 1) as nat);
            assert(rhs.significand.mag() < pow(B as int, (target - 1) as nat));
            assert(sa.spec_len() + 4 <= MAX_CAPACITY);
        }
        let (q, rm) = sa.div_rem(&rhs.significand);
        proof {
            lemma_sign_cases(&rhs.significand.0);
            lemma_sign_cases(&sa.0);
            lemma_sign_cases(&q.0);
            lemma_sign_cases(&rm.0);
            if q.mag() == 0 {
                assert(q.mag() * rhs.significand.mag() == 0) by (nonlinear_arith)
                    requires
                        q.mag() == 0,
                ;
                assert(false);
            }
            lemma_q_fits(&q, &sa, &rm, &rhs.significand);
            // the computed division is the specification's truncated division
            let b = B as int;
            lemma_sign_cases(&lhs.significand.0);
            assert(quot_shift(
                b,
                self.precision as nat,
                lhs.significand.mag(),
                rhs.significand.mag(),
            ) == shift as nat);
            lemma_trunc_division(
                sa.value(),
                q.value(),
                rm.value(),
                rhs.sig(),
                sa.mag(),
                q.mag(),
                rm.mag(),
                rhs.significand.mag(),
            );
            // the quotient carries at most one digit beyond the precision
            crate::div_ops::lemma_euclidean_unique(
                sa.mag(),
                rhs.significand.mag(),
                q.mag(),
                rm.mag(),
            );
            vstd::arithmetic::mul::lemma_mul_strict_inequality(
                lhs.significand.mag() as int,
                pow(b, ld as nat),
                pow(b, shift as nat),
            );
            lemma_pow_adds(b, ld as nat, shift as nat);
            lemma_pow_adds(b, (dd - 1) as nat, (self.precision + 1) as nat);
            lemma_pow_positive(b, (dd - 1) as nat);
            lemma_pow_positive(b, (self.precision + 1) as nat);
            assert(sa.mag() < pow(b, target as nat));
            vstd::arithmetic::div_mod::lemma_div_is_ordered_by_denominator(
                sa.mag() as int,
                pow(b, (dd - 1) as nat),
                rhs.significand.mag() as int,
            );
            vstd::arithmetic::div_mod::lemma_multiply_divide_lt(
                sa.mag() as int,
                pow(b, (dd - 1) as nat),
                pow(b, (self.precision + 1) as nat),
            );
            assert(q.mag() < pow(b, (self.precision + 1) as nat));
        }
        if rm.is_zero() {
            let n = FloatRepr::<B>::new(q, e);
            proof {
                let b = B as int;
                let ls = lhs.sig();
                let le = lhs.exp();
                let rsv = rhs.sig();
                let re = rhs.exp();
                let qv = q.value();
                let sav = sa.value();
                let vs = n.sig();
                let ve = n.exp();
                let m0 = e as int + re;
                assert(qv != 0);
                let pp = pow(b, (ve - e as int) as nat);
                assert(vs * pp == qv);
                assert((vs * rsv) * pp == ls * pow(b, shift as nat)) by (nonlinear_arith)
                    requires
                        vs * pp == qv,
                        sav == qv * rsv + rm.value(),
                        rm.value() == 0,
                        sav == ls * pow(b, shift as nat),
                ;
                assert(le - m0 == shift);
                lemma_eq_at_scale(b, vs * rsv, ve + re, ls, le, m0);
                // the result is the truncated quotient itself
                assert(rem_trunc(sav, rsv) == 0);
                assert(vs * pp == quot_trunc(sav, rsv));
                assert(div_pinned::<R>(
                    b,
                    self.precision as nat,
                    vs,
                    ve,
                    ls,
                    le,
                    rsv,
                    re,
                    true,
                ));
            }
            return Approximation::Exact(n);
        }
        let adj = R::round_ratio(&q, &rm, &rhs.significand);
        proof {
            R::round_ratio_props(q.value(), rm.value(), rhs.sig());
        }
        let adj_big = if adj == 1 {
            IBig::one()
        } else if adj == 0 {
            IBig::zero()
        } else {
            IBig::neg_one()
        };
        let rounded = q.add(&adj_big);
        let sg: i8 = if adj == 1 {
            1
        } else if adj == -1 {
            -1
        } else {
            let f = frac_sign(&rm, &rhs.significand);
            if f == 1 {
                -1
            } else {
                1
            }
        };
        proof {
            lemma_sign_cases(&rounded.0);
            lemma_ibig_mag_bound(&q);
            lemma_pow2_strictly_increases(64 * q.spec_len(), 64 * (q.spec_len() + 1));
            crate::fbig::lemma_ibig_len_of_parts(&rounded, q.spec_len() + 1);
            lemma_adjusted_quotient(
                sa.value(),
                q.value(),
                rm.value(),
                rhs.sig(),
                adj as int,
                sa.mag(),
                q.mag(),
                rm.mag(),
                rhs.significand.mag(),
            );
        }
        let n = FloatRepr::<B>::new(rounded, e);
        proof {
            let b = B as int;
            let ls = lhs.sig();
            let le = lhs.exp();
            let rsv = rhs.sig();
            let re = rhs.exp();
            let qv = q.value();
            let rv = rm.value();
            let sav = sa.value();
            let rdv = rounded.value();
            let vs = n.sig();
            let ve = n.exp();
            let m0 = e as int + re;
            let adjv = adj as int;
            assert(rdv == qv + adjv);
            assert(rdv != 0);
            let pp = pow(b, (ve - e as int) as nat);
            assert(vs * pp == rdv);
            let err0 = adjv * rsv - rv;
            assert((vs * rsv) * pp == rdv * rsv) by (nonlinear_arith)
                requires
                    vs * pp == rdv,
            ;
            assert(rdv * rsv - sav == err0) by (nonlinear_arith)
                requires
                    rdv == qv + adjv,
                    sav == qv * rsv + rv,
                    err0 == adjv * rsv - rv,
            ;
            assert(le - m0 == shift);
            assert((ve + re) - m0 == ve - e as int);
            assert((vs * rsv) * pow(b, ((ve + re) - m0) as nat) - ls * pow(b, (le - m0) as nat)
                == err0);
            // one unit at the quotient's own scale bounds the error
            lemma_pow_positive(b, (ve - e as int) as nat);
            lemma_mul_inequality(1, pp, abs_of(rsv));
            assert(abs_of(err0) < pp * abs_of(rsv)) by (nonlinear_arith)
                requires
                    abs_of(err0) < abs_of(rsv),
                    pp >= 1,
                    abs_of(rsv) >= 0,
            ;
            if adj == 0 {
                let f = crate::round::sign_of(rv * rsv);
                assert(rv * rsv != 0) by (nonlinear_arith)
                    requires
                        rv != 0,
                        rsv != 0,
                ;
                assert(sg as int == -f);
                assert(sg as int == crate::round::sign_of(err0 * rsv));
            }
            lemma_bracket_lift(b, vs, ve, ls, le, rsv, re, sg as int, m0);
            // the result is the truncated quotient plus the policy's step
            assert(rv == rem_trunc(sav, rsv));
            assert(qv == quot_trunc(sav, rsv));
            assert(adjv == R::round_ratio_spec(qv, rv, rsv));
            assert(vs * pp == quot_trunc(sav, rsv) + R::round_ratio_spec(
                quot_trunc(sav, rsv),
                rem_trunc(sav, rsv),
                rsv,
            ));
            assert(div_pinned::<R>(
                b,
                self.precision as nat,
                vs,
                ve,
                ls,
                le,
                rsv,
                re,
                false,
            ));
            // one adjusted digit cannot leave the precision budget
            lemma_sign_cases(&q.0);
            assert(rounded.mag() <= q.mag() + 1);
            assert(n.significand.mag() <= pow(b, (self.precision + 1) as nat));
        }
        Approximation::Inexact(n, sg)
    }

    /// Rounded division of two floats under this context.
    ///
    /// A wide dividend is first brought down to as many digits as the
    /// quotient can carry; within that bound the quotient is characterized
    /// exactly.
    pub fn div<const B: u64>(&self, lhs: &FBig<R, B>, rhs: &FBig<R, B>) -> (res: Rounded<
        FBig<R, B>,
    >)
        requires
            B >= 2,
            lhs.op_ready(),
            rhs.op_ready(),
            !lhs.repr.is_infinite_spec(),
            !rhs.repr.is_infinite_spec(),
            rhs.repr.sig() != 0,
            1 <= self.precision <= DIV_PRECISION,
            rhs.repr.significand.spec_len() <= DIV_SIG_WORDS,
        ensures
            match res {
                Approximation::Exact(v) => v.wf() && v.repr.is_normalized()
                    && !v.repr.is_infinite_spec() && v.context.precision == self.precision && (
                v.repr.sig() == 0 <==> lhs.repr.sig() == 0) && v.repr.significand.mag() <= pow(
                    B as int,
                    (self.precision + 1) as nat,
                ) && (spec_digits(B as int, lhs.repr.significand.mag()) <= self.precision
                    + spec_digits(B as int, rhs.repr.significand.mag()) ==> ratio_exact(
                    B as int,
                    v.repr.sig(),
                    v.repr.exp(),
                    lhs.repr.sig(),
                    lhs.repr.exp(),
                    rhs.repr.sig(),
                    rhs.repr.exp(),
                ) && (lhs.repr.sig() != 0 ==> div_pinned::<R>(
                    B as int,
                    self.precision as nat,
                    v.repr.sig(),
                    v.repr.exp(),
                    lhs.repr.sig(),
                    lhs.repr.exp(),
                    rhs.repr.sig(),
                    rhs.repr.exp(),
                    true,
                ))) && (spec_digits(B as int, lhs.repr.significand.mag()) > self.precision
                    + spec_digits(B as int, rhs.repr.significand.mag())
                    ==> exists|ls: int, le: int|
                    #[trigger] rounded_dividend(
                        B as int,
                        (self.precision + spec_digits(B as int, rhs.repr.significand.mag())) as nat,
                        ls,
                        le,
                        lhs.repr.sig(),
                        lhs.repr.exp(),
                    ) && ratio_exact(
                        B as int,
                        v.repr.sig(),
                        v.repr.exp(),
                        ls,
                        le,
                        rhs.repr.sig(),
                        rhs.repr.exp(),
                    ) && div_pinned::<R>(
                        B as int,
                        self.precision as nat,
                        v.repr.sig(),
                        v.repr.exp(),
                        ls,
                        le,
                        rhs.repr.sig(),
                        rhs.repr.exp(),
                        true,
                    )),
                Approximation::Inexact(v, sg) => v.wf() && v.repr.is_normalized()
                    && !v.repr.is_infinite_spec() && v.context.precision == self.precision
                    && v.repr.sig() != 0 && (sg == 1 || sg == -1) && v.repr.significand.mag()
                    <= pow(B as int, (self.precision + 1) as nat) && (spec_digits(
                    B as int,
                    lhs.repr.significand.mag(),
                ) <= self.precision + spec_digits(B as int, rhs.repr.significand.mag())
                    ==> ratio_bracket(
                    B as int,
                    v.repr.sig(),
                    v.repr.exp(),
                    lhs.repr.sig(),
                    lhs.repr.exp(),
                    rhs.repr.sig(),
                    rhs.repr.exp(),
                    sg as int,
                ) && div_pinned::<R>(
                    B as int,
                    self.precision as nat,
                    v.repr.sig(),
                    v.repr.exp(),
                    lhs.repr.sig(),
                    lhs.repr.exp(),
                    rhs.repr.sig(),
                    rhs.repr.exp(),
                    false,
                )) && (spec_digits(B as int, lhs.repr.significand.mag()) > self.precision
                    + spec_digits(B as int, rhs.repr.significand.mag())
                    ==> exists|ls: int, le: int|
                    #[trigger] rounded_dividend(
                        B as int,
                        (self.precision + spec_digits(B as int, rhs.repr.significand.mag())) as nat,
                        ls,
                        le,
                        lhs.repr.sig(),
                        lhs.repr.exp(),
                    ) && ratio_bracket(
                        B as int,
                        v.repr.sig(),
                        v.repr.exp(),
                        ls,
                        le,
                        rhs.repr.sig(),
                        rhs.repr.exp(),
                        sg as int,
                    ) && div_pinned::<R>(
                        B as int,
                        self.precision as nat,
                        v.repr.sig(),
                        v.repr.exp(),
                        ls,
                        le,
                        rhs.repr.sig(),
                        rhs.repr.exp(),
                        false,
                    )),
            },
    {
        proof {
            op_budget_fits();
            cap_is_large();
        }
        let dd = rhs.repr.digits();
        let target = dd + self.precision;
        let l0 = clone_repr(&lhs.repr);
        let ld0 = l0.digits();
        let l = if ld0 > target {
            let pre = Context::<R>::new(target);
            let shrunk = pre.repr_round(l0);
            let l1 = shrunk.value();
            proof {
                // a normalized significand never reaches the power itself
                lemma_sign_cases(&lhs.repr.significand.0);
                assert(l1.sig() != 0);
                assert(l1.significand.mag() <= pow(B as int, target as nat));
                if l1.significand.mag() == pow(B as int, target as nat) {
                    let k = pow(B as int, (target - 1) as nat);
                    lemma_pow_positive(B as int, (target - 1) as nat);
                    lemma_pow_adds(B as int, 1, (target - 1) as nat);
                    lemma_pow1(B as int);
                    assert(pow(B as int, target as nat) == B * k);
                    lemma_sign_cases(&l1.significand.0);
                    assert(l1.sig() == B * k || l1.sig() == -(B * k));
                    vstd::arithmetic::div_mod::lemma_mod_multiples_basic(k, B as int);
                    vstd::arithmetic::div_mod::lemma_mod_multiples_basic(-k, B as int);
                    lemma_mul_is_commutative(B as int, k);
                    lemma_mul_is_commutative(B as int, -k);
                    assert(-(B * k) == (-k) * B) by (nonlinear_arith);
                    assert(false);
                }
                crate::fbig::lemma_spec_digits_le(B as int, l1.significand.mag(), target as nat);
                crate::primitive::lemma_word_base();
                crate::fbig::lemma_pow_word_bound(B as nat, target as nat);
                lemma_pow2_strictly_increases(64 * target as nat, 64 * (target + 1) as nat);
                crate::fbig::lemma_ibig_len_of_parts(&l1.significand, (target + 1) as nat);
                // the shrunk dividend is the original to within one ulp
                lemma_sign_cases(&l1.significand.0);
                assert(rounds_to(B as int, l1.sig(), l1.exp(), lhs.repr.sig(), lhs.repr.exp()));
                assert(rounded_dividend(
                    B as int,
                    target as nat,
                    l1.sig(),
                    l1.exp(),
                    lhs.repr.sig(),
                    lhs.repr.exp(),
                ));
            }
            l1
        } else {
            l0
        };
        let r = self.repr_div(l, &rhs.repr);
        let ctx = Context::<R>::new(self.precision);
        proof {
            if ld0 > target {
                // the clauses proved against the shrunk dividend witness the
                // wide-dividend contract
                assert(rounded_dividend(
                    B as int,
                    target as nat,
                    l.sig(),
                    l.exp(),
                    lhs.repr.sig(),
                    lhs.repr.exp(),
                ));
            }
        }
        match r {
            Approximation::Exact(v) => Approximation::Exact(FBig { repr: v, context: ctx }),
            Approximation::Inexact(v, sg) => Approximation::Inexact(
                FBig { repr: v, context: ctx },
                sg,
            ),
        }
    }
}

/// A quotient and remainder stay within the dividend's word budget.
proof fn lemma_q_fits(q: &IBig, sa: &IBig, rm: &IBig, den: &IBig)
    requires
        q.wf(),
        sa.wf(),
        rm.wf(),
        den.wf(),
        den.mag() >= 1,
        rm.mag() < den.mag(),
        q.mag() * den.mag() + rm.mag() == sa.mag(),
    ensures
        q.mag() <= sa.mag(),
        q.spec_len() <= sa.spec_len() || q.spec_len() <= 2,
        rm.spec_len() <= den.spec_len() || rm.spec_len() <= 2,
        rm.mag() <= sa.mag() || rm.mag() <= den.mag(),
{
    lemma_mul_inequality(1, den.mag() as int, q.mag() as int);
    lemma_mul_is_commutative(den.mag() as int, q.mag() as int);
    lemma_mul_is_commutative(q.mag() as int, den.mag() as int);
    lemma_mul_basics(q.mag() as int);
    lemma_ibig_len_le(q, sa);
    if rm.mag() <= den.mag() {
        lemma_ibig_len_le(rm, den);
    } else {
        lemma_ibig_len_le(rm, den);
    }
}

} // verus!
