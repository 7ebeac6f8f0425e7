//! Signed big integer.
//!
//! An [`IBig`] wraps a [`Repr`] of either sign; zero always carries the
//! positive sign, so representations stay canonical.  Arithmetic dispatches
//! on the two signs and reuses the unsigned kernels on magnitudes.

use vstd::prelude::*;
use crate::buffer::MAX_CAPACITY;
use crate::repr::{Repr, TypedRepr, TypedReprRef};
use crate::sign::Sign;
use crate::ubig::UBig;

verus! {

/// Signed arbitrary-precision integer.
#[derive(Debug)]
pub struct IBig(pub Repr);

impl IBig {
    /// The integer this value denotes.
    pub open spec fn value(&self) -> int {
        self.0.value()
    }

    /// The magnitude as a natural number.
    pub open spec fn mag(&self) -> nat {
        self.0.mag()
    }

    /// Canonical representation; zero has a positive sign.
    pub open spec fn wf(&self) -> bool {
        self.0.wf()
    }

    /// Number of words stored.
    pub open spec fn spec_len(&self) -> nat {
        self.0.spec_len()
    }

    /// The zero value.
    pub fn zero() -> (r: IBig)
        ensures
            r.wf(),
            r.value() == 0,
            r.spec_len() == 1,
    {
        proof {
            crate::primitive::lemma_word_base();
            vstd::arithmetic::power2::lemma2_to64_rest();
        }
        IBig(Repr::zero())
    }

    /// The value one.
    pub fn one() -> (r: IBig)
        ensures
            r.wf(),
            r.value() == 1,
            r.spec_len() == 1,
    {
        proof {
            crate::primitive::lemma_word_base();
            vstd::arithmetic::power2::lemma2_to64_rest();
        }
        IBig(Repr::one())
    }

    /// The value minus one.
    pub fn neg_one() -> (r: IBig)
        ensures
            r.wf(),
            r.value() == -1,
            r.spec_len() == 1,
    {
        proof {
            crate::primitive::lemma_word_base();
            vstd::arithmetic::power2::lemma2_to64_rest();
        }
        IBig(Repr::neg_one())
    }

    /// Whether the value is zero.
    pub fn is_zero(&self) -> (r: bool)
        requires
            self.wf(),
        ensures
            r == (self.value() == 0),
    {
        proof {
            lemma_sign_cases(&self.0);
        }
        self.0.is_zero()
    }

    /// Whether the value is one.
    pub fn is_one(&self) -> (r: bool)
        requires
            self.wf(),
        ensures
            r == (self.value() == 1),
    {
        self.0.is_one()
    }

    /// The sign; zero is positive.
    pub fn sign(&self) -> (r: Sign)
        requires
            self.wf(),
        ensures
            r == self.0.sign,
            r == Sign::Positive ==> self.value() >= 0,
            r == Sign::Negative ==> self.value() < 0,
    {
        proof {
            lemma_sign_cases(&self.0);
        }
        self.0.sign()
    }

    /// Split into sign and magnitude.
    pub fn into_parts(self) -> (r: (Sign, UBig))
        requires
            self.wf(),
        ensures
            r.1.wf(),
            self.value() == r.0.apply(r.1.value()),
            r.0 == self.0.sign,
    {
        let sign = self.0.sign();
        let mag = self.0.with_sign(Sign::Positive);
        (sign, UBig(mag))
    }

    /// Build from sign and magnitude; a zero magnitude comes out positive.
    pub fn from_parts(sign: Sign, magnitude: UBig) -> (r: IBig)
        requires
            magnitude.wf(),
        ensures
            r.wf(),
            r.value() == sign.apply(magnitude.value()),
            r.mag() == magnitude.value(),
    {
        proof {
            match sign {
                Sign::Positive => {},
                Sign::Negative => {},
            }
        }
        IBig(magnitude.0.with_sign(sign))
    }

    /// The magnitude as an unsigned integer.
    pub fn magnitude(&self) -> (r: UBig)
        requires
            self.wf(),
        ensures
            r.wf(),
            r.value() == self.mag(),
            r.spec_len() == self.spec_len(),
    {
        proof {
            lemma_sign_cases(&self.0);
        }
        let c = self.0.clone();
        UBig(c.with_sign(Sign::Positive))
    }

    /// The opposite value.
    pub fn neg(&self) -> (r: IBig)
        requires
            self.wf(),
        ensures
            r.wf(),
            r.value() == -self.value(),
    {
        let c = self.0.clone();
        IBig(c.neg())
    }

    /// The absolute value, signed.
    pub fn abs(&self) -> (r: IBig)
        requires
            self.wf(),
        ensures
            r.wf(),
            r.value() == self.mag(),
    {
        let c = self.0.clone();
        IBig(c.with_sign(Sign::Positive))
    }

    /// The absolute value, unsigned.
    pub fn unsigned_abs(&self) -> (r: UBig)
        requires
            self.wf(),
        ensures
            r.wf(),
            r.value() == self.mag(),
    {
        self.magnitude()
    }

    /// The sign as a value: -1, 0 or 1.
    pub fn signum(&self) -> (r: IBig)
        requires
            self.wf(),
        ensures
            r.wf(),
            r.value() == (if self.value() > 0 {
                1int
            } else if self.value() < 0 {
                -1int
            } else {
                0int
            }),
    {
        IBig(self.0.signum())
    }

    /// The sum of two values.
    pub fn add(&self, rhs: &IBig) -> (r: IBig)
        requires
            self.wf(),
            rhs.wf(),
            self.spec_len() + 2 <= MAX_CAPACITY,
            rhs.spec_len() + 2 <= MAX_CAPACITY,
        ensures
            r.wf(),
            r.value() == self.value() + rhs.value(),
    {
        proof {
            lemma_sign_cases(&self.0);
            lemma_sign_cases(&rhs.0);
        }
        let m1 = self.magnitude();
        let m2 = rhs.magnitude();
        match (self.0.sign(), rhs.0.sign()) {
            (Sign::Positive, Sign::Positive) => IBig::from_parts(Sign::Positive, m1.add(&m2)),
            (Sign::Negative, Sign::Negative) => IBig::from_parts(Sign::Negative, m1.add(&m2)),
            (Sign::Positive, Sign::Negative) => sub_mags(m1, m2),
            (Sign::Negative, Sign::Positive) => sub_mags(m2, m1),
        }
    }

    /// The difference of two values.
    pub fn sub(&self, rhs: &IBig) -> (r: IBig)
        requires
            self.wf(),
            rhs.wf(),
            self.spec_len() + 2 <= MAX_CAPACITY,
            rhs.spec_len() + 2 <= MAX_CAPACITY,
        ensures
            r.wf(),
            r.value() == self.value() - rhs.value(),
    {
        proof {
            lemma_sign_cases(&self.0);
            lemma_sign_cases(&rhs.0);
        }
        let m1 = self.magnitude();
        let m2 = rhs.magnitude();
        match (self.0.sign(), rhs.0.sign()) {
            (Sign::Positive, Sign::Positive) => sub_mags(m1, m2),
            (Sign::Negative, Sign::Negative) => sub_mags(m2, m1),
            (Sign::Positive, Sign::Negative) => IBig::from_parts(Sign::Positive, m1.add(&m2)),
            (Sign::Negative, Sign::Positive) => IBig::from_parts(Sign::Negative, m1.add(&m2)),
        }
    }

    /// The product of two values.
    pub fn mul(&self, rhs: &IBig) -> (r: IBig)
        requires
            self.wf(),
            rhs.wf(),
            self.spec_len() + rhs.spec_len() <= MAX_CAPACITY,
        ensures
            r.wf(),
            r.value() == self.value() * rhs.value(),
    {
        proof {
            lemma_sign_cases(&self.0);
            lemma_sign_cases(&rhs.0);
        }
        let m1 = self.magnitude();
        let m2 = rhs.magnitude();
        let s = self.0.sign().mul(rhs.0.sign());
        let prod = m1.mul(&m2);
        let r = IBig::from_parts(s, prod);
        proof {
            let u1 = self.0.sign.unit();
            let u2 = rhs.0.sign.unit();
            let a = self.mag() as int;
            let b = rhs.mag() as int;
            assert((u1 * a) * (u2 * b) == (u1 * u2) * (a * b)) by (nonlinear_arith);
        }
        r
    }

    /// Quotient and remainder, truncated toward zero; the remainder takes the
    /// sign of the dividend.
    pub fn div_rem(&self, rhs: &IBig) -> (r: (IBig, IBig))
        requires
            self.wf(),
            rhs.wf(),
            rhs.value() != 0,
            self.spec_len() + 4 <= MAX_CAPACITY,
            rhs.spec_len() + 4 <= MAX_CAPACITY,
        ensures
            r.0.wf(),
            r.1.wf(),
            self.value() == r.0.value() * rhs.value() + r.1.value(),
            r.1.mag() < rhs.mag(),
            r.0.mag() * rhs.mag() + r.1.mag() == self.mag(),
    {
        proof {
            lemma_sign_cases(&self.0);
            lemma_sign_cases(&rhs.0);
        }
        let m1 = self.magnitude();
        let m2 = rhs.magnitude();
        let (q, rem) = m1.div_rem(&m2);
        let qs = self.0.sign().mul(rhs.0.sign());
        let qi = IBig::from_parts(qs, q);
        let ri = IBig::from_parts(self.0.sign(), rem);
        proof {
            let u1 = self.0.sign.unit();
            let u2 = rhs.0.sign.unit();
            let qv = q.value() as int;
            let rv = rem.value() as int;
            let b = rhs.mag() as int;
            // sign algebra: u1 (q b + r) == ((u1 u2) q)(u2 b) + u1 r
            assert(u1 * (qv * b + rv) == ((u1 * u2) * qv) * (u2 * b) + u1 * rv)
                by (nonlinear_arith)
                requires
                    u1 * u1 == 1 || u2 * u2 == 1,
                    u1 == 1 || u1 == -1,
                    u2 == 1 || u2 == -1,
            ;
        }
        (qi, ri)
    }

    /// Compare two values; `-1`, `0` or `1`.
    pub fn cmp(&self, rhs: &IBig) -> (r: i8)
        requires
            self.wf(),
            rhs.wf(),
        ensures
            r == -1 || r == 0 || r == 1,
            (r == -1) <==> self.value() < rhs.value(),
            (r == 0) <==> self.value() == rhs.value(),
            (r == 1) <==> self.value() > rhs.value(),
    {
        proof {
            lemma_sign_cases(&self.0);
            lemma_sign_cases(&rhs.0);
        }
        let m1 = self.magnitude();
        let m2 = rhs.magnitude();
        match (self.0.sign(), rhs.0.sign()) {
            (Sign::Positive, Sign::Positive) => m1.cmp(&m2),
            (Sign::Negative, Sign::Negative) => m2.cmp(&m1),
            (Sign::Positive, Sign::Negative) => 1,
            (Sign::Negative, Sign::Positive) => -1,
        }
    }

    /// The value shifted left by `k` bits.
    pub fn shl(&self, k: usize) -> (r: IBig)
        requires
            self.wf(),
            self.spec_len() + k / 64 + 2 <= MAX_CAPACITY,
        ensures
            r.wf(),
            r.value() == self.value() * vstd::arithmetic::power2::pow2(k as nat),
    {
        proof {
            lemma_sign_cases(&self.0);
        }
        let m = self.magnitude();
        let shifted = m.shl(k);
        let r = IBig::from_parts(self.0.sign(), shifted);
        proof {
            let u = self.0.sign.unit();
            let a = self.mag() as int;
            let p = vstd::arithmetic::power2::pow2(k as nat) as int;
            assert(u * (a * p) == (u * a) * p) by (nonlinear_arith);
        }
        r
    }
}

/// Signed difference of two magnitudes.
fn sub_mags(a: UBig, b: UBig) -> (r: IBig)
    requires
        a.wf(),
        b.wf(),
    ensures
        r.wf(),
        r.value() == a.value() - b.value(),
{
    let c = a.cmp(&b);
    if c >= 0 {
        IBig::from_parts(Sign::Positive, a.sub(&b))
    } else {
        IBig::from_parts(Sign::Negative, b.sub(&a))
    }
}

/// A positive sign means a nonnegative value; a negative sign, a negative one.
pub proof fn lemma_sign_cases(r: &Repr)
    requires
        r.wf(),
    ensures
        r.sign == Sign::Positive ==> r.value() == r.mag(),
        r.sign == Sign::Negative ==> r.value() == -(r.mag() as int) && r.mag() > 0,
{
    match r.sign {
        Sign::Positive => {
            assert(r.value() == 1 * r.mag());
        },
        Sign::Negative => {
            assert(r.value() == (-1) * (r.mag() as int));
        },
    }
}

/// Every signed value spans at least one word.
pub proof fn lemma_ibig_len_pos(x: &IBig)
    requires
        x.wf(),
    ensures
        x.spec_len() >= 1,
{
    match &x.0.magnitude {
        crate::repr::TypedRepr::Small(_) => {},
        crate::repr::TypedRepr::Large(_) => {},
    }
}

/// A magnitude fits its stored words.
pub proof fn lemma_ibig_mag_bound(x: &IBig)
    requires
        x.wf(),
    ensures
        x.mag() < vstd::arithmetic::power2::pow2(64 * x.spec_len()),
        x.spec_len() >= 1,
{
    crate::primitive::lemma_word_base();
    vstd::arithmetic::power2::lemma_pow2_adds(64, 64);
    match &x.0.magnitude {
        crate::repr::TypedRepr::Small(dw) => {
            crate::repr::lemma_dword_value_upper(*dw);
        },
        crate::repr::TypedRepr::Large(b) => {
            crate::math::lemma_seq_value_bound(b@);
        },
    }
}

/// A smaller magnitude never needs more words.
pub proof fn lemma_ibig_len_le(q: &IBig, s: &IBig)
    requires
        q.wf(),
        s.wf(),
        q.mag() <= s.mag(),
    ensures
        q.spec_len() <= s.spec_len() || q.spec_len() <= 2,
        s.spec_len() >= 1,
        q.spec_len() <= (if s.spec_len() >= 2 {
            s.spec_len()
        } else {
            2
        }),
{
    crate::primitive::lemma_word_base();
    lemma_ibig_len_pos(s);
    match &q.0.magnitude {
        crate::repr::TypedRepr::Small(dw) => {
            if *dw >= crate::primitive::word_base() {
                // two words of magnitude force at least two in the larger value
                match &s.0.magnitude {
                    crate::repr::TypedRepr::Small(sdw) => {
                        assert(*sdw >= crate::primitive::word_base());
                    },
                    crate::repr::TypedRepr::Large(_) => {},
                }
            }
        },
        crate::repr::TypedRepr::Large(b) => {
            crate::math::lemma_seq_value_lower(b@);
            let l = b@.len();
            match &s.0.magnitude {
                crate::repr::TypedRepr::Small(sdw) => {
                    crate::repr::lemma_dword_value_upper(*sdw);
                    vstd::arithmetic::power2::lemma_pow2_adds(64, 64);
                    assert(vstd::arithmetic::power2::pow2(128) <= vstd::arithmetic::power2::pow2(
                        64 * (l - 1) as nat,
                    )) by {
                        if 128 < 64 * (l - 1) as nat {
                            vstd::arithmetic::power2::lemma_pow2_strictly_increases(
                                128,
                                64 * (l - 1) as nat,
                            );
                        }
                    }
                    assert(false);
                },
                crate::repr::TypedRepr::Large(sb) => {
                    crate::math::lemma_seq_value_bound(sb@);
                    if l > sb@.len() {
                        assert(vstd::arithmetic::power2::pow2(64 * sb@.len())
                            <= vstd::arithmetic::power2::pow2(64 * (l - 1) as nat)) by {
                            if 64 * sb@.len() < 64 * (l - 1) as nat {
                                vstd::arithmetic::power2::lemma_pow2_strictly_increases(
                                    64 * sb@.len(),
                                    64 * (l - 1) as nat,
                                );
                            }
                        }
                        assert(false);
                    }
                },
            }
        },
    }
}

impl IBig {
    /// Replace this value with a copy of `src`, reusing this heap allocation
    /// when its capacity is already compact for the source.
    pub fn clone_from(&mut self, src: &IBig)
        requires
            old(self).wf(),
            src.wf(),
        ensures
            final(self).wf(),
            final(self).value() == src.value(),
            final(self).spec_len() == src.spec_len(),
            !old(self).0.is_small() && !src.0.is_small() && src.0.spec_len() <= old(
                self,
            ).0.spec_capacity() <= crate::buffer::spec_max_compact_capacity(src.0.spec_len())
                ==> final(self).0.spec_capacity() == old(self).0.spec_capacity(),
    {
        self.0.clone_from(&src.0);
    }
}

impl Clone for IBig {
    /// The copy denotes the same value, in the same tagged form.
    fn clone(&self) -> (r: Self)
        ensures
            crate::repr::spec_repr_eq(&r.0, &self.0),
            self.wf() ==> r.wf() && r.value() == self.value(),
    {
        IBig(self.0.clone())
    }
}

impl PartialEq for IBig {
    /// Values compare by their canonical representation.
    fn eq(&self, other: &Self) -> (r: bool)
        ensures
            r == crate::repr::spec_repr_eq(&self.0, &other.0),
    {
        self.0.eq(&other.0)
    }
}

impl vstd::std_specs::cmp::PartialEqSpecImpl for IBig {
    open spec fn obeys_eq_spec() -> bool {
        true
    }

    open spec fn eq_spec(&self, other: &Self) -> bool {
        crate::repr::spec_repr_eq(&self.0, &other.0)
    }
}

impl Eq for IBig {}

} // verus!
