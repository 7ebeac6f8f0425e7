//! Greatest common divisor and the extended Euclidean algorithm.
//!
//! The extended form tracks cofactor magnitudes and a parity; the classical
//! determinant identity `s1*r0 + s0*r1 == b` bounds every intermediate
//! cofactor by the inputs.

use vstd::prelude::*;
use vstd::arithmetic::div_mod::{lemma_fundamental_div_mod, lemma_mod_division_less_than_divisor};
use vstd::arithmetic::mul::{lemma_mul_inequality, lemma_mul_is_commutative, lemma_mul_basics};
use crate::buffer::MAX_CAPACITY;
use crate::ibig::IBig;
use crate::sign::Sign;
use crate::ubig::{UBig, lemma_value_bound, lemma_len_bounded};

verus! {

/// Greatest common divisor, by Euclid's recursion; `spec_gcd(a, 0) == a`.
pub open spec fn spec_gcd(a: nat, b: nat) -> nat
    decreases b,
{
    if b == 0 {
        a
    } else {
        spec_gcd(b, a % b)
    }
}

/// `d` divides `x`; divisor zero only divides zero.
pub open spec fn divides(d: nat, x: nat) -> bool {
    if d == 0 {
        x == 0
    } else {
        x % d == 0
    }
}

/// The gcd of two numbers, not both zero, is positive.
pub proof fn lemma_gcd_pos(a: nat, b: nat)
    requires
        a > 0 || b > 0,
    ensures
        spec_gcd(a, b) > 0,
    decreases b,
{
    if b > 0 {
        lemma_mod_division_less_than_divisor(a as int, b as int);
        lemma_gcd_pos(b, a % b);
    }
}

/// The gcd divides both of its arguments.
pub proof fn lemma_gcd_divides(a: nat, b: nat)
    ensures
        divides(spec_gcd(a, b), a),
        divides(spec_gcd(a, b), b),
    decreases b,
{
    if b == 0 {
        if a > 0 {
            vstd::arithmetic::div_mod::lemma_mod_self_0(a as int);
            vstd::arithmetic::div_mod::lemma_small_mod(0, a);
        }
    } else {
        lemma_mod_division_less_than_divisor(a as int, b as int);
        lemma_gcd_divides(b, a % b);
        let g = spec_gcd(a, b);
        if g == 0 {
            // then b == 0, contradiction with this branch
            lemma_gcd_pos(b, a % b);
        } else {
            // g | b and g | a % b imply g | a
            lemma_divides_combine(g, b, a);
        }
    }
}

/// If `g` divides `b` and `a % b`, it divides `a` (for `b > 0`).
proof fn lemma_divides_combine(g: nat, b: nat, a: nat)
    requires
        g > 0,
        b > 0,
        b % g == 0,
        (a % b) % g == 0,
    ensures
        a % g == 0,
{
    lemma_fundamental_div_mod(a as int, b as int);
    lemma_fundamental_div_mod(b as int, g as int);
    lemma_fundamental_div_mod((a % b) as int, g as int);
    let q = a as int / b as int;
    let kb = b as int / g as int;
    let kr = (a % b) as int / g as int;
    // a == g * (q*kb + kr)
    assert(a as int == g * (q * kb + kr)) by (nonlinear_arith)
        requires
            a as int == b * q + (a % b),
            b as int == g * kb + 0,
            (a % b) as int == g * kr + 0,
    ;
    vstd::arithmetic::div_mod::lemma_mod_multiples_basic(q * kb + kr, g as int);
}

/// Any common divisor of `a` and `b` divides their gcd.
pub proof fn lemma_gcd_greatest(a: nat, b: nat, d: nat)
    requires
        divides(d, a),
        divides(d, b),
    ensures
        divides(d, spec_gcd(a, b)),
    decreases b,
{
    if b == 0 {
    } else {
        lemma_mod_division_less_than_divisor(a as int, b as int);
        if d == 0 {
            // then a == b == 0, impossible in this branch
        } else {
            // d | a and d | b imply d | a % b
            lemma_fundamental_div_mod(a as int, b as int);
            lemma_fundamental_div_mod(a as int, d as int);
            lemma_fundamental_div_mod(b as int, d as int);
            let q = a as int / b as int;
            let ka = a as int / d as int;
            let kb = b as int / d as int;
            assert((a % b) as int == d * (ka - q * kb)) by (nonlinear_arith)
                requires
                    a as int == b * q + (a % b),
                    a as int == d * ka + 0,
                    b as int == d * kb + 0,
            ;
            vstd::arithmetic::div_mod::lemma_mod_multiples_basic(ka - q * kb, d as int);
            lemma_gcd_greatest(b, a % b, d);
        }
    }
}

impl UBig {
    /// The greatest common divisor of the two values.
    pub fn gcd(&self, rhs: &UBig) -> (r: UBig)
        requires
            self.wf(),
            rhs.wf(),
            self.value() > 0 || rhs.value() > 0,
            self.spec_len() + 4 <= MAX_CAPACITY,
            rhs.spec_len() + 4 <= MAX_CAPACITY,
        ensures
            r.wf(),
            r.value() == spec_gcd(self.value(), rhs.value()),
            r.value() > 0,
    {
        let ghost a0 = self.value();
        let ghost b0 = rhs.value();
        let ghost kk = if self.spec_len() >= rhs.spec_len() {
            self.spec_len()
        } else {
            rhs.spec_len()
        };
        let mut a = self.clone();
        let mut b = rhs.clone();
        proof {
            lemma_value_bound(self);
            lemma_value_bound(rhs);
            lemma_pow2_mono(64 * self.spec_len(), 64 * kk);
            lemma_pow2_mono(64 * rhs.spec_len(), 64 * kk);
        }
        while !b.is_zero()
            invariant
                a.wf(),
                b.wf(),
                kk + 4 <= MAX_CAPACITY,
                kk >= 1,
                a.value() < vstd::arithmetic::power2::pow2(64 * kk),
                b.value() < vstd::arithmetic::power2::pow2(64 * kk),
                spec_gcd(a.value(), b.value()) == spec_gcd(a0, b0),
                a.value() > 0 || b.value() > 0,
            decreases b.value(),
        {
            proof {
                lemma_len_bounded(&a, kk);
                lemma_len_bounded(&b, kk);
            }
            let (q, r) = a.div_rem(&b);
            proof {
                crate::div_ops::lemma_euclidean_unique(
                    a.value(),
                    b.value(),
                    q.value(),
                    r.value(),
                );
            }
            a = b;
            b = r;
        }
        a
    }

    /// The gcd together with Bézout cofactors: `g == s*a + t*b`.
    pub fn extended_gcd(&self, rhs: &UBig) -> (res: (UBig, IBig, IBig))
        requires
            self.wf(),
            rhs.wf(),
            self.value() > 0 || rhs.value() > 0,
            2 * (self.spec_len() + rhs.spec_len()) + 8 <= MAX_CAPACITY,
        ensures
            res.0.wf(),
            res.1.wf(),
            res.2.wf(),
            res.0.value() == spec_gcd(self.value(), rhs.value()),
            res.1.value() * self.value() + res.2.value() * rhs.value() == res.0.value(),
            res.1.mag() <= rhs.value() + 1,
            res.2.mag() <= self.value() + 1,
            rhs.value() > 0 ==> res.1.mag() * res.0.value() <= rhs.value(),
            self.value() > 0 ==> res.2.mag() * res.0.value() <= self.value(),
            rhs.value() > 0 ==> res.1.mag() <= rhs.value() / (2 * res.0.value()),
            self.value() > 0 && self.value() != rhs.value() ==> res.2.mag() <= self.value() / (2
                * res.0.value()),
    {
        let ghost a0 = self.value();
        let ghost b0 = rhs.value();
        let ghost kk = self.spec_len() + rhs.spec_len();
        let mut r0 = self.clone();
        let mut r1 = rhs.clone();
        let mut s0m = UBig::one();
        let mut s1m = UBig::zero();
        let mut t0m = UBig::zero();
        let mut t1m = UBig::one();
        let mut even: bool = true;
        proof {
            lemma_value_bound(self);
            lemma_value_bound(rhs);
            lemma_mul_basics(a0 as int);
            lemma_mul_basics(b0 as int);
            lemma_pow2_mono(64 * self.spec_len(), 64 * kk);
            lemma_pow2_mono(64 * rhs.spec_len(), 64 * kk);
            assert(s1m.value() * a0 == 0);
            assert(t1m.value() * b0 == b0);
            assert(s1m.value() * r0.value() == 0);
            assert(s0m.value() * r1.value() == b0);
            assert(t1m.value() * r0.value() == a0);
            assert(t0m.value() * r1.value() == 0);
            assert(s0m.value() * a0 == a0);
            assert(t0m.value() * b0 == 0);
        }
        while !r1.is_zero()
            invariant
                r0.wf(),
                r1.wf(),
                s0m.wf(),
                s1m.wf(),
                t0m.wf(),
                t1m.wf(),
                a0 == self.value(),
                b0 == rhs.value(),
                self.wf(),
                rhs.wf(),
                kk == self.spec_len() + rhs.spec_len(),
                2 * kk + 8 <= MAX_CAPACITY,
                kk >= 2,
                a0 < vstd::arithmetic::power2::pow2(64 * self.spec_len()),
                b0 < vstd::arithmetic::power2::pow2(64 * rhs.spec_len()),
                r0.value() < vstd::arithmetic::power2::pow2(64 * kk),
                r1.value() < vstd::arithmetic::power2::pow2(64 * kk),
                r0.value() > 0 || r1.value() > 0,
                s0m.value() <= b0 + 1,
                s1m.value() <= b0 + 1,
                t0m.value() <= a0 + 1,
                t1m.value() <= a0 + 1,
                // Bezout state, with the parity carrying the signs
                unit(even) * ((s0m.value() * a0) as int) - unit(even) * ((t0m.value() * b0) as int)
                    == r0.value(),
                (-unit(even)) * ((s1m.value() * a0) as int) - (-unit(even)) * ((t1m.value()
                    * b0) as int) == r1.value(),
                // determinant identities bounding the cofactors
                s1m.value() * r0.value() + s0m.value() * r1.value() == b0,
                t1m.value() * r0.value() + t0m.value() * r1.value() == a0,
                // the trailing cofactor never exceeds the leading one
                (s0m.value() == 1 && s1m.value() == 0) || (s0m.value() <= s1m.value()
                    && r1.value() < r0.value()),
                (t0m.value() == 0 && t1m.value() == 1) || (t0m.value() == 1 && t1m.value() == 0)
                    || (t0m.value() <= t1m.value() && r1.value() < r0.value()),
                // before the first step everything is pristine; after it the
                // remainders descend strictly
                (s0m.value() == 1 && s1m.value() == 0 && t0m.value() == 0 && t1m.value() == 1
                    && r0.value() == a0 && r1.value() == b0) || r1.value() < r0.value(),
                // an exact final division doubles the leading cofactor
                r1.value() == 0 ==> (2 * s0m.value() <= s1m.value() || s0m.value() == 0 || (
                s0m.value() == 1 && s1m.value() == 0)),
                r1.value() == 0 ==> (2 * t0m.value() <= t1m.value() || t0m.value() == 0 || (
                t0m.value() == 1 && t1m.value() == 0) || (t0m.value() == 1 && t1m.value() == 1
                    && a0 == b0)),
                spec_gcd(r0.value(), r1.value()) == spec_gcd(a0, b0),
            decreases r1.value(),
        {
            proof {
                lemma_value_bound(self);
                lemma_value_bound(rhs);
                lemma_len_bounded(&r0, kk);
                lemma_len_bounded(&r1, kk);
                lemma_fits_words(&s0m, b0 + 1, rhs.spec_len());
                lemma_fits_words(&s1m, b0 + 1, rhs.spec_len());
                lemma_fits_words(&t0m, a0 + 1, self.spec_len());
                lemma_fits_words(&t1m, a0 + 1, self.spec_len());
            }
            let (q, r2) = r0.div_rem(&r1);
            proof {
                crate::div_ops::lemma_euclidean_unique(
                    r0.value(),
                    r1.value(),
                    q.value(),
                    r2.value(),
                );
                lemma_len_bounded(&q, kk);
                // q * s1m <= r0 * s1m <= b0, and likewise for t
                lemma_prod_bound(q.value(), r0.value(), s1m.value(), b0);
                lemma_prod_bound(q.value(), r0.value(), t1m.value(), a0);
            }
            let qs = q.mul(&s1m);
            let qt = q.mul(&t1m);
            proof {
                lemma_value_fits_words(qs.value(), b0 + 1, rhs.spec_len());
                lemma_value_fits_words(qt.value(), a0 + 1, self.spec_len());
                lemma_len_bounded(&qs, rhs.spec_len() + 1);
                lemma_len_bounded(&qt, self.spec_len() + 1);
            }
            let s2m = s0m.add(&qs);
            let t2m = t0m.add(&qt);
            proof {
                let e = unit(even);
                let av = a0 as int;
                let bv = b0 as int;
                let s0 = s0m.value() as int;
                let s1 = s1m.value() as int;
                let t0 = t0m.value() as int;
                let t1 = t1m.value() as int;
                let qv = q.value() as int;
                let r0v = r0.value() as int;
                let r1v = r1.value() as int;
                let r2v = r2.value() as int;
                // expand the new rows
                crate::math::lemma_mul_distribute_add2(s0, qv * s1, av);
                lemma_mul_is_associative_pub(qv, s1, av);
                crate::math::lemma_mul_distribute_add2(t0, qv * t1, bv);
                lemma_mul_is_associative_pub(qv, t1, bv);
                // e distributes over the expanded sums
                lemma_mul_distributive_add_pub(e, s0 * av, qv * (s1 * av));
                lemma_mul_distributive_add_pub(e, t0 * bv, qv * (t1 * bv));
                // e * (q * Z) == q * (e * Z)
                lemma_swap_factor(e, qv, s1 * av);
                lemma_swap_factor(e, qv, t1 * bv);
                // (-e) * Z == -(e * Z)
                lemma_neg_factor(e, s1 * av);
                lemma_neg_factor(e, t1 * bv);
                // q * (X - Y) == q X - q Y, and q * (-r1) == -(q * r1)
                lemma_mul_distributive_sub_pub(qv, e * (s1 * av), e * (t1 * bv));
                lemma_mul_distributive_sub_pub(qv, 0, r1v);
                vstd::arithmetic::mul::lemma_mul_basics(qv);
                assert(e * (((s0m.value() + q.value() * s1m.value()) * a0) as int) - e * (((
                t0m.value() + q.value() * t1m.value()) * b0) as int) == r2v);
                // determinant identities
                crate::math::lemma_mul_distribute_add2(s0, qv * s1, r1v);
                lemma_mul_is_associative_pub(qv, s1, r1v);
                lemma_mul_distributive_sub_pub(s1, r0v, qv * r1v);
                lemma_swap_factor(s1, qv, r1v);
                assert((s0m.value() + q.value() * s1m.value()) * r1.value() + s1m.value()
                    * r2.value() == b0);
                crate::math::lemma_mul_distribute_add2(t0, qv * t1, r1v);
                lemma_mul_is_associative_pub(qv, t1, r1v);
                lemma_mul_distributive_sub_pub(t1, r0v, qv * r1v);
                lemma_swap_factor(t1, qv, r1v);
                assert((t0m.value() + q.value() * t1m.value()) * r1.value() + t1m.value()
                    * r2.value() == a0);
                // the new top cofactors stay bounded through the determinant
                lemma_factor_le(
                    (s0m.value() + q.value() * s1m.value()) as nat,
                    r1.value(),
                    s1m.value() * r2.value(),
                    b0,
                );
                lemma_factor_le(
                    (t0m.value() + q.value() * t1m.value()) as nat,
                    r1.value(),
                    t1m.value() * r2.value(),
                    a0,
                );
            }
            proof {
                // a quotient of a strictly larger number is at least one
                if r1.value() < r0.value() && q.value() == 0 {
                    vstd::arithmetic::mul::lemma_mul_basics(r1.value() as int);
                    assert(false);
                }
                if s0m.value() <= s1m.value() && r1.value() < r0.value() {
                    lemma_mul_inequality(1, q.value() as int, s1m.value() as int);
                    lemma_mul_is_commutative(q.value() as int, s1m.value() as int);
                    lemma_mul_is_commutative(s1m.value() as int, q.value() as int);
                    vstd::arithmetic::mul::lemma_mul_basics(s1m.value() as int);
                }
                if t0m.value() <= t1m.value() && r1.value() < r0.value() {
                    lemma_mul_inequality(1, q.value() as int, t1m.value() as int);
                    lemma_mul_is_commutative(q.value() as int, t1m.value() as int);
                    lemma_mul_is_commutative(t1m.value() as int, q.value() as int);
                    vstd::arithmetic::mul::lemma_mul_basics(t1m.value() as int);
                }
                if s0m.value() == 1 && s1m.value() == 0 {
                    vstd::arithmetic::mul::lemma_mul_basics(q.value() as int);
                }
                if t0m.value() == 0 && t1m.value() == 1 {
                    vstd::arithmetic::mul::lemma_mul_basics(q.value() as int);
                }
                if t0m.value() == 1 && t1m.value() == 0 {
                    vstd::arithmetic::mul::lemma_mul_basics(q.value() as int);
                }
                // an exact division at a strict descent carries quotient two
                vstd::arithmetic::mul::lemma_mul_basics(q.value() as int);
                vstd::arithmetic::mul::lemma_mul_basics(s1m.value() as int);
                vstd::arithmetic::mul::lemma_mul_basics(t1m.value() as int);
                if r2.value() == 0 {
                    if r1.value() < r0.value() {
                        assert(q.value() >= 2) by (nonlinear_arith)
                            requires
                                r0.value() == q.value() * r1.value() + r2.value(),
                                r2.value() == 0,
                                r1.value() < r0.value(),
                                r1.value() >= 1,
                        ;
                        assert(2 * s1m.value() <= s2m.value()) by (nonlinear_arith)
                            requires
                                s2m.value() == s0m.value() + q.value() * s1m.value(),
                                q.value() >= 2,
                        ;
                        assert(2 * t1m.value() <= t2m.value()) by (nonlinear_arith)
                            requires
                                t2m.value() == t0m.value() + q.value() * t1m.value(),
                                q.value() >= 2,
                        ;
                    } else {
                        // pristine first step: the quotient decides the case
                        assert(s0m.value() == 1 && s1m.value() == 0);
                        assert(t0m.value() == 0 && t1m.value() == 1);
                        assert(r0.value() == a0 && r1.value() == b0);
                        assert(s2m.value() == 1);
                        assert(t2m.value() == q.value());
                        if q.value() == 0 {
                            assert(a0 == 0);
                        } else if q.value() == 1 {
                            assert(a0 == b0);
                        }
                    }
                }
            }
            r0 = r1;
            r1 = r2;
            s0m = s1m;
            s1m = s2m;
            t0m = t1m;
            t1m = t2m;
            even = !even;
        }
        let s_sign = if even {
            Sign::Positive
        } else {
            Sign::Negative
        };
        let t_sign = if even {
            Sign::Negative
        } else {
            Sign::Positive
        };
        let s = IBig::from_parts(s_sign, s0m);
        let t = IBig::from_parts(t_sign, t0m);
        proof {
            // at exit the determinant pins the leading cofactor, and the
            // returned one is no larger
            vstd::arithmetic::mul::lemma_mul_basics(s0m.value() as int);
            vstd::arithmetic::mul::lemma_mul_basics(t0m.value() as int);
            vstd::arithmetic::mul::lemma_mul_basics(s1m.value() as int);
            vstd::arithmetic::mul::lemma_mul_basics(t1m.value() as int);
            if b0 > 0 {
                assert(s1m.value() * r0.value() == b0);
                if s0m.value() <= s1m.value() {
                    lemma_mul_inequality(
                        s0m.value() as int,
                        s1m.value() as int,
                        r0.value() as int,
                    );
                }
                // the exact last step halves the returned cofactor's bound
                assert(r0.value() >= 1);
                if 2 * s0m.value() <= s1m.value() {
                    lemma_mul_inequality(
                        2 * s0m.value() as int,
                        s1m.value() as int,
                        r0.value() as int,
                    );
                    assert((2 * s0m.value()) * r0.value() == (2 * r0.value()) * s0m.value())
                        by (nonlinear_arith);
                    vstd::arithmetic::div_mod::lemma_div_is_ordered(
                        ((2 * r0.value()) * s0m.value()) as int,
                        b0 as int,
                        2 * r0.value() as int,
                    );
                    vstd::arithmetic::div_mod::lemma_div_multiples_vanish(
                        s0m.value() as int,
                        2 * r0.value() as int,
                    );
                }
            }
            if a0 > 0 {
                assert(t1m.value() * r0.value() == a0);
                if t0m.value() <= t1m.value() {
                    lemma_mul_inequality(
                        t0m.value() as int,
                        t1m.value() as int,
                        r0.value() as int,
                    );
                }
                assert(r0.value() >= 1);
                if a0 != b0 {
                    assert(2 * t0m.value() <= t1m.value() || t0m.value() == 0);
                    if 2 * t0m.value() <= t1m.value() {
                        lemma_mul_inequality(
                            2 * t0m.value() as int,
                            t1m.value() as int,
                            r0.value() as int,
                        );
                        assert((2 * t0m.value()) * r0.value() == (2 * r0.value()) * t0m.value())
                            by (nonlinear_arith);
                        vstd::arithmetic::div_mod::lemma_div_is_ordered(
                            ((2 * r0.value()) * t0m.value()) as int,
                            a0 as int,
                            2 * r0.value() as int,
                        );
                        vstd::arithmetic::div_mod::lemma_div_multiples_vanish(
                            t0m.value() as int,
                            2 * r0.value() as int,
                        );
                    }
                }
            }
            let e = unit(even);
            lemma_neg_factor(e, (t.mag() * b0) as int);
            match even {
                true => {},
                false => {},
            }
            assert(s.value() * a0 == e * ((s.mag() * a0) as int)) by {
                lemma_swap_sign(e, s.mag() as int, a0 as int);
            }
            assert(t.value() * b0 == (-e) * ((t.mag() * b0) as int)) by {
                lemma_swap_sign(-e, t.mag() as int, b0 as int);
            }
        }
        (r0, s, t)
    }
}

/// `(e * m) * c == e * (m * c)`: signs hoist out of magnitude products.
proof fn lemma_swap_sign(e: int, m: int, c: int)
    ensures
        (e * m) * c == e * (m * c),
{
    lemma_mul_is_associative_pub(e, m, c);
}

/// Rebracketing a triple product.
proof fn lemma_mul_is_associative_pub(x: int, y: int, z: int)
    ensures
        x * (y * z) == (x * y) * z,
        (x * y) * z == x * (y * z),
{
    vstd::arithmetic::mul::lemma_mul_is_associative(x, y, z);
}

/// Distributing a factor over a sum.
proof fn lemma_mul_distributive_add_pub(x: int, y: int, z: int)
    ensures
        x * (y + z) == x * y + x * z,
{
    vstd::arithmetic::mul::lemma_mul_is_distributive_add(x, y, z);
}

/// Distributing a factor over a difference.
proof fn lemma_mul_distributive_sub_pub(x: int, y: int, z: int)
    ensures
        x * (y - z) == x * y - x * z,
{
    vstd::arithmetic::mul::lemma_mul_is_distributive_sub(x, y, z);
}

/// `e * (q * z) == q * (e * z)`.
proof fn lemma_swap_factor(e: int, q: int, z: int)
    ensures
        e * (q * z) == q * (e * z),
{
    lemma_mul_is_associative_pub(e, q, z);
    vstd::arithmetic::mul::lemma_mul_is_commutative(e, q);
    lemma_mul_is_associative_pub(q, e, z);
}

/// `(-e) * z == -(e * z)`.
proof fn lemma_neg_factor(e: int, z: int)
    ensures
        (-e) * z == -(e * z),
{
    vstd::arithmetic::mul::lemma_mul_is_distributive_sub_other_way(z, 0, e);
    vstd::arithmetic::mul::lemma_mul_basics(z);
    vstd::arithmetic::mul::lemma_mul_is_commutative(e, z);
    vstd::arithmetic::mul::lemma_mul_is_commutative(-e, z);
}

/// From `x*u + y == c` over naturals with `u >= 1`, conclude `x <= c`.
proof fn lemma_factor_le(x: nat, u: nat, y: nat, c: nat)
    requires
        x * u + y == c,
        u >= 1,
    ensures
        x <= c,
{
    lemma_mul_inequality(1, u as int, x as int);
    lemma_mul_is_commutative(u as int, x as int);
    lemma_mul_is_commutative(x as int, u as int);
    assert(x * 1 == x) by {
        lemma_mul_basics(x as int);
    }
}

/// A magnitude bounded by `c <= 2^(64 l)` fits `l + 1` words.
proof fn lemma_fits_words(x: &UBig, c: nat, l: nat)
    requires
        x.wf(),
        x.value() <= c,
        c <= vstd::arithmetic::power2::pow2(64 * l),
    ensures
        x.spec_len() <= l + 1,
{
    lemma_value_fits_words(x.value(), c, l);
    lemma_len_bounded(x, l + 1);
}

/// A value bounded by `c <= 2^(64 l)` lies below `2^(64 (l+1))`.
proof fn lemma_value_fits_words(v: nat, c: nat, l: nat)
    requires
        v <= c,
        c <= vstd::arithmetic::power2::pow2(64 * l),
    ensures
        v < vstd::arithmetic::power2::pow2(64 * (l + 1)),
        l + 1 >= 1,
{
    vstd::arithmetic::power2::lemma_pow2_strictly_increases(64 * l, 64 * (l + 1));
}

/// If `q <= u` then `q*y <= u*y`, so a bounded row stays bounded.
proof fn lemma_prod_bound(q: nat, u: nat, y: nat, c: nat)
    requires
        q <= u,
        y * u + 0 <= c || y * u <= c,
    ensures
        q * y <= c,
{
    lemma_mul_inequality(q as int, u as int, y as int);
    lemma_mul_is_commutative(u as int, y as int);
    lemma_mul_is_commutative(q as int, y as int);
}

/// `+1` for even parity, `-1` for odd.
pub open spec fn unit(even: bool) -> int {
    if even {
        1
    } else {
        -1
    }
}

/// From `x*u + y*v == c` over naturals, each summand is at most `c`.
proof fn lemma_factor_bound(x: nat, u: nat, y: nat, v: nat, c: nat)
    requires
        x * u + y * v == c,
    ensures
        x * u <= c,
{
}

/// Monotonicity of `pow2` in non-strict form.
proof fn lemma_pow2_mono(e1: nat, e2: nat)
    requires
        e1 <= e2,
    ensures
        vstd::arithmetic::power2::pow2(e1) <= vstd::arithmetic::power2::pow2(e2),
{
    if e1 < e2 {
        vstd::arithmetic::power2::lemma_pow2_strictly_increases(e1, e2);
    }
}

} // verus!
