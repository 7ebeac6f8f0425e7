//! Directed rounding policies.
//!
//! A policy turns a truncated quotient `q` with remainder `r` over divisor
//! `d` into an adjustment in `{-1, 0, +1}`.  The policies are type-level:
//! each is a unit struct implementing [`Round`], so the choice costs nothing
//! at run time.

use vstd::prelude::*;
use crate::ibig::IBig;
use crate::ubig::UBig;
use crate::sign::Sign;

verus! {

/// An exact result, or an approximate one together with an error direction.
pub enum Approximation<T, E> {
    Exact(T),
    Inexact(T, E),
}

impl<T, E> Approximation<T, E> {
    /// The computed value, dropping the error information.
    pub fn value(self) -> (r: T)
        ensures
            match self {
                Approximation::Exact(v) => r == v,
                Approximation::Inexact(v, _) => r == v,
            },
    {
        match self {
            Approximation::Exact(v) => v,
            Approximation::Inexact(v, _) => v,
        }
    }
}

/// The sign of a product, as `-1`, `0` or `1`.
pub open spec fn sign_of(x: int) -> int {
    if x > 0 {
        1
    } else if x < 0 {
        -1
    } else {
        0
    }
}

/// A directed rounding policy.
pub trait Round where Self: Sized {
    /// The adjustment added to a truncated quotient `q` with remainder `r`
    /// over divisor `d`.
    spec fn round_ratio_spec(q: int, r: int, d: int) -> int;

    /// The adjustment is a unit step toward the discarded fraction.
    proof fn round_ratio_props(q: int, r: int, d: int)
        requires
            d != 0,
            r != 0,
        ensures
            Self::round_ratio_spec(q, r, d) == 0 || Self::round_ratio_spec(q, r, d) == sign_of(
                r * d,
            ),
    ;

    fn round_ratio(q: &IBig, r: &IBig, d: &IBig) -> (adj: i8)
        requires
            q.wf(),
            r.wf(),
            d.wf(),
            d.value() != 0,
            r.value() != 0,
            r.mag() < d.mag(),
            q.spec_len() + 4 <= crate::buffer::MAX_CAPACITY,
            r.spec_len() + 4 <= crate::buffer::MAX_CAPACITY,
        ensures
            adj as int == Self::round_ratio_spec(q.value(), r.value(), d.value()),
    ;
}

/// Round toward zero: a truncated quotient needs no adjustment.
#[derive(Clone, Copy, PartialEq, Eq, Debug, Structural)]
pub struct Zero;

/// Round away from zero.
#[derive(Clone, Copy, PartialEq, Eq, Debug, Structural)]
pub struct Away;

/// Round toward positive infinity.
#[derive(Clone, Copy, PartialEq, Eq, Debug, Structural)]
pub struct Up;

/// Round toward negative infinity.
#[derive(Clone, Copy, PartialEq, Eq, Debug, Structural)]
pub struct Down;

/// Round half cases to the even quotient.
#[derive(Clone, Copy, PartialEq, Eq, Debug, Structural)]
pub struct HalfEven;

/// Round half cases away from zero.
#[derive(Clone, Copy, PartialEq, Eq, Debug, Structural)]
pub struct HalfAway;

/// The sign of the discarded fraction `r / d`, as an executable step.
pub fn frac_sign(r: &IBig, d: &IBig) -> (s: i8)
    requires
        r.wf(),
        d.wf(),
        r.value() != 0,
        d.value() != 0,
    ensures
        s as int == sign_of(r.value() * d.value()),
{
    let rs = r.sign();
    let ds = d.sign();
    proof {
        let rv = r.value();
        let dv = d.value();
        assert(rv != 0 && dv != 0);
        assert((rv > 0 && dv > 0) || (rv > 0 && dv < 0) || (rv < 0 && dv > 0) || (rv < 0 && dv
            < 0));
        assert(rv > 0 && dv > 0 ==> rv * dv > 0) by (nonlinear_arith);
        assert(rv > 0 && dv < 0 ==> rv * dv < 0) by (nonlinear_arith);
        assert(rv < 0 && dv > 0 ==> rv * dv < 0) by (nonlinear_arith);
        assert(rv < 0 && dv < 0 ==> rv * dv > 0) by (nonlinear_arith);
    }
    match (rs, ds) {
        (Sign::Positive, Sign::Positive) => 1,
        (Sign::Negative, Sign::Negative) => 1,
        _ => -1,
    }
}

/// Compare twice the remainder's magnitude with the divisor's magnitude:
/// `-1`, `0`, `1` as `2|r|` is below, at, or above `|d|`.
fn half_cmp(r: &IBig, d: &IBig) -> (c: i8)
    requires
        r.wf(),
        d.wf(),
        r.spec_len() + 4 <= crate::buffer::MAX_CAPACITY,
    ensures
        c == -1 || c == 0 || c == 1,
        (c == -1) <==> 2 * r.mag() < d.mag(),
        (c == 0) <==> 2 * r.mag() == d.mag(),
        (c == 1) <==> 2 * r.mag() > d.mag(),
{
    let rm = r.magnitude();
    let dm = d.magnitude();
    proof {
        crate::ubig::lemma_value_bound(&rm);
    }
    let twice = rm.add(&rm);
    twice.cmp(&dm)
}

impl Round for Zero {
    open spec fn round_ratio_spec(q: int, r: int, d: int) -> int {
        0
    }

    proof fn round_ratio_props(q: int, r: int, d: int) {
    }

    fn round_ratio(q: &IBig, r: &IBig, d: &IBig) -> (adj: i8) {
        0
    }
}

impl Round for Away {
    open spec fn round_ratio_spec(q: int, r: int, d: int) -> int {
        sign_of(r * d)
    }

    proof fn round_ratio_props(q: int, r: int, d: int) {
    }

    fn round_ratio(q: &IBig, r: &IBig, d: &IBig) -> (adj: i8) {
        frac_sign(r, d)
    }
}

impl Round for Up {
    open spec fn round_ratio_spec(q: int, r: int, d: int) -> int {
        if r * d > 0 {
            1
        } else {
            0
        }
    }

    proof fn round_ratio_props(q: int, r: int, d: int) {
    }

    fn round_ratio(q: &IBig, r: &IBig, d: &IBig) -> (adj: i8) {
        let s = frac_sign(r, d);
        if s == 1 {
            1
        } else {
            0
        }
    }
}

impl Round for Down {
    open spec fn round_ratio_spec(q: int, r: int, d: int) -> int {
        if r * d < 0 {
            -1
        } else {
            0
        }
    }

    proof fn round_ratio_props(q: int, r: int, d: int) {
    }

    fn round_ratio(q: &IBig, r: &IBig, d: &IBig) -> (adj: i8) {
        let s = frac_sign(r, d);
        if s == -1 {
            -1
        } else {
            0
        }
    }
}

impl Round for HalfEven {
    open spec fn round_ratio_spec(q: int, r: int, d: int) -> int {
        let frac = sign_of(r * d);
        let rm = if r >= 0 {
            r
        } else {
            -r
        };
        let dm = if d >= 0 {
            d
        } else {
            -d
        };
        if 2 * rm > dm {
            frac
        } else if 2 * rm < dm {
            0
        } else if q % 2 == 0 {
            0
        } else {
            frac
        }
    }

    proof fn round_ratio_props(q: int, r: int, d: int) {
    }

    fn round_ratio(q: &IBig, r: &IBig, d: &IBig) -> (adj: i8) {
        let s = frac_sign(r, d);
        let c = half_cmp(r, d);
        proof {
            lemma_mag_signed(r);
            lemma_mag_signed(d);
            lemma_mag_signed(q);
        }
        if c == 1 {
            s
        } else if c == -1 {
            0
        } else {
            let qm = q.magnitude();
            let parity = qm.bit(0);
            proof {
                lemma_parity(&qm, q.value());
            }
            if parity {
                s
            } else {
                0
            }
        }
    }
}

impl Round for HalfAway {
    open spec fn round_ratio_spec(q: int, r: int, d: int) -> int {
        let frac = sign_of(r * d);
        let rm = if r >= 0 {
            r
        } else {
            -r
        };
        let dm = if d >= 0 {
            d
        } else {
            -d
        };
        if 2 * rm >= dm {
            frac
        } else {
            0
        }
    }

    proof fn round_ratio_props(q: int, r: int, d: int) {
    }

    fn round_ratio(q: &IBig, r: &IBig, d: &IBig) -> (adj: i8) {
        let s = frac_sign(r, d);
        let c = half_cmp(r, d);
        proof {
            lemma_mag_signed(r);
            lemma_mag_signed(d);
        }
        if c >= 0 {
            s
        } else {
            0
        }
    }
}

/// A value's magnitude is its absolute value.
proof fn lemma_mag_signed(x: &IBig)
    requires
        x.wf(),
    ensures
        x.mag() as int == (if x.value() >= 0 {
            x.value()
        } else {
            -x.value()
        }),
{
    match x.0.sign {
        Sign::Positive => {
            assert(x.value() == 1 * x.mag());
        },
        Sign::Negative => {
            assert(x.value() == (-1) * (x.mag() as int));
        },
    }
}

/// The low bit of the magnitude is the value's parity.
proof fn lemma_parity(m: &UBig, v: int)
    requires
        m.wf(),
        m.value() == (if v >= 0 {
            v
        } else {
            -v
        }),
    ensures
        crate::bits::nth_bit(m.value(), 0) <==> v % 2 != 0,
{
    vstd::arithmetic::power2::lemma2_to64();
    assert(vstd::arithmetic::power2::pow2(0) == 1);
    vstd::arithmetic::div_mod::lemma_div_basics(m.value() as int);
    let mv = m.value() as int;
    vstd::arithmetic::div_mod::lemma_fundamental_div_mod(mv, 2);
    if v < 0 {
        // the parities of a value and its negation agree
        vstd::arithmetic::div_mod::lemma_mod_decreases((-v) as nat, 2);
        assert(v == -mv);
        vstd::arithmetic::div_mod::lemma_fundamental_div_mod(v, 2);
        vstd::arithmetic::div_mod::lemma_fundamental_div_mod_converse(
            v,
            2,
            -(mv / 2) - (if mv % 2 == 0 {
                0int
            } else {
                1int
            }),
            (if mv % 2 == 0 {
                0int
            } else {
                1int
            }),
        );
    }
}

} // verus!
