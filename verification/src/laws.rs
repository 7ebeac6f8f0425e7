//! Algebraic laws of the canonical representation.
//!
//! Because every well-formed value has exactly one representation, the ring
//! laws over mathematical integers lift to structural equality of the stored
//! values.  Each lemma here states one such law over the contracts of the
//! public operations.

use vstd::prelude::*;
use vstd::arithmetic::power2::{pow2, lemma_pow2_adds, lemma2_to64_rest};
use crate::ibig::IBig;
use crate::repr::{Repr, TypedRepr, spec_repr_eq, lemma_large_value_lower, lemma_dword_value_upper};
use crate::sign::Sign;
use crate::ubig::UBig;
use crate::convert::{le_bytes_value, be_bytes_value};

verus! {

/// Well-formed signed values with equal values are structurally equal.
pub proof fn lemma_ibig_canonical(a: &IBig, b: &IBig)
    requires
        a.wf(),
        b.wf(),
        a.value() == b.value(),
    ensures
        spec_repr_eq(&a.0, &b.0),
{
    Repr::lemma_canonical(&a.0, &b.0);
}

/// Well-formed unsigned values with equal values are structurally equal.
pub proof fn lemma_ubig_canonical(a: &UBig, b: &UBig)
    requires
        a.wf(),
        b.wf(),
        a.value() == b.value(),
    ensures
        spec_repr_eq(&a.0, &b.0),
{
    Repr::lemma_canonical(&a.0, &b.0);
}

/// Double negation is the identity: negating twice restores the very
/// representation.
pub proof fn lemma_neg_involution(x: &IBig, y: &IBig, z: &IBig)
    requires
        x.wf(),
        y.wf(),
        z.wf(),
        y.value() == -x.value(),
        z.value() == -y.value(),
    ensures
        spec_repr_eq(&z.0, &x.0),
{
    lemma_ibig_canonical(z, x);
}

/// A value plus its negation is the canonical zero.
pub proof fn lemma_add_neg_is_zero(x: &IBig, y: &IBig, s: &IBig)
    requires
        x.wf(),
        y.wf(),
        s.wf(),
        y.value() == -x.value(),
        s.value() == x.value() + y.value(),
    ensures
        s.value() == 0,
        s.0.sign == Sign::Positive,
        s.0.magnitude == TypedRepr::Small(0),
{
    lemma_zero_canonical(s);
}

/// A value minus itself is the canonical zero.
pub proof fn lemma_sub_self_is_zero(x: &IBig, d: &IBig)
    requires
        x.wf(),
        d.wf(),
        d.value() == x.value() - x.value(),
    ensures
        d.value() == 0,
        d.0.sign == Sign::Positive,
        d.0.magnitude == TypedRepr::Small(0),
{
    lemma_zero_canonical(d);
}

/// The canonical form of zero is inline with a positive sign.
pub proof fn lemma_zero_canonical(s: &IBig)
    requires
        s.wf(),
        s.value() == 0,
    ensures
        s.0.sign == Sign::Positive,
        s.0.magnitude == TypedRepr::Small(0),
{
    let ghost z = Repr { sign: Sign::Positive, magnitude: TypedRepr::Small(0) };
    match s.0.sign {
        Sign::Positive => {
            assert(s.0.value() == 1 * s.0.mag());
        },
        Sign::Negative => {
            assert(s.0.value() == (-1) * (s.0.mag() as int));
        },
    }
    Repr::lemma_canonical(&s.0, &z);
}

/// Adding zero returns the same representation.
pub proof fn lemma_add_zero(x: &IBig, r: &IBig)
    requires
        x.wf(),
        r.wf(),
        r.value() == x.value() + 0,
    ensures
        spec_repr_eq(&r.0, &x.0),
{
    lemma_ibig_canonical(r, x);
}

/// Multiplying by one returns the same representation.
pub proof fn lemma_mul_one(x: &IBig, r: &IBig)
    requires
        x.wf(),
        r.wf(),
        r.value() == x.value() * 1,
    ensures
        spec_repr_eq(&r.0, &x.0),
{
    vstd::arithmetic::mul::lemma_mul_basics(x.value());
    lemma_ibig_canonical(r, x);
}

/// Multiplying by zero yields the canonical zero.
pub proof fn lemma_mul_zero(x: &IBig, r: &IBig)
    requires
        x.wf(),
        r.wf(),
        r.value() == x.value() * 0,
    ensures
        r.value() == 0,
        r.0.sign == Sign::Positive,
        r.0.magnitude == TypedRepr::Small(0),
{
    vstd::arithmetic::mul::lemma_mul_basics(x.value());
    lemma_zero_canonical(r);
}

/// Addition is commutative: both orders produce one representation.
pub proof fn lemma_add_commutes(a: &UBig, b: &UBig, r1: &UBig, r2: &UBig)
    requires
        a.wf(),
        b.wf(),
        r1.wf(),
        r2.wf(),
        r1.value() == a.value() + b.value(),
        r2.value() == b.value() + a.value(),
    ensures
        spec_repr_eq(&r1.0, &r2.0),
{
    lemma_ubig_canonical(r1, r2);
}

/// Addition is associative over the canonical representation.
pub proof fn lemma_add_associates(
    a: &UBig,
    b: &UBig,
    c: &UBig,
    ab: &UBig,
    bc: &UBig,
    l: &UBig,
    r: &UBig,
)
    requires
        a.wf(),
        b.wf(),
        c.wf(),
        ab.wf(),
        bc.wf(),
        l.wf(),
        r.wf(),
        ab.value() == a.value() + b.value(),
        bc.value() == b.value() + c.value(),
        l.value() == ab.value() + c.value(),
        r.value() == a.value() + bc.value(),
    ensures
        spec_repr_eq(&l.0, &r.0),
{
    lemma_ubig_canonical(l, r);
}

/// Multiplication is commutative over the canonical representation.
pub proof fn lemma_mul_commutes(a: &UBig, b: &UBig, r1: &UBig, r2: &UBig)
    requires
        a.wf(),
        b.wf(),
        r1.wf(),
        r2.wf(),
        r1.value() == a.value() * b.value(),
        r2.value() == b.value() * a.value(),
    ensures
        spec_repr_eq(&r1.0, &r2.0),
{
    vstd::arithmetic::mul::lemma_mul_is_commutative(a.value() as int, b.value() as int);
    lemma_ubig_canonical(r1, r2);
}

/// Multiplication is associative over the canonical representation.
pub proof fn lemma_mul_associates(
    a: &UBig,
    b: &UBig,
    c: &UBig,
    ab: &UBig,
    bc: &UBig,
    l: &UBig,
    r: &UBig,
)
    requires
        a.wf(),
        b.wf(),
        c.wf(),
        ab.wf(),
        bc.wf(),
        l.wf(),
        r.wf(),
        ab.value() == a.value() * b.value(),
        bc.value() == b.value() * c.value(),
        l.value() == ab.value() * c.value(),
        r.value() == a.value() * bc.value(),
    ensures
        spec_repr_eq(&l.0, &r.0),
{
    vstd::arithmetic::mul::lemma_mul_is_associative(
        a.value() as int,
        b.value() as int,
        c.value() as int,
    );
    lemma_ubig_canonical(l, r);
}

/// Promotion: a value of exactly `2^128` leaves the inline form and spans
/// three words.
pub proof fn lemma_promotion(x: &UBig)
    requires
        x.wf(),
        x.value() == pow2(128),
    ensures
        !x.0.is_small(),
        x.spec_len() == 3,
{
    lemma_pow2_adds(64, 64);
    crate::primitive::lemma_word_base();
    match &x.0.magnitude {
        TypedRepr::Small(dw) => {
            lemma_dword_value_upper(*dw);
        },
        TypedRepr::Large(b) => {
            crate::math::lemma_seq_value_bound(b@);
            crate::math::lemma_seq_value_lower(b@);
            if b@.len() > 3 {
                vstd::arithmetic::power2::lemma_pow2_strictly_increases(
                    128,
                    64 * (b@.len() - 1) as nat,
                );
            }
            if 128 < 64 * (b@.len() - 1) as nat {
            }
        },
    }
}

/// Demotion: any well-formed value below `2^128` is stored inline.
pub proof fn lemma_demotion(x: &UBig)
    requires
        x.wf(),
        x.value() < pow2(128),
    ensures
        x.0.is_small(),
{
    lemma_pow2_adds(64, 64);
    crate::primitive::lemma_word_base();
    match &x.0.magnitude {
        TypedRepr::Small(_) => {},
        TypedRepr::Large(b) => {
            lemma_large_value_lower(b@);
        },
    }
}

/// Equal well-formed values share their storage tag; in particular a clone
/// keeps the tag of its source.
pub proof fn lemma_clone_preserves_tag(a: &UBig, b: &UBig)
    requires
        a.wf(),
        b.wf(),
        a.value() == b.value(),
    ensures
        a.0.is_small() == b.0.is_small(),
        a.spec_len() == b.spec_len(),
{
    Repr::lemma_canonical(&a.0, &b.0);
    match (&a.0.magnitude, &b.0.magnitude) {
        (TypedRepr::Small(_), TypedRepr::Small(_)) => {},
        (TypedRepr::Large(x), TypedRepr::Large(y)) => {},
        _ => {},
    }
}

/// The byte round trip is the identity: writing a value out and reading it
/// back yields the same representation, in either endianness.
pub proof fn lemma_bytes_round_trip(x: &UBig, bytes: Seq<u8>, y: &UBig)
    requires
        x.wf(),
        y.wf(),
        le_bytes_value(bytes) == x.value(),
        y.value() == le_bytes_value(bytes),
    ensures
        spec_repr_eq(&y.0, &x.0),
{
    lemma_ubig_canonical(y, x);
}

/// The big-endian byte round trip is the identity as well.
pub proof fn lemma_be_bytes_round_trip(x: &UBig, bytes: Seq<u8>, y: &UBig)
    requires
        x.wf(),
        y.wf(),
        be_bytes_value(bytes) == x.value(),
        y.value() == be_bytes_value(bytes),
    ensures
        spec_repr_eq(&y.0, &x.0),
{
    lemma_ubig_canonical(y, x);
}

} // verus!
