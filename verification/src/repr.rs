//! Tagged storage for big integers.
//!
//! A [`Repr`] pairs a [`Sign`] with a magnitude that is either two inline
//! words ([`TypedRepr::Small`]) or a heap [`Buffer`] ([`TypedRepr::Large`]).
//! Invariants: zero is `Small(0)` with positive sign, a large magnitude has at
//! least three words and no leading zero word, so every value has exactly one
//! representation.

use vstd::prelude::*;
use vstd::arithmetic::power2::{pow2, lemma_pow2_adds, lemma_pow2_pos};
use crate::buffer::{Buffer, MAX_CAPACITY, spec_max_compact_capacity, spec_default_capacity};
use crate::math::{seq_value, canonical};
use crate::primitive::{Word, DoubleWord, word_base, split_dword, double_word, lemma_word_base};
use crate::sign::Sign;

verus! {

/// Magnitude of a big integer: inline double word or heap buffer.
#[derive(Debug)]
pub enum TypedRepr {
    Small(DoubleWord),
    Large(Buffer),
}

/// Borrowed view of a magnitude.
pub enum TypedReprRef<'a> {
    RefSmall(DoubleWord),
    RefLarge(&'a [Word]),
}

/// Sign-and-magnitude storage of a big integer.
#[derive(Debug)]
pub struct Repr {
    pub sign: Sign,
    pub magnitude: TypedRepr,
}

impl TypedRepr {
    /// The natural number this magnitude denotes.
    pub open spec fn value(&self) -> nat {
        match self {
            TypedRepr::Small(dw) => *dw as nat,
            TypedRepr::Large(b) => seq_value(b@),
        }
    }

    /// Small values stay inline; large ones are canonical three-plus-word buffers.
    pub open spec fn wf(&self) -> bool {
        match self {
            TypedRepr::Small(_) => true,
            TypedRepr::Large(b) => b.wf() && b@.len() >= 3 && canonical(b@),
        }
    }

    pub open spec fn is_small(&self) -> bool {
        matches!(self, TypedRepr::Small(_))
    }

    /// Number of words behind this magnitude.
    pub open spec fn spec_words(&self) -> nat {
        match self {
            TypedRepr::Small(_) => 2,
            TypedRepr::Large(b) => b@.len() as nat,
        }
    }

    /// Borrow this magnitude.
    pub fn as_ref(&self) -> (r: TypedReprRef<'_>)
        ensures
            r.value() == self.value(),
            r.is_small() == self.is_small(),
            self.wf() ==> r.wf(),
    {
        match self {
            TypedRepr::Small(dw) => TypedReprRef::RefSmall(*dw),
            TypedRepr::Large(b) => TypedReprRef::RefLarge(b.as_slice()),
        }
    }
}

impl<'a> TypedReprRef<'a> {
    /// The natural number this magnitude denotes.
    pub open spec fn value(&self) -> nat {
        match self {
            TypedReprRef::RefSmall(dw) => *dw as nat,
            TypedReprRef::RefLarge(w) => seq_value(w@),
        }
    }

    pub open spec fn is_small(&self) -> bool {
        matches!(self, TypedReprRef::RefSmall(_))
    }

    /// A borrowed large magnitude of `n >= 3` canonical words denotes at least `2^128`.
    pub open spec fn wf(&self) -> bool {
        match self {
            TypedReprRef::RefSmall(_) => true,
            TypedReprRef::RefLarge(w) => w@.len() >= 3 && canonical(w@),
        }
    }

    /// Number of words behind this view.
    pub open spec fn spec_words(&self) -> nat {
        match self {
            TypedReprRef::RefSmall(_) => 2,
            TypedReprRef::RefLarge(w) => w@.len() as nat,
        }
    }
}

/// A canonical large buffer denotes a value of at least `2^128`.
pub proof fn lemma_large_value_lower(s: Seq<Word>)
    requires
        s.len() >= 3,
        canonical(s),
    ensures
        seq_value(s) >= word_base() * word_base(),
{
    crate::math::lemma_seq_value_lower(s);
    assert(seq_value(s) >= pow2(64 * (s.len() - 1) as nat));
    lemma_pow2_adds(64, 64);
    assert(word_base() * word_base() == pow2(128));
    lemma_pow2_adds(128, 64 * (s.len() - 3) as nat);
    lemma_pow2_pos(64 * (s.len() - 3) as nat);
    assert(64 * (s.len() - 1) as nat == 128 + 64 * (s.len() - 3) as nat);
    assert(pow2(64 * (s.len() - 1) as nat) == pow2(128) * pow2(64 * (s.len() - 3) as nat));
    assert(pow2(128) * pow2(64 * (s.len() - 3) as nat) >= pow2(128) * 1) by {
        vstd::arithmetic::mul::lemma_mul_inequality(
            1,
            pow2(64 * (s.len() - 3) as nat) as int,
            pow2(128) as int,
        );
        vstd::arithmetic::mul::lemma_mul_is_commutative(
            pow2(128) as int,
            pow2(64 * (s.len() - 3) as nat) as int,
        );
    }
}

/// A small magnitude denotes less than `2^128`.
pub proof fn lemma_dword_value_upper(dw: DoubleWord)
    ensures
        (dw as nat) < word_base() * word_base(),
{
    lemma_word_base();
    vstd::arithmetic::power2::lemma_pow2_adds(64, 64);
    assert(word_base() * word_base() == vstd::arithmetic::power2::pow2(128));
    vstd::arithmetic::power2::lemma2_to64_rest();
}

impl Repr {
    /// The natural number magnitude.
    pub open spec fn mag(&self) -> nat {
        self.magnitude.value()
    }

    /// The signed integer value.
    pub open spec fn value(&self) -> int {
        self.sign.apply(self.mag())
    }

    /// Magnitude well-formed, and zero carries a positive sign.
    pub open spec fn wf(&self) -> bool {
        &&& self.magnitude.wf()
        &&& (self.mag() == 0 ==> self.sign == Sign::Positive)
    }

    pub open spec fn is_small(&self) -> bool {
        self.magnitude.is_small()
    }

    /// Number of words stored: 1 or 2 inline, else the buffer length.
    pub open spec fn spec_len(&self) -> nat {
        match self.magnitude {
            TypedRepr::Small(dw) => if dw < word_base() {
                1
            } else {
                2
            },
            TypedRepr::Large(b) => b@.len() as nat,
        }
    }

    /// Words of storage capacity: matches `spec_len` inline, else the buffer capacity.
    pub open spec fn spec_capacity(&self) -> nat {
        match self.magnitude {
            TypedRepr::Small(_) => self.spec_len(),
            TypedRepr::Large(b) => b.capacity as nat,
        }
    }

    /// Get the length of the number in words.
    pub fn len(&self) -> (r: usize)
        ensures
            r == self.spec_len(),
    {
        proof { lemma_word_base(); }
        match &self.magnitude {
            TypedRepr::Small(dw) => if *dw < crate::primitive::DWORD_BASE {
                1
            } else {
                2
            },
            TypedRepr::Large(b) => b.len(),
        }
    }

    /// Get the storage capacity in words; never zero, even for value zero.
    pub fn capacity(&self) -> (r: usize)
        ensures
            r == self.spec_capacity(),
    {
        match &self.magnitude {
            TypedRepr::Small(_) => self.len(),
            TypedRepr::Large(b) => b.capacity(),
        }
    }

    /// The sign of the number.
    pub fn sign(&self) -> (r: Sign)
        ensures
            r == self.sign,
    {
        self.sign
    }

    /// Capacity and sign together.
    pub fn sign_capacity(&self) -> (r: (usize, Sign))
        ensures
            r.0 == self.spec_capacity(),
            r.1 == self.sign,
    {
        (self.capacity(), self.sign)
    }

    /// Force the sign; zero stays positive.
    pub fn set_sign(&mut self, sign: Sign)
        requires
            old(self).wf(),
        ensures
            final(self).wf(),
            final(self).mag() == old(self).mag(),
            final(self).magnitude == old(self).magnitude,
            final(self).sign == (if old(self).mag() == 0 {
                Sign::Positive
            } else {
                sign
            }),
    {
        if self.is_zero() {
            self.sign = Sign::Positive;
        } else {
            self.sign = sign;
        }
    }

    /// The same magnitude under the given sign; zero stays positive.
    pub fn with_sign(self, sign: Sign) -> (r: Repr)
        requires
            self.wf(),
        ensures
            r.wf(),
            r.mag() == self.mag(),
            r.magnitude == self.magnitude,
            r.sign == (if self.mag() == 0 {
                Sign::Positive
            } else {
                sign
            }),
    {
        let mut r = self;
        r.set_sign(sign);
        r
    }

    /// The opposite value.
    pub fn neg(self) -> (r: Repr)
        requires
            self.wf(),
        ensures
            r.wf(),
            r.value() == -self.value(),
            r.mag() == self.mag(),
    {
        let ghost orig_sign = self.sign;
        let s = self.sign.neg();
        let r = self.with_sign(s);
        proof {
            let m = self.mag();
            match orig_sign {
                Sign::Positive => {
                    assert(self.value() == 1 * m);
                    assert(r.value() == if m == 0 {
                        1 * (m as int)
                    } else {
                        (-1) * (m as int)
                    });
                },
                Sign::Negative => {
                    assert(self.value() == (-1) * m);
                    assert(r.value() == 1 * m);
                },
            }
        }
        r
    }

    /// Sign of the value as a `Repr`: -1, 0 or 1.
    pub fn signum(&self) -> (r: Repr)
        requires
            self.wf(),
        ensures
            r.wf(),
            r.value() == (if self.value() > 0 {
                1int
            } else if self.value() < 0 {
                -1int
            } else {
                0int
            }),
    {
        if self.is_zero() {
            Repr::zero()
        } else {
            match self.sign {
                Sign::Positive => Repr::one(),
                Sign::Negative => Repr::neg_one(),
            }
        }
    }

    /// Borrowed tagged view of a nonnegative number.
    pub fn as_typed(&self) -> (r: TypedReprRef<'_>)
        requires
            self.wf(),
            self.sign == Sign::Positive,
        ensures
            r.value() == self.mag(),
            r.is_small() == self.is_small(),
            r.wf(),
    {
        self.magnitude.as_ref()
    }

    /// Borrowed tagged view with the sign alongside.
    pub fn as_sign_typed(&self) -> (r: (Sign, TypedReprRef<'_>))
        requires
            self.wf(),
        ensures
            r.1.value() == self.mag(),
            r.1.is_small() == self.is_small(),
            r.1.wf(),
            r.0 == self.sign,
    {
        (self.sign, self.magnitude.as_ref())
    }

    /// Owned tagged view of a nonnegative number.
    pub fn into_typed(self) -> (r: TypedRepr)
        requires
            self.wf(),
            self.sign == Sign::Positive,
        ensures
            r.value() == self.mag(),
            r.is_small() == self.is_small(),
            r.wf(),
            r == self.magnitude,
    {
        self.magnitude
    }

    /// Owned tagged view with the sign alongside.
    pub fn into_sign_typed(self) -> (r: (Sign, TypedRepr))
        requires
            self.wf(),
        ensures
            r.1.value() == self.mag(),
            r.1.is_small() == self.is_small(),
            r.1.wf(),
            r.0 == self.sign,
    {
        (self.sign, self.magnitude)
    }

    /// A `Repr` holding one word.
    pub fn from_word(n: Word) -> (r: Repr)
        ensures
            r.wf(),
            r.value() == n,
            r.is_small(),
            r.sign == Sign::Positive,
    {
        proof { lemma_word_base(); }
        Repr { sign: Sign::Positive, magnitude: TypedRepr::Small(n as u128) }
    }

    /// A `Repr` holding a double word.
    pub fn from_dword(n: DoubleWord) -> (r: Repr)
        ensures
            r.wf(),
            r.value() == n,
            r.is_small(),
            r.sign == Sign::Positive,
    {
        Repr { sign: Sign::Positive, magnitude: TypedRepr::Small(n) }
    }

    /// Canonicalize a buffer into a `Repr`: drop leading zeros, inline what
    /// fits in two words, shrink what stays on the heap.
    pub fn from_buffer(buffer: Buffer) -> (r: Repr)
        requires
            buffer.wf(),
        ensures
            r.wf(),
            r.sign == Sign::Positive,
            r.value() == buffer.value(),
            r.spec_capacity() <= crate::buffer::spec_max_compact_capacity(r.spec_len()),
    {
        let mut buffer = buffer;
        let ghost v = buffer.value();
        buffer.pop_zeros();
        proof {
            crate::buffer::lemma_default_capacity_compact(1);
            crate::buffer::lemma_default_capacity_compact(2);
        }
        let n = buffer.len();
        if n == 0 {
            proof {
                reveal_with_fuel(seq_value, 2);
            }
            Repr::from_word(0)
        } else if n == 1 {
            proof {
                crate::math::lemma_seq_value_one(buffer@);
            }
            Repr::from_word(buffer.get(0))
        } else if n == 2 {
            proof {
                crate::math::lemma_seq_value_two(buffer@);
                lemma_word_base();
            }
            Repr::from_dword(double_word(buffer.get(0), buffer.get(1)))
        } else {
            buffer.shrink();
            Repr { sign: Sign::Positive, magnitude: TypedRepr::Large(buffer) }
        }
    }

    /// Canonicalize a buffer and apply a sign.
    pub fn from_sign_buffer(sign: Sign, buffer: Buffer) -> (r: Repr)
        requires
            buffer.wf(),
        ensures
            r.wf(),
            r.value() == sign.apply(buffer.value()),
    {
        let result = Self::from_buffer(buffer);
        result.with_sign(sign)
    }

    /// The zero value.
    pub fn zero() -> (r: Repr)
        ensures
            r.wf(),
            r.value() == 0,
            r.is_small(),
    {
        Repr::from_word(0)
    }

    /// The value one.
    pub fn one() -> (r: Repr)
        ensures
            r.wf(),
            r.value() == 1,
            r.is_small(),
    {
        Repr::from_word(1)
    }

    /// The value minus one.
    pub fn neg_one() -> (r: Repr)
        ensures
            r.wf(),
            r.value() == -1,
            r.spec_len() == 1,
    {
        proof {
            lemma_word_base();
            vstd::arithmetic::power2::lemma2_to64_rest();
        }
        Repr { sign: Sign::Negative, magnitude: TypedRepr::Small(1) }
    }

    /// Whether the value is zero.
    pub fn is_zero(&self) -> (r: bool)
        requires
            self.wf(),
        ensures
            r == (self.mag() == 0),
    {
        match &self.magnitude {
            TypedRepr::Small(dw) => *dw == 0,
            TypedRepr::Large(b) => {
                proof {
                    lemma_large_value_lower(b@);
                    lemma_word_base();
                    vstd::arithmetic::mul::lemma_mul_strictly_positive(
                        word_base() as int,
                        word_base() as int,
                    );
                }
                false
            },
        }
    }

    /// Whether the value is one.
    pub fn is_one(&self) -> (r: bool)
        requires
            self.wf(),
        ensures
            r == (self.value() == 1),
    {
        match &self.magnitude {
            TypedRepr::Small(dw) => *dw == 1 && matches!(self.sign, Sign::Positive),
            TypedRepr::Large(b) => {
                proof {
                    lemma_large_value_lower(b@);
                    lemma_word_base();
                    vstd::arithmetic::mul::lemma_mul_strictly_positive(
                        word_base() as int,
                        word_base() as int,
                    );
                }
                false
            },
        }
    }

    /// Two well-formed representations of the same value are identical in
    /// sign, tag, length and words: the representation is canonical.
    pub proof fn lemma_canonical(a: &Repr, b: &Repr)
        requires
            a.wf(),
            b.wf(),
            a.value() == b.value(),
        ensures
            a.sign == b.sign,
            a.mag() == b.mag(),
            a.is_small() == b.is_small(),
            spec_repr_eq(a, b),
    {
        // signs agree: both magnitudes are equal in absolute value
        match (a.sign, b.sign) {
            (Sign::Positive, Sign::Positive) => {
                assert(a.value() == 1 * a.mag() && b.value() == 1 * b.mag());
                assert(a.mag() == b.mag());
            },
            (Sign::Negative, Sign::Negative) => {
                assert(a.value() == (-1) * a.mag() && b.value() == (-1) * b.mag());
                assert(a.mag() == b.mag());
            },
            (Sign::Positive, Sign::Negative) => {
                assert(a.value() == 1 * a.mag() && b.value() == (-1) * b.mag());
                assert(a.mag() == 0 && b.mag() == 0);
                assert(false);  // wf forces a positive sign on zero
            },
            (Sign::Negative, Sign::Positive) => {
                assert(a.value() == (-1) * a.mag() && b.value() == 1 * b.mag());
                assert(a.mag() == 0 && b.mag() == 0);
                assert(false);  // wf forces a positive sign on zero
            },
        }
        assert(a.sign == b.sign);
        assert(a.mag() == b.mag());
        match (&a.magnitude, &b.magnitude) {
            (TypedRepr::Small(x), TypedRepr::Small(y)) => {
                assert(*x == *y);
            },
            (TypedRepr::Small(x), TypedRepr::Large(y)) => {
                lemma_large_value_lower(y@);
                lemma_dword_value_upper(*x);
            },
            (TypedRepr::Large(x), TypedRepr::Small(y)) => {
                lemma_large_value_lower(x@);
                lemma_dword_value_upper(*y);
            },
            (TypedRepr::Large(x), TypedRepr::Large(y)) => {
                crate::math::lemma_seq_value_injective(x@, y@);
            },
        }
    }
}

/// Structural equality of two representations: same sign and same stored words.
pub open spec fn spec_repr_eq(a: &Repr, b: &Repr) -> bool {
    &&& a.sign == b.sign
    &&& match (&a.magnitude, &b.magnitude) {
        (TypedRepr::Small(x), TypedRepr::Small(y)) => x == y,
        (TypedRepr::Large(x), TypedRepr::Large(y)) => x@ == y@,
        _ => false,
    }
}

impl Repr {
    /// Replace this representation with a copy of `src`, reusing this heap
    /// allocation when its capacity is already compact for the source.
    pub fn clone_from(&mut self, src: &Repr)
        requires
            old(self).wf(),
            src.wf(),
        ensures
            final(self).wf(),
            final(self).value() == src.value(),
            final(self).sign == src.sign,
            final(self).is_small() == src.is_small(),
            final(self).spec_len() == src.spec_len(),
            !old(self).is_small() && !src.is_small() && src.spec_len() <= old(
                self,
            ).spec_capacity() <= spec_max_compact_capacity(src.spec_len())
                ==> final(self).spec_capacity() == old(self).spec_capacity(),
    {
        let reuse = match (&self.magnitude, &src.magnitude) {
            (TypedRepr::Large(_), TypedRepr::Large(_)) => true,
            _ => false,
        };
        if reuse {
            match &mut self.magnitude {
                TypedRepr::Large(b) => {
                    match &src.magnitude {
                        TypedRepr::Large(sb) => {
                            b.clone_from(sb);
                        },
                        TypedRepr::Small(_) => {
                            proof {
                                assert(false);
                            }
                        },
                    }
                },
                TypedRepr::Small(_) => {
                    proof {
                        assert(false);
                    }
                },
            }
            self.sign = src.sign;
        } else {
            *self = src.clone();
        }
    }
}

impl Clone for Repr {
    /// The copy denotes the same value; a heap magnitude is given a fresh
    /// default-sized allocation.
    fn clone(&self) -> (r: Self)
        ensures
            spec_repr_eq(&r, self),
            self.wf() ==> r.wf() && r.value() == self.value() && r.is_small() == self.is_small()
                && (!self.is_small() ==> r.spec_capacity() == spec_default_capacity(
                self.spec_len(),
            )),
    {
        match &self.magnitude {
            TypedRepr::Small(dw) => Repr { sign: self.sign, magnitude: TypedRepr::Small(*dw) },
            TypedRepr::Large(b) => Repr {
                sign: self.sign,
                magnitude: TypedRepr::Large(b.clone()),
            },
        }
    }
}

impl PartialEq for Repr {
    /// Representations compare by sign and stored words, not capacity.
    fn eq(&self, other: &Self) -> (r: bool)
        ensures
            r == spec_repr_eq(self, other),
    {
        if !matches!((self.sign, other.sign), (Sign::Positive, Sign::Positive) | (
        Sign::Negative,
        Sign::Negative,
        )) {
            return false;
        }
        match (&self.magnitude, &other.magnitude) {
            (TypedRepr::Small(x), TypedRepr::Small(y)) => *x == *y,
            (TypedRepr::Large(x), TypedRepr::Large(y)) => crate::buffer::eq_words(
                &x.words,
                &y.words,
            ),
            _ => false,
        }
    }
}

impl vstd::std_specs::cmp::PartialEqSpecImpl for Repr {
    open spec fn obeys_eq_spec() -> bool {
        true
    }

    open spec fn eq_spec(&self, other: &Self) -> bool {
        spec_repr_eq(self, other)
    }
}

impl Eq for Repr {}

} // verus!
