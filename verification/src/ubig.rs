//! Unsigned big integer.
//!
//! A [`UBig`] wraps a [`Repr`] whose sign is always positive.  Binary
//! operations dispatch on the small/large tags and land in the slice kernels;
//! results are canonicalized through [`Repr::from_buffer`], so a value that
//! fits two words always comes back inline.

use vstd::prelude::*;
use vstd::arithmetic::power2::{pow2, lemma_pow2_adds, lemma_pow2_pos, lemma2_to64,
    lemma2_to64_rest};
use crate::buffer::{Buffer, MAX_CAPACITY};
use crate::math::{seq_value, canonical, lemma_seq_value_one, lemma_seq_value_two,
    lemma_seq_value_push, lemma_seq_value_bound, lemma_seq_value_lower};
use crate::primitive::{Word, DoubleWord, DWORD_BASE, word_base, lemma_word_base, split_dword,
    double_word};
use crate::repr::{Repr, TypedRepr, TypedReprRef, lemma_large_value_lower, lemma_dword_value_upper};
use crate::sign::Sign;

verus! {

/// Unsigned arbitrary-precision integer.
#[derive(Debug)]
pub struct UBig(pub Repr);

impl UBig {
    /// The natural number this integer denotes.
    pub open spec fn value(&self) -> nat {
        self.0.mag()
    }

    /// Well-formed: canonical representation with a positive sign.
    pub open spec fn wf(&self) -> bool {
        self.0.wf() && self.0.sign == Sign::Positive
    }

    /// Number of words stored.
    pub open spec fn spec_len(&self) -> nat {
        self.0.spec_len()
    }

    /// The zero value.
    pub fn zero() -> (r: UBig)
        ensures
            r.wf(),
            r.value() == 0,
    {
        UBig(Repr::zero())
    }

    /// The value one.
    pub fn one() -> (r: UBig)
        ensures
            r.wf(),
            r.value() == 1,
            r.spec_len() == 1,
    {
        proof {
            lemma_word_base();
            lemma2_to64_rest();
        }
        UBig(Repr::one())
    }

    /// Whether the value is zero.
    pub fn is_zero(&self) -> (r: bool)
        requires
            self.wf(),
        ensures
            r == (self.value() == 0),
    {
        self.0.is_zero()
    }

    /// Whether the value is one.
    pub fn is_one(&self) -> (r: bool)
        requires
            self.wf(),
        ensures
            r == (self.value() == 1),
    {
        self.0.is_one()
    }

    /// Construct from one machine word.
    pub fn from_word(w: Word) -> (r: UBig)
        ensures
            r.wf(),
            r.value() == w,
            r.spec_len() == 1,
    {
        proof {
            lemma_word_base();
            lemma2_to64_rest();
        }
        UBig(Repr::from_word(w))
    }

    /// Construct from a double word.
    pub fn from_dword(dw: DoubleWord) -> (r: UBig)
        ensures
            r.wf(),
            r.value() == dw,
            r.spec_len() <= 2,
    {
        proof {
            lemma_word_base();
        }
        UBig(Repr::from_dword(dw))
    }

    /// Borrowed tagged view of the magnitude.
    pub fn repr(&self) -> (r: TypedReprRef<'_>)
        requires
            self.wf(),
        ensures
            r.value() == self.value(),
            r.wf(),
            r.is_small() == self.0.is_small(),
    {
        self.0.as_typed()
    }

    /// Owned tagged view of the magnitude.
    pub fn into_repr(self) -> (r: TypedRepr)
        requires
            self.wf(),
        ensures
            r.value() == self.value(),
            r.wf(),
            r.is_small() == self.0.is_small(),
            r == self.0.magnitude,
    {
        self.0.into_typed()
    }

    /// The magnitude as a canonical word buffer (empty for zero).
    pub fn to_buffer(&self) -> (r: Buffer)
        requires
            self.wf(),
        ensures
            r.wf(),
            canonical(r@),
            seq_value(r@) == self.value(),
            r@.len() <= self.spec_len(),
            !self.0.is_small() ==> r@.len() == self.spec_len(),
    {
        proof {
            lemma_word_base();
        }
        match &self.0.magnitude {
            TypedRepr::Small(dw) => {
                let mut b = Buffer::allocate(3);
                if *dw == 0 {
                    proof {
                        assert(seq_value(b@) == 0);
                    }
                    b
                } else {
                    let (lo, hi) = split_dword(*dw);
                    if hi == 0 {
                        b.push(lo);
                        proof {
                            lemma_seq_value_one(b@);
                        }
                        b
                    } else {
                        b.push(lo);
                        b.push(hi);
                        proof {
                            lemma_seq_value_two(b@);
                        }
                        b
                    }
                }
            },
            TypedRepr::Large(buf) => {
                let mut b = buf.clone();
                proof {
                    crate::buffer::lemma_default_capacity_compact(b@.len() as nat);
                }
                b
            },
        }
    }

    /// Compare two values; `-1`, `0` or `1`.
    pub fn cmp(&self, other: &UBig) -> (r: i8)
        requires
            self.wf(),
            other.wf(),
        ensures
            r == -1 || r == 0 || r == 1,
            (r == -1) <==> self.value() < other.value(),
            (r == 0) <==> self.value() == other.value(),
            (r == 1) <==> self.value() > other.value(),
    {
        match (&self.0.magnitude, &other.0.magnitude) {
            (TypedRepr::Small(a), TypedRepr::Small(b)) => {
                if *a < *b {
                    -1
                } else if *a == *b {
                    0
                } else {
                    1
                }
            },
            (TypedRepr::Small(a), TypedRepr::Large(b)) => {
                proof {
                    lemma_large_value_lower(b@);
                    lemma_dword_value_upper(*a);
                }
                -1
            },
            (TypedRepr::Large(a), TypedRepr::Small(b)) => {
                proof {
                    lemma_large_value_lower(a@);
                    lemma_dword_value_upper(*b);
                }
                1
            },
            (TypedRepr::Large(a), TypedRepr::Large(b)) => crate::cmp_ops::cmp_in_place(
                a.as_slice(),
                b.as_slice(),
            ),
        }
    }

    /// The sum of two values.
    pub fn add(&self, rhs: &UBig) -> (r: UBig)
        requires
            self.wf(),
            rhs.wf(),
            self.spec_len() + 2 <= MAX_CAPACITY,
            rhs.spec_len() + 2 <= MAX_CAPACITY,
        ensures
            r.wf(),
            r.value() == self.value() + rhs.value(),
    {
        match (&self.0.magnitude, &rhs.0.magnitude) {
            (TypedRepr::Small(a), TypedRepr::Small(b)) => add_dword(*a, *b),
            (TypedRepr::Small(a), TypedRepr::Large(b)) => {
                proof {
                    lemma_large_value_lower(b@);
                }
                let buf = rhs.to_buffer();
                add_large_dword(buf, *a)
            },
            (TypedRepr::Large(a), TypedRepr::Small(b)) => {
                proof {
                    lemma_large_value_lower(a@);
                }
                let buf = self.to_buffer();
                add_large_dword(buf, *b)
            },
            (TypedRepr::Large(a), TypedRepr::Large(b)) => {
                if a.len() >= b.len() {
                    let buf = self.to_buffer();
                    add_large(buf, b.as_slice())
                } else {
                    let buf = rhs.to_buffer();
                    add_large(buf, a.as_slice())
                }
            },
        }
    }

    /// The difference of two values; the subtrahend must not exceed the
    /// minuend.
    pub fn sub(&self, rhs: &UBig) -> (r: UBig)
        requires
            self.wf(),
            rhs.wf(),
            rhs.value() <= self.value(),
        ensures
            r.wf(),
            r.value() == self.value() - rhs.value(),
    {
        proof {
            lemma_word_base();
        }
        match (&self.0.magnitude, &rhs.0.magnitude) {
            (TypedRepr::Small(a), TypedRepr::Small(b)) => UBig(Repr::from_dword(*a - *b)),
            (TypedRepr::Small(a), TypedRepr::Large(b)) => {
                proof {
                    lemma_large_value_lower(b@);
                    lemma_dword_value_upper(*a);
                }
                UBig(Repr::zero())
            },
            (TypedRepr::Large(_), TypedRepr::Small(b)) => {
                let buf = self.to_buffer();
                sub_large_dword(buf, *b)
            },
            (TypedRepr::Large(_), TypedRepr::Large(b)) => {
                let buf = self.to_buffer();
                proof {
                    if buf@.len() < b@.len() {
                        crate::math::lemma_seq_value_len_cmp(buf@, b@);
                    }
                }
                sub_large(buf, b.as_slice())
            },
        }
    }

    /// The product of two values.
    pub fn mul(&self, rhs: &UBig) -> (r: UBig)
        requires
            self.wf(),
            rhs.wf(),
            self.spec_len() + rhs.spec_len() <= MAX_CAPACITY,
        ensures
            r.wf(),
            r.value() == self.value() * rhs.value(),
    {
        if self.is_zero() || rhs.is_zero() {
            proof {
                vstd::arithmetic::mul::lemma_mul_basics(self.value() as int);
                vstd::arithmetic::mul::lemma_mul_basics(rhs.value() as int);
            }
            return UBig::zero();
        }
        let a = self.to_buffer();
        let b = rhs.to_buffer();
        proof {
            lemma_seq_value_lower(a@);
            lemma_seq_value_lower(b@);
            lemma_pow2_pos(64 * (a@.len() - 1) as nat);
            lemma_pow2_pos(64 * (b@.len() - 1) as nat);
        }
        let prod = crate::mul_ops::multiply(a.as_slice(), b.as_slice());
        UBig(Repr::from_buffer(prod))
    }
}

/// Sum of two double words, promoting to a three-word buffer on overflow.
fn add_dword(a: DoubleWord, b: DoubleWord) -> (r: UBig)
    ensures
        r.wf(),
        r.value() == a + b,
{
    proof {
        lemma_word_base();
        lemma2_to64_rest();
    }
    if a <= u128::MAX - b {
        UBig(Repr::from_dword(a + b))
    } else {
        // the sum spills into a third word
        let low: u128 = a - (u128::MAX - b) - 1;
        proof {
            assert(low + pow2(128) == a + b) by {
                lemma_pow2_adds(64, 64);
            }
        }
        let (lo, hi) = split_dword(low);
        let mut buffer = Buffer::allocate(3);
        buffer.push(lo);
        buffer.push(hi);
        buffer.push(1);
        proof {
            lemma_seq_value_push(seq![lo, hi], 1);
            lemma_seq_value_two(seq![lo, hi]);
            assert(buffer@ =~= seq![lo, hi].push(1));
            lemma_pow2_adds(64, 64);
        }
        UBig(Repr::from_buffer(buffer))
    }
}

/// Large plus double word.
fn add_large_dword(buffer: Buffer, rhs: DoubleWord) -> (r: UBig)
    requires
        buffer.wf(),
        buffer@.len() >= 3 || seq_value(buffer@) >= word_base() * word_base(),
        buffer@.len() + 2 <= MAX_CAPACITY,
    ensures
        r.wf(),
        r.value() == seq_value(buffer@) + rhs,
{
    let mut buffer = buffer;
    let ghost orig = buffer@;
    proof {
        lemma_word_base();
        lemma_seq_value_bound(orig);
        lemma_pow2_adds(64, 64);
        if orig.len() < 3 {
            // the value filled three words, so the length cannot be smaller
            if 64 * orig.len() < 128 {
                vstd::arithmetic::power2::lemma_pow2_strictly_increases(64 * orig.len(), 128);
            }
            assert(orig.len() >= 3);
        }
    }
    let (lo, hi) = split_dword(rhs);
    let o1 = crate::add_ops::add_word_at(&mut buffer, 0, lo);
    let o2 = crate::add_ops::add_word_at(&mut buffer, 1, hi);
    let overflow = o1 || o2;
    proof {
        lemma2_to64();
        assert(rhs < pow2(128));
        lemma_seq_value_bound(buffer@);
        lemma_pow2_pos(64 * orig.len() as nat);
        assert(pow2(128) <= pow2(64 * orig.len() as nat)) by {
            if 128 < 64 * orig.len() as nat {
                vstd::arithmetic::power2::lemma_pow2_strictly_increases(
                    128,
                    64 * orig.len() as nat,
                );
            }
        }
        if o1 && o2 {
            assert(false);
        }
    }
    if overflow {
        let ghost mid = buffer@;
        buffer.push_resizing(1);
        proof {
            lemma_seq_value_push(mid, 1);
        }
    }
    UBig(Repr::from_buffer(buffer))
}

/// Large plus large: the buffer holds the longer operand.
fn add_large(buffer: Buffer, rhs: &[Word]) -> (r: UBig)
    requires
        buffer.wf(),
        rhs@.len() <= buffer@.len(),
        buffer@.len() + 2 <= MAX_CAPACITY,
    ensures
        r.wf(),
        r.value() == seq_value(buffer@) + seq_value(rhs@),
{
    let mut buffer = buffer;
    let overflow = crate::add_ops::add_in_place(&mut buffer, rhs);
    if overflow {
        let ghost mid = buffer@;
        buffer.push_resizing(1);
        proof {
            lemma_seq_value_push(mid, 1);
        }
    }
    UBig(Repr::from_buffer(buffer))
}

/// Large minus double word; the difference must be nonnegative.
fn sub_large_dword(buffer: Buffer, rhs: DoubleWord) -> (r: UBig)
    requires
        buffer.wf(),
        rhs <= seq_value(buffer@),
    ensures
        r.wf(),
        r.value() == seq_value(buffer@) - rhs,
{
    let mut buffer = buffer;
    let ghost orig = buffer@;
    proof {
        lemma_word_base();
        lemma_seq_value_bound(orig);
        lemma_pow2_pos(64 * orig.len() as nat);
    }
    let (lo, hi) = split_dword(rhs);
    proof {
        if orig.len() == 0 {
            assert(lo == 0 && hi == 0);
        }
    }
    let b1 = crate::add_ops::sub_word_at(&mut buffer, 0, lo);
    proof {
        lemma2_to64();
        lemma_seq_value_bound(buffer@);
        assert(pow2(0) == 1);
        assert(rhs == lo + hi * word_base());
        assert(hi * word_base() >= 0);
        assert(lo <= rhs);
        assert(crate::add_ops::top_weight(orig.len() as nat) == pow2(64 * orig.len() as nat));
        assert(buffer@.len() == orig.len());
        assert(seq_value(buffer@) < pow2(64 * orig.len() as nat));
        assert(seq_value(buffer@) as int - (if b1 {
            1int
        } else {
            0int
        }) * crate::add_ops::top_weight(orig.len() as nat) == seq_value(orig) as int - lo * pow2(0));
        if b1 {
            assert(false);
        }
    }
    if hi != 0 {
        proof {
            // a two-word subtrahend forces at least two words of value
            lemma2_to64();
            vstd::arithmetic::mul::lemma_mul_inequality(1, hi as int, word_base() as int);
            if orig.len() < 2 {
                assert(pow2(64 * orig.len() as nat) <= pow2(64)) by {
                    if (64 * orig.len() as nat) < 64 {
                        vstd::arithmetic::power2::lemma_pow2_strictly_increases(
                            64 * orig.len() as nat,
                            64,
                        );
                    }
                }
                assert(false);
            }
        }
        let b2 = crate::add_ops::sub_word_at(&mut buffer, 1, hi);
        proof {
            lemma2_to64();
            lemma_seq_value_bound(buffer@);
            if b2 {
                assert(false);
            }
        }
    }
    UBig(Repr::from_buffer(buffer))
}

/// Large minus large; the difference must be nonnegative.
fn sub_large(buffer: Buffer, rhs: &[Word]) -> (r: UBig)
    requires
        buffer.wf(),
        rhs@.len() <= buffer@.len(),
        seq_value(rhs@) <= seq_value(buffer@),
    ensures
        r.wf(),
        r.value() == seq_value(buffer@) - seq_value(rhs@),
{
    let mut buffer = buffer;
    proof {
        lemma_pow2_pos(64 * buffer@.len() as nat);
    }
    let borrow = crate::add_ops::sub_in_place(&mut buffer, rhs);
    proof {
        lemma_seq_value_bound(buffer@);
        if borrow {
            assert(false);
        }
    }
    UBig(Repr::from_buffer(buffer))
}

/// A well-formed value fits its stored words.
pub proof fn lemma_value_bound(x: &UBig)
    requires
        x.wf(),
    ensures
        x.value() < pow2(64 * x.spec_len()),
        x.spec_len() >= 1,
{
    lemma_word_base();
    lemma_pow2_adds(64, 64);
    match &x.0.magnitude {
        TypedRepr::Small(dw) => {
            lemma_dword_value_upper(*dw);
        },
        TypedRepr::Large(b) => {
            lemma_seq_value_bound(b@);
        },
    }
}

/// A well-formed value below `2^(64k)` is stored in at most `k` words.
pub proof fn lemma_len_bounded(x: &UBig, k: nat)
    requires
        x.wf(),
        x.value() < pow2(64 * k),
        k >= 1,
    ensures
        x.spec_len() <= k,
{
    lemma_word_base();
    match &x.0.magnitude {
        TypedRepr::Small(dw) => {
            if k == 1 && *dw >= word_base() {
                assert(false);
            }
        },
        TypedRepr::Large(b) => {
            lemma_seq_value_lower(b@);
            let l = b@.len();
            if l > k {
                assert(pow2(64 * k) <= pow2(64 * (l - 1) as nat)) by {
                    if 64 * k < 64 * (l - 1) as nat {
                        vstd::arithmetic::power2::lemma_pow2_strictly_increases(
                            64 * k,
                            64 * (l - 1) as nat,
                        );
                    }
                }
                assert(false);
            }
        },
    }
}

impl UBig {
    /// Replace this value with a copy of `src`, reusing this heap allocation
    /// when its capacity is already compact for the source.
    pub fn clone_from(&mut self, src: &UBig)
        requires
            old(self).wf(),
            src.wf(),
        ensures
            final(self).wf(),
            final(self).value() == src.value(),
            final(self).spec_len() == src.spec_len(),
            !old(self).0.is_small() && !src.0.is_small() && src.0.spec_len() <= old(
                self,
            ).0.spec_capacity() <= crate::buffer::spec_max_compact_capacity(src.0.spec_len())
                ==> final(self).0.spec_capacity() == old(self).0.spec_capacity(),
    {
        self.0.clone_from(&src.0);
    }
}

impl Clone for UBig {
    /// The copy denotes the same value, in the same tagged form.
    fn clone(&self) -> (r: Self)
        ensures
            crate::repr::spec_repr_eq(&r.0, &self.0),
            self.wf() ==> r.wf() && r.value() == self.value() && r.0.is_small()
                == self.0.is_small(),
    {
        UBig(self.0.clone())
    }
}

impl PartialEq for UBig {
    /// Values compare by their canonical representation.
    fn eq(&self, other: &Self) -> (r: bool)
        ensures
            r == crate::repr::spec_repr_eq(&self.0, &other.0),
    {
        self.0.eq(&other.0)
    }
}

impl vstd::std_specs::cmp::PartialEqSpecImpl for UBig {
    open spec fn obeys_eq_spec() -> bool {
        true
    }

    open spec fn eq_spec(&self, other: &Self) -> bool {
        crate::repr::spec_repr_eq(&self.0, &other.0)
    }
}

impl Eq for UBig {}

} // verus!
