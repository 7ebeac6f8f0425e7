//! Euclidean division of big integers.
//!
//! A divisor that fits one word goes through the fast in-place word division;
//! anything larger runs a restoring binary long division whose invariant is
//! the Euclidean identity on the high bits processed so far.

use vstd::prelude::*;
use vstd::arithmetic::power2::{pow2, lemma_pow2_adds, lemma_pow2_pos, lemma2_to64};
use vstd::arithmetic::div_mod::{lemma_fundamental_div_mod, lemma_div_denominator,
    lemma_basic_div};
use vstd::arithmetic::mul::{lemma_mul_inequality, lemma_mul_is_commutative,
    lemma_mul_is_associative, lemma_mul_basics};
use crate::bits::{nth_bit, words_bit, is_bit_len};
use crate::buffer::MAX_CAPACITY;
use crate::math::{seq_value, lemma_mul_distribute_add2};
use crate::primitive::{Word, DWORD_BASE, word_base, lemma_word_base, split_dword, shrink_dword};
use crate::repr::{Repr, TypedRepr, lemma_large_value_lower, lemma_dword_value_upper};
use crate::ubig::{UBig, lemma_value_bound, lemma_len_bounded};

verus! {

/// One step of binary long division: the high bits gain the next bit.
proof fn lemma_div_bit_step(v: nat, i: nat)
    requires
        i >= 1,
    ensures
        v / pow2((i - 1) as nat) == 2 * (v / pow2(i)) + (if nth_bit(v, (i - 1) as nat) {
            1nat
        } else {
            0nat
        }),
{
    let x = v / pow2((i - 1) as nat);
    lemma_pow2_pos((i - 1) as nat);
    lemma_pow2_pos(i);
    lemma_fundamental_div_mod(x as int, 2);
    lemma_pow2_adds((i - 1) as nat, 1);
    lemma2_to64();
    lemma_div_denominator(v as int, pow2((i - 1) as nat) as int, 2);
}

impl UBig {
    /// Quotient and remainder of Euclidean division.
    pub fn div_rem(&self, rhs: &UBig) -> (r: (UBig, UBig))
        requires
            self.wf(),
            rhs.wf(),
            rhs.value() > 0,
            self.spec_len() + 4 <= MAX_CAPACITY,
            rhs.spec_len() + 4 <= MAX_CAPACITY,
        ensures
            r.0.wf(),
            r.1.wf(),
            self.value() == r.0.value() * rhs.value() + r.1.value(),
            r.1.value() < rhs.value(),
    {
        proof {
            lemma_word_base();
        }
        match (&self.0.magnitude, &rhs.0.magnitude) {
            (TypedRepr::Small(a), TypedRepr::Small(b)) => {
                let q = *a / *b;
                let r = *a % *b;
                proof {
                    lemma_fundamental_div_mod(*a as int, *b as int);
                    vstd::arithmetic::div_mod::lemma_mod_division_less_than_divisor(
                        *a as int,
                        *b as int,
                    );
                    lemma_mul_is_commutative(*b as int, q as int);
                }
                (UBig(Repr::from_dword(q)), UBig(Repr::from_dword(r)))
            },
            (TypedRepr::Large(_), TypedRepr::Small(b)) => {
                match shrink_dword(*b) {
                    Some(w) => {
                        let mut buf = self.to_buffer();
                        let rem = crate::shift_ops::div_by_word_in_place(&mut buf, w);
                        (UBig(Repr::from_buffer(buf)), UBig(Repr::from_word(rem)))
                    },
                    None => div_rem_binary(self, rhs),
                }
            },
            _ => div_rem_binary(self, rhs),
        }
    }

    /// Euclidean quotient.
    pub fn div(&self, rhs: &UBig) -> (r: UBig)
        requires
            self.wf(),
            rhs.wf(),
            rhs.value() > 0,
            self.spec_len() + 4 <= MAX_CAPACITY,
            rhs.spec_len() + 4 <= MAX_CAPACITY,
        ensures
            r.wf(),
            r.value() == self.value() / rhs.value(),
    {
        let (q, rem) = self.div_rem(rhs);
        proof {
            lemma_euclidean_unique(self.value(), rhs.value(), q.value(), rem.value());
        }
        q
    }

    /// Euclidean remainder.
    pub fn rem(&self, rhs: &UBig) -> (r: UBig)
        requires
            self.wf(),
            rhs.wf(),
            rhs.value() > 0,
            self.spec_len() + 4 <= MAX_CAPACITY,
            rhs.spec_len() + 4 <= MAX_CAPACITY,
        ensures
            r.wf(),
            r.value() == self.value() % rhs.value(),
    {
        let (q, rem) = self.div_rem(rhs);
        proof {
            lemma_euclidean_unique(self.value(), rhs.value(), q.value(), rem.value());
        }
        rem
    }
}

/// The Euclidean identity pins quotient and remainder.
pub proof fn lemma_euclidean_unique(a: nat, b: nat, q: nat, r: nat)
    requires
        b > 0,
        a == q * b + r,
        r < b,
    ensures
        q == a / b,
        r == a % b,
{
    vstd::arithmetic::div_mod::lemma_fundamental_div_mod_converse(
        a as int,
        b as int,
        q as int,
        r as int,
    );
}

/// Restoring binary long division, one bit of the dividend at a time.
fn div_rem_binary(a: &UBig, b: &UBig) -> (res: (UBig, UBig))
    requires
        a.wf(),
        b.wf(),
        b.value() > 0,
        a.spec_len() + 4 <= MAX_CAPACITY,
        b.spec_len() + 4 <= MAX_CAPACITY,
    ensures
        res.0.wf(),
        res.1.wf(),
        a.value() == res.0.value() * b.value() + res.1.value(),
        res.1.value() < b.value(),
{
    let ghost av = a.value();
    let ghost bv = b.value();
    let ab = a.to_buffer();
    let n = a.bit_len();
    let one = UBig::one();
    let mut q = UBig::zero();
    let mut r = UBig::zero();
    let mut i: usize = n;
    proof {
        lemma_pow2_pos(n as nat);
        lemma_basic_div(av as int, pow2(n as nat) as int);
        lemma_mul_basics(bv as int);
        lemma_value_bound(a);
        lemma_value_bound(b);
    }
    while i > 0
        invariant
            q.wf(),
            r.wf(),
            a.wf(),
            b.wf(),
            one.wf(),
            one.value() == 1,
            i <= n,
            av == a.value(),
            bv == b.value(),
            bv > 0,
            seq_value(ab@) == av,
            ab@.len() <= MAX_CAPACITY,
            a.spec_len() + 4 <= MAX_CAPACITY,
            b.spec_len() + 4 <= MAX_CAPACITY,
            q.value() * bv + r.value() == av / pow2(i as nat),
            r.value() < bv,
        decreases i,
    {
        proof {
            // sizes: r stays within b's words, q within a's
            lemma_value_bound(a);
            lemma_value_bound(b);
            lemma_len_bounded(&r, b.spec_len());
            let qv = q.value();
            lemma_mul_inequality(1, bv as int, qv as int);
            lemma_mul_is_commutative(bv as int, qv as int);
            lemma_mul_is_commutative(qv as int, bv as int);
            assert(qv <= qv * bv);
            lemma_pow2_pos(i as nat);
            assert(av / pow2(i as nat) <= av) by {
                vstd::arithmetic::div_mod::lemma_div_nonincreasing(
                    av as int,
                    pow2(i as nat) as int,
                );
            }
            lemma_len_bounded(&q, a.spec_len());
        }
        i -= 1;
        let bit = words_bit(ab.as_slice(), i);
        let r2 = r.add(&r);
        proof {
            lemma2_to64();
            vstd::arithmetic::power2::lemma2_to64_rest();
            lemma_pow2_adds(64 * b.spec_len(), 1);
            assert(pow2(64 * b.spec_len() + 1) <= pow2(64 * (b.spec_len() + 1))) by {
                if 64 * b.spec_len() + 1 < 64 * (b.spec_len() + 1) {
                    vstd::arithmetic::power2::lemma_pow2_strictly_increases(
                        64 * b.spec_len() + 1,
                        64 * (b.spec_len() + 1),
                    );
                }
            }
            lemma_len_bounded(&r2, b.spec_len() + 1);
            lemma_len_bounded(&one, 1);
        }
        let r3 = if bit {
            r2.add(&one)
        } else {
            r2
        };
        let q2 = q.add(&q);
        proof {
            lemma_div_bit_step(av, (i + 1) as nat);
            // doubled values still fit one extra word
            lemma2_to64();
            lemma_pow2_adds(64 * a.spec_len(), 1);
            assert(pow2(64 * a.spec_len() + 1) <= pow2(64 * (a.spec_len() + 1))) by {
                if 64 * a.spec_len() + 1 < 64 * (a.spec_len() + 1) {
                    vstd::arithmetic::power2::lemma_pow2_strictly_increases(
                        64 * a.spec_len() + 1,
                        64 * (a.spec_len() + 1),
                    );
                }
            }
            lemma_len_bounded(&q2, a.spec_len() + 1);
            lemma_pow2_adds(64 * b.spec_len(), 1);
            assert(pow2(64 * b.spec_len() + 1) <= pow2(64 * (b.spec_len() + 1))) by {
                if 64 * b.spec_len() + 1 < 64 * (b.spec_len() + 1) {
                    vstd::arithmetic::power2::lemma_pow2_strictly_increases(
                        64 * b.spec_len() + 1,
                        64 * (b.spec_len() + 1),
                    );
                }
            }
            lemma_len_bounded(&r3, b.spec_len() + 1);
        }
        let cmp = r3.cmp(b);
        if cmp >= 0 {
            let ghost qv = q.value();
            let ghost rv = r.value();
            r = r3.sub(b);
            q = q2.add(&one);
            proof {
                // (2q + 1) b + (2r + bit - b)  ==  2 (q b + r) + bit
                lemma_mul_distribute_add2(2 * qv as int, 1, bv as int);
                lemma_mul_is_associative(2, qv as int, bv as int);
            }
        } else {
            let ghost qv = q.value();
            r = r3;
            q = q2;
            proof {
                lemma_mul_is_associative(2, qv as int, bv as int);
            }
        }
    }
    proof {
        lemma2_to64();
        assert(av / pow2(0) == av) by {
            vstd::arithmetic::div_mod::lemma_div_basics(av as int);
        }
    }
    (q, r)
}

} // verus!
