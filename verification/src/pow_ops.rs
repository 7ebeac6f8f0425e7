//! Bit shifts by arbitrary amounts and integer powers.

use vstd::prelude::*;
use vstd::arithmetic::power::{pow, lemma_pow_adds, lemma_pow1, lemma_pow_positive};
use vstd::arithmetic::power2::{pow2, lemma_pow2_adds, lemma_pow2_pos, lemma2_to64};
use vstd::arithmetic::mul::{lemma_mul_inequality, lemma_mul_is_commutative,
    lemma_mul_is_associative, lemma_mul_basics};
use crate::buffer::{Buffer, MAX_CAPACITY, lemma_zero_seq};
use crate::math::{seq_value, lemma_seq_value_split, lemma_seq_value_push,
    lemma_seq_value_skip_div, lemma_mul_bound_lt, lemma_mul_shuffle};
use crate::primitive::{Word, lemma_word_base};
use crate::repr::Repr;
use crate::ubig::{UBig, lemma_value_bound, lemma_len_bounded};

verus! {

impl UBig {
    /// The value shifted left by `k` bits: multiplication by `2^k`.
    pub fn shl(&self, k: usize) -> (r: UBig)
        requires
            self.wf(),
            self.spec_len() + k / 64 + 2 <= MAX_CAPACITY,
        ensures
            r.wf(),
            r.value() == self.value() * pow2(k as nat),
    {
        let ghost v = self.value();
        let words = k / 64;
        let bits = (k % 64) as u32;
        let a = self.to_buffer();
        let n = a.len();
        let mut buf = Buffer::allocate(n + words + 1);
        let mut i: usize = 0;
        while i < words
            invariant
                i <= words,
                buf.wf(),
                buf@.len() == i,
                buf.capacity >= n + words + 1,
                forall|j: int| 0 <= j < i ==> buf@[j] == 0,
            decreases words - i,
        {
            buf.push(0);
            i += 1;
        }
        buf.push_slice(a.as_slice());
        proof {
            lemma_seq_value_split(buf@, words as int);
            lemma_zero_seq(buf@.take(words as int));
            assert(buf@.skip(words as int) =~= a@);
        }
        let carry = crate::shift_ops::shl_in_place(&mut buf, bits);
        let ghost mid = buf@;
        buf.push_resizing(carry);
        proof {
            lemma_seq_value_push(mid, carry);
            // 2^(64 w) * v * 2^bits == v * 2^k
            lemma_pow2_adds(64 * words as nat, bits as nat);
            assert(64 * words + bits == k);
            let pw = pow2(64 * words as nat) as int;
            let pb = pow2(bits as nat) as int;
            assert((pw * v as int) * pb == v as int * (pw * pb)) by {
                lemma_mul_is_commutative(pw, v as int);
                lemma_mul_is_associative(v as int, pw, pb);
            }
        }
        UBig(Repr::from_buffer(buf))
    }

    /// The value shifted right by `k` bits: Euclidean division by `2^k`.
    pub fn shr(&self, k: usize) -> (r: UBig)
        requires
            self.wf(),
        ensures
            r.wf(),
            r.value() as int == self.value() as int / pow2(k as nat) as int,
    {
        let ghost v = self.value();
        let words = k / 64;
        let bits = (k % 64) as u32;
        let mut buf = self.to_buffer();
        proof {
            lemma_pow2_pos(k as nat);
            lemma_pow2_pos(64 * words as nat);
            lemma_pow2_pos(bits as nat);
            lemma_pow2_adds(64 * words as nat, bits as nat);
            assert(64 * words + bits == k);
            vstd::arithmetic::div_mod::lemma_div_denominator(
                v as int,
                pow2(64 * words as nat) as int,
                pow2(bits as nat) as int,
            );
        }
        if words >= buf.len() {
            proof {
                crate::math::lemma_seq_value_bound(buf@);
                assert(pow2(64 * buf@.len()) <= pow2(64 * words as nat)) by {
                    if 64 * buf@.len() < 64 * words as nat {
                        vstd::arithmetic::power2::lemma_pow2_strictly_increases(
                            64 * buf@.len(),
                            64 * words as nat,
                        );
                    }
                }
                vstd::arithmetic::div_mod::lemma_basic_div(
                    v as int,
                    pow2(64 * words as nat) as int,
                );
                vstd::arithmetic::div_mod::lemma_basic_div(0, pow2(bits as nat) as int);
            }
            return UBig::zero();
        }
        proof {
            lemma_seq_value_skip_div(buf@, words as int);
        }
        buf.erase_front(words);
        let dropped = crate::shift_ops::shr_in_place(&mut buf, bits);
        proof {
            crate::div_ops::lemma_euclidean_unique(
                (v as int / pow2(64 * words as nat) as int) as nat,
                pow2(bits as nat),
                seq_value(buf@),
                dropped as nat,
            );
        }
        UBig(Repr::from_buffer(buf))
    }

    /// The value raised to the power `exp`.
    pub fn pow(&self, exp: usize) -> (r: UBig)
        requires
            self.wf(),
            self.spec_len() * (exp + 1) + 4 <= MAX_CAPACITY,
        ensures
            r.wf(),
            r.value() == pow(self.value() as int, exp as nat),
    {
        let ghost v = self.value() as int;
        let ghost l = self.spec_len();
        let mut acc = UBig::one();
        let mut i: usize = 0;
        proof {
            lemma_value_bound(self);
            lemma2_to64();
            vstd::arithmetic::power2::lemma2_to64_rest();
            vstd::arithmetic::power::lemma_pow0(v);
        }
        while i < exp
            invariant
                i <= exp,
                acc.wf(),
                self.wf(),
                v == self.value(),
                l == self.spec_len(),
                l * (exp + 1) + 4 <= MAX_CAPACITY,
                l >= 1,
                self.value() < pow2(64 * l),
                acc.value() == pow(v, i as nat),
                acc.value() < pow2(64 * (l * i + 1) as nat),
            decreases exp - i,
        {
            proof {
                // room for one more factor
                lemma_len_bounded(&acc, (l * i + 1) as nat);
                assert(l * i <= l * exp) by {
                    lemma_mul_inequality(i as int, exp as int, l as int);
                    lemma_mul_is_commutative(i as int, l as int);
                    lemma_mul_is_commutative(exp as int, l as int);
                }
                assert(l * (exp + 1) == l * exp + l) by {
                    crate::math::lemma_mul_distribute_add2(exp as int, 1, l as int);
                    lemma_mul_is_commutative(l as int, exp as int + 1);
                    lemma_mul_is_commutative(l as int, exp as int);
                }
            }
            let next = acc.mul(self);
            proof {
                // value: pow gains one factor
                lemma_pow_adds(v, i as nat, 1);
                lemma_pow1(v);
                // bound: the product stays under the padded width
                lemma_mul_bound_lt(
                    acc.value() as int,
                    pow2(64 * (l * i + 1) as nat) as int,
                    self.value() as int,
                    pow2(64 * l) as int,
                );
                lemma_pow2_adds(64 * (l * i + 1) as nat, 64 * l);
                assert(64 * (l * i + 1) + 64 * l == 64 * (l * (i + 1) + 1)) by {
                    crate::math::lemma_mul_distribute_add2(i as int, 1, l as int);
                    lemma_mul_is_commutative(l as int, i as int + 1);
                    lemma_mul_is_commutative(l as int, i as int);
                }
                if self.value() == 0 {
                    lemma_mul_basics(acc.value() as int);
                }
            }
            acc = next;
            i += 1;
        }
        acc
    }
}

} // verus!
