//! Bit-level views of big integers: bit length, single-bit tests, and
//! low-bit occupancy checks.

use vstd::prelude::*;
use vstd::arithmetic::power2::{pow2, lemma_pow2_adds, lemma_pow2_pos, lemma2_to64,
    lemma_pow2_strictly_increases};
use vstd::arithmetic::div_mod::{lemma_fundamental_div_mod, lemma_div_denominator,
    lemma_basic_div, lemma_hoist_over_denominator, lemma_mod_multiples_vanish};
use vstd::arithmetic::mul::{lemma_mul_inequality, lemma_mul_is_commutative,
    lemma_mul_is_associative};
use crate::buffer::MAX_CAPACITY;
use crate::math::{seq_value, lemma_seq_value_split, lemma_seq_value_one,
    lemma_seq_value_bound, lemma_mul_distribute_add2};
use crate::primitive::{Word, DoubleWord, word_base, lemma_word_base};
use crate::repr::TypedRepr;
use crate::ubig::UBig;

verus! {

/// Bit `i` of a natural number.
pub open spec fn nth_bit(v: nat, i: nat) -> bool {
    (v / pow2(i)) % 2 == 1
}

/// Number of bits needed for `v`: the least `n` with `v < 2^n`.
pub open spec fn is_bit_len(v: nat, n: nat) -> bool {
    v < pow2(n) && (v > 0 ==> n > 0 && pow2((n - 1) as nat) <= v)
}

/// Bit length of a double word.
pub fn bit_len_dword(v: DoubleWord) -> (r: u32)
    ensures
        is_bit_len(v as nat, r as nat),
        r <= 128,
        v == 0 ==> r == 0,
{
    let mut x: u128 = v;
    let mut c: u32 = 0;
    proof {
        lemma2_to64();
        assert(v as nat / pow2(0) == v) by {
            vstd::arithmetic::div_mod::lemma_div_basics(v as int);
        }
    }
    while x > 0
        invariant
            x == v as nat / pow2(c as nat),
            c > 0 ==> v as nat / pow2((c - 1) as nat) > 0,
            c <= 128,
        decreases x,
    {
        proof {
            lemma_pow2_pos(c as nat);
            lemma_pow2_adds(c as nat, 1);
            lemma2_to64();
            lemma_div_denominator(v as int, pow2(c as nat) as int, 2);
            // the quotient strictly shrinks, and c stays within 128 bits
            vstd::arithmetic::div_mod::lemma_div_is_strictly_smaller(x as int, 2);
            if c >= 128 {
                vstd::arithmetic::power2::lemma2_to64_rest();
                lemma_pow2_adds(64, 64);
                assert((v as nat) < pow2(128));
                lemma_basic_div(v as int, pow2(c as nat) as int);
                if (c as nat) > 128 {
                    lemma_pow2_strictly_increases(128, c as nat);
                }
                assert(false);
            }
        }
        x = x / 2;
        c = c + 1;
    }
    proof {
        lemma_pow2_pos(c as nat);
        vstd::arithmetic::div_mod::lemma_small_div_converse(v as int, pow2(c as nat) as int);
        if v == 0 && c > 0 {
            lemma_pow2_pos((c - 1) as nat);
            lemma_basic_div(0, pow2((c - 1) as nat) as int);
            assert(false);
        }
        if v > 0 && c > 0 {
            lemma_pow2_pos((c - 1) as nat);
            let q = v as nat / pow2((c - 1) as nat);
            lemma_fundamental_div_mod(v as int, pow2((c - 1) as nat) as int);
            lemma_mul_inequality(1, q as int, pow2((c - 1) as nat) as int);
            lemma_mul_is_commutative(q as int, pow2((c - 1) as nat) as int);
        }
    }
    c
}

/// Bit length of a single word.
pub fn bit_len_word(v: Word) -> (r: u32)
    ensures
        is_bit_len(v as nat, r as nat),
        r <= 64,
{
    let r = bit_len_dword(v as u128);
    proof {
        vstd::arithmetic::power2::lemma2_to64_rest();
        lemma_small_word_bit_len(v as nat, r as nat);
    }
    r
}

/// A value below `2^64` needs at most 64 bits.
proof fn lemma_small_word_bit_len(v: nat, r: nat)
    requires
        is_bit_len(v, r),
        v < pow2(64),
        v == 0 ==> r == 0,
    ensures
        r <= 64,
{
    if r > 64 {
        assert(v > 0);
        assert(pow2(64) <= pow2((r - 1) as nat)) by {
            if 64 < r - 1 {
                lemma_pow2_strictly_increases(64, (r - 1) as nat);
            }
        }
        assert(false);
    }
}

/// Bit `i` of the value denoted by a word slice.
pub fn words_bit(words: &[Word], i: usize) -> (r: bool)
    requires
        words@.len() <= MAX_CAPACITY,
    ensures
        r == nth_bit(seq_value(words@), i as nat),
{
    let w = i / 64;
    let b = (i % 64) as u32;
    let ghost v = seq_value(words@);
    proof {
        lemma_word_base();
        lemma_pow2_pos((i as nat));
        lemma_pow2_pos(64 * w as nat);
        lemma_pow2_pos(b as nat);
        lemma_pow2_adds(64 * w as nat, b as nat);
        assert(64 * w + b == i);
        // v / 2^i == (v / 2^(64w)) / 2^b
        lemma_div_denominator(v as int, pow2(64 * w as nat) as int, pow2(b as nat) as int);
    }
    if w >= words.len() {
        proof {
            lemma_seq_value_bound(words@);
            assert(pow2(64 * words@.len()) <= pow2(64 * w as nat)) by {
                if 64 * words@.len() < 64 * w as nat {
                    lemma_pow2_strictly_increases(64 * words@.len(), 64 * w as nat);
                }
            }
            lemma_basic_div(v as int, pow2(64 * w as nat) as int);
            lemma_basic_div(0, pow2(b as nat) as int);
            assert(v as int / pow2(i as nat) as int == 0);
        }
        false
    } else {
        let word = words[w];
        proof {
            // v / 2^(64w) is the value of the suffix from word w
            lemma_seq_value_split(words@, w as int);
            lemma_seq_value_bound(words@.take(w as int));
            assert(words@.take(w as int).len() == w);
            let tail = seq_value(words@.skip(w as int));
            lemma_hoist_over_denominator(
                seq_value(words@.take(w as int)) as int,
                tail as int,
                pow2(64 * w as nat),
            );
            lemma_basic_div(
                seq_value(words@.take(w as int)) as int,
                pow2(64 * w as nat) as int,
            );
            lemma_mul_is_commutative(tail as int, pow2(64 * w as nat) as int);
            assert(v as int / pow2(64 * w as nat) as int == tail);
            // the suffix splits into its first word and the rest
            let s = words@.skip(w as int);
            lemma_seq_value_split(s, 1);
            lemma_seq_value_one(s.take(1));
            assert(s.take(1)[0] == word);
            let rest = seq_value(s.skip(1));
            // (word + 2^64 * rest) / 2^b == word / 2^b + rest * 2^(64-b)
            lemma_pow2_adds(b as nat, (64 - b) as nat);
            lemma_hoist_over_denominator(
                word as int,
                rest as int * pow2((64 - b) as nat),
                pow2(b as nat),
            );
            assert((rest as int * pow2((64 - b) as nat)) * pow2(b as nat) == rest as int * pow2(
                64,
            )) by {
                lemma_mul_is_associative(
                    rest as int,
                    pow2((64 - b) as nat) as int,
                    pow2(b as nat) as int,
                );
            }
            assert(tail as int == word + pow2(64) * rest as int);
            lemma_mul_is_commutative(pow2(64) as int, rest as int);
            assert(tail as int / pow2(b as nat) as int == word as int / pow2(b as nat) as int
                + rest as int * pow2((64 - b) as nat));
            // dropping the even part leaves bit b of the word
            assert(64 - b >= 1);
            lemma_pow2_adds(1, (64 - b - 1) as nat);
            assert(rest as int * pow2((64 - b) as nat) == 2 * (rest as int * pow2(
                (64 - b - 1) as nat,
            ))) by {
                lemma2_to64();
                assert(pow2((64 - b) as nat) == 2 * pow2((64 - b - 1) as nat));
                lemma_mul_is_associative(rest as int, 2, pow2((64 - b - 1) as nat) as int);
                lemma_mul_is_commutative(rest as int, 2);
                lemma_mul_is_associative(2, rest as int, pow2((64 - b - 1) as nat) as int);
            }
            lemma_mod_multiples_vanish(
                rest as int * pow2((64 - b - 1) as nat),
                word as int / pow2(b as nat) as int,
                2,
            );
        }
        let p = crate::shift_ops::pow2_word(b);
        let q = word / p;
        proof {
            lemma_pow2_pos(b as nat);
        }
        q % 2 == 1
    }
}

impl UBig {
    /// Minimum number of bits needed to represent the value; 0 for zero.
    pub fn bit_len(&self) -> (r: usize)
        requires
            self.wf(),
        ensures
            is_bit_len(self.value(), r as nat),
            r <= 64 * self.spec_len(),
    {
        proof {
            lemma_word_base();
        }
        match &self.0.magnitude {
            TypedRepr::Small(dw) => {
                let r = bit_len_dword(*dw) as usize;
                proof {
                    vstd::arithmetic::power2::lemma2_to64_rest();
                    if *dw < word_base() {
                        lemma_small_word_bit_len(*dw as nat, r as nat);
                    }
                }
                r
            },
            TypedRepr::Large(buf) => {
                let l = buf.len();
                let top = buf.get(l - 1);
                let bl = bit_len_word(top) as usize;
                proof {
                    let s = buf@;
                    let dl = s.drop_last();
                    lemma_seq_value_bound(dl);
                    assert(dl.len() == l - 1);
                    let p = pow2(64 * (l - 1) as nat) as int;
                    lemma_pow2_pos(64 * (l - 1) as nat);
                    // upper: value < (top+1) * 2^(64(l-1)) <= 2^(64(l-1)+bl)
                    lemma_mul_distribute_add2(top as int, 1, p);
                    lemma_mul_inequality(top as int + 1, pow2(bl as nat) as int, p);
                    lemma_pow2_adds(64 * (l - 1) as nat, bl as nat);
                    lemma_mul_is_commutative(pow2(bl as nat) as int, p);
                    // lower: value >= top * 2^(64(l-1)) >= 2^(64(l-1)+bl-1)
                    assert(top > 0);
                    assert(pow2((bl - 1) as nat) <= top);
                    lemma_mul_inequality(pow2((bl - 1) as nat) as int, top as int, p);
                    lemma_pow2_adds(64 * (l - 1) as nat, (bl - 1) as nat);
                    lemma_mul_is_commutative(pow2((bl - 1) as nat) as int, p);
                    lemma_mul_is_commutative(top as int, p);
                    // no overflow: 64*(l-1) + 64 <= 64*l <= usize::MAX
                    assert(l <= MAX_CAPACITY);
                    assert(64 * MAX_CAPACITY <= usize::MAX) by {
                        vstd::arithmetic::div_mod::lemma_fundamental_div_mod(
                            usize::MAX as int,
                            64,
                        );
                    }
                }
                (l - 1) * 64 + bl
            },
        }
    }

    /// Bit `i` of the value.
    pub fn bit(&self, i: usize) -> (r: bool)
        requires
            self.wf(),
        ensures
            r == nth_bit(self.value(), i as nat),
    {
        let b = self.to_buffer();
        words_bit(b.as_slice(), i)
    }
}

} // verus!
