//! Bit shifts within the word base, and division by a single word.
//!
//! A left shift by `k < 64` bits is a multiplication by `2^k`; a right shift
//! is a Euclidean division by `2^k`.  Both reuse the same top-down or
//! bottom-up carry loops as the scalar multiply.

use vstd::prelude::*;
use vstd::arithmetic::power2::{pow2, lemma_pow2_adds, lemma_pow2_pos, lemma2_to64,
    lemma_pow2_strictly_increases};
use vstd::arithmetic::div_mod::{lemma_fundamental_div_mod, lemma_multiply_divide_lt};
use vstd::arithmetic::mul::{lemma_mul_inequality, lemma_mul_is_commutative};
use crate::buffer::Buffer;
use crate::math::{
    seq_value, lemma_seq_value_one, lemma_seq_value_split, lemma_mul_distribute_add2,
    lemma_mul_distribute_sub2, lemma_mul_shuffle,
};
use crate::primitive::{Word, DWORD_BASE, word_base, lemma_word_base};
use crate::add_ops::top_weight;
use crate::mul_ops::mul_word_in_place;

verus! {

/// `2^k` as a word, for `k < 64`.
pub fn pow2_word(k: u32) -> (r: Word)
    requires
        k < 64,
    ensures
        r == pow2(k as nat),
        r >= 1,
{
    let mut p: Word = 1;
    let mut i: u32 = 0;
    proof {
        vstd::arithmetic::power2::lemma_pow2_unfold(1);
        assert(pow2(0) == 1) by {
            lemma2_to64();
        }
    }
    while i < k
        invariant
            i <= k < 64,
            p == pow2(i as nat),
        decreases k - i,
    {
        proof {
            lemma_pow2_pos(i as nat);
        }
        proof {
            lemma_pow2_strictly_increases(i as nat, 63);
            assert(pow2(63) == 0x8000000000000000) by {
                vstd::arithmetic::power2::lemma2_to64_rest();
            }
            lemma_pow2_adds(i as nat, 1);
            assert(pow2(1) == 2) by {
                lemma2_to64();
            }
        }
        p = p * 2;
        i += 1;
    }
    proof {
        lemma_pow2_pos(k as nat);
    }
    p
}

/// `b <<= shift` for `shift < 64`; returns the bits shifted out past the top,
/// as a word below `2^shift`.
pub fn shl_in_place(b: &mut Buffer, shift: u32) -> (r: Word)
    requires
        old(b).wf(),
        shift < 64,
    ensures
        final(b).wf(),
        final(b)@.len() == old(b)@.len(),
        final(b).capacity == old(b).capacity,
        seq_value(final(b)@) + r * top_weight(old(b)@.len() as nat) == seq_value(old(b)@) * pow2(
            shift as nat,
        ),
        r < pow2(shift as nat),
{
    let p = pow2_word(shift);
    let r = mul_word_in_place(b, p);
    proof {
        lemma_pow2_pos(shift as nat);
    }
    r
}

/// `b /= d` in place for a nonzero single word `d`; returns the remainder.
pub fn div_by_word_in_place(b: &mut Buffer, d: Word) -> (r: Word)
    requires
        old(b).wf(),
        d > 0,
    ensures
        final(b).wf(),
        final(b)@.len() == old(b)@.len(),
        final(b).capacity == old(b).capacity,
        seq_value(final(b)@) * d + r == seq_value(old(b)@),
        r < d,
{
    let ghost orig = b@;
    let n = b.len();
    let mut rem: Word = 0;
    let mut j: usize = n;
    proof {
        assert(orig.skip(n as int).len() == 0);
        assert(b@.skip(n as int).len() == 0);
        assert(seq_value(orig.skip(n as int)) == 0);
        assert(seq_value(b@.skip(n as int)) == 0);
        vstd::arithmetic::mul::lemma_mul_basics(d as int);
    }
    while j > 0
        invariant
            j <= n,
            n == b@.len(),
            b@.len() == orig.len(),
            b.capacity == old(b).capacity,
            b.wf(),
            rem < d,
            forall|k: int| 0 <= k < j ==> b@[k] == orig[k],
            seq_value(b@.skip(j as int)) * d + rem == seq_value(orig.skip(j as int)),
        decreases j,
    {
        let ghost pre = b@;
        j -= 1;
        let bj = b.get(j);
        proof {
            assert(bj == orig[j as int]);
            lemma_word_base();
            lemma_mul_inequality(rem as int, d as int - 1, pow2(64) as int);
            lemma_mul_distribute_sub2(d as int, 1, pow2(64) as int);
            lemma2_to64();
        }
        let t: u128 = (rem as u128) * DWORD_BASE + bj as u128;
        let q128 = t / (d as u128);
        let r128 = t % (d as u128);
        proof {
            lemma_fundamental_div_mod(t as int, d as int);
            // t < d * 2^64, so the quotient fits in one word
            assert(t < (d as int) * pow2(64)) by {
                lemma_mul_is_commutative(d as int, pow2(64) as int);
            }
            lemma_multiply_divide_lt(t as int, d as int, pow2(64) as int);
        }
        let q = q128 as u64;
        let r = r128 as u64;
        b.set(j, q);
        proof {
            let bs = b@.skip(j as int);
            let os = orig.skip(j as int);
            let big = pow2(64) as int;
            // split off the first word of each suffix
            lemma_seq_value_split(bs, 1);
            lemma_seq_value_split(os, 1);
            lemma_seq_value_one(bs.take(1));
            lemma_seq_value_one(os.take(1));
            assert(bs.take(1)[0] == q);
            assert(os.take(1)[0] == bj);
            assert(bs.skip(1) =~= b@.skip(j + 1));
            assert(os.skip(1) =~= orig.skip(j + 1));
            assert(b@.skip(j + 1) =~= pre.skip(j + 1));
            // (q + 2^64 * V') * d  ==  q*d + 2^64 * (V' * d)
            let vq = seq_value(b@.skip(j + 1)) as int;
            lemma_mul_distribute_add2(q as int, big * vq, d as int);
            lemma_mul_shuffle(big, vq, d as int);
            vstd::arithmetic::mul::lemma_mul_is_associative(big, vq, d as int);
            // 2^64 * (old suffix - rem) distributes
            vstd::arithmetic::mul::lemma_mul_is_distributive_sub(
                big,
                seq_value(orig.skip(j + 1)) as int,
                rem as int,
            );
            assert(q as int * d as int + r == t) by {
                assert(q128 < pow2(64));
                assert(q == q128);
                assert(r == r128);
            }
            assert(seq_value(bs) == q + big * vq);
            assert(seq_value(os) == bj + big * seq_value(orig.skip(j + 1)));
            assert(vq * d == seq_value(orig.skip(j + 1)) - rem);
            assert(seq_value(bs) * d == q * d + big * (vq * d));
            assert(seq_value(b@.skip(j as int)) * d + r == seq_value(orig.skip(j as int)));
        }
        rem = r;
    }
    proof {
        assert(b@.skip(0) =~= b@);
        assert(orig.skip(0) =~= orig);
    }
    rem
}

/// `b >>= shift` for `shift < 64`; returns the bits shifted out, as a word
/// below `2^shift`.
pub fn shr_in_place(b: &mut Buffer, shift: u32) -> (r: Word)
    requires
        old(b).wf(),
        shift < 64,
    ensures
        final(b).wf(),
        final(b)@.len() == old(b)@.len(),
        final(b).capacity == old(b).capacity,
        seq_value(final(b)@) * pow2(shift as nat) + r == seq_value(old(b)@),
        r < pow2(shift as nat),
{
    let p = pow2_word(shift);
    div_by_word_in_place(b, p)
}

} // verus!
