//! Multiplication kernels: scalar multiply, multiply-accumulate, and the
//! schoolbook product.

use vstd::prelude::*;
use vstd::arithmetic::power2::{pow2, lemma_pow2_adds, lemma_pow2_pos};
use vstd::arithmetic::mul::{lemma_mul_inequality, lemma_mul_is_commutative, lemma_mul_upper_bound};
use crate::buffer::Buffer;
use crate::math::{
    seq_value, lemma_seq_value_take_succ, lemma_seq_value_take_all, lemma_seq_value_bound,
    lemma_seq_value_split, lemma_shift_comb, lemma_mul_distribute_add2, lemma_mul_shuffle,
};
use crate::primitive::{Word, split_dword, lemma_word_base};
use crate::add_ops::{add_word_at, top_weight};

verus! {

/// `b *= m`; returns the carry word past the top.
pub fn mul_word_in_place(b: &mut Buffer, m: Word) -> (r: Word)
    requires
        old(b).wf(),
    ensures
        final(b).wf(),
        final(b)@.len() == old(b)@.len(),
        final(b).capacity == old(b).capacity,
        seq_value(final(b)@) + r * top_weight(old(b)@.len() as nat) == seq_value(old(b)@) * m,
        m > 0 ==> r < m,
        m == 0 ==> r == 0,
{
    let ghost orig = b@;
    proof {
        assert(b@.take(0).len() == 0);
        assert(seq_value(b@.take(0)) == 0);
        vstd::arithmetic::mul::lemma_mul_basics(m as int);
    }
    let n = b.len();
    let mut carry: Word = 0;
    let mut j: usize = 0;
    while j < n
        invariant
            j <= n,
            n == b@.len(),
            b@.len() == orig.len(),
            b.capacity == old(b).capacity,
            b.wf(),
            m > 0 ==> carry < m,
            m == 0 ==> carry == 0,
            forall|k: int| j <= k < n ==> b@[k] == orig[k],
            seq_value(b@.take(j as int)) + carry * pow2(64 * j as nat) == seq_value(
                orig.take(j as int),
            ) * m,
        decreases n - j,
    {
        let ghost pre = b@;
        let bj = b.get(j);
        proof {
            assert(bj == orig[j as int]);
            lemma_word_base();
        }
        proof {
            lemma_word_base();
            vstd::arithmetic::power2::lemma2_to64();
            lemma_mul_upper_bound(bj as int, 0xffff_ffff_ffff_ffff, m as int, 0xffff_ffff_ffff_ffff);
            assert(bj as int * m as int <= 0xffff_ffff_ffff_fffe_0000_0000_0000_0001);
        }
        let t: u128 = (bj as u128) * (m as u128) + carry as u128;
        let (lo, hi) = split_dword(t);
        b.set(j, lo);
        proof {
            // carry stays below m: t <= (2^64-1)m + m - 1 < 2^64 m
            if m > 0 {
                lemma_mul_inequality(bj as int, pow2(64) - 1, m as int);
                assert(t < pow2(64) * m) by {
                    crate::math::lemma_mul_distribute_sub2(pow2(64) as int, 1, m as int);
                }
                vstd::arithmetic::div_mod::lemma_multiply_divide_lt(t as int, m as int, pow2(64) as int);
            }
            assert(b@.take(j as int) =~= pre.take(j as int));
            lemma_seq_value_take_succ(b@, j as int);
            lemma_seq_value_take_succ(orig, j as int);
            assert(b@[j as int] == lo);
            lemma_shift_comb(lo as int, hi as int, bj as int * m as int + carry as int, j as nat);
            lemma_mul_distribute_add2(
                bj as int * m as int,
                carry as int,
                pow2(64 * j as nat) as int,
            );
            // (take(j) + bj*2^64j) * m recombines with the invariant
            lemma_mul_distribute_add2(
                seq_value(orig.take(j as int)) as int,
                bj as int * pow2(64 * j as nat),
                m as int,
            );
            lemma_mul_shuffle(bj as int, pow2(64 * j as nat) as int, m as int);
        }
        carry = hi;
        j += 1;
    }
    proof {
        lemma_seq_value_take_all(b@);
        lemma_seq_value_take_all(orig);
    }
    carry
}

/// `b += m * src * 2^(64 i)`; returns the carry past the top.
pub fn add_mul_word_at(b: &mut Buffer, i: usize, m: Word, src: &[Word]) -> (r: bool)
    requires
        old(b).wf(),
        i + src@.len() < old(b)@.len(),
    ensures
        final(b).wf(),
        final(b)@.len() == old(b)@.len(),
        final(b).capacity == old(b).capacity,
        seq_value(final(b)@) + (if r {
            1nat
        } else {
            0nat
        }) * top_weight(old(b)@.len() as nat) == seq_value(old(b)@) + m * seq_value(src@) * pow2(
            64 * i as nat,
        ),
{
    let ghost orig = b@;
    proof {
        assert(b@.take(i as int).len() == i);
        assert(src@.take(0).len() == 0);
        assert(seq_value(src@.take(0)) == 0);
        vstd::arithmetic::mul::lemma_mul_basics(m as int);
        vstd::arithmetic::mul::lemma_mul_basics(pow2(64 * i as nat) as int);
        assert(m * seq_value(src@.take(0)) == 0);
        assert((m * seq_value(src@.take(0))) * pow2(64 * i as nat) == 0) by {
            vstd::arithmetic::mul::lemma_mul_basics(pow2(64 * i as nat) as int);
        }
    }
    let n = src.len();
    let mut carry: Word = 0;
    let mut k: usize = 0;
    while k < n
        invariant
            k <= n,
            n == src@.len(),
            i + n < b@.len(),
            b@.len() == orig.len(),
            b.capacity == old(b).capacity,
            b.wf(),
            forall|t: int| i + k <= t < b@.len() ==> b@[t] == orig[t],
            forall|t: int| 0 <= t < i ==> b@[t] == orig[t],
            seq_value(b@.take((i + k) as int)) + carry * pow2(64 * (i + k) as nat) == seq_value(
                orig.take((i + k) as int),
            ) + m * seq_value(src@.take(k as int)) * pow2(64 * i as nat),
        decreases n - k,
    {
        let ghost pre = b@;
        let j = i + k;
        let bj = b.get(j);
        proof {
            assert(bj == orig[j as int]);
            lemma_word_base();
        }
        let sk = src[k];
        proof {
            lemma_word_base();
            vstd::arithmetic::power2::lemma2_to64();
            lemma_mul_upper_bound(m as int, 0xffff_ffff_ffff_ffff, sk as int, 0xffff_ffff_ffff_ffff);
            assert(m as int * sk as int <= 0xffff_ffff_ffff_fffe_0000_0000_0000_0001);
        }
        let t: u128 = bj as u128 + (m as u128) * (sk as u128) + carry as u128;
        let (lo, hi) = split_dword(t);
        b.set(j, lo);
        proof {
            assert(b@.take(j as int) =~= pre.take(j as int));
            lemma_seq_value_take_succ(b@, j as int);
            lemma_seq_value_take_succ(orig, j as int);
            lemma_seq_value_take_succ(src@, k as int);
            assert(b@[j as int] == lo);
            lemma_shift_comb(
                lo as int,
                hi as int,
                bj as int + m as int * sk as int + carry as int,
                j as nat,
            );
            lemma_mul_distribute_add2(
                bj as int + m as int * sk as int,
                carry as int,
                pow2(64 * j as nat) as int,
            );
            lemma_mul_distribute_add2(
                bj as int,
                m as int * sk as int,
                pow2(64 * j as nat) as int,
            );
            // m * (src.take(k) + sk*2^(64k)) * 2^(64i) recombines
            lemma_mul_distribute_add2(
                seq_value(src@.take(k as int)) as int,
                sk as int * pow2(64 * k as nat),
                m as int,
            );
            lemma_mul_is_commutative(
                m as int,
                seq_value(src@.take(k as int)) as int + sk as int * pow2(64 * k as nat),
            );
            lemma_mul_is_commutative(m as int, seq_value(src@.take(k as int)) as int);
            lemma_mul_distribute_add2(
                m as int * seq_value(src@.take(k as int)) as int,
                m as int * (sk as int * pow2(64 * k as nat)),
                pow2(64 * i as nat) as int,
            );
            // m*(sk*2^(64k))*2^(64i) == (m*sk)*2^(64(i+k))
            lemma_pow2_adds(64 * k as nat, 64 * i as nat);
            assert(m as int * (sk as int * pow2(64 * k as nat)) * pow2(64 * i as nat) == (m as int
                * sk as int) * pow2(64 * (i + k) as nat)) by {
                vstd::arithmetic::mul::lemma_mul_is_associative(
                    m as int,
                    sk as int,
                    pow2(64 * k as nat) as int,
                );
                vstd::arithmetic::mul::lemma_mul_is_associative(
                    m as int * sk as int,
                    pow2(64 * k as nat) as int,
                    pow2(64 * i as nat) as int,
                );
                lemma_pow2_adds(64 * i as nat, 64 * k as nat);
            }
        }
        carry = hi;
        k += 1;
    }
    let ghost mid = b@;
    proof {
        assert(src@.take(n as int) =~= src@);
        lemma_seq_value_split(mid, (i + n) as int);
        lemma_seq_value_split(orig, (i + n) as int);
        assert(mid.skip((i + n) as int) =~= orig.skip((i + n) as int));
    }
    let r = add_word_at(b, i + n, carry);
    r
}

/// The schoolbook product of two word slices, in a fresh `la + lb` word
/// buffer.
pub fn multiply(a: &[Word], b: &[Word]) -> (r: Buffer)
    requires
        a@.len() + b@.len() <= crate::buffer::MAX_CAPACITY,
        a@.len() >= 1,
        b@.len() >= 1,
    ensures
        r.wf(),
        r@.len() == a@.len() + b@.len(),
        r.value() == seq_value(a@) * seq_value(b@),
{
    let la = a.len();
    let lb = b.len();
    let mut res = Buffer::allocate(la + lb);
    res.push_zeros(la + lb);
    proof {
        lemma_zero_prefix_value(res@);
        assert(b@.take(0).len() == 0);
        assert(seq_value(b@.take(0)) == 0);
        vstd::arithmetic::mul::lemma_mul_basics(seq_value(a@) as int);
    }
    let mut j: usize = 0;
    while j < lb
        invariant
            j <= lb,
            la == a@.len(),
            lb == b@.len(),
            la >= 1,
            lb >= 1,
            la + lb <= crate::buffer::MAX_CAPACITY,
            res.wf(),
            res@.len() == la + lb,
            res.value() == seq_value(a@) * seq_value(b@.take(j as int)),
        decreases lb - j,
    {
        let ghost pre_value = res.value();
        let bj = b[j];
        let over = add_mul_word_at(&mut res, j, bj, a);
        proof {
            let va = seq_value(a@) as int;
            let tj = seq_value(b@.take(j as int)) as int;
            let p = pow2(64 * j as nat) as int;
            lemma_seq_value_take_succ(b@, j as int);
            // a * take(j+1) == a * take(j) + (bj * a) * 2^(64 j)
            assert(va * seq_value(b@.take(j + 1)) == va * tj + (bj as int * va) * p) by {
                vstd::arithmetic::mul::lemma_mul_is_distributive_add(va, tj, bj as int * p);
                vstd::arithmetic::mul::lemma_mul_is_associative(va, bj as int, p);
                lemma_mul_is_commutative(va, bj as int);
            }
            // the running value stays under the overflow weight
            lemma_seq_value_bound(a@);
            lemma_seq_value_bound(b@);
            crate::math::lemma_seq_value_take_le(b@, j + 1);
            lemma_mul_is_commutative(va, seq_value(b@.take(j + 1)) as int);
            lemma_mul_inequality(
                seq_value(b@.take(j + 1)) as int,
                seq_value(b@) as int,
                va,
            );
            lemma_mul_is_commutative(va, seq_value(b@) as int);
            crate::math::lemma_mul_bound_lt(
                va,
                pow2(64 * la as nat) as int,
                seq_value(b@) as int,
                pow2(64 * lb as nat) as int,
            );
            lemma_pow2_adds(64 * la as nat, 64 * lb as nat);
            if over {
                assert(false);
            }
        }
        j += 1;
    }
    proof {
        assert(b@.take(lb as int) =~= b@);
    }
    res
}

/// An all-zero buffer denotes zero.
proof fn lemma_zero_prefix_value(s: Seq<Word>)
    requires
        forall|j: int| 0 <= j < s.len() ==> s[j] == 0,
    ensures
        seq_value(s) == 0,
    decreases s.len(),
{
    if s.len() > 0 {
        lemma_zero_prefix_value(s.drop_last());
    }
}

} // verus!
