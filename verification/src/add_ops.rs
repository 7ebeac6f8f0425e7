//! Addition and subtraction kernels and the operations built on them.
//!
//! The kernels mutate a [`Buffer`] in place and return the final carry or
//! borrow; each contract equates the new buffer value (plus the carry shifted
//! past the top) with the old value and the addend.

use vstd::prelude::*;
use vstd::arithmetic::power2::{pow2, lemma_pow2_adds, lemma_pow2_pos};
use crate::buffer::Buffer;
use crate::math::{
    seq_value, lemma_seq_value_take_succ, lemma_seq_value_take_all, lemma_seq_value_bound,
    lemma_seq_value_split, lemma_shift_comb,
};
use crate::primitive::{Word, DoubleWord, word_base, split_dword, lemma_word_base, DWORD_BASE};

verus! {

/// The carry/borrow weight `2^(64n)` for a buffer of `n` words.
pub open spec fn top_weight(n: nat) -> nat {
    pow2(64 * n)
}

/// `b += w * 2^(64 i)`, rippling the carry; returns the carry past the top.
///
/// When `i` equals the length (an empty tail), `w` itself must be a carry bit.
pub fn add_word_at(b: &mut Buffer, i: usize, w: Word) -> (r: bool)
    requires
        old(b).wf(),
        i <= old(b)@.len(),
        i < old(b)@.len() || w <= 1,
    ensures
        final(b).wf(),
        final(b)@.len() == old(b)@.len(),
        final(b).capacity == old(b).capacity,
        seq_value(final(b)@) + (if r {
            1nat
        } else {
            0nat
        }) * top_weight(old(b)@.len() as nat) == seq_value(old(b)@) + w * pow2(64 * i as nat),
{
    let ghost orig = b@;
    let n = b.len();
    let mut carry: Word = w;
    let mut j: usize = i;
    while j < n && carry != 0
        invariant
            i <= j <= n,
            n == b@.len(),
            b@.len() == orig.len(),
            b.capacity == old(b).capacity,
            b.wf(),
            j > i ==> carry <= 1,
            j == i ==> carry == w,
            forall|k: int| j <= k < n ==> b@[k] == orig[k],
            seq_value(b@.take(j as int)) + carry * pow2(64 * j as nat) == seq_value(
                orig.take(j as int),
            ) + w * pow2(64 * i as nat),
        decreases n - j,
    {
        let ghost pre = b@;
        let bj = b.get(j);
        proof {
            assert(bj == orig[j as int]);
        }
        let t: u128 = bj as u128 + carry as u128;
        let (lo, hi) = split_dword(t);
        b.set(j, lo);
        proof {
            lemma_word_base();
            assert(hi <= 1);
            assert(b@.take(j as int) =~= pre.take(j as int));
            lemma_seq_value_take_succ(b@, j as int);
            lemma_seq_value_take_succ(orig, j as int);
            assert(b@[j as int] == lo);
            lemma_shift_comb(lo as int, hi as int, bj as int + carry as int, j as nat);
            crate::math::lemma_mul_distribute_add2(
                bj as int,
                carry as int,
                pow2(64 * j as nat) as int,
            );
        }
        carry = hi;
        j += 1;
    }
    proof {
        if j == n {
            lemma_seq_value_take_all(b@);
            lemma_seq_value_take_all(orig);
        } else {
            lemma_seq_value_split(b@, j as int);
            lemma_seq_value_split(orig, j as int);
            assert(b@.skip(j as int) =~= orig.skip(j as int));
        }
    }
    carry != 0
}

/// `b += src`, word by word, rippling the final carry; returns the carry past
/// the top.
pub fn add_in_place(b: &mut Buffer, src: &[Word]) -> (r: bool)
    requires
        old(b).wf(),
        src@.len() <= old(b)@.len(),
    ensures
        final(b).wf(),
        final(b)@.len() == old(b)@.len(),
        final(b).capacity == old(b).capacity,
        seq_value(final(b)@) + (if r {
            1nat
        } else {
            0nat
        }) * top_weight(old(b)@.len() as nat) == seq_value(old(b)@) + seq_value(src@),
{
    let ghost orig = b@;
    let m = src.len();
    let mut carry: Word = 0;
    let mut j: usize = 0;
    while j < m
        invariant
            j <= m,
            m == src@.len(),
            m <= b@.len(),
            b@.len() == orig.len(),
            b.capacity == old(b).capacity,
            b.wf(),
            carry <= 1,
            forall|k: int| j <= k < b@.len() ==> b@[k] == orig[k],
            seq_value(b@.take(j as int)) + carry * pow2(64 * j as nat) == seq_value(
                orig.take(j as int),
            ) + seq_value(src@.take(j as int)),
        decreases m - j,
    {
        let ghost pre = b@;
        let bj = b.get(j);
        proof {
            assert(bj == orig[j as int]);
        }
        let sj = src[j];
        let t: u128 = bj as u128 + sj as u128 + carry as u128;
        let (lo, hi) = split_dword(t);
        b.set(j, lo);
        proof {
            lemma_word_base();
            assert(hi <= 1);
            assert(b@.take(j as int) =~= pre.take(j as int));
            lemma_seq_value_take_succ(b@, j as int);
            lemma_seq_value_take_succ(orig, j as int);
            lemma_seq_value_take_succ(src@, j as int);
            assert(b@[j as int] == lo);
            lemma_shift_comb(lo as int, hi as int, bj as int + sj as int + carry as int, j as nat);
            crate::math::lemma_mul_distribute_add2(
                bj as int + sj as int,
                carry as int,
                pow2(64 * j as nat) as int,
            );
            crate::math::lemma_mul_distribute_add2(
                bj as int,
                sj as int,
                pow2(64 * j as nat) as int,
            );
        }
        carry = hi;
        j += 1;
    }
    let ghost mid = b@;
    proof {
        assert(src@.take(m as int) =~= src@);
        lemma_seq_value_split(mid, m as int);
        lemma_seq_value_split(orig, m as int);
        assert(mid.skip(m as int) =~= orig.skip(m as int));
    }
    let r = add_word_at(b, m, carry);
    r
}

/// `b -= w * 2^(64 i)`, rippling the borrow; returns the borrow past the top.
pub fn sub_word_at(b: &mut Buffer, i: usize, w: Word) -> (r: bool)
    requires
        old(b).wf(),
        i <= old(b)@.len(),
        i < old(b)@.len() || w <= 1,
    ensures
        final(b).wf(),
        final(b)@.len() == old(b)@.len(),
        final(b).capacity == old(b).capacity,
        seq_value(final(b)@) as int - (if r {
            1int
        } else {
            0int
        }) * top_weight(old(b)@.len() as nat) == seq_value(old(b)@) - w * pow2(64 * i as nat),
{
    let ghost orig = b@;
    let n = b.len();
    let mut borrow: Word = w;
    let mut j: usize = i;
    while j < n && borrow != 0
        invariant
            i <= j <= n,
            n == b@.len(),
            b@.len() == orig.len(),
            b.capacity == old(b).capacity,
            b.wf(),
            j > i ==> borrow <= 1,
            j == i ==> borrow == w,
            forall|k: int| j <= k < n ==> b@[k] == orig[k],
            seq_value(b@.take(j as int)) as int - borrow * pow2(64 * j as nat) == seq_value(
                orig.take(j as int),
            ) as int - w * pow2(64 * i as nat),
        decreases n - j,
    {
        let ghost pre = b@;
        let bj = b.get(j);
        proof {
            assert(bj == orig[j as int]);
            lemma_word_base();
        }
        // t = 2^64 + b[j] - borrow; the top bit of t decides the next borrow
        let t: u128 = DWORD_BASE + bj as u128 - borrow as u128;
        let (lo, hi) = split_dword(t);
        b.set(j, lo);
        proof {
            assert(hi <= 1);
            assert(b@.take(j as int) =~= pre.take(j as int));
            lemma_seq_value_take_succ(b@, j as int);
            lemma_seq_value_take_succ(orig, j as int);
            assert(b@[j as int] == lo);
            // lo - (1 - hi)*2^64 == b[j] - borrow
            lemma_shift_comb(lo as int, (hi as int) - 1, bj as int - borrow as int, j as nat);
            crate::math::lemma_mul_distribute_sub2(
                bj as int,
                borrow as int,
                pow2(64 * j as nat) as int,
            );
            crate::math::lemma_mul_distribute_sub2(1, hi as int, pow2(64 * (j + 1) as nat) as int);
            crate::math::lemma_mul_distribute_sub2(hi as int, 1, pow2(64 * (j + 1) as nat) as int);
        }
        borrow = 1 - hi;
        j += 1;
    }
    proof {
        if j == n {
            lemma_seq_value_take_all(b@);
            lemma_seq_value_take_all(orig);
        } else {
            lemma_seq_value_split(b@, j as int);
            lemma_seq_value_split(orig, j as int);
            assert(b@.skip(j as int) =~= orig.skip(j as int));
        }
    }
    borrow != 0
}

/// `b -= src`, word by word, rippling the borrow; returns the borrow past the
/// top.
pub fn sub_in_place(b: &mut Buffer, src: &[Word]) -> (r: bool)
    requires
        old(b).wf(),
        src@.len() <= old(b)@.len(),
    ensures
        final(b).wf(),
        final(b)@.len() == old(b)@.len(),
        final(b).capacity == old(b).capacity,
        seq_value(final(b)@) as int - (if r {
            1int
        } else {
            0int
        }) * top_weight(old(b)@.len() as nat) == seq_value(old(b)@) - seq_value(src@),
{
    let ghost orig = b@;
    let m = src.len();
    let mut borrow: Word = 0;
    let mut j: usize = 0;
    while j < m
        invariant
            j <= m,
            m == src@.len(),
            m <= b@.len(),
            b@.len() == orig.len(),
            b.capacity == old(b).capacity,
            b.wf(),
            borrow <= 1,
            forall|k: int| j <= k < b@.len() ==> b@[k] == orig[k],
            seq_value(b@.take(j as int)) as int - borrow * pow2(64 * j as nat) == seq_value(
                orig.take(j as int),
            ) as int - seq_value(src@.take(j as int)),
        decreases m - j,
    {
        let ghost pre = b@;
        let bj = b.get(j);
        proof {
            assert(bj == orig[j as int]);
            lemma_word_base();
        }
        let sj = src[j];
        let t: u128 = DWORD_BASE + bj as u128 - sj as u128 - borrow as u128;
        let (lo, hi) = split_dword(t);
        b.set(j, lo);
        proof {
            assert(hi <= 1);
            assert(b@.take(j as int) =~= pre.take(j as int));
            lemma_seq_value_take_succ(b@, j as int);
            lemma_seq_value_take_succ(orig, j as int);
            lemma_seq_value_take_succ(src@, j as int);
            assert(b@[j as int] == lo);
            lemma_shift_comb(
                lo as int,
                (hi as int) - 1,
                bj as int - sj as int - borrow as int,
                j as nat,
            );
            crate::math::lemma_mul_distribute_sub3(
                bj as int,
                sj as int,
                borrow as int,
                pow2(64 * j as nat) as int,
            );
            crate::math::lemma_mul_distribute_sub2(1, hi as int, pow2(64 * (j + 1) as nat) as int);
            crate::math::lemma_mul_distribute_sub2(hi as int, 1, pow2(64 * (j + 1) as nat) as int);
        }
        borrow = 1 - hi;
        j += 1;
    }
    let ghost mid = b@;
    proof {
        assert(src@.take(m as int) =~= src@);
        lemma_seq_value_split(mid, m as int);
        lemma_seq_value_split(orig, m as int);
        assert(mid.skip(m as int) =~= orig.skip(m as int));
    }
    let r = sub_word_at(b, m, borrow);
    r
}

/// `b := lhs - b` over the common length; returns the borrow past the top.
pub fn sub_in_place_swap(lhs: &[Word], b: &mut Buffer) -> (r: bool)
    requires
        old(b).wf(),
        lhs@.len() == old(b)@.len(),
    ensures
        final(b).wf(),
        final(b)@.len() == old(b)@.len(),
        final(b).capacity == old(b).capacity,
        seq_value(final(b)@) as int - (if r {
            1int
        } else {
            0int
        }) * top_weight(old(b)@.len() as nat) == seq_value(lhs@) - seq_value(old(b)@),
{
    let ghost orig = b@;
    let m = b.len();
    let mut borrow: Word = 0;
    let mut j: usize = 0;
    while j < m
        invariant
            j <= m,
            m == b@.len(),
            m == lhs@.len(),
            b@.len() == orig.len(),
            b.capacity == old(b).capacity,
            b.wf(),
            borrow <= 1,
            forall|k: int| j <= k < b@.len() ==> b@[k] == orig[k],
            seq_value(b@.take(j as int)) as int - borrow * pow2(64 * j as nat) == seq_value(
                lhs@.take(j as int),
            ) as int - seq_value(orig.take(j as int)),
        decreases m - j,
    {
        let ghost pre = b@;
        let bj = b.get(j);
        proof {
            assert(bj == orig[j as int]);
            lemma_word_base();
        }
        let lj = lhs[j];
        let t: u128 = DWORD_BASE + lj as u128 - bj as u128 - borrow as u128;
        let (lo, hi) = split_dword(t);
        b.set(j, lo);
        proof {
            assert(hi <= 1);
            assert(b@.take(j as int) =~= pre.take(j as int));
            lemma_seq_value_take_succ(b@, j as int);
            lemma_seq_value_take_succ(orig, j as int);
            lemma_seq_value_take_succ(lhs@, j as int);
            assert(b@[j as int] == lo);
            lemma_shift_comb(
                lo as int,
                (hi as int) - 1,
                lj as int - bj as int - borrow as int,
                j as nat,
            );
            crate::math::lemma_mul_distribute_sub3(
                lj as int,
                bj as int,
                borrow as int,
                pow2(64 * j as nat) as int,
            );
            crate::math::lemma_mul_distribute_sub2(1, hi as int, pow2(64 * (j + 1) as nat) as int);
            crate::math::lemma_mul_distribute_sub2(hi as int, 1, pow2(64 * (j + 1) as nat) as int);
        }
        borrow = 1 - hi;
        j += 1;
    }
    proof {
        assert(b@.take(m as int) =~= b@);
        assert(lhs@.take(m as int) =~= lhs@);
        assert(orig.take(m as int) =~= orig);
    }
    borrow != 0
}

/// Incrementing and decrementing tagged magnitudes by one.
impl<'a> crate::repr::TypedReprRef<'a> {
    /// The magnitude plus one.
    pub fn add_one(self) -> (r: crate::repr::Repr)
        requires
            self.wf(),
            self.spec_words() + 8 <= crate::buffer::MAX_CAPACITY,
        ensures
            r.wf(),
            r.value() == self.value() + 1,
            r.sign == crate::sign::Sign::Positive,
    {
        let u = crate::log_ops::ref_to_ubig(self);
        proof {
            crate::ubig::lemma_value_bound(&u);
        }
        let one = crate::ubig::UBig::one();
        u.add(&one).0
    }

    /// The magnitude minus one; it must be positive.
    pub fn sub_one(self) -> (r: crate::repr::Repr)
        requires
            self.wf(),
            self.value() >= 1,
            self.spec_words() + 8 <= crate::buffer::MAX_CAPACITY,
        ensures
            r.wf(),
            r.value() == self.value() - 1,
            r.sign == crate::sign::Sign::Positive,
    {
        let u = crate::log_ops::ref_to_ubig(self);
        let one = crate::ubig::UBig::one();
        u.sub(&one).0
    }
}

impl crate::repr::TypedRepr {
    /// The magnitude plus one.
    pub fn add_one(self) -> (r: crate::repr::Repr)
        requires
            self.wf(),
            self.spec_words() + 8 <= crate::buffer::MAX_CAPACITY,
        ensures
            r.wf(),
            r.value() == self.value() + 1,
            r.sign == crate::sign::Sign::Positive,
    {
        let u = crate::ubig::UBig(
            crate::repr::Repr { sign: crate::sign::Sign::Positive, magnitude: self },
        );
        proof {
            crate::ubig::lemma_value_bound(&u);
            lemma_words_cap(&u);
        }
        let one = crate::ubig::UBig::one();
        u.add(&one).0
    }

    /// The magnitude minus one; it must be positive.
    pub fn sub_one(self) -> (r: crate::repr::Repr)
        requires
            self.wf(),
            self.value() >= 1,
            self.spec_words() + 8 <= crate::buffer::MAX_CAPACITY,
        ensures
            r.wf(),
            r.value() == self.value() - 1,
            r.sign == crate::sign::Sign::Positive,
    {
        let u = crate::ubig::UBig(
            crate::repr::Repr { sign: crate::sign::Sign::Positive, magnitude: self },
        );
        proof {
            lemma_words_cap(&u);
        }
        let one = crate::ubig::UBig::one();
        u.sub(&one).0
    }
}

/// A magnitude's stored words bound its representation length.
proof fn lemma_words_cap(u: &crate::ubig::UBig)
    requires
        u.wf(),
        u.0.magnitude.spec_words() + 8 <= crate::buffer::MAX_CAPACITY,
    ensures
        u.spec_len() + 2 <= crate::buffer::MAX_CAPACITY,
{
    match &u.0.magnitude {
        crate::repr::TypedRepr::Small(_) => {},
        crate::repr::TypedRepr::Large(_) => {},
    }
}

} // verus!
