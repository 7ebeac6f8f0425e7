//! Integer square and cube roots with remainders.
//!
//! Both roots are found by restoring binary search on the root's bits; the
//! loop invariant brackets the input between consecutive powers.

use vstd::prelude::*;
use vstd::arithmetic::power2::{pow2, lemma_pow2_adds, lemma_pow2_pos,
    lemma_pow2_strictly_increases, lemma2_to64};
use vstd::arithmetic::mul::{lemma_mul_inequality, lemma_mul_is_commutative,
    lemma_mul_is_associative, lemma_mul_basics};
use crate::buffer::{Buffer, MAX_CAPACITY};
use crate::math::seq_value;
use crate::primitive::Word;
use crate::repr::Repr;
use crate::ubig::{UBig, lemma_value_bound, lemma_len_bounded};

verus! {

/// Squares are monotone.
proof fn lemma_sq_mono(a: nat, b: nat)
    requires
        a <= b,
    ensures
        a * a <= b * b,
{
    lemma_mul_inequality(a as int, b as int, a as int);
    lemma_mul_is_commutative(a as int, b as int);
    lemma_mul_inequality(a as int, b as int, b as int);
}

impl UBig {
    /// The integer square root and the remainder: `self == r^2 + e` with
    /// `e <= 2 r`.
    pub fn sqrt_rem(&self) -> (res: (UBig, UBig))
        requires
            self.wf(),
            2 * self.spec_len() + 8 <= MAX_CAPACITY,
        ensures
            res.0.wf(),
            res.1.wf(),
            self.value() == res.0.value() * res.0.value() + res.1.value(),
            res.1.value() <= 2 * res.0.value(),
    {
        let ghost nv = self.value();
        let ghost lx = self.spec_len();
        let bl = self.bit_len();
        let i0 = bl / 2 + 1;
        let mut r = UBig::zero();
        let mut i: usize = i0;
        proof {
            lemma_value_bound(self);
            // n < 2^bl <= 2^(2 i0) == (2^i0)^2
            assert(bl < 2 * i0);
            lemma_pow2_strictly_increases(bl as nat, (2 * i0) as nat);
            lemma_pow2_adds(i0 as nat, i0 as nat);
            lemma_pow2_pos(i0 as nat);
            // i0 is within the bit budget of the words
            assert(bl <= 64 * lx);
            vstd::arithmetic::div_mod::lemma_div_is_ordered(bl as int, 64 * lx as int, 2);
        }
        while i > 0
            invariant
                r.wf(),
                self.wf(),
                nv == self.value(),
                lx == self.spec_len(),
                lx >= 1,
                2 * lx + 8 <= MAX_CAPACITY,
                i <= i0,
                i0 <= 32 * lx + 1,
                r.value() * r.value() <= nv,
                nv < (r.value() + pow2(i as nat)) * (r.value() + pow2(i as nat)),
                r.value() + pow2(i as nat) <= pow2(i0 as nat),
            decreases i,
        {
            i -= 1;
            proof {
                lemma_pow2_pos(i as nat);
                lemma_pow2_pos((i + 1) as nat);
                lemma_pow2_pos(i0 as nat);
                lemma_pow2_adds(i as nat, 1);
                lemma2_to64();
                lemma_pow2_strictly_increases(i0 as nat, (i0 + 1) as nat);
                // bounds to size the shift and the additions
                lemma_root_len(&r, i0 as nat, lx);
                vstd::arithmetic::div_mod::lemma_div_is_ordered(i as int, 64 * lx as int, 64);
                lemma_div_mul_cancel(lx);
            }
            let p = UBig::one().shl(i);
            proof {
                vstd::arithmetic::mul::lemma_mul_basics(pow2(i as nat) as int);
                assert(p.value() == pow2(i as nat));
                if (i as nat) < 64 * (lx + 1) {
                    lemma_pow2_strictly_increases(i as nat, 64 * (lx + 1));
                }
                lemma_len_bounded(&p, lx + 1);
            }
            let c = r.add(&p);
            proof {
                lemma_root_len_c(&c, i0 as nat, lx);
            }
            let csq = c.mul(&c);
            let cmp = csq.cmp(self);
            if cmp <= 0 {
                proof {
                    // n < (r + 2^(i+1))^2 == (c + 2^i)^2
                    assert(r.value() + pow2((i + 1) as nat) == c.value() + pow2(i as nat));
                }
                r = c;
            } else {
                proof {
                    assert(nv < (r.value() + pow2(i as nat)) * (r.value() + pow2(i as nat)));
                }
            }
        }
        proof {
            lemma2_to64();
            assert(pow2(0) == 1);
            // n < (r+1)^2 == r^2 + 2r + 1
            let rv = r.value() as int;
            assert((rv + 1) * (rv + 1) == rv * rv + 2 * rv + 1) by {
                crate::math::lemma_mul_distribute_add2(rv, 1, rv + 1);
                vstd::arithmetic::mul::lemma_mul_is_distributive_add(rv, rv, 1);
                lemma_mul_basics(rv);
                lemma_mul_basics(rv + 1);
            }
        }
        proof {
            lemma_pow2_pos(i0 as nat);
            lemma_pow2_strictly_increases(i0 as nat, (i0 + 1) as nat);
            lemma_root_len(&r, i0 as nat, lx);
        }
        let sq = r.mul(&r);
        let e = self.sub(&sq);
        (r, e)
    }

    /// The integer cube root and the remainder: `self == r^3 + e` with
    /// `e <= 3 r (r + 1)`.
    pub fn cbrt_rem(&self) -> (res: (UBig, UBig))
        requires
            self.wf(),
            3 * self.spec_len() + 8 <= MAX_CAPACITY,
        ensures
            res.0.wf(),
            res.1.wf(),
            self.value() == res.0.value() * res.0.value() * res.0.value() + res.1.value(),
            res.1.value() <= 3 * (res.0.value() * (res.0.value() + 1)),
    {
        let ghost nv = self.value();
        let ghost lx = self.spec_len();
        let bl = self.bit_len();
        let i0 = bl / 3 + 1;
        let mut r = UBig::zero();
        let mut i: usize = i0;
        proof {
            lemma_value_bound(self);
            assert(bl < 3 * i0);
            lemma_pow2_strictly_increases(bl as nat, (3 * i0) as nat);
            lemma_pow2_adds(i0 as nat, i0 as nat);
            lemma_pow2_adds((2 * i0) as nat, i0 as nat);
            lemma_pow2_pos(i0 as nat);
            assert(bl <= 64 * lx);
            vstd::arithmetic::div_mod::lemma_div_is_ordered(bl as int, 64 * lx as int, 3);
            vstd::arithmetic::div_mod::lemma_div_is_ordered_by_denominator(64 * lx as int, 2, 3);
        }
        while i > 0
            invariant
                r.wf(),
                self.wf(),
                nv == self.value(),
                lx == self.spec_len(),
                lx >= 1,
                3 * lx + 8 <= MAX_CAPACITY,
                i <= i0,
                i0 <= 32 * lx + 1,
                r.value() * r.value() * r.value() <= nv,
                nv < (r.value() + pow2(i as nat)) * (r.value() + pow2(i as nat)) * (r.value()
                    + pow2(i as nat)),
                r.value() + pow2(i as nat) <= pow2(i0 as nat),
            decreases i,
        {
            i -= 1;
            proof {
                lemma_pow2_pos(i as nat);
                lemma_pow2_pos((i + 1) as nat);
                lemma_pow2_pos(i0 as nat);
                lemma_pow2_adds(i as nat, 1);
                lemma2_to64();
                lemma_pow2_strictly_increases(i0 as nat, (i0 + 1) as nat);
                lemma_root_len(&r, i0 as nat, lx);
                vstd::arithmetic::div_mod::lemma_div_is_ordered(i as int, 64 * lx as int, 64);
                lemma_div_mul_cancel(lx);
            }
            let p = UBig::one().shl(i);
            proof {
                vstd::arithmetic::mul::lemma_mul_basics(pow2(i as nat) as int);
                assert(p.value() == pow2(i as nat));
                if (i as nat) < 64 * (lx + 1) {
                    lemma_pow2_strictly_increases(i as nat, 64 * (lx + 1));
                }
                lemma_len_bounded(&p, lx + 1);
            }
            let c = r.add(&p);
            proof {
                lemma_root_len_c(&c, i0 as nat, lx);
                lemma_sq_len(&c, lx);
            }
            let csq = c.mul(&c);
            proof {
                lemma_len_bounded(&csq, 2 * lx + 2);
            }
            let ccube = csq.mul(&c);
            let cmp = ccube.cmp(self);
            if cmp <= 0 {
                proof {
                    assert(r.value() + pow2((i + 1) as nat) == c.value() + pow2(i as nat));
                }
                r = c;
            }
        }
        proof {
            lemma2_to64();
            assert(pow2(0) == 1);
            // n < (r+1)^3 == r^3 + 3 r (r+1) + 1
            let rv = r.value() as int;
            assert((rv + 1) * (rv + 1) * (rv + 1) == rv * rv * rv + 3 * (rv * (rv + 1)) + 1)
                by (nonlinear_arith);
        }
        proof {
            lemma_pow2_pos(i0 as nat);
            lemma_pow2_strictly_increases(i0 as nat, (i0 + 1) as nat);
            lemma_root_len(&r, i0 as nat, lx);
        }
        let sq = r.mul(&r);
        proof {
            lemma_sq_len(&r, lx);
            lemma_len_bounded(&sq, 2 * lx + 2);
        }
        let cube = sq.mul(&r);
        let e = self.sub(&cube);
        (r, e)
    }
}

/// The running root stays within its word budget.
proof fn lemma_root_len(r: &UBig, i0: nat, lx: nat)
    requires
        r.wf(),
        lx >= 1,
        r.value() < pow2(i0 + 1),
        i0 <= 32 * lx + 1,
    ensures
        r.spec_len() <= lx + 1,
{
    assert(pow2(i0 + 1) <= pow2(64 * (lx + 1))) by {
        if i0 + 1 < 64 * (lx + 1) {
            lemma_pow2_strictly_increases(i0 + 1, 64 * (lx + 1));
        }
    }
    lemma_len_bounded(r, lx + 1);
}

/// A candidate bounded by `2^i0` fits the same budget.
proof fn lemma_root_len_c(c: &UBig, i0: nat, lx: nat)
    requires
        c.wf(),
        lx >= 1,
        c.value() <= pow2(i0),
        i0 <= 32 * lx + 1,
    ensures
        c.spec_len() <= lx + 1,
{
    lemma_pow2_pos(i0);
    assert(pow2(i0) < pow2(64 * (lx + 1))) by {
        lemma_pow2_strictly_increases(i0, 64 * (lx + 1));
    }
    lemma_len_bounded(c, lx + 1);
}

/// A square of a bounded value fits twice the budget.
proof fn lemma_sq_len(c: &UBig, lx: nat)
    requires
        c.wf(),
        lx >= 1,
        c.spec_len() <= lx + 1,
    ensures
        c.value() * c.value() < pow2(64 * (2 * lx + 2)),
{
    lemma_value_bound(c);
    assert(pow2(64 * c.spec_len()) <= pow2(64 * (lx + 1))) by {
        if 64 * c.spec_len() < 64 * (lx + 1) {
            lemma_pow2_strictly_increases(64 * c.spec_len(), 64 * (lx + 1));
        }
    }
    crate::math::lemma_mul_bound_lt(
        c.value() as int,
        pow2(64 * (lx + 1)) as int,
        c.value() as int,
        pow2(64 * (lx + 1)) as int,
    );
    lemma_pow2_adds(64 * (lx + 1), 64 * (lx + 1));
}

/// `(64 lx) / 64 == lx`.
proof fn lemma_div_mul_cancel(lx: nat)
    ensures
        (64 * lx) as int / 64 == lx,
{
    vstd::arithmetic::div_mod::lemma_fundamental_div_mod_converse(64 * lx as int, 64, lx as int, 0);
}

/// Scratch space needed by the in-place square root; none is required.
pub fn memory_requirement_sqrt_rem(n: usize) -> (r: usize)
    ensures
        r == 0,
{
    0
}

/// Square root of a `2n`-word buffer: the root lands in `b`, the remainder in
/// the low half of `a` (the high half is zeroed) with the carry returned.
pub fn sqrt_rem(b: &mut Buffer, a: &mut Buffer) -> (c: bool)
    requires
        old(b).wf(),
        old(a).wf(),
        old(a)@.len() == 2 * old(b)@.len(),
        old(b)@.len() >= 1,
        2 * old(a)@.len() + 8 <= MAX_CAPACITY,
    ensures
        final(b).wf(),
        final(a).wf(),
        final(b)@.len() == old(b)@.len(),
        final(a)@.len() == old(a)@.len(),
        seq_value(old(a)@) == seq_value(final(b)@) * seq_value(final(b)@) + seq_value(
            final(a)@.take(old(b)@.len() as int),
        ) + (if c {
            1nat
        } else {
            0nat
        }) * pow2(64 * old(b)@.len() as nat),
        seq_value(final(a)@.take(old(b)@.len() as int)) + (if c {
            1nat
        } else {
            0nat
        }) * pow2(64 * old(b)@.len() as nat) <= 2 * seq_value(final(b)@),
{
    let ghost n_val = seq_value(old(a)@);
    let n = b.len();
    let x = UBig(Repr::from_buffer(a.clone()));
    proof {
        crate::math::lemma_seq_value_bound(old(a)@);
        assert(pow2(64 * old(a)@.len()) <= pow2(64 * (2 * n) as nat));
        lemma_len_bounded(&x, (2 * n) as nat);
    }
    let (root, rem) = x.sqrt_rem();
    proof {
        lemma_root_words(&root, &rem, n_val, n as nat);
        // 64 * n stays within usize
        assert(usize::MAX >= 0xffffffff);
        vstd::arithmetic::div_mod::lemma_div_is_ordered(0xffffffff, usize::MAX as int, 64);
        vstd::arithmetic::div_mod::lemma_fundamental_div_mod(usize::MAX as int, 64);
    }
    write_padded(&root, b);
    // split the remainder into its low words and the carry bit
    let carry = rem.bit(64 * n);
    let low = rem.low_words(n);
    write_low_half(&low, a, n);
    proof {
        lemma_carry_split(&rem, &low, carry, n as nat);
    }
    carry
}

/// The remainder splits into its low words and one carry bit.
proof fn lemma_carry_split(rem: &UBig, low: &UBig, carry: bool, n: nat)
    requires
        rem.wf(),
        low.wf(),
        rem.value() < pow2(64 * n + 1),
        low.value() as int == rem.value() as int % pow2(64 * n) as int,
        carry == crate::bits::nth_bit(rem.value(), 64 * n),
    ensures
        rem.value() == low.value() + (if carry {
            1nat
        } else {
            0nat
        }) * pow2(64 * n),
{
    let p = pow2(64 * n) as int;
    lemma_pow2_pos(64 * n);
    lemma_pow2_adds(64 * n, 1);
    lemma2_to64();
    vstd::arithmetic::div_mod::lemma_fundamental_div_mod(rem.value() as int, p);
    let q = rem.value() as int / p;
    assert(q < 2) by {
        vstd::arithmetic::div_mod::lemma_multiply_divide_lt(rem.value() as int, p, 2);
        lemma_mul_is_commutative(p, 2);
    }
    assert(q >= 0) by {
        vstd::arithmetic::div_mod::lemma_div_pos_is_pos(rem.value() as int, p);
    }
    vstd::arithmetic::div_mod::lemma_small_mod(q as nat, 2);
    lemma_mul_is_commutative(p, q);
}

/// Square root of a four-word buffer with a two-word root.
pub fn sqrt_rem_42(b: &mut Buffer, a: &mut Buffer) -> (c: bool)
    requires
        old(b).wf(),
        old(a).wf(),
        old(a)@.len() == 4,
        old(b)@.len() == 2,
    ensures
        final(b).wf(),
        final(a).wf(),
        final(b)@.len() == 2,
        final(a)@.len() == 4,
        seq_value(old(a)@) == seq_value(final(b)@) * seq_value(final(b)@) + seq_value(
            final(a)@.take(2),
        ) + (if c {
            1nat
        } else {
            0nat
        }) * pow2(128),
        seq_value(final(a)@.take(2)) + (if c {
            1nat
        } else {
            0nat
        }) * pow2(128) <= 2 * seq_value(final(b)@),
{
    proof {
        lemma_big_enough();
    }
    sqrt_rem(b, a)
}

/// The capacity limit leaves plenty of room for four words.
proof fn lemma_big_enough()
    ensures
        16 <= MAX_CAPACITY,
{
    assert(usize::MAX >= 0xffffffff);
    vstd::arithmetic::div_mod::lemma_div_is_ordered(0xffffffff, usize::MAX as int, 64);
}

impl UBig {
    /// The low `n` words of the value, as a number below `2^(64 n)`.
    pub fn low_words(&self, n: usize) -> (r: UBig)
        requires
            self.wf(),
        ensures
            r.wf(),
            r.value() as int == self.value() as int % pow2(64 * n as nat) as int,
            r.value() < pow2(64 * n as nat),
    {
        let ghost v = self.value();
        let mut buf = self.to_buffer();
        let ghost orig = buf@;
        proof {
            lemma_pow2_pos(64 * n as nat);
        }
        if buf.len() > n {
            buf.truncate(n);
            proof {
                crate::math::lemma_seq_value_split(orig, n as int);
            }
        }
        let u = UBig(Repr::from_buffer(buf));
        proof {
            crate::math::lemma_seq_value_bound(buf@);
            assert(pow2(64 * buf@.len()) <= pow2(64 * n as nat)) by {
                if 64 * buf@.len() < 64 * n as nat {
                    lemma_pow2_strictly_increases(64 * buf@.len(), 64 * n as nat);
                }
            }
            if orig.len() > n {
                crate::math::lemma_seq_value_bound(orig.take(n as int));
                assert(orig.take(n as int).len() == n);
                lemma_mul_is_commutative(
                    pow2(64 * n as nat) as int,
                    seq_value(orig.skip(n as int)) as int,
                );
                vstd::arithmetic::div_mod::lemma_fundamental_div_mod_converse(
                    v as int,
                    pow2(64 * n as nat) as int,
                    seq_value(orig.skip(n as int)) as int,
                    seq_value(orig.take(n as int)) as int,
                );
            } else {
                vstd::arithmetic::div_mod::lemma_small_mod(v, pow2(64 * n as nat));
            }
        }
        u
    }
}

/// Size facts about the root and remainder of a `2n`-word input.
proof fn lemma_root_words(root: &UBig, rem: &UBig, n_val: nat, n: nat)
    requires
        root.wf(),
        rem.wf(),
        n >= 1,
        n_val < pow2(64 * (2 * n)),
        n_val == root.value() * root.value() + rem.value(),
        rem.value() <= 2 * root.value(),
    ensures
        root.value() < pow2(64 * n),
        rem.value() < pow2(64 * n + 1),
{
    lemma_pow2_adds(64 * n, 64 * n);
    if root.value() >= pow2(64 * n) {
        lemma_sq_mono(pow2(64 * n), root.value());
        assert(false);
    }
    lemma_pow2_adds(64 * n, 1);
    lemma2_to64();
    assert(rem.value() <= 2 * root.value() < 2 * pow2(64 * n));
}

/// Write a value into a fixed-width little-endian buffer, padding with zeros.
fn write_padded(x: &UBig, dst: &mut Buffer)
    requires
        x.wf(),
        old(dst).wf(),
        x.value() < pow2(64 * old(dst)@.len() as nat),
    ensures
        final(dst).wf(),
        final(dst)@.len() == old(dst)@.len(),
        final(dst).capacity == old(dst).capacity,
        seq_value(final(dst)@) == x.value(),
{
    let xb = x.to_buffer();
    let n = dst.len();
    proof {
        crate::math::lemma_canonical_len_le(xb@, n as nat);
    }
    let m = xb.len();
    let mut i: usize = 0;
    while i < n
        invariant
            i <= n,
            n == dst@.len(),
            m == xb@.len(),
            m <= n,
            xb.wf(),
            seq_value(xb@) == x.value(),
            dst.wf(),
            dst@.len() == old(dst)@.len(),
            dst.capacity == old(dst).capacity,
            forall|j: int| 0 <= j < i && j < m ==> dst@[j] == xb@[j],
            forall|j: int| 0 <= j < i && j >= m ==> dst@[j] == 0,
        decreases n - i,
    {
        if i < m {
            let w = xb.get(i);
            dst.set(i, w);
        } else {
            dst.set(i, 0);
        }
        i += 1;
    }
    proof {
        crate::math::lemma_seq_value_pad(dst@, xb@);
    }
}

/// Write a value into the low half of a `2n`-word buffer and zero the rest.
fn write_low_half(x: &UBig, dst: &mut Buffer, n: usize)
    requires
        x.wf(),
        old(dst).wf(),
        old(dst)@.len() == 2 * n,
        x.value() < pow2(64 * n as nat),
    ensures
        final(dst).wf(),
        final(dst)@.len() == old(dst)@.len(),
        final(dst).capacity == old(dst).capacity,
        seq_value(final(dst)@.take(n as int)) == x.value(),
        seq_value(final(dst)@) == x.value(),
{
    let xb = x.to_buffer();
    let total = dst.len();
    proof {
        crate::math::lemma_canonical_len_le(xb@, n as nat);
    }
    let m = xb.len();
    let mut i: usize = 0;
    while i < total
        invariant
            i <= total,
            total == dst@.len(),
            m == xb@.len(),
            m <= n,
            n <= total,
            xb.wf(),
            seq_value(xb@) == x.value(),
            dst.wf(),
            dst@.len() == old(dst)@.len(),
            dst.capacity == old(dst).capacity,
            forall|j: int| 0 <= j < i && j < m ==> dst@[j] == xb@[j],
            forall|j: int| 0 <= j < i && j >= m ==> dst@[j] == 0,
        decreases total - i,
    {
        if i < m {
            let w = xb.get(i);
            dst.set(i, w);
        } else {
            dst.set(i, 0);
        }
        i += 1;
    }
    proof {
        crate::math::lemma_seq_value_pad(dst@, xb@);
        assert(forall|j: int| 0 <= j < m ==> dst@.take(n as int)[j] == xb@[j]);
        assert(forall|j: int| m <= j < n ==> dst@.take(n as int)[j] == 0);
        crate::math::lemma_seq_value_pad(dst@.take(n as int), xb@);
    }
}

} // verus!
