//! Truncated logarithm: largest power of the base not exceeding the value.

use vstd::prelude::*;
use vstd::arithmetic::power::{pow, lemma_pow_adds, lemma_pow0, lemma_pow1};
use vstd::arithmetic::power2::{pow2, lemma_pow2_adds, lemma_pow2_pos,
    lemma_pow2_strictly_increases};
use vstd::arithmetic::mul::{lemma_mul_inequality, lemma_mul_is_commutative, lemma_mul_basics};
use crate::buffer::MAX_CAPACITY;
use crate::repr::Repr;
use crate::repr::TypedReprRef;
use crate::ubig::{UBig, lemma_value_bound, lemma_len_bounded};
use crate::ibig::IBig;

verus! {

/// The floor logarithm with its power: `k` and `base^k` such that
/// `base^k <= x < base^(k+1)`.
pub fn log_with_power(x: &UBig, base: &UBig) -> (res: (usize, UBig))
    requires
        x.wf(),
        base.wf(),
        x.value() >= 1,
        base.value() >= 2,
        x.spec_len() + base.spec_len() + 4 <= MAX_CAPACITY,
    ensures
        res.1.wf(),
        res.1.value() == pow(base.value() as int, res.0 as nat),
        res.1.value() <= x.value(),
        x.value() < res.1.value() * base.value(),
{
    let ghost xv = x.value();
    let ghost bv = base.value();
    let ghost lx = x.spec_len();
    let mut k: usize = 0;
    let mut p = UBig::one();
    proof {
        lemma_pow0(bv as int);
        lemma_value_bound(x);
        lemma_value_bound(base);
        vstd::arithmetic::power2::lemma2_to64();
        assert(pow2(0) == 1);
    }
    loop
        invariant
            p.wf(),
            x.wf(),
            base.wf(),
            xv == x.value(),
            bv == base.value(),
            bv >= 2,
            lx == x.spec_len(),
            lx + base.spec_len() + 4 <= MAX_CAPACITY,
            xv < pow2(64 * lx),
            p.value() == pow(bv as int, k as nat),
            p.value() <= xv,
            pow2(k as nat) <= p.value(),
            k < 64 * lx,
        decreases xv - p.value(),
    {
        proof {
            lemma_len_bounded(&p, lx);
            lemma_value_bound(base);
        }
        let next = p.mul(base);
        proof {
            lemma_pow_adds(bv as int, k as nat, 1);
            lemma_pow1(bv as int);
            // the power at least doubles
            lemma_mul_inequality(2, bv as int, p.value() as int);
            lemma_mul_is_commutative(bv as int, p.value() as int);
            lemma_mul_is_commutative(2, p.value() as int);
            lemma_pow2_adds(k as nat, 1);
            vstd::arithmetic::power2::lemma2_to64();
            lemma_pow2_pos(k as nat);
            lemma_mul_inequality(1, p.value() as int, bv as int);
            lemma_mul_is_commutative(p.value() as int, bv as int);
        }
        let cmp = next.cmp(x);
        if cmp <= 0 {
            proof {
                // k + 1 stays within the bit budget
                if k + 1 >= 64 * lx {
                    assert(pow2((k + 1) as nat) <= next.value());
                    if 64 * lx < k + 1 {
                        lemma_pow2_strictly_increases(64 * lx, (k + 1) as nat);
                    }
                    assert(false);
                }
            }
            p = next;
            k = k + 1;
        } else {
            return (k, p);
        }
    }
}

impl UBig {
    /// The truncated logarithm `floor(log_base(self))`.
    pub fn log(&self, base: &UBig) -> (r: usize)
        requires
            self.wf(),
            base.wf(),
            self.value() >= 1,
            base.value() >= 2,
            self.spec_len() + base.spec_len() + 4 <= MAX_CAPACITY,
        ensures
            pow(base.value() as int, r as nat) <= self.value(),
            self.value() < pow(base.value() as int, (r + 1) as nat),
    {
        let (k, p) = log_with_power(self, base);
        proof {
            lemma_pow_adds(base.value() as int, k as nat, 1);
            lemma_pow1(base.value() as int);
        }
        k
    }
}

impl IBig {
    /// The truncated logarithm of the magnitude.
    pub fn log(&self, base: &UBig) -> (r: usize)
        requires
            self.wf(),
            base.wf(),
            self.mag() >= 1,
            base.value() >= 2,
            self.spec_len() + base.spec_len() + 4 <= MAX_CAPACITY,
        ensures
            pow(base.value() as int, r as nat) <= self.mag(),
            self.mag() < pow(base.value() as int, (r + 1) as nat),
    {
        let m = self.magnitude();
        m.log(base)
    }
}

impl<'a> TypedReprRef<'a> {
    /// Floor logarithm of a tagged magnitude: the exponent and the power.
    pub fn log(self, base: TypedReprRef<'_>) -> (res: (usize, Repr))
        requires
            self.wf(),
            base.wf(),
            self.value() >= 1,
            base.value() >= 2,
            self.spec_words() + base.spec_words() + 8 <= MAX_CAPACITY,
        ensures
            res.1.wf(),
            res.1.sign == crate::sign::Sign::Positive,
            res.1.mag() == pow(base.value() as int, res.0 as nat),
            res.1.mag() <= self.value(),
            self.value() < res.1.mag() * base.value(),
    {
        let x = ref_to_ubig(self);
        let b = ref_to_ubig(base);
        let (k, p) = log_with_power(&x, &b);
        (k, p.0)
    }
}

/// Materialize a borrowed magnitude as an owned unsigned integer.
pub(crate) fn ref_to_ubig(r: TypedReprRef<'_>) -> (u: UBig)
    requires
        r.wf(),
        r.spec_words() <= MAX_CAPACITY,
    ensures
        u.wf(),
        u.value() == r.value(),
        u.spec_len() <= r.spec_words(),
{
    match r {
        TypedReprRef::RefSmall(dw) => {
            let u = UBig::from_dword(dw);
            proof {
                crate::repr::lemma_dword_value_upper(dw);
                crate::primitive::lemma_word_base();
                lemma_pow2_adds(64, 64);
                lemma_len_bounded(&u, 2);
            }
            u
        },
        TypedReprRef::RefLarge(words) => {
            proof {
                crate::math::lemma_seq_value_bound(words@);
            }
            let buf = crate::buffer::Buffer::from_words(words);
            let u = UBig(Repr::from_buffer(buf));
            proof {
                lemma_len_bounded(&u, words@.len() as nat);
            }
            u
        },
    }
}

} // verus!
