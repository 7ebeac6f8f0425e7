//! Digit shifts in a compile-time radix: multiply or divide a signed integer
//! by a power of the base, with or without the removed remainder.

use vstd::prelude::*;
use vstd::arithmetic::power::{pow, lemma_pow_positive};
use vstd::arithmetic::power2::{pow2, lemma_pow2_strictly_increases};
use crate::buffer::MAX_CAPACITY;
use crate::fbig::{lemma_pow_word_bound, lemma_ibig_len_of_parts};
use crate::ibig::{IBig, lemma_ibig_len_le, lemma_sign_cases};
use crate::sign::Sign;
use crate::ubig::UBig;

verus! {

/// The number of base-`X` digits of the value: the least `k` with
/// `|value| < X^k`; zero for zero.
pub fn get_precision<const X: u64>(value: &IBig) -> (r: usize)
    requires
        X >= 2,
        value.wf(),
        value.spec_len() + 8 <= MAX_CAPACITY / 2,
    ensures
        value.value() == 0 ==> r == 0,
        value.value() != 0 ==> r >= 1 && pow(X as int, (r - 1) as nat) <= value.mag()
            && value.mag() < pow(X as int, r as nat),
{
    if value.is_zero() {
        return 0;
    }
    let m = value.magnitude();
    let base = UBig::from_word(X);
    proof {
        crate::ubig::lemma_value_bound(&m);
        lemma_half_cap();
    }
    let k = m.log(&base);
    proof {
        lemma_pow_positive(X as int, k as nat);
        // the digit count is bounded through the bit count
        crate::fbig::lemma_pow_ge_pow2(X as nat, k as nat);
        assert(pow2(k as nat) < pow2(64 * m.spec_len()));
        if k as nat >= 64 * m.spec_len() {
            if (64 * m.spec_len()) < k as nat {
                lemma_pow2_strictly_increases(64 * m.spec_len(), k as nat);
            }
            assert(false);
        }
        lemma_half_cap();
    }
    k + 1
}

/// Half the capacity limit lies within the whole.
proof fn lemma_half_cap()
    ensures
        MAX_CAPACITY / 2 + 8 <= MAX_CAPACITY,
        MAX_CAPACITY >= 67108863,
{
    assert(usize::MAX >= 0xffffffff);
    vstd::arithmetic::div_mod::lemma_div_is_ordered(0xffffffff, usize::MAX as int, 64);
    vstd::arithmetic::div_mod::lemma_fundamental_div_mod(MAX_CAPACITY as int, 2);
}

/// The power of the radix used by a shift of `exp` digits.
fn radix_pow<const X: u64>(exp: usize) -> (r: IBig)
    requires
        X >= 2,
        exp + 16 <= MAX_CAPACITY / 2,
    ensures
        r.wf(),
        r.value() == pow(X as int, exp as nat),
        r.value() >= 1,
        r.spec_len() <= exp + 3,
{
    proof {
        lemma_half_cap();
        crate::primitive::lemma_word_base();
        vstd::arithmetic::power2::lemma2_to64_rest();
        lemma_pow_word_bound(X as nat, exp as nat);
        lemma_pow2_strictly_increases(64 * exp as nat, 64 * (exp + 1) as nat);
    }
    let p = UBig::from_word(X).pow(exp);
    proof {
        lemma_pow_positive(X as int, exp as nat);
        crate::ubig::lemma_len_bounded(&p, (exp + 1) as nat);
    }
    let r = IBig::from_parts(Sign::Positive, p);
    proof {
        lemma_ibig_len_of_parts(&r, (exp + 1) as nat);
    }
    r
}

/// Shift left by `exp` digits: multiply by `X^exp`.
pub fn shl_radix<const X: u64>(value: &mut IBig, exp: usize)
    requires
        X >= 2,
        old(value).wf(),
        old(value).spec_len() + exp + 32 <= MAX_CAPACITY / 2,
        exp + 16 <= MAX_CAPACITY / 2,
    ensures
        final(value).wf(),
        final(value).value() == old(value).value() * pow(X as int, exp as nat),
{
    let p = radix_pow::<X>(exp);
    proof {
        lemma_half_cap();
    }
    let r = value.mul(&p);
    *value = r;
}

/// Shift right by `exp` digits: divide by `X^exp`, truncating toward zero.
pub fn shr_radix<const X: u64>(value: &mut IBig, exp: usize)
    requires
        X >= 2,
        old(value).wf(),
        old(value).spec_len() + 8 <= MAX_CAPACITY / 2,
        exp + 16 <= MAX_CAPACITY / 2,
    ensures
        final(value).wf(),
        final(value).mag() == old(value).mag() / pow(X as int, exp as nat) as nat,
        old(value).value() >= 0 ==> final(value).value() >= 0,
        old(value).value() <= 0 ==> final(value).value() <= 0,
{
    let rem = shr_rem_radix_in_place::<X>(value, exp);
}

/// Shift right by `exp` digits, returning the shifted value and the removed
/// remainder: `value == r.0 * X^exp + r.1` with `|r.1| < X^exp`.
pub fn shr_rem_radix<const X: u64>(value: &IBig, exp: usize) -> (r: (IBig, IBig))
    requires
        X >= 2,
        value.wf(),
        value.spec_len() + 8 <= MAX_CAPACITY / 2,
        exp + 16 <= MAX_CAPACITY / 2,
    ensures
        r.0.wf(),
        r.1.wf(),
        value.value() == r.0.value() * pow(X as int, exp as nat) + r.1.value(),
        r.1.mag() < pow(X as int, exp as nat),
{
    let mut v = value.clone();
    let rem = shr_rem_radix_in_place::<X>(&mut v, exp);
    (v, rem)
}

/// Shift right in place by `exp` digits; the removed remainder comes back.
pub fn shr_rem_radix_in_place<const X: u64>(value: &mut IBig, exp: usize) -> (rem: IBig)
    requires
        X >= 2,
        old(value).wf(),
        old(value).spec_len() + 8 <= MAX_CAPACITY / 2,
        exp + 16 <= MAX_CAPACITY / 2,
    ensures
        final(value).wf(),
        rem.wf(),
        old(value).value() == final(value).value() * pow(X as int, exp as nat) + rem.value(),
        rem.mag() < pow(X as int, exp as nat),
        final(value).mag() == old(value).mag() / pow(X as int, exp as nat) as nat,
        old(value).value() >= 0 ==> final(value).value() >= 0 && rem.value() >= 0,
        old(value).value() <= 0 ==> final(value).value() <= 0 && rem.value() <= 0,
{
    let p = radix_pow::<X>(exp);
    proof {
        lemma_half_cap();
        lemma_sign_cases(&p.0);
    }
    let (q, rm) = value.div_rem(&p);
    proof {
        lemma_sign_cases(&old(value).0);
        lemma_sign_cases(&q.0);
        lemma_sign_cases(&rm.0);
        crate::div_ops::lemma_euclidean_unique(
            old(value).mag(),
            p.mag(),
            q.mag(),
            rm.mag(),
        );
        // sign bookkeeping: the quotient and remainder follow the dividend
        let ov = old(value).value();
        let qv = q.value();
        let rv = rm.value();
        let pv = p.value();
        let ghost om = old(value).mag();
        let ghost qm = q.mag();
        let ghost rmm = rm.mag();
        let ghost pm = p.mag();
        assert((ov >= 0 ==> qv >= 0 && rv >= 0) && (ov <= 0 ==> qv <= 0 && rv <= 0))
            by (nonlinear_arith)
            requires
                ov == qv * pv + rv,
                pv >= 1,
                rmm < pm,
                (rv >= 0 ==> rmm == rv) && (rv < 0 ==> rmm == -rv),
                (qv >= 0 ==> qm == qv) && (qv < 0 ==> qm == -qv),
                (ov >= 0 ==> om == ov) && (ov < 0 ==> om == -ov),
                qm * pm + rmm == om,
                pm == pv,
        ;
    }
    *value = q;
    rm
}

} // verus!
