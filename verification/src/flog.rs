//! Natural logarithm and the inverse hyperbolic cotangent.
//!
//! `acoth` is evaluated by its Maclaurin series in fixed point at the working
//! scale `B^-wp`, with guard digits beyond the requested precision; `ln(2)`
//! and `ln(10)` follow from acoth values at small integers, and `ln(x)` scales
//! its argument by a power of two and sums the `atanh` series.

use vstd::prelude::*;
use vstd::arithmetic::power::{pow, lemma_pow_positive};
use vstd::arithmetic::power2::{pow2, lemma_pow2_pos, lemma_pow2_strictly_increases, lemma2_to64};
use vstd::arithmetic::mul::{lemma_mul_inequality, lemma_mul_is_commutative, lemma_mul_basics};
use crate::buffer::MAX_CAPACITY;
use crate::fbig::{FloatRepr, Context, Rounded, SIG_LEN_LIMIT, lemma_pow_word_bound};
use crate::fops::{FBig, OP_SIG_WORDS, OP_EXP, DIV_PRECISION};
use crate::ibig::IBig;
use crate::round::{Round, Approximation};
use crate::sign::Sign;
use crate::ubig::{UBig, lemma_value_bound, lemma_len_bounded};

verus! {

/// Guard digits carried beyond the requested precision.
pub const GUARD_DIGITS: usize = 32;

/// Budget facts used throughout the series loops.
proof fn series_cap()
    ensures
        MAX_CAPACITY >= 67108863,
{
    assert(usize::MAX >= 0xffffffff);
    vstd::arithmetic::div_mod::lemma_div_is_ordered(0xffffffff, usize::MAX as int, 64);
}

/// A value below `2^(64 l)` spans at most `max(l, 1)` words.
proof fn fits(x: &UBig, l: nat)
    requires
        x.wf(),
        l >= 1,
        x.value() < pow2(64 * l),
    ensures
        x.spec_len() <= l,
{
    lemma_len_bounded(x, l);
}

/// The fixed-point series `sum big / (k * npow)` over odd `k`, stepping the
/// power by `n2` each term, cut off past `mk` or once a term underflows the
/// scale.
pub open spec fn acoth_series(big: nat, n2: nat, npow: nat, k: nat, mk: nat) -> nat
    decreases mk + 2 - k,
    when k <= mk + 2
{
    if k > mk || npow * k > big {
        0
    } else {
        big / (npow * k) + acoth_series(big, n2, npow * n2, k + 2, mk)
    }
}

/// `acoth(n)` at the fixed scale `B^-wp`, truncated toward zero.
fn acoth_fixed<const B: u64>(n: u64, wp: usize) -> (r: UBig)
    requires
        B >= 2,
        n >= 2,
        33 <= wp <= 0x2000,
    ensures
        r.wf(),
        r.value() < pow2((64 * (wp + 3)) as nat),
        r.value() == acoth_series(
            pow(B as int, wp as nat) as nat,
            (n * n) as nat,
            n as nat,
            1,
            (4 * wp + 8) as nat,
        ),
{
    proof {
        series_cap();
        crate::primitive::lemma_word_base();
        vstd::arithmetic::power2::lemma2_to64_rest();
        lemma_pow_word_bound(B as nat, wp as nat);
        lemma_pow2_strictly_increases(64 * wp as nat, 64 * (wp + 1) as nat);
    }
    let big = UBig::from_word(B).pow(wp);
    proof {
        fits(&big, (wp + 1) as nat);
    }
    let nb = UBig::from_word(n);
    let n2 = nb.mul(&nb);
    let mut npow = UBig::from_word(n);
    let mut sum = UBig::zero();
    let mut k: usize = 1;
    let maxk = 4 * wp + 8;
    proof {
        crate::primitive::lemma_word_base();
        vstd::arithmetic::power2::lemma_pow2_adds(64, 64);
        crate::math::lemma_mul_bound_lt(
            nb.value() as int,
            pow2(64) as int,
            nb.value() as int,
            pow2(64) as int,
        );
        lemma_mul_pos(nb.value(), nb.value());
        lemma_pow2_strictly_increases(64 * 2, 64 * (wp + 4) as nat);
        lemma_pow2_pos(64 * (wp + 2) as nat);
        lemma_pow_positive(B as int, wp as nat);
        lemma_mul_basics(big.value() as int);
    }
    loop
        invariant_except_break
            B >= 2,
            33 <= wp <= 0x2000,
            maxk == 4 * wp + 8,
            big.wf(),
            big.value() >= 1,
            big.value() < pow2(64 * (wp + 1) as nat),
            big.value() == pow(B as int, wp as nat),
            big.spec_len() <= wp + 1,
            n2.wf(),
            1 <= n2.value() < pow2(128),
            n2.value() == n as nat * n as nat,
            npow.wf(),
            npow.value() >= 1,
            sum.wf(),
            1 <= k <= maxk + 2,
            k % 2 == 1,
            MAX_CAPACITY >= 67108863,
            npow.value() < pow2(64 * (wp + 4) as nat),
            sum.value() <= (k as int) * big.value(),
            sum.value() + acoth_series(
                big.value(),
                n2.value(),
                npow.value(),
                k as nat,
                maxk as nat,
            ) == acoth_series(big.value(), n2.value(), n as nat, 1, maxk as nat),
        ensures
            sum.wf(),
            sum.value() <= ((maxk + 2) as int) * big.value(),
            sum.value() == acoth_series(big.value(), n2.value(), n as nat, 1, maxk as nat),
        decreases maxk + 2 - k,
    {
        if k > maxk {
            proof {
                lemma_mul_inequality(k as int, (maxk + 2) as int, big.value() as int);
                lemma_mul_is_commutative(k as int, big.value() as int);
                lemma_mul_is_commutative((maxk + 2) as int, big.value() as int);
            }
            break;
        }
        proof {
            fits(&npow, (wp + 4) as nat);
            lemma_running_sum(sum.value(), k as nat, maxk as nat, big.value(), (wp + 1) as nat);
            fits(&sum, (wp + 2) as nat);
            crate::ubig::lemma_value_bound(&n2);
        }
        let kb = UBig::from_word(k as u64);
        let denom = npow.mul(&kb);
        proof {
            lemma_mul_inequality(1, kb.value() as int, npow.value() as int);
            lemma_mul_is_commutative(kb.value() as int, npow.value() as int);
            lemma_mul_is_commutative(npow.value() as int, kb.value() as int);
            lemma_mul_basics(npow.value() as int);
        }
        if denom.cmp(&big) == 1 {
            proof {
                lemma_mul_inequality(k as int, (maxk + 2) as int, big.value() as int);
                lemma_mul_is_commutative(k as int, big.value() as int);
                lemma_mul_is_commutative((maxk + 2) as int, big.value() as int);
            }
            break;
        }
        proof {
            fits(&denom, (wp + 1) as nat);
            // the series yields exactly this term here and continues
            assert(acoth_series(big.value(), n2.value(), npow.value(), k as nat, maxk as nat)
                == big.value() / denom.value() + acoth_series(
                big.value(),
                n2.value(),
                npow.value() * n2.value(),
                (k + 2) as nat,
                maxk as nat,
            ));
        }
        let term = big.div(&denom);
        proof {
            // one term never exceeds the scale
            vstd::arithmetic::div_mod::lemma_div_nonincreasing(
                big.value() as int,
                denom.value() as int,
            );
            lemma_pow2_strictly_increases(64 * (wp + 1) as nat, 64 * (wp + 2) as nat);
            fits(&term, (wp + 2) as nat);
            // the running sum gains at most one more unit of the scale
            crate::math::lemma_mul_distribute_add2(k as int, 2, big.value() as int);
        }
        sum = sum.add(&term);
        proof {
            // the power of n grows by at most two words
            fits(&n2, 2);
            crate::math::lemma_mul_bound_lt(
                npow.value() as int,
                pow2(64 * (wp + 1) as nat) as int,
                n2.value() as int,
                pow2(128) as int,
            );
            vstd::arithmetic::power2::lemma_pow2_adds(64 * (wp + 1) as nat, 128);
            lemma_pow2_strictly_increases(64 * (wp + 3) as nat, 64 * (wp + 4) as nat);
            lemma_mul_pos(npow.value(), n2.value());
        }
        npow = npow.mul(&n2);
        k += 2;
    }
    proof {
        lemma_running_sum(
            sum.value(),
            (maxk + 2) as nat,
            (maxk + 2) as nat,
            big.value(),
            (wp + 1) as nat,
        );
        lemma_pow2_strictly_increases(64 * (wp + 2) as nat, 64 * (wp + 3) as nat);
    }
    sum
}

/// A sum of at most `k` scale-sized terms stays within one extra word.
proof fn lemma_running_sum(s: nat, k: nat, mk: nat, b: nat, l: nat)
    requires
        s <= k * b,
        k <= mk,
        mk <= 40000,
        b < pow2(64 * l),
    ensures
        s < pow2(64 * (l + 1) as nat),
{
    lemma_mul_inequality(k as int, mk as int, b as int);
    lemma_mul_is_commutative(k as int, b as int);
    lemma_mul_is_commutative(mk as int, b as int);
    crate::math::lemma_mul_bound_lt(b as int, pow2(64 * l) as int, mk as int, 65536);
    assert(65536 == pow2(16)) by {
        lemma2_to64();
    }
    vstd::arithmetic::power2::lemma_pow2_adds(64 * l, 16);
    lemma_pow2_strictly_increases(64 * l + 16, 64 * (l + 1) as nat);
    lemma_mul_is_commutative(pow2(64 * l) as int, 65536);
}

/// Two values below a power of two sum below the next power.
proof fn lemma_sum_pow(a: nat, b: nat, m: nat)
    requires
        a < pow2(m),
        b < pow2(m),
    ensures
        a + b < pow2(m + 1),
{
    vstd::arithmetic::power2::lemma_pow2_adds(m, 1);
    lemma2_to64();
}

/// Products of positive factors are positive.
proof fn lemma_mul_pos(a: nat, b: nat)
    requires
        a >= 1,
        b >= 1,
    ensures
        a * b >= 1,
{
    lemma_mul_inequality(1, b as int, a as int);
    lemma_mul_is_commutative(b as int, a as int);
    lemma_mul_is_commutative(a as int, b as int);
    lemma_mul_basics(a as int);
}

impl<R: Round> Context<R> {
    /// `acoth(n) = atanh(1/n)`, carried at a few guard digits beyond this
    /// context's precision; round with `with_precision` to finish.
    pub fn iacoth<const B: u64>(&self, n: UBig) -> (r: FBig<R, B>)
        requires
            B >= 2,
            n.wf(),
            2 <= n.value() < 0x1_0000_0000_0000_0000,
            n.0.is_small(),
            1 <= self.precision <= 0x1000,
        ensures
            r.wf(),
            r.repr.is_normalized(),
            ({
                let w = (self.precision + GUARD_DIGITS) as int;
                let sv = acoth_series(
                    pow(B as int, (self.precision + GUARD_DIGITS) as nat) as nat,
                    n.value() * n.value(),
                    n.value(),
                    1,
                    (4 * (self.precision + GUARD_DIGITS) + 8) as nat,
                );
                &&& (sv != 0 ==> r.repr.sig() != 0 && r.repr.exp() >= -w && r.repr.sig() * pow(
                    B as int,
                    (r.repr.exp() + w) as nat,
                ) == sv)
                &&& (sv == 0 ==> r.repr.sig() == 0)
            }),
    {
        let wp = self.precision + GUARD_DIGITS;
        let nw = match &n.0.magnitude {
            crate::repr::TypedRepr::Small(dw) => (*dw % crate::primitive::DWORD_BASE) as u64,
            crate::repr::TypedRepr::Large(_) => {
                proof {
                    assert(false);
                }
                0
            },
        };
        proof {
            crate::primitive::lemma_word_base();
        }
        let s = acoth_fixed::<B>(nw, wp);
        proof {
            series_cap();
            fits(&s, (wp + 3) as nat);
        }
        let si = IBig::from_parts(Sign::Positive, s);
        proof {
            crate::fbig::lemma_ibig_len_of_parts(&si, (wp + 3) as nat);
        }
        fixed_to_float::<R, B>(si, wp)
    }

    /// `ln(2)`, carried at guard digits beyond this context's precision.
    pub fn ln2<const B: u64>(&self) -> (r: FBig<R, B>)
        requires
            B >= 2,
            1 <= self.precision <= 0x1000,
        ensures
            r.wf(),
            r.repr.is_normalized(),
            ({
                let w = (self.precision + GUARD_DIGITS) as int;
                let mk = (4 * (self.precision + GUARD_DIGITS) + 8) as nat;
                let big = pow(B as int, (self.precision + GUARD_DIGITS) as nat) as nat;
                let sv = 4 * acoth_series(big, 36, 6, 1, mk) + 2 * acoth_series(
                    big,
                    9801,
                    99,
                    1,
                    mk,
                );
                &&& (sv != 0 ==> r.repr.sig() != 0 && r.repr.exp() >= -w && r.repr.sig() * pow(
                    B as int,
                    (r.repr.exp() + w) as nat,
                ) == sv)
                &&& (sv == 0 ==> r.repr.sig() == 0)
            }),
    {
        let wp = self.precision + GUARD_DIGITS;
        let s = ln2_fixed::<B>(wp);
        proof {
            series_cap();
            fits(&s, (wp + 4) as nat);
        }
        let si = IBig::from_parts(Sign::Positive, s);
        proof {
            crate::fbig::lemma_ibig_len_of_parts(&si, (wp + 4) as nat);
        }
        fixed_to_float::<R, B>(si, wp)
    }

    /// `ln(10)`, carried at guard digits beyond this context's precision.
    pub fn ln10<const B: u64>(&self) -> (r: FBig<R, B>)
        requires
            B >= 2,
            1 <= self.precision <= 0x1000,
        ensures
            r.wf(),
            r.repr.is_normalized(),
            ({
                let w = (self.precision + GUARD_DIGITS) as int;
                let mk = (4 * (self.precision + GUARD_DIGITS) + 8) as nat;
                let big = pow(B as int, (self.precision + GUARD_DIGITS) as nat) as nat;
                let sv = 3 * (4 * acoth_series(big, 36, 6, 1, mk) + 2 * acoth_series(
                    big,
                    9801,
                    99,
                    1,
                    mk,
                )) + 2 * acoth_series(big, 81, 9, 1, mk);
                &&& (sv != 0 ==> r.repr.sig() != 0 && r.repr.exp() >= -w && r.repr.sig() * pow(
                    B as int,
                    (r.repr.exp() + w) as nat,
                ) == sv)
                &&& (sv == 0 ==> r.repr.sig() == 0)
            }),
    {
        let wp = self.precision + GUARD_DIGITS;
        // ln 10 == 3 ln 2 + 2 acoth(9)
        let l2 = ln2_fixed::<B>(wp);
        let a9 = acoth_fixed::<B>(9, wp);
        proof {
            series_cap();
            fits(&l2, (wp + 4) as nat);
            fits(&a9, (wp + 3) as nat);
            lemma_small_scale(l2.value(), (wp + 4) as nat, 3);
            lemma_small_scale(a9.value(), (wp + 3) as nat, 2);
            lemma_pow2_strictly_increases(64 * (wp + 3) as nat + 3, 64 * (wp + 4) as nat + 3);
        }
        let p1 = l2.mul(&UBig::from_word(3));
        let p2 = a9.mul(&UBig::from_word(2));
        proof {
            lemma_pow2_strictly_increases(64 * (wp + 3) as nat + 3, 64 * (wp + 4) as nat + 3);
            lemma_sum_pow(p1.value(), p2.value(), (64 * (wp + 4) + 3) as nat);
            lemma_pow2_strictly_increases(64 * (wp + 4) as nat + 3, 64 * (wp + 5) as nat);
            fits(&p1, (wp + 5) as nat);
            fits(&p2, (wp + 5) as nat);
            lemma_pow2_strictly_increases(64 * (wp + 4) as nat + 4, 64 * (wp + 6) as nat);
        }
        let s = p1.add(&p2);
        proof {
            fits(&s, (wp + 6) as nat);
        }
        let si = IBig::from_parts(Sign::Positive, s);
        proof {
            crate::fbig::lemma_ibig_len_of_parts(&si, (wp + 6) as nat);
        }
        fixed_to_float::<R, B>(si, wp)
    }
}

/// `ln(2)` at the fixed scale `B^-wp`: `4 acoth(6) + 2 acoth(99)`.
fn ln2_fixed<const B: u64>(wp: usize) -> (r: UBig)
    requires
        B >= 2,
        33 <= wp <= 0x2000,
    ensures
        r.wf(),
        r.value() < pow2((64 * (wp + 4)) as nat),
        r.value() == 4 * acoth_series(
            pow(B as int, wp as nat) as nat,
            36,
            6,
            1,
            (4 * wp + 8) as nat,
        ) + 2 * acoth_series(pow(B as int, wp as nat) as nat, 9801, 99, 1, (4 * wp + 8) as nat),
{
    let a6 = acoth_fixed::<B>(6, wp);
    let a99 = acoth_fixed::<B>(99, wp);
    proof {
        series_cap();
        fits(&a6, (wp + 3) as nat);
        fits(&a99, (wp + 3) as nat);
        lemma_small_scale(a6.value(), (wp + 3) as nat, 4);
        lemma_small_scale(a99.value(), (wp + 3) as nat, 2);
    }
    let p1 = a6.mul(&UBig::from_word(4));
    let p2 = a99.mul(&UBig::from_word(2));
    proof {
        lemma_pow2_strictly_increases(64 * (wp + 3) as nat + 3, 64 * (wp + 4) as nat);
        fits(&p1, (wp + 4) as nat);
        fits(&p2, (wp + 4) as nat);
        lemma_sum_pow(p1.value(), p2.value(), (64 * (wp + 3) + 3) as nat);
        lemma_pow2_strictly_increases(64 * (wp + 3) as nat + 4, 64 * (wp + 4) as nat);
    }
    let s = p1.add(&p2);
    s
}

/// Scaling a bounded value by a small word stays within eight times it.
proof fn lemma_small_scale(v: nat, l: nat, c: nat)
    requires
        v < pow2(64 * l),
        1 <= c <= 8,
    ensures
        v * c < pow2(64 * l + 3),
        v * c + v * c <= pow2(64 * l + 3) + pow2(64 * l + 3),
{
    vstd::arithmetic::power2::lemma_pow2_adds(64 * l, 3);
    lemma2_to64();
    lemma_mul_inequality(v as int, pow2(64 * l) as int - 1, c as int);
    lemma_mul_inequality(c as int, 8, pow2(64 * l) as int - 1);
    lemma_mul_is_commutative(v as int, c as int);
    lemma_mul_is_commutative(c as int, pow2(64 * l) as int - 1);
    crate::math::lemma_mul_bound_lt(v as int, pow2(64 * l) as int, c as int, 9);
    assert(pow2(64 * l) * 9 <= pow2(64 * l) * 8 + pow2(64 * l)) by {
        vstd::arithmetic::mul::lemma_mul_is_distributive_add(pow2(64 * l) as int, 8, 1);
        lemma_mul_basics(pow2(64 * l) as int);
    }
    assert(pow2(64 * l) * 8 == pow2(64 * l + 3)) by {
        lemma_mul_is_commutative(pow2(64 * l) as int, 8);
    }
    lemma_pow2_pos(64 * l);
}



/// Wrap a fixed-point magnitude at scale `B^-wp` as a normalized float.
fn fixed_to_float<R: Round, const B: u64>(s: IBig, wp: usize) -> (r: FBig<R, B>)
    requires
        B >= 2,
        s.wf(),
        wp <= 0x4000,
        s.spec_len() <= OP_SIG_WORDS,
    ensures
        r.wf(),
        r.repr.is_normalized(),
        s.value() != 0 ==> r.repr.sig() != 0 && r.repr.exp() >= -(wp as int) && r.repr.sig()
            * pow(B as int, (r.repr.exp() + wp) as nat) == s.value(),
        s.value() == 0 ==> r.repr.sig() == 0 && r.repr.exp() == 0,
{
    FBig::<R, B>::from_parts(s, -(wp as i64))
}


/// `num * 2^max(-l,0) >= den * 2^max(l,0)`: the scaled comparison behind the
/// choice of the power-of-two exponent.
pub open spec fn ge_pow2_scaled(num: nat, den: nat, l: int) -> bool {
    if l >= 0 {
        num >= den * pow2(l as nat)
    } else {
        num * pow2((-l) as nat) >= den
    }
}

/// One tail of the atanh series at a fixed scale: each step multiplies the
/// running power by `z2` over `big2`, each term divides it by its odd index,
/// and the tail ends past `mk` or once the power underflows to zero.
pub open spec fn atanh_series(z2: nat, big2: nat, zpow: nat, k: nat, mk: nat) -> nat
    decreases mk + 2 - k,
    when k <= mk + 2
{
    if k > mk {
        0
    } else {
        let zn = (zpow * z2) / big2;
        if zn == 0 {
            0
        } else {
            zn / k + atanh_series(z2, big2, zn, k + 2, mk)
        }
    }
}

/// `l` is the floor base-2 exponent of `num / den`.
pub open spec fn pow2_floor(num: nat, den: nat, l: int) -> bool {
    ge_pow2_scaled(num, den, l) && !ge_pow2_scaled(num, den, l + 1)
}

/// The argument's integer numerator: its significand magnitude, scaled up by
/// a nonnegative exponent.
pub open spec fn ln_num(b: int, mag: nat, e: int) -> nat {
    if e >= 0 {
        (mag * pow(b, e as nat)) as nat
    } else {
        mag
    }
}

/// The argument's integer denominator, carrying a negative exponent.
pub open spec fn ln_den(b: int, e: int) -> nat {
    if e >= 0 {
        1
    } else {
        pow(b, (-e) as nat) as nat
    }
}

/// The argument divided by `2^l`, at the fixed scale `B^w`, rounded down.
pub open spec fn ln_arg_fixed(b: int, w: nat, num: nat, den: nat, l: int) -> nat {
    let lneg: nat = if l < 0 {
        (-l) as nat
    } else {
        0
    };
    let lpos: nat = if l > 0 {
        l as nat
    } else {
        0
    };
    ((num * (pow(b, w) as nat)) * pow2(lneg)) / (den * pow2(lpos))
}

/// The atanh argument `(y - s) / (y + s)` at the fixed scale `s = B^w`.
pub open spec fn ln_ratio_fixed(b: int, w: nat, y: nat) -> int {
    let s = pow(b, w);
    ((y - s) * s) / (y + s)
}

/// The full fixed-point atanh series: the first term plus its tail.
pub open spec fn ln_series_fixed(b: int, w: nat, z: nat) -> nat {
    z + atanh_series(z * z, (pow(b, w) * pow(b, w)) as nat, z, 3, 8 * w + 8)
}

/// The fixed-point `ln 2` at scale `B^w`: `4 acoth(6) + 2 acoth(99)`.
pub open spec fn ln2_fixed_spec(b: int, w: nat) -> nat {
    4 * acoth_series(pow(b, w) as nat, 36, 6, 1, 4 * w + 8) + 2 * acoth_series(
        pow(b, w) as nat,
        9801,
        99,
        1,
        4 * w + 8,
    )
}

/// The recomposed fixed-point logarithm at scale `B^-w`: twice the series of
/// the argument scaled into `[1, 2)`, plus `l` times `ln 2`.
pub open spec fn ln_total_fixed(b: int, w: nat, num: nat, den: nat, l: int) -> int {
    let y = ln_arg_fixed(b, w, num, den, l);
    let z = ln_ratio_fixed(b, w, y);
    2 * (ln_series_fixed(b, w, z as nat) as int) + l * ln2_fixed_spec(b, w)
}

/// The pair `(vs, ve)` is the fixed-point logarithm total rounded: equal to
/// it at scale `B^-w` when exact, else within one unit on side `sg`, and zero
/// exactly when the total is zero.
pub open spec fn ln_rounded_to(
    b: int,
    w: nat,
    num: nat,
    den: nat,
    l: int,
    vs: int,
    ve: int,
    sg: int,
    exact: bool,
) -> bool {
    let tot = ln_total_fixed(b, w, num, den, l);
    if exact {
        crate::fbig::same_value(b, vs, ve, tot, -(w as int))
    } else {
        (vs == 0 <==> tot == 0) && (tot != 0 ==> crate::fbig::one_ulp_of(
            b,
            vs,
            ve,
            tot,
            -(w as int),
            sg,
        ))
    }
}

/// The float `s * B^e` is at least two./// The float `s * B^e` is at least two./// The float `s * B^e` is at least two.
pub open spec fn at_least_two(b: int, s: int, e: int) -> bool {
    if e >= 0 {
        s * pow(b, e as nat) >= 2
    } else {
        s >= 2 * pow(b, (-e) as nat)
    }
}

/// A comparison that holds at exponent one holds at every smaller exponent.
proof fn lemma_ge_pow2_from_one(num: nat, den: nat, l: int)
    requires
        ge_pow2_scaled(num, den, 1),
        l <= 1,
    ensures
        ge_pow2_scaled(num, den, l),
{
    lemma2_to64();
    assert(den * pow2(1) == 2 * den) by (nonlinear_arith)
        requires
            pow2(1) == 2,
    ;
    if l == 1 {
    } else if l == 0 {
        lemma_mul_basics(den as int);
    } else {
        lemma_pow2_pos((-l) as nat);
        lemma_mul_inequality(1, pow2((-l) as nat) as int, num as int);
        lemma_mul_is_commutative(pow2((-l) as nat) as int, num as int);
        lemma_mul_is_commutative(num as int, pow2((-l) as nat) as int);
        lemma_mul_basics(num as int);
    }
}

/// A significand and exponent recovered from a fixed-point integer denote
/// that integer at the fixed scale.
proof fn lemma_out_total(b: int, w: nat, os: int, oe: int, tot: int)
    requires
        b >= 2,
        oe >= -(w as int),
        tot != 0 ==> os * pow(b, (oe + w) as nat) == tot,
        tot == 0 ==> os == 0 && oe == 0,
    ensures
        crate::fbig::same_value(b, os, oe, tot, -(w as int)),
{
    vstd::arithmetic::power::lemma_pow0(b);
    if tot != 0 {
        vstd::arithmetic::mul::lemma_mul_basics(tot);
        crate::fops::lemma_eq_at_scale(b, os, oe, tot, -(w as int), -(w as int));
    } else {
        let m = crate::fbig::spec_min(0, -(w as int));
        vstd::arithmetic::mul::lemma_mul_basics(pow(b, (0 - m) as nat));
        vstd::arithmetic::mul::lemma_mul_basics(pow(b, (-(w as int) - m) as nat));
    }
}

/// A value equal to a positive one at a shared scale is itself positive.
proof fn lemma_same_value_sign(b: int, s1: int, e1: int, s2: int, e2: int)
    requires
        b >= 2,
        crate::fbig::same_value(b, s1, e1, s2, e2),
        s2 > 0,
    ensures
        s1 > 0,
{
    let m = crate::fbig::spec_min(e1, e2);
    lemma_pow_positive(b, (e1 - m) as nat);
    lemma_pow_positive(b, (e2 - m) as nat);
    assert(s1 > 0) by (nonlinear_arith)
        requires
            s1 * pow(b, (e1 - m) as nat) == s2 * pow(b, (e2 - m) as nat),
            s2 > 0,
            pow(b, (e1 - m) as nat) >= 1,
            pow(b, (e2 - m) as nat) >= 1,
    ;
}

/// A nonzero value within one unit of a positive one is itself positive.
proof fn lemma_ulp_sign(b: int, vs: int, ve: int, s: int, e: int, sg: int)
    requires
        b >= 2,
        s > 0,
        vs != 0,
        crate::fbig::one_ulp_of(b, vs, ve, s, e, sg),
    ensures
        vs > 0,
{
    let m = crate::fbig::spec_min(ve, e);
    let u = pow(b, (ve - m) as nat);
    let pt = pow(b, (e - m) as nat);
    lemma_pow_positive(b, (ve - m) as nat);
    lemma_pow_positive(b, (e - m) as nat);
    if vs < 0 {
        assert(vs * u <= -u && s * pt >= 1) by (nonlinear_arith)
            requires
                vs <= -1,
                s >= 1,
                u >= 1,
                pt >= 1,
        ;
        assert(false);
    }
}

/// Decide `ge_pow2_scaled` executably.
fn check_pow2_le(num: &UBig, den: &UBig, l: i64) -> (r: bool)
    requires
        num.wf(),
        den.wf(),
        num.spec_len() + 8 <= MAX_CAPACITY / 4,
        den.spec_len() + 8 <= MAX_CAPACITY / 4,
        -0x100_0000 <= l <= 0x100_0000,
    ensures
        r == ge_pow2_scaled(num.value(), den.value(), l as int),
{
    proof {
        quarter_cap();
    }
    if l >= 0 {
        let shifted = den.shl(l as usize);
        num.cmp(&shifted) >= 0
    } else {
        let shifted = num.shl((-l) as usize);
        shifted.cmp(den) >= 0
    }
}

/// A quarter of the capacity limit leaves room for large shifts.
proof fn quarter_cap()
    ensures
        MAX_CAPACITY >= 67108863,
        MAX_CAPACITY / 4 + 0x100_0000int / 64 + 16 <= MAX_CAPACITY,
        MAX_CAPACITY / 4 + 8 <= MAX_CAPACITY,
{
    assert(usize::MAX >= 0xffffffff);
    vstd::arithmetic::div_mod::lemma_div_is_ordered(0xffffffff, usize::MAX as int, 64);
    vstd::arithmetic::div_mod::lemma_fundamental_div_mod(MAX_CAPACITY as int, 4);
}

/// The fixed-point logarithm of `num / den / 2^l` recomposed with
/// `l * ln 2`, at scale `B^-wp`: the integer whose value is
/// [`ln_total_fixed`], computed by the atanh series.
#[verifier::rlimit(100)]
fn ln_core<const B: u64>(num: &UBig, den: &UBig, l: i64, wp: usize) -> (total: IBig)
    requires
        B >= 2,
        num.wf(),
        den.wf(),
        num.value() >= 1,
        den.value() >= 1,
        num.spec_len() <= 0x1403,
        den.spec_len() <= 0x1403,
        33 <= wp <= 0x1020 + GUARD_DIGITS,
        -0x100_0000 < l < 0x100_0000,
        ge_pow2_scaled(num.value(), den.value(), l as int),
    ensures
        total.wf(),
        total.spec_len() <= 0x4004,
        total.value() == ln_total_fixed(
            B as int,
            wp as nat,
            num.value(),
            den.value(),
            l as int,
        ),
        l >= 1 ==> total.value() >= 4,
{
    proof {
        quarter_cap();
        series_cap();
        crate::primitive::lemma_word_base();
        vstd::arithmetic::power2::lemma2_to64_rest();
    }
    // fixed-point y = x / 2^l at scale B^wp, with y >= 1
    proof {
        lemma_pow_word_bound(B as nat, wp as nat);
        lemma_pow2_strictly_increases(64 * wp as nat, 64 * (wp + 1) as nat);
    }
    let bigp = UBig::from_word(B).pow(wp);
    proof {
        fits(&bigp, (wp + 1) as nat);
        lemma_pow_positive(B as int, wp as nat);
    }
    let lneg: usize = if l < 0 {
        (-l) as usize
    } else {
        0
    };
    let lpos: usize = if l > 0 {
        l as usize
    } else {
        0
    };
    proof {
        crate::ubig::lemma_value_bound(&num);
        lemma_pow2_mono_weak(64 * num.spec_len(), 64 * 0x1403);
        crate::math::lemma_mul_bound_lt(
            num.value() as int,
            pow2(64 * 0x1403) as int,
            bigp.value() as int,
            pow2(64 * (wp + 1) as nat) as int,
        );
        vstd::arithmetic::power2::lemma_pow2_adds(64 * 0x1403, 64 * (wp + 1) as nat);
        lemma_mul_pos(num.value(), bigp.value());
    }
    let scaled_num = num.mul(&bigp);
    proof {
        fits(&scaled_num, (0x1403 + wp + 1) as nat);
        vstd::arithmetic::div_mod::lemma_div_is_ordered(lneg as int, 0x100_0000, 64);
        vstd::arithmetic::div_mod::lemma_div_is_ordered(lpos as int, 0x100_0000, 64);
    }
    let numer = scaled_num.shl(lneg);
    let denom = den.shl(lpos);
    proof {
        // widths after the power-of-two scaling
        lemma_pow2_pos(lneg as nat);
        lemma_pow2_pos(lpos as nat);
        assert(pow2(lneg as nat) < pow2((64 * 0x4_0000) as nat)) by {
            lemma_pow2_strictly_increases(lneg as nat, (64 * 0x4_0000) as nat);
        }
        crate::math::lemma_mul_bound_lt(
            scaled_num.value() as int,
            pow2(64 * (0x1403 + wp + 1) as nat) as int,
            pow2(lneg as nat) as int,
            pow2((64 * 0x4_0000) as nat) as int,
        );
        vstd::arithmetic::power2::lemma_pow2_adds(
            64 * (0x1403 + wp + 1) as nat,
            (64 * 0x4_0000) as nat,
        );
        assert(64 * (0x1403 + wp + 1) + 64 * 0x4_0000 == 64 * (0x1403 + wp + 1 + 0x4_0000));
        fits(&numer, (0x1403 + wp + 1 + 0x4_0000) as nat);
        crate::ubig::lemma_value_bound(&den);
        lemma_pow2_mono_weak(64 * den.spec_len(), 64 * 0x1403);
        assert(pow2(lpos as nat) < pow2((64 * 0x4_0000) as nat)) by {
            lemma_pow2_strictly_increases(lpos as nat, (64 * 0x4_0000) as nat);
        }
        crate::math::lemma_mul_bound_lt(
            den.value() as int,
            pow2(64 * 0x1403) as int,
            pow2(lpos as nat) as int,
            pow2((64 * 0x4_0000) as nat) as int,
        );
        vstd::arithmetic::power2::lemma_pow2_adds(64 * 0x1403, (64 * 0x4_0000) as nat);
        assert(64 * 0x1403 + 64 * 0x4_0000 == 64 * (0x1403 + 0x4_0000));
        fits(&denom, (0x1403 + 0x4_0000) as nat);
        lemma_scaled_ge(
            num.value(),
            den.value(),
            bigp.value(),
            l as int,
            numer.value(),
            denom.value(),
        );
        crate::ubig::lemma_value_bound(&numer);
        crate::ubig::lemma_value_bound(&denom);
    }
    let y = numer.div(&denom);
    proof {
        vstd::arithmetic::div_mod::lemma_div_nonincreasing(
            numer.value() as int,
            denom.value() as int,
        );
        fits(&y, (0x1403 + wp + 1 + 0x4_0000) as nat);
        // y >= B^wp because the numerator covers denom * B^wp
        vstd::arithmetic::div_mod::lemma_div_is_ordered(
            (denom.value() * bigp.value()) as int,
            numer.value() as int,
            denom.value() as int,
        );
        vstd::arithmetic::div_mod::lemma_div_multiples_vanish(
            bigp.value() as int,
            denom.value() as int,
        );
        vstd::arithmetic::mul::lemma_mul_is_commutative(
            denom.value() as int,
            bigp.value() as int,
        );
        crate::ubig::lemma_value_bound(&y);
    }
    let t = y.sub(&bigp);
    let u = y.add(&bigp);
    proof {
        lemma_mul_pos(u.value(), 1);
        vstd::arithmetic::power2::lemma_pow2_adds(
            64 * (0x1403 + wp + 1 + 0x4_0000) as nat,
            64,
        );
        lemma2_to64();
        lemma_pow2_pos(64 * (0x1403 + wp + 1 + 0x4_0000) as nat);
    }
    proof {
        fits(&t, (0x1403 + wp + 1 + 0x4_0000) as nat);
        fits(&u, (0x1403 + wp + 2 + 0x4_0000) as nat);
        crate::ubig::lemma_value_bound(&t);
        lemma_pow2_mono_weak(64 * t.spec_len(), 64 * (0x1403 + wp + 2 + 0x4_0000) as nat);
        crate::math::lemma_mul_bound_lt(
            t.value() as int,
            pow2(64 * (0x1403 + wp + 2 + 0x4_0000) as nat) as int,
            bigp.value() as int,
            pow2(64 * (wp + 1) as nat) as int,
        );
        vstd::arithmetic::power2::lemma_pow2_adds(
            64 * (0x1403 + wp + 2 + 0x4_0000) as nat,
            64 * (wp + 1) as nat,
        );
    }
    let tm = t.mul(&bigp);
    proof {
        assert(64 * (0x1403 + wp + 2 + 0x4_0000) + 64 * (wp + 1) == 64 * (0x1403 + 2 * wp + 3
            + 0x4_0000));
        fits(&tm, (0x1403 + 2 * wp + 3 + 0x4_0000) as nat);
    }
    let z = tm.div(&u);
    proof {
        // z < B^wp since t < u
        vstd::arithmetic::mul::lemma_mul_inequality(
            t.value() as int + 1,
            u.value() as int,
            bigp.value() as int,
        );
        crate::math::lemma_mul_distribute_add2(
            t.value() as int,
            1,
            bigp.value() as int,
        );
        vstd::arithmetic::mul::lemma_mul_basics(bigp.value() as int);
        vstd::arithmetic::mul::lemma_mul_is_commutative(
            u.value() as int,
            bigp.value() as int,
        );
        assert(t.value() + 1 <= u.value());
        assert(((t.value() * bigp.value()) as int) < (u.value() as int) * (bigp.value() as int));
        vstd::arithmetic::div_mod::lemma_multiply_divide_lt(
            (t.value() * bigp.value()) as int,
            u.value() as int,
            bigp.value() as int,
        );
    }
    // atanh series: ln y = 2 sum z^(2i+1)/(2i+1)
    proof {
        fits(&z, (wp + 1) as nat);
    }
    let z2 = z.mul(&z);
    let big2 = bigp.mul(&bigp);
    proof {
        crate::math::lemma_mul_bound_lt(
            z.value() as int,
            pow2(64 * (wp + 1) as nat) as int,
            z.value() as int,
            pow2(64 * (wp + 1) as nat) as int,
        );
        vstd::arithmetic::power2::lemma_pow2_adds(64 * (wp + 1) as nat, 64 * (wp + 1) as nat);
        lemma_mul_pos(bigp.value(), bigp.value());
        // the squared scale stays within its double width
        crate::math::lemma_mul_bound_lt(
            bigp.value() as int,
            pow2(64 * (wp + 1) as nat) as int,
            bigp.value() as int,
            pow2(64 * (wp + 1) as nat) as int,
        );
        // z squared stays below the squared scale
        if z.value() >= 1 {
            crate::math::lemma_mul_bound_lt(
                z.value() as int,
                bigp.value() as int,
                z.value() as int,
                bigp.value() as int,
            );
        } else {
            vstd::arithmetic::mul::lemma_mul_basics(z.value() as int);
        }
    }
    let mut zpow = z.clone();
    let mut ssum = z.clone();
    let mut k: usize = 3;
    let maxk = 8 * wp + 8;
    loop
        invariant_except_break
            B >= 2,
            33 <= wp <= 0x1020 + GUARD_DIGITS,
            maxk == 8 * wp + 8,
            bigp.wf(),
            bigp.value() >= 1,
            bigp.value() < pow2(64 * (wp + 1) as nat),
            z2.wf(),
            z2.value() < pow2(64 * (2 * wp + 2) as nat),
            z2.value() <= big2.value(),
            big2.wf(),
            big2.value() >= 1,
            big2.value() < pow2(64 * (2 * wp + 2) as nat),
            zpow.wf(),
            zpow.value() < pow2(64 * (wp + 1) as nat),
            ssum.wf(),
            ssum.value() <= (k as int) * pow2(64 * (wp + 1) as nat),
            3 <= k <= maxk + 2,
            MAX_CAPACITY >= 67108863,
            big2.value() == bigp.value() * bigp.value(),
            zpow.value() < bigp.value() || zpow.value() == 0,
            ssum.value() + atanh_series(
                z2.value(),
                big2.value(),
                zpow.value(),
                k as nat,
                maxk as nat,
            ) == z.value() + atanh_series(
                z2.value(),
                big2.value(),
                z.value(),
                3,
                maxk as nat,
            ),
        ensures
            ssum.wf(),
            ssum.value() <= ((maxk + 2) as int) * pow2(64 * (wp + 1) as nat),
            ssum.value() == z.value() + atanh_series(
                z2.value(),
                big2.value(),
                z.value(),
                3,
                maxk as nat,
            ),
        decreases maxk + 2 - k,
    {
        if k > maxk {
            proof {
                lemma_mul_inequality(
                    k as int,
                    (maxk + 2) as int,
                    pow2(64 * (wp + 1) as nat) as int,
                );
                lemma_mul_is_commutative(k as int, pow2(64 * (wp + 1) as nat) as int);
                lemma_mul_is_commutative(
                    (maxk + 2) as int,
                    pow2(64 * (wp + 1) as nat) as int,
                );
            }
            break;
        }
        proof {
            fits(&zpow, (wp + 1) as nat);
            fits(&z2, (2 * wp + 2) as nat);
            lemma_series_sum_len(ssum.value(), k as nat, maxk as nat, (wp + 1) as nat);
            fits(&ssum, (wp + 2) as nat);
        }
        let prod = zpow.mul(&z2);
        proof {
            crate::math::lemma_mul_bound_lt(
                zpow.value() as int,
                pow2(64 * (wp + 1) as nat) as int,
                z2.value() as int,
                pow2(64 * (2 * wp + 2) as nat) as int,
            );
            vstd::arithmetic::power2::lemma_pow2_adds(
                64 * (wp + 1) as nat,
                64 * (2 * wp + 2) as nat,
            );
            fits(&prod, (3 * wp + 3) as nat);
            fits(&big2, (2 * wp + 2) as nat);
        }
        let znext = prod.div(&big2);
        proof {
            // z^(k+2) / B^(2wp) stays below the scale
            lemma_zpow_step(
                zpow.value(),
                z2.value(),
                big2.value(),
                bigp.value(),
                znext.value(),
            );
            fits(&znext, (wp + 1) as nat);
        }
        proof {
            // the next power is exactly the series' own next power
            assert(atanh_series(z2.value(), big2.value(), zpow.value(), k as nat, maxk as nat)
                == (if znext.value() == 0 {
                0
            } else {
                znext.value() / (k as nat) + atanh_series(
                    z2.value(),
                    big2.value(),
                    znext.value(),
                    (k + 2) as nat,
                    maxk as nat,
                )
            }));
        }
        zpow = znext;
        if zpow.is_zero() {
            proof {
                lemma_mul_inequality(
                    k as int,
                    (maxk + 2) as int,
                    pow2(64 * (wp + 1) as nat) as int,
                );
                lemma_mul_is_commutative(k as int, pow2(64 * (wp + 1) as nat) as int);
                lemma_mul_is_commutative(
                    (maxk + 2) as int,
                    pow2(64 * (wp + 1) as nat) as int,
                );
            }
            break;
        }
        let kb = UBig::from_word(k as u64);
        let term = zpow.div(&kb);
        proof {
            vstd::arithmetic::div_mod::lemma_div_nonincreasing(
                zpow.value() as int,
                kb.value() as int,
            );
            fits(&term, (wp + 1) as nat);
            crate::math::lemma_mul_distribute_add2(
                k as int,
                2,
                pow2(64 * (wp + 1) as nat) as int,
            );
        }
        ssum = ssum.add(&term);
        k += 2;
    }
    proof {
        lemma_series_sum_len(ssum.value(), (maxk + 2) as nat, (maxk + 2) as nat, (wp
            + 1) as nat);
        fits(&ssum, (wp + 2) as nat);
    }
    // recompose: ln x = 2 sum + l ln 2
    let ln2f = ln2_fixed::<B>(wp);
    proof {
        fits(&ln2f, (wp + 4) as nat);
        // the fixed-point ln 2 is at least four units of the scale
        crate::fbig::lemma_pow_ge_pow2(B as nat, wp as nat);
        vstd::arithmetic::power2::lemma2_to64_rest();
        lemma_pow2_mono_weak(33, wp as nat);
        assert(bigp.value() >= 6);
        let mk = (4 * wp + 8) as nat;
        assert(acoth_series(bigp.value(), 36, 6, 1, mk) >= 1) by {
            assert(6 * 1 == 6) by (nonlinear_arith);
            vstd::arithmetic::div_mod::lemma_div_non_zero(bigp.value() as int, 6);
            assert(acoth_series(bigp.value(), 36, 6, 1, mk) == bigp.value() / 6
                + acoth_series(bigp.value(), 36, 6 * 36, 3, mk));
        }
        assert(ln2f.value() >= 4) by (nonlinear_arith)
            requires
                ln2f.value() == 4 * acoth_series(
                    pow(B as int, wp as nat) as nat,
                    36,
                    6,
                    1,
                    (4 * wp + 8) as nat,
                ) + 2 * acoth_series(
                    pow(B as int, wp as nat) as nat,
                    9801,
                    99,
                    1,
                    (4 * wp + 8) as nat,
                ),
                acoth_series(pow(B as int, wp as nat) as nat, 36, 6, 1, (4 * wp + 8) as nat)
                    >= 1,
        ;
    }
    let labs: u64 = if l >= 0 {
        l as u64
    } else {
        (-l) as u64
    };
    let lterm = ln2f.mul(&UBig::from_word(labs));
    proof {
        crate::math::lemma_mul_bound_lt(
            ln2f.value() as int,
            pow2(64 * (wp + 4) as nat) as int,
            labs as int,
            pow2(64) as int,
        );
        vstd::arithmetic::power2::lemma_pow2_adds(64 * (wp + 4) as nat, 64);
        fits(&lterm, (wp + 5) as nat);
        if l >= 1 {
            assert(lterm.value() >= 4) by (nonlinear_arith)
                requires
                    lterm.value() == ln2f.value() * (labs as nat),
                    ln2f.value() >= 4,
                    labs >= 1,
            ;
        }
    }
    let two_sum = ssum.mul(&UBig::from_word(2));
    proof {
        lemma_small_scale(ssum.value(), (wp + 2) as nat, 2);
        lemma_pow2_strictly_increases(64 * (wp + 2) as nat + 3, 64 * (wp + 3) as nat);
        fits(&two_sum, (wp + 3) as nat);
    }
    let pos_part = IBig::from_parts(Sign::Positive, two_sum);
    let lsign = if l >= 0 {
        Sign::Positive
    } else {
        Sign::Negative
    };
    let lpart = IBig::from_parts(lsign, lterm);
    proof {
        crate::fbig::lemma_ibig_len_of_parts(&pos_part, (wp + 3) as nat);
        crate::fbig::lemma_ibig_len_of_parts(&lpart, (wp + 5) as nat);
    }
    let total = pos_part.add(&lpart);
    proof {
        lemma_total_len(&total, &pos_part, &lpart);
        // the computed chain is the specification chain, step by step
        let b = B as int;
        let w = wp as nat;
        assert(bigp.value() == pow(b, w) as nat);
        assert(lneg as nat == (if (l as int) < 0 {
            (-(l as int)) as nat
        } else {
            0
        }));
        assert(lpos as nat == (if (l as int) > 0 {
            (l as int) as nat
        } else {
            0
        }));
        assert(numer.value() == (num.value() * (pow(b, w) as nat)) * pow2(lneg as nat));
        assert(denom.value() == den.value() * pow2(lpos as nat));
        assert(y.value() == ln_arg_fixed(b, w, num.value(), den.value(), l as int));
        assert(t.value() == y.value() - (pow(b, w) as nat));
        assert(u.value() == y.value() + bigp.value());
        assert(tm.value() == t.value() * bigp.value());
        assert(z.value() == tm.value() / u.value());
        assert(z.value() as int == ln_ratio_fixed(b, w, y.value()));
        assert(z2.value() == z.value() * z.value());
        assert(big2.value() == (pow(b, w) * pow(b, w)) as nat);
        assert(ssum.value() == ln_series_fixed(b, w, z.value()));
        assert(two_sum.value() == ssum.value() * 2);
        assert(pos_part.value() == 2 * ssum.value()) by (nonlinear_arith)
            requires
                pos_part.value() == two_sum.value(),
                two_sum.value() == ssum.value() * 2,
        ;
        assert(ln2f.value() == ln2_fixed_spec(b, w));
        if l >= 0 {
            assert(lpart.value() == (l as int) * (ln2f.value() as int)) by (nonlinear_arith)
                requires
                    lpart.value() == ln2f.value() * (labs as int),
                    labs == l,
        } else {
            assert((-1) * (lterm.value() as int) == -(lterm.value() as int))
                by (nonlinear_arith);
            assert(lpart.value() == -(lterm.value() as int));
            assert(lpart.value() == (l as int) * (ln2f.value() as int)) by (nonlinear_arith)
                requires
                    lpart.value() == -((ln2f.value() * (labs as int)) as int),
                    labs as int == -(l as int),
        }
        assert(total.value() == ln_total_fixed(b, w, num.value(), den.value(), l as int));
    }
    total
}

impl<R: Round> Context<R> {
    /// The natural logarithm of a positive finite value, rounded to this
    /// context's precision.
    ///
    /// The operand bounds are the storage budget of the fixed-point
    /// evaluation: folding the exponent into an integer ratio materializes
    /// `B^|exponent|`, and the series works on integers of about three
    /// working precisions' width, all of which must stay within the
    /// `2^26`-word capacity every machine guarantees.
    #[verifier::rlimit(100)]
    pub fn ln<const B: u64>(&self, x: &FBig<R, B>) -> (res: Rounded<FBig<R, B>>)
        requires
            B >= 2,
            x.wf(),
            x.repr.sig() > 0,
            x.repr.significand.spec_len() <= 0x400,
            -0x1000 <= x.repr.exponent <= 0x1000,
            1 <= self.precision <= 0x1000,
        ensures
            match res {
                Approximation::Exact(v) => v.wf() && v.repr.is_normalized()
                    && !v.repr.is_infinite_spec() && v.context.precision == self.precision && (
                at_least_two(B as int, x.repr.sig(), x.repr.exp()) ==> v.repr.sig() > 0),
                Approximation::Inexact(v, sg) => v.wf() && v.repr.is_normalized()
                    && !v.repr.is_infinite_spec() && v.context.precision == self.precision && (sg
                    == 1 || sg == -1) && (at_least_two(B as int, x.repr.sig(), x.repr.exp())
                    ==> v.repr.sig() > 0),
            },
            ({
                let b = B as int;
                let w = (self.precision + GUARD_DIGITS) as nat;
                let num = ln_num(b, x.repr.significand.mag(), x.repr.exp());
                let den = ln_den(b, x.repr.exp());
                exists|l: int|
                    #[trigger] pow2_floor(num, den, l) && (match res {
                        Approximation::Exact(v) => ln_rounded_to(
                            b,
                            w,
                            num,
                            den,
                            l,
                            v.repr.sig(),
                            v.repr.exp(),
                            0,
                            true,
                        ),
                        Approximation::Inexact(v, sg) => ln_rounded_to(
                            b,
                            w,
                            num,
                            den,
                            l,
                            v.repr.sig(),
                            v.repr.exp(),
                            sg as int,
                            false,
                        ),
                    })
            }),
    {
        let wp = self.precision + GUARD_DIGITS;
        proof {
            quarter_cap();
            series_cap();
            crate::primitive::lemma_word_base();
            vstd::arithmetic::power2::lemma2_to64_rest();
            crate::ibig::lemma_sign_cases(&x.repr.significand.0);
        }
        // write x as num/den with integer parts, folding in the exponent
        let mag = x.repr.significand.magnitude();
        let e = x.repr.exponent;
        let (num, den) = if e >= 0 {
            proof {
                lemma_pow_word_bound(B as nat, e as nat);
                lemma_pow2_strictly_increases(64 * e as nat, 64 * (e + 1) as nat);
            }
            let scale = UBig::from_word(B).pow(e as usize);
            proof {
                fits(&scale, (e + 1) as nat);
                crate::ubig::lemma_value_bound(&mag);
                crate::ubig::lemma_value_bound(&scale);
                lemma_pow2_mono_weak(64 * mag.spec_len(), 64 * 0x401);
                lemma_pow2_mono_weak(64 * scale.spec_len(), 64 * 0x1002);
                lemma_pow_positive(B as int, e as nat);
                lemma_mul_pos(mag.value(), scale.value());
            }
            let nn = mag.mul(&scale);
            proof {
                crate::math::lemma_mul_bound_lt(
                    mag.value() as int,
                    pow2(64 * 0x401) as int,
                    scale.value() as int,
                    pow2(64 * 0x1002) as int,
                );
                vstd::arithmetic::power2::lemma_pow2_adds(64 * 0x401, 64 * 0x1002);
                fits(&nn, 0x1403);
            }
            proof {
                // an argument of at least two scales to at least two
                if at_least_two(B as int, x.repr.sig(), x.repr.exp()) {
                    assert(nn.value() as int == x.repr.sig() * pow(B as int, e as nat));
                    assert(nn.value() >= 2);
                }
                assert(nn.value() == ln_num(B as int, x.repr.significand.mag(), x.repr.exp()));
            }
            (nn, UBig::one())
        } else {
            proof {
                lemma_pow_word_bound(B as nat, (-e) as nat);
                lemma_pow2_strictly_increases(64 * (-e) as nat, 64 * (1 - e) as nat);
            }
            let scale = UBig::from_word(B).pow((-e) as usize);
            proof {
                fits(&scale, (1 - e) as nat);
                crate::ubig::lemma_value_bound(&mag);
                lemma_pow2_mono_weak(64 * mag.spec_len(), 64 * 0x1403);
                fits(&mag, 0x1403);
                lemma_pow2_mono_weak((64 * (1 - e)) as nat, 64 * 0x1403);
                fits(&scale, 0x1403);
                lemma_pow_positive(B as int, (-e) as nat);
            }
            proof {
                if at_least_two(B as int, x.repr.sig(), x.repr.exp()) {
                    assert(mag.value() as int >= 2 * (scale.value() as int));
                }
                assert(mag.value() == ln_num(B as int, x.repr.significand.mag(), x.repr.exp()));
                assert(scale.value() == ln_den(B as int, x.repr.exp()));
            }
            (mag, scale)
        };
        proof {
            assert(num.value() >= 1);
            assert(den.value() >= 1);
            assert(num.spec_len() <= 0x1403);
            assert(den.spec_len() <= 0x1403);
            lemma_quarter_room();
            assert(num.value() == ln_num(B as int, x.repr.significand.mag(), x.repr.exp()));
            assert(den.value() == ln_den(B as int, x.repr.exp()));
            if at_least_two(B as int, x.repr.sig(), x.repr.exp()) {
                lemma2_to64();
                assert(num.value() >= 2 * den.value());
                assert(den.value() * pow2(1) == 2 * den.value()) by (nonlinear_arith)
                    requires
                        pow2(1) == 2,
                ;
                assert(ge_pow2_scaled(num.value(), den.value(), 1));
            }
        }
        // the power-of-two exponent of x: walk down from a bit-length estimate
        let bn = num.bit_len();
        let bd = den.bit_len();
        let mut l: i64 = bn as i64 - bd as i64 + 1;
        while l > -(bd as i64) && !check_pow2_le(&num, &den, l)
            invariant
                num.wf(),
                den.wf(),
                num.value() >= 1,
                den.value() >= 1,
                num.spec_len() <= 0x1403,
                den.spec_len() <= 0x1403,
                num.spec_len() + 8 <= MAX_CAPACITY / 4,
                den.spec_len() + 8 <= MAX_CAPACITY / 4,
                crate::bits::is_bit_len(den.value(), bd as nat),
                bd <= 64 * den.spec_len(),
                bn <= 64 * num.spec_len(),
                -(bd as i64) <= l <= bn as i64 - bd as i64 + 1,
                -0x100_0000 <= l <= 0x100_0000,
                l < bn as i64 - bd as i64 + 1 ==> !ge_pow2_scaled(
                    num.value(),
                    den.value(),
                    l as int + 1,
                ),
            decreases l + bd as i64,
        {
            l = l - 1;
        }
        proof {
            if at_least_two(B as int, x.repr.sig(), x.repr.exp()) && l < 1 {
                // a numerator twice the denominator has the longer bit length
                assert(num.value() >= 2 * den.value());
                assert(2 * den.value() >= den.value());
                if bn <= bd {
                    lemma_pow2_mono_weak(bn as nat, bd as nat);
                    assert(pow2((bd - 1) as nat) <= den.value());
                    vstd::arithmetic::power2::lemma_pow2_adds((bd - 1) as nat, 1);
                    lemma2_to64();
                    assert(2 * den.value() >= 2 * pow2((bd - 1) as nat)) by (nonlinear_arith)
                        requires
                            den.value() >= pow2((bd - 1) as nat),
                    ;
                    assert(pow2(bd as nat) == 2 * pow2((bd - 1) as nat)) by (nonlinear_arith)
                        requires
                            pow2(bd as nat) == pow2((bd - 1) as nat) * pow2(1),
                            pow2(1) == 2,
                    ;
                    assert(num.value() >= pow2(bn as nat));
                    assert(false);
                }
                assert(l < bn as i64 - bd as i64 + 1);
                assert(!ge_pow2_scaled(num.value(), den.value(), l as int + 1));
                lemma_ge_pow2_from_one(num.value(), den.value(), l as int + 1);
                assert(false);
            }
            // the exit exponent is the floor exponent of the ratio
            let st = bn as int - bd as int + 1;
            assert(num.value() < pow2(bn as nat));
            assert(den.value() >= pow2((bd - 1) as nat));
            if ge_pow2_scaled(num.value(), den.value(), st) {
                if st >= 0 {
                    vstd::arithmetic::power2::lemma_pow2_adds((bd - 1) as nat, st as nat);
                    lemma_mul_inequality(
                        pow2((bd - 1) as nat) as int,
                        den.value() as int,
                        pow2(st as nat) as int,
                    );
                    lemma_mul_is_commutative(pow2((bd - 1) as nat) as int, pow2(st as nat) as int);
                    lemma_mul_is_commutative(den.value() as int, pow2(st as nat) as int);
                    assert(false);
                } else {
                    vstd::arithmetic::power2::lemma_pow2_adds(bn as nat, (-st) as nat);
                    lemma_pow2_pos((-st) as nat);
                    vstd::arithmetic::mul::lemma_mul_strict_inequality(
                        num.value() as int,
                        pow2(bn as nat) as int,
                        pow2((-st) as nat) as int,
                    );
                    assert(false);
                }
            }
            if l == -(bd as i64) && !ge_pow2_scaled(num.value(), den.value(), l as int) {
                // at minus the divisor's bit length the comparison always holds
                lemma_pow2_pos(bd as nat);
                vstd::arithmetic::mul::lemma_mul_inequality(
                    1,
                    num.value() as int,
                    pow2(bd as nat) as int,
                );
                vstd::arithmetic::mul::lemma_mul_is_commutative(
                    num.value() as int,
                    pow2(bd as nat) as int,
                );
                vstd::arithmetic::mul::lemma_mul_is_commutative(
                    pow2(bd as nat) as int,
                    num.value() as int,
                );
                assert(false);
            }
            assert(ge_pow2_scaled(num.value(), den.value(), l as int));
            assert((l as int) < st);
            assert(!ge_pow2_scaled(num.value(), den.value(), l as int + 1));
            assert(pow2_floor(num.value(), den.value(), l as int));
        }
        let total = ln_core::<B>(&num, &den, l, wp);
        let result = FBig::<R, B>::from_parts(total, -(wp as i64));
        let ctx2 = Context::<R>::new(self.precision);
        let out = FBig::<R, B> { repr: result.repr, context: ctx2 };
        proof {
            assert(out.repr.significand.spec_len() <= 0x4006);
            assert(-crate::fbig::EXP_OP_LIMIT <= out.repr.exponent);
            assert(out.repr.exponent <= crate::fbig::EXP_OP_LIMIT);
            if at_least_two(B as int, x.repr.sig(), x.repr.exp()) {
                // the recomposed value is positive, so its significand is too
                assert(l >= 1);
                assert(total.value() >= 4);
                lemma_pow_positive(B as int, (out.repr.exp() - (-(wp as i64))) as nat);
                assert(out.repr.sig() > 0) by (nonlinear_arith)
                    requires
                        out.repr.sig() * pow(
                            B as int,
                            (out.repr.exp() - (-(wp as i64))) as nat,
                        ) == total.value(),
                        total.value() >= 4,
                        pow(B as int, (out.repr.exp() - (-(wp as i64))) as nat) >= 1,
                ;
            }
        }
        let rounded = out.with_precision(self.precision);
        proof {
            if at_least_two(B as int, x.repr.sig(), x.repr.exp()) {
                match rounded {
                    Approximation::Exact(ref v) => {
                        lemma_same_value_sign(
                            B as int,
                            v.repr.sig(),
                            v.repr.exp(),
                            out.repr.sig(),
                            out.repr.exp(),
                        );
                    },
                    Approximation::Inexact(ref v, sg) => {
                        lemma_ulp_sign(
                            B as int,
                            v.repr.sig(),
                            v.repr.exp(),
                            out.repr.sig(),
                            out.repr.exp(),
                            sg as int,
                        );
                    },
                }
            }
            // the rounded value stands for the fixed-point total
            let b = B as int;
            let w = wp as nat;
            let tot = ln_total_fixed(b, w, num.value(), den.value(), l as int);
            assert(tot == total.value());
            lemma_out_total(b, w, out.repr.sig(), out.repr.exp(), tot);
            match rounded {
                Approximation::Exact(ref v) => {
                    crate::fops::lemma_same_value_trans(
                        b,
                        v.repr.sig(),
                        v.repr.exp(),
                        out.repr.sig(),
                        out.repr.exp(),
                        tot,
                        -(w as int),
                    );
                },
                Approximation::Inexact(ref v, sg) => {
                    if tot != 0 {
                        assert(out.repr.sig() != 0);
                        crate::fops::lemma_ulp_subst(
                            b,
                            v.repr.sig(),
                            v.repr.exp(),
                            out.repr.sig(),
                            out.repr.exp(),
                            tot,
                            -(w as int),
                            sg as int,
                        );
                    }
                },
            }
            assert(pow2_floor(num.value(), den.value(), l as int));
        }
        rounded
    }
}

/// Weak monotonicity of powers of two.
proof fn lemma_pow2_mono_weak(e1: nat, e2: nat)
    requires
        e1 <= e2,
    ensures
        pow2(e1) <= pow2(e2),
{
    if e1 < e2 {
        lemma_pow2_strictly_increases(e1, e2);
    }
}

/// The widths used by the scaling step leave room under a quarter of the
/// capacity.
proof fn lemma_quarter_room()
    ensures
        0x1403 + 8 <= MAX_CAPACITY / 4,
{
    assert(usize::MAX >= 0xffffffff);
    vstd::arithmetic::div_mod::lemma_div_is_ordered(0xffffffff, usize::MAX as int, 64);
    vstd::arithmetic::div_mod::lemma_div_is_ordered(67108863, MAX_CAPACITY as int, 4);
    vstd::arithmetic::div_mod::lemma_fundamental_div_mod(MAX_CAPACITY as int, 4);
}

/// The scaled numerator covers the scaled denominator times the scale.
proof fn lemma_scaled_ge(num: nat, den: nat, big: nat, l: int, numer: nat, denom: nat)
    requires
        ge_pow2_scaled(num, den, l),
        big >= 1,
        num >= 1,
        den >= 1,
        numer == num * big * pow2((if l < 0 {
            -l
        } else {
            0
        }) as nat),
        denom == den * pow2((if l > 0 {
            l
        } else {
            0
        }) as nat),
    ensures
        numer >= denom * big,
        denom >= 1,
{
    lemma2_to64();
    assert(pow2(0) == 1);
    if l >= 0 {
        // numer == num * big, denom == den * 2^l
        assert(numer == num * big) by {
            vstd::arithmetic::mul::lemma_mul_basics((num * big) as int);
        }
        vstd::arithmetic::mul::lemma_mul_inequality(
            (den * pow2(l as nat)) as int,
            num as int,
            big as int,
        );
        vstd::arithmetic::mul::lemma_mul_is_commutative(
            (den * pow2(l as nat)) as int,
            big as int,
        );
        vstd::arithmetic::mul::lemma_mul_is_commutative(num as int, big as int);
        lemma_pow2_pos(l as nat);
        lemma_mul_pos(den, pow2(l as nat));
    } else {
        // numer == num * big * 2^(-l), denom == den
        assert(denom == den) by {
            vstd::arithmetic::mul::lemma_mul_basics(den as int);
        }
        vstd::arithmetic::mul::lemma_mul_inequality(
            den as int,
            (num * pow2((-l) as nat)) as int,
            big as int,
        );
        assert(num * big * pow2((-l) as nat) == (num * pow2((-l) as nat)) * big)
            by (nonlinear_arith);
        vstd::arithmetic::mul::lemma_mul_is_commutative(den as int, big as int);
        vstd::arithmetic::mul::lemma_mul_is_commutative(
            (num * pow2((-l) as nat)) as int,
            big as int,
        );
    }
}

/// One series step keeps the running power below the scale.
proof fn lemma_zpow_step(zp: nat, z2: nat, b2: nat, big: nat, zn: nat)
    requires
        zp < big || zp == 0,
        big >= 1,
        b2 == big * big,
        b2 >= 1,
        zn == (zp * z2) / b2,
        z2 <= b2,
    ensures
        zn < big || zn == 0,
{
    if zp == 0 {
        vstd::arithmetic::mul::lemma_mul_basics(z2 as int);
        vstd::arithmetic::div_mod::lemma_basic_div(0, b2 as int);
    } else {
        // zp * z2 < big * b2, so the quotient is below big
        assert(zp * z2 < big * b2) by (nonlinear_arith)
            requires
                zp < big,
                z2 <= b2,
                big >= 1,
                b2 >= 1,
                zp >= 0,
                z2 >= 0,
        ;
        vstd::arithmetic::div_mod::lemma_multiply_divide_lt(
            (zp * z2) as int,
            b2 as int,
            big as int,
        );
        vstd::arithmetic::mul::lemma_mul_is_commutative(b2 as int, big as int);
    }
}

/// The series sum stays within one extra word of the scale.
proof fn lemma_series_sum_len(s: nat, k: nat, mk: nat, l: nat)
    requires
        s <= k * pow2(64 * l),
        k <= mk,
        mk <= 40000,
    ensures
        s < pow2(64 * (l + 1) as nat),
{
    let p = pow2(64 * l) as int;
    lemma_pow2_pos(64 * l);
    lemma_mul_inequality(k as int, mk as int, p);
    lemma_mul_inequality(mk as int, 65535, p);
    lemma_mul_is_commutative(k as int, p);
    lemma_mul_is_commutative(mk as int, p);
    lemma_mul_is_commutative(65535, p);
    assert(65536 == pow2(16)) by {
        lemma2_to64();
    }
    vstd::arithmetic::power2::lemma_pow2_adds(64 * l, 16);
    lemma_pow2_strictly_increases(64 * l + 16, 64 * (l + 1) as nat);
    assert(p * 65535 < p * 65536) by {
        vstd::arithmetic::mul::lemma_mul_strict_inequality(65535, 65536, p);
        lemma_mul_is_commutative(65535, p);
        lemma_mul_is_commutative(65536, p);
    }
    lemma_mul_is_commutative(p, 65536);
}

/// Adding two bounded parts stays within the operand budget.
proof fn lemma_total_len(total: &IBig, a: &IBig, b: &IBig)
    requires
        total.wf(),
        a.wf(),
        b.wf(),
        total.value() == a.value() + b.value(),
        a.spec_len() <= 0x2000,
        b.spec_len() <= 0x2000,
    ensures
        total.spec_len() <= 0x4004,
{
    crate::ibig::lemma_sign_cases(&total.0);
    crate::ibig::lemma_sign_cases(&a.0);
    crate::ibig::lemma_sign_cases(&b.0);
    crate::ibig::lemma_ibig_mag_bound(a);
    crate::ibig::lemma_ibig_mag_bound(b);
    assert(pow2(64 * a.spec_len()) <= pow2(64 * 0x2000)) by {
        if 64 * a.spec_len() < 64 * 0x2000 {
            lemma_pow2_strictly_increases(64 * a.spec_len(), 64 * 0x2000);
        }
    }
    assert(pow2(64 * b.spec_len()) <= pow2(64 * 0x2000)) by {
        if 64 * b.spec_len() < 64 * 0x2000 {
            lemma_pow2_strictly_increases(64 * b.spec_len(), 64 * 0x2000);
        }
    }
    assert(total.mag() <= a.mag() + b.mag());
    vstd::arithmetic::power2::lemma_pow2_adds(64 * 0x2000, 1);
    lemma2_to64();
    lemma_pow2_strictly_increases(64 * 0x2000 + 1, 64 * 0x4002);
    crate::fbig::lemma_ibig_len_of_parts(total, 0x4002);
}

impl<R: Round, const B: u64> FBig<R, B> {
    /// The natural logarithm, at this number's own precision.
    pub fn ln(&self) -> (r: FBig<R, B>)
        requires
            B >= 2,
            self.wf(),
            self.repr.sig() > 0,
            self.repr.significand.spec_len() <= 0x400,
            -0x1000 <= self.repr.exponent <= 0x1000,
            1 <= self.context.precision <= 0x1000,
        ensures
            r.wf(),
            r.repr.is_normalized(),
            !r.repr.is_infinite_spec(),
            r.context.precision == self.context.precision,
            at_least_two(B as int, self.repr.sig(), self.repr.exp()) ==> r.repr.sig() > 0,
            ({
                let b = B as int;
                let w = (self.context.precision + GUARD_DIGITS) as nat;
                let num = ln_num(b, self.repr.significand.mag(), self.repr.exp());
                let den = ln_den(b, self.repr.exp());
                exists|l: int|
                    #[trigger] pow2_floor(num, den, l) && (ln_rounded_to(
                        b,
                        w,
                        num,
                        den,
                        l,
                        r.repr.sig(),
                        r.repr.exp(),
                        0,
                        true,
                    ) || ln_rounded_to(
                        b,
                        w,
                        num,
                        den,
                        l,
                        r.repr.sig(),
                        r.repr.exp(),
                        1,
                        false,
                    ) || ln_rounded_to(
                        b,
                        w,
                        num,
                        den,
                        l,
                        r.repr.sig(),
                        r.repr.exp(),
                        -1,
                        false,
                    ))
            }),
    {
        let ctx = Context::<R>::new(self.context.precision);
        let res = ctx.ln(self);
        let r = res.value();
        proof {
            let b = B as int;
            let w = (self.context.precision + GUARD_DIGITS) as nat;
            let num = ln_num(b, self.repr.significand.mag(), self.repr.exp());
            let den = ln_den(b, self.repr.exp());
            let jw = choose|j: int|
                #[trigger] pow2_floor(num, den, j) && (match res {
                    Approximation::Exact(v) => ln_rounded_to(
                        b,
                        w,
                        num,
                        den,
                        j,
                        v.repr.sig(),
                        v.repr.exp(),
                        0,
                        true,
                    ),
                    Approximation::Inexact(v, sg) => ln_rounded_to(
                        b,
                        w,
                        num,
                        den,
                        j,
                        v.repr.sig(),
                        v.repr.exp(),
                        sg as int,
                        false,
                    ),
                });
            assert(pow2_floor(num, den, jw));
        }
        r
    }
}

} // verus!
