//! Conversions: byte strings in either endianness, and primitive integers.
//!
//! Byte output is minimal: no leading-zero byte, and zero maps to the empty
//! string.  Together with canonical storage this makes the byte round trip
//! exact.

use vstd::prelude::*;
use vstd::arithmetic::power::{pow, lemma_pow_adds, lemma_pow1, lemma_pow0};
use vstd::arithmetic::power2::{pow2, lemma_pow2_adds, lemma_pow2_pos, lemma2_to64};
use vstd::arithmetic::mul::{lemma_mul_is_commutative, lemma_mul_is_associative};
use crate::buffer::MAX_CAPACITY;
use crate::math::{lemma_mul_distribute_add2, lemma_mul_bound_lt};
use crate::primitive::{Word, DoubleWord};
use crate::repr::{Repr, TypedRepr, lemma_large_value_lower};
use crate::sign::Sign;
use crate::ubig::{UBig, lemma_value_bound, lemma_len_bounded};
use crate::ibig::IBig;

verus! {

/// The value of a little-endian byte string.
pub open spec fn le_bytes_value(s: Seq<u8>) -> nat
    decreases s.len(),
{
    if s.len() == 0 {
        0
    } else {
        (s.first() as nat) + 256 * le_bytes_value(s.drop_first())
    }
}

/// The value of a big-endian byte string.
pub open spec fn be_bytes_value(s: Seq<u8>) -> nat
    decreases s.len(),
{
    if s.len() == 0 {
        0
    } else {
        (s.last() as nat) + 256 * be_bytes_value(s.drop_last())
    }
}

/// Appending a byte to a little-endian string adds it at the top.
pub proof fn lemma_le_bytes_push(s: Seq<u8>, b: u8)
    ensures
        le_bytes_value(s.push(b)) == le_bytes_value(s) + b * pow(256, s.len()),
    decreases s.len(),
{
    if s.len() == 0 {
        assert(s.push(b).len() == 1);
        assert(s.push(b).first() == b);
        assert(s.push(b).drop_first() =~= Seq::<u8>::empty());
        assert(le_bytes_value(Seq::<u8>::empty()) == 0);
        lemma_pow0(256);
    } else {
        assert(s.push(b).first() == s.first());
        assert(s.push(b).drop_first() =~= s.drop_first().push(b));
        lemma_le_bytes_push(s.drop_first(), b);
        lemma_pow_adds(256, (s.len() - 1) as nat, 1);
        lemma_pow1(256);
        // 256 * (x + b * 256^(n-1)) == 256 * x + b * 256^n
        let x = le_bytes_value(s.drop_first()) as int;
        let p = pow(256, (s.len() - 1) as nat) as int;
        assert(256 * (x + b * p) == 256 * x + b * (p * 256)) by {
            vstd::arithmetic::mul::lemma_mul_is_distributive_add(256, x, b * p);
            lemma_mul_is_associative(256, b as int, p);
            lemma_mul_is_commutative(256, b as int);
            lemma_mul_is_associative(b as int, 256, p);
            lemma_mul_is_commutative(256, p);
            lemma_mul_is_associative(b as int, p, 256);
        }
    }
}

/// A big-endian string that mirrors a little-endian one denotes the same
/// value.
pub proof fn lemma_be_reverse(s: Seq<u8>, t: Seq<u8>)
    requires
        s.len() == t.len(),
        forall|j: int| 0 <= j < s.len() ==> t[j] == s[s.len() - 1 - j],
    ensures
        be_bytes_value(t) == le_bytes_value(s),
    decreases s.len(),
{
    if s.len() > 0 {
        assert(t.last() == s.first());
        assert(t.drop_last().len() == s.drop_first().len());
        assert(forall|j: int|
            0 <= j < s.drop_first().len() ==> t.drop_last()[j] == s.drop_first()[s.drop_first().len()
                - 1 - j]);
        lemma_be_reverse(s.drop_first(), t.drop_last());
    }
}

/// Little-endian byte strings denote less than `2^(8n)`.
pub proof fn lemma_le_bytes_bound(s: Seq<u8>)
    ensures
        le_bytes_value(s) < pow2(8 * s.len()),
    decreases s.len(),
{
    if s.len() == 0 {
        lemma_pow2_pos(0);
        lemma2_to64();
    } else {
        lemma_le_bytes_bound(s.drop_first());
        lemma_pow2_adds(8, 8 * (s.len() - 1) as nat);
        lemma2_to64();
        let x = le_bytes_value(s.drop_first()) as int;
        let p = pow2(8 * (s.len() - 1) as nat) as int;
        assert(256 * x <= 256 * (p - 1)) by {
            vstd::arithmetic::mul::lemma_mul_inequality(x, p - 1, 256);
            lemma_mul_is_commutative(x, 256);
            lemma_mul_is_commutative(p - 1, 256);
        }
        assert(256 * (p - 1) == 256 * p - 256) by {
            vstd::arithmetic::mul::lemma_mul_is_distributive_sub(256, p, 1);
        }
    }
}

/// A narrowing conversion's value did not fit the target type.
#[derive(Clone, Copy, PartialEq, Eq, Debug, Structural)]
pub struct OutOfBoundsError;

impl UBig {
    /// The value as a `u64`, if it fits.
    pub fn try_to_u64(&self) -> (r: Result<u64, OutOfBoundsError>)
        requires
            self.wf(),
        ensures
            match r {
                Ok(v) => self.value() < 0x1_0000_0000_0000_0000 && v == self.value(),
                Err(_) => self.value() >= 0x1_0000_0000_0000_0000,
            },
    {
        proof {
            crate::primitive::lemma_word_base();
            lemma_pow2_adds(64, 64);
        }
        match &self.0.magnitude {
            TypedRepr::Small(dw) => {
                if *dw < crate::primitive::DWORD_BASE {
                    Ok(*dw as u64)
                } else {
                    Err(OutOfBoundsError)
                }
            },
            TypedRepr::Large(b) => {
                proof {
                    lemma_large_value_lower(b@);
                    vstd::arithmetic::power2::lemma_pow2_strictly_increases(64, 128);
                }
                Err(OutOfBoundsError)
            },
        }
    }

    /// The value as a `u128`, if it fits.
    pub fn try_to_u128(&self) -> (r: Result<u128, OutOfBoundsError>)
        requires
            self.wf(),
        ensures
            match r {
                Ok(v) => self.value() < pow2(128) && v == self.value(),
                Err(_) => self.value() >= pow2(128),
            },
    {
        proof {
            crate::primitive::lemma_word_base();
            vstd::arithmetic::power2::lemma2_to64_rest();
            lemma_pow2_adds(64, 64);
        }
        match &self.0.magnitude {
            TypedRepr::Small(dw) => Ok(*dw),
            TypedRepr::Large(b) => {
                proof {
                    lemma_large_value_lower(b@);
                }
                Err(OutOfBoundsError)
            },
        }
    }

    /// Construct from little-endian bytes.impl UBig {
    /// Construct from little-endian bytes.
    pub fn from_le_bytes(bytes: &[u8]) -> (r: UBig)
        requires
            bytes@.len() <= MAX_CAPACITY,
        ensures
            r.wf(),
            r.value() == le_bytes_value(bytes@),
    {
        let n = bytes.len();
        let c256 = UBig::from_word(256);
        let mut v = UBig::zero();
        let mut i: usize = n;
        proof {
            assert(bytes@.skip(n as int).len() == 0);
        }
        while i > 0
            invariant
                i <= n,
                n == bytes@.len(),
                n <= MAX_CAPACITY,
                v.wf(),
                c256.wf(),
                c256.value() == 256,
                c256.spec_len() == 1,
                v.value() == le_bytes_value(bytes@.skip(i as int)),
            decreases i,
        {
            proof {
                lemma_le_bytes_bound(bytes@.skip(i as int));
                lemma_bytes_len_words(bytes@.skip(i as int).len() as nat);
                lemma_len_bounded_or_zero(&v, ((n - i) / 8 + 1) as nat);
                lemma_cap_slack((n - i) as nat);
            }
            i -= 1;
            let b = bytes[i];
            let shifted = v.mul(&c256);
            proof {
                // the shifted value still fits the padded word count
                lemma_le_bytes_bound(bytes@.skip(i as int));
                lemma_bytes_len_words(bytes@.skip(i as int).len() as nat);
                assert(bytes@.skip(i as int).drop_first() =~= bytes@.skip(i + 1));
                assert(bytes@.skip(i as int).first() == bytes@[i as int]);
                lemma_shifted_fits(v.value(), ((n - i - 1)) as nat);
                lemma_len_bounded_or_zero(&shifted, (((n - i - 1)) / 8 + 2) as nat);
                lemma_cap_slack((n - i - 1) as nat);
            }
            let vb = UBig::from_word(b as u64);
            v = shifted.add(&vb);
        }
        proof {
            assert(bytes@.skip(0) =~= bytes@);
        }
        v
    }

    /// Construct from big-endian bytes.
    pub fn from_be_bytes(bytes: &[u8]) -> (r: UBig)
        requires
            bytes@.len() <= MAX_CAPACITY,
        ensures
            r.wf(),
            r.value() == be_bytes_value(bytes@),
    {
        let n = bytes.len();
        let c256 = UBig::from_word(256);
        let mut v = UBig::zero();
        let mut i: usize = 0;
        proof {
            assert(bytes@.take(0).len() == 0);
        }
        while i < n
            invariant
                i <= n,
                n == bytes@.len(),
                n <= MAX_CAPACITY,
                v.wf(),
                c256.wf(),
                c256.value() == 256,
                c256.spec_len() == 1,
                v.value() == be_bytes_value(bytes@.take(i as int)),
            decreases n - i,
        {
            proof {
                lemma_be_bytes_bound(bytes@.take(i as int));
                lemma_bytes_len_words(i as nat);
                lemma_len_bounded_or_zero(&v, (i / 8 + 1) as nat);
                lemma_cap_slack(i as nat);
            }
            let b = bytes[i];
            let shifted = v.mul(&c256);
            proof {
                lemma_be_bytes_bound(bytes@.take(i as int));
                lemma_bytes_len_words(i as nat);
                assert(bytes@.take(i + 1).drop_last() =~= bytes@.take(i as int));
                assert(bytes@.take(i + 1).last() == bytes@[i as int]);
                lemma_shifted_fits(v.value(), i as nat);
                lemma_len_bounded_or_zero(&shifted, (i / 8 + 2) as nat);
                lemma_cap_slack(i as nat);
            }
            let vb = UBig::from_word(b as u64);
            v = shifted.add(&vb);
            i += 1;
        }
        proof {
            assert(bytes@.take(n as int) =~= bytes@);
        }
        v
    }

    /// The minimal little-endian byte string of the value; empty for zero.
    pub fn to_le_bytes(&self) -> (r: Vec<u8>)
        requires
            self.wf(),
            self.spec_len() + 4 <= MAX_CAPACITY,
        ensures
            le_bytes_value(r@) == self.value(),
            r@.len() > 0 ==> r@.last() != 0,
            self.value() == 0 ==> r@.len() == 0,
            r@.len() <= 8 * self.spec_len(),
    {
        let c256 = UBig::from_word(256);
        let mut v = self.clone();
        let mut bytes: Vec<u8> = Vec::new();
        proof {
            lemma_pow0(256);
            lemma_value_bound(self);
            // the value is below the 256-power matching the word width
            vstd::arithmetic::power::lemma_pow_multiplies(2, 8, (8 * self.spec_len()) as nat);
            vstd::arithmetic::power2::lemma_pow2(64 * self.spec_len());
            vstd::arithmetic::power2::lemma_pow2(8);
            vstd::arithmetic::power2::lemma2_to64();
            assert(pow(256, (8 * self.spec_len()) as nat) == pow2(64 * self.spec_len()));
        }
        while !v.is_zero()
            invariant
                v.wf(),
                c256.wf(),
                c256.value() == 256,
                c256.spec_len() == 1,
                v.spec_len() + 4 <= MAX_CAPACITY,
                le_bytes_value(bytes@) + v.value() * pow(256, bytes@.len() as nat) == self.value(),
                bytes@.len() > 0 && v.value() == 0 ==> bytes@.last() != 0,
                bytes@.len() > 0 ==> pow(256, (bytes@.len() - 1) as nat) <= self.value(),
                self.value() < pow(256, (8 * self.spec_len()) as nat),
            decreases v.value(),
        {
            proof {
                // a further byte is taken only while the rest is at least one
                vstd::arithmetic::power::lemma_pow_positive(256, bytes@.len() as nat);
                vstd::arithmetic::mul::lemma_mul_inequality(
                    1,
                    v.value() as int,
                    pow(256, bytes@.len() as nat),
                );
                lemma_mul_is_commutative(1, pow(256, bytes@.len() as nat));
                lemma_mul_is_commutative(v.value() as int, pow(256, bytes@.len() as nat));
                vstd::arithmetic::mul::lemma_mul_basics(pow(256, bytes@.len() as nat));
            }
            let (q, rem) = v.div_rem(&c256);
            let b: u8 = match &rem.0.magnitude {
                TypedRepr::Small(dw) => (*dw % 256) as u8,
                TypedRepr::Large(w) => {
                    proof {
                        lemma_large_value_lower(w@);
                        crate::primitive::lemma_word_base();
                        lemma_pow2_adds(64, 64);
                        vstd::arithmetic::power2::lemma2_to64_rest();
                        assert(false);
                    }
                    0
                },
            };
            let ghost k = bytes@.len() as nat;
            let ghost old_bytes = bytes@;
            let ghost vv = v.value();
            bytes.push(b);
            proof {
                lemma_le_bytes_push(old_bytes, b);
                lemma_pow_adds(256, k, 1);
                lemma_pow1(256);
                // (256 q + b) * 256^k == b * 256^k + q * 256^(k+1)
                let p = pow(256, k) as int;
                let qv = q.value() as int;
                assert(vv as int == qv * 256 + b) by {
                    lemma_mul_is_commutative(qv, 256);
                }
                assert((qv * 256 + b) * p == b * p + qv * (p * 256)) by {
                    lemma_mul_distribute_add2(qv * 256, b as int, p);
                    lemma_mul_is_associative(qv, 256, p);
                    lemma_mul_is_commutative(256, p);
                    lemma_mul_is_associative(qv, p, 256);
                }
                // the loop variant shrinks: q < v
                vstd::arithmetic::div_mod::lemma_fundamental_div_mod_converse(
                    vv as int,
                    256,
                    qv,
                    rem.value() as int,
                );
                vstd::arithmetic::div_mod::lemma_div_is_strictly_smaller(vv as int, 256);
                lemma_len_bounded_le(&q, &v);
            }
            v = q;
        }
        proof {
            vstd::arithmetic::mul::lemma_mul_basics(pow(256, bytes@.len() as nat) as int);
            if bytes@.len() > 0 {
                lemma_le_bytes_lower(bytes@);
            }
            if bytes@.len() > 8 * self.spec_len() {
                vstd::arithmetic::power::lemma_pow_increases(
                    256,
                    (8 * self.spec_len()) as nat,
                    (bytes@.len() - 1) as nat,
                );
                assert(false);
            }
        }
        bytes
    }

    /// The minimal big-endian byte string of the value; empty for zero.
    pub fn to_be_bytes(&self) -> (r: Vec<u8>)
        requires
            self.wf(),
            self.spec_len() + 4 <= MAX_CAPACITY,
        ensures
            be_bytes_value(r@) == self.value(),
            r@.len() > 0 ==> r@[0] != 0,
            self.value() == 0 ==> r@.len() == 0,
            r@.len() <= 8 * self.spec_len(),
    {
        let le = self.to_le_bytes();
        let n = le.len();
        let mut out: Vec<u8> = Vec::new();
        let mut j: usize = 0;
        while j < n
            invariant
                j <= n,
                n == le@.len(),
                out@.len() == j,
                forall|k: int| 0 <= k < j ==> out@[k] == le@[n - 1 - k],
            decreases n - j,
        {
            let b = le[n - 1 - j];
            out.push(b);
            j += 1;
        }
        proof {
            lemma_be_reverse(le@, out@);
            if n > 0 {
                assert(out@[0] == le@[n - 1]);
                assert(le@.last() == le@[n - 1]);
            }
        }
        out
    }
}

/// A little-endian byte string with a nonzero top byte is nonzero.
proof fn lemma_le_bytes_lower(s: Seq<u8>)
    requires
        s.len() > 0,
        s.last() != 0,
    ensures
        le_bytes_value(s) > 0,
    decreases s.len(),
{
    if s.len() == 1 {
        assert(s.first() == s.last());
    } else {
        assert(s.drop_first().last() == s.last());
        lemma_le_bytes_lower(s.drop_first());
    }
}

/// Big-endian byte strings denote less than `2^(8n)`.
pub proof fn lemma_be_bytes_bound(s: Seq<u8>)
    ensures
        be_bytes_value(s) < pow2(8 * s.len()),
    decreases s.len(),
{
    if s.len() == 0 {
        lemma_pow2_pos(0);
        lemma2_to64();
    } else {
        lemma_be_bytes_bound(s.drop_last());
        lemma_pow2_adds(8, 8 * (s.len() - 1) as nat);
        lemma2_to64();
        let x = be_bytes_value(s.drop_last()) as int;
        let p = pow2(8 * (s.len() - 1) as nat) as int;
        assert(256 * x <= 256 * (p - 1)) by {
            vstd::arithmetic::mul::lemma_mul_inequality(x, p - 1, 256);
            lemma_mul_is_commutative(x, 256);
            lemma_mul_is_commutative(p - 1, 256);
        }
        assert(256 * (p - 1) == 256 * p - 256) by {
            vstd::arithmetic::mul::lemma_mul_is_distributive_sub(256, p, 1);
        }
    }
}

/// `k` bytes of value fit in `k/8 + 1` words, with room for one more byte.
proof fn lemma_bytes_len_words(k: nat)
    ensures
        pow2(8 * k) <= pow2(64 * (k / 8 + 1)),
        pow2(8 * k + 8) <= pow2(64 * (k / 8 + 1)),
{
    lemma_bytes_len_words_core(k);
    if 8 * k + 8 < 64 * (k / 8 + 1) {
        vstd::arithmetic::power2::lemma_pow2_strictly_increases(8 * k + 8, 64 * (k / 8 + 1));
    }
}

proof fn lemma_bytes_len_words_core(k: nat)
    ensures
        8 * k + 8 <= 64 * (k / 8 + 1),
        pow2(8 * k) <= pow2(64 * (k / 8 + 1)),
{
    vstd::arithmetic::div_mod::lemma_fundamental_div_mod(k as int, 8);
    assert(64 * (k / 8 + 1) == 64 * (k / 8) + 64) by {
        lemma_mul_distribute_add2((k / 8) as int, 1, 64);
        lemma_mul_is_commutative(64, (k / 8) as int + 1);
        lemma_mul_is_commutative(64, (k / 8) as int);
    }
    assert(8 * k == 8 * (8 * (k / 8) + k % 8)) by {
        lemma_mul_is_commutative(8, k as int);
    }
    assert(8 * k <= 64 * (k / 8) + 64) by {
        vstd::arithmetic::mul::lemma_mul_is_distributive_add(
            8,
            8 * (k / 8) as int,
            (k % 8) as int,
        );
        lemma_mul_is_associative(8, 8, (k / 8) as int);
    }
    if 8 * k < 64 * (k / 8 + 1) {
        vstd::arithmetic::power2::lemma_pow2_strictly_increases(8 * k, 64 * (k / 8 + 1));
    }
}

/// A value below `2^(8k)` times 256 stays below `2^(64(k/8 + 2))`.
proof fn lemma_shifted_fits(v: nat, k: nat)
    requires
        v < pow2(8 * k),
    ensures
        v * 256 < pow2(64 * (k / 8 + 2)),
{
    lemma2_to64();
    lemma_pow2_adds(8 * k, 8);
    vstd::arithmetic::mul::lemma_mul_inequality(v as int, pow2(8 * k) as int - 1, 256);
    assert((pow2(8 * k) as int - 1) * 256 == pow2(8 * k) * 256 - 256) by {
        vstd::arithmetic::mul::lemma_mul_is_distributive_sub_other_way(
            256,
            pow2(8 * k) as int,
            1,
        );
    }
    lemma_mul_is_commutative(pow2(8 * k) as int, 256);
    lemma_bytes_len_words(k);
    assert(64 * (k / 8 + 1) <= 64 * (k / 8 + 2));
    if 64 * (k / 8 + 1) < 64 * (k / 8 + 2) {
        vstd::arithmetic::power2::lemma_pow2_strictly_increases(
            64 * (k / 8 + 1),
            64 * (k / 8 + 2),
        );
    }
}

/// Word counts derived from byte counts stay far below the capacity limit.
proof fn lemma_cap_slack(k: nat)
    requires
        k <= MAX_CAPACITY,
    ensures
        k / 8 + 8 <= MAX_CAPACITY,
{
    vstd::arithmetic::div_mod::lemma_div_is_ordered(k as int, MAX_CAPACITY as int, 8);
    assert(usize::MAX >= 0xffffffff);
    vstd::arithmetic::div_mod::lemma_div_is_ordered(0xffffffff, usize::MAX as int, 64);
    assert(MAX_CAPACITY >= 16);
    vstd::arithmetic::div_mod::lemma_div_is_ordered(16, MAX_CAPACITY as int, 8);
    vstd::arithmetic::div_mod::lemma_fundamental_div_mod(MAX_CAPACITY as int, 8);
    assert(MAX_CAPACITY / 8 + 8 <= MAX_CAPACITY);
}

/// Length bound, allowing the zero value.
proof fn lemma_len_bounded_or_zero(x: &UBig, k: nat)
    requires
        x.wf(),
        x.value() < pow2(64 * k) || x.value() == 0,
        k >= 1,
    ensures
        x.spec_len() <= k,
{
    if x.value() == 0 {
        lemma_pow2_pos(64 * k);
        lemma_len_bounded(x, k);
    } else {
        lemma_len_bounded(x, k);
    }
}

/// A smaller value never needs more words.
proof fn lemma_len_bounded_le(q: &UBig, v: &UBig)
    requires
        q.wf(),
        v.wf(),
        q.value() <= v.value(),
    ensures
        q.spec_len() <= v.spec_len() || q.spec_len() <= 2,
{
    lemma_value_bound(v);
    if q.value() < pow2(64 * v.spec_len()) {
        lemma_len_bounded(q, v.spec_len());
    }
}

impl From<u8> for UBig {
    fn from(v: u8) -> (r: UBig) {
        UBig(Repr::from_word(v as u64))
    }
}

impl vstd::std_specs::convert::FromSpecImpl<u8> for UBig {
    open spec fn obeys_from_spec() -> bool {
        true
    }

    open spec fn from_spec(v: u8) -> UBig {
        UBig(Repr { sign: Sign::Positive, magnitude: TypedRepr::Small(v as u128) })
    }
}

impl From<u16> for UBig {
    fn from(v: u16) -> (r: UBig) {
        UBig(Repr::from_word(v as u64))
    }
}

impl vstd::std_specs::convert::FromSpecImpl<u16> for UBig {
    open spec fn obeys_from_spec() -> bool {
        true
    }

    open spec fn from_spec(v: u16) -> UBig {
        UBig(Repr { sign: Sign::Positive, magnitude: TypedRepr::Small(v as u128) })
    }
}

impl From<u32> for UBig {
    fn from(v: u32) -> (r: UBig) {
        UBig(Repr::from_word(v as u64))
    }
}

impl vstd::std_specs::convert::FromSpecImpl<u32> for UBig {
    open spec fn obeys_from_spec() -> bool {
        true
    }

    open spec fn from_spec(v: u32) -> UBig {
        UBig(Repr { sign: Sign::Positive, magnitude: TypedRepr::Small(v as u128) })
    }
}

impl From<u64> for UBig {
    fn from(v: u64) -> (r: UBig) {
        UBig(Repr::from_word(v))
    }
}

impl vstd::std_specs::convert::FromSpecImpl<u64> for UBig {
    open spec fn obeys_from_spec() -> bool {
        true
    }

    open spec fn from_spec(v: u64) -> UBig {
        UBig(Repr { sign: Sign::Positive, magnitude: TypedRepr::Small(v as u128) })
    }
}

impl From<usize> for UBig {
    fn from(v: usize) -> (r: UBig) {
        UBig(Repr::from_word(v as u64))
    }
}

impl vstd::std_specs::convert::FromSpecImpl<usize> for UBig {
    open spec fn obeys_from_spec() -> bool {
        true
    }

    open spec fn from_spec(v: usize) -> UBig {
        UBig(Repr { sign: Sign::Positive, magnitude: TypedRepr::Small(v as u128) })
    }
}

impl From<u128> for UBig {
    fn from(v: u128) -> (r: UBig) {
        UBig(Repr::from_dword(v))
    }
}

impl vstd::std_specs::convert::FromSpecImpl<u128> for UBig {
    open spec fn obeys_from_spec() -> bool {
        true
    }

    open spec fn from_spec(v: u128) -> UBig {
        UBig(Repr { sign: Sign::Positive, magnitude: TypedRepr::Small(v) })
    }
}

impl From<bool> for UBig {
    fn from(v: bool) -> (r: UBig) {
        if v {
            UBig(Repr::from_word(1))
        } else {
            UBig(Repr::from_word(0))
        }
    }
}

impl vstd::std_specs::convert::FromSpecImpl<bool> for UBig {
    open spec fn obeys_from_spec() -> bool {
        true
    }

    open spec fn from_spec(v: bool) -> UBig {
        UBig(
            Repr {
                sign: Sign::Positive,
                magnitude: TypedRepr::Small(
                    if v {
                        1u128
                    } else {
                        0u128
                    },
                ),
            },
        )
    }
}

impl From<UBig> for IBig {
    fn from(v: UBig) -> (r: IBig) {
        IBig(v.0)
    }
}

impl vstd::std_specs::convert::FromSpecImpl<UBig> for IBig {
    open spec fn obeys_from_spec() -> bool {
        true
    }

    open spec fn from_spec(v: UBig) -> IBig {
        IBig(v.0)
    }
}

impl From<u64> for IBig {
    fn from(v: u64) -> (r: IBig) {
        IBig(Repr::from_word(v))
    }
}

impl vstd::std_specs::convert::FromSpecImpl<u64> for IBig {
    open spec fn obeys_from_spec() -> bool {
        true
    }

    open spec fn from_spec(v: u64) -> IBig {
        IBig(Repr { sign: Sign::Positive, magnitude: TypedRepr::Small(v as u128) })
    }
}

impl From<u128> for IBig {
    fn from(v: u128) -> (r: IBig) {
        IBig(Repr::from_dword(v))
    }
}

impl vstd::std_specs::convert::FromSpecImpl<u128> for IBig {
    open spec fn obeys_from_spec() -> bool {
        true
    }

    open spec fn from_spec(v: u128) -> IBig {
        IBig(Repr { sign: Sign::Positive, magnitude: TypedRepr::Small(v) })
    }
}

impl From<i32> for IBig {
    fn from(v: i32) -> (r: IBig) {
        IBig(ibig_repr_from_i128(v as i128))
    }
}

impl vstd::std_specs::convert::FromSpecImpl<i32> for IBig {
    open spec fn obeys_from_spec() -> bool {
        true
    }

    open spec fn from_spec(v: i32) -> IBig {
        IBig(spec_repr_from_signed(v as int))
    }
}

impl From<i64> for IBig {
    fn from(v: i64) -> (r: IBig) {
        IBig(ibig_repr_from_i128(v as i128))
    }
}

impl vstd::std_specs::convert::FromSpecImpl<i64> for IBig {
    open spec fn obeys_from_spec() -> bool {
        true
    }

    open spec fn from_spec(v: i64) -> IBig {
        IBig(spec_repr_from_signed(v as int))
    }
}

impl From<i128> for IBig {
    fn from(v: i128) -> (r: IBig) {
        IBig(ibig_repr_from_i128(v))
    }
}

impl vstd::std_specs::convert::FromSpecImpl<i128> for IBig {
    open spec fn obeys_from_spec() -> bool {
        true
    }

    open spec fn from_spec(v: i128) -> IBig {
        IBig(spec_repr_from_signed(v as int))
    }
}

impl From<isize> for IBig {
    fn from(v: isize) -> (r: IBig) {
        IBig(ibig_repr_from_i128(v as i128))
    }
}

impl vstd::std_specs::convert::FromSpecImpl<isize> for IBig {
    open spec fn obeys_from_spec() -> bool {
        true
    }

    open spec fn from_spec(v: isize) -> IBig {
        IBig(spec_repr_from_signed(v as int))
    }
}

/// The canonical representation of a signed value that fits a double word.
pub open spec fn spec_repr_from_signed(v: int) -> Repr {
    if v >= 0 {
        Repr { sign: Sign::Positive, magnitude: TypedRepr::Small(v as u128) }
    } else {
        Repr { sign: Sign::Negative, magnitude: TypedRepr::Small((-v) as u128) }
    }
}

/// Build a representation from a signed primitive.
fn ibig_repr_from_i128(v: i128) -> (r: Repr)
    ensures
        r == spec_repr_from_signed(v as int),
        r.wf(),
        r.value() == v,
{
    if v >= 0 {
        let r = Repr { sign: Sign::Positive, magnitude: TypedRepr::Small(v as u128) };
        proof {
            assert(r.value() == 1 * r.mag());
        }
        r
    } else {
        let m: u128 = ((-(v + 1)) as u128) + 1;
        let r = Repr { sign: Sign::Negative, magnitude: TypedRepr::Small(m) };
        proof {
            assert(r.value() == (-1) * (m as int));
        }
        r
    }
}

} // verus!
