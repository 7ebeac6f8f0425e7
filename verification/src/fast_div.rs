//! Precomputed divisors for repeated division by one modulus.
//!
//! Construction normalizes the divisor so that its top bit is set and caches
//! the shift; the remainder operations return the remainder in that
//! normalized (shifted) scale, as the callers expect to unshift once.

use vstd::prelude::*;
use vstd::arithmetic::power2::{pow2, lemma_pow2_adds, lemma_pow2_pos,
    lemma_pow2_strictly_increases, lemma2_to64, lemma2_to64_rest};
use vstd::arithmetic::div_mod::{lemma_fundamental_div_mod, lemma_fundamental_div_mod_converse,
    lemma_mod_division_less_than_divisor};
use vstd::arithmetic::mul::{lemma_mul_inequality, lemma_mul_is_commutative, lemma_mul_basics};
use crate::bits::{bit_len_word, bit_len_dword, is_bit_len};
use crate::buffer::{Buffer, MAX_CAPACITY};
use crate::math::seq_value;
use crate::primitive::{Word, DoubleWord, word_base, lemma_word_base, DWORD_BASE};
use crate::repr::{Repr, TypedRepr};
use crate::shift_ops::pow2_word;
use crate::ubig::{UBig, lemma_value_bound, lemma_len_bounded};

verus! {

/// A precomputed single-word divisor.
pub struct ConstSingleDivisor {
    pub shift: u32,
    pub normalized: Word,
}

impl ConstSingleDivisor {
    /// The original divisor.
    pub open spec fn divisor_spec(&self) -> nat {
        (self.normalized as nat) / pow2(self.shift as nat)
    }

    /// The shift is below the word width and recovers a nonzero divisor whose
    /// normalized form has the top bit set.
    pub open spec fn wf(&self) -> bool {
        &&& self.shift < 64
        &&& self.normalized >= pow2(63)
        &&& self.normalized as nat == self.divisor_spec() * pow2(self.shift as nat)
    }

    /// Precompute a single-word divisor.
    pub fn new(n: Word) -> (r: ConstSingleDivisor)
        requires
            n > 0,
        ensures
            r.wf(),
            r.divisor_spec() == n,
    {
        let bl = bit_len_word(n);
        let shift = 64 - bl;
        let p = pow2_word(shift);
        proof {
            lemma_pow2_pos(shift as nat);
            lemma_pow2_pos((bl - 1) as nat);
            lemma_pow2_adds((bl - 1) as nat, shift as nat);
            lemma2_to64_rest();
            // n * 2^shift fits a word and has the top bit set
            lemma_mul_inequality(n as int, pow2(bl as nat) - 1, pow2(shift as nat) as int);
            lemma_pow2_adds(bl as nat, shift as nat);
            crate::math::lemma_mul_distribute_sub2(
                pow2(bl as nat) as int,
                1,
                pow2(shift as nat) as int,
            );
            lemma_mul_inequality(
                pow2((bl - 1) as nat) as int,
                n as int,
                pow2(shift as nat) as int,
            );
        }
        let normalized = n * p;
        proof {
            lemma_fundamental_div_mod_converse(
                normalized as int,
                pow2(shift as nat) as int,
                n as int,
                0,
            );
        }
        ConstSingleDivisor { shift, normalized }
    }

    /// The original (unnormalized) divisor.
    pub fn divisor(&self) -> (r: Word)
        requires
            self.wf(),
        ensures
            r == self.divisor_spec(),
            r > 0,
    {
        proof {
            lemma_divisor_pos(self);
        }
        let p = pow2_word(self.shift);
        self.normalized / p
    }

    /// `(word << shift) % self`, still in the shifted scale.
    pub fn rem_word(&self, word: Word) -> (r: Word)
        requires
            self.wf(),
        ensures
            r == (word as nat % self.divisor_spec()) * pow2(self.shift as nat),
    {
        let d = self.divisor();
        let p = pow2_word(self.shift);
        proof {
            lemma_mod_division_less_than_divisor(word as int, d as int);
            lemma_scaled_rem_fits(
                (word % d) as nat,
                d as nat,
                self.shift as nat,
                self.normalized as nat,
            );
        }
        (word % d) * p
    }

    /// `(dword << shift) % self`, still in the shifted scale.
    pub fn rem_dword(&self, dword: DoubleWord) -> (r: Word)
        requires
            self.wf(),
        ensures
            r == (dword as nat % self.divisor_spec()) * pow2(self.shift as nat),
    {
        let d = self.divisor();
        let p = pow2_word(self.shift);
        let rem = (dword % (d as u128)) as u64;
        proof {
            lemma_mod_division_less_than_divisor(dword as int, d as int);
            lemma_scaled_rem_fits(rem as nat, d as nat, self.shift as nat, self.normalized as nat);
        }
        rem * p
    }

    /// `(words << shift) % self`, still in the shifted scale.
    pub fn rem_large(&self, words: &[Word]) -> (r: Word)
        requires
            self.wf(),
            words@.len() <= MAX_CAPACITY,
        ensures
            r == (seq_value(words@) % self.divisor_spec()) * pow2(self.shift as nat),
    {
        let d = self.divisor();
        let p = pow2_word(self.shift);
        let mut buf = Buffer::from_words(words);
        let rem = crate::shift_ops::div_by_word_in_place(&mut buf, d);
        proof {
            crate::div_ops::lemma_euclidean_unique(
                seq_value(words@),
                d as nat,
                seq_value(buf@),
                rem as nat,
            );
            lemma_scaled_rem_fits(rem as nat, d as nat, self.shift as nat, self.normalized as nat);
        }
        rem * p
    }
}

/// The normalized divisor recovers a positive original.
pub proof fn lemma_divisor_pos(s: &ConstSingleDivisor)
    requires
        s.wf(),
    ensures
        s.divisor_spec() > 0,
{
    lemma_pow2_pos(s.shift as nat);
    lemma_pow2_pos(63);
    if s.divisor_spec() == 0 {
        lemma_mul_basics(pow2(s.shift as nat) as int);
    }
}

/// A remainder scaled back up stays below the normalized divisor, hence
/// below the word range.
proof fn lemma_scaled_rem_fits(rem: nat, d: nat, shift: nat, normalized: nat)
    requires
        rem < d || (rem == 0 && d == 0),
        normalized == d * pow2(shift),
        normalized < pow2(64) || normalized <= 0xffff_ffff_ffff_ffff,
    ensures
        rem * pow2(shift) < pow2(64) || rem * pow2(shift) <= normalized,
        rem * pow2(shift) <= normalized,
{
    lemma_pow2_pos(shift);
    lemma_mul_inequality(rem as int, d as int, pow2(shift) as int);
}

/// A precomputed double-word divisor.
pub struct ConstDoubleDivisor {
    pub shift: u32,
    pub normalized: DoubleWord,
}

impl ConstDoubleDivisor {
    /// The original divisor.
    pub open spec fn divisor_spec(&self) -> nat {
        (self.normalized as nat) / pow2(self.shift as nat)
    }

    /// Normalized to the top bit of the double word.
    pub open spec fn wf(&self) -> bool {
        &&& self.shift < 64
        &&& self.normalized >= pow2(127)
        &&& self.normalized as nat == self.divisor_spec() * pow2(self.shift as nat)
        &&& self.divisor_spec() >= pow2(64)
    }

    /// Precompute a double-word divisor; it must not fit one word.
    pub fn new(n: DoubleWord) -> (r: ConstDoubleDivisor)
        requires
            n >= 0x1_0000_0000_0000_0000,
        ensures
            r.wf(),
            r.divisor_spec() == n,
    {
        let bl = bit_len_dword(n);
        proof {
            lemma2_to64_rest();
            if bl < 65 {
                assert(pow2(64) <= n as nat);
                assert(pow2(bl as nat) <= pow2(64)) by {
                    if (bl as nat) < 64 {
                        lemma_pow2_strictly_increases(bl as nat, 64);
                    }
                }
                assert(false);
            }
        }
        let shift = 128 - bl;
        proof {
            lemma_pow2_pos(shift as nat);
            lemma_pow2_pos((bl - 1) as nat);
            lemma_pow2_adds((bl - 1) as nat, shift as nat);
            lemma_pow2_adds(bl as nat, shift as nat);
            lemma_pow2_adds(64, 64);
            lemma_mul_inequality(n as int, pow2(bl as nat) - 1, pow2(shift as nat) as int);
            crate::math::lemma_mul_distribute_sub2(
                pow2(bl as nat) as int,
                1,
                pow2(shift as nat) as int,
            );
            lemma_mul_inequality(
                pow2((bl - 1) as nat) as int,
                n as int,
                pow2(shift as nat) as int,
            );
        }
        let p = pow2_dword(shift);
        let normalized = n * p;
        proof {
            lemma_fundamental_div_mod_converse(
                normalized as int,
                pow2(shift as nat) as int,
                n as int,
                0,
            );
        }
        ConstDoubleDivisor { shift, normalized }
    }

    /// The original (unnormalized) divisor.
    pub fn divisor(&self) -> (r: DoubleWord)
        requires
            self.wf(),
        ensures
            r == self.divisor_spec(),
            r >= 0x1_0000_0000_0000_0000,
    {
        proof {
            lemma2_to64_rest();
        }
        let p = pow2_dword(self.shift);
        self.normalized / p
    }

    /// `(dword << shift) % self`, still in the shifted scale.
    pub fn rem_dword(&self, dword: DoubleWord) -> (r: DoubleWord)
        requires
            self.wf(),
        ensures
            r == (dword as nat % self.divisor_spec()) * pow2(self.shift as nat),
    {
        let d = self.divisor();
        let p = pow2_dword(self.shift);
        let rem = dword % d;
        proof {
            lemma_mod_division_less_than_divisor(dword as int, d as int);
            lemma_pow2_pos(self.shift as nat);
            lemma_mul_inequality(rem as int, d as int, pow2(self.shift as nat) as int);
        }
        rem * p
    }

    /// `(words << shift) % self`, still in the shifted scale.
    pub fn rem_large(&self, words: &[Word]) -> (r: DoubleWord)
        requires
            self.wf(),
            words@.len() + 8 <= MAX_CAPACITY,
        ensures
            r == (seq_value(words@) % self.divisor_spec()) * pow2(self.shift as nat),
    {
        let d = self.divisor();
        let buf = Buffer::from_words(words);
        let x = UBig(Repr::from_buffer(buf));
        let db = UBig::from_dword(d);
        proof {
            lemma_pow2_pos(self.shift as nat);
            crate::math::lemma_seq_value_bound(words@);
            lemma_big_cap();
            if words@.len() >= 1 {
                lemma_len_bounded(&x, words@.len() as nat);
            } else {
                vstd::arithmetic::power2::lemma_pow2_strictly_increases(0, 64);
                lemma_len_bounded(&x, 1);
            }
        }
        let rem = x.rem(&db);
        let rw = match &rem.0.magnitude {
            TypedRepr::Small(dw) => *dw,
            TypedRepr::Large(w) => {
                proof {
                    crate::repr::lemma_large_value_lower(w@);
                    crate::repr::lemma_dword_value_upper(d);
                    lemma_word_base();
                    assert(false);
                }
                0
            },
        };
        let p = pow2_dword(self.shift);
        proof {
            lemma_mul_inequality(rw as int, d as int, pow2(self.shift as nat) as int);
        }
        rw * p
    }
}

/// `2^k` as a double word, for `k < 128`.
pub fn pow2_dword(k: u32) -> (r: DoubleWord)
    requires
        k < 128,
    ensures
        r == pow2(k as nat),
        r >= 1,
{
    let mut p: DoubleWord = 1;
    let mut i: u32 = 0;
    proof {
        lemma2_to64();
        assert(pow2(0) == 1);
    }
    while i < k
        invariant
            i <= k < 128,
            p == pow2(i as nat),
        decreases k - i,
    {
        proof {
            lemma_pow2_pos(i as nat);
            lemma_pow2_strictly_increases(i as nat, 127);
            assert(pow2(127) == 0x8000_0000_0000_0000_0000_0000_0000_0000) by {
                lemma_pow2_adds(64, 63);
                lemma2_to64_rest();
            }
            lemma_pow2_adds(i as nat, 1);
            lemma2_to64();
        }
        p = p * 2;
        i += 1;
    }
    proof {
        lemma_pow2_pos(k as nat);
    }
    p
}

/// A precomputed multi-word divisor.
pub struct ConstLargeDivisor {
    pub modulus: UBig,
    pub shift: u32,
}

impl ConstLargeDivisor {
    /// The original divisor's value.
    pub open spec fn divisor_spec(&self) -> nat {
        self.modulus.value()
    }

    /// The divisor spans at least three words.
    pub open spec fn wf(&self) -> bool {
        &&& self.modulus.wf()
        &&& self.shift < 64
        &&& self.divisor_spec() >= pow2(128)
        &&& self.modulus.spec_len() + 8 <= MAX_CAPACITY / 2
    }

    /// Precompute a multi-word divisor from its word buffer.
    pub fn new(n: Buffer) -> (r: ConstLargeDivisor)
        requires
            n.wf(),
            n@.len() >= 3,
            crate::math::canonical(n@),
            2 * n@.len() + 20 <= MAX_CAPACITY,
        ensures
            r.wf(),
            r.divisor_spec() == seq_value(n@),
            pow2((64 * n@.len() - 1) as nat) <= r.divisor_spec() * pow2(r.shift as nat) < pow2(
                (64 * n@.len()) as nat,
            ),
    {
        let ghost nwords = n@;
        let top = n.get(n.len() - 1);
        let bl = bit_len_word(top);
        proof {
            crate::math::lemma_seq_value_lower(nwords);
            lemma_pow2_pos(64 * (nwords.len() - 1) as nat);
            assert(top != 0);
            assert(bl >= 1);
        }
        let shift = 64 - bl;
        let m = UBig(Repr::from_buffer(n));
        let r = ConstLargeDivisor { modulus: m, shift };
        proof {
            crate::math::lemma_seq_value_bound(nwords);
            lemma_len_bounded(&r.modulus, nwords.len() as nat);
            lemma_cap_half(nwords.len() as nat);
            // the divisor spans at least three words' worth of value
            if 128 < 64 * (nwords.len() - 1) as nat {
                vstd::arithmetic::power2::lemma_pow2_strictly_increases(
                    128,
                    64 * (nwords.len() - 1) as nat,
                );
            }
            // the scaled divisor has its top bit in the leading position
            let l = nwords.len() as nat;
            let t = nwords.last() as nat;
            let rest = seq_value(nwords.drop_last());
            let p = pow2((64 * (l - 1)) as nat);
            let s2 = pow2(shift as nat);
            let v = seq_value(nwords);
            assert(v == rest + t * p);
            crate::math::lemma_seq_value_bound(nwords.drop_last());
            lemma_pow2_adds((64 * (l - 1)) as nat, shift as nat);
            lemma_pow2_adds((bl - 1) as nat, (64 * (l - 1) + shift) as nat);
            lemma_pow2_adds(bl as nat, (64 * (l - 1) + shift) as nat);
            lemma_pow2_pos(shift as nat);
            lemma_pow2_pos((64 * (l - 1)) as nat);
            assert(v * s2 >= pow2((64 * l - 1) as nat)) by (nonlinear_arith)
                requires
                    v == rest + t * p,
                    t >= pow2((bl - 1) as nat),
                    p * s2 == pow2((64 * (l - 1) + shift) as nat),
                    pow2((bl - 1) as nat) * pow2((64 * (l - 1) + shift) as nat) == pow2(
                        (64 * l - 1) as nat,
                    ),
            ;
            assert(v * s2 < pow2((64 * l) as nat)) by (nonlinear_arith)
                requires
                    v == rest + t * p,
                    rest < p,
                    t < pow2(bl as nat),
                    p >= 1,
                    s2 >= 1,
                    p * s2 == pow2((64 * (l - 1) + shift) as nat),
                    pow2(bl as nat) * pow2((64 * (l - 1) + shift) as nat) == pow2(
                        (64 * l) as nat,
                    ),
            ;
        }
        r
    }

    /// The original (unnormalized) divisor as a word buffer.
    pub fn divisor(&self) -> (r: Buffer)
        requires
            self.wf(),
        ensures
            r.wf(),
            seq_value(r@) == self.divisor_spec(),
    {
        self.modulus.to_buffer()
    }

    /// `(words << shift) % self`, still in the shifted scale.
    pub fn rem_large(&self, words: Buffer) -> (r: Buffer)
        requires
            self.wf(),
            words.wf(),
            words@.len() + 8 <= MAX_CAPACITY / 2,
        ensures
            r.wf(),
            seq_value(r@) == (seq_value(words@) % self.divisor_spec()) * pow2(
                self.shift as nat,
            ),
    {
        let ghost w = words@;
        let x = UBig(Repr::from_buffer(words));
        proof {
            crate::math::lemma_seq_value_bound(w);
            lemma_big_cap();
            if w.len() >= 1 {
                lemma_len_bounded(&x, w.len() as nat);
            } else {
                vstd::arithmetic::power2::lemma_pow2_strictly_increases(0, 64);
                lemma_len_bounded(&x, 1);
            }
            lemma_half_ge_nine();
        }
        self.rem_value(x)
    }

    /// `(x << shift) % self` for a tagged magnitude.
    pub fn rem_repr(&self, x: TypedRepr) -> (r: Buffer)
        requires
            self.wf(),
            x.wf(),
            x.spec_words() + 8 <= MAX_CAPACITY / 2,
        ensures
            r.wf(),
            seq_value(r@) == (x.value() % self.divisor_spec()) * pow2(self.shift as nat),
    {
        let u = UBig(Repr { sign: crate::sign::Sign::Positive, magnitude: x });
        proof {
            crate::primitive::lemma_word_base();
        }
        self.rem_value(u)
    }

    /// Shared remainder path on an owned value.
    fn rem_value(&self, x: UBig) -> (r: Buffer)
        requires
            self.wf(),
            x.wf(),
            x.spec_len() + 8 <= MAX_CAPACITY / 2,
        ensures
            r.wf(),
            seq_value(r@) == (x.value() % self.divisor_spec()) * pow2(self.shift as nat),
    {
        proof {
            lemma_pow2_pos(128);
            lemma_value_bound(&x);
            lemma_value_bound(&self.modulus);
            lemma_pow2_pos(self.shift as nat);
            lemma_half_within();
        }
        let rem = x.rem(&self.modulus);
        proof {
            lemma_mod_division_less_than_divisor(
                x.value() as int,
                self.divisor_spec() as int,
            );
            lemma_len_bounded(&rem, self.modulus.spec_len());
        }
        let shifted = rem.shl(self.shift as usize);
        proof {
            vstd::arithmetic::div_mod::lemma_div_is_ordered(
                self.shift as int,
                63,
                64,
            );
        }
        shifted.to_buffer()
    }
}

/// The capacity limit is large.
pub proof fn lemma_big_cap()
    ensures
        MAX_CAPACITY >= 67108863,
{
    assert(usize::MAX >= 0xffffffff);
    vstd::arithmetic::div_mod::lemma_div_is_ordered(0xffffffff, usize::MAX as int, 64);
}

/// Half the capacity limit still leaves room for small operands.
proof fn lemma_half_ge_nine()
    ensures
        MAX_CAPACITY / 2 >= 9,
{
    lemma_big_cap();
    vstd::arithmetic::div_mod::lemma_div_is_ordered(18, MAX_CAPACITY as int, 2);
}

/// Half the capacity limit lies within the whole.
proof fn lemma_half_within()
    ensures
        MAX_CAPACITY / 2 <= MAX_CAPACITY,
{
    vstd::arithmetic::div_mod::lemma_div_is_ordered_by_denominator(MAX_CAPACITY as int, 1, 2);
    vstd::arithmetic::div_mod::lemma_div_basics(MAX_CAPACITY as int);
}

/// Half the capacity still leaves the slack the operations need.
proof fn lemma_cap_half(l: nat)
    requires
        2 * l + 20 <= MAX_CAPACITY,
    ensures
        l + 8 <= MAX_CAPACITY / 2,
{
    vstd::arithmetic::div_mod::lemma_fundamental_div_mod(MAX_CAPACITY as int, 2);
}

/// The tagged choice of a precomputed divisor.
pub enum ConstDivisorRepr {
    Single(ConstSingleDivisor),
    Double(ConstDoubleDivisor),
    Large(ConstLargeDivisor),
}

/// A precomputed divisor for repeated reduction by one modulus.
pub struct ConstDivisor(pub ConstDivisorRepr);

impl ConstDivisor {
    /// The divisor's value.
    pub open spec fn divisor_spec(&self) -> nat {
        match &self.0 {
            ConstDivisorRepr::Single(s) => s.divisor_spec(),
            ConstDivisorRepr::Double(d) => d.divisor_spec(),
            ConstDivisorRepr::Large(l) => l.divisor_spec(),
        }
    }

    pub open spec fn wf(&self) -> bool {
        match &self.0 {
            ConstDivisorRepr::Single(s) => s.wf(),
            ConstDivisorRepr::Double(d) => d.wf(),
            ConstDivisorRepr::Large(l) => l.wf(),
        }
    }

    /// Precompute a divisor; it must be nonzero.
    pub fn new(n: UBig) -> (r: ConstDivisor)
        requires
            n.wf(),
            n.value() > 0,
            2 * n.spec_len() + 20 <= MAX_CAPACITY,
        ensures
            r.wf(),
            r.divisor_spec() == n.value(),
            n.value() < 0x1_0000_0000_0000_0000 ==> r.0 is Single,
            0x1_0000_0000_0000_0000 <= n.value() < pow2(128) ==> r.0 is Double,
            n.value() >= pow2(128) ==> r.0 is Large,
    {
        proof {
            lemma_word_base();
            vstd::arithmetic::power2::lemma2_to64_rest();
            vstd::arithmetic::power2::lemma_pow2_adds(64, 64);
        }
        match n.into_repr() {
            TypedRepr::Small(dw) => {
                if dw < DWORD_BASE {
                    ConstDivisor(ConstDivisorRepr::Single(ConstSingleDivisor::new(dw as u64)))
                } else {
                    ConstDivisor(ConstDivisorRepr::Double(ConstDoubleDivisor::new(dw)))
                }
            },
            TypedRepr::Large(buf) => {
                proof {
                    crate::math::lemma_seq_value_bound(buf@);
                    crate::math::lemma_seq_value_lower(buf@);
                    if 128 < 64 * (buf@.len() - 1) as nat {
                        vstd::arithmetic::power2::lemma_pow2_strictly_increases(
                            128,
                            64 * (buf@.len() - 1) as nat,
                        );
                    }
                }
                ConstDivisor(ConstDivisorRepr::Large(ConstLargeDivisor::new(buf)))
            },
        }
    }

    /// Precompute a single-word divisor.
    pub fn from_word(word: Word) -> (r: ConstDivisor)
        requires
            word > 0,
        ensures
            r.wf(),
            r.divisor_spec() == word,
            r.0 is Single,
    {
        ConstDivisor(ConstDivisorRepr::Single(ConstSingleDivisor::new(word)))
    }

    /// Precompute a divisor that fits two words.
    pub fn from_dword(dword: DoubleWord) -> (r: ConstDivisor)
        requires
            dword > 0,
        ensures
            r.wf(),
            r.divisor_spec() == dword,
            dword < 0x1_0000_0000_0000_0000 ==> r.0 is Single,
            dword >= 0x1_0000_0000_0000_0000 ==> r.0 is Double,
    {
        proof {
            lemma_word_base();
        }
        if dword < DWORD_BASE {
            ConstDivisor(ConstDivisorRepr::Single(ConstSingleDivisor::new(dword as u64)))
        } else {
            ConstDivisor(ConstDivisorRepr::Double(ConstDoubleDivisor::new(dword)))
        }
    }

    /// The remainder of `x` by the precomputed divisor, unshifted.
    pub fn rem_of(&self, x: &UBig) -> (r: UBig)
        requires
            self.wf(),
            x.wf(),
            x.spec_len() + 8 <= MAX_CAPACITY / 2,
        ensures
            r.wf(),
            r.value() as int == x.value() as int % self.divisor_spec() as int,
    {
        proof {
            lemma_value_bound(x);
            lemma_div_pos(self);
        }
        match &self.0 {
            ConstDivisorRepr::Single(s) => {
                let buf = x.to_buffer();
                let shifted = s.rem_large(buf.as_slice());
                let p = pow2_word(s.shift);
                proof {
                    lemma_pow2_pos(s.shift as nat);
                    lemma_fundamental_div_mod_converse(
                        shifted as int,
                        pow2(s.shift as nat) as int,
                        (seq_value(buf@) % s.divisor_spec()) as int,
                        0,
                    );
                }
                UBig::from_word(shifted / p)
            },
            ConstDivisorRepr::Double(d) => {
                let buf = x.to_buffer();
                let shifted = d.rem_large(buf.as_slice());
                let p = pow2_dword(d.shift);
                proof {
                    lemma_pow2_pos(d.shift as nat);
                    lemma_fundamental_div_mod_converse(
                        shifted as int,
                        pow2(d.shift as nat) as int,
                        (seq_value(buf@) % d.divisor_spec()) as int,
                        0,
                    );
                }
                UBig::from_dword(shifted / p)
            },
            ConstDivisorRepr::Large(l) => {
                proof {
                    lemma_value_bound(&l.modulus);
                    lemma_half_within();
                }
                x.rem(&l.modulus)
            },
        }
    }

    /// The divisor's value as a plain integer.
    fn divisor_ubig(&self) -> (r: UBig)
        requires
            self.wf(),
        ensures
            r.wf(),
            r.value() == self.divisor_spec(),
            r.spec_len() + 8 <= MAX_CAPACITY / 2,
    {
        proof {
            lemma_big_cap();
            crate::primitive::lemma_word_base();
            vstd::arithmetic::power2::lemma_pow2_adds(64, 64);
            vstd::arithmetic::power2::lemma_pow2_strictly_increases(64, 128);
        }
        match &self.0 {
            ConstDivisorRepr::Single(s) => UBig::from_word(s.divisor()),
            ConstDivisorRepr::Double(d) => UBig::from_dword(d.divisor()),
            ConstDivisorRepr::Large(l) => {
                let buf = l.divisor();
                let ghost w = buf@;
                let r = UBig(Repr::from_buffer(buf));
                proof {
                    crate::math::lemma_seq_value_bound(w);
                    lemma_value_bound(&l.modulus);
                    lemma_len_bounded(&r, l.modulus.spec_len());
                }
                r
            },
        }
    }

    /// The quotient and remainder of `x` by the precomputed divisor.
    pub fn div_rem_of(&self, x: &UBig) -> (r: (UBig, UBig))
        requires
            self.wf(),
            x.wf(),
            x.spec_len() + 8 <= MAX_CAPACITY / 2,
        ensures
            r.0.wf(),
            r.1.wf(),
            x.value() == r.0.value() * self.divisor_spec() + r.1.value(),
            r.1.value() < self.divisor_spec(),
            r.0.value() == x.value() / self.divisor_spec(),
            r.1.value() == x.value() % self.divisor_spec(),
    {
        proof {
            lemma_div_pos(self);
            lemma_half_within();
        }
        let d = self.divisor_ubig();
        let (q, rem) = x.div_rem(&d);
        proof {
            crate::div_ops::lemma_euclidean_unique(
                x.value(),
                d.value(),
                q.value(),
                rem.value(),
            );
        }
        (q, rem)
    }

    /// The quotient of `x` by the precomputed divisor.
    pub fn div_of(&self, x: &UBig) -> (r: UBig)
        requires
            self.wf(),
            x.wf(),
            x.spec_len() + 8 <= MAX_CAPACITY / 2,
        ensures
            r.wf(),
            r.value() == x.value() / self.divisor_spec(),
    {
        let (q, rem) = self.div_rem_of(x);
        q
    }
}

/// A well-formed divisor is positive.
proof fn lemma_div_pos(c: &ConstDivisor)
    requires
        c.wf(),
    ensures
        c.divisor_spec() > 0,
{
    match &c.0 {
        ConstDivisorRepr::Single(s) => {
            lemma_divisor_pos(s);
        },
        ConstDivisorRepr::Double(d) => {
            lemma_pow2_pos(64);
        },
        ConstDivisorRepr::Large(_) => {
            lemma_pow2_pos(128);
        },
    }
}

} // verus!
