//! Rings of residues modulo a fixed word-sized divisor.
//!
//! A ring keeps its modulus in the normalized scale of its precomputed
//! divisor, and every stored residue is likewise multiplied by `2^shift`.

use vstd::prelude::*;
use vstd::arithmetic::power2::{pow2, lemma_pow2_pos, lemma_pow2_adds, lemma2_to64_rest};
use vstd::arithmetic::div_mod::{lemma_fundamental_div_mod_converse,
    lemma_mod_division_less_than_divisor};
use crate::buffer::MAX_CAPACITY;
use crate::fast_div::{ConstSingleDivisor, ConstDoubleDivisor, lemma_divisor_pos, lemma_big_cap};
use crate::primitive::{Word, DoubleWord};
use crate::ubig::{UBig, lemma_len_bounded};

verus! {

/// A ring of residues modulo a single-word divisor; a stored residue is the
/// value multiplied by `2^shift` of the normalized divisor.
pub struct ModuloRingSingle {
    pub divisor: ConstSingleDivisor,
}

impl ModuloRingSingle {
    /// The modulus.
    pub open spec fn modulus_spec(&self) -> nat {
        self.divisor.divisor_spec()
    }

    pub open spec fn wf(&self) -> bool {
        self.divisor.wf()
    }

    /// The residue a stored word denotes.
    pub open spec fn residue(&self, raw: Word) -> nat {
        (raw as nat) / pow2(self.divisor.shift as nat)
    }

    /// A stored word is a residue below the modulus, at the shifted scale.
    pub open spec fn is_raw(&self, raw: Word) -> bool {
        &&& raw as nat == self.residue(raw) * pow2(self.divisor.shift as nat)
        &&& self.residue(raw) < self.modulus_spec()
    }

    /// A ring with the given nonzero modulus.
    pub fn new(n: Word) -> (r: ModuloRingSingle)
        requires
            n > 0,
        ensures
            r.wf(),
            r.modulus_spec() == n,
    {
        ModuloRingSingle { divisor: ConstSingleDivisor::new(n) }
    }

    /// Bring a word into the ring.
    pub fn convert(&self, w: Word) -> (r: Word)
        requires
            self.wf(),
        ensures
            self.is_raw(r),
            self.residue(r) == w as nat % self.modulus_spec(),
    {
        let r = self.divisor.rem_word(w);
        proof {
            lemma_divisor_pos(&self.divisor);
            lemma_pow2_pos(self.divisor.shift as nat);
            lemma_mod_division_less_than_divisor(w as int, self.modulus_spec() as int);
            lemma_fundamental_div_mod_converse(
                r as int,
                pow2(self.divisor.shift as nat) as int,
                (w as nat % self.modulus_spec()) as int,
                0,
            );
        }
        r
    }

    /// The residue a stored word denotes, unshifted.
    pub fn retrieve(&self, raw: Word) -> (r: Word)
        requires
            self.wf(),
            self.is_raw(raw),
        ensures
            r == self.residue(raw),
    {
        proof {
            lemma_pow2_pos(self.divisor.shift as nat);
        }
        let p = crate::shift_ops::pow2_word(self.divisor.shift);
        proof {
            lemma_fundamental_div_mod_converse(
                raw as int,
                p as int,
                self.residue(raw) as int,
                0,
            );
        }
        raw / p
    }

    /// The product of two residues, reduced by the modulus.
    pub fn mul(&self, lhs: Word, rhs: Word) -> (r: Word)
        requires
            self.wf(),
            self.is_raw(lhs),
            self.is_raw(rhs),
        ensures
            self.is_raw(r),
            self.residue(r) == (self.residue(lhs) * self.residue(rhs)) % self.modulus_spec(),
    {
        let a = self.retrieve(lhs);
        let b = self.retrieve(rhs);
        proof {
            lemma2_to64_rest();
            lemma_pow2_adds(64, 64);
            crate::math::lemma_mul_bound_lt(a as int, pow2(64) as int, b as int, pow2(64) as int);
        }
        let product = (a as DoubleWord) * (b as DoubleWord);
        let r = self.divisor.rem_dword(product);
        proof {
            lemma_divisor_pos(&self.divisor);
            lemma_pow2_pos(self.divisor.shift as nat);
            lemma_mod_division_less_than_divisor(product as int, self.modulus_spec() as int);
            lemma_fundamental_div_mod_converse(
                r as int,
                pow2(self.divisor.shift as nat) as int,
                (product as nat % self.modulus_spec()) as int,
                0,
            );
        }
        r
    }

    /// The square of a residue, reduced by the modulus.
    pub fn sqr(&self, raw: Word) -> (r: Word)
        requires
            self.wf(),
            self.is_raw(raw),
        ensures
            self.is_raw(r),
            self.residue(r) == (self.residue(raw) * self.residue(raw)) % self.modulus_spec(),
    {
        self.mul(raw, raw)
    }
}

/// A ring of residues modulo a double-word divisor, stored at the divisor's
/// normalized scale.
pub struct ModuloRingDouble {
    pub divisor: ConstDoubleDivisor,
}

impl ModuloRingDouble {
    /// The modulus.
    pub open spec fn modulus_spec(&self) -> nat {
        self.divisor.divisor_spec()
    }

    pub open spec fn wf(&self) -> bool {
        self.divisor.wf()
    }

    /// The residue a stored double word denotes.
    pub open spec fn residue(&self, raw: DoubleWord) -> nat {
        (raw as nat) / pow2(self.divisor.shift as nat)
    }

    /// A stored double word is a residue below the modulus, shifted.
    pub open spec fn is_raw(&self, raw: DoubleWord) -> bool {
        &&& raw as nat == self.residue(raw) * pow2(self.divisor.shift as nat)
        &&& self.residue(raw) < self.modulus_spec()
    }

    /// A ring with the given modulus, which must not fit one word.
    pub fn new(n: DoubleWord) -> (r: ModuloRingDouble)
        requires
            n >= 0x1_0000_0000_0000_0000,
        ensures
            r.wf(),
            r.modulus_spec() == n,
    {
        ModuloRingDouble { divisor: ConstDoubleDivisor::new(n) }
    }

    /// Bring a double word into the ring.
    pub fn convert(&self, w: DoubleWord) -> (r: DoubleWord)
        requires
            self.wf(),
        ensures
            self.is_raw(r),
            self.residue(r) == w as nat % self.modulus_spec(),
    {
        let r = self.divisor.rem_dword(w);
        proof {
            lemma_pow2_pos(self.divisor.shift as nat);
            lemma_pow2_pos(64);
            lemma_mod_division_less_than_divisor(w as int, self.modulus_spec() as int);
            lemma_fundamental_div_mod_converse(
                r as int,
                pow2(self.divisor.shift as nat) as int,
                (w as nat % self.modulus_spec()) as int,
                0,
            );
        }
        r
    }

    /// The residue a stored double word denotes, unshifted.
    pub fn retrieve(&self, raw: DoubleWord) -> (r: DoubleWord)
        requires
            self.wf(),
            self.is_raw(raw),
        ensures
            r == self.residue(raw),
    {
        proof {
            lemma_pow2_pos(self.divisor.shift as nat);
        }
        let p = crate::fast_div::pow2_dword(self.divisor.shift);
        proof {
            lemma_fundamental_div_mod_converse(
                raw as int,
                p as int,
                self.residue(raw) as int,
                0,
            );
        }
        raw / p
    }

    /// The product of two residues, reduced by the modulus.
    pub fn mul(&self, lhs: DoubleWord, rhs: DoubleWord) -> (r: DoubleWord)
        requires
            self.wf(),
            self.is_raw(lhs),
            self.is_raw(rhs),
        ensures
            self.is_raw(r),
            self.residue(r) == (self.residue(lhs) * self.residue(rhs)) % self.modulus_spec(),
    {
        let a = self.retrieve(lhs);
        let b = self.retrieve(rhs);
        let ua = UBig::from_dword(a);
        let ub = UBig::from_dword(b);
        proof {
            lemma_big_cap();
        }
        let prod = ua.mul(&ub);
        proof {
            lemma2_to64_rest();
            lemma_pow2_adds(64, 64);
            lemma_pow2_adds(128, 128);
            crate::math::lemma_mul_bound_lt(
                a as int,
                pow2(128) as int,
                b as int,
                pow2(128) as int,
            );
            lemma_len_bounded(&prod, 4);
        }
        let buf = prod.to_buffer();
        let r = self.divisor.rem_large(buf.as_slice());
        proof {
            lemma_pow2_pos(self.divisor.shift as nat);
            lemma_pow2_pos(64);
            lemma_mod_division_less_than_divisor(
                prod.value() as int,
                self.modulus_spec() as int,
            );
            lemma_fundamental_div_mod_converse(
                r as int,
                pow2(self.divisor.shift as nat) as int,
                (prod.value() % self.modulus_spec()) as int,
                0,
            );
        }
        r
    }

    /// The square of a residue, reduced by the modulus.
    pub fn sqr(&self, raw: DoubleWord) -> (r: DoubleWord)
        requires
            self.wf(),
            self.is_raw(raw),
        ensures
            self.is_raw(r),
            self.residue(r) == (self.residue(raw) * self.residue(raw)) % self.modulus_spec(),
    {
        self.mul(raw, raw)
    }
}

} // verus!
