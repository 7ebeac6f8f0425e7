//! Machine words and the primitive operations on them.
//!
//! All slice arithmetic in this crate works in base `2^64`, least significant
//! word first.  A `Word` is one digit in that base; a `DoubleWord` holds a
//! two-digit value or an intermediate product.

use vstd::prelude::*;
use vstd::arithmetic::power2::*;

verus! {

/// One digit in base `2^64`.
pub type Word = u64;

/// Two digits in base `2^64`; also the type of a widening product.
pub type DoubleWord = u128;

/// Bits in a `Word`.
pub const WORD_BITS: u32 = 64;

/// Bits in a `Word`, as a `usize`.
pub const WORD_BITS_USIZE: usize = 64;

/// Bytes in a `Word`.
pub const WORD_BYTES: usize = 8;

/// Bytes in a `DoubleWord`.
pub const DWORD_BYTES: usize = 16;

/// `2^64`, the base of the word representation, as a `DoubleWord`.
pub const DWORD_BASE: u128 = 0x1_0000_0000_0000_0000;

/// `2^64` as a spec-level natural number.
pub open spec fn word_base() -> nat {
    pow2(64)
}

/// Establishes the concrete value of `word_base()`.
pub proof fn lemma_word_base()
    ensures
        word_base() == DWORD_BASE,
        word_base() == 0x1_0000_0000_0000_0000,
{
    lemma2_to64();
}

/// Split a double word into `(lo, hi)` so that `lo + hi * 2^64` rebuilds it.
pub fn split_dword(dw: DoubleWord) -> (r: (Word, Word))
    ensures
        r.0 + r.1 * word_base() == dw,
        r.1 == dw as nat / word_base(),
{
    proof { lemma_word_base(); }
    let lo = (dw % DWORD_BASE) as u64;
    let hi = (dw / DWORD_BASE) as u64;
    proof {
        vstd::arithmetic::div_mod::lemma_fundamental_div_mod(dw as int, DWORD_BASE as int);
    }
    (lo, hi)
}

/// Join `(lo, hi)` into the double word `lo + hi * 2^64`.
pub fn double_word(lo: Word, hi: Word) -> (r: DoubleWord)
    ensures
        r == lo + hi * word_base(),
{
    proof { lemma_word_base(); }
    lo as u128 + (hi as u128) * DWORD_BASE
}

/// Widen a word to a double word.
pub fn extend_word(w: Word) -> (r: DoubleWord)
    ensures
        r == w,
{
    w as u128
}

/// A double word shrunk back to one word, if it fits.
pub fn shrink_dword(dw: DoubleWord) -> (r: Option<Word>)
    ensures
        match r {
            Some(w) => dw == w,
            None => dw >= word_base(),
        },
{
    proof { lemma_word_base(); }
    if dw < DWORD_BASE {
        Some(dw as u64)
    } else {
        None
    }
}

} // verus!
