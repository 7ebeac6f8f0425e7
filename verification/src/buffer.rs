//! Heap buffer of words.
//!
//! A [`Buffer`] is a growable little-endian word vector with an explicit
//! capacity discipline: `allocate` reserves `default_capacity` words, `shrink`
//! keeps the capacity within `max_compact_capacity` of the length, and `push`
//! demands free room.  The buffer is the working storage for every slice
//! kernel; a trimmed buffer becomes the large form of a
//! [`Repr`](crate::repr::Repr).

use vstd::prelude::*;
use crate::primitive::{Word, WORD_BITS_USIZE};
use crate::math::seq_value;

verus! {

/// Maximum number of words in any buffer; keeps the bit count inside `usize`.
pub const MAX_CAPACITY: usize = usize::MAX / WORD_BITS_USIZE;

/// Capacity chosen for a fresh allocation of `n` words: `n + n/8 + 2`, capped.
pub open spec fn spec_default_capacity(n: nat) -> nat {
    if n + n / 8 + 2 <= MAX_CAPACITY {
        n + n / 8 + 2
    } else {
        MAX_CAPACITY as nat
    }
}

/// Largest capacity considered compact for `n` words: `n + n/4 + 4`, capped.
pub open spec fn spec_max_compact_capacity(n: nat) -> nat {
    if n + n / 4 + 4 <= MAX_CAPACITY {
        n + n / 4 + 4
    } else {
        MAX_CAPACITY as nat
    }
}

/// A fresh allocation is always compact.
pub proof fn lemma_default_capacity_compact(n: nat)
    requires
        n <= MAX_CAPACITY,
    ensures
        n <= spec_default_capacity(n),
        spec_default_capacity(n) <= spec_max_compact_capacity(n),
{
    vstd::arithmetic::div_mod::lemma_div_is_ordered_by_denominator(n as int, 4, 8);
}

/// Growable little-endian word vector with an explicit capacity.
#[derive(Debug)]
pub struct Buffer {
    pub words: Vec<Word>,
    pub capacity: usize,
}

impl View for Buffer {
    type V = Seq<Word>;

    open spec fn view(&self) -> Seq<Word> {
        self.words@
    }
}

impl Buffer {
    /// The buffer respects its capacity and the global cap.
    pub open spec fn wf(&self) -> bool {
        self.words@.len() <= self.capacity <= MAX_CAPACITY
    }

    /// The natural number this buffer denotes.
    pub open spec fn value(&self) -> nat {
        seq_value(self.words@)
    }

    /// Capacity for a fresh allocation of `num_words` words.
    pub fn default_capacity(num_words: usize) -> (r: usize)
        requires
            num_words <= MAX_CAPACITY,
        ensures
            r == spec_default_capacity(num_words as nat),
    {
        let c = num_words + num_words / 8 + 2;
        if c <= MAX_CAPACITY {
            c
        } else {
            MAX_CAPACITY
        }
    }

    /// Largest capacity considered compact for `num_words` words.
    pub fn max_compact_capacity(num_words: usize) -> (r: usize)
        requires
            num_words <= MAX_CAPACITY,
        ensures
            r == spec_max_compact_capacity(num_words as nat),
    {
        let c = num_words + num_words / 4 + 4;
        if c <= MAX_CAPACITY {
            c
        } else {
            MAX_CAPACITY
        }
    }

    /// The buffer's capacity in words; at least 1 even for the empty buffer.
    pub fn capacity(&self) -> (r: usize)
        ensures
            r == self.capacity,
    {
        self.capacity
    }

    /// Number of words currently stored.
    pub fn len(&self) -> (r: usize)
        ensures
            r == self@.len(),
    {
        self.words.len()
    }

    /// Read the word at index `i`.
    pub fn get(&self, i: usize) -> (r: Word)
        requires
            i < self@.len(),
        ensures
            r == self@[i as int],
    {
        self.words[i]
    }

    /// Overwrite the word at index `i`.
    pub fn set(&mut self, i: usize, w: Word)
        requires
            i < old(self)@.len(),
        ensures
            final(self)@ == old(self)@.update(i as int, w),
            final(self).capacity == old(self).capacity,
    {
        self.words.set(i, w);
    }

    /// The stored words as a slice.
    pub fn as_slice(&self) -> (r: &[Word])
        ensures
            r@ == self@,
    {
        self.words.as_slice()
    }

    /// A fresh buffer with room for `num_words` words plus growth headroom.
    pub fn allocate(num_words: usize) -> (r: Buffer)
        requires
            num_words <= MAX_CAPACITY,
        ensures
            r.wf(),
            r@.len() == 0,
            r.capacity == spec_default_capacity(num_words as nat),
            num_words <= r.capacity,
    {
        Buffer { words: Vec::new(), capacity: Self::default_capacity(num_words) }
    }

    /// Change capacity to hold `num_words` words plus growth headroom.
    fn reallocate(&mut self, num_words: usize)
        requires
            old(self).wf(),
            old(self)@.len() <= num_words <= MAX_CAPACITY,
        ensures
            final(self)@ == old(self)@,
            final(self).capacity == spec_default_capacity(num_words as nat),
            final(self).wf(),
    {
        self.capacity = Self::default_capacity(num_words);
    }

    /// Grow the capacity if it cannot hold `num_words` words.
    pub fn ensure_capacity(&mut self, num_words: usize)
        requires
            old(self).wf(),
            num_words <= MAX_CAPACITY,
        ensures
            final(self)@ == old(self)@,
            final(self).wf(),
            num_words > 2 ==> num_words <= final(self).capacity,
            final(self).capacity >= old(self).capacity || final(self).capacity
                == spec_default_capacity(num_words as nat),
            final(self).capacity == old(self).capacity || final(self).capacity
                == spec_default_capacity(num_words as nat),
    {
        if num_words > self.capacity && num_words > 2 {
            self.reallocate(num_words);
        }
    }

    /// Bring the capacity back into the compact range for the current length.
    pub fn shrink(&mut self)
        requires
            old(self).wf(),
        ensures
            final(self)@ == old(self)@,
            final(self).wf(),
            final(self).capacity <= spec_max_compact_capacity(old(self)@.len() as nat),
            final(self).capacity == old(self).capacity || final(self).capacity
                == spec_default_capacity(old(self)@.len() as nat),
            old(self).capacity <= spec_max_compact_capacity(old(self)@.len() as nat)
                ==> final(self).capacity == old(self).capacity,
    {
        if self.capacity > Self::max_compact_capacity(self.words.len()) {
            let n = self.words.len();
            self.reallocate(n);
        }
    }

    /// Append a word; there must be room.
    pub fn push(&mut self, word: Word)
        requires
            old(self).wf(),
            old(self)@.len() < old(self).capacity,
        ensures
            final(self)@ == old(self)@.push(word),
            final(self).capacity == old(self).capacity,
            final(self).wf(),
    {
        self.words.push(word);
    }

    /// Append a word, growing the capacity if needed.
    pub fn push_resizing(&mut self, word: Word)
        requires
            old(self).wf(),
            old(self)@.len() < MAX_CAPACITY,
        ensures
            final(self)@ == old(self)@.push(word),
            final(self).wf(),
    {
        let n = self.words.len();
        self.ensure_capacity(n + 1);
        if self.words.len() >= self.capacity {
            // len <= 2 and capacity was not grown: room is still guaranteed
            let m = self.words.len();
            self.reallocate(m + 1);
        }
        self.push(word);
    }

    /// Append `n` zero words; there must be room.
    pub fn push_zeros(&mut self, n: usize)
        requires
            old(self).wf(),
            n <= old(self).capacity - old(self)@.len(),
        ensures
            final(self)@ == old(self)@ + Seq::new(n as nat, |i: int| 0u64),
            final(self).capacity == old(self).capacity,
            final(self).wf(),
            final(self).value() == old(self).value(),
    {
        let ghost orig = self@;
        let mut i: usize = 0;
        while i < n
            invariant
                i <= n,
                self@ == orig + Seq::new(i as nat, |j: int| 0u64),
                self.capacity == old(self).capacity,
                orig.len() + n <= self.capacity <= MAX_CAPACITY,
            decreases n - i,
        {
            self.words.push(0);
            i += 1;
            proof {
                assert(self@ =~= orig + Seq::new(i as nat, |j: int| 0u64));
            }
        }
        proof {
            lemma_value_trailing_zeros(self@, orig.len() as int);
            assert(self@.take(orig.len() as int) =~= orig);
        }
    }

    /// Insert `n` zero words in front, shifting the value up by `64n` bits.
    pub fn push_zeros_front(&mut self, n: usize)
        requires
            old(self).wf(),
            n <= old(self).capacity - old(self)@.len(),
        ensures
            final(self)@ == Seq::new(n as nat, |i: int| 0u64) + old(self)@,
            final(self).capacity == old(self).capacity,
            final(self).wf(),
            final(self).value() == vstd::arithmetic::power2::pow2(64 * n as nat)
                * old(self).value(),
    {
        let ghost orig = self@;
        let mut i: usize = 0;
        while i < n
            invariant
                i <= n,
                self@ == Seq::new(i as nat, |j: int| 0u64) + orig,
                self.capacity == old(self).capacity,
                orig.len() + n <= self.capacity <= MAX_CAPACITY,
            decreases n - i,
        {
            self.words.insert(0, 0);
            i += 1;
            proof {
                assert(self@ =~= Seq::new(i as nat, |j: int| 0u64) + orig);
            }
        }
        proof {
            crate::math::lemma_seq_value_split(self@, n as int);
            lemma_zero_seq(self@.take(n as int));
            assert(self@.take(n as int) =~= Seq::new(n as nat, |j: int| 0u64).take(n as int));
            assert(self@.skip(n as int) =~= orig);
        }
    }

    /// Append every word of `words`; there must be room.
    pub fn push_slice(&mut self, words: &[Word])
        requires
            old(self).wf(),
            words@.len() <= old(self).capacity - old(self)@.len(),
        ensures
            final(self)@ == old(self)@ + words@,
            final(self).capacity == old(self).capacity,
            final(self).wf(),
    {
        let ghost orig = self@;
        let n = words.len();
        let mut i: usize = 0;
        while i < n
            invariant
                i <= n,
                n == words@.len(),
                self@ == orig + words@.take(i as int),
                self.capacity == old(self).capacity,
                orig.len() + n <= self.capacity <= MAX_CAPACITY,
            decreases n - i,
        {
            let w = words[i];
            self.words.push(w);
            i += 1;
            proof {
                assert(self@ =~= orig + words@.take(i as int));
            }
        }
        proof {
            assert(self@ =~= orig + words@);
        }
    }

    /// Drop leading (most significant) zero words.
    pub fn pop_zeros(&mut self)
        requires
            old(self).wf(),
        ensures
            final(self)@.len() <= old(self)@.len(),
            final(self)@ == old(self)@.take(final(self)@.len() as int),
            crate::math::canonical(final(self)@),
            final(self).value() == old(self).value(),
            final(self).capacity == old(self).capacity,
            final(self).wf(),
    {
        let ghost orig = self@;
        while self.words.len() > 0 && self.words[self.words.len() - 1] == 0
            invariant
                self@.len() <= orig.len(),
                self@ == orig.take(self@.len() as int),
                seq_value(self@) == seq_value(orig),
                self.capacity == old(self).capacity,
                self.wf(),
            decreases self@.len(),
        {
            proof {
                crate::math::lemma_seq_value_drop_zero(self@);
                assert(self@.drop_last() =~= orig.take(self@.len() - 1));
            }
            self.words.pop();
        }
    }

    /// Keep only the first `len` words.
    pub fn truncate(&mut self, len: usize)
        requires
            old(self).wf(),
            len <= old(self)@.len(),
        ensures
            final(self)@ == old(self)@.take(len as int),
            final(self).capacity == old(self).capacity,
            final(self).wf(),
    {
        self.words.truncate(len);
    }

    /// Remove the first `n` words, shifting the value down by `64n` bits.
    pub fn erase_front(&mut self, n: usize)
        requires
            old(self).wf(),
            n <= old(self)@.len(),
        ensures
            final(self)@ == old(self)@.skip(n as int),
            final(self).capacity == old(self).capacity,
            final(self).wf(),
    {
        let ghost orig = self@;
        let mut i: usize = 0;
        while i < n
            invariant
                i <= n <= orig.len(),
                self@ == orig.skip(i as int),
                self.capacity == old(self).capacity,
                orig.len() <= self.capacity <= MAX_CAPACITY,
            decreases n - i,
        {
            self.words.remove(0);
            i += 1;
            proof {
                assert(self@ =~= orig.skip(i as int));
            }
        }
    }

    /// The least significant word; the buffer must be nonempty.
    pub fn front_word(&self) -> (r: Word)
        requires
            self@.len() >= 1,
        ensures
            r == self@[0],
    {
        self.words[0]
    }

    /// The two least significant words as a double word.
    pub fn front_dword(&self) -> (r: u128)
        requires
            self@.len() >= 2,
        ensures
            r == self@[0] + self@[1] * crate::primitive::word_base(),
    {
        let lo = self.words[0];
        let hi = self.words[1];
        crate::primitive::double_word(lo, hi)
    }

    /// Replace the contents with a copy of `src`, reallocating only when the
    /// present capacity is too small or not compact for it.
    pub fn clone_from_slice(&mut self, src: &[Word])
        requires
            old(self).wf(),
            src@.len() <= MAX_CAPACITY,
        ensures
            final(self)@ == src@,
            final(self).wf(),
            final(self).capacity <= spec_max_compact_capacity(src@.len() as nat),
            src@.len() <= old(self).capacity <= spec_max_compact_capacity(src@.len() as nat)
                ==> final(self).capacity == old(self).capacity,
            !(src@.len() <= old(self).capacity <= spec_max_compact_capacity(src@.len() as nat))
                ==> final(self).capacity == spec_default_capacity(src@.len() as nat),
    {
        let n = src.len();
        if self.capacity >= n && self.capacity <= Self::max_compact_capacity(n) {
            self.words.clear();
            let ghost orig = self@;
            self.push_slice(src);
            proof {
                assert(self@ =~= src@);
            }
        } else {
            *self = Self::from_words(src);
        }
    }

    /// Replace the contents with a copy of another buffer, reusing the
    /// allocation when its capacity is in the compact range.
    pub fn clone_from(&mut self, src: &Buffer)
        requires
            old(self).wf(),
            src.wf(),
        ensures
            final(self)@ == src@,
            final(self).wf(),
            final(self).capacity <= spec_max_compact_capacity(src@.len() as nat),
            src@.len() <= old(self).capacity <= spec_max_compact_capacity(src@.len() as nat)
                ==> final(self).capacity == old(self).capacity,
            !(src@.len() <= old(self).capacity <= spec_max_compact_capacity(src@.len() as nat))
                ==> final(self).capacity == spec_default_capacity(src@.len() as nat),
    {
        self.clone_from_slice(src.as_slice());
    }

    /// A fresh buffer holding a copy of `words`.
    pub fn from_words(words: &[Word]) -> (r: Buffer)
        requires
            words@.len() <= MAX_CAPACITY,
        ensures
            r@ == words@,
            r.wf(),
            r.capacity == spec_default_capacity(words@.len() as nat),
    {
        let mut buffer = Buffer::allocate(words.len());
        buffer.push_slice(words);
        proof {
            assert(buffer@ =~= words@);
        }
        buffer
    }
}

impl Clone for Buffer {
    /// The copy is sized as a fresh allocation for the current length.
    fn clone(&self) -> (r: Self)
        ensures
            r@ == self@,
            self.wf() ==> r.wf() && r.capacity == spec_default_capacity(self@.len() as nat),
    {
        if self.words.len() <= MAX_CAPACITY {
            let mut new_buffer = Buffer::allocate(self.words.len());
            new_buffer.push_slice(self.words.as_slice());
            proof {
                assert(new_buffer@ =~= self@);
            }
            new_buffer
        } else {
            // unreachable for well-formed buffers; preserve the words anyway
            Buffer { words: self.words.clone(), capacity: self.capacity }
        }
    }
}

impl PartialEq for Buffer {
    /// Buffers compare by their words alone, not their capacity.
    fn eq(&self, other: &Self) -> (r: bool)
        ensures
            r == (self@ == other@),
    {
        eq_words(&self.words, &other.words)
    }
}

impl vstd::std_specs::cmp::PartialEqSpecImpl for Buffer {
    open spec fn obeys_eq_spec() -> bool {
        true
    }

    open spec fn eq_spec(&self, other: &Self) -> bool {
        self@ == other@
    }
}

impl Eq for Buffer {}

/// Word-by-word equality of two vectors.
pub fn eq_words(a: &Vec<Word>, b: &Vec<Word>) -> (r: bool)
    ensures
        r == (a@ == b@),
{
    if a.len() != b.len() {
        proof {
            assert(a@.len() != b@.len());
        }
        return false;
    }
    let n = a.len();
    let mut i: usize = 0;
    while i < n
        invariant
            i <= n,
            n == a@.len() == b@.len(),
            forall|j: int| 0 <= j < i ==> a@[j] == b@[j],
        decreases n - i,
    {
        if a[i] != b[i] {
            return false;
        }
        i += 1;
    }
    proof {
        assert(a@ =~= b@);
    }
    true
}

/// The value of a sequence is unchanged by trailing zeros past index `i`.
proof fn lemma_value_trailing_zeros(s: Seq<Word>, i: int)
    requires
        0 <= i <= s.len(),
        forall|j: int| i <= j < s.len() ==> s[j] == 0,
    ensures
        seq_value(s) == seq_value(s.take(i)),
    decreases s.len() - i,
{
    if i < s.len() {
        crate::math::lemma_seq_value_drop_zero(s);
        assert(s.drop_last() =~= s.take(s.len() - 1));
        lemma_value_trailing_zeros(s.take(s.len() - 1), i);
        assert(s.take(s.len() - 1).take(i) =~= s.take(i));
    } else {
        assert(s.take(i) =~= s);
    }
}

/// A sequence of zero words denotes zero.
pub proof fn lemma_zero_seq(s: Seq<Word>)
    requires
        forall|j: int| 0 <= j < s.len() ==> s[j] == 0,
    ensures
        seq_value(s) == 0,
    decreases s.len(),
{
    if s.len() > 0 {
        lemma_zero_seq(s.drop_last());
    }
}

} // verus!
