//! The mathematical model of word sequences.
//!
//! A little-endian sequence of words denotes a natural number; the lemmas here
//! relate that value to sequence operations (take, skip, push, update) and are
//! the backbone of every kernel proof in the crate.

use vstd::prelude::*;
use vstd::arithmetic::power2::*;
use vstd::arithmetic::div_mod::*;
use vstd::arithmetic::div_mod::{lemma_hoist_over_denominator, lemma_basic_div};
use vstd::arithmetic::mul::*;
use crate::primitive::Word;

verus! {

/// The natural number denoted by a little-endian word sequence.
pub open spec fn seq_value(s: Seq<Word>) -> nat
    decreases s.len(),
{
    if s.len() == 0 {
        0
    } else {
        seq_value(s.drop_last()) + (s.last() as nat) * pow2(64 * (s.len() - 1) as nat)
    }
}

/// A canonical sequence has no leading (most significant) zero word.
pub open spec fn canonical(s: Seq<Word>) -> bool {
    s.len() == 0 || s.last() != 0
}

/// One unfolding step at the top: the value of `s.take(i + 1)`.
pub proof fn lemma_seq_value_take_succ(s: Seq<Word>, i: int)
    requires
        0 <= i < s.len(),
    ensures
        seq_value(s.take(i + 1)) == seq_value(s.take(i)) + s[i] * pow2(64 * i as nat),
{
    assert(s.take(i + 1).drop_last() =~= s.take(i));
    assert(s.take(i + 1).last() == s[i]);
}

/// The whole sequence is the take of its own length.
pub proof fn lemma_seq_value_take_all(s: Seq<Word>)
    ensures
        seq_value(s.take(s.len() as int)) == seq_value(s),
{
    assert(s.take(s.len() as int) =~= s);
}

/// An upper bound: `n` words denote less than `2^(64n)`.
pub proof fn lemma_seq_value_bound(s: Seq<Word>)
    ensures
        seq_value(s) < pow2(64 * s.len()),
    decreases s.len(),
{
    if s.len() == 0 {
        lemma_pow2_pos(0);
    } else {
        let l = s.len();
        lemma_seq_value_bound(s.drop_last());
        lemma_pow2_pos(64 * (l - 1) as nat);
        lemma_pow2_adds(64 * (l - 1) as nat, 64);
        lemma2_to64();
        assert(s.last() * pow2(64 * (l - 1) as nat) <= (pow2(64) - 1) * pow2(
            64 * (l - 1) as nat,
        )) by {
            lemma_mul_inequality(
                s.last() as int,
                pow2(64) - 1,
                pow2(64 * (l - 1) as nat) as int,
            );
        }
        assert((pow2(64) - 1) * pow2(64 * (l - 1) as nat) == pow2(64) * pow2(64 * (l - 1) as nat)
            - pow2(64 * (l - 1) as nat)) by {
            lemma_mul_is_distributive_sub(pow2(64 * (l - 1) as nat) as int, pow2(64) as int, 1);
        }
    }
}

/// A lower bound: a nonzero top word puts the value at or above `2^(64(n-1))`.
pub proof fn lemma_seq_value_lower(s: Seq<Word>)
    requires
        s.len() > 0,
        s.last() != 0,
    ensures
        seq_value(s) >= pow2(64 * (s.len() - 1) as nat),
{
    lemma_pow2_pos(64 * (s.len() - 1) as nat);
    assert(s.last() * pow2(64 * (s.len() - 1) as nat) >= 1 * pow2(
        64 * (s.len() - 1) as nat,
    )) by {
        lemma_mul_inequality(1, s.last() as int, pow2(64 * (s.len() - 1) as nat) as int);
    }
}

/// Splitting at `i`: low words plus shifted high words.
pub proof fn lemma_seq_value_split(s: Seq<Word>, i: int)
    requires
        0 <= i <= s.len(),
    ensures
        seq_value(s) == seq_value(s.take(i)) + pow2(64 * i as nat) * seq_value(s.skip(i)),
    decreases s.len(),
{
    if i == s.len() {
        assert(s.take(i) =~= s);
        assert(s.skip(i) =~= Seq::<Word>::empty());
    } else {
        let l = s.len();
        let dl = s.drop_last();
        lemma_seq_value_split(dl, i);
        assert(dl.take(i) =~= s.take(i));
        assert(dl.skip(i) =~= s.skip(i).drop_last());
        let hi = s.skip(i);
        assert(hi.len() == l - i);
        assert(hi.last() == s.last());
        // seq_value(hi) == seq_value(hi.drop_last()) + last * pow2(64*(l-i-1))
        // multiply by pow2(64 i) and recombine the exponents
        lemma_pow2_adds(64 * i as nat, 64 * (l - i - 1) as nat);
        assert(pow2(64 * i as nat) * seq_value(hi) == pow2(64 * i as nat) * seq_value(
            hi.drop_last(),
        ) + pow2(64 * i as nat) * (s.last() * pow2(64 * (l - i - 1) as nat))) by {
            lemma_mul_is_distributive_add(
                pow2(64 * i as nat) as int,
                seq_value(hi.drop_last()) as int,
                (s.last() * pow2(64 * (l - i - 1) as nat)) as int,
            );
        }
        assert(pow2(64 * i as nat) * (s.last() * pow2(64 * (l - i - 1) as nat)) == s.last() * pow2(
            64 * (l - 1) as nat,
        )) by {
            lemma_mul_is_associative(
                pow2(64 * i as nat) as int,
                s.last() as int,
                pow2(64 * (l - i - 1) as nat) as int,
            );
            lemma_mul_is_commutative(pow2(64 * i as nat) as int, s.last() as int);
            lemma_mul_is_associative(
                s.last() as int,
                pow2(64 * i as nat) as int,
                pow2(64 * (l - i - 1) as nat) as int,
            );
        }
    }
}

/// Appending a word adds its shifted value.
pub proof fn lemma_seq_value_push(s: Seq<Word>, w: Word)
    ensures
        seq_value(s.push(w)) == seq_value(s) + w * pow2(64 * s.len()),
{
    assert(s.push(w).drop_last() =~= s);
}

/// A trailing zero word does not change the value.
pub proof fn lemma_seq_value_drop_zero(s: Seq<Word>)
    requires
        s.len() > 0,
        s.last() == 0,
    ensures
        seq_value(s) == seq_value(s.drop_last()),
{
}

/// The value of a singleton sequence.
pub proof fn lemma_seq_value_one(s: Seq<Word>)
    requires
        s.len() == 1,
    ensures
        seq_value(s) == s[0],
{
    assert(s.drop_last().len() == 0);
    assert(seq_value(s.drop_last()) == 0) by {
        reveal_with_fuel(seq_value, 2);
    }
    lemma2_to64();
    assert(pow2(0) == 1);
    assert(seq_value(s) == seq_value(s.drop_last()) + (s.last() as nat) * pow2(
        64 * (s.len() - 1) as nat,
    ));
    assert(s.last() == s[0]);
}

/// The value of a two-word sequence.
pub proof fn lemma_seq_value_two(s: Seq<Word>)
    requires
        s.len() == 2,
    ensures
        seq_value(s) == s[0] + s[1] * pow2(64),
{
    lemma2_to64();
    assert(s.drop_last().len() == 1);
    lemma_seq_value_one(s.drop_last());
    assert(s.drop_last()[0] == s[0]);
}

/// Recombining a carry or borrow: if `a + b*2^64 == c` holds of one digit
/// position, the same holds once every term is shifted up by `j` words.
pub proof fn lemma_shift_comb(a: int, b: int, c: int, j: nat)
    requires
        a + b * pow2(64) == c,
    ensures
        a * pow2(64 * j) + b * pow2(64 * (j + 1)) == c * pow2(64 * j),
{
    let p = pow2(64 * j) as int;
    lemma_pow2_adds(64 * j, 64);
    assert(64 * (j + 1) == 64 * j + 64);
    assert(pow2(64 * (j + 1)) == p * pow2(64));
    assert(c * p == (a + b * pow2(64)) * p);
    assert((a + b * pow2(64)) * p == a * p + (b * pow2(64)) * p) by {
        lemma_mul_is_distributive_add_other_way(p, a, b * pow2(64));
    }
    assert((b * pow2(64)) * p == b * (pow2(64) * p)) by {
        lemma_mul_is_associative(b, pow2(64) as int, p);
    }
    assert(b * (pow2(64) * p) == b * (p * pow2(64))) by {
        lemma_mul_is_commutative(pow2(64) as int, p);
    }
}

/// Distributing a two-term sum over a product.
pub proof fn lemma_mul_distribute_add2(a: int, b: int, p: int)
    ensures
        (a + b) * p == a * p + b * p,
{
    lemma_mul_is_commutative(a + b, p);
    lemma_mul_is_distributive_add(p, a, b);
    lemma_mul_is_commutative(p, a);
    lemma_mul_is_commutative(p, b);
}

/// Distributing a two-term difference over a product.
pub proof fn lemma_mul_distribute_sub2(a: int, b: int, p: int)
    ensures
        (a - b) * p == a * p - b * p,
{
    lemma_mul_is_commutative(a - b, p);
    lemma_mul_is_distributive_sub(p, a, b);
    lemma_mul_is_commutative(p, a);
    lemma_mul_is_commutative(p, b);
}

/// Distributing a three-term difference over a product.
pub proof fn lemma_mul_distribute_sub3(a: int, b: int, c: int, p: int)
    ensures
        (a - b - c) * p == a * p - b * p - c * p,
{
    lemma_mul_distribute_sub2(a - b, c, p);
    lemma_mul_distribute_sub2(a, b, p);
}

/// Rebracketing `(a*b)*c` as `(a*c)*b`.
pub proof fn lemma_mul_shuffle(a: int, b: int, c: int)
    ensures
        (a * b) * c == (a * c) * b,
{
    lemma_mul_is_associative(a, b, c);
    lemma_mul_is_commutative(b, c);
    lemma_mul_is_associative(a, c, b);
}

/// A prefix never denotes more than the whole sequence.
pub proof fn lemma_seq_value_take_le(s: Seq<Word>, i: int)
    requires
        0 <= i <= s.len(),
    ensures
        seq_value(s.take(i)) <= seq_value(s),
{
    lemma_seq_value_split(s, i);
}

/// Dropping the low `w` words divides the value by `2^(64 w)`.
pub proof fn lemma_seq_value_skip_div(s: Seq<Word>, w: int)
    requires
        0 <= w <= s.len(),
    ensures
        seq_value(s.skip(w)) as int == seq_value(s) as int / pow2(64 * w as nat) as int,
{
    lemma_seq_value_split(s, w);
    lemma_seq_value_bound(s.take(w));
    assert(s.take(w).len() == w);
    lemma_pow2_pos(64 * w as nat);
    lemma_hoist_over_denominator(
        seq_value(s.take(w)) as int,
        seq_value(s.skip(w)) as int,
        pow2(64 * w as nat),
    );
    lemma_basic_div(seq_value(s.take(w)) as int, pow2(64 * w as nat) as int);
    lemma_mul_is_commutative(seq_value(s.skip(w)) as int, pow2(64 * w as nat) as int);
}

/// A canonical sequence below `2^(64 n)` has at most `n` words.
pub proof fn lemma_canonical_len_le(s: Seq<Word>, n: nat)
    requires
        canonical(s),
        seq_value(s) < pow2(64 * n),
    ensures
        s.len() <= n,
{
    if s.len() > n {
        lemma_seq_value_lower(s);
        if 64 * n < 64 * (s.len() - 1) as nat {
            lemma_pow2_strictly_increases(64 * n, 64 * (s.len() - 1) as nat);
        }
    }
}

/// A sequence that extends another with zero words denotes the same value.
pub proof fn lemma_seq_value_pad(t: Seq<Word>, s: Seq<Word>)
    requires
        s.len() <= t.len(),
        forall|j: int| 0 <= j < s.len() ==> t[j] == s[j],
        forall|j: int| s.len() <= j < t.len() ==> t[j] == 0,
    ensures
        seq_value(t) == seq_value(s),
    decreases t.len(),
{
    if t.len() > s.len() {
        lemma_seq_value_drop_zero(t);
        lemma_seq_value_pad(t.drop_last(), s);
    } else {
        assert(t =~= s);
    }
}

/// Word sequences of one length compare at the highest differing word.
pub proof fn lemma_seq_value_cmp_at(a: Seq<Word>, b: Seq<Word>, k: int)
    requires
        a.len() == b.len(),
        0 <= k < a.len(),
        forall|m: int| k < m < a.len() ==> a[m] == b[m],
        a[k] < b[k],
    ensures
        seq_value(a) < seq_value(b),
{
    let p = pow2(64 * k as nat) as int;
    lemma_pow2_pos(64 * k as nat);
    lemma_seq_value_split(a, k + 1);
    lemma_seq_value_split(b, k + 1);
    assert(a.skip(k + 1) =~= b.skip(k + 1));
    lemma_seq_value_take_succ(a, k);
    lemma_seq_value_take_succ(b, k);
    lemma_seq_value_bound(a.take(k));
    assert(a.take(k).len() == k);
    // value of a's prefix:  < (a[k] + 1) * 2^(64k) <= b[k] * 2^(64k)
    lemma_mul_distribute_add2(a[k] as int, 1, p);
    lemma_mul_inequality(a[k] + 1, b[k] as int, p);
}

/// Of two canonical sequences, the longer denotes the larger value.
pub proof fn lemma_seq_value_len_cmp(a: Seq<Word>, b: Seq<Word>)
    requires
        canonical(a),
        canonical(b),
        a.len() < b.len(),
    ensures
        seq_value(a) < seq_value(b),
{
    lemma_seq_value_bound(a);
    lemma_seq_value_lower(b);
    if 64 * a.len() < 64 * (b.len() - 1) as nat {
        lemma_pow2_strictly_increases(64 * a.len(), 64 * (b.len() - 1) as nat);
    }
}

/// A product of bounded nonnegative factors is bounded by the product of the
/// bounds.
pub proof fn lemma_mul_bound_lt(x: int, a: int, y: int, b: int)
    requires
        0 <= x < a,
        0 <= y < b,
    ensures
        x * y < a * b,
{
    lemma_mul_inequality(x, a - 1, y);
    lemma_mul_is_commutative(a - 1, y);
    lemma_mul_inequality(y, b - 1, a - 1);
    lemma_mul_is_commutative(b - 1, a - 1);
    lemma_mul_distribute_sub2(b, 1, a - 1);
    lemma_mul_is_commutative(b, a - 1);
    lemma_mul_distribute_sub2(a, 1, b);
    lemma_mul_is_commutative(a, b);
}

/// Canonical sequences are value-determined: equal values mean equal words.
pub proof fn lemma_seq_value_injective(a: Seq<Word>, b: Seq<Word>)
    requires
        canonical(a),
        canonical(b),
        seq_value(a) == seq_value(b),
    ensures
        a =~= b,
    decreases a.len(),
{
    if a.len() == 0 || b.len() == 0 {
        if a.len() != 0 {
            lemma_seq_value_lower(a);
            lemma_pow2_pos(64 * (a.len() - 1) as nat);
        }
        if b.len() != 0 {
            lemma_seq_value_lower(b);
            lemma_pow2_pos(64 * (b.len() - 1) as nat);
        }
    } else {
        // equal lengths, from the pow2 sandwich
        lemma_seq_value_lower(a);
        lemma_seq_value_bound(a);
        lemma_seq_value_lower(b);
        lemma_seq_value_bound(b);
        if a.len() < b.len() {
            lemma_pow2_adds(64 * a.len(), 64 * (b.len() - a.len() - 1) as nat);
            lemma_pow2_pos(64 * (b.len() - a.len() - 1) as nat);
            assert(pow2(64 * a.len()) <= pow2(64 * (b.len() - 1) as nat)) by {
                if 64 * a.len() < 64 * (b.len() - 1) as nat {
                    lemma_pow2_strictly_increases(64 * a.len(), 64 * (b.len() - 1) as nat);
                }
            }
            assert(false);
        }
        if b.len() < a.len() {
            assert(pow2(64 * b.len()) <= pow2(64 * (a.len() - 1) as nat)) by {
                if 64 * b.len() < 64 * (a.len() - 1) as nat {
                    lemma_pow2_strictly_increases(64 * b.len(), 64 * (a.len() - 1) as nat);
                }
            }
            assert(false);
        }
        let l = a.len();
        let p = pow2(64 * (l - 1) as nat) as int;
        lemma_pow2_pos(64 * (l - 1) as nat);
        lemma_seq_value_bound(a.drop_last());
        lemma_seq_value_bound(b.drop_last());
        // top words agree by uniqueness of division
        assert(a.last() == b.last()) by {
            let v = seq_value(a) as int;
            lemma_fundamental_div_mod_converse(
                v,
                p,
                a.last() as int,
                seq_value(a.drop_last()) as int,
            );
            lemma_fundamental_div_mod_converse(
                v,
                p,
                b.last() as int,
                seq_value(b.drop_last()) as int,
            );
        }
        lemma_seq_value_injective_padded(a.drop_last(), b.drop_last());
        assert forall|i: int| 0 <= i < a.len() implies a[i] == b[i] by {
            if i < a.len() - 1 {
                assert(a.drop_last()[i] == b.drop_last()[i]);
            }
        }
    }
}

/// Equal values and equal lengths mean equal words (leading zeros allowed).
pub proof fn lemma_seq_value_injective_padded(a: Seq<Word>, b: Seq<Word>)
    requires
        a.len() == b.len(),
        seq_value(a) == seq_value(b),
    ensures
        a =~= b,
    decreases a.len(),
{
    if a.len() > 0 {
        let l = a.len();
        let p = pow2(64 * (l - 1) as nat) as int;
        lemma_pow2_pos(64 * (l - 1) as nat);
        lemma_seq_value_bound(a.drop_last());
        lemma_seq_value_bound(b.drop_last());
        assert(a.last() == b.last()) by {
            let v = seq_value(a) as int;
            lemma_fundamental_div_mod_converse(
                v,
                p,
                a.last() as int,
                seq_value(a.drop_last()) as int,
            );
            lemma_fundamental_div_mod_converse(
                v,
                p,
                b.last() as int,
                seq_value(b.drop_last()) as int,
            );
        }
        lemma_seq_value_injective_padded(a.drop_last(), b.drop_last());
        assert forall|i: int| 0 <= i < a.len() implies a[i] == b[i] by {
            if i < a.len() - 1 {
                assert(a.drop_last()[i] == b.drop_last()[i]);
            }
        }
    }
}

} // verus!
