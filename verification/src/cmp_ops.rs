//! Word-slice comparison.

use vstd::prelude::*;
use crate::math::{seq_value, lemma_seq_value_cmp_at, lemma_seq_value_len_cmp};
use crate::primitive::Word;

verus! {

/// Compare two equally long word slices; `-1`, `0` or `1` as the first value
/// is below, equal to or above the second.
pub fn cmp_same_len(a: &[Word], b: &[Word]) -> (r: i8)
    requires
        a@.len() == b@.len(),
    ensures
        r == -1 || r == 0 || r == 1,
        (r == -1) <==> seq_value(a@) < seq_value(b@),
        (r == 0) <==> seq_value(a@) == seq_value(b@),
        (r == 1) <==> seq_value(a@) > seq_value(b@),
{
    let n = a.len();
    let mut j: usize = n;
    while j > 0
        invariant
            j <= n,
            n == a@.len(),
            n == b@.len(),
            forall|m: int| j <= m < n ==> a@[m] == b@[m],
        decreases j,
    {
        j -= 1;
        let aw = a[j];
        let bw = b[j];
        if aw < bw {
            proof {
                lemma_seq_value_cmp_at(a@, b@, j as int);
            }
            return -1;
        }
        if aw > bw {
            proof {
                lemma_seq_value_cmp_at(b@, a@, j as int);
            }
            return 1;
        }
    }
    proof {
        assert(a@ =~= b@);
    }
    0
}

/// Compare two canonical word slices of any length.
pub fn cmp_in_place(a: &[Word], b: &[Word]) -> (r: i8)
    requires
        crate::math::canonical(a@),
        crate::math::canonical(b@),
    ensures
        r == -1 || r == 0 || r == 1,
        (r == -1) <==> seq_value(a@) < seq_value(b@),
        (r == 0) <==> seq_value(a@) == seq_value(b@),
        (r == 1) <==> seq_value(a@) > seq_value(b@),
{
    if a.len() < b.len() {
        proof {
            lemma_seq_value_len_cmp(a@, b@);
        }
        -1
    } else if a.len() > b.len() {
        proof {
            lemma_seq_value_len_cmp(b@, a@);
        }
        1
    } else {
        cmp_same_len(a, b)
    }
}

} // verus!
