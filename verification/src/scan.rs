//! Character-level scanning helpers over string slices.

use vstd::prelude::*;

use crate::model::{lemma_sep_after_unique, sep_after};

verus! {

/// Position of the first separator in `s` at or after `from`, or the length
/// of `s` if the rest holds none.
pub fn find_sep(s: &str, from: usize) -> (j: usize)
    requires
        from <= s@.len(),
    ensures
        j == sep_after(s@, from as int),
        from <= j <= s@.len(),
{
    let n = s.unicode_len();
    let mut j = from;
    while j < n
        invariant
            from <= j <= n,
            n == s@.len(),
            forall|k: int| from <= k < j ==> s@[k] != '/',
        decreases n - j,
    {
        if s.get_char(j) == '/' {
            proof {
                lemma_sep_after_unique(s@, from as int, j as int);
            }
            return j;
        }
        j += 1;
    }
    proof {
        lemma_sep_after_unique(s@, from as int, n as int);
    }
    n
}

/// Position of the last separator of `s` within `[start, end)`. The caller
/// guarantees there is one, by placing a separator at `start`.
pub fn rfind_sep(s: &str, start: usize, end: usize) -> (k: usize)
    requires
        start < end <= s@.len(),
        s@[start as int] == '/',
    ensures
        start <= k < end,
        s@[k as int] == '/',
        forall|m: int| k < m < end ==> s@[m] != '/',
{
    let mut k = end - 1;
    loop
        invariant
            start <= k < end <= s@.len(),
            s@[start as int] == '/',
            forall|m: int| k < m < end ==> s@[m] != '/',
        decreases k,
    {
        if s.get_char(k) == '/' {
            return k;
        }
        k = k - 1;
    }
}

/// Whether `pre` is a character-for-character prefix of `s`.
pub fn str_is_prefix(s: &str, pre: &str) -> (r: bool)
    ensures
        r == pre@.is_prefix_of(s@),
{
    let n = s.unicode_len();
    let m = pre.unicode_len();
    if m > n {
        return false;
    }
    let mut i: usize = 0;
    while i < m
        invariant
            0 <= i <= m <= n,
            n == s@.len(),
            m == pre@.len(),
            forall|k: int| 0 <= k < i ==> s@[k] == pre@[k],
        decreases m - i,
    {
        if s.get_char(i) != pre.get_char(i) {
            proof {
                assert(!(pre@ =~= s@.subrange(0, m as int)));
            }
            return false;
        }
        i += 1;
    }
    proof {
        assert(pre@ =~= s@.subrange(0, m as int));
    }
    true
}

} // verus!
