//! Validated path segments.

use vstd::prelude::*;

use crate::model::{
    first_invalid_char, is_valid_segment, lemma_segment_error_none, spec_segment_error,
    valid_seg_char,
};

verus! {

/// A single validated path component: non-empty, free of separators and
/// control characters, and not `.` or `..`. Borrows the string it validates.
#[derive(Clone, Copy, Debug)]
pub struct NodeName<'a> {
    inner: &'a str,
}

/// The error returned when converting a string to a [`NodeName`] fails.
#[derive(Copy, Clone, Debug, Eq, PartialEq)]
pub enum InvalidNodeNameError {
    /// The segment is empty.
    Empty,
    /// The segment is a single dot (`.`), which refers to the current
    /// directory.
    SingleDot,
    /// The segment is a double dot (`..`), which refers to the parent
    /// directory.
    DoubleDot,
    /// The segment contains a disallowed character (the first one found).
    ContainsInvalidCharacter(char),
}

impl<'a> View for NodeName<'a> {
    type V = Seq<char>;

    closed spec fn view(&self) -> Seq<char> {
        self.inner@
    }
}

impl<'a> NodeName<'a> {
    /// The segment invariant: the underlying string is a valid segment.
    pub open spec fn wf(self) -> bool {
        is_valid_segment(self@)
    }

    /// Validates `s` as a segment. Succeeds exactly on valid segments and
    /// otherwise reports the first violation found, scanning left to right.
    pub fn from_str(s: &'a str) -> (r: Result<Self, InvalidNodeNameError>)
        ensures
            match r {
                Ok(n) => n.wf() && n@ == s@ && spec_segment_error(s@) is None,
                Err(e) => spec_segment_error(s@) == Some(e),
            },
    {
        proof {
            lemma_segment_error_none(s@);
        }
        match segment_check(s) {
            None => Ok(NodeName { inner: s }),
            Some(e) => Err(e),
        }
    }

    /// Returns the segment as a string slice.
    pub fn as_str(&self) -> (r: &'a str)
        ensures
            r@ == self@,
    {
        self.inner
    }

    /// Wraps a string the caller has already shown to be a valid segment.
    pub(crate) fn from_valid_str(s: &'a str) -> (r: Self)
        requires
            is_valid_segment(s@),
        ensures
            r.wf(),
            r@ == s@,
    {
        NodeName { inner: s }
    }
}

/// Runs segment validation on `s`: `None` on success, otherwise the first
/// violation in checking order.
pub(crate) fn segment_check(s: &str) -> (r: Option<InvalidNodeNameError>)
    ensures
        r == spec_segment_error(s@),
{
    let n = s.unicode_len();
    if n == 0 {
        return Some(InvalidNodeNameError::Empty);
    }
    if n == 1 && s.get_char(0) == '.' {
        proof {
            assert(s@ =~= seq!['.']);
        }
        return Some(InvalidNodeNameError::SingleDot);
    }
    if n == 2 && s.get_char(0) == '.' && s.get_char(1) == '.' {
        proof {
            assert(s@ =~= seq!['.', '.']);
        }
        return Some(InvalidNodeNameError::DoubleDot);
    }
    proof {
        assert(s@ != seq!['.']);
        assert(s@ != seq!['.', '.']);
    }
    let mut i: usize = 0;
    while i < n
        invariant
            0 <= i <= n,
            n == s@.len(),
            forall|k: int| 0 <= k < i ==> valid_seg_char(#[trigger] s@[k]),
        decreases n - i,
    {
        let c = s.get_char(i);
        if c == '/' || c == '\\' || c == '\u{0}' || c == '\n' || c == '\r' {
            proof {
                lemma_first_invalid_prefix_valid(s@, i as int);
            }
            return Some(InvalidNodeNameError::ContainsInvalidCharacter(c));
        }
        i += 1;
    }
    proof {
        crate::model::lemma_first_invalid_char_none(s@);
    }
    None
}

/// If every character before position `i` is allowed and the one at `i` is
/// not, then the scan reports exactly the character at `i`.
proof fn lemma_first_invalid_prefix_valid(s: Seq<char>, i: int)
    requires
        0 <= i < s.len(),
        forall|k: int| 0 <= k < i ==> valid_seg_char(#[trigger] s[k]),
        !valid_seg_char(s[i]),
    ensures
        first_invalid_char(s) == Some(s[i]),
    decreases i,
{
    if i == 0 {
    } else {
        lemma_first_invalid_prefix_valid(s.drop_first(), i - 1);
        assert(s.drop_first()[i - 1] == s[i]);
        assert forall|k: int| 0 <= k < i - 1 implies valid_seg_char(#[trigger] s.drop_first()[k]) by {
            assert(s.drop_first()[k] == s[k + 1]);
        }
    }
}

} // verus!
