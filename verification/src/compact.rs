//! Trusted declarations for `compact_str::CompactString`, the
//! small-string-optimized buffer behind the owned path type.

use vstd::prelude::*;

use compact_str::CompactString;

verus! {

#[verifier::external_type_specification]
#[verifier::external_body]
pub struct ExCompactString(CompactString);

/// The characters a `CompactString` holds.
pub uninterp spec fn compact_chars(s: CompactString) -> Seq<char>;

/// Relies on `CompactString::new`: the new buffer holds exactly `text`.
#[verifier::external_body]
pub fn compact_new(text: &str) -> (r: CompactString)
    ensures
        compact_chars(r) == text@,
{
    CompactString::new(text)
}

/// Relies on `CompactString::as_str`: returns the entire buffer as a slice.
#[verifier::external_body]
pub fn compact_as_str(s: &CompactString) -> (r: &str)
    ensures
        r@ == compact_chars(*s),
{
    s.as_str()
}

/// Relies on `CompactString::push_str`: appends `text` to the buffer.
#[verifier::external_body]
pub fn compact_push_str(s: &mut CompactString, text: &str)
    ensures
        compact_chars(*final(s)) == compact_chars(*old(s)) + text@,
{
    s.push_str(text)
}

/// Relies on `CompactString::clone`: the copy holds the same characters.
#[verifier::external_body]
pub fn compact_clone(s: &CompactString) -> (r: CompactString)
    ensures
        compact_chars(r) == compact_chars(*s),
{
    s.clone()
}

} // verus!
