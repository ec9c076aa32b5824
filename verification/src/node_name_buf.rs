//! Owned path segments.

use vstd::prelude::*;

use smol_str::SmolStr;

use crate::model::{is_valid_segment, spec_segment_error};
use crate::node_name::{InvalidNodeNameError, NodeName};

verus! {

#[verifier::external_type_specification]
#[verifier::external_body]
pub struct ExSmolStr(SmolStr);

/// The characters a `SmolStr` holds.
pub uninterp spec fn smol_chars(s: SmolStr) -> Seq<char>;

/// Relies on `SmolStr::new`: the new string holds exactly `text`.
#[verifier::external_body]
fn smol_new(text: &str) -> (r: SmolStr)
    ensures
        smol_chars(r) == text@,
{
    SmolStr::new(text)
}

/// Relies on `SmolStr::as_str`: returns the whole string as a slice.
#[verifier::external_body]
fn smol_as_str(s: &SmolStr) -> (r: &str)
    ensures
        r@ == smol_chars(*s),
{
    s.as_str()
}

/// An owned, validated path segment: the owning counterpart of [`NodeName`].
#[derive(Debug)]
pub struct NodeNameBuf {
    inner: SmolStr,
}

impl View for NodeNameBuf {
    type V = Seq<char>;

    closed spec fn view(&self) -> Seq<char> {
        smol_chars(self.inner)
    }
}

impl NodeNameBuf {
    /// The segment invariant: the owned string is a valid segment.
    pub open spec fn wf(&self) -> bool {
        is_valid_segment(self@)
    }

    /// Validates `s` and takes an owned copy of it. Succeeds exactly on valid
    /// segments and otherwise reports the first violation found.
    pub fn from_str(s: &str) -> (r: Result<Self, InvalidNodeNameError>)
        ensures
            match r {
                Ok(n) => n.wf() && n@ == s@ && spec_segment_error(s@) is None,
                Err(e) => spec_segment_error(s@) == Some(e),
            },
    {
        match NodeName::from_str(s) {
            Ok(_) => Ok(NodeNameBuf { inner: smol_new(s) }),
            Err(e) => Err(e),
        }
    }

    /// Returns the segment as a string slice.
    pub fn as_str(&self) -> (r: &str)
        ensures
            r@ == self@,
    {
        smol_as_str(&self.inner)
    }

    /// Returns a borrowed view of the segment.
    pub fn as_node_name(&self) -> (r: NodeName<'_>)
        requires
            self.wf(),
        ensures
            r.wf(),
            r@ == self@,
    {
        NodeName::from_valid_str(self.as_str())
    }
}

impl<'a> NodeName<'a> {
    /// An owned copy of the segment.
    pub fn to_owned(&self) -> (r: NodeNameBuf)
        requires
            self.wf(),
        ensures
            r.wf(),
            r@ == self@,
    {
        NodeNameBuf { inner: smol_new(self.as_str()) }
    }
}

} // verus!
