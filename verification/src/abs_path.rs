//! Borrowed absolute paths, their component iterator, and the normalizer.

use vstd::prelude::*;

use compact_str::CompactString;

use crate::abs_path_buf::AbsPathBuf;
use crate::compact::{compact_as_str, compact_chars, compact_new, compact_push_str};
use crate::model::{
    all_valid_segments, byte_offset_of, is_valid_path, is_valid_segment, lemma_front_peel,
    lemma_path_join, lemma_path_of_segments, lemma_root_valid, lemma_segment_error_none,
    lemma_segments_empty, lemma_sep_after, lemma_sep_after_unique, lemma_split_last,
    lemma_starts_with_segments, norm_from, normalize_spec, path_join, path_of, root_str, segments,
    segments_from, spec_starts_with,
};
use crate::node_name::{segment_check, InvalidNodeNameError, NodeName};
use crate::scan::{find_sep, rfind_sep, str_is_prefix};

verus! {

/// The error returned when the strict parse of an absolute path fails.
#[derive(Copy, Clone, Debug, PartialEq, Eq)]
pub struct AbsPathNotAbsoluteError;

/// The error returned when converting a host path fails: either the host
/// path is not valid UTF-8, or its text is not a valid absolute path.
#[derive(Copy, Clone, Debug, PartialEq, Eq)]
pub enum AbsPathFromPathError {
    /// The path is not absolute (or holds an invalid component).
    NotAbsolute,
    /// The path is not valid UTF-8.
    NotUtf8,
}

/// The error returned when normalizing a path string fails.
#[derive(Copy, Clone, Debug, PartialEq, Eq)]
pub enum NormalizeError {
    /// The path holds `..` components that would navigate above the root.
    EscapesRoot,
    /// The path holds a disallowed character. `byte_offset` is the byte
    /// offset, within the original input, of the component holding it, and
    /// `ch` is the first offending character of that component.
    InvalidCharacter { byte_offset: usize, ch: char },
    /// The path does not begin with the separator.
    NotAbsolute,
}

/// A borrowed, validated absolute path: a view over a string that starts with
/// exactly one separator, never ends with one unless it is the root, and
/// whose pieces between separators are valid segments.
#[derive(Clone, Copy, Debug)]
pub struct AbsPath<'a> {
    inner: &'a str,
}

/// A lazy, restartable, bidirectional cursor over a path's segments. Its
/// state is itself always a valid path: consuming from the front drops the
/// first segment, consuming from the back drops the last.
#[derive(Clone, Copy, Debug)]
pub struct Components<'a> {
    inner: &'a str,
}

/// A path that either borrows the string it was made from or owns a fresh
/// buffer — the normalizer's way of reporting that it did not allocate.
#[derive(Debug)]
pub enum PathCow<'a> {
    /// The path aliases a range of the input it was made from.
    Borrowed(AbsPath<'a>),
    /// The path owns its buffer.
    Owned(AbsPathBuf),
}

impl<'a> View for AbsPath<'a> {
    type V = Seq<char>;

    closed spec fn view(&self) -> Seq<char> {
        self.inner@
    }
}

impl<'a> View for Components<'a> {
    type V = Seq<char>;

    closed spec fn view(&self) -> Seq<char> {
        self.inner@
    }
}

impl<'a> View for PathCow<'a> {
    type V = Seq<char>;

    closed spec fn view(&self) -> Seq<char> {
        match self {
            PathCow::Borrowed(p) => p@,
            PathCow::Owned(b) => b@,
        }
    }
}

impl<'a> AbsPath<'a> {
    /// The path invariant: the underlying string is a valid absolute path.
    pub open spec fn wf(self) -> bool {
        is_valid_path(self@)
    }

    /// Wraps a string the caller has already shown to be a valid path.
    pub(crate) fn from_valid_str(s: &'a str) -> (r: Self)
        requires
            is_valid_path(s@),
        ensures
            r.wf(),
            r@ == s@,
    {
        AbsPath { inner: s }
    }

    /// The root path, the one absolute path with no segments.
    pub fn root() -> (r: AbsPath<'static>)
        ensures
            r.wf(),
            r@ == root_str(),
            segments(r@).len() == 0,
    {
        proof {
            reveal_strlit("/");
            assert("/"@ =~= root_str());
            lemma_root_valid();
        }
        AbsPath { inner: "/" }
    }

    /// Returns the path as a string slice.
    pub fn as_str(&self) -> (r: &'a str)
        ensures
            r@ == self@,
    {
        self.inner
    }

    /// The strict parse: validates `s` component by component, without
    /// rewriting anything. A component equal to `.` or `..`, an empty
    /// component, or a trailing separator on a non-root path is rejected, not
    /// resolved. Succeeds exactly on strings that already satisfy the path
    /// invariants.
    pub fn from_str(s: &'a str) -> (r: Result<Self, AbsPathNotAbsoluteError>)
        ensures
            match r {
                Ok(p) => is_valid_path(s@) && p.wf() && p@ == s@,
                Err(_) => !is_valid_path(s@),
            },
    {
        let n = s.unicode_len();
        if n == 0 {
            return Err(AbsPathNotAbsoluteError);
        }
        if s.get_char(0) != '/' {
            return Err(AbsPathNotAbsoluteError);
        }
        if n > 1 && s.get_char(n - 1) == '/' {
            return Err(AbsPathNotAbsoluteError);
        }
        let ghost mut taken: Seq<Seq<char>> = Seq::empty();
        let mut cursor: usize = 1;
        proof {
            assert(segments(s@) =~= taken + segments_from(s@, 1));
        }
        while cursor < n
            invariant
                1 <= cursor,
                n == s@.len(),
                s@[0] == '/',
                all_valid_segments(taken),
                segments(s@) =~= taken + segments_from(s@, cursor as int),
            decreases n - cursor,
        {
            let j = find_sep(s, cursor);
            let comp = s.substring_char(cursor, j);
            proof {
                lemma_sep_after(s@, cursor as int);
                lemma_segment_error_none(comp@);
            }
            if segment_check(comp).is_some() {
                proof {
                    assert(segments_from(s@, cursor as int)[0] == comp@);
                    assert(segments(s@)[taken.len() as int] == comp@);
                    assert(!crate::model::all_valid_segments(segments(s@)));
                }
                return Err(AbsPathNotAbsoluteError);
            }
            proof {
                taken = taken.push(comp@);
                if j < n {
                    assert(segments_from(s@, cursor as int) =~= seq![comp@] + segments_from(
                        s@,
                        j + 1,
                    ));
                } else {
                    assert(segments_from(s@, cursor as int) =~= seq![comp@]);
                    assert(segments_from(s@, j + 1) =~= Seq::<Seq<char>>::empty());
                }
                assert(segments(s@) =~= taken + segments_from(s@, j + 1));
            }
            if j >= n {
                proof {
                    assert(segments_from(s@, n as int) =~= segments_from(s@, j + 1));
                }
                cursor = n;
            } else {
                cursor = j + 1;
            }
        }
        proof {
            assert(segments_from(s@, cursor as int) =~= Seq::<Seq<char>>::empty());
            assert(segments(s@) =~= taken);
            assert(is_valid_path(s@));
        }
        Ok(AbsPath { inner: s })
    }

    /// True exactly when the path is the root.
    pub fn is_root(&self) -> (r: bool)
        requires
            self.wf(),
        ensures
            r == (self@ == root_str()),
            r == (segments(self@).len() == 0),
    {
        proof {
            lemma_segments_empty(self@);
        }
        let r = self.inner.unicode_len() == 1;
        proof {
            if self@.len() == 1 {
                assert(self@ =~= root_str());
            }
        }
        r
    }

    /// A fresh cursor over the path's segments.
    pub fn components(&self) -> (c: Components<'a>)
        requires
            self.wf(),
        ensures
            c.wf(),
            c@ == self@,
    {
        Components { inner: self.inner }
    }

    /// The last segment of the path, or `None` for the root.
    pub fn node_name(&self) -> (r: Option<NodeName<'a>>)
        requires
            self.wf(),
        ensures
            match r {
                Some(n) => segments(self@).len() > 0 && n.wf() && n@ == segments(self@).last(),
                None => self@ == root_str(),
            },
    {
        let mut components = self.components();
        components.next_back()
    }

    /// The path with its last segment removed, or `None` for the root.
    pub fn parent(&self) -> (r: Option<AbsPath<'a>>)
        requires
            self.wf(),
        ensures
            match r {
                Some(q) => {
                    &&& segments(self@).len() > 0
                    &&& q.wf()
                    &&& q@ == path_of(segments(self@).drop_last())
                    &&& segments(q@) == segments(self@).drop_last()
                },
                None => self@ == root_str(),
            },
    {
        let mut components = self.components();
        if components.next_back().is_some() {
            Some(components.as_path())
        } else {
            None
        }
    }

    /// The parent and the last segment in one backward scan, or `None` for
    /// the root.
    pub fn split_last(&self) -> (r: Option<(AbsPath<'a>, NodeName<'a>)>)
        requires
            self.wf(),
        ensures
            match r {
                Some((q, n)) => {
                    &&& segments(self@).len() > 0
                    &&& q.wf()
                    &&& n.wf()
                    &&& q@ == path_of(segments(self@).drop_last())
                    &&& segments(q@) == segments(self@).drop_last()
                    &&& n@ == segments(self@).last()
                },
                None => self@ == root_str(),
            },
    {
        let mut components = self.components();
        match components.next_back() {
            Some(last_component) => Some((components.as_path(), last_component)),
            None => None,
        }
    }

    /// A new owned path holding one more segment.
    pub fn join(&self, node_name: &NodeName) -> (r: AbsPathBuf)
        requires
            self.wf(),
            node_name.wf(),
        ensures
            r.wf(),
            r@ == path_join(self@, node_name@),
            segments(r@) == segments(self@).push(node_name@),
    {
        let path = self.to_owned();
        path.join(node_name)
    }

    /// An owned copy of the path.
    pub fn to_owned(&self) -> (r: AbsPathBuf)
        requires
            self.wf(),
        ensures
            r.wf(),
            r@ == self@,
    {
        AbsPathBuf::new(compact_new(self.inner))
    }

    /// All of `other`'s segments appended to this path. When this path is the
    /// root the result borrows `other` unchanged; otherwise it owns a new
    /// buffer.
    pub fn concat<'b>(&self, other: &AbsPath<'b>) -> (r: PathCow<'b>)
        requires
            self.wf(),
            other.wf(),
        ensures
            r.wf(),
            segments(r@) == segments(self@) + segments(other@),
            r@ == path_of(segments(self@) + segments(other@)),
            self@ == root_str() ==> r == PathCow::Borrowed(*other),
    {
        if self.is_root() {
            proof {
                assert(segments(self@) + segments(other@) =~= segments(other@));
                lemma_path_of_segments(other@);
            }
            PathCow::Borrowed(*other)
        } else {
            let mut buf = self.to_owned();
            buf.concat(other);
            PathCow::Owned(buf)
        }
    }

    /// True when `base`'s segments are a prefix of this path's segments:
    /// `base` is the root, or its string is a prefix of this path's string
    /// ending on a segment boundary.
    pub fn starts_with(&self, base: &AbsPath) -> (r: bool)
        requires
            self.wf(),
            base.wf(),
        ensures
            r == spec_starts_with(self@, base@),
            r == segments(base@).is_prefix_of(segments(self@)),
    {
        proof {
            lemma_starts_with_segments(self@, base@);
        }
        if base.is_root() {
            return true;
        }
        if !str_is_prefix(self.inner, base.inner) {
            return false;
        }
        let n = self.inner.unicode_len();
        let m = base.inner.unicode_len();
        if n == m {
            return true;
        }
        self.inner.get_char(m) == '/'
    }

    /// Removes `base` from the front of the path: the root when the two are
    /// equal, the rest of the path when `base` is a segment-aligned proper
    /// prefix, and `None` otherwise.
    pub fn strip_prefix(&self, other: &AbsPath) -> (r: Option<AbsPath<'a>>)
        requires
            self.wf(),
            other.wf(),
        ensures
            match r {
                Some(q) => {
                    &&& spec_starts_with(self@, other@)
                    &&& q.wf()
                    &&& segments(q@) == segments(self@).skip(segments(other@).len() as int)
                    &&& (other@ == root_str() ==> q@ == self@)
                    &&& (other@ != root_str() && self@ == other@ ==> q@ == root_str())
                    &&& (other@ != root_str() && self@ != other@ ==> q@ == self@.skip(
                        other@.len() as int,
                    ))
                },
                None => !spec_starts_with(self@, other@),
            },
    {
        proof {
            lemma_starts_with_segments(self@, other@);
        }
        if other.is_root() {
            proof {
                assert(segments(self@).skip(0) =~= segments(self@));
            }
            return Some(*self);
        }
        if !str_is_prefix(self.inner, other.inner) {
            return None;
        }
        let n = self.inner.unicode_len();
        let m = other.inner.unicode_len();
        if n == m {
            proof {
                assert(self@ =~= other@);
                lemma_root_valid();
                assert(segments(self@).skip(segments(other@).len() as int) =~= Seq::<
                    Seq<char>,
                >::empty());
            }
            return Some(AbsPath::root());
        }
        if self.inner.get_char(m) == '/' {
            let suffix = self.inner.substring_char(m, n);
            proof {
                assert(suffix@ =~= self@.skip(other@.len() as int));
            }
            Some(AbsPath { inner: suffix })
        } else {
            None
        }
    }

    /// The lenient, rewriting constructor: resolves `.` and `..` components
    /// and collapses repeated separators, scanning `raw` left to right once.
    /// Fails with `NotAbsolute` when `raw` does not begin with the separator,
    /// with `EscapesRoot` when a `..` would climb above the root, and with
    /// `InvalidCharacter` at the first component holding a disallowed
    /// character. When `raw` is already a valid path the result borrows it
    /// unchanged — no allocation happens; otherwise a single owned buffer is
    /// built.
    pub fn normalize(raw: &'a str) -> (r: Result<PathCow<'a>, NormalizeError>)
        ensures
            match r {
                Ok(cow) => {
                    &&& cow.wf()
                    &&& normalize_spec(raw@) == Ok::<_, NormalizeError>(segments(cow@))
                    &&& cow@ == path_of(segments(cow@))
                    &&& (is_valid_path(raw@) ==> cow is Borrowed && cow@ == raw@)
                },
                Err(e) => normalize_spec(raw@) == Err::<Seq<Seq<char>>, _>(e),
            },
    {
        let n = raw.unicode_len();
        if n == 0 {
            return Err(NormalizeError::NotAbsolute);
        }
        if raw.get_char(0) != '/' {
            return Err(NormalizeError::NotAbsolute);
        }
        let mut cursor: usize = 1;
        let mut np = NormalizedPath::Slice { start: 0, end: 1 };
        proof {
            lemma_root_valid();
            assert(np.content(raw@) =~= root_str());
        }
        loop
            invariant_except_break
                norm_from(raw@, 1, Seq::empty()) == norm_from(
                    raw@,
                    cursor as int,
                    segments(np.content(raw@)),
                ),
                is_valid_path(raw@) ==> (np matches NormalizedPath::Slice { start, end } && start
                    == 0 && end == (if cursor == 1 {
                    1int
                } else {
                    cursor - 1
                }) && segments(np.content(raw@)) + segments_from(raw@, cursor as int) =~= segments(
                    raw@,
                )),
            invariant
                np.inv(raw@),
                1 <= cursor <= n,
                n == raw@.len(),
                raw@[0] == '/',
                cursor == 1 || raw@[cursor - 1] == '/',
            ensures
                np.inv(raw@),
                norm_from(raw@, 1, Seq::empty()) == Ok::<_, NormalizeError>(
                    segments(np.content(raw@)),
                ),
                is_valid_path(raw@) ==> (np matches NormalizedPath::Slice { start, end } && start
                    == 0 && end == n),
            decreases n - cursor,
        {
            let j = find_sep(raw, cursor);
            let comp = raw.substring_char(cursor, j);
            proof {
                lemma_sep_after(raw@, cursor as int);
                lemma_segment_error_none(comp@);
                // When `raw` is already a valid path — other than the bare
                // root — the component under the cursor is one of its
                // segments, hence valid.
                if is_valid_path(raw@) && (cursor >= 2 || n > 1) {
                    assert(cursor < n) by {
                        if cursor == n && cursor >= 2 {
                            assert(raw@.last() == '/');
                        }
                    }
                    assert(segments_from(raw@, cursor as int)[0] == comp@);
                    let a = segments(np.content(raw@));
                    assert(segments(raw@)[a.len() as int] == comp@);
                    assert(is_valid_segment(comp@));
                }
            }
            match segment_check(comp) {
                None => {
                    proof {
                        assert(cursor < j) by {
                            assert(comp@.len() > 0);
                        }
                    }
                    let ghost pre = np;
                    np = np.push_seg(raw, cursor, j);
                    proof {
                        let a = segments(pre.content(raw@));
                        if j >= n {
                            assert(norm_from(raw@, cursor as int, a) == Ok::<_, NormalizeError>(
                                a.push(comp@),
                            ));
                        } else {
                            assert(norm_from(raw@, cursor as int, a) == norm_from(
                                raw@,
                                j + 1,
                                a.push(comp@),
                            ));
                        }
                        if is_valid_path(raw@) {
                            if cursor == 2 {
                                // Then `raw[1]` is a separator, making the
                                // first segment empty — impossible.
                                assert(raw@[1] == '/');
                                lemma_sep_after_unique(raw@, 1, 1);
                                assert(segments(raw@)[0] =~= raw@.subrange(1, 1));
                                assert(is_valid_segment(segments(raw@)[0]));
                                assert(false);
                            }
                            assert(segments(np.content(raw@)) + segments_from(raw@, j + 1)
                                =~= segments(raw@)) by {
                                assert(segments_from(raw@, cursor as int) =~= seq![comp@]
                                    + segments_from(raw@, j + 1));
                                let a2 = segments(pre.content(raw@));
                                assert(a2.push(comp@) + segments_from(raw@, j + 1) =~= a2 + (
                                seq![comp@] + segments_from(raw@, j + 1)));
                            }
                        }
                    }
                },
                Some(InvalidNodeNameError::Empty) | Some(InvalidNodeNameError::SingleDot) => {
                    proof {
                        if j >= n {
                            assert(norm_from(
                                raw@,
                                cursor as int,
                                segments(np.content(raw@)),
                            ) == Ok::<_, NormalizeError>(segments(np.content(raw@))));
                        }
                    }
                },
                Some(InvalidNodeNameError::DoubleDot) => {
                    if np.at_root(raw) {
                        return Err(NormalizeError::EscapesRoot);
                    }
                    let ghost pre = np;
                    np = np.truncate_to_parent(raw);
                    proof {
                        let a = segments(pre.content(raw@));
                        if j >= n {
                            assert(norm_from(raw@, cursor as int, a) == Ok::<_, NormalizeError>(
                                a.drop_last(),
                            ));
                        } else {
                            assert(norm_from(raw@, cursor as int, a) == norm_from(
                                raw@,
                                j + 1,
                                a.drop_last(),
                            ));
                        }
                    }
                },
                Some(InvalidNodeNameError::ContainsInvalidCharacter(c)) => {
                    let off = raw.substring_char(0, cursor).len();
                    proof {
                        assert(raw@.subrange(0, cursor as int) == raw@.take(cursor as int));
                        assert(off == byte_offset_of(raw@, cursor as int));
                    }
                    return Err(NormalizeError::InvalidCharacter { byte_offset: off, ch: c });
                },
            }
            if j >= n {
                break ;
            }
            cursor = j + 1;
        }
        proof {
            lemma_path_of_segments(np.content(raw@));
        }
        let cow = np.finish(raw);
        proof {
            if is_valid_path(raw@) {
                assert(cow@ =~= raw@);
            }
        }
        Ok(cow)
    }
}

impl<'a> Components<'a> {
    /// The cursor invariant: the remaining range is itself a valid path.
    pub open spec fn wf(self) -> bool {
        is_valid_path(self@)
    }

    /// The path formed by the segments not yet consumed from either end.
    pub fn as_path(&self) -> (r: AbsPath<'a>)
        requires
            self.wf(),
        ensures
            r.wf(),
            r@ == self@,
    {
        AbsPath { inner: self.inner }
    }

    /// Yields the first remaining segment and drops it from the front, or
    /// reports exhaustion.
    pub fn next(&mut self) -> (r: Option<NodeName<'a>>)
        requires
            old(self).wf(),
        ensures
            final(self).wf(),
            match r {
                Some(n) => {
                    &&& segments(old(self)@).len() > 0
                    &&& n.wf()
                    &&& n@ == segments(old(self)@)[0]
                    &&& segments(final(self)@) == segments(old(self)@).drop_first()
                },
                None => {
                    &&& segments(old(self)@).len() == 0
                    &&& final(self)@ == old(self)@
                },
            },
    {
        let n = self.inner.unicode_len();
        proof {
            lemma_segments_empty(self@);
        }
        if n == 1 {
            return None;
        }
        proof {
            lemma_front_peel(self@);
        }
        let j = find_sep(self.inner, 1);
        let component = self.inner.substring_char(1, j);
        if j >= n {
            proof {
                reveal_strlit("/");
                assert("/"@ =~= root_str());
                lemma_root_valid();
                assert(segments(old(self)@).drop_first() =~= Seq::<Seq<char>>::empty());
            }
            self.inner = "/";
        } else {
            let rest = self.inner.substring_char(j, n);
            proof {
                assert(rest@ =~= seq!['/'] + old(self)@.subrange(j + 1, n as int));
                assert(segments(old(self)@).drop_first() =~= segments(rest@));
            }
            self.inner = rest;
        }
        Some(NodeName::from_valid_str(component))
    }

    /// Yields the last remaining segment and drops it from the back, or
    /// reports exhaustion.
    pub fn next_back(&mut self) -> (r: Option<NodeName<'a>>)
        requires
            old(self).wf(),
        ensures
            final(self).wf(),
            match r {
                Some(n) => {
                    &&& segments(old(self)@).len() > 0
                    &&& n.wf()
                    &&& n@ == segments(old(self)@).last()
                    &&& segments(final(self)@) == segments(old(self)@).drop_last()
                    &&& final(self)@ == path_of(segments(old(self)@).drop_last())
                },
                None => {
                    &&& segments(old(self)@).len() == 0
                    &&& final(self)@ == old(self)@
                },
            },
    {
        let n = self.inner.unicode_len();
        proof {
            lemma_segments_empty(self@);
        }
        if n == 1 {
            return None;
        }
        proof {
            lemma_split_last(self@);
        }
        let k = rfind_sep(self.inner, 0, n);
        proof {
            let par = path_of(segments(old(self)@).drop_last());
            let sep_pos = if par.len() == 1 {
                0int
            } else {
                par.len() as int
            };
            assert(k == sep_pos) by {
                if k < sep_pos {
                    assert(old(self)@[sep_pos] == '/');
                } else if k > sep_pos {
                    assert(old(self)@[k as int] != '/');
                }
            }
        }
        let component = self.inner.substring_char(k + 1, n);
        if k == 0 {
            proof {
                reveal_strlit("/");
                assert("/"@ =~= root_str());
                assert(path_of(segments(old(self)@).drop_last()) =~= root_str());
            }
            self.inner = "/";
        } else {
            let rest = self.inner.substring_char(0, k);
            proof {
                assert(rest@ =~= path_of(segments(old(self)@).drop_last()));
            }
            self.inner = rest;
        }
        Some(NodeName::from_valid_str(component))
    }
}

impl<'a> PathCow<'a> {
    /// The path invariant, whichever variant holds the path.
    pub open spec fn wf(&self) -> bool {
        is_valid_path(self@)
    }

    /// Returns the path as a string slice.
    pub fn as_str(&self) -> (r: &str)
        ensures
            r@ == self@,
    {
        match self {
            PathCow::Borrowed(p) => p.as_str(),
            PathCow::Owned(b) => b.as_str(),
        }
    }

    /// Returns a borrowed view of the path.
    pub fn as_path(&self) -> (r: AbsPath<'_>)
        requires
            self.wf(),
        ensures
            r.wf(),
            r@ == self@,
    {
        match self {
            PathCow::Borrowed(p) => *p,
            PathCow::Owned(b) => b.as_path(),
        }
    }

    /// True when the path borrows the string it was made from.
    pub fn is_borrowed(&self) -> (r: bool)
        ensures
            r == (self is Borrowed),
    {
        match self {
            PathCow::Borrowed(_) => true,
            PathCow::Owned(_) => false,
        }
    }
}

/// The normalizer's accumulator: a range of the original string that is
/// already canonical, or an owned buffer once the canonical output diverged
/// from every contiguous slice of the input. Whatever the variant, it always
/// holds a valid absolute path.
enum NormalizedPath {
    /// An owned buffer, grown as components are accepted.
    Alloc(CompactString),
    /// The character range `[start, end)` of the original string. Slicing
    /// with this range yields a valid absolute path.
    Slice { start: usize, end: usize },
}

impl NormalizedPath {
    /// The characters the accumulator currently holds.
    spec fn content(self, raw: Seq<char>) -> Seq<char> {
        match self {
            NormalizedPath::Alloc(s) => compact_chars(s),
            NormalizedPath::Slice { start, end } => raw.subrange(start as int, end as int),
        }
    }

    /// The accumulator invariant: the held range or buffer is a valid path.
    spec fn inv(self, raw: Seq<char>) -> bool {
        match self {
            NormalizedPath::Alloc(s) => is_valid_path(compact_chars(s)),
            NormalizedPath::Slice { start, end } => {
                &&& start < end <= raw.len()
                &&& is_valid_path(raw.subrange(start as int, end as int))
            },
        }
    }

    /// Whether the accumulated path is still the root.
    fn at_root(&self, raw: &str) -> (r: bool)
        requires
            self.inv(raw@),
        ensures
            r == (segments(self.content(raw@)).len() == 0),
    {
        proof {
            lemma_segments_empty(self.content(raw@));
        }
        match self {
            NormalizedPath::Slice { start, end } => end - start == 1,
            NormalizedPath::Alloc(buf) => compact_as_str(buf).unicode_len() == 1,
        }
    }

    /// Appends the valid segment `raw[comp_start..comp_end]`. The borrowed
    /// range is kept — extended over the segment — when the segment directly
    /// follows it in the original string; otherwise the content so far is
    /// copied once into an owned buffer, which from then on only grows.
    fn push_seg(self, raw: &str, comp_start: usize, comp_end: usize) -> (r: Self)
        requires
            self.inv(raw@),
            1 <= comp_start < comp_end <= raw@.len(),
            raw@[comp_start - 1] == '/',
            is_valid_segment(raw@.subrange(comp_start as int, comp_end as int)),
        ensures
            r.inv(raw@),
            r.content(raw@) == path_join(
                self.content(raw@),
                raw@.subrange(comp_start as int, comp_end as int),
            ),
            segments(r.content(raw@)) == segments(self.content(raw@)).push(
                raw@.subrange(comp_start as int, comp_end as int),
            ),
            self matches NormalizedPath::Slice { start, end } ==> {
                &&& (end - start == 1 ==> r == (NormalizedPath::Slice {
                    start: (comp_start - 1) as usize,
                    end: comp_end,
                }))
                &&& (end - start != 1 && end == comp_start - 1 ==> r == (NormalizedPath::Slice {
                    start,
                    end: comp_end,
                }))
            },
    {
        let ghost comp_seq = raw@.subrange(comp_start as int, comp_end as int);
        proof {
            lemma_path_join(self.content(raw@), comp_seq);
        }
        match self {
            NormalizedPath::Slice { start, end } => {
                if end - start == 1 {
                    // The range is exactly the root: re-anchor it at the
                    // separator just before the segment — still zero-copy.
                    let r = NormalizedPath::Slice { start: comp_start - 1, end: comp_end };
                    proof {
                        assert(r.content(raw@) =~= path_join(self.content(raw@), comp_seq));
                    }
                    r
                } else if end == comp_start - 1 {
                    // The segment directly extends the range — still
                    // zero-copy.
                    let r = NormalizedPath::Slice { start, end: comp_end };
                    proof {
                        assert(r.content(raw@) =~= path_join(self.content(raw@), comp_seq));
                    }
                    r
                } else {
                    // A component was skipped or dropped in between: copy the
                    // range once into an owned buffer.
                    let mut buf = compact_new(raw.substring_char(start, end));
                    compact_push_str(&mut buf, "/");
                    compact_push_str(&mut buf, raw.substring_char(comp_start, comp_end));
                    let r = NormalizedPath::Alloc(buf);
                    proof {
                        reveal_strlit("/");
                        assert("/"@ =~= seq!['/']);
                        assert(r.content(raw@) =~= path_join(self.content(raw@), comp_seq));
                    }
                    r
                }
            },
            NormalizedPath::Alloc(buf) => {
                let mut buf = buf;
                let at_root = compact_as_str(&buf).unicode_len() == 1;
                proof {
                    lemma_segments_empty(compact_chars(buf));
                }
                if !at_root {
                    compact_push_str(&mut buf, "/");
                }
                compact_push_str(&mut buf, raw.substring_char(comp_start, comp_end));
                let r = NormalizedPath::Alloc(buf);
                proof {
                    reveal_strlit("/");
                    assert("/"@ =~= seq!['/']);
                    assert(r.content(raw@) =~= path_join(self.content(raw@), comp_seq));
                }
                r
            },
        }
    }

    /// Drops the last accepted segment: shrinks the borrowed range, or
    /// truncates the owned buffer, back to its own parent.
    fn truncate_to_parent(self, raw: &str) -> (r: Self)
        requires
            self.inv(raw@),
            segments(self.content(raw@)).len() > 0,
        ensures
            r.inv(raw@),
            r.content(raw@) == path_of(segments(self.content(raw@)).drop_last()),
            segments(r.content(raw@)) == segments(self.content(raw@)).drop_last(),
    {
        proof {
            lemma_segments_empty(self.content(raw@));
            lemma_split_last(self.content(raw@));
        }
        let ghost par = path_of(segments(self.content(raw@)).drop_last());
        let ghost sep_pos = if par.len() == 1 {
            0int
        } else {
            par.len() as int
        };
        match self {
            NormalizedPath::Slice { start, end } => {
                let k = rfind_sep(raw, start, end);
                proof {
                    let c = raw@.subrange(start as int, end as int);
                    assert(k - start == sep_pos) by {
                        if k - start < sep_pos {
                            assert(raw@[start + sep_pos] == '/') by {
                                assert(c[sep_pos] == '/');
                            }
                        } else if k - start > sep_pos {
                            assert(c[k - start] != '/');
                            assert(c[k - start] == raw@[k as int]);
                        }
                    }
                }
                let r = if k == start {
                    NormalizedPath::Slice { start, end: start + 1 }
                } else {
                    NormalizedPath::Slice { start, end: k }
                };
                proof {
                    assert(r.content(raw@) =~= par);
                }
                r
            },
            NormalizedPath::Alloc(buf) => {
                let s = compact_as_str(&buf);
                let n = s.unicode_len();
                let k = rfind_sep(s, 0, n);
                proof {
                    assert(k == sep_pos) by {
                        if k < sep_pos {
                            assert(s@[sep_pos] == '/');
                        } else if k > sep_pos {
                            assert(s@[k as int] != '/');
                        }
                    }
                }
                let new_buf = if k == 0 {
                    compact_new(s.substring_char(0, 1))
                } else {
                    compact_new(s.substring_char(0, k))
                };
                let r = NormalizedPath::Alloc(new_buf);
                proof {
                    assert(r.content(raw@) =~= par);
                }
                r
            },
        }
    }

    /// Converts the accumulator into the returned path: a borrowed path
    /// aliasing the original string when the range was never given up, an
    /// owned path otherwise.
    fn finish<'a>(self, raw: &'a str) -> (r: PathCow<'a>)
        requires
            self.inv(raw@),
        ensures
            r.wf(),
            r@ == self.content(raw@),
            self matches NormalizedPath::Slice { .. } ==> r is Borrowed,
    {
        match self {
            NormalizedPath::Slice { start, end } => PathCow::Borrowed(
                AbsPath::from_valid_str(raw.substring_char(start, end)),
            ),
            NormalizedPath::Alloc(buf) => PathCow::Owned(AbsPathBuf::new(buf)),
        }
    }
}

} // verus!
