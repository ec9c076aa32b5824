//! Owned absolute paths.

use vstd::prelude::*;

use compact_str::CompactString;

use crate::abs_path::AbsPath;
use crate::compact::{compact_as_str, compact_clone, compact_new, compact_push_str, compact_chars};
use crate::model::{
    is_valid_path, lemma_path_join, lemma_path_of_segments, lemma_root_valid, lemma_segments_empty,
    lemma_split_last, path_join, path_of, root_str, segments,
};
use crate::node_name::NodeName;
use crate::scan::rfind_sep;

verus! {

/// An owned, growable absolute path with the same invariants as [`AbsPath`]:
/// it always holds a valid absolute path string.
#[derive(Debug)]
pub struct AbsPathBuf {
    inner: CompactString,
}

impl View for AbsPathBuf {
    type V = Seq<char>;

    closed spec fn view(&self) -> Seq<char> {
        compact_chars(self.inner)
    }
}

impl AbsPathBuf {
    /// The path invariant: the buffer holds a valid absolute path string.
    pub open spec fn wf(&self) -> bool {
        is_valid_path(self@)
    }

    /// The owned root path.
    pub fn root() -> (r: Self)
        ensures
            r@ == root_str(),
            r.wf(),
    {
        let r = AbsPathBuf { inner: compact_new("/") };
        proof {
            reveal_strlit("/");
            assert(r@ =~= root_str());
            lemma_root_valid();
        }
        r
    }

    /// Wraps a buffer the caller has shown to hold a valid path.
    pub(crate) fn new(inner: CompactString) -> (r: Self)
        requires
            is_valid_path(compact_chars(inner)),
        ensures
            r@ == compact_chars(inner),
            r.wf(),
    {
        AbsPathBuf { inner }
    }

    /// The strict parse followed by an owned copy: succeeds exactly on
    /// strings that already satisfy the path invariants.
    pub fn from_str(s: &str) -> (r: Result<Self, crate::abs_path::AbsPathNotAbsoluteError>)
        ensures
            match r {
                Ok(p) => is_valid_path(s@) && p.wf() && p@ == s@,
                Err(_) => !is_valid_path(s@),
            },
    {
        match AbsPath::from_str(s) {
            Ok(p) => Ok(p.to_owned()),
            Err(e) => Err(e),
        }
    }

    /// Returns the path as a string slice.
    pub fn as_str(&self) -> (r: &str)
        ensures
            r@ == self@,
    {
        compact_as_str(&self.inner)
    }

    /// Returns a borrowed view of the path.
    pub fn as_path(&self) -> (r: AbsPath<'_>)
        requires
            self.wf(),
        ensures
            r@ == self@,
            r.wf(),
    {
        AbsPath::from_valid_str(self.as_str())
    }

    /// True exactly when the path is the root.
    pub fn is_root(&self) -> (r: bool)
        requires
            self.wf(),
        ensures
            r == (self@ == root_str()),
    {
        let r = self.as_str().unicode_len() == 1;
        proof {
            if self@.len() == 1 {
                assert(self@ =~= root_str());
            }
        }
        r
    }

    /// Appends one segment: a separator (unless the path is the root) and the
    /// segment's text.
    pub fn push(&mut self, node_name: &NodeName)
        requires
            old(self).wf(),
            node_name.wf(),
        ensures
            final(self).wf(),
            final(self)@ == path_join(old(self)@, node_name@),
            segments(final(self)@) == segments(old(self)@).push(node_name@),
    {
        proof {
            lemma_segments_empty(old(self)@);
        }
        let at_root = self.is_root();
        if !at_root {
            compact_push_str(&mut self.inner, "/");
        }
        compact_push_str(&mut self.inner, node_name.as_str());
        proof {
            reveal_strlit("/");
            assert("/"@ =~= seq!['/']);
            lemma_path_join(old(self)@, node_name@);
            if at_root {
                assert(old(self)@.len() == 1);
            } else {
                assert(old(self)@.len() != 1);
            }
            assert(self@ =~= path_join(old(self)@, node_name@));
        }
    }

    /// Moves the path, appends one segment, and returns it.
    pub fn join(self, node_name: &NodeName) -> (r: Self)
        requires
            self.wf(),
            node_name.wf(),
        ensures
            r.wf(),
            r@ == path_join(self@, node_name@),
            segments(r@) == segments(self@).push(node_name@),
    {
        let mut this = self;
        this.push(node_name);
        this
    }

    /// Truncates the path to its parent. Returns `false`, and leaves the path
    /// unchanged, when it is already the root.
    pub fn pop(&mut self) -> (r: bool)
        requires
            old(self).wf(),
        ensures
            final(self).wf(),
            r == (old(self)@ != root_str()),
            old(self)@ == root_str() ==> final(self)@ == old(self)@,
            old(self)@ != root_str() ==> {
                &&& segments(old(self)@).len() > 0
                &&& final(self)@ == path_of(segments(old(self)@).drop_last())
                &&& segments(final(self)@) == segments(old(self)@).drop_last()
            },
    {
        proof {
            lemma_segments_empty(old(self)@);
        }
        if self.is_root() {
            return false;
        }
        proof {
            lemma_split_last(self@);
        }
        let s = compact_as_str(&self.inner);
        let n = s.unicode_len();
        let k = rfind_sep(s, 0, n);
        proof {
            let par = path_of(segments(self@).drop_last());
            let sep_pos = if par.len() == 1 {
                0int
            } else {
                par.len() as int
            };
            assert(k == sep_pos) by {
                if k < sep_pos {
                    assert(s@[sep_pos] == '/');
                } else if k > sep_pos {
                    assert(s@[k as int] != '/');
                }
            }
        }
        let new_inner = if k == 0 {
            compact_new(s.substring_char(0, 1))
        } else {
            compact_new(s.substring_char(0, k))
        };
        self.inner = new_inner;
        proof {
            let par = path_of(segments(old(self)@).drop_last());
            assert(self@ =~= par);
        }
        true
    }

    /// Appends all of `other`'s segments, in order.
    pub fn concat(&mut self, other: &AbsPath)
        requires
            old(self).wf(),
            other.wf(),
        ensures
            final(self).wf(),
            segments(final(self)@) == segments(old(self)@) + segments(other@),
            final(self)@ == path_of(segments(old(self)@) + segments(other@)),
    {
        let mut it = other.components();
        loop
            invariant
                self.wf(),
                it.wf(),
                segments(self@) + segments(it@) =~= segments(old(self)@) + segments(other@),
            ensures
                segments(it@).len() == 0,
            decreases segments(it@).len(),
        {
            let ghost pre_self = segments(self@);
            let ghost pre_it = segments(it@);
            match it.next() {
                Some(seg) => {
                    self.push(&seg);
                    proof {
                        assert(segments(self@) + segments(it@) =~= segments(old(self)@)
                            + segments(other@)) by {
                            assert(segments(self@) == pre_self.push(seg@));
                            assert(segments(it@) == pre_it.drop_first());
                            assert(pre_self.push(seg@) + pre_it.drop_first() =~= pre_self + pre_it);
                        }
                    }
                },
                None => {
                    break ;
                },
            }
        }
        proof {
            assert(segments(it@) =~= Seq::<Seq<char>>::empty());
            assert(segments(self@) =~= segments(self@) + segments(it@));
            assert(segments(self@) =~= segments(old(self)@) + segments(other@));
            lemma_path_of_segments(self@);
        }
    }

    /// Builds a path from a sequence of segments, in order.
    pub fn from_segments<'a>(segs: &Vec<NodeName<'a>>) -> (r: Self)
        requires
            forall|k: int| 0 <= k < segs@.len() ==> (#[trigger] segs@[k]).wf(),
        ensures
            r.wf(),
            segments(r@) == segs@.map_values(|n: NodeName<'a>| n@),
    {
        let mut r = Self::root();
        proof {
            lemma_root_valid();
        }
        let mut i: usize = 0;
        while i < segs.len()
            invariant
                0 <= i <= segs@.len(),
                forall|k: int| 0 <= k < segs@.len() ==> (#[trigger] segs@[k]).wf(),
                r.wf(),
                segments(r@) =~= segs@.take(i as int).map_values(|n: NodeName<'a>| n@),
            decreases segs@.len() - i,
        {
            r.push(&segs[i]);
            proof {
                assert(segs@.take(i + 1).map_values(|n: NodeName<'a>| n@) =~= segs@.take(
                    i as int,
                ).map_values(|n: NodeName<'a>| n@).push(segs@[i as int]@));
            }
            i += 1;
        }
        proof {
            assert(segs@.take(segs@.len() as int) =~= segs@);
        }
        r
    }
}

impl Clone for AbsPathBuf {
    /// The copy holds the same path.
    fn clone(&self) -> (r: Self)
        ensures
            r@ == self@,
    {
        AbsPathBuf { inner: compact_clone(&self.inner) }
    }
}

} // verus!
