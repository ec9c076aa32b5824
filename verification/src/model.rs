//! The mathematical model of segments and absolute paths.
//!
//! Everything is stated over `Seq<char>`, the view of Rust strings. A path is
//! modelled as the sequence of its segments; [`path_of`] renders that model as
//! the canonical string and [`segments`] parses the string back.

use vstd::prelude::*;

use crate::abs_path::NormalizeError;
use crate::node_name::InvalidNodeNameError;

verus! {

/// True of characters that may appear in a segment: everything except the
/// separator, a backslash, NUL, CR and LF.
pub open spec fn valid_seg_char(c: char) -> bool {
    c != '/' && c != '\\' && c != '\u{0}' && c != '\n' && c != '\r'
}

/// A valid segment: non-empty, not `.` or `..`, all characters allowed.
pub open spec fn is_valid_segment(s: Seq<char>) -> bool {
    &&& s.len() > 0
    &&& s != seq!['.']
    &&& s != seq!['.', '.']
    &&& forall|i: int| 0 <= i < s.len() ==> valid_seg_char(#[trigger] s[i])
}

/// The first disallowed character in `s`, scanning left to right.
pub open spec fn first_invalid_char(s: Seq<char>) -> Option<char>
    decreases s.len(),
{
    if s.len() == 0 {
        None
    } else if !valid_seg_char(s[0]) {
        Some(s[0])
    } else {
        first_invalid_char(s.drop_first())
    }
}

/// The verdict of segment validation: `None` on success, otherwise the first
/// violation found, in the fixed checking order (empty, `.`, `..`, first
/// disallowed character).
pub open spec fn spec_segment_error(s: Seq<char>) -> Option<InvalidNodeNameError> {
    if s.len() == 0 {
        Some(InvalidNodeNameError::Empty)
    } else if s == seq!['.'] {
        Some(InvalidNodeNameError::SingleDot)
    } else if s == seq!['.', '.'] {
        Some(InvalidNodeNameError::DoubleDot)
    } else {
        match first_invalid_char(s) {
            Some(c) => Some(InvalidNodeNameError::ContainsInvalidCharacter(c)),
            None => None,
        }
    }
}

/// Validation succeeds exactly on valid segments.
pub proof fn lemma_segment_error_none(s: Seq<char>)
    ensures
        spec_segment_error(s) is None <==> is_valid_segment(s),
{
    lemma_first_invalid_char_none(s);
}

/// `first_invalid_char` returns `None` exactly when every character is allowed.
pub proof fn lemma_first_invalid_char_none(s: Seq<char>)
    ensures
        first_invalid_char(s) is None <==> (forall|i: int|
            0 <= i < s.len() ==> valid_seg_char(#[trigger] s[i])),
        first_invalid_char(s) matches Some(c) ==> exists|i: int|
            0 <= i < s.len() && s[i] == c && !valid_seg_char(c),
    decreases s.len(),
{
    if s.len() > 0 && valid_seg_char(s[0]) {
        lemma_first_invalid_char_none(s.drop_first());
        if first_invalid_char(s.drop_first()) is None {
            assert forall|i: int| 0 <= i < s.len() implies valid_seg_char(#[trigger] s[i]) by {
                if i > 0 {
                    assert(s.drop_first()[i - 1] == s[i]);
                }
            }
        } else {
            let c = first_invalid_char(s.drop_first())->Some_0;
            let i = choose|i: int|
                0 <= i < s.drop_first().len() && s.drop_first()[i] == c && !valid_seg_char(c);
            assert(s[i + 1] == c);
        }
    }
}

/// Number of characters from position `i` (inclusive) to the next separator
/// in `s`, or to the end of `s` if no separator follows.
pub open spec fn sep_dist(s: Seq<char>, i: int) -> nat
    decreases s.len() - i,
{
    if i < 0 || i >= s.len() {
        0
    } else if s[i] == '/' {
        0
    } else {
        1 + sep_dist(s, i + 1)
    }
}

/// Position of the first separator in `s` at or after `i`; `s.len()` if the
/// rest of `s` holds none.
pub open spec fn sep_after(s: Seq<char>, i: int) -> int {
    i + sep_dist(s, i)
}

/// Bounds and meaning of [`sep_after`]: it lands on the first separator at or
/// after `i`, or on the end of the string.
pub proof fn lemma_sep_after(s: Seq<char>, i: int)
    requires
        0 <= i <= s.len(),
    ensures
        i <= sep_after(s, i) <= s.len(),
        forall|k: int| i <= k < sep_after(s, i) ==> s[k] != '/',
        sep_after(s, i) < s.len() ==> s[sep_after(s, i)] == '/',
    decreases s.len() - i,
{
    if i < s.len() && s[i] != '/' {
        lemma_sep_after(s, i + 1);
    }
}

/// [`sep_after`] is determined by its characterization: if no separator lies
/// in `[i, j)` and `j` is a separator or the end, then `sep_after(s, i) == j`.
pub proof fn lemma_sep_after_unique(s: Seq<char>, i: int, j: int)
    requires
        0 <= i <= j <= s.len(),
        forall|k: int| i <= k < j ==> s[k] != '/',
        j == s.len() || s[j] == '/',
    ensures
        sep_after(s, i) == j,
    decreases j - i,
{
    if i < j {
        lemma_sep_after_unique(s, i + 1, j);
    }
}

/// The segments of `s` from position `i` on, where `i` is a segment start
/// (the position just after a separator): the pieces between separators, in
/// order.
pub open spec fn segments_from(s: Seq<char>, i: int) -> Seq<Seq<char>>
    decreases s.len() - i,
{
    if i < 0 || i >= s.len() {
        Seq::empty()
    } else {
        let j = sep_after(s, i);
        if j >= s.len() {
            seq![s.subrange(i, s.len() as int)]
        } else {
            seq![s.subrange(i, j)] + segments_from(s, j + 1)
        }
    }
}

/// The segments of an absolute path string: the pieces after the leading
/// separator. The root `/` has none.
pub open spec fn segments(s: Seq<char>) -> Seq<Seq<char>> {
    segments_from(s, 1)
}

/// Every element of `segs` is a valid segment.
pub open spec fn all_valid_segments(segs: Seq<Seq<char>>) -> bool {
    forall|k: int| 0 <= k < segs.len() ==> is_valid_segment(#[trigger] segs[k])
}

/// A valid absolute path string: starts with exactly one separator, does not
/// end with one unless it is the root, and all its segments are valid.
pub open spec fn is_valid_path(s: Seq<char>) -> bool {
    &&& s.len() >= 1
    &&& s[0] == '/'
    &&& (s.len() == 1 || s.last() != '/')
    &&& all_valid_segments(segments(s))
}

/// The root path string.
pub open spec fn root_str() -> Seq<char> {
    seq!['/']
}

/// `p` with one segment appended: a separator (unless `p` is the root, which
/// already ends with one) followed by the segment.
pub open spec fn path_join(p: Seq<char>, seg: Seq<char>) -> Seq<char> {
    if p.len() == 1 {
        p + seg
    } else {
        p + seq!['/'] + seg
    }
}

/// The canonical string of a sequence of segments: `/` for the empty
/// sequence, otherwise the segments joined by single separators after a
/// leading separator.
pub open spec fn path_of(segs: Seq<Seq<char>>) -> Seq<char>
    decreases segs.len(),
{
    if segs.len() == 0 {
        root_str()
    } else {
        path_join(path_of(segs.drop_last()), segs.last())
    }
}

/// The root is a valid path with no segments.
pub proof fn lemma_root_valid()
    ensures
        is_valid_path(root_str()),
        segments(root_str()) == Seq::<Seq<char>>::empty(),
{
    assert(segments(root_str()) =~= Seq::<Seq<char>>::empty());
}

/// `segments_from` only looks at the characters from `i` on: if `s` from `i`
/// and `t` from `i - d` hold the same characters, the segments agree.
pub proof fn lemma_segments_from_congruent(s: Seq<char>, t: Seq<char>, i: int, d: int)
    requires
        0 <= i <= s.len(),
        0 <= i - d <= t.len(),
        s.len() - i == t.len() - (i - d),
        forall|k: int| i <= k < s.len() ==> s[k] == t[k - d],
    ensures
        segments_from(s, i) == segments_from(t, i - d),
    decreases s.len() - i,
{
    if i >= s.len() {
    } else {
        let js = sep_after(s, i);
        lemma_sep_after(s, i);
        assert forall|k: int| i - d <= k < js - d implies t[k] != '/' by {
            assert(t[k] == s[k + d]);
        }
        if js < s.len() {
            assert(t[js - d] == s[js]);
        }
        lemma_sep_after_unique(t, i - d, js - d);
        assert(s.subrange(i, js) =~= t.subrange(i - d, js - d));
        if js < s.len() {
            lemma_segments_from_congruent(s, t, js + 1, d);
            assert(segments_from(s, i) =~= segments_from(t, i - d));
        } else {
            assert(s.subrange(i, s.len() as int) =~= t.subrange(i - d, t.len() as int));
            assert(segments_from(s, i) =~= segments_from(t, i - d));
        }
    }
}

/// Peeling the first segment off a non-root valid path: the head is the text
/// up to the first separator, and what remains (re-rooted) is again a valid
/// path holding the remaining segments.
pub proof fn lemma_front_peel(s: Seq<char>)
    requires
        is_valid_path(s),
        s.len() > 1,
    ensures
        ({
            let j = sep_after(s, 1);
            let head = s.subrange(1, j);
            &&& segments(s).len() >= 1
            &&& 2 <= j <= s.len()
            &&& head == segments(s)[0]
            &&& is_valid_segment(head)
            &&& (j >= s.len() ==> segments(s) == seq![head] && s == seq!['/'] + head)
            &&& (j < s.len() ==> {
                let rest = seq!['/'] + s.subrange(j + 1, s.len() as int);
                &&& j + 1 < s.len()
                &&& is_valid_path(rest)
                &&& 2 <= rest.len() < s.len()
                &&& segments(s) == seq![head] + segments(rest)
                &&& s == seq!['/'] + head + rest
            })
        }),
{
    let j = sep_after(s, 1);
    lemma_sep_after(s, 1);
    let head = s.subrange(1, j);
    if j >= s.len() {
        assert(segments(s) == seq![head]);
        assert(head == segments(s)[0]);
        assert(s =~= seq!['/'] + head);
        assert(is_valid_segment(head));
        assert(2 <= j);
    } else {
        assert(s[j] == '/');
        assert(j < s.len() - 1) by {
            assert(s.last() != '/');
        }
        let rest = seq!['/'] + s.subrange(j + 1, s.len() as int);
        assert(segments(s) == seq![head] + segments_from(s, j + 1));
        lemma_segments_from_congruent(s, rest, j + 1, j);
        assert(segments(rest) == segments_from(s, j + 1));
        assert(segments(s) == seq![head] + segments(rest));
        assert(head == segments(s)[0]);
        assert(is_valid_segment(head)) by {
            assert(all_valid_segments(segments(s)));
        }
        assert(2 <= j) by {
            assert(head.len() > 0);
        }
        assert(rest[0] == '/');
        assert(rest.last() == s.last());
        assert(all_valid_segments(segments(rest))) by {
            assert forall|k: int| 0 <= k < segments(rest).len() implies is_valid_segment(
                #[trigger] segments(rest)[k],
            ) by {
                assert(segments(rest)[k] == segments(s)[k + 1]);
            }
        }
        assert(is_valid_path(rest));
        assert(s =~= seq!['/'] + head + rest);
    }
}

/// Rendering with the first segment split off: the path of `[x] + segs` is
/// `/x` followed by the rendering of `segs` (which itself starts with `/`).
pub proof fn lemma_path_of_front(x: Seq<char>, segs: Seq<Seq<char>>)
    requires
        x.len() > 0,
        forall|k: int| 0 <= k < segs.len() ==> #[trigger] segs[k].len() > 0,
    ensures
        segs.len() == 0 ==> path_of(seq![x] + segs) == seq!['/'] + x,
        segs.len() > 0 ==> path_of(seq![x] + segs) == seq!['/'] + x + path_of(segs),
    decreases segs.len(),
{
    let whole = seq![x] + segs;
    if segs.len() == 0 {
        assert(whole =~= seq![x]);
        assert(whole.last() == x);
        let e = Seq::<Seq<char>>::empty();
        assert(path_of(e) == root_str());
        assert(whole.drop_last() =~= e);
        assert(path_of(whole) == path_join(path_of(whole.drop_last()), whole.last()));
        assert(path_of(whole) == path_join(root_str(), x));
        assert(path_of(whole) =~= seq!['/'] + x);
    } else {
        assert forall|k: int| 0 <= k < segs.drop_last().len() implies #[trigger] segs.drop_last()[k].len()
            > 0 by {
            assert(segs.drop_last()[k] == segs[k]);
        }
        lemma_path_of_front(x, segs.drop_last());
        assert(whole.drop_last() =~= seq![x] + segs.drop_last());
        assert(whole.last() == segs.last());
        if segs.len() == 1 {
            assert(path_of(whole) == path_join(seq!['/'] + x, segs.last()));
            assert((seq!['/'] + x).len() > 1);
            assert(path_of(whole) =~= seq!['/'] + x + (seq!['/'] + segs.last()));
            assert(segs.drop_last() =~= Seq::<Seq<char>>::empty());
            assert(path_of(Seq::<Seq<char>>::empty()) == root_str());
            assert(path_of(segs) == path_join(path_of(segs.drop_last()), segs.last()));
            assert(path_of(segs) == path_join(root_str(), segs.last()));
            assert(path_of(segs) =~= seq!['/'] + segs.last());
            assert(seq!['/'] + x + (seq!['/'] + segs.last()) =~= seq!['/'] + x + path_of(segs));
        } else {
            let dl = segs.drop_last();
            assert(path_of(whole) == path_join(seq!['/'] + x + path_of(dl), segs.last()));
            assert(path_of(dl).len() > 1) by {
                lemma_path_of_len(dl);
            }
            assert((seq!['/'] + x + path_of(dl)).len() > 1);
            assert(path_of(segs) == path_join(path_of(dl), segs.last()));
            assert(path_of(whole) =~= seq!['/'] + x + path_of(segs));
        }
    }
}

/// The rendering of a sequence of non-empty segments starts with the
/// separator and is longer than the root unless the sequence is empty.
pub proof fn lemma_path_of_len(segs: Seq<Seq<char>>)
    requires
        forall|k: int| 0 <= k < segs.len() ==> #[trigger] segs[k].len() > 0,
    ensures
        path_of(segs).len() >= 1,
        path_of(segs)[0] == '/',
        segs.len() > 0 ==> path_of(segs).len() > 1,
    decreases segs.len(),
{
    if segs.len() > 0 {
        assert forall|k: int| 0 <= k < segs.drop_last().len() implies #[trigger] segs.drop_last()[k].len()
            > 0 by {
            assert(segs.drop_last()[k] == segs[k]);
        }
        lemma_path_of_len(segs.drop_last());
        assert(segs.last().len() > 0);
    }
}

/// A valid path has segments exactly when it is longer than the root.
pub proof fn lemma_segments_empty(s: Seq<char>)
    requires
        is_valid_path(s),
    ensures
        segments(s).len() == 0 <==> s.len() == 1,
        s.len() == 1 ==> s == root_str(),
{
    if s.len() == 1 {
        assert(s =~= root_str());
    }
}

/// Appending `/seg` to a string with no trailing separator appends one more
/// segment to its parse, whatever the starting position of the scan.
pub proof fn lemma_segments_append(s: Seq<char>, seg: Seq<char>, i: int)
    requires
        0 <= i < s.len(),
        s.last() != '/',
        seg.len() > 0,
        forall|k: int| 0 <= k < seg.len() ==> seg[k] != '/',
    ensures
        segments_from(s + seq!['/'] + seg, i) == segments_from(s, i).push(seg),
    decreases s.len() - i,
{
    let q = s + seq!['/'] + seg;
    let js = sep_after(s, i);
    lemma_sep_after(s, i);
    if js < s.len() {
        // The scan of `q` finds the same separator as the scan of `s`.
        lemma_sep_after_unique(q, i, js);
        assert(q.subrange(i, js) =~= s.subrange(i, js));
        assert(js != s.len() - 1);
        lemma_segments_append(s, seg, js + 1);
        assert(segments_from(q, i) =~= segments_from(s, i).push(seg));
    } else {
        // No separator is left in `s`: the scan of `q` stops at the appended
        // separator, and the final piece is exactly `seg`.
        assert(q[s.len() as int] == '/');
        assert forall|k: int| i <= k < s.len() implies q[k] != '/' by {
            assert(q[k] == s[k]);
        }
        lemma_sep_after_unique(q, i, s.len() as int);
        assert(q.subrange(i, s.len() as int) =~= s.subrange(i, s.len() as int));
        let t = s.len() + 1;
        assert forall|k: int| t <= k < q.len() implies q[k] != '/' by {
            assert(q[k] == seg[k - t]);
        }
        lemma_sep_after_unique(q, t as int, q.len() as int);
        assert(segments_from(q, t as int) == seq![q.subrange(t as int, q.len() as int)]);
        assert(q.subrange(t as int, q.len() as int) =~= seg);
        assert(segments_from(q, i) =~= segments_from(s, i).push(seg));
    }
}

/// Joining a valid segment onto a valid path yields a valid path whose
/// segments are the old ones plus the new one.
pub proof fn lemma_path_join(p: Seq<char>, seg: Seq<char>)
    requires
        is_valid_path(p),
        is_valid_segment(seg),
    ensures
        is_valid_path(path_join(p, seg)),
        segments(path_join(p, seg)) == segments(p).push(seg),
        path_join(p, seg).len() > 1,
{
    let q = path_join(p, seg);
    if p.len() == 1 {
        assert(q == p + seg);
        assert(q[0] == '/');
        assert(q.last() == seg.last());
        assert(seg.last() != '/');
        assert forall|k: int| 1 <= k < q.len() implies q[k] != '/' by {
            assert(q[k] == seg[k - 1]);
        }
        lemma_sep_after_unique(q, 1, q.len() as int);
        assert(segments(q) == seq![q.subrange(1, q.len() as int)]);
        assert(q.subrange(1, q.len() as int) =~= seg);
        lemma_segments_empty(p);
        assert(segments(q) =~= segments(p).push(seg));
        assert(all_valid_segments(segments(q)));
    } else {
        assert(q == p + seq!['/'] + seg);
        lemma_segments_append(p, seg, 1);
        assert(segments(q) == segments(p).push(seg));
        assert(q[0] == p[0]);
        assert(q.last() == seg.last());
        assert(seg.last() != '/');
        assert(all_valid_segments(segments(q))) by {
            assert forall|k: int| 0 <= k < segments(q).len() implies is_valid_segment(
                #[trigger] segments(q)[k],
            ) by {
                if k < segments(p).len() {
                    assert(segments(q)[k] == segments(p)[k]);
                } else {
                    assert(segments(q)[k] == seg);
                }
            }
        }
    }
}

/// Round trip from the model to the string and back: rendering a sequence of
/// valid segments gives a valid path that parses to the same sequence.
pub proof fn lemma_round_trip(segs: Seq<Seq<char>>)
    requires
        all_valid_segments(segs),
    ensures
        is_valid_path(path_of(segs)),
        segments(path_of(segs)) == segs,
    decreases segs.len(),
{
    if segs.len() == 0 {
        assert(segments(root_str()) == Seq::<Seq<char>>::empty());
    } else {
        let dl = segs.drop_last();
        assert forall|k: int| 0 <= k < dl.len() implies is_valid_segment(#[trigger] dl[k]) by {
            assert(dl[k] == segs[k]);
        }
        lemma_round_trip(dl);
        lemma_path_join(path_of(dl), segs.last());
        assert(segments(path_of(segs)) =~= segs);
    }
}

/// Round trip from the string to the model and back: a valid path is the
/// rendering of its own segments.
pub proof fn lemma_path_of_segments(s: Seq<char>)
    requires
        is_valid_path(s),
    ensures
        path_of(segments(s)) == s,
    decreases s.len(),
{
    if s.len() == 1 {
        assert(s =~= root_str());
        assert(segments(s) == Seq::<Seq<char>>::empty());
    } else {
        lemma_front_peel(s);
        let j = sep_after(s, 1);
        let head = s.subrange(1, j);
        if j >= s.len() {
            lemma_path_of_front(head, Seq::empty());
            assert(seq![head] + Seq::<Seq<char>>::empty() =~= seq![head]);
            assert(path_of(segments(s)) == seq!['/'] + head);
        } else {
            let rest = seq!['/'] + s.subrange(j + 1, s.len() as int);
            lemma_path_of_segments(rest);
            assert forall|k: int| 0 <= k < segments(rest).len() implies #[trigger] segments(
                rest,
            )[k].len() > 0 by {
                assert(segments(rest)[k] == segments(s)[k + 1]);
                assert(is_valid_segment(segments(s)[k + 1]));
            }
            assert(segments(rest).len() > 0) by {
                lemma_segments_empty(rest);
            }
            lemma_path_of_front(head, segments(rest));
            assert(path_of(segments(s)) == seq!['/'] + head + path_of(segments(rest)));
        }
    }
}

/// Splitting a non-root valid path at its last separator: the string is its
/// parent (the rendering of all but the last segment) joined with its last
/// segment, and the last separator sits exactly between the two.
pub proof fn lemma_split_last(s: Seq<char>)
    requires
        is_valid_path(s),
        s.len() > 1,
    ensures
        ({
            let par = path_of(segments(s).drop_last());
            let last = segments(s).last();
            let sep_pos = if par.len() == 1 { 0int } else { par.len() as int };
            &&& segments(s).len() > 0
            &&& is_valid_path(par)
            &&& segments(par) == segments(s).drop_last()
            &&& is_valid_segment(last)
            &&& s == path_join(par, last)
            &&& 1 <= par.len() < s.len()
            &&& par == s.subrange(0, par.len() as int)
            &&& s[sep_pos] == '/'
            &&& (forall|m: int| sep_pos < m < s.len() ==> s[m] != '/')
            &&& last == s.subrange(sep_pos + 1, s.len() as int)
        }),
{
    lemma_segments_empty(s);
    let segs = segments(s);
    let dl = segs.drop_last();
    let last = segs.last();
    let par = path_of(dl);
    assert(is_valid_segment(last));
    assert forall|k: int| 0 <= k < dl.len() implies is_valid_segment(#[trigger] dl[k]) by {
        assert(dl[k] == segs[k]);
    }
    lemma_round_trip(dl);
    lemma_path_of_segments(s);
    assert(segs =~= dl.push(last));
    assert(path_of(segs) == path_join(par, last));
    assert(s == path_join(par, last));
    let sep_pos = if par.len() == 1 { 0int } else { par.len() as int };
    if par.len() == 1 {
        assert(s == par + last);
        assert(s[0] == par[0]);
        assert forall|m: int| 0 < m < s.len() implies s[m] != '/' by {
            assert(s[m] == last[m - 1]);
        }
        assert(par =~= s.subrange(0, 1));
        assert(last =~= s.subrange(1, s.len() as int));
    } else {
        assert(s == par + seq!['/'] + last);
        assert(s[par.len() as int] == '/');
        assert forall|m: int| par.len() < m < s.len() implies s[m] != '/' by {
            assert(s[m] == last[m - par.len() - 1]);
        }
        assert(par =~= s.subrange(0, par.len() as int));
        assert(last =~= s.subrange(par.len() as int + 1, s.len() as int));
    }
}

/// The string-level prefix test for paths: `base` is the root, or it is a
/// string prefix of `p` whose end falls on a segment boundary (the end of `p`
/// or a separator). A plain string-prefix test is not enough: `/foo/bar.rs`
/// does not start with `/foo/bar`.
pub open spec fn spec_starts_with(p: Seq<char>, base: Seq<char>) -> bool {
    ||| base == root_str()
    ||| (base.is_prefix_of(p) && (p.len() == base.len() || p[base.len() as int] == '/'))
}

/// The string-level prefix test agrees with the model: it holds exactly when
/// `base`'s segments are a prefix of `p`'s. When `base` is a proper prefix
/// (and not the root), the rest of `p`'s string is itself a valid path
/// holding the remaining segments.
#[verifier::rlimit(60)]
pub proof fn lemma_starts_with_segments(p: Seq<char>, base: Seq<char>)
    requires
        is_valid_path(p),
        is_valid_path(base),
    ensures
        spec_starts_with(p, base) <==> segments(base).is_prefix_of(segments(p)),
        (spec_starts_with(p, base) && base.len() < p.len() && base != root_str()) ==> ({
            let sfx = p.skip(base.len() as int);
            &&& is_valid_path(sfx)
            &&& segments(sfx) == segments(p).skip(segments(base).len() as int)
        }),
    decreases base.len(),
{
    lemma_segments_empty(base);
    lemma_segments_empty(p);
    if base == root_str() {
        assert(segments(base).is_prefix_of(segments(p)));
        return ;
    }
    assert(base.len() > 1);
    lemma_front_peel(base);
    let jb = sep_after(base, 1);
    let h = base.subrange(1, jb);
    lemma_sep_after(base, 1);

    if spec_starts_with(p, base) {
        assert(base.is_prefix_of(p));
        assert(forall|k: int| 0 <= k < base.len() ==> p[k] == base[k]);
        if p.len() == base.len() {
            assert(p =~= base);
            assert(segments(base).is_prefix_of(segments(p)));
        } else {
            assert(p[base.len() as int] == '/');
            assert(p.len() > 1);
            lemma_front_peel(p);
            let jp = sep_after(p, 1);
            // The two scans find the same first segment.
            assert forall|k: int| 1 <= k < jb implies p[k] != '/' by {
                assert(p[k] == base[k]);
            }
            if jb < base.len() {
                assert(p[jb] == base[jb]);
            }
            lemma_sep_after_unique(p, 1, jb);
            assert(jp == jb);
            assert(p.subrange(1, jp) =~= h);
            if jb >= base.len() {
                // `base` is `/h`; the remaining string of `p` is the suffix.
                assert(segments(base) == seq![h]);
                let rest_p = seq!['/'] + p.subrange(jp + 1, p.len() as int);
                assert(segments(p) == seq![h] + segments(rest_p));
                assert(segments(p)[0] == h);
                assert(segments(base).is_prefix_of(segments(p)));
                let sfx = p.skip(base.len() as int);
                assert(sfx =~= rest_p);
                assert(segments(sfx) =~= segments(p).skip(1));
            } else {
                // Both peel to the same head; recurse on the two rests.
                let rest_b = seq!['/'] + base.subrange(jb + 1, base.len() as int);
                let rest_p = seq!['/'] + p.subrange(jp + 1, p.len() as int);
                assert(segments(base) == seq![h] + segments(rest_b));
                assert(segments(p) == seq![h] + segments(rest_p));
                assert(rest_b.is_prefix_of(rest_p)) by {
                    assert forall|m: int| 0 <= m < rest_b.len() implies rest_p[m] == rest_b[m] by {
                        if m > 0 {
                            assert(rest_b[m] == base[jb + m]);
                            assert(rest_p[m] == p[jp + m]);
                        }
                    }
                }
                assert(rest_p.len() > rest_b.len());
                assert(rest_p[rest_b.len() as int] == p[base.len() as int]) by {
                    assert(rest_b.len() == base.len() - jb);
                    assert(rest_p[base.len() - jb] == p[base.len() as int]);
                }
                assert(spec_starts_with(rest_p, rest_b));
                lemma_starts_with_segments(rest_p, rest_b);
                assert(rest_b != root_str()) by {
                    assert(rest_b.len() >= 2);
                }
                assert(segments(rest_b).is_prefix_of(segments(rest_p)));
                assert(segments(base).is_prefix_of(segments(p))) by {
                    assert forall|k: int| 0 <= k < segments(base).len() implies segments(p)[k]
                        == segments(base)[k] by {
                        if k > 0 {
                            assert(segments(base)[k] == segments(rest_b)[k - 1]);
                            assert(segments(p)[k] == segments(rest_p)[k - 1]);
                        }
                    }
                }
                // The leftover suffix of `p` is the leftover of the rests.
                let sfx = p.skip(base.len() as int);
                let sfx_r = rest_p.skip(rest_b.len() as int);
                assert(sfx =~= sfx_r) by {
                    assert forall|m: int| 0 <= m < sfx.len() implies sfx[m] == sfx_r[m] by {
                        assert(sfx[m] == p[base.len() + m]);
                        assert(sfx_r[m] == rest_p[rest_b.len() + m]);
                        assert(rest_p[rest_b.len() + m] == p[jp + rest_b.len() + m]);
                    }
                }
                assert(is_valid_path(sfx));
                assert(segments(sfx) =~= segments(p).skip(segments(base).len() as int)) by {
                    assert(segments(sfx) == segments(rest_p).skip(segments(rest_b).len() as int));
                    assert forall|k: int|
                        0 <= k < segments(sfx).len() implies segments(p).skip(
                        segments(base).len() as int,
                    )[k] == segments(sfx)[k] by {
                        assert(segments(p).skip(segments(base).len() as int)[k] == segments(
                            p,
                        )[segments(base).len() + k]);
                        assert(segments(p)[segments(base).len() + k] == segments(
                            rest_p,
                        )[segments(rest_b).len() + k]);
                    }
                }
            }
        }
    }
    if segments(base).is_prefix_of(segments(p)) && p.len() != base.len() {
        assert(segments(base).len() >= 1);
        assert(segments(p).len() >= segments(base).len());
        assert(p.len() > 1);
        lemma_front_peel(p);
        let jp = sep_after(p, 1);
        let hp = p.subrange(1, jp);
        assert(hp == segments(p)[0]);
        assert(h == segments(base)[0]);
        assert(segments(p)[0] == segments(base)[0]);
        assert(jp == jb) by {
            assert(hp == h);
            assert(hp.len() == jp - 1);
            assert(h.len() == jb - 1);
        }
        if jb >= base.len() {
            // `base` is `/h` and `p` continues after it with a separator.
            assert(base =~= seq!['/'] + h);
            assert(jp < p.len()) by {
                if jp >= p.len() {
                    assert(p =~= seq!['/'] + h);
                }
            }
            assert(base.is_prefix_of(p)) by {
                assert forall|k: int| 0 <= k < base.len() implies p[k] == base[k] by {
                    if k >= 1 {
                        assert(base[k] == h[k - 1]);
                        assert(p[k] == p.subrange(1, jp)[k - 1]);
                    }
                }
            }
            assert(p[base.len() as int] == '/') by {
                assert(base.len() == jp);
            }
            assert(spec_starts_with(p, base));
        } else {
            let rest_b = seq!['/'] + base.subrange(jb + 1, base.len() as int);
            assert(segments(base) == seq![h] + segments(rest_b));
            assert(segments(base).len() >= 2) by {
                assert(segments(rest_b).len() >= 1) by {
                    lemma_segments_empty(rest_b);
                }
            }
            assert(jp < p.len()) by {
                if jp >= p.len() {
                    assert(segments(p).len() == 1);
                }
            }
            let rest_p = seq!['/'] + p.subrange(jp + 1, p.len() as int);
            assert(segments(p) == seq![h] + segments(rest_p));
            assert(segments(rest_b).is_prefix_of(segments(rest_p))) by {
                assert forall|k: int| 0 <= k < segments(rest_b).len() implies segments(rest_p)[k]
                    == segments(rest_b)[k] by {
                    assert(segments(rest_b)[k] == segments(base)[k + 1]);
                    assert(segments(rest_p)[k] == segments(p)[k + 1]);
                }
            }
            lemma_starts_with_segments(rest_p, rest_b);
            assert(spec_starts_with(rest_p, rest_b));
            assert(rest_b != root_str()) by {
                assert(rest_b.len() >= 2);
            }
            assert(rest_b.is_prefix_of(rest_p));
            assert(base.is_prefix_of(p)) by {
                assert forall|k: int| 0 <= k < base.len() implies p[k] == base[k] by {
                    if 1 <= k < jb {
                        assert(base[k] == h[k - 1]);
                        assert(p[k] == p.subrange(1, jp)[k - 1]);
                    } else if k >= jb {
                        assert(base[k] == rest_b[k - jb]);
                        assert(p[k] == rest_p[k - jp]);
                        assert(rest_p[k - jb] == rest_b[k - jb]);
                    }
                }
            }
            assert(base.len() < p.len() ==> p[base.len() as int] == '/') by {
                if base.len() < p.len() {
                    assert(rest_p.len() > rest_b.len()) by {
                        assert(rest_p.len() == p.len() - jp);
                        assert(rest_b.len() == base.len() - jb);
                    }
                    assert(rest_p[rest_b.len() as int] == '/');
                    assert(rest_p[rest_b.len() as int] == p[jp + rest_b.len()]);
                }
            }
            assert(spec_starts_with(p, base));
        }
    }
    if segments(base).is_prefix_of(segments(p)) && p.len() == base.len() && p != base {
        // Equal-length distinct strings cannot parse to prefix-related models:
        // equal segment counts force equal segment sequences, hence equal
        // renderings.
        assert(segments(base).len() <= segments(p).len());
        lemma_path_of_segments(p);
        lemma_path_of_segments(base);
        if segments(p).len() == segments(base).len() {
            assert(segments(p) =~= segments(base));
        } else {
            lemma_seg_count_len(p);
            lemma_seg_count_len(base);
            assert(false) by {
                lemma_prefix_shorter(base, p);
            }
        }
    }
}

/// Every valid path starts with the root.
pub proof fn lemma_starts_with_root(p: Seq<char>)
    requires
        is_valid_path(p),
    ensures
        spec_starts_with(p, root_str()),
{
}

/// Stripping a path from itself leaves the root: the prefix test holds and no
/// segment remains.
pub proof fn lemma_strip_prefix_self(p: Seq<char>)
    requires
        is_valid_path(p),
    ensures
        spec_starts_with(p, p),
        segments(p).skip(segments(p).len() as int) == Seq::<Seq<char>>::empty(),
{
    assert(p.is_prefix_of(p)) by {
        assert(p =~= p.subrange(0, p.len() as int));
    }
    assert(segments(p).skip(segments(p).len() as int) =~= Seq::<Seq<char>>::empty());
}

/// A strict prefix of a path's segments renders to a strictly shorter string.
proof fn lemma_prefix_shorter(base: Seq<char>, p: Seq<char>)
    requires
        is_valid_path(p),
        is_valid_path(base),
        segments(base).is_prefix_of(segments(p)),
        segments(base).len() < segments(p).len(),
    ensures
        base.len() < p.len(),
    decreases segments(p).len() - segments(base).len(),
{
    let segs = segments(p);
    let k = segments(base).len();
    lemma_path_of_segments(base);
    lemma_path_of_segments(p);
    if k + 1 == segs.len() {
        lemma_split_last(p);
        let par = path_of(segs.drop_last());
        assert(segs.drop_last() =~= segments(base));
        assert(par == base);
        assert(p == path_join(par, segs.last()));
        assert(segments(p).last().len() > 0);
    } else {
        lemma_split_last(p);
        let par = path_of(segs.drop_last());
        lemma_round_trip_of(p);
        assert(is_valid_path(par));
        assert(segments(par) == segs.drop_last());
        assert(segments(base).is_prefix_of(segments(par))) by {
            assert forall|m: int| 0 <= m < k implies segments(par)[m] == segments(base)[m] by {
                assert(segments(par)[m] == segs[m]);
            }
        }
        lemma_prefix_shorter(base, par);
        assert(par.len() < p.len()) by {
            assert(p == path_join(par, segs.last()));
            assert(segments(p).last().len() > 0);
        }
    }
}

/// The segments of a valid path are themselves valid (restated for callers
/// that hold only the path).
proof fn lemma_round_trip_of(p: Seq<char>)
    requires
        is_valid_path(p),
        segments(p).len() > 0,
    ensures
        is_valid_path(path_of(segments(p).drop_last())),
        segments(path_of(segments(p).drop_last())) == segments(p).drop_last(),
{
    let dl = segments(p).drop_last();
    assert forall|m: int| 0 <= m < dl.len() implies is_valid_segment(#[trigger] dl[m]) by {
        assert(dl[m] == segments(p)[m]);
    }
    lemma_round_trip(dl);
}

/// A path holds at least as many characters as segments (each segment is
/// non-empty and costs a separator).
proof fn lemma_seg_count_len(p: Seq<char>)
    requires
        is_valid_path(p),
    ensures
        p.len() >= 1 + segments(p).len(),
    decreases p.len(),
{
    if p.len() > 1 {
        lemma_front_peel(p);
        let j = sep_after(p, 1);
        if j < p.len() {
            let rest = seq!['/'] + p.subrange(j + 1, p.len() as int);
            lemma_seg_count_len(rest);
        }
    }
}

/// The byte offset of character position `i` within `s`: the UTF-8 length of
/// the characters before it.
pub open spec fn byte_offset_of(s: Seq<char>, i: int) -> usize {
    vstd::utf8::encode_utf8(s.take(i)).len() as usize
}

/// One left-to-right pass of the normalizer over the components of `raw`
/// starting at position `i` (a component start), with `acc` the segments kept
/// so far: empty components and `.` are skipped, `..` drops the last kept
/// segment (or fails with `EscapesRoot` when none is left), a disallowed
/// character fails with `InvalidCharacter`, and anything else is a valid
/// segment and is kept.
pub open spec fn norm_from(raw: Seq<char>, i: int, acc: Seq<Seq<char>>) -> Result<
    Seq<Seq<char>>,
    NormalizeError,
>
    decreases raw.len() - i,
{
    if i < 0 || i >= raw.len() {
        Ok(acc)
    } else {
        let j = sep_after(raw, i);
        let comp = raw.subrange(i, j);
        match spec_segment_error(comp) {
            None => if j >= raw.len() {
                Ok(acc.push(comp))
            } else {
                norm_from(raw, j + 1, acc.push(comp))
            },
            Some(InvalidNodeNameError::Empty) | Some(InvalidNodeNameError::SingleDot) => if j
                >= raw.len() {
                Ok(acc)
            } else {
                norm_from(raw, j + 1, acc)
            },
            Some(InvalidNodeNameError::DoubleDot) => if acc.len() == 0 {
                Err(NormalizeError::EscapesRoot)
            } else if j >= raw.len() {
                Ok(acc.drop_last())
            } else {
                norm_from(raw, j + 1, acc.drop_last())
            },
            Some(InvalidNodeNameError::ContainsInvalidCharacter(c)) => Err(
                NormalizeError::InvalidCharacter { byte_offset: byte_offset_of(raw, i), ch: c },
            ),
        }
    }
}

/// What normalization returns, as a function of the input alone: the
/// segments of the canonical path, or the first error encountered.
pub open spec fn normalize_spec(raw: Seq<char>) -> Result<Seq<Seq<char>>, NormalizeError> {
    if raw.len() == 0 || raw[0] != '/' {
        Err(NormalizeError::NotAbsolute)
    } else {
        norm_from(raw, 1, Seq::empty())
    }
}

/// When every component from `i` on is already a valid segment, the pass
/// keeps them all, in order.
pub proof fn lemma_norm_from_keeps(raw: Seq<char>, i: int, acc: Seq<Seq<char>>)
    requires
        1 <= i <= raw.len(),
        all_valid_segments(segments_from(raw, i)),
    ensures
        norm_from(raw, i, acc) == Ok::<_, NormalizeError>(acc + segments_from(raw, i)),
    decreases raw.len() - i,
{
    if i >= raw.len() {
        assert(acc + segments_from(raw, i) =~= acc);
    } else {
        let j = sep_after(raw, i);
        lemma_sep_after(raw, i);
        let comp = raw.subrange(i, j);
        assert(comp == segments_from(raw, i)[0]);
        assert(is_valid_segment(comp));
        lemma_segment_error_none(comp);
        if j >= raw.len() {
            assert(segments_from(raw, i) =~= seq![comp]);
            assert(acc + segments_from(raw, i) =~= acc.push(comp));
        } else {
            assert forall|k: int| 0 <= k < segments_from(raw, j + 1).len() implies is_valid_segment(
                #[trigger] segments_from(raw, j + 1)[k],
            ) by {
                assert(segments_from(raw, j + 1)[k] == segments_from(raw, i)[k + 1]);
            }
            lemma_norm_from_keeps(raw, j + 1, acc.push(comp));
            assert(acc.push(comp) + segments_from(raw, j + 1) =~= acc + segments_from(raw, i));
        }
    }
}

/// Normalizing a string that is already a valid path returns exactly its own
/// segments.
pub proof fn lemma_normalize_canonical(s: Seq<char>)
    requires
        is_valid_path(s),
    ensures
        normalize_spec(s) == Ok::<_, NormalizeError>(segments(s)),
{
    if s.len() == 1 {
        assert(normalize_spec(s) == Ok::<_, NormalizeError>(Seq::<Seq<char>>::empty()));
        assert(segments(s) =~= Seq::<Seq<char>>::empty());
    } else {
        lemma_norm_from_keeps(s, 1, Seq::empty());
        assert(Seq::<Seq<char>>::empty() + segments_from(s, 1) =~= segments(s));
    }
}

/// Every segment a successful pass returns is valid, provided the ones
/// accumulated so far are.
pub proof fn lemma_norm_from_all_valid(raw: Seq<char>, i: int, acc: Seq<Seq<char>>)
    requires
        all_valid_segments(acc),
        norm_from(raw, i, acc) is Ok,
    ensures
        all_valid_segments(norm_from(raw, i, acc)->Ok_0),
    decreases raw.len() - i,
{
    if i < 0 || i >= raw.len() {
    } else {
        let j = sep_after(raw, i);
        let comp = raw.subrange(i, j);
        match spec_segment_error(comp) {
            None => {
                lemma_segment_error_none(comp);
                assert(all_valid_segments(acc.push(comp))) by {
                    assert forall|k: int| 0 <= k < acc.push(comp).len() implies is_valid_segment(
                        #[trigger] acc.push(comp)[k],
                    ) by {
                        if k < acc.len() {
                            assert(acc.push(comp)[k] == acc[k]);
                        }
                    }
                }
                if j < raw.len() {
                    lemma_norm_from_all_valid(raw, j + 1, acc.push(comp));
                }
            },
            Some(InvalidNodeNameError::Empty) | Some(InvalidNodeNameError::SingleDot) => {
                if j < raw.len() {
                    lemma_norm_from_all_valid(raw, j + 1, acc);
                }
            },
            Some(InvalidNodeNameError::DoubleDot) => {
                if acc.len() > 0 {
                    assert(all_valid_segments(acc.drop_last())) by {
                        assert forall|k: int|
                            0 <= k < acc.drop_last().len() implies is_valid_segment(
                            #[trigger] acc.drop_last()[k],
                        ) by {
                            assert(acc.drop_last()[k] == acc[k]);
                        }
                    }
                    if j < raw.len() {
                        lemma_norm_from_all_valid(raw, j + 1, acc.drop_last());
                    }
                }
            },
            Some(InvalidNodeNameError::ContainsInvalidCharacter(_)) => {},
        }
    }
}

/// Normalization is idempotent: rendering the result of a successful
/// normalization and normalizing again returns the same result.
pub proof fn lemma_normalize_idempotent(raw: Seq<char>)
    requires
        normalize_spec(raw) is Ok,
    ensures
        ({
            let segs = normalize_spec(raw)->Ok_0;
            &&& is_valid_path(path_of(segs))
            &&& normalize_spec(path_of(segs)) == Ok::<_, NormalizeError>(segs)
        }),
{
    let segs = normalize_spec(raw)->Ok_0;
    lemma_norm_from_all_valid(raw, 1, Seq::empty());
    lemma_round_trip(segs);
    lemma_normalize_canonical(path_of(segs));
}

} // verus!
