//! Path filtering: extension suffix matching and noise-directory rules.
//!
//! A path is a `/`-separated string. A path segment is ignored when it is
//! hidden (starts with `.`) or is one of the conventional dependency
//! directories `vendor` and `node_modules`. Anything below an ignored
//! segment is excluded from watching.

use vstd::prelude::*;
use vstd::string::StrSliceExecFns;

use crate::strutil::eq_substr_at;
use crate::strutil::ends_with_str;

verus! {

/// A segment name that causes the path to be ignored: hidden, or a
/// conventional dependency directory.
pub open spec fn spec_ignored_name(seg: Seq<char>) -> bool {
    seg.len() > 0 && (seg[0] == '.' || seg == "vendor"@ || seg == "node_modules"@)
}

/// `i .. j` delimits one (possibly empty) `/`-separated segment of `s`.
pub open spec fn spec_seg_bounds(s: Seq<char>, i: int, j: int) -> bool {
    &&& 0 <= i <= j <= s.len()
    &&& (i == 0 || s[i - 1] == '/')
    &&& (j == s.len() || s[j] == '/')
    &&& (forall|k: int| i <= k < j ==> s[k] != '/')
}

/// Some segment of the path, at any depth, is an ignored name.
pub open spec fn spec_is_ignored_path(s: Seq<char>) -> bool {
    exists|i: int, j: int| spec_seg_bounds(s, i, j) && spec_ignored_name(s.subrange(i, j))
}

/// The last non-empty segment of the path (the file's own name) is an
/// ignored name.
pub open spec fn spec_is_ignored(s: Seq<char>) -> bool {
    exists|i: int, j: int|
        spec_seg_bounds(s, i, j) && spec_ignored_name(s.subrange(i, j)) && (forall|k: int|
            j <= k < s.len() ==> s[k] == '/')
}

/// Some extension in the list is a suffix of the path.
pub open spec fn spec_matches_extension(path: Seq<char>, exts: Seq<Seq<char>>) -> bool {
    exists|i: int| 0 <= i < exts.len() && exts[i].is_suffix_of(path)
}

/// Plain suffix match of the path against each configured extension, so a
/// multi-segment suffix such as `.blade.php` is distinguished from `.php`.
pub fn matches_extension(path: &str, exts: &[String]) -> (r: bool)
    ensures
        r == spec_matches_extension(path@, exts@.map_values(|e: String| e@)),
{
    let ghost views = exts@.map_values(|e: String| e@);
    let mut i: usize = 0;
    while i < exts.len()
        invariant
            views == exts@.map_values(|e: String| e@),
            0 <= i <= exts.len(),
            forall|k: int| 0 <= k < i ==> !(#[trigger] views[k]).is_suffix_of(path@),
        decreases exts.len() - i,
    {
        if ends_with_str(path, exts[i].as_str()) {
            proof {
                assert(views[i as int].is_suffix_of(path@));
            }
            return true;
        }
        i += 1;
    }
    false
}

/// Checks whether `s[i .. j]` is an ignored segment name.
fn ignored_name_range(s: &str, i: usize, j: usize) -> (r: bool)
    requires
        i <= j <= s@.len(),
    ensures
        r == spec_ignored_name(s@.subrange(i as int, j as int)),
{
    proof {
        reveal_strlit("vendor");
        reveal_strlit("node_modules");
    }
    if i == j {
        return false;
    }
    if s.get_char(i) == '.' {
        proof {
            assert(s@.subrange(i as int, j as int)[0] == s@[i as int]);
        }
        return true;
    }
    let len = j - i;
    if len == 6 && eq_substr_at(s, i, "vendor") {
        return true;
    }
    if len == 12 && eq_substr_at(s, i, "node_modules") {
        return true;
    }
    proof {
        let seg = s@.subrange(i as int, j as int);
        assert(seg[0] == s@[i as int]);
        if seg == "vendor"@ {
            assert(s@.subrange(i as int, i + "vendor"@.len()) =~= seg);
        }
        if seg == "node_modules"@ {
            assert(s@.subrange(i as int, i + "node_modules"@.len()) =~= seg);
        }
    }
    false
}

/// True when any `/`-separated segment of the path is hidden or is one of
/// the noise directories, regardless of depth or position.
pub fn is_ignored_path(path: &str) -> (r: bool)
    ensures
        r == spec_is_ignored_path(path@),
{
    let n = path.unicode_len();
    let mut start: usize = 0;
    let mut i: usize = 0;
    while i < n
        invariant
            n == path@.len(),
            0 <= start <= i <= n,
            start == 0 || path@[start - 1] == '/',
            forall|k: int| start <= k < i ==> path@[k] != '/',
            forall|i0: int, j0: int|
                spec_seg_bounds(path@, i0, j0) && j0 < i ==> !spec_ignored_name(
                    path@.subrange(i0, j0),
                ),
        decreases n - i,
    {
        if path.get_char(i) == '/' {
            if ignored_name_range(path, start, i) {
                proof {
                    assert(spec_seg_bounds(path@, start as int, i as int));
                }
                return true;
            }
            proof {
                assert forall|i0: int, j0: int|
                    spec_seg_bounds(path@, i0, j0) && j0 < i + 1 implies !spec_ignored_name(
                    path@.subrange(i0, j0),
                ) by {
                    if j0 == i {
                        if i0 < start {
                            assert(path@[start - 1] == '/');
                        } else if i0 > start {
                            assert(path@[i0 - 1] == '/');
                        }
                        assert(i0 == start);
                    }
                }
            }
            start = i + 1;
        }
        i += 1;
    }
    let last = ignored_name_range(path, start, n);
    proof {
        if last {
            assert(spec_seg_bounds(path@, start as int, n as int));
        } else {
            assert forall|i0: int, j0: int| spec_seg_bounds(path@, i0, j0) implies !spec_ignored_name(
                path@.subrange(i0, j0),
            ) by {
                if j0 == n {
                    if i0 < start {
                        assert(path@[start - 1] == '/');
                    } else if i0 > start {
                        assert(path@[i0 - 1] == '/');
                    }
                    assert(i0 == start);
                }
            }
        }
    }
    last
}

/// True when the file's own name — the last non-empty segment of the path —
/// is hidden or is one of the noise directories.
pub fn is_ignored(path: &str) -> (r: bool)
    ensures
        r == spec_is_ignored(path@),
{
    let n = path.unicode_len();
    let mut end: usize = n;
    while end > 0 && path.get_char(end - 1) == '/'
        invariant
            n == path@.len(),
            0 <= end <= n,
            forall|k: int| end <= k < n ==> path@[k] == '/',
        decreases end,
    {
        end -= 1;
    }
    if end == 0 {
        proof {
            assert forall|i0: int, j0: int|
                spec_seg_bounds(path@, i0, j0) && (forall|k: int|
                    j0 <= k < path@.len() ==> path@[k] == '/') implies !spec_ignored_name(
                path@.subrange(i0, j0),
            ) by {
                if path@.subrange(i0, j0).len() > 0 {
                    assert(path@.subrange(i0, j0)[0] == path@[i0]);
                    assert(path@[i0] == '/');
                }
            }
        }
        return false;
    }
    let mut start: usize = end;
    while start > 0 && path.get_char(start - 1) != '/'
        invariant
            n == path@.len(),
            0 <= start <= end <= n,
            forall|k: int| start <= k < end ==> path@[k] != '/',
            end > 0 && path@[end - 1] != '/',
            forall|k: int| end <= k < n ==> path@[k] == '/',
        decreases start,
    {
        start -= 1;
    }
    let r = ignored_name_range(path, start, end);
    proof {
        if r {
            assert(spec_seg_bounds(path@, start as int, end as int));
        } else {
            assert forall|i0: int, j0: int|
                spec_seg_bounds(path@, i0, j0) && (forall|k: int|
                    j0 <= k < path@.len() ==> path@[k] == '/') implies !spec_ignored_name(
                path@.subrange(i0, j0),
            ) by {
                if path@.subrange(i0, j0).len() > 0 {
                    assert(path@.subrange(i0, j0)[j0 - i0 - 1] == path@[j0 - 1]);
                    assert(path@[j0 - 1] != '/');
                    if j0 < end {
                        assert(path@[end - 1] == '/');
                    }
                    if j0 > end {
                        assert(path@[j0 - 1] == '/');
                    }
                    assert(j0 == end);
                    if i0 < start {
                        assert(path@[start - 1] == '/');
                    }
                    if i0 > start {
                        assert(path@[i0 - 1] == '/');
                    }
                    assert(i0 == start);
                }
            }
        }
    }
    r
}

/// Any path with an ignored segment is classified ignored by
/// `is_ignored_path`, wherever the segment sits in the path.
pub proof fn lemma_ignored_segment_anywhere(s: Seq<char>, i: int, j: int)
    requires
        spec_seg_bounds(s, i, j),
        spec_ignored_name(s.subrange(i, j)),
    ensures
        spec_is_ignored_path(s),
{
}

} // verus!
