//! Character-level helpers for comparing pieces of `&str` values.
//!
//! All contracts are stated over the `Seq<char>` view of the strings.

use vstd::prelude::*;
use vstd::string::StrSliceExecFns;

verus! {

/// Compares `t` against the characters of `s` starting at `off`.
pub(crate) fn eq_substr_at(s: &str, off: usize, t: &str) -> (r: bool)
    requires
        off + t@.len() <= s@.len(),
    ensures
        r <==> s@.subrange(off as int, off + t@.len()) == t@,
{
    let n = s.unicode_len();
    let m = t.unicode_len();
    let mut i: usize = 0;
    while i < m
        invariant
            off + t@.len() <= s@.len(),
            n == s@.len(),
            m == t@.len(),
            0 <= i <= m,
            forall|k: int| 0 <= k < i ==> s@[off + k] == t@[k],
        decreases m - i,
    {
        if s.get_char(off + i) != t.get_char(i) {
            proof {
                assert(s@.subrange(off as int, off + t@.len())[i as int] == s@[off + i]);
            }
            return false;
        }
        i += 1;
    }
    proof {
        assert(s@.subrange(off as int, off + t@.len()) =~= t@);
    }
    true
}

/// Suffix test over the character views of the two strings.
pub(crate) fn ends_with_str(s: &str, suffix: &str) -> (r: bool)
    ensures
        r <==> suffix@.is_suffix_of(s@),
{
    let n = s.unicode_len();
    let m = suffix.unicode_len();
    if m > n {
        false
    } else {
        let r = eq_substr_at(s, n - m, suffix);
        proof {
            if r {
                assert(suffix@ =~= s@.subrange(n - m, n as int));
            }
        }
        r
    }
}

/// Equality of two strings as sequences of characters.
pub(crate) fn str_eq(a: &str, b: &str) -> (r: bool)
    ensures
        r <==> a@ == b@,
{
    let n = a.unicode_len();
    let m = b.unicode_len();
    if n != m {
        false
    } else {
        let r = eq_substr_at(a, 0, b);
        proof {
            if r {
                assert(a@.subrange(0, b@.len() as int) =~= a@);
            } else {
                assert(a@.subrange(0, b@.len() as int) =~= a@);
            }
        }
        r
    }
}

} // verus!
