//! Watch configuration: the extension list and the duration syntax.
//!
//! Durations are measured in whole milliseconds: a bare integer or an
//! `ms` suffix gives milliseconds, an `s` suffix gives decimal seconds
//! (digits beyond millisecond precision are truncated).

use vstd::prelude::*;
use vstd::string::StrSliceExecFns;
use vstd::string::StringExecFns;

use crate::strutil::str_eq;

verus! {

/// Immutable description of one watching run. Paths and intervals are
/// validated by the caller before the loops start; durations are in
/// milliseconds.
pub struct Config {
    pub extensions: Vec<String>,
    pub poll: bool,
    pub poll_interval_ms: u64,
    pub debounce_ms: u64,
    pub paths: Vec<String>,
}

impl Config {
    /// At least one root directory must be watched.
    pub open spec fn well_formed(&self) -> bool {
        self.paths@.len() > 0
    }
}

/// Whitespace stripped from extension list tokens: the Unicode
/// white-space characters.
pub open spec fn spec_is_space(c: char) -> bool {
    ||| c == ' '
    ||| c == '\t'
    ||| c == '\n'
    ||| (c as u32) == 0x0B
    ||| (c as u32) == 0x0C
    ||| c == '\r'
    ||| (c as u32) == 0x85
    ||| (c as u32) == 0xA0
    ||| (c as u32) == 0x1680
    ||| (0x2000 <= (c as u32) && (c as u32) <= 0x200A)
    ||| (c as u32) == 0x2028
    ||| (c as u32) == 0x2029
    ||| (c as u32) == 0x202F
    ||| (c as u32) == 0x205F
    ||| (c as u32) == 0x3000
}

pub open spec fn spec_trim_left(s: Seq<char>) -> Seq<char>
    decreases s.len(),
{
    if s.len() > 0 && spec_is_space(s[0]) {
        spec_trim_left(s.drop_first())
    } else {
        s
    }
}

pub open spec fn spec_trim_right(s: Seq<char>) -> Seq<char>
    decreases s.len(),
{
    if s.len() > 0 && spec_is_space(s.last()) {
        spec_trim_right(s.drop_last())
    } else {
        s
    }
}

/// The token with leading and trailing whitespace removed.
pub open spec fn spec_trim(s: Seq<char>) -> Seq<char> {
    spec_trim_right(spec_trim_left(s))
}

/// An extension token normalized to start with a dot.
pub open spec fn spec_normalize_ext(t: Seq<char>) -> Seq<char> {
    if t.len() > 0 && t[0] == '.' {
        t
    } else {
        seq!['.'] + t
    }
}

/// The comma-separated tokens of the raw extension list, in order,
/// including empty tokens.
pub open spec fn spec_split_commas(s: Seq<char>) -> Seq<Seq<char>>
    decreases s.len(),
{
    if s.len() == 0 {
        seq![Seq::<char>::empty()]
    } else if s[0] == ',' {
        seq![Seq::<char>::empty()] + spec_split_commas(s.drop_first())
    } else {
        let rest = spec_split_commas(s.drop_first());
        seq![seq![s[0]] + rest[0]] + rest.drop_first()
    }
}

/// Trims each token, drops the empty ones, and normalizes the rest.
pub open spec fn spec_parse_tokens(toks: Seq<Seq<char>>) -> Seq<Seq<char>>
    decreases toks.len(),
{
    if toks.len() == 0 {
        Seq::empty()
    } else {
        let t = spec_trim(toks[0]);
        let rest = spec_parse_tokens(toks.drop_first());
        if t.len() == 0 {
            rest
        } else {
            seq![spec_normalize_ext(t)] + rest
        }
    }
}

/// The normalized extension list parsed from a raw comma-separated string.
pub open spec fn spec_parse_extensions(s: Seq<char>) -> Seq<Seq<char>> {
    spec_parse_tokens(spec_split_commas(s))
}

proof fn lemma_split_commas_len(s: Seq<char>)
    ensures
        spec_split_commas(s).len() >= 1,
    decreases s.len(),
{
    if s.len() > 0 {
        lemma_split_commas_len(s.drop_first());
    }
}

proof fn lemma_split_no_comma(s: Seq<char>)
    requires
        forall|k: int| 0 <= k < s.len() ==> s[k] != ',',
    ensures
        spec_split_commas(s) == seq![s],
    decreases s.len(),
{
    if s.len() == 0 {
        assert(s =~= Seq::<char>::empty());
        assert(spec_split_commas(s) =~= seq![s]);
    } else {
        lemma_split_no_comma(s.drop_first());
        let rest = spec_split_commas(s.drop_first());
        assert(rest == seq![s.drop_first()]);
        assert(rest[0] == s.drop_first());
        assert(rest.drop_first() =~= Seq::<Seq<char>>::empty());
        assert(seq![s[0]] + s.drop_first() =~= s);
        assert(spec_split_commas(s) =~= seq![s]);
    }
}

proof fn lemma_split_first_comma(s: Seq<char>, i: int)
    requires
        0 <= i < s.len(),
        s[i] == ',',
        forall|k: int| 0 <= k < i ==> s[k] != ',',
    ensures
        spec_split_commas(s) == seq![s.take(i)] + spec_split_commas(s.skip(i + 1)),
    decreases i,
{
    if i == 0 {
        assert(s.drop_first() =~= s.skip(1));
        assert(s.take(0) =~= Seq::<char>::empty());
        assert(spec_split_commas(s) =~= seq![s.take(0)] + spec_split_commas(s.skip(1)));
    } else {
        let d = s.drop_first();
        assert(d[i - 1] == ',');
        lemma_split_first_comma(d, i - 1);
        lemma_split_commas_len(d.skip(i));
        assert(d.skip(i) =~= s.skip(i + 1));
        assert(seq![s[0]] + d.take(i - 1) =~= s.take(i));
        let rest = spec_split_commas(d);
        assert(rest == seq![d.take(i - 1)] + spec_split_commas(s.skip(i + 1)));
        assert(rest[0] == d.take(i - 1));
        assert(rest.drop_first() =~= spec_split_commas(s.skip(i + 1)));
        assert(spec_split_commas(s) =~= seq![s.take(i)] + spec_split_commas(s.skip(i + 1)));
    }
}

proof fn lemma_trim_left_skip(s: Seq<char>, a: int)
    requires
        0 <= a <= s.len(),
        forall|k: int| 0 <= k < a ==> spec_is_space(s[k]),
        a == s.len() || !spec_is_space(s[a]),
    ensures
        spec_trim_left(s) == s.skip(a),
    decreases a,
{
    if a == 0 {
        assert(s.skip(0) =~= s);
    } else {
        let d = s.drop_first();
        lemma_trim_left_skip(d, a - 1);
        assert(d.skip(a - 1) =~= s.skip(a));
    }
}

proof fn lemma_trim_right_take(s: Seq<char>, b: int)
    requires
        0 <= b <= s.len(),
        forall|k: int| b <= k < s.len() ==> spec_is_space(s[k]),
        b == 0 || !spec_is_space(s[b - 1]),
    ensures
        spec_trim_right(s) == s.take(b),
    decreases s.len(),
{
    if b == s.len() {
        assert(s.take(b) =~= s);
    } else {
        let d = s.drop_last();
        lemma_trim_right_take(d, b);
        assert(d.take(b) =~= s.take(b));
    }
}

/// The trimmed view of `s`: drops ASCII whitespace at both ends.
fn trim_str<'a>(s: &'a str) -> (r: &'a str)
    ensures
        r@ == spec_trim(s@),
{
    let n = s.unicode_len();
    let mut a: usize = 0;
    while a < n && is_space_char(s.get_char(a))
        invariant
            n == s@.len(),
            0 <= a <= n,
            forall|k: int| 0 <= k < a ==> spec_is_space(s@[k]),
        decreases n - a,
    {
        a += 1;
    }
    let mut b: usize = n;
    while b > a && is_space_char(s.get_char(b - 1))
        invariant
            n == s@.len(),
            a <= b <= n,
            forall|k: int| b <= k < n ==> spec_is_space(s@[k]),
        decreases b,
    {
        b -= 1;
    }
    let r = s.substring_char(a, b);
    proof {
        lemma_trim_left_skip(s@, a as int);
        let t = s@.skip(a as int);
        lemma_trim_right_take(t, b - a);
        assert(t.take(b - a) =~= s@.subrange(a as int, b as int));
    }
    r
}

fn is_space_char(c: char) -> (r: bool)
    ensures
        r == spec_is_space(c),
{
    let v: u32 = c as u32;
    c == ' ' || c == '\t' || c == '\n' || v == 0x0B || v == 0x0C || c == '\r' || v == 0x85
        || v == 0xA0 || v == 0x1680 || (0x2000 <= v && v <= 0x200A) || v == 0x2028 || v == 0x2029
        || v == 0x202F || v == 0x205F || v == 0x3000
}

/// Builds the normalized extension string for one non-empty trimmed token.
fn normalize_token(t: &str) -> (r: String)
    requires
        t@.len() > 0,
    ensures
        r@ == spec_normalize_ext(t@),
{
    proof {
        reveal_strlit(".");
    }
    if t.get_char(0) == '.' {
        String::from_str(t)
    } else {
        let mut r = String::from_str(".");
        r.append(t);
        proof {
            assert("."@ =~= seq!['.']);
        }
        r
    }
}

fn parse_extensions_rec(s: &str) -> (r: Vec<String>)
    ensures
        r.deep_view() == spec_parse_extensions(s@),
    decreases s@.len(),
{
    let n = s.unicode_len();
    let mut i: usize = 0;
    while i < n && s.get_char(i) != ','
        invariant
            n == s@.len(),
            0 <= i <= n,
            forall|k: int| 0 <= k < i ==> s@[k] != ',',
        decreases n - i,
    {
        i += 1;
    }
    if i < n {
        let tok = s.substring_char(0, i);
        let rest = s.substring_char(i + 1, n);
        let mut r = parse_extensions_rec(rest);
        proof {
            lemma_split_first_comma(s@, i as int);
            assert(tok@ =~= s@.take(i as int));
            assert(rest@ =~= s@.skip(i + 1));
            let toks = spec_split_commas(s@);
            assert(toks.len() >= 1);
            assert(toks[0] == s@.take(i as int));
            assert(toks.drop_first() =~= spec_split_commas(s@.skip(i + 1)));
        }
        let t = trim_str(tok);
        if t.unicode_len() > 0 {
            let head = normalize_token(t);
            r.insert(0, head);
            proof {
                let toks = spec_split_commas(s@);
                assert(spec_trim(toks[0]).len() > 0);
                assert(spec_parse_tokens(toks) == seq![spec_normalize_ext(spec_trim(toks[0]))]
                    + spec_parse_tokens(toks.drop_first()));
                assert(r.deep_view() =~= seq![spec_normalize_ext(spec_trim(s@.take(i as int)))]
                    + spec_parse_extensions(s@.skip(i + 1)));
            }
        } else {
            proof {
                let toks = spec_split_commas(s@);
                assert(spec_trim(toks[0]).len() == 0);
                assert(spec_parse_tokens(toks) == spec_parse_tokens(toks.drop_first()));
            }
        }
        r
    } else {
        proof {
            lemma_split_no_comma(s@);
            let toks = spec_split_commas(s@);
            assert(toks.len() == 1);
            assert(toks[0] == s@);
            assert(toks.drop_first() =~= Seq::<Seq<char>>::empty());
            assert(spec_parse_tokens(Seq::<Seq<char>>::empty()) == Seq::<Seq<char>>::empty());
        }
        let t = trim_str(s);
        let mut r: Vec<String> = Vec::new();
        if t.unicode_len() > 0 {
            let head = normalize_token(t);
            r.push(head);
            proof {
                let toks = spec_split_commas(s@);
                assert(spec_parse_tokens(toks) == seq![spec_normalize_ext(spec_trim(toks[0]))]
                    + spec_parse_tokens(toks.drop_first()));
                assert(r.deep_view() =~= seq![spec_normalize_ext(spec_trim(s@))]
                    + Seq::<Seq<char>>::empty());
            }
        } else {
            proof {
                let toks = spec_split_commas(s@);
                assert(spec_parse_tokens(toks) == spec_parse_tokens(toks.drop_first()));
                assert(r.deep_view() =~= Seq::<Seq<char>>::empty());
            }
        }
        r
    }
}

/// Splits the raw comma-separated list, trims each token, drops empty
/// tokens, and prefixes each surviving token with a dot unless it already
/// has one.
pub fn parse_extensions(raw: &str) -> (r: Vec<String>)
    ensures
        r.deep_view() == spec_parse_extensions(raw@),
{
    parse_extensions_rec(raw)
}

pub open spec fn spec_is_digit(c: char) -> bool {
    ('0' as u32) <= (c as u32) && (c as u32) <= ('9' as u32)
}

pub open spec fn spec_digit_val(c: char) -> nat {
    if spec_is_digit(c) {
        ((c as u32) - ('0' as u32)) as nat
    } else {
        0
    }
}

pub open spec fn spec_all_digits(s: Seq<char>) -> bool {
    forall|k: int| 0 <= k < s.len() ==> spec_is_digit(s[k])
}

/// The numeric value of a decimal digit string, most significant first.
pub open spec fn spec_digits_val(s: Seq<char>) -> nat
    decreases s.len(),
{
    if s.len() == 0 {
        0
    } else {
        spec_digits_val(s.drop_last()) * 10 + spec_digit_val(s.last())
    }
}

pub open spec fn spec_pow10(n: nat) -> nat
    decreases n,
{
    if n == 0 {
        1nat
    } else {
        10 * spec_pow10((n - 1) as nat)
    }
}

proof fn lemma_digits_val_bound(s: Seq<char>)
    ensures
        spec_digits_val(s) < spec_pow10(s.len()),
    decreases s.len(),
{
    if s.len() > 0 {
        lemma_digits_val_bound(s.drop_last());
    }
}

proof fn lemma_digits_val_prefix_le(s: Seq<char>, j: int)
    requires
        0 <= j <= s.len(),
    ensures
        spec_digits_val(s.take(j)) <= spec_digits_val(s),
    decreases s.len(),
{
    if j == s.len() {
        assert(s.take(j) =~= s);
    } else {
        let d = s.drop_last();
        lemma_digits_val_prefix_le(d, j);
        assert(d.take(j) =~= s.take(j));
    }
}

/// `d` marks the single decimal point of a well-formed fractional-seconds
/// body: digits on both sides, at least one digit overall.
pub open spec fn spec_dot_split(t: Seq<char>, d: int) -> bool {
    &&& 0 <= d < t.len()
    &&& t[d] == '.'
    &&& spec_all_digits(t.take(d))
    &&& spec_all_digits(t.skip(d + 1))
    &&& t.len() > 1
}

proof fn lemma_dot_split_unique(t: Seq<char>, d1: int, d2: int)
    requires
        spec_dot_split(t, d1),
        spec_dot_split(t, d2),
    ensures
        d1 == d2,
{
    if d1 < d2 {
        assert(t.skip(d1 + 1)[d2 - d1 - 1] == t[d2]);
    }
    if d2 < d1 {
        assert(t.skip(d2 + 1)[d1 - d2 - 1] == t[d1]);
    }
}

/// Milliseconds contributed by the fractional digits (truncated past the
/// third digit).
pub open spec fn spec_frac_ms(frac: Seq<char>) -> nat {
    if frac.len() == 0 {
        0nat
    } else if frac.len() == 1 {
        spec_digits_val(frac) * 100
    } else if frac.len() == 2 {
        spec_digits_val(frac) * 10
    } else {
        spec_digits_val(frac.take(3))
    }
}

/// Milliseconds denoted by the body of an `s`-suffixed duration: either a
/// whole number of seconds or a decimal fraction.
pub open spec fn spec_sec_body_ms(t: Seq<char>) -> Option<nat> {
    if t.len() > 0 && spec_all_digits(t) {
        Some(spec_digits_val(t) * 1000)
    } else if exists|d: int| spec_dot_split(t, d) {
        let d = choose|d: int| spec_dot_split(t, d);
        Some(spec_digits_val(t.take(d)) * 1000 + spec_frac_ms(t.skip(d + 1)))
    } else {
        None
    }
}

/// Milliseconds denoted by a duration string: a bare integer or an `ms`
/// suffix counts milliseconds, an `s` suffix counts decimal seconds.
/// `None` for a malformed string.
pub open spec fn spec_duration_ms(s: Seq<char>) -> Option<nat> {
    if s.len() >= 2 && s[s.len() - 2] == 'm' && s[s.len() - 1] == 's' {
        let num = s.take(s.len() - 2);
        if num.len() > 0 && spec_all_digits(num) {
            Some(spec_digits_val(num))
        } else {
            None
        }
    } else if s.len() >= 1 && s[s.len() - 1] == 's' {
        spec_sec_body_ms(s.take(s.len() - 1))
    } else {
        if s.len() > 0 && spec_all_digits(s) {
            Some(spec_digits_val(s))
        } else {
            None
        }
    }
}

fn is_digit_char(c: char) -> (r: bool)
    ensures
        r == spec_is_digit(c),
{
    let v: u32 = c as u32;
    ('0' as u32) <= v && v <= ('9' as u32)
}

/// Parses `s[a .. b]` as an unsigned decimal number.
fn parse_digits_u64(s: &str, a: usize, b: usize) -> (r: Option<u64>)
    requires
        a <= b <= s@.len(),
    ensures
        r is Some <==> (a < b && spec_all_digits(s@.subrange(a as int, b as int))
            && spec_digits_val(s@.subrange(a as int, b as int)) <= u64::MAX),
        r matches Some(v) ==> v == spec_digits_val(s@.subrange(a as int, b as int)),
{
    let ghost whole = s@.subrange(a as int, b as int);
    if a == b {
        return None;
    }
    let n = s.unicode_len();
    let mut val: u64 = 0;
    let mut i: usize = a;
    while i < b
        invariant
            a <= i <= b <= s@.len(),
            n == s@.len(),
            whole == s@.subrange(a as int, b as int),
            forall|k: int| a <= k < i ==> spec_is_digit(s@[k]),
            val == spec_digits_val(s@.subrange(a as int, i as int)),
        decreases b - i,
    {
        let c = s.get_char(i);
        proof {
            assert(whole[i - a] == s@[i as int]);
        }
        if !is_digit_char(c) {
            return None;
        }
        let d: u64 = ((c as u32) - ('0' as u32)) as u64;
        proof {
            assert(s@.subrange(a as int, i + 1).drop_last() =~= s@.subrange(a as int, i as int));
            assert(s@.subrange(a as int, i + 1).last() == s@[i as int]);
        }
        let step = match val.checked_mul(10) {
            Some(m) => m.checked_add(d),
            None => None,
        };
        match step {
            Some(nv) => {
                val = nv;
            },
            None => {
                proof {
                    assert(spec_digits_val(s@.subrange(a as int, i + 1)) > u64::MAX);
                    assert(whole.take(i + 1 - a) =~= s@.subrange(a as int, i + 1));
                    lemma_digits_val_prefix_le(whole, i + 1 - a);
                }
                return None;
            },
        }
        i += 1;
    }
    proof {
        assert(s@.subrange(a as int, i as int) =~= whole);
    }
    Some(val)
}

/// Parses a duration given as a bare millisecond count, a count with an
/// `ms` suffix, or decimal seconds with an `s` suffix, into whole
/// milliseconds. Rejects malformed strings and values over `u64::MAX`
/// milliseconds.
pub fn parse_duration_str(s: &str) -> (r: Result<u64, String>)
    ensures
        (r is Ok) == (spec_duration_ms(s@) matches Some(v) && v <= u64::MAX),
        r matches Ok(ms) ==> spec_duration_ms(s@) == Some(ms as nat),
        r matches Err(m) ==> m@ == "invalid duration: "@ + s@,
{
    let n = s.unicode_len();
    if n >= 2 && s.get_char(n - 2) == 'm' && s.get_char(n - 1) == 's' {
        proof {
            assert(s@.subrange(0, n - 2) =~= s@.take(n - 2));
        }
        match parse_digits_u64(s, 0, n - 2) {
            Some(v) => Ok(v),
            None => Err(duration_error(s)),
        }
    } else if n >= 1 && s.get_char(n - 1) == 's' {
        parse_seconds_body(s, n)
    } else {
        proof {
            assert(s@.subrange(0, n as int) =~= s@);
        }
        match parse_digits_u64(s, 0, n) {
            Some(v) => Ok(v),
            None => Err(duration_error(s)),
        }
    }
}

/// Parses the part before a trailing `s` as whole or fractional seconds.
fn parse_seconds_body(s: &str, n: usize) -> (r: Result<u64, String>)
    requires
        n == s@.len(),
        n >= 1,
        s@[n - 1] == 's',
        !(n >= 2 && s@[n - 2] == 'm'),
    ensures
        (r is Ok) == (spec_sec_body_ms(s@.take(n - 1)) matches Some(v) && v <= u64::MAX),
        r matches Ok(ms) ==> spec_sec_body_ms(s@.take(n - 1)) == Some(ms as nat),
        r matches Err(m) ==> m@ == "invalid duration: "@ + s@,
{
    let ghost t = s@.take(n - 1);
    let b = n - 1;
    let mut d: usize = 0;
    while d < b && s.get_char(d) != '.'
        invariant
            n == s@.len(),
            b == n - 1,
            0 <= d <= b,
            forall|k: int| 0 <= k < d ==> s@[k] != '.',
        decreases b - d,
    {
        d += 1;
    }
    proof {
        assert(forall|k: int| 0 <= k < b ==> t[k] == s@[k]);
    }
    if d == b {
        // No decimal point: a whole number of seconds.
        proof {
            assert(s@.subrange(0, b as int) =~= t);
            assert forall|dd: int| !spec_dot_split(t, dd) by {
                if 0 <= dd < t.len() {
                    assert(t[dd] == s@[dd]);
                }
            }
        }
        match parse_digits_u64(s, 0, b) {
            Some(v) => {
                match v.checked_mul(1000) {
                    Some(ms) => Ok(ms),
                    None => {
                        proof {
                            assert(spec_digits_val(t) * 1000 > u64::MAX);
                        }
                        Err(duration_error(s))
                    },
                }
            },
            None => {
                proof {
                    if t.len() > 0 && spec_all_digits(t) {
                        assert(spec_digits_val(t) > u64::MAX);
                        assert(spec_digits_val(t) * 1000 >= spec_digits_val(t));
                    }
                }
                Err(duration_error(s))
            },
        }
    } else {
        // Decimal point at `d`: digits before are seconds, digits after
        // are the fraction.
        proof {
            assert(t[d as int] == '.');
            assert(!spec_is_digit('.'));
            assert(!spec_all_digits(t));
        }
        if d == 0 && b == 1 {
            // Just "." with no digits at all.
            proof {
                assert forall|dd: int| !spec_dot_split(t, dd) by {}
            }
            return Err(duration_error(s));
        }
        // Fraction must be all digits.
        let mut k: usize = d + 1;
        while k < b
            invariant
                n == s@.len(),
                b == n - 1,
                t == s@.take(n - 1),
                0 <= d < b,
                d + 1 <= k <= b,
                s@[d as int] == '.',
                forall|j: int| 0 <= j < d ==> s@[j] != '.',
                forall|j: int| d + 1 <= j < k ==> spec_is_digit(s@[j]),
            decreases b - k,
        {
            if !is_digit_char(s.get_char(k)) {
                proof {
                    assert(t.len() == b);
                    assert(t[k as int] == s@[k as int]);
                    assert(t[d as int] == s@[d as int]);
                    assert(forall|j: int| 0 <= j < d ==> t[j] == s@[j]);
                    lemma_no_dot_split_bad_char(t, d as int, k as int);
                }
                return Err(duration_error(s));
            }
            k += 1;
        }
        proof {
            assert(forall|j: int| d + 1 <= j < b ==> spec_is_digit(t[j]));
            assert(spec_all_digits(t.skip(d + 1)));
        }
        // Integer part must be all digits (or absent).
        let iv: u64 = if d == 0 {
            proof {
                assert(t.take(0) =~= Seq::<char>::empty());
            }
            0
        } else {
            proof {
                assert(s@.subrange(0, d as int) =~= t.take(d as int));
            }
            match parse_digits_u64(s, 0, d) {
                Some(v) => v,
                None => {
                    proof {
                        if spec_all_digits(t.take(d as int)) {
                            assert(spec_dot_split(t, d as int));
                            lemma_sec_body_dot(t, d as int);
                            assert(spec_digits_val(t.take(d as int)) > u64::MAX);
                        } else {
                            lemma_no_dot_split_bad_int(t, d as int);
                        }
                    }
                    return Err(duration_error(s));
                },
            }
        };
        proof {
            assert(spec_all_digits(t.take(d as int)));
            assert(spec_dot_split(t, d as int));
            lemma_sec_body_dot(t, d as int);
        }
        let frac_len = b - d - 1;
        let m3: usize = if frac_len > 3 {
            3
        } else {
            frac_len
        };
        let fm: u64 = if m3 == 0 {
            0
        } else {
            proof {
                assert(s@.subrange(d + 1, d + 1 + m3) =~= t.skip(d + 1).take(m3 as int));
                lemma_digits_val_bound(t.skip(d + 1).take(m3 as int));
                assert(spec_pow10(0) == 1);
                assert(spec_pow10(1) == 10);
                assert(spec_pow10(2) == 100);
                assert(spec_pow10(3) == 1000);
            }
            match parse_digits_u64(s, d + 1, d + 1 + m3) {
                Some(v) => {
                    if m3 == 1 {
                        v * 100
                    } else if m3 == 2 {
                        v * 10
                    } else {
                        v
                    }
                },
                None => {
                    // Never reached: one to three digits always parse and
                    // stay under a thousand.
                    proof {
                        assert(false);
                    }
                    0
                },
            }
        };
        proof {
            let frac = t.skip(d + 1);
            if frac.len() >= 3 {
                assert(frac.take(3) =~= t.skip(d + 1).take(3));
            } else {
                assert(frac.take(frac.len() as int) =~= frac);
            }
            assert(fm == spec_frac_ms(frac));
        }
        let total = match iv.checked_mul(1000) {
            Some(m) => m.checked_add(fm),
            None => None,
        };
        match total {
            Some(ms) => Ok(ms),
            None => {
                proof {
                    assert(spec_digits_val(t.take(d as int)) * 1000 + spec_frac_ms(t.skip(d + 1))
                        > u64::MAX);
                }
                Err(duration_error(s))
            },
        }
    }
}

/// A char in the fraction that is neither digit nor the first dot rules
/// out every well-formed dot split.
proof fn lemma_no_dot_split_bad_char(t: Seq<char>, d: int, k: int)
    requires
        0 <= d < k < t.len(),
        t[d] == '.',
        forall|j: int| 0 <= j < d ==> t[j] != '.',
        !spec_is_digit(t[k]),
    ensures
        forall|dd: int| !spec_dot_split(t, dd),
{
    assert forall|dd: int| !spec_dot_split(t, dd) by {
        if spec_dot_split(t, dd) {
            if dd < d {
                assert(t[dd] == '.');
            } else if dd > d {
                assert(t.take(dd)[d] == t[d]);
                assert(!spec_is_digit('.'));
            } else {
                if k > dd {
                    assert(t.skip(dd + 1)[k - dd - 1] == t[k]);
                }
            }
        }
    }
}

/// A non-digit before the first dot rules out every well-formed dot split.
proof fn lemma_no_dot_split_bad_int(t: Seq<char>, d: int)
    requires
        0 < d < t.len(),
        t[d] == '.',
        forall|j: int| 0 <= j < d ==> t[j] != '.',
        !spec_all_digits(t.take(d)),
    ensures
        forall|dd: int| !spec_dot_split(t, dd),
{
    let j = choose|j: int| 0 <= j < d && !spec_is_digit(t.take(d)[j]);
    assert(t.take(d)[j] == t[j]);
    assert forall|dd: int| !spec_dot_split(t, dd) by {
        if spec_dot_split(t, dd) {
            if dd < d {
                assert(t[dd] == '.');
            } else if dd > d {
                assert(t.take(dd)[d] == t[d]);
                assert(!spec_is_digit('.'));
            } else {
                if j < dd {
                    assert(t.take(dd)[j] == t[j]);
                }
            }
        }
    }
}

/// With a valid dot split at `d`, the seconds body denotes exactly the
/// combination of integer part and fraction.
proof fn lemma_sec_body_dot(t: Seq<char>, d: int)
    requires
        spec_dot_split(t, d),
    ensures
        spec_sec_body_ms(t) == Some(
            spec_digits_val(t.take(d)) * 1000 + spec_frac_ms(t.skip(d + 1)),
        ),
{
    assert(t[d] == '.');
    assert(!spec_is_digit('.'));
    assert(!spec_all_digits(t));
    let dd = choose|dd: int| spec_dot_split(t, dd);
    lemma_dot_split_unique(t, dd, d);
}

/// The message a malformed or oversized duration is rejected with.
fn duration_error(s: &str) -> (r: String)
    ensures
        r@ == "invalid duration: "@ + s@,
{
    let mut r = String::from_str("invalid duration: ");
    r.append(s);
    r
}

/// The settings accumulated while reading the argument list.
pub ghost struct SpecArgs {
    pub ext_raw: Seq<char>,
    pub poll: bool,
    pub poll_interval_ms: nat,
    pub debounce_ms: nat,
    pub paths: Seq<Seq<char>>,
}

/// The defaults before any flag is read: `php` files, event-driven mode,
/// half-second poll interval, 300 ms quiet period, no roots.
pub open spec fn spec_default_args() -> SpecArgs {
    SpecArgs {
        ext_raw: "php"@,
        poll: false,
        poll_interval_ms: 500,
        debounce_ms: 300,
        paths: Seq::empty(),
    }
}

/// A parsed duration flag value that fits the machine word.
pub open spec fn spec_flag_ms(v: Seq<char>) -> Option<nat> {
    match spec_duration_ms(v) {
        Some(ms) => if ms <= u64::MAX {
            Some(ms)
        } else {
            None
        },
        None => None,
    }
}

/// Reads the argument list left to right onto the accumulated settings:
/// `None` for a flag without its value, a malformed duration, or an
/// unknown flag; everything else is a root path.
pub open spec fn spec_parse_args(args: Seq<Seq<char>>, acc: SpecArgs) -> Option<SpecArgs>
    decreases args.len(),
{
    if args.len() == 0 {
        Some(acc)
    } else if args[0] == "--ext"@ {
        if args.len() < 2 {
            None
        } else {
            spec_parse_args(args.skip(2), SpecArgs { ext_raw: args[1], ..acc })
        }
    } else if args[0] == "--poll"@ {
        spec_parse_args(args.skip(1), SpecArgs { poll: true, ..acc })
    } else if args[0] == "--poll-interval"@ {
        if args.len() < 2 {
            None
        } else {
            match spec_flag_ms(args[1]) {
                Some(ms) => spec_parse_args(
                    args.skip(2),
                    SpecArgs { poll_interval_ms: ms, ..acc },
                ),
                None => None,
            }
        }
    } else if args[0] == "--debounce"@ {
        if args.len() < 2 {
            None
        } else {
            match spec_flag_ms(args[1]) {
                Some(ms) => spec_parse_args(args.skip(2), SpecArgs { debounce_ms: ms, ..acc }),
                None => None,
            }
        }
    } else if args[0].len() >= 2 && args[0][0] == '-' && args[0][1] == '-' {
        None
    } else {
        spec_parse_args(args.skip(1), SpecArgs { paths: acc.paths.push(args[0]), ..acc })
    }
}

/// The configuration a well-formed argument list denotes.
pub open spec fn spec_args_config(c: Config, s: SpecArgs) -> bool {
    &&& c.extensions.deep_view() == spec_parse_extensions(s.ext_raw)
    &&& c.poll == s.poll
    &&& c.poll_interval_ms == s.poll_interval_ms
    &&& c.debounce_ms == s.debounce_ms
    &&& c.paths.deep_view() == s.paths
}

/// Does `s` start with `--`?
fn is_flag_like(s: &str) -> (r: bool)
    ensures
        r == (s@.len() >= 2 && s@[0] == '-' && s@[1] == '-'),
{
    let n = s.unicode_len();
    n >= 2 && s.get_char(0) == '-' && s.get_char(1) == '-'
}

/// Turns an argument list into a configuration: flags set the extension
/// list, the detection mode, and the two durations; every other argument
/// is a root path, of which at least one is required. Whether each root
/// exists and is a directory is checked by the caller, which owns the
/// filesystem.
pub fn parse_args_from(args: &Vec<String>) -> (r: Result<Config, String>)
    ensures
        (r is Ok) == (spec_parse_args(args.deep_view(), spec_default_args()) matches Some(s)
            && s.paths.len() > 0),
        r matches Ok(c) ==> (spec_parse_args(args.deep_view(), spec_default_args()) matches Some(s)
            && spec_args_config(c, s)),
        r matches Ok(c) ==> c.well_formed(),
        (spec_parse_args(args.deep_view(), spec_default_args()) matches Some(s) && s.paths.len()
            == 0) ==> (r matches Err(m) && m@ == "at least one path argument is required"@),
{
    let ghost av = args.deep_view();
    let ghost s0 = spec_default_args();
    let mut ext_raw: String = String::from_str("php");
    let mut poll: bool = false;
    let mut poll_interval_ms: u64 = 500;
    let mut debounce_ms: u64 = 300;
    let mut paths: Vec<String> = Vec::new();

    proof {
        assert(paths.deep_view() =~= Seq::<Seq<char>>::empty());
        assert(av.skip(0) =~= av);
        assert(SpecArgs {
            ext_raw: ext_raw@,
            poll: poll,
            poll_interval_ms: poll_interval_ms as nat,
            debounce_ms: debounce_ms as nat,
            paths: paths.deep_view(),
        } == s0);
    }
    let n = args.len();
    let mut i: usize = 0;
    while i < n
        invariant
            av == args.deep_view(),
            s0 == spec_default_args(),
            n == args@.len(),
            av.len() == n,
            0 <= i <= n,
            spec_parse_args(
                av.skip(i as int),
                SpecArgs {
                    ext_raw: ext_raw@,
                    poll: poll,
                    poll_interval_ms: poll_interval_ms as nat,
                    debounce_ms: debounce_ms as nat,
                    paths: paths.deep_view(),
                },
            ) == spec_parse_args(av, s0),
        decreases n - i,
    {
        let ghost cur = SpecArgs {
            ext_raw: ext_raw@,
            poll: poll,
            poll_interval_ms: poll_interval_ms as nat,
            debounce_ms: debounce_ms as nat,
            paths: paths.deep_view(),
        };
        proof {
            assert(av.skip(i as int)[0] == av[i as int]);
            assert(av[i as int] == args@[i as int]@);
            assert(av.skip(i as int).skip(1) =~= av.skip(i + 1));
            if i + 2 <= n {
                assert(av.skip(i as int).skip(2) =~= av.skip(i + 2));
                assert(av.skip(i as int)[1] == av[i + 1]);
            }
        }
        let arg = &args[i];
        if str_eq(arg.as_str(), "--ext") {
            i += 1;
            if i >= n {
                return Err(String::from_str("--ext requires a value"));
            }
            ext_raw = args[i].clone();
        } else if str_eq(arg.as_str(), "--poll") {
            poll = true;
        } else if str_eq(arg.as_str(), "--poll-interval") {
            i += 1;
            if i >= n {
                return Err(String::from_str("--poll-interval requires a value"));
            }
            match parse_duration_str(args[i].as_str()) {
                Ok(v) => {
                    poll_interval_ms = v;
                },
                Err(e) => {
                    return Err(e);
                },
            }
        } else if str_eq(arg.as_str(), "--debounce") {
            i += 1;
            if i >= n {
                return Err(String::from_str("--debounce requires a value"));
            }
            match parse_duration_str(args[i].as_str()) {
                Ok(v) => {
                    debounce_ms = v;
                },
                Err(e) => {
                    return Err(e);
                },
            }
        } else if is_flag_like(arg.as_str()) {
            let mut msg = String::from_str("unknown flag: ");
            msg.append(arg.as_str());
            return Err(msg);
        } else {
            let ghost before = paths.deep_view();
            paths.push(arg.clone());
            proof {
                assert(paths.deep_view() =~= before.push(av[i as int]));
            }
        }
        i += 1;
    }
    proof {
        assert(av.skip(n as int).len() == 0);
    }
    if paths.len() == 0 {
        proof {
            assert(paths.deep_view() =~= Seq::<Seq<char>>::empty());
        }
        return Err(String::from_str("at least one path argument is required"));
    }
    proof {
        assert(paths.deep_view().len() == paths@.len());
    }
    Ok(
        Config {
            extensions: parse_extensions(ext_raw.as_str()),
            poll,
            poll_interval_ms,
            debounce_ms,
            paths,
        },
    )
}

} // verus!
