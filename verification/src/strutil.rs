//! Character-level string helpers.
//!
//! Paths travel through the library as `String`s. The functions here give
//! verified access to their characters: conversion to and from `Vec<char>`,
//! membership tests on string lists, decimal formatting and parsing, line
//! trimming, and the tab search used by the editor-output parser.

use vstd::prelude::*;

verus! {

/// The views of a sequence of strings.
pub open spec fn seq_views(s: Seq<String>) -> Seq<Seq<char>> {
    s.map(|i: int, p: String| p@)
}

/// The characters of a string, as a vector.
pub fn string_chars(s: &str) -> (r: Vec<char>)
    ensures
        r@ == s@,
{
    let n = s.unicode_len();
    let mut r: Vec<char> = Vec::new();
    let mut i: usize = 0;
    while i < n
        invariant
            n == s@.len(),
            i <= n,
            r@ == s@.take(i as int),
        decreases n - i,
    {
        let c = s.get_char(i);
        r.push(c);
        i = i + 1;
        proof {
            assert(r@ =~= s@.take(i as int));
        }
    }
    proof {
        assert(r@ =~= s@);
    }
    r
}

/// Relies on std's `FromIterator` impl for `String`: the built string holds
/// exactly the given characters, in order.
#[verifier::external_body]
pub(crate) fn string_from_chars(v: &Vec<char>) -> (r: String)
    ensures
        r@ == v@,
{
    v.iter().collect()
}

/// Whether the list contains a string with the same characters as `x`.
pub fn contains_string(v: &Vec<String>, x: &String) -> (r: bool)
    ensures
        r == seq_views(v@).contains(x@),
{
    let mut i: usize = 0;
    while i < v.len()
        invariant
            i <= v.len(),
            forall|k: int| 0 <= k < i ==> seq_views(v@)[k] != x@,
        decreases v.len() - i,
    {
        if v[i] == *x {
            assert(seq_views(v@)[i as int] == x@);
            return true;
        }
        i = i + 1;
    }
    false
}

/// Strict lexicographic order on character sequences, by code point.
pub open spec fn lex_lt(a: Seq<char>, b: Seq<char>) -> bool
    decreases a.len(),
{
    if b.len() == 0 {
        false
    } else if a.len() == 0 {
        true
    } else if a[0] != b[0] {
        (a[0] as u32) < (b[0] as u32)
    } else {
        lex_lt(a.drop_first(), b.drop_first())
    }
}

/// Dropping an equal prefix does not change the lexicographic comparison.
proof fn lemma_lex_lt_skip(a: Seq<char>, b: Seq<char>, i: int)
    requires
        0 <= i <= a.len(),
        i <= b.len(),
        forall|k: int| 0 <= k < i ==> a[k] == b[k],
    ensures
        lex_lt(a, b) == lex_lt(a.skip(i), b.skip(i)),
    decreases i,
{
    if i == 0 {
        assert(a.skip(0) =~= a);
        assert(b.skip(0) =~= b);
    } else {
        lemma_lex_lt_skip(a, b, i - 1);
        let a1 = a.skip(i - 1);
        let b1 = b.skip(i - 1);
        assert(a1.len() > 0);
        assert(b1.len() > 0);
        assert(a1[0] == a[i - 1]);
        assert(b1[0] == b[i - 1]);
        assert(a1[0] == b1[0]);
        assert(lex_lt(a1, b1) == lex_lt(a1.drop_first(), b1.drop_first()));
        assert(a1.drop_first() =~= a.skip(i));
        assert(b1.drop_first() =~= b.skip(i));
    }
}

/// Exactly one of `lex_lt(a, b)`, `a == b`, `lex_lt(b, a)` holds.
pub proof fn lemma_lex_trichotomy(a: Seq<char>, b: Seq<char>)
    ensures
        lex_lt(a, b) || lex_lt(b, a) || a == b,
        lex_lt(a, b) ==> !lex_lt(b, a) && a != b,
        lex_lt(b, a) ==> !lex_lt(a, b) && a != b,
    decreases a.len(),
{
    if a.len() == 0 && b.len() == 0 {
        assert(a =~= b);
    } else if a.len() == 0 {
        assert(lex_lt(a, b));
    } else if b.len() == 0 {
        assert(lex_lt(b, a));
    } else {
        if a[0] == b[0] {
            lemma_lex_trichotomy(a.drop_first(), b.drop_first());
            if a.drop_first() == b.drop_first() {
                assert forall|k: int| 0 <= k < a.len() implies a[k] == b[k] by {
                    if k > 0 {
                        assert(a[k] == a.drop_first()[k - 1]);
                        assert(b[k] == b.drop_first()[k - 1]);
                    }
                }
                assert(a =~= b);
            }
            if a == b {
                assert(a.drop_first() =~= b.drop_first());
            }
        } else {
            assert((a[0] as u32) != (b[0] as u32)) by {
                if (a[0] as u32) == (b[0] as u32) {
                    vstd::utf8::char_u32_cast(a[0], a[0] as u32);
                    vstd::utf8::char_u32_cast(b[0], b[0] as u32);
                }
            }
        }
    }
}

/// Lexicographic order is transitive.
pub proof fn lemma_lex_trans(a: Seq<char>, b: Seq<char>, c: Seq<char>)
    requires
        lex_lt(a, b),
        lex_lt(b, c),
    ensures
        lex_lt(a, c),
    decreases a.len(),
{
    if a.len() > 0 && b.len() > 0 && c.len() > 0 {
        if a[0] == b[0] && b[0] == c[0] {
            lemma_lex_trans(a.drop_first(), b.drop_first(), c.drop_first());
        } else {
            assert((a[0] as u32) <= (b[0] as u32));
            assert((b[0] as u32) <= (c[0] as u32));
        }
    }
}

/// Whether `a` comes strictly before `b` in lexicographic order.
pub fn str_lt(a: &String, b: &String) -> (r: bool)
    ensures
        r == lex_lt(a@, b@),
{
    let av = string_chars(a.as_str());
    let bv = string_chars(b.as_str());
    let an = av.len();
    let bn = bv.len();
    let mut i: usize = 0;
    loop
        invariant
            av@ == a@,
            bv@ == b@,
            an == av.len(),
            bn == bv.len(),
            i <= an,
            i <= bn,
            forall|k: int| 0 <= k < i ==> a@[k] == b@[k],
        decreases an - i,
    {
        proof {
            lemma_lex_lt_skip(a@, b@, i as int);
        }
        if i >= bn {
            return false;
        }
        if i >= an {
            return true;
        }
        let ca = av[i];
        let cb = bv[i];
        if ca != cb {
            return (ca as u32) < (cb as u32);
        }
        i = i + 1;
    }
}

/// The character of one decimal digit.
pub open spec fn char_of_digit(d: nat) -> char {
    if d == 0 {
        '0'
    } else if d == 1 {
        '1'
    } else if d == 2 {
        '2'
    } else if d == 3 {
        '3'
    } else if d == 4 {
        '4'
    } else if d == 5 {
        '5'
    } else if d == 6 {
        '6'
    } else if d == 7 {
        '7'
    } else if d == 8 {
        '8'
    } else {
        '9'
    }
}

/// The decimal digits of a number, most significant first.
pub open spec fn dec_digits(n: nat) -> Seq<char>
    decreases n,
{
    if n < 10 {
        seq![char_of_digit(n)]
    } else {
        dec_digits(n / 10).push(char_of_digit(n % 10))
    }
}

/// The character of one digit value below ten.
fn digit_char(d: usize) -> (c: char)
    requires
        d < 10,
    ensures
        c == char_of_digit(d as nat),
{
    if d == 0 {
        '0'
    } else if d == 1 {
        '1'
    } else if d == 2 {
        '2'
    } else if d == 3 {
        '3'
    } else if d == 4 {
        '4'
    } else if d == 5 {
        '5'
    } else if d == 6 {
        '6'
    } else if d == 7 {
        '7'
    } else if d == 8 {
        '8'
    } else {
        '9'
    }
}

/// Format a number as its decimal digits.
#[verifier::loop_isolation(false)]
pub fn fmt_usize(n: usize) -> (r: String)
    ensures
        r@ == dec_digits(n as nat),
{
    let mut digits: Vec<char> = Vec::new();
    let mut m = n;
    let mut done: bool = false;
    while !done
        invariant
            !done ==> dec_digits(n as nat) == dec_digits(m as nat) + digits@.reverse(),
            done ==> dec_digits(n as nat) == digits@.reverse(),
        decreases m, (if done { 0int } else { 1int }),
    {
        let ghost digits_pre = digits@;
        let d = m % 10;
        digits.push(digit_char(d));
        proof {
            assert(digits@.reverse() =~= seq![char_of_digit(d as nat)] + digits_pre.reverse());
        }
        if m < 10 {
            done = true;
            proof {
                assert(dec_digits(m as nat) == seq![char_of_digit(m as nat)]);
                assert(dec_digits(m as nat) + digits_pre.reverse() =~= digits@.reverse());
            }
        } else {
            proof {
                assert(dec_digits(m as nat) == dec_digits((m as nat) / 10).push(
                    char_of_digit((m as nat) % 10),
                ));
                assert(dec_digits((m as nat) / 10) + (seq![char_of_digit((m as nat) % 10)]
                    + digits_pre.reverse()) =~= dec_digits(m as nat) + digits_pre.reverse());
                assert((m as nat) / 10 == (m / 10) as nat);
            }
            m = m / 10;
        }
    }
    let mut out: Vec<char> = Vec::new();
    let k = digits.len();
    let mut i: usize = 0;
    while i < k
        invariant
            k == digits@.len(),
            i <= k,
            out@ == digits@.reverse().take(i as int),
        decreases k - i,
    {
        out.push(digits[k - 1 - i]);
        i = i + 1;
        proof {
            assert(out@ =~= digits@.reverse().take(i as int));
        }
    }
    proof {
        assert(digits@.reverse().take(k as int) =~= digits@.reverse());
    }
    string_from_chars(&out)
}

/// Whether the character is a decimal digit.
pub open spec fn is_digit_char(c: char) -> bool {
    ('0' as u32) <= (c as u32) && (c as u32) <= ('9' as u32)
}

/// The numeric value of a digit character.
pub open spec fn digit_val(c: char) -> int {
    (c as u32) - ('0' as u32)
}

/// The value of a digit string, most significant digit first.
pub open spec fn digits_value(s: Seq<char>) -> int
    decreases s.len(),
{
    if s.len() == 0 {
        0
    } else {
        digits_value(s.drop_last()) * 10 + digit_val(s.last())
    }
}

/// A digit-string value never shrinks along its prefixes.
proof fn lemma_digits_value_prefix(s: Seq<char>, i: int)
    requires
        0 <= i <= s.len(),
        forall|k: int| 0 <= k < s.len() ==> is_digit_char(#[trigger] s[k]),
    ensures
        digits_value(s.take(i)) <= digits_value(s),
        digits_value(s) >= 0,
    decreases s.len() - i,
{
    if i == s.len() {
        assert(s.take(i) =~= s);
        lemma_digits_value_nonneg(s);
    } else {
        lemma_digits_value_prefix(s, i + 1);
        assert(s.take(i + 1).drop_last() =~= s.take(i));
        assert(s.take(i + 1).last() == s[i]);
        lemma_digits_value_nonneg(s.take(i));
    }
}

/// A digit-string value is never negative.
proof fn lemma_digits_value_nonneg(s: Seq<char>)
    requires
        forall|k: int| 0 <= k < s.len() ==> is_digit_char(#[trigger] s[k]),
    ensures
        digits_value(s) >= 0,
    decreases s.len(),
{
    if s.len() > 0 {
        assert(forall|k: int| 0 <= k < s.drop_last().len() ==> is_digit_char(
            #[trigger] s.drop_last()[k],
        ));
        lemma_digits_value_nonneg(s.drop_last());
    }
}

/// The digit part of a number string: an optional leading `+` sign is
/// skipped.
pub open spec fn number_digits(s: Seq<char>) -> Seq<char> {
    if s.len() > 0 && s[0] == '+' {
        s.drop_first()
    } else {
        s
    }
}

/// Whether the string is a decimal number that fits the machine word: an
/// optional `+` sign, then at least one digit, nothing else, with a value
/// of at most `usize::MAX`.
pub open spec fn is_usize_string(s: Seq<char>) -> bool {
    let d = number_digits(s);
    &&& d.len() > 0
    &&& forall|k: int| 0 <= k < d.len() ==> is_digit_char(#[trigger] d[k])
    &&& digits_value(d) <= usize::MAX
}

/// The value of a number string.
pub open spec fn usize_string_value(s: Seq<char>) -> int {
    digits_value(number_digits(s))
}

/// Parse a decimal number, exactly as the library's number strings are
/// specified: an optional `+` sign, then digits, rejecting anything else
/// and values over `usize::MAX`.
#[verifier::loop_isolation(false)]
pub fn parse_usize(s: &String) -> (r: Option<usize>)
    ensures
        match r {
            Some(v) => is_usize_string(s@) && v == usize_string_value(s@),
            None => !is_usize_string(s@),
        },
{
    let chars = string_chars(s.as_str());
    let n = chars.len();
    let start: usize = if n > 0 && chars[0] == '+' {
        1
    } else {
        0
    };
    let ghost d = number_digits(s@);
    proof {
        if start == 1 {
            assert(d =~= s@.skip(1));
        } else {
            assert(d =~= s@);
        }
    }
    if start >= n {
        return None;
    }
    let mut acc: usize = 0;
    let mut i: usize = start;
    while i < n
        invariant
            start <= i <= n,
            forall|k: int| 0 <= k < i - start ==> is_digit_char(#[trigger] d[k]),
            acc == digits_value(d.take(i - start)),
        decreases n - i,
    {
        proof {
            assert(d.take(i - start + 1).drop_last() =~= d.take(i - start));
            assert(d.take(i - start + 1).last() == d[i - start]);
            assert(d[i - start] == s@[i as int]);
        }
        let c = chars[i];
        let cv = c as u32;
        if cv < 48 || cv > 57 {
            proof {
                assert(!is_digit_char(d[i - start]));
            }
            return None;
        }
        let dv = (cv - 48) as usize;
        proof {
            assert(dv == digit_val(d[i - start]));
            assert(dv < 10);
        }
        if acc > usize::MAX / 10 || (acc == usize::MAX / 10 && dv > usize::MAX % 10) {
            proof {
                assert(usize::MAX as int == (usize::MAX as int / 10) * 10 + (usize::MAX as int
                    % 10));
                assert(acc * 10 + dv > usize::MAX);
                assert(digits_value(d.take(i - start + 1)) > usize::MAX);
                if is_usize_string(s@) {
                    lemma_digits_value_prefix(d, i - start + 1);
                    assert(false);
                }
            }
            return None;
        }
        acc = acc * 10 + dv;
        i = i + 1;
    }
    proof {
        assert(d.take(n - start) =~= d);
    }
    Some(acc)
}

/// Whether the character counts as blank space when a line is trimmed.
pub open spec fn is_space_char(c: char) -> bool {
    c == ' ' || c == '\t' || c == '\n' || c == '\r'
}

/// The first index that is not blank space.
pub open spec fn trim_lo(s: Seq<char>) -> int
    decreases s.len(),
{
    if s.len() == 0 {
        0
    } else if !is_space_char(s[0]) {
        0
    } else {
        1 + trim_lo(s.drop_first())
    }
}

/// The index just past the last character that is not blank space.
pub open spec fn trim_hi(s: Seq<char>) -> int
    decreases s.len(),
{
    if s.len() == 0 {
        0
    } else if !is_space_char(s.last()) {
        s.len() as int
    } else {
        trim_hi(s.drop_last())
    }
}

/// The string with blank space removed from both ends.
pub open spec fn trim_spec(s: Seq<char>) -> Seq<char> {
    if trim_lo(s) < trim_hi(s) {
        s.subrange(trim_lo(s), trim_hi(s))
    } else {
        Seq::empty()
    }
}

proof fn lemma_trim_lo_bounds(s: Seq<char>)
    ensures
        0 <= trim_lo(s) <= s.len(),
        forall|k: int| 0 <= k < trim_lo(s) ==> is_space_char(#[trigger] s[k]),
        trim_lo(s) < s.len() ==> !is_space_char(s[trim_lo(s)]),
    decreases s.len(),
{
    if s.len() > 0 && is_space_char(s[0]) {
        lemma_trim_lo_bounds(s.drop_first());
        assert forall|k: int| 0 <= k < trim_lo(s) implies is_space_char(#[trigger] s[k]) by {
            if k > 0 {
                assert(s[k] == s.drop_first()[k - 1]);
            }
        }
        if trim_lo(s) < s.len() {
            assert(s[trim_lo(s)] == s.drop_first()[trim_lo(s.drop_first())]);
        }
    }
}

proof fn lemma_trim_hi_bounds(s: Seq<char>)
    ensures
        0 <= trim_hi(s) <= s.len(),
        forall|k: int| trim_hi(s) <= k < s.len() ==> is_space_char(#[trigger] s[k]),
        trim_hi(s) > 0 ==> !is_space_char(s[trim_hi(s) - 1]),
    decreases s.len(),
{
    if s.len() > 0 && is_space_char(s.last()) {
        lemma_trim_hi_bounds(s.drop_last());
        assert forall|k: int| trim_hi(s) <= k < s.len() implies is_space_char(#[trigger] s[k]) by {
            if k < s.len() - 1 {
                assert(s[k] == s.drop_last()[k]);
            }
        }
    }
}

/// Remove blank space from both ends of a line.
#[verifier::loop_isolation(false)]
pub fn trim_string(s: &String) -> (r: String)
    ensures
        r@ == trim_spec(s@),
{
    let chars = string_chars(s.as_str());
    let n = chars.len();
    proof {
        lemma_trim_lo_bounds(s@);
        lemma_trim_hi_bounds(s@);
    }
    let mut lo: usize = 0;
    while lo < n && is_space(chars[lo])
        invariant
            n == s@.len(),
            chars@ == s@,
            lo <= n,
            forall|k: int| 0 <= k < lo ==> is_space_char(#[trigger] s@[k]),
            lo <= trim_lo(s@),
        decreases n - lo,
    {
        proof {
            lemma_trim_lo_skip(s@, lo as int + 1);
        }
        lo = lo + 1;
    }
    proof {
        assert(lo == trim_lo(s@));
    }
    let mut hi: usize = n;
    while hi > lo && is_space(chars[hi - 1])
        invariant
            n == s@.len(),
            chars@ == s@,
            lo <= hi <= n,
            lo == trim_lo(s@),
            forall|k: int| hi <= k < n ==> is_space_char(#[trigger] s@[k]),
            trim_hi(s@) <= hi,
        decreases hi,
    {
        proof {
            lemma_trim_hi_skip(s@, hi as int - 1);
        }
        hi = hi - 1;
    }
    proof {
        if hi > lo {
            assert(!is_space_char(s@[hi - 1]));
            assert(hi == trim_hi(s@));
        } else {
            assert(trim_hi(s@) <= trim_lo(s@));
        }
    }
    let mut out: Vec<char> = Vec::new();
    let mut i: usize = lo;
    while i < hi
        invariant
            chars@ == s@,
            lo <= i <= hi <= n,
            n == s@.len(),
            out@ == s@.subrange(lo as int, i as int),
        decreases hi - i,
    {
        out.push(chars[i]);
        i = i + 1;
        proof {
            assert(out@ =~= s@.subrange(lo as int, i as int));
        }
    }
    string_from_chars(&out)
}

/// Whether the character counts as blank space.
fn is_space(c: char) -> (r: bool)
    ensures
        r == is_space_char(c),
{
    c == ' ' || c == '\t' || c == '\n' || c == '\r'
}

/// A prefix of blank space pushes the first non-space index past it.
proof fn lemma_trim_lo_skip(s: Seq<char>, i: int)
    requires
        0 <= i <= s.len(),
        forall|k: int| 0 <= k < i ==> is_space_char(#[trigger] s[k]),
    ensures
        trim_lo(s) >= i,
    decreases i,
{
    lemma_trim_lo_bounds(s);
    if i > 0 {
        assert(is_space_char(s[0]));
        assert forall|k: int| 0 <= k < i - 1 implies is_space_char(#[trigger] s.drop_first()[k]) by {
            assert(s.drop_first()[k] == s[k + 1]);
        }
        lemma_trim_lo_skip(s.drop_first(), i - 1);
    }
}

/// A suffix of blank space pulls the trim end before it.
proof fn lemma_trim_hi_skip(s: Seq<char>, i: int)
    requires
        0 <= i <= s.len(),
        forall|k: int| i <= k < s.len() ==> is_space_char(#[trigger] s[k]),
    ensures
        trim_hi(s) <= i,
    decreases s.len() - i,
{
    lemma_trim_hi_bounds(s);
    if i < s.len() {
        assert(is_space_char(s.last()));
        assert forall|k: int| i <= k < s.drop_last().len() implies is_space_char(
            #[trigger] s.drop_last()[k],
        ) by {
            assert(s.drop_last()[k] == s[k]);
        }
        lemma_trim_hi_skip(s.drop_last(), i);
    }
}

/// The index of the first tab character, if any.
pub open spec fn find_tab_spec(s: Seq<char>) -> Option<int>
    decreases s.len(),
{
    if s.len() == 0 {
        None
    } else if s[0] == '\t' {
        Some(0)
    } else {
        match find_tab_spec(s.drop_first()) {
            Some(i) => Some(i + 1),
            None => None,
        }
    }
}

/// The first tab index is in range, holds a tab, and nothing before it
/// does.
pub proof fn lemma_find_tab(s: Seq<char>)
    ensures
        match find_tab_spec(s) {
            Some(i) => 0 <= i < s.len() && s[i] == '\t' && (forall|k: int|
                0 <= k < i ==> s[k] != '\t'),
            None => forall|k: int| 0 <= k < s.len() ==> s[k] != '\t',
        },
    decreases s.len(),
{
    if s.len() > 0 && s[0] != '\t' {
        lemma_find_tab(s.drop_first());
        match find_tab_spec(s.drop_first()) {
            Some(i) => {
                assert(s[i + 1] == s.drop_first()[i]);
                assert forall|k: int| 0 <= k < i + 1 implies s[k] != '\t' by {
                    if k > 0 {
                        assert(s[k] == s.drop_first()[k - 1]);
                    }
                }
            },
            None => {
                assert forall|k: int| 0 <= k < s.len() implies s[k] != '\t' by {
                    if k > 0 {
                        assert(s[k] == s.drop_first()[k - 1]);
                    }
                }
            },
        }
    }
}

/// Find the first tab character of a line.
#[verifier::loop_isolation(false)]
pub fn find_tab(s: &String) -> (r: Option<usize>)
    ensures
        match r {
            Some(i) => find_tab_spec(s@) == Some(i as int),
            None => find_tab_spec(s@) is None,
        },
{
    let chars = string_chars(s.as_str());
    let n = chars.len();
    let mut i: usize = 0;
    proof {
        lemma_find_tab(s@);
    }
    while i < n
        invariant
            chars@ == s@,
            n == s@.len(),
            i <= n,
            forall|k: int| 0 <= k < i ==> s@[k] != '\t',
        decreases n - i,
    {
        if chars[i] == '\t' {
            proof {
                match find_tab_spec(s@) {
                    Some(j) => {
                        if j < i {
                            assert(s@[j] == '\t');
                        }
                        if j > i {
                            assert(s@[i as int] != '\t');
                        }
                    },
                    None => {
                        assert(s@[i as int] != '\t');
                    },
                }
            }
            return Some(i);
        }
        i = i + 1;
    }
    None
}

} // verus!
