//! The journal codec: serialize an ordered operation list to the journal's
//! JSON form, and read it back.
//!
//! The journal is the one bit-relevant external artifact of the tool: a
//! JSON object `{"date": "...", "operations": [{"source": "...",
//! "target": "..."}, ...]}`, written to a timestamped file and consumed by
//! the replay command. Reading and writing the file, and obtaining the
//! timestamp, happen outside the library; the exact text is produced and
//! parsed here. The parser accepts the two object keys in either order,
//! any blank space between tokens, and the standard string escapes; a
//! `\u` escape must denote a Unicode scalar value. The reader is proved
//! to decode every document the writer produces back to the exact
//! operation list ([`lemma_journal_round_trip`]).

use vstd::prelude::*;
use crate::solver::{op_pairs, Operation, Operations};
use crate::strutil::{string_chars, string_from_chars, char_of_digit};

verus! {

/// The character of one hexadecimal digit, lower case.
pub open spec fn hex_char(d: nat) -> char {
    if d < 10 {
        char_of_digit(d)
    } else if d == 10 {
        'a'
    } else if d == 11 {
        'b'
    } else if d == 12 {
        'c'
    } else if d == 13 {
        'd'
    } else if d == 14 {
        'e'
    } else {
        'f'
    }
}

/// The escaped form of one character inside a JSON string.
pub open spec fn esc_char(c: char) -> Seq<char> {
    if c == '"' {
        seq!['\\', '"']
    } else if c == '\\' {
        seq!['\\', '\\']
    } else if c == '\n' {
        seq!['\\', 'n']
    } else if c == '\r' {
        seq!['\\', 'r']
    } else if c == '\t' {
        seq!['\\', 't']
    } else if (c as u32) < 32 {
        seq!['\\', 'u', '0', '0', hex_char(((c as u32) / 16) as nat), hex_char(
            ((c as u32) % 16) as nat,
        )]
    } else {
        seq![c]
    }
}

/// The escaped body of a JSON string.
pub open spec fn json_escape(s: Seq<char>) -> Seq<char>
    decreases s.len(),
{
    if s.len() == 0 {
        Seq::empty()
    } else {
        json_escape(s.drop_last()) + esc_char(s.last())
    }
}

/// A JSON string literal: the escaped body in double quotes.
pub open spec fn json_string(s: Seq<char>) -> Seq<char> {
    seq!['"'] + json_escape(s) + seq!['"']
}

/// The JSON object of one operation.
pub open spec fn op_json(p: (Seq<char>, Seq<char>)) -> Seq<char> {
    "{\"source\":"@ + json_string(p.0) + ",\"target\":"@ + json_string(p.1) + "}"@
}

/// The comma-joined operation objects.
pub open spec fn ops_json(ps: Seq<(Seq<char>, Seq<char>)>) -> Seq<char>
    decreases ps.len(),
{
    if ps.len() == 0 {
        Seq::empty()
    } else if ps.len() == 1 {
        op_json(ps[0])
    } else {
        ops_json(ps.drop_last()) + ","@ + op_json(ps.last())
    }
}

/// The whole journal document.
pub open spec fn journal_json_spec(date: Seq<char>, ps: Seq<(Seq<char>, Seq<char>)>) -> Seq<
    char,
> {
    "{\"date\":"@ + json_string(date) + ",\"operations\":["@ + ops_json(ps) + "]}"@
}

/// Append the characters of a piece of text.
fn push_str_chars(out: &mut Vec<char>, s: &str)
    ensures
        final(out)@ == old(out)@ + s@,
{
    let n = s.unicode_len();
    let mut i: usize = 0;
    while i < n
        invariant
            n == s@.len(),
            i <= n,
            out@ == old(out)@ + s@.take(i as int),
        decreases n - i,
    {
        out.push(s.get_char(i));
        i = i + 1;
        proof {
            assert(out@ =~= old(out)@ + s@.take(i as int));
        }
    }
    proof {
        assert(old(out)@ + s@.take(n as int) =~= old(out)@ + s@);
    }
}

/// The character of one hexadecimal digit value.
fn hex_digit_char(d: u32) -> (c: char)
    requires
        d < 16,
    ensures
        c == hex_char(d as nat),
{
    if d == 0 {
        '0'
    } else if d == 1 {
        '1'
    } else if d == 2 {
        '2'
    } else if d == 3 {
        '3'
    } else if d == 4 {
        '4'
    } else if d == 5 {
        '5'
    } else if d == 6 {
        '6'
    } else if d == 7 {
        '7'
    } else if d == 8 {
        '8'
    } else if d == 9 {
        '9'
    } else if d == 10 {
        'a'
    } else if d == 11 {
        'b'
    } else if d == 12 {
        'c'
    } else if d == 13 {
        'd'
    } else if d == 14 {
        'e'
    } else {
        'f'
    }
}

/// Append a string as a JSON string literal, quotes and escapes included.
fn push_json_string(out: &mut Vec<char>, s: &String)
    ensures
        final(out)@ == old(out)@ + json_string(s@),
{
    out.push('"');
    let chars = string_chars(s.as_str());
    let ghost mid = out@;
    let mut i: usize = 0;
    proof {
        assert(json_escape(s@.take(0)) =~= Seq::<char>::empty());
        assert(mid + json_escape(s@.take(0)) =~= mid);
    }
    while i < chars.len()
        invariant
            chars@ == s@,
            i <= chars.len(),
            out@ == mid + json_escape(s@.take(i as int)),
        decreases chars.len() - i,
    {
        proof {
            assert(s@.take(i + 1).drop_last() =~= s@.take(i as int));
            assert(s@.take(i + 1).last() == s@[i as int]);
        }
        let ghost pre = out@;
        let c = chars[i];
        let cv = c as u32;
        if c == '"' {
            out.push('\\');
            out.push('"');
        } else if c == '\\' {
            out.push('\\');
            out.push('\\');
        } else if c == '\n' {
            out.push('\\');
            out.push('n');
        } else if c == '\r' {
            out.push('\\');
            out.push('r');
        } else if c == '\t' {
            out.push('\\');
            out.push('t');
        } else if cv < 32 {
            out.push('\\');
            out.push('u');
            out.push('0');
            out.push('0');
            out.push(hex_digit_char(cv / 16));
            out.push(hex_digit_char(cv % 16));
        } else {
            out.push(c);
        }
        proof {
            assert(out@ =~= pre + esc_char(s@[i as int]));
            assert(pre + esc_char(s@[i as int]) =~= mid + json_escape(s@.take(i + 1)));
        }
        i = i + 1;
    }
    out.push('"');
    proof {
        assert(s@.take(chars@.len() as int) =~= s@);
        assert(out@ =~= old(out)@ + json_string(s@));
    }
}

/// Serialize the journal document for the given date stamp and operation
/// list.
#[verifier::loop_isolation(false)]
pub fn journal_json(date: &String, operations: &Vec<Operation>) -> (r: String)
    ensures
        r@ == journal_json_spec(date@, op_pairs(operations@)),
{
    let ghost psv = op_pairs(operations@);
    let mut out: Vec<char> = Vec::new();
    push_str_chars(&mut out, "{\"date\":");
    push_json_string(&mut out, date);
    push_str_chars(&mut out, ",\"operations\":[");
    let ghost head = out@;
    let mut i: usize = 0;
    proof {
        assert(ops_json(psv.take(0)) =~= Seq::<char>::empty());
        assert(head + ops_json(psv.take(0)) =~= head);
    }
    while i < operations.len()
        invariant
            psv == op_pairs(operations@),
            i <= operations@.len(),
            out@ == head + ops_json(psv.take(i as int)),
        decreases operations@.len() - i,
    {
        proof {
            assert(psv.take(i + 1).drop_last() =~= psv.take(i as int));
            assert(psv.take(i + 1).last() == psv[i as int]);
        }
        let ghost pre = out@;
        if i > 0 {
            push_str_chars(&mut out, ",");
        }
        push_str_chars(&mut out, "{\"source\":");
        push_json_string(&mut out, &operations[i].source);
        push_str_chars(&mut out, ",\"target\":");
        push_json_string(&mut out, &operations[i].target);
        push_str_chars(&mut out, "}");
        proof {
            if i > 0 {
                assert(out@ =~= pre + ","@ + op_json(psv[i as int]));
                assert(pre + ","@ + op_json(psv[i as int]) =~= head + ops_json(psv.take(i + 1)));
            } else {
                assert(out@ =~= pre + op_json(psv[i as int]));
                assert(pre + op_json(psv[i as int]) =~= head + ops_json(psv.take(i + 1)));
            }
        }
        i = i + 1;
    }
    push_str_chars(&mut out, "]}");
    proof {
        assert(psv.take(operations@.len() as int) =~= psv);
        assert(out@ =~= journal_json_spec(date@, psv));
    }
    string_from_chars(&out)
}

/// Blank space between JSON tokens.
pub open spec fn is_json_ws(c: char) -> bool {
    c == ' ' || c == '\t' || c == '\n' || c == '\r'
}

/// The first index at or after `i` that holds no blank space.
pub open spec fn ws_end(s: Seq<char>, i: int) -> int
    decreases s.len() - i,
{
    if 0 <= i < s.len() && is_json_ws(s[i]) {
        ws_end(s, i + 1)
    } else {
        i
    }
}

proof fn lemma_ws_end_bounds(s: Seq<char>, i: int)
    requires
        0 <= i <= s.len(),
    ensures
        i <= ws_end(s, i) <= s.len(),
    decreases s.len() - i,
{
    if i < s.len() && is_json_ws(s[i]) {
        lemma_ws_end_bounds(s, i + 1);
    }
}

/// The value of a hexadecimal digit, or a negative number for any other
/// character.
pub open spec fn hex_val_of(c: char) -> int {
    let v = c as u32;
    if 48 <= v <= 57 {
        v - 48
    } else if 97 <= v <= 102 {
        v - 87
    } else if 65 <= v <= 70 {
        v - 55
    } else {
        -1
    }
}

/// The character denoted by a single-letter escape.
pub open spec fn unescape_char(c: char) -> Option<char> {
    if c == '"' {
        Some('"')
    } else if c == '\\' {
        Some('\\')
    } else if c == '/' {
        Some('/')
    } else if c == 'b' {
        Some('\u{0008}')
    } else if c == 'f' {
        Some('\u{000C}')
    } else if c == 'n' {
        Some('\n')
    } else if c == 'r' {
        Some('\r')
    } else if c == 't' {
        Some('\t')
    } else {
        None
    }
}

/// The body of a JSON string starting just after its opening quote: the
/// decoded characters and the index just past the closing quote. Raw
/// control characters are rejected, and a `\u` escape must denote a
/// Unicode scalar value.
pub open spec fn ps_str_body(s: Seq<char>, i: int) -> Option<(Seq<char>, int)>
    decreases s.len() - i,
{
    if !(0 <= i < s.len()) {
        None
    } else if s[i] == '"' {
        Some((Seq::empty(), i + 1))
    } else if s[i] == '\\' {
        if i + 1 < s.len() {
            let e = s[i + 1];
            if e == 'u' {
                if i + 5 < s.len() {
                    let h1 = hex_val_of(s[i + 2]);
                    let h2 = hex_val_of(s[i + 3]);
                    let h3 = hex_val_of(s[i + 4]);
                    let h4 = hex_val_of(s[i + 5]);
                    if h1 >= 0 && h2 >= 0 && h3 >= 0 && h4 >= 0 {
                        let v = h1 * 4096 + h2 * 256 + h3 * 16 + h4;
                        if v < 0xD800 || v >= 0xE000 {
                            match ps_str_body(s, i + 6) {
                                Some((r, j)) => Some((seq![((v as u32) as char)] + r, j)),
                                None => None,
                            }
                        } else {
                            None
                        }
                    } else {
                        None
                    }
                } else {
                    None
                }
            } else {
                match unescape_char(e) {
                    Some(u) => match ps_str_body(s, i + 2) {
                        Some((r, j)) => Some((seq![u] + r, j)),
                        None => None,
                    },
                    None => None,
                }
            }
        } else {
            None
        }
    } else if (s[i] as u32) < 32 {
        None
    } else {
        match ps_str_body(s, i + 1) {
            Some((r, j)) => Some((seq![s[i]] + r, j)),
            None => None,
        }
    }
}

/// A JSON string literal starting exactly at `i`.
pub open spec fn ps_string(s: Seq<char>, i: int) -> Option<(Seq<char>, int)> {
    if 0 <= i < s.len() && s[i] == '"' {
        ps_str_body(s, i + 1)
    } else {
        None
    }
}

/// One operation object: `{"source": ..., "target": ...}`, the two keys
/// in either order.
pub open spec fn ps_op(s: Seq<char>, i: int) -> Option<((Seq<char>, Seq<char>), int)> {
    let j = ws_end(s, i);
    if j < s.len() && s[j] == '{' {
        match ps_string(s, ws_end(s, j + 1)) {
            None => None,
            Some((key1, a)) => {
                let c1 = ws_end(s, a);
                if c1 < s.len() && s[c1] == ':' {
                    match ps_string(s, ws_end(s, c1 + 1)) {
                        None => None,
                        Some((val1, b)) => {
                            let comma = ws_end(s, b);
                            if comma < s.len() && s[comma] == ',' {
                                match ps_string(s, ws_end(s, comma + 1)) {
                                    None => None,
                                    Some((key2, c)) => {
                                        let c2 = ws_end(s, c);
                                        if c2 < s.len() && s[c2] == ':' {
                                            match ps_string(s, ws_end(s, c2 + 1)) {
                                                None => None,
                                                Some((val2, d)) => {
                                                    let close = ws_end(s, d);
                                                    if close < s.len() && s[close] == '}' {
                                                        if key1 == "source"@ && key2
                                                            == "target"@ {
                                                            Some(((val1, val2), close + 1))
                                                        } else if key1 == "target"@ && key2
                                                            == "source"@ {
                                                            Some(((val2, val1), close + 1))
                                                        } else {
                                                            None
                                                        }
                                                    } else {
                                                        None
                                                    }
                                                },
                                            }
                                        } else {
                                            None
                                        }
                                    },
                                }
                            } else {
                                None
                            }
                        },
                    }
                } else {
                    None
                }
            },
        }
    } else {
        None
    }
}

/// The remaining elements of the operations array, after one element was
/// read: either the closing bracket, or a comma and one more element. The
/// fuel bounds the recursion; the caller passes the text length, which no
/// element list can exceed.
pub open spec fn ps_more(s: Seq<char>, i: int, fuel: nat) -> Option<
    (Seq<(Seq<char>, Seq<char>)>, int),
>
    decreases fuel,
{
    let j = ws_end(s, i);
    if j < s.len() && s[j] == ']' {
        Some((Seq::empty(), j + 1))
    } else if j < s.len() && s[j] == ',' && fuel > 0 {
        match ps_op(s, j + 1) {
            None => None,
            Some((p, a)) => match ps_more(s, a, (fuel - 1) as nat) {
                None => None,
                Some((r, b)) => Some((seq![p] + r, b)),
            },
        }
    } else {
        None
    }
}

/// The operations array.
pub open spec fn ps_array(s: Seq<char>, i: int) -> Option<(Seq<(Seq<char>, Seq<char>)>, int)> {
    let j = ws_end(s, i);
    if j < s.len() && s[j] == '[' {
        let k = ws_end(s, j + 1);
        if k < s.len() && s[k] == ']' {
            Some((Seq::empty(), k + 1))
        } else {
            match ps_op(s, j + 1) {
                None => None,
                Some((p, a)) => match ps_more(s, a, s.len() as nat) {
                    None => None,
                    Some((r, b)) => Some((seq![p] + r, b)),
                },
            }
        }
    } else {
        None
    }
}

/// The whole journal document: an object holding a `date` string and an
/// `operations` array, the keys in either order, with nothing but blank
/// space after it.
pub open spec fn parse_journal_spec(s: Seq<char>) -> Option<Seq<(Seq<char>, Seq<char>)>> {
    let i0 = ws_end(s, 0);
    if i0 < s.len() && s[i0] == '{' {
        match ps_string(s, ws_end(s, i0 + 1)) {
            None => None,
            Some((key1, a)) => {
                let c1 = ws_end(s, a);
                if c1 < s.len() && s[c1] == ':' {
                    if key1 == "date"@ {
                        match ps_string(s, ws_end(s, c1 + 1)) {
                            None => None,
                            Some((_date, b)) => {
                                let comma = ws_end(s, b);
                                if comma < s.len() && s[comma] == ',' {
                                    match ps_string(s, ws_end(s, comma + 1)) {
                                        None => None,
                                        Some((key2, c)) => {
                                            let c2 = ws_end(s, c);
                                            if key2 == "operations"@ && c2 < s.len() && s[c2]
                                                == ':' {
                                                match ps_array(s, c2 + 1) {
                                                    None => None,
                                                    Some((ops, d)) => {
                                                        let close = ws_end(s, d);
                                                        if close < s.len() && s[close] == '}'
                                                            && ws_end(s, close + 1) == s.len() {
                                                            Some(ops)
                                                        } else {
                                                            None
                                                        }
                                                    },
                                                }
                                            } else {
                                                None
                                            }
                                        },
                                    }
                                } else {
                                    None
                                }
                            },
                        }
                    } else if key1 == "operations"@ {
                        match ps_array(s, c1 + 1) {
                            None => None,
                            Some((ops, b)) => {
                                let comma = ws_end(s, b);
                                if comma < s.len() && s[comma] == ',' {
                                    match ps_string(s, ws_end(s, comma + 1)) {
                                        None => None,
                                        Some((key2, c)) => {
                                            let c2 = ws_end(s, c);
                                            if key2 == "date"@ && c2 < s.len() && s[c2] == ':' {
                                                match ps_string(s, ws_end(s, c2 + 1)) {
                                                    None => None,
                                                    Some((_date, d)) => {
                                                        let close = ws_end(s, d);
                                                        if close < s.len() && s[close] == '}'
                                                            && ws_end(s, close + 1) == s.len() {
                                                            Some(ops)
                                                        } else {
                                                            None
                                                        }
                                                    },
                                                }
                                            } else {
                                                None
                                            }
                                        },
                                    }
                                } else {
                                    None
                                }
                            },
                        }
                    } else {
                        None
                    }
                } else {
                    None
                }
            },
        }
    } else {
        None
    }
}

/// Relies on `char::from_u32`: `Some` exactly for Unicode scalar values
/// (not a surrogate, at most 0x10FFFF), returning the character with that
/// code point.
#[verifier::external_body]
fn char_from_u32(v: u32) -> (r: Option<char>)
    ensures
        match r {
            Some(c) => (c as u32) == v,
            None => 0xD800 <= v && (v < 0xE000 || v > 0x10FFFF),
        },
{
    char::from_u32(v)
}

/// The value of a hexadecimal digit character.
fn e_hex_val(c: char) -> (r: Option<u32>)
    ensures
        match r {
            Some(v) => hex_val_of(c) == v && v < 16,
            None => hex_val_of(c) < 0,
        },
{
    let cv = c as u32;
    if 48 <= cv && cv <= 57 {
        Some(cv - 48)
    } else if 97 <= cv && cv <= 102 {
        Some(cv - 87)
    } else if 65 <= cv && cv <= 70 {
        Some(cv - 55)
    } else {
        None
    }
}

/// Skip blank space.
fn e_ws(chars: &Vec<char>, i: usize) -> (j: usize)
    requires
        i <= chars@.len(),
    ensures
        j as int == ws_end(chars@, i as int),
        i <= j <= chars@.len(),
{
    let mut k = i;
    while k < chars.len() && (chars[k] == ' ' || chars[k] == '\t' || chars[k] == '\n'
        || chars[k] == '\r')
        invariant
            i <= k <= chars@.len(),
            ws_end(chars@, i as int) == ws_end(chars@, k as int),
        decreases chars@.len() - k,
    {
        k = k + 1;
    }
    k
}

/// Decode a JSON string body, from just after the opening quote to just
/// past the closing one.
fn e_str_body(chars: &Vec<char>, i: usize) -> (r: Option<(Vec<char>, usize)>)
    requires
        i <= chars@.len(),
    ensures
        match r {
            Some((v, j)) => ps_str_body(chars@, i as int) == Some((v@, j as int)) && i < j
                <= chars@.len(),
            None => ps_str_body(chars@, i as int) is None,
        },
    decreases chars@.len() - i,
{
    if i >= chars.len() {
        return None;
    }
    let c = chars[i];
    if c == '"' {
        let empty: Vec<char> = Vec::new();
        proof {
            assert(empty@ =~= Seq::<char>::empty());
        }
        return Some((empty, i + 1));
    }
    if c == '\\' {
        if i + 1 >= chars.len() {
            return None;
        }
        let e = chars[i + 1];
        if e == 'u' {
            if chars.len() - i <= 5 {
                return None;
            }
            let h1 = match e_hex_val(chars[i + 2]) {
                Some(v) => v,
                None => {
                    return None;
                },
            };
            let h2 = match e_hex_val(chars[i + 3]) {
                Some(v) => v,
                None => {
                    return None;
                },
            };
            let h3 = match e_hex_val(chars[i + 4]) {
                Some(v) => v,
                None => {
                    return None;
                },
            };
            let h4 = match e_hex_val(chars[i + 5]) {
                Some(v) => v,
                None => {
                    return None;
                },
            };
            let v: u32 = h1 * 4096 + h2 * 256 + h3 * 16 + h4;
            if !(v < 0xD800 || v >= 0xE000) {
                return None;
            }
            let decoded = match char_from_u32(v) {
                Some(d) => d,
                None => {
                    proof {
                        assert(false);
                    }
                    unreached()
                },
            };
            proof {
                vstd::utf8::char_u32_cast(decoded, v);
            }
            match e_str_body(chars, i + 6) {
                None => None,
                Some((mut rest, j)) => {
                    let ghost restv = rest@;
                    let mut out: Vec<char> = Vec::new();
                    out.push(decoded);
                    out.append(&mut rest);
                    proof {
                        assert(out@ =~= seq![decoded] + restv);
                    }
                    Some((out, j))
                },
            }
        } else {
            let u = if e == '"' {
                '"'
            } else if e == '\\' {
                '\\'
            } else if e == '/' {
                '/'
            } else if e == 'b' {
                '\u{0008}'
            } else if e == 'f' {
                '\u{000C}'
            } else if e == 'n' {
                '\n'
            } else if e == 'r' {
                '\r'
            } else if e == 't' {
                '\t'
            } else {
                return None;
            };
            proof {
                assert(unescape_char(chars@[i as int + 1]) == Some(u));
            }
            match e_str_body(chars, i + 2) {
                None => None,
                Some((mut rest, j)) => {
                    let ghost restv = rest@;
                    let mut out: Vec<char> = Vec::new();
                    out.push(u);
                    out.append(&mut rest);
                    proof {
                        assert(out@ =~= seq![u] + restv);
                    }
                    Some((out, j))
                },
            }
        }
    } else {
        let cv = c as u32;
        if cv < 32 {
            return None;
        }
        match e_str_body(chars, i + 1) {
            None => None,
            Some((mut rest, j)) => {
                let ghost restv = rest@;
                let mut out: Vec<char> = Vec::new();
                out.push(c);
                out.append(&mut rest);
                proof {
                    assert(out@ =~= seq![chars@[i as int]] + restv);
                }
                Some((out, j))
            },
        }
    }
}

/// Read a JSON string literal starting exactly at `i`.
fn e_string(chars: &Vec<char>, i: usize) -> (r: Option<(Vec<char>, usize)>)
    requires
        i <= chars@.len(),
    ensures
        match r {
            Some((v, j)) => ps_string(chars@, i as int) == Some((v@, j as int)) && i < j
                <= chars@.len(),
            None => ps_string(chars@, i as int) is None,
        },
{
    if i < chars.len() && chars[i] == '"' {
        e_str_body(chars, i + 1)
    } else {
        None
    }
}

/// Whether the characters spell exactly the given text.
fn chars_eq(v: &Vec<char>, s: &str) -> (r: bool)
    ensures
        r == (v@ == s@),
{
    let n = s.unicode_len();
    if v.len() != n {
        return false;
    }
    let mut i: usize = 0;
    while i < n
        invariant
            n == s@.len(),
            v@.len() == n,
            i <= n,
            forall|k: int| 0 <= k < i ==> v@[k] == s@[k],
        decreases n - i,
    {
        if v[i] != s.get_char(i) {
            return false;
        }
        i = i + 1;
    }
    proof {
        assert(v@ =~= s@);
    }
    true
}

/// Read one operation object.
fn e_op(chars: &Vec<char>, i: usize) -> (r: Option<((String, String), usize)>)
    requires
        i <= chars@.len(),
    ensures
        match r {
            Some(((src, tgt), j)) => ps_op(chars@, i as int) == Some(
                ((src@, tgt@), j as int),
            ) && i <= j <= chars@.len(),
            None => ps_op(chars@, i as int) is None,
        },
{
    let j = e_ws(chars, i);
    if !(j < chars.len() && chars[j] == '{') {
        return None;
    }
    let k1 = e_ws(chars, j + 1);
    let (key1, a) = match e_string(chars, k1) {
        Some(x) => x,
        None => {
            return None;
        },
    };
    let c1 = e_ws(chars, a);
    if !(c1 < chars.len() && chars[c1] == ':') {
        return None;
    }
    let v1s = e_ws(chars, c1 + 1);
    let (val1, b) = match e_string(chars, v1s) {
        Some(x) => x,
        None => {
            return None;
        },
    };
    let comma = e_ws(chars, b);
    if !(comma < chars.len() && chars[comma] == ',') {
        return None;
    }
    let k2s = e_ws(chars, comma + 1);
    let (key2, c) = match e_string(chars, k2s) {
        Some(x) => x,
        None => {
            return None;
        },
    };
    let c2 = e_ws(chars, c);
    if !(c2 < chars.len() && chars[c2] == ':') {
        return None;
    }
    let v2s = e_ws(chars, c2 + 1);
    let (val2, d) = match e_string(chars, v2s) {
        Some(x) => x,
        None => {
            return None;
        },
    };
    let close = e_ws(chars, d);
    if !(close < chars.len() && chars[close] == '}') {
        return None;
    }
    if chars_eq(&key1, "source") && chars_eq(&key2, "target") {
        Some(((string_from_chars(&val1), string_from_chars(&val2)), close + 1))
    } else if chars_eq(&key1, "target") && chars_eq(&key2, "source") {
        Some(((string_from_chars(&val2), string_from_chars(&val1)), close + 1))
    } else {
        None
    }
}

/// Read the rest of the operations array, one comma-led element at a
/// time.
fn e_more(chars: &Vec<char>, i: usize, fuel: usize) -> (r: Option<(Vec<Operation>, usize)>)
    requires
        i <= chars@.len(),
    ensures
        match r {
            Some((v, j)) => ps_more(chars@, i as int, fuel as nat) == Some(
                (op_pairs(v@), j as int),
            ) && j <= chars@.len(),
            None => ps_more(chars@, i as int, fuel as nat) is None,
        },
    decreases fuel,
{
    let j = e_ws(chars, i);
    if j < chars.len() && chars[j] == ']' {
        let empty: Vec<Operation> = Vec::new();
        proof {
            assert(op_pairs(empty@) =~= Seq::<(Seq<char>, Seq<char>)>::empty());
        }
        return Some((empty, j + 1));
    }
    if !(j < chars.len() && chars[j] == ',' && fuel > 0) {
        return None;
    }
    let ((src, tgt), a) = match e_op(chars, j + 1) {
        Some(x) => x,
        None => {
            return None;
        },
    };
    match e_more(chars, a, fuel - 1) {
        None => None,
        Some((mut rest, b)) => {
            let ghost restv = op_pairs(rest@);
            let mut out: Vec<Operation> = Vec::new();
            out.push(Operation { source: src, target: tgt });
            out.append(&mut rest);
            proof {
                assert(op_pairs(out@) =~= seq![(out@[0].source@, out@[0].target@)] + restv);
            }
            Some((out, b))
        },
    }
}

/// Read the operations array.
fn e_array(chars: &Vec<char>, i: usize) -> (r: Option<(Vec<Operation>, usize)>)
    requires
        i <= chars@.len(),
    ensures
        match r {
            Some((v, j)) => ps_array(chars@, i as int) == Some((op_pairs(v@), j as int)) && j
                <= chars@.len(),
            None => ps_array(chars@, i as int) is None,
        },
{
    let j = e_ws(chars, i);
    if !(j < chars.len() && chars[j] == '[') {
        return None;
    }
    let k = e_ws(chars, j + 1);
    if k < chars.len() && chars[k] == ']' {
        let empty: Vec<Operation> = Vec::new();
        proof {
            assert(op_pairs(empty@) =~= Seq::<(Seq<char>, Seq<char>)>::empty());
        }
        return Some((empty, k + 1));
    }
    let ((src, tgt), a) = match e_op(chars, j + 1) {
        Some(x) => x,
        None => {
            return None;
        },
    };
    match e_more(chars, a, chars.len()) {
        None => None,
        Some((mut rest, b)) => {
            let ghost restv = op_pairs(rest@);
            let mut out: Vec<Operation> = Vec::new();
            out.push(Operation { source: src, target: tgt });
            out.append(&mut rest);
            proof {
                assert(op_pairs(out@) =~= seq![(out@[0].source@, out@[0].target@)] + restv);
            }
            Some((out, b))
        },
    }
}

/// Parse a journal document and return its operations, or nothing when
/// the text is not a well-formed journal.
pub fn parse_journal(text: &String) -> (r: Option<Operations>)
    ensures
        match r {
            Some(ops) => parse_journal_spec(text@) == Some(op_pairs(ops@)),
            None => parse_journal_spec(text@) is None,
        },
{
    let chars = string_chars(text.as_str());
    let i0 = e_ws(&chars, 0);
    if !(i0 < chars.len() && chars[i0] == '{') {
        return None;
    }
    let k1 = e_ws(&chars, i0 + 1);
    let (key1, a) = match e_string(&chars, k1) {
        Some(x) => x,
        None => {
            return None;
        },
    };
    let c1 = e_ws(&chars, a);
    if !(c1 < chars.len() && chars[c1] == ':') {
        return None;
    }
    if chars_eq(&key1, "date") {
        let v1s = e_ws(&chars, c1 + 1);
        let (_date, b) = match e_string(&chars, v1s) {
            Some(x) => x,
            None => {
                return None;
            },
        };
        let comma = e_ws(&chars, b);
        if !(comma < chars.len() && chars[comma] == ',') {
            return None;
        }
        let k2s = e_ws(&chars, comma + 1);
        let (key2, c) = match e_string(&chars, k2s) {
            Some(x) => x,
            None => {
                return None;
            },
        };
        let c2 = e_ws(&chars, c);
        if !(chars_eq(&key2, "operations") && c2 < chars.len() && chars[c2] == ':') {
            return None;
        }
        let (ops, d) = match e_array(&chars, c2 + 1) {
            Some(x) => x,
            None => {
                return None;
            },
        };
        let close = e_ws(&chars, d);
        if !(close < chars.len() && chars[close] == '}') {
            return None;
        }
        let fin = e_ws(&chars, close + 1);
        if fin != chars.len() {
            return None;
        }
        Some(ops)
    } else if chars_eq(&key1, "operations") {
        let (ops, b) = match e_array(&chars, c1 + 1) {
            Some(x) => x,
            None => {
                return None;
            },
        };
        let comma = e_ws(&chars, b);
        if !(comma < chars.len() && chars[comma] == ',') {
            return None;
        }
        let k2s = e_ws(&chars, comma + 1);
        let (key2, c) = match e_string(&chars, k2s) {
            Some(x) => x,
            None => {
                return None;
            },
        };
        let c2 = e_ws(&chars, c);
        if !(chars_eq(&key2, "date") && c2 < chars.len() && chars[c2] == ':') {
            return None;
        }
        let v2s = e_ws(&chars, c2 + 1);
        let (_date, d) = match e_string(&chars, v2s) {
            Some(x) => x,
            None => {
                return None;
            },
        };
        let close = e_ws(&chars, d);
        if !(close < chars.len() && chars[close] == '}') {
            return None;
        }
        let fin = e_ws(&chars, close + 1);
        if fin != chars.len() {
            return None;
        }
        Some(ops)
    } else {
        None
    }
}

/// Escaping distributes over concatenation.
proof fn lemma_json_escape_concat(a: Seq<char>, b: Seq<char>)
    ensures
        json_escape(a + b) == json_escape(a) + json_escape(b),
    decreases b.len(),
{
    if b.len() == 0 {
        assert(a + b =~= a);
        assert(json_escape(a) + json_escape(b) =~= json_escape(a));
    } else {
        lemma_json_escape_concat(a, b.drop_last());
        assert((a + b).drop_last() =~= a + b.drop_last());
        assert((a + b).last() == b.last());
        assert(json_escape(a) + (json_escape(b.drop_last()) + esc_char(b.last())) =~= json_escape(
            a,
        ) + json_escape(b));
    }
}

/// Escaping a string starts with the escape of its first character.
proof fn lemma_json_escape_front(s: Seq<char>)
    requires
        s.len() > 0,
    ensures
        json_escape(s) == esc_char(s[0]) + json_escape(s.drop_first()),
{
    let one = seq![s[0]];
    assert(s =~= one + s.drop_first());
    lemma_json_escape_concat(one, s.drop_first());
    assert(one.drop_last() =~= Seq::<char>::empty());
    assert(json_escape(Seq::<char>::empty()) + esc_char(s[0]) =~= esc_char(s[0]));
    assert(json_escape(one) == esc_char(s[0]));
}

/// A hexadecimal digit written by the escaper reads back as its value.
proof fn lemma_hex_round(d: nat)
    requires
        d < 16,
    ensures
        hex_val_of(hex_char(d)) == d,
{
}

/// Escape round-trip: the reader decodes an escaped string back to the
/// original characters, up to the closing quote, whatever follows it.
#[verifier::rlimit(100)]
pub proof fn lemma_escape_round_trip(w: Seq<char>, i: int, s: Seq<char>)
    requires
        0 <= i,
        i + json_escape(s).len() + 1 <= w.len(),
        w.subrange(i, i + json_escape(s).len()) == json_escape(s),
        w[i + json_escape(s).len()] == '"',
    ensures
        ps_str_body(w, i) == Some((s, i + json_escape(s).len() + 1)),
    decreases s.len(),
{
    if s.len() == 0 {
        assert(json_escape(s).len() == 0);
        assert(w[i] == '"');
    } else {
        lemma_json_escape_front(s);
        let c = s[0];
        let e = esc_char(c);
        let rest = s.drop_first();
        let el = e.len() as int;
        let rl = json_escape(rest).len() as int;
        assert(json_escape(s).len() == el + rl);
        assert forall|k: int| 0 <= k < el implies w[i + k] == e[k] by {
            assert(w.subrange(i, i + el + rl)[k] == w[i + k]);
            assert((e + json_escape(rest))[k] == e[k]);
        }
        assert forall|k: int| 0 <= k < rl implies w[i + el + k] == json_escape(rest)[k] by {
            assert(w.subrange(i, i + el + rl)[el + k] == w[i + el + k]);
            assert((e + json_escape(rest))[el + k] == json_escape(rest)[k]);
        }
        assert(w.subrange(i + el, i + el + rl) =~= json_escape(rest));
        assert(w[i + el + rl] == '"');
        lemma_escape_round_trip(w, i + el, rest);
        assert(ps_str_body(w, i + el) == Some((rest, i + el + rl + 1)));
        let cv = c as u32;
        if c == '"' {
            assert(e == seq!['\\', '"']);
            assert(w[i] == '\\' && w[i + 1] == '"');
            assert(unescape_char(w[i + 1]) == Some('"'));
            assert(seq![c] + rest =~= s);
        } else if c == '\\' {
            assert(e == seq!['\\', '\\']);
            assert(w[i] == '\\' && w[i + 1] == '\\');
            assert(unescape_char(w[i + 1]) == Some('\\'));
            assert(seq![c] + rest =~= s);
        } else if c == '\n' {
            assert(e == seq!['\\', 'n']);
            assert(w[i] == '\\' && w[i + 1] == 'n');
            assert(unescape_char(w[i + 1]) == Some('\n'));
            assert(seq![c] + rest =~= s);
        } else if c == '\r' {
            assert(e == seq!['\\', 'r']);
            assert(unescape_char(w[i + 1]) == Some('\r'));
            assert(seq![c] + rest =~= s);
        } else if c == '\t' {
            assert(e == seq!['\\', 't']);
            assert(unescape_char(w[i + 1]) == Some('\t'));
            assert(seq![c] + rest =~= s);
        } else if cv < 32 {
            let hi = (cv / 16) as nat;
            let lo = (cv % 16) as nat;
            assert(e == seq!['\\', 'u', '0', '0', hex_char(hi), hex_char(lo)]);
            assert(w[i] == '\\' && w[i + 1] == 'u');
            assert(w[i + 2] == '0' && w[i + 3] == '0');
            assert(w[i + 4] == hex_char(hi) && w[i + 5] == hex_char(lo));
            lemma_hex_round(hi);
            lemma_hex_round(lo);
            assert(hex_val_of('0') == 0);
            let v = hex_val_of(w[i + 2]) * 4096 + hex_val_of(w[i + 3]) * 256 + hex_val_of(
                w[i + 4],
            ) * 16 + hex_val_of(w[i + 5]);
            assert(v == hi * 16 + lo);
            assert(v == cv);
            assert(v < 0xD800);
            vstd::utf8::char_u32_cast(c, cv);
            assert(((v as u32) as char) == c);
            assert(seq![c] + rest =~= s);
        } else {
            assert(e == seq![c]);
            assert(e[0] == c);
            assert(w[i + 0] == e[0]);
            assert(w[i] == c);
            assert(seq![c] + rest =~= s);
        }
    }
}

/// Characters that the escaper passes through unchanged.
pub open spec fn plain_chars(s: Seq<char>) -> bool {
    forall|k: int|
        0 <= k < s.len() ==> (#[trigger] s[k]) != '"' && s[k] != '\\' && (s[k] as u32) >= 32
}

/// Escaping changes nothing on plain characters.
proof fn lemma_escape_plain(s: Seq<char>)
    requires
        plain_chars(s),
    ensures
        json_escape(s) == s,
    decreases s.len(),
{
    if s.len() > 0 {
        assert forall|k: int|
            0 <= k < s.drop_last().len() implies (#[trigger] s.drop_last()[k]) != '"'
            && s.drop_last()[k] != '\\' && (s.drop_last()[k] as u32) >= 32 by {
            assert(s.drop_last()[k] == s[k]);
        }
        lemma_escape_plain(s.drop_last());
        assert(esc_char(s.last()) == seq![s.last()]);
        assert(s.drop_last() + seq![s.last()] =~= s);
    }
}

/// String round-trip: the reader decodes a written string literal back to
/// the original characters, whatever follows it.
pub proof fn lemma_string_round_trip(w: Seq<char>, i: int, s: Seq<char>)
    requires
        0 <= i,
        i + json_string(s).len() <= w.len(),
        w.subrange(i, i + json_string(s).len()) == json_string(s),
    ensures
        ps_string(w, i) == Some((s, i + json_string(s).len())),
{
    let el = json_escape(s).len() as int;
    let js = json_string(s);
    assert(js.len() == el + 2);
    assert forall|k: int| 0 <= k < el + 2 implies w[i + k] == js[k] by {
        assert(w.subrange(i, i + el + 2)[k] == w[i + k]);
    }
    assert(js[0] == '"');
    assert(w[i + 0] == js[0]);
    assert(w[i] == '"');
    assert forall|k: int| 0 <= k < el implies w[i + 1 + k] == json_escape(s)[k] by {
        assert(js[1 + k] == (seq!['"'] + json_escape(s))[1 + k]);
        assert(js[1 + k] == json_escape(s)[k]);
        assert(w[i + (1 + k)] == js[1 + k]);
    }
    assert(w.subrange(i + 1, i + 1 + el) =~= json_escape(s));
    assert(js[1 + el] == '"');
    assert(w[i + (1 + el)] == js[1 + el]);
    lemma_escape_round_trip(w, i + 1, s);
}

/// Operation round-trip: the reader decodes a written operation object
/// back to its pair, whatever follows it.
#[verifier::rlimit(100)]
proof fn lemma_op_round_trip(w: Seq<char>, i: int, p: (Seq<char>, Seq<char>))
    requires
        0 <= i,
        i + op_json(p).len() <= w.len(),
        w.subrange(i, i + op_json(p).len()) == op_json(p),
    ensures
        ps_op(w, i) == Some((p, i + op_json(p).len())),
{
    reveal_strlit("{\"source\":");
    reveal_strlit(",\"target\":");
    reveal_strlit("}");
    reveal_strlit("source");
    reveal_strlit("target");
    assert(plain_chars("source"@));
    assert(plain_chars("target"@));
    lemma_escape_plain("source"@);
    lemma_escape_plain("target"@);
    let ks = json_string("source"@);
    let kt = json_string("target"@);
    assert(ks.len() == 8);
    assert(kt.len() == 8);
    let js0 = json_string(p.0);
    let js1 = json_string(p.1);
    let l0 = js0.len() as int;
    let l1 = js1.len() as int;
    let oj = op_json(p);
    let e = seq!['{'] + ks + seq![':'] + js0 + seq![','] + kt + seq![':'] + js1 + seq!['}'];
    assert(oj =~= e);
    assert(oj.len() == 21 + l0 + l1);
    assert forall|k: int| 0 <= k < oj.len() implies w[i + k] == oj[k] by {
        assert(w.subrange(i, i + oj.len())[k] == w[i + k]);
    }
    assert(w[i + 0] == oj[0]);
    assert(w[i] == '{');
    assert forall|k: int| 0 <= k < 8 implies w[i + 1 + k] == ks[k] by {
        assert(oj[1 + k] == ks[k]);
        assert(w[i + (1 + k)] == oj[1 + k]);
    }
    assert(w.subrange(i + 1, i + 9) =~= ks);
    assert(oj[9] == ':');
    assert(w[i + 9] == ':');
    assert forall|k: int| 0 <= k < l0 implies w[i + 10 + k] == js0[k] by {
        assert(oj[10 + k] == js0[k]);
        assert(w[i + (10 + k)] == oj[10 + k]);
    }
    assert(w.subrange(i + 10, i + 10 + l0) =~= js0);
    assert(oj[10 + l0] == ',');
    assert(w[i + (10 + l0)] == oj[10 + l0]);
    assert forall|k: int| 0 <= k < 8 implies w[i + 11 + l0 + k] == kt[k] by {
        assert(oj[11 + l0 + k] == kt[k]);
        assert(w[i + (11 + l0 + k)] == oj[11 + l0 + k]);
    }
    assert(w.subrange(i + 11 + l0, i + 19 + l0) =~= kt);
    assert(oj[19 + l0] == ':');
    assert(w[i + (19 + l0)] == oj[19 + l0]);
    assert forall|k: int| 0 <= k < l1 implies w[i + 20 + l0 + k] == js1[k] by {
        assert(oj[20 + l0 + k] == js1[k]);
        assert(w[i + (20 + l0 + k)] == oj[20 + l0 + k]);
    }
    assert(w.subrange(i + 20 + l0, i + 20 + l0 + l1) =~= js1);
    assert(oj[20 + l0 + l1] == '}');
    assert(w[i + (20 + l0 + l1)] == oj[20 + l0 + l1]);

    // Walk the parser over the object, token by token.
    assert(!is_json_ws(w[i]));
    assert(ws_end(w, i) == i);
    assert(ks[0] == '"');
    assert(w[i + 1 + 0] == ks[0]);
    assert(!is_json_ws(w[i + 1]));
    assert(ws_end(w, i + 1) == i + 1);
    lemma_string_round_trip(w, i + 1, "source"@);
    assert(ps_string(w, i + 1) == Some(("source"@, i + 9)));
    assert(!is_json_ws(w[i + 9]));
    assert(ws_end(w, i + 9) == i + 9);
    assert(js0[0] == '"');
    assert(w[i + 10 + 0] == js0[0]);
    assert(!is_json_ws(w[i + 10]));
    assert(ws_end(w, i + 10) == i + 10);
    lemma_string_round_trip(w, i + 10, p.0);
    assert(ps_string(w, i + 10) == Some((p.0, i + 10 + l0)));
    assert(!is_json_ws(w[i + 10 + l0]));
    assert(ws_end(w, i + 10 + l0) == i + 10 + l0);
    assert(kt[0] == '"');
    assert(w[i + 11 + l0 + 0] == kt[0]);
    assert(!is_json_ws(w[i + 11 + l0]));
    assert(ws_end(w, i + 11 + l0) == i + 11 + l0);
    lemma_string_round_trip(w, i + 11 + l0, "target"@);
    assert(ps_string(w, i + 11 + l0) == Some(("target"@, i + 19 + l0)));
    assert(!is_json_ws(w[i + 19 + l0]));
    assert(ws_end(w, i + 19 + l0) == i + 19 + l0);
    assert(js1[0] == '"');
    assert(w[i + 20 + l0 + 0] == js1[0]);
    assert(!is_json_ws(w[i + 20 + l0]));
    assert(ws_end(w, i + 20 + l0) == i + 20 + l0);
    lemma_string_round_trip(w, i + 20 + l0, p.1);
    assert(ps_string(w, i + 20 + l0) == Some((p.1, i + 20 + l0 + l1)));
    assert(!is_json_ws(w[i + 20 + l0 + l1]));
    assert(ws_end(w, i + 20 + l0 + l1) == i + 20 + l0 + l1);
    assert("source"@ != "target"@) by {
        assert("source"@[0] == 's');
        assert("target"@[0] == 't');
    }
    assert(ps_op(w, i) == Some((p, i + 21 + l0 + l1)));
}

/// The comma-led continuation of an operations array.
spec fn comma_join(qs: Seq<(Seq<char>, Seq<char>)>) -> Seq<char>
    decreases qs.len(),
{
    if qs.len() == 0 {
        Seq::empty()
    } else {
        seq![','] + op_json(qs[0]) + comma_join(qs.drop_first())
    }
}

/// The continuation holds at least one character per element.
proof fn lemma_comma_join_len(qs: Seq<(Seq<char>, Seq<char>)>)
    ensures
        comma_join(qs).len() >= qs.len(),
    decreases qs.len(),
{
    if qs.len() > 0 {
        lemma_comma_join_len(qs.drop_first());
    }
}

/// Appending one element extends the continuation by a comma and the
/// element.
proof fn lemma_comma_join_snoc(qs: Seq<(Seq<char>, Seq<char>)>, q: (Seq<char>, Seq<char>))
    ensures
        comma_join(qs.push(q)) == comma_join(qs) + seq![','] + op_json(q),
    decreases qs.len(),
{
    if qs.len() == 0 {
        assert(qs.push(q)[0] == q);
        assert(qs.push(q).drop_first() =~= Seq::<(Seq<char>, Seq<char>)>::empty());
        assert(comma_join(Seq::<(Seq<char>, Seq<char>)>::empty()) =~= Seq::<char>::empty());
        assert(comma_join(qs) + seq![','] + op_json(q) =~= seq![','] + op_json(q) + Seq::<
            char,
        >::empty());
    } else {
        assert(qs.push(q)[0] == qs[0]);
        assert(qs.push(q).drop_first() =~= qs.drop_first().push(q));
        lemma_comma_join_snoc(qs.drop_first(), q);
        assert(seq![','] + op_json(qs[0]) + (comma_join(qs.drop_first()) + seq![','] + op_json(
            q,
        )) =~= comma_join(qs) + seq![','] + op_json(q));
    }
}

/// The joined array is its first element followed by the continuation.
proof fn lemma_ops_json_front(qs: Seq<(Seq<char>, Seq<char>)>)
    requires
        qs.len() > 0,
    ensures
        ops_json(qs) == op_json(qs[0]) + comma_join(qs.drop_first()),
    decreases qs.len(),
{
    reveal_strlit(",");
    assert(","@ =~= seq![',']);
    if qs.len() == 1 {
        assert(comma_join(qs.drop_first()) =~= Seq::<char>::empty());
        assert(op_json(qs[0]) + Seq::<char>::empty() =~= op_json(qs[0]));
    } else {
        let dl = qs.drop_last();
        lemma_ops_json_front(dl);
        assert(dl[0] == qs[0]);
        lemma_comma_join_snoc(dl.drop_first(), qs.last());
        assert(qs.drop_first() =~= dl.drop_first().push(qs.last()));
        assert(op_json(qs[0]) + (comma_join(dl.drop_first()) + seq![','] + op_json(qs.last()))
            =~= ops_json(dl) + ","@ + op_json(qs.last()));
    }
}

/// Continuation round-trip: the reader decodes the written remainder of
/// an array, one comma-led element at a time, up to the closing bracket.
#[verifier::rlimit(100)]
proof fn lemma_more_round_trip(
    w: Seq<char>,
    i: int,
    qs: Seq<(Seq<char>, Seq<char>)>,
    fuel: nat,
)
    requires
        0 <= i,
        i + comma_join(qs).len() + 1 <= w.len(),
        w.subrange(i, i + comma_join(qs).len()) == comma_join(qs),
        w[i + comma_join(qs).len()] == ']',
        fuel >= qs.len(),
    ensures
        ps_more(w, i, fuel) == Some((qs, i + comma_join(qs).len() + 1)),
    decreases qs.len(),
{
    if qs.len() == 0 {
        assert(comma_join(qs).len() == 0);
        assert(w[i] == ']');
        assert(!is_json_ws(w[i]));
        assert(ws_end(w, i) == i);
    } else {
        let cj = comma_join(qs);
        let oj = op_json(qs[0]);
        let ol = oj.len() as int;
        let rest = comma_join(qs.drop_first());
        let rl = rest.len() as int;
        assert(cj == seq![','] + oj + rest);
        assert(cj.len() == 1 + ol + rl);
        assert forall|k: int| 0 <= k < cj.len() implies w[i + k] == cj[k] by {
            assert(w.subrange(i, i + cj.len())[k] == w[i + k]);
        }
        assert(cj[0] == ',');
        assert(w[i + 0] == cj[0]);
        assert(w[i] == ',');
        assert(!is_json_ws(w[i]));
        assert(ws_end(w, i) == i);
        assert forall|k: int| 0 <= k < ol implies w[i + 1 + k] == oj[k] by {
            assert(cj[1 + k] == oj[k]);
            assert(w[i + (1 + k)] == cj[1 + k]);
        }
        assert(w.subrange(i + 1, i + 1 + ol) =~= oj);
        lemma_op_round_trip(w, i + 1, qs[0]);
        assert forall|k: int| 0 <= k < rl implies w[i + 1 + ol + k] == rest[k] by {
            assert(cj[1 + ol + k] == rest[k]);
            assert(w[i + (1 + ol + k)] == cj[1 + ol + k]);
        }
        assert(w.subrange(i + 1 + ol, i + 1 + ol + rl) =~= rest);
        assert(w[i + 1 + ol + rl] == ']');
        lemma_more_round_trip(w, i + 1 + ol, qs.drop_first(), (fuel - 1) as nat);
        assert(seq![qs[0]] + qs.drop_first() =~= qs);
    }
}

/// Array round-trip: the reader decodes a written operations array back
/// to its pairs, whatever follows it.
#[verifier::rlimit(100)]
proof fn lemma_array_round_trip(w: Seq<char>, i: int, qs: Seq<(Seq<char>, Seq<char>)>)
    requires
        0 <= i,
        i + 2 + ops_json(qs).len() <= w.len(),
        w[i] == '[',
        w.subrange(i + 1, i + 1 + ops_json(qs).len()) == ops_json(qs),
        w[i + 1 + ops_json(qs).len()] == ']',
    ensures
        ps_array(w, i) == Some((qs, i + 2 + ops_json(qs).len())),
{
    assert(!is_json_ws(w[i]));
    assert(ws_end(w, i) == i);
    let oj = ops_json(qs);
    let ol = oj.len() as int;
    assert forall|k: int| 0 <= k < ol implies w[i + 1 + k] == oj[k] by {
        assert(w.subrange(i + 1, i + 1 + ol)[k] == w[i + 1 + k]);
    }
    if qs.len() == 0 {
        assert(ol == 0);
        assert(w[i + 1] == ']');
        assert(!is_json_ws(w[i + 1]));
        assert(ws_end(w, i + 1) == i + 1);
    } else {
        lemma_ops_json_front(qs);
        let o0 = op_json(qs[0]);
        let o0l = o0.len() as int;
        let rest = comma_join(qs.drop_first());
        let rl = rest.len() as int;
        assert(ol == o0l + rl);
        reveal_strlit("{\"source\":");
        assert(o0[0] == '{');
        assert(w[i + 1 + 0] == oj[0]);
        assert(oj[0] == o0[0]);
        assert(w[i + 1] == '{');
        assert(!is_json_ws(w[i + 1]));
        assert(ws_end(w, i + 1) == i + 1);
        assert forall|k: int| 0 <= k < o0l implies w[i + 1 + k] == o0[k] by {
            assert(oj[k] == o0[k]);
        }
        assert(w.subrange(i + 1, i + 1 + o0l) =~= o0);
        lemma_op_round_trip(w, i + 1, qs[0]);
        assert forall|k: int| 0 <= k < rl implies w[i + 1 + o0l + k] == rest[k] by {
            assert(oj[o0l + k] == rest[k]);
            assert(w[i + 1 + (o0l + k)] == oj[o0l + k]);
        }
        assert(w.subrange(i + 1 + o0l, i + 1 + o0l + rl) =~= rest);
        assert(w[i + 1 + o0l + rl] == ']');
        lemma_comma_join_len(qs.drop_first());
        assert(w.len() >= qs.drop_first().len());
        lemma_more_round_trip(w, i + 1 + o0l, qs.drop_first(), w.len() as nat);
        assert(seq![qs[0]] + qs.drop_first() =~= qs);
    }
}

/// The exact layout of a written journal document: where each token and
/// each embedded string sits.
#[verifier::rlimit(100)]
proof fn lemma_journal_layout(date: Seq<char>, qs: Seq<(Seq<char>, Seq<char>)>)
    ensures
        ({
            let w = journal_json_spec(date, qs);
            let ld = json_string(date).len() as int;
            let lo = ops_json(qs).len() as int;
            &&& w.len() == 25 + ld + lo
            &&& w[0] == '{'
            &&& w.subrange(1, 7) == json_string("date"@)
            &&& w[7] == ':'
            &&& w.subrange(8, 8 + ld) == json_string(date)
            &&& w[8 + ld] == ','
            &&& w.subrange(9 + ld, 21 + ld) == json_string("operations"@)
            &&& w[21 + ld] == ':'
            &&& w[22 + ld] == '['
            &&& w.subrange(23 + ld, 23 + ld + lo) == ops_json(qs)
            &&& w[23 + ld + lo] == ']'
            &&& w[24 + ld + lo] == '}'
        }),
{
    reveal_strlit("{\"date\":");
    reveal_strlit(",\"operations\":[");
    reveal_strlit("]}");
    reveal_strlit("date");
    reveal_strlit("operations");
    assert(plain_chars("date"@));
    assert(plain_chars("operations"@));
    lemma_escape_plain("date"@);
    lemma_escape_plain("operations"@);
    let a = "{\"date\":"@;
    let b = ",\"operations\":["@;
    let c = "]}"@;
    let jd = json_string(date);
    let oj = ops_json(qs);
    let kd = json_string("date"@);
    let ko = json_string("operations"@);
    let ld = jd.len() as int;
    let lo = oj.len() as int;
    let w = journal_json_spec(date, qs);
    assert(a.len() == 8);
    assert(b.len() == 15);
    assert(c.len() == 2);
    assert(kd.len() == 6);
    assert(ko.len() == 12);
    assert(w == a + jd + b + oj + c);
    assert(w.len() == 25 + ld + lo);
    assert forall|k: int| 0 <= k < 8 implies w[k] == a[k] by {}
    assert forall|k: int| 0 <= k < ld implies w[8 + k] == jd[k] by {}
    assert forall|k: int| 0 <= k < 15 implies w[8 + ld + k] == b[k] by {}
    assert forall|k: int| 0 <= k < lo implies w[23 + ld + k] == oj[k] by {}
    assert forall|k: int| 0 <= k < 2 implies w[23 + ld + lo + k] == c[k] by {}
    assert(w.subrange(1, 7) =~= kd);
    assert(w.subrange(8, 8 + ld) =~= jd);
    assert(w.subrange(9 + ld, 21 + ld) =~= ko);
    assert(w.subrange(23 + ld, 23 + ld + lo) =~= oj);
}

/// Evaluating the document parse once all its tokens are known.
proof fn lemma_doc_walk(w: Seq<char>, date: Seq<char>, qs: Seq<(Seq<char>, Seq<char>)>, ld: int, lo: int)
    requires
        w.len() == 25 + ld + lo,
        0 <= ld,
        0 <= lo,
        ws_end(w, 0) == 0,
        w[0] == '{',
        ws_end(w, 1) == 1,
        ps_string(w, 1) == Some(("date"@, 7int)),
        ws_end(w, 7) == 7,
        w[7] == ':',
        ws_end(w, 8) == 8,
        ps_string(w, 8) == Some((date, 8 + ld)),
        ws_end(w, 8 + ld) == 8 + ld,
        w[8 + ld] == ',',
        ws_end(w, 9 + ld) == 9 + ld,
        ps_string(w, 9 + ld) == Some(("operations"@, 21 + ld)),
        ws_end(w, 21 + ld) == 21 + ld,
        w[21 + ld] == ':',
        ps_array(w, 22 + ld) == Some((qs, 24 + ld + lo)),
        ws_end(w, 24 + ld + lo) == 24 + ld + lo,
        w[24 + ld + lo] == '}',
        ws_end(w, 25 + ld + lo) == 25 + ld + lo,
        "date"@ != "operations"@,
    ensures
        parse_journal_spec(w) == Some(qs),
{
}

/// The first token facts of a written journal document: up to the parsed
/// date value.
#[verifier::rlimit(100)]
proof fn lemma_journal_tokens_head(date: Seq<char>, qs: Seq<(Seq<char>, Seq<char>)>)
    ensures
        ({
            let w = journal_json_spec(date, qs);
            let ld = json_string(date).len() as int;
            let lo = ops_json(qs).len() as int;
            &&& w.len() == 25 + ld + lo
            &&& ws_end(w, 0) == 0
            &&& w[0] == '{'
            &&& ws_end(w, 1) == 1
            &&& ps_string(w, 1) == Some(("date"@, 7int))
            &&& ws_end(w, 7) == 7
            &&& w[7] == ':'
            &&& ws_end(w, 8) == 8
            &&& ps_string(w, 8) == Some((date, 8 + ld))
            &&& ws_end(w, 8 + ld) == 8 + ld
            &&& w[8 + ld] == ','
        }),
{
    lemma_journal_layout(date, qs);
    reveal_strlit("date");
    assert(plain_chars("date"@));
    lemma_escape_plain("date"@);
    let w = journal_json_spec(date, qs);
    let kd = json_string("date"@);
    let jd = json_string(date);
    let ld = jd.len() as int;
    assert(kd.len() == 6);
    assert(!is_json_ws(w[0]));
    assert(ws_end(w, 0) == 0);
    assert(kd[0] == '"');
    assert(w.subrange(1, 7)[0] == w[1]);
    assert(!is_json_ws(w[1]));
    assert(ws_end(w, 1) == 1);
    lemma_string_round_trip(w, 1, "date"@);
    assert(ps_string(w, 1) == Some(("date"@, 7int)));
    assert(!is_json_ws(w[7]));
    assert(ws_end(w, 7) == 7);
    assert(w.subrange(8, 8 + ld)[0] == w[8]);
    assert(jd[0] == '"');
    assert(!is_json_ws(w[8]));
    assert(ws_end(w, 8) == 8);
    lemma_string_round_trip(w, 8, date);
    assert(ps_string(w, 8) == Some((date, 8 + ld)));
    assert(!is_json_ws(w[8 + ld]));
    assert(ws_end(w, 8 + ld) == 8 + ld);
}

/// The remaining token facts of a written journal document: from the
/// operations key to the closing brace.
#[verifier::rlimit(100)]
proof fn lemma_journal_tokens_tail(date: Seq<char>, qs: Seq<(Seq<char>, Seq<char>)>)
    ensures
        ({
            let w = journal_json_spec(date, qs);
            let ld = json_string(date).len() as int;
            let lo = ops_json(qs).len() as int;
            &&& ws_end(w, 9 + ld) == 9 + ld
            &&& ps_string(w, 9 + ld) == Some(("operations"@, 21 + ld))
            &&& ws_end(w, 21 + ld) == 21 + ld
            &&& w[21 + ld] == ':'
            &&& ps_array(w, 22 + ld) == Some((qs, 24 + ld + lo))
            &&& ws_end(w, 24 + ld + lo) == 24 + ld + lo
            &&& w[24 + ld + lo] == '}'
            &&& ws_end(w, 25 + ld + lo) == 25 + ld + lo
        }),
{
    lemma_journal_layout(date, qs);
    reveal_strlit("operations");
    assert(plain_chars("operations"@));
    lemma_escape_plain("operations"@);
    let w = journal_json_spec(date, qs);
    let ko = json_string("operations"@);
    let jd = json_string(date);
    let oj = ops_json(qs);
    let ld = jd.len() as int;
    let lo = oj.len() as int;
    assert(ko.len() == 12);
    assert(ko[0] == '"');
    assert(w.subrange(9 + ld, 21 + ld)[0] == w[9 + ld]);
    assert(!is_json_ws(w[9 + ld]));
    assert(ws_end(w, 9 + ld) == 9 + ld);
    lemma_string_round_trip(w, 9 + ld, "operations"@);
    assert(ps_string(w, 9 + ld) == Some(("operations"@, 21 + ld)));
    assert(!is_json_ws(w[21 + ld]));
    assert(ws_end(w, 21 + ld) == 21 + ld);
    lemma_array_round_trip(w, 22 + ld, qs);
    assert(ps_array(w, 22 + ld) == Some((qs, 24 + ld + lo)));
    assert(!is_json_ws(w[24 + ld + lo]));
    assert(ws_end(w, 24 + ld + lo) == 24 + ld + lo);
    assert(ws_end(w, 25 + ld + lo) == 25 + ld + lo);
}

/// Journal round-trip: the reader decodes exactly the operations that the
/// writer serialized, for every date stamp and operation list.
pub proof fn lemma_journal_round_trip(date: Seq<char>, qs: Seq<(Seq<char>, Seq<char>)>)
    ensures
        parse_journal_spec(journal_json_spec(date, qs)) == Some(qs),
{
    lemma_journal_tokens_head(date, qs);
    lemma_journal_tokens_tail(date, qs);
    let w = journal_json_spec(date, qs);
    let ld = json_string(date).len() as int;
    let lo = ops_json(qs).len() as int;
    assert("date"@ != "operations"@) by {
        reveal_strlit("date");
        reveal_strlit("operations");
        assert("date"@.len() == 4);
        assert("operations"@.len() == 10);
    }
    lemma_doc_walk(w, date, qs, ld, lo);
}

/// The journal file name for a compact date stamp.
pub fn journal_filename(stamp: &String) -> (r: String)
    ensures
        r@ == "rnr-"@ + stamp@ + ".json"@,
{
    let mut name = String::from_str("rnr-");
    name.append(stamp.as_str());
    name.append(".json");
    name
}

} // verus!
