//! The JSON parser: text to values, with one failure mode, malformed input.

use vstd::prelude::*;
use crate::value::{Json, JsonV, Entry, jview, jview_arr, jview_obj, eview, lemma_jview_arr,
    lemma_jview_obj, unique_keys, wf};

verus! {

/// Insignificant whitespace.
pub open spec fn is_ws(c: char) -> bool {
    c == ' ' || c == '\t' || c == '\n' || c == '\r'
}

/// The first position at or after `i` holding something else than
/// whitespace.
pub open spec fn skip_ws(s: Seq<char>, i: int) -> int
    decreases s.len() - i,
{
    if i < 0 || i >= s.len() {
        i
    } else if is_ws(s[i]) {
        skip_ws(s, i + 1)
    } else {
        i
    }
}

pub proof fn lemma_skip_ws(s: Seq<char>, i: int)
    requires
        0 <= i <= s.len(),
    ensures
        i <= skip_ws(s, i) <= s.len(),
        skip_ws(s, i) == s.len() || !is_ws(s[skip_ws(s, i)]),
    decreases s.len() - i,
{
    if i < s.len() && is_ws(s[i]) {
        lemma_skip_ws(s, i + 1);
    }
}

/// A position forced into the range from `lo` to the end of the text; the
/// parser's recursion descends on positions, and this keeps every step's
/// progress plain.
pub open spec fn clamp_pos(s: Seq<char>, j: int, lo: int) -> int {
    if j < lo {
        lo
    } else if j > s.len() {
        s.len() as int
    } else {
        j
    }
}

pub open spec fn is_digit(c: char) -> bool {
    48 <= (c as u32) <= 57
}

/// The end of the digit run that starts at `i`.
pub open spec fn digits_end(s: Seq<char>, i: int) -> int
    decreases s.len() - i,
{
    if i < 0 || i >= s.len() {
        i
    } else if is_digit(s[i]) {
        digits_end(s, i + 1)
    } else {
        i
    }
}

pub proof fn lemma_digits_end(s: Seq<char>, i: int)
    requires
        0 <= i <= s.len(),
    ensures
        i <= digits_end(s, i) <= s.len(),
    decreases s.len() - i,
{
    if i < s.len() && is_digit(s[i]) {
        lemma_digits_end(s, i + 1);
    }
}

/// The value of a hexadecimal digit.
pub open spec fn hex_val(c: char) -> Option<u32> {
    let u = c as u32;
    if 48 <= u <= 57 {
        Option::Some((u - 48) as u32)
    } else if 97 <= u <= 102 {
        Option::Some((u - 87) as u32)
    } else if 65 <= u <= 70 {
        Option::Some((u - 55) as u32)
    } else {
        Option::None
    }
}

/// The value of the four hexadecimal digits at `i`.
pub open spec fn hex4(s: Seq<char>, i: int) -> Option<u32> {
    if i < 0 || i + 4 > s.len() {
        Option::None
    } else {
        match (hex_val(s[i]), hex_val(s[i + 1]), hex_val(s[i + 2]), hex_val(s[i + 3])) {
            (Option::Some(a), Option::Some(b), Option::Some(c), Option::Some(d)) => Option::Some(
                (a * 4096 + b * 256 + c * 16 + d) as u32,
            ),
            _ => Option::None,
        }
    }
}

/// Prepend a decoded character to the rest of a string body.
pub open spec fn cons_char(c: char, rest: Option<(Seq<char>, int)>) -> Option<(Seq<char>, int)> {
    match rest {
        Option::Some((t, j)) => Option::Some((seq![c] + t, j)),
        Option::None => Option::None,
    }
}

/// The body of a string, starting just after the opening quote: the decoded
/// characters and the position after the closing quote. Escapes are decoded;
/// an unterminated string, a bad escape, a lone surrogate or a bare control
/// character is malformed.
pub open spec fn parse_string_body(s: Seq<char>, i: int) -> Option<(Seq<char>, int)>
    decreases s.len() - i,
{
    if i < 0 || i >= s.len() {
        Option::None
    } else {
        let c = s[i];
        if c == '"' {
            Option::Some((Seq::empty(), i + 1))
        } else if c == '\\' {
            if i + 1 >= s.len() {
                Option::None
            } else {
                let e = s[i + 1];
                if e == '"' || e == '\\' || e == '/' {
                    cons_char(e, parse_string_body(s, i + 2))
                } else if e == 'b' {
                    cons_char('\u{8}', parse_string_body(s, i + 2))
                } else if e == 'f' {
                    cons_char('\u{c}', parse_string_body(s, i + 2))
                } else if e == 'n' {
                    cons_char('\n', parse_string_body(s, i + 2))
                } else if e == 'r' {
                    cons_char('\r', parse_string_body(s, i + 2))
                } else if e == 't' {
                    cons_char('\t', parse_string_body(s, i + 2))
                } else if e == 'u' {
                    match hex4(s, i + 2) {
                        Option::None => Option::None,
                        Option::Some(h) => {
                            if 0xD800 <= h < 0xDC00 {
                                // a high surrogate must pair with a low one
                                if i + 8 <= s.len() && s[i + 6] == '\\' && s[i + 7] == 'u' {
                                    match hex4(s, i + 8) {
                                        Option::Some(l) => if 0xDC00 <= l < 0xE000 {
                                            cons_char(
                                                (0x10000 + (h - 0xD800) * 0x400 + (l
                                                    - 0xDC00)) as char,
                                                parse_string_body(s, i + 12),
                                            )
                                        } else {
                                            Option::None
                                        },
                                        Option::None => Option::None,
                                    }
                                } else {
                                    Option::None
                                }
                            } else if 0xDC00 <= h < 0xE000 {
                                Option::None
                            } else {
                                cons_char(h as char, parse_string_body(s, i + 6))
                            }
                        },
                    }
                } else {
                    Option::None
                }
            }
        } else if (c as u32) < 0x20 {
            Option::None
        } else {
            cons_char(c, parse_string_body(s, i + 1))
        }
    }
}

pub proof fn lemma_parse_string_bounds(s: Seq<char>, i: int)
    requires
        0 <= i <= s.len(),
    ensures
        parse_string_body(s, i) matches Option::Some((cs, j)) ==> i < j <= s.len(),
    decreases s.len() - i,
{
    if 0 <= i < s.len() {
        let c = s[i];
        if c == '\\' && i + 1 < s.len() {
            if i + 2 <= s.len() {
                lemma_parse_string_bounds(s, i + 2);
            }
            if i + 6 <= s.len() {
                lemma_parse_string_bounds(s, i + 6);
            }
            if i + 12 <= s.len() {
                lemma_parse_string_bounds(s, i + 12);
            }
        } else {
            lemma_parse_string_bounds(s, i + 1);
        }
    }
}

/// The end of the fraction part, if any; `None` for a bare decimal point.
pub open spec fn frac_end(s: Seq<char>, i: int) -> Option<int> {
    if 0 <= i < s.len() && s[i] == '.' {
        let d = digits_end(s, i + 1);
        if d == i + 1 {
            Option::None
        } else {
            Option::Some(d)
        }
    } else {
        Option::Some(i)
    }
}

/// The end of the exponent part, if any; `None` for an empty exponent.
pub open spec fn exp_end(s: Seq<char>, i: int) -> Option<int> {
    if 0 <= i < s.len() && (s[i] == 'e' || s[i] == 'E') {
        let i2 = if i + 1 < s.len() && (s[i + 1] == '+' || s[i + 1] == '-') {
            i + 2
        } else {
            i + 1
        };
        let d = digits_end(s, i2);
        if d == i2 {
            Option::None
        } else {
            Option::Some(d)
        }
    } else {
        Option::Some(i)
    }
}

/// A number lexeme starting at `i`: its verbatim characters and the position
/// after it.
pub open spec fn parse_number(s: Seq<char>, i: int) -> Option<(Seq<char>, int)> {
    if i < 0 || i >= s.len() {
        Option::None
    } else {
        let i1 = if s[i] == '-' {
            i + 1
        } else {
            i
        };
        if i1 >= s.len() || !is_digit(s[i1]) {
            Option::None
        } else {
            let i2 = if s[i1] == '0' {
                i1 + 1
            } else {
                digits_end(s, i1)
            };
            match frac_end(s, i2) {
                Option::None => Option::None,
                Option::Some(i3) => match exp_end(s, i3) {
                    Option::None => Option::None,
                    Option::Some(i4) => Option::Some((s.subrange(i, i4), i4)),
                },
            }
        }
    }
}

pub proof fn lemma_parse_number_bounds(s: Seq<char>, i: int)
    requires
        0 <= i <= s.len(),
    ensures
        parse_number(s, i) matches Option::Some((cs, j)) ==> i < j <= s.len(),
{
    if 0 <= i < s.len() {
        let i1 = if s[i] == '-' {
            i + 1
        } else {
            i
        };
        if i1 < s.len() && is_digit(s[i1]) {
            lemma_digits_end(s, i1);
            lemma_digits_end(s, i1 + 1);
            let i2 = if s[i1] == '0' {
                i1 + 1
            } else {
                digits_end(s, i1)
            };
            assert(i < i2 <= s.len());
            if 0 <= i2 < s.len() && s[i2] == '.' {
                lemma_digits_end(s, i2 + 1);
            }
            match frac_end(s, i2) {
                Option::None => {},
                Option::Some(i3) => {
                    assert(i2 <= i3 <= s.len());
                    if 0 <= i3 < s.len() && (s[i3] == 'e' || s[i3] == 'E') {
                        let j2 = if i3 + 1 < s.len() && (s[i3 + 1] == '+' || s[i3 + 1] == '-') {
                            i3 + 2
                        } else {
                            i3 + 1
                        };
                        lemma_digits_end(s, j2);
                    }
                },
            }
        }
    }
}

/// Put an entry into an object under construction: a repeated key replaces
/// the value in place, a new key goes to the end.
pub open spec fn obj_insert(
    es: Seq<(Seq<char>, JsonV)>,
    k: Seq<char>,
    v: JsonV,
) -> Seq<(Seq<char>, JsonV)>
    decreases es.len(),
{
    if es.len() == 0 {
        seq![(k, v)]
    } else if es[0].0 == k {
        seq![(k, v)] + es.drop_first()
    } else {
        seq![es[0]] + obj_insert(es.drop_first(), k, v)
    }
}

/// An object's entries from the members as written: later duplicates replace
/// earlier values, keeping the first position.
pub open spec fn dedup_entries(raw: Seq<(Seq<char>, JsonV)>) -> Seq<(Seq<char>, JsonV)>
    decreases raw.len(),
{
    if raw.len() == 0 {
        Seq::empty()
    } else {
        obj_insert(dedup_entries(raw.drop_last()), raw.last().0, raw.last().1)
    }
}

/// Does `lit` stand at position `i`?
pub open spec fn lit_at(s: Seq<char>, i: int, lit: Seq<char>) -> bool {
    0 <= i && i + lit.len() <= s.len() && s.subrange(i, i + lit.len()) == lit
}

/// A value starting at `i`, which must not be whitespace: the value and the
/// position just after it.
pub open spec fn parse_value(s: Seq<char>, i: int) -> Option<(JsonV, int)>
    decreases s.len() - i, 2int,
{
    if i < 0 || i >= s.len() {
        Option::None
    } else {
        let c = s[i];
        if c == 'n' {
            if lit_at(s, i, seq!['n', 'u', 'l', 'l']) {
                Option::Some((JsonV::Null, i + 4))
            } else {
                Option::None
            }
        } else if c == 't' {
            if lit_at(s, i, seq!['t', 'r', 'u', 'e']) {
                Option::Some((JsonV::Bool(true), i + 4))
            } else {
                Option::None
            }
        } else if c == 'f' {
            if lit_at(s, i, seq!['f', 'a', 'l', 's', 'e']) {
                Option::Some((JsonV::Bool(false), i + 5))
            } else {
                Option::None
            }
        } else if c == '"' {
            match parse_string_body(s, i + 1) {
                Option::Some((cs, j)) => Option::Some((JsonV::Str(cs), j)),
                Option::None => Option::None,
            }
        } else if c == '-' || is_digit(c) {
            match parse_number(s, i) {
                Option::Some((cs, j)) => Option::Some((JsonV::Num(cs), j)),
                Option::None => Option::None,
            }
        } else if c == '[' {
            let k = clamp_pos(s, skip_ws(s, i + 1), i + 1);
            if k >= s.len() {
                Option::None
            } else if s[k] == ']' {
                Option::Some((JsonV::Arr(Seq::empty()), k + 1))
            } else {
                match parse_value(s, k) {
                    Option::Some((v, j)) => if j <= k || j > s.len() {
                        Option::None
                    } else {
                        match parse_elems_rest(s, j) {
                            Option::Some((tail, j2)) => Option::Some(
                                (JsonV::Arr(seq![v] + tail), j2),
                            ),
                            Option::None => Option::None,
                        }
                    },
                    Option::None => Option::None,
                }
            }
        } else if c == '{' {
            let k = clamp_pos(s, skip_ws(s, i + 1), i + 1);
            if k >= s.len() {
                Option::None
            } else if s[k] == '}' {
                Option::Some((JsonV::Obj(Seq::empty()), k + 1))
            } else {
                match parse_member(s, k) {
                    Option::Some((kv, j)) => if j <= k || j > s.len() {
                        Option::None
                    } else {
                        match parse_membs_rest(s, j) {
                            Option::Some((tail, j2)) => Option::Some(
                                (JsonV::Obj(dedup_entries(seq![kv] + tail)), j2),
                            ),
                            Option::None => Option::None,
                        }
                    },
                    Option::None => Option::None,
                }
            }
        } else {
            Option::None
        }
    }
}

/// One `"key": value` member starting at `i`.
pub open spec fn parse_member(s: Seq<char>, i: int) -> Option<((Seq<char>, JsonV), int)>
    decreases s.len() - i, 1int,
{
    if 0 <= i < s.len() && s[i] == '"' {
        match parse_string_body(s, i + 1) {
            Option::Some((key, j1)) => if j1 <= i {
                Option::None
            } else {
                let k2 = clamp_pos(s, skip_ws(s, j1), j1);
                if k2 < s.len() && s[k2] == ':' {
                    let k3 = clamp_pos(s, skip_ws(s, k2 + 1), k2 + 1);
                    match parse_value(s, k3) {
                        Option::Some((v, j)) => Option::Some(((key, v), j)),
                        Option::None => Option::None,
                    }
                } else {
                    Option::None
                }
            },
            Option::None => Option::None,
        }
    } else {
        Option::None
    }
}

/// What follows a complete array element: the closing bracket, or a comma and
/// the elements after it.
pub open spec fn parse_elems_rest(s: Seq<char>, i: int) -> Option<(Seq<JsonV>, int)>
    decreases s.len() - i, 3int,
{
    if i < 0 || i > s.len() {
        Option::None
    } else {
        let k = clamp_pos(s, skip_ws(s, i), i);
        if k >= s.len() {
            Option::None
        } else if s[k] == ']' {
            Option::Some((Seq::empty(), k + 1))
        } else if s[k] == ',' {
            let k2 = clamp_pos(s, skip_ws(s, k + 1), k + 1);
            match parse_value(s, k2) {
                Option::Some((v, j)) => if j <= k2 || j > s.len() {
                    Option::None
                } else {
                    match parse_elems_rest(s, j) {
                        Option::Some((tail, j2)) => Option::Some((seq![v] + tail, j2)),
                        Option::None => Option::None,
                    }
                },
                Option::None => Option::None,
            }
        } else {
            Option::None
        }
    }
}

/// What follows a complete object member: the closing brace, or a comma and
/// the members after it.
pub open spec fn parse_membs_rest(s: Seq<char>, i: int) -> Option<(Seq<(Seq<char>, JsonV)>, int)>
    decreases s.len() - i, 3int,
{
    if i < 0 || i > s.len() {
        Option::None
    } else {
        let k = clamp_pos(s, skip_ws(s, i), i);
        if k >= s.len() {
            Option::None
        } else if s[k] == '}' {
            Option::Some((Seq::empty(), k + 1))
        } else if s[k] == ',' {
            let k2 = clamp_pos(s, skip_ws(s, k + 1), k + 1);
            match parse_member(s, k2) {
                Option::Some((kv, j)) => if j <= k2 || j > s.len() {
                    Option::None
                } else {
                    match parse_membs_rest(s, j) {
                        Option::Some((tail, j2)) => Option::Some((seq![kv] + tail, j2)),
                        Option::None => Option::None,
                    }
                },
                Option::None => Option::None,
            }
        } else {
            Option::None
        }
    }
}

fn skip_ws_exec(s: &Vec<char>, i: usize) -> (r: usize)
    requires
        i <= s@.len(),
    ensures
        r as int == skip_ws(s@, i as int),
        i <= r <= s@.len(),
{
    let n = s.len();
    let mut j = i;
    while j < n && (s[j] == ' ' || s[j] == '\t' || s[j] == '\n' || s[j] == '\r')
        invariant
            i <= j <= n,
            n == s@.len(),
            skip_ws(s@, i as int) == skip_ws(s@, j as int),
        decreases n - j,
    {
        j = j + 1;
    }
    j
}

fn hex_val_exec(c: char) -> (r: Option<u32>)
    ensures
        r == hex_val(c),
        r matches Option::Some(u) ==> u < 16,
{
    let u = c as u32;
    if 48 <= u && u <= 57 {
        Option::Some(u - 48)
    } else if 97 <= u && u <= 102 {
        Option::Some(u - 87)
    } else if 65 <= u && u <= 70 {
        Option::Some(u - 55)
    } else {
        Option::None
    }
}

fn hex4_exec(s: &Vec<char>, i: usize) -> (r: Option<u32>)
    requires
        i <= s@.len(),
    ensures
        r == hex4(s@, i as int),
        r matches Option::Some(u) ==> u <= 0xFFFF,
{
    let n = s.len();
    if n - i < 4 {
        return Option::None;
    }
    let a = hex_val_exec(s[i]);
    let b = hex_val_exec(s[i + 1]);
    let c = hex_val_exec(s[i + 2]);
    let d = hex_val_exec(s[i + 3]);
    match (a, b, c, d) {
        (Option::Some(a), Option::Some(b), Option::Some(c), Option::Some(d)) => Option::Some(
            a * 4096 + b * 256 + c * 16 + d,
        ),
        _ => Option::None,
    }
}

/// One decoding step: the specification prepends what the loop appends.
proof fn lemma_string_step(s: Seq<char>, i: int, out0: Seq<char>, ch: char, cur: int, nxt: int)
    requires
        0 <= i,
        0 <= cur < s.len(),
        cur < nxt <= s.len(),
        parse_string_body(s, cur) == cons_char(ch, parse_string_body(s, nxt)),
        match parse_string_body(s, cur) {
            Option::Some((t, j)) => parse_string_body(s, i) == Option::Some((out0 + t, j))
                && cur < j,
            Option::None => parse_string_body(s, i) is None,
        },
    ensures
        match parse_string_body(s, nxt) {
            Option::Some((t2, j)) => parse_string_body(s, i) == Option::Some(
                (out0.push(ch) + t2, j),
            ) && nxt < j,
            Option::None => parse_string_body(s, i) is None,
        },
{
    lemma_parse_string_bounds(s, nxt);
    match parse_string_body(s, nxt) {
        Option::Some((t2, j)) => {
            assert(parse_string_body(s, cur) == Option::Some((seq![ch] + t2, j)));
            assert(out0 + (seq![ch] + t2) =~= out0.push(ch) + t2);
        },
        Option::None => {},
    }
}

/// Decode a string body, the opening quote already behind `i`.
fn parse_string_exec(s: &Vec<char>, i: usize) -> (r: Option<(Vec<char>, usize)>)
    requires
        i <= s@.len(),
    ensures
        match r {
            Option::Some((cs, j)) => parse_string_body(s@, i as int) == Option::Some(
                (cs@, j as int),
            ) && i < j <= s@.len(),
            Option::None => parse_string_body(s@, i as int) is None,
        },
{
    let n = s.len();
    let mut out: Vec<char> = Vec::new();
    let mut cur = i;
    proof {
        assert(match parse_string_body(s@, cur as int) {
            Option::Some((t, j)) => out@ + t =~= t,
            Option::None => true,
        });
        lemma_parse_string_bounds(s@, cur as int);
    }
    loop
        invariant
            i <= cur <= n,
            n == s@.len(),
            match parse_string_body(s@, cur as int) {
                Option::Some((t, j)) => parse_string_body(s@, i as int) == Option::Some(
                    (out@ + t, j),
                ) && cur < j,
                Option::None => parse_string_body(s@, i as int) is None,
            },
        ensures
            cur < n,
            s@[cur as int] == '"',
            parse_string_body(s@, i as int) == Option::Some((out@, cur + 1)),
        decreases n - cur,
    {
        if cur == n {
            return Option::None;
        }
        let c = s[cur];
        if c == '"' {
            proof {
                assert(parse_string_body(s@, cur as int) == Option::Some(
                    (Seq::<char>::empty(), cur + 1),
                ));
                assert(out@ + Seq::<char>::empty() =~= out@);
            }
            break ;
        } else if c == '\\' {
            if cur + 1 == n {
                return Option::None;
            }
            let e = s[cur + 1];
            if e == '"' || e == '\\' || e == '/' {
                proof {
                    lemma_string_step(s@, i as int, out@, e, cur as int, cur + 2);
                }
                out.push(e);
                cur = cur + 2;
            } else if e == 'b' {
                proof {
                    lemma_string_step(s@, i as int, out@, '\u{8}', cur as int, cur + 2);
                }
                out.push('\u{8}');
                cur = cur + 2;
            } else if e == 'f' {
                proof {
                    lemma_string_step(s@, i as int, out@, '\u{c}', cur as int, cur + 2);
                }
                out.push('\u{c}');
                cur = cur + 2;
            } else if e == 'n' {
                proof {
                    lemma_string_step(s@, i as int, out@, '\n', cur as int, cur + 2);
                }
                out.push('\n');
                cur = cur + 2;
            } else if e == 'r' {
                proof {
                    lemma_string_step(s@, i as int, out@, '\r', cur as int, cur + 2);
                }
                out.push('\r');
                cur = cur + 2;
            } else if e == 't' {
                proof {
                    lemma_string_step(s@, i as int, out@, '\t', cur as int, cur + 2);
                }
                out.push('\t');
                cur = cur + 2;
            } else if e == 'u' {
                match hex4_exec(s, cur + 2) {
                    Option::None => {
                        return Option::None;
                    },
                    Option::Some(h) => {
                        if 0xD800 <= h && h < 0xDC00 {
                            if n - cur >= 8 && s[cur + 6] == '\\' && s[cur + 7] == 'u' {
                                match hex4_exec(s, cur + 8) {
                                    Option::Some(l) => {
                                        if 0xDC00 <= l && l < 0xE000 {
                                            let u = 0x10000 + (h - 0xD800) * 0x400 + (l - 0xDC00);
                                            let ch = char::from_u32(u).unwrap();
                                            proof {
                                                crate::order::lemma_char_cast_inj(ch, u as char);
                                                lemma_string_step(
                                                    s@,
                                                    i as int,
                                                    out@,
                                                    ch,
                                                    cur as int,
                                                    cur + 12,
                                                );
                                            }
                                            out.push(ch);
                                            cur = cur + 12;
                                        } else {
                                            return Option::None;
                                        }
                                    },
                                    Option::None => {
                                        return Option::None;
                                    },
                                }
                            } else {
                                return Option::None;
                            }
                        } else if 0xDC00 <= h && h < 0xE000 {
                            return Option::None;
                        } else {
                            let ch = char::from_u32(h).unwrap();
                            proof {
                                crate::order::lemma_char_cast_inj(ch, h as char);
                                lemma_string_step(s@, i as int, out@, ch, cur as int, cur + 6);
                            }
                            out.push(ch);
                            cur = cur + 6;
                        }
                    },
                }
            } else {
                return Option::None;
            }
        } else if (c as u32) < 0x20 {
            return Option::None;
        } else {
            proof {
                lemma_string_step(s@, i as int, out@, c, cur as int, cur + 1);
            }
            out.push(c);
            cur = cur + 1;
        }
    }
    Option::Some((out, cur + 1))
}

/// A whole text: one value, possibly surrounded by whitespace, and nothing
/// else.
pub open spec fn parse_json(s: Seq<char>) -> Option<JsonV> {
    let k = clamp_pos(s, skip_ws(s, 0), 0);
    match parse_value(s, k) {
        Option::Some((v, j)) => if 0 <= j <= s.len() && skip_ws(s, j) == s.len() {
            Option::Some(v)
        } else {
            Option::None
        },
        Option::None => Option::None,
    }
}

fn digits_end_exec(s: &Vec<char>, i: usize) -> (r: usize)
    requires
        i <= s@.len(),
    ensures
        r as int == digits_end(s@, i as int),
        i <= r <= s@.len(),
{
    let n = s.len();
    let mut j = i;
    while j < n && 48 <= s[j] as u32 && s[j] as u32 <= 57
        invariant
            i <= j <= n,
            n == s@.len(),
            digits_end(s@, i as int) == digits_end(s@, j as int),
        decreases n - j,
    {
        j = j + 1;
    }
    j
}

/// Lex a number, the verbatim characters of its source.
fn parse_number_exec(s: &Vec<char>, i: usize) -> (r: Option<(Vec<char>, usize)>)
    requires
        i <= s@.len(),
    ensures
        match r {
            Option::Some((cs, j)) => parse_number(s@, i as int) == Option::Some((cs@, j as int))
                && i < j <= s@.len(),
            Option::None => parse_number(s@, i as int) is None,
        },
{
    let n = s.len();
    if i == n {
        return Option::None;
    }
    let i1 = if s[i] == '-' {
        i + 1
    } else {
        i
    };
    if i1 == n {
        return Option::None;
    }
    let c1 = s[i1] as u32;
    if !(48 <= c1 && c1 <= 57) {
        return Option::None;
    }
    let i2 = if s[i1] == '0' {
        i1 + 1
    } else {
        let d = digits_end_exec(s, i1);
        proof {
            assert(digits_end(s@, i1 as int) == digits_end(s@, i1 + 1));
            lemma_digits_end(s@, i1 + 1);
        }
        d
    };
    let i3: usize;
    if i2 < n && s[i2] == '.' {
        let d = digits_end_exec(s, i2 + 1);
        if d == i2 + 1 {
            return Option::None;
        }
        i3 = d;
    } else {
        i3 = i2;
    }
    proof {
        assert(frac_end(s@, i2 as int) == Option::Some(i3 as int));
    }
    let i4: usize;
    if i3 < n && (s[i3] == 'e' || s[i3] == 'E') {
        let istart = if i3 + 1 < n && (s[i3 + 1] == '+' || s[i3 + 1] == '-') {
            i3 + 2
        } else {
            i3 + 1
        };
        let d = digits_end_exec(s, istart);
        if d == istart {
            return Option::None;
        }
        i4 = d;
    } else {
        i4 = i3;
    }
    proof {
        assert(exp_end(s@, i3 as int) == Option::Some(i4 as int));
    }
    let mut lex: Vec<char> = Vec::new();
    let mut k = i;
    proof {
        assert(lex@ =~= s@.subrange(i as int, i as int));
    }
    while k < i4
        invariant
            i <= k <= i4 <= n,
            n == s@.len(),
            lex@ == s@.subrange(i as int, k as int),
        decreases i4 - k,
    {
        lex.push(s[k]);
        proof {
            assert(lex@ =~= s@.subrange(i as int, k + 1));
        }
        k = k + 1;
    }
    Option::Some((lex, i4))
}

/// `obj_insert` replaces at the first position holding the key, or appends.
proof fn lemma_obj_insert_at(es: Seq<(Seq<char>, JsonV)>, k: Seq<char>, v: JsonV, j: int)
    requires
        0 <= j <= es.len(),
        forall|t: int| 0 <= t < j ==> (#[trigger] es[t]).0 != k,
        j < es.len() ==> es[j].0 == k,
    ensures
        obj_insert(es, k, v) == if j < es.len() {
            es.update(j, (k, v))
        } else {
            es.push((k, v))
        },
    decreases j,
{
    if es.len() == 0 {
        assert(obj_insert(es, k, v) =~= es.push((k, v)));
    } else if j == 0 {
        assert(es[0].0 == k);
        assert(obj_insert(es, k, v) =~= es.update(0, (k, v)));
    } else {
        let d = es.drop_first();
        assert(forall|t: int| 0 <= t < j - 1 ==> (#[trigger] d[t]).0 != k);
        lemma_obj_insert_at(d, k, v, j - 1);
        if j < es.len() {
            assert(obj_insert(es, k, v) =~= es.update(j, (k, v)));
        } else {
            assert(obj_insert(es, k, v) =~= es.push((k, v)));
        }
    }
}

/// Put an entry into an object under construction.
fn obj_insert_exec(es: Vec<Entry>, key: Vec<char>, v: Json) -> (r: Vec<Entry>)
    ensures
        jview_obj(r@, 0) == obj_insert(jview_obj(es@, 0), key@, jview(v)),
{
    let ghost es0 = es@;
    let ghost m = jview_obj(es@, 0);
    proof {
        lemma_jview_obj(es@, 0);
    }
    let n = es.len();
    let mut j: usize = 0;
    loop
        invariant
            0 <= j <= n,
            es@ == es0,
            n == es@.len(),
            m == jview_obj(es@, 0),
            m.len() == n,
            forall|t: int| 0 <= t < j ==> (#[trigger] m[t]).0 != key@,
        ensures
            0 <= j <= n,
            forall|t: int| 0 <= t < j ==> (#[trigger] m[t]).0 != key@,
            j < n ==> m[j as int].0 == key@,
        decreases n - j,
    {
        if j == n {
            break ;
        }
        let eq = crate::order::chars_eq_exec(&key, &es[j].key);
        proof {
            lemma_jview_obj(es@, 0);
            assert(jview_obj(es@, 0)[j as int] == eview(es@[j as int]));
        }
        if eq {
            break ;
        }
        j = j + 1;
    }
    proof {
        lemma_obj_insert_at(m, key@, jview(v), j as int);
    }
    let mut out = es;
    if j < n {
        out.set(j, Entry { key, value: v });
        proof {
            lemma_jview_obj(es0, 0);
            lemma_jview_obj(out@, 0);
            assert(jview_obj(out@, 0) =~= m.update(j as int, (key@, jview(v))));
        }
    } else {
        out.push(Entry { key, value: v });
        proof {
            lemma_jview_obj(es0, 0);
            lemma_jview_obj(out@, 0);
            assert(jview_obj(out@, 0) =~= m.push((key@, jview(v))));
        }
    }
    out
}

/// Build an object's entries from its members as written.
fn dedup_exec(raw: Vec<Entry>) -> (r: Vec<Entry>)
    ensures
        jview_obj(r@, 0) == dedup_entries(jview_obj(raw@, 0)),
{
    let ghost raw0 = raw@;
    let ghost rv = jview_obj(raw0, 0);
    proof {
        lemma_jview_obj(raw0, 0);
    }
    let mut rest = raw;
    let mut acc: Vec<Entry> = Vec::new();
    let n0 = rest.len();
    proof {
        assert(rv.len() == n0);
        assert(rest@ =~= raw0.skip(0));
        assert(rv.take(0) =~= Seq::empty());
        assert(jview_obj(acc@, 0) =~= dedup_entries(rv.take(0)));
    }
    let mut i: usize = 0;
    while rest.len() > 0
        invariant
            i + rest@.len() == raw0.len(),
            raw0.len() <= usize::MAX,
            rv == jview_obj(raw0, 0),
            rv.len() == raw0.len(),
            forall|k: int| 0 <= k < raw0.len() ==> #[trigger] rv[k] == eview(raw0[k]),
            rest@ == raw0.skip(i as int),
            jview_obj(acc@, 0) == dedup_entries(rv.take(i as int)),
        decreases rest@.len(),
    {
        let ghost restpre = rest@;
        let e = rest.remove(0);
        proof {
            assert(rest@ =~= restpre.drop_first());
            assert(e == raw0.skip(i as int)[0]);
            assert(e == raw0[i as int]);
            assert(rest@ =~= raw0.skip(i + 1));
            assert(rv.take(i + 1).drop_last() =~= rv.take(i as int));
            assert(rv.take(i + 1).last() == rv[i as int]);
        }
        let Entry { key, value } = e;
        acc = obj_insert_exec(acc, key, value);
        proof {
            assert(jview_obj(acc@, 0) == obj_insert(
                dedup_entries(rv.take(i as int)),
                rv[i as int].0,
                rv[i as int].1,
            ));
            assert(dedup_entries(rv.take(i + 1)) == obj_insert(
                dedup_entries(rv.take(i + 1).drop_last()),
                rv.take(i + 1).last().0,
                rv.take(i + 1).last().1,
            ));
        }
        i = i + 1;
    }
    proof {
        assert(rv.take(raw0.len() as int) =~= rv);
    }
    acc
}

/// Parse a value starting at `i`, which must not be whitespace.
#[verifier::rlimit(100)]
fn parse_value_exec(s: &Vec<char>, i: usize) -> (r: Option<(Json, usize)>)
    requires
        i <= s@.len(),
    ensures
        match r {
            Option::Some((v, j)) => parse_value(s@, i as int) == Option::Some(
                (jview(v), j as int),
            ) && i < j <= s@.len(),
            Option::None => parse_value(s@, i as int) is None,
        },
    decreases s@.len() - i, 2int,
{
    let n = s.len();
    if i == n {
        return Option::None;
    }
    let c = s[i];
    if c == 'n' {
        if n - i >= 4 && s[i + 1] == 'u' && s[i + 2] == 'l' && s[i + 3] == 'l' {
            proof {
                assert(s@.subrange(i as int, i + 4) =~= seq!['n', 'u', 'l', 'l']);
            }
            Option::Some((Json::Null, i + 4))
        } else {
            proof {
                let lit = seq!['n', 'u', 'l', 'l'];
                if lit_at(s@, i as int, lit) {
                    assert(s@[i + 1] == s@.subrange(i as int, i + 4)[1]);
                    assert(s@[i + 2] == s@.subrange(i as int, i + 4)[2]);
                    assert(s@[i + 3] == s@.subrange(i as int, i + 4)[3]);
                }
            }
            Option::None
        }
    } else if c == 't' {
        if n - i >= 4 && s[i + 1] == 'r' && s[i + 2] == 'u' && s[i + 3] == 'e' {
            proof {
                assert(s@.subrange(i as int, i + 4) =~= seq!['t', 'r', 'u', 'e']);
                assert(jview(Json::Bool(true)) == JsonV::Bool(true));
            }
            Option::Some((Json::Bool(true), i + 4))
        } else {
            proof {
                let lit = seq!['t', 'r', 'u', 'e'];
                if lit_at(s@, i as int, lit) {
                    assert(s@[i + 1] == s@.subrange(i as int, i + 4)[1]);
                    assert(s@[i + 2] == s@.subrange(i as int, i + 4)[2]);
                    assert(s@[i + 3] == s@.subrange(i as int, i + 4)[3]);
                }
            }
            Option::None
        }
    } else if c == 'f' {
        if n - i >= 5 && s[i + 1] == 'a' && s[i + 2] == 'l' && s[i + 3] == 's' && s[i + 4] == 'e' {
            proof {
                assert(s@.subrange(i as int, i + 5) =~= seq!['f', 'a', 'l', 's', 'e']);
            }
            Option::Some((Json::Bool(false), i + 5))
        } else {
            proof {
                let lit = seq!['f', 'a', 'l', 's', 'e'];
                if lit_at(s@, i as int, lit) {
                    assert(s@[i + 1] == s@.subrange(i as int, i + 5)[1]);
                    assert(s@[i + 2] == s@.subrange(i as int, i + 5)[2]);
                    assert(s@[i + 3] == s@.subrange(i as int, i + 5)[3]);
                    assert(s@[i + 4] == s@.subrange(i as int, i + 5)[4]);
                }
            }
            Option::None
        }
    } else if c == '"' {
        match parse_string_exec(s, i + 1) {
            Option::Some((cs, j)) => Option::Some((Json::Str(cs), j)),
            Option::None => Option::None,
        }
    } else if c == '-' || (48 <= c as u32 && c as u32 <= 57) {
        match parse_number_exec(s, i) {
            Option::Some((cs, j)) => Option::Some((Json::Num(cs), j)),
            Option::None => Option::None,
        }
    } else if c == '[' {
        let k = skip_ws_exec(s, i + 1);
        proof {
            assert(clamp_pos(s@, skip_ws(s@, i + 1), i + 1) == k as int);
        }
        if k == n {
            return Option::None;
        }
        if s[k] == ']' {
            let empty: Vec<Json> = Vec::new();
            proof {
                lemma_jview_arr(empty@, 0);
                assert(jview(Json::Arr(empty)) == JsonV::Arr(Seq::empty()));
            }
            return Option::Some((Json::Arr(empty), k + 1));
        }
        match parse_value_exec(s, k) {
            Option::None => Option::None,
            Option::Some((v, j)) => {
                match parse_elems_rest_exec(s, j) {
                    Option::None => Option::None,
                    Option::Some((tail, j2)) => {
                        let ghost tailv = jview_arr(tail@, 0);
                        proof {
                            lemma_jview_arr(tail@, 0);
                        }
                        let mut arr = tail;
                        arr.insert(0, v);
                        proof {
                            lemma_jview_arr(arr@, 0);
                            assert(jview_arr(arr@, 0) =~= seq![jview(v)] + tailv);
                            assert(jview(Json::Arr(arr)) =~= JsonV::Arr(
                                seq![jview(v)] + tailv,
                            ));
                        }
                        Option::Some((Json::Arr(arr), j2))
                    },
                }
            },
        }
    } else if c == '{' {
        let k = skip_ws_exec(s, i + 1);
        proof {
            assert(clamp_pos(s@, skip_ws(s@, i + 1), i + 1) == k as int);
        }
        if k == n {
            return Option::None;
        }
        if s[k] == '}' {
            let empty: Vec<Entry> = Vec::new();
            proof {
                lemma_jview_obj(empty@, 0);
                assert(jview(Json::Obj(empty)) == JsonV::Obj(Seq::empty()));
            }
            return Option::Some((Json::Obj(empty), k + 1));
        }
        match parse_member_exec(s, k) {
            Option::None => Option::None,
            Option::Some((first, j)) => {
                match parse_membs_rest_exec(s, j) {
                    Option::None => Option::None,
                    Option::Some((tail, j2)) => {
                        let ghost tailv = jview_obj(tail@, 0);
                        let ghost firstv = eview(first);
                        proof {
                            lemma_jview_obj(tail@, 0);
                        }
                        let mut raw = tail;
                        raw.insert(0, first);
                        proof {
                            lemma_jview_obj(raw@, 0);
                            assert(jview_obj(raw@, 0) =~= seq![firstv] + tailv);
                        }
                        let es = dedup_exec(raw);
                        proof {
                            assert(jview(Json::Obj(es)) =~= JsonV::Obj(
                                dedup_entries(seq![firstv] + tailv),
                            ));
                        }
                        Option::Some((Json::Obj(es), j2))
                    },
                }
            },
        }
    } else {
        Option::None
    }
}

/// Parse one `"key": value` member.
fn parse_member_exec(s: &Vec<char>, i: usize) -> (r: Option<(Entry, usize)>)
    requires
        i <= s@.len(),
    ensures
        match r {
            Option::Some((e, j)) => parse_member(s@, i as int) == Option::Some(
                (eview(e), j as int),
            ) && i < j <= s@.len(),
            Option::None => parse_member(s@, i as int) is None,
        },
    decreases s@.len() - i, 1int,
{
    let n = s.len();
    if i == n || !(s[i] == '"') {
        return Option::None;
    }
    match parse_string_exec(s, i + 1) {
        Option::None => Option::None,
        Option::Some((key, j1)) => {
            let k2 = skip_ws_exec(s, j1);
            proof {
                assert(clamp_pos(s@, skip_ws(s@, j1 as int), j1 as int) == k2 as int);
            }
            if k2 == n || !(s[k2] == ':') {
                return Option::None;
            }
            let k3 = skip_ws_exec(s, k2 + 1);
            proof {
                assert(clamp_pos(s@, skip_ws(s@, k2 + 1), k2 + 1) == k3 as int);
            }
            match parse_value_exec(s, k3) {
                Option::None => Option::None,
                Option::Some((v, j)) => Option::Some((Entry { key, value: v }, j)),
            }
        },
    }
}

/// Parse what follows a complete array element.
fn parse_elems_rest_exec(s: &Vec<char>, i: usize) -> (r: Option<(Vec<Json>, usize)>)
    requires
        i <= s@.len(),
    ensures
        match r {
            Option::Some((vs, j)) => parse_elems_rest(s@, i as int) == Option::Some(
                (jview_arr(vs@, 0), j as int),
            ) && i < j <= s@.len(),
            Option::None => parse_elems_rest(s@, i as int) is None,
        },
    decreases s@.len() - i, 3int,
{
    let n = s.len();
    let k = skip_ws_exec(s, i);
    proof {
        assert(clamp_pos(s@, skip_ws(s@, i as int), i as int) == k as int);
    }
    if k == n {
        return Option::None;
    }
    if s[k] == ']' {
        proof {
            lemma_jview_arr(Seq::<Json>::empty(), 0);
            assert(jview_arr(Seq::<Json>::empty(), 0) =~= Seq::<JsonV>::empty());
        }
        return Option::Some((Vec::new(), k + 1));
    }
    if s[k] == ',' {
        let k2 = skip_ws_exec(s, k + 1);
        proof {
            assert(clamp_pos(s@, skip_ws(s@, k + 1), k + 1) == k2 as int);
        }
        match parse_value_exec(s, k2) {
            Option::None => Option::None,
            Option::Some((v, j)) => {
                match parse_elems_rest_exec(s, j) {
                    Option::None => Option::None,
                    Option::Some((tail, j2)) => {
                        let ghost tailv = jview_arr(tail@, 0);
                        proof {
                            lemma_jview_arr(tail@, 0);
                        }
                        let mut arr = tail;
                        arr.insert(0, v);
                        proof {
                            lemma_jview_arr(arr@, 0);
                            assert(jview_arr(arr@, 0) =~= seq![jview(v)] + tailv);
                        }
                        Option::Some((arr, j2))
                    },
                }
            },
        }
    } else {
        Option::None
    }
}

/// Parse what follows a complete object member.
fn parse_membs_rest_exec(s: &Vec<char>, i: usize) -> (r: Option<(Vec<Entry>, usize)>)
    requires
        i <= s@.len(),
    ensures
        match r {
            Option::Some((es, j)) => parse_membs_rest(s@, i as int) == Option::Some(
                (jview_obj(es@, 0), j as int),
            ) && i < j <= s@.len(),
            Option::None => parse_membs_rest(s@, i as int) is None,
        },
    decreases s@.len() - i, 3int,
{
    let n = s.len();
    let k = skip_ws_exec(s, i);
    proof {
        assert(clamp_pos(s@, skip_ws(s@, i as int), i as int) == k as int);
    }
    if k == n {
        return Option::None;
    }
    if s[k] == '}' {
        proof {
            lemma_jview_obj(Seq::<Entry>::empty(), 0);
            assert(jview_obj(Seq::<Entry>::empty(), 0) =~= Seq::<(Seq<char>, JsonV)>::empty());
        }
        return Option::Some((Vec::new(), k + 1));
    }
    if s[k] == ',' {
        let k2 = skip_ws_exec(s, k + 1);
        proof {
            assert(clamp_pos(s@, skip_ws(s@, k + 1), k + 1) == k2 as int);
        }
        match parse_member_exec(s, k2) {
            Option::None => Option::None,
            Option::Some((e, j)) => {
                match parse_membs_rest_exec(s, j) {
                    Option::None => Option::None,
                    Option::Some((tail, j2)) => {
                        let ghost tailv = jview_obj(tail@, 0);
                        let ghost ev1 = eview(e);
                        proof {
                            lemma_jview_obj(tail@, 0);
                        }
                        let mut es = tail;
                        es.insert(0, e);
                        proof {
                            lemma_jview_obj(es@, 0);
                            assert(jview_obj(es@, 0) =~= seq![ev1] + tailv);
                        }
                        Option::Some((es, j2))
                    },
                }
            },
        }
    } else {
        Option::None
    }
}

/// Parse a whole text.
pub fn parse_json_exec(s: &Vec<char>) -> (r: Option<Json>)
    ensures
        match r {
            Option::Some(v) => parse_json(s@) == Option::Some(jview(v)),
            Option::None => parse_json(s@) is None,
        },
{
    let k = skip_ws_exec(s, 0);
    proof {
        assert(clamp_pos(s@, skip_ws(s@, 0), 0) == k as int);
    }
    match parse_value_exec(s, k) {
        Option::None => Option::None,
        Option::Some((v, j)) => {
            let e = skip_ws_exec(s, j);
            if e == s.len() {
                Option::Some(v)
            } else {
                proof {
                    assert(skip_ws(s@, j as int) != s@.len());
                }
                Option::None
            }
        },
    }
}

} // verus!
