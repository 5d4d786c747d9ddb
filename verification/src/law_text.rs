//! Preservation of the byte-order marker: the output starts with the marker
//! exactly when the input did.

use vstd::prelude::*;
use crate::value::JsonV;
use crate::parse::{parse_value, parse_json, parse_number, is_digit, lemma_parse_number_bounds,
    clamp_pos, skip_ws};
use crate::render::{render, render_c, render_p, quoted};
use crate::classify::canon_value;
use crate::{canonicalize_spec, has_bom, bom_char};

verus! {

/// A parsed number's characters start with a sign or a digit.
proof fn lemma_parse_num_shape(s: Seq<char>, i: int)
    requires
        0 <= i <= s.len(),
    ensures
        parse_value(s, i) matches Option::Some(p) ==> (p.0 matches JsonV::Num(cs) ==> cs.len() > 0
            && (cs[0] == '-' || is_digit(cs[0]))),
{
    if 0 <= i < s.len() {
        let c = s[i];
        if c == '-' || is_digit(c) {
            lemma_parse_number_bounds(s, i);
            match parse_number(s, i) {
                Option::Some(p) => {
                    assert(p.0[0] == s.subrange(i, p.1)[0]);
                    assert(p.0[0] == s[i]);
                },
                Option::None => {},
            }
        }
    }
}

/// Rendered text never starts with the byte-order marker.
proof fn lemma_render_head(v: JsonV, pretty: bool)
    requires
        v matches JsonV::Num(cs) ==> cs.len() > 0 && (cs[0] == '-' || is_digit(cs[0])),
    ensures
        render(v, pretty).len() > 0,
        render(v, pretty)[0] != bom_char(),
{
    let r = render(v, pretty);
    assert(('\u{feff}' as u32) == 0xFEFF);
    match v {
        JsonV::Null => {
            assert(r[0] == 'n');
        },
        JsonV::Bool(b) => {
            if b {
                assert(r[0] == 't');
            } else {
                assert(r[0] == 'f');
            }
        },
        JsonV::Num(cs) => {
            assert(r == cs);
            if cs[0] == '-' {
                assert(('-' as u32) == 45);
                crate::order::lemma_char_cast_inj(cs[0], cs[0]);
                if cs[0] == bom_char() {
                    assert(false);
                }
            } else {
                if cs[0] == bom_char() {
                    assert((cs[0] as u32) == 0xFEFF);
                    assert(false);
                }
            }
        },
        JsonV::Str(cs) => {
            assert(r[0] == '"');
        },
        JsonV::Arr(a) => {
            assert(r[0] == '[');
        },
        JsonV::Obj(es) => {
            assert(r[0] == '{');
        },
    }
}

/// The byte-order marker is preserved: present in the output exactly when it
/// led the input, and never introduced.
pub proof fn lemma_bom_preserved(s: Seq<char>, pretty: bool)
    ensures
        canonicalize_spec(s, pretty) matches Option::Some(out) ==> out.len() > 0 && ((out[0]
            == bom_char()) <==> has_bom(s)),
{
    let body = if has_bom(s) {
        s.drop_first()
    } else {
        s
    };
    match canonicalize_spec(s, pretty) {
        Option::Some(out) => {
            let v = parse_json(body)->Some_0;
            let k = clamp_pos(body, skip_ws(body, 0), 0);
            lemma_parse_num_shape(body, k);
            let cv = canon_value(v);
            assert(cv matches JsonV::Num(cs) ==> v == cv);
            lemma_render_head(cv, pretty);
            let rendered = render(cv, pretty);
            if has_bom(s) {
                assert(out[0] == bom_char());
            } else {
                assert(out[0] == rendered[0]);
            }
        },
        Option::None => {},
    }
}

} // verus!
