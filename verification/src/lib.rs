//! Canonicalize a package manifest: a JSON object's keys are brought into a
//! deterministic order (recognized fields by their fixed priority, then
//! unknown public fields, then private fields), recognized fields' values are
//! put through their transforms, and the result is rendered as text.

use vstd::prelude::*;

pub mod classify;
pub mod law_canon;
pub mod law_keys;
pub mod law_uniq;
pub mod law_shape;
pub mod law_text;
pub mod laws;
pub mod order;
pub mod parse;
pub mod render;
pub mod transform;
pub mod schema;
pub mod text;
pub mod value;

use crate::classify::{canon_value, canon_value_exec};
use crate::parse::{parse_json, parse_json_exec};
use crate::render::render;
use crate::text::{str_chars, chars_string};
use crate::value::{Json, JsonV, jview};

verus! {

/// Options controlling the rendering of the canonical text.
pub struct SortOptions {
    /// Whether to pretty-print the output.
    pub pretty: bool,
}

impl Default for SortOptions {
    /// The default is pretty-printed output.
    fn default() -> (r: Self)
        ensures
            r.pretty == true,
    {
        SortOptions { pretty: true }
    }
}

/// The one failure mode: the input is not well-formed JSON.
#[derive(Debug)]
pub struct ParseError {}

/// The byte-order marker character.
pub open spec fn bom_char() -> char {
    '\u{feff}'
}

/// Does the text start with the byte-order marker?
pub open spec fn has_bom(s: Seq<char>) -> bool {
    s.len() > 0 && s[0] == bom_char()
}

/// The whole canonicalization, as a function from input text to output text:
/// strip a leading byte-order marker, parse, reorder a top-level object, and
/// render, restoring the marker and ending pretty output with one newline.
/// `None` is malformed input, the only failure.
pub open spec fn canonicalize_spec(s: Seq<char>, pretty: bool) -> Option<Seq<char>> {
    let body = if has_bom(s) {
        s.drop_first()
    } else {
        s
    };
    match parse_json(body) {
        Option::Some(v) => Option::Some(
            (if has_bom(s) {
                seq![bom_char()]
            } else {
                Seq::empty()
            }) + render(canon_value(v), pretty) + (if pretty {
                seq!['\n']
            } else {
                Seq::empty()
            }),
        ),
        Option::None => Option::None,
    }
}

/// Canonicalize a manifest text under the given options.
pub fn sort_package_json_with_options(input: &str, options: &SortOptions) -> (r: Result<
    String,
    ParseError,
>)
    ensures
        r is Ok <==> canonicalize_spec(input@, options.pretty) is Some,
        r matches Result::Ok(out) ==> canonicalize_spec(input@, options.pretty) == Option::Some(
            out@,
        ),
{
    let chars = str_chars(input);
    let bom = chars.len() > 0 && chars[0] == '\u{feff}';
    proof {
        assert(bom == has_bom(input@));
    }
    let mut body = chars;
    if bom {
        body.remove(0);
        proof {
            assert(body@ =~= input@.drop_first());
        }
    }
    match parse_json_exec(&body) {
        Option::None => Result::Err(ParseError {  }),
        Option::Some(v) => {
            let cv = canon_value_exec(v);
            let rendered = crate::render::render_json(&cv, options.pretty);
            let mut out: Vec<char> = Vec::new();
            if bom {
                out.push('\u{feff}');
            }
            let mut tail = rendered;
            out.append(&mut tail);
            if options.pretty {
                out.push('\n');
            }
            proof {
                assert(out@ =~= (if has_bom(input@) {
                    seq![bom_char()]
                } else {
                    Seq::<char>::empty()
                }) + render(canon_value(jview(v)), options.pretty) + (if options.pretty {
                    seq!['\n']
                } else {
                    Seq::<char>::empty()
                }));
            }
            Result::Ok(chars_string(&out))
        },
    }
}

/// Canonicalize a manifest text with the default options: pretty output.
pub fn sort_package_json(input: &str) -> (r: Result<String, ParseError>)
    ensures
        r is Ok <==> canonicalize_spec(input@, true) is Some,
        r matches Result::Ok(out) ==> canonicalize_spec(input@, true) == Option::Some(out@),
{
    let options = SortOptions::default();
    sort_package_json_with_options(input, &options)
}

} // verus!
