//! The serializer: canonical values to text, in pretty or compact form.

use vstd::prelude::*;
use crate::value::{Json, JsonV, Entry, jview, jview_arr, jview_obj, eview, lemma_jview_arr,
    lemma_jview_obj};

verus! {

broadcast use vstd::std_specs::vec::axiom_vec_decreases_to_view, vstd::seq::axiom_seq_index_decreases;

/// The hexadecimal digit of a value below sixteen.
pub open spec fn hex_digit(n: int) -> char {
    if n == 0 {
        '0'
    } else if n == 1 {
        '1'
    } else if n == 2 {
        '2'
    } else if n == 3 {
        '3'
    } else if n == 4 {
        '4'
    } else if n == 5 {
        '5'
    } else if n == 6 {
        '6'
    } else if n == 7 {
        '7'
    } else if n == 8 {
        '8'
    } else if n == 9 {
        '9'
    } else if n == 10 {
        'a'
    } else if n == 11 {
        'b'
    } else if n == 12 {
        'c'
    } else if n == 13 {
        'd'
    } else if n == 14 {
        'e'
    } else {
        'f'
    }
}

/// How one character appears inside a rendered string: quote, backslash and
/// control characters are escaped, anything else stands as itself.
pub open spec fn esc_char(c: char) -> Seq<char> {
    if c == '"' {
        seq!['\\', '"']
    } else if c == '\\' {
        seq!['\\', '\\']
    } else if c == '\u{8}' {
        seq!['\\', 'b']
    } else if c == '\t' {
        seq!['\\', 't']
    } else if c == '\n' {
        seq!['\\', 'n']
    } else if c == '\u{c}' {
        seq!['\\', 'f']
    } else if c == '\r' {
        seq!['\\', 'r']
    } else if (c as u32) < 0x20 {
        seq!['\\', 'u', '0', '0', hex_digit((c as u32) as int / 16), hex_digit(
            (c as u32) as int % 16,
        )]
    } else {
        seq![c]
    }
}

/// A string's characters, escaped.
pub open spec fn escape(s: Seq<char>) -> Seq<char>
    decreases s.len(),
{
    if s.len() == 0 {
        Seq::empty()
    } else {
        esc_char(s[0]) + escape(s.drop_first())
    }
}

pub proof fn lemma_escape_concat(s1: Seq<char>, s2: Seq<char>)
    ensures
        escape(s1 + s2) == escape(s1) + escape(s2),
    decreases s1.len(),
{
    if s1.len() == 0 {
        assert(s1 + s2 =~= s2);
        assert(escape(s1) + escape(s2) =~= escape(s2));
    } else {
        assert((s1 + s2)[0] == s1[0]);
        assert((s1 + s2).drop_first() =~= s1.drop_first() + s2);
        lemma_escape_concat(s1.drop_first(), s2);
        assert(escape(s1 + s2) =~= escape(s1) + escape(s2));
    }
}

/// A rendered string: quoted and escaped.
pub open spec fn quoted(s: Seq<char>) -> Seq<char> {
    seq!['"'] + escape(s) + seq!['"']
}

/// The compact rendering: no insignificant whitespace.
pub open spec fn render_c(v: JsonV) -> Seq<char>
    decreases v, 0int, 0int,
{
    match v {
        JsonV::Null => seq!['n', 'u', 'l', 'l'],
        JsonV::Bool(b) => if b {
            seq!['t', 'r', 'u', 'e']
        } else {
            seq!['f', 'a', 'l', 's', 'e']
        },
        JsonV::Num(s) => s,
        JsonV::Str(s) => quoted(s),
        JsonV::Arr(a) => seq!['['] + render_c_arr(a, 0) + seq![']'],
        JsonV::Obj(es) => seq!['{'] + render_c_obj(es, 0) + seq!['}'],
    }
}

pub open spec fn render_c_arr(a: Seq<JsonV>, i: int) -> Seq<char>
    decreases a, a.len() - i, 1int,
{
    if i < 0 || i >= a.len() {
        Seq::empty()
    } else if i == a.len() - 1 {
        render_c(a[i])
    } else {
        render_c(a[i]) + seq![','] + render_c_arr(a, i + 1)
    }
}

pub open spec fn render_c_obj(es: Seq<(Seq<char>, JsonV)>, i: int) -> Seq<char>
    decreases es, es.len() - i, 1int,
{
    if i < 0 || i >= es.len() {
        Seq::empty()
    } else if i == es.len() - 1 {
        quoted(es[i].0) + seq![':'] + render_c(es[i].1)
    } else {
        quoted(es[i].0) + seq![':'] + render_c(es[i].1) + seq![','] + render_c_obj(es, i + 1)
    }
}

/// The pretty rendering: two spaces of indentation per level.
pub open spec fn render_p(v: JsonV, pad: Seq<char>) -> Seq<char>
    decreases v, 0int, 0int,
{
    match v {
        JsonV::Arr(a) => if a.len() == 0 {
            seq!['[', ']']
        } else {
            seq!['['] + render_p_arr(a, 0, pad + seq![' ', ' ']) + seq!['\n'] + pad + seq![']']
        },
        JsonV::Obj(es) => if es.len() == 0 {
            seq!['{', '}']
        } else {
            seq!['{'] + render_p_obj(es, 0, pad + seq![' ', ' ']) + seq!['\n'] + pad + seq!['}']
        },
        _ => render_c(v),
    }
}

pub open spec fn render_p_arr(a: Seq<JsonV>, i: int, pad: Seq<char>) -> Seq<char>
    decreases a, a.len() - i, 1int,
{
    if i < 0 || i >= a.len() {
        Seq::empty()
    } else if i == a.len() - 1 {
        seq!['\n'] + pad + render_p(a[i], pad)
    } else {
        seq!['\n'] + pad + render_p(a[i], pad) + seq![','] + render_p_arr(a, i + 1, pad)
    }
}

pub open spec fn render_p_obj(es: Seq<(Seq<char>, JsonV)>, i: int, pad: Seq<char>) -> Seq<char>
    decreases es, es.len() - i, 1int,
{
    if i < 0 || i >= es.len() {
        Seq::empty()
    } else if i == es.len() - 1 {
        seq!['\n'] + pad + quoted(es[i].0) + seq![':', ' '] + render_p(es[i].1, pad)
    } else {
        seq!['\n'] + pad + quoted(es[i].0) + seq![':', ' '] + render_p(es[i].1, pad) + seq![',']
            + render_p_obj(es, i + 1, pad)
    }
}

/// The rendering under the chosen mode.
pub open spec fn render(v: JsonV, pretty: bool) -> Seq<char> {
    if pretty {
        render_p(v, Seq::empty())
    } else {
        render_c(v)
    }
}

fn hex_digit_exec(n: u32) -> (r: char)
    requires
        n < 16,
    ensures
        r == hex_digit(n as int),
{
    if n == 0 {
        '0'
    } else if n == 1 {
        '1'
    } else if n == 2 {
        '2'
    } else if n == 3 {
        '3'
    } else if n == 4 {
        '4'
    } else if n == 5 {
        '5'
    } else if n == 6 {
        '6'
    } else if n == 7 {
        '7'
    } else if n == 8 {
        '8'
    } else if n == 9 {
        '9'
    } else if n == 10 {
        'a'
    } else if n == 11 {
        'b'
    } else if n == 12 {
        'c'
    } else if n == 13 {
        'd'
    } else if n == 14 {
        'e'
    } else {
        'f'
    }
}

/// Write one escaped character.
fn push_esc_char(c: char, out: &mut Vec<char>)
    ensures
        final(out)@ == old(out)@ + esc_char(c),
{
    if c == '"' {
        out.push('\\');
        out.push('"');
    } else if c == '\\' {
        out.push('\\');
        out.push('\\');
    } else if c == '\u{8}' {
        out.push('\\');
        out.push('b');
    } else if c == '\t' {
        out.push('\\');
        out.push('t');
    } else if c == '\n' {
        out.push('\\');
        out.push('n');
    } else if c == '\u{c}' {
        out.push('\\');
        out.push('f');
    } else if c == '\r' {
        out.push('\\');
        out.push('r');
    } else if (c as u32) < 0x20 {
        let u = c as u32;
        out.push('\\');
        out.push('u');
        out.push('0');
        out.push('0');
        out.push(hex_digit_exec(u / 16));
        out.push(hex_digit_exec(u % 16));
    } else {
        out.push(c);
    }
    proof {
        assert(final(out)@ =~= old(out)@ + esc_char(c));
    }
}

/// Write a quoted, escaped string.
fn push_quoted(s: &Vec<char>, out: &mut Vec<char>)
    ensures
        final(out)@ == old(out)@ + quoted(s@),
{
    out.push('"');
    let n = s.len();
    let ghost base = out@;
    proof {
        assert(s@.take(0) =~= Seq::empty());
        assert(escape(Seq::empty()) =~= Seq::empty());
        assert(out@ =~= base + escape(s@.take(0)));
    }
    let mut i: usize = 0;
    while i < n
        invariant
            0 <= i <= n,
            n == s@.len(),
            out@ == base + escape(s@.take(i as int)),
        decreases n - i,
    {
        push_esc_char(s[i], out);
        proof {
            assert(s@.take(i + 1) =~= s@.take(i as int) + seq![s@[i as int]]);
            lemma_escape_concat(s@.take(i as int), seq![s@[i as int]]);
            assert(seq![s@[i as int]].drop_first() =~= Seq::<char>::empty());
            assert(escape(Seq::<char>::empty()) == Seq::<char>::empty());
            assert(escape(seq![s@[i as int]]) =~= esc_char(s@[i as int]));
            assert(out@ =~= base + escape(s@.take(i + 1)));
        }
        i = i + 1;
    }
    out.push('"');
    proof {
        assert(s@.take(n as int) =~= s@);
        assert(out@ =~= old(out)@ + quoted(s@));
    }
}

/// Write a whole vector of characters.
fn push_all(s: &Vec<char>, out: &mut Vec<char>)
    ensures
        final(out)@ == old(out)@ + s@,
{
    let n = s.len();
    let ghost base = out@;
    proof {
        assert(out@ =~= base + s@.take(0));
    }
    let mut i: usize = 0;
    while i < n
        invariant
            0 <= i <= n,
            n == s@.len(),
            out@ == base + s@.take(i as int),
        decreases n - i,
    {
        out.push(s[i]);
        proof {
            assert(out@ =~= base + s@.take(i + 1));
        }
        i = i + 1;
    }
    proof {
        assert(s@.take(n as int) =~= s@);
    }
}

/// Write the compact rendering of a value.
fn render_c_exec(v: &Json, out: &mut Vec<char>)
    ensures
        final(out)@ == old(out)@ + render_c(jview(*v)),
    decreases *v,
{
    match v {
        Json::Null => {
            out.push('n');
            out.push('u');
            out.push('l');
            out.push('l');
            proof {
                assert(final(out)@ =~= old(out)@ + render_c(jview(*v)));
            }
        },
        Json::Bool(b) => {
            if *b {
                out.push('t');
                out.push('r');
                out.push('u');
                out.push('e');
            } else {
                out.push('f');
                out.push('a');
                out.push('l');
                out.push('s');
                out.push('e');
            }
            proof {
                assert(final(out)@ =~= old(out)@ + render_c(jview(*v)));
            }
        },
        Json::Num(s) => {
            push_all(s, out);
        },
        Json::Str(s) => {
            push_quoted(s, out);
        },
        Json::Arr(a) => {
            let ghost av = jview_arr(a@, 0);
            proof {
                lemma_jview_arr(a@, 0);
            }
            out.push('[');
            let ghost base = out@;
            let n = a.len();
            let mut i: usize = 0;
            while i < n
                invariant
                    0 <= i <= n,
                    n == a@.len(),
                    av == jview_arr(a@, 0),
                    av.len() == n,
                    forall|k: int| 0 <= k < n ==> #[trigger] av[k] == jview(a@[k]),
                    i < n ==> out@ + render_c_arr(av, i as int) == base + render_c_arr(av, 0),
                    i == n ==> out@ == base + render_c_arr(av, 0),
                    *v == Json::Arr(*a),
                decreases n - i,
            {
                let ghost pre = out@;
                proof {
                    assert(decreases_to!(*v => (*v)->Arr_0));
                    assert((*v)->Arr_0 == *a);
                    assert(decreases_to!(*a => a@));
                    assert(decreases_to!(a@ => a@[i as int]));
                }
                render_c_exec(&a[i], out);
                proof {
                    assert(out@ == pre + render_c(av[i as int]));
                }
                if i + 1 < n {
                    out.push(',');
                    proof {
                        assert(render_c_arr(av, i as int) == render_c(av[i as int]) + seq![',']
                            + render_c_arr(av, i + 1));
                        assert(out@ + render_c_arr(av, i + 1) =~= pre + render_c_arr(
                            av,
                            i as int,
                        ));
                    }
                } else {
                    proof {
                        assert(i == n - 1);
                        assert(render_c_arr(av, i as int) == render_c(av[i as int]));
                        assert(out@ =~= pre + render_c_arr(av, i as int));
                    }
                }
                i = i + 1;
            }
            out.push(']');
            proof {
                if n == 0 {
                    assert(render_c_arr(av, 0) =~= Seq::empty());
                    assert(base =~= base + render_c_arr(av, 0));
                }
                assert(final(out)@ =~= old(out)@ + (seq!['['] + render_c_arr(av, 0) + seq![']']));
            }
        },
        Json::Obj(es) => {
            let ghost ev = jview_obj(es@, 0);
            proof {
                lemma_jview_obj(es@, 0);
            }
            out.push('{');
            let ghost base = out@;
            let n = es.len();
            let mut i: usize = 0;
            while i < n
                invariant
                    0 <= i <= n,
                    n == es@.len(),
                    ev == jview_obj(es@, 0),
                    ev.len() == n,
                    forall|k: int| 0 <= k < n ==> #[trigger] ev[k] == eview(es@[k]),
                    i < n ==> out@ + render_c_obj(ev, i as int) == base + render_c_obj(ev, 0),
                    i == n ==> out@ == base + render_c_obj(ev, 0),
                    *v == Json::Obj(*es),
                decreases n - i,
            {
                let ghost pre = out@;
                push_quoted(&es[i].key, out);
                out.push(':');
                proof {
                    assert(decreases_to!(*v => (*v)->Obj_0));
                    assert((*v)->Obj_0 == *es);
                    assert(decreases_to!(*es => es@));
                    assert(decreases_to!(es@ => es@[i as int]));
                    assert(decreases_to!(es@[i as int] => es@[i as int].value));
                }
                render_c_exec(&es[i].value, out);
                proof {
                    assert(ev[i as int].0 == es@[i as int].key@);
                    assert(ev[i as int].1 == jview(es@[i as int].value));
                    assert(out@ =~= pre + (quoted(ev[i as int].0) + seq![':'] + render_c(
                        ev[i as int].1,
                    )));
                }
                if i + 1 < n {
                    out.push(',');
                    proof {
                        assert(render_c_obj(ev, i as int) == quoted(ev[i as int].0) + seq![':']
                            + render_c(ev[i as int].1) + seq![','] + render_c_obj(ev, i + 1));
                        assert(out@ + render_c_obj(ev, i + 1) =~= pre + render_c_obj(
                            ev,
                            i as int,
                        ));
                    }
                } else {
                    proof {
                        assert(i == n - 1);
                        assert(render_c_obj(ev, i as int) == quoted(ev[i as int].0) + seq![':']
                            + render_c(ev[i as int].1));
                        assert(out@ =~= pre + render_c_obj(ev, i as int));
                    }
                }
                i = i + 1;
            }
            out.push('}');
            proof {
                if n == 0 {
                    assert(render_c_obj(ev, 0) =~= Seq::empty());
                    assert(base =~= base + render_c_obj(ev, 0));
                }
                assert(final(out)@ =~= old(out)@ + (seq!['{'] + render_c_obj(ev, 0) + seq!['}']));
            }
        },
    }
}

/// Write the pretty rendering of a value at the given indentation.
#[verifier::rlimit(100)]
fn render_p_exec(v: &Json, pad: &mut Vec<char>, out: &mut Vec<char>)
    ensures
        final(out)@ == old(out)@ + render_p(jview(*v), old(pad)@),
        final(pad)@ == old(pad)@,
    decreases *v,
{
    match v {
        Json::Arr(a) => {
            let n = a.len();
            if n == 0 {
                out.push('[');
                out.push(']');
                proof {
                    assert(jview_arr(a@, 0).len() == 0) by {
                        lemma_jview_arr(a@, 0);
                    }
                    assert(final(out)@ =~= old(out)@ + render_p(jview(*v), old(pad)@));
                }
                return ;
            }
            let ghost av = jview_arr(a@, 0);
            proof {
                lemma_jview_arr(a@, 0);
            }
            out.push('[');
            pad.push(' ');
            pad.push(' ');
            let ghost pad0 = old(pad)@;
            let ghost padc = pad@;
            proof {
                assert(padc =~= pad0 + seq![' ', ' ']);
            }
            let ghost base = out@;
            let mut i: usize = 0;
            while i < n
                invariant
                    0 <= i <= n,
                    n == a@.len(),
                    av == jview_arr(a@, 0),
                    av.len() == n,
                    forall|k: int| 0 <= k < n ==> #[trigger] av[k] == jview(a@[k]),
                    pad@ == padc,
                    i < n ==> out@ + render_p_arr(av, i as int, padc) == base + render_p_arr(
                        av,
                        0,
                        padc,
                    ),
                    i == n ==> out@ == base + render_p_arr(av, 0, padc),
                    *v == Json::Arr(*a),
                decreases n - i,
            {
                let ghost pre = out@;
                out.push('\n');
                push_all(pad, out);
                proof {
                    assert(decreases_to!(*v => (*v)->Arr_0));
                    assert((*v)->Arr_0 == *a);
                    assert(decreases_to!(*a => a@));
                    assert(decreases_to!(a@ => a@[i as int]));
                }
                render_p_exec(&a[i], pad, out);
                proof {
                    assert(out@ =~= pre + (seq!['\n'] + padc + render_p(av[i as int], padc)));
                }
                if i + 1 < n {
                    out.push(',');
                    proof {
                        assert(render_p_arr(av, i as int, padc) == seq!['\n'] + padc + render_p(
                            av[i as int],
                            padc,
                        ) + seq![','] + render_p_arr(av, i + 1, padc));
                        assert(out@ + render_p_arr(av, i + 1, padc) =~= pre + render_p_arr(
                            av,
                            i as int,
                            padc,
                        ));
                    }
                } else {
                    proof {
                        assert(i == n - 1);
                        assert(render_p_arr(av, i as int, padc) == seq!['\n'] + padc + render_p(
                            av[i as int],
                            padc,
                        ));
                        assert(out@ =~= pre + render_p_arr(av, i as int, padc));
                    }
                }
                i = i + 1;
            }
            pad.pop();
            pad.pop();
            proof {
                assert(pad@ =~= pad0);
            }
            out.push('\n');
            push_all(pad, out);
            out.push(']');
            proof {
                assert(final(out)@ =~= old(out)@ + (seq!['['] + render_p_arr(av, 0, pad0 + seq![
                    ' ',
                    ' ',
                ]) + seq!['\n'] + pad0 + seq![']']));
            }
        },
        Json::Obj(es) => {
            let n = es.len();
            if n == 0 {
                out.push('{');
                out.push('}');
                proof {
                    assert(jview_obj(es@, 0).len() == 0) by {
                        lemma_jview_obj(es@, 0);
                    }
                    assert(final(out)@ =~= old(out)@ + render_p(jview(*v), old(pad)@));
                }
                return ;
            }
            let ghost ev = jview_obj(es@, 0);
            proof {
                lemma_jview_obj(es@, 0);
            }
            out.push('{');
            pad.push(' ');
            pad.push(' ');
            let ghost pad0 = old(pad)@;
            let ghost padc = pad@;
            proof {
                assert(padc =~= pad0 + seq![' ', ' ']);
            }
            let ghost base = out@;
            let mut i: usize = 0;
            while i < n
                invariant
                    0 <= i <= n,
                    n == es@.len(),
                    ev == jview_obj(es@, 0),
                    ev.len() == n,
                    forall|k: int| 0 <= k < n ==> #[trigger] ev[k] == eview(es@[k]),
                    pad@ == padc,
                    i < n ==> out@ + render_p_obj(ev, i as int, padc) == base + render_p_obj(
                        ev,
                        0,
                        padc,
                    ),
                    i == n ==> out@ == base + render_p_obj(ev, 0, padc),
                    *v == Json::Obj(*es),
                decreases n - i,
            {
                let ghost pre = out@;
                out.push('\n');
                push_all(pad, out);
                push_quoted(&es[i].key, out);
                out.push(':');
                out.push(' ');
                proof {
                    assert(decreases_to!(*v => (*v)->Obj_0));
                    assert((*v)->Obj_0 == *es);
                    assert(decreases_to!(*es => es@));
                    assert(decreases_to!(es@ => es@[i as int]));
                    assert(decreases_to!(es@[i as int] => es@[i as int].value));
                }
                render_p_exec(&es[i].value, pad, out);
                proof {
                    assert(ev[i as int].0 == es@[i as int].key@);
                    assert(ev[i as int].1 == jview(es@[i as int].value));
                    assert(out@ =~= pre + (seq!['\n'] + padc + quoted(ev[i as int].0) + seq![
                        ':',
                        ' ',
                    ] + render_p(ev[i as int].1, padc)));
                }
                if i + 1 < n {
                    out.push(',');
                    proof {
                        assert(render_p_obj(ev, i as int, padc) == seq!['\n'] + padc + quoted(
                            ev[i as int].0,
                        ) + seq![':', ' '] + render_p(ev[i as int].1, padc) + seq![',']
                            + render_p_obj(ev, i + 1, padc));
                        assert(out@ + render_p_obj(ev, i + 1, padc) =~= pre + render_p_obj(
                            ev,
                            i as int,
                            padc,
                        ));
                    }
                } else {
                    proof {
                        assert(i == n - 1);
                        assert(render_p_obj(ev, i as int, padc) == seq!['\n'] + padc + quoted(
                            ev[i as int].0,
                        ) + seq![':', ' '] + render_p(ev[i as int].1, padc));
                        assert(out@ =~= pre + render_p_obj(ev, i as int, padc));
                    }
                }
                i = i + 1;
            }
            pad.pop();
            pad.pop();
            proof {
                assert(pad@ =~= pad0);
            }
            out.push('\n');
            push_all(pad, out);
            out.push('}');
            proof {
                assert(final(out)@ =~= old(out)@ + (seq!['{'] + render_p_obj(ev, 0, pad0 + seq![
                    ' ',
                    ' ',
                ]) + seq!['\n'] + pad0 + seq!['}']));
            }
        },
        _ => {
            render_c_exec(v, out);
        },
    }
}

/// Render a value as text, in the chosen mode.
pub fn render_json(v: &Json, pretty: bool) -> (r: Vec<char>)
    ensures
        r@ == render(jview(*v), pretty),
{
    let mut out: Vec<char> = Vec::new();
    if pretty {
        let mut pad: Vec<char> = Vec::new();
        render_p_exec(v, &mut pad, &mut out);
        proof {
            assert(out@ =~= render_p(jview(*v), Seq::empty()));
        }
    } else {
        render_c_exec(v, &mut out);
        proof {
            assert(out@ =~= render_c(jview(*v)));
        }
    }
    out
}

} // verus!
