//! The value transforms: pure functions over the JSON model, one per
//! transform tag, with their executable counterparts.

use vstd::prelude::*;
use vstd::relations::{sorted_by, strongly_connected, transitive};
use crate::order::{
    chars_le, chars_le_exec, chars_eq_exec, insert_sorted, sort_with, lemma_chars_le_total,
    lemma_chars_le_trans, lemma_chars_le_antisym, lemma_sort_with_basic, lemma_sort_with_sorted,
    lemma_sort_with_id, lemma_insert_sorted_basic,
};
use crate::value::{Json, JsonV, Entry, jview, jview_arr, jview_obj, eview, lemma_jview_arr,
    lemma_jview_obj, unique_keys};
use crate::schema::Tx;

verus! {

broadcast use vstd::std_specs::vec::axiom_vec_decreases_to_view, vstd::seq::axiom_seq_index_decreases;

/// Entry order: by key, lexicographically.
pub open spec fn entry_leq() -> spec_fn((Seq<char>, JsonV), (Seq<char>, JsonV)) -> bool {
    |a: (Seq<char>, JsonV), b: (Seq<char>, JsonV)| chars_le(a.0, b.0)
}

/// String order, lexicographic.
pub open spec fn str_leq() -> spec_fn(Seq<char>, Seq<char>) -> bool {
    |a: Seq<char>, b: Seq<char>| chars_le(a, b)
}

pub proof fn lemma_entry_leq_props()
    ensures
        strongly_connected(entry_leq()),
        transitive(entry_leq()),
{
    assert forall|a: (Seq<char>, JsonV), b: (Seq<char>, JsonV)|
        #[trigger] entry_leq()(a, b) || #[trigger] entry_leq()(b, a) by {
        lemma_chars_le_total(a.0, b.0);
    }
    assert forall|a: (Seq<char>, JsonV), b: (Seq<char>, JsonV), c: (Seq<char>, JsonV)|
        #[trigger] entry_leq()(a, b) && #[trigger] entry_leq()(b, c) implies entry_leq()(a, c) by {
        lemma_chars_le_trans(a.0, b.0, c.0);
    }
}

pub proof fn lemma_str_leq_props()
    ensures
        strongly_connected(str_leq()),
        transitive(str_leq()),
{
    assert forall|a: Seq<char>, b: Seq<char>| #[trigger] str_leq()(a, b) || #[trigger] str_leq()(
        b,
        a,
    ) by {
        lemma_chars_le_total(a, b);
    }
    assert forall|a: Seq<char>, b: Seq<char>, c: Seq<char>|
        #[trigger] str_leq()(a, b) && #[trigger] str_leq()(b, c) implies str_leq()(a, c) by {
        lemma_chars_le_trans(a, b, c);
    }
}

/// Sort an object's entries by key.
pub open spec fn sort_entries(es: Seq<(Seq<char>, JsonV)>) -> Seq<(Seq<char>, JsonV)> {
    sort_with(entry_leq(), es)
}

/// Sort one level of an object; anything else passes through.
pub open spec fn tx_alpha(v: JsonV) -> JsonV {
    match v {
        JsonV::Obj(es) => JsonV::Obj(sort_entries(es)),
        _ => v,
    }
}

/// Sort an object's entries by key, and do the same in every object value
/// below it; arrays are not entered.
pub open spec fn tx_rec(v: JsonV) -> JsonV
    decreases v, 0int,
{
    match v {
        JsonV::Obj(es) => JsonV::Obj(sort_entries(tx_rec_entries(es, 0))),
        _ => v,
    }
}

pub open spec fn tx_rec_entries(es: Seq<(Seq<char>, JsonV)>, i: int) -> Seq<(Seq<char>, JsonV)>
    decreases es, es.len() - i, 1int,
{
    if i < 0 || i >= es.len() {
        Seq::empty()
    } else {
        seq![(es[i].0, tx_rec(es[i].1))] + tx_rec_entries(es, i + 1)
    }
}

pub proof fn lemma_tx_rec_entries(es: Seq<(Seq<char>, JsonV)>, i: int)
    requires
        0 <= i <= es.len(),
    ensures
        tx_rec_entries(es, i).len() == es.len() - i,
        forall|k: int| 0 <= k < es.len() - i ==> #[trigger] tx_rec_entries(es, i)[k] == (
        es[k + i].0,
        tx_rec(es[k + i].1),
        ),
    decreases es.len() - i,
{
    if i < es.len() {
        lemma_tx_rec_entries(es, i + 1);
    }
}

/// The string content of a string value; empty for anything else.
pub open spec fn str_content(v: JsonV) -> Seq<char> {
    match v {
        JsonV::Str(s) => s,
        _ => Seq::empty(),
    }
}

pub open spec fn is_str_val(v: JsonV) -> bool {
    v is Str
}

/// Collapse adjacent equal elements of a sorted sequence.
pub open spec fn dedup_sorted(s: Seq<Seq<char>>) -> Seq<Seq<char>>
    decreases s.len(),
{
    if s.len() <= 1 {
        s
    } else if s[0] == s[1] {
        dedup_sorted(s.drop_first())
    } else {
        seq![s[0]] + dedup_sorted(s.drop_first())
    }
}

pub open spec fn p_is_str() -> spec_fn(JsonV) -> bool {
    |v: JsonV| is_str_val(v)
}

pub open spec fn p_non_str() -> spec_fn(JsonV) -> bool {
    |v: JsonV| !is_str_val(v)
}

pub open spec fn f_content() -> spec_fn(JsonV) -> Seq<char> {
    |v: JsonV| str_content(v)
}

pub open spec fn f_mk_str() -> spec_fn(Seq<char>) -> JsonV {
    |s: Seq<char>| JsonV::Str(s)
}

/// The strings of an array, in order.
pub open spec fn strs_of(a: Seq<JsonV>) -> Seq<Seq<char>> {
    a.filter(p_is_str()).map_values(f_content())
}

/// The non-strings of an array, in order.
pub open spec fn non_strs_of(a: Seq<JsonV>) -> Seq<JsonV> {
    a.filter(p_non_str())
}

/// Sorted, deduplicated strings first; then the non-strings, untouched and in
/// their original order.
pub open spec fn tx_uniq(v: JsonV) -> JsonV {
    match v {
        JsonV::Arr(a) => JsonV::Arr(
            dedup_sorted(sort_with(str_leq(), strs_of(a))).map_values(f_mk_str()) + non_strs_of(a),
        ),
        _ => v,
    }
}

/// The value of the first entry with the given key.
pub open spec fn lookup_entry(es: Seq<(Seq<char>, JsonV)>, k: Seq<char>) -> Option<JsonV>
    decreases es.len(),
{
    if es.len() == 0 {
        Option::None
    } else if es[0].0 == k {
        Option::Some(es[0].1)
    } else {
        lookup_entry(es.drop_first(), k)
    }
}

/// The listed keys that are present, in the order of the list, with their
/// values.
pub open spec fn picked(es: Seq<(Seq<char>, JsonV)>, order: Seq<Seq<char>>) -> Seq<
    (Seq<char>, JsonV),
>
    decreases order.len(),
{
    if order.len() == 0 {
        Seq::empty()
    } else {
        match lookup_entry(es, order[0]) {
            Option::Some(v) => seq![(order[0], v)] + picked(es, order.drop_first()),
            Option::None => picked(es, order.drop_first()),
        }
    }
}

pub open spec fn p_key_not_in(order: Seq<Seq<char>>) -> spec_fn((Seq<char>, JsonV)) -> bool {
    |e: (Seq<char>, JsonV)| !order.contains(e.0)
}

/// Emit the listed keys first, in the order of the list, then the remaining
/// entries sorted by key. Values are untouched.
pub open spec fn tx_key_order(order: Seq<Seq<char>>, v: JsonV) -> JsonV {
    match v {
        JsonV::Obj(es) => JsonV::Obj(
            picked(es, order) + sort_entries(es.filter(p_key_not_in(order))),
        ),
        _ => v,
    }
}

pub open spec fn people_order() -> Seq<Seq<char>> {
    seq![
        seq!['n', 'a', 'm', 'e'],
        seq!['e', 'm', 'a', 'i', 'l'],
        seq!['u', 'r', 'l'],
    ]
}

pub open spec fn bugs_order() -> Seq<Seq<char>> {
    seq![seq!['u', 'r', 'l'], seq!['e', 'm', 'a', 'i', 'l']]
}

pub open spec fn type_url_order() -> Seq<Seq<char>> {
    seq![seq!['t', 'y', 'p', 'e'], seq!['u', 'r', 'l']]
}

pub open spec fn directories_order() -> Seq<Seq<char>> {
    seq![
        seq!['l', 'i', 'b'],
        seq!['b', 'i', 'n'],
        seq!['m', 'a', 'n'],
        seq!['d', 'o', 'c'],
        seq!['e', 'x', 'a', 'm', 'p', 'l', 'e'],
        seq!['t', 'e', 's', 't'],
    ]
}

pub open spec fn binary_order() -> Seq<Seq<char>> {
    seq![
        seq!['m', 'o', 'd', 'u', 'l', 'e', '_', 'n', 'a', 'm', 'e'],
        seq!['m', 'o', 'd', 'u', 'l', 'e', '_', 'p', 'a', 't', 'h'],
        seq!['r', 'e', 'm', 'o', 't', 'e', '_', 'p', 'a', 't', 'h'],
        seq!['p', 'a', 'c', 'k', 'a', 'g', 'e', '_', 'n', 'a', 'm', 'e'],
        seq!['h', 'o', 's', 't'],
    ]
}

/// The person ordering: name, email, url, then the rest.
pub open spec fn tx_people(v: JsonV) -> JsonV {
    tx_key_order(people_order(), v)
}

/// Apply the person ordering to every object of an array; other elements and
/// the element order are untouched.
pub open spec fn tx_people_arr(v: JsonV) -> JsonV {
    match v {
        JsonV::Arr(a) => JsonV::Arr(Seq::new(a.len(), |i: int| tx_people(a[i]))),
        _ => v,
    }
}

pub open spec fn types_lit() -> Seq<char> {
    seq!['t', 'y', 'p', 'e', 's']
}

pub open spec fn default_lit() -> Seq<char> {
    seq!['d', 'e', 'f', 'a', 'u', 'l', 't']
}

pub open spec fn has_prefix(k: Seq<char>, p: Seq<char>) -> bool {
    k.len() >= p.len() && k.subrange(0, p.len() as int) == p
}

pub open spec fn is_path_key(k: Seq<char>) -> bool {
    k.len() > 0 && k[0] == '.'
}

pub open spec fn is_types_key(k: Seq<char>) -> bool {
    k == types_lit() || has_prefix(k, types_lit() + seq!['@'])
}

pub open spec fn is_default_key(k: Seq<char>) -> bool {
    k == default_lit()
}

/// The group an exports key falls in: paths, then the types conditions, then
/// the other conditions, and the default condition last.
#[verifier::opaque]
pub open spec fn x_group(k: Seq<char>) -> int {
    if is_path_key(k) {
        0
    } else if is_default_key(k) {
        3
    } else if is_types_key(k) {
        1
    } else {
        2
    }
}

pub open spec fn p_group(g: int) -> spec_fn((Seq<char>, JsonV)) -> bool {
    |e: (Seq<char>, JsonV)| x_group(e.0) == g
}

/// Order conditional exports: within each group keys ascend; groups come in
/// fixed order; object values are ordered the same way, at any depth.
pub open spec fn tx_exports(v: JsonV) -> JsonV
    decreases v, 0int,
{
    match v {
        JsonV::Obj(es) => {
            let m = tx_exports_entries(es, 0);
            JsonV::Obj(
                sort_entries(m.filter(p_group(0))) + sort_entries(m.filter(p_group(1)))
                    + sort_entries(m.filter(p_group(2))) + sort_entries(m.filter(p_group(3))),
            )
        },
        _ => v,
    }
}

pub open spec fn tx_exports_entries(es: Seq<(Seq<char>, JsonV)>, i: int) -> Seq<
    (Seq<char>, JsonV),
>
    decreases es, es.len() - i, 1int,
{
    if i < 0 || i >= es.len() {
        Seq::empty()
    } else {
        seq![(es[i].0, tx_exports(es[i].1))] + tx_exports_entries(es, i + 1)
    }
}

pub proof fn lemma_tx_exports_entries(es: Seq<(Seq<char>, JsonV)>, i: int)
    requires
        0 <= i <= es.len(),
    ensures
        tx_exports_entries(es, i).len() == es.len() - i,
        forall|k: int| 0 <= k < es.len() - i ==> #[trigger] tx_exports_entries(es, i)[k] == (
        es[k + i].0,
        tx_exports(es[k + i].1),
        ),
    decreases es.len() - i,
{
    if i < es.len() {
        lemma_tx_exports_entries(es, i + 1);
    }
}

/// Insert an entry into a key-sorted vector, in front of the first entry
/// whose key is not below the new one.
fn insert_entry_sorted(e: Entry, v: Vec<Entry>) -> (r: Vec<Entry>)
    ensures
        jview_obj(r@, 0) == insert_sorted(entry_leq(), eview(e), jview_obj(v@, 0)),
{
    let ghost m = jview_obj(v@, 0);
    proof {
        lemma_jview_obj(v@, 0);
    }
    let n = v.len();
    let mut j: usize = 0;
    loop
        invariant
            0 <= j <= n,
            n == v@.len(),
            m == jview_obj(v@, 0),
            m.len() == n,
            forall|k: int| 0 <= k < j ==> !entry_leq()(eview(e), #[trigger] m[k]),
        ensures
            0 <= j <= n,
            forall|k: int| 0 <= k < j ==> !entry_leq()(eview(e), #[trigger] m[k]),
            j < n ==> entry_leq()(eview(e), m[j as int]),
        decreases n - j,
    {
        if j == n {
            break ;
        }
        let le = chars_le_exec(&e.key, &v[j].key);
        proof {
            lemma_jview_obj(v@, 0);
            assert(jview_obj(v@, 0)[j as int] == eview(v@[j as int]));
        }
        if le {
            break ;
        }
        j = j + 1;
    }
    let mut out = v;
    out.insert(j, e);
    proof {
        crate::order::lemma_insert_sorted_at(entry_leq(), eview(e), m, j as int);
        lemma_jview_obj(out@, 0);
        assert(jview_obj(out@, 0) =~= m.subrange(0, j as int) + seq![eview(e)] + m.subrange(
            j as int,
            m.len() as int,
        ));
    }
    out
}

/// Sort a vector of entries by key.
pub fn sort_entries_vec(es: Vec<Entry>) -> (r: Vec<Entry>)
    ensures
        jview_obj(r@, 0) == sort_entries(jview_obj(es@, 0)),
{
    let ghost orig = jview_obj(es@, 0);
    proof {
        lemma_jview_obj(es@, 0);
    }
    let mut rest = es;
    let mut out: Vec<Entry> = Vec::new();
    proof {
        assert(jview_obj(out@, 0) =~= Seq::empty());
        assert(orig.skip(orig.len() as int) =~= Seq::empty());
        assert(jview_obj(rest@, 0) =~= orig.subrange(0, rest@.len() as int));
    }
    while rest.len() > 0
        invariant
            rest@.len() <= orig.len(),
            jview_obj(rest@, 0) == orig.subrange(0, rest@.len() as int),
            jview_obj(out@, 0) == sort_with(entry_leq(), orig.skip(rest@.len() as int)),
        decreases rest@.len(),
    {
        let ghost k = rest@.len() as int;
        let ghost rest0 = rest@;
        proof {
            lemma_jview_obj(rest@, 0);
        }
        let e = rest.pop().unwrap();
        proof {
            assert(eview(e) == jview_obj(rest0, 0)[k - 1]);
            assert(eview(e) == orig[k - 1]);
            lemma_jview_obj(rest@, 0);
            assert(jview_obj(rest@, 0) =~= orig.subrange(0, k - 1));
        }
        out = insert_entry_sorted(e, out);
        proof {
            let s = orig.skip(k - 1);
            assert(s.len() > 0);
            assert(s[0] == orig[k - 1]);
            assert(s.drop_first() =~= orig.skip(k));
            assert(sort_with(entry_leq(), s) == insert_sorted(
                entry_leq(),
                orig[k - 1],
                sort_with(entry_leq(), orig.skip(k)),
            ));
        }
    }
    proof {
        assert(orig.skip(0) =~= orig);
    }
    out
}

/// The abstraction of a vector of character vectors.
pub open spec fn svview(s: Seq<Vec<char>>) -> Seq<Seq<char>> {
    s.map_values(|x: Vec<char>| x@)
}

/// Insert a string into a sorted vector of strings.
fn insert_str_sorted(x: Vec<char>, v: Vec<Vec<char>>) -> (r: Vec<Vec<char>>)
    ensures
        svview(r@) == insert_sorted(str_leq(), x@, svview(v@)),
{
    let ghost m = svview(v@);
    let n = v.len();
    let mut j: usize = 0;
    loop
        invariant
            0 <= j <= n,
            n == v@.len(),
            m == svview(v@),
            m.len() == n,
            forall|k: int| 0 <= k < j ==> !str_leq()(x@, #[trigger] m[k]),
        ensures
            0 <= j <= n,
            forall|k: int| 0 <= k < j ==> !str_leq()(x@, #[trigger] m[k]),
            j < n ==> str_leq()(x@, m[j as int]),
        decreases n - j,
    {
        if j == n {
            break ;
        }
        let le = chars_le_exec(&x, &v[j]);
        proof {
            assert(svview(v@)[j as int] == v@[j as int]@);
        }
        if le {
            break ;
        }
        j = j + 1;
    }
    let mut out = v;
    out.insert(j, x);
    proof {
        crate::order::lemma_insert_sorted_at(str_leq(), x@, m, j as int);
        assert(svview(out@) =~= m.subrange(0, j as int) + seq![x@] + m.subrange(
            j as int,
            m.len() as int,
        ));
    }
    out
}

/// Sort a vector of strings.
fn sort_strs_vec(xs: Vec<Vec<char>>) -> (r: Vec<Vec<char>>)
    ensures
        svview(r@) == sort_with(str_leq(), svview(xs@)),
{
    let ghost orig = svview(xs@);
    let mut rest = xs;
    let mut out: Vec<Vec<char>> = Vec::new();
    proof {
        assert(svview(out@) =~= Seq::empty());
        assert(orig.skip(orig.len() as int) =~= Seq::empty());
        assert(svview(rest@) =~= orig.subrange(0, rest@.len() as int));
    }
    while rest.len() > 0
        invariant
            rest@.len() <= orig.len(),
            svview(rest@) == orig.subrange(0, rest@.len() as int),
            svview(out@) == sort_with(str_leq(), orig.skip(rest@.len() as int)),
        decreases rest@.len(),
    {
        let ghost k = rest@.len() as int;
        let ghost rest0 = rest@;
        let x = rest.pop().unwrap();
        proof {
            assert(x@ == svview(rest0)[k - 1]);
            assert(x@ == orig[k - 1]);
            assert(svview(rest@) =~= orig.subrange(0, k - 1));
        }
        out = insert_str_sorted(x, out);
        proof {
            let s = orig.skip(k - 1);
            assert(s.len() > 0);
            assert(s[0] == orig[k - 1]);
            assert(s.drop_first() =~= orig.skip(k));
            assert(sort_with(str_leq(), s) == insert_sorted(
                str_leq(),
                orig[k - 1],
                sort_with(str_leq(), orig.skip(k)),
            ));
        }
    }
    proof {
        assert(orig.skip(0) =~= orig);
    }
    out
}

/// Drop adjacent equal strings of a sorted vector.
fn dedup_strs_vec(xs: Vec<Vec<char>>) -> (r: Vec<Vec<char>>)
    ensures
        svview(r@) == dedup_sorted(svview(xs@)),
{
    let ghost orig = svview(xs@);
    let n = xs.len();
    let mut out: Vec<Vec<char>> = Vec::new();
    let mut rest = xs;
    let mut i: usize = 0;
    proof {
        assert(svview(out@) =~= Seq::empty());
        assert(orig.skip(0) =~= orig);
    }
    while rest.len() > 0
        invariant
            i + rest@.len() == orig.len(),
            orig.len() <= usize::MAX,
            svview(rest@) == orig.skip(i as int),
            svview(out@) + dedup_sorted(orig.skip(i as int)) == dedup_sorted(orig),
        decreases rest@.len(),
    {
        let ghost s = orig.skip(i as int);
        let keep = rest.len() == 1 || !chars_eq_exec(&rest[0], &rest[1]);
        proof {
            assert(svview(rest@)[0] == rest@[0]@);
            assert(rest@[0]@ == s[0]);
            if rest@.len() > 1 {
                assert(svview(rest@)[1] == rest@[1]@);
                assert(rest@[1]@ == s[1]);
            }
        }
        let ghost rest0 = rest@;
        let x = rest.remove(0);
        proof {
            assert(rest@ =~= rest0.drop_first());
            assert(svview(rest@) =~= svview(rest0).drop_first());
            assert(svview(rest@) =~= orig.skip(i + 1));
            assert(s.drop_first() =~= orig.skip(i + 1));
        }
        if keep {
            out.push(x);
            proof {
                if s.len() == 1 {
                    assert(dedup_sorted(s) =~= seq![s[0]]);
                    assert(orig.skip(i + 1) =~= Seq::empty());
                    assert(dedup_sorted(orig.skip(i + 1)) =~= Seq::empty());
                }
                assert(dedup_sorted(s) == seq![s[0]] + dedup_sorted(orig.skip(i + 1)));
                assert(svview(out@) =~= (svview(out@).drop_last()).push(x@));
                assert(svview(out@) + dedup_sorted(orig.skip(i + 1)) =~= dedup_sorted(orig));
            }
        } else {
            proof {
                assert(s[0] == s[1]);
                assert(dedup_sorted(s) == dedup_sorted(orig.skip(i + 1)));
            }
        }
        i = i + 1;
    }
    proof {
        assert(orig.skip(orig.len() as int) =~= Seq::empty());
        assert(svview(out@) =~= svview(out@) + dedup_sorted(Seq::empty()));
    }
    out
}

/// Sort one level of an object value by key; other values pass through.
pub fn tx_alpha_exec(v: Json) -> (r: Json)
    ensures
        jview(r) == tx_alpha(jview(v)),
{
    match v {
        Json::Obj(es) => Json::Obj(sort_entries_vec(es)),
        other => other,
    }
}

/// Sort an object value by key at every object depth; other values pass
/// through.
pub fn tx_rec_exec(v: Json) -> (r: Json)
    ensures
        jview(r) == tx_rec(jview(v)),
    decreases v,
{
    match v {
        Json::Obj(es) => {
            let ghost vg = es;
            let ghost es0 = es@;
            let ghost ev = jview_obj(es0, 0);
            proof {
                lemma_jview_obj(es0, 0);
                lemma_tx_rec_entries(ev, 0);
            }
            let mut rest = es;
            let mut mapped: Vec<Entry> = Vec::new();
            let n0 = rest.len();
            proof {
                assert(es0.len() == n0);
                assert(rest@ =~= es0.skip(0));
                assert(jview_obj(mapped@, 0) =~= Seq::empty());
            }
            let mut i: usize = 0;
            while rest.len() > 0
                invariant
                    v == Json::Obj(vg),
                    vg@ == es0,
                    i + rest@.len() == es0.len(),
                    es0.len() <= usize::MAX,
                    ev == jview_obj(es0, 0),
                    ev.len() == es0.len(),
                    forall|k: int| 0 <= k < es0.len() ==> #[trigger] ev[k] == eview(es0[k]),
                    rest@ == es0.skip(i as int),
                    jview_obj(mapped@, 0).len() == i,
                    forall|k: int|
                        0 <= k < i ==> #[trigger] jview_obj(mapped@, 0)[k] == (
                        ev[k].0,
                        tx_rec(ev[k].1),
                        ),
                decreases rest@.len(),
            {
                let ghost mv0 = jview_obj(mapped@, 0);
                proof {
                    lemma_jview_obj(mapped@, 0);
                }
                let ghost restpre = rest@;
                let e = rest.remove(0);
                proof {
                    assert(rest@ =~= restpre.drop_first());
                    assert(e == es0.skip(i as int)[0]);
                    assert(e == es0[i as int]);
                    assert(es0.skip(i as int).drop_first() =~= es0.skip(i + 1));
                    assert(v == Json::Obj(vg));
                    assert(decreases_to!(v => v->Obj_0));
                    assert(v->Obj_0 == vg);
                    assert(decreases_to!(vg => vg@));
                    assert(decreases_to!(es0 => es0[i as int]));
                    assert(decreases_to!(es0[i as int] => es0[i as int].value));
                    assert(decreases_to!(v => e.value));
                }
                let Entry { key, value } = e;
                let tv = tx_rec_exec(value);
                mapped.push(Entry { key, value: tv });
                proof {
                    lemma_jview_obj(mapped@, 0);
                    assert(jview_obj(mapped@, 0) =~= mv0.push(
                        (es0[i as int].key@, tx_rec(jview(es0[i as int].value))),
                    ));
                }
                i = i + 1;
            }
            proof {
                assert(jview_obj(mapped@, 0) =~= tx_rec_entries(ev, 0));
            }
            let sorted = sort_entries_vec(mapped);
            Json::Obj(sorted)
        },
        other => other,
    }
}

/// How a filtered prefix grows by one element.
pub proof fn lemma_filter_take_push<T>(s: Seq<T>, p: spec_fn(T) -> bool, i: int)
    requires
        0 <= i < s.len(),
    ensures
        s.take(i + 1).filter(p) == if p(s[i]) {
            s.take(i).filter(p).push(s[i])
        } else {
            s.take(i).filter(p)
        },
{
    reveal_with_fuel(Seq::filter, 2);
    let q = s.take(i + 1);
    assert(q =~= s.take(i).push(s[i]));
    assert(q.drop_last() =~= s.take(i));
    assert(q.last() == s[i]);
}

/// Sort the strings of an array value, deduplicated, in front of its other
/// elements; other values pass through.
#[verifier::rlimit(100)]
pub fn tx_uniq_exec(v: Json) -> (r: Json)
    ensures
        jview(r) == tx_uniq(jview(v)),
{
    match v {
        Json::Arr(a) => {
            let ghost a0 = a@;
            let ghost av = jview_arr(a0, 0);
            proof {
                lemma_jview_arr(a0, 0);
            }
            let mut rest = a;
            let mut strs: Vec<Vec<char>> = Vec::new();
            let mut others: Vec<Json> = Vec::new();
            let n0 = rest.len();
            proof {
                assert(a0.len() == n0);
                assert(rest@ =~= a0.skip(0));
                assert(av.take(0) =~= Seq::empty());
                reveal_with_fuel(Seq::filter, 1);
                assert(svview(strs@) =~= av.take(0).filter(p_is_str()).map_values(f_content()));
                assert(jview_arr(others@, 0) =~= av.take(0).filter(p_non_str()));
            }
            let mut i: usize = 0;
            while rest.len() > 0
                invariant
                    i + rest@.len() == a0.len(),
                    a0.len() <= usize::MAX,
                    av == jview_arr(a0, 0),
                    av.len() == a0.len(),
                    forall|k: int| 0 <= k < a0.len() ==> #[trigger] av[k] == jview(a0[k]),
                    rest@ == a0.skip(i as int),
                    svview(strs@) == av.take(i as int).filter(p_is_str()).map_values(f_content()),
                    jview_arr(others@, 0) == av.take(i as int).filter(p_non_str()),
                decreases rest@.len(),
            {
                let ghost restpre = rest@;
                let ghost strs0 = svview(strs@);
                let ghost others0 = jview_arr(others@, 0);
                proof {
                    lemma_jview_arr(others@, 0);
                }
                let x = rest.remove(0);
                proof {
                    assert(rest@ =~= restpre.drop_first());
                    assert(x == a0.skip(i as int)[0]);
                    assert(x == a0[i as int]);
                    assert(rest@ =~= a0.skip(i + 1));
                    assert(av.take(i + 1) =~= av.take(i as int).push(av[i as int]));
                    lemma_filter_take_push(av, p_is_str(), i as int);
                    lemma_filter_take_push(av, p_non_str(), i as int);
                }
                match x {
                    Json::Str(sv) => {
                        proof {
                            assert(jview(Json::Str(sv)) == JsonV::Str(sv@));
                            assert(av[i as int] == JsonV::Str(sv@));
                        }
                        strs.push(sv);
                        proof {
                            assert(svview(strs@) =~= strs0.push(str_content(av[i as int])));
                            assert(svview(strs@) =~= av.take(i + 1).filter(
                                p_is_str(),
                            ).map_values(f_content()));
                            assert(jview_arr(others@, 0) =~= av.take(i + 1).filter(p_non_str()));
                        }
                    },
                    other => {
                        proof {
                            assert(av[i as int] == jview(other));
                            assert(!is_str_val(av[i as int]));
                        }
                        others.push(other);
                        proof {
                            lemma_jview_arr(others@, 0);
                            assert(jview_arr(others@, 0) =~= others0.push(av[i as int]));
                            assert(jview_arr(others@, 0) =~= av.take(i + 1).filter(p_non_str()));
                            assert(svview(strs@) =~= av.take(i + 1).filter(
                                p_is_str(),
                            ).map_values(f_content()));
                        }
                    },
                }
                i = i + 1;
            }
            proof {
                assert(av.take(a0.len() as int) =~= av);
            }
            let sorted = sort_strs_vec(strs);
            let uniq = dedup_strs_vec(sorted);
            let ghost u = dedup_sorted(sort_with(str_leq(), strs_of(av)));
            let mut out: Vec<Json> = Vec::new();
            let mut rest_u = uniq;
            let nu = rest_u.len();
            proof {
                assert(u.len() == nu);
                assert(jview_arr(out@, 0) =~= Seq::empty());
                assert(u.take(0) =~= Seq::empty());
                assert(u.take(0).map_values(f_mk_str()) =~= Seq::empty());
                assert(rest_u@ =~= rest_u@.skip(0));
                assert(svview(rest_u@) == u);
            }
            let mut j: usize = 0;
            while rest_u.len() > 0
                invariant
                    j + rest_u@.len() == u.len(),
                    u.len() <= usize::MAX,
                    svview(rest_u@) == u.skip(j as int),
                    jview_arr(out@, 0) == u.take(j as int).map_values(f_mk_str()),
                decreases rest_u@.len(),
            {
                let ghost restpre = rest_u@;
                let ghost out0 = jview_arr(out@, 0);
                proof {
                    lemma_jview_arr(out@, 0);
                }
                let sv = rest_u.remove(0);
                proof {
                    assert(rest_u@ =~= restpre.drop_first());
                    assert(svview(rest_u@) =~= svview(restpre).drop_first());
                    assert(svview(restpre).drop_first() =~= u.skip(j + 1));
                    assert(sv@ == svview(restpre)[0]);
                    assert(sv@ == u[j as int]);
                }
                out.push(Json::Str(sv));
                proof {
                    lemma_jview_arr(out@, 0);
                    assert(jview_arr(out@, 0) =~= out0.push(JsonV::Str(u[j as int])));
                    assert(u.take(j + 1) =~= u.take(j as int).push(u[j as int]));
                    assert(jview_arr(out@, 0) =~= u.take(j + 1).map_values(f_mk_str()));
                }
                j = j + 1;
            }
            proof {
                assert(u.take(u.len() as int) =~= u);
            }
            let ghost outpre = out@;
            let ghost tail0 = others@;
            let mut tail = others;
            out.append(&mut tail);
            proof {
                assert(out@ == outpre + tail0);
                crate::value::lemma_jview_arr_concat(outpre, tail0);
            }
            Json::Arr(out)
        },
        other => other,
    }
}

/// Apply the person ordering to every object of an array value; other values
/// pass through.
pub fn tx_people_arr_exec(v: Json) -> (r: Json)
    ensures
        jview(r) == tx_people_arr(jview(v)),
{
    match v {
        Json::Arr(a) => {
            let ghost a0 = a@;
            let ghost av = jview_arr(a0, 0);
            proof {
                lemma_jview_arr(a0, 0);
            }
            let mut rest = a;
            let mut out: Vec<Json> = Vec::new();
            let n0 = rest.len();
            proof {
                assert(a0.len() == n0);
                assert(rest@ =~= a0.skip(0));
            }
            let mut i: usize = 0;
            while rest.len() > 0
                invariant
                    i + rest@.len() == a0.len(),
                    a0.len() <= usize::MAX,
                    av == jview_arr(a0, 0),
                    av.len() == a0.len(),
                    forall|k: int| 0 <= k < a0.len() ==> #[trigger] av[k] == jview(a0[k]),
                    rest@ == a0.skip(i as int),
                    jview_arr(out@, 0).len() == i,
                    forall|k: int|
                        0 <= k < i ==> #[trigger] jview_arr(out@, 0)[k] == tx_people(av[k]),
                decreases rest@.len(),
            {
                let ghost restpre = rest@;
                let ghost out0 = jview_arr(out@, 0);
                proof {
                    lemma_jview_arr(out@, 0);
                }
                let x = rest.remove(0);
                proof {
                    assert(rest@ =~= restpre.drop_first());
                    assert(x == a0.skip(i as int)[0]);
                    assert(x == a0[i as int]);
                    assert(rest@ =~= a0.skip(i + 1));
                }
                let y = people_exec(x);
                out.push(y);
                proof {
                    lemma_jview_arr(out@, 0);
                    assert(jview_arr(out@, 0) =~= out0.push(tx_people(av[i as int])));
                }
                i = i + 1;
            }
            proof {
                lemma_jview_arr(out@, 0);
                assert(jview_arr(out@, 0) =~= Seq::new(av.len(), |k: int| tx_people(av[k])));
            }
            Json::Arr(out)
        },
        other => other,
    }
}

/// How a lookup behaves when one entry is appended.
pub proof fn lemma_lookup_push(s: Seq<(Seq<char>, JsonV)>, x: (Seq<char>, JsonV), k: Seq<char>)
    ensures
        lookup_entry(s.push(x), k) == if lookup_entry(s, k) is Some {
            lookup_entry(s, k)
        } else if x.0 == k {
            Option::Some(x.1)
        } else {
            Option::<JsonV>::None
        },
    decreases s.len(),
{
    if s.len() == 0 {
        assert(s.push(x)[0] == x);
        assert(s.push(x).drop_first() =~= Seq::empty());
    } else {
        assert(s.push(x)[0] == s[0]);
        assert(s.push(x).drop_first() =~= s.drop_first().push(x));
        lemma_lookup_push(s.drop_first(), x, k);
    }
}

/// Picking distributes over concatenation of the key list.
pub proof fn lemma_picked_concat(
    es: Seq<(Seq<char>, JsonV)>,
    o1: Seq<Seq<char>>,
    o2: Seq<Seq<char>>,
)
    ensures
        picked(es, o1 + o2) == picked(es, o1) + picked(es, o2),
    decreases o1.len(),
{
    if o1.len() == 0 {
        assert(o1 + o2 =~= o2);
        assert(picked(es, o1) =~= Seq::empty());
        assert(picked(es, o1) + picked(es, o2) =~= picked(es, o2));
    } else {
        assert((o1 + o2)[0] == o1[0]);
        assert((o1 + o2).drop_first() =~= o1.drop_first() + o2);
        lemma_picked_concat(es, o1.drop_first(), o2);
        match lookup_entry(es, o1[0]) {
            Option::Some(v) => {
                assert(picked(es, o1 + o2) =~= picked(es, o1) + picked(es, o2));
            },
            Option::None => {
                assert(picked(es, o1 + o2) =~= picked(es, o1) + picked(es, o2));
            },
        }
    }
}

/// Order an object's entries by a fixed key list: the listed keys first, in
/// list order, then the rest sorted by key.
fn key_order_exec(order: &Vec<Vec<char>>, es: Vec<Entry>) -> (r: Vec<Entry>)
    requires
        forall|i: int, j: int|
            0 <= i < j < order@.len() ==> #[trigger] svview(order@)[i] != #[trigger] svview(
                order@,
            )[j],
    ensures
        jview_obj(r@, 0) == picked(jview_obj(es@, 0), svview(order@)) + sort_entries(
            jview_obj(es@, 0).filter(p_key_not_in(svview(order@))),
        ),
{
    let ghost es0 = es@;
    let ghost ev = jview_obj(es0, 0);
    let ghost ov = svview(order@);
    proof {
        lemma_jview_obj(es0, 0);
    }
    let m = order.len();
    let mut slots: Vec<Option<Entry>> = Vec::new();
    while slots.len() < m
        invariant
            slots@.len() <= m,
            forall|k: int| 0 <= k < slots@.len() ==> #[trigger] slots@[k] is None,
        decreases m - slots@.len(),
    {
        slots.push(Option::None);
    }
    let mut rest_in = es;
    let mut rest_out: Vec<Entry> = Vec::new();
    let n0 = rest_in.len();
    proof {
        assert(es0.len() == n0);
        assert(rest_in@ =~= es0.skip(0));
        reveal_with_fuel(Seq::filter, 1);
        assert(ev.take(0) =~= Seq::empty());
        assert(jview_obj(rest_out@, 0) =~= ev.take(0).filter(p_key_not_in(ov)));
    }
    let mut i: usize = 0;
    while rest_in.len() > 0
        invariant
            i + rest_in@.len() == es0.len(),
            es0.len() <= usize::MAX,
            ev == jview_obj(es0, 0),
            ov == svview(order@),
            ev.len() == es0.len(),
            m == order@.len() == ov.len(),
            forall|i2: int, j2: int| 0 <= i2 < j2 < m ==> #[trigger] ov[i2] != #[trigger] ov[j2],
            forall|k: int| 0 <= k < es0.len() ==> #[trigger] ev[k] == eview(es0[k]),
            rest_in@ == es0.skip(i as int),
            slots@.len() == m,
            forall|oj: int|
                0 <= oj < m ==> match #[trigger] slots@[oj] {
                    Option::Some(e) => eview(e).0 == ov[oj] && lookup_entry(
                        ev.take(i as int),
                        ov[oj],
                    ) == Option::Some(eview(e).1),
                    Option::None => lookup_entry(ev.take(i as int), ov[oj]) is None,
                },
            jview_obj(rest_out@, 0) == ev.take(i as int).filter(p_key_not_in(ov)),
        decreases rest_in@.len(),
    {
        let ghost restpre = rest_in@;
        let ghost out0 = jview_obj(rest_out@, 0);
        let ghost slots0 = slots@;
        proof {
            lemma_jview_obj(rest_out@, 0);
        }
        let e = rest_in.remove(0);
        proof {
            assert(rest_in@ =~= restpre.drop_first());
            assert(e == es0.skip(i as int)[0]);
            assert(e == es0[i as int]);
            assert(rest_in@ =~= es0.skip(i + 1));
            assert(ev.take(i + 1) =~= ev.take(i as int).push(ev[i as int]));
            assert(ev[i as int] == eview(es0[i as int]));
            lemma_filter_take_push(ev, p_key_not_in(ov), i as int);
            assert forall|oj: int| 0 <= oj < m implies lookup_entry(ev.take(i + 1), ov[oj])
                == if lookup_entry(ev.take(i as int), ov[oj]) is Some {
                lookup_entry(ev.take(i as int), ov[oj])
            } else if ev[i as int].0 == ov[oj] {
                Option::Some(ev[i as int].1)
            } else {
                Option::<JsonV>::None
            } by {
                lemma_lookup_push(ev.take(i as int), ev[i as int], ov[oj]);
            }
        }
        let mut oi: usize = 0;
        let mut found = false;
        loop
            invariant
                0 <= oi <= m,
                m == order@.len(),
                ov == svview(order@),
                !found ==> forall|k: int| 0 <= k < oi ==> #[trigger] ov[k] != e.key@,
                found ==> oi < m && ov[oi as int] == e.key@,
            ensures
                !found ==> forall|k: int| 0 <= k < m ==> #[trigger] ov[k] != e.key@,
                found ==> oi < m && ov[oi as int] == e.key@,
            decreases m - oi + if found {
                0int
            } else {
                1int
            },
        {
            if found || oi == m {
                break ;
            }
            if chars_eq_exec(&e.key, &order[oi]) {
                proof {
                    assert(ov[oi as int] == order@[oi as int]@);
                }
                found = true;
            } else {
                proof {
                    assert(ov[oi as int] == order@[oi as int]@);
                }
                oi = oi + 1;
            }
        }
        if found {
            proof {
                assert(ov.contains(e.key@));
                assert(!(p_key_not_in(ov)(eview(e))));
                assert(jview_obj(rest_out@, 0) =~= ev.take(i + 1).filter(p_key_not_in(ov)));
            }
            let occupied = slots[oi].is_some();
            if !occupied {
                slots.set(oi, Option::Some(e));
            }
            proof {
                assert forall|oj: int| 0 <= oj < m implies match #[trigger] slots@[oj] {
                    Option::Some(e2) => eview(e2).0 == ov[oj] && lookup_entry(
                        ev.take(i + 1),
                        ov[oj],
                    ) == Option::Some(eview(e2).1),
                    Option::None => lookup_entry(ev.take(i + 1), ov[oj]) is None,
                } by {
                    if oj == oi as int {
                        if slots0[oj] is Some {
                            assert(slots@[oj] == slots0[oj]);
                        } else {
                            assert(slots@[oj] == Option::Some(e));
                            assert(ev[i as int].0 == ov[oj]);
                        }
                    } else {
                        assert(slots@[oj] == slots0[oj]);
                        assert(ov[oj] != ov[oi as int]);
                        assert(ev[i as int].0 != ov[oj]);
                    }
                }
            }
        } else {
            proof {
                if ov.contains(e.key@) {
                    let w = choose|w: int| 0 <= w < ov.len() && ov[w] == e.key@;
                    assert(false);
                }
                assert(p_key_not_in(ov)(eview(e)));
            }
            rest_out.push(e);
            proof {
                lemma_jview_obj(rest_out@, 0);
                assert(jview_obj(rest_out@, 0) =~= out0.push(ev[i as int]));
                assert(jview_obj(rest_out@, 0) =~= ev.take(i + 1).filter(p_key_not_in(ov)));
                assert forall|oj: int| 0 <= oj < m implies match #[trigger] slots@[oj] {
                    Option::Some(e2) => eview(e2).0 == ov[oj] && lookup_entry(
                        ev.take(i + 1),
                        ov[oj],
                    ) == Option::Some(eview(e2).1),
                    Option::None => lookup_entry(ev.take(i + 1), ov[oj]) is None,
                } by {
                    assert(ev[i as int].0 != ov[oj]);
                }
            }
        }
        i = i + 1;
    }
    proof {
        assert(ev.take(es0.len() as int) =~= ev);
    }
    let ghost slotsf = slots@;
    let mut picked_v: Vec<Entry> = Vec::new();
    let mut rest_slots = slots;
    proof {
        assert(ov.take(0) =~= Seq::empty());
        assert(picked(ev, ov.take(0)) =~= Seq::empty());
        assert(jview_obj(picked_v@, 0) =~= Seq::empty());
        assert(rest_slots@ =~= slotsf.skip(0));
    }
    let mut oi: usize = 0;
    while rest_slots.len() > 0
        invariant
            oi + rest_slots@.len() == m,
            m <= usize::MAX,
            m == ov.len(),
            slotsf.len() == m,
            rest_slots@ == slotsf.skip(oi as int),
            forall|oj: int|
                0 <= oj < m ==> match #[trigger] slotsf[oj] {
                    Option::Some(e) => eview(e).0 == ov[oj] && lookup_entry(ev, ov[oj])
                        == Option::Some(eview(e).1),
                    Option::None => lookup_entry(ev, ov[oj]) is None,
                },
            jview_obj(picked_v@, 0) == picked(ev, ov.take(oi as int)),
        decreases rest_slots@.len(),
    {
        let ghost restpre = rest_slots@;
        let ghost pick0 = jview_obj(picked_v@, 0);
        proof {
            lemma_jview_obj(picked_v@, 0);
        }
        let sl = rest_slots.remove(0);
        proof {
            assert(rest_slots@ =~= restpre.drop_first());
            assert(sl == slotsf.skip(oi as int)[0]);
            assert(sl == slotsf[oi as int]);
            assert(rest_slots@ =~= slotsf.skip(oi + 1));
            assert(ov.take(oi + 1) =~= ov.take(oi as int) + seq![ov[oi as int]]);
            lemma_picked_concat(ev, ov.take(oi as int), seq![ov[oi as int]]);
            assert(seq![ov[oi as int]].drop_first() =~= Seq::empty());
            assert(picked(ev, Seq::<Seq<char>>::empty()) =~= Seq::empty());
        }
        match sl {
            Option::Some(e) => {
                proof {
                    assert(picked(ev, seq![ov[oi as int]]) =~= seq![
                        (ov[oi as int], eview(e).1),
                    ]);
                    assert((ov[oi as int], eview(e).1) == eview(e));
                }
                picked_v.push(e);
                proof {
                    lemma_jview_obj(picked_v@, 0);
                    assert(jview_obj(picked_v@, 0) =~= pick0.push(eview(e)));
                    assert(jview_obj(picked_v@, 0) =~= picked(ev, ov.take(oi + 1)));
                }
            },
            Option::None => {
                proof {
                    assert(picked(ev, seq![ov[oi as int]]) =~= Seq::empty());
                    assert(jview_obj(picked_v@, 0) =~= picked(ev, ov.take(oi + 1)));
                }
            },
        }
        oi = oi + 1;
    }
    proof {
        assert(ov.take(m as int) =~= ov);
    }
    let mut sorted = sort_entries_vec(rest_out);
    let ghost pickf = picked_v@;
    let ghost sortf = sorted@;
    let mut out = picked_v;
    out.append(&mut sorted);
    proof {
        assert(out@ == pickf + sortf);
        crate::value::lemma_jview_obj_concat(pickf, sortf);
    }
    out
}

fn people_order_vec() -> (r: Vec<Vec<char>>)
    ensures
        svview(r@) == people_order(),
{
    let mut r: Vec<Vec<char>> = Vec::new();
    r.push(crate::text::str_chars("name"));
    r.push(crate::text::str_chars("email"));
    r.push(crate::text::str_chars("url"));
    proof {
        reveal_strlit("name");
        reveal_strlit("email");
        reveal_strlit("url");
        assert("name"@ =~= seq!['n', 'a', 'm', 'e']);
        assert("email"@ =~= seq!['e', 'm', 'a', 'i', 'l']);
        assert("url"@ =~= seq!['u', 'r', 'l']);
        assert(svview(r@) =~= people_order());
    }
    r
}

fn bugs_order_vec() -> (r: Vec<Vec<char>>)
    ensures
        svview(r@) == bugs_order(),
{
    let mut r: Vec<Vec<char>> = Vec::new();
    r.push(crate::text::str_chars("url"));
    r.push(crate::text::str_chars("email"));
    proof {
        reveal_strlit("url");
        reveal_strlit("email");
        assert("url"@ =~= seq!['u', 'r', 'l']);
        assert("email"@ =~= seq!['e', 'm', 'a', 'i', 'l']);
        assert(svview(r@) =~= bugs_order());
    }
    r
}

fn type_url_order_vec() -> (r: Vec<Vec<char>>)
    ensures
        svview(r@) == type_url_order(),
{
    let mut r: Vec<Vec<char>> = Vec::new();
    r.push(crate::text::str_chars("type"));
    r.push(crate::text::str_chars("url"));
    proof {
        reveal_strlit("type");
        reveal_strlit("url");
        assert("type"@ =~= seq!['t', 'y', 'p', 'e']);
        assert("url"@ =~= seq!['u', 'r', 'l']);
        assert(svview(r@) =~= type_url_order());
    }
    r
}

fn directories_order_vec() -> (r: Vec<Vec<char>>)
    ensures
        svview(r@) == directories_order(),
{
    let mut r: Vec<Vec<char>> = Vec::new();
    r.push(crate::text::str_chars("lib"));
    r.push(crate::text::str_chars("bin"));
    r.push(crate::text::str_chars("man"));
    r.push(crate::text::str_chars("doc"));
    r.push(crate::text::str_chars("example"));
    r.push(crate::text::str_chars("test"));
    proof {
        reveal_strlit("lib");
        reveal_strlit("bin");
        reveal_strlit("man");
        reveal_strlit("doc");
        reveal_strlit("example");
        reveal_strlit("test");
        assert("lib"@ =~= seq!['l', 'i', 'b']);
        assert("bin"@ =~= seq!['b', 'i', 'n']);
        assert("man"@ =~= seq!['m', 'a', 'n']);
        assert("doc"@ =~= seq!['d', 'o', 'c']);
        assert("example"@ =~= seq!['e', 'x', 'a', 'm', 'p', 'l', 'e']);
        assert("test"@ =~= seq!['t', 'e', 's', 't']);
        assert(svview(r@) =~= directories_order());
    }
    r
}

fn binary_order_vec() -> (r: Vec<Vec<char>>)
    ensures
        svview(r@) == binary_order(),
{
    let mut r: Vec<Vec<char>> = Vec::new();
    r.push(crate::text::str_chars("module_name"));
    r.push(crate::text::str_chars("module_path"));
    r.push(crate::text::str_chars("remote_path"));
    r.push(crate::text::str_chars("package_name"));
    r.push(crate::text::str_chars("host"));
    proof {
        reveal_strlit("module_name");
        reveal_strlit("module_path");
        reveal_strlit("remote_path");
        reveal_strlit("package_name");
        reveal_strlit("host");
        assert("module_name"@ =~= seq!['m', 'o', 'd', 'u', 'l', 'e', '_', 'n', 'a', 'm', 'e']);
        assert("module_path"@ =~= seq!['m', 'o', 'd', 'u', 'l', 'e', '_', 'p', 'a', 't', 'h']);
        assert("remote_path"@ =~= seq!['r', 'e', 'm', 'o', 't', 'e', '_', 'p', 'a', 't', 'h']);
        assert("package_name"@ =~= seq![
            'p', 'a', 'c', 'k', 'a', 'g', 'e', '_', 'n', 'a', 'm', 'e',
        ]);
        assert("host"@ =~= seq!['h', 'o', 's', 't']);
        assert(svview(r@) =~= binary_order());
    }
    r
}

/// Apply a fixed key order to an object value; other values pass through.
fn key_order_apply(order: &Vec<Vec<char>>, v: Json) -> (r: Json)
    requires
        forall|i: int, j: int|
            0 <= i < j < order@.len() ==> #[trigger] svview(order@)[i] != #[trigger] svview(
                order@,
            )[j],
    ensures
        jview(r) == tx_key_order(svview(order@), jview(v)),
{
    match v {
        Json::Obj(es) => Json::Obj(key_order_exec(order, es)),
        other => other,
    }
}

/// The keys of each fixed order list are pairwise distinct.
pub proof fn lemma_orders_distinct()
    ensures
        forall|i: int, j: int|
            0 <= i < j < people_order().len() ==> #[trigger] people_order()[i]
                != #[trigger] people_order()[j],
        forall|i: int, j: int|
            0 <= i < j < bugs_order().len() ==> #[trigger] bugs_order()[i]
                != #[trigger] bugs_order()[j],
        forall|i: int, j: int|
            0 <= i < j < type_url_order().len() ==> #[trigger] type_url_order()[i]
                != #[trigger] type_url_order()[j],
        forall|i: int, j: int|
            0 <= i < j < directories_order().len() ==> #[trigger] directories_order()[i]
                != #[trigger] directories_order()[j],
        forall|i: int, j: int|
            0 <= i < j < binary_order().len() ==> #[trigger] binary_order()[i]
                != #[trigger] binary_order()[j],
{
    let p = people_order();
    assert(p[0].len() == 4 && p[1].len() == 5 && p[2].len() == 3);
    let b = bugs_order();
    assert(b[0].len() == 3 && b[1].len() == 5);
    let t = type_url_order();
    assert(t[0].len() == 4 && t[1].len() == 3);
    let d = directories_order();
    assert(d[0][0] == 'l' && d[1][0] == 'b' && d[2][0] == 'm' && d[3][0] == 'd');
    assert(d[4].len() == 7 && d[5].len() == 4 && d[0].len() == 3 && d[1].len() == 3 && d[2].len()
        == 3 && d[3].len() == 3);
    let y = binary_order();
    assert(y[0][7] == 'n' && y[1][7] == 'p');
    assert(y[0][0] == 'm' && y[1][0] == 'm' && y[2][0] == 'r');
    assert(y[0].len() == 11 && y[1].len() == 11 && y[2].len() == 11 && y[3].len() == 12
        && y[4].len() == 4);
}

/// Order a person object: name, email, url, then the rest.
pub fn people_exec(v: Json) -> (r: Json)
    ensures
        jview(r) == tx_people(jview(v)),
{
    let order = people_order_vec();
    proof {
        lemma_orders_distinct();
    }
    key_order_apply(&order, v)
}

/// The group an exports key falls in.
fn x_group_exec(k: &Vec<char>) -> (g: usize)
    ensures
        g as int == x_group(k@),
        g <= 3,
{
    proof {
        reveal(crate::transform::x_group);
    }
    if k.len() > 0 && k[0] == '.' {
        return 0;
    }
    if k.len() == 7 && k[0] == 'd' && k[1] == 'e' && k[2] == 'f' && k[3] == 'a' && k[4] == 'u'
        && k[5] == 'l' && k[6] == 't' {
        proof {
            assert(k@ =~= default_lit());
        }
        return 3;
    }
    proof {
        if k@ == default_lit() {
            assert(k@.len() == 7);
            assert(k@[0] == 'd' && k@[1] == 'e' && k@[2] == 'f' && k@[3] == 'a' && k@[4] == 'u'
                && k@[5] == 'l' && k@[6] == 't');
            assert(false);
        }
    }
    if k.len() == 5 && k[0] == 't' && k[1] == 'y' && k[2] == 'p' && k[3] == 'e' && k[4] == 's' {
        proof {
            assert(k@ =~= types_lit());
        }
        return 1;
    }
    if k.len() >= 6 && k[0] == 't' && k[1] == 'y' && k[2] == 'p' && k[3] == 'e' && k[4] == 's'
        && k[5] == '@' {
        proof {
            assert(k@.subrange(0, 6) =~= types_lit() + seq!['@']);
        }
        return 1;
    }
    proof {
        if k@ == types_lit() {
            assert(k@.len() == 5);
            assert(k@[0] == 't' && k@[1] == 'y' && k@[2] == 'p' && k@[3] == 'e' && k@[4] == 's');
            assert(false);
        }
        if has_prefix(k@, types_lit() + seq!['@']) {
            let p = types_lit() + seq!['@'];
            assert(k@.len() >= 6);
            assert(k@.subrange(0, 6)[0] == k@[0] && p[0] == 't');
            assert(k@.subrange(0, 6)[1] == k@[1] && p[1] == 'y');
            assert(k@.subrange(0, 6)[2] == k@[2] && p[2] == 'p');
            assert(k@.subrange(0, 6)[3] == k@[3] && p[3] == 'e');
            assert(k@.subrange(0, 6)[4] == k@[4] && p[4] == 's');
            assert(k@.subrange(0, 6)[5] == k@[5] && p[5] == '@');
            assert(false);
        }
    }
    2
}

/// Order a conditional-exports object value; other values pass through.
#[verifier::rlimit(100)]
pub fn tx_exports_exec(v: Json) -> (r: Json)
    ensures
        jview(r) == tx_exports(jview(v)),
    decreases v,
{
    match v {
        Json::Obj(es) => {
            let ghost vg = es;
            let ghost es0 = es@;
            let ghost ev = jview_obj(es0, 0);
            proof {
                lemma_jview_obj(es0, 0);
                lemma_tx_exports_entries(ev, 0);
            }
            let mut rest = es;
            let mut mapped: Vec<Entry> = Vec::new();
            let n0 = rest.len();
            proof {
                assert(es0.len() == n0);
                assert(rest@ =~= es0.skip(0));
                assert(jview_obj(mapped@, 0) =~= Seq::empty());
            }
            let mut i: usize = 0;
            while rest.len() > 0
                invariant
                    v == Json::Obj(vg),
                    vg@ == es0,
                    i + rest@.len() == es0.len(),
                    es0.len() <= usize::MAX,
                    ev == jview_obj(es0, 0),
                    ev.len() == es0.len(),
                    forall|k: int| 0 <= k < es0.len() ==> #[trigger] ev[k] == eview(es0[k]),
                    rest@ == es0.skip(i as int),
                    jview_obj(mapped@, 0).len() == i,
                    forall|k: int|
                        0 <= k < i ==> #[trigger] jview_obj(mapped@, 0)[k] == (
                        ev[k].0,
                        tx_exports(ev[k].1),
                        ),
                decreases rest@.len(),
            {
                let ghost mv0 = jview_obj(mapped@, 0);
                proof {
                    lemma_jview_obj(mapped@, 0);
                }
                let ghost restpre = rest@;
                let e = rest.remove(0);
                proof {
                    assert(rest@ =~= restpre.drop_first());
                    assert(e == es0.skip(i as int)[0]);
                    assert(e == es0[i as int]);
                    assert(es0.skip(i as int).drop_first() =~= es0.skip(i + 1));
                    assert(v == Json::Obj(vg));
                    assert(decreases_to!(v => v->Obj_0));
                    assert(v->Obj_0 == vg);
                    assert(decreases_to!(vg => vg@));
                    assert(decreases_to!(es0 => es0[i as int]));
                    assert(decreases_to!(es0[i as int] => es0[i as int].value));
                    assert(decreases_to!(v => e.value));
                }
                let Entry { key, value } = e;
                let tv = tx_exports_exec(value);
                mapped.push(Entry { key, value: tv });
                proof {
                    lemma_jview_obj(mapped@, 0);
                    assert(jview_obj(mapped@, 0) =~= mv0.push(
                        (es0[i as int].key@, tx_exports(jview(es0[i as int].value))),
                    ));
                }
                i = i + 1;
            }
            let ghost m = tx_exports_entries(ev, 0);
            proof {
                assert(jview_obj(mapped@, 0) =~= m);
            }
            // partition the mapped entries into the four groups
            let mut g0: Vec<Entry> = Vec::new();
            let mut g1: Vec<Entry> = Vec::new();
            let mut g2: Vec<Entry> = Vec::new();
            let mut g3: Vec<Entry> = Vec::new();
            let mut rest_m = mapped;
            let ghost mf = rest_m@;
            let nm = rest_m.len();
            proof {
                lemma_jview_obj(mf, 0);
                assert(jview_obj(mf, 0) == m);
                assert(m.len() == nm);
                assert(rest_m@ =~= mf.skip(0));
                reveal_with_fuel(Seq::filter, 1);
                assert(m.take(0) =~= Seq::empty());
                assert(jview_obj(g0@, 0) =~= m.take(0).filter(p_group(0)));
                assert(jview_obj(g1@, 0) =~= m.take(0).filter(p_group(1)));
                assert(jview_obj(g2@, 0) =~= m.take(0).filter(p_group(2)));
                assert(jview_obj(g3@, 0) =~= m.take(0).filter(p_group(3)));
            }
            let mut j: usize = 0;
            while rest_m.len() > 0
                invariant
                    j + rest_m@.len() == m.len(),
                    m.len() <= usize::MAX,
                    mf.len() == m.len(),
                    jview_obj(mf, 0) == m,
                    rest_m@ == mf.skip(j as int),
                    jview_obj(g0@, 0) == m.take(j as int).filter(p_group(0)),
                    jview_obj(g1@, 0) == m.take(j as int).filter(p_group(1)),
                    jview_obj(g2@, 0) == m.take(j as int).filter(p_group(2)),
                    jview_obj(g3@, 0) == m.take(j as int).filter(p_group(3)),
                decreases rest_m@.len(),
            {
                let ghost restpre = rest_m@;
                let ghost v0 = jview_obj(g0@, 0);
                let ghost v1 = jview_obj(g1@, 0);
                let ghost v2 = jview_obj(g2@, 0);
                let ghost v3 = jview_obj(g3@, 0);
                proof {
                    lemma_jview_obj(mf, 0);
                    lemma_jview_obj(g0@, 0);
                    lemma_jview_obj(g1@, 0);
                    lemma_jview_obj(g2@, 0);
                    lemma_jview_obj(g3@, 0);
                }
                let e = rest_m.remove(0);
                proof {
                    assert(rest_m@ =~= restpre.drop_first());
                    assert(e == mf.skip(j as int)[0]);
                    assert(e == mf[j as int]);
                    assert(eview(e) == m[j as int]);
                    assert(rest_m@ =~= mf.skip(j + 1));
                    assert(m.take(j + 1) =~= m.take(j as int).push(m[j as int]));
                    lemma_filter_take_push(m, p_group(0), j as int);
                    lemma_filter_take_push(m, p_group(1), j as int);
                    lemma_filter_take_push(m, p_group(2), j as int);
                    lemma_filter_take_push(m, p_group(3), j as int);
                }
                let g = x_group_exec(&e.key);
                proof {
                    assert(eview(e).0 == e.key@);
                    assert(x_group(m[j as int].0) == g as int);
                }
                if g == 0 {
                    g0.push(e);
                    proof {
                        lemma_jview_obj(g0@, 0);
                        assert(jview_obj(g0@, 0) =~= v0.push(m[j as int]));
                    }
                } else if g == 1 {
                    g1.push(e);
                    proof {
                        lemma_jview_obj(g1@, 0);
                        assert(jview_obj(g1@, 0) =~= v1.push(m[j as int]));
                    }
                } else if g == 2 {
                    g2.push(e);
                    proof {
                        lemma_jview_obj(g2@, 0);
                        assert(jview_obj(g2@, 0) =~= v2.push(m[j as int]));
                    }
                } else {
                    g3.push(e);
                    proof {
                        lemma_jview_obj(g3@, 0);
                        assert(jview_obj(g3@, 0) =~= v3.push(m[j as int]));
                    }
                }
                j = j + 1;
            }
            proof {
                assert(m.take(m.len() as int) =~= m);
            }
            let s0 = sort_entries_vec(g0);
            let mut s1 = sort_entries_vec(g1);
            let mut s2 = sort_entries_vec(g2);
            let mut s3 = sort_entries_vec(g3);
            let ghost w0 = s0@;
            let ghost w1 = s1@;
            let ghost w2 = s2@;
            let ghost w3 = s3@;
            let mut out = s0;
            out.append(&mut s1);
            out.append(&mut s2);
            out.append(&mut s3);
            proof {
                assert(out@ == w0 + w1 + w2 + w3);
                crate::value::lemma_jview_obj_concat(w0, w1);
                crate::value::lemma_jview_obj_concat(w0 + w1, w2);
                crate::value::lemma_jview_obj_concat(w0 + w1 + w2, w3);
            }
            Json::Obj(out)
        },
        other => other,
    }
}

/// Apply the transform a tag names; other tags' values pass through unchanged.
pub fn apply_tx_exec(t: Tx, v: Json) -> (r: Json)
    ensures
        jview(r) == apply_tx(t, jview(v)),
{
    proof {
        lemma_orders_distinct();
    }
    match t {
        Tx::Keep => v,
        Tx::Alpha => tx_alpha_exec(v),
        Tx::Rec => tx_rec_exec(v),
        Tx::Uniq => tx_uniq_exec(v),
        Tx::Exports => tx_exports_exec(v),
        Tx::People => people_exec(v),
        Tx::PeopleArr => tx_people_arr_exec(v),
        Tx::Bugs => {
            let order = bugs_order_vec();
            key_order_apply(&order, v)
        },
        Tx::TypeUrl => {
            let order = type_url_order_vec();
            key_order_apply(&order, v)
        },
        Tx::Directories => {
            let order = directories_order_vec();
            key_order_apply(&order, v)
        },
        Tx::Binary => {
            let order = binary_order_vec();
            key_order_apply(&order, v)
        },
    }
}

/// The transform a tag names.
pub open spec fn apply_tx(t: Tx, v: JsonV) -> JsonV {
    match t {
        Tx::Keep => v,
        Tx::Alpha => tx_alpha(v),
        Tx::Rec => tx_rec(v),
        Tx::Uniq => tx_uniq(v),
        Tx::Exports => tx_exports(v),
        Tx::People => tx_people(v),
        Tx::PeopleArr => tx_people_arr(v),
        Tx::Bugs => tx_key_order(bugs_order(), v),
        Tx::TypeUrl => tx_key_order(type_url_order(), v),
        Tx::Directories => tx_key_order(directories_order(), v),
        Tx::Binary => tx_key_order(binary_order(), v),
    }
}

} // verus!
