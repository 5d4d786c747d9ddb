//! The JSON value model: an executable representation and its mathematical
//! abstraction.

use vstd::prelude::*;

verus! {

broadcast use vstd::std_specs::vec::axiom_vec_decreases_to_view, vstd::seq::axiom_seq_index_decreases;

/// A JSON value. Numbers keep the characters of their source lexeme verbatim,
/// so no precision is lost; strings hold their decoded characters; an object
/// keeps its entries in order.
pub enum Json {
    Null,
    Bool(bool),
    Num(Vec<char>),
    Str(Vec<char>),
    Arr(Vec<Json>),
    Obj(Vec<Entry>),
}

/// One key/value pair of a JSON object.
pub struct Entry {
    pub key: Vec<char>,
    pub value: Json,
}

/// The mathematical shape of a JSON value; every contract speaks of this type.
#[verifier::ext_equal]
pub enum JsonV {
    Null,
    Bool(bool),
    Num(Seq<char>),
    Str(Seq<char>),
    Arr(Seq<JsonV>),
    Obj(Seq<(Seq<char>, JsonV)>),
}

/// The abstraction of one executable entry.
pub open spec fn eview(e: Entry) -> (Seq<char>, JsonV) {
    (e.key@, jview(e.value))
}

/// The abstraction of an executable value.
pub open spec fn jview(j: Json) -> JsonV
    decreases j, 0int, 0int,
{
    match j {
        Json::Null => JsonV::Null,
        Json::Bool(b) => JsonV::Bool(b),
        Json::Num(v) => JsonV::Num(v@),
        Json::Str(v) => JsonV::Str(v@),
        Json::Arr(v) => JsonV::Arr(jview_arr(v@, 0)),
        Json::Obj(v) => JsonV::Obj(jview_obj(v@, 0)),
    }
}

pub open spec fn jview_arr(s: Seq<Json>, i: int) -> Seq<JsonV>
    decreases s, s.len() - i, 1int,
{
    if i < 0 || i >= s.len() {
        Seq::empty()
    } else {
        seq![jview(s[i])] + jview_arr(s, i + 1)
    }
}

pub open spec fn jview_obj(s: Seq<Entry>, i: int) -> Seq<(Seq<char>, JsonV)>
    decreases s, s.len() - i, 1int,
{
    if i < 0 || i >= s.len() {
        Seq::empty()
    } else {
        seq![(s[i].key@, jview(s[i].value))] + jview_obj(s, i + 1)
    }
}

/// `jview_arr` is the elementwise abstraction of the vector's elements.
pub proof fn lemma_jview_arr(s: Seq<Json>, i: int)
    requires
        0 <= i <= s.len(),
    ensures
        jview_arr(s, i).len() == s.len() - i,
        forall|k: int| 0 <= k < s.len() - i ==> #[trigger] jview_arr(s, i)[k] == jview(s[k + i]),
    decreases s.len() - i,
{
    if i < s.len() {
        lemma_jview_arr(s, i + 1);
    }
}

/// `jview_obj` is the elementwise abstraction of the vector's entries.
pub proof fn lemma_jview_obj(s: Seq<Entry>, i: int)
    requires
        0 <= i <= s.len(),
    ensures
        jview_obj(s, i).len() == s.len() - i,
        forall|k: int| 0 <= k < s.len() - i ==> #[trigger] jview_obj(s, i)[k] == eview(s[k + i]),
    decreases s.len() - i,
{
    if i < s.len() {
        lemma_jview_obj(s, i + 1);
    }
}

/// The abstraction distributes over concatenation of entry vectors.
pub proof fn lemma_jview_obj_concat(a: Seq<Entry>, b: Seq<Entry>)
    ensures
        jview_obj(a + b, 0) == jview_obj(a, 0) + jview_obj(b, 0),
{
    lemma_jview_obj(a, 0);
    lemma_jview_obj(b, 0);
    lemma_jview_obj(a + b, 0);
    assert(jview_obj(a + b, 0) =~= jview_obj(a, 0) + jview_obj(b, 0));
}

/// The abstraction distributes over concatenation of value vectors.
pub proof fn lemma_jview_arr_concat(a: Seq<Json>, b: Seq<Json>)
    ensures
        jview_arr(a + b, 0) == jview_arr(a, 0) + jview_arr(b, 0),
{
    lemma_jview_arr(a, 0);
    lemma_jview_arr(b, 0);
    lemma_jview_arr(a + b, 0);
    assert(jview_arr(a + b, 0) =~= jview_arr(a, 0) + jview_arr(b, 0));
}

/// No two entries of an object share a key.
pub open spec fn unique_keys(es: Seq<(Seq<char>, JsonV)>) -> bool {
    forall|i: int, j: int| 0 <= i < j < es.len() ==> #[trigger] es[i].0 != #[trigger] es[j].0
}

/// Well-formedness: every object, at any depth, has pairwise distinct keys.
pub open spec fn wf(v: JsonV) -> bool
    decreases v,
{
    match v {
        JsonV::Arr(a) => forall|i: int| 0 <= i < a.len() ==> wf(#[trigger] a[i]),
        JsonV::Obj(es) => unique_keys(es) && (forall|i: int|
            0 <= i < es.len() ==> wf(#[trigger] es[i].1)),
        _ => true,
    }
}

} // verus!
