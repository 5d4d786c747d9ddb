//! Idempotence of the array transform.

use vstd::prelude::*;
use vstd::relations::sorted_by;
use crate::order::{chars_le, sort_with, lemma_sort_with_sorted, lemma_sort_with_id};
use crate::value::JsonV;
use crate::transform::{
    str_leq, lemma_str_leq_props, tx_uniq, dedup_sorted, strs_of, non_strs_of, p_is_str,
    p_non_str, f_content, f_mk_str, is_str_val, str_content,
};
use crate::laws::{
    lemma_filter_all_true, lemma_filter_all_false, lemma_dedup_sorted_stays,
    lemma_dedup_adjacent, lemma_dedup_id,
};
use crate::order::lemma_sort_with_basic;

verus! {

/// Sorting and deduplicating the strings of an array is idempotent.
pub proof fn lemma_tx_uniq_idem(v: JsonV)
    ensures
        tx_uniq(tx_uniq(v)) == tx_uniq(v),
{
    match v {
        JsonV::Arr(a) => {
            let strs = strs_of(a);
            lemma_str_leq_props();
            let sorted = sort_with(str_leq(), strs);
            lemma_sort_with_sorted(str_leq(), strs);
            let u = dedup_sorted(sorted);
            lemma_dedup_sorted_stays(sorted);
            lemma_dedup_adjacent(sorted);
            let us = u.map_values(f_mk_str());
            let ns = non_strs_of(a);
            let a2 = us + ns;
            assert(forall|i: int| 0 <= i < us.len() ==> is_str_val(#[trigger] us[i]));
            assert forall|i: int| 0 <= i < ns.len() implies !is_str_val(#[trigger] ns[i]) by {
                Seq::lemma_filter_pred(a, p_non_str(), i);
            }
            assert(forall|i: int| 0 <= i < us.len() ==> p_is_str()(#[trigger] us[i]));
            assert(forall|i: int| 0 <= i < ns.len() ==> !p_is_str()(#[trigger] ns[i]));
            Seq::filter_distributes_over_add(us, ns, p_is_str());
            lemma_filter_all_true(us, p_is_str());
            lemma_filter_all_false(ns, p_is_str());
            assert(a2.filter(p_is_str()) =~= us);
            assert(strs_of(a2) =~= u);
            lemma_sort_with_id(str_leq(), u);
            lemma_dedup_id(u);
            assert(forall|i: int| 0 <= i < us.len() ==> !p_non_str()(#[trigger] us[i]));
            assert(forall|i: int| 0 <= i < ns.len() ==> p_non_str()(#[trigger] ns[i]));
            Seq::filter_distributes_over_add(us, ns, p_non_str());
            lemma_filter_all_false(us, p_non_str());
            lemma_filter_all_true(ns, p_non_str());
            assert(non_strs_of(a2) =~= ns);
            assert(dedup_sorted(sort_with(str_leq(), strs_of(a2))).map_values(f_mk_str())
                + non_strs_of(a2) =~= us + ns);
        },
        _ => {},
    }
}


/// A deduplicated sorted sequence has no duplicates at all.
proof fn lemma_dedup_no_duplicates(s: Seq<Seq<char>>)
    requires
        sorted_by(s, str_leq()),
    ensures
        dedup_sorted(s).no_duplicates(),
{
    let u = dedup_sorted(s);
    lemma_dedup_sorted_stays(s);
    lemma_dedup_adjacent(s);
    assert forall|i: int, j: int| 0 <= i < j < u.len() implies u[i] != u[j] by {
        if u[i] == u[j] {
            assert(str_leq()(u[i], u[i + 1]));
            if i + 1 == j {
            } else {
                assert(str_leq()(u[i + 1], u[j]));
                crate::order::lemma_chars_le_antisym(u[i + 1], u[j]);
            }
        }
    }
}

/// The array transform law: the strings come first, sorted, without
/// duplicates, exactly one for each distinct string of the array; the
/// non-strings follow, untouched and in their original relative order.
pub proof fn lemma_unique_array_shape(a: Seq<JsonV>)
    ensures
        tx_uniq(JsonV::Arr(a)) matches JsonV::Arr(out) && {
            let u = dedup_sorted(sort_with(str_leq(), strs_of(a)));
            &&& out.len() == u.len() + non_strs_of(a).len()
            &&& out.skip(u.len() as int) == non_strs_of(a)
            &&& forall|i: int| 0 <= i < u.len() ==> out[i] == JsonV::Str(u[i])
            &&& sorted_by(u, str_leq())
            &&& u.no_duplicates()
            &&& u.len() == strs_of(a).to_set().len()
        },
{
    broadcast use vstd::seq_lib::group_to_multiset_ensures;

    let strs = strs_of(a);
    lemma_str_leq_props();
    let sorted = sort_with(str_leq(), strs);
    lemma_sort_with_sorted(str_leq(), strs);
    lemma_sort_with_basic(str_leq(), strs);
    let u = dedup_sorted(sorted);
    lemma_dedup_sorted_stays(sorted);
    lemma_dedup_no_duplicates(sorted);
    let out = u.map_values(f_mk_str()) + non_strs_of(a);
    assert(out.skip(u.len() as int) =~= non_strs_of(a));
    // one entry for each distinct string
    assert forall|x: Seq<char>| u.contains(x) <==> strs.contains(x) by {
        if u.contains(x) {
            crate::laws::lemma_dedup_contains(sorted, x);
            assert(sorted.contains(x));
            assert(sorted.to_multiset().contains(x));
            assert(strs.to_multiset().contains(x));
        }
        if strs.contains(x) {
            assert(strs.to_multiset().contains(x));
            assert(sorted.to_multiset().contains(x));
            assert(sorted.contains(x));
            crate::laws::lemma_dedup_keeps(sorted, x);
        }
    }
    assert(u.to_set() =~= strs.to_set());
    u.unique_seq_to_set();
}

} // verus!
