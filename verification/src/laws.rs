//! The library's laws: idempotence of canonicalization, preservation of the
//! data, the ordering guarantees of the output, and preservation of the
//! byte-order marker.

use vstd::prelude::*;
use vstd::relations::sorted_by;
use crate::order::{
    chars_le, sort_with, lemma_chars_le_total, lemma_chars_le_trans, lemma_chars_le_antisym,
    lemma_sort_with_basic, lemma_sort_with_sorted, lemma_sort_with_id, lemma_sort_with_membership,
};
use crate::value::{JsonV, unique_keys, wf};
use crate::schema::{Tx, rank_of};
use crate::transform::{
    apply_tx, sort_entries, entry_leq, str_leq, lemma_entry_leq_props, lemma_str_leq_props,
    tx_alpha, tx_rec, tx_rec_entries, lemma_tx_rec_entries, tx_uniq, tx_exports,
    tx_exports_entries, lemma_tx_exports_entries, tx_key_order, tx_people, tx_people_arr,
    dedup_sorted, strs_of, non_strs_of, p_is_str, p_non_str, f_content, f_mk_str, is_str_val,
    str_content, lookup_entry, picked, p_key_not_in, p_group, people_order, bugs_order,
    type_url_order, directories_order, binary_order, lemma_orders_distinct, x_group,
};

verus! {

broadcast use vstd::seq_lib::group_to_multiset_ensures, vstd::std_specs::vec::axiom_vec_decreases_to_view, vstd::seq::axiom_seq_index_decreases;

/// Sorting entries gives a key-ordered permutation.
pub proof fn lemma_sort_entries_props(es: Seq<(Seq<char>, JsonV)>)
    ensures
        sorted_by(sort_entries(es), entry_leq()),
        sort_entries(es).to_multiset() == es.to_multiset(),
        sort_entries(es).len() == es.len(),
{
    lemma_entry_leq_props();
    lemma_sort_with_sorted(entry_leq(), es);
    lemma_sort_with_basic(entry_leq(), es);
}

/// Sorting already key-ordered entries changes nothing.
pub proof fn lemma_sort_entries_id(es: Seq<(Seq<char>, JsonV)>)
    requires
        sorted_by(es, entry_leq()),
    ensures
        sort_entries(es) == es,
{
    lemma_sort_with_id(entry_leq(), es);
}

/// Every element of sorted entries is an element of the original.
pub proof fn lemma_sort_entries_membership(es: Seq<(Seq<char>, JsonV)>)
    ensures
        forall|i: int| #![trigger sort_entries(es)[i]]
            0 <= i < sort_entries(es).len() ==> exists|j: int|
                0 <= j < es.len() && es[j] == sort_entries(es)[i],
        forall|j: int| #![trigger es[j]]
            0 <= j < es.len() ==> exists|i: int|
                0 <= i < sort_entries(es).len() && sort_entries(es)[i] == es[j],
{
    lemma_sort_with_membership(entry_leq(), es);
    assert forall|j: int| #![trigger es[j]] 0 <= j < es.len() implies exists|i: int|
        0 <= i < sort_entries(es).len() && sort_entries(es)[i] == es[j] by {
        let i = choose|i: int|
            0 <= i < sort_with(entry_leq(), es).len() && sort_with(entry_leq(), es)[i] == es[j];
        assert(sort_entries(es)[i] == es[j]);
    }
}

/// A sequence whose elements all satisfy the predicate filters to itself.
pub proof fn lemma_filter_all_true<T>(s: Seq<T>, p: spec_fn(T) -> bool)
    requires
        forall|i: int| 0 <= i < s.len() ==> p(#[trigger] s[i]),
    ensures
        s.filter(p) == s,
    decreases s.len(),
{
    reveal(Seq::filter);
    if s.len() > 0 {
        lemma_filter_all_true(s.drop_last(), p);
        assert(s.filter(p) =~= s);
    }
}

/// A sequence whose elements all fail the predicate filters to nothing.
pub proof fn lemma_filter_all_false<T>(s: Seq<T>, p: spec_fn(T) -> bool)
    requires
        forall|i: int| 0 <= i < s.len() ==> !p(#[trigger] s[i]),
    ensures
        s.filter(p) == Seq::<T>::empty(),
    decreases s.len(),
{
    reveal(Seq::filter);
    if s.len() > 0 {
        lemma_filter_all_false(s.drop_last(), p);
        assert(s.filter(p) =~= Seq::<T>::empty());
    }
}

/// One level of alphabetical ordering is idempotent.
pub proof fn lemma_tx_alpha_idem(v: JsonV)
    ensures
        tx_alpha(tx_alpha(v)) == tx_alpha(v),
{
    match v {
        JsonV::Obj(es) => {
            lemma_sort_entries_props(es);
            lemma_sort_entries_id(sort_entries(es));
        },
        _ => {},
    }
}

/// Recursive ordering is idempotent.
#[verifier::rlimit(100)]
pub proof fn lemma_tx_rec_idem(v: JsonV)
    ensures
        tx_rec(tx_rec(v)) == tx_rec(v),
    decreases v,
{
    match v {
        JsonV::Obj(es) => {
            let m = tx_rec_entries(es, 0);
            lemma_tx_rec_entries(es, 0);
            let out = sort_entries(m);
            lemma_sort_entries_props(m);
            lemma_sort_entries_membership(m);
            assert forall|k: int| 0 <= k < out.len() implies #[trigger] tx_rec_entries(out, 0)[k]
                == out[k] by {
                lemma_tx_rec_entries(out, 0);
                let j = choose|j: int| 0 <= j < m.len() && m[j] == out[k];
                assert(m[j] == (es[j].0, tx_rec(es[j].1)));
                lemma_tx_rec_idem(es[j].1);
            }
            lemma_tx_rec_entries(out, 0);
            assert(tx_rec_entries(out, 0) =~= out);
            lemma_sort_entries_id(out);
        },
        _ => {},
    }
}

/// The head of a deduplicated sequence is the head of the original.
pub proof fn lemma_dedup_head(s: Seq<Seq<char>>)
    requires
        s.len() > 0,
    ensures
        dedup_sorted(s).len() > 0,
        dedup_sorted(s)[0] == s[0],
    decreases s.len(),
{
    if s.len() > 1 && s[0] == s[1] {
        lemma_dedup_head(s.drop_first());
    }
}

/// Deduplication leaves no adjacent equal elements.
pub proof fn lemma_dedup_adjacent(s: Seq<Seq<char>>)
    ensures
        forall|i: int|
            0 <= i < dedup_sorted(s).len() - 1 ==> #[trigger] dedup_sorted(s)[i] != dedup_sorted(
                s,
            )[i + 1],
    decreases s.len(),
{
    if s.len() > 1 {
        lemma_dedup_adjacent(s.drop_first());
        if s[0] != s[1] {
            lemma_dedup_head(s.drop_first());
            assert forall|i: int| 0 <= i < dedup_sorted(s).len() - 1 implies #[trigger]
                dedup_sorted(s)[i] != dedup_sorted(s)[i + 1] by {
                if i == 0 {
                    assert(dedup_sorted(s)[0] == s[0]);
                    assert(dedup_sorted(s)[1] == dedup_sorted(s.drop_first())[0]);
                } else {
                    assert(dedup_sorted(s)[i] == dedup_sorted(s.drop_first())[i - 1]);
                    assert(dedup_sorted(s)[i + 1] == dedup_sorted(s.drop_first())[i]);
                }
            }
        }
    }
}

/// A sequence without adjacent equal elements deduplicates to itself.
pub proof fn lemma_dedup_id(s: Seq<Seq<char>>)
    requires
        forall|i: int| 0 <= i < s.len() - 1 ==> #[trigger] s[i] != s[i + 1],
    ensures
        dedup_sorted(s) == s,
    decreases s.len(),
{
    if s.len() > 1 {
        assert(s[0] != s[1]);
        assert(forall|i: int|
            0 <= i < s.drop_first().len() - 1 ==> #[trigger] s.drop_first()[i] != s.drop_first()[i
                + 1]);
        lemma_dedup_id(s.drop_first());
        assert(dedup_sorted(s) =~= s);
    } else {
        assert(dedup_sorted(s) =~= s);
    }
}

/// Deduplication keeps a sorted sequence sorted.
pub proof fn lemma_dedup_sorted_stays(s: Seq<Seq<char>>)
    requires
        sorted_by(s, str_leq()),
    ensures
        sorted_by(dedup_sorted(s), str_leq()),
    decreases s.len(),
{
    if s.len() > 1 {
        assert(sorted_by(s.drop_first(), str_leq())) by {
            assert(forall|i: int, j: int|
                0 <= i < j < s.drop_first().len() ==> str_leq()(
                    #[trigger] s.drop_first()[i],
                    #[trigger] s.drop_first()[j],
                ));
        }
        lemma_dedup_sorted_stays(s.drop_first());
        if s[0] != s[1] {
            lemma_dedup_head(s.drop_first());
            assert forall|i: int, j: int|
                0 <= i < j < dedup_sorted(s).len() implies str_leq()(
                #[trigger] dedup_sorted(s)[i],
                #[trigger] dedup_sorted(s)[j],
            ) by {
                if i == 0 {
                    let d = dedup_sorted(s.drop_first());
                    assert(dedup_sorted(s)[j] == d[j - 1]);
                    assert(d.to_multiset().contains(d[j - 1])) by {
                        lemma_dedup_multiset_sub(s.drop_first());
                    }
                    lemma_dedup_contains(s.drop_first(), d[j - 1]);
                    let w = choose|w: int|
                        0 <= w < s.drop_first().len() && s.drop_first()[w] == d[j - 1];
                    assert(str_leq()(s[0], s[w + 1]));
                } else {
                    assert(dedup_sorted(s)[i] == dedup_sorted(s.drop_first())[i - 1]);
                    assert(dedup_sorted(s)[j] == dedup_sorted(s.drop_first())[j - 1]);
                }
            }
        }
    }
}

/// Every element of the deduplicated sequence is an element of the original.
pub proof fn lemma_dedup_contains(s: Seq<Seq<char>>, x: Seq<char>)
    requires
        dedup_sorted(s).contains(x),
    ensures
        s.contains(x),
    decreases s.len(),
{
    if s.len() > 1 {
        if s[0] == s[1] {
            lemma_dedup_contains(s.drop_first(), x);
            let w = choose|w: int| 0 <= w < s.drop_first().len() && s.drop_first()[w] == x;
            assert(s[w + 1] == x);
        } else {
            let d = dedup_sorted(s);
            let k = choose|k: int| 0 <= k < d.len() && d[k] == x;
            if k == 0 {
                assert(s[0] == x);
            } else {
                assert(dedup_sorted(s.drop_first())[k - 1] == x);
                assert(dedup_sorted(s.drop_first()).contains(x));
                lemma_dedup_contains(s.drop_first(), x);
                let w = choose|w: int| 0 <= w < s.drop_first().len() && s.drop_first()[w] == x;
                assert(s[w + 1] == x);
            }
        }
    }
}

/// A helper fact used above: deduplication never invents elements.
proof fn lemma_dedup_multiset_sub(s: Seq<Seq<char>>)
    ensures
        forall|i: int| #![trigger dedup_sorted(s)[i]]
            0 <= i < dedup_sorted(s).len() ==> dedup_sorted(s).to_multiset().contains(
                dedup_sorted(s)[i],
            ),
{
    assert forall|i: int| #![trigger dedup_sorted(s)[i]]
        0 <= i < dedup_sorted(s).len() implies dedup_sorted(s).to_multiset().contains(
        dedup_sorted(s)[i],
    ) by {
        assert(dedup_sorted(s).contains(dedup_sorted(s)[i]));
    }
}

/// And conversely: every element of the original stays present.
pub proof fn lemma_dedup_keeps(s: Seq<Seq<char>>, x: Seq<char>)
    requires
        s.contains(x),
    ensures
        dedup_sorted(s).contains(x),
    decreases s.len(),
{
    if s.len() <= 1 {
    } else if s[0] == s[1] {
        let k = choose|k: int| 0 <= k < s.len() && s[k] == x;
        if k == 0 {
            assert(s.drop_first()[0] == x);
        } else {
            assert(s.drop_first()[k - 1] == x);
        }
        assert(s.drop_first().contains(x));
        lemma_dedup_keeps(s.drop_first(), x);
    } else {
        let k = choose|k: int| 0 <= k < s.len() && s[k] == x;
        if k == 0 {
            assert(dedup_sorted(s)[0] == x);
        } else {
            assert(s.drop_first()[k - 1] == x);
            assert(s.drop_first().contains(x));
            lemma_dedup_keeps(s.drop_first(), x);
            let d = dedup_sorted(s.drop_first());
            let w = choose|w: int| 0 <= w < d.len() && d[w] == x;
            assert(dedup_sorted(s)[w + 1] == x);
        }
    }
}

} // verus!
