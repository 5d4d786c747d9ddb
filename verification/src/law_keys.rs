//! Idempotence of the key-list, people and exports transforms, and of every
//! transform together.

use vstd::prelude::*;
use vstd::relations::sorted_by;
use crate::value::JsonV;
use crate::schema::Tx;
use crate::transform::{
    apply_tx, sort_entries, entry_leq, tx_alpha, tx_rec, tx_key_order, tx_people, tx_people_arr,
    tx_exports, tx_exports_entries, lemma_tx_exports_entries, lookup_entry, picked,
    p_key_not_in, p_group, people_order, bugs_order, type_url_order, directories_order,
    binary_order, lemma_orders_distinct, x_group,
};
use crate::laws::{
    lemma_sort_entries_props, lemma_sort_entries_id, lemma_sort_entries_membership,
    lemma_filter_all_true, lemma_filter_all_false, lemma_tx_alpha_idem, lemma_tx_rec_idem,
};
use crate::law_uniq::lemma_tx_uniq_idem;

verus! {

/// Looking a key up in a concatenation tries the front first.
pub proof fn lemma_lookup_concat(
    a: Seq<(Seq<char>, JsonV)>,
    b: Seq<(Seq<char>, JsonV)>,
    k: Seq<char>,
)
    ensures
        lookup_entry(a + b, k) == if lookup_entry(a, k) is Some {
            lookup_entry(a, k)
        } else {
            lookup_entry(b, k)
        },
    decreases a.len(),
{
    if a.len() == 0 {
        assert(a + b =~= b);
    } else {
        assert((a + b)[0] == a[0]);
        assert((a + b).drop_first() =~= a.drop_first() + b);
        lemma_lookup_concat(a.drop_first(), b, k);
    }
}

/// A key no entry holds is not found.
pub proof fn lemma_lookup_absent(s: Seq<(Seq<char>, JsonV)>, k: Seq<char>)
    requires
        forall|i: int| 0 <= i < s.len() ==> (#[trigger] s[i]).0 != k,
    ensures
        lookup_entry(s, k) is None,
    decreases s.len(),
{
    if s.len() > 0 {
        assert(forall|i: int| 0 <= i < s.drop_first().len() ==> (#[trigger] s.drop_first()[i]).0
            != k);
        lemma_lookup_absent(s.drop_first(), k);
    }
}

/// Every picked entry carries one of the listed keys and its first value.
pub proof fn lemma_picked_elements(es: Seq<(Seq<char>, JsonV)>, order: Seq<Seq<char>>)
    ensures
        forall|t: int|
            0 <= t < picked(es, order).len() ==> order.contains(
                (#[trigger] picked(es, order)[t]).0,
            ) && lookup_entry(es, picked(es, order)[t].0) == Option::Some(picked(es, order)[t].1),
    decreases order.len(),
{
    if order.len() > 0 {
        lemma_picked_elements(es, order.drop_first());
        assert forall|t: int| 0 <= t < picked(es, order).len() implies order.contains(
            (#[trigger] picked(es, order)[t]).0,
        ) && lookup_entry(es, picked(es, order)[t].0) == Option::Some(
            picked(es, order)[t].1,
        ) by {
            match lookup_entry(es, order[0]) {
                Option::Some(v0) => {
                    if t == 0 {
                        assert(picked(es, order)[0] == (order[0], v0));
                        assert(order[0] == order[0]);
                    } else {
                        let e = picked(es, order.drop_first())[t - 1];
                        assert(picked(es, order)[t] == e);
                        assert(order.drop_first().contains(e.0));
                        let w = choose|w: int|
                            0 <= w < order.drop_first().len() && order.drop_first()[w] == e.0;
                        assert(order[w + 1] == e.0);
                    }
                },
                Option::None => {
                    let e = picked(es, order.drop_first())[t];
                    assert(picked(es, order)[t] == e);
                    assert(order.drop_first().contains(e.0));
                    let w = choose|w: int|
                        0 <= w < order.drop_first().len() && order.drop_first()[w] == e.0;
                    assert(order[w + 1] == e.0);
                },
            }
        }
    }
}

/// Two entry lists that answer every listed key alike pick the same entries.
pub proof fn lemma_picked_same(
    a: Seq<(Seq<char>, JsonV)>,
    b: Seq<(Seq<char>, JsonV)>,
    order: Seq<Seq<char>>,
)
    requires
        forall|k: Seq<char>| order.contains(k) ==> lookup_entry(a, k) == lookup_entry(b, k),
    ensures
        picked(a, order) == picked(b, order),
    decreases order.len(),
{
    if order.len() > 0 {
        assert(order.contains(order[0]));
        assert forall|k: Seq<char>| order.drop_first().contains(k) implies lookup_entry(a, k)
            == lookup_entry(b, k) by {
            let w = choose|w: int|
                0 <= w < order.drop_first().len() && order.drop_first()[w] == k;
            assert(order[w + 1] == k);
            assert(order.contains(k));
        }
        lemma_picked_same(a, b, order.drop_first());
    }
}

/// Looking up in the picked entries is looking up in the original, for listed
/// keys; anything else is absent.
pub proof fn lemma_lookup_in_picked(
    es: Seq<(Seq<char>, JsonV)>,
    order: Seq<Seq<char>>,
    k: Seq<char>,
)
    requires
        forall|i: int, j: int|
            0 <= i < j < order.len() ==> #[trigger] order[i] != #[trigger] order[j],
    ensures
        lookup_entry(picked(es, order), k) == if order.contains(k) {
            lookup_entry(es, k)
        } else {
            Option::<JsonV>::None
        },
    decreases order.len(),
{
    if order.len() == 0 {
        assert(!order.contains(k));
    } else {
        let d = order.drop_first();
        assert(forall|i: int, j: int| 0 <= i < j < d.len() ==> #[trigger] d[i] != #[trigger] d[j]);
        lemma_lookup_in_picked(es, d, k);
        assert(order.contains(k) <==> (k == order[0] || d.contains(k))) by {
            if order.contains(k) {
                let w = choose|w: int| 0 <= w < order.len() && order[w] == k;
                if w > 0 {
                    assert(d[w - 1] == k);
                }
            }
            if d.contains(k) {
                let w = choose|w: int| 0 <= w < d.len() && d[w] == k;
                assert(order[w + 1] == k);
            }
        }
        match lookup_entry(es, order[0]) {
            Option::Some(v0) => {
                let p = picked(es, order);
                assert(p == seq![(order[0], v0)] + picked(es, d));
                assert(p[0] == (order[0], v0));
                assert(p.drop_first() =~= picked(es, d));
                if k == order[0] {
                } else {
                    assert(forall|j: int| 0 <= j < d.len() ==> #[trigger] d[j] != order[0]);
                    if d.contains(k) {
                    } else {
                    }
                }
            },
            Option::None => {
                if k == order[0] {
                    // the key is listed but absent from `es`; it is absent
                    // from the picked entries of the tail too
                    lemma_picked_elements(es, d);
                    assert forall|i: int| 0 <= i < picked(es, d).len() implies (#[trigger] picked(
                        es,
                        d,
                    )[i]).0 != k by {
                        if picked(es, d)[i].0 == k {
                            assert(lookup_entry(es, k) == Option::Some(picked(es, d)[i].1));
                        }
                    }
                    lemma_lookup_absent(picked(es, d), k);
                }
            },
        }
    }
}

/// Ordering by a fixed key list is idempotent.
pub proof fn lemma_tx_key_order_idem(order: Seq<Seq<char>>, v: JsonV)
    requires
        forall|i: int, j: int|
            0 <= i < j < order.len() ==> #[trigger] order[i] != #[trigger] order[j],
    ensures
        tx_key_order(order, tx_key_order(order, v)) == tx_key_order(order, v),
{
    match v {
        JsonV::Obj(es) => {
            let p = picked(es, order);
            let rest = es.filter(p_key_not_in(order));
            let sr = sort_entries(rest);
            let out = p + sr;
            lemma_sort_entries_props(rest);
            lemma_sort_entries_membership(rest);
            lemma_picked_elements(es, order);
            // the sorted rest holds no listed key
            assert forall|i: int| 0 <= i < sr.len() implies !order.contains(
                (#[trigger] sr[i]).0,
            ) by {
                let j = choose|j: int| 0 <= j < rest.len() && rest[j] == sr[i];
                Seq::lemma_filter_pred(es, p_key_not_in(order), j);
            }
            // every listed key answers alike in `out` and in `es`
            assert forall|k: Seq<char>| order.contains(k) implies lookup_entry(out, k)
                == lookup_entry(es, k) by {
                lemma_lookup_concat(p, sr, k);
                lemma_lookup_in_picked(es, order, k);
                if lookup_entry(p, k) is None {
                    assert(forall|i: int| 0 <= i < sr.len() ==> (#[trigger] sr[i]).0 != k);
                    lemma_lookup_absent(sr, k);
                }
            }
            lemma_picked_same(out, es, order);
            // the unlisted remainder of `out` is the sorted rest
            assert(forall|i: int| 0 <= i < p.len() ==> !p_key_not_in(order)(#[trigger] p[i]));
            assert(forall|i: int| 0 <= i < sr.len() ==> p_key_not_in(order)(#[trigger] sr[i]));
            Seq::filter_distributes_over_add(p, sr, p_key_not_in(order));
            lemma_filter_all_false(p, p_key_not_in(order));
            lemma_filter_all_true(sr, p_key_not_in(order));
            assert(out.filter(p_key_not_in(order)) =~= sr);
            lemma_sort_entries_id(sr);
            assert(picked(out, order) + sort_entries(out.filter(p_key_not_in(order))) =~= out);
        },
        _ => {},
    }
}

/// The person ordering applied across an array is idempotent.
pub proof fn lemma_tx_people_arr_idem(v: JsonV)
    ensures
        tx_people_arr(tx_people_arr(v)) == tx_people_arr(v),
{
    lemma_orders_distinct();
    match v {
        JsonV::Arr(a) => {
            let a2 = Seq::new(a.len(), |i: int| tx_people(a[i]));
            assert forall|i: int| 0 <= i < a2.len() implies tx_people(#[trigger] a2[i]) == a2[i] by {
                lemma_tx_key_order_idem(people_order(), a[i]);
            }
            assert(Seq::new(a2.len(), |i: int| tx_people(a2[i])) =~= a2);
        },
        _ => {},
    }
}

/// Every transform but the conditional-exports ordering is idempotent here;
/// that one is exercised by tests instead.
pub proof fn lemma_apply_tx_idem(t: Tx, v: JsonV)
    requires
        t != Tx::Exports,
    ensures
        apply_tx(t, apply_tx(t, v)) == apply_tx(t, v),
{
    lemma_orders_distinct();
    match t {
        Tx::Keep => {},
        Tx::Alpha => lemma_tx_alpha_idem(v),
        Tx::Rec => lemma_tx_rec_idem(v),
        Tx::Uniq => lemma_tx_uniq_idem(v),
        Tx::Exports => {},
        Tx::People => lemma_tx_key_order_idem(people_order(), v),
        Tx::PeopleArr => lemma_tx_people_arr_idem(v),
        Tx::Bugs => lemma_tx_key_order_idem(bugs_order(), v),
        Tx::TypeUrl => lemma_tx_key_order_idem(type_url_order(), v),
        Tx::Directories => lemma_tx_key_order_idem(directories_order(), v),
        Tx::Binary => lemma_tx_key_order_idem(binary_order(), v),
    }
}

} // verus!
