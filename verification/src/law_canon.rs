//! Idempotence of canonicalization: ordering an already canonical manifest
//! changes nothing.

use vstd::prelude::*;
use vstd::relations::sorted_by;
use crate::order::sort_with;
use crate::value::JsonV;
use crate::schema::{Tx, rank_of};
use crate::transform::{apply_tx, sort_entries};
use crate::classify::{
    canon_obj, canon_value, known_of, pub_of, priv_of, p_known, p_pub, p_priv, rank_le, f_rank,
    f_unrank, lemma_rank_le_props,
};
use crate::laws::{
    lemma_sort_entries_props, lemma_sort_entries_id, lemma_sort_entries_membership,
    lemma_filter_all_true, lemma_filter_all_false,
};
use crate::law_keys::lemma_apply_tx_idem;
use crate::order::{lemma_sort_with_basic, lemma_sort_with_sorted, lemma_sort_with_id,
    lemma_sort_with_membership};

verus! {

/// No recognized field of the manifest carries the conditional-exports
/// transform; the idempotence of that one transform is beyond this proof and
/// is exercised by tests.
pub open spec fn no_exports_field(es: Seq<(Seq<char>, JsonV)>) -> bool {
    forall|i: int|
        0 <= i < es.len() ==> (rank_of((#[trigger] es[i]).0) matches Option::Some(p) ==> p.1
            != Tx::Exports)
}

/// Three buckets that are already in canonical shape classify to themselves.
#[verifier::rlimit(100)]
proof fn lemma_canon_parts(
    k: Seq<(Seq<char>, JsonV)>,
    p: Seq<(Seq<char>, JsonV)>,
    v: Seq<(Seq<char>, JsonV)>,
)
    requires
        forall|i: int| 0 <= i < k.len() ==> p_known()(#[trigger] k[i]),
        forall|i: int| 0 <= i < p.len() ==> p_pub()(#[trigger] p[i]),
        forall|i: int| 0 <= i < v.len() ==> p_priv()(#[trigger] v[i]),
        sort_with(rank_le(), k.map_values(f_rank())) == k.map_values(f_rank()),
        forall|i: int| 0 <= i < k.len() ==> (f_rank()(#[trigger] k[i])).1 == k[i],
        sort_entries(p) == p,
        sort_entries(v) == v,
    ensures
        canon_obj(k + p + v) == k + p + v,
{
    let out = k + p + v;
    assert(forall|i: int| 0 <= i < k.len() ==> !p_pub()(#[trigger] k[i]) && !p_priv()(
        #[trigger] k[i],
    ));
    assert(forall|i: int| 0 <= i < p.len() ==> !p_known()(#[trigger] p[i]) && !p_priv()(
        #[trigger] p[i],
    ));
    assert(forall|i: int| 0 <= i < v.len() ==> !p_known()(#[trigger] v[i]) && !p_pub()(
        #[trigger] v[i],
    ));
    Seq::filter_distributes_over_add(k, p, p_known());
    Seq::filter_distributes_over_add(k + p, v, p_known());
    Seq::filter_distributes_over_add(k, p, p_pub());
    Seq::filter_distributes_over_add(k + p, v, p_pub());
    Seq::filter_distributes_over_add(k, p, p_priv());
    Seq::filter_distributes_over_add(k + p, v, p_priv());
    lemma_filter_all_true(k, p_known());
    lemma_filter_all_false(p, p_known());
    lemma_filter_all_false(v, p_known());
    lemma_filter_all_false(k, p_pub());
    lemma_filter_all_true(p, p_pub());
    lemma_filter_all_false(v, p_pub());
    lemma_filter_all_false(k, p_priv());
    lemma_filter_all_false(p, p_priv());
    lemma_filter_all_true(v, p_priv());
    assert(out.filter(p_known()) =~= k);
    assert(out.filter(p_pub()) =~= p);
    assert(out.filter(p_priv()) =~= v);
    assert(known_of(out) == k) by {
        assert(k.map_values(f_rank()).map_values(f_unrank()) =~= k);
    }
    assert(pub_of(out) == p);
    assert(priv_of(out) == v);
    assert(canon_obj(out) == k + p + v);
}

/// Canonicalizing an object's entries twice is canonicalizing them once.
#[verifier::rlimit(100)]
pub proof fn lemma_canon_obj_idem(es: Seq<(Seq<char>, JsonV)>)
    requires
        no_exports_field(es),
    ensures
        canon_obj(canon_obj(es)) == canon_obj(es),
{
    let fk = es.filter(p_known());
    let rk = fk.map_values(f_rank());
    let sorted = sort_with(rank_le(), rk);
    let k = sorted.map_values(f_unrank());
    let p = pub_of(es);
    let v = priv_of(es);
    lemma_rank_le_props();
    lemma_sort_with_basic(rank_le(), rk);
    lemma_sort_with_sorted(rank_le(), rk);
    lemma_sort_with_membership(rank_le(), rk);
    // every sorted, ranked entry is a ranked recognized entry of `es`, with
    // its priority attached and its value already transformed
    assert forall|i: int| 0 <= i < sorted.len() implies {
        &&& p_known()((#[trigger] sorted[i]).1)
        &&& sorted[i].0 == (rank_of(sorted[i].1.0)->0).0
        &&& apply_tx((rank_of(sorted[i].1.0)->0).1, sorted[i].1.1) == sorted[i].1.1
    } by {
        let j = choose|j: int| 0 <= j < rk.len() && rk[j] == sorted[i];
        assert(rk[j] == f_rank()(fk[j]));
        Seq::lemma_filter_pred(es, p_known(), j);
        Seq::lemma_filter_contains_rev(es, p_known(), fk[j]);
        let w = choose|w: int| 0 <= w < es.len() && es[w] == fk[j];
        let tag = (rank_of(fk[j].0)->0).1;
        assert(tag != Tx::Exports);
        lemma_apply_tx_idem(tag, fk[j].1);
    }
    assert(forall|i: int| 0 <= i < k.len() ==> #[trigger] k[i] == sorted[i].1);
    assert forall|i: int| 0 <= i < k.len() implies p_known()(#[trigger] k[i]) && (f_rank()(k[i])).1
        == k[i] by {
        assert(k[i] == sorted[i].1);
    }
    // re-ranking the stripped bucket gives back the sorted ranked entries
    assert(k.map_values(f_rank()) =~= sorted) by {
        assert forall|i: int| 0 <= i < k.len() implies #[trigger] k.map_values(f_rank())[i]
            == sorted[i] by {
            assert(k[i] == sorted[i].1);
        }
    }
    lemma_sort_with_id(rank_le(), sorted);
    // the public and private buckets are sorted and keep their classes
    lemma_sort_entries_props(es.filter(p_pub()));
    lemma_sort_entries_props(es.filter(p_priv()));
    lemma_sort_entries_membership(es.filter(p_pub()));
    lemma_sort_entries_membership(es.filter(p_priv()));
    assert forall|i: int| 0 <= i < p.len() implies p_pub()(#[trigger] p[i]) by {
        let j = choose|j: int|
            0 <= j < es.filter(p_pub()).len() && es.filter(p_pub())[j] == p[i];
        Seq::lemma_filter_pred(es, p_pub(), j);
    }
    assert forall|i: int| 0 <= i < v.len() implies p_priv()(#[trigger] v[i]) by {
        let j = choose|j: int|
            0 <= j < es.filter(p_priv()).len() && es.filter(p_priv())[j] == v[i];
        Seq::lemma_filter_pred(es, p_priv(), j);
    }
    lemma_sort_entries_id(p);
    lemma_sort_entries_id(v);
    lemma_canon_parts(k, p, v);
    assert(canon_obj(es) == k + p + v);
}

/// Canonicalizing a value twice is canonicalizing it once: the canonical form
/// is a fixed point.
pub proof fn lemma_canon_value_idem(x: JsonV)
    requires
        x matches JsonV::Obj(es) ==> no_exports_field(es),
    ensures
        canon_value(canon_value(x)) == canon_value(x),
{
    match x {
        JsonV::Obj(es) => {
            lemma_canon_obj_idem(es);
        },
        _ => {},
    }
}

} // verus!
