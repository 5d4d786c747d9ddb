//! The shape of the canonical order: nothing is lost, known fields come
//! first by priority, then public-unknown and private fields, each bucket
//! ascending by key.

use vstd::prelude::*;
use vstd::relations::sorted_by;
use crate::order::{chars_le, sort_with, lemma_sort_with_basic, lemma_sort_with_sorted,
    lemma_sort_with_membership};
use crate::value::{JsonV, unique_keys};
use crate::schema::{Tx, rank_of, lookup_at, schema};
use crate::transform::{apply_tx, sort_entries, entry_leq};
use crate::classify::{canon_obj, known_of, pub_of, priv_of, p_known, p_pub, p_priv, rank_le,
    f_rank, f_unrank, lemma_rank_le_props, priv_key};
use crate::laws::{lemma_sort_entries_props, lemma_sort_entries_membership};

verus! {

/// A recognized key's priority is the position of that key in the registry,
/// so two distinct keys never share a priority.
proof fn lemma_rank_names(k: Seq<char>, i: int)
    requires
        0 <= i,
    ensures
        lookup_at(k, i) matches Option::Some(p) ==> i <= p.0 < schema().len() && schema()[p.0].0
            == k,
    decreases schema().len() - i,
{
    reveal(crate::schema::lookup_at);
    if i < schema().len() && schema()[i].0 != k {
        lemma_rank_names(k, i + 1);
    }
}

/// Distinct recognized keys have distinct priorities.
pub proof fn lemma_rank_injective(k1: Seq<char>, k2: Seq<char>)
    requires
        k1 != k2,
        rank_of(k1) is Some,
        rank_of(k2) is Some,
    ensures
        (rank_of(k1)->0).0 != (rank_of(k2)->0).0,
{
    lemma_rank_names(k1, 0);
    lemma_rank_names(k2, 0);
}

/// The number of entries in each class, together, is the number of entries.
proof fn lemma_partition_len(es: Seq<(Seq<char>, JsonV)>)
    ensures
        es.filter(p_known()).len() + es.filter(p_pub()).len() + es.filter(p_priv()).len()
            == es.len(),
    decreases es.len(),
{
    reveal(Seq::filter);
    if es.len() > 0 {
        lemma_partition_len(es.drop_last());
    }
}

/// The value a field carries after canonicalization: the original, through
/// the transform of its field if it is a recognized one.
pub open spec fn canon_field_value(key: Seq<char>, val: JsonV) -> JsonV {
    match rank_of(key) {
        Option::Some(p) => apply_tx(p.1, val),
        Option::None => val,
    }
}

/// The canonical entry at `i` is a manifest entry, with its canonical value.
pub open spec fn comes_from(es: Seq<(Seq<char>, JsonV)>, i: int) -> bool {
    exists|j: int|
        0 <= j < es.len() && (#[trigger] es[j]).0 == canon_obj(es)[i].0 && canon_obj(es)[i].1
            == canon_field_value(es[j].0, es[j].1)
}

/// The key of the manifest entry at `j` appears in the canonical order.
pub open spec fn key_is_kept(es: Seq<(Seq<char>, JsonV)>, j: int) -> bool {
    exists|i: int| 0 <= i < canon_obj(es).len() && (#[trigger] canon_obj(es)[i]).0 == es[j].0
}

/// The canonical order loses nothing and invents nothing: it has exactly the
/// manifest's entries, each key present on both sides, and each value is the
/// original one put through the transform of its field, if it is recognized.
pub proof fn lemma_no_data_loss(es: Seq<(Seq<char>, JsonV)>)
    ensures
        canon_obj(es).len() == es.len(),
        forall|i: int| 0 <= i < canon_obj(es).len() ==> #[trigger] comes_from(es, i),
        forall|j: int| 0 <= j < es.len() ==> #[trigger] key_is_kept(es, j),
{
    let fk = es.filter(p_known());
    let rk = fk.map_values(f_rank());
    let sorted = sort_with(rank_le(), rk);
    let k = sorted.map_values(f_unrank());
    let p = pub_of(es);
    let v = priv_of(es);
    let out = canon_obj(es);
    lemma_rank_le_props();
    lemma_sort_with_basic(rank_le(), rk);
    lemma_sort_with_membership(rank_le(), rk);
    lemma_sort_entries_props(es.filter(p_pub()));
    lemma_sort_entries_props(es.filter(p_priv()));
    lemma_sort_entries_membership(es.filter(p_pub()));
    lemma_sort_entries_membership(es.filter(p_priv()));
    lemma_partition_len(es);
    assert(out.len() == es.len());
    // each canonical entry comes from a manifest entry
    assert forall|i: int| 0 <= i < canon_obj(es).len() implies #[trigger] comes_from(es, i) by {
        assert(canon_obj(es)[i] == out[i]);
        if i < k.len() {
            assert(out[i] == k[i]);
            assert(k[i] == sorted[i].1);
            let t = choose|t: int| 0 <= t < rk.len() && rk[t] == sorted[i];
            assert(rk[t] == f_rank()(fk[t]));
            Seq::lemma_filter_pred(es, p_known(), t);
            Seq::lemma_filter_contains_rev(es, p_known(), fk[t]);
            let j = choose|j: int| 0 <= j < es.len() && es[j] == fk[t];
            assert(es[j].0 == canon_obj(es)[i].0 && canon_obj(es)[i].1 == canon_field_value(
                es[j].0,
                es[j].1,
            ));
        } else if i < k.len() + p.len() {
            assert(out[i] == p[i - k.len()]);
            let fp = es.filter(p_pub());
            let t = choose|t: int| 0 <= t < fp.len() && fp[t] == p[i - k.len()];
            Seq::lemma_filter_pred(es, p_pub(), t);
            Seq::lemma_filter_contains_rev(es, p_pub(), fp[t]);
            let j = choose|j: int| 0 <= j < es.len() && es[j] == fp[t];
            assert(es[j].0 == canon_obj(es)[i].0 && canon_obj(es)[i].1 == canon_field_value(
                es[j].0,
                es[j].1,
            ));
        } else {
            assert(out[i] == v[i - k.len() - p.len()]);
            let fv = es.filter(p_priv());
            let t = choose|t: int| 0 <= t < fv.len() && fv[t] == v[i - k.len() - p.len()];
            Seq::lemma_filter_pred(es, p_priv(), t);
            Seq::lemma_filter_contains_rev(es, p_priv(), fv[t]);
            let j = choose|j: int| 0 <= j < es.len() && es[j] == fv[t];
            assert(es[j].0 == canon_obj(es)[i].0 && canon_obj(es)[i].1 == canon_field_value(
                es[j].0,
                es[j].1,
            ));
        }
    }
    // each manifest key is present in the canonical order
    assert forall|j: int| 0 <= j < es.len() implies #[trigger] key_is_kept(es, j) by {
        if p_known()(es[j]) {
            Seq::lemma_filter_contains(es, p_known(), j);
            let t = choose|t: int| 0 <= t < fk.len() && fk[t] == es[j];
            assert(rk[t] == f_rank()(fk[t]));
            let w = choose|w: int| 0 <= w < sorted.len() && sorted[w] == rk[t];
            assert(canon_obj(es)[w] == k[w]);
            assert(k[w] == sorted[w].1);
            assert(canon_obj(es)[w].0 == es[j].0);
        } else if p_pub()(es[j]) {
            Seq::lemma_filter_contains(es, p_pub(), j);
            let fp = es.filter(p_pub());
            let t = choose|t: int| 0 <= t < fp.len() && fp[t] == es[j];
            let w = choose|w: int| 0 <= w < p.len() && p[w] == fp[t];
            assert(canon_obj(es)[k.len() + w] == p[w]);
            assert(canon_obj(es)[k.len() + w].0 == es[j].0);
        } else {
            Seq::lemma_filter_contains(es, p_priv(), j);
            let fv = es.filter(p_priv());
            let t = choose|t: int| 0 <= t < fv.len() && fv[t] == es[j];
            let w = choose|w: int| 0 <= w < v.len() && v[w] == fv[t];
            assert(canon_obj(es)[k.len() + p.len() + w] == v[w]);
            assert(canon_obj(es)[k.len() + p.len() + w].0 == es[j].0);
        }
    }
}

/// The ordering guarantees of the canonical form: the three buckets come in
/// order, recognized fields ascend by priority (strictly, for distinct keys),
/// and the unknown buckets ascend by key.
pub proof fn lemma_canonical_ordering(es: Seq<(Seq<char>, JsonV)>)
    ensures
        canon_obj(es) == known_of(es) + pub_of(es) + priv_of(es),
        forall|i: int|
            0 <= i < known_of(es).len() ==> rank_of((#[trigger] known_of(es)[i]).0) is Some,
        forall|i: int, j: int|
            0 <= i < j < known_of(es).len() ==> (rank_of(#[trigger] known_of(es)[i].0)->0).0 <= (
            rank_of(#[trigger] known_of(es)[j].0)->0).0,
        forall|i: int, j: int|
            0 <= i < j < known_of(es).len() && known_of(es)[i].0 != known_of(es)[j].0 ==> (rank_of(
                #[trigger] known_of(es)[i].0,
            )->0).0 < (rank_of(#[trigger] known_of(es)[j].0)->0).0,
        forall|i: int|
            0 <= i < pub_of(es).len() ==> rank_of((#[trigger] pub_of(es)[i]).0) is None
                && !priv_key(pub_of(es)[i].0),
        forall|i: int|
            0 <= i < priv_of(es).len() ==> rank_of((#[trigger] priv_of(es)[i]).0) is None
                && priv_key(priv_of(es)[i].0),
        sorted_by(pub_of(es), entry_leq()),
        sorted_by(priv_of(es), entry_leq()),
{
    let fk = es.filter(p_known());
    let rk = fk.map_values(f_rank());
    let sorted = sort_with(rank_le(), rk);
    let k = known_of(es);
    lemma_rank_le_props();
    lemma_sort_with_basic(rank_le(), rk);
    lemma_sort_with_sorted(rank_le(), rk);
    lemma_sort_with_membership(rank_le(), rk);
    lemma_sort_entries_props(es.filter(p_pub()));
    lemma_sort_entries_props(es.filter(p_priv()));
    lemma_sort_entries_membership(es.filter(p_pub()));
    lemma_sort_entries_membership(es.filter(p_priv()));
    // every sorted ranked entry is recognized and carries its own priority
    assert forall|i: int| 0 <= i < sorted.len() implies rank_of(
        (#[trigger] sorted[i]).1.0,
    ) is Some && sorted[i].0 == (rank_of(sorted[i].1.0)->0).0 by {
        let t = choose|t: int| 0 <= t < rk.len() && rk[t] == sorted[i];
        assert(rk[t] == f_rank()(fk[t]));
        Seq::lemma_filter_pred(es, p_known(), t);
    }
    assert(forall|i: int| 0 <= i < k.len() ==> #[trigger] k[i] == sorted[i].1);
    assert forall|i: int, j: int| 0 <= i < j < k.len() implies (rank_of(#[trigger] k[i].0)->0).0
        <= (rank_of(#[trigger] k[j].0)->0).0 by {
        assert(rank_le()(sorted[i], sorted[j]));
    }
    assert forall|i: int, j: int|
        0 <= i < j < k.len() && k[i].0 != k[j].0 implies (rank_of(#[trigger] k[i].0)->0).0 < (
    rank_of(#[trigger] k[j].0)->0).0 by {
        assert(rank_le()(sorted[i], sorted[j]));
        lemma_rank_injective(k[i].0, k[j].0);
    }
    assert forall|i: int| 0 <= i < pub_of(es).len() implies rank_of(
        (#[trigger] pub_of(es)[i]).0,
    ) is None && !priv_key(pub_of(es)[i].0) by {
        let fp = es.filter(p_pub());
        let t = choose|t: int| 0 <= t < fp.len() && fp[t] == pub_of(es)[i];
        Seq::lemma_filter_pred(es, p_pub(), t);
    }
    assert forall|i: int| 0 <= i < priv_of(es).len() implies rank_of(
        (#[trigger] priv_of(es)[i]).0,
    ) is None && priv_key(priv_of(es)[i].0) by {
        let fv = es.filter(p_priv());
        let t = choose|t: int| 0 <= t < fv.len() && fv[t] == priv_of(es)[i];
        Seq::lemma_filter_pred(es, p_priv(), t);
    }
}


/// A filtered subsequence of a duplicate-free sequence is duplicate-free.
proof fn lemma_filter_no_dup<T>(s: Seq<T>, p: spec_fn(T) -> bool)
    requires
        s.no_duplicates(),
    ensures
        s.filter(p).no_duplicates(),
    decreases s.len(),
{
    reveal(Seq::filter);
    if s.len() > 0 {
        let d = s.drop_last();
        assert(d.no_duplicates());
        lemma_filter_no_dup(d, p);
        if p(s.last()) {
            assert(s.filter(p) == d.filter(p).push(s.last()));
            if d.filter(p).contains(s.last()) {
                Seq::lemma_filter_contains_rev(d, p, s.last());
                let t = choose|t: int| 0 <= t < d.len() && d[t] == s.last();
                assert(s[t] == s[s.len() - 1]);
                assert(false);
            }
            assert forall|i: int, j: int|
                0 <= i < j < s.filter(p).len() implies s.filter(p)[i] != s.filter(p)[j] by {
                if j < s.filter(p).len() - 1 {
                    assert(s.filter(p)[i] == d.filter(p)[i]);
                    assert(s.filter(p)[j] == d.filter(p)[j]);
                } else {
                    assert(s.filter(p)[j] == s.last());
                    assert(s.filter(p)[i] == d.filter(p)[i]);
                    assert(d.filter(p).contains(d.filter(p)[i]));
                }
            }
        }
    }
}

/// With pairwise distinct keys in the manifest, the keys within the public
/// and the private bucket ascend strictly.
pub proof fn lemma_bucket_keys_strict(es: Seq<(Seq<char>, JsonV)>)
    requires
        unique_keys(es),
    ensures
        forall|i: int, j: int|
            0 <= i < j < pub_of(es).len() ==> chars_le(#[trigger] pub_of(es)[i].0, #[trigger] pub_of(
                es,
            )[j].0) && pub_of(es)[i].0 != pub_of(es)[j].0,
        forall|i: int, j: int|
            0 <= i < j < priv_of(es).len() ==> chars_le(
                #[trigger] priv_of(es)[i].0,
                #[trigger] priv_of(es)[j].0,
            ) && priv_of(es)[i].0 != priv_of(es)[j].0,
{
    assert(es.no_duplicates()) by {
        assert forall|i: int, j: int|
            0 <= i < s_len(es) && 0 <= j < s_len(es) && i != j implies es[i] != es[j] by {
            if i < j {
                assert(es[i].0 != es[j].0);
            } else {
                assert(es[j].0 != es[i].0);
            }
        }
    }
    lemma_bucket_strict_part(es, es.filter(p_pub()), pub_of(es));
    lemma_bucket_strict_part(es, es.filter(p_priv()), priv_of(es));
}

/// The length of a sequence of entries; a short name for the proofs above.
pub open spec fn s_len(es: Seq<(Seq<char>, JsonV)>) -> int {
    es.len() as int
}

/// Keys within one sorted bucket ascend strictly.
proof fn lemma_bucket_strict_part(
    es: Seq<(Seq<char>, JsonV)>,
    f: Seq<(Seq<char>, JsonV)>,
    b: Seq<(Seq<char>, JsonV)>,
)
    requires
        unique_keys(es),
        es.no_duplicates(),
        f == es.filter(p_pub()) || f == es.filter(p_priv()),
        b == sort_entries(f),
    ensures
        forall|i: int, j: int|
            0 <= i < j < b.len() ==> chars_le(#[trigger] b[i].0, #[trigger] b[j].0) && b[i].0
                != b[j].0,
{
    lemma_sort_entries_props(f);
    lemma_sort_entries_membership(f);
    if f == es.filter(p_pub()) {
        lemma_filter_no_dup(es, p_pub());
    } else {
        lemma_filter_no_dup(es, p_priv());
    }
    f.lemma_multiset_has_no_duplicates();
    b.lemma_multiset_has_no_duplicates_conv();
    assert forall|i: int, j: int| 0 <= i < j < b.len() implies chars_le(
        #[trigger] b[i].0,
        #[trigger] b[j].0,
    ) && b[i].0 != b[j].0 by {
        assert(entry_leq()(b[i], b[j]));
        assert(b[i] != b[j]);
        if b[i].0 == b[j].0 {
            let t1 = choose|t1: int| 0 <= t1 < f.len() && f[t1] == b[i];
            let t2 = choose|t2: int| 0 <= t2 < f.len() && f[t2] == b[j];
            Seq::lemma_filter_contains_rev(es, if f == es.filter(p_pub()) {
                p_pub()
            } else {
                p_priv()
            }, f[t1]);
            Seq::lemma_filter_contains_rev(es, if f == es.filter(p_pub()) {
                p_pub()
            } else {
                p_priv()
            }, f[t2]);
            let a = choose|a: int| 0 <= a < es.len() && es[a] == f[t1];
            let c = choose|c: int| 0 <= c < es.len() && es[c] == f[t2];
            assert(es[a] != es[c]);
            assert(a != c);
            if a < c {
                assert(es[a].0 != es[c].0);
            } else {
                assert(es[c].0 != es[a].0);
            }
            assert(false);
        }
    }
}

} // verus!
