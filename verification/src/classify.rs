//! The key classifier: partition an object's keys into known, public-unknown
//! and private-unknown, transform the known values, and emit the buckets in
//! canonical order.

use vstd::prelude::*;
use vstd::relations::{strongly_connected, transitive};
use crate::order::{sort_with, lemma_insert_sorted_at, insert_sorted};
use crate::value::{Json, JsonV, Entry, jview, jview_obj, eview, lemma_jview_obj,
    lemma_jview_obj_concat};
use crate::schema::{Tx, Schema, rank_of};
use crate::transform::{apply_tx, apply_tx_exec, sort_entries, sort_entries_vec,
    lemma_filter_take_push};

verus! {

/// A key of a private field: one that starts with an underscore.
pub open spec fn priv_key(k: Seq<char>) -> bool {
    k.len() > 0 && k[0] == '_'
}

/// A recognized field.
pub open spec fn p_known() -> spec_fn((Seq<char>, JsonV)) -> bool {
    |e: (Seq<char>, JsonV)| rank_of(e.0) is Some
}

/// An unknown, public field.
pub open spec fn p_pub() -> spec_fn((Seq<char>, JsonV)) -> bool {
    |e: (Seq<char>, JsonV)| rank_of(e.0) is None && !priv_key(e.0)
}

/// An unknown, private field.
pub open spec fn p_priv() -> spec_fn((Seq<char>, JsonV)) -> bool {
    |e: (Seq<char>, JsonV)| rank_of(e.0) is None && priv_key(e.0)
}

/// Order ranked entries by priority.
pub open spec fn rank_le() -> spec_fn((int, (Seq<char>, JsonV)), (int, (Seq<char>, JsonV))) -> bool {
    |a: (int, (Seq<char>, JsonV)), b: (int, (Seq<char>, JsonV))| a.0 <= b.0
}

/// Attach its priority to a recognized entry and transform its value.
pub open spec fn f_rank() -> spec_fn((Seq<char>, JsonV)) -> (int, (Seq<char>, JsonV)) {
    |e: (Seq<char>, JsonV)|
        ((rank_of(e.0)->0).0, (e.0, apply_tx((rank_of(e.0)->0).1, e.1)))
}

/// Drop the priority again.
pub open spec fn f_unrank() -> spec_fn((int, (Seq<char>, JsonV))) -> (Seq<char>, JsonV) {
    |x: (int, (Seq<char>, JsonV))| x.1
}

/// The known bucket: recognized fields, transformed, by ascending priority.
pub open spec fn known_of(es: Seq<(Seq<char>, JsonV)>) -> Seq<(Seq<char>, JsonV)> {
    sort_with(rank_le(), es.filter(p_known()).map_values(f_rank())).map_values(f_unrank())
}

/// The public bucket: unknown fields not starting with an underscore, by key.
pub open spec fn pub_of(es: Seq<(Seq<char>, JsonV)>) -> Seq<(Seq<char>, JsonV)> {
    sort_entries(es.filter(p_pub()))
}

/// The private bucket: unknown fields starting with an underscore, by key.
pub open spec fn priv_of(es: Seq<(Seq<char>, JsonV)>) -> Seq<(Seq<char>, JsonV)> {
    sort_entries(es.filter(p_priv()))
}

/// The canonical order of a manifest's entries: known fields by priority, then
/// public-unknown fields by key, then private fields by key.
pub open spec fn canon_obj(es: Seq<(Seq<char>, JsonV)>) -> Seq<(Seq<char>, JsonV)> {
    known_of(es) + pub_of(es) + priv_of(es)
}

/// Canonicalize a top-level value: objects are reordered, anything else is
/// untouched.
pub open spec fn canon_value(v: JsonV) -> JsonV {
    match v {
        JsonV::Obj(es) => JsonV::Obj(canon_obj(es)),
        _ => v,
    }
}

pub proof fn lemma_rank_le_props()
    ensures
        strongly_connected(rank_le()),
        transitive(rank_le()),
{
}

/// The abstraction of a ranked executable entry.
pub open spec fn kview(s: Seq<(usize, Entry)>) -> Seq<(int, (Seq<char>, JsonV))> {
    s.map_values(|p: (usize, Entry)| (p.0 as int, eview(p.1)))
}

/// Insert a ranked entry into a vector sorted by rank.
fn insert_ranked_sorted(x: (usize, Entry), v: Vec<(usize, Entry)>) -> (r: Vec<(usize, Entry)>)
    ensures
        kview(r@) == insert_sorted(rank_le(), (x.0 as int, eview(x.1)), kview(v@)),
{
    let ghost m = kview(v@);
    let n = v.len();
    let mut j: usize = 0;
    loop
        invariant
            0 <= j <= n,
            n == v@.len(),
            m == kview(v@),
            m.len() == n,
            forall|k: int| 0 <= k < j ==> !rank_le()((x.0 as int, eview(x.1)), #[trigger] m[k]),
        ensures
            0 <= j <= n,
            forall|k: int| 0 <= k < j ==> !rank_le()((x.0 as int, eview(x.1)), #[trigger] m[k]),
            j < n ==> rank_le()((x.0 as int, eview(x.1)), m[j as int]),
        decreases n - j,
    {
        if j == n {
            break ;
        }
        let le = x.0 <= v[j].0;
        proof {
            assert(kview(v@)[j as int] == (v@[j as int].0 as int, eview(v@[j as int].1)));
        }
        if le {
            break ;
        }
        j = j + 1;
    }
    let mut out = v;
    out.insert(j, x);
    proof {
        lemma_insert_sorted_at(rank_le(), (x.0 as int, eview(x.1)), m, j as int);
        assert(kview(out@) =~= m.subrange(0, j as int) + seq![(x.0 as int, eview(x.1))]
            + m.subrange(j as int, m.len() as int));
    }
    out
}

/// Sort ranked entries by rank.
fn sort_ranked_vec(xs: Vec<(usize, Entry)>) -> (r: Vec<(usize, Entry)>)
    ensures
        kview(r@) == sort_with(rank_le(), kview(xs@)),
{
    let ghost orig = kview(xs@);
    let mut rest = xs;
    let mut out: Vec<(usize, Entry)> = Vec::new();
    proof {
        assert(kview(out@) =~= Seq::empty());
        assert(orig.skip(orig.len() as int) =~= Seq::empty());
        assert(kview(rest@) =~= orig.subrange(0, rest@.len() as int));
    }
    while rest.len() > 0
        invariant
            rest@.len() <= orig.len(),
            kview(rest@) == orig.subrange(0, rest@.len() as int),
            kview(out@) == sort_with(rank_le(), orig.skip(rest@.len() as int)),
        decreases rest@.len(),
    {
        let ghost k = rest@.len() as int;
        let ghost rest0 = rest@;
        let x = rest.pop().unwrap();
        proof {
            assert((x.0 as int, eview(x.1)) == kview(rest0)[k - 1]);
            assert((x.0 as int, eview(x.1)) == orig[k - 1]);
            assert(kview(rest@) =~= orig.subrange(0, k - 1));
        }
        out = insert_ranked_sorted(x, out);
        proof {
            let s = orig.skip(k - 1);
            assert(s.len() > 0);
            assert(s[0] == orig[k - 1]);
            assert(s.drop_first() =~= orig.skip(k));
            assert(sort_with(rank_le(), s) == insert_sorted(
                rank_le(),
                orig[k - 1],
                sort_with(rank_le(), orig.skip(k)),
            ));
        }
    }
    proof {
        assert(orig.skip(0) =~= orig);
    }
    out
}

/// Reorder a manifest's entries into canonical order, transforming the values
/// of recognized fields.
pub fn sort_object_keys(obj: Vec<Entry>) -> (r: Vec<Entry>)
    ensures
        jview_obj(r@, 0) == canon_obj(jview_obj(obj@, 0)),
{
    let schema = Schema::new();
    let ghost es0 = obj@;
    let ghost ev = jview_obj(es0, 0);
    proof {
        lemma_jview_obj(es0, 0);
    }
    let mut rest = obj;
    let mut known: Vec<(usize, Entry)> = Vec::new();
    let mut pub_v: Vec<Entry> = Vec::new();
    let mut priv_v: Vec<Entry> = Vec::new();
    let n0 = rest.len();
    proof {
        assert(es0.len() == n0);
        assert(rest@ =~= es0.skip(0));
        reveal_with_fuel(Seq::filter, 1);
        assert(ev.take(0) =~= Seq::empty());
        assert(kview(known@) =~= ev.take(0).filter(p_known()).map_values(f_rank()));
        assert(jview_obj(pub_v@, 0) =~= ev.take(0).filter(p_pub()));
        assert(jview_obj(priv_v@, 0) =~= ev.take(0).filter(p_priv()));
    }
    let mut i: usize = 0;
    while rest.len() > 0
        invariant
            schema.inv(),
            i + rest@.len() == es0.len(),
            es0.len() <= usize::MAX,
            ev == jview_obj(es0, 0),
            ev.len() == es0.len(),
            forall|k: int| 0 <= k < es0.len() ==> #[trigger] ev[k] == eview(es0[k]),
            rest@ == es0.skip(i as int),
            kview(known@) == ev.take(i as int).filter(p_known()).map_values(f_rank()),
            jview_obj(pub_v@, 0) == ev.take(i as int).filter(p_pub()),
            jview_obj(priv_v@, 0) == ev.take(i as int).filter(p_priv()),
        decreases rest@.len(),
    {
        let ghost restpre = rest@;
        let ghost kn0 = kview(known@);
        let ghost pb0 = jview_obj(pub_v@, 0);
        let ghost pv0 = jview_obj(priv_v@, 0);
        proof {
            lemma_jview_obj(pub_v@, 0);
            lemma_jview_obj(priv_v@, 0);
        }
        let e = rest.remove(0);
        proof {
            assert(rest@ =~= restpre.drop_first());
            assert(e == es0.skip(i as int)[0]);
            assert(e == es0[i as int]);
            assert(rest@ =~= es0.skip(i + 1));
            assert(ev[i as int] == eview(es0[i as int]));
            assert(ev.take(i + 1) =~= ev.take(i as int).push(ev[i as int]));
            lemma_filter_take_push(ev, p_known(), i as int);
            lemma_filter_take_push(ev, p_pub(), i as int);
            lemma_filter_take_push(ev, p_priv(), i as int);
        }
        let Entry { key, value } = e;
        match schema.lookup(&key) {
            Option::Some((p, t)) => {
                proof {
                    assert(rank_of(key@) == Option::Some((p as int, t)));
                    assert(p_known()(ev[i as int]));
                    assert(!p_pub()(ev[i as int]) && !p_priv()(ev[i as int]));
                }
                let tv = apply_tx_exec(t, value);
                known.push((p, Entry { key, value: tv }));
                proof {
                    assert(kview(known@) =~= kn0.push(f_rank()(ev[i as int])));
                    assert(kview(known@) =~= ev.take(i + 1).filter(p_known()).map_values(
                        f_rank(),
                    ));
                    assert(jview_obj(pub_v@, 0) =~= ev.take(i + 1).filter(p_pub()));
                    assert(jview_obj(priv_v@, 0) =~= ev.take(i + 1).filter(p_priv()));
                }
            },
            Option::None => {
                proof {
                    assert(rank_of(key@) is None);
                    assert(!p_known()(ev[i as int]));
                }
                let is_priv = key.len() > 0 && key[0] == '_';
                proof {
                    assert(is_priv == priv_key(key@));
                }
                if is_priv {
                    priv_v.push(Entry { key, value });
                    proof {
                        lemma_jview_obj(priv_v@, 0);
                        assert(jview_obj(priv_v@, 0) =~= pv0.push(ev[i as int]));
                        assert(jview_obj(priv_v@, 0) =~= ev.take(i + 1).filter(p_priv()));
                        assert(jview_obj(pub_v@, 0) =~= ev.take(i + 1).filter(p_pub()));
                        assert(kview(known@) =~= ev.take(i + 1).filter(p_known()).map_values(
                            f_rank(),
                        ));
                    }
                } else {
                    pub_v.push(Entry { key, value });
                    proof {
                        lemma_jview_obj(pub_v@, 0);
                        assert(jview_obj(pub_v@, 0) =~= pb0.push(ev[i as int]));
                        assert(jview_obj(pub_v@, 0) =~= ev.take(i + 1).filter(p_pub()));
                        assert(jview_obj(priv_v@, 0) =~= ev.take(i + 1).filter(p_priv()));
                        assert(kview(known@) =~= ev.take(i + 1).filter(p_known()).map_values(
                            f_rank(),
                        ));
                    }
                }
            },
        }
        i = i + 1;
    }
    proof {
        assert(ev.take(es0.len() as int) =~= ev);
    }
    // sort the known bucket by priority and drop the priorities
    let known_sorted = sort_ranked_vec(known);
    let ghost ks = sort_with(rank_le(), ev.filter(p_known()).map_values(f_rank()));
    let mut out: Vec<Entry> = Vec::new();
    let mut rest_k = known_sorted;
    let ghost kf = rest_k@;
    let nk = rest_k.len();
    proof {
        assert(kview(kf).len() == nk);
        assert(kview(kf) == ks);
        assert(rest_k@ =~= kf.skip(0));
        assert(ks.take(0) =~= Seq::empty());
        assert(jview_obj(out@, 0) =~= ks.take(0).map_values(f_unrank()));
    }
    let mut j: usize = 0;
    while rest_k.len() > 0
        invariant
            j + rest_k@.len() == kf.len(),
            kf.len() <= usize::MAX,
            kview(kf) == ks,
            ks.len() == kf.len(),
            rest_k@ == kf.skip(j as int),
            jview_obj(out@, 0) == ks.take(j as int).map_values(f_unrank()),
        decreases rest_k@.len(),
    {
        let ghost restpre = rest_k@;
        let ghost out0 = jview_obj(out@, 0);
        proof {
            lemma_jview_obj(out@, 0);
        }
        let x = rest_k.remove(0);
        proof {
            assert(rest_k@ =~= restpre.drop_first());
            assert(x == kf.skip(j as int)[0]);
            assert(x == kf[j as int]);
            assert(rest_k@ =~= kf.skip(j + 1));
            assert(kview(kf)[j as int] == (kf[j as int].0 as int, eview(kf[j as int].1)));
            assert(ks[j as int].1 == eview(x.1));
        }
        let (_p, e) = x;
        out.push(e);
        proof {
            lemma_jview_obj(out@, 0);
            assert(jview_obj(out@, 0) =~= out0.push(eview(x.1)));
            assert(ks.take(j + 1) =~= ks.take(j as int).push(ks[j as int]));
            assert(jview_obj(out@, 0) =~= ks.take(j + 1).map_values(f_unrank()));
        }
        j = j + 1;
    }
    proof {
        assert(ks.take(ks.len() as int) =~= ks);
        assert(jview_obj(out@, 0) == known_of(ev));
    }
    let mut pub_sorted = sort_entries_vec(pub_v);
    let mut priv_sorted = sort_entries_vec(priv_v);
    let ghost w0 = out@;
    let ghost w1 = pub_sorted@;
    let ghost w2 = priv_sorted@;
    out.append(&mut pub_sorted);
    out.append(&mut priv_sorted);
    proof {
        assert(out@ == w0 + w1 + w2);
        lemma_jview_obj_concat(w0, w1);
        lemma_jview_obj_concat(w0 + w1, w2);
        assert(jview_obj(out@, 0) == canon_obj(ev));
    }
    out
}

/// Canonicalize a parsed value: reorder a top-level object, pass anything
/// else through.
pub fn canon_value_exec(v: Json) -> (r: Json)
    ensures
        jview(r) == canon_value(jview(v)),
{
    match v {
        Json::Obj(es) => Json::Obj(sort_object_keys(es)),
        other => other,
    }
}

} // verus!
