//! Lexicographic order on character sequences and a sorting theory used by
//! every transform: a deterministic insertion sort defined as a spec function,
//! with the lemmas the proofs need.

use vstd::prelude::*;
use vstd::relations::{sorted_by, strongly_connected, transitive};

verus! {

broadcast use vstd::seq_lib::group_to_multiset_ensures;

/// Distinct characters have distinct scalar values.
pub proof fn lemma_char_cast_inj(a: char, b: char)
    requires
        a as u32 == b as u32,
    ensures
        a == b,
{
    vstd::utf8::char_u32_cast(a, a as u32);
    vstd::utf8::char_u32_cast(b, b as u32);
}

/// Lexicographic "less or equal" by Unicode scalar value.
pub open spec fn chars_le(a: Seq<char>, b: Seq<char>) -> bool
    decreases a.len(),
{
    if a.len() == 0 {
        true
    } else if b.len() == 0 {
        false
    } else if (a[0] as u32) < (b[0] as u32) {
        true
    } else if (a[0] as u32) > (b[0] as u32) {
        false
    } else {
        chars_le(a.drop_first(), b.drop_first())
    }
}

/// Any two character sequences are comparable.
pub proof fn lemma_chars_le_total(a: Seq<char>, b: Seq<char>)
    ensures
        chars_le(a, b) || chars_le(b, a),
    decreases a.len(),
{
    if a.len() > 0 && b.len() > 0 && (a[0] as u32) == (b[0] as u32) {
        lemma_chars_le_total(a.drop_first(), b.drop_first());
    }
}

/// Mutually ordered character sequences are equal.
pub proof fn lemma_chars_le_antisym(a: Seq<char>, b: Seq<char>)
    requires
        chars_le(a, b),
        chars_le(b, a),
    ensures
        a == b,
    decreases a.len(),
{
    if a.len() > 0 && b.len() > 0 && (a[0] as u32) == (b[0] as u32) {
        lemma_chars_le_antisym(a.drop_first(), b.drop_first());
        lemma_char_cast_inj(a[0], b[0]);
        assert(a =~= seq![a[0]] + a.drop_first());
        assert(b =~= seq![b[0]] + b.drop_first());
    } else {
        if a.len() == 0 {
            assert(b.len() == 0);
        }
        assert(a =~= b);
    }
}

/// The order is transitive.
pub proof fn lemma_chars_le_trans(a: Seq<char>, b: Seq<char>, c: Seq<char>)
    requires
        chars_le(a, b),
        chars_le(b, c),
    ensures
        chars_le(a, c),
    decreases a.len(),
{
    if a.len() > 0 && b.len() > 0 && c.len() > 0 && (a[0] as u32) == (b[0] as u32) && (b[0] as u32)
        == (c[0] as u32) {
        lemma_chars_le_trans(a.drop_first(), b.drop_first(), c.drop_first());
    }
}

/// Executable comparison, equal to `chars_le` on the views.
pub fn chars_le_exec(a: &Vec<char>, b: &Vec<char>) -> (r: bool)
    ensures
        r == chars_le(a@, b@),
{
    let mut i: usize = 0;
    proof {
        assert(a@.skip(0) =~= a@);
        assert(b@.skip(0) =~= b@);
    }
    loop
        invariant
            i <= a@.len(),
            i <= b@.len(),
            chars_le(a@, b@) == chars_le(a@.skip(i as int), b@.skip(i as int)),
        decreases a@.len() - i,
    {
        if i == a.len() {
            return true;
        }
        if i == b.len() {
            return false;
        }
        let ca = a[i];
        let cb = b[i];
        if ca as u32 != cb as u32 {
            return (ca as u32) < (cb as u32);
        }
        proof {
            assert(a@.skip(i as int).drop_first() =~= a@.skip(i + 1));
            assert(b@.skip(i as int).drop_first() =~= b@.skip(i + 1));
            assert(a@.skip(i as int)[0] == a@[i as int]);
            assert(b@.skip(i as int)[0] == b@[i as int]);
        }
        i = i + 1;
    }
}

/// Executable equality of character sequences.
pub fn chars_eq_exec(a: &Vec<char>, b: &Vec<char>) -> (r: bool)
    ensures
        r == (a@ == b@),
{
    if a.len() != b.len() {
        assert(a@.len() != b@.len());
        return false;
    }
    let n = a.len();
    let mut i: usize = 0;
    while i < n
        invariant
            n == a@.len() == b@.len(),
            0 <= i <= n,
            forall|k: int| 0 <= k < i ==> a@[k] == b@[k],
        decreases n - i,
    {
        if a[i] as u32 != b[i] as u32 {
            proof {
                if a@[i as int] == b@[i as int] {
                    assert(false);
                }
            }
            return false;
        }
        proof {
            lemma_char_cast_inj(a@[i as int], b@[i as int]);
        }
        i = i + 1;
    }
    proof {
        assert(a@ =~= b@);
    }
    true
}

/// Insert `x` into `s`, in front of the first element it is ordered at or
/// before.
pub open spec fn insert_sorted<T>(leq: spec_fn(T, T) -> bool, x: T, s: Seq<T>) -> Seq<T>
    decreases s.len(),
{
    if s.len() == 0 {
        seq![x]
    } else if leq(x, s[0]) {
        seq![x] + s
    } else {
        seq![s[0]] + insert_sorted(leq, x, s.drop_first())
    }
}

/// Sort by repeated insertion; the canonical ordering every transform uses.
pub open spec fn sort_with<T>(leq: spec_fn(T, T) -> bool, s: Seq<T>) -> Seq<T>
    decreases s.len(),
{
    if s.len() == 0 {
        s
    } else {
        insert_sorted(leq, s[0], sort_with(leq, s.drop_first()))
    }
}

pub proof fn lemma_insert_sorted_basic<T>(leq: spec_fn(T, T) -> bool, x: T, s: Seq<T>)
    ensures
        insert_sorted(leq, x, s).len() == s.len() + 1,
        insert_sorted(leq, x, s).to_multiset() == s.to_multiset().insert(x),
    decreases s.len(),
{
    let out = insert_sorted(leq, x, s);
    if s.len() == 0 {
        assert(out =~= Seq::empty().push(x));
        assert(out.to_multiset() =~= s.to_multiset().insert(x));
    } else if leq(x, s[0]) {
        assert(out =~= (seq![x] + s));
        assert(seq![x] + s =~= Seq::empty().push(x) + s);
        vstd::seq_lib::lemma_multiset_commutative(Seq::empty().push(x), s);
        assert(out.to_multiset() =~= s.to_multiset().insert(x));
    } else {
        lemma_insert_sorted_basic(leq, x, s.drop_first());
        let rec = insert_sorted(leq, x, s.drop_first());
        assert(out =~= Seq::empty().push(s[0]) + rec);
        vstd::seq_lib::lemma_multiset_commutative(Seq::empty().push(s[0]), rec);
        assert(s =~= Seq::empty().push(s[0]) + s.drop_first());
        vstd::seq_lib::lemma_multiset_commutative(Seq::empty().push(s[0]), s.drop_first());
        assert(out.to_multiset() =~= s.to_multiset().insert(x));
    }
}

pub proof fn lemma_insert_sorted_sorted<T>(leq: spec_fn(T, T) -> bool, x: T, s: Seq<T>)
    requires
        strongly_connected(leq),
        transitive(leq),
        sorted_by(s, leq),
    ensures
        sorted_by(insert_sorted(leq, x, s), leq),
    decreases s.len(),
{
    let out = insert_sorted(leq, x, s);
    if s.len() == 0 {
    } else if leq(x, s[0]) {
        assert forall|i: int, j: int| 0 <= i < j < out.len() implies leq(out[i], out[j]) by {
            if i == 0 {
                if j == 1 {
                    assert(out[j] == s[0]);
                } else {
                    assert(leq(s[0], s[j - 1]));
                    assert(leq(x, s[0]));
                }
            } else {
                assert(out[i] == s[i - 1] && out[j] == s[j - 1]);
            }
        }
    } else {
        assert(sorted_by(s.drop_first(), leq)) by {
            assert(forall|i: int, j: int|
                0 <= i < j < s.drop_first().len() ==> leq(
                    #[trigger] s.drop_first()[i],
                    #[trigger] s.drop_first()[j],
                ));
        }
        lemma_insert_sorted_sorted(leq, x, s.drop_first());
        lemma_insert_sorted_basic(leq, x, s.drop_first());
        let rec = insert_sorted(leq, x, s.drop_first());
        assert(leq(s[0], x));
        assert forall|i: int, j: int| 0 <= i < j < out.len() implies leq(out[i], out[j]) by {
            if i == 0 {
                let e = out[j];
                assert(e == rec[j - 1]);
                assert(rec.to_multiset().contains(e));
                assert(s.drop_first().to_multiset().insert(x).contains(e));
                if e == x {
                    assert(leq(s[0], x));
                } else {
                    assert(s.drop_first().to_multiset().contains(e));
                    assert(s.drop_first().contains(e));
                    let k = choose|k: int|
                        0 <= k < s.drop_first().len() && s.drop_first()[k] == e;
                    assert(s[k + 1] == e);
                    assert(leq(s[0], s[k + 1]));
                }
            } else {
                assert(out[i] == rec[i - 1] && out[j] == rec[j - 1]);
            }
        }
    }
}

pub proof fn lemma_sort_with_basic<T>(leq: spec_fn(T, T) -> bool, s: Seq<T>)
    ensures
        sort_with(leq, s).len() == s.len(),
        sort_with(leq, s).to_multiset() == s.to_multiset(),
    decreases s.len(),
{
    if s.len() > 0 {
        lemma_sort_with_basic(leq, s.drop_first());
        lemma_insert_sorted_basic(leq, s[0], sort_with(leq, s.drop_first()));
        assert(s =~= Seq::empty().push(s[0]) + s.drop_first());
        vstd::seq_lib::lemma_multiset_commutative(Seq::empty().push(s[0]), s.drop_first());
        assert(sort_with(leq, s).to_multiset() =~= s.to_multiset());
    }
}

pub proof fn lemma_sort_with_sorted<T>(leq: spec_fn(T, T) -> bool, s: Seq<T>)
    requires
        strongly_connected(leq),
        transitive(leq),
    ensures
        sorted_by(sort_with(leq, s), leq),
    decreases s.len(),
{
    if s.len() > 0 {
        lemma_sort_with_sorted(leq, s.drop_first());
        lemma_insert_sorted_sorted(leq, s[0], sort_with(leq, s.drop_first()));
    }
}

/// Sorting an already sorted sequence changes nothing.
pub proof fn lemma_sort_with_id<T>(leq: spec_fn(T, T) -> bool, s: Seq<T>)
    requires
        sorted_by(s, leq),
    ensures
        sort_with(leq, s) == s,
    decreases s.len(),
{
    if s.len() > 0 {
        assert(sorted_by(s.drop_first(), leq)) by {
            assert(forall|i: int, j: int|
                0 <= i < j < s.drop_first().len() ==> leq(
                    #[trigger] s.drop_first()[i],
                    #[trigger] s.drop_first()[j],
                ));
        }
        lemma_sort_with_id(leq, s.drop_first());
        if s.len() == 1 {
            assert(sort_with(leq, s) =~= s);
        } else {
            assert(leq(s[0], s.drop_first()[0]));
            assert(sort_with(leq, s) =~= seq![s[0]] + s.drop_first());
            assert(seq![s[0]] + s.drop_first() =~= s);
        }
    }
}

/// Inserting at the first position whose element is not below `x` is what
/// `insert_sorted` does.
pub proof fn lemma_insert_sorted_at<T>(leq: spec_fn(T, T) -> bool, x: T, s: Seq<T>, j: int)
    requires
        0 <= j <= s.len(),
        forall|k: int| 0 <= k < j ==> !leq(x, #[trigger] s[k]),
        j < s.len() ==> leq(x, s[j]),
    ensures
        insert_sorted(leq, x, s) == s.subrange(0, j) + seq![x] + s.subrange(j, s.len() as int),
    decreases j,
{
    let out = insert_sorted(leq, x, s);
    if j == 0 {
        if s.len() == 0 {
            assert(out =~= s.subrange(0, 0) + seq![x] + s.subrange(0, 0));
        } else {
            assert(out =~= s.subrange(0, 0) + seq![x] + s.subrange(0, s.len() as int));
        }
    } else {
        assert(!leq(x, s[0]));
        let d = s.drop_first();
        assert(forall|k: int| 0 <= k < j - 1 ==> !leq(x, #[trigger] d[k]));
        lemma_insert_sorted_at(leq, x, d, j - 1);
        assert(out =~= seq![s[0]] + insert_sorted(leq, x, d));
        assert(out =~= s.subrange(0, j) + seq![x] + s.subrange(j, s.len() as int));
    }
}

/// Every element of the sorted sequence is an element of the original, and
/// conversely.
pub proof fn lemma_sort_with_membership<T>(leq: spec_fn(T, T) -> bool, s: Seq<T>)
    ensures
        forall|i: int| #![trigger sort_with(leq, s)[i]]
            0 <= i < sort_with(leq, s).len() ==> exists|j: int|
                0 <= j < s.len() && s[j] == sort_with(leq, s)[i],
        forall|j: int| #![trigger s[j]]
            0 <= j < s.len() ==> exists|i: int|
                0 <= i < sort_with(leq, s).len() && sort_with(leq, s)[i] == s[j],
{
    lemma_sort_with_basic(leq, s);
    let out = sort_with(leq, s);
    assert forall|i: int| #![trigger out[i]] 0 <= i < out.len() implies exists|j: int|
        0 <= j < s.len() && s[j] == out[i] by {
        assert(out.to_multiset().contains(out[i]));
        assert(s.to_multiset().contains(out[i]));
        assert(s.contains(out[i]));
    }
    assert forall|j: int| #![trigger s[j]] 0 <= j < s.len() implies exists|i: int|
        0 <= i < out.len() && out[i] == s[j] by {
        assert(s.to_multiset().contains(s[j]));
        assert(out.to_multiset().contains(s[j]));
        assert(out.contains(s[j]));
    }
}

} // verus!
