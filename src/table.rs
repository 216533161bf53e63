//! The keyed lists that hold string tables, their entries and translation
//! arrays: each key stands at most once, and the order of insertion is kept.

use vstd::prelude::*;

verus! {

/// Whether some pair of `s` has key `k`.
pub open spec fn has_key<V>(s: Seq<(Seq<char>, V)>, k: Seq<char>) -> bool {
    exists|i: int| 0 <= i < s.len() && #[trigger] s[i].0 == k
}

/// Whether no key stands twice in `s`.
pub open spec fn keys_unique<V>(s: Seq<(Seq<char>, V)>) -> bool {
    forall|i: int, j: int| 0 <= i < s.len() && 0 <= j < s.len() && i != j ==> #[trigger] s[i].0 != #[trigger] s[j].0
}

/// The index of the first pair with key `k`, where there is one.
pub open spec fn key_index<V>(s: Seq<(Seq<char>, V)>, k: Seq<char>) -> int {
    choose|i: int| 0 <= i < s.len() && s[i].0 == k && forall|j: int| 0 <= j < i ==> #[trigger] s[j].0 != k
}

/// The value under `k`, if any.
pub open spec fn lookup<V>(s: Seq<(Seq<char>, V)>, k: Seq<char>) -> Option<V> {
    if has_key(s, k) {
        Some(s[key_index(s, k)].1)
    } else {
        None
    }
}

/// `s` with `k` set to `v`: in place where `k` is present, else at the end.
pub open spec fn upsert<V>(s: Seq<(Seq<char>, V)>, k: Seq<char>, v: V) -> Seq<(Seq<char>, V)> {
    if has_key(s, k) {
        s.update(key_index(s, k), (k, v))
    } else {
        s.push((k, v))
    }
}

/// Whether a pair has a key other than `k`.
pub open spec fn key_differs<V>(k: Seq<char>) -> spec_fn((Seq<char>, V)) -> bool {
    |p: (Seq<char>, V)| p.0 != k
}

/// `s` without the pairs with key `k`.
pub open spec fn without<V>(s: Seq<(Seq<char>, V)>, k: Seq<char>) -> Seq<(Seq<char>, V)> {
    s.filter(key_differs(k))
}

/// Where `k` is present, `key_index` names the first pair with that key.
pub proof fn lemma_key_index<V>(s: Seq<(Seq<char>, V)>, k: Seq<char>, i: int)
    requires
        0 <= i < s.len(),
        s[i].0 == k,
        forall|j: int| 0 <= j < i ==> #[trigger] s[j].0 != k,
    ensures
        has_key(s, k),
        key_index(s, k) == i,
{
    let w = key_index(s, k);
    assert(0 <= w < s.len() && s[w].0 == k && forall|j: int| 0 <= j < w ==> #[trigger] s[j].0 != k);
    if w < i {
        assert(s[w].0 != k);
    }
    if w > i {
        assert(s[i].0 != k);
    }
}

/// Where some pair has key `k` at index `i` or before, a first such pair exists.
proof fn lemma_first_from<V>(s: Seq<(Seq<char>, V)>, k: Seq<char>, i: int)
    requires
        0 <= i < s.len(),
        s[i].0 == k,
    ensures
        exists|f: int| 0 <= f < s.len() && s[f].0 == k && forall|j: int| 0 <= j < f ==> #[trigger] s[j].0 != k,
    decreases i,
{
    if exists|j: int| 0 <= j < i && #[trigger] s[j].0 == k {
        let j = choose|j: int| 0 <= j < i && #[trigger] s[j].0 == k;
        lemma_first_from(s, k, j);
    } else {
        assert(forall|j: int| 0 <= j < i ==> #[trigger] s[j].0 != k);
    }
}

/// Where `k` is present, `key_index` is the index of its first pair.
pub proof fn lemma_key_index_first<V>(s: Seq<(Seq<char>, V)>, k: Seq<char>)
    requires
        has_key(s, k),
    ensures
        0 <= key_index(s, k) < s.len(),
        s[key_index(s, k)].0 == k,
        forall|j: int| 0 <= j < key_index(s, k) ==> #[trigger] s[j].0 != k,
{
    let i = choose|i: int| 0 <= i < s.len() && #[trigger] s[i].0 == k;
    lemma_first_from(s, k, i);
}

/// After setting a key, the key holds the value.
pub proof fn lemma_upsert_lookup<V>(s: Seq<(Seq<char>, V)>, k: Seq<char>, v: V)
    ensures
        has_key(upsert(s, k, v), k),
        lookup(upsert(s, k, v), k) == Some(v),
{
    let r = upsert(s, k, v);
    if has_key(s, k) {
        lemma_key_index_first(s, k);
        let i = key_index(s, k);
        assert(r[i].0 == k);
        lemma_key_index(r, k, i);
    } else {
        let i = s.len() as int;
        assert forall|j: int| 0 <= j < i implies #[trigger] r[j].0 != k by {
            assert(r[j] == s[j]);
        }
        lemma_key_index(r, k, i);
    }
}

/// After removing a key, no pair has it.
pub proof fn lemma_without_absent<V>(s: Seq<(Seq<char>, V)>, k: Seq<char>)
    ensures
        !has_key(without(s, k), k),
{
    let pred = key_differs::<V>(k);
    let w = without(s, k);
    if has_key(w, k) {
        let i = choose|i: int| 0 <= i < w.len() && #[trigger] w[i].0 == k;
        s.lemma_filter_pred(pred, i);
    }
}

/// Setting a key keeps keys distinct.
pub proof fn lemma_upsert_unique<V>(s: Seq<(Seq<char>, V)>, k: Seq<char>, v: V)
    requires
        keys_unique(s),
    ensures
        keys_unique(upsert(s, k, v)),
{
    let r = upsert(s, k, v);
    if has_key(s, k) {
        lemma_key_index_first(s, k);
        let i = key_index(s, k);
        assert forall|a: int, b: int| 0 <= a < r.len() && 0 <= b < r.len() && a != b implies #[trigger] r[a].0 != #[trigger] r[b].0 by {
            if a == i {
                assert(s[b].0 != s[i].0);
            } else if b == i {
                assert(s[a].0 != s[i].0);
            } else {
                assert(s[a].0 != s[b].0);
            }
        }
    } else {
        assert forall|a: int, b: int| 0 <= a < r.len() && 0 <= b < r.len() && a != b implies #[trigger] r[a].0 != #[trigger] r[b].0 by {
            if a == s.len() {
                assert(r[b] == s[b]);
            } else if b == s.len() {
                assert(r[a] == s[a]);
            } else {
                assert(s[a].0 != s[b].0);
            }
        }
    }
}

/// Removing a key keeps keys distinct.
pub proof fn lemma_without_unique<V>(s: Seq<(Seq<char>, V)>, k: Seq<char>)
    requires
        keys_unique(s),
    ensures
        keys_unique(without(s, k)),
    decreases s.len(),
{
    reveal(Seq::filter);
    if s.len() > 0 {
        let init = s.drop_last();
        assert(keys_unique(init)) by {
            assert forall|a: int, b: int| 0 <= a < init.len() && 0 <= b < init.len() && a != b implies #[trigger] init[a].0 != #[trigger] init[b].0 by {
                assert(s[a].0 != s[b].0);
            }
        }
        lemma_without_unique(init, k);
        let w = without(init, k);
        let x = s.last();
        if x.0 != k {
            assert(without(s, k) == w.push(x));
            assert(!has_key(w, x.0)) by {
                if has_key(w, x.0) {
                    let j = choose|j: int| 0 <= j < w.len() && #[trigger] w[j].0 == x.0;
                    init.lemma_filter_contains_rev(key_differs(k), w[j]);
                    let m = choose|m: int| 0 <= m < init.len() && init[m] == w[j];
                    assert(s[m].0 != s[s.len() - 1].0);
                }
            }
            let r = w.push(x);
            assert forall|a: int, b: int| 0 <= a < r.len() && 0 <= b < r.len() && a != b implies #[trigger] r[a].0 != #[trigger] r[b].0 by {
                if a == w.len() {
                    assert(r[b] == w[b]);
                } else if b == w.len() {
                    assert(r[a] == w[a]);
                } else {
                    assert(w[a].0 != w[b].0);
                }
            }
        }
    }
}

/// Where keys are distinct, the value under a key is that of the one pair
/// with that key.
pub proof fn lemma_lookup_unique<V>(s: Seq<(Seq<char>, V)>, q: Seq<char>, i: int)
    requires
        keys_unique(s),
        0 <= i < s.len(),
        s[i].0 == q,
    ensures
        lookup(s, q) == Some(s[i].1),
{
    assert forall|j: int| 0 <= j < i implies #[trigger] s[j].0 != q by {
        assert(s[j].0 != s[i].0);
    }
    lemma_key_index(s, q, i);
}

/// Where keys are distinct, removing one key leaves the others' values.
pub proof fn lemma_lookup_without<V>(s: Seq<(Seq<char>, V)>, k: Seq<char>, q: Seq<char>)
    requires
        keys_unique(s),
        q != k,
    ensures
        lookup(without(s, k), q) == lookup(s, q),
{
    let w = without(s, k);
    let pred = key_differs::<V>(k);
    lemma_without_unique(s, k);
    if has_key(s, q) {
        let i = choose|i: int| 0 <= i < s.len() && #[trigger] s[i].0 == q;
        lemma_lookup_unique(s, q, i);
        s.lemma_filter_contains(pred, i);
        let j = choose|j: int| 0 <= j < w.len() && w[j] == s[i];
        lemma_lookup_unique(w, q, j);
    } else {
        if has_key(w, q) {
            let j = choose|j: int| 0 <= j < w.len() && #[trigger] w[j].0 == q;
            s.lemma_filter_contains_rev(pred, w[j]);
            let m = choose|m: int| 0 <= m < s.len() && s[m] == w[j];
            assert(s[m].0 == q);
        }
    }
}

/// Setting one key leaves the others' values.
pub proof fn lemma_lookup_upsert_other<V>(s: Seq<(Seq<char>, V)>, k: Seq<char>, v: V, q: Seq<char>)
    requires
        keys_unique(s),
        q != k,
    ensures
        lookup(upsert(s, k, v), q) == lookup(s, q),
{
    let r = upsert(s, k, v);
    lemma_upsert_unique(s, k, v);
    if has_key(s, q) {
        let i = choose|i: int| 0 <= i < s.len() && #[trigger] s[i].0 == q;
        lemma_lookup_unique(s, q, i);
        if has_key(s, k) {
            lemma_key_index_first(s, k);
        }
        assert(r[i] == s[i]);
        lemma_lookup_unique(r, q, i);
    } else {
        if has_key(r, q) {
            let j = choose|j: int| 0 <= j < r.len() && #[trigger] r[j].0 == q;
            if has_key(s, k) {
                lemma_key_index_first(s, k);
                if j != key_index(s, k) {
                    assert(s[j].0 == q);
                }
            } else if j < s.len() {
                assert(s[j].0 == q);
            }
        }
    }
}

} // verus!
