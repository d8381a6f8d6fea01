//! Bounded least-recently-used stores, backed by the `lru` crate.
//!
//! The library keeps two bounded maps with LRU eviction: the known-blobs
//! cache and the retry ledger. Both hold string keys and `i64` values, so a
//! single trusted view serves them. A cache is modelled as a sequence of
//! `(key, value)` pairs ordered from most to least recently used; every
//! wrapper states over that sequence exactly what the crate's documented
//! behaviour is: `put` inserts or updates at the front and evicts the last
//! entry at capacity, `get` promotes, `pop` removes, `iter` walks the
//! sequence front to back.

use vstd::prelude::*;

verus! {

pub type Entries = Seq<(Seq<char>, i64)>;

/// Declares `lru::LruCache` so its values can sit in fields and
/// signatures; the type stays opaque and is reached only through the
/// wrappers below.
#[verifier::external_type_specification]
#[verifier::external_body]
#[verifier::reject_recursive_types(K)]
#[verifier::reject_recursive_types(V)]
#[verifier::reject_recursive_types(S)]
pub struct ExLruCache<K, V, S>(lru::LruCache<K, V, S>);

/// The entries a cache holds, most recently used first.
pub uninterp spec fn lru_entries(c: lru::LruCache<String, i64>) -> Entries;

/// The bound the cache was created with.
pub uninterp spec fn lru_capacity(c: lru::LruCache<String, i64>) -> nat;

// ---------------------------------------------------------------------------
// the model's vocabulary
// ---------------------------------------------------------------------------

pub open spec fn has_key(es: Entries, k: Seq<char>) -> bool {
    exists|i: int| 0 <= i < es.len() && (#[trigger] es[i]).0 == k
}

pub open spec fn key_idx(es: Entries, k: Seq<char>) -> int {
    choose|i: int| 0 <= i < es.len() && (#[trigger] es[i]).0 == k
}

pub open spec fn value_of(es: Entries, k: Seq<char>) -> i64 {
    es[key_idx(es, k)].1
}

/// Holds of the entries another key than `k` owns.
pub open spec fn other_key(k: Seq<char>) -> spec_fn((Seq<char>, i64)) -> bool {
    |e: (Seq<char>, i64)| e.0 != k
}

/// `es` without the entry keyed `k`, other entries kept in order.
pub open spec fn remove_key(es: Entries, k: Seq<char>) -> Entries {
    es.filter(other_key(k))
}

/// No two entries share a key.
pub open spec fn uniq_keys(es: Entries) -> bool {
    forall|i: int, j: int| 0 <= i < j < es.len() ==> (#[trigger] es[i]).0 != (#[trigger] es[j]).0
}

/// What `put` leaves in a cache of capacity `cap`.
pub open spec fn put_model(es: Entries, cap: nat, k: Seq<char>, v: i64) -> Entries {
    if has_key(es, k) {
        seq![(k, v)] + remove_key(es, k)
    } else if es.len() < cap {
        seq![(k, v)] + es
    } else {
        seq![(k, v)] + es.drop_last()
    }
}

// ---------------------------------------------------------------------------
// trusted wrappers over the lru crate
// ---------------------------------------------------------------------------

/// Relies on `lru::LruCache::new`: a fresh cache is empty and holds at most
/// `cap` entries.
#[verifier::external_body]
pub fn lru_new(cap: usize) -> (c: lru::LruCache<String, i64>)
    requires
        cap >= 1,
    ensures
        lru_entries(c) == Seq::<(Seq<char>, i64)>::empty(),
        lru_capacity(c) == cap,
{
    lru::LruCache::new(std::num::NonZeroUsize::new(cap).unwrap())
}

/// Relies on `lru::LruCache::put`: an existing key is updated and moved to
/// the front, returning the old value; a new key is inserted at the front,
/// evicting the least recently used entry when the cache is full.
#[verifier::external_body]
pub fn lru_put(c: &mut lru::LruCache<String, i64>, k: String, v: i64) -> (prev: Option<i64>)
    ensures
        lru_capacity(*final(c)) == lru_capacity(*old(c)),
        lru_entries(*final(c)) == put_model(
            lru_entries(*old(c)),
            lru_capacity(*old(c)),
            k@,
            v,
        ),
        prev == if has_key(lru_entries(*old(c)), k@) {
            Some(value_of(lru_entries(*old(c)), k@))
        } else {
            Option::<i64>::None
        },
{
    c.put(k, v)
}

/// Relies on `lru::LruCache::get`: returns the key's value and moves the
/// entry to the front; a miss changes nothing.
#[verifier::external_body]
pub fn lru_get(c: &mut lru::LruCache<String, i64>, k: &str) -> (r: Option<i64>)
    ensures
        lru_capacity(*final(c)) == lru_capacity(*old(c)),
        ({
            let es = lru_entries(*old(c));
            if has_key(es, k@) {
                r == Some(value_of(es, k@)) && lru_entries(*final(c)) == seq![
                    (k@, value_of(es, k@)),
                ] + remove_key(es, k@)
            } else {
                r is None && lru_entries(*final(c)) == es
            }
        }),
{
    c.get(k).copied()
}

/// Relies on `lru::LruCache::pop`: removes the key's entry and returns its
/// value; the other entries keep their order.
#[verifier::external_body]
pub fn lru_pop(c: &mut lru::LruCache<String, i64>, k: &str) -> (r: Option<i64>)
    ensures
        lru_capacity(*final(c)) == lru_capacity(*old(c)),
        ({
            let es = lru_entries(*old(c));
            if has_key(es, k@) {
                r == Some(value_of(es, k@)) && lru_entries(*final(c)) == remove_key(es, k@)
            } else {
                r is None && lru_entries(*final(c)) == es
            }
        }),
{
    c.pop(k)
}

/// Relies on `lru::LruCache::len`.
#[verifier::external_body]
pub fn lru_len(c: &lru::LruCache<String, i64>) -> (n: usize)
    ensures
        n == lru_entries(*c).len(),
{
    c.len()
}

/// Relies on `lru::LruCache::iter`: visits the entries from most to least
/// recently used, without touching recency.
#[verifier::external_body]
pub fn lru_items(c: &lru::LruCache<String, i64>) -> (items: Vec<(String, i64)>)
    ensures
        items@.map_values(|p: (String, i64)| (p.0@, p.1)) == lru_entries(*c),
{
    let mut items: Vec<(String, i64)> = Vec::new();
    for (k, v) in c.iter() {
        items.push((k.clone(), *v));
    }
    items
}

// ---------------------------------------------------------------------------
// facts about the model, proved once for both stores
// ---------------------------------------------------------------------------

/// The index `key_idx` names really carries the key.
pub proof fn lemma_key_idx(es: Entries, k: Seq<char>)
    requires
        has_key(es, k),
    ensures
        0 <= key_idx(es, k) < es.len(),
        es[key_idx(es, k)].0 == k,
{
    let i = choose|i: int| 0 <= i < es.len() && (#[trigger] es[i]).0 == k;
    assert(es[i].0 == k);
}

/// With unique keys, any position holding `k` is the one `key_idx` names.
pub proof fn lemma_key_idx_unique(es: Entries, k: Seq<char>, i: int)
    requires
        uniq_keys(es),
        0 <= i < es.len(),
        es[i].0 == k,
    ensures
        key_idx(es, k) == i,
        value_of(es, k) == es[i].1,
{
    lemma_key_idx(es, k);
    let j = key_idx(es, k);
    if i < j {
        assert(es[i].0 != es[j].0);
    } else if j < i {
        assert(es[j].0 != es[i].0);
    }
}

/// What removing one key leaves: the same entries but those keyed `k`,
/// in order, keys still unique.
pub proof fn lemma_remove_key(es: Entries, k: Seq<char>)
    requires
        uniq_keys(es),
    ensures
        !has_key(remove_key(es, k), k),
        uniq_keys(remove_key(es, k)),
        remove_key(es, k).len() == es.len() - if has_key(es, k) {
            1int
        } else {
            0int
        },
        forall|e: (Seq<char>, i64)|
            remove_key(es, k).contains(e) <==> es.contains(e) && e.0 != k,
        forall|k2: Seq<char>|
            k2 != k ==> (has_key(remove_key(es, k), k2) <==> has_key(es, k2)),
        forall|k2: Seq<char>|
            k2 != k && has_key(es, k2) ==> value_of(remove_key(es, k), k2) == value_of(es, k2),
    decreases es.len(),
{
    reveal(Seq::filter);
    let pred = other_key(k);
    let r = es.filter(pred);
    lemma_filter_from(es, pred);
    // membership, both ways
    assert forall|e: (Seq<char>, i64)| r.contains(e) <==> es.contains(e) && e.0 != k by {
        if es.contains(e) && e.0 != k {
            let i = choose|i: int| 0 <= i < es.len() && es[i] == e;
            es.lemma_filter_contains(pred, i);
        }
    }
    // no entry keyed k survives
    assert(!has_key(r, k)) by {
        if has_key(r, k) {
            let i = key_idx(r, k);
            lemma_key_idx(r, k);
            es.lemma_filter_pred(pred, i);
        }
    }
    // unique keys survive: the filtered sequence is a subsequence
    assert(uniq_keys(r)) by {
        lemma_filter_subseq_uniq(es, pred);
    }
    // length: exactly one entry is dropped when the key is present
    if has_key(es, k) {
        let i = key_idx(es, k);
        lemma_key_idx(es, k);
        lemma_filter_drop_one(es, pred, i);
    } else {
        assert(forall|i: int| 0 <= i < es.len() ==> pred(#[trigger] es[i]));
        lemma_filter_all(es, pred);
    }
    // other keys keep their values
    assert forall|k2: Seq<char>|
        k2 != k implies (has_key(r, k2) <==> has_key(es, k2)) by {
        if has_key(es, k2) {
            let i = key_idx(es, k2);
            lemma_key_idx(es, k2);
            es.lemma_filter_contains(pred, i);
            let e = es[i];
            let j = choose|j: int| 0 <= j < r.len() && r[j] == e;
            assert(r[j].0 == k2);
        }
        if has_key(r, k2) {
            let i = key_idx(r, k2);
            lemma_key_idx(r, k2);
            assert(r.contains(r[i]));
            assert(es.contains(r[i]));
            let j = choose|j: int| 0 <= j < es.len() && es[j] == r[i];
            assert(es[j].0 == k2);
        }
    }
    assert forall|k2: Seq<char>|
        k2 != k && has_key(es, k2) implies value_of(r, k2) == value_of(es, k2) by {
        let i = key_idx(es, k2);
        lemma_key_idx(es, k2);
        es.lemma_filter_contains(pred, i);
        let e = es[i];
        let j = choose|j: int| 0 <= j < r.len() && r[j] == e;
        lemma_key_idx_unique(r, k2, j);
        lemma_key_idx_unique(es, k2, i);
    }
}

/// Every entry a filter keeps comes from the sequence it filtered.
pub proof fn lemma_filter_from(es: Entries, pred: spec_fn((Seq<char>, i64)) -> bool)
    ensures
        forall|e: (Seq<char>, i64)|
            #[trigger] es.filter(pred).contains(e) ==> es.contains(e) && pred(e),
    decreases es.len(),
{
    reveal(Seq::filter);
    if es.len() > 0 {
        let head = es.drop_last();
        lemma_filter_from(head, pred);
        let r = es.filter(pred);
        let rh = head.filter(pred);
        assert forall|e: (Seq<char>, i64)|
            #[trigger] r.contains(e) implies es.contains(e) && pred(e) by {
            if pred(es.last()) {
                assert(r == rh.push(es.last()));
                if e == es.last() {
                    assert(es[es.len() - 1] == e);
                } else {
                    let j = choose|j: int| 0 <= j < r.len() && r[j] == e;
                    assert(j < rh.len());
                    assert(rh[j] == e);
                    assert(rh.contains(e));
                    assert(head.contains(e));
                    let q = choose|q: int| 0 <= q < head.len() && head[q] == e;
                    assert(es[q] == e);
                }
            } else {
                assert(r == rh);
                assert(rh.contains(e));
                assert(head.contains(e));
                let q = choose|q: int| 0 <= q < head.len() && head[q] == e;
                assert(es[q] == e);
            }
        }
    }
}

/// A filtered sequence of unique-key entries keeps keys unique.
proof fn lemma_filter_subseq_uniq(es: Entries, pred: spec_fn((Seq<char>, i64)) -> bool)
    requires
        uniq_keys(es),
    ensures
        uniq_keys(es.filter(pred)),
    decreases es.len(),
{
    reveal(Seq::filter);
    if es.len() > 0 {
        let head = es.drop_last();
        lemma_filter_subseq_uniq(head, pred);
        let r = es.filter(pred);
        let rh = head.filter(pred);
        if pred(es.last()) {
            assert(r == rh.push(es.last()));
            assert forall|i: int, j: int|
                0 <= i < j < r.len() implies (#[trigger] r[i]).0 != (#[trigger] r[j]).0 by {
                if j < r.len() - 1 {
                    assert(rh[i] == r[i] && rh[j] == r[j]);
                } else {
                    // r[j] is es.last(); r[i] comes from the head
                    lemma_filter_from(head, pred);
                    assert(rh[i] == r[i]);
                    assert(rh.contains(rh[i]));
                    assert(head.contains(rh[i]));
                    let q = choose|q: int| 0 <= q < head.len() && head[q] == rh[i];
                    assert(es[q] == head[q]);
                    assert(es[q].0 != es[es.len() - 1].0);
                }
            }
        }
    }
}

/// Filtering away exactly one position shortens the sequence by one.
pub proof fn lemma_filter_drop_one(es: Entries, pred: spec_fn((Seq<char>, i64)) -> bool, i: int)
    requires
        0 <= i < es.len(),
        !pred(es[i]),
        forall|j: int| 0 <= j < es.len() && j != i ==> pred(#[trigger] es[j]),
    ensures
        es.filter(pred).len() == es.len() - 1,
    decreases es.len(),
{
    reveal(Seq::filter);
    if es.len() > 0 {
        let head = es.drop_last();
        if i == es.len() - 1 {
            lemma_filter_all(head, pred);
        } else {
            lemma_filter_drop_one(head, pred, i);
        }
    }
}

/// Filtering with an always-true predicate keeps every entry.
pub proof fn lemma_filter_all(es: Entries, pred: spec_fn((Seq<char>, i64)) -> bool)
    requires
        forall|j: int| 0 <= j < es.len() ==> pred(#[trigger] es[j]),
    ensures
        es.filter(pred) == es,
    decreases es.len(),
{
    reveal(Seq::filter);
    if es.len() > 0 {
        lemma_filter_all(es.drop_last(), pred);
        assert(es.filter(pred) =~= es);
    }
}

/// What `put` leaves keeps keys unique and holds the new pair in front.
pub proof fn lemma_put_model(es: Entries, cap: nat, k: Seq<char>, v: i64)
    requires
        uniq_keys(es),
        cap >= 1,
        es.len() <= cap,
    ensures
        ({
            let r = put_model(es, cap, k, v);
            &&& uniq_keys(r)
            &&& r.len() <= cap
            &&& r[0] == (k, v)
            &&& has_key(r, k)
            &&& value_of(r, k) == v
            &&& forall|k2: Seq<char>|
                k2 != k && has_key(r, k2) ==> has_key(es, k2) && value_of(r, k2) == value_of(
                    es,
                    k2,
                )
        }),
{
    let r = put_model(es, cap, k, v);
    lemma_remove_key(es, k);
    if has_key(es, k) {
        let rest = remove_key(es, k);
        lemma_prepend_uniq(rest, k, v);
        lemma_prepend_values(rest, k, v);
    } else if es.len() < cap {
        lemma_prepend_uniq(es, k, v);
        lemma_prepend_values(es, k, v);
    } else {
        let rest = es.drop_last();
        assert(uniq_keys(rest));
        assert(!has_key(rest, k)) by {
            if has_key(rest, k) {
                let i = key_idx(rest, k);
                lemma_key_idx(rest, k);
                assert(es[i].0 == k);
            }
        }
        lemma_prepend_uniq(rest, k, v);
        lemma_prepend_values(rest, k, v);
        assert(forall|k2: Seq<char>|
            has_key(rest, k2) ==> has_key(es, k2) && value_of(rest, k2) == value_of(es, k2)) by {
            assert forall|k2: Seq<char>| has_key(rest, k2) implies has_key(es, k2) && value_of(
                rest,
                k2,
            ) == value_of(es, k2) by {
                let i = key_idx(rest, k2);
                lemma_key_idx(rest, k2);
                assert(es[i].0 == k2);
                lemma_key_idx_unique(es, k2, i);
                lemma_key_idx_unique(rest, k2, i);
            }
        }
    }
    assert(r[0] == (k, v));
    lemma_key_idx_unique(r, k, 0);
}

/// Prepending a pair whose key is absent keeps keys unique.
proof fn lemma_prepend_uniq(es: Entries, k: Seq<char>, v: i64)
    requires
        uniq_keys(es),
        !has_key(es, k),
    ensures
        uniq_keys(seq![(k, v)] + es),
{
    let r = seq![(k, v)] + es;
    assert forall|i: int, j: int|
        0 <= i < j < r.len() implies (#[trigger] r[i]).0 != (#[trigger] r[j]).0 by {
        if i == 0 {
            assert(r[j] == es[j - 1]);
            if es[j - 1].0 == k {
                assert(has_key(es, k));
            }
        } else {
            assert(r[i] == es[i - 1] && r[j] == es[j - 1]);
        }
    }
}

/// Prepending a pair leaves the other keys' presence and values alone.
proof fn lemma_prepend_values(es: Entries, k: Seq<char>, v: i64)
    requires
        uniq_keys(es),
        !has_key(es, k),
    ensures
        forall|k2: Seq<char>|
            k2 != k && has_key(#[trigger] (seq![(k, v)] + es), k2) ==> has_key(es, k2)
                && value_of(seq![(k, v)] + es, k2) == value_of(es, k2),
        forall|k2: Seq<char>| k2 != k && has_key(es, k2) ==> has_key(seq![(k, v)] + es, k2),
{
    let r = seq![(k, v)] + es;
    lemma_prepend_uniq(es, k, v);
    assert forall|k2: Seq<char>|
        k2 != k && has_key(r, k2) implies has_key(es, k2) && value_of(r, k2) == value_of(
        es,
        k2,
    ) by {
        let i = key_idx(r, k2);
        lemma_key_idx(r, k2);
        assert(i >= 1);
        assert(es[i - 1] == r[i]);
        lemma_key_idx_unique(es, k2, i - 1);
        lemma_key_idx_unique(r, k2, i);
    }
    assert forall|k2: Seq<char>| k2 != k && has_key(es, k2) implies has_key(r, k2) by {
        let i = key_idx(es, k2);
        lemma_key_idx(es, k2);
        assert(r[i + 1] == es[i]);
    }
}

} // verus!
