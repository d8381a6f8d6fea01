//! The bounded cache of blob ids already processed, with per-entry
//! expiration and LRU eviction.
//!
//! Each entry maps a blob id to the instant the provider stops serving the
//! blob, in milliseconds since the epoch. Reads hide expired entries and
//! drop them on sight; inserts refuse entries already expired; every
//! `CLEANUP_INTERVAL` accepted inserts a full sweep removes what has
//! expired. The cache is persisted as one `id,expiration` line per entry.

use vstd::prelude::*;
use vstd::seq_lib::*;
use crate::clock::now_millis;
use crate::lru_store::{
    Entries, has_key, key_idx, value_of, other_key, remove_key, uniq_keys, put_model, lru_new,
    lru_put, lru_get, lru_pop, lru_len, lru_items, lru_entries, lru_capacity, lemma_key_idx,
    lemma_key_idx_unique, lemma_remove_key, lemma_filter_from, lemma_filter_all, lemma_put_model,
};
use crate::timefmt::{
    MAX_TS_MILLIS, spec_parse_expiration, parse_expiration, spec_format_millis,
    format_timestamp_millis, spec_parse_ts, trim_spec, is_space, is_space_exec, to_char_vec,
    parse_ts_window, lemma_trim_window, lemma_format_parse_millis,
};
use vstd::string::StrSliceExecFns;

verus! {

/// Entries kept at most, when no other capacity is chosen.
pub const DEFAULT_MAX_ENTRIES: usize = 1_000_000;

/// Accepted inserts between two sweeps of expired entries.
pub const CLEANUP_INTERVAL: usize = 10_000;

/// Holds of entries that have not expired by `now`.
pub open spec fn live_at(now: int) -> spec_fn((Seq<char>, i64)) -> bool {
    |e: (Seq<char>, i64)| e.1 > now
}

/// `es` without the entries expired by `now`.
pub open spec fn sweep(es: Entries, now: int) -> Entries {
    es.filter(live_at(now))
}

/// An id is known at `now`: present and not yet expired.
pub open spec fn spec_known(es: Entries, id: Seq<char>, now: int) -> bool {
    has_key(es, id) && value_of(es, id) > now
}

/// The entry keyed `id` moved to the front.
pub open spec fn promote(es: Entries, id: Seq<char>) -> Entries {
    seq![(id, value_of(es, id))] + remove_key(es, id)
}

/// What a `contains` probe for `id` at `now` leaves behind: a hit promotes
/// the entry, an expired entry is dropped, a miss changes nothing.
pub open spec fn contains_after(es: Entries, id: Seq<char>, now: int) -> Entries {
    if spec_known(es, id, now) {
        promote(es, id)
    } else if has_key(es, id) {
        remove_key(es, id)
    } else {
        es
    }
}

/// Whether `insert` accepts the expiration `s` at `now`: it parses, lies
/// after `now`, and is renderable.
pub open spec fn accepts(s: Seq<char>, now: int) -> bool {
    match spec_parse_expiration(s) {
        Some(e) => now < e && 0 <= e <= MAX_TS_MILLIS,
        None => false,
    }
}

pub struct KnownBlobsCache {
    cache: lru::LruCache<String, i64>,
    insert_count: usize,
    max_entries: usize,
}

impl KnownBlobsCache {
    /// The entries, most recently used first.
    pub closed spec fn entries(&self) -> Entries {
        lru_entries(self.cache)
    }

    /// The bound the cache holds at most.
    pub closed spec fn capacity(&self) -> nat {
        lru_capacity(self.cache)
    }

    /// Accepted inserts since the last sweep.
    pub closed spec fn pending(&self) -> nat {
        self.insert_count as nat
    }

    pub open spec fn wf(&self) -> bool {
        &&& uniq_keys(self.entries())
        &&& self.entries().len() <= self.capacity()
        &&& self.capacity() >= 1
        &&& self.pending() < CLEANUP_INTERVAL
        &&& forall|i: int|
            0 <= i < self.entries().len() ==> 0 <= (#[trigger] self.entries()[i]).1
                <= MAX_TS_MILLIS
    }

    /// A cache that holds at most `max_entries` entries; a bound of zero is
    /// raised to one.
    pub fn with_capacity(max_entries: usize) -> (r: Self)
        ensures
            r.wf(),
            r.entries() == Seq::<(Seq<char>, i64)>::empty(),
            r.capacity() == if max_entries >= 1 {
                max_entries as nat
            } else {
                1nat
            },
            r.pending() == 0,
    {
        let cap: usize = if max_entries >= 1 {
            max_entries
        } else {
            1
        };
        KnownBlobsCache { cache: lru_new(cap), insert_count: 0, max_entries }
    }

    /// A cache with the default bound.
    pub fn new() -> (r: Self)
        ensures
            r.wf(),
            r.entries() == Seq::<(Seq<char>, i64)>::empty(),
            r.capacity() == DEFAULT_MAX_ENTRIES as nat,
            r.pending() == 0,
    {
        Self::with_capacity(DEFAULT_MAX_ENTRIES)
    }

    /// The number of entries held.
    pub fn len(&self) -> (n: usize)
        ensures
            n == self.entries().len(),
    {
        lru_len(&self.cache)
    }

    pub fn is_empty(&self) -> (r: bool)
        ensures
            r == (self.entries().len() == 0),
    {
        self.len() == 0
    }

    /// Whether `blob_id` is known at the instant `now`. A hit touches
    /// recency; an entry found expired is dropped.
    #[verifier::rlimit(60)]
    pub fn contains_at(&mut self, blob_id: &str, now: i64) -> (r: bool)
        requires
            old(self).wf(),
        ensures
            final(self).wf(),
            r == spec_known(old(self).entries(), blob_id@, now as int),
            final(self).capacity() == old(self).capacity(),
            final(self).pending() == old(self).pending(),
            final(self).entries() == contains_after(old(self).entries(), blob_id@, now as int),
    {
        let ghost es = lru_entries(self.cache);
        proof {
            lemma_remove_key(es, blob_id@);
        }
        match lru_get(&mut self.cache, blob_id) {
            Some(expiration) => {
                if now >= expiration {
                    // expired: drop the entry
                    let ghost promoted = lru_entries(self.cache);
                    proof {
                        lemma_put_like_shape(es, blob_id@, expiration);
                    }
                    lru_pop(&mut self.cache, blob_id);
                    proof {
                        lemma_pop_after_promote(es, blob_id@, expiration);
                        lemma_remove_key_values(es, blob_id@);
                        lemma_entry_values_from(es, remove_key(es, blob_id@));
                    }
                    false
                } else {
                    proof {
                        lemma_promote_wf(es, blob_id@);
                    }
                    true
                }
            },
            None => false,
        }
    }

    /// Whether `blob_id` is known now. The verdict and the entry dropped or
    /// promoted are as `contains_at` says, at the instant the clock read.
    pub fn contains(&mut self, blob_id: &str) -> (r: bool)
        requires
            old(self).wf(),
        ensures
            final(self).wf(),
            final(self).capacity() == old(self).capacity(),
            final(self).pending() == old(self).pending(),
            exists|now: i64|
                {
                    &&& r == spec_known(old(self).entries(), blob_id@, now as int)
                    &&& final(self).entries() == contains_after(
                        old(self).entries(),
                        blob_id@,
                        now as int,
                    )
                },
    {
        let now = now_millis();
        let r = self.contains_at(blob_id, now);
        r
    }

    /// Removes every entry expired by `now`.
    pub fn cleanup_expired_at(&mut self, now: i64)
        requires
            old(self).wf(),
        ensures
            final(self).wf(),
            final(self).capacity() == old(self).capacity(),
            final(self).pending() == old(self).pending(),
            final(self).entries() == sweep(old(self).entries(), now as int),
    {
        let items = lru_items(&self.cache);
        let ghost es0 = lru_entries(self.cache);
        let ghost pred = live_at(now as int);
        let n = items.len();
        let mut i: usize = 0;
        while i < n
            invariant
                0 <= i <= n,
                n == es0.len(),
                self.insert_count == old(self).insert_count,
                self.max_entries == old(self).max_entries,
                items@.map_values(|p: (String, i64)| (p.0@, p.1)) == es0,
                uniq_keys(es0),
                lru_capacity(self.cache) == old(self).capacity(),
                lru_entries(self.cache) =~= es0.take(i as int).filter(live_at(now as int))
                    + es0.skip(i as int),
            decreases n - i,
        {
            let ghost cur = lru_entries(self.cache);
            let ghost kept = es0.take(i as int).filter(live_at(now as int));
            assert(items@[i as int].0@ == es0[i as int].0 && items@[i as int].1
                == es0[i as int].1);
            proof {
                lemma_take_one_more(es0, i as int);
                lemma_skip_head(es0, i as int);
            }
            if items[i].1 <= now {
                // expired: remove it; its key sits first in the unprocessed part
                proof {
                    lemma_sweep_step_drop(es0, now as int, i as int, cur);
                }
                lru_pop(&mut self.cache, items[i].0.as_str());
                proof {
                    lemma_filter_snoc(es0.take(i as int), es0[i as int], live_at(now as int));
                }
            } else {
                proof {
                    lemma_filter_snoc(es0.take(i as int), es0[i as int], live_at(now as int));
                    assert(lru_entries(self.cache) =~= es0.take(i as int + 1).filter(
                        live_at(now as int),
                    ) + es0.skip(i as int + 1));
                }
            }
            i = i + 1;
        }
        proof {
            assert(es0.take(n as int) =~= es0);
            assert(es0.skip(n as int) =~= Seq::<(Seq<char>, i64)>::empty());
            assert(lru_entries(self.cache) =~= sweep(es0, now as int));
            lemma_sweep_wf(es0, now as int);
        }
    }

    /// Removes every entry expired by the instant the clock reads.
    pub fn cleanup_expired(&mut self)
        requires
            old(self).wf(),
        ensures
            final(self).wf(),
            final(self).capacity() == old(self).capacity(),
            final(self).pending() == old(self).pending(),
            exists|now: i64| final(self).entries() == sweep(old(self).entries(), now as int),
    {
        let now = now_millis();
        self.cleanup_expired_at(now);
    }

    /// Inserts `blob_id` expiring at `expiration`, at the instant `now`.
    /// A string that does not parse, or an expiration not after `now`, is
    /// refused and the cache is left as it was; in particular an entry
    /// already expired is never stored. Every `CLEANUP_INTERVAL` accepted
    /// inserts, expired entries are swept.
    pub fn insert_at(&mut self, blob_id: String, expiration: &str, now: i64)
        requires
            old(self).wf(),
        ensures
            final(self).wf(),
            final(self).capacity() == old(self).capacity(),
            !accepts(expiration@, now as int) ==> final(self).entries() == old(self).entries()
                && final(self).pending() == old(self).pending(),
            accepts(expiration@, now as int) ==> ({
                let e = spec_parse_expiration(expiration@)->Some_0;
                let put = put_model(old(self).entries(), old(self).capacity(), blob_id@, e as i64);
                if old(self).pending() + 1 >= CLEANUP_INTERVAL {
                    final(self).entries() == sweep(put, now as int) && final(self).pending() == 0
                } else {
                    final(self).entries() == put && final(self).pending() == old(self).pending()
                        + 1
                }
            }),
            accepts(expiration@, now as int) ==> spec_known(final(self).entries(), blob_id@, now as int),
    {
        let parsed = parse_expiration(expiration);
        match parsed {
            Some(e) => {
                if now < e && 0 <= e && e <= MAX_TS_MILLIS {
                    let ghost es = lru_entries(self.cache);
                    proof {
                        lemma_put_model(es, lru_capacity(self.cache), blob_id@, e);
                    }
                    lru_put(&mut self.cache, blob_id, e);
                    proof {
                        lemma_put_model_values(es, old(self).capacity(), blob_id@, e, now as int);
                    }
                    self.insert_count = self.insert_count + 1;
                    if self.insert_count >= CLEANUP_INTERVAL {
                        self.insert_count = 0;
                        self.cleanup_expired_at(now);
                        proof {
                            lemma_sweep_keeps_live(
                                put_model(es, old(self).capacity(), blob_id@, e),
                                blob_id@,
                                now as int,
                            );
                        }
                    }
                }
            },
            None => {},
        }
    }

    /// Inserts `blob_id` with the expiration `expiration`, judged against
    /// the instant the clock reads.
    pub fn insert(&mut self, blob_id: String, expiration: &str)
        requires
            old(self).wf(),
        ensures
            final(self).wf(),
            final(self).capacity() == old(self).capacity(),
            exists|now: i64|
                {
                    &&& !accepts(expiration@, now as int) ==> final(self).entries() == old(self).entries()
                    &&& accepts(expiration@, now as int) ==> spec_known(final(self).entries(), blob_id@, now as int)
                },
    {
        let now = now_millis();
        self.insert_at(blob_id, expiration, now);
    }
}

// ---------------------------------------------------------------------------
// persistence: one `id,expiration` line per entry
// ---------------------------------------------------------------------------

/// One persisted line: `id,YYYY-MM-DDTHH:MM:SS.mmmZ` and a newline.
pub open spec fn render_line(e: (Seq<char>, i64)) -> Seq<char> {
    e.0 + seq![','] + spec_format_millis(e.1 as int) + seq!['\n']
}

/// The persisted text: the entries' lines, most recently used first.
pub open spec fn spec_save(es: Entries) -> Seq<char>
    decreases es.len(),
{
    if es.len() == 0 {
        Seq::empty()
    } else {
        render_line(es[0]) + spec_save(es.drop_first())
    }
}

impl KnownBlobsCache {
    /// Renders the cache for saving: sweeps entries expired by `now`, then
    /// yields one line per surviving entry.
    pub fn save_lines_at(&mut self, now: i64) -> (r: String)
        requires
            old(self).wf(),
        ensures
            final(self).wf(),
            final(self).capacity() == old(self).capacity(),
            final(self).pending() == old(self).pending(),
            final(self).entries() == sweep(old(self).entries(), now as int),
            r@ == spec_save(final(self).entries()),
    {
        proof {
            reveal_strlit(",");
            reveal_strlit("\n");
        }
        self.cleanup_expired_at(now);
        let items = lru_items(&self.cache);
        let ghost es = lru_entries(self.cache);
        let n = items.len();
        let mut out = String::new();
        proof {
            assert(es.skip(0) =~= es);
            assert(out@ + spec_save(es) =~= spec_save(es));
        }
        let mut i: usize = 0;
        while i < n
            invariant
                0 <= i <= n,
                n == es.len(),
                items@.map_values(|p: (String, i64)| (p.0@, p.1)) == es,
                forall|j: int| 0 <= j < es.len() ==> 0 <= (#[trigger] es[j]).1 <= MAX_TS_MILLIS,
                out@ + spec_save(es.skip(i as int)) == spec_save(es),
            decreases n - i,
        {
            assert(items@[i as int].0@ == es[i as int].0 && items@[i as int].1
                == es[i as int].1);
            let ghost before = out@;
            out.append(items[i].0.as_str());
            out.append(",");
            let ts = format_timestamp_millis(items[i].1);
            out.append(ts.as_str());
            out.append("\n");
            proof {
                reveal_strlit(",");
                reveal_strlit("\n");
                assert(","@ =~= seq![',']);
                assert("\n"@ =~= seq!['\n']);
                assert(out@ =~= before + render_line(es[i as int]));
                lemma_save_step(es, i as int);
                assert(out@ + spec_save(es.skip(i as int + 1)) =~= spec_save(es));
            }
            i = i + 1;
        }
        proof {
            assert(es.skip(n as int) =~= Seq::<(Seq<char>, i64)>::empty());
            assert(out@ =~= spec_save(es));
        }
        out
    }

    /// Renders the cache for saving, sweeping entries expired by the
    /// instant the clock reads.
    pub fn save_lines(&mut self) -> (r: String)
        requires
            old(self).wf(),
        ensures
            final(self).wf(),
            final(self).capacity() == old(self).capacity(),
            final(self).pending() == old(self).pending(),
            exists|now: i64|
                final(self).entries() == sweep(old(self).entries(), now as int) && r@
                    == spec_save(final(self).entries()),
    {
        let now = now_millis();
        self.save_lines_at(now)
    }
}

/// The saved text of a suffix starts with the line of its first entry.
proof fn lemma_save_step(es: Entries, i: int)
    requires
        0 <= i < es.len(),
    ensures
        spec_save(es.skip(i)) == render_line(es[i]) + spec_save(es.skip(i + 1)),
{
    let s = es.skip(i);
    assert(s.len() > 0);
    assert(s[0] == es[i]);
    assert(s.drop_first() =~= es.skip(i + 1));
}

// ---------------------------------------------------------------------------
// loading persisted lines
// ---------------------------------------------------------------------------

/// Index of the first occurrence of `ch`, or the length if there is none.
pub open spec fn first_idx(s: Seq<char>, ch: char) -> nat
    decreases s.len(),
{
    if s.len() == 0 {
        0
    } else if s[0] == ch {
        0
    } else {
        (1 + first_idx(s.drop_first(), ch)) as nat
    }
}

/// A scan that saw no `ch` before `j` and one at `j` names the first.
pub proof fn lemma_first_idx_window(s: Seq<char>, ch: char, j: int)
    requires
        0 <= j <= s.len(),
        forall|q: int| 0 <= q < j ==> s[q] != ch,
        j < s.len() ==> s[j] == ch,
    ensures
        first_idx(s, ch) == j,
    decreases j,
{
    if s.len() > 0 && j > 0 {
        lemma_first_idx_window(s.drop_first(), ch, j - 1);
    }
}

/// What one persisted line contributes: nothing if it is blank, has no
/// comma, or its expiration does not parse or is not after `now`; else the
/// trimmed id mapped to the parsed expiration.
pub open spec fn line_entry(line: Seq<char>, now: int) -> Option<(Seq<char>, i64)> {
    if trim_spec(line).len() == 0 {
        None
    } else {
        let c = first_idx(line, ',') as int;
        if c >= line.len() {
            None
        } else {
            let id = trim_spec(line.take(c));
            match spec_parse_ts(trim_spec(line.skip(c + 1))) {
                Some(e) => if now < e && 0 <= e <= MAX_TS_MILLIS {
                    Some((id, e as i64))
                } else {
                    None
                },
                None => None,
            }
        }
    }
}

pub open spec fn load_step(acc: Entries, line: Seq<char>, now: int, cap: nat) -> Entries {
    match line_entry(line, now) {
        Some(p) => put_model(acc, cap, p.0, p.1),
        None => acc,
    }
}

/// What loading the text `s` on top of `acc` leaves in the cache: the text
/// is cut at newlines and each line contributes as `line_entry` says.
pub open spec fn load_model(s: Seq<char>, acc: Entries, now: int, cap: nat) -> Entries
    decreases s.len(),
{
    if s.len() == 0 {
        acc
    } else {
        let i = first_idx(s, '\n') as int;
        if i >= s.len() {
            load_step(acc, s, now, cap)
        } else {
            load_model(s.skip(i + 1), load_step(acc, s.take(i), now, cap), now, cap)
        }
    }
}

impl KnownBlobsCache {
    /// Consumes one line spanning `[ls, le)` of the text.
    fn load_line(&mut self, s: &str, v: &Vec<char>, ls: usize, le: usize, now: i64)
        requires
            old(self).wf(),
            ls <= le <= v@.len(),
            v@ == s@,
        ensures
            final(self).wf(),
            final(self).capacity() == old(self).capacity(),
            final(self).pending() == old(self).pending(),
            final(self).entries() == load_step(
                old(self).entries(),
                v@.subrange(ls as int, le as int),
                now as int,
                old(self).capacity(),
            ),
    {
        let ghost line = v@.subrange(ls as int, le as int);
        // is the whole line blank?
        let mut lo: usize = ls;
        while lo < le && is_space_exec(v[lo])
            invariant
                ls <= lo <= le,
                le <= v@.len(),
                forall|q: int| ls <= q < lo ==> is_space(#[trigger] v@[q]),
            decreases le - lo,
        {
            lo = lo + 1;
        }
        let mut hi: usize = le;
        while hi > lo && is_space_exec(v[hi - 1])
            invariant
                lo <= hi <= le,
                le <= v@.len(),
                forall|q: int| hi <= q < le ==> is_space(#[trigger] v@[q]),
            decreases hi,
        {
            hi = hi - 1;
        }
        proof {
            assert(forall|q: int| 0 <= q < line.len() ==> line[q] == v@[ls + q]);
            lemma_trim_window(line, lo - ls, hi - ls);
        }
        if lo == hi {
            assert(trim_spec(line).len() == 0);
            return ;
        }
        // the first comma splits id from expiration
        let mut c: usize = ls;
        while c < le && !(v[c] == ',')
            invariant
                ls <= c <= le,
                le <= v@.len(),
                forall|q: int| ls <= q < c ==> v@[q] != ',',
            decreases le - c,
        {
            c = c + 1;
        }
        proof {
            lemma_first_idx_window(line, ',', c - ls);
        }
        if c == le {
            return ;
        }
        // the id, trimmed
        let mut l1: usize = ls;
        while l1 < c && is_space_exec(v[l1])
            invariant
                ls <= l1 <= c,
                c < v@.len(),
                forall|q: int| ls <= q < l1 ==> is_space(#[trigger] v@[q]),
            decreases c - l1,
        {
            l1 = l1 + 1;
        }
        let mut r1: usize = c;
        while r1 > l1 && is_space_exec(v[r1 - 1])
            invariant
                l1 <= r1 <= c,
                c < v@.len(),
                forall|q: int| r1 <= q < c ==> is_space(#[trigger] v@[q]),
            decreases r1,
        {
            r1 = r1 - 1;
        }
        let ghost id_part = v@.subrange(ls as int, c as int);
        proof {
            assert(forall|q: int| 0 <= q < id_part.len() ==> id_part[q] == v@[ls + q]);
            lemma_trim_window(id_part, l1 - ls, r1 - ls);
            assert(line.take(c - ls) =~= id_part);
        }
        let id = s.substring_char(l1, r1).to_owned();
        assert(id@ == trim_spec(line.take(c - ls)));
        // the expiration, trimmed and parsed
        let mut l2: usize = c + 1;
        while l2 < le && is_space_exec(v[l2])
            invariant
                c + 1 <= l2 <= le,
                le <= v@.len(),
                forall|q: int| c + 1 <= q < l2 ==> is_space(#[trigger] v@[q]),
            decreases le - l2,
        {
            l2 = l2 + 1;
        }
        let mut r2: usize = le;
        while r2 > l2 && is_space_exec(v[r2 - 1])
            invariant
                l2 <= r2 <= le,
                le <= v@.len(),
                forall|q: int| r2 <= q < le ==> is_space(#[trigger] v@[q]),
            decreases r2,
        {
            r2 = r2 - 1;
        }
        let ghost exp_part = v@.subrange(c as int + 1, le as int);
        proof {
            assert(forall|q: int| 0 <= q < exp_part.len() ==> exp_part[q] == v@[c + 1 + q]);
            lemma_trim_window(exp_part, l2 - (c + 1), r2 - (c + 1));
            assert(line.skip(c - ls + 1) =~= exp_part);
            assert(v@.subrange(l2 as int, r2 as int) == trim_spec(exp_part));
        }
        match parse_ts_window(v, l2, r2) {
            Some(e) => {
                if now < e && 0 <= e && e <= MAX_TS_MILLIS {
                    let ghost es = lru_entries(self.cache);
                    proof {
                        lemma_put_model_values(
                            es,
                            lru_capacity(self.cache),
                            id@,
                            e,
                            now as int,
                        );
                    }
                    lru_put(&mut self.cache, id, e);
                }
            },
            None => {},
        }
    }

    /// Builds a cache of the default bound from persisted text, dropping
    /// blank and malformed lines and entries expired by `now`.
    pub fn load_lines_at(content: &str, now: i64) -> (r: Self)
        ensures
            r.wf(),
            r.capacity() == DEFAULT_MAX_ENTRIES as nat,
            r.pending() == 0,
            r.entries() == load_model(
                content@,
                Seq::<(Seq<char>, i64)>::empty(),
                now as int,
                DEFAULT_MAX_ENTRIES as nat,
            ),
    {
        let mut cache = Self::new();
        let v = to_char_vec(content);
        let n = v.len();
        let ghost cap = DEFAULT_MAX_ENTRIES as nat;
        let mut pos: usize = 0;
        proof {
            assert(v@.skip(0) =~= content@);
        }
        while pos < n
            invariant
                pos <= n,
                n == v@.len(),
                v@ == content@,
                cache.wf(),
                cache.capacity() == cap,
                cache.pending() == 0,
                cap == DEFAULT_MAX_ENTRIES as nat,
                load_model(content@, Seq::<(Seq<char>, i64)>::empty(), now as int, cap)
                    == load_model(v@.skip(pos as int), cache.entries(), now as int, cap),
            decreases n - pos,
        {
            let ghost acc = cache.entries();
            let mut j: usize = pos;
            while j < n && !(v[j] == '\n')
                invariant
                    pos <= j <= n,
                    n == v@.len(),
                    forall|q: int| pos <= q < j ==> v@[q] != '\n',
                decreases n - j,
            {
                j = j + 1;
            }
            let ghost rest = v@.skip(pos as int);
            proof {
                assert(forall|q: int| 0 <= q < rest.len() ==> rest[q] == v@[pos + q]);
                lemma_first_idx_window(rest, '\n', j - pos);
                assert(rest.take(j - pos) =~= v@.subrange(pos as int, j as int));
            }
            cache.load_line(content, &v, pos, j, now);
            if j < n {
                proof {
                    assert(rest.skip(j - pos + 1) =~= v@.skip(j as int + 1));
                }
                pos = j + 1;
            } else {
                proof {
                    assert(rest.take(j - pos) =~= rest);
                    assert(v@.skip(n as int) =~= Seq::<char>::empty());
                }
                pos = n;
            }
        }
        proof {
            assert(v@.skip(n as int) =~= Seq::<char>::empty());
        }
        cache
    }

    /// Builds a cache from persisted text, judged against the instant the
    /// clock reads.
    pub fn load_lines(content: &str) -> (r: Self)
        ensures
            r.wf(),
            r.capacity() == DEFAULT_MAX_ENTRIES as nat,
            r.pending() == 0,
            exists|now: i64|
                r.entries() == load_model(
                    content@,
                    Seq::<(Seq<char>, i64)>::empty(),
                    now as int,
                    DEFAULT_MAX_ENTRIES as nat,
                ),
    {
        let now = now_millis();
        Self::load_lines_at(content, now)
    }
}

// ---------------------------------------------------------------------------
// the save-then-load law
// ---------------------------------------------------------------------------

/// An id the persisted format carries faithfully: free of blanks, commas
/// and newlines.
pub open spec fn clean_id(id: Seq<char>) -> bool {
    forall|q: int| 0 <= q < id.len() ==> !is_space(#[trigger] id[q]) && id[q] != ','
}

/// Loading what was saved restores the lines one by one: each saved entry
/// is prepended in turn on top of `acc`.
proof fn lemma_load_render(es: Entries, acc: Entries, now: int, cap: nat)
    requires
        uniq_keys(es),
        uniq_keys(acc),
        forall|i: int| 0 <= i < es.len() ==> !has_key(acc, (#[trigger] es[i]).0),
        forall|i: int|
            0 <= i < es.len() ==> now < (#[trigger] es[i]).1 && 0 <= es[i].1 <= MAX_TS_MILLIS,
        forall|i: int| 0 <= i < es.len() ==> clean_id((#[trigger] es[i]).0),
        acc.len() + es.len() <= cap,
    ensures
        load_model(spec_save(es), acc, now, cap) == es.reverse() + acc,
    decreases es.len(),
{
    if es.len() == 0 {
        assert(es.reverse() + acc =~= acc);
    } else {
        let e0 = es[0];
        let rest = es.drop_first();
        let fmt = spec_format_millis(e0.1 as int);
        lemma_format_parse_millis(e0.1 as int);
        let line0 = render_line(e0);
        let body = e0.0 + seq![','] + fmt;
        assert(line0 =~= body + seq!['\n']);
        let s = spec_save(es);
        assert(s == line0 + spec_save(rest)) by {
            assert(spec_save(es) == render_line(es[0]) + spec_save(es.drop_first()));
        }
        let ll = line0.len() as int;
        // the first newline ends the first line
        assert(first_idx(s, '\n') == ll - 1) by {
            assert(forall|q: int| 0 <= q < ll ==> s[q] == line0[q]);
            assert(forall|q: int| 0 <= q < body.len() ==> line0[q] == body[q]);
            assert(forall|q: int| 0 <= q < e0.0.len() ==> body[q] == e0.0[q]);
            assert(forall|q: int| 0 <= q < 24 ==> body[e0.0.len() + 1 + q] == fmt[q]);
            assert(forall|q: int| 0 <= q < ll - 1 ==> s[q] != '\n') by {
                assert(forall|q: int| 0 <= q < e0.0.len() ==> !is_space(#[trigger] e0.0[q]));
                assert(forall|q: int| 0 <= q < 24 ==> !is_space(#[trigger] fmt[q]));
            }
            assert(s[ll - 1] == '\n');
            lemma_first_idx_window(s, '\n', ll - 1);
        }
        assert(ll - 1 < s.len());
        assert(s.take(ll - 1) =~= body);
        assert(s.skip(ll) =~= spec_save(rest));
        // the first line contributes exactly the first entry
        assert(line_entry(body, now) == Some((e0.0, e0.1))) by {
            let cl = e0.0.len() as int;
            assert(body.len() == cl + 25);
            assert(trim_spec(body) == body) by {
                assert(!is_space(body[0])) by {
                    if e0.0.len() > 0 {
                        assert(body[0] == e0.0[0]);
                    } else {
                        assert(body[0] == ',');
                    }
                }
                assert(body.last() == fmt[23]);
                assert(!is_space(body.last()));
            }
            assert(first_idx(body, ',') == cl) by {
                assert(forall|q: int| 0 <= q < cl ==> body[q] == e0.0[q]);
                assert(body[cl] == ',');
                lemma_first_idx_window(body, ',', cl);
            }
            assert(body.take(cl) =~= e0.0);
            assert(trim_spec(e0.0) == e0.0) by {
                if e0.0.len() > 0 {
                    assert(!is_space(e0.0[0]));
                    assert(!is_space(e0.0.last()));
                }
            }
            assert(body.skip(cl + 1) =~= fmt);
            assert(spec_parse_ts(trim_spec(fmt)) == Some(e0.1 as int));
        }
        let stepped = load_step(acc, body, now, cap);
        assert(stepped == put_model(acc, cap, e0.0, e0.1));
        assert(!has_key(acc, e0.0));
        assert(acc.len() < cap);
        assert(stepped == seq![e0] + acc) by {
            assert(seq![(e0.0, e0.1)] =~= seq![e0]);
        }
        // the rest of the lines stack on top
        assert forall|i: int| 0 <= i < rest.len() implies !has_key(
            stepped,
            (#[trigger] rest[i]).0,
        ) by {
            assert(rest[i] == es[i + 1]);
            if has_key(stepped, rest[i].0) {
                let q = key_idx(stepped, rest[i].0);
                lemma_key_idx(stepped, rest[i].0);
                if q == 0 {
                    assert(es[0].0 == es[i + 1].0);
                } else {
                    assert(stepped[q] == acc[q - 1]);
                    assert(has_key(acc, es[i + 1].0));
                }
            }
        }
        assert(uniq_keys(stepped)) by {
            lemma_prepend_entry_props(acc, e0.0, e0.1);
            assert(seq![(e0.0, e0.1)] + acc =~= stepped);
        }
        lemma_load_render(rest, stepped, now, cap);
        assert(load_model(s, acc, now, cap) == rest.reverse() + stepped);
        assert(rest.reverse() + (seq![e0] + acc) =~= es.reverse() + acc) by {
            assert(forall|q: int|
                0 <= q < rest.len() ==> rest.reverse()[q] == es[es.len() - 1 - q]);
        }
    }
}

/// Saving a cache and loading the text back at the same instant restores
/// exactly the entries whose expiration is still in the future — each id
/// still mapped to its expiration — in reverse recency order.
pub proof fn lemma_save_load_roundtrip(es: Entries, now: int, cap: nat)
    requires
        uniq_keys(es),
        forall|i: int| 0 <= i < es.len() ==> 0 <= (#[trigger] es[i]).1 <= MAX_TS_MILLIS,
        forall|i: int| 0 <= i < es.len() ==> clean_id((#[trigger] es[i]).0),
        es.len() <= cap,
    ensures
        load_model(spec_save(sweep(es, now)), Seq::<(Seq<char>, i64)>::empty(), now, cap)
            == sweep(es, now).reverse(),
        forall|e: (Seq<char>, i64)|
            #[trigger] load_model(
                spec_save(sweep(es, now)),
                Seq::<(Seq<char>, i64)>::empty(),
                now,
                cap,
            ).contains(e) <==> es.contains(e) && e.1 > now,
{
    let swept = sweep(es, now);
    lemma_filter_subseq_uniq_entries(es, now);
    lemma_filter_from(es, live_at(now));
    es.lemma_filter_len(live_at(now));
    assert forall|i: int| 0 <= i < swept.len() implies es.contains(#[trigger] swept[i]) && now
        < swept[i].1 by {
        assert(swept.contains(swept[i]));
        es.lemma_filter_pred(live_at(now), i);
    }
    assert forall|i: int| 0 <= i < swept.len() implies now < (#[trigger] swept[i]).1 && 0
        <= swept[i].1 <= MAX_TS_MILLIS && clean_id(swept[i].0) by {
        let q = choose|q: int| 0 <= q < es.len() && es[q] == swept[i];
        assert(0 <= es[q].1 <= MAX_TS_MILLIS && clean_id(es[q].0));
    }
    let acc0 = Seq::<(Seq<char>, i64)>::empty();
    lemma_load_render(swept, acc0, now, cap);
    let loaded = load_model(spec_save(swept), acc0, now, cap);
    assert(loaded == swept.reverse() + acc0);
    assert(loaded =~= swept.reverse());
    // membership carries over
    assert forall|e: (Seq<char>, i64)| #[trigger] loaded.contains(e) <==> es.contains(e) && e.1
        > now by {
        if loaded.contains(e) {
            let i = choose|i: int| 0 <= i < loaded.len() && loaded[i] == e;
            assert(swept[swept.len() - 1 - i] == e);
            assert(es.contains(e) && now < e.1);
        }
        if es.contains(e) && e.1 > now {
            let i = choose|i: int| 0 <= i < es.len() && es[i] == e;
            assert(live_at(now)(es[i]));
            es.lemma_filter_contains(live_at(now), i);
            let j = choose|j: int| 0 <= j < swept.len() && swept[j] == e;
            assert(loaded[swept.len() - 1 - j] == e);
            assert(loaded.contains(e));
        }
    }
}

// ---------------------------------------------------------------------------
// proof support
// ---------------------------------------------------------------------------

/// Entries drawn from a bounded-value sequence are bounded.
proof fn lemma_entry_values_from(es: Entries, r: Entries)
    requires
        forall|i: int| 0 <= i < es.len() ==> 0 <= (#[trigger] es[i]).1 <= MAX_TS_MILLIS,
        forall|i: int| 0 <= i < r.len() ==> es.contains(#[trigger] r[i]),
    ensures
        forall|i: int| 0 <= i < r.len() ==> 0 <= (#[trigger] r[i]).1 <= MAX_TS_MILLIS,
{
    assert forall|i: int| 0 <= i < r.len() implies 0 <= (#[trigger] r[i]).1 <= MAX_TS_MILLIS by {
        let q = choose|q: int| 0 <= q < es.len() && es[q] == r[i];
        assert(0 <= es[q].1 <= MAX_TS_MILLIS);
    }
}

/// A promotion keeps keys unique.
pub proof fn lemma_promote_wf_keys(es: Entries, k: Seq<char>)
    requires
        uniq_keys(es),
        has_key(es, k),
    ensures
        uniq_keys(promote(es, k)),
{
    lemma_key_idx(es, k);
    lemma_remove_key(es, k);
    lemma_prepend_entry_props(remove_key(es, k), k, value_of(es, k));
}

/// A promotion keeps well-formed entries well formed, at the same length.
pub proof fn lemma_promote_wf(es: Entries, k: Seq<char>)
    requires
        uniq_keys(es),
        has_key(es, k),
        forall|i: int| 0 <= i < es.len() ==> 0 <= (#[trigger] es[i]).1 <= MAX_TS_MILLIS,
    ensures
        uniq_keys(promote(es, k)),
        promote(es, k).len() == es.len(),
        forall|i: int|
            0 <= i < promote(es, k).len() ==> 0 <= (#[trigger] promote(es, k)[i]).1
                <= MAX_TS_MILLIS,
{
    let r = promote(es, k);
    lemma_key_idx(es, k);
    lemma_remove_key(es, k);
    lemma_prepend_entry_props(remove_key(es, k), k, value_of(es, k));
    lemma_remove_key_values(es, k);
    assert(r[0] == (k, value_of(es, k)));
    assert((k, value_of(es, k)) == es[key_idx(es, k)]);
    assert(es.contains(es[key_idx(es, k)]));
    assert forall|i: int| 0 <= i < r.len() implies es.contains(#[trigger] r[i]) by {
        if i > 0 {
            assert(r[i] == remove_key(es, k)[i - 1]);
        }
    }
    lemma_entry_values_from(es, r);
}

/// After a hit, the cache holds the promoted shape.
proof fn lemma_put_like_shape(es: Entries, k: Seq<char>, v: i64)
    requires
        uniq_keys(es),
        has_key(es, k),
        v == value_of(es, k),
    ensures
        uniq_keys(promote(es, k)),
        has_key(promote(es, k), k),
        key_idx(promote(es, k), k) == 0,
{
    lemma_remove_key(es, k);
    lemma_prepend_entry_props(remove_key(es, k), k, v);
    lemma_key_idx_unique(promote(es, k), k, 0);
}

/// Popping the front entry of a promoted cache leaves exactly the removal.
proof fn lemma_pop_after_promote(es: Entries, k: Seq<char>, v: i64)
    requires
        uniq_keys(es),
        has_key(es, k),
        v == value_of(es, k),
    ensures
        remove_key(promote(es, k), k) == remove_key(es, k),
{
    let rest = remove_key(es, k);
    lemma_remove_key(es, k);
    let one = seq![(k, v)];
    Seq::filter_distributes_over_add(one, rest, other_key(k));
    assert(one.filter(other_key(k)) =~= Seq::<(Seq<char>, i64)>::empty()) by {
        reveal(Seq::filter);
        let p = other_key(k);
        assert(one.drop_last() =~= Seq::<(Seq<char>, i64)>::empty());
        assert(one.drop_last().filter(p) =~= Seq::<(Seq<char>, i64)>::empty());
        assert(one.last() == (k, v));
        assert(!p((k, v)));
    }
    lemma_filter_all(rest, other_key(k));
    assert(remove_key(promote(es, k), k) =~= rest);
}

/// A prepended fresh entry is well formed and sits at index zero.
proof fn lemma_prepend_entry_props(es: Entries, k: Seq<char>, v: i64)
    requires
        uniq_keys(es),
        !has_key(es, k),
    ensures
        uniq_keys(seq![(k, v)] + es),
        has_key(seq![(k, v)] + es, k),
        value_of(seq![(k, v)] + es, k) == v,
{
    let r = seq![(k, v)] + es;
    assert forall|i: int, j: int|
        0 <= i < j < r.len() implies (#[trigger] r[i]).0 != (#[trigger] r[j]).0 by {
        if i == 0 {
            assert(r[j] == es[j - 1]);
            if es[j - 1].0 == k {
                assert(has_key(es, k));
            }
        } else {
            assert(r[i] == es[i - 1] && r[j] == es[j - 1]);
        }
    }
    assert(r[0] == (k, v));
    lemma_key_idx_unique(r, k, 0);
}

/// Values other keys held survive a removal.
proof fn lemma_remove_key_values(es: Entries, k: Seq<char>)
    requires
        uniq_keys(es),
    ensures
        forall|i: int|
            0 <= i < remove_key(es, k).len() ==> es.contains(#[trigger] remove_key(es, k)[i]),
{
    lemma_filter_from(es, other_key(k));
    assert forall|i: int|
        0 <= i < remove_key(es, k).len() implies es.contains(
        #[trigger] remove_key(es, k)[i],
    ) by {
        assert(remove_key(es, k).contains(remove_key(es, k)[i]));
    }
}

/// `take(i + 1)` is `take(i)` plus the element at `i`.
proof fn lemma_take_one_more(es: Entries, i: int)
    requires
        0 <= i < es.len(),
    ensures
        es.take(i + 1) == es.take(i).push(es[i]),
{
    assert(es.take(i + 1) =~= es.take(i).push(es[i]));
}

/// `skip(i)` starts with the element at `i`.
proof fn lemma_skip_head(es: Entries, i: int)
    requires
        0 <= i < es.len(),
    ensures
        es.skip(i) == seq![es[i]] + es.skip(i + 1),
{
    assert(es.skip(i) =~= seq![es[i]] + es.skip(i + 1));
}

/// Filtering a sequence extended by one element.
proof fn lemma_filter_snoc(es: Entries, e: (Seq<char>, i64), pred: spec_fn((Seq<char>, i64)) -> bool)
    ensures
        es.push(e).filter(pred) == if pred(e) {
            es.filter(pred).push(e)
        } else {
            es.filter(pred)
        },
{
    reveal(Seq::filter);
    assert(es.push(e).drop_last() =~= es);
    assert(es.push(e).last() == e);
}

/// Dropping the expired head of the unprocessed part is exactly a key
/// removal on the whole cache.
proof fn lemma_sweep_step_drop(es0: Entries, now: int, i: int, cur: Entries)
    requires
        uniq_keys(es0),
        0 <= i < es0.len(),
        cur == es0.take(i).filter(live_at(now)) + es0.skip(i),
        !live_at(now)(es0[i]),
    ensures
        has_key(cur, es0[i].0),
        value_of(cur, es0[i].0) == es0[i].1,
        remove_key(cur, es0[i].0) == es0.take(i).filter(live_at(now)) + es0.skip(i + 1),
{
    let k = es0[i].0;
    let kept = es0.take(i).filter(live_at(now));
    lemma_skip_head(es0, i);
    // keys in the kept part and the tail differ from k
    assert(uniq_keys(cur) && cur[kept.len() as int] == es0[i] && forall|j: int|
        0 <= j < cur.len() && j != kept.len() ==> (#[trigger] cur[j]).0 != k) by {
        lemma_sweep_prefix_uniq(es0, now, i);
    }
    lemma_key_idx_unique(cur, k, kept.len() as int);
    lemma_remove_key(cur, k);
    assert(remove_key(cur, k) =~= kept + es0.skip(i + 1)) by {
        lemma_remove_at_idx(cur, k, kept.len() as int);
        assert(cur.subrange(0, kept.len() as int) =~= kept);
        assert(cur.subrange(kept.len() as int + 1, cur.len() as int) =~= es0.skip(i + 1));
    }
}

/// In the mid-sweep shape the keys are unique, the head of the unprocessed
/// part sits right after the kept part, and no other position carries its key.
proof fn lemma_sweep_prefix_uniq(es0: Entries, now: int, i: int)
    requires
        uniq_keys(es0),
        0 <= i < es0.len(),
    ensures
        ({
            let kept = es0.take(i).filter(live_at(now));
            let cur = kept + es0.skip(i);
            &&& uniq_keys(cur)
            &&& cur[kept.len() as int] == es0[i]
            &&& forall|j: int|
                0 <= j < cur.len() && j != kept.len() ==> (#[trigger] cur[j]).0 != es0[i].0
        }),
{
    let kept = es0.take(i).filter(live_at(now));
    let cur = kept + es0.skip(i);
    let k = es0[i].0;
    lemma_filter_from(es0.take(i), live_at(now));
    // a kept entry maps to a position in the prefix
    assert forall|j: int| 0 <= j < kept.len() implies exists|q: int|
        0 <= q < i && es0[q] == #[trigger] kept[j] by {
        assert(kept.contains(kept[j]));
        assert(es0.take(i).contains(kept[j]));
        let q = choose|q: int| 0 <= q < es0.take(i).len() && es0.take(i)[q] == kept[j];
        assert(es0[q] == kept[j]);
    }
    assert(uniq_keys(cur)) by {
        assert forall|a: int, b: int|
            0 <= a < b < cur.len() implies (#[trigger] cur[a]).0 != (#[trigger] cur[b]).0 by {
            let ka = kept.len() as int;
            if a < ka && b < ka {
                lemma_filter_subseq_uniq_entries(es0.take(i), now);
            } else if a < ka {
                let q = choose|q: int| 0 <= q < i && es0[q] == kept[a];
                assert(cur[b] == es0[i + (b - ka)]);
                assert(es0[q].0 != es0[i + (b - ka)].0);
            } else {
                assert(cur[a] == es0[i + (a - ka)]);
                assert(cur[b] == es0[i + (b - ka)]);
            }
        }
    }
    assert(cur[kept.len() as int] == es0[i]);
    assert forall|j: int|
        0 <= j < cur.len() && j != kept.len() implies (#[trigger] cur[j]).0 != k by {
        let ka = kept.len() as int;
        if j < ka {
            let q = choose|q: int| 0 <= q < i && es0[q] == kept[j];
            assert(es0[q].0 != es0[i].0);
        } else {
            assert(cur[j] == es0[i + (j - ka)]);
            assert(es0[i].0 != es0[i + (j - ka)].0);
        }
    }
}

/// Keys stay unique through a liveness filter.
proof fn lemma_filter_subseq_uniq_entries(es: Entries, now: int)
    requires
        uniq_keys(es),
    ensures
        uniq_keys(es.filter(live_at(now))),
{
    let pred = live_at(now);
    let r = es.filter(pred);
    lemma_filter_from(es, pred);
    assert forall|i: int, j: int|
        0 <= i < j < r.len() implies (#[trigger] r[i]).0 != (#[trigger] r[j]).0 by {
        lemma_filter_pair_from(es, pred, i, j);
    }
}

/// Two distinct filtered positions come from two distinct source positions,
/// in order.
proof fn lemma_filter_pair_from(es: Entries, pred: spec_fn((Seq<char>, i64)) -> bool, i: int, j: int)
    requires
        uniq_keys(es),
        0 <= i < j < es.filter(pred).len(),
    ensures
        es.filter(pred)[i].0 != es.filter(pred)[j].0,
    decreases es.len(),
{
    reveal(Seq::filter);
    let r = es.filter(pred);
    if es.len() > 0 {
        let head = es.drop_last();
        let rh = head.filter(pred);
        if pred(es.last()) {
            if j == r.len() - 1 {
                // r[j] is es.last(); r[i] comes from the head
                lemma_filter_from(head, pred);
                assert(rh[i] == r[i]);
                assert(rh.contains(rh[i]));
                assert(head.contains(rh[i]));
                let q = choose|q: int| 0 <= q < head.len() && head[q] == rh[i];
                assert(es[q] == head[q]);
                assert(es[q].0 != es[es.len() - 1].0);
            } else {
                assert(rh[i] == r[i] && rh[j] == r[j]);
                lemma_filter_pair_from(head, pred, i, j);
            }
        } else {
            lemma_filter_pair_from(head, pred, i, j);
        }
    }
}

/// Removing the key at a known index is removing that position.
proof fn lemma_remove_at_idx(es: Entries, k: Seq<char>, i: int)
    requires
        uniq_keys(es),
        0 <= i < es.len(),
        es[i].0 == k,
    ensures
        remove_key(es, k) == es.subrange(0, i) + es.subrange(i + 1, es.len() as int),
    decreases es.len(),
{
    reveal(Seq::filter);
    let pred = other_key(k);
    if es.len() > 0 {
        let head = es.drop_last();
        if i == es.len() - 1 {
            assert(!pred(es.last()));
            assert(forall|j: int| 0 <= j < head.len() ==> pred(#[trigger] head[j]));
            lemma_filter_all(head, pred);
            assert(remove_key(es, k) =~= es.subrange(0, i) + es.subrange(i + 1, es.len() as int));
        } else {
            assert(pred(es.last()));
            lemma_remove_at_idx(head, k, i);
            assert(remove_key(es, k) == remove_key(head, k).push(es.last()));
            assert(remove_key(es, k) =~= es.subrange(0, i) + es.subrange(i + 1, es.len() as int));
        }
    }
}

/// A sweep keeps well-formedness.
proof fn lemma_sweep_wf(es: Entries, now: int)
    requires
        uniq_keys(es),
    ensures
        uniq_keys(sweep(es, now)),
        sweep(es, now).len() <= es.len(),
        forall|i: int| 0 <= i < sweep(es, now).len() ==> es.contains(#[trigger] sweep(es, now)[i]),
{
    lemma_filter_subseq_uniq_entries(es, now);
    es.lemma_filter_len(live_at(now));
    lemma_filter_from(es, live_at(now));
    assert forall|i: int|
        0 <= i < sweep(es, now).len() implies es.contains(#[trigger] sweep(es, now)[i]) by {
        assert(sweep(es, now).contains(sweep(es, now)[i]));
    }
}

/// After a put of a live entry, the key is known; a sweep keeps it so.
proof fn lemma_put_model_values(es: Entries, cap: nat, k: Seq<char>, v: i64, now: int)
    requires
        uniq_keys(es),
        cap >= 1,
        es.len() <= cap,
        forall|i: int| 0 <= i < es.len() ==> 0 <= (#[trigger] es[i]).1 <= MAX_TS_MILLIS,
        0 <= v <= MAX_TS_MILLIS,
        v > now,
    ensures
        ({
            let r = put_model(es, cap, k, v);
            &&& uniq_keys(r)
            &&& r.len() <= cap
            &&& spec_known(r, k, now)
            &&& forall|i: int| 0 <= i < r.len() ==> 0 <= (#[trigger] r[i]).1 <= MAX_TS_MILLIS
        }),
{
    lemma_put_model(es, cap, k, v);
    let r = put_model(es, cap, k, v);
    lemma_key_idx_unique(r, k, 0);
    assert forall|i: int| 0 <= i < r.len() implies 0 <= (#[trigger] r[i]).1 <= MAX_TS_MILLIS by {
        if i > 0 {
            if has_key(es, k) {
                lemma_remove_key_values(es, k);
                assert(es.contains(remove_key(es, k)[i - 1]));
                let q = choose|q: int|
                    0 <= q < es.len() && es[q] == remove_key(es, k)[i - 1];
                assert(r[i] == es[q]);
            } else if es.len() < cap {
                assert(r[i] == es[i - 1]);
            } else {
                assert(r[i] == es[i - 1]);
            }
        }
    }
}

/// A sweep at `now` keeps every entry later than `now`, the fresh key among
/// them.
proof fn lemma_sweep_keeps_live(es: Entries, k: Seq<char>, now: int)
    requires
        uniq_keys(es),
        spec_known(es, k, now),
    ensures
        spec_known(sweep(es, now), k, now),
{
    let i = key_idx(es, k);
    lemma_key_idx(es, k);
    assert(live_at(now)(es[i]));
    es.lemma_filter_contains(live_at(now), i);
    let r = sweep(es, now);
    assert(r.contains(es[i]));
    let j = choose|j: int| 0 <= j < r.len() && r[j] == es[i];
    lemma_filter_subseq_uniq_entries(es, now);
    lemma_key_idx_unique(r, k, j);
}

} // verus!
