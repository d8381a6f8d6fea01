//! The per-tenant collection core: record filtering, the aggregating
//! output cache, deduplication against the known-blobs cache, and the
//! verdicts the monitor loop acts on.
//!
//! The surrounding application moves bytes: it downloads pages and blobs,
//! parses nothing, and hands every decision to the functions here.

use vstd::prelude::*;
use crate::known_blobs::{KnownBlobsCache, spec_known, accepts};
use crate::lru_store::{Entries, has_key, remove_key};

verus! {

/// One audit log record: field name to field value, the value carried as
/// its JSON text.
pub struct LogRecord {
    pub fields: Vec<(String, String)>,
}

impl View for LogRecord {
    type V = Seq<(Seq<char>, Seq<char>)>;

    open spec fn view(&self) -> Seq<(Seq<char>, Seq<char>)> {
        self.fields.deep_view()
    }
}

impl DeepView for LogRecord {
    type V = Seq<(Seq<char>, Seq<char>)>;

    open spec fn deep_view(&self) -> Seq<(Seq<char>, Seq<char>)> {
        self.view()
    }
}

/// The value of the first field named `k`, if any.
pub open spec fn spec_get(fs: Seq<(Seq<char>, Seq<char>)>, k: Seq<char>) -> Option<Seq<char>>
    decreases fs.len(),
{
    if fs.len() == 0 {
        None
    } else if fs[0].0 == k {
        Some(fs[0].1)
    } else {
        spec_get(fs.drop_first(), k)
    }
}

impl LogRecord {
    pub fn new() -> (r: LogRecord)
        ensures
            r@ == Seq::<(Seq<char>, Seq<char>)>::empty(),
    {
        let r = LogRecord { fields: Vec::new() };
        proof {
            assert(r@ =~= Seq::<(Seq<char>, Seq<char>)>::empty());
        }
        r
    }

    /// The value of the first field named `key`, if any.
    pub fn get(&self, key: &str) -> (r: Option<&String>)
        ensures
            match r {
                Some(v) => spec_get(self@, key@) == Some(v@),
                None => spec_get(self@, key@) is None,
            },
    {
        let n = self.fields.len();
        let mut i: usize = 0;
        proof {
            assert(self@.skip(0) =~= self@);
        }
        while i < n
            invariant
                i <= n,
                n == self.fields@.len(),
                spec_get(self@, key@) == spec_get(self@.skip(i as int), key@),
            decreases n - i,
        {
            proof {
                assert(self@.skip(i as int)[0] == self@[i as int]);
                assert(self@[i as int] == (self.fields@[i as int].0@, self.fields@[
                    i as int].1@));
                assert(self@.skip(i as int).drop_first() =~= self@.skip(i as int + 1));
            }
            if crate::config::str_eq(self.fields[i].0.as_str(), key) {
                return Some(&self.fields[i].1);
            }
            i = i + 1;
        }
        proof {
            assert(self@.skip(n as int) =~= Seq::<(Seq<char>, Seq<char>)>::empty());
        }
        None
    }

    /// Appends one field.
    pub fn push_field(&mut self, key: String, value: String)
        ensures
            final(self)@ == old(self)@.push((key@, value@)),
    {
        self.fields.push((key, value));
        proof {
            assert(self@ =~= old(self)@.push((key@, value@)));
        }
    }
}

/// One discovered content blob: the dedup key, its feed, where to fetch
/// it, and when the provider stops serving it.
pub struct ContentBlob {
    pub content_id: String,
    pub content_type: String,
    pub url: String,
    pub expiration: String,
}

impl ContentBlob {
    pub open spec fn model(&self) -> (Seq<char>, Seq<char>, Seq<char>, Seq<char>) {
        (self.content_id@, self.content_type@, self.url@, self.expiration@)
    }
}

// ---------------------------------------------------------------------------
// the aggregating output cache
// ---------------------------------------------------------------------------

pub type BucketModel = Seq<(Seq<char>, Seq<Seq<(Seq<char>, Seq<char>)>>)>;

/// Total records across the buckets.
pub open spec fn bucket_count(bs: BucketModel) -> int
    decreases bs.len(),
{
    if bs.len() == 0 {
        0
    } else {
        bucket_count(bs.drop_last()) + bs.last().1.len()
    }
}

/// Whether some bucket carries the name `ct`.
pub open spec fn has_bucket(bs: BucketModel, ct: Seq<char>) -> bool {
    exists|i: int| 0 <= i < bs.len() && (#[trigger] bs[i]).0 == ct
}

pub open spec fn bucket_idx(bs: BucketModel, ct: Seq<char>) -> int {
    choose|i: int| 0 <= i < bs.len() && (#[trigger] bs[i]).0 == ct
}

/// The buckets after one record lands in the bucket named `ct`; a first
/// record for a feed opens its bucket at the end.
pub open spec fn bucket_insert(bs: BucketModel, ct: Seq<char>, rec: Seq<(Seq<char>, Seq<char>)>) -> BucketModel {
    if has_bucket(bs, ct) {
        let i = bucket_idx(bs, ct);
        bs.update(i, (ct, bs[i].1.push(rec)))
    } else {
        bs.push((ct, seq![rec]))
    }
}

/// A capped per-feed buffer of filtered records, flushed to the sinks when
/// it fills and at end of run.
pub struct OutputCache {
    pub buckets: Vec<(String, Vec<LogRecord>)>,
    pub capacity: usize,
    pub total: usize,
}

impl OutputCache {
    pub open spec fn model(&self) -> BucketModel {
        self.buckets.deep_view()
    }

    pub open spec fn wf(&self) -> bool {
        &&& self.total as int == bucket_count(self.model())
        &&& forall|i: int, j: int|
            0 <= i < j < self.model().len() ==> (#[trigger] self.model()[i]).0 != (
            #[trigger] self.model()[j]).0
    }

    /// An empty cache that flushes at `capacity` records.
    pub fn new(capacity: usize) -> (r: OutputCache)
        ensures
            r.wf(),
            r.model() == Seq::<(Seq<char>, Seq<Seq<(Seq<char>, Seq<char>)>>)>::empty(),
            r.capacity == capacity,
            r.total == 0,
    {
        let r = OutputCache { buckets: Vec::new(), capacity, total: 0 };
        proof {
            assert(r.model() =~= Seq::<(Seq<char>, Seq<Seq<(Seq<char>, Seq<char>)>>)>::empty());
        }
        r
    }

    /// Total records held.
    pub fn size(&self) -> (n: usize)
        ensures
            n == self.total,
    {
        self.total
    }

    /// The cache has reached its flush threshold.
    pub fn full(&self) -> (r: bool)
        ensures
            r == (self.total >= self.capacity),
    {
        self.total >= self.capacity
    }

    /// Appends one record to its feed's bucket.
    pub fn insert(&mut self, rec: LogRecord, content_type: &str)
        requires
            old(self).wf(),
            old(self).total < usize::MAX,
        ensures
            final(self).wf(),
            final(self).model() == bucket_insert(old(self).model(), content_type@, rec@),
            final(self).total == old(self).total + 1,
            final(self).capacity == old(self).capacity,
    {
        let ghost bs = self.model();
        let n = self.buckets.len();
        let mut i: usize = 0;
        while i < n
            invariant
                i <= n,
                n == self.buckets@.len(),
                *self == *old(self),
                bs == self.model(),
                old(self).wf(),
                old(self).total < usize::MAX,
                forall|j: int| 0 <= j < i ==> (#[trigger] bs[j]).0 != content_type@,
            decreases n - i,
        {
            proof {
                assert(bs[i as int].0 == self.buckets@[i as int].0@);
            }
            if crate::config::str_eq(self.buckets[i].0.as_str(), content_type) {
                let ghost rv = rec@;
                let mut entry = self.buckets.remove(i);
                entry.1.push(rec);
                self.buckets.insert(i, entry);
                proof {
                    lemma_bucket_idx_unique_here(bs, content_type@, i as int);
                    assert(self.model() =~~= bs.update(
                        i as int,
                        (bs[i as int].0, bs[i as int].1.push(rv)),
                    ));
                    lemma_bucket_count_update(bs, i as int, rv);
                    assert(bucket_insert(bs, content_type@, rv) == bs.update(
                        i as int,
                        (bs[i as int].0, bs[i as int].1.push(rv)),
                    ));
                    assert(forall|a: int, b: int|
                        0 <= a < b < self.model().len() ==> (#[trigger] self.model()[a]).0 != (
                        #[trigger] self.model()[b]).0);
                }
                self.total = self.total + 1;
                return ;
            }
            i = i + 1;
        }
        assert(!has_bucket(bs, content_type@)) by {
            if has_bucket(bs, content_type@) {
                let j = bucket_idx(bs, content_type@);
                assert(0 <= j < bs.len() && bs[j].0 == content_type@);
            }
        }
        let ghost rv = rec@;
        let mut fresh: Vec<LogRecord> = Vec::new();
        fresh.push(rec);
        self.buckets.push((String::from_str(content_type), fresh));
        proof {
            assert(self.model() =~~= bs.push((content_type@, seq![rv])));
            assert(self.model().drop_last() =~= bs);
        }
        self.total = self.total + 1;
    }

    /// Yields every bucket, emptying the cache.
    pub fn drain_by_type(&mut self) -> (r: Vec<(String, Vec<LogRecord>)>)
        ensures
            r.deep_view() == old(self).model(),
            final(self).model() == Seq::<(Seq<char>, Seq<Seq<(Seq<char>, Seq<char>)>>)>::empty(),
            final(self).wf(),
            final(self).total == 0,
            final(self).capacity == old(self).capacity,
    {
        let mut out: Vec<(String, Vec<LogRecord>)> = Vec::new();
        std::mem::swap(&mut out, &mut self.buckets);
        self.total = 0;
        proof {
            assert(self.model() =~= Seq::<(Seq<char>, Seq<Seq<(Seq<char>, Seq<char>)>>)>::empty());
        }
        out
    }
}

/// With unique bucket names, the bucket found by a scan is the one
/// `bucket_idx` names.
proof fn lemma_bucket_idx_unique_here(bs: BucketModel, ct: Seq<char>, i: int)
    requires
        0 <= i < bs.len(),
        bs[i].0 == ct,
        forall|a: int, b: int|
            0 <= a < b < bs.len() ==> (#[trigger] bs[a]).0 != (#[trigger] bs[b]).0,
    ensures
        has_bucket(bs, ct),
        bucket_idx(bs, ct) == i,
{
    assert(has_bucket(bs, ct));
    let j = bucket_idx(bs, ct);
    assert(0 <= j < bs.len() && bs[j].0 == ct);
    if i < j {
        assert(bs[i].0 != bs[j].0);
    } else if j < i {
        assert(bs[j].0 != bs[i].0);
    }
}

/// One more record in one bucket is one more record in the cache.
proof fn lemma_bucket_count_update(bs: BucketModel, i: int, rec: Seq<(Seq<char>, Seq<char>)>)
    requires
        0 <= i < bs.len(),
    ensures
        bucket_count(bs.update(i, (bs[i].0, bs[i].1.push(rec)))) == bucket_count(bs) + 1,
    decreases bs.len(),
{
    let b2 = bs.update(i, (bs[i].0, bs[i].1.push(rec)));
    if i == bs.len() - 1 {
        assert(b2.drop_last() =~= bs.drop_last());
        assert(b2.last() == (bs[i].0, bs[i].1.push(rec)));
    } else {
        assert(b2.last() == bs.last());
        assert(b2.drop_last() =~= bs.drop_last().update(i, (bs[i].0, bs[i].1.push(rec))));
        lemma_bucket_count_update(bs.drop_last(), i, rec);
    }
}

// ---------------------------------------------------------------------------
// filtering and the synthetic origin field
// ---------------------------------------------------------------------------

pub type FilterModel = Seq<(Seq<char>, Seq<char>)>;

/// The filter configured for the feed `ct`, or no entries at all.
pub open spec fn filters_for(fm: Seq<(Seq<char>, FilterModel)>, ct: Seq<char>) -> FilterModel
    decreases fm.len(),
{
    if fm.len() == 0 {
        Seq::empty()
    } else if fm[0].0 == ct {
        fm[0].1
    } else {
        filters_for(fm.drop_first(), ct)
    }
}

/// A record passes a filter when every filter key it carries holds the
/// expected value.
pub open spec fn passes_filter(rec: Seq<(Seq<char>, Seq<char>)>, filt: FilterModel) -> bool {
    forall|i: int|
        0 <= i < filt.len() ==> match spec_get(rec, (#[trigger] filt[i]).0) {
            Some(v) => v == filt[i].1,
            None => true,
        }
}

/// The record's fields with the synthetic origin appended: the feed name
/// as a JSON string.
pub open spec fn with_origin(rec: Seq<(Seq<char>, Seq<char>)>, ct: Seq<char>) -> Seq<
    (Seq<char>, Seq<char>),
> {
    rec.push(("OriginFeed"@, seq!['"'] + ct + seq!['"']))
}

/// The filter entries configured for the feed `ct`, if any.
fn find_filter<'a>(filters: &'a Vec<(String, Vec<(String, String)>)>, ct: &str) -> (r: Option<
    &'a Vec<(String, String)>,
>)
    ensures
        match r {
            Some(f) => f.deep_view() == filters_for(filters.deep_view(), ct@),
            None => filters_for(filters.deep_view(), ct@) == Seq::<(Seq<char>, Seq<char>)>::empty(),
        },
{
    let ghost fm = filters.deep_view();
    let n = filters.len();
    let mut i: usize = 0;
    proof {
        assert(fm.skip(0) =~= fm);
    }
    while i < n
        invariant
            i <= n,
            n == filters@.len(),
            fm == filters.deep_view(),
            filters_for(fm, ct@) == filters_for(fm.skip(i as int), ct@),
        decreases n - i,
    {
        proof {
            assert(fm.skip(i as int)[0] == fm[i as int]);
            assert(fm[i as int] == (filters@[i as int].0@, filters@[i as int].1.deep_view()));
            assert(fm.skip(i as int).drop_first() =~= fm.skip(i as int + 1));
        }
        if crate::config::str_eq(filters[i].0.as_str(), ct) {
            return Some(&filters[i].1);
        }
        i = i + 1;
    }
    proof {
        assert(fm.skip(n as int) =~= Seq::<(Seq<char>, FilterModel)>::empty());
        assert(filters_for(fm, ct@) =~= Seq::<(Seq<char>, Seq<char>)>::empty());
    }
    None
}

/// Whether `rec` passes the filter entries `filt`.
pub fn check_filters(rec: &LogRecord, filt: &Vec<(String, String)>) -> (r: bool)
    ensures
        r == passes_filter(rec@, filt.deep_view()),
{
    let ghost fm = filt.deep_view();
    let n = filt.len();
    let mut i: usize = 0;
    while i < n
        invariant
            i <= n,
            n == filt@.len(),
            fm == filt.deep_view(),
            forall|j: int|
                0 <= j < i ==> match spec_get(rec@, (#[trigger] fm[j]).0) {
                    Some(v) => v == fm[j].1,
                    None => true,
                },
        decreases n - i,
    {
        proof {
            assert(fm[i as int] == (filt@[i as int].0@, filt@[i as int].1@));
        }
        match rec.get(filt[i].0.as_str()) {
            Some(v) => {
                if !crate::config::str_eq(v.as_str(), filt[i].1.as_str()) {
                    return false;
                }
            },
            None => {},
        }
        i = i + 1;
    }
    true
}

// ---------------------------------------------------------------------------
// parsing a blob body, relying on serde_json
// ---------------------------------------------------------------------------

/// What a blob body holds: the records of the JSON array of objects the
/// text denotes, each value as its JSON text — a function of the text
/// alone — or nothing when the text is no such array.
pub uninterp spec fn parse_logs_of(s: Seq<char>) -> Option<Seq<Seq<(Seq<char>, Seq<char>)>>>;

/// Relies on `serde_json::from_str` and `serde_json::Value::to_string`:
/// reads the body as a JSON array of objects and renders each field value
/// back to its JSON text.
#[verifier::external_body]
fn parse_log_array(body: &str) -> (r: Option<Vec<LogRecord>>)
    ensures
        match r {
            Some(recs) => parse_logs_of(body@) == Some(recs.deep_view()),
            None => parse_logs_of(body@) is None,
        },
{
    match serde_json::from_str::<Vec<serde_json::Map<String, serde_json::Value>>>(body) {
        Ok(list) => Some(
            list.into_iter().map(
                |m| LogRecord {
                    fields: m.into_iter().map(|(k, v)| (k, v.to_string())).collect(),
                },
            ).collect(),
        ),
        Err(_) => None,
    }
}

// ---------------------------------------------------------------------------
// the per-tenant collector core
// ---------------------------------------------------------------------------

/// One tenant's in-run state: its filters, the output cache, the
/// known-blobs cache, and the count of records saved.
pub struct Collector {
    pub filters: Vec<(String, Vec<(String, String)>)>,
    pub cache: OutputCache,
    pub known_blobs: KnownBlobsCache,
    pub saved: u64,
}

/// One record's effect: dropped by its feed's filter, or appended to its
/// feed's bucket with the origin field; a full cache is flushed whole.
pub open spec fn spec_handle_log(
    c: BucketModel,
    saved: int,
    rec: Seq<(Seq<char>, Seq<char>)>,
    ct: Seq<char>,
    filt: FilterModel,
    cap: int,
) -> (BucketModel, int, Option<BucketModel>) {
    if passes_filter(rec, filt) {
        let c2 = bucket_insert(c, ct, with_origin(rec, ct));
        if bucket_count(c2) >= cap {
            (Seq::empty(), saved + 1, Some(c2))
        } else {
            (c2, saved + 1, None)
        }
    } else {
        (c, saved, None)
    }
}

/// A body's records consumed in order, collecting the flushes.
pub open spec fn spec_process(
    c: BucketModel,
    saved: int,
    recs: Seq<Seq<(Seq<char>, Seq<char>)>>,
    ct: Seq<char>,
    filt: FilterModel,
    cap: int,
) -> (BucketModel, int, Seq<BucketModel>)
    decreases recs.len(),
{
    if recs.len() == 0 {
        (c, saved, Seq::empty())
    } else {
        let (c2, s2, fl) = spec_handle_log(c, saved, recs[0], ct, filt, cap);
        let (cf, sf, flr) = spec_process(c2, s2, recs.drop_first(), ct, filt, cap);
        match fl {
            Some(b) => (cf, sf, seq![b] + flr),
            None => (cf, sf, flr),
        }
    }
}

impl Collector {
    pub open spec fn wf(&self) -> bool {
        &&& self.cache.wf()
        &&& self.known_blobs.wf()
    }

    /// A collector with the given filters, output capacity, and loaded
    /// known-blobs cache.
    pub fn new(
        filters: Vec<(String, Vec<(String, String)>)>,
        cache_size: usize,
        known_blobs: KnownBlobsCache,
    ) -> (r: Collector)
        requires
            known_blobs.wf(),
        ensures
            r.wf(),
            r.filters == filters,
            r.cache.model() == Seq::<(Seq<char>, Seq<Seq<(Seq<char>, Seq<char>)>>)>::empty(),
            r.cache.capacity == cache_size,
            r.known_blobs == known_blobs,
            r.saved == 0,
    {
        Collector { filters, cache: OutputCache::new(cache_size), known_blobs, saved: 0 }
    }

    /// Applies its feed's filter to one record, stamps the origin field,
    /// and buffers it; a full buffer is handed back for emission.
    pub fn handle_log(&mut self, log: LogRecord, content_type: &str) -> (flushed: Option<
        OutputCache,
    >)
        requires
            old(self).wf(),
            old(self).saved < u64::MAX,
            old(self).cache.total < usize::MAX,
        ensures
            final(self).wf(),
            final(self).known_blobs == old(self).known_blobs,
            final(self).filters == old(self).filters,
            final(self).cache.capacity == old(self).cache.capacity,
            final(self).cache.total <= old(self).cache.total + 1,
            ({
                let (c2, s2, fl) = spec_handle_log(
                    old(self).cache.model(),
                    old(self).saved as int,
                    log@,
                    content_type@,
                    filters_for(old(self).filters.deep_view(), content_type@),
                    old(self).cache.capacity as int,
                );
                &&& final(self).cache.model() == c2
                &&& final(self).saved as int == s2
                &&& match flushed {
                    Some(f) => fl == Some(f.model()) && f.wf() && f.capacity == old(self).cache.capacity,
                    None => fl is None,
                }
            }),
    {
        let ghost fm = self.filters.deep_view();
        let ghost filt = filters_for(fm, content_type@);
        let passes = match find_filter(&self.filters, content_type) {
            Some(f) => check_filters(&log, f),
            None => true,
        };
        if !passes {
            return None;
        }
        assert(passes_filter(log@, filt));
        // stamp the origin and buffer the record
        let mut log2 = log;
        let mut quoted = String::from_str("\"");
        quoted.append(content_type);
        quoted.append("\"");
        proof {
            reveal_strlit("\"");
            assert(quoted@ =~= seq!['"'] + content_type@ + seq!['"']);
        }
        log2.push_field(String::from_str("OriginFeed"), quoted);
        assert(log2@ == with_origin(log@, content_type@));
        self.cache.insert(log2, content_type);
        self.saved = self.saved + 1;
        if self.cache.full() {
            let mut fresh = OutputCache::new(self.cache.capacity);
            std::mem::swap(&mut fresh, &mut self.cache);
            Some(fresh)
        } else {
            None
        }
    }

    /// Consumes one fetched blob at the instant `now`: records the blob as
    /// known whatever its body holds, then reads the body as records and
    /// buffers what the filters pass. Returns how many records the body
    /// held and the buffers flushed along the way — or nothing in the
    /// degenerate case that the run's counters could not take the body's
    /// records, which are then dropped.
    pub fn handle_content_at(&mut self, body: &str, blob: &ContentBlob, now: i64) -> (r: Option<
        (u64, Vec<OutputCache>),
    >)
        requires
            old(self).wf(),
        ensures
            final(self).wf(),
            final(self).filters == old(self).filters,
            final(self).cache.capacity == old(self).cache.capacity,
            // the blob is remembered even when its body is unreadable
            final(self).known_blobs.wf() && final(self).known_blobs.capacity() == old(self).known_blobs.capacity(),
            accepts(blob.expiration@, now as int) ==> spec_known(
                final(self).known_blobs.entries(),
                blob.content_id@,
                now as int,
            ),
            !accepts(blob.expiration@, now as int) ==> final(self).known_blobs.entries() == old(self).known_blobs.entries(),
            // the records land as the fold says
            ({
                match parse_logs_of(body@) {
                    Some(recs) => {
                        let (cf, sf, fl) = spec_process(
                            old(self).cache.model(),
                            old(self).saved as int,
                            recs,
                            blob.content_type@,
                            filters_for(old(self).filters.deep_view(), blob.content_type@),
                            old(self).cache.capacity as int,
                        );
                        if old(self).saved as int + recs.len() < u64::MAX && old(self).cache.total as int + recs.len() < usize::MAX {
                            match r {
                                Some(out) => {
                                    &&& out.0 == recs.len()
                                    &&& final(self).cache.model() == cf
                                    &&& final(self).saved as int == sf
                                    &&& out.1@.len() == fl.len()
                                    &&& forall|i: int|
                                        0 <= i < fl.len() ==> (#[trigger] out.1@[i]).model()
                                            == fl[i] && out.1@[i].wf()
                                },
                                None => false,
                            }
                        } else {
                            r is None && final(self).cache.model() == old(self).cache.model()
                                && final(self).saved == old(self).saved
                        }
                    },
                    None => (r matches Some(out) && out.0 == 0 && out.1@.len() == 0) && final(self).cache.model() == old(self).cache.model() && final(self).saved == old(self).saved,
                }
            }),
    {
        self.known_blobs.insert_at(blob.content_id.clone(), blob.expiration.as_str(), now);
        match parse_log_array(body) {
            Some(recs) => {
                let n = recs.len();
                if (n as u64) < u64::MAX - self.saved && n < usize::MAX - self.cache.total {
                    Some(self.process_records(recs, blob.content_type.as_str()))
                } else {
                    None
                }
            },
            None => {
                let flushes: Vec<OutputCache> = Vec::new();
                proof {
                    assert(flushes@.len() == 0);
                }
                Some((0, flushes))
            },
        }
    }

    /// Buffers a body's records in order, collecting the flushes.
    fn process_records(&mut self, recs: Vec<LogRecord>, content_type: &str) -> (r: (
        u64,
        Vec<OutputCache>,
    ))
        requires
            old(self).wf(),
            old(self).saved as int + recs.deep_view().len() < u64::MAX,
            old(self).cache.total as int + recs.deep_view().len() < usize::MAX,
        ensures
            final(self).wf(),
            final(self).filters == old(self).filters,
            final(self).known_blobs == old(self).known_blobs,
            final(self).cache.capacity == old(self).cache.capacity,
            ({
                let (cf, sf, fl) = spec_process(
                    old(self).cache.model(),
                    old(self).saved as int,
                    recs.deep_view(),
                    content_type@,
                    filters_for(old(self).filters.deep_view(), content_type@),
                    old(self).cache.capacity as int,
                );
                &&& r.0 == recs.deep_view().len()
                &&& final(self).cache.model() == cf
                &&& final(self).saved as int == sf
                &&& r.1@.len() == fl.len()
                &&& forall|i: int|
                    0 <= i < fl.len() ==> (#[trigger] r.1@[i]).model() == fl[i] && r.1@[i].wf()
            }),
    {
        let ghost all = recs.deep_view();
        let ghost filt = filters_for(old(self).filters.deep_view(), content_type@);
        let ghost cap = old(self).cache.capacity as int;
        let mut flushes: Vec<OutputCache> = Vec::new();
        let n = recs.len();
        let mut recs = recs;
        let mut k: usize = 0;
        proof {
            assert(all.skip(0) =~= all);
        }
        // consume the records front to back
        while k < n
            invariant
                k <= n,
                n == all.len(),
                recs.deep_view() == all.skip(k as int),
                recs@.len() == n - k,
                self.wf(),
                self.filters == old(self).filters,
                self.known_blobs == old(self).known_blobs,
                self.cache.capacity == old(self).cache.capacity,
                self.saved as int + (all.len() - k) < u64::MAX,
                self.cache.total as int + (all.len() - k) < usize::MAX,
                ({
                    let (cf, sf, fl) = spec_process(
                        old(self).cache.model(),
                        old(self).saved as int,
                        all,
                        content_type@,
                        filt,
                        cap,
                    );
                    let (rc, rs, rfl) = spec_process(
                        self.cache.model(),
                        self.saved as int,
                        all.skip(k as int),
                        content_type@,
                        filt,
                        cap,
                    );
                    &&& cf == rc
                    &&& sf == rs
                    &&& fl == flushes@.map_values(|f: OutputCache| f.model()) + rfl
                }),
                forall|i: int|
                    0 <= i < flushes@.len() ==> (#[trigger] flushes@[i]).wf(),
                filt == filters_for(old(self).filters.deep_view(), content_type@),
                cap == old(self).cache.capacity as int,
            decreases n - k,
        {
            let ghost pre_cache = self.cache.model();
            let ghost pre_saved = self.saved as int;
            let ghost rest = all.skip(k as int);
            proof {
                assert(rest[0] == all[k as int]);
                assert(rest.drop_first() =~= all.skip(k as int + 1));
                assert(recs.deep_view()[0] == all[k as int]);
            }
            let rec = recs.remove(0);
            proof {
                assert(rec@ == all[k as int]);
                assert(recs.deep_view() =~= all.skip(k as int + 1));
            }
            let flushed = self.handle_log(rec, content_type);
            match flushed {
                Some(f) => {
                    flushes.push(f);
                    proof {
                        assert(flushes@.map_values(|f: OutputCache| f.model()).drop_last()
                            =~= flushes@.drop_last().map_values(|f: OutputCache| f.model()));
                    }
                },
                None => {},
            }
            proof {
                let (cf, sf, fl) = spec_process(pre_cache, pre_saved, rest, content_type@, filt, cap);
                assert(flushes@.map_values(|f: OutputCache| f.model())
                    + spec_process(
                    self.cache.model(),
                    self.saved as int,
                    all.skip(k as int + 1),
                    content_type@,
                    filt,
                    cap,
                ).2 =~= old_flush_model(old(self), all, content_type@, filt, cap));
            }
            k = k + 1;
        }
        proof {
            assert(all.skip(n as int) =~= Seq::<Seq<(Seq<char>, Seq<char>)>>::empty());
            assert(flushes@.map_values(|f: OutputCache| f.model()) + Seq::<
                BucketModel,
            >::empty() =~= flushes@.map_values(|f: OutputCache| f.model()));
        }
        (n as u64, flushes)
    }
}

/// The flushes the whole fold yields.
pub open spec fn old_flush_model(
    c: &Collector,
    all: Seq<Seq<(Seq<char>, Seq<char>)>>,
    ct: Seq<char>,
    filt: FilterModel,
    cap: int,
) -> Seq<BucketModel> {
    spec_process(c.cache.model(), c.saved as int, all, ct, filt, cap).2
}

// ---------------------------------------------------------------------------
// discovery: deduplication against the known-blobs cache
// ---------------------------------------------------------------------------

pub type BlobModel = (Seq<char>, Seq<char>, Seq<char>, Seq<char>);

/// Which page entries the discoverer forwards: each id is probed in turn,
/// and only ids the cache does not know pass. Yields the keep flags and
/// the probed cache.
pub open spec fn spec_select(es: Entries, ids: Seq<Seq<char>>, now: int) -> (Seq<bool>, Entries)
    decreases ids.len(),
{
    if ids.len() == 0 {
        (Seq::empty(), es)
    } else {
        let known = spec_known(es, ids[0], now);
        let es2 = crate::known_blobs::contains_after(es, ids[0], now);
        let (flags, ef) = spec_select(es2, ids.drop_first(), now);
        (seq![!known] + flags, ef)
    }
}

/// The blobs whose flag keeps them, in order.
pub open spec fn spec_kept(blobs: Seq<BlobModel>, flags: Seq<bool>) -> Seq<BlobModel>
    decreases blobs.len(),
{
    if blobs.len() == 0 || flags.len() == 0 {
        Seq::empty()
    } else if flags[0] {
        seq![blobs[0]] + spec_kept(blobs.drop_first(), flags.drop_first())
    } else {
        spec_kept(blobs.drop_first(), flags.drop_first())
    }
}

pub open spec fn blob_ids(blobs: Seq<BlobModel>) -> Seq<Seq<char>> {
    blobs.map_values(|b: BlobModel| b.0)
}

/// The page entries not known to the cache at the instant `now`, probed
/// in order; probing touches recency and drops entries found expired.
pub fn select_new_blobs(cache: &mut KnownBlobsCache, blobs: &Vec<ContentBlob>, now: i64) -> (r:
    Vec<ContentBlob>)
    requires
        old(cache).wf(),
    ensures
        final(cache).wf(),
        final(cache).capacity() == old(cache).capacity(),
        ({
            let models = blobs@.map_values(|b: ContentBlob| b.model());
            let (flags, ef) = spec_select(old(cache).entries(), blob_ids(models), now as int);
            &&& final(cache).entries() == ef
            &&& r@.map_values(|b: ContentBlob| b.model()) == spec_kept(models, flags)
        }),
{
    let ghost models = blobs@.map_values(|b: ContentBlob| b.model());
    let ghost es0 = old(cache).entries();
    let n = blobs.len();
    let mut out: Vec<ContentBlob> = Vec::new();
    let mut i: usize = 0;
    proof {
        assert(blob_ids(models).skip(0) =~= blob_ids(models));
        assert(models.skip(0) =~= models);
        assert(out@.map_values(|b: ContentBlob| b.model()) =~= Seq::<BlobModel>::empty());
        let (flags, ef) = spec_select(es0, blob_ids(models), now as int);
        assert(out@.map_values(|b: ContentBlob| b.model()) + spec_kept(models, flags)
            =~= spec_kept(models, flags));
    }
    while i < n
        invariant
            i <= n,
            n == blobs@.len(),
            models == blobs@.map_values(|b: ContentBlob| b.model()),
            cache.wf(),
            cache.capacity() == old(cache).capacity(),
            ({
                let (flags, ef) = spec_select(es0, blob_ids(models), now as int);
                let (rflags, ref2) = spec_select(
                    cache.entries(),
                    blob_ids(models).skip(i as int),
                    now as int,
                );
                &&& ef == ref2
                &&& spec_kept(models, flags) == out@.map_values(|b: ContentBlob| b.model())
                    + spec_kept(models.skip(i as int), rflags)
            }),
            es0 == old(cache).entries(),
        decreases n - i,
    {
        let ghost ids_rest = blob_ids(models).skip(i as int);
        let ghost models_rest = models.skip(i as int);
        let ghost pre_es = cache.entries();
        let ghost pre_out = out@.map_values(|b: ContentBlob| b.model());
        proof {
            assert(ids_rest[0] == models[i as int].0);
            assert(models[i as int] == blobs@[i as int].model());
            assert(ids_rest.drop_first() =~= blob_ids(models).skip(i as int + 1));
            assert(models_rest[0] == models[i as int]);
            assert(models_rest.drop_first() =~= models.skip(i as int + 1));
        }
        let known = cache.contains_at(blobs[i].content_id.as_str(), now);
        if !known {
            let b = &blobs[i];
            let copy = ContentBlob {
                content_id: b.content_id.clone(),
                content_type: b.content_type.clone(),
                url: b.url.clone(),
                expiration: b.expiration.clone(),
            };
            proof {
                assert(copy.model() == blobs@[i as int].model());
            }
            out.push(copy);
        }
        proof {
            let (rflags, ef_old) = spec_select(pre_es, ids_rest, now as int);
            let (rflags2, ef_new) = spec_select(
                cache.entries(),
                ids_rest.drop_first(),
                now as int,
            );
            assert(rflags == seq![!known] + rflags2);
            assert(ef_old == ef_new);
            assert(rflags[0] == !known && rflags.drop_first() =~= rflags2);
            if !known {
                assert(spec_kept(models_rest, rflags) == seq![models_rest[0]] + spec_kept(
                    models_rest.drop_first(),
                    rflags2,
                ));
                assert(out@.map_values(|b: ContentBlob| b.model()) =~= pre_out.push(
                    models[i as int],
                ));
                assert(pre_out + spec_kept(models_rest, rflags) =~= out@.map_values(
                    |b: ContentBlob| b.model(),
                ) + spec_kept(models.skip(i as int + 1), rflags2));
            } else {
                assert(spec_kept(models_rest, rflags) == spec_kept(
                    models_rest.drop_first(),
                    rflags2,
                ));
                assert(pre_out + spec_kept(models_rest, rflags) =~= out@.map_values(
                    |b: ContentBlob| b.model(),
                ) + spec_kept(models.skip(i as int + 1), rflags2));
            }
        }
        i = i + 1;
    }
    proof {
        assert(blob_ids(models).skip(n as int) =~= Seq::<Seq<char>>::empty());
        assert(models.skip(n as int) =~= Seq::<BlobModel>::empty());
        let (flags, ef) = spec_select(es0, blob_ids(models), now as int);
        assert(spec_kept(models, flags) =~= out@.map_values(|b: ContentBlob| b.model()));
    }
    out
}

/// A probe for one id leaves every other id's knowledge alone, and a
/// probe for a known id keeps it known.
proof fn lemma_probe_preserves_known(es: Entries, probed: Seq<char>, id: Seq<char>, now: int)
    requires
        crate::lru_store::uniq_keys(es),
        spec_known(es, id, now),
    ensures
        spec_known(crate::known_blobs::contains_after(es, probed, now), id, now),
        crate::lru_store::uniq_keys(crate::known_blobs::contains_after(es, probed, now)),
    decreases es.len(),
{
    let after = crate::known_blobs::contains_after(es, probed, now);
    crate::lru_store::lemma_remove_key(es, probed);
    if spec_known(es, probed, now) {
        // the probed entry is promoted
        let v = crate::lru_store::value_of(es, probed);
        crate::lru_store::lemma_key_idx(es, probed);
        let rest = remove_key(es, probed);
        assert(after == seq![(probed, v)] + rest);
        assert(crate::lru_store::uniq_keys(after)) by {
            crate::known_blobs::lemma_promote_wf_keys(es, probed);
        }
        if id == probed {
            crate::lru_store::lemma_key_idx_unique(after, id, 0);
        } else {
            let j = crate::lru_store::key_idx(rest, id);
            crate::lru_store::lemma_key_idx(rest, id);
            assert(after[j + 1] == rest[j]);
            crate::lru_store::lemma_key_idx_unique(after, id, j + 1);
        }
    } else if has_key(es, probed) {
        // the probed entry was expired and is dropped; it is not `id`
        assert(id != probed) by {
            if id == probed {
                assert(spec_known(es, probed, now));
            }
        }
        assert(has_key(after, id) && crate::lru_store::value_of(after, id)
            == crate::lru_store::value_of(es, id));
    } else {
    }
}

/// The selection yields one flag per id.
pub proof fn lemma_select_len(es: Entries, ids: Seq<Seq<char>>, now: int)
    ensures
        spec_select(es, ids, now).0.len() == ids.len(),
    decreases ids.len(),
{
    if ids.len() > 0 {
        let es2 = crate::known_blobs::contains_after(es, ids[0], now);
        lemma_select_len(es2, ids.drop_first(), now);
    }
}

/// A blob whose id the cache knows when its page is walked is never
/// forwarded to the fetcher: its keep flag is off, whichever entries are
/// probed around it.
pub proof fn lemma_known_blob_not_fetched(es: Entries, ids: Seq<Seq<char>>, now: int, i: int)
    requires
        crate::lru_store::uniq_keys(es),
        0 <= i < ids.len(),
        spec_known(es, ids[i], now),
    ensures
        spec_select(es, ids, now).0[i] == false,
    decreases ids.len(),
{
    let es2 = crate::known_blobs::contains_after(es, ids[0], now);
    if i == 0 {
    } else {
        lemma_probe_preserves_known(es, ids[0], ids[i], now);
        assert(ids.drop_first()[i - 1] == ids[i]);
        lemma_known_blob_not_fetched(es2, ids.drop_first(), now, i - 1);
        let k0 = spec_known(es, ids[0], now);
        let f_rest = spec_select(es2, ids.drop_first(), now).0;
        lemma_select_len(es2, ids.drop_first(), now);
        assert(spec_select(es, ids, now).0 == seq![!k0] + f_rest);
        assert((seq![!k0] + f_rest)[i] == f_rest[i - 1]);
    }
}

// ---------------------------------------------------------------------------
// the monitor loop's remaining verdicts
// ---------------------------------------------------------------------------

/// Decimal rendering of a count.
pub open spec fn spec_dec_str(v: int) -> Seq<char>
    decreases v,
{
    if v < 10 {
        seq![crate::timefmt::digit_char(v)]
    } else {
        spec_dec_str(v / 10) + seq![crate::timefmt::digit_char(v % 10)]
    }
}

/// Renders a count in decimal.
pub fn u64_to_string(v: u64) -> (r: String)
    ensures
        r@ == spec_dec_str(v as int),
    decreases v,
{
    proof {
        vstd::arithmetic::div_mod::lemma_fundamental_div_mod(v as int, 10);
        vstd::arithmetic::div_mod::lemma_mod_division_less_than_divisor(v as int, 10);
        vstd::arithmetic::div_mod::lemma_div_pos_is_pos(v as int, 10);
    }
    if v < 10 {
        let mut out = String::new();
        out.append(crate::timefmt::digit_str(v));
        proof {
            assert(out@ =~= spec_dec_str(v as int));
        }
        out
    } else {
        proof {
            assert(v as int / 10 < v as int) by {
                vstd::arithmetic::div_mod::lemma_div_is_strictly_smaller(v as int, 10);
            }
        }
        let mut out = u64_to_string(v / 10);
        out.append(crate::timefmt::digit_str(v % 10));
        proof {
            assert(out@ =~= spec_dec_str(v as int));
        }
        out
    }
}

/// The end-of-run report.
pub open spec fn spec_output_string(
    found: int,
    successful: int,
    failed: int,
    retried: int,
    saved: int,
) -> Seq<char> {
    "Done!||\nBlobs found: "@ + spec_dec_str(found) + "||\nBlobs successful: "@ + spec_dec_str(
        successful,
    ) + "||\nBlobs failed: "@ + spec_dec_str(failed) + "||\nBlobs retried: "@ + spec_dec_str(
        retried,
    ) + "||\nLogs saved: "@ + spec_dec_str(saved)
}

impl Collector {
    /// Renders the end-of-run report.
    pub fn get_output_string(
        &self,
        found: u64,
        successful: u64,
        failed: u64,
        retried: u64,
        saved: u64,
    ) -> (r: String)
        ensures
            r@ == spec_output_string(
                found as int,
                successful as int,
                failed as int,
                retried as int,
                saved as int,
            ),
    {
        let mut out = String::from_str("Done!||\nBlobs found: ");
        out.append(u64_to_string(found).as_str());
        out.append("||\nBlobs successful: ");
        out.append(u64_to_string(successful).as_str());
        out.append("||\nBlobs failed: ");
        out.append(u64_to_string(failed).as_str());
        out.append("||\nBlobs retried: ");
        out.append(u64_to_string(retried).as_str());
        out.append("||\nLogs saved: ");
        out.append(u64_to_string(saved).as_str());
        out
    }
}

/// Whether the run's global timeout has fired: a zero setting never
/// fires.
pub fn global_timeout_expired(elapsed_secs: u64, timeout_minutes: u64) -> (r: bool)
    ensures
        r == (timeout_minutes > 0 && elapsed_secs as int / 60 >= timeout_minutes as int),
{
    timeout_minutes > 0 && elapsed_secs / 60 >= timeout_minutes
}

/// The run settings drawn from the configuration, with their defaults:
/// output-cache size, worker bound, global timeout in minutes, retries,
/// and the duplicate multiplier.
pub fn collector_settings(config: &crate::config::Config) -> (r: (usize, usize, u64, u64, usize))
    ensures
        r.0 == match config.collect {
            Some(ref c) => match c.cache_size {
                Some(v) => v,
                None => 500000usize,
            },
            None => 500000usize,
        },
        r.1 == match config.collect {
            Some(ref c) => match c.max_threads {
                Some(v) => v,
                None => 50usize,
            },
            None => 50usize,
        },
        r.2 as int == match config.collect {
            Some(ref c) => match c.global_timeout {
                Some(v) => v as int,
                None => 30,
            },
            None => 30,
        },
        r.3 as int == match config.collect {
            Some(ref c) => match c.retries {
                Some(v) => if v as int > 0x7fffffffffffffff {
                    0x7fffffffffffffffint
                } else {
                    v as int
                },
                None => 3,
            },
            None => 3,
        },
        r.4 == match config.collect {
            Some(ref c) => match c.duplicate {
                Some(v) => v,
                None => 1usize,
            },
            None => 1usize,
        },
{
    match config.collect {
        Some(ref c) => {
            let cache_size: usize = match c.cache_size {
                Some(v) => v,
                None => 500000,
            };
            let max_threads: usize = match c.max_threads {
                Some(v) => v,
                None => 50,
            };
            let timeout: u64 = match c.global_timeout {
                Some(v) => v as u64,
                None => 30,
            };
            let retries: u64 = match c.retries {
                Some(v) => {
                    let vv = v as u64;
                    if vv > 0x7fffffffffffffffu64 {
                        0x7fffffffffffffffu64
                    } else {
                        vv
                    }
                },
                None => 3,
            };
            let duplicate: usize = match c.duplicate {
                Some(v) => v,
                None => 1,
            };
            (cache_size, max_threads, timeout, retries, duplicate)
        },
        None => (500000, 50, 30, 3, 1),
    }
}

} // verus!
