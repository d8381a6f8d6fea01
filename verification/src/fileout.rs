//! The file sink's bookkeeping: where each feed's records go, and the
//! column helpers for heterogeneous records.
//!
//! The writes themselves live in the surrounding application; everything
//! that names files or shapes rows is here.

use vstd::prelude::*;
use vstd::string::{StrSliceExecFns, StringExecFns};
use crate::clock::now_millis;
use crate::collector::{LogRecord, spec_get};
use crate::config::Config;
use crate::timefmt::{MAX_TS_MILLIS, format_timestamp_compact, spec_format_compact};

verus! {

/// The index after the last `/`, or zero when there is none: where the
/// file name of a path starts.
pub open spec fn file_name_start(s: Seq<char>) -> int
    decreases s.len(),
{
    if s.len() == 0 {
        0
    } else if s.last() == '/' {
        s.len() as int
    } else {
        file_name_start(s.drop_last())
    }
}

/// The per-feed file of a feed named `ct`, beside the configured path:
/// the feed's name without its dots, with a `json` ending.
pub open spec fn spec_feed_path(configured: Seq<char>, ct: Seq<char>) -> Seq<char> {
    let dir = configured.take(file_name_start(configured));
    dir + ct.filter(|c: char| c != '.') + ".json"@
}

/// Drops every dot from a feed name.
fn strip_dots(s: &str) -> (r: String)
    ensures
        r@ == s@.filter(|c: char| c != '.'),
{
    let ghost pred = |c: char| c != '.';
    let n = s.unicode_len();
    let mut out = String::new();
    let mut seg: usize = 0;
    let mut i: usize = 0;
    proof {
        reveal(Seq::filter);
        assert(out@ =~= s@.take(0).filter(pred));
    }
    while i < n
        invariant
            seg <= i <= n,
            n == s@.len(),
            forall|q: int| seg <= q < i ==> (#[trigger] s@[q]) != '.',
            out@ + s@.subrange(seg as int, i as int) =~= s@.take(i as int).filter(
                |c: char| c != '.',
            ),
        decreases n - i,
    {
        let c = s.get_char(i);
        proof {
            reveal(Seq::filter);
            assert(s@.take(i as int + 1).drop_last() =~= s@.take(i as int));
            assert(s@.take(i as int + 1).last() == s@[i as int]);
        }
        if c == '.' {
            out.append(s.substring_char(seg, i));
            proof {
                assert(out@ + s@.subrange(i as int + 1, i as int + 1) =~= s@.take(
                    i as int + 1,
                ).filter(|c: char| c != '.'));
            }
            seg = i + 1;
        } else {
            proof {
                assert(s@.subrange(seg as int, i as int + 1) =~= s@.subrange(
                    seg as int,
                    i as int,
                ).push(s@[i as int]));
                assert(out@ + s@.subrange(seg as int, i as int + 1) =~= s@.take(
                    i as int + 1,
                ).filter(|c: char| c != '.'));
            }
        }
        i = i + 1;
    }
    out.append(s.substring_char(seg, n));
    proof {
        assert(s@.take(n as int) =~= s@);
        assert(out@ =~= s@.filter(|c: char| c != '.'));
    }
    out
}

/// The sink that writes records to files, one JSON object per line: the
/// configuration it was built from, the per-feed files when feeds are
/// separated, and the instant it was built at.
pub struct FileInterface {
    pub config: Config,
    pub paths: Vec<(String, String)>,
    pub postfix: String,
}

impl FileInterface {
    /// Whether each feed goes to its own file.
    pub open spec fn spec_separated(config: &Config) -> bool {
        match config.output.file {
            Some(ref f) => f.separate_by_content_type == Some(true),
            None => false,
        }
    }

    /// Whether each feed goes to its own file.
    pub fn separate_by_content_type(&self) -> (r: bool)
        requires
            self.config.output.file is Some,
        ensures
            r == Self::spec_separated(&self.config),
    {
        match self.config.output.file {
            Some(ref f) => f.separate_by_content_type == Some(true),
            None => false,
        }
    }

    /// Builds the sink: separated feeds each get their file beside the
    /// configured path.
    pub fn new(config: Config) -> (r: FileInterface)
        requires
            config.output.file is Some,
        ensures
            r.config == config,
            exists|now: int| 0 <= now <= MAX_TS_MILLIS && r.postfix@ == spec_format_compact(now),
            !Self::spec_separated(&config) ==> r.paths@.len() == 0,
            Self::spec_separated(&config) ==> ({
                let subs = crate::config::spec_subscriptions(&config);
                let configured = config.output.file->Some_0.path@;
                &&& r.paths@.len() == subs.len()
                &&& forall|i: int|
                    0 <= i < subs.len() ==> (#[trigger] r.paths@[i]).0@ == subs[i]
                        && r.paths@[i].1@ == spec_feed_path(configured, subs[i])
            }),
    {
        let now_raw = now_millis();
        let now: i64 = if now_raw < 0 {
            0
        } else if now_raw > MAX_TS_MILLIS {
            MAX_TS_MILLIS
        } else {
            now_raw
        };
        let postfix = format_timestamp_compact(now);
        let mut interface = FileInterface { config, paths: Vec::new(), postfix };
        if interface.separate_by_content_type() {
            interface.create_content_type_paths();
        }
        interface
    }

    /// Fills the per-feed file table from the configured path and the
    /// subscriptions.
    pub fn create_content_type_paths(&mut self)
        requires
            old(self).config.output.file is Some,
        ensures
            final(self).config == old(self).config,
            final(self).postfix == old(self).postfix,
            ({
                let subs = crate::config::spec_subscriptions(&old(self).config);
                let configured = old(self).config.output.file->Some_0.path@;
                &&& final(self).paths@.len() == subs.len()
                &&& forall|i: int|
                    0 <= i < subs.len() ==> (#[trigger] final(self).paths@[i]).0@ == subs[i]
                        && final(self).paths@[i].1@ == spec_feed_path(configured, subs[i])
            }),
    {
        proof {
            reveal_strlit(".json");
        }
        let ghost subs_spec = crate::config::spec_subscriptions(&self.config);
        let configured: String = match self.config.output.file {
            Some(ref f) => f.path.clone(),
            None => String::new(),
        };
        // the directory part of the configured path
        let cn = configured.as_str().unicode_len();
        let mut cut: usize = cn;
        while cut > 0 && !(configured.as_str().get_char(cut - 1) == '/')
            invariant
                cut <= cn,
                cn == configured@.len(),
                forall|q: int| cut <= q < cn ==> configured@[q] != '/',
            decreases cut,
        {
            cut = cut - 1;
        }
        proof {
            lemma_file_name_start(configured@, cut as int);
        }
        let subs = self.config.get_subscriptions();
        let mut paths: Vec<(String, String)> = Vec::new();
        let mut i: usize = 0;
        while i < subs.len()
            invariant
                i <= subs@.len(),
                subs.deep_view() == subs_spec,
                cut <= cn,
                cn == configured@.len(),
                cut as int == file_name_start(configured@),
                paths@.len() == i,
                forall|j: int|
                    0 <= j < i ==> (#[trigger] paths@[j]).0@ == subs_spec[j] && paths@[j].1@
                        == spec_feed_path(configured@, subs_spec[j]),
            decreases subs@.len() - i,
        {
            proof {
                assert(subs@[i as int]@ == subs.deep_view()[i as int]);
            }
            let mut file = configured.as_str().substring_char(0, cut).to_owned();
            file.append(strip_dots(subs[i].as_str()).as_str());
            file.append(".json");
            proof {
                assert(".json"@ =~= spec_feed_path(configured@, subs_spec[i as int]).skip(
                    file_name_start(configured@) + subs_spec[i as int].filter(
                        |c: char| c != '.',
                    ).len(),
                ));
                assert(file@ =~= spec_feed_path(configured@, subs_spec[i as int]));
            }
            paths.push((subs[i].clone(), file));
            i = i + 1;
        }
        self.paths = paths;
    }
}

/// A scan that stopped at the last `/` found where the file name starts.
proof fn lemma_file_name_start(s: Seq<char>, cut: int)
    requires
        0 <= cut <= s.len(),
        forall|q: int| cut <= q < s.len() ==> s[q] != '/',
        cut > 0 ==> s[cut - 1] == '/',
    ensures
        file_name_start(s) == cut,
    decreases s.len(),
{
    if s.len() > 0 {
        if s.last() == '/' {
            assert(cut == s.len());
        } else {
            assert(cut < s.len() || s[cut - 1] != '/' || cut <= s.len() - 1);
            lemma_file_name_start(s.drop_last(), cut);
        }
    }
}

/// Every field name that occurs in a batch of records, first occurrence
/// first.
pub open spec fn spec_columns(recs: Seq<Seq<(Seq<char>, Seq<char>)>>, acc: Seq<Seq<char>>) -> Seq<
    Seq<char>,
>
    decreases recs.len(),
{
    if recs.len() == 0 {
        acc
    } else {
        spec_columns(recs.drop_first(), spec_add_cols(acc, recs[0]))
    }
}

/// `acc` extended by the names of `fields` it does not yet hold.
pub open spec fn spec_add_cols(acc: Seq<Seq<char>>, fields: Seq<(Seq<char>, Seq<char>)>) -> Seq<
    Seq<char>,
>
    decreases fields.len(),
{
    if fields.len() == 0 {
        acc
    } else {
        let acc2 = if acc.contains(fields[0].0) {
            acc
        } else {
            acc.push(fields[0].0)
        };
        spec_add_cols(acc2, fields.drop_first())
    }
}

/// Whether `v` holds a string reading `k`.
fn contains_string(v: &Vec<String>, k: &str) -> (r: bool)
    ensures
        r == v.deep_view().contains(k@),
{
    let n = v.len();
    let mut i: usize = 0;
    while i < n
        invariant
            i <= n,
            n == v@.len(),
            forall|j: int| 0 <= j < i ==> v.deep_view()[j] != k@,
        decreases n - i,
    {
        if crate::config::str_eq(v[i].as_str(), k) {
            proof {
                assert(v.deep_view()[i as int] == k@);
            }
            return true;
        }
        i = i + 1;
    }
    proof {
        if v.deep_view().contains(k@) {
            let j = choose|j: int| 0 <= j < v.deep_view().len() && v.deep_view()[j] == k@;
            assert(v.deep_view()[j] != k@);
        }
    }
    false
}

/// The column names of a heterogeneous batch of records, in order of
/// first appearance.
pub fn get_all_columns(logs: &Vec<LogRecord>) -> (r: Vec<String>)
    ensures
        r.deep_view() == spec_columns(logs.deep_view(), Seq::<Seq<char>>::empty()),
{
    let ghost all = logs.deep_view();
    let mut columns: Vec<String> = Vec::new();
    let n = logs.len();
    let mut i: usize = 0;
    proof {
        assert(all.skip(0) =~= all);
        assert(columns.deep_view() =~= Seq::<Seq<char>>::empty());
    }
    while i < n
        invariant
            i <= n,
            n == logs@.len(),
            all == logs.deep_view(),
            spec_columns(all, Seq::<Seq<char>>::empty()) == spec_columns(
                all.skip(i as int),
                columns.deep_view(),
            ),
        decreases n - i,
    {
        let ghost rest = all.skip(i as int);
        proof {
            assert(rest[0] == all[i as int]);
            assert(rest.drop_first() =~= all.skip(i as int + 1));
            assert(all[i as int] == logs@[i as int]@);
        }
        let ghost cols0 = columns.deep_view();
        let ghost rv = all[i as int];
        let m = logs[i].fields.len();
        let mut j: usize = 0;
        proof {
            assert(rv.skip(0) =~= rv);
        }
        while j < m
            invariant
                j <= m,
                i < n,
                n == logs@.len(),
                all == logs.deep_view(),
                rv == all[i as int],
                m == logs@[i as int].fields@.len(),
                spec_add_cols(columns.deep_view(), rv.skip(j as int)) == spec_add_cols(
                    cols0,
                    rv,
                ),
            decreases m - j,
        {
            proof {
                assert(logs@[i as int]@ == rv);
                assert(rv.skip(j as int)[0] == rv[j as int]);
                assert(rv[j as int] == (logs@[i as int].fields@[j as int].0@, logs@[
                    i as int].fields@[j as int].1@));
                assert(rv.skip(j as int).drop_first() =~= rv.skip(j as int + 1));
            }
            let ghost before = columns.deep_view();
            if !contains_string(&columns, logs[i].fields[j].0.as_str()) {
                columns.push(logs[i].fields[j].0.clone());
                proof {
                    assert(columns.deep_view() =~= before.push(rv[j as int].0));
                }
            }
            j = j + 1;
        }
        proof {
            assert(rv.skip(m as int) =~= Seq::<(Seq<char>, Seq<char>)>::empty());
        }
        i = i + 1;
    }
    proof {
        assert(all.skip(n as int) =~= Seq::<Seq<(Seq<char>, Seq<char>)>>::empty());
    }
    columns
}

/// One record's fields spread over the batch columns: its value where it
/// has the column, empty text where it does not.
pub fn fill_log(log: &LogRecord, columns: &Vec<String>) -> (r: Vec<String>)
    ensures
        r@.len() == columns@.len(),
        forall|i: int|
            0 <= i < columns@.len() ==> (#[trigger] r@[i])@ == match spec_get(
                log@,
                columns.deep_view()[i],
            ) {
                Some(v) => v,
                None => Seq::<char>::empty(),
            },
{
    let n = columns.len();
    let mut out: Vec<String> = Vec::new();
    let mut i: usize = 0;
    while i < n
        invariant
            i <= n,
            n == columns@.len(),
            out@.len() == i,
            forall|j: int|
                0 <= j < i ==> (#[trigger] out@[j])@ == match spec_get(
                    log@,
                    columns.deep_view()[j],
                ) {
                    Some(v) => v,
                    None => Seq::<char>::empty(),
                },
        decreases n - i,
    {
        proof {
            assert(columns.deep_view()[i as int] == columns@[i as int]@);
        }
        match log.get(columns[i].as_str()) {
            Some(v) => out.push(v.clone()),
            None => out.push(String::new()),
        }
        i = i + 1;
    }
    out
}

} // verus!
