//! The collector's configuration: the recognized keys, the duration and
//! size strings, the collection windows, and the legacy known-blobs list.
//!
//! The surrounding application reads the YAML file and hands the values
//! over as plain fields; everything that is decided or computed from them
//! is here, with its contract.

use vstd::prelude::*;
use vstd::string::{StrSliceExecFns, StringExecFns};
use crate::timefmt::{
    MAX_TS_MILLIS, is_digit, digit_val, is_space, is_space_exec, trim_spec, to_char_vec,
    spec_format_secs, format_timestamp_secs, lemma_trim_window, spec_parse_ts, parse_ts_window,
};
use crate::known_blobs::{first_idx, lemma_first_idx_window};
use crate::clock::now_millis;

verus! {

/// Why a configuration is refused before any network work starts.
#[derive(Clone, Copy, Debug, PartialEq, Eq, Structural)]
pub enum ConfigError {
    /// `hours_to_collect` exceeds the provider's 168-hour limit.
    HoursToCollectTooLarge,
    /// `hours_to_collect` is negative.
    HoursToCollectNegative,
    /// `api_type` names no known endpoint pair.
    InvalidApiType,
}

/// A per-content-type equality filter: record key to expected value, the
/// value carried as its JSON text.
pub struct FilterSubConfig {
    pub general: Option<Vec<(String, String)>>,
    pub azure_active_directory: Option<Vec<(String, String)>>,
    pub exchange: Option<Vec<(String, String)>>,
    pub share_point: Option<Vec<(String, String)>>,
    pub dlp: Option<Vec<(String, String)>>,
}

pub struct ContentTypesSubConfig {
    pub general: Option<bool>,
    pub azure_active_directory: Option<bool>,
    pub exchange: Option<bool>,
    pub share_point: Option<bool>,
    pub dlp: Option<bool>,
}

pub struct CollectSubConfig {
    pub working_dir: Option<String>,
    pub cache_size: Option<usize>,
    pub content_types: ContentTypesSubConfig,
    pub max_threads: Option<usize>,
    pub global_timeout: Option<usize>,
    pub retries: Option<usize>,
    pub hours_to_collect: Option<i64>,
    pub skip_known_logs: Option<bool>,
    pub filter: Option<FilterSubConfig>,
    pub duplicate: Option<usize>,
}

pub struct LogSubConfig {
    pub path: String,
    pub debug: bool,
}

pub struct TenantConfig {
    pub tenant_id: String,
    pub client_id: String,
    pub client_secret: Option<String>,
    pub client_secret_path: Option<String>,
    pub api_type: Option<String>,
}

pub struct FileOutputSubConfig {
    pub path: String,
    pub separate_by_content_type: Option<bool>,
    pub separator: Option<String>,
}

pub struct GraylogOutputSubConfig {
    pub address: String,
    pub port: u16,
}

pub struct FluentdOutputSubConfig {
    pub tenant_name: String,
    pub address: String,
    pub port: u16,
}

pub struct OmsOutputSubConfig {
    pub workspace_id: String,
}

pub struct OutputSubConfig {
    pub file: Option<FileOutputSubConfig>,
    pub graylog: Option<GraylogOutputSubConfig>,
    pub fluentd: Option<FluentdOutputSubConfig>,
    pub oms: Option<OmsOutputSubConfig>,
}

pub struct Config {
    pub enabled: Option<bool>,
    pub interval: Option<String>,
    pub curl_max_size: Option<String>,
    pub only_future_events: Option<bool>,
    pub working_dir: Option<String>,
    pub log: Option<LogSubConfig>,
    pub tenants: Vec<TenantConfig>,
    pub subscriptions: Vec<String>,
    pub collect: Option<CollectSubConfig>,
    pub output: OutputSubConfig,
}

// ---------------------------------------------------------------------------
// numbers in strings
// ---------------------------------------------------------------------------

/// The value of a digit string, read left to right.
pub open spec fn digits_val(s: Seq<char>) -> int
    decreases s.len(),
{
    if s.len() == 0 {
        0
    } else {
        digits_val(s.drop_last()) * 10 + digit_val(s.last())
    }
}

pub open spec fn all_digits(s: Seq<char>) -> bool {
    forall|i: int| 0 <= i < s.len() ==> is_digit(#[trigger] s[i])
}

/// What a decimal string denotes: its value, when it is one or more
/// digits and fits a `u64`.
pub open spec fn spec_parse_u64(s: Seq<char>) -> Option<int> {
    if s.len() > 0 && all_digits(s) && digits_val(s) <= u64::MAX {
        Some(digits_val(s))
    } else {
        None
    }
}

/// A longer digit string denotes no smaller a value.
proof fn lemma_digits_val_grows(s: Seq<char>, i: int)
    requires
        0 <= i <= s.len(),
        all_digits(s),
    ensures
        digits_val(s.take(i)) <= digits_val(s),
        digits_val(s) >= 0,
    decreases s.len() - i,
{
    if i == s.len() {
        assert(s.take(i) =~= s);
        lemma_digits_val_nonneg(s);
    } else {
        lemma_digits_val_grows(s, i + 1);
        lemma_digits_val_nonneg(s.take(i));
        assert(s.take(i + 1).drop_last() =~= s.take(i));
        assert(s.take(i + 1).last() == s[i]);
        assert(is_digit(s[i]));
        assert(digits_val(s.take(i + 1)) == digits_val(s.take(i)) * 10 + digit_val(s[i]));
    }
}

proof fn lemma_digits_val_nonneg(s: Seq<char>)
    requires
        all_digits(s),
    ensures
        digits_val(s) >= 0,
    decreases s.len(),
{
    if s.len() > 0 {
        assert(all_digits(s.drop_last())) by {
            assert(forall|i: int| 0 <= i < s.len() - 1 ==> s.drop_last()[i] == s[i]);
        }
        lemma_digits_val_nonneg(s.drop_last());
        assert(is_digit(s.last()));
    }
}

/// Reads a decimal `u64` from the window `[lo, hi)` of `v`.
pub fn parse_u64_window(v: &Vec<char>, lo: usize, hi: usize) -> (r: Option<u64>)
    requires
        lo <= hi <= v@.len(),
    ensures
        ({
            let pr = spec_parse_u64(v@.subrange(lo as int, hi as int));
            match r {
                Some(n) => pr == Some(n as int),
                None => pr is None,
            }
        }),
{
    let ghost s = v@.subrange(lo as int, hi as int);
    if lo == hi {
        return None;
    }
    let mut acc: u64 = 0;
    let mut i: usize = lo;
    proof {
        assert(s.take(0) =~= Seq::<char>::empty());
    }
    while i < hi
        invariant
            lo <= i <= hi,
            hi <= v@.len(),
            s == v@.subrange(lo as int, hi as int),
            all_digits(s.take(i - lo)),
            acc == digits_val(s.take(i - lo)),
        decreases hi - i,
    {
        let c = v[i];
        let u = c as u32;
        proof {
            assert(s[i - lo] == v@[i as int]);
        }
        if !(48 <= u && u <= 57) {
            assert(!is_digit(s[i - lo]));
            assert(spec_parse_u64(s) is None);
            return None;
        }
        let d: u64 = (u - 48) as u64;
        proof {
            assert(s.take(i - lo + 1).drop_last() =~= s.take(i - lo));
            assert(s.take(i - lo + 1).last() == s[i - lo]);
        }
        if acc > (u64::MAX - d) / 10 {
            proof {
                // the prefix already exceeds the range, so the whole does
                assert(digits_val(s.take(i - lo + 1)) == acc * 10 + d);
                assert(acc * 10 + d > u64::MAX) by {
                    vstd::arithmetic::div_mod::lemma_fundamental_div_mod(
                        (u64::MAX - d) as int,
                        10,
                    );
                    vstd::arithmetic::div_mod::lemma_mod_division_less_than_divisor(
                        (u64::MAX - d) as int,
                        10,
                    );
                }
                assert(all_digits(s.take(i - lo + 1)));
                if all_digits(s) {
                    lemma_digits_val_grows(s, i - lo + 1);
                    assert(digits_val(s) > u64::MAX);
                }
                assert(spec_parse_u64(s) is None);
            }
            return None;
        }
        proof {
            assert(acc * 10 + d <= u64::MAX) by {
                vstd::arithmetic::div_mod::lemma_fundamental_div_mod((u64::MAX - d) as int, 10);
                vstd::arithmetic::div_mod::lemma_mod_division_less_than_divisor(
                    (u64::MAX - d) as int,
                    10,
                );
            }
        }
        acc = acc * 10 + d;
        i = i + 1;
    }
    proof {
        assert(s.take(hi - lo) =~= s);
    }
    Some(acc)
}

/// The value a digit string denotes, or `dflt` when it denotes none.
pub open spec fn val_or(s: Seq<char>, dflt: int) -> int {
    match spec_parse_u64(s) {
        Some(v) => v,
        None => dflt,
    }
}

/// `v * m`, stopping at the top of the `u64` range.
pub open spec fn sat_mul_u64(v: int, m: int) -> int {
    if v * m > u64::MAX {
        u64::MAX as int
    } else {
        v * m
    }
}

/// A duration string: a count suffixed `s`, `m`, `h` or `d`, or a bare
/// count of seconds. An unreadable count falls back to 300 seconds, 5
/// minutes, 1 hour or 1 day; the result is seconds, saturating.
pub open spec fn spec_parse_interval(s: Seq<char>) -> int {
    let t = trim_spec(s);
    if t.len() > 0 && t.last() == 's' {
        val_or(t.drop_last(), 300)
    } else if t.len() > 0 && t.last() == 'm' {
        sat_mul_u64(val_or(t.drop_last(), 5), 60)
    } else if t.len() > 0 && t.last() == 'h' {
        sat_mul_u64(val_or(t.drop_last(), 1), 3600)
    } else if t.len() > 0 && t.last() == 'd' {
        sat_mul_u64(val_or(t.drop_last(), 1), 86400)
    } else {
        val_or(t, 300)
    }
}

/// An ASCII lower-case letter raised; anything else unchanged.
pub open spec fn upper_char(c: char) -> char {
    if 97 <= c as u32 <= 122 {
        ((c as u32 - 32) as u8) as char
    } else {
        c
    }
}

/// A size string: a count suffixed `K`, `M` or `G` (any case), or a bare
/// count of bytes. An unreadable count falls back to 1024 kibibytes, 1
/// mebibyte, 1 gibibyte or 1 mebibyte; the result is bytes, saturating.
pub open spec fn spec_parse_size(s: Seq<char>) -> int {
    let t = trim_spec(s).map_values(|c: char| upper_char(c));
    if t.len() > 0 && t.last() == 'K' {
        sat_mul_u64(val_or(t.drop_last(), 1024), 1024)
    } else if t.len() > 0 && t.last() == 'M' {
        sat_mul_u64(val_or(t.drop_last(), 1), 0x100000)
    } else if t.len() > 0 && t.last() == 'G' {
        sat_mul_u64(val_or(t.drop_last(), 1), 0x40000000)
    } else {
        val_or(t, 0x100000)
    }
}

pub open spec fn clamp_usize(x: int) -> int {
    if x > usize::MAX {
        usize::MAX as int
    } else {
        x
    }
}

/// `a * m`, stopping at the top of the `u64` range.
fn sat_mul(a: u64, m: u64) -> (r: u64)
    requires
        1 <= m,
    ensures
        r == sat_mul_u64(a as int, m as int),
{
    let q = u64::MAX / m;
    proof {
        vstd::arithmetic::div_mod::lemma_fundamental_div_mod(u64::MAX as int, m as int);
        vstd::arithmetic::div_mod::lemma_mod_division_less_than_divisor(u64::MAX as int, m as int);
        vstd::arithmetic::mul::lemma_mul_is_commutative(q as int, m as int);
        assert(q as int * m as int == u64::MAX as int - u64::MAX as int % m as int);
    }
    if a > q {
        proof {
            vstd::arithmetic::mul::lemma_mul_inequality(q as int + 1, a as int, m as int);
            vstd::arithmetic::mul::lemma_mul_is_distributive_add_other_way(m as int, q as int, 1);
            assert((q as int + 1) * m as int == q as int * m as int + m as int);
            assert(a as int * m as int > u64::MAX as int);
        }
        u64::MAX
    } else {
        proof {
            vstd::arithmetic::mul::lemma_mul_inequality(a as int, q as int, m as int);
            assert(a as int * m as int <= u64::MAX as int);
        }
        a * m
    }
}

/// The trimmed window of `v`, by index.
fn trim_bounds(v: &Vec<char>) -> (b: (usize, usize))
    ensures
        b.0 <= b.1 <= v@.len(),
        trim_spec(v@) =~= v@.subrange(b.0 as int, b.1 as int),
{
    let n = v.len();
    let mut lo: usize = 0;
    while lo < n && is_space_exec(v[lo])
        invariant
            lo <= n,
            n == v@.len(),
            forall|j: int| 0 <= j < lo ==> is_space(#[trigger] v@[j]),
        decreases n - lo,
    {
        lo = lo + 1;
    }
    let mut hi: usize = n;
    while hi > lo && is_space_exec(v[hi - 1])
        invariant
            lo <= hi <= n,
            n == v@.len(),
            forall|j: int| hi <= j < n ==> is_space(#[trigger] v@[j]),
        decreases hi,
    {
        hi = hi - 1;
    }
    proof {
        lemma_trim_window(v@, lo as int, hi as int);
    }
    (lo, hi)
}

impl Config {
    /// Collection is on unless the configuration turns it off.
    pub fn is_enabled(&self) -> (r: bool)
        ensures
            r == (self.enabled != Some(false)),
    {
        match self.enabled {
            Some(b) => b,
            None => true,
        }
    }

    /// Reads a duration string as `spec_parse_interval` says.
    pub fn parse_interval(s: &str) -> (r: u64)
        ensures
            r == spec_parse_interval(s@),
    {
        let v = to_char_vec(s);
        let (lo, hi) = trim_bounds(&v);
        let ghost t = trim_spec(s@);
        if hi > lo {
            let c = v[hi - 1];
            proof {
                assert(t.last() == v@[hi - 1]);
                assert(t.drop_last() =~= v@.subrange(lo as int, hi as int - 1));
            }
            if c == 's' {
                return match parse_u64_window(&v, lo, hi - 1) {
                    Some(n) => n,
                    None => 300,
                };
            } else if c == 'm' {
                let base = match parse_u64_window(&v, lo, hi - 1) {
                    Some(n) => n,
                    None => 5,
                };
                return sat_mul(base, 60);
            } else if c == 'h' {
                let base = match parse_u64_window(&v, lo, hi - 1) {
                    Some(n) => n,
                    None => 1,
                };
                return sat_mul(base, 3600);
            } else if c == 'd' {
                let base = match parse_u64_window(&v, lo, hi - 1) {
                    Some(n) => n,
                    None => 1,
                };
                return sat_mul(base, 86400);
            }
        }
        proof {
            assert(v@.subrange(lo as int, hi as int) =~= trim_spec(s@));
        }
        match parse_u64_window(&v, lo, hi) {
            Some(n) => n,
            None => 300,
        }
    }

    /// Reads a size string as `spec_parse_size` says.
    pub fn parse_size(s: &str) -> (r: u64)
        ensures
            r == spec_parse_size(s@),
    {
        let v0 = to_char_vec(s);
        let (lo0, hi0) = trim_bounds(&v0);
        // raise the trimmed window to upper case
        let mut v: Vec<char> = Vec::new();
        let mut i: usize = lo0;
        let ghost t = trim_spec(s@).map_values(|c: char| upper_char(c));
        while i < hi0
            invariant
                lo0 <= i <= hi0,
                hi0 <= v0@.len(),
                trim_spec(s@) =~= v0@.subrange(lo0 as int, hi0 as int),
                v@ =~= v0@.subrange(lo0 as int, i as int).map_values(|c: char| upper_char(c)),
            decreases hi0 - i,
        {
            let c = v0[i];
            let u = c as u32;
            let up: char = if 97 <= u && u <= 122 {
                ((u - 32) as u8) as char
            } else {
                c
            };
            assert(up == upper_char(v0@[i as int]));
            v.push(up);
            proof {
                assert(v0@.subrange(lo0 as int, i as int + 1) =~= v0@.subrange(
                    lo0 as int,
                    i as int,
                ).push(v0@[i as int]));
                assert(v@ =~= v0@.subrange(lo0 as int, i as int + 1).map_values(
                    |c: char| upper_char(c),
                ));
            }
            i = i + 1;
        }
        proof {
            assert(v@ =~= t);
        }
        let n = v.len();
        if n > 0 {
            let c = v[n - 1];
            proof {
                assert(t.last() == v@[n - 1]);
                assert(t.drop_last() =~= v@.subrange(0, n as int - 1));
            }
            if c == 'K' {
                let base = match parse_u64_window(&v, 0, n - 1) {
                    Some(x) => x,
                    None => 1024,
                };
                return sat_mul(base, 1024);
            } else if c == 'M' {
                let base = match parse_u64_window(&v, 0, n - 1) {
                    Some(x) => x,
                    None => 1,
                };
                return sat_mul(base, 0x100000);
            } else if c == 'G' {
                let base = match parse_u64_window(&v, 0, n - 1) {
                    Some(x) => x,
                    None => 1,
                };
                return sat_mul(base, 0x40000000);
            }
        }
        proof {
            assert(v@.subrange(0, n as int) =~= v@);
        }
        match parse_u64_window(&v, 0, n) {
            Some(x) => x,
            None => 0x100000,
        }
    }

    /// Seconds between two daemon runs: the `interval` string if present,
    /// else the hours to collect, else five minutes.
    pub fn get_interval_seconds(&self) -> (r: u64)
        ensures
            r as int == match self.interval {
                Some(ref s) => spec_parse_interval(s@),
                None => match self.collect {
                    Some(ref c) => match c.hours_to_collect {
                        Some(h) => if h >= 0 {
                            sat_mul_u64(h as int, 3600)
                        } else {
                            0
                        },
                        None => 86400,
                    },
                    None => 300,
                },
            },
    {
        match self.interval {
            Some(ref s) => Self::parse_interval(s.as_str()),
            None => match self.collect {
                Some(ref c) => match c.hours_to_collect {
                    Some(h) => if h >= 0 {
                        sat_mul(h as u64, 3600)
                    } else {
                        0
                    },
                    None => 86400,
                },
                None => 300,
            },
        }
    }

    /// The configured response-size cap, in bytes, clamped to the machine.
    pub fn get_max_size_bytes(&self) -> (r: Option<usize>)
        ensures
            match self.curl_max_size {
                Some(ref s) => r matches Some(n) && n as int == clamp_usize(spec_parse_size(s@)),
                None => r is None,
            },
    {
        match self.curl_max_size {
            Some(ref s) => {
                let bytes = Self::parse_size(s.as_str());
                if bytes > usize::MAX as u64 {
                    Some(usize::MAX)
                } else {
                    Some(bytes as usize)
                }
            },
            None => None,
        }
    }

    /// The directory state files live in: the top-level entry first, the
    /// collect entry second, the working directory last.
    pub fn get_working_dir(&self) -> (r: String)
        ensures
            r@ == match self.working_dir {
                Some(ref d) => d@,
                None => match self.collect {
                    Some(ref c) => match c.working_dir {
                        Some(ref d) => d@,
                        None => "./"@,
                    },
                    None => "./"@,
                },
            },
    {
        match self.working_dir {
            Some(ref d) => d.clone(),
            None => match self.collect {
                Some(ref c) => match c.working_dir {
                    Some(ref d) => d.clone(),
                    None => String::from_str("./"),
                },
                None => String::from_str("./"),
            },
        }
    }
}


// ---------------------------------------------------------------------------
// helpers on strings and string vectors
// ---------------------------------------------------------------------------

/// Whether two strings hold the same characters.
pub fn str_eq(a: &str, b: &str) -> (r: bool)
    ensures
        r == (a@ == b@),
{
    let n = a.unicode_len();
    let m = b.unicode_len();
    if n != m {
        proof {
            assert(a@.len() != b@.len());
        }
        return false;
    }
    let mut i: usize = 0;
    while i < n
        invariant
            i <= n,
            n == a@.len(),
            n == b@.len(),
            forall|j: int| 0 <= j < i ==> a@[j] == b@[j],
        decreases n - i,
    {
        if a.get_char(i) != b.get_char(i) {
            return false;
        }
        i = i + 1;
    }
    proof {
        assert(a@ =~= b@);
    }
    true
}

/// A copy of a vector of strings, character for character.
pub fn clone_strings(v: &Vec<String>) -> (r: Vec<String>)
    ensures
        r@.len() == v@.len(),
        forall|i: int| 0 <= i < v@.len() ==> (#[trigger] r@[i])@ == v@[i]@,
{
    let mut r: Vec<String> = Vec::new();
    let mut i: usize = 0;
    while i < v.len()
        invariant
            i <= v@.len(),
            r@.len() == i,
            forall|j: int| 0 <= j < i ==> (#[trigger] r@[j])@ == v@[j]@,
        decreases v@.len() - i,
    {
        r.push(v[i].clone());
        i = i + 1;
    }
    r
}

/// A copy of a vector of string pairs, character for character.
pub fn clone_pairs(v: &Vec<(String, String)>) -> (r: Vec<(String, String)>)
    ensures
        r@.len() == v@.len(),
        forall|i: int|
            0 <= i < v@.len() ==> (#[trigger] r@[i]).0@ == v@[i].0@ && r@[i].1@ == v@[i].1@,
{
    let mut r: Vec<(String, String)> = Vec::new();
    let mut i: usize = 0;
    while i < v.len()
        invariant
            i <= v@.len(),
            r@.len() == i,
            forall|j: int|
                0 <= j < i ==> (#[trigger] r@[j]).0@ == v@[j].0@ && r@[j].1@ == v@[j].1@,
        decreases v@.len() - i,
    {
        let p = &v[i];
        r.push((p.0.clone(), p.1.clone()));
        i = i + 1;
    }
    r
}

// ---------------------------------------------------------------------------
// subscriptions, filters, endpoints
// ---------------------------------------------------------------------------

/// The subscription names a legacy content-types table turns on, in its
/// fixed order.
pub open spec fn spec_content_type_strings(c: ContentTypesSubConfig) -> Seq<Seq<char>> {
    (if c.general == Some(true) {
        seq!["Audit.General"@]
    } else {
        Seq::<Seq<char>>::empty()
    }) + (if c.azure_active_directory == Some(true) {
        seq!["Audit.AzureActiveDirectory"@]
    } else {
        Seq::<Seq<char>>::empty()
    }) + (if c.exchange == Some(true) {
        seq!["Audit.Exchange"@]
    } else {
        Seq::<Seq<char>>::empty()
    }) + (if c.share_point == Some(true) {
        seq!["Audit.SharePoint"@]
    } else {
        Seq::<Seq<char>>::empty()
    }) + (if c.dlp == Some(true) {
        seq!["DLP.All"@]
    } else {
        Seq::<Seq<char>>::empty()
    })
}

impl ContentTypesSubConfig {
    /// The subscription names this table turns on.
    pub fn get_content_type_strings(&self) -> (r: Vec<String>)
        ensures
            r.deep_view() == spec_content_type_strings(*self),
    {
        let mut r: Vec<String> = Vec::new();
        if self.general == Some(true) {
            r.push(String::from_str("Audit.General"));
        }
        if self.azure_active_directory == Some(true) {
            r.push(String::from_str("Audit.AzureActiveDirectory"));
        }
        if self.exchange == Some(true) {
            r.push(String::from_str("Audit.Exchange"));
        }
        if self.share_point == Some(true) {
            r.push(String::from_str("Audit.SharePoint"));
        }
        if self.dlp == Some(true) {
            r.push(String::from_str("DLP.All"));
        }
        proof {
            assert(r.deep_view() =~= spec_content_type_strings(*self));
        }
        r
    }
}

/// The per-content-type filters, keyed by subscription name, in the
/// order the configuration lists them.
pub open spec fn spec_filters(f: FilterSubConfig) -> Seq<(Seq<char>, Seq<(Seq<char>, Seq<char>)>)> {
    (match f.general {
        Some(m) => seq![("Audit.General"@, m.deep_view())],
        None => Seq::empty(),
    }) + (match f.azure_active_directory {
        Some(m) => seq![("Audit.AzureActiveDirectory"@, m.deep_view())],
        None => Seq::empty(),
    }) + (match f.share_point {
        Some(m) => seq![("Audit.SharePoint"@, m.deep_view())],
        None => Seq::empty(),
    }) + (match f.exchange {
        Some(m) => seq![("Audit.Exchange"@, m.deep_view())],
        None => Seq::empty(),
    }) + (match f.dlp {
        Some(m) => seq![("DLP.All"@, m.deep_view())],
        None => Seq::empty(),
    })
}

impl FilterSubConfig {
    /// The configured filters as (subscription, entries) pairs.
    pub fn get_filters(&self) -> (r: Vec<(String, Vec<(String, String)>)>)
        ensures
            r.deep_view() == spec_filters(*self),
    {
        let mut r: Vec<(String, Vec<(String, String)>)> = Vec::new();
        match self.general {
            Some(ref m) => {
                let c = clone_pairs(m);
                proof {
                    lemma_pairs_deep(m, &c);
                }
                r.push((String::from_str("Audit.General"), c));
            },
            None => {},
        }
        match self.azure_active_directory {
            Some(ref m) => {
                let c = clone_pairs(m);
                proof {
                    lemma_pairs_deep(m, &c);
                }
                r.push((String::from_str("Audit.AzureActiveDirectory"), c));
            },
            None => {},
        }
        match self.share_point {
            Some(ref m) => {
                let c = clone_pairs(m);
                proof {
                    lemma_pairs_deep(m, &c);
                }
                r.push((String::from_str("Audit.SharePoint"), c));
            },
            None => {},
        }
        match self.exchange {
            Some(ref m) => {
                let c = clone_pairs(m);
                proof {
                    lemma_pairs_deep(m, &c);
                }
                r.push((String::from_str("Audit.Exchange"), c));
            },
            None => {},
        }
        match self.dlp {
            Some(ref m) => {
                let c = clone_pairs(m);
                proof {
                    lemma_pairs_deep(m, &c);
                }
                r.push((String::from_str("DLP.All"), c));
            },
            None => {},
        }
        proof {
            assert(r.deep_view() =~~= spec_filters(*self));
        }
        r
    }
}

/// Pair vectors equal character for character have equal deep views.
proof fn lemma_pairs_deep(a: &Vec<(String, String)>, b: &Vec<(String, String)>)
    requires
        a@.len() == b@.len(),
        forall|i: int|
            0 <= i < a@.len() ==> (#[trigger] b@[i]).0@ == a@[i].0@ && b@[i].1@ == a@[i].1@,
    ensures
        a.deep_view() == b.deep_view(),
{
    assert(a.deep_view() =~~= b.deep_view());
}

/// The subscription names this run collects for.
pub open spec fn spec_subscriptions(c: &Config) -> Seq<Seq<char>> {
    if c.subscriptions.len() > 0 {
        c.subscriptions.deep_view()
    } else {
        match c.collect {
            Some(ref cc) => spec_content_type_strings(cc.content_types),
            None => Seq::empty(),
        }
    }
}

impl Config {
    /// The subscription names: the dynamic list, else the legacy table.
    pub fn get_subscriptions(&self) -> (r: Vec<String>)
        ensures
            r.deep_view() == spec_subscriptions(self),
    {
        if self.subscriptions.len() > 0 {
            let r = clone_strings(&self.subscriptions);
            proof {
                assert(r.deep_view() =~= self.subscriptions.deep_view());
            }
            r
        } else {
            match self.collect {
                Some(ref cc) => cc.content_types.get_content_type_strings(),
                None => Vec::new(),
            }
        }
    }
}

impl TenantConfig {
    /// The login and management endpoints for this tenant's cloud, or the
    /// configuration error for an unknown `api_type`.
    pub fn get_endpoints(&self) -> (r: Result<(String, String), ConfigError>)
        ensures
            ({
                let at = match self.api_type {
                    Some(ref t) => t@,
                    None => "commercial"@,
                };
                match r {
                    Ok(p) => (at == "commercial"@ && p.0@ == "https://login.microsoftonline.com"@
                        && p.1@ == "https://manage.office.com"@) || (at == "gcc"@ && p.0@
                        == "https://login.microsoftonline.com"@ && p.1@
                        == "https://manage-gcc.office.com"@) || (at == "gcc-high"@ && p.0@
                        == "https://login.microsoftonline.us"@ && p.1@
                        == "https://manage.office365.us"@),
                    Err(e) => e == ConfigError::InvalidApiType && at != "commercial"@ && at
                        != "gcc"@ && at != "gcc-high"@,
                }
            }),
    {
        let commercial = "commercial";
        let at: &str = match self.api_type {
            Some(ref t) => t.as_str(),
            None => commercial,
        };
        if str_eq(at, "commercial") {
            Ok((
                String::from_str("https://login.microsoftonline.com"),
                String::from_str("https://manage.office.com"),
            ))
        } else if str_eq(at, "gcc") {
            Ok((
                String::from_str("https://login.microsoftonline.com"),
                String::from_str("https://manage-gcc.office.com"),
            ))
        } else if str_eq(at, "gcc-high") {
            Ok((
                String::from_str("https://login.microsoftonline.us"),
                String::from_str("https://manage.office365.us"),
            ))
        } else {
            Err(ConfigError::InvalidApiType)
        }
    }
}

// ---------------------------------------------------------------------------
// collection windows
// ---------------------------------------------------------------------------

/// Milliseconds of the provider's 24-hour window limit.
pub const WINDOW_MILLIS: i64 = 86_400_000;

/// The collection range cut into windows of at most 24 hours, rendered as
/// second-precision timestamps.
pub open spec fn spec_formatted_windows(s: int, e: int) -> Seq<(Seq<char>, Seq<char>)>
    decreases e - s,
{
    if e - s > 86400000 {
        seq![(spec_format_secs(s), spec_format_secs(s + 86400000))] + spec_formatted_windows(
            s + 86400000,
            e,
        )
    } else {
        seq![(spec_format_secs(s), spec_format_secs(e))]
    }
}

/// Cuts `[start, end]` into consecutive windows of at most 24 hours.
pub fn split_windows(start: i64, end: i64) -> (w: Vec<(String, String)>)
    requires
        0 <= start <= MAX_TS_MILLIS,
        0 <= end <= MAX_TS_MILLIS,
    ensures
        w.deep_view() == spec_formatted_windows(start as int, end as int),
{
    let mut out: Vec<(String, String)> = Vec::new();
    let mut cur: i64 = start;
    while end - cur > WINDOW_MILLIS
        invariant
            0 <= cur <= MAX_TS_MILLIS,
            0 <= end <= MAX_TS_MILLIS,
            end - cur > 86400000 ==> cur + 86400000 < end,
            out.deep_view() + spec_formatted_windows(cur as int, end as int)
                == spec_formatted_windows(start as int, end as int),
        decreases end - cur,
    {
        let a = format_timestamp_secs(cur);
        let b = format_timestamp_secs(cur + WINDOW_MILLIS);
        out.push((a, b));
        proof {
            assert(out.deep_view() + spec_formatted_windows(cur as int + 86400000, end as int)
                =~= spec_formatted_windows(start as int, end as int));
        }
        cur = cur + WINDOW_MILLIS;
    }
    let a = format_timestamp_secs(cur);
    let b = format_timestamp_secs(end);
    out.push((a, b));
    proof {
        assert(out.deep_view() =~= spec_formatted_windows(start as int, end as int));
    }
    out
}

/// The configured hours to collect, defaulting to 24.
pub open spec fn spec_hours(c: &Config) -> int {
    match c.collect {
        Some(ref cc) => match cc.hours_to_collect {
            Some(h) => h as int,
            None => 24,
        },
        None => 24,
    }
}

/// The instant collection starts from: the caller's bookmark if one is
/// given, else `now` less the hours to collect.
pub open spec fn spec_start_base(c: &Config, start_from: Option<i64>, now: int) -> int {
    match start_from {
        Some(t) => t as int,
        None => now - spec_hours(c) * 3600000,
    }
}

impl Config {
    /// The per-subscription collection runs: each subscription mapped to
    /// the windows covering `[start, now]`. A range of more than 168 hours
    /// or a negative one is a configuration error.
    pub fn get_needed_runs_from_at(&self, start_from: Option<i64>, now: i64) -> (r: Result<
        Vec<(String, Vec<(String, String)>)>,
        ConfigError,
    >)
        requires
            604800000 <= now <= MAX_TS_MILLIS,
            start_from matches Some(t) ==> 0 <= t <= MAX_TS_MILLIS,
        ensures
            spec_hours(self) > 168 <==> r == Err::<
                Vec<(String, Vec<(String, String)>)>,
                ConfigError,
            >(ConfigError::HoursToCollectTooLarge),
            spec_hours(self) <= 168 && spec_hours(self) < 0 <==> r == Err::<
                Vec<(String, Vec<(String, String)>)>,
                ConfigError,
            >(ConfigError::HoursToCollectNegative),
            0 <= spec_hours(self) <= 168 ==> ({
                let subs = spec_subscriptions(self);
                let wins = spec_formatted_windows(
                    spec_start_base(self, start_from, now as int),
                    now as int,
                );
                match r {
                    Ok(runs) => {
                        &&& runs@.len() == subs.len()
                        &&& forall|i: int|
                            0 <= i < subs.len() ==> (#[trigger] runs@[i]).0@ == subs[i]
                                && runs@[i].1.deep_view() == wins
                    },
                    Err(_) => false,
                }
            }),
    {
        let hours: i64 = match self.collect {
            Some(ref cc) => match cc.hours_to_collect {
                Some(h) => h,
                None => 24,
            },
            None => 24,
        };
        if hours > 168 {
            return Err(ConfigError::HoursToCollectTooLarge);
        }
        if hours < 0 {
            return Err(ConfigError::HoursToCollectNegative);
        }
        let start_base: i64 = match start_from {
            Some(t) => t,
            None => now - hours * 3600000,
        };
        let windows = split_windows(start_base, now);
        let subs = self.get_subscriptions();
        let ghost subs_spec = spec_subscriptions(self);
        let mut runs: Vec<(String, Vec<(String, String)>)> = Vec::new();
        let mut i: usize = 0;
        while i < subs.len()
            invariant
                i <= subs@.len(),
                subs.deep_view() == subs_spec,
                runs@.len() == i,
                windows.deep_view() == spec_formatted_windows(
                    spec_start_base(self, start_from, now as int),
                    now as int,
                ),
                forall|j: int|
                    0 <= j < i ==> (#[trigger] runs@[j]).0@ == subs_spec[j]
                        && runs@[j].1.deep_view() == windows.deep_view(),
            decreases subs@.len() - i,
        {
            let w = clone_pairs(&windows);
            proof {
                lemma_pairs_deep(&windows, &w);
                assert(subs@[i as int]@ == subs.deep_view()[i as int]);
            }
            runs.push((subs[i].clone(), w));
            i = i + 1;
        }
        Ok(runs)
    }

    /// The per-subscription collection runs ending at the instant the
    /// clock reads, starting from the given bookmark if one is given.
    pub fn get_needed_runs_from(&self, start_from: Option<i64>) -> (r: Result<
        Vec<(String, Vec<(String, String)>)>,
        ConfigError,
    >)
        requires
            start_from matches Some(t) ==> 0 <= t <= MAX_TS_MILLIS,
        ensures
            spec_hours(self) > 168 ==> r is Err,
            0 <= spec_hours(self) <= 168 ==> r is Ok,
    {
        let now_raw = now_millis();
        let now: i64 = if now_raw < 604800000 {
            604800000
        } else if now_raw > MAX_TS_MILLIS {
            MAX_TS_MILLIS
        } else {
            now_raw
        };
        self.get_needed_runs_from_at(start_from, now)
    }

    /// The per-subscription collection runs for the default range ending
    /// now.
    pub fn get_needed_runs(&self) -> (r: Result<
        Vec<(String, Vec<(String, String)>)>,
        ConfigError,
    >)
        ensures
            spec_hours(self) > 168 ==> r is Err,
            0 <= spec_hours(self) <= 168 ==> r is Ok,
    {
        self.get_needed_runs_from(None)
    }
}


// ---------------------------------------------------------------------------
// the legacy known-blobs list, kept as strings
// ---------------------------------------------------------------------------

/// What one line contributes to the legacy list: the trimmed id mapped to
/// the trimmed expiration text, when the line has a comma and the
/// expiration reads as an instant after `now`.
pub open spec fn raw_line_entry(line: Seq<char>, now: int) -> Option<(Seq<char>, Seq<char>)> {
    if trim_spec(line).len() == 0 {
        None
    } else {
        let c = first_idx(line, ',') as int;
        if c >= line.len() {
            None
        } else {
            let id = trim_spec(line.take(c));
            let ex = trim_spec(line.skip(c + 1));
            match spec_parse_ts(ex) {
                Some(e) => if now < e {
                    Some((id, ex))
                } else {
                    None
                },
                None => None,
            }
        }
    }
}

/// The legacy list read from persisted text: each line contributes as
/// `raw_line_entry` says, in order.
pub open spec fn raw_load_model(s: Seq<char>, now: int) -> Seq<(Seq<char>, Seq<char>)>
    decreases s.len(),
{
    if s.len() == 0 {
        Seq::empty()
    } else {
        let i = first_idx(s, '\n') as int;
        let line = if i >= s.len() {
            s
        } else {
            s.take(i)
        };
        let head = match raw_line_entry(line, now) {
            Some(p) => seq![p],
            None => Seq::<(Seq<char>, Seq<char>)>::empty(),
        };
        if i >= s.len() {
            head
        } else {
            head + raw_load_model(s.skip(i + 1), now)
        }
    }
}

/// The persisted text of the legacy list: one `id,expiration` line per
/// entry.
pub open spec fn raw_save_model(ps: Seq<(Seq<char>, Seq<char>)>) -> Seq<char>
    decreases ps.len(),
{
    if ps.len() == 0 {
        Seq::empty()
    } else {
        ps[0].0 + seq![','] + ps[0].1 + seq!['\n'] + raw_save_model(ps.drop_first())
    }
}

impl Config {
    /// Reads the persisted known-blobs text, judged against the instant
    /// `now`: pairs of id and expiration text, malformed and expired lines
    /// dropped.
    pub fn load_known_blobs_at(content: &str, now: i64) -> (r: Vec<(String, String)>)
        ensures
            r.deep_view() == raw_load_model(content@, now as int),
    {
        let v = to_char_vec(content);
        let n = v.len();
        let mut out: Vec<(String, String)> = Vec::new();
        let mut pos: usize = 0;
        proof {
            assert(v@.skip(0) =~= content@);
            assert(out.deep_view() + raw_load_model(content@, now as int) =~= raw_load_model(
                content@,
                now as int,
            ));
        }
        while pos < n
            invariant
                pos <= n,
                n == v@.len(),
                v@ == content@,
                out.deep_view() + raw_load_model(v@.skip(pos as int), now as int)
                    == raw_load_model(content@, now as int),
            decreases n - pos,
        {
            let mut j: usize = pos;
            while j < n && !(v[j] == '\n')
                invariant
                    pos <= j <= n,
                    n == v@.len(),
                    forall|q: int| pos <= q < j ==> v@[q] != '\n',
                decreases n - j,
            {
                j = j + 1;
            }
            let ghost rest = v@.skip(pos as int);
            proof {
                assert(forall|q: int| 0 <= q < rest.len() ==> rest[q] == v@[pos + q]);
                lemma_first_idx_window(rest, '\n', j - pos);
                assert(rest.take(j - pos) =~= v@.subrange(pos as int, j as int));
            }
            raw_load_line(content, &v, pos, j, now, &mut out);
            proof {
                let i = first_idx(rest, '\n') as int;
                assert(i == j - pos);
                if j < n {
                    assert(rest.skip(i + 1) =~= v@.skip(j as int + 1));
                    assert(out.deep_view() + raw_load_model(v@.skip(j as int + 1), now as int)
                        =~= raw_load_model(content@, now as int));
                } else {
                    assert(rest.take(i) =~= rest);
                    assert(v@.skip(n as int) =~= Seq::<char>::empty());
                    assert(out.deep_view() + raw_load_model(Seq::<char>::empty(), now as int)
                        =~= raw_load_model(content@, now as int));
                }
            }
            pos = if j < n {
                j + 1
            } else {
                n
            };
        }
        proof {
            assert(v@.skip(n as int) =~= Seq::<char>::empty());
            assert(out.deep_view() =~= raw_load_model(content@, now as int));
        }
        out
    }

    /// Reads the persisted known-blobs text against the instant the clock
    /// reads.
    pub fn load_known_blobs(content: &str) -> (r: Vec<(String, String)>)
        ensures
            exists|now: i64| r.deep_view() == raw_load_model(content@, now as int),
    {
        let now = now_millis();
        Self::load_known_blobs_at(content, now)
    }

    /// Renders the known-blobs pairs for saving, one line per pair.
    pub fn save_known_blobs(known_blobs: &Vec<(String, String)>) -> (r: String)
        ensures
            r@ == raw_save_model(known_blobs.deep_view()),
    {
        proof {
            reveal_strlit(",");
            reveal_strlit("\n");
        }
        let ghost ps = known_blobs.deep_view();
        let n = known_blobs.len();
        let mut out = String::new();
        let mut i: usize = 0;
        proof {
            assert(ps.skip(0) =~= ps);
            assert(out@ + raw_save_model(ps) =~= raw_save_model(ps));
        }
        while i < n
            invariant
                i <= n,
                n == known_blobs@.len(),
                ps == known_blobs.deep_view(),
                out@ + raw_save_model(ps.skip(i as int)) == raw_save_model(ps),
            decreases n - i,
        {
            let ghost before = out@;
            out.append(known_blobs[i].0.as_str());
            out.append(",");
            out.append(known_blobs[i].1.as_str());
            out.append("\n");
            proof {
                reveal_strlit(",");
                reveal_strlit("\n");
                assert(","@ =~= seq![',']);
                assert("\n"@ =~= seq!['\n']);
                assert(ps[i as int] == (known_blobs@[i as int].0@, known_blobs@[i as int].1@));
                assert(out@ =~= before + (ps[i as int].0 + seq![','] + ps[i as int].1
                    + seq!['\n']));
                assert(ps.skip(i as int).drop_first() =~= ps.skip(i as int + 1));
                assert(ps.skip(i as int)[0] == ps[i as int]);
                assert(out@ + raw_save_model(ps.skip(i as int + 1)) =~= raw_save_model(ps));
            }
            i = i + 1;
        }
        proof {
            assert(ps.skip(n as int) =~= Seq::<(Seq<char>, Seq<char>)>::empty());
            assert(out@ =~= raw_save_model(ps));
        }
        out
    }
}

/// Consumes one legacy line spanning `[ls, le)` of the text, appending its
/// entry if it has one.
fn raw_load_line(
    content: &str,
    v: &Vec<char>,
    ls: usize,
    le: usize,
    now: i64,
    out: &mut Vec<(String, String)>,
)
    requires
        ls <= le <= v@.len(),
        v@ == content@,
    ensures
        final(out).deep_view() == match raw_line_entry(
            v@.subrange(ls as int, le as int),
            now as int,
        ) {
            Some(p) => old(out).deep_view().push(p),
            None => old(out).deep_view(),
        },
{
    let ghost line = v@.subrange(ls as int, le as int);
    let mut lo: usize = ls;
    while lo < le && is_space_exec(v[lo])
        invariant
            ls <= lo <= le,
            le <= v@.len(),
            forall|q: int| ls <= q < lo ==> is_space(#[trigger] v@[q]),
        decreases le - lo,
    {
        lo = lo + 1;
    }
    let mut hi: usize = le;
    while hi > lo && is_space_exec(v[hi - 1])
        invariant
            lo <= hi <= le,
            le <= v@.len(),
            forall|q: int| hi <= q < le ==> is_space(#[trigger] v@[q]),
        decreases hi,
    {
        hi = hi - 1;
    }
    proof {
        assert(forall|q: int| 0 <= q < line.len() ==> line[q] == v@[ls + q]);
        lemma_trim_window(line, lo - ls, hi - ls);
    }
    if lo == hi {
        return ;
    }
    let mut c: usize = ls;
    while c < le && !(v[c] == ',')
        invariant
            ls <= c <= le,
            le <= v@.len(),
            forall|q: int| ls <= q < c ==> v@[q] != ',',
        decreases le - c,
    {
        c = c + 1;
    }
    proof {
        lemma_first_idx_window(line, ',', c - ls);
    }
    if c == le {
        return ;
    }
    let mut l1: usize = ls;
    while l1 < c && is_space_exec(v[l1])
        invariant
            ls <= l1 <= c,
            c < v@.len(),
            forall|q: int| ls <= q < l1 ==> is_space(#[trigger] v@[q]),
        decreases c - l1,
    {
        l1 = l1 + 1;
    }
    let mut r1: usize = c;
    while r1 > l1 && is_space_exec(v[r1 - 1])
        invariant
            l1 <= r1 <= c,
            c < v@.len(),
            forall|q: int| r1 <= q < c ==> is_space(#[trigger] v@[q]),
        decreases r1,
    {
        r1 = r1 - 1;
    }
    let ghost id_part = v@.subrange(ls as int, c as int);
    proof {
        assert(forall|q: int| 0 <= q < id_part.len() ==> id_part[q] == v@[ls + q]);
        lemma_trim_window(id_part, l1 - ls, r1 - ls);
        assert(line.take(c - ls) =~= id_part);
    }
    let mut l2: usize = c + 1;
    while l2 < le && is_space_exec(v[l2])
        invariant
            c + 1 <= l2 <= le,
            le <= v@.len(),
            forall|q: int| c + 1 <= q < l2 ==> is_space(#[trigger] v@[q]),
        decreases le - l2,
    {
        l2 = l2 + 1;
    }
    let mut r2: usize = le;
    while r2 > l2 && is_space_exec(v[r2 - 1])
        invariant
            l2 <= r2 <= le,
            le <= v@.len(),
            forall|q: int| r2 <= q < le ==> is_space(#[trigger] v@[q]),
        decreases r2,
    {
        r2 = r2 - 1;
    }
    let ghost exp_part = v@.subrange(c as int + 1, le as int);
    proof {
        assert(forall|q: int| 0 <= q < exp_part.len() ==> exp_part[q] == v@[c + 1 + q]);
        lemma_trim_window(exp_part, l2 - (c + 1), r2 - (c + 1));
        assert(line.skip(c - ls + 1) =~= exp_part);
        assert(v@.subrange(l2 as int, r2 as int) == trim_spec(exp_part));
    }
    match parse_ts_window(v, l2, r2) {
        Some(e) => {
            if now < e {
                let id = content.substring_char(l1, r1).to_owned();
                let ex = content.substring_char(l2, r2).to_owned();
                proof {
                    assert(id_part.subrange(l1 - ls as int, r1 - ls as int) =~= v@.subrange(
                        l1 as int,
                        r1 as int,
                    ));
                    assert(id@ == trim_spec(line.take(c - ls)));
                    assert(ex@ == trim_spec(line.skip(c - ls + 1)));
                }
                out.push((id, ex));
                proof {
                    assert(out.deep_view() =~= old(out).deep_view().push(
                        (trim_spec(line.take(c - ls)), trim_spec(line.skip(c - ls + 1))),
                    ));
                }
            }
        },
        None => {},
    }
}

} // verus!
