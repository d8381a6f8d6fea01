//! Per-tenant, per-subscription bookmarks: the last log time each feed
//! was read to, and whether a pair has ever run.
//!
//! The store is file-backed; the surrounding application reads and writes
//! the files and hands their decoded values here. Everything decided from
//! them — file names, first-run detection, the start-of-collection
//! instant — is verified.

use vstd::prelude::*;
use vstd::string::{StrSliceExecFns, StringExecFns};
use crate::clock::now_millis;
use crate::timefmt::MAX_TS_MILLIS;

verus! {

/// One bookmark: instants in milliseconds since the epoch.
#[derive(Clone, Copy, Debug, PartialEq, Eq, Structural)]
pub struct TenantSubscriptionState {
    pub last_log_time: i64,
    pub last_run: i64,
    pub first_run: bool,
}

impl TenantSubscriptionState {
    /// A first bookmark carrying the instant `now`.
    pub fn new_at(now: i64) -> (r: TenantSubscriptionState)
        ensures
            r == (TenantSubscriptionState { last_log_time: now, last_run: now, first_run: true }),
    {
        TenantSubscriptionState { last_log_time: now, last_run: now, first_run: true }
    }

    /// A first bookmark carrying the instant the clock reads.
    pub fn new() -> (r: TenantSubscriptionState)
        ensures
            r.first_run,
            r.last_log_time == r.last_run,
    {
        let now = now_millis();
        Self::new_at(now)
    }
}

/// Characters a file name may not carry.
pub open spec fn bad_for_filename(c: char) -> bool {
    c == '/' || c == '\\' || c == ':' || c == '*' || c == '?' || c == '"' || c == '<' || c == '>'
        || c == '|'
}

/// `s` with every character unfit for a file name replaced by `_`.
pub open spec fn spec_sanitize(s: Seq<char>) -> Seq<char> {
    s.map_values(
        |c: char|
            if bad_for_filename(c) {
                '_'
            } else {
                c
            },
    )
}

fn bad_for_filename_exec(c: char) -> (r: bool)
    ensures
        r == bad_for_filename(c),
{
    c == '/' || c == '\\' || c == ':' || c == '*' || c == '?' || c == '"' || c == '<' || c == '>'
        || c == '|'
}

/// Replaces every character unfit for a file name by `_`.
pub fn sanitize_filename(s: &str) -> (r: String)
    ensures
        r@ == spec_sanitize(s@),
{
    proof {
        reveal_strlit("_");
    }
    let n = s.unicode_len();
    let mut out = String::new();
    let mut seg: usize = 0;
    let mut i: usize = 0;
    proof {
        assert(out@ =~= spec_sanitize(s@.take(0)));
    }
    while i < n
        invariant
            seg <= i <= n,
            n == s@.len(),
            forall|q: int| seg <= q < i ==> !bad_for_filename(#[trigger] s@[q]),
            out@ + s@.subrange(seg as int, i as int) =~= spec_sanitize(s@.take(i as int)),
        decreases n - i,
    {
        let c = s.get_char(i);
        proof {
            assert(spec_sanitize(s@.take(i as int + 1)) =~= spec_sanitize(s@.take(i as int)).push(
                if bad_for_filename(s@[i as int]) {
                    '_'
                } else {
                    s@[i as int]
                },
            ));
        }
        if bad_for_filename_exec(c) {
            out.append(s.substring_char(seg, i));
            out.append("_");
            proof {
                reveal_strlit("_");
                assert("_"@ =~= seq!['_']);
                assert(out@ =~= (spec_sanitize(s@.take(i as int))).push('_'));
                assert(out@ + s@.subrange(i as int + 1, i as int + 1) =~= spec_sanitize(
                    s@.take(i as int + 1),
                ));
            }
            seg = i + 1;
        } else {
            proof {
                assert(s@.subrange(seg as int, i as int + 1) =~= s@.subrange(
                    seg as int,
                    i as int,
                ).push(s@[i as int]));
                assert(out@ + s@.subrange(seg as int, i as int + 1) =~= spec_sanitize(
                    s@.take(i as int + 1),
                ));
            }
        }
        i = i + 1;
    }
    out.append(s.substring_char(seg, n));
    proof {
        assert(s@.take(n as int) =~= s@);
        assert(out@ =~= spec_sanitize(s@));
    }
    out
}

/// The bookmark file for one tenant and subscription:
/// `<working_dir>/office365-<tenant>-<subscription>.json`, both names
/// sanitized.
pub open spec fn spec_state_file_path(wd: Seq<char>, tenant: Seq<char>, sub: Seq<char>) -> Seq<
    char,
> {
    let dir = if wd.len() > 0 && wd.last() == '/' {
        wd
    } else {
        wd + seq!['/']
    };
    dir + "office365-"@ + spec_sanitize(tenant) + seq!['-'] + spec_sanitize(sub) + ".json"@
}

/// The bookmark store rooted at one working directory.
pub struct StateManager {
    pub working_dir: String,
}

impl StateManager {
    pub fn new(working_dir: &str) -> (r: StateManager)
        ensures
            r.working_dir@ == working_dir@,
    {
        StateManager { working_dir: working_dir.to_owned() }
    }

    /// The file the bookmark of `(tenant_id, subscription)` lives in.
    pub fn get_state_file_path(&self, tenant_id: &str, subscription: &str) -> (r: String)
        ensures
            r@ == spec_state_file_path(self.working_dir@, tenant_id@, subscription@),
    {
        proof {
            reveal_strlit("/");
            reveal_strlit("-");
        }
        let mut out = self.working_dir.clone();
        let n = out.as_str().unicode_len();
        let needs_slash: bool = if n == 0 {
            true
        } else {
            !(out.as_str().get_char(n - 1) == '/')
        };
        if needs_slash {
            out.append("/");
        }
        out.append("office365-");
        out.append(sanitize_filename(tenant_id).as_str());
        out.append("-");
        out.append(sanitize_filename(subscription).as_str());
        out.append(".json");
        proof {
            assert("/"@ =~= seq!['/']);
            assert("-"@ =~= seq!['-']);
            assert(out@ =~= spec_state_file_path(self.working_dir@, tenant_id@, subscription@));
        }
        out
    }

    /// A pair runs for the first time exactly when no bookmark was found
    /// for it.
    pub fn is_first_run(&self, loaded: &Option<TenantSubscriptionState>) -> (r: bool)
        ensures
            r == (loaded is None),
    {
        match loaded {
            Some(_) => false,
            None => true,
        }
    }

    /// The bookmark a pair starts this run with: an existing one is kept
    /// but no longer a first run; a missing one is freshly created at
    /// `now` and must be written back.
    pub fn initialize_state_at(
        &self,
        loaded: Option<TenantSubscriptionState>,
        now: i64,
    ) -> (r: (TenantSubscriptionState, bool))
        ensures
            match loaded {
                Some(prior) => r.0 == (TenantSubscriptionState { first_run: false, ..prior })
                    && r.1 == false,
                None => r.0 == (TenantSubscriptionState {
                    last_log_time: now,
                    last_run: now,
                    first_run: true,
                }) && r.1 == true,
            },
    {
        match loaded {
            Some(prior) => (
                TenantSubscriptionState {
                    last_log_time: prior.last_log_time,
                    last_run: prior.last_run,
                    first_run: false,
                },
                false,
            ),
            None => (TenantSubscriptionState::new_at(now), true),
        }
    }
}

/// Where collection starts when only future events are wanted: from the
/// bookmark when one exists; on a pair's first run, from one second
/// before `now` — the provider wants the start strictly before the end —
/// and fresh bookmarks must be written. Without the mode, the default
/// range applies.
pub fn start_time_decision(
    only_future_events: bool,
    loaded: Option<TenantSubscriptionState>,
    now: i64,
) -> (r: Option<(i64, bool)>)
    requires
        0 <= now <= MAX_TS_MILLIS,
    ensures
        !only_future_events ==> r is None,
        only_future_events ==> match loaded {
            Some(prior) => r == Some((prior.last_log_time, false)),
            None => r == Some(((now - 1000) as i64, true)),
        },
{
    if !only_future_events {
        return None;
    }
    match loaded {
        Some(prior) => Some((prior.last_log_time, false)),
        None => Some((now - 1000, true)),
    }
}

/// The bookmark every subscription is rewritten with at a clean end of
/// run: the run's end instant, no longer a first run.
pub fn end_run_bookmark(now: i64) -> (r: TenantSubscriptionState)
    ensures
        r == (TenantSubscriptionState { last_log_time: now, last_run: now, first_run: false }),
{
    TenantSubscriptionState { last_log_time: now, last_run: now, first_run: false }
}

} // verus!
