//! The run's single authority: accounting of outstanding work, retry with
//! a bounded ledger, rate-limit backoff, and the completion verdict.
//!
//! The surrounding application runs the channel loop; every decision in it
//! is taken here. Status events move the counters exactly as stated; an
//! error event either re-sends its URL, drawing on a bounded retry ledger,
//! or gives the URL up once its budget is gone. While a rate-limit backoff
//! is active a re-send does not consume budget.

use vstd::prelude::*;
use crate::lru_store::{
    Entries, has_key, key_idx, value_of, remove_key, uniq_keys, put_model, lru_new, lru_put,
    lru_get, lru_pop, lru_entries, lru_capacity, lemma_key_idx, lemma_key_idx_unique,
    lemma_remove_key, lemma_filter_all, lemma_put_model, other_key,
};

verus! {

/// Bound of the retry ledger: URLs tracked at once.
pub const RETRY_MAP_CAPACITY: usize = 50_000;

/// How long a rate-limit backoff lasts, in milliseconds.
pub const BACKOFF_MILLIS: i64 = 30_000;

#[derive(Clone, Copy, Debug, PartialEq, Eq, Structural)]
pub struct RunStats {
    pub blobs_found: u64,
    pub blobs_successful: u64,
    pub blobs_error: u64,
    pub blobs_retried: u64,
}

#[derive(Clone, Copy, Debug, PartialEq, Eq, Structural)]
pub struct RunState {
    pub awaiting_content_types: u64,
    pub awaiting_content_blobs: u64,
    pub stats: RunStats,
    pub rate_limited: bool,
}

/// The state a run starts in.
pub open spec fn initial_run_state() -> RunState {
    RunState {
        awaiting_content_types: 0u64,
        awaiting_content_blobs: 0u64,
        stats: RunStats {
            blobs_found: 0u64,
            blobs_successful: 0u64,
            blobs_error: 0u64,
            blobs_retried: 0u64,
        },
        rate_limited: false,
    }
}

impl RunState {
    pub fn new() -> (r: RunState)
        ensures
            r == (RunState {
                awaiting_content_types: 0u64,
                awaiting_content_blobs: 0u64,
                stats: RunStats {
                    blobs_found: 0u64,
                    blobs_successful: 0u64,
                    blobs_error: 0u64,
                    blobs_retried: 0u64,
                },
                rate_limited: false,
            }),
    {
        RunState {
            awaiting_content_types: 0,
            awaiting_content_blobs: 0,
            stats: RunStats {
                blobs_found: 0,
                blobs_successful: 0,
                blobs_error: 0,
                blobs_retried: 0,
            },
            rate_limited: false,
        }
    }
}

/// A status event from the discoverer or the fetcher.
#[derive(Clone, Copy, Debug, PartialEq, Eq, Structural)]
pub enum StatusMessage {
    FoundNewContentBlob,
    FinishedContentBlobs,
    RetrievedContentBlob,
    ErrorContentBlob,
    BeingThrottled,
}

/// What to do with an URL that erred.
#[derive(Clone, Copy, Debug, PartialEq, Eq, Structural)]
pub enum RetryDecision {
    /// Re-send the work to its input channel.
    Resend,
    /// The budget is gone: the URL is abandoned and counted as an error.
    GiveUp,
}

/// The retries left per URL, summed over the whole ledger.
pub open spec fn sum_vals(es: Entries) -> int
    decreases es.len(),
{
    if es.len() == 0 {
        0
    } else {
        sum_vals(es.drop_last()) + es.last().1
    }
}

pub struct MessageLoopEngine {
    pub state: RunState,
    pub retry_map: lru::LruCache<String, i64>,
    pub retries: u64,
    pub backoff_started: Option<i64>,
    pub first_errors: Ghost<nat>,
    pub throttled_resends: Ghost<nat>,
    pub discovery_gaveups: Ghost<nat>,
    pub erred: Ghost<Set<Seq<char>>>,
}

impl MessageLoopEngine {
    /// The retry ledger: URL to retries left, most recently touched first.
    pub open spec fn ledger(&self) -> Entries {
        lru_entries(self.retry_map)
    }

    /// The bound of the retry ledger.
    pub open spec fn ledger_capacity(&self) -> nat {
        lru_capacity(self.retry_map)
    }

    /// The configured retry budget per URL.
    pub open spec fn retries_spec(&self) -> int {
        self.retries as int
    }

    /// When the active backoff started, if one is active.
    pub open spec fn backoff_spec(&self) -> Option<i64> {
        self.backoff_started
    }

    /// How many first errors opened a ledger entry.
    pub open spec fn first_errors_spec(&self) -> nat {
        self.first_errors@
    }

    /// How many re-sends happened while rate limited.
    pub open spec fn throttled_spec(&self) -> nat {
        self.throttled_resends@
    }

    /// How many discovery pages were given up.
    pub open spec fn discovery_gaveups_spec(&self) -> nat {
        self.discovery_gaveups@
    }

    /// The URLs that ever erred.
    pub open spec fn erred_spec(&self) -> Set<Seq<char>> {
        self.erred@
    }

    pub open spec fn wf(&self) -> bool {
        &&& uniq_keys(self.ledger())
        &&& self.ledger().len() <= self.ledger_capacity()
        &&& self.ledger_capacity() >= 1
        &&& 1 <= self.retries_spec() <= i64::MAX as int
        &&& forall|i: int|
            0 <= i < self.ledger().len() ==> 0 <= (#[trigger] self.ledger()[i]).1
                < self.retries_spec()
        &&& forall|i: int|
            0 <= i < self.ledger().len() ==> self.erred_spec().contains(
                (#[trigger] self.ledger()[i]).0,
            )
        // every found blob is resolved, outstanding, or counted as an error;
        // errors beyond that are given-up discovery pages
        &&& self.state.stats.blobs_found as int == self.state.stats.blobs_successful as int + (
        self.state.stats.blobs_error as int - self.discovery_gaveups_spec()) + self.state.awaiting_content_blobs as int
        &&& self.state.stats.blobs_error >= self.discovery_gaveups_spec()
        // every re-send was paid for by a budget unit, a fresh ledger entry,
        // or a throttled pass
        &&& self.state.stats.blobs_retried as int + sum_vals(self.ledger())
            <= self.retries_spec() * self.first_errors_spec() + self.throttled_spec()
        &&& self.state.rate_limited == (self.backoff_spec() is Some)
    }

    /// A fresh engine for one run, with `retries` attempts per URL.
    pub fn new(retries: u64) -> (r: Self)
        requires
            1 <= retries <= i64::MAX as u64,
        ensures
            r.wf(),
            r.state == initial_run_state(),
            r.ledger() == Seq::<(Seq<char>, i64)>::empty(),
            r.retries_spec() == retries as int,
            r.first_errors_spec() == 0,
            r.throttled_spec() == 0,
            r.discovery_gaveups_spec() == 0,
            r.erred_spec() == Set::<Seq<char>>::empty(),
            r.backoff_spec() is None,
    {
        MessageLoopEngine {
            state: RunState::new(),
            retry_map: lru_new(RETRY_MAP_CAPACITY),
            retries,
            backoff_started: None,
            first_errors: Ghost(0),
            throttled_resends: Ghost(0),
            discovery_gaveups: Ghost(0),
            erred: Ghost(Set::empty()),
        }
    }

    /// Accounts one seeded discovery URL.
    pub fn note_seeded_url(&mut self)
        requires
            old(self).wf(),
            old(self).state.awaiting_content_types < u64::MAX,
        ensures
            final(self).wf(),
            final(self).state == (RunState {
                awaiting_content_types: (old(self).state.awaiting_content_types + 1) as u64,
                ..old(self).state
            }),
            final(self).ledger() == old(self).ledger(),
            final(self).unchanged_ghosts(old(self)),
    {
        self.state.awaiting_content_types = self.state.awaiting_content_types + 1;
    }

    /// The bookkeeping the laws speak of, untouched.
    pub open spec fn unchanged_ghosts(&self, prior: &Self) -> bool {
        &&& self.retries_spec() == prior.retries_spec()
        &&& self.first_errors_spec() == prior.first_errors_spec()
        &&& self.throttled_spec() == prior.throttled_spec()
        &&& self.discovery_gaveups_spec() == prior.discovery_gaveups_spec()
        &&& self.erred_spec() == prior.erred_spec()
    }

    /// How many URLs the retry ledger tracks.
    pub fn ledger_len(&self) -> (n: usize)
        ensures
            n == self.ledger().len(),
    {
        crate::lru_store::lru_len(&self.retry_map)
    }

    /// The run is complete: no page walk and no blob is outstanding.
    pub fn check_done(&self) -> (r: bool)
        ensures
            r == (self.state.awaiting_content_types == 0 && self.state.awaiting_content_blobs
                == 0),
    {
        self.state.awaiting_content_types == 0 && self.state.awaiting_content_blobs == 0
    }

    /// Consumes one status event at the instant `now` and says whether the
    /// run is complete afterwards.
    pub fn handle_status(&mut self, msg: StatusMessage, now: i64) -> (done: bool)
        requires
            old(self).wf(),
            msg is FoundNewContentBlob ==> old(self).state.stats.blobs_found < u64::MAX && old(self).state.awaiting_content_blobs < u64::MAX,
            msg is RetrievedContentBlob ==> old(self).state.awaiting_content_blobs >= 1 && old(self).state.stats.blobs_successful < u64::MAX,
            msg is ErrorContentBlob ==> old(self).state.awaiting_content_blobs >= 1 && old(self).state.stats.blobs_error < u64::MAX,
        ensures
            final(self).wf(),
            final(self).ledger() == old(self).ledger(),
            final(self).unchanged_ghosts(old(self)),
            done == (final(self).state.awaiting_content_types == 0 && final(self).state.awaiting_content_blobs == 0 && !(msg is FoundNewContentBlob) && !(msg
                is BeingThrottled)),
            match msg {
                StatusMessage::FoundNewContentBlob => final(self).state == (RunState {
                    awaiting_content_blobs: (old(self).state.awaiting_content_blobs + 1) as u64,
                    stats: RunStats {
                        blobs_found: (old(self).state.stats.blobs_found + 1) as u64,
                        ..old(self).state.stats
                    },
                    ..old(self).state
                }),
                StatusMessage::FinishedContentBlobs => final(self).state == (RunState {
                    awaiting_content_types: if old(self).state.awaiting_content_types > 0 {
                        (old(self).state.awaiting_content_types - 1) as u64
                    } else {
                        0u64
                    },
                    ..old(self).state
                }),
                StatusMessage::RetrievedContentBlob => final(self).state == (RunState {
                    awaiting_content_blobs: (old(self).state.awaiting_content_blobs - 1) as u64,
                    stats: RunStats {
                        blobs_successful: (old(self).state.stats.blobs_successful + 1) as u64,
                        ..old(self).state.stats
                    },
                    ..old(self).state
                }),
                StatusMessage::ErrorContentBlob => final(self).state == (RunState {
                    awaiting_content_blobs: (old(self).state.awaiting_content_blobs - 1) as u64,
                    stats: RunStats {
                        blobs_error: (old(self).state.stats.blobs_error + 1) as u64,
                        ..old(self).state.stats
                    },
                    ..old(self).state
                }),
                StatusMessage::BeingThrottled => ({
                    // a first throttle starts the backoff; later ones do not
                    // extend it
                    &&& old(self).backoff_spec() is Some ==> *final(self) == *old(self)
                    &&& old(self).backoff_spec() is None ==> final(self).backoff_spec() == Some(
                        now,
                    ) && final(self).state == (RunState { rate_limited: true, ..old(self).state })
                }),
            },
    {
        match msg {
            StatusMessage::FoundNewContentBlob => {
                self.state.awaiting_content_blobs = self.state.awaiting_content_blobs + 1;
                self.state.stats.blobs_found = self.state.stats.blobs_found + 1;
                false
            },
            StatusMessage::FinishedContentBlobs => {
                if self.state.awaiting_content_types > 0 {
                    self.state.awaiting_content_types = self.state.awaiting_content_types - 1;
                }
                self.check_done()
            },
            StatusMessage::RetrievedContentBlob => {
                self.state.awaiting_content_blobs = self.state.awaiting_content_blobs - 1;
                self.state.stats.blobs_successful = self.state.stats.blobs_successful + 1;
                self.check_done()
            },
            StatusMessage::ErrorContentBlob => {
                self.state.awaiting_content_blobs = self.state.awaiting_content_blobs - 1;
                self.state.stats.blobs_error = self.state.stats.blobs_error + 1;
                self.check_done()
            },
            StatusMessage::BeingThrottled => {
                if self.backoff_started.is_none() {
                    self.backoff_started = Some(now);
                    self.state.rate_limited = true;
                }
                false
            },
        }
    }

    /// Releases the rate-limit backoff once it has lasted its course.
    pub fn tick(&mut self, now: i64)
        requires
            old(self).wf(),
        ensures
            final(self).wf(),
            final(self).ledger() == old(self).ledger(),
            final(self).unchanged_ghosts(old(self)),
            final(self).state.stats == old(self).state.stats,
            final(self).state.awaiting_content_types == old(self).state.awaiting_content_types,
            final(self).state.awaiting_content_blobs == old(self).state.awaiting_content_blobs,
            match old(self).backoff_spec() {
                Some(started) => if now as int - started as int >= BACKOFF_MILLIS as int {
                    final(self).backoff_spec() is None && !final(self).state.rate_limited
                } else {
                    final(self).backoff_spec() == old(self).backoff_spec() && final(self).state.rate_limited
                },
                None => final(self).backoff_spec() is None && !final(self).state.rate_limited,
            },
    {
        match self.backoff_started {
            Some(started) => {
                if (now as i128) - (started as i128) >= BACKOFF_MILLIS as i128 {
                    self.backoff_started = None;
                    self.state.rate_limited = false;
                }
            },
            None => {},
        }
    }

    /// What the retry ledger says about an erred URL. A first error opens
    /// an entry with the budget less the re-send now granted; a later error
    /// re-sends against the budget, not drawing on it while rate limited;
    /// a budget of zero gives the URL up and closes its entry.
    #[verifier::rlimit(100)]
    fn ledger_step(&mut self, url: &str) -> (d: RetryDecision)
        requires
            old(self).wf(),
        ensures
            final(self).state == old(self).state,
            final(self).retries_spec() == old(self).retries_spec(),
            final(self).backoff_spec() == old(self).backoff_spec(),
            final(self).discovery_gaveups_spec() == old(self).discovery_gaveups_spec(),
            final(self).ledger_capacity() == old(self).ledger_capacity(),
            final(self).erred_spec() == old(self).erred_spec().insert(url@),
            uniq_keys(final(self).ledger()),
            final(self).ledger().len() <= final(self).ledger_capacity(),
            forall|i: int|
                0 <= i < final(self).ledger().len() ==> 0 <= (#[trigger] final(self).ledger()[i]).1 < final(self).retries_spec(),
            forall|i: int|
                0 <= i < final(self).ledger().len() ==> final(self).erred_spec().contains(
                    (#[trigger] final(self).ledger()[i]).0,
                ),
            d == (if has_key(old(self).ledger(), url@) && value_of(old(self).ledger(), url@)
                == 0 {
                RetryDecision::GiveUp
            } else {
                RetryDecision::Resend
            }),
            d is GiveUp ==> final(self).ledger() == remove_key(old(self).ledger(), url@)
                && sum_vals(final(self).ledger()) == sum_vals(old(self).ledger()) && final(self).first_errors_spec() == old(self).first_errors_spec() && final(self).throttled_spec() == old(self).throttled_spec(),
            d is Resend ==> has_key(final(self).ledger(), url@),
            d is Resend && !has_key(old(self).ledger(), url@) ==> sum_vals(final(self).ledger())
                <= sum_vals(old(self).ledger()) + old(self).retries_spec() - 1 && final(self).first_errors_spec() == old(self).first_errors_spec() + 1 && final(self).throttled_spec() == old(self).throttled_spec() && value_of(final(self).ledger(), url@)
                == old(self).retries_spec() - 1,
            d is Resend && has_key(old(self).ledger(), url@) && old(self).backoff_spec() is Some
                ==> sum_vals(final(self).ledger()) == sum_vals(old(self).ledger()) && final(self).first_errors_spec() == old(self).first_errors_spec() && final(self).throttled_spec() == old(self).throttled_spec() + 1 && value_of(final(self).ledger(), url@)
                == value_of(old(self).ledger(), url@),
            d is Resend && has_key(old(self).ledger(), url@) && old(self).backoff_spec() is None
                ==> sum_vals(final(self).ledger()) == sum_vals(old(self).ledger()) - 1 && final(self).first_errors_spec() == old(self).first_errors_spec() && final(self).throttled_spec() == old(self).throttled_spec() && value_of(final(self).ledger(), url@)
                == value_of(old(self).ledger(), url@) - 1,
    {
        let ghost es = lru_entries(self.retry_map);
        let ghost erred2 = self.erred@.insert(url@);
        proof {
            self.erred@ = erred2;
            lemma_remove_key(es, url@);
            assert(forall|i: int|
                0 <= i < es.len() ==> erred2.contains((#[trigger] es[i]).0));
        }
        match lru_get(&mut self.retry_map, url) {
            Some(retries_left) => {
                let ghost promoted = lru_entries(self.retry_map);
                proof {
                    lemma_ledger_promote(es, url@, retries_left);
                }
                if retries_left == 0 {
                    lru_pop(&mut self.retry_map, url);
                    proof {
                        lemma_ledger_pop(es, url@, retries_left);
                        lemma_remove_key_subset(es, url@);
                        lemma_entry_subset_props(es, remove_key(es, url@), erred2, self.retries as int);
                        lemma_remove_key(es, url@);
                    }
                    RetryDecision::GiveUp
                } else {
                    let throttled = self.backoff_started.is_some();
                    let next: i64 = if throttled {
                        retries_left
                    } else {
                        retries_left - 1
                    };
                    proof {
                        if throttled {
                            self.throttled_resends@ = self.throttled_resends@ + 1;
                        }
                        lemma_key_idx(es, url@);
                        assert(0 <= retries_left < self.retries as int);
                    }
                    lru_put(&mut self.retry_map, String::from_str(url), next);
                    proof {
                        lemma_ledger_update(
                            es,
                            lru_capacity(self.retry_map),
                            url@,
                            retries_left,
                            next,
                        );
                        let after = lru_entries(self.retry_map);
                        assert(after == seq![(url@, next)] + remove_key(es, url@));
                        lemma_remove_key(es, url@);
                        lemma_prepend_ledger_props(
                            remove_key(es, url@),
                            url@,
                            next,
                        );
                        lemma_remove_key_subset(es, url@);
                        lemma_entry_subset_props(
                            es,
                            remove_key(es, url@),
                            erred2,
                            self.retries as int,
                        );
                    }
                    RetryDecision::Resend
                }
            },
            None => {
                let budget: i64 = (self.retries - 1) as i64;
                proof {
                    self.first_errors@ = self.first_errors@ + 1;
                    lemma_put_model(es, lru_capacity(self.retry_map), url@, budget);
                    lemma_sum_fresh_put(es, lru_capacity(self.retry_map), url@, budget);
                }
                lru_put(&mut self.retry_map, String::from_str(url), budget);
                proof {
                    let after = lru_entries(self.retry_map);
                    if es.len() < lru_capacity(self.retry_map) {
                        lemma_prepend_ledger_props(es, url@, budget);
                        lemma_entry_subset_props(es, es, erred2, self.retries as int);
                    } else {
                        lemma_drop_last_subset(es);
                        lemma_prepend_ledger_props(es.drop_last(), url@, budget);
                        lemma_entry_subset_props(es, es.drop_last(), erred2, self.retries as int);
                    }
                }
                RetryDecision::Resend
            },
        }
    }

    /// Consumes one failed discovery page. On a re-send the caller queues
    /// the URL back to the discoverer; on a give-up the page is abandoned
    /// and counted as an error.
    pub fn handle_blob_error(&mut self, url: &str) -> (d: RetryDecision)
        requires
            old(self).wf(),
            old(self).state.awaiting_content_types >= 1,
            old(self).state.stats.blobs_retried < u64::MAX,
            old(self).state.stats.blobs_error < u64::MAX,
        ensures
            final(self).wf(),
            final(self).retries_spec() == old(self).retries_spec(),
            final(self).backoff_spec() == old(self).backoff_spec(),
            final(self).erred_spec() == old(self).erred_spec().insert(url@),
            d == (if has_key(old(self).ledger(), url@) && value_of(old(self).ledger(), url@)
                == 0 {
                RetryDecision::GiveUp
            } else {
                RetryDecision::Resend
            }),
            d is GiveUp ==> final(self).ledger() == remove_key(old(self).ledger(), url@)
                && !has_key(final(self).ledger(), url@) && final(self).state == (RunState {
                awaiting_content_types: (old(self).state.awaiting_content_types - 1) as u64,
                stats: RunStats {
                    blobs_error: (old(self).state.stats.blobs_error + 1) as u64,
                    ..old(self).state.stats
                },
                ..old(self).state
            }) && final(self).discovery_gaveups_spec() == old(self).discovery_gaveups_spec() + 1,
            d is Resend ==> has_key(final(self).ledger(), url@) && final(self).state == (RunState {
                stats: RunStats {
                    blobs_retried: (old(self).state.stats.blobs_retried + 1) as u64,
                    ..old(self).state.stats
                },
                ..old(self).state
            }) && final(self).discovery_gaveups_spec() == old(self).discovery_gaveups_spec(),
            d is Resend && has_key(old(self).ledger(), url@) && old(self).backoff_spec() is Some
                ==> value_of(final(self).ledger(), url@) == value_of(old(self).ledger(), url@),
            d is Resend && has_key(old(self).ledger(), url@) && old(self).backoff_spec() is None
                ==> value_of(final(self).ledger(), url@) == value_of(old(self).ledger(), url@)
                - 1,
            d is Resend && !has_key(old(self).ledger(), url@) ==> value_of(
                final(self).ledger(),
                url@,
            ) == old(self).retries_spec() - 1,
    {
        let d = self.ledger_step(url);
        match d {
            RetryDecision::GiveUp => {
                self.state.awaiting_content_types = self.state.awaiting_content_types - 1;
                self.state.stats.blobs_error = self.state.stats.blobs_error + 1;
                proof {
                    self.discovery_gaveups@ = self.discovery_gaveups@ + 1;
                    lemma_remove_key(lru_entries(old(self).retry_map), url@);
                }
            },
            RetryDecision::Resend => {
                self.state.stats.blobs_retried = self.state.stats.blobs_retried + 1;
                proof {
                    vstd::arithmetic::mul::lemma_mul_is_distributive_add(
                        old(self).retries_spec(),
                        old(self).first_errors_spec() as int,
                        1,
                    );
                }
            },
        }
        d
    }

    /// Consumes one failed blob fetch, named by the blob's URL. On a
    /// re-send the caller queues the blob back to the fetcher; on a
    /// give-up the blob is abandoned and counted as an error.
    pub fn handle_content_error(&mut self, url: &str) -> (d: RetryDecision)
        requires
            old(self).wf(),
            old(self).state.awaiting_content_blobs >= 1,
            old(self).state.stats.blobs_retried < u64::MAX,
            old(self).state.stats.blobs_error < u64::MAX,
        ensures
            final(self).wf(),
            final(self).retries_spec() == old(self).retries_spec(),
            final(self).backoff_spec() == old(self).backoff_spec(),
            final(self).erred_spec() == old(self).erred_spec().insert(url@),
            final(self).discovery_gaveups_spec() == old(self).discovery_gaveups_spec(),
            d == (if has_key(old(self).ledger(), url@) && value_of(old(self).ledger(), url@)
                == 0 {
                RetryDecision::GiveUp
            } else {
                RetryDecision::Resend
            }),
            d is GiveUp ==> final(self).ledger() == remove_key(old(self).ledger(), url@)
                && !has_key(final(self).ledger(), url@) && final(self).state == (RunState {
                awaiting_content_blobs: (old(self).state.awaiting_content_blobs - 1) as u64,
                stats: RunStats {
                    blobs_error: (old(self).state.stats.blobs_error + 1) as u64,
                    ..old(self).state.stats
                },
                ..old(self).state
            }),
            d is Resend ==> has_key(final(self).ledger(), url@) && final(self).state == (RunState {
                stats: RunStats {
                    blobs_retried: (old(self).state.stats.blobs_retried + 1) as u64,
                    ..old(self).state.stats
                },
                ..old(self).state
            }),
            d is Resend && has_key(old(self).ledger(), url@) && old(self).backoff_spec() is Some
                ==> value_of(final(self).ledger(), url@) == value_of(old(self).ledger(), url@),
            d is Resend && has_key(old(self).ledger(), url@) && old(self).backoff_spec() is None
                ==> value_of(final(self).ledger(), url@) == value_of(old(self).ledger(), url@)
                - 1,
            d is Resend && !has_key(old(self).ledger(), url@) ==> value_of(
                final(self).ledger(),
                url@,
            ) == old(self).retries_spec() - 1,
    {
        let d = self.ledger_step(url);
        match d {
            RetryDecision::GiveUp => {
                self.state.awaiting_content_blobs = self.state.awaiting_content_blobs - 1;
                self.state.stats.blobs_error = self.state.stats.blobs_error + 1;
                proof {
                    lemma_remove_key(lru_entries(old(self).retry_map), url@);
                }
            },
            RetryDecision::Resend => {
                self.state.stats.blobs_retried = self.state.stats.blobs_retried + 1;
                proof {
                    vstd::arithmetic::mul::lemma_mul_is_distributive_add(
                        old(self).retries_spec(),
                        old(self).first_errors_spec() as int,
                        1,
                    );
                }
            },
        }
        d
    }
}

// ---------------------------------------------------------------------------
// sums over the ledger
// ---------------------------------------------------------------------------

/// A ledger of non-negative budgets sums to something non-negative.
proof fn lemma_sum_nonneg(es: Entries)
    requires
        forall|i: int| 0 <= i < es.len() ==> (#[trigger] es[i]).1 >= 0,
    ensures
        sum_vals(es) >= 0,
    decreases es.len(),
{
    if es.len() > 0 {
        lemma_sum_nonneg(es.drop_last());
    }
}

/// Prepending one entry adds its budget to the sum.
proof fn lemma_sum_prepend(e: (Seq<char>, i64), es: Entries)
    ensures
        sum_vals(seq![e] + es) == e.1 + sum_vals(es),
    decreases es.len(),
{
    let s = seq![e] + es;
    assert(s.len() == 1 + es.len());
    if es.len() == 0 {
        assert(s.drop_last() =~= Seq::<(Seq<char>, i64)>::empty());
        assert(s.last() == e);
        assert(sum_vals(s.drop_last()) == 0);
        assert(sum_vals(es) == 0);
        assert(sum_vals(s) == sum_vals(s.drop_last()) + s.last().1);
    } else {
        assert(s.drop_last() =~= seq![e] + es.drop_last());
        assert(s.last() == es.last());
        lemma_sum_prepend(e, es.drop_last());
        assert(sum_vals(s) == sum_vals(s.drop_last()) + s.last().1);
        assert(sum_vals(es) == sum_vals(es.drop_last()) + es.last().1);
    }
}

/// Removing a key subtracts exactly its budget from the sum.
proof fn lemma_sum_remove_key(es: Entries, k: Seq<char>)
    requires
        uniq_keys(es),
        has_key(es, k),
    ensures
        sum_vals(remove_key(es, k)) == sum_vals(es) - value_of(es, k),
    decreases es.len(),
{
    reveal(Seq::filter);
    let pred = other_key(k);
    let head = es.drop_last();
    if es.last().0 == k {
        lemma_key_idx_unique(es, k, es.len() - 1);
        assert(forall|j: int| 0 <= j < head.len() ==> pred(#[trigger] head[j])) by {
            assert(forall|j: int| 0 <= j < head.len() ==> head[j] == es[j]);
        }
        lemma_filter_all(head, pred);
    } else {
        assert(pred(es.last()));
        assert(has_key(head, k)) by {
            let i = key_idx(es, k);
            lemma_key_idx(es, k);
            assert(i < es.len() - 1);
            assert(head[i] == es[i]);
        }
        let i = key_idx(head, k);
        lemma_key_idx(head, k);
        assert(es[i] == head[i]);
        lemma_key_idx_unique(es, k, i);
        lemma_sum_remove_key(head, k);
        assert(remove_key(es, k) == remove_key(head, k).push(es.last()));
        assert(remove_key(es, k).drop_last() =~= remove_key(head, k));
        assert(remove_key(es, k).last() == es.last());
    }
}

/// A singleton whose key is the removed one filters to nothing.
proof fn lemma_filter_singleton_out(k: Seq<char>, v: i64)
    ensures
        seq![(k, v)].filter(other_key(k)) == Seq::<(Seq<char>, i64)>::empty(),
{
    reveal(Seq::filter);
    let p = other_key(k);
    let one = seq![(k, v)];
    assert(one.drop_last() =~= Seq::<(Seq<char>, i64)>::empty());
    assert(one.drop_last().filter(p) =~= Seq::<(Seq<char>, i64)>::empty());
    assert(one.last() == (k, v));
    assert(!p((k, v)));
    assert(one.filter(p) =~= Seq::<(Seq<char>, i64)>::empty());
}

/// The promoted shape after a ledger hit keeps keys unique and the sum.
proof fn lemma_ledger_promote(es: Entries, k: Seq<char>, was: i64)
    requires
        uniq_keys(es),
        has_key(es, k),
        was == value_of(es, k),
    ensures
        uniq_keys(seq![(k, was)] + remove_key(es, k)),
        has_key(seq![(k, was)] + remove_key(es, k), k),
        value_of(seq![(k, was)] + remove_key(es, k), k) == was,
        (seq![(k, was)] + remove_key(es, k)).len() == es.len(),
        sum_vals(seq![(k, was)] + remove_key(es, k)) == sum_vals(es),
{
    let rest = remove_key(es, k);
    lemma_remove_key(es, k);
    lemma_prepend_ledger_props(rest, k, was);
    lemma_sum_prepend((k, was), rest);
    lemma_sum_remove_key(es, k);
}

/// Popping the promoted key leaves exactly the removal; its budget leaves
/// the sum.
proof fn lemma_ledger_pop(es: Entries, k: Seq<char>, was: i64)
    requires
        uniq_keys(es),
        has_key(es, k),
        was == value_of(es, k),
    ensures
        remove_key(seq![(k, was)] + remove_key(es, k), k) == remove_key(es, k),
        sum_vals(remove_key(es, k)) == sum_vals(es) - was,
{
    let rest = remove_key(es, k);
    lemma_remove_key(es, k);
    Seq::filter_distributes_over_add(seq![(k, was)], rest, other_key(k));
    lemma_filter_singleton_out(k, was);
    lemma_filter_all(rest, other_key(k));
    assert(remove_key(seq![(k, was)] + rest, k) =~= rest);
    lemma_sum_remove_key(es, k);
}

/// Updating the promoted key in place replaces the front entry; the sum
/// moves by the budget difference.
proof fn lemma_ledger_update(es: Entries, cap: nat, k: Seq<char>, was: i64, now_v: i64)
    requires
        uniq_keys(es),
        has_key(es, k),
        was == value_of(es, k),
    ensures
        put_model(seq![(k, was)] + remove_key(es, k), cap, k, now_v) == seq![(k, now_v)]
            + remove_key(es, k),
        sum_vals(seq![(k, now_v)] + remove_key(es, k)) == sum_vals(es) - was + now_v,
{
    let rest = remove_key(es, k);
    lemma_remove_key(es, k);
    let promoted = seq![(k, was)] + rest;
    lemma_ledger_promote(es, k, was);
    assert(has_key(promoted, k));
    Seq::filter_distributes_over_add(seq![(k, was)], rest, other_key(k));
    lemma_filter_singleton_out(k, was);
    lemma_filter_all(rest, other_key(k));
    assert(remove_key(promoted, k) =~= rest);
    assert(put_model(promoted, cap, k, now_v) == seq![(k, now_v)] + rest);
    lemma_sum_prepend((k, now_v), rest);
    lemma_sum_remove_key(es, k);
}

/// A fresh put grows the sum by at most the granted budget.
proof fn lemma_sum_fresh_put(es: Entries, cap: nat, k: Seq<char>, v: i64)
    requires
        uniq_keys(es),
        !has_key(es, k),
        cap >= 1,
        v >= 0,
        forall|i: int| 0 <= i < es.len() ==> (#[trigger] es[i]).1 >= 0,
    ensures
        sum_vals(put_model(es, cap, k, v)) <= sum_vals(es) + v,
{
    if es.len() < cap {
        lemma_sum_prepend((k, v), es);
    } else {
        assert(es.len() >= 1);
        lemma_sum_prepend((k, v), es.drop_last());
        assert(sum_vals(es) == sum_vals(es.drop_last()) + es.last().1);
        assert(es[es.len() - 1].1 >= 0);
    }
}

/// Prepending a fresh key keeps keys unique; the new entry sits in front.
proof fn lemma_prepend_ledger_props(es: Entries, k: Seq<char>, v: i64)
    requires
        uniq_keys(es),
        !has_key(es, k),
    ensures
        uniq_keys(seq![(k, v)] + es),
        has_key(seq![(k, v)] + es, k),
        value_of(seq![(k, v)] + es, k) == v,
        (seq![(k, v)] + es).len() == es.len() + 1,
{
    let r = seq![(k, v)] + es;
    assert forall|i: int, j: int|
        0 <= i < j < r.len() implies (#[trigger] r[i]).0 != (#[trigger] r[j]).0 by {
        if i == 0 {
            assert(r[j] == es[j - 1]);
            if es[j - 1].0 == k {
                assert(has_key(es, k));
            }
        } else {
            assert(r[i] == es[i - 1] && r[j] == es[j - 1]);
        }
    }
    assert(r[0] == (k, v));
    lemma_key_idx_unique(r, k, 0);
}

/// The tail of a unique-keyed ledger is drawn from it.
proof fn lemma_drop_last_subset(es: Entries)
    requires
        uniq_keys(es),
        es.len() >= 1,
    ensures
        uniq_keys(es.drop_last()),
        forall|i: int| 0 <= i < es.len() - 1 ==> es.contains(#[trigger] es.drop_last()[i]),
{
    assert forall|i: int| 0 <= i < es.len() - 1 implies es.contains(
        #[trigger] es.drop_last()[i],
    ) by {
        assert(es.drop_last()[i] == es[i]);
    }
}

/// Entries drawn from a well-formed ledger keep their budgets in range and
/// their keys among the erred.
proof fn lemma_entry_subset_props(es: Entries, r: Entries, erred: Set<Seq<char>>, bound: int)
    requires
        forall|i: int| 0 <= i < es.len() ==> 0 <= (#[trigger] es[i]).1 < bound,
        forall|i: int| 0 <= i < es.len() ==> erred.contains((#[trigger] es[i]).0),
        forall|i: int| 0 <= i < r.len() ==> es.contains(#[trigger] r[i]),
    ensures
        forall|i: int| 0 <= i < r.len() ==> 0 <= (#[trigger] r[i]).1 < bound,
        forall|i: int| 0 <= i < r.len() ==> erred.contains((#[trigger] r[i]).0),
{
    assert forall|i: int|
        0 <= i < r.len() implies 0 <= (#[trigger] r[i]).1 < bound && erred.contains(r[i].0) by {
        let q = choose|q: int| 0 <= q < es.len() && es[q] == r[i];
        assert(0 <= es[q].1 < bound && erred.contains(es[q].0));
    }
}

/// The entries a removal keeps are drawn from the ledger.
proof fn lemma_remove_key_subset(es: Entries, k: Seq<char>)
    requires
        uniq_keys(es),
    ensures
        forall|i: int|
            0 <= i < remove_key(es, k).len() ==> es.contains(#[trigger] remove_key(es, k)[i]),
{
    lemma_remove_key(es, k);
    assert forall|i: int|
        0 <= i < remove_key(es, k).len() implies es.contains(
        #[trigger] remove_key(es, k)[i],
    ) by {
        assert(remove_key(es, k).contains(remove_key(es, k)[i]));
    }
}

// ---------------------------------------------------------------------------
// the engine's laws
// ---------------------------------------------------------------------------

/// A URL that never erred has no entry in the retry ledger. Together with
/// the give-up clause of the error handlers — which removes the entry —
/// this is what remains in the ledger at end of run: at most the URLs that
/// erred and then succeeded before their budget ran out.
pub proof fn lemma_no_error_no_ledger_entry(e: &MessageLoopEngine, url: Seq<char>)
    requires
        e.wf(),
        !e.erred_spec().contains(url),
    ensures
        !has_key(e.ledger(), url),
{
    if has_key(e.ledger(), url) {
        let i = key_idx(e.ledger(), url);
        lemma_key_idx(e.ledger(), url);
        assert(e.erred_spec().contains(e.ledger()[i].0));
    }
}

/// Once every discovered blob has been resolved, the successes and the
/// errors add up to exactly the blobs found — provided no discovery page
/// was given up, since such a give-up is counted as an error without a
/// matching found blob.
pub proof fn lemma_run_accounting(e: &MessageLoopEngine)
    requires
        e.wf(),
        e.state.awaiting_content_blobs == 0,
        e.discovery_gaveups_spec() == 0,
    ensures
        e.state.stats.blobs_found == e.state.stats.blobs_successful + e.state.stats.blobs_error,
{
}

/// Every re-send was paid for by the budget of some first error: the
/// retried count stays within the configured budget times the number of
/// URLs that opened a ledger entry — provided no re-send happened while
/// rate limited, since those deliberately spare the budget.
pub proof fn lemma_retry_budget(e: &MessageLoopEngine)
    requires
        e.wf(),
        e.throttled_spec() == 0,
    ensures
        e.state.stats.blobs_retried as int <= e.retries_spec() * e.first_errors_spec(),
{
    assert(sum_vals(e.ledger()) >= 0) by {
        lemma_sum_nonneg(e.ledger());
    }
}

} // verus!
