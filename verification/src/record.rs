//! Flat records of statistics and log entries, for callers that cannot hold
//! optional values: an absent time is 0, an absent error an absent string.

use vstd::prelude::*;
use crate::log::{error_message, error_text, LogEntry};
use crate::tpk::Fingerprint;

verus! {

/// The time that stands for an optional time: 0 where there is none.
pub open spec fn time_or_zero(t: Option<u64>) -> u64 {
    match t {
        Some(s) => s,
        None => 0,
    }
}

fn seconds(t: Option<u64>) -> (r: u64)
    ensures
        r == time_or_zero(t),
{
    match t {
        Some(s) => s,
        None => 0,
    }
}

/// Counter and timestamps.
#[derive(Clone, Copy, Debug, PartialEq, Eq, Structural)]
pub struct Stamps {
    /// Counts how many times this has been used.
    pub count: u64,
    /// Records the time when this has been used first.
    pub first: u64,
    /// Records the time when this has been used last.
    pub last: u64,
}

impl Stamps {
    /// The flat record of `s`.
    pub fn new(s: &crate::stats::Stamps) -> (r: Stamps)
        ensures
            r == (Stamps {
                count: s.count,
                first: time_or_zero(s.first),
                last: time_or_zero(s.last),
            }),
    {
        Stamps { count: s.count, first: seconds(s.first), last: seconds(s.last) }
    }
}

/// Statistics about bindings and stored keys.
#[derive(Clone, Copy, Debug, PartialEq, Eq, Structural)]
pub struct Stats {
    /// Records the time this item was created.
    pub created: u64,
    /// Records the time this item was last updated.
    pub updated: u64,
    /// Records counters and timestamps of encryptions.
    pub encryption: Stamps,
    /// Records counters and timestamps of verifications.
    pub verification: Stamps,
}

impl Stats {
    /// The flat record of `s`.
    pub fn new(s: crate::stats::Stats) -> (r: Stats)
        ensures
            r.created == time_or_zero(s.created),
            r.updated == time_or_zero(s.updated),
            r.encryption == (Stamps {
                count: s.encryption.count,
                first: time_or_zero(s.encryption.first),
                last: time_or_zero(s.encryption.last),
            }),
            r.verification == (Stamps {
                count: s.verification.count,
                first: time_or_zero(s.verification.first),
                last: time_or_zero(s.verification.last),
            }),
    {
        Stats {
            created: seconds(s.created),
            updated: seconds(s.updated),
            encryption: Stamps::new(&s.encryption),
            verification: Stamps::new(&s.verification),
        }
    }
}

/// Represents a log entry.
#[derive(Clone, Debug, PartialEq, Eq)]
pub struct Log {
    /// Records the time of the entry.
    pub timestamp: u64,
    /// Relates the entry to a store.
    pub store: Option<u64>,
    /// Relates the entry to a binding.
    pub binding: Option<u64>,
    /// Relates the entry to a key.
    pub key: Option<Fingerprint>,
    /// A human-readable description of what the entry is mainly concerned with.
    pub slug: String,
    /// Holds the log message.
    pub status: String,
    /// Holds the error message, if any.
    pub error: Option<String>,
}

impl Log {
    /// The flat record of a log entry: its status and its error as text.
    pub fn new(e: &LogEntry) -> (r: Log)
        ensures
            r.timestamp == e.timestamp,
            r.store == e.store,
            r.binding == e.binding,
            r.key == e.key,
            r.slug@ == e.slug@,
            r.status@ == e.event.text(),
            e.error is None <==> r.error is None,
            e.error is Some ==> r.error->0@ == error_text(e.error->0),
    {
        let error = match e.error {
            Some(err) => Some(error_message(err)),
            None => None,
        };
        Log {
            timestamp: e.timestamp,
            store: e.store,
            binding: e.binding,
            key: e.key,
            slug: e.slug.clone(),
            status: e.event.message(),
            error,
        }
    }
}

} // verus!
