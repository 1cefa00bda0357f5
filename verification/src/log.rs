//! The append-only audit log.

use vstd::prelude::*;
use crate::context::Error;
use crate::stats::later;
use crate::tpk::Fingerprint;

verus! {

/// What happened.
#[derive(Clone, Copy, Debug, PartialEq, Eq, Structural)]
pub enum Event {
    StoreCreated,
    StoreDeleted,
    BindingAdded,
    BindingDeleted,
    BoundNewKey,
    Merged,
    RotatedSigned,
    RotatedForced,
    FetchAttempt,
    FetchFailed,
    Conflict,
    SkippedOffline,
    UsedForEncryption,
    UsedForVerification,
}

impl Event {
    /// The status message of an event.
    pub open spec fn text(self) -> Seq<char> {
        match self {
            Event::StoreCreated => "store created"@,
            Event::StoreDeleted => "store deleted"@,
            Event::BindingAdded => "binding added"@,
            Event::BindingDeleted => "binding deleted"@,
            Event::BoundNewKey => "bound new key"@,
            Event::Merged => "merged"@,
            Event::RotatedSigned => "rotated (signed)"@,
            Event::RotatedForced => "rotated (forced)"@,
            Event::FetchAttempt => "fetching"@,
            Event::FetchFailed => "fetch failed"@,
            Event::Conflict => "conflict"@,
            Event::SkippedOffline => "skipped (offline)"@,
            Event::UsedForEncryption => "used for encryption"@,
            Event::UsedForVerification => "used for verification"@,
        }
    }

    /// The status message of an event.
    pub fn message(&self) -> (r: String)
        ensures
            r@ == self.text(),
    {
        match self {
            Event::StoreCreated => "store created".to_owned(),
            Event::StoreDeleted => "store deleted".to_owned(),
            Event::BindingAdded => "binding added".to_owned(),
            Event::BindingDeleted => "binding deleted".to_owned(),
            Event::BoundNewKey => "bound new key".to_owned(),
            Event::Merged => "merged".to_owned(),
            Event::RotatedSigned => "rotated (signed)".to_owned(),
            Event::RotatedForced => "rotated (forced)".to_owned(),
            Event::FetchAttempt => "fetching".to_owned(),
            Event::FetchFailed => "fetch failed".to_owned(),
            Event::Conflict => "conflict".to_owned(),
            Event::SkippedOffline => "skipped (offline)".to_owned(),
            Event::UsedForEncryption => "used for encryption".to_owned(),
            Event::UsedForVerification => "used for verification".to_owned(),
        }
    }
}

/// The name of an error, as the log shows it.
pub open spec fn error_text(e: Error) -> Seq<char> {
    match e {
        Error::InvalidDomain => "InvalidDomain"@,
        Error::InvalidKeyMaterial => "InvalidKeyMaterial"@,
        Error::Conflict => "Conflict"@,
        Error::PolicyMismatch => "PolicyMismatch"@,
        Error::NotFound => "NotFound"@,
        Error::TransportError => "TransportError"@,
        Error::StorageFailure => "StorageFailure"@,
        Error::InvalidOperation => "InvalidOperation"@,
    }
}

/// The name of an error, as the log shows it.
pub fn error_message(e: Error) -> (r: String)
    ensures
        r@ == error_text(e),
{
    match e {
        Error::InvalidDomain => "InvalidDomain".to_owned(),
        Error::InvalidKeyMaterial => "InvalidKeyMaterial".to_owned(),
        Error::Conflict => "Conflict".to_owned(),
        Error::PolicyMismatch => "PolicyMismatch".to_owned(),
        Error::NotFound => "NotFound".to_owned(),
        Error::TransportError => "TransportError".to_owned(),
        Error::StorageFailure => "StorageFailure".to_owned(),
        Error::InvalidOperation => "InvalidOperation".to_owned(),
    }
}

/// One audit record. It names the store, binding and key it is about by their
/// identifiers only, so that it outlives them.
#[derive(Clone, Debug, PartialEq, Eq)]
pub struct LogEntry {
    /// When the entry was made.
    pub timestamp: u64,
    /// The store that the entry is about, if any.
    pub store: Option<u64>,
    /// The binding that the entry is about, if any.
    pub binding: Option<u64>,
    /// The key that the entry is about, if any.
    pub key: Option<Fingerprint>,
    /// What the entry is mainly about, for a human reader.
    pub slug: String,
    /// What happened.
    pub event: Event,
    /// The error, where the event is a failure.
    pub error: Option<Error>,
}

impl LogEntry {
    /// A copy of the entry.
    pub fn duplicate(&self) -> (r: LogEntry)
        ensures
            r == *self,
    {
        LogEntry {
            timestamp: self.timestamp,
            store: self.store,
            binding: self.binding,
            key: self.key,
            slug: self.slug.clone(),
            event: self.event,
            error: self.error,
        }
    }
}

/// Which entries of the log a query asks for.
#[derive(Clone, Copy, Debug, PartialEq, Eq, Structural)]
pub enum Scope {
    /// Every entry.
    All,
    /// The entries about one store.
    Store(u64),
    /// The entries about one binding.
    Binding(u64),
    /// The entries about one key.
    Key(Fingerprint),
}

impl Scope {
    /// Whether an entry belongs to the scope.
    pub open spec fn covers(self, e: LogEntry) -> bool {
        match self {
            Scope::All => true,
            Scope::Store(id) => e.store == Some(id),
            Scope::Binding(id) => e.binding == Some(id),
            Scope::Key(f) => e.key == Some(f),
        }
    }

    /// Whether an entry belongs to the scope.
    pub fn matches(&self, e: &LogEntry) -> (r: bool)
        ensures
            r == self.covers(*e),
    {
        match self {
            Scope::All => true,
            Scope::Store(id) => match e.store {
                Some(s) => s == *id,
                None => false,
            },
            Scope::Binding(id) => match e.binding {
                Some(b) => b == *id,
                None => false,
            },
            Scope::Key(f) => match e.key {
                Some(k) => k == *f,
                None => false,
            },
        }
    }
}

/// The entries of `s` that belong to `scope`, in the order of `s`.
pub open spec fn select(s: Seq<LogEntry>, scope: Scope) -> Seq<LogEntry>
    decreases s.len(),
{
    if s.len() == 0 {
        s
    } else if scope.covers(s.last()) {
        select(s.drop_last(), scope).push(s.last())
    } else {
        select(s.drop_last(), scope)
    }
}

/// The scope of all entries selects the whole log.
pub proof fn lemma_select_all(s: Seq<LogEntry>)
    ensures
        select(s, Scope::All) == s,
    decreases s.len(),
{
    if s.len() > 0 {
        lemma_select_all(s.drop_last());
        assert(s.drop_last().push(s.last()) =~= s);
    }
}

/// Whether no entry is older than the one before it.
pub open spec fn chronological(s: Seq<LogEntry>) -> bool {
    forall|i: int, j: int| 0 <= i <= j < s.len() ==> s[i].timestamp <= s[j].timestamp
}

/// A selection of a chronological log is chronological, and holds only entries
/// of the log that the scope covers.
pub proof fn lemma_select_chronological(s: Seq<LogEntry>, scope: Scope)
    requires
        chronological(s),
    ensures
        chronological(select(s, scope)),
        forall|i: int|
            0 <= i < select(s, scope).len() ==> scope.covers(#[trigger] select(s, scope)[i])
                && s.contains(select(s, scope)[i]),
        s.len() > 0 ==> forall|i: int|
            0 <= i < select(s, scope).len() ==> (#[trigger] select(s, scope)[i]).timestamp
                <= s.last().timestamp,
    decreases s.len(),
{
    if s.len() > 0 {
        let init = s.drop_last();
        lemma_select_chronological(init, scope);
        let r = select(init, scope);
        assert forall|i: int| 0 <= i < r.len() implies s.contains(#[trigger] r[i]) && r[i].timestamp
            <= s.last().timestamp by {
            let k = choose|k: int| 0 <= k < init.len() && init[k] == r[i];
            assert(s[k] == r[i]);
        }
        assert(s[s.len() - 1] == s.last());
    }
}

/// The time an entry gets when it is appended at `now` to a log whose last
/// entry, if any, was made at `last`.
pub open spec fn stamp(log: Seq<LogEntry>, now: u64) -> u64 {
    if log.len() == 0 {
        now
    } else {
        later(log.last().timestamp, now)
    }
}

/// Whether `after` is `before` with one entry appended at time `now`, which holds
/// the given references, slug, event and error.
pub open spec fn appended(
    before: Seq<LogEntry>,
    after: Seq<LogEntry>,
    now: u64,
    store: Option<u64>,
    binding: Option<u64>,
    key: Option<Fingerprint>,
    slug: Seq<char>,
    event: Event,
    error: Option<Error>,
) -> bool {
    &&& after.len() == before.len() + 1
    &&& after.drop_last() == before
    &&& after.last().timestamp == stamp(before, now)
    &&& after.last().store == store
    &&& after.last().binding == binding
    &&& after.last().key == key
    &&& after.last().slug@ == slug
    &&& after.last().event == event
    &&& after.last().error == error
}

/// An appended entry leaves what was logged before in front and unchanged, and
/// a chronological log stays chronological.
pub proof fn lemma_appended_extends(
    before: Seq<LogEntry>,
    after: Seq<LogEntry>,
    now: u64,
    store: Option<u64>,
    binding: Option<u64>,
    key: Option<Fingerprint>,
    slug: Seq<char>,
    event: Event,
    error: Option<Error>,
)
    requires
        appended(before, after, now, store, binding, key, slug, event, error),
    ensures
        after.take(before.len() as int) == before,
        chronological(before) ==> chronological(after),
        after.last().timestamp >= now,
{
    assert(after.take(before.len() as int) =~= after.drop_last());
    if chronological(before) {
        assert forall|i: int, j: int| 0 <= i <= j < after.len() implies after[i].timestamp
            <= after[j].timestamp by {
            if j < before.len() {
                assert(after[i] == before[i] && after[j] == before[j]);
            } else if i < before.len() {
                assert(after[i] == before[i]);
                assert(before[i].timestamp <= before.last().timestamp);
            }
        }
    }
}

/// Whether every store and every binding that the log names has a handle below `next`.
pub open spec fn handles_below(log: Seq<LogEntry>, next: u64) -> bool {
    forall|i: int|
        0 <= i < log.len() ==> ((#[trigger] log[i]).store is Some ==> log[i].store->0 < next) && (
        log[i].binding is Some ==> log[i].binding->0 < next)
}

/// A log that names only handles below `next` holds no entry about the binding `next`.
pub proof fn lemma_unused_handle(log: Seq<LogEntry>, next: u64)
    requires
        handles_below(log, next),
    ensures
        select(log, Scope::Binding(next)) == Seq::<LogEntry>::empty(),
        select(log, Scope::Store(next)) == Seq::<LogEntry>::empty(),
    decreases log.len(),
{
    if log.len() > 0 {
        assert(log[log.len() - 1] == log.last());
        assert forall|i: int| 0 <= i < log.drop_last().len() implies ((
        #[trigger] log.drop_last()[i]).store is Some ==> log.drop_last()[i].store->0 < next) && (
        log.drop_last()[i].binding is Some ==> log.drop_last()[i].binding->0 < next) by {
            assert(log.drop_last()[i] == log[i]);
        }
        lemma_unused_handle(log.drop_last(), next);
    }
}

/// The log of a binding that has just got the handle `next` holds the entry
/// that was appended for it, and no other.
pub proof fn lemma_first_entry(
    before: Seq<LogEntry>,
    after: Seq<LogEntry>,
    now: u64,
    store: Option<u64>,
    next: u64,
    key: Option<Fingerprint>,
    slug: Seq<char>,
    event: Event,
    error: Option<Error>,
)
    requires
        handles_below(before, next),
        appended(before, after, now, store, Some(next), key, slug, event, error),
    ensures
        select(after, Scope::Binding(next)) == seq![after.last()],
        after.last().event == event,
        after.last().error == error,
        after.last().binding == Some(next),
{
    lemma_unused_handle(before, next);
    assert(select(after, Scope::Binding(next)) =~= seq![after.last()]);
}

/// The audit log: entries are appended, and never changed or removed.
#[derive(Debug)]
pub struct AuditLog {
    entries: Vec<LogEntry>,
}

impl View for AuditLog {
    type V = Seq<LogEntry>;

    closed spec fn view(&self) -> Seq<LogEntry> {
        self.entries@
    }
}

impl AuditLog {
    /// The entries are in the order of their times.
    pub open spec fn wf(&self) -> bool {
        chronological(self@)
    }

    /// An empty log.
    pub fn new() -> (r: AuditLog)
        ensures
            r@ == Seq::<LogEntry>::empty(),
            r.wf(),
    {
        AuditLog { entries: Vec::new() }
    }

    /// The number of entries.
    pub fn len(&self) -> (r: usize)
        ensures
            r == self@.len(),
    {
        self.entries.len()
    }

    /// Appends an entry. Its time is `entry.timestamp`, or that of the last entry
    /// where that one is later: the log never goes back in time.
    pub fn append(&mut self, entry: LogEntry)
        requires
            old(self).wf(),
        ensures
            final(self)@ == old(self)@.push(
                (LogEntry { timestamp: stamp(old(self)@, entry.timestamp), ..entry }),
            ),
            final(self).wf(),
    {
        let n = self.entries.len();
        let mut e = entry;
        if n > 0 {
            let last = self.entries[n - 1].timestamp;
            if last > e.timestamp {
                e.timestamp = last;
            }
        }
        self.entries.push(e);
    }

    /// Appends an entry made of the given parts, at time `now` or at the time of
    /// the last entry, whichever is later.
    pub fn record(
        &mut self,
        now: u64,
        store: Option<u64>,
        binding: Option<u64>,
        key: Option<Fingerprint>,
        slug: String,
        event: Event,
        error: Option<Error>,
    )
        requires
            old(self).wf(),
        ensures
            appended(old(self)@, final(self)@, now, store, binding, key, slug@, event, error),
            final(self).wf(),
            forall|next: u64|
                handles_below(old(self)@, next) && (store is Some ==> store->0 < next) && (binding
                    is Some ==> binding->0 < next) ==> #[trigger] handles_below(
                    final(self)@,
                    next,
                ),
    {
        let ghost before = self@;
        self.append(LogEntry { timestamp: now, store, binding, key, slug, event, error });
        assert(self@.drop_last() =~= before);
        assert forall|next: u64|
            handles_below(before, next) && (store is Some ==> store->0 < next) && (binding
                is Some ==> binding->0 < next) implies #[trigger] handles_below(self@, next) by {
            assert forall|i: int| 0 <= i < self@.len() implies ((#[trigger] self@[i]).store
                is Some ==> self@[i].store->0 < next) && (self@[i].binding is Some
                ==> self@[i].binding->0 < next) by {
                if i < before.len() {
                    assert(self@[i] == before[i]);
                }
            }
        }
    }

    /// The entries that belong to `scope`, oldest first.
    pub fn query(&self, scope: Scope) -> (r: Vec<LogEntry>)
        ensures
            r@ == select(self@, scope),
    {
        let mut out: Vec<LogEntry> = Vec::new();
        let mut i: usize = 0;
        while i < self.entries.len()
            invariant
                i <= self.entries.len(),
                out@ == select(self.entries@.take(i as int), scope),
            decreases self.entries.len() - i,
        {
            assert(self.entries@.take(i + 1).drop_last() =~= self.entries@.take(i as int));
            if scope.matches(&self.entries[i]) {
                out.push(self.entries[i].duplicate());
            }
            i += 1;
        }
        assert(self.entries@.take(self.entries.len() as int) =~= self.entries@);
        out
    }
}

} // verus!
