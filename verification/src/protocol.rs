//! What the operations of the trust store do to its state, and the laws of
//! the import protocol that follow.

use vstd::prelude::*;
use crate::context::{Error, NetworkPolicy};
use crate::log::{appended, Event, LogEntry};
use crate::namespace::{
    binding_index, bound_key, has_binding, lemma_binding_found, policy_of, referenced, verdict,
    BindingView,
    Verdict,
};
use crate::pool::{entry_after, pool_used};
use crate::refresh::{plan_spec, Action};
use crate::service::Service;
use crate::stats::Usage;
use crate::tpk::{merge_spec, Tpk, TpkView};

verus! {

/// Whether `post` is `pre` after the binding took the candidate at time `now`:
/// the pool holds the candidate under its fingerprint, merged into what was
/// there; the binding is bound to that fingerprint and marked as updated; the
/// log has one more entry, with `event`; `material` is what the pool then holds.
pub open spec fn adopted(
    pre: Service,
    post: Service,
    binding: u64,
    candidate: TpkView,
    now: u64,
    event: Event,
    material: TpkView,
) -> bool {
    let i = binding_index(pre.bindings(), binding);
    let b = pre.bindings()[i];
    let entry = entry_after(pre.pool()@, candidate, now);
    &&& post.stores() == pre.stores()
    &&& post.next_id() == pre.next_id()
    &&& post.pool()@ == pre.pool()@.insert(candidate.fingerprint, entry)
    &&& post.pool().order() == (if pre.pool()@.contains_key(candidate.fingerprint) {
        pre.pool().order()
    } else {
        pre.pool().order().push(candidate.fingerprint)
    })
    &&& material == entry.tpk
    &&& post.bindings() == pre.bindings().update(
        i,
        BindingView { key: Some(candidate.fingerprint), stats: b.stats.touched_spec(now), ..b },
    )
    &&& appended(
        pre.log(),
        post.log(),
        now,
        Some(b.store),
        Some(binding),
        Some(candidate.fingerprint),
        b.label,
        event,
        None,
    )
}

/// What an import of `candidate` into the binding does, and what it returns: a
/// binding that does not exist, malformed material and a conflict change
/// nothing; every other candidate is adopted.
pub open spec fn imported(
    pre: Service,
    post: Service,
    binding: u64,
    candidate: TpkView,
    now: u64,
    r: Result<Tpk, Error>,
) -> bool {
    if !has_binding(pre.bindings(), binding) {
        post == pre && r == Err::<Tpk, Error>(Error::NotFound)
    } else if !candidate.valid() {
        post == pre && r == Err::<Tpk, Error>(Error::InvalidKeyMaterial)
    } else {
        let v = verdict(pre.bindings()[binding_index(pre.bindings(), binding)].key, candidate);
        if v == Verdict::Conflict {
            post == pre && r == Err::<Tpk, Error>(Error::Conflict)
        } else {
            r is Ok && adopted(pre, post, binding, candidate, now, v.event(), r->Ok_0@)
        }
    }
}

/// What a forced rotation of the binding to `candidate` does, and what it returns.
pub open spec fn rotated(
    pre: Service,
    post: Service,
    binding: u64,
    candidate: TpkView,
    now: u64,
    r: Result<Tpk, Error>,
) -> bool {
    if !has_binding(pre.bindings(), binding) {
        post == pre && r == Err::<Tpk, Error>(Error::NotFound)
    } else if !candidate.valid() {
        post == pre && r == Err::<Tpk, Error>(Error::InvalidKeyMaterial)
    } else {
        r is Ok && adopted(pre, post, binding, candidate, now, Event::RotatedForced, r->Ok_0@)
    }
}

/// Whether `after` is `before` with one entry appended at time `now` for each
/// binding of `store` among `bindings`, in their order, each saying that the
/// binding was deleted.
pub open spec fn deletions_logged(
    bindings: Seq<BindingView>,
    store: u64,
    before: Seq<LogEntry>,
    after: Seq<LogEntry>,
    now: u64,
) -> bool
    decreases bindings.len(),
{
    if bindings.len() == 0 {
        after == before
    } else if bindings.last().store == store {
        &&& after.len() > 0
        &&& deletions_logged(bindings.drop_last(), store, before, after.drop_last(), now)
        &&& appended(
            after.drop_last(),
            after,
            now,
            Some(store),
            Some(bindings.last().id),
            bindings.last().key,
            bindings.last().label,
            Event::BindingDeleted,
            None,
        )
    } else {
        deletions_logged(bindings.drop_last(), store, before, after, now)
    }
}

/// Whether `post` is `pre` with one more log entry, and nothing else changed.
pub open spec fn only_logged(
    pre: Service,
    post: Service,
    now: u64,
    binding: BindingView,
    event: Event,
    error: Option<Error>,
) -> bool {
    &&& post.stores() == pre.stores()
    &&& post.bindings() == pre.bindings()
    &&& post.pool() == pre.pool()
    &&& post.next_id() == pre.next_id()
    &&& appended(
        pre.log(),
        post.log(),
        now,
        Some(binding.store),
        Some(binding.id),
        binding.key,
        binding.label,
        event,
        error,
    )
}

/// What the start of a refresh of the binding does, and what it returns: for a
/// binding that does not exist or is not bound, nothing; else it logs whether a
/// fetch begins or is skipped.
pub open spec fn refresh_begun(
    pre: Service,
    post: Service,
    binding: u64,
    now: u64,
    r: Result<Action, Error>,
) -> bool {
    if bound_key(pre.bindings(), binding) is None {
        post == pre && r == Err::<Action, Error>(Error::NotFound)
    } else {
        let b = pre.bindings()[binding_index(pre.bindings(), binding)];
        let policy = policy_of(pre.stores(), b);
        &&& r == Ok::<Action, Error>(plan_spec(policy, b.key->0))
        &&& only_logged(
            pre,
            post,
            now,
            b,
            if policy == NetworkPolicy::Offline {
                Event::SkippedOffline
            } else {
                Event::FetchAttempt
            },
            None,
        )
    }
}

/// What the end of a refresh of the binding does with what was fetched (`None`
/// where the transport failed), and the event it logs and returns.
pub open spec fn refresh_completed(
    pre: Service,
    post: Service,
    binding: u64,
    fetched: Option<TpkView>,
    now: u64,
    r: Result<Event, Error>,
) -> bool {
    if bound_key(pre.bindings(), binding) is None {
        post == pre && r == Err::<Event, Error>(Error::NotFound)
    } else {
        let b = pre.bindings()[binding_index(pre.bindings(), binding)];
        if policy_of(pre.stores(), b) == NetworkPolicy::Offline {
            r == Ok::<Event, Error>(Event::SkippedOffline) && only_logged(
                pre,
                post,
                now,
                b,
                Event::SkippedOffline,
                None,
            )
        } else if fetched is None {
            r == Ok::<Event, Error>(Event::FetchFailed) && only_logged(
                pre,
                post,
                now,
                b,
                Event::FetchFailed,
                Some(Error::TransportError),
            )
        } else if !fetched->0.valid() {
            r == Ok::<Event, Error>(Event::FetchFailed) && only_logged(
                pre,
                post,
                now,
                b,
                Event::FetchFailed,
                Some(Error::InvalidKeyMaterial),
            )
        } else if verdict(b.key, fetched->0) == Verdict::Conflict {
            r == Ok::<Event, Error>(Event::Conflict) && only_logged(
                pre,
                post,
                now,
                b,
                Event::Conflict,
                Some(Error::Conflict),
            )
        } else {
            r == Ok::<Event, Error>(verdict(b.key, fetched->0).event()) && adopted(
                pre,
                post,
                binding,
                fetched->0,
                now,
                verdict(b.key, fetched->0).event(),
                entry_after(pre.pool()@, fetched->0, now).tpk,
            )
        }
    }
}

/// The event that the log records for a use.
pub open spec fn usage_event(usage: Usage) -> Event {
    match usage {
        Usage::Encryption => Event::UsedForEncryption,
        Usage::Verification => Event::UsedForVerification,
    }
}

/// What recording a use of the binding does, and what it returns: for a binding
/// that does not exist or is not bound, nothing; else the use is counted for
/// the binding and for its key, if the pool holds it, and logged.
pub open spec fn use_registered(
    pre: Service,
    post: Service,
    binding: u64,
    usage: Usage,
    now: u64,
    r: Result<(), Error>,
) -> bool {
    if bound_key(pre.bindings(), binding) is None {
        post == pre && r == Err::<(), Error>(Error::NotFound)
    } else {
        let i = binding_index(pre.bindings(), binding);
        let b = pre.bindings()[i];
        &&& r == Ok::<(), Error>(())
        &&& post.stores() == pre.stores()
        &&& post.next_id() == pre.next_id()
        &&& post.bindings() == pre.bindings().update(
            i,
            BindingView { stats: b.stats.used_spec(usage, now), ..b },
        )
        &&& post.pool()@ == pool_used(pre.pool()@, b.key->0, usage, now)
        &&& post.pool().order() == pre.pool().order()
        &&& appended(
            pre.log(),
            post.log(),
            now,
            Some(b.store),
            Some(binding),
            b.key,
            b.label,
            usage_event(usage),
            None,
        )
    }
}

/// The log only grows: what was logged before the deletions is still there,
/// in front and unchanged.
pub proof fn lemma_deletions_logged_extends(
    bindings: Seq<BindingView>,
    store: u64,
    before: Seq<LogEntry>,
    after: Seq<LogEntry>,
    now: u64,
)
    requires
        deletions_logged(bindings, store, before, after, now),
    ensures
        before.len() <= after.len(),
        after.take(before.len() as int) == before,
    decreases bindings.len(),
{
    if bindings.len() == 0 {
        assert(after.take(before.len() as int) =~= before);
    } else if bindings.last().store == store {
        lemma_deletions_logged_extends(bindings.drop_last(), store, before, after.drop_last(), now);
        assert(after.take(before.len() as int) =~= after.drop_last().take(before.len() as int));
    } else {
        lemma_deletions_logged_extends(bindings.drop_last(), store, before, after, now);
    }
}

/// Importing the same candidate into a binding a second time succeeds where the
/// first import did, returns the same material, and leaves the binding bound to
/// the same key.
pub proof fn lemma_import_idempotent(
    s0: Service,
    s1: Service,
    s2: Service,
    binding: u64,
    candidate: TpkView,
    now1: u64,
    now2: u64,
    r1: Result<Tpk, Error>,
    r2: Result<Tpk, Error>,
)
    requires
        s0.wf(),
        s1.wf(),
        imported(s0, s1, binding, candidate, now1, r1),
        imported(s1, s2, binding, candidate, now2, r2),
        r1 is Ok,
    ensures
        r2 is Ok,
        r2->Ok_0@ == r1->Ok_0@,
        s2.pool()@ =~= s1.pool()@.insert(
            candidate.fingerprint,
            entry_after(s1.pool()@, candidate, now2),
        ),
        s2.pool()@[candidate.fingerprint].tpk == s1.pool()@[candidate.fingerprint].tpk,
        bound_key(s1.bindings(), binding) == Some(candidate.fingerprint),
{
    s0.lemma_wf();
    s1.lemma_wf();
    let i = binding_index(s0.bindings(), binding);
    assert(0 <= i < s0.bindings().len() && s0.bindings()[i].id == binding);
    assert(s1.bindings()[i].id == binding);
    lemma_binding_found(s1.bindings(), s1.stores(), s1.next_id(), i);
    let stored = entry_after(s0.pool()@, candidate, now1).tpk;
    assert(s1.pool()@[candidate.fingerprint].tpk == stored);
    if s0.pool()@.contains_key(candidate.fingerprint) && s0.pool()@[candidate.fingerprint].tpk.valid() {
        crate::tpk::lemma_merge_idempotent(s0.pool()@[candidate.fingerprint].tpk, candidate);
        crate::tpk::lemma_merge_keeps(s0.pool()@[candidate.fingerprint].tpk, candidate);
    } else {
        crate::tpk::lemma_union_absorbs(candidate.subkeys, candidate.subkeys);
        crate::tpk::lemma_union_absorbs(candidate.packets, candidate.packets);
        crate::tpk::lemma_union_absorbs(candidate.certifiers, candidate.certifiers);
    }
}

/// An import into a binding sees what the import before it has done: after a
/// successful import of `a`, the binding is bound to `a`, the pool holds what
/// that import returned, and an import of `b` is decided against `a`: it is a
/// conflict exactly when `b` is well formed, is another key than `a`, and
/// carries no valid signature of `a`.
pub proof fn lemma_import_observes_previous(
    s0: Service,
    s1: Service,
    s2: Service,
    binding: u64,
    a: TpkView,
    b: TpkView,
    now1: u64,
    now2: u64,
    r1: Result<Tpk, Error>,
    r2: Result<Tpk, Error>,
)
    requires
        s0.wf(),
        s1.wf(),
        imported(s0, s1, binding, a, now1, r1),
        imported(s1, s2, binding, b, now2, r2),
        r1 is Ok,
    ensures
        bound_key(s1.bindings(), binding) == Some(a.fingerprint),
        s1.pool()@.contains_key(a.fingerprint),
        s1.pool()@[a.fingerprint].tpk == r1->Ok_0@,
        r2 == Err::<Tpk, Error>(Error::Conflict) <==> b.valid() && b.fingerprint != a.fingerprint
            && !b.signed_by(a.fingerprint),
        b.valid() && b.fingerprint == a.fingerprint ==> r2 is Ok && r2->Ok_0@ == merge_spec(
            r1->Ok_0@,
            b,
        ),
{
    s0.lemma_wf();
    s1.lemma_wf();
    let i = binding_index(s0.bindings(), binding);
    assert(0 <= i < s0.bindings().len() && s0.bindings()[i].id == binding);
    assert(s1.bindings()[i].id == binding);
    lemma_binding_found(s1.bindings(), s1.stores(), s1.next_id(), i);
    if s0.pool()@.contains_key(a.fingerprint) && s0.pool()@[a.fingerprint].tpk.valid() {
        crate::tpk::lemma_merge_keeps(s0.pool()@[a.fingerprint].tpk, a);
    }
}

/// An import never gives a bound binding another key than it had, unless the
/// candidate carries a valid signature of the bound key; a forced rotation is
/// the only other way.
pub proof fn lemma_import_keeps_trust(
    s0: Service,
    s1: Service,
    binding: u64,
    candidate: TpkView,
    now: u64,
    r: Result<Tpk, Error>,
)
    requires
        s0.wf(),
        s1.wf(),
        imported(s0, s1, binding, candidate, now, r),
        bound_key(s0.bindings(), binding) is Some,
    ensures
        bound_key(s1.bindings(), binding) == bound_key(s0.bindings(), binding) || (
        candidate.signed_by(bound_key(s0.bindings(), binding)->0) && bound_key(
            s1.bindings(),
            binding,
        ) == Some(candidate.fingerprint)),
{
    s0.lemma_wf();
    s1.lemma_wf();
    let i = binding_index(s0.bindings(), binding);
    assert(0 <= i < s0.bindings().len() && s0.bindings()[i].id == binding);
    if r is Ok {
        assert(s1.bindings()[i].id == binding);
        lemma_binding_found(s1.bindings(), s1.stores(), s1.next_id(), i);
    }
}

/// The list of keys holds every fingerprint that a binding is bound to, and
/// each fingerprint once, however many bindings and stores are bound to it.
pub proof fn lemma_bound_keys_listed(s: Service, i: int)
    requires
        s.wf(),
        0 <= i < s.bindings().len(),
        s.bindings()[i].key is Some,
    ensures
        s.pool().order().contains(s.bindings()[i].key->0),
        s.pool()@.contains_key(s.bindings()[i].key->0),
        s.pool().order().no_duplicates(),
        referenced(s.bindings(), s.bindings()[i].key->0),
{
    s.lemma_wf();
    s.pool().lemma_pool_keys(s.bindings()[i].key->0);
}

} // verus!
