//! The trust store: the pool, the stores and their bindings, and the log, with
//! the operations on them.

use vstd::prelude::*;
use crate::context::{Context, Error};
use crate::log::{appended, handles_below, select, AuditLog, Event, LogEntry, Scope};
use crate::namespace::{
    binding_index, binding_views, bindings_wf, bound_key, decide_import, has_binding, has_label,
    keys_pooled, lemma_handles_given,
    has_named, has_store, label_index, lemma_binding_found, lemma_outside_store, lemma_store_found,
    named_index, of_store, outside_store, referenced, starts_with, store_index, store_views,
    stores_wf, with_prefix, Binding, BindingView, Store, StoreView, Verdict,
};
use crate::pool::{entry_after, pool_sighted, Pool};
use crate::protocol::{
    adopted, deletions_logged, imported, only_logged, refresh_begun, refresh_completed, rotated,
    use_registered,
};
use crate::refresh::{plan, Action};
use crate::stats::{Stats, Usage};
use crate::tpk::{Fingerprint, Tpk};

verus! {

/// The state of the trust store: the pool, the stores, their bindings, and the log.
#[derive(Debug)]
pub struct Service {
    pool: Pool,
    stores: Vec<Store>,
    bindings: Vec<Binding>,
    log: AuditLog,
    next_id: u64,
}

impl Service {
    /// The pool of keys.
    pub closed spec fn pool(&self) -> Pool {
        self.pool
    }

    /// The stores, in the order in which they were created.
    pub closed spec fn stores(&self) -> Seq<StoreView> {
        store_views(self.stores@)
    }

    /// The bindings of all stores, in the order in which they were created.
    pub closed spec fn bindings(&self) -> Seq<BindingView> {
        binding_views(self.bindings@)
    }

    /// The audit log, oldest entry first.
    pub closed spec fn log(&self) -> Seq<LogEntry> {
        self.log@
    }

    /// The handle that the next store or binding gets.
    pub closed spec fn next_id(&self) -> u64 {
        self.next_id
    }

    /// The pool holds one key per fingerprint, and one for every fingerprint
    /// that a binding is bound to; the log is chronological and names only
    /// handles that were given out; stores and bindings are well formed.
    pub closed spec fn wf(&self) -> bool {
        &&& self.pool.wf()
        &&& self.log.wf()
        &&& handles_below(self.log@, self.next_id)
        &&& stores_wf(self.stores(), self.next_id)
        &&& bindings_wf(self.bindings(), self.stores(), self.next_id)
        &&& keys_pooled(self.bindings(), self.pool@)
    }

    /// What `wf` says, over the public names.
    pub proof fn lemma_wf(&self)
        requires
            self.wf(),
        ensures
            self.pool().wf(),
            crate::log::chronological(self.log()),
            handles_below(self.log(), self.next_id()),
            stores_wf(self.stores(), self.next_id()),
            bindings_wf(self.bindings(), self.stores(), self.next_id()),
            keys_pooled(self.bindings(), self.pool()@),
    {
    }

    /// A trust store without stores, bindings, keys or log entries, whose first
    /// handle is 0.
    pub fn new() -> (r: Service)
        ensures
            r.wf(),
            r.stores() == Seq::<StoreView>::empty(),
            r.bindings() == Seq::<BindingView>::empty(),
            r.log() == Seq::<LogEntry>::empty(),
            r.pool()@ == Map::<Fingerprint, crate::pool::KeyView>::empty(),
            r.pool().order() == Seq::<Fingerprint>::empty(),
            r.pool().entries() == Seq::<crate::pool::Key>::empty(),
            r.next_id() == 0,
    {
        let r = Service {
            pool: Pool::new(),
            stores: Vec::new(),
            bindings: Vec::new(),
            log: AuditLog::new(),
            next_id: 0,
        };
        assert(r.stores() =~= Seq::<StoreView>::empty());
        assert(r.bindings() =~= Seq::<BindingView>::empty());
        r
    }

    fn store_position(&self, id: u64) -> (r: Option<usize>)
        ensures
            r is Some <==> has_store(self.stores(), id),
            r is Some ==> r->0 < self.stores@.len() && self.stores()[r->0 as int].id == id,
    {
        let mut i: usize = 0;
        while i < self.stores.len()
            invariant
                i <= self.stores.len(),
                forall|k: int| 0 <= k < i ==> (#[trigger] self.stores()[k]).id != id,
            decreases self.stores.len() - i,
        {
            if self.stores[i].id == id {
                assert(self.stores()[i as int].id == id);
                return Some(i);
            }
            i += 1;
        }
        None
    }

    fn named_position(&self, domain: &String, name: &String) -> (r: Option<usize>)
        ensures
            r is Some <==> has_named(self.stores(), domain@, name@),
            r is Some ==> r->0 < self.stores@.len() && self.stores()[r->0 as int].domain
                == domain@ && self.stores()[r->0 as int].name == name@,
    {
        let mut i: usize = 0;
        while i < self.stores.len()
            invariant
                i <= self.stores.len(),
                forall|k: int|
                    0 <= k < i ==> !((#[trigger] self.stores()[k]).domain == domain@
                        && self.stores()[k].name == name@),
            decreases self.stores.len() - i,
        {
            if self.stores[i].domain == *domain && self.stores[i].name == *name {
                assert(self.stores()[i as int].domain == domain@);
                return Some(i);
            }
            i += 1;
        }
        None
    }

    fn binding_position(&self, id: u64) -> (r: Option<usize>)
        ensures
            r is Some <==> has_binding(self.bindings(), id),
            r is Some ==> r->0 < self.bindings@.len() && self.bindings()[r->0 as int].id == id,
    {
        let mut i: usize = 0;
        while i < self.bindings.len()
            invariant
                i <= self.bindings.len(),
                forall|k: int| 0 <= k < i ==> (#[trigger] self.bindings()[k]).id != id,
            decreases self.bindings.len() - i,
        {
            if self.bindings[i].id == id {
                assert(self.bindings()[i as int].id == id);
                return Some(i);
            }
            i += 1;
        }
        None
    }

    fn label_position(&self, store: u64, label: &String) -> (r: Option<usize>)
        ensures
            r is Some <==> has_label(self.bindings(), store, label@),
            r is Some ==> r->0 < self.bindings@.len() && self.bindings()[r->0 as int].store
                == store && self.bindings()[r->0 as int].label == label@,
    {
        let mut i: usize = 0;
        while i < self.bindings.len()
            invariant
                i <= self.bindings.len(),
                forall|k: int|
                    0 <= k < i ==> !((#[trigger] self.bindings()[k]).store == store
                        && self.bindings()[k].label == label@),
            decreases self.bindings.len() - i,
        {
            if self.bindings[i].store == store && self.bindings[i].label == *label {
                assert(self.bindings()[i as int].store == store);
                return Some(i);
            }
            i += 1;
        }
        None
    }

    /// Opens the store `name` of the context's domain, and creates it under the
    /// context's network policy if there is none. A store that exists is never
    /// reopened under another policy than it was created with.
    pub fn store_open(&mut self, ctx: &Context, name: &str, now: u64) -> (r: Result<u64, Error>)
        requires
            old(self).wf(),
        ensures
            final(self).wf(),
            final(self).pool() == old(self).pool(),
            final(self).bindings() == old(self).bindings(),
            has_named(old(self).stores(), ctx.spec_domain(), name@) ==> *final(self) == *old(self)
                && ({
                let s = old(self).stores()[named_index(
                    old(self).stores(),
                    ctx.spec_domain(),
                    name@,
                )];
                if s.policy == ctx.spec_network_policy() {
                    r == Ok::<u64, Error>(s.id)
                } else {
                    r == Err::<u64, Error>(Error::PolicyMismatch)
                }
            }),
            !has_named(old(self).stores(), ctx.spec_domain(), name@) && old(self).next_id()
                == u64::MAX ==> *final(self) == *old(self) && r == Err::<u64, Error>(
                Error::StorageFailure,
            ),
            !has_named(old(self).stores(), ctx.spec_domain(), name@) && old(self).next_id()
                < u64::MAX ==> r == Ok::<u64, Error>(old(self).next_id()) && final(self).next_id()
                == old(self).next_id() + 1 && final(self).stores() == old(self).stores().push(
                (StoreView {
                    id: old(self).next_id(),
                    domain: ctx.spec_domain(),
                    name: name@,
                    policy: ctx.spec_network_policy(),
                }),
            ) && appended(
                old(self).log(),
                final(self).log(),
                now,
                Some(old(self).next_id()),
                None,
                None,
                name@,
                Event::StoreCreated,
                None,
            ),
    {
        let domain = ctx.domain().to_owned();
        let owned = name.to_owned();
        let ghost pre = *self;
        match self.named_position(&domain, &owned) {
            Some(i) => {
                proof {
                    lemma_store_found(self.stores(), self.next_id, i as int);
                }
                if self.stores[i].policy == ctx.network_policy() {
                    Ok(self.stores[i].id)
                } else {
                    Err(Error::PolicyMismatch)
                }
            },
            None => {
                if self.next_id == u64::MAX {
                    return Err(Error::StorageFailure);
                }
                let id = self.next_id;
                self.next_id = id + 1;
                self.stores.push(
                    Store { id, domain, name: owned, policy: ctx.network_policy() },
                );
                self.log.record(
                    now,
                    Some(id),
                    None,
                    None,
                    name.to_owned(),
                    Event::StoreCreated,
                    None,
                );
                proof {
                    let added = StoreView {
                        id,
                        domain: ctx.spec_domain(),
                        name: name@,
                        policy: ctx.spec_network_policy(),
                    };
                    assert(self.stores() =~= pre.stores().push(added));
                    assert(self.bindings() =~= pre.bindings());
                    assert forall|k: int| 0 <= k < self.bindings().len() implies has_store(
                        self.stores(),
                        (#[trigger] self.bindings()[k]).store,
                    ) by {
                        let b = pre.bindings()[k];
                        let w = store_index(pre.stores(), b.store);
                        assert(0 <= w < pre.stores().len() && pre.stores()[w].id == b.store);
                        assert(self.stores()[w].id == b.store);
                    }
                }
                Ok(id)
            },
        }
    }

    fn adopt(&mut self, i: usize, candidate: &Tpk, now: u64, event: Event) -> (r: Result<
        Tpk,
        Error,
    >)
        requires
            old(self).wf(),
            i < old(self).bindings().len(),
            candidate@.valid(),
        ensures
            final(self).wf(),
            r is Ok,
            adopted(
                *old(self),
                *final(self),
                old(self).bindings()[i as int].id,
                candidate@,
                now,
                event,
                r->Ok_0@,
            ),
    {
        let ghost pre = *self;
        proof {
            lemma_binding_found(pre.bindings(), pre.stores(), pre.next_id, i as int);
        }
        let id = self.bindings[i].id;
        let store = self.bindings[i].store;
        let changed = Binding {
            id,
            store,
            label: self.bindings[i].label.clone(),
            key: Some(candidate.fingerprint),
            stats: self.bindings[i].stats.touched(now),
        };
        let slug = self.bindings[i].label.clone();
        let material = match self.pool.get_or_create(candidate, now) {
            Ok(m) => m,
            Err(e) => {
                return Err(e);
            },
        };
        self.bindings.set(i, changed);
        self.log.record(
            now,
            Some(store),
            Some(id),
            Some(candidate.fingerprint),
            slug,
            event,
            None,
        );
        proof {
            let b = pre.bindings()[i as int];
            assert(self.stores() =~= pre.stores());
            assert(self.bindings() =~= pre.bindings().update(
                i as int,
                BindingView {
                    key: Some(candidate@.fingerprint),
                    stats: b.stats.touched_spec(now),
                    ..b
                },
            ));
            assert forall|k: int| 0 <= k < self.bindings().len() implies (
            #[trigger] self.bindings()[k]).id == pre.bindings()[k].id && self.bindings()[k].store
                == pre.bindings()[k].store && self.bindings()[k].label
                == pre.bindings()[k].label by {}
        }
        Ok(material)
    }

    /// Updates the binding with the candidate. A candidate with the bound key's
    /// fingerprint is merged into it; another key takes the bound key's place
    /// only if it carries a valid signature of the bound key; any other
    /// candidate is a conflict, and nothing changes.
    pub fn binding_import(&mut self, binding: u64, candidate: &Tpk, now: u64) -> (r: Result<
        Tpk,
        Error,
    >)
        requires
            old(self).wf(),
        ensures
            final(self).wf(),
            imported(*old(self), *final(self), binding, candidate@, now, r),
            bound_key(old(self).bindings(), binding) is Some && bound_key(
                final(self).bindings(),
                binding,
            ) != bound_key(old(self).bindings(), binding) ==> candidate@.signed_by(
                bound_key(old(self).bindings(), binding)->0,
            ) && bound_key(final(self).bindings(), binding) == Some(candidate@.fingerprint),
    {
        let ghost pre = *self;
        let i = match self.binding_position(binding) {
            Some(i) => i,
            None => {
                return Err(Error::NotFound);
            },
        };
        proof {
            lemma_binding_found(pre.bindings(), pre.stores(), pre.next_id, i as int);
        }
        if !candidate.is_valid() {
            return Err(Error::InvalidKeyMaterial);
        }
        let v = decide_import(self.bindings[i].key, candidate);
        match v {
            Verdict::Conflict => Err(Error::Conflict),
            _ => {
                let r = self.adopt(i, candidate, now, v.to_event());
                proof {
                    lemma_binding_found(
                        self.bindings(),
                        self.stores(),
                        self.next_id,
                        i as int,
                    );
                }
                r
            },
        }
    }

    /// Binds the binding to the candidate, whatever was bound before. The caller
    /// has authenticated the candidate.
    pub fn binding_rotate(&mut self, binding: u64, candidate: &Tpk, now: u64) -> (r: Result<
        Tpk,
        Error,
    >)
        requires
            old(self).wf(),
        ensures
            final(self).wf(),
            rotated(*old(self), *final(self), binding, candidate@, now, r),
    {
        let i = match self.binding_position(binding) {
            Some(i) => i,
            None => {
                return Err(Error::NotFound);
            },
        };
        proof {
            lemma_binding_found(self.bindings(), self.stores(), self.next_id, i as int);
        }
        if !candidate.is_valid() {
            return Err(Error::InvalidKeyMaterial);
        }
        self.adopt(i, candidate, now, Event::RotatedForced)
    }

    fn bind(&mut self, store: u64, label: &str, key: Fingerprint, now: u64) -> (r: u64)
        requires
            old(self).wf(),
            has_store(old(self).stores(), store),
            !has_label(old(self).bindings(), store, label@),
            old(self).next_id() < u64::MAX,
            old(self).pool()@.contains_key(key),
        ensures
            final(self).wf(),
            r == old(self).next_id(),
            final(self).next_id() == old(self).next_id() + 1,
            final(self).stores() == old(self).stores(),
            final(self).pool() == old(self).pool(),
            final(self).log() == old(self).log(),
            final(self).bindings() == old(self).bindings().push(
                (BindingView {
                    id: old(self).next_id(),
                    store,
                    label: label@,
                    key: Some(key),
                    stats: Stats::created_spec(now),
                }),
            ),
    {
        let ghost pre = *self;
        let id = self.next_id;
        self.next_id = id + 1;
        self.bindings.push(
            Binding {
                id,
                store,
                label: label.to_owned(),
                key: Some(key),
                stats: Stats::created_at(now),
            },
        );
        proof {
            assert(self.stores() =~= pre.stores());
            assert(self.bindings() =~= pre.bindings().push(
                BindingView {
                    id,
                    store,
                    label: label@,
                    key: Some(key),
                    stats: Stats::created_spec(now),
                },
            ));
            assert forall|k: int|
                0 <= k < self.bindings().len() && (
                #[trigger] self.bindings()[k]).key is Some implies self.pool@.contains_key(
                self.bindings()[k].key->0,
            ) by {
                if k < pre.bindings().len() {
                    assert(self.bindings()[k] == pre.bindings()[k]);
                }
            }
            assert forall|k: int| 0 <= k < self.log@.len() implies ((#[trigger] self.log@[k]).store
                is Some ==> self.log@[k].store->0 < self.next_id) && (self.log@[k].binding is Some
                ==> self.log@[k].binding->0 < self.next_id) by {
                assert(pre.log@[k] == self.log@[k]);
            }
        }
        id
    }

    /// Adds a binding of `label` to the key with the given fingerprint. A label
    /// that is bound to that fingerprint already keeps its binding; one that is
    /// bound otherwise is a conflict.
    pub fn store_add(&mut self, store: u64, label: &str, fingerprint: Fingerprint, now: u64) -> (r:
        Result<u64, Error>)
        requires
            old(self).wf(),
        ensures
            final(self).wf(),
            final(self).stores() == old(self).stores(),
            !has_store(old(self).stores(), store) ==> *final(self) == *old(self) && r == Err::<
                u64,
                Error,
            >(Error::NotFound),
            has_store(old(self).stores(), store) && has_label(old(self).bindings(), store, label@)
                ==> *final(self) == *old(self) && ({
                let b = old(self).bindings()[label_index(old(self).bindings(), store, label@)];
                if b.key == Some(fingerprint) {
                    r == Ok::<u64, Error>(b.id)
                } else {
                    r == Err::<u64, Error>(Error::Conflict)
                }
            }),
            has_store(old(self).stores(), store) && !has_label(old(self).bindings(), store, label@)
                && old(self).next_id() == u64::MAX ==> *final(self) == *old(self) && r == Err::<
                u64,
                Error,
            >(Error::StorageFailure),
            has_store(old(self).stores(), store) && !has_label(old(self).bindings(), store, label@)
                && old(self).next_id() < u64::MAX ==> r == Ok::<u64, Error>(old(self).next_id())
                && final(self).next_id() == old(self).next_id() + 1 && final(self).bindings()
                == old(self).bindings().push(
                (BindingView {
                    id: old(self).next_id(),
                    store,
                    label: label@,
                    key: Some(fingerprint),
                    stats: Stats::created_spec(now),
                }),
            ) && final(self).pool()@ == pool_sighted(old(self).pool()@, fingerprint, now)
                && final(self).pool().order() == (if old(self).pool()@.contains_key(fingerprint) {
                old(self).pool().order()
            } else {
                old(self).pool().order().push(fingerprint)
            }) && appended(
                old(self).log(),
                final(self).log(),
                now,
                Some(store),
                Some(old(self).next_id()),
                Some(fingerprint),
                label@,
                Event::BindingAdded,
                None,
            ) && select(final(self).log(), Scope::Binding(old(self).next_id())) == seq![
                final(self).log().last(),
            ],
    {
        if self.store_position(store).is_none() {
            return Err(Error::NotFound);
        }
        let owned = label.to_owned();
        match self.label_position(store, &owned) {
            Some(i) => {
                proof {
                    lemma_binding_found(self.bindings(), self.stores(), self.next_id, i as int);
                }
                match self.bindings[i].key {
                    Some(f) => if f == fingerprint {
                        Ok(self.bindings[i].id)
                    } else {
                        Err(Error::Conflict)
                    },
                    None => Err(Error::Conflict),
                }
            },
            None => {
                if self.next_id == u64::MAX {
                    return Err(Error::StorageFailure);
                }
                let ghost pre = *self;
                self.pool.sight(fingerprint, now);
                proof {
                    assert(self.stores() =~= pre.stores());
                    assert(self.bindings() =~= pre.bindings());
                }
                let id = self.bind(store, label, fingerprint, now);
                self.log.record(
                    now,
                    Some(store),
                    Some(id),
                    Some(fingerprint),
                    owned,
                    Event::BindingAdded,
                    None,
                );
                proof {
                    crate::log::lemma_first_entry(
                        pre.log@,
                        self.log@,
                        now,
                        Some(store),
                        id,
                        Some(fingerprint),
                        label@,
                        Event::BindingAdded,
                        None,
                    );
                }
                Ok(id)
            },
        }
    }

    /// Imports a key under `label`. A label that has a binding is updated as
    /// `binding_import` does; a new label is bound to the candidate, which goes
    /// into the pool.
    pub fn store_import(&mut self, store: u64, label: &str, candidate: &Tpk, now: u64) -> (r:
        Result<Tpk, Error>)
        requires
            old(self).wf(),
        ensures
            final(self).wf(),
            final(self).stores() == old(self).stores(),
            !has_store(old(self).stores(), store) ==> *final(self) == *old(self) && r == Err::<
                Tpk,
                Error,
            >(Error::NotFound),
            has_store(old(self).stores(), store) && has_label(old(self).bindings(), store, label@)
                ==> imported(
                *old(self),
                *final(self),
                old(self).bindings()[label_index(old(self).bindings(), store, label@)].id,
                candidate@,
                now,
                r,
            ),
            has_store(old(self).stores(), store) && !has_label(old(self).bindings(), store, label@)
                && !candidate@.valid() ==> *final(self) == *old(self) && r == Err::<Tpk, Error>(
                Error::InvalidKeyMaterial,
            ),
            has_store(old(self).stores(), store) && !has_label(old(self).bindings(), store, label@)
                && candidate@.valid() && old(self).next_id() == u64::MAX ==> *final(self) == *old(self) && r == Err::<Tpk, Error>(Error::StorageFailure),
            has_store(old(self).stores(), store) && !has_label(old(self).bindings(), store, label@)
                && candidate@.valid() && old(self).next_id() < u64::MAX ==> r is Ok && r->Ok_0@
                == entry_after(old(self).pool()@, candidate@, now).tpk && final(self).pool()@
                == old(self).pool()@.insert(
                candidate@.fingerprint,
                entry_after(old(self).pool()@, candidate@, now),
            ) && final(self).pool().order() == (if old(self).pool()@.contains_key(
                candidate@.fingerprint,
            ) {
                old(self).pool().order()
            } else {
                old(self).pool().order().push(candidate@.fingerprint)
            }) && final(self).next_id() == old(self).next_id() + 1 && final(self).bindings()
                == old(self).bindings().push(
                (BindingView {
                    id: old(self).next_id(),
                    store,
                    label: label@,
                    key: Some(candidate@.fingerprint),
                    stats: Stats::created_spec(now),
                }),
            ) && appended(
                old(self).log(),
                final(self).log(),
                now,
                Some(store),
                Some(old(self).next_id()),
                Some(candidate@.fingerprint),
                label@,
                Event::BoundNewKey,
                None,
            ) && select(final(self).log(), Scope::Binding(old(self).next_id())) == seq![
                final(self).log().last(),
            ],
    {
        if self.store_position(store).is_none() {
            return Err(Error::NotFound);
        }
        let owned = label.to_owned();
        match self.label_position(store, &owned) {
            Some(i) => {
                proof {
                    lemma_binding_found(self.bindings(), self.stores(), self.next_id, i as int);
                }
                let id = self.bindings[i].id;
                self.binding_import(id, candidate, now)
            },
            None => {
                if !candidate.is_valid() {
                    return Err(Error::InvalidKeyMaterial);
                }
                if self.next_id == u64::MAX {
                    return Err(Error::StorageFailure);
                }
                let ghost pre = *self;
                let material = match self.pool.get_or_create(candidate, now) {
                    Ok(m) => m,
                    Err(e) => {
                        return Err(e);
                    },
                };
                proof {
                    assert(self.stores() =~= pre.stores());
                    assert(self.bindings() =~= pre.bindings());
                }
                let id = self.bind(store, label, candidate.fingerprint, now);
                self.log.record(
                    now,
                    Some(store),
                    Some(id),
                    Some(candidate.fingerprint),
                    owned,
                    Event::BoundNewKey,
                    None,
                );
                proof {
                    crate::log::lemma_first_entry(
                        pre.log@,
                        self.log@,
                        now,
                        Some(store),
                        id,
                        Some(candidate.fingerprint),
                        label@,
                        Event::BoundNewKey,
                        None,
                    );
                }
                Ok(material)
            },
        }
    }

    /// Merges the candidate into the stored key with the fingerprint `key`; a key
    /// without material takes the candidate as it is. A
    /// candidate with another fingerprint is a conflict.
    pub fn key_import(&mut self, key: Fingerprint, candidate: &Tpk, now: u64) -> (r: Result<
        Tpk,
        Error,
    >)
        requires
            old(self).wf(),
        ensures
            final(self).wf(),
            final(self).stores() == old(self).stores(),
            final(self).bindings() == old(self).bindings(),
            !old(self).pool()@.contains_key(key) ==> *final(self) == *old(self) && r == Err::<
                Tpk,
                Error,
            >(Error::NotFound),
            old(self).pool()@.contains_key(key) && !candidate@.valid() ==> *final(self) == *old(self) && r == Err::<Tpk, Error>(Error::InvalidKeyMaterial),
            old(self).pool()@.contains_key(key) && candidate@.valid() && candidate@.fingerprint
                != key ==> *final(self) == *old(self) && r == Err::<Tpk, Error>(Error::Conflict),
            old(self).pool()@.contains_key(key) && candidate@.valid() && candidate@.fingerprint
                == key ==> r is Ok && r->Ok_0@ == entry_after(old(self).pool()@, candidate@, now).tpk
                && final(self).pool()@ == old(self).pool()@.insert(
                key,
                entry_after(old(self).pool()@, candidate@, now),
            ) && final(self).pool().order() == old(self).pool().order() && appended(
                old(self).log(),
                final(self).log(),
                now,
                None,
                None,
                Some(key),
                "key"@,
                Event::Merged,
                None,
            ),
    {
        if !self.pool.contains(key) {
            return Err(Error::NotFound);
        }
        if !candidate.is_valid() {
            return Err(Error::InvalidKeyMaterial);
        }
        if candidate.fingerprint != key {
            return Err(Error::Conflict);
        }
        let material = match self.pool.get_or_create(candidate, now) {
            Ok(m) => m,
            Err(e) => {
                return Err(e);
            },
        };
        self.log.record(now, None, None, Some(key), "key".to_owned(), Event::Merged, None);
        proof {
            assert(self.stores() =~= old(self).stores());
            assert(self.bindings() =~= old(self).bindings());
        }
        Ok(material)
    }

    /// Deletes the binding. The key stays in the pool.
    pub fn binding_delete(&mut self, binding: u64, now: u64) -> (r: Result<(), Error>)
        requires
            old(self).wf(),
        ensures
            final(self).wf(),
            final(self).stores() == old(self).stores(),
            final(self).pool() == old(self).pool(),
            final(self).next_id() == old(self).next_id(),
            !has_binding(old(self).bindings(), binding) ==> *final(self) == *old(self) && r == Err::<
                (),
                Error,
            >(Error::NotFound),
            has_binding(old(self).bindings(), binding) ==> r == Ok::<(), Error>(()) && ({
                let i = binding_index(old(self).bindings(), binding);
                let b = old(self).bindings()[i];
                final(self).bindings() == old(self).bindings().remove(i) && !has_binding(
                    final(self).bindings(),
                    binding,
                ) && appended(
                    old(self).log(),
                    final(self).log(),
                    now,
                    Some(b.store),
                    Some(binding),
                    b.key,
                    b.label,
                    Event::BindingDeleted,
                    None,
                )
            }),
    {
        let ghost pre = *self;
        let i = match self.binding_position(binding) {
            Some(i) => i,
            None => {
                return Err(Error::NotFound);
            },
        };
        proof {
            lemma_binding_found(pre.bindings(), pre.stores(), pre.next_id, i as int);
        }
        let gone = self.bindings.remove(i);
        self.log.record(
            now,
            Some(gone.store),
            Some(binding),
            gone.key,
            gone.label,
            Event::BindingDeleted,
            None,
        );
        proof {
            assert(self.stores() =~= pre.stores());
            assert(self.bindings() =~= pre.bindings().remove(i as int));
            assert forall|k: int| 0 <= k < self.bindings().len() implies #[trigger] self.bindings()[k]
                == pre.bindings()[if k < i {
                k
            } else {
                k + 1
            }] by {}
            assert(bindings_wf(self.bindings(), self.stores(), self.next_id));
        }
        Ok(())
    }

    /// Deletes the store and all its bindings. Each deletion is logged; the keys
    /// stay in the pool.
    pub fn store_delete(&mut self, store: u64, now: u64) -> (r: Result<(), Error>)
        requires
            old(self).wf(),
        ensures
            final(self).wf(),
            final(self).pool() == old(self).pool(),
            final(self).next_id() == old(self).next_id(),
            !has_store(old(self).stores(), store) ==> *final(self) == *old(self) && r == Err::<
                (),
                Error,
            >(Error::NotFound),
            has_store(old(self).stores(), store) ==> r == Ok::<(), Error>(()) && ({
                let i = store_index(old(self).stores(), store);
                &&& final(self).stores() == old(self).stores().remove(i)
                &&& !has_store(final(self).stores(), store)
                &&& final(self).bindings() == outside_store(old(self).bindings(), store)
                &&& final(self).log().len() > 0
                &&& deletions_logged(
                    old(self).bindings(),
                    store,
                    old(self).log(),
                    final(self).log().drop_last(),
                    now,
                )
                &&& appended(
                    final(self).log().drop_last(),
                    final(self).log(),
                    now,
                    Some(store),
                    None,
                    None,
                    old(self).stores()[i].name,
                    Event::StoreDeleted,
                    None,
                )
            }),
    {
        let ghost pre = *self;
        let i = match self.store_position(store) {
            Some(i) => i,
            None => {
                return Err(Error::NotFound);
            },
        };
        proof {
            lemma_store_found(pre.stores(), pre.next_id, i as int);
        }
        let mut kept: Vec<Binding> = Vec::new();
        let mut k: usize = 0;
        while k < self.bindings.len()
            invariant
                pre.wf(),
                k <= self.bindings.len(),
                self.bindings == pre.bindings,
                self.stores == pre.stores,
                self.pool == pre.pool,
                self.next_id == pre.next_id,
                self.log.wf(),
                handles_below(self.log@, self.next_id),
                store < self.next_id,
                binding_views(kept@) == outside_store(pre.bindings().take(k as int), store),
                deletions_logged(pre.bindings().take(k as int), store, pre.log(), self.log@, now),
                forall|a: int|
                    0 <= a < kept@.len() ==> (#[trigger] binding_views(kept@)[a]).store != store
                        && exists|m: int|
                        0 <= m < k && #[trigger] pre.bindings()[m] == binding_views(kept@)[a],
            decreases self.bindings.len() - k,
        {
            assert(pre.bindings().take(k + 1).drop_last() =~= pre.bindings().take(k as int));
            assert(pre.bindings().take(k + 1).last() == pre.bindings()[k as int]);
            let ghost views_before = binding_views(kept@);
            proof {
                lemma_handles_given(pre.bindings(), pre.stores(), pre.next_id, k as int);
            }
            if self.bindings[k].store == store {
                self.log.record(
                    now,
                    Some(store),
                    Some(self.bindings[k].id),
                    self.bindings[k].key,
                    self.bindings[k].label.clone(),
                    Event::BindingDeleted,
                    None,
                );
            } else {
                kept.push(self.bindings[k].duplicate());
                assert(binding_views(kept@) =~= views_before.push(pre.bindings()[k as int]));
                assert forall|a: int| 0 <= a < kept@.len() implies (#[trigger] binding_views(
                    kept@,
                )[a]).store != store && exists|m: int|
                    0 <= m < k + 1 && #[trigger] pre.bindings()[m] == binding_views(kept@)[a] by {
                    if a < views_before.len() {
                        assert(binding_views(kept@)[a] == views_before[a]);
                        let m = choose|m: int|
                            0 <= m < k && #[trigger] pre.bindings()[m] == views_before[a];
                        assert(pre.bindings()[m] == binding_views(kept@)[a]);
                    } else {
                        assert(pre.bindings()[k as int] == binding_views(kept@)[a]);
                    }
                }
            }
            k += 1;
        }
        assert(pre.bindings().take(k as int) =~= pre.bindings());
        let name = self.stores[i].name.clone();
        self.bindings = kept;
        let gone = self.stores.remove(i);
        let ghost mid = self.log@;
        self.log.record(now, Some(store), None, None, name, Event::StoreDeleted, None);
        proof {
            assert(self.stores() =~= pre.stores().remove(i as int));
            assert forall|w: int| 0 <= w < self.stores().len() implies #[trigger] self.stores()[w]
                == pre.stores()[if w < i {
                w
            } else {
                w + 1
            }] by {}
            assert(stores_wf(self.stores(), self.next_id));
            lemma_outside_store(pre.bindings(), store);
            assert forall|a: int|
                0 <= a < self.bindings().len() && (
                #[trigger] self.bindings()[a]).key is Some implies self.pool@.contains_key(
                self.bindings()[a].key->0,
            ) by {
                let b = self.bindings()[a];
                let m = choose|m: int|
                    0 <= m < pre.bindings().len() && #[trigger] pre.bindings()[m] == b;
                assert(pre.bindings()[m].key == b.key);
            }
            assert(keys_pooled(self.bindings(), self.pool@));
            assert forall|a: int| 0 <= a < self.bindings().len() implies has_store(
                self.stores(),
                (#[trigger] self.bindings()[a]).store,
            ) by {
                let b = self.bindings()[a];
                let m = choose|m: int|
                    0 <= m < pre.bindings().len() && #[trigger] pre.bindings()[m] == b;
                let w = store_index(pre.stores(), b.store);
                assert(0 <= w < pre.stores().len() && pre.stores()[w].id == b.store);
                if w < i {
                    assert(self.stores()[w].id == b.store);
                } else {
                    assert(self.stores()[w - 1].id == b.store);
                }
            }
            assert(bindings_wf(self.bindings(), self.stores(), self.next_id));
            assert(self.log@.drop_last() == mid);
        }
        Ok(())
    }

    /// Whether a binding of some store is bound to the key `f`. A key that no
    /// binding is bound to may be removed from the pool.
    pub fn key_referenced(&self, f: Fingerprint) -> (r: bool)
        ensures
            r == referenced(self.bindings(), f),
    {
        let mut i: usize = 0;
        while i < self.bindings.len()
            invariant
                i <= self.bindings.len(),
                forall|k: int| 0 <= k < i ==> (#[trigger] self.bindings()[k]).key != Some(f),
            decreases self.bindings.len() - i,
        {
            match self.bindings[i].key {
                Some(g) => {
                    if g == f {
                        assert(self.bindings()[i as int].key == Some(f));
                        return true;
                    }
                },
                None => {},
            }
            i += 1;
        }
        false
    }

    /// The stores whose domain starts with `domain_prefix`, in the order in
    /// which they were created.
    pub fn store_list_stores(&self, domain_prefix: &str) -> (r: Vec<Store>)
        ensures
            store_views(r@) == with_prefix(self.stores(), domain_prefix@),
    {
        let mut out: Vec<Store> = Vec::new();
        let mut i: usize = 0;
        while i < self.stores.len()
            invariant
                i <= self.stores.len(),
                store_views(out@) == with_prefix(self.stores().take(i as int), domain_prefix@),
            decreases self.stores.len() - i,
        {
            assert(self.stores().take(i + 1).drop_last() =~= self.stores().take(i as int));
            assert(self.stores().take(i + 1).last() == self.stores@[i as int]@);
            if starts_with(self.stores[i].domain.as_str(), domain_prefix) {
                let ghost before = store_views(out@);
                out.push(self.stores[i].duplicate());
                assert(store_views(out@) =~= before.push(self.stores@[i as int]@));
            }
            i += 1;
        }
        assert(self.stores().take(self.stores.len() as int) =~= self.stores());
        out
    }

    /// The bindings of the store, in the order in which they were created.
    pub fn store_iter(&self, store: u64) -> (r: Result<Vec<Binding>, Error>)
        ensures
            has_store(self.stores(), store) <==> r is Ok,
            r is Err ==> r->Err_0 == Error::NotFound,
            r is Ok ==> binding_views(r->Ok_0@) == of_store(self.bindings(), store),
    {
        if self.store_position(store).is_none() {
            return Err(Error::NotFound);
        }
        let mut out: Vec<Binding> = Vec::new();
        let mut i: usize = 0;
        while i < self.bindings.len()
            invariant
                i <= self.bindings.len(),
                binding_views(out@) == of_store(self.bindings().take(i as int), store),
            decreases self.bindings.len() - i,
        {
            assert(self.bindings().take(i + 1).drop_last() =~= self.bindings().take(i as int));
            assert(self.bindings().take(i + 1).last() == self.bindings@[i as int]@);
            if self.bindings[i].store == store {
                let ghost before = binding_views(out@);
                out.push(self.bindings[i].duplicate());
                assert(binding_views(out@) =~= before.push(self.bindings@[i as int]@));
            }
            i += 1;
        }
        assert(self.bindings().take(self.bindings.len() as int) =~= self.bindings());
        Ok(out)
    }

    /// The fingerprints of all keys in the pool, in the order in which they came in.
    pub fn store_list_keys(&self) -> (r: Vec<Fingerprint>)
        ensures
            r@ == self.pool().order(),
    {
        self.pool.list()
    }

    /// The fingerprints of the keys in the pool whose primary key has the identifier `id`.
    pub fn store_lookup_by_keyid(&self, id: u64) -> (r: Vec<Fingerprint>)
        ensures
            r@ == crate::pool::answering(self.pool().entries(), id, false),
    {
        self.pool.lookup_by_keyid(id)
    }

    /// The fingerprints of the keys in the pool whose primary key or one of whose
    /// subkeys has the identifier `id`.
    pub fn store_lookup_by_subkeyid(&self, id: u64) -> (r: Vec<Fingerprint>)
        ensures
            r@ == crate::pool::answering(self.pool().entries(), id, true),
    {
        self.pool.lookup_by_subkeyid(id)
    }

    /// The key in the pool whose primary key has the identifier `id`; where
    /// several have it, the one that came into the pool first.
    pub fn key_by_keyid(&self, id: u64) -> (r: Result<Fingerprint, Error>)
        ensures
            crate::pool::answering(self.pool().entries(), id, false).len() == 0 ==> r == Err::<
                Fingerprint,
                Error,
            >(Error::NotFound),
            crate::pool::answering(self.pool().entries(), id, false).len() > 0 ==> r == Ok::<
                Fingerprint,
                Error,
            >(crate::pool::answering(self.pool().entries(), id, false)[0]),
    {
        let found = self.pool.lookup_by_keyid(id);
        if found.len() == 0 {
            Err(Error::NotFound)
        } else {
            Ok(found[0])
        }
    }

    /// The key in the pool whose primary key or one of whose subkeys has the
    /// identifier `id`; where several have it, the one that came into the pool first.
    pub fn key_by_subkeyid(&self, id: u64) -> (r: Result<Fingerprint, Error>)
        ensures
            crate::pool::answering(self.pool().entries(), id, true).len() == 0 ==> r == Err::<
                Fingerprint,
                Error,
            >(Error::NotFound),
            crate::pool::answering(self.pool().entries(), id, true).len() > 0 ==> r == Ok::<
                Fingerprint,
                Error,
            >(crate::pool::answering(self.pool().entries(), id, true)[0]),
    {
        let found = self.pool.lookup_by_subkeyid(id);
        if found.len() == 0 {
            Err(Error::NotFound)
        } else {
            Ok(found[0])
        }
    }

    /// All log entries, oldest first.
    pub fn store_server_log(&self) -> (r: Vec<LogEntry>)
        ensures
            r@ == self.log(),
    {
        proof {
            crate::log::lemma_select_all(self.log@);
        }
        self.log.query(Scope::All)
    }

    /// The log entries about the store, oldest first. They outlive the store.
    pub fn store_log(&self, store: u64) -> (r: Vec<LogEntry>)
        ensures
            r@ == select(self.log(), Scope::Store(store)),
    {
        self.log.query(Scope::Store(store))
    }

    /// The log entries about the binding, oldest first. They outlive the binding.
    pub fn binding_log(&self, binding: u64) -> (r: Vec<LogEntry>)
        ensures
            r@ == select(self.log(), Scope::Binding(binding)),
    {
        self.log.query(Scope::Binding(binding))
    }

    /// The log entries about the key, oldest first.
    pub fn key_log(&self, key: Fingerprint) -> (r: Vec<LogEntry>)
        ensures
            r@ == select(self.log(), Scope::Key(key)),
    {
        self.log.query(Scope::Key(key))
    }

    /// What is recorded of the binding.
    pub fn binding_stats(&self, binding: u64) -> (r: Result<Stats, Error>)
        requires
            self.wf(),
        ensures
            has_binding(self.bindings(), binding) ==> r == Ok::<Stats, Error>(
                self.bindings()[binding_index(self.bindings(), binding)].stats,
            ),
            !has_binding(self.bindings(), binding) ==> r == Err::<Stats, Error>(Error::NotFound),
    {
        match self.binding_position(binding) {
            Some(i) => {
                proof {
                    lemma_binding_found(self.bindings(), self.stores(), self.next_id, i as int);
                }
                Ok(self.bindings[i].stats)
            },
            None => Err(Error::NotFound),
        }
    }

    /// The fingerprint of the key that the binding is bound to.
    pub fn binding_key(&self, binding: u64) -> (r: Result<Fingerprint, Error>)
        requires
            self.wf(),
        ensures
            bound_key(self.bindings(), binding) is Some ==> r == Ok::<Fingerprint, Error>(
                bound_key(self.bindings(), binding)->0,
            ),
            bound_key(self.bindings(), binding) is None ==> r == Err::<Fingerprint, Error>(
                Error::NotFound,
            ),
    {
        match self.binding_position(binding) {
            Some(i) => {
                proof {
                    lemma_binding_found(self.bindings(), self.stores(), self.next_id, i as int);
                }
                match self.bindings[i].key {
                    Some(f) => Ok(f),
                    None => Err(Error::NotFound),
                }
            },
            None => Err(Error::NotFound),
        }
    }

    /// The material of the key that the binding is bound to, as the pool holds it.
    /// A binding that does not exist or is not bound, and a key of which no
    /// material has been seen, have none to give.
    pub fn binding_tpk(&self, binding: u64) -> (r: Result<Tpk, Error>)
        requires
            self.wf(),
        ensures
            bound_key(self.bindings(), binding) is Some && self.pool()@[bound_key(
                self.bindings(),
                binding,
            )->0].tpk.valid() ==> r is Ok && r->Ok_0@ == self.pool()@[bound_key(
                self.bindings(),
                binding,
            )->0].tpk,
            !(bound_key(self.bindings(), binding) is Some && self.pool()@[bound_key(
                self.bindings(),
                binding,
            )->0].tpk.valid()) ==> r == Err::<Tpk, Error>(Error::NotFound),
            bound_key(self.bindings(), binding) is Some ==> self.pool()@.contains_key(
                bound_key(self.bindings(), binding)->0,
            ),
    {
        match self.binding_position(binding) {
            Some(i) => {
                proof {
                    lemma_binding_found(self.bindings(), self.stores(), self.next_id, i as int);
                }
                match self.bindings[i].key {
                    Some(f) => self.key_tpk(f),
                    None => Err(Error::NotFound),
                }
            },
            None => Err(Error::NotFound),
        }
    }

    /// The material of the key with the fingerprint `key`, as the pool holds it.
    /// A key of which no material has been seen has none to give.
    pub fn key_tpk(&self, key: Fingerprint) -> (r: Result<Tpk, Error>)
        requires
            self.wf(),
        ensures
            self.pool()@.contains_key(key) && self.pool()@[key].tpk.valid() ==> r is Ok && r->Ok_0@
                == self.pool()@[key].tpk,
            !(self.pool()@.contains_key(key) && self.pool()@[key].tpk.valid()) ==> r == Err::<
                Tpk,
                Error,
            >(Error::NotFound),
    {
        match self.pool.lookup_by_fingerprint(key) {
            Some(k) => {
                if k.tpk.is_valid() {
                    Ok(k.tpk.duplicate())
                } else {
                    Err(Error::NotFound)
                }
            },
            None => Err(Error::NotFound),
        }
    }

    /// What is recorded of the key with the fingerprint `key`.
    pub fn key_stats(&self, key: Fingerprint) -> (r: Result<Stats, Error>)
        requires
            self.wf(),
        ensures
            self.pool()@.contains_key(key) ==> r == Ok::<Stats, Error>(self.pool()@[key].stats),
            !self.pool()@.contains_key(key) ==> r == Err::<Stats, Error>(Error::NotFound),
    {
        match self.pool.lookup_by_fingerprint(key) {
            Some(k) => Ok(k.stats),
            None => Err(Error::NotFound),
        }
    }

    fn log_about(&mut self, i: usize, now: u64, event: Event, error: Option<Error>)
        requires
            old(self).wf(),
            i < old(self).bindings().len(),
        ensures
            final(self).wf(),
            only_logged(*old(self), *final(self), now, old(self).bindings()[i as int], event, error),
    {
        proof {
            lemma_handles_given(self.bindings(), self.stores(), self.next_id, i as int);
        }
        let store = self.bindings[i].store;
        let id = self.bindings[i].id;
        let key = self.bindings[i].key;
        let slug = self.bindings[i].label.clone();
        self.log.record(now, Some(store), Some(id), key, slug, event, error);
    }

    /// Starts a refresh of the binding: says whether its key is to be fetched,
    /// and logs the attempt. In a store whose policy is offline nothing is ever
    /// fetched, and the log says that the refresh was skipped.
    pub fn refresh_begin(&mut self, binding: u64, now: u64) -> (r: Result<Action, Error>)
        requires
            old(self).wf(),
        ensures
            final(self).wf(),
            refresh_begun(*old(self), *final(self), binding, now, r),
    {
        let i = match self.binding_position(binding) {
            Some(i) => i,
            None => {
                return Err(Error::NotFound);
            },
        };
        proof {
            lemma_binding_found(self.bindings(), self.stores(), self.next_id, i as int);
        }
        let key = match self.bindings[i].key {
            Some(f) => f,
            None => {
                return Err(Error::NotFound);
            },
        };
        let s = match self.store_position(self.bindings[i].store) {
            Some(s) => s,
            None => {
                return Err(Error::NotFound);
            },
        };
        proof {
            lemma_store_found(self.stores(), self.next_id, s as int);
        }
        let action = plan(self.stores[s].policy, key);
        match action {
            Action::Skip => self.log_about(i, now, Event::SkippedOffline, None),
            Action::Fetch { .. } => self.log_about(i, now, Event::FetchAttempt, None),
        }
        Ok(action)
    }

    /// Ends a refresh of the binding with what was fetched, `None` where the
    /// transport failed. The candidate goes through the import protocol, never
    /// through a forced rotation; a failure or a conflict is logged and returned
    /// as an event, not as an error.
    pub fn refresh_complete(&mut self, binding: u64, fetched: Option<&Tpk>, now: u64) -> (r:
        Result<Event, Error>)
        requires
            old(self).wf(),
        ensures
            final(self).wf(),
            refresh_completed(
                *old(self),
                *final(self),
                binding,
                match fetched {
                    Some(t) => Some(t@),
                    None => None,
                },
                now,
                r,
            ),
    {
        let i = match self.binding_position(binding) {
            Some(i) => i,
            None => {
                return Err(Error::NotFound);
            },
        };
        proof {
            lemma_binding_found(self.bindings(), self.stores(), self.next_id, i as int);
        }
        let key = self.bindings[i].key;
        if key.is_none() {
            return Err(Error::NotFound);
        }
        let s = match self.store_position(self.bindings[i].store) {
            Some(s) => s,
            None => {
                return Err(Error::NotFound);
            },
        };
        proof {
            lemma_store_found(self.stores(), self.next_id, s as int);
        }
        if !self.stores[s].policy.permits_network() {
            self.log_about(i, now, Event::SkippedOffline, None);
            return Ok(Event::SkippedOffline);
        }
        let candidate = match fetched {
            Some(t) => t,
            None => {
                self.log_about(i, now, Event::FetchFailed, Some(Error::TransportError));
                return Ok(Event::FetchFailed);
            },
        };
        if !candidate.is_valid() {
            self.log_about(i, now, Event::FetchFailed, Some(Error::InvalidKeyMaterial));
            return Ok(Event::FetchFailed);
        }
        let v = decide_import(key, candidate);
        match v {
            Verdict::Conflict => {
                self.log_about(i, now, Event::Conflict, Some(Error::Conflict));
                Ok(Event::Conflict)
            },
            _ => {
                match self.adopt(i, candidate, now, v.to_event()) {
                    Ok(_) => Ok(v.to_event()),
                    Err(e) => Err(e),
                }
            },
        }
    }

    fn register_use(&mut self, binding: u64, usage: Usage, now: u64) -> (r: Result<(), Error>)
        requires
            old(self).wf(),
        ensures
            final(self).wf(),
            use_registered(*old(self), *final(self), binding, usage, now, r),
    {
        let ghost pre = *self;
        let i = match self.binding_position(binding) {
            Some(i) => i,
            None => {
                return Err(Error::NotFound);
            },
        };
        proof {
            lemma_binding_found(pre.bindings(), pre.stores(), pre.next_id, i as int);
        }
        let key = match self.bindings[i].key {
            Some(f) => f,
            None => {
                return Err(Error::NotFound);
            },
        };
        let id = self.bindings[i].id;
        let store = self.bindings[i].store;
        let changed = Binding {
            id,
            store,
            label: self.bindings[i].label.clone(),
            key: Some(key),
            stats: self.bindings[i].stats.used(usage, now),
        };
        let slug = self.bindings[i].label.clone();
        let event = match usage {
            Usage::Encryption => Event::UsedForEncryption,
            Usage::Verification => Event::UsedForVerification,
        };
        self.pool.register_use(key, usage, now);
        self.bindings.set(i, changed);
        self.log.record(now, Some(store), Some(id), Some(key), slug, event, None);
        proof {
            let b = pre.bindings()[i as int];
            assert(self.stores() =~= pre.stores());
            assert(self.bindings() =~= pre.bindings().update(
                i as int,
                BindingView { stats: b.stats.used_spec(usage, now), ..b },
            ));
            assert forall|k: int| 0 <= k < self.bindings().len() implies (
            #[trigger] self.bindings()[k]).id == pre.bindings()[k].id && self.bindings()[k].store
                == pre.bindings()[k].store && self.bindings()[k].label
                == pre.bindings()[k].label by {}
        }
        Ok(())
    }

    /// Records that the binding's key was used for encryption at time `now`.
    pub fn binding_register_encryption(&mut self, binding: u64, now: u64) -> (r: Result<(), Error>)
        requires
            old(self).wf(),
        ensures
            final(self).wf(),
            use_registered(*old(self), *final(self), binding, Usage::Encryption, now, r),
    {
        self.register_use(binding, Usage::Encryption, now)
    }

    /// Records that the binding's key was used for verification at time `now`.
    pub fn binding_register_verification(&mut self, binding: u64, now: u64) -> (r: Result<
        (),
        Error,
    >)
        requires
            old(self).wf(),
        ensures
            final(self).wf(),
            use_registered(*old(self), *final(self), binding, Usage::Verification, now, r),
    {
        self.register_use(binding, Usage::Verification, now)
    }

    /// The handle of the store's binding for `label`.
    pub fn store_lookup(&self, store: u64, label: &str) -> (r: Result<u64, Error>)
        requires
            self.wf(),
        ensures
            has_label(self.bindings(), store, label@) ==> r == Ok::<u64, Error>(
                self.bindings()[label_index(self.bindings(), store, label@)].id,
            ),
            !has_label(self.bindings(), store, label@) ==> r == Err::<u64, Error>(Error::NotFound),
    {
        let owned = label.to_owned();
        match self.label_position(store, &owned) {
            Some(i) => {
                proof {
                    lemma_binding_found(self.bindings(), self.stores(), self.next_id, i as int);
                }
                Ok(self.bindings[i].id)
            },
            None => Err(Error::NotFound),
        }
    }
}

} // verus!
