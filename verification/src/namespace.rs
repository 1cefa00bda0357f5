//! Stores and their bindings: the records, what makes them well formed, and
//! how a store or a binding is found among them.

use vstd::prelude::*;
use crate::context::NetworkPolicy;
use crate::log::Event;
use crate::pool::KeyView;
use crate::stats::Stats;
use crate::tpk::{Fingerprint, Tpk, TpkView};

verus! {


/// A namespace of bindings.
#[derive(Clone, Debug, PartialEq, Eq)]
pub struct Store {
    /// The handle of the store.
    pub id: u64,
    /// The domain of the context that created the store.
    pub domain: String,
    /// The name of the store within its domain.
    pub name: String,
    /// The network policy that the store was created with.
    pub policy: NetworkPolicy,
}

/// What a store is.
pub struct StoreView {
    pub id: u64,
    pub domain: Seq<char>,
    pub name: Seq<char>,
    pub policy: NetworkPolicy,
}

impl View for Store {
    type V = StoreView;

    open spec fn view(&self) -> StoreView {
        StoreView { id: self.id, domain: self.domain@, name: self.name@, policy: self.policy }
    }
}

/// A label of one store, and the key that it stands for.
#[derive(Clone, Debug, PartialEq, Eq)]
pub struct Binding {
    /// The handle of the binding.
    pub id: u64,
    /// The handle of the store that owns the binding.
    pub store: u64,
    /// The label, unique in its store.
    pub label: String,
    /// The fingerprint of the bound key, if a key is bound.
    pub key: Option<Fingerprint>,
    /// What is recorded of the binding.
    pub stats: Stats,
}

/// What a binding is.
pub struct BindingView {
    pub id: u64,
    pub store: u64,
    pub label: Seq<char>,
    pub key: Option<Fingerprint>,
    pub stats: Stats,
}

impl View for Binding {
    type V = BindingView;

    open spec fn view(&self) -> BindingView {
        BindingView {
            id: self.id,
            store: self.store,
            label: self.label@,
            key: self.key,
            stats: self.stats,
        }
    }
}

/// What the import protocol decides for a candidate.
#[derive(Clone, Copy, Debug, PartialEq, Eq, Structural)]
pub enum Verdict {
    /// No key is bound yet: the candidate is adopted.
    Bind,
    /// The candidate has the bound key's fingerprint: it is merged into it.
    Merge,
    /// The candidate is another key that the bound key has signed: it takes its place.
    RotateSigned,
    /// The candidate is another key without such a signature: nothing changes.
    Conflict,
}

/// The decision of the import protocol, from the bound fingerprint and the candidate.
pub open spec fn verdict(current: Option<Fingerprint>, candidate: TpkView) -> Verdict {
    match current {
        None => Verdict::Bind,
        Some(f) => if f == candidate.fingerprint {
            Verdict::Merge
        } else if candidate.signed_by(f) {
            Verdict::RotateSigned
        } else {
            Verdict::Conflict
        },
    }
}

/// The decision of the import protocol, from the bound fingerprint and the candidate.
pub fn decide_import(current: Option<Fingerprint>, candidate: &Tpk) -> (r: Verdict)
    ensures
        r == verdict(current, candidate@),
{
    match current {
        None => Verdict::Bind,
        Some(f) => if f == candidate.fingerprint {
            Verdict::Merge
        } else if candidate.is_signed_by(f) {
            Verdict::RotateSigned
        } else {
            Verdict::Conflict
        },
    }
}

impl Store {
    /// A copy of the store's record.
    pub fn duplicate(&self) -> (r: Store)
        ensures
            r == *self,
    {
        Store {
            id: self.id,
            domain: self.domain.clone(),
            name: self.name.clone(),
            policy: self.policy,
        }
    }
}

impl Binding {
    /// A copy of the binding's record.
    pub fn duplicate(&self) -> (r: Binding)
        ensures
            r == *self,
    {
        Binding {
            id: self.id,
            store: self.store,
            label: self.label.clone(),
            key: self.key,
            stats: self.stats,
        }
    }
}

/// Whether the bytes of `prefix` start the bytes of `domain`.
pub fn starts_with(domain: &str, prefix: &str) -> (r: bool)
    ensures
        r == starts(domain@, prefix@),
{
    let d = domain.as_bytes();
    let p = prefix.as_bytes();
    if p.len() > d.len() {
        return false;
    }
    let mut i: usize = 0;
    while i < p.len()
        invariant
            i <= p.len(),
            p.len() <= d.len(),
            d@ == vstd::utf8::encode_utf8(domain@),
            p@ == vstd::utf8::encode_utf8(prefix@),
            forall|k: int| 0 <= k < i ==> p@[k] == d@[k],
        decreases p.len() - i,
    {
        if p[i] != d[i] {
            assert(d@.subrange(0, p@.len() as int)[i as int] == d@[i as int]);
            return false;
        }
        i += 1;
    }
    assert(p@ =~= d@.subrange(0, p@.len() as int));
    true
}

impl Verdict {
    /// The event that the log records for the decision.
    pub open spec fn event(self) -> Event {
        match self {
            Verdict::Bind => Event::BoundNewKey,
            Verdict::Merge => Event::Merged,
            Verdict::RotateSigned => Event::RotatedSigned,
            Verdict::Conflict => Event::Conflict,
        }
    }

    /// The event that the log records for the decision.
    pub fn to_event(&self) -> (r: Event)
        ensures
            r == self.event(),
    {
        match self {
            Verdict::Bind => Event::BoundNewKey,
            Verdict::Merge => Event::Merged,
            Verdict::RotateSigned => Event::RotatedSigned,
            Verdict::Conflict => Event::Conflict,
        }
    }
}

/// Whether a store with the handle `id` is among `stores`.
pub open spec fn has_store(stores: Seq<StoreView>, id: u64) -> bool {
    exists|i: int| 0 <= i < stores.len() && (#[trigger] stores[i]).id == id
}

/// The place of the store with the handle `id`.
pub open spec fn store_index(stores: Seq<StoreView>, id: u64) -> int {
    choose|i: int| 0 <= i < stores.len() && (#[trigger] stores[i]).id == id
}

/// Whether a store of that domain and name is among `stores`.
pub open spec fn has_named(stores: Seq<StoreView>, domain: Seq<char>, name: Seq<char>) -> bool {
    exists|i: int|
        0 <= i < stores.len() && (#[trigger] stores[i]).domain == domain && stores[i].name == name
}

/// The place of the store of that domain and name.
pub open spec fn named_index(stores: Seq<StoreView>, domain: Seq<char>, name: Seq<char>) -> int {
    choose|i: int|
        0 <= i < stores.len() && (#[trigger] stores[i]).domain == domain && stores[i].name == name
}

/// Whether a binding with the handle `id` is among `bindings`.
pub open spec fn has_binding(bindings: Seq<BindingView>, id: u64) -> bool {
    exists|i: int| 0 <= i < bindings.len() && (#[trigger] bindings[i]).id == id
}

/// The place of the binding with the handle `id`.
pub open spec fn binding_index(bindings: Seq<BindingView>, id: u64) -> int {
    choose|i: int| 0 <= i < bindings.len() && (#[trigger] bindings[i]).id == id
}

/// Whether the store has a binding with that label.
pub open spec fn has_label(bindings: Seq<BindingView>, store: u64, label: Seq<char>) -> bool {
    exists|i: int|
        0 <= i < bindings.len() && (#[trigger] bindings[i]).store == store && bindings[i].label
            == label
}

/// The place of the store's binding with that label.
pub open spec fn label_index(bindings: Seq<BindingView>, store: u64, label: Seq<char>) -> int {
    choose|i: int|
        0 <= i < bindings.len() && (#[trigger] bindings[i]).store == store && bindings[i].label
            == label
}

/// Handles and names of stores are unique, and every handle has been given out.
pub open spec fn stores_wf(stores: Seq<StoreView>, next: u64) -> bool {
    &&& forall|i: int, j: int|
        0 <= i < j < stores.len() ==> (#[trigger] stores[i]).id != (#[trigger] stores[j]).id && !(
        stores[i].domain == stores[j].domain && stores[i].name == stores[j].name)
    &&& forall|i: int| 0 <= i < stores.len() ==> (#[trigger] stores[i]).id < next
}

/// Handles of bindings are unique and have been given out, labels are unique in
/// each store, and every binding belongs to a store that exists.
pub open spec fn bindings_wf(bindings: Seq<BindingView>, stores: Seq<StoreView>, next: u64) -> bool {
    &&& forall|i: int, j: int|
        0 <= i < j < bindings.len() ==> (#[trigger] bindings[i]).id != (#[trigger] bindings[j]).id
            && !(bindings[i].store == bindings[j].store && bindings[i].label == bindings[j].label)
    &&& forall|i: int|
        0 <= i < bindings.len() ==> (#[trigger] bindings[i]).id < next && bindings[i].stats.wf()
            && has_store(stores, bindings[i].store)
}

/// Whether the pool holds a key for every fingerprint that a binding is bound to.
pub open spec fn keys_pooled(bindings: Seq<BindingView>, pool: Map<Fingerprint, KeyView>) -> bool {
    forall|i: int|
        0 <= i < bindings.len() ==> ((#[trigger] bindings[i]).key is Some ==> pool.contains_key(
            bindings[i].key->0,
        ))
}

/// Every binding of well-formed bindings, and its store, has a handle that was given out.
pub proof fn lemma_handles_given(
    bindings: Seq<BindingView>,
    stores: Seq<StoreView>,
    next: u64,
    p: int,
)
    requires
        stores_wf(stores, next),
        bindings_wf(bindings, stores, next),
        0 <= p < bindings.len(),
    ensures
        bindings[p].id < next,
        bindings[p].store < next,
{
    let w = store_index(stores, bindings[p].store);
    assert(0 <= w < stores.len() && stores[w].id == bindings[p].store);
}

/// In well-formed stores a handle or a name finds the one store that has it.
pub proof fn lemma_store_found(stores: Seq<StoreView>, next: u64, p: int)
    requires
        stores_wf(stores, next),
        0 <= p < stores.len(),
    ensures
        has_store(stores, stores[p].id),
        store_index(stores, stores[p].id) == p,
        has_named(stores, stores[p].domain, stores[p].name),
        named_index(stores, stores[p].domain, stores[p].name) == p,
{
    let i = store_index(stores, stores[p].id);
    assert(0 <= i < stores.len() && stores[i].id == stores[p].id);
    let j = named_index(stores, stores[p].domain, stores[p].name);
    assert(0 <= j < stores.len() && stores[j].domain == stores[p].domain && stores[j].name
        == stores[p].name);
}

/// In well-formed bindings a handle, or a store and a label, finds the one
/// binding that has it.
pub proof fn lemma_binding_found(
    bindings: Seq<BindingView>,
    stores: Seq<StoreView>,
    next: u64,
    p: int,
)
    requires
        bindings_wf(bindings, stores, next),
        0 <= p < bindings.len(),
    ensures
        has_binding(bindings, bindings[p].id),
        binding_index(bindings, bindings[p].id) == p,
        has_label(bindings, bindings[p].store, bindings[p].label),
        label_index(bindings, bindings[p].store, bindings[p].label) == p,
{
    let i = binding_index(bindings, bindings[p].id);
    assert(0 <= i < bindings.len() && bindings[i].id == bindings[p].id);
    let j = label_index(bindings, bindings[p].store, bindings[p].label);
    assert(0 <= j < bindings.len() && bindings[j].store == bindings[p].store && bindings[j].label
        == bindings[p].label);
}

/// The fingerprint that the binding is bound to, if it exists and is bound.
pub open spec fn bound_key(bindings: Seq<BindingView>, binding: u64) -> Option<Fingerprint> {
    if has_binding(bindings, binding) {
        bindings[binding_index(bindings, binding)].key
    } else {
        None
    }
}

/// What a list of stores is.
pub open spec fn store_views(v: Seq<Store>) -> Seq<StoreView> {
    Seq::new(v.len(), |i: int| v[i]@)
}

/// What a list of bindings is.
pub open spec fn binding_views(v: Seq<Binding>) -> Seq<BindingView> {
    Seq::new(v.len(), |i: int| v[i]@)
}

/// Whether the text `prefix` starts the text `domain`, byte for byte.
pub open spec fn starts(domain: Seq<char>, prefix: Seq<char>) -> bool {
    vstd::utf8::encode_utf8(prefix).is_prefix_of(vstd::utf8::encode_utf8(domain))
}

/// The stores whose domain starts with `prefix`, in their order.
pub open spec fn with_prefix(stores: Seq<StoreView>, prefix: Seq<char>) -> Seq<StoreView>
    decreases stores.len(),
{
    if stores.len() == 0 {
        stores
    } else if starts(stores.last().domain, prefix) {
        with_prefix(stores.drop_last(), prefix).push(stores.last())
    } else {
        with_prefix(stores.drop_last(), prefix)
    }
}

/// The bindings that belong to `store`, in their order.
pub open spec fn of_store(bindings: Seq<BindingView>, store: u64) -> Seq<BindingView>
    decreases bindings.len(),
{
    if bindings.len() == 0 {
        bindings
    } else if bindings.last().store == store {
        of_store(bindings.drop_last(), store).push(bindings.last())
    } else {
        of_store(bindings.drop_last(), store)
    }
}

/// The bindings that do not belong to `store`, in their order.
pub open spec fn outside_store(bindings: Seq<BindingView>, store: u64) -> Seq<BindingView>
    decreases bindings.len(),
{
    if bindings.len() == 0 {
        bindings
    } else if bindings.last().store == store {
        outside_store(bindings.drop_last(), store)
    } else {
        outside_store(bindings.drop_last(), store).push(bindings.last())
    }
}

/// Whether a binding among `bindings` is bound to the key `f`.
pub open spec fn referenced(bindings: Seq<BindingView>, f: Fingerprint) -> bool {
    exists|i: int| 0 <= i < bindings.len() && (#[trigger] bindings[i]).key == Some(f)
}

/// What is left of the bindings outside a store holds no binding of that
/// store, and only bindings that were there, in the order in which they were there.
pub proof fn lemma_outside_store(bindings: Seq<BindingView>, store: u64)
    ensures
        forall|a: int|
            0 <= a < outside_store(bindings, store).len() ==> (#[trigger] outside_store(
                bindings,
                store,
            )[a]).store != store && exists|m: int|
                0 <= m < bindings.len() && #[trigger] bindings[m] == outside_store(
                    bindings,
                    store,
                )[a],
        forall|a: int, b: int|
            #![trigger outside_store(bindings, store)[a], outside_store(bindings, store)[b]]
            0 <= a < b < outside_store(bindings, store).len() ==> exists|m: int, n: int|
                0 <= m < n < bindings.len() && #[trigger] bindings[m] == outside_store(
                    bindings,
                    store,
                )[a] && #[trigger] bindings[n] == outside_store(bindings, store)[b],
    decreases bindings.len(),
{
    if bindings.len() > 0 {
        let init = bindings.drop_last();
        lemma_outside_store(init, store);
        let r = outside_store(init, store);
        let full = outside_store(bindings, store);
        let last = bindings.len() - 1;
        assert forall|a: int| 0 <= a < full.len() implies (#[trigger] full[a]).store != store
            && exists|m: int| 0 <= m < bindings.len() && #[trigger] bindings[m] == full[a] by {
            if a < r.len() {
                let m = choose|m: int| 0 <= m < init.len() && #[trigger] init[m] == r[a];
                assert(bindings[m] == full[a]);
            } else {
                assert(bindings[last] == full[a]);
            }
        }
        assert forall|a: int, b: int|
            #![trigger full[a], full[b]]
            0 <= a < b < full.len() implies exists|m: int, n: int|
            0 <= m < n < bindings.len() && #[trigger] bindings[m] == full[a]
                && #[trigger] bindings[n] == full[b] by {
            if b < r.len() {
                let (m, n) = choose|m: int, n: int|
                    0 <= m < n < init.len() && #[trigger] init[m] == r[a] && #[trigger] init[n]
                        == r[b];
                assert(bindings[m] == full[a] && bindings[n] == full[b]);
            } else {
                let m = choose|m: int| 0 <= m < init.len() && #[trigger] init[m] == r[a];
                assert(bindings[m] == full[a] && bindings[last] == full[b]);
            }
        }
    }
}

/// The network policy of the store that owns the binding.
pub open spec fn policy_of(stores: Seq<StoreView>, binding: BindingView) -> NetworkPolicy {
    stores[store_index(stores, binding.store)].policy
}

/// After a store is gone, a key is still bound exactly when a binding of
/// another store is bound to it.
pub proof fn lemma_outside_store_referenced(bindings: Seq<BindingView>, store: u64, f: Fingerprint)
    ensures
        referenced(outside_store(bindings, store), f) <==> exists|i: int|
            0 <= i < bindings.len() && (#[trigger] bindings[i]).store != store && bindings[i].key
                == Some(f),
    decreases bindings.len(),
{
    if bindings.len() > 0 {
        let init = bindings.drop_last();
        let last = bindings.len() - 1;
        lemma_outside_store_referenced(init, store, f);
        let rest = outside_store(init, store);
        let full = outside_store(bindings, store);
        if referenced(full, f) {
            let k = choose|k: int| 0 <= k < full.len() && (#[trigger] full[k]).key == Some(f);
            if k < rest.len() {
                assert(rest[k].key == Some(f));
                let i = choose|i: int|
                    0 <= i < init.len() && (#[trigger] init[i]).store != store && init[i].key
                        == Some(f);
                assert(bindings[i] == init[i]);
            } else {
                assert(bindings[last].store != store && bindings[last].key == Some(f));
            }
        }
        if exists|i: int|
            0 <= i < bindings.len() && (#[trigger] bindings[i]).store != store && bindings[i].key
                == Some(f) {
            let i = choose|i: int|
                0 <= i < bindings.len() && (#[trigger] bindings[i]).store != store
                    && bindings[i].key == Some(f);
            if i < last {
                assert(init[i] == bindings[i]);
                let k = choose|k: int| 0 <= k < rest.len() && (#[trigger] rest[k]).key == Some(f);
                assert(full[k].key == Some(f));
            } else {
                assert(full[full.len() - 1].key == Some(f));
            }
        }
    }
}

} // verus!
