//! The pool of keys, shared by all stores: one key per fingerprint.

use vstd::prelude::*;
use crate::context::Error;
use crate::stats::{Stats, Usage};
use crate::tpk::{blank_key, contains_id, merge_spec, Fingerprint, Tpk, TpkView};

verus! {

/// One entry of the pool: a key and what is recorded of its use.
#[derive(Clone, Debug, PartialEq, Eq)]
pub struct Key {
    pub tpk: Tpk,
    pub stats: Stats,
}

/// What an entry of the pool is.
pub struct KeyView {
    pub tpk: TpkView,
    pub stats: Stats,
}

impl View for Key {
    type V = KeyView;

    open spec fn view(&self) -> KeyView {
        KeyView { tpk: self.tpk@, stats: self.stats }
    }
}

/// The entry under the candidate's fingerprint after the candidate came in at
/// time `now`: the candidate itself where the pool had no such entry, or one
/// without material; else the stored key with the candidate merged into it.
pub open spec fn entry_after(pool: Map<Fingerprint, KeyView>, candidate: TpkView, now: u64) -> KeyView {
    if pool.contains_key(candidate.fingerprint) {
        KeyView {
            tpk: if pool[candidate.fingerprint].tpk.valid() {
                merge_spec(pool[candidate.fingerprint].tpk, candidate)
            } else {
                candidate
            },
            stats: pool[candidate.fingerprint].stats.touched_spec(now),
        }
    } else {
        KeyView { tpk: candidate, stats: Stats::created_spec(now) }
    }
}

/// The pool after the fingerprint `f` was sighted at time `now`: a fingerprint
/// that is new gets a key without material.
pub open spec fn pool_sighted(pool: Map<Fingerprint, KeyView>, f: Fingerprint, now: u64) -> Map<
    Fingerprint,
    KeyView,
> {
    if pool.contains_key(f) {
        pool
    } else {
        pool.insert(f, KeyView { tpk: blank_key(f), stats: Stats::created_spec(now) })
    }
}

/// The pool after the key with the fingerprint `f`, if it is there, was used
/// once more at time `now`.
pub open spec fn pool_used(
    pool: Map<Fingerprint, KeyView>,
    f: Fingerprint,
    usage: Usage,
    now: u64,
) -> Map<Fingerprint, KeyView> {
    if pool.contains_key(f) {
        pool.insert(f, KeyView { stats: pool[f].stats.used_spec(usage, now), ..pool[f] })
    } else {
        pool
    }
}

/// Whether a key has material and answers to the identifier `id` as its primary key.
pub open spec fn has_keyid(k: KeyView, id: u64) -> bool {
    k.tpk.valid() && k.tpk.keyid == id
}

/// Whether a key has material and answers to the identifier `id`, as its
/// primary key or as a subkey.
pub open spec fn has_subkeyid(k: KeyView, id: u64) -> bool {
    k.tpk.valid() && (k.tpk.keyid == id || k.tpk.subkeys.contains(id))
}

/// The fingerprints of the keys among `keys` that answer to `id`, in their order;
/// `sub` says whether subkeys count.
pub open spec fn answering(keys: Seq<Key>, id: u64, sub: bool) -> Seq<Fingerprint>
    decreases keys.len(),
{
    if keys.len() == 0 {
        Seq::empty()
    } else {
        let rest = answering(keys.drop_last(), id, sub);
        let k = keys.last()@;
        if has_keyid(k, id) || (sub && has_subkeyid(k, id)) {
            rest.push(k.tpk.fingerprint)
        } else {
            rest
        }
    }
}

/// A lookup by identifier finds exactly the keys that answer to it: every
/// fingerprint it gives is that of such a key, and every such key is found.
pub proof fn lemma_answering(keys: Seq<Key>, id: u64, sub: bool, f: Fingerprint)
    ensures
        answering(keys, id, sub).contains(f) <==> exists|i: int|
            0 <= i < keys.len() && (#[trigger] keys[i]).tpk.fingerprint == f && (has_keyid(
                keys[i]@,
                id,
            ) || (sub && has_subkeyid(keys[i]@, id))),
    decreases keys.len(),
{
    if keys.len() > 0 {
        let init = keys.drop_last();
        let last = keys.len() - 1;
        lemma_answering(init, id, sub, f);
        let rest = answering(init, id, sub);
        let full = answering(keys, id, sub);
        let hit = has_keyid(keys[last]@, id) || (sub && has_subkeyid(keys[last]@, id));
        if full.contains(f) {
            let k = choose|k: int| 0 <= k < full.len() && full[k] == f;
            if k < rest.len() {
                assert(rest[k] == f);
                let i = choose|i: int|
                    0 <= i < init.len() && (#[trigger] init[i]).tpk.fingerprint == f && (has_keyid(
                        init[i]@,
                        id,
                    ) || (sub && has_subkeyid(init[i]@, id)));
                assert(keys[i] == init[i]);
            } else {
                assert(keys[last].tpk.fingerprint == f && hit);
            }
        }
        if exists|i: int|
            0 <= i < keys.len() && (#[trigger] keys[i]).tpk.fingerprint == f && (has_keyid(
                keys[i]@,
                id,
            ) || (sub && has_subkeyid(keys[i]@, id))) {
            let i = choose|i: int|
                0 <= i < keys.len() && (#[trigger] keys[i]).tpk.fingerprint == f && (has_keyid(
                    keys[i]@,
                    id,
                ) || (sub && has_subkeyid(keys[i]@, id)));
            if i < last {
                assert(init[i] == keys[i]);
                assert(rest.contains(f));
                let k = choose|k: int| 0 <= k < rest.len() && rest[k] == f;
                assert(full[k] == f);
            } else {
                assert(full[full.len() - 1] == f);
            }
        }
    }
}

/// The repository of keys.
#[derive(Debug)]
pub struct Pool {
    keys: Vec<Key>,
}

impl View for Pool {
    type V = Map<Fingerprint, KeyView>;

    /// The keys by fingerprint.
    closed spec fn view(&self) -> Map<Fingerprint, KeyView> {
        Map::new(
            |f: Fingerprint| self.order().contains(f),
            |f: Fingerprint| self.keys@[self.order().index_of(f)]@,
        )
    }
}

impl Pool {
    /// The keys in the order in which they came in.
    pub closed spec fn entries(&self) -> Seq<Key> {
        self.keys@
    }

    /// The fingerprints of the keys, in the order in which they came in.
    pub closed spec fn order(&self) -> Seq<Fingerprint> {
        Seq::new(self.keys@.len(), |i: int| self.keys@[i].tpk.fingerprint)
    }

    /// No fingerprint occurs twice, and every key has well-formed material or none.
    pub closed spec fn wf(&self) -> bool {
        &&& self.order().no_duplicates()
        &&& forall|i: int|
            0 <= i < self.keys@.len() ==> ((#[trigger] self.keys@[i]).tpk@.valid()
                || self.keys@[i].tpk@ == blank_key(self.keys@[i].tpk.fingerprint))
                && self.keys@[i].stats.wf()
    }

    proof fn lemma_slot(&self, i: int)
        requires
            self.wf(),
            0 <= i < self.keys@.len(),
        ensures
            self.order()[i] == self.keys@[i].tpk.fingerprint,
            self.order().contains(self.order()[i]),
            self.order().index_of(self.order()[i]) == i,
            self@.contains_key(self.keys@[i].tpk.fingerprint),
            self@[self.keys@[i].tpk.fingerprint] == self.keys@[i]@,
    {
        let f = self.order()[i];
        assert(self.order().contains(f));
        let j = self.order().index_of(f);
        assert(0 <= j < self.order().len() && self.order()[j] == f);
    }

    proof fn lemma_appended(&self, after: Pool, f: Fingerprint)
        requires
            self.wf(),
            !self@.contains_key(f),
            after.keys@.len() == self.keys@.len() + 1,
            after.keys@.drop_last() == self.keys@,
            after.keys@.last().tpk.fingerprint == f,
            after.keys@.last().stats.wf(),
            after.keys@.last().tpk@.valid() || after.keys@.last().tpk@ == blank_key(f),
        ensures
            after.wf(),
            after.order() == self.order().push(f),
            after@ == self@.insert(f, after.keys@.last()@),
    {
        let n = self.keys@.len() as int;
        assert(after.order() =~= self.order().push(f));
        assert forall|k: int| 0 <= k < n implies after.keys@[k] == self.keys@[k] by {
            assert(after.keys@.drop_last()[k] == after.keys@[k]);
        }
        assert forall|a: int, b: int|
            0 <= a < after.order().len() && 0 <= b < after.order().len() && a
                != b implies after.order()[a] != after.order()[b] by {
            if a < n {
                assert(self.order()[a] == after.order()[a]);
                assert(self.order().contains(after.order()[a]));
            }
            if b < n {
                assert(self.order()[b] == after.order()[b]);
                assert(self.order().contains(after.order()[b]));
            }
        }
        assert(after.wf());
        assert forall|g: Fingerprint| after@.contains_key(g) implies #[trigger] after@[g]
            == self@.insert(f, after.keys@.last()@)[g] by {
            let j = after.order().index_of(g);
            assert(0 <= j < after.order().len() && after.order()[j] == g);
            after.lemma_slot(j);
            if j < n {
                self.lemma_slot(j);
            }
        }
        assert forall|g: Fingerprint|
            self@.insert(f, after.keys@.last()@).contains_key(g) implies after@.contains_key(
            g,
        ) by {
            if g == f {
                assert(after.order()[n] == f);
            } else {
                let j = self.order().index_of(g);
                assert(0 <= j < n && self.order()[j] == g);
                assert(after.order()[j] == g);
            }
        }
        assert(after@ =~= self@.insert(f, after.keys@.last()@));
    }

    /// The pool holds at most one key of each fingerprint: two entries with the
    /// same fingerprint are one entry, and the map of the pool holds what the
    /// entries hold, each under its own fingerprint.
    pub proof fn lemma_one_key_per_fingerprint(&self, i: int, j: int)
        requires
            self.wf(),
            0 <= i < self.entries().len(),
            0 <= j < self.entries().len(),
        ensures
            self.entries()[i].tpk.fingerprint == self.entries()[j].tpk.fingerprint ==> i == j,
            self@.contains_key(self.entries()[i].tpk.fingerprint),
            self@[self.entries()[i].tpk.fingerprint] == self.entries()[i]@,
            self.order().len() == self.entries().len(),
            self.order()[i] == self.entries()[i].tpk.fingerprint,
            self.order().no_duplicates(),
    {
        self.lemma_slot(i);
        self.lemma_slot(j);
    }

    /// Every key of the pool stands under its own fingerprint, and has
    /// well-formed material or none. The pool holds a key for a fingerprint
    /// exactly when the fingerprint is in its order, which names each key once.
    pub proof fn lemma_pool_keys(&self, f: Fingerprint)
        requires
            self.wf(),
        ensures
            self@.contains_key(f) <==> self.order().contains(f),
            self@.contains_key(f) ==> self@[f].tpk.fingerprint == f && (self@[f].tpk.valid()
                || self@[f].tpk == blank_key(f)) && self@[f].stats.wf(),
            self.order().no_duplicates(),
            self.order().len() == self.entries().len(),
    {
        if self.order().contains(f) {
            let j = self.order().index_of(f);
            assert(0 <= j < self.order().len() && self.order()[j] == f);
            self.lemma_slot(j);
        }
    }

    /// An empty pool: it holds no key.
    pub fn new() -> (r: Pool)
        ensures
            r.wf(),
            r@ == Map::<Fingerprint, KeyView>::empty(),
            r.order() == Seq::<Fingerprint>::empty(),
            r.entries() == Seq::<Key>::empty(),
    {
        let r = Pool { keys: Vec::new() };
        assert(r@ =~= Map::<Fingerprint, KeyView>::empty());
        assert(r.order() =~= Seq::<Fingerprint>::empty());
        assert(r.entries() =~= Seq::<Key>::empty());
        r
    }

    fn position(&self, f: Fingerprint) -> (r: Option<usize>)
        requires
            self.wf(),
        ensures
            r is Some <==> self@.contains_key(f),
            r is Some ==> r->0 < self.keys@.len() && self.keys@[r->0 as int].tpk.fingerprint == f
                && self@[f] == self.keys@[r->0 as int]@,
    {
        let mut i: usize = 0;
        while i < self.keys.len()
            invariant
                self.wf(),
                i <= self.keys.len(),
                forall|k: int| 0 <= k < i ==> self.order()[k] != f,
            decreases self.keys.len() - i,
        {
            if self.keys[i].tpk.fingerprint == f {
                proof {
                    self.lemma_slot(i as int);
                }
                return Some(i);
            }
            i += 1;
        }
        None
    }

    /// Whether the pool holds a key with the fingerprint `f`.
    pub fn contains(&self, f: Fingerprint) -> (r: bool)
        requires
            self.wf(),
        ensures
            r == self@.contains_key(f),
    {
        self.position(f).is_some()
    }

    /// The key with the fingerprint `f`, if the pool holds one.
    pub fn lookup_by_fingerprint(&self, f: Fingerprint) -> (r: Option<&Key>)
        requires
            self.wf(),
        ensures
            r is Some <==> self@.contains_key(f),
            r is Some ==> r->0@ == self@[f] && r->0.tpk.fingerprint == f,
    {
        match self.position(f) {
            Some(i) => Some(&self.keys[i]),
            None => None,
        }
    }

    fn lookup_by(&self, id: u64, sub: bool) -> (r: Vec<Fingerprint>)
        ensures
            r@ == answering(self.entries(), id, sub),
    {
        let mut out: Vec<Fingerprint> = Vec::new();
        let mut i: usize = 0;
        while i < self.keys.len()
            invariant
                i <= self.keys.len(),
                out@ == answering(self.keys@.take(i as int), id, sub),
            decreases self.keys.len() - i,
        {
            assert(self.keys@.take(i + 1).drop_last() =~= self.keys@.take(i as int));
            let k = &self.keys[i];
            if k.tpk.is_valid() && (k.tpk.keyid == id || (sub && contains_id(&k.tpk.subkeys, id))) {
                out.push(k.tpk.fingerprint);
            }
            i += 1;
        }
        assert(self.keys@.take(self.keys.len() as int) =~= self.keys@);
        out
    }

    /// The fingerprints of the keys whose primary key has the identifier `id`,
    /// in the order of the pool.
    pub fn lookup_by_keyid(&self, id: u64) -> (r: Vec<Fingerprint>)
        ensures
            r@ == answering(self.entries(), id, false),
    {
        self.lookup_by(id, false)
    }

    /// The fingerprints of the keys whose primary key or one of whose subkeys
    /// has the identifier `id`, in the order of the pool.
    pub fn lookup_by_subkeyid(&self, id: u64) -> (r: Vec<Fingerprint>)
        ensures
            r@ == answering(self.entries(), id, true),
    {
        self.lookup_by(id, true)
    }

    /// The fingerprints of all keys, in the order in which they came in.
    pub fn list(&self) -> (r: Vec<Fingerprint>)
        ensures
            r@ == self.order(),
    {
        let mut out: Vec<Fingerprint> = Vec::new();
        let mut i: usize = 0;
        while i < self.keys.len()
            invariant
                i <= self.keys.len(),
                out@ == self.order().take(i as int),
            decreases self.keys.len() - i,
        {
            out.push(self.keys[i].tpk.fingerprint);
            assert(self.order().take(i + 1) =~= self.order().take(i as int).push(
                self.order()[i as int],
            ));
            i += 1;
        }
        assert(self.order().take(self.keys.len() as int) =~= self.order());
        out
    }

    /// Records one use of the key with the fingerprint `f` at time `now`, and
    /// says whether the pool holds that key.
    pub fn register_use(&mut self, f: Fingerprint, usage: Usage, now: u64) -> (r: bool)
        requires
            old(self).wf(),
        ensures
            final(self).wf(),
            r == old(self)@.contains_key(f),
            final(self)@ == pool_used(old(self)@, f, usage, now),
            final(self).order() == old(self).order(),
            !r ==> *final(self) == *old(self),
    {
        let ghost before = *self;
        match self.position(f) {
            Some(i) => {
                let stats = self.keys[i].stats.used(usage, now);
                let tpk = self.keys[i].tpk.duplicate();
                self.keys.set(i, Key { tpk, stats });
                proof {
                    assert(self.order() =~= before.order());
                    assert forall|g: Fingerprint| self@.contains_key(g) implies #[trigger] self@[g]
                        == pool_used(before@, f, usage, now)[g] by {
                        let j = self.order().index_of(g);
                        assert(0 <= j < self.order().len() && self.order()[j] == g);
                        before.lemma_slot(j);
                        before.lemma_slot(i as int);
                    }
                    assert(self@ =~= pool_used(before@, f, usage, now));
                }
                true
            },
            None => false,
        }
    }

    /// Notes a first sighting of the fingerprint `f` at time `now`: a fingerprint
    /// that the pool does not know gets a key without material; a known one stays
    /// as it is.
    pub fn sight(&mut self, f: Fingerprint, now: u64)
        requires
            old(self).wf(),
        ensures
            final(self).wf(),
            final(self)@ == pool_sighted(old(self)@, f, now),
            final(self)@.contains_key(f),
            old(self)@.contains_key(f) ==> *final(self) == *old(self),
            final(self).order() == (if old(self)@.contains_key(f) {
                old(self).order()
            } else {
                old(self).order().push(f)
            }),
    {
        let ghost before = *self;
        if self.position(f).is_some() {
            return ;
        }
        self.keys.push(Key { tpk: Tpk::blank(f), stats: Stats::created_at(now) });
        proof {
            assert(self.keys@.drop_last() =~= before.keys@);
            before.lemma_appended(*self, f);
        }
    }

    /// Puts the candidate into the pool and returns the material then stored
    /// under its fingerprint: the candidate itself where the fingerprint is new
    /// or its key has no material yet, else the stored key with the candidate
    /// merged into it. Malformed material
    /// is refused, and the pool stays as it was.
    pub fn get_or_create(&mut self, candidate: &Tpk, now: u64) -> (r: Result<Tpk, Error>)
        requires
            old(self).wf(),
        ensures
            final(self).wf(),
            !candidate@.valid() ==> r == Err::<Tpk, Error>(Error::InvalidKeyMaterial)
                && *final(self) == *old(self),
            candidate@.valid() ==> r is Ok && r->Ok_0@ == entry_after(
                old(self)@,
                candidate@,
                now,
            ).tpk && final(self)@ == old(self)@.insert(
                candidate@.fingerprint,
                entry_after(old(self)@, candidate@, now),
            ) && final(self).order() == (if old(self)@.contains_key(candidate@.fingerprint) {
                old(self).order()
            } else {
                old(self).order().push(candidate@.fingerprint)
            }),
    {
        if !candidate.is_valid() {
            return Err(Error::InvalidKeyMaterial);
        }
        let f = candidate.fingerprint;
        let ghost before = *self;
        match self.position(f) {
            Some(i) => {
                let merged = if self.keys[i].tpk.is_valid() {
                    self.keys[i].tpk.merge(candidate)
                } else {
                    candidate.duplicate()
                };
                let out = merged.duplicate();
                let stats = self.keys[i].stats.touched(now);
                proof {
                    crate::tpk::lemma_merge_keeps(before.keys@[i as int].tpk@, candidate@);
                }
                self.keys.set(i, Key { tpk: merged, stats });
                proof {
                    assert(self.order() =~= before.order());
                    assert forall|g: Fingerprint| self@.contains_key(g) implies #[trigger] self@[g]
                        == before@.insert(f, entry_after(before@, candidate@, now))[g] by {
                        let j = self.order().index_of(g);
                        assert(0 <= j < self.order().len() && self.order()[j] == g);
                        before.lemma_slot(j);
                        before.lemma_slot(i as int);
                    }
                    assert(self@ =~= before@.insert(f, entry_after(before@, candidate@, now)));
                }
                Ok(out)
            },
            None => {
                let out = candidate.duplicate();
                self.keys.push(Key { tpk: candidate.duplicate(), stats: Stats::created_at(now) });
                proof {
                    assert(self.keys@.drop_last() =~= before.keys@);
                    before.lemma_appended(*self, f);
                    assert(self@ =~= before@.insert(f, entry_after(before@, candidate@, now)));
                }
                Ok(out)
            },
        }
    }
}

} // verus!
