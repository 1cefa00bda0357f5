//! Transferable public keys as the store sees them, and how two of them merge.

use vstd::prelude::*;

verus! {

/// The stable identifier of a key: 160 bits, in three words.
#[derive(Clone, Copy, Debug, PartialEq, Eq, Structural, Hash)]
pub struct Fingerprint {
    pub high: u32,
    pub mid: u64,
    pub low: u64,
}

/// `a`, followed by the items of `b` that are not yet there, in the order of `b`.
pub open spec fn union_seq<T>(a: Seq<T>, b: Seq<T>) -> Seq<T>
    decreases b.len(),
{
    if b.len() == 0 {
        a
    } else {
        let r = union_seq(a, b.drop_last());
        if r.contains(b.last()) {
            r
        } else {
            r.push(b.last())
        }
    }
}

/// A union starts with its first operand.
pub proof fn lemma_union_prefix<T>(a: Seq<T>, b: Seq<T>)
    ensures
        a.len() <= union_seq(a, b).len(),
        union_seq(a, b).take(a.len() as int) == a,
    decreases b.len(),
{
    if b.len() == 0 {
        assert(a.take(a.len() as int) =~= a);
    } else {
        lemma_union_prefix(a, b.drop_last());
        let r = union_seq(a, b.drop_last());
        assert(r.push(b.last()).take(a.len() as int) =~= r.take(a.len() as int));
    }
}

/// A union holds exactly what one of its operands holds.
pub proof fn lemma_union_contains<T>(a: Seq<T>, b: Seq<T>, x: T)
    ensures
        union_seq(a, b).contains(x) <==> a.contains(x) || b.contains(x),
    decreases b.len(),
{
    if b.len() == 0 {
    } else {
        let init = b.drop_last();
        lemma_union_contains(a, init, x);
        let r = union_seq(a, init);
        if b.contains(x) {
            let i = choose|i: int| 0 <= i < b.len() && b[i] == x;
            if i < b.len() - 1 {
                assert(init[i] == x);
            }
        }
        if init.contains(x) {
            let i = choose|i: int| 0 <= i < init.len() && init[i] == x;
            assert(b[i] == x);
        }
        assert(b[b.len() - 1] == b.last());
        if !r.contains(b.last()) {
            let s = r.push(b.last());
            assert(s[r.len() as int] == b.last());
            if s.contains(x) {
                let i = choose|i: int| 0 <= i < s.len() && s[i] == x;
                if i < r.len() {
                    assert(r[i] == x);
                }
            }
            if r.contains(x) {
                let i = choose|i: int| 0 <= i < r.len() && r[i] == x;
                assert(s[i] == x);
            }
        }
    }
}

/// Adding what is already there changes nothing.
pub proof fn lemma_union_absorbs<T>(a: Seq<T>, b: Seq<T>)
    requires
        forall|i: int| 0 <= i < b.len() ==> a.contains(#[trigger] b[i]),
    ensures
        union_seq(a, b) == a,
    decreases b.len(),
{
    if b.len() > 0 {
        let init = b.drop_last();
        assert forall|i: int| 0 <= i < init.len() implies a.contains(#[trigger] init[i]) by {
            assert(init[i] == b[i]);
        }
        lemma_union_absorbs(a, init);
        assert(b.last() == b[b.len() - 1]);
    }
}

/// A union with the same operand a second time is the union.
pub proof fn lemma_union_idempotent<T>(a: Seq<T>, b: Seq<T>)
    ensures
        union_seq(union_seq(a, b), b) == union_seq(a, b),
{
    let u = union_seq(a, b);
    assert forall|i: int| 0 <= i < b.len() implies u.contains(#[trigger] b[i]) by {
        lemma_union_contains(a, b, b[i]);
    }
    lemma_union_absorbs(u, b);
}

/// The byte strings that a list of packets holds.
pub open spec fn bodies(v: Seq<Vec<u8>>) -> Seq<Seq<u8>> {
    Seq::new(v.len(), |i: int| v[i]@)
}

/// What a key is, to the store.
pub struct TpkView {
    pub fingerprint: Fingerprint,
    pub keyid: u64,
    pub subkeys: Seq<u64>,
    pub packets: Seq<Seq<u8>>,
    pub certifiers: Seq<Fingerprint>,
}

impl TpkView {
    /// Key material is well formed when it holds at least one packet.
    pub open spec fn valid(self) -> bool {
        self.packets.len() > 0
    }

    /// Whether the key carries a valid signature that `issuer` made over it.
    pub open spec fn signed_by(self, issuer: Fingerprint) -> bool {
        self.certifiers.contains(issuer)
    }
}

/// A key of which only the fingerprint is known: no material has been seen yet.
pub open spec fn blank_key(f: Fingerprint) -> TpkView {
    TpkView {
        fingerprint: f,
        keyid: 0,
        subkeys: Seq::empty(),
        packets: Seq::empty(),
        certifiers: Seq::empty(),
    }
}

/// The stored key with the candidate's identifiers, packets and certifications added.
pub open spec fn merge_spec(stored: TpkView, candidate: TpkView) -> TpkView {
    TpkView {
        fingerprint: stored.fingerprint,
        keyid: stored.keyid,
        subkeys: union_seq(stored.subkeys, candidate.subkeys),
        packets: union_seq(stored.packets, candidate.packets),
        certifiers: union_seq(stored.certifiers, candidate.certifiers),
    }
}

/// Merging the same candidate a second time changes nothing.
pub proof fn lemma_merge_idempotent(stored: TpkView, candidate: TpkView)
    ensures
        merge_spec(merge_spec(stored, candidate), candidate) == merge_spec(stored, candidate),
{
    lemma_union_idempotent(stored.subkeys, candidate.subkeys);
    lemma_union_idempotent(stored.packets, candidate.packets);
    lemma_union_idempotent(stored.certifiers, candidate.certifiers);
}

/// A merge keeps the stored key's fingerprint, its packets in front, and its validity.
pub proof fn lemma_merge_keeps(stored: TpkView, candidate: TpkView)
    ensures
        merge_spec(stored, candidate).fingerprint == stored.fingerprint,
        stored.valid() ==> merge_spec(stored, candidate).valid(),
        merge_spec(stored, candidate).packets.take(stored.packets.len() as int) == stored.packets,
        forall|p: Seq<u8>|
            merge_spec(stored, candidate).packets.contains(p) <==> stored.packets.contains(p)
                || candidate.packets.contains(p),
{
    lemma_union_prefix(stored.packets, candidate.packets);
    assert forall|p: Seq<u8>|
        merge_spec(stored, candidate).packets.contains(p) <==> stored.packets.contains(p)
            || candidate.packets.contains(p) by {
        lemma_union_contains(stored.packets, candidate.packets, p);
    }
}

/// A transferable public key: what the key algebra has found in the material.
#[derive(Clone, Debug, PartialEq, Eq)]
pub struct Tpk {
    /// The fingerprint of the primary key.
    pub fingerprint: Fingerprint,
    /// The identifier of the primary key.
    pub keyid: u64,
    /// The identifiers of the subkeys.
    pub subkeys: Vec<u64>,
    /// The packets that make up the key.
    pub packets: Vec<Vec<u8>>,
    /// The fingerprints of the keys whose valid signature over this key it carries.
    pub certifiers: Vec<Fingerprint>,
}

impl View for Tpk {
    type V = TpkView;

    open spec fn view(&self) -> TpkView {
        TpkView {
            fingerprint: self.fingerprint,
            keyid: self.keyid,
            subkeys: self.subkeys@,
            packets: bodies(self.packets@),
            certifiers: self.certifiers@,
        }
    }
}

/// Whether two byte strings are equal.
pub fn bytes_eq(a: &Vec<u8>, b: &Vec<u8>) -> (r: bool)
    ensures
        r == (a@ == b@),
{
    if a.len() != b.len() {
        return false;
    }
    let mut i: usize = 0;
    while i < a.len()
        invariant
            i <= a.len(),
            a.len() == b.len(),
            forall|k: int| 0 <= k < i ==> a@[k] == b@[k],
        decreases a.len() - i,
    {
        if a[i] != b[i] {
            return false;
        }
        i += 1;
    }
    assert(a@ =~= b@);
    true
}

fn copy_bytes(a: &Vec<u8>) -> (r: Vec<u8>)
    ensures
        r@ == a@,
{
    let mut out: Vec<u8> = Vec::new();
    let mut i: usize = 0;
    while i < a.len()
        invariant
            i <= a.len(),
            out@ == a@.take(i as int),
        decreases a.len() - i,
    {
        out.push(a[i]);
        assert(a@.take(i + 1) =~= a@.take(i as int).push(a@[i as int]));
        i += 1;
    }
    assert(a@.take(a.len() as int) =~= a@);
    out
}

fn copy_ids(a: &Vec<u64>) -> (r: Vec<u64>)
    ensures
        r@ == a@,
{
    let mut out: Vec<u64> = Vec::new();
    let mut i: usize = 0;
    while i < a.len()
        invariant
            i <= a.len(),
            out@ == a@.take(i as int),
        decreases a.len() - i,
    {
        out.push(a[i]);
        assert(a@.take(i + 1) =~= a@.take(i as int).push(a@[i as int]));
        i += 1;
    }
    assert(a@.take(a.len() as int) =~= a@);
    out
}

fn copy_fingerprints(a: &Vec<Fingerprint>) -> (r: Vec<Fingerprint>)
    ensures
        r@ == a@,
{
    let mut out: Vec<Fingerprint> = Vec::new();
    let mut i: usize = 0;
    while i < a.len()
        invariant
            i <= a.len(),
            out@ == a@.take(i as int),
        decreases a.len() - i,
    {
        out.push(a[i]);
        assert(a@.take(i + 1) =~= a@.take(i as int).push(a@[i as int]));
        i += 1;
    }
    assert(a@.take(a.len() as int) =~= a@);
    out
}

fn copy_packets(a: &Vec<Vec<u8>>) -> (r: Vec<Vec<u8>>)
    ensures
        bodies(r@) == bodies(a@),
{
    let mut out: Vec<Vec<u8>> = Vec::new();
    let mut i: usize = 0;
    while i < a.len()
        invariant
            i <= a.len(),
            bodies(out@) == bodies(a@).take(i as int),
        decreases a.len() - i,
    {
        let ghost before = out@;
        out.push(copy_bytes(&a[i]));
        assert(bodies(out@) =~= bodies(before).push(a@[i as int]@));
        assert(bodies(a@).take(i + 1) =~= bodies(a@).take(i as int).push(a@[i as int]@));
        i += 1;
    }
    assert(bodies(a@).take(a.len() as int) =~= bodies(a@));
    out
}

/// Whether `x` is among `v`.
pub fn contains_id(v: &Vec<u64>, x: u64) -> (r: bool)
    ensures
        r == v@.contains(x),
{
    let mut i: usize = 0;
    while i < v.len()
        invariant
            i <= v.len(),
            forall|k: int| 0 <= k < i ==> v@[k] != x,
        decreases v.len() - i,
    {
        if v[i] == x {
            return true;
        }
        i += 1;
    }
    false
}

/// Whether `x` is among `v`.
pub fn contains_fingerprint(v: &Vec<Fingerprint>, x: Fingerprint) -> (r: bool)
    ensures
        r == v@.contains(x),
{
    let mut i: usize = 0;
    while i < v.len()
        invariant
            i <= v.len(),
            forall|k: int| 0 <= k < i ==> v@[k] != x,
        decreases v.len() - i,
    {
        if v[i] == x {
            return true;
        }
        i += 1;
    }
    false
}

/// Whether a packet with the bytes of `p` is among `v`.
pub fn contains_packet(v: &Vec<Vec<u8>>, p: &Vec<u8>) -> (r: bool)
    ensures
        r == bodies(v@).contains(p@),
{
    let mut i: usize = 0;
    while i < v.len()
        invariant
            i <= v.len(),
            forall|k: int| 0 <= k < i ==> bodies(v@)[k] != p@,
        decreases v.len() - i,
    {
        if bytes_eq(&v[i], p) {
            assert(bodies(v@)[i as int] == p@);
            return true;
        }
        i += 1;
    }
    false
}

fn union_ids(a: &Vec<u64>, b: &Vec<u64>) -> (r: Vec<u64>)
    ensures
        r@ == union_seq(a@, b@),
{
    let mut out: Vec<u64> = copy_ids(a);
    let mut j: usize = 0;
    while j < b.len()
        invariant
            j <= b.len(),
            out@ == union_seq(a@, b@.take(j as int)),
        decreases b.len() - j,
    {
        assert(b@.take(j + 1).drop_last() =~= b@.take(j as int));
        if !contains_id(&out, b[j]) {
            out.push(b[j]);
        }
        j += 1;
    }
    assert(b@.take(b.len() as int) =~= b@);
    out
}

fn union_fingerprints(a: &Vec<Fingerprint>, b: &Vec<Fingerprint>) -> (r: Vec<Fingerprint>)
    ensures
        r@ == union_seq(a@, b@),
{
    let mut out: Vec<Fingerprint> = copy_fingerprints(a);
    let mut j: usize = 0;
    while j < b.len()
        invariant
            j <= b.len(),
            out@ == union_seq(a@, b@.take(j as int)),
        decreases b.len() - j,
    {
        assert(b@.take(j + 1).drop_last() =~= b@.take(j as int));
        if !contains_fingerprint(&out, b[j]) {
            out.push(b[j]);
        }
        j += 1;
    }
    assert(b@.take(b.len() as int) =~= b@);
    out
}

fn union_packets(a: &Vec<Vec<u8>>, b: &Vec<Vec<u8>>) -> (r: Vec<Vec<u8>>)
    ensures
        bodies(r@) == union_seq(bodies(a@), bodies(b@)),
{
    let mut out: Vec<Vec<u8>> = copy_packets(a);
    let mut j: usize = 0;
    while j < b.len()
        invariant
            j <= b.len(),
            bodies(out@) == union_seq(bodies(a@), bodies(b@).take(j as int)),
        decreases b.len() - j,
    {
        assert(bodies(b@).take(j + 1).drop_last() =~= bodies(b@).take(j as int));
        assert(bodies(b@).take(j + 1).last() == b@[j as int]@);
        if !contains_packet(&out, &b[j]) {
            let ghost before = out@;
            out.push(copy_bytes(&b[j]));
            assert(bodies(out@) =~= bodies(before).push(b@[j as int]@));
        }
        j += 1;
    }
    assert(bodies(b@).take(b.len() as int) =~= bodies(b@));
    out
}

impl Tpk {
    /// A key of which only the fingerprint is known.
    pub fn blank(f: Fingerprint) -> (r: Tpk)
        ensures
            r@ == blank_key(f),
            !r@.valid(),
    {
        let r = Tpk {
            fingerprint: f,
            keyid: 0,
            subkeys: Vec::new(),
            packets: Vec::new(),
            certifiers: Vec::new(),
        };
        assert(bodies(r.packets@) =~= Seq::<Seq<u8>>::empty());
        r
    }

    /// Whether the material is well formed: it holds at least one packet.
    pub fn is_valid(&self) -> (r: bool)
        ensures
            r == self@.valid(),
    {
        self.packets.len() > 0
    }

    /// Whether the key carries a valid signature that the key `issuer` made over it.
    pub fn is_signed_by(&self, issuer: Fingerprint) -> (r: bool)
        ensures
            r == self@.signed_by(issuer),
    {
        contains_fingerprint(&self.certifiers, issuer)
    }

    /// A copy of the key.
    pub fn duplicate(&self) -> (r: Tpk)
        ensures
            r@ == self@,
    {
        Tpk {
            fingerprint: self.fingerprint,
            keyid: self.keyid,
            subkeys: copy_ids(&self.subkeys),
            packets: copy_packets(&self.packets),
            certifiers: copy_fingerprints(&self.certifiers),
        }
    }

    /// The key with the identifiers, packets and certifications of `candidate` added.
    pub fn merge(&self, candidate: &Tpk) -> (r: Tpk)
        ensures
            r@ == merge_spec(self@, candidate@),
    {
        Tpk {
            fingerprint: self.fingerprint,
            keyid: self.keyid,
            subkeys: union_ids(&self.subkeys, &candidate.subkeys),
            packets: union_packets(&self.packets, &candidate.packets),
            certifiers: union_fingerprints(&self.certifiers, &candidate.certifiers),
        }
    }
}

} // verus!
