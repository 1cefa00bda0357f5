use trust_store::context::Error;
use trust_store::pool::Pool;
use trust_store::stats::{Stamps, Stats, Usage};
use trust_store::tpk::{bytes_eq, contains_fingerprint, contains_id, contains_packet, Fingerprint, Tpk};

fn fp(n: u64) -> Fingerprint {
    Fingerprint { high: 7, mid: 11, low: n }
}

fn key(n: u64, subkeys: Vec<u64>, packets: Vec<Vec<u8>>, certifiers: Vec<Fingerprint>) -> Tpk {
    Tpk { fingerprint: fp(n), keyid: n, subkeys, packets, certifiers }
}

#[test]
fn merge_is_union_in_order() {
    let a = key(1, vec![10, 11], vec![vec![1], vec![2, 2]], vec![fp(5)]);
    let b = key(1, vec![11, 12, 10, 13], vec![vec![2, 2], vec![3], vec![1], vec![3]], vec![fp(6), fp(5)]);
    let m = a.merge(&b);
    assert_eq!(m.fingerprint, fp(1));
    assert_eq!(m.keyid, 1);
    assert_eq!(m.subkeys, vec![10, 11, 12, 13]);
    assert_eq!(m.packets, vec![vec![1u8], vec![2, 2], vec![3]]);
    assert_eq!(m.certifiers, vec![fp(5), fp(6)]);
}

#[test]
fn merge_keeps_stored_identity() {
    let a = key(1, vec![], vec![vec![1]], vec![]);
    let mut b = key(2, vec![], vec![vec![9]], vec![]);
    b.keyid = 99;
    let m = a.merge(&b);
    assert_eq!(m.fingerprint, fp(1));
    assert_eq!(m.keyid, 1);
    assert_eq!(m.packets, vec![vec![1u8], vec![9]]);
}

#[test]
fn merge_twice_is_merge_once() {
    let a = key(1, vec![10], vec![vec![1]], vec![]);
    let b = key(1, vec![12, 12], vec![vec![3], vec![1], vec![3]], vec![fp(6)]);
    let once = a.merge(&b);
    let twice = once.merge(&b);
    assert_eq!(once, twice);
    assert_eq!(a.merge(&a), a);
}

#[test]
fn merge_with_empty_candidate_changes_nothing() {
    let a = key(1, vec![10, 10], vec![vec![1], vec![1]], vec![fp(2)]);
    let e = key(1, vec![], vec![], vec![]);
    assert_eq!(a.merge(&e), a);
    assert_eq!(a.duplicate(), a);
}

#[test]
fn validity_needs_a_packet() {
    assert!(!key(1, vec![1], vec![], vec![fp(2)]).is_valid());
    assert!(key(1, vec![], vec![vec![]], vec![]).is_valid());
}

#[test]
fn signed_by_looks_at_certifiers() {
    let k = key(2, vec![], vec![vec![1]], vec![fp(1), fp(3)]);
    assert!(k.is_signed_by(fp(1)));
    assert!(k.is_signed_by(fp(3)));
    assert!(!k.is_signed_by(fp(2)));
    assert!(!k.is_signed_by(Fingerprint { high: 8, mid: 11, low: 1 }));
}

#[test]
fn membership_helpers() {
    assert!(bytes_eq(&vec![1, 2, 3], &vec![1, 2, 3]));
    assert!(!bytes_eq(&vec![1, 2, 3], &vec![1, 2]));
    assert!(!bytes_eq(&vec![1, 2, 3], &vec![1, 2, 4]));
    assert!(bytes_eq(&vec![], &vec![]));
    assert!(contains_id(&vec![4, 5], 5));
    assert!(!contains_id(&vec![4, 5], 6));
    assert!(!contains_id(&vec![], 0));
    assert!(contains_fingerprint(&vec![fp(1), fp(2)], fp(2)));
    assert!(!contains_fingerprint(&vec![fp(1), fp(2)], fp(3)));
    assert!(contains_packet(&vec![vec![1], vec![2, 3]], &vec![2, 3]));
    assert!(!contains_packet(&vec![vec![1], vec![2, 3]], &vec![2]));
}

#[test]
fn stamps_count_and_keep_first_and_last() {
    let mut s = Stamps::new();
    assert_eq!(s, Stamps { count: 0, first: None, last: None });
    s.update(50);
    assert_eq!(s, Stamps { count: 1, first: Some(50), last: Some(50) });
    s.update(70);
    assert_eq!(s, Stamps { count: 2, first: Some(50), last: Some(70) });
    s.update(60);
    assert_eq!(s, Stamps { count: 3, first: Some(50), last: Some(70) });
    s.update(10);
    assert_eq!(s, Stamps { count: 4, first: Some(50), last: Some(70) });
}

#[test]
fn stamps_count_saturates() {
    let mut s = Stamps { count: u64::MAX - 1, first: Some(1), last: Some(2) };
    s.update(3);
    assert_eq!(s.count, u64::MAX);
    s.update(4);
    assert_eq!(s, Stamps { count: u64::MAX, first: Some(1), last: Some(4) });
}

#[test]
fn stats_updated_never_goes_back() {
    let s = Stats::created_at(100);
    assert_eq!(s.created, Some(100));
    assert_eq!(s.updated, Some(100));
    assert_eq!(s.encryption, Stamps::new());
    assert_eq!(s.verification, Stamps::new());
    let t = s.touched(150);
    assert_eq!(t.created, Some(100));
    assert_eq!(t.updated, Some(150));
    let u = t.touched(120);
    assert_eq!(u.updated, Some(150));
    let blank = Stats { created: None, updated: None, encryption: Stamps::new(), verification: Stamps::new() };
    assert_eq!(blank.touched(5).updated, Some(5));
}

#[test]
fn stats_record_uses() {
    let mut s = Stats::created_at(1);
    s.record_encryption(5);
    s.record_verification(6);
    s.record_verification(9);
    assert_eq!(s.encryption, Stamps { count: 1, first: Some(5), last: Some(5) });
    assert_eq!(s.verification, Stamps { count: 2, first: Some(6), last: Some(9) });
    assert_eq!(s.created, Some(1));
    assert_eq!(s.updated, Some(1));
}

#[test]
fn pool_creates_then_merges() {
    let mut pool = Pool::new();
    assert!(pool.list().is_empty());
    let k1 = key(1, vec![10], vec![vec![1]], vec![]);
    let got = pool.get_or_create(&k1, 100).unwrap();
    assert_eq!(got, k1);
    assert!(pool.contains(fp(1)));
    assert!(!pool.contains(fp(2)));
    let stored = pool.lookup_by_fingerprint(fp(1)).unwrap();
    assert_eq!(stored.tpk, k1);
    assert_eq!(stored.stats, Stats::created_at(100));

    let k1b = key(1, vec![11], vec![vec![1], vec![2]], vec![]);
    let merged = pool.get_or_create(&k1b, 200).unwrap();
    assert_eq!(merged, key(1, vec![10, 11], vec![vec![1], vec![2]], vec![]));
    let stored = pool.lookup_by_fingerprint(fp(1)).unwrap();
    assert_eq!(stored.tpk, merged);
    assert_eq!(stored.stats.created, Some(100));
    assert_eq!(stored.stats.updated, Some(200));
    assert_eq!(pool.list(), vec![fp(1)]);
}

#[test]
fn pool_holds_one_key_per_fingerprint() {
    let mut pool = Pool::new();
    for round in 0..3u64 {
        for n in [3u64, 1, 2, 1, 3] {
            pool.get_or_create(&key(n, vec![], vec![vec![round as u8]], vec![]), round).unwrap();
        }
    }
    assert_eq!(pool.list(), vec![fp(3), fp(1), fp(2)]);
    assert_eq!(
        pool.lookup_by_fingerprint(fp(2)).unwrap().tpk.packets,
        vec![vec![0u8], vec![1], vec![2]]
    );
}

#[test]
fn pool_refuses_malformed_material() {
    let mut pool = Pool::new();
    pool.get_or_create(&key(1, vec![], vec![vec![1]], vec![]), 1).unwrap();
    let bad = key(1, vec![5], vec![], vec![]);
    assert_eq!(pool.get_or_create(&bad, 2), Err(Error::InvalidKeyMaterial));
    let bad2 = key(2, vec![5], vec![], vec![]);
    assert_eq!(pool.get_or_create(&bad2, 2), Err(Error::InvalidKeyMaterial));
    assert_eq!(pool.list(), vec![fp(1)]);
    assert_eq!(pool.lookup_by_fingerprint(fp(1)).unwrap().tpk.subkeys, Vec::<u64>::new());
    assert_eq!(pool.lookup_by_fingerprint(fp(1)).unwrap().stats.updated, Some(1));
    assert!(pool.lookup_by_fingerprint(fp(2)).is_none());
}

#[test]
fn pool_lookup_by_identifiers() {
    let mut pool = Pool::new();
    pool.get_or_create(&key(1, vec![50, 51], vec![vec![1]], vec![]), 1).unwrap();
    pool.get_or_create(&key(2, vec![50], vec![vec![2]], vec![]), 1).unwrap();
    pool.get_or_create(&key(3, vec![2], vec![vec![3]], vec![]), 1).unwrap();
    assert_eq!(pool.lookup_by_keyid(1), vec![fp(1)]);
    assert_eq!(pool.lookup_by_keyid(50), Vec::<Fingerprint>::new());
    assert_eq!(pool.lookup_by_subkeyid(50), vec![fp(1), fp(2)]);
    assert_eq!(pool.lookup_by_subkeyid(51), vec![fp(1)]);
    assert_eq!(pool.lookup_by_subkeyid(2), vec![fp(2), fp(3)]);
    assert_eq!(pool.lookup_by_keyid(2), vec![fp(2)]);
    assert_eq!(pool.lookup_by_subkeyid(99), Vec::<Fingerprint>::new());
}

#[test]
fn pool_counts_uses() {
    let mut pool = Pool::new();
    pool.get_or_create(&key(1, vec![], vec![vec![1]], vec![]), 1).unwrap();
    assert!(pool.register_use(fp(1), Usage::Encryption, 5));
    assert!(pool.register_use(fp(1), Usage::Verification, 6));
    assert!(!pool.register_use(fp(2), Usage::Verification, 6));
    let k = pool.lookup_by_fingerprint(fp(1)).unwrap();
    assert_eq!(k.stats.encryption, Stamps { count: 1, first: Some(5), last: Some(5) });
    assert_eq!(k.stats.verification, Stamps { count: 1, first: Some(6), last: Some(6) });
    assert_eq!(k.tpk, key(1, vec![], vec![vec![1]], vec![]));
    assert_eq!(pool.list(), vec![fp(1)]);
    assert_eq!(Stats::created_at(1).used(Usage::Encryption, 4).encryption.count, 1);
}

#[test]
fn new_pool_holds_nothing() {
    let pool = Pool::new();
    assert_eq!(pool.list(), Vec::<Fingerprint>::new());
    assert_eq!(pool.lookup_by_keyid(0), Vec::<Fingerprint>::new());
    assert_eq!(pool.lookup_by_subkeyid(0), Vec::<Fingerprint>::new());
    assert!(!pool.contains(fp(0)));
    assert!(pool.lookup_by_fingerprint(fp(0)).is_none());
}

#[test]
fn pool_sights_a_fingerprint_once() {
    let mut pool = Pool::new();
    pool.sight(fp(1), 5);
    assert_eq!(pool.list(), vec![fp(1)]);
    let k = pool.lookup_by_fingerprint(fp(1)).unwrap();
    assert_eq!(k.tpk, Tpk::blank(fp(1)));
    assert!(!k.tpk.is_valid());
    assert_eq!(k.stats, Stats::created_at(5));
    pool.sight(fp(1), 9);
    assert_eq!(pool.list(), vec![fp(1)]);
    assert_eq!(pool.lookup_by_fingerprint(fp(1)).unwrap().stats, Stats::created_at(5));
    // A key without material answers to no identifier.
    assert_eq!(pool.lookup_by_keyid(0), Vec::<Fingerprint>::new());
    assert_eq!(pool.lookup_by_subkeyid(0), Vec::<Fingerprint>::new());
    // The first material is taken as it is, under the statistics of the sighting.
    let mut k1 = key(1, vec![8], vec![vec![1], vec![1]], vec![fp(2)]);
    k1.keyid = 77;
    assert_eq!(pool.get_or_create(&k1, 10), Ok(k1.clone()));
    let k = pool.lookup_by_fingerprint(fp(1)).unwrap();
    assert_eq!(k.tpk, k1);
    assert_eq!(k.stats.created, Some(5));
    assert_eq!(k.stats.updated, Some(10));
    assert_eq!(pool.lookup_by_keyid(77), vec![fp(1)]);
    // A sighting of a key with material changes nothing.
    pool.sight(fp(1), 20);
    assert_eq!(pool.lookup_by_fingerprint(fp(1)).unwrap().tpk, k1);
    assert_eq!(pool.list(), vec![fp(1)]);
}

#[test]
fn blank_key_has_only_a_fingerprint() {
    let b = Tpk::blank(fp(4));
    assert_eq!(b, Tpk { fingerprint: fp(4), keyid: 0, subkeys: vec![], packets: vec![], certifiers: vec![] });
}
