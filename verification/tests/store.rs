use trust_store::context::{Context, Error, NetworkPolicy};
use trust_store::log::{Event, LogEntry};
use trust_store::refresh::{plan, Action};
use trust_store::namespace::{decide_import, starts_with, Store, Verdict};
use trust_store::service::Service;
use trust_store::stats::Stats;
use trust_store::tpk::{Fingerprint, Tpk};

fn fp(n: u64) -> Fingerprint {
    Fingerprint { high: 1, mid: 2, low: n }
}

fn key(n: u64, packets: Vec<Vec<u8>>) -> Tpk {
    Tpk { fingerprint: fp(n), keyid: n, subkeys: vec![], packets, certifiers: vec![] }
}

fn signed(n: u64, by: u64) -> Tpk {
    Tpk { fingerprint: fp(n), keyid: n, subkeys: vec![], packets: vec![vec![n as u8]], certifiers: vec![fp(by)] }
}

fn ctx(policy: NetworkPolicy) -> Context {
    Context::configure("org.example").network_policy(policy).build().unwrap()
}

fn events(log: &[LogEntry]) -> Vec<Event> {
    log.iter().map(|e| e.event).collect()
}

/// A store "contacts" with the label "alice" bound to key 1.
fn alice() -> (Service, u64, u64) {
    let mut s = Service::new();
    let store = s.store_open(&ctx(NetworkPolicy::Encrypted), "contacts", 1).unwrap();
    s.store_import(store, "alice", &key(1, vec![vec![1]]), 10).unwrap();
    let b = s.store_lookup(store, "alice").unwrap();
    (s, store, b)
}

#[test]
fn scenario_first_import_binds_new_key() {
    let mut s = Service::new();
    let store = s.store_open(&ctx(NetworkPolicy::Encrypted), "contacts", 1).unwrap();
    let k1 = key(1, vec![vec![1]]);
    let got = s.store_import(store, "alice", &k1, 10).unwrap();
    assert_eq!(got, k1);
    let b = s.store_lookup(store, "alice").unwrap();
    assert_eq!(s.binding_tpk(b), Ok(k1.clone()));
    assert_eq!(s.binding_key(b), Ok(fp(1)));
    let log = s.binding_log(b);
    assert_eq!(events(&log), vec![Event::BoundNewKey]);
    assert_eq!(log[0].timestamp, 10);
    assert_eq!(log[0].store, Some(store));
    assert_eq!(log[0].binding, Some(b));
    assert_eq!(log[0].key, Some(fp(1)));
    assert_eq!(log[0].slug, "alice");
    assert_eq!(log[0].error, None);
    assert_eq!(events(&s.store_server_log()), vec![Event::StoreCreated, Event::BoundNewKey]);
    assert_eq!(s.binding_stats(b), Ok(Stats::created_at(10)));
}

#[test]
fn scenario_same_fingerprint_merges() {
    let (mut s, _store, b) = alice();
    let mut k1b = key(1, vec![vec![1], vec![2]]);
    k1b.subkeys = vec![77];
    let merged = s.binding_import(b, &k1b, 20).unwrap();
    assert_eq!(merged.packets, vec![vec![1u8], vec![2]]);
    assert_eq!(merged.subkeys, vec![77]);
    assert_eq!(merged.fingerprint, fp(1));
    assert_eq!(s.binding_tpk(b), Ok(merged));
    assert_eq!(s.binding_key(b), Ok(fp(1)));
    let stats = s.binding_stats(b).unwrap();
    assert_eq!(stats.created, Some(10));
    assert_eq!(stats.updated, Some(20));
    assert_eq!(s.key_stats(fp(1)).unwrap().updated, Some(20));
    assert_eq!(events(&s.binding_log(b)), vec![Event::BoundNewKey, Event::Merged]);
    assert_eq!(s.store_list_keys(), vec![fp(1)]);
}

#[test]
fn scenario_unrelated_key_conflicts() {
    let (mut s, _store, b) = alice();
    let before = s.store_server_log();
    assert_eq!(s.binding_import(b, &key(2, vec![vec![2]]), 20), Err(Error::Conflict));
    assert_eq!(s.binding_tpk(b), Ok(key(1, vec![vec![1]])));
    assert_eq!(s.binding_key(b), Ok(fp(1)));
    assert_eq!(s.store_list_keys(), vec![fp(1)]);
    assert_eq!(s.store_server_log(), before);
    assert_eq!(s.binding_stats(b).unwrap().updated, Some(10));
}

#[test]
fn scenario_forced_rotation() {
    let (mut s, _store, b) = alice();
    let k2 = key(2, vec![vec![2]]);
    assert_eq!(s.binding_import(b, &k2, 20), Err(Error::Conflict));
    assert_eq!(s.binding_rotate(b, &k2, 30), Ok(k2.clone()));
    assert_eq!(s.binding_tpk(b), Ok(k2));
    assert_eq!(s.binding_key(b), Ok(fp(2)));
    assert_eq!(events(&s.binding_log(b)), vec![Event::BoundNewKey, Event::RotatedForced]);
    assert_eq!(s.binding_log(b)[1].event.message(), "rotated (forced)");
    assert_eq!(s.store_list_keys(), vec![fp(1), fp(2)]);
    assert_eq!(s.key_tpk(fp(1)), Ok(key(1, vec![vec![1]])));
}

#[test]
fn signed_key_rotates_without_force() {
    let (mut s, _store, b) = alice();
    let k2 = signed(2, 1);
    assert_eq!(s.binding_import(b, &k2, 20), Ok(k2.clone()));
    assert_eq!(s.binding_key(b), Ok(fp(2)));
    assert_eq!(events(&s.binding_log(b)), vec![Event::BoundNewKey, Event::RotatedSigned]);
    // A key signed by a key that is not the bound one does not rotate.
    assert_eq!(s.binding_import(b, &signed(3, 1), 30), Err(Error::Conflict));
    assert_eq!(s.binding_key(b), Ok(fp(2)));
}

#[test]
fn rotation_merges_into_a_key_of_the_pool() {
    let (mut s, store, b) = alice();
    s.store_import(store, "bob", &key(2, vec![vec![2]]), 11).unwrap();
    let got = s.binding_rotate(b, &key(2, vec![vec![9]]), 30).unwrap();
    assert_eq!(got.packets, vec![vec![2u8], vec![9]]);
    assert_eq!(s.store_list_keys(), vec![fp(1), fp(2)]);
    let bob = s.store_lookup(store, "bob").unwrap();
    assert_eq!(s.binding_tpk(bob), Ok(got));
}

#[test]
fn scenario_offline_store_never_fetches() {
    let mut s = Service::new();
    let store = s.store_open(&ctx(NetworkPolicy::Offline), "contacts", 1).unwrap();
    s.store_import(store, "alice", &key(1, vec![vec![1]]), 10).unwrap();
    let b = s.store_lookup(store, "alice").unwrap();
    for round in 0..3u64 {
        assert_eq!(s.refresh_begin(b, 100 + round), Ok(Action::Skip));
    }
    // Whatever is handed in, an offline store takes nothing from the network.
    assert_eq!(s.refresh_complete(b, None, 200), Ok(Event::SkippedOffline));
    assert_eq!(s.refresh_complete(b, Some(&key(1, vec![vec![5]])), 201), Ok(Event::SkippedOffline));
    assert_eq!(s.binding_tpk(b), Ok(key(1, vec![vec![1]])));
    let log = s.store_log(store);
    assert!(log.iter().all(|e| e.error != Some(Error::TransportError)));
    assert!(log.iter().all(|e| e.event != Event::FetchAttempt && e.event != Event::FetchFailed));
    assert_eq!(log.iter().filter(|e| e.event == Event::SkippedOffline).count(), 5);
    assert_eq!(log.last().unwrap().event.message(), "skipped (offline)");
}

#[test]
fn scenario_store_deletion_keeps_shared_keys() {
    let mut s = Service::new();
    let c = ctx(NetworkPolicy::Encrypted);
    let doomed = s.store_open(&c, "contacts", 1).unwrap();
    let other = s.store_open(&c, "work", 2).unwrap();
    s.store_import(doomed, "alice", &key(1, vec![vec![1]]), 10).unwrap();
    s.store_import(doomed, "bob", &key(2, vec![vec![2]]), 11).unwrap();
    s.store_import(other, "al", &key(1, vec![vec![1]]), 12).unwrap();
    let alice = s.store_lookup(doomed, "alice").unwrap();
    let bob = s.store_lookup(doomed, "bob").unwrap();
    assert!(s.key_referenced(fp(1)));
    assert!(s.key_referenced(fp(2)));

    assert_eq!(s.store_delete(doomed, 20), Ok(()));

    assert_eq!(s.store_list_keys(), vec![fp(1), fp(2)]);
    assert!(s.key_tpk(fp(1)).is_ok());
    assert!(s.key_referenced(fp(1)));
    assert!(!s.key_referenced(fp(2)));
    assert!(!s.key_referenced(fp(3)));
    // Handles of the deleted store and of its bindings are gone.
    assert_eq!(s.store_iter(doomed).err(), Some(Error::NotFound));
    assert_eq!(s.store_delete(doomed, 21), Err(Error::NotFound));
    assert_eq!(s.binding_tpk(alice), Err(Error::NotFound));
    assert_eq!(s.binding_import(bob, &key(2, vec![vec![2]]), 22), Err(Error::NotFound));
    assert_eq!(s.binding_rotate(bob, &key(2, vec![vec![2]]), 22), Err(Error::NotFound));
    assert_eq!(s.store_import(doomed, "carol", &key(3, vec![vec![3]]), 22), Err(Error::NotFound));
    assert_eq!(s.store_add(doomed, "carol", fp(3), 22), Err(Error::NotFound));
    assert_eq!(s.store_lookup(doomed, "alice"), Err(Error::NotFound));
    assert_eq!(s.refresh_begin(alice, 23), Err(Error::NotFound));
    assert_eq!(s.refresh_complete(alice, None, 23), Err(Error::NotFound));
    // The other store is as it was.
    let left = s.store_iter(other).unwrap();
    assert_eq!(left.len(), 1);
    assert_eq!(left[0].label, "al");
    assert_eq!(left[0].key, Some(fp(1)));
    // The log outlives the store: each deletion is there, oldest first.
    let log = s.store_log(doomed);
    assert_eq!(
        events(&log),
        vec![
            Event::StoreCreated,
            Event::BoundNewKey,
            Event::BoundNewKey,
            Event::BindingDeleted,
            Event::BindingDeleted,
            Event::StoreDeleted
        ]
    );
    assert_eq!(log[3].binding, Some(alice));
    assert_eq!(log[3].slug, "alice");
    assert_eq!(log[4].binding, Some(bob));
    assert_eq!(log[4].key, Some(fp(2)));
    assert_eq!(log[5].slug, "contacts");
    assert_eq!(log[5].timestamp, 20);
}

#[test]
fn reopening_returns_the_same_store() {
    let mut s = Service::new();
    let c = ctx(NetworkPolicy::Encrypted);
    let a = s.store_open(&c, "contacts", 1).unwrap();
    let b = s.store_open(&c, "contacts", 2).unwrap();
    assert_eq!(a, b);
    assert_eq!(s.store_list_stores("").len(), 1);
    assert_eq!(events(&s.store_server_log()), vec![Event::StoreCreated]);
    let other = s.store_open(&c, "work", 3).unwrap();
    assert_ne!(a, other);
    let elsewhere = Context::configure("com.example").build().unwrap();
    let third = s.store_open(&elsewhere, "contacts", 4).unwrap();
    assert_ne!(third, a);
    assert_ne!(third, other);
}

#[test]
fn reopening_under_another_policy_fails() {
    let mut s = Service::new();
    let a = s.store_open(&ctx(NetworkPolicy::Encrypted), "contacts", 1).unwrap();
    for p in [NetworkPolicy::Offline, NetworkPolicy::Anonymized, NetworkPolicy::Insecure] {
        assert_eq!(s.store_open(&ctx(p), "contacts", 2), Err(Error::PolicyMismatch));
    }
    assert_eq!(s.store_open(&ctx(NetworkPolicy::Encrypted), "contacts", 3), Ok(a));
    let listed = s.store_list_stores("org");
    assert_eq!(listed.len(), 1);
    assert_eq!(listed[0].policy, NetworkPolicy::Encrypted);
    assert_eq!(listed[0].policy.level(), 2);
}

#[test]
fn stores_are_listed_by_domain_prefix() {
    let mut s = Service::new();
    let org = Context::configure("org.example").build().unwrap();
    let com = Context::configure("com.example").build().unwrap();
    let orga = Context::configure("organic").network_policy(NetworkPolicy::Offline).build().unwrap();
    s.store_open(&org, "a", 1).unwrap();
    s.store_open(&com, "b", 1).unwrap();
    s.store_open(&orga, "c", 1).unwrap();
    s.store_open(&org, "d", 1).unwrap();
    let names = |v: Vec<Store>| -> Vec<String> {
        v.iter().map(|s| format!("{}/{}", s.domain, s.name)).collect()
    };
    assert_eq!(names(s.store_list_stores("org")), vec!["org.example/a", "organic/c", "org.example/d"]);
    assert_eq!(names(s.store_list_stores("org.")), vec!["org.example/a", "org.example/d"]);
    assert_eq!(names(s.store_list_stores("")).len(), 4);
    assert_eq!(names(s.store_list_stores("org.example.more")), Vec::<String>::new());
    assert_eq!(names(s.store_list_stores("net")), Vec::<String>::new());
    assert_eq!(s.store_list_stores("organ")[0].policy, NetworkPolicy::Offline);
    assert_eq!(s.store_list_stores("organ")[0].duplicate(), s.store_list_stores("organ")[0]);
}

#[test]
fn prefix_of_text() {
    assert!(starts_with("org.example", "org"));
    assert!(starts_with("org", "org"));
    assert!(starts_with("org", ""));
    assert!(!starts_with("org", "org."));
    assert!(!starts_with("org", "orh"));
    assert!(starts_with("caf\u{e9}s", "caf\u{e9}"));
    assert!(!starts_with("caf\u{e9}", "cafe"));
}

#[test]
fn add_binds_a_fingerprint() {
    let mut s = Service::new();
    let store = s.store_open(&ctx(NetworkPolicy::Encrypted), "contacts", 1).unwrap();
    let b = s.store_add(store, "alice", fp(1), 5).unwrap();
    assert_eq!(s.store_lookup(store, "alice"), Ok(b));
    assert_eq!(s.binding_key(b), Ok(fp(1)));
    // The fingerprint was sighted: the pool has a key for it, without material.
    assert_eq!(s.store_list_keys(), vec![fp(1)]);
    assert!(s.key_referenced(fp(1)));
    assert_eq!(s.key_stats(fp(1)), Ok(Stats::created_at(5)));
    assert_eq!(s.binding_tpk(b), Err(Error::NotFound));
    assert_eq!(s.key_tpk(fp(1)), Err(Error::NotFound));
    assert_eq!(s.store_lookup_by_keyid(0), Vec::<Fingerprint>::new());
    assert_eq!(s.store_lookup_by_subkeyid(0), Vec::<Fingerprint>::new());
    assert_eq!(s.store_add(store, "alice", fp(1), 6), Ok(b));
    assert_eq!(s.store_add(store, "alice", fp(2), 6), Err(Error::Conflict));
    assert_eq!(s.store_list_keys(), vec![fp(1)]);
    assert_eq!(events(&s.binding_log(b)), vec![Event::BindingAdded]);
    // The material arrives: the key takes it as it is.
    let mut k1 = key(1, vec![vec![1]]);
    k1.subkeys = vec![30];
    assert_eq!(s.binding_import(b, &k1, 7), Ok(k1.clone()));
    assert_eq!(s.binding_tpk(b), Ok(k1.clone()));
    assert_eq!(s.key_tpk(fp(1)), Ok(k1));
    assert_eq!(s.store_lookup_by_keyid(1), vec![fp(1)]);
    assert_eq!(s.key_stats(fp(1)).unwrap().created, Some(5));
    assert_eq!(s.key_stats(fp(1)).unwrap().updated, Some(7));
    assert_eq!(events(&s.binding_log(b)), vec![Event::BindingAdded, Event::Merged]);
    assert_eq!(s.binding_import(b, &key(2, vec![vec![1]]), 8), Err(Error::Conflict));
    assert_eq!(s.store_list_keys(), vec![fp(1)]);
    let iter = s.store_iter(store).unwrap();
    assert_eq!(iter.len(), 1);
    assert_eq!(iter[0].id, b);
    assert_eq!(iter[0].duplicate(), iter[0]);
}

#[test]
fn key_import_fills_a_key_without_material() {
    let mut s = Service::new();
    let store = s.store_open(&ctx(NetworkPolicy::Encrypted), "contacts", 1).unwrap();
    let b = s.store_add(store, "alice", fp(1), 5).unwrap();
    assert_eq!(s.key_import(fp(1), &key(2, vec![vec![2]]), 6), Err(Error::Conflict));
    assert_eq!(s.key_import(fp(1), &key(1, vec![]), 6), Err(Error::InvalidKeyMaterial));
    let k1 = key(1, vec![vec![1], vec![1]]);
    assert_eq!(s.key_import(fp(1), &k1, 7), Ok(k1.clone()));
    assert_eq!(s.binding_tpk(b), Ok(k1));
    assert_eq!(s.key_import(fp(1), &key(1, vec![vec![2]]), 8).unwrap().packets, vec![vec![1u8], vec![1], vec![2]]);
}

#[test]
fn every_bound_fingerprint_has_one_key() {
    let mut s = Service::new();
    let c = ctx(NetworkPolicy::Encrypted);
    let one = s.store_open(&c, "one", 1).unwrap();
    let two = s.store_open(&c, "two", 1).unwrap();
    s.store_add(one, "a", fp(3), 2).unwrap();
    s.store_import(one, "b", &key(1, vec![vec![1]]), 3).unwrap();
    s.store_add(two, "a", fp(1), 4).unwrap();
    s.store_add(two, "b", fp(3), 5).unwrap();
    let b = s.store_add(two, "c", fp(2), 6).unwrap();
    s.binding_rotate(b, &key(4, vec![vec![4]]), 7).unwrap();
    assert_eq!(s.store_list_keys(), vec![fp(3), fp(1), fp(2), fp(4)]);
    for store in [one, two] {
        for binding in s.store_iter(store).unwrap() {
            let f = binding.key.unwrap();
            assert_eq!(s.store_list_keys().iter().filter(|k| **k == f).count(), 1);
            assert!(s.key_stats(f).is_ok());
        }
    }
    // The key of the first sighting keeps its statistics.
    assert_eq!(s.key_stats(fp(1)).unwrap().created, Some(3));
    assert_eq!(s.key_stats(fp(3)).unwrap().created, Some(2));
}

#[test]
fn labels_are_unique_per_store() {
    let mut s = Service::new();
    let c = ctx(NetworkPolicy::Encrypted);
    let one = s.store_open(&c, "one", 1).unwrap();
    let two = s.store_open(&c, "two", 1).unwrap();
    let a = s.store_add(one, "alice", fp(1), 5).unwrap();
    let b = s.store_add(two, "alice", fp(2), 5).unwrap();
    assert_ne!(a, b);
    assert_eq!(s.store_lookup(one, "alice"), Ok(a));
    assert_eq!(s.store_lookup(two, "alice"), Ok(b));
    assert_eq!(s.store_lookup(one, "bob"), Err(Error::NotFound));
    assert_eq!(s.store_iter(one).unwrap().len(), 1);
    assert_eq!(s.store_iter(99).err(), Some(Error::NotFound));
}

#[test]
fn malformed_material_changes_nothing() {
    let (mut s, store, b) = alice();
    let before = s.store_server_log();
    let bad = key(1, vec![]);
    assert_eq!(s.binding_import(b, &bad, 20), Err(Error::InvalidKeyMaterial));
    assert_eq!(s.binding_rotate(b, &key(2, vec![]), 20), Err(Error::InvalidKeyMaterial));
    assert_eq!(s.store_import(store, "bob", &key(2, vec![]), 20), Err(Error::InvalidKeyMaterial));
    assert_eq!(s.key_import(fp(1), &bad, 20), Err(Error::InvalidKeyMaterial));
    assert_eq!(s.store_lookup(store, "bob"), Err(Error::NotFound));
    assert_eq!(s.store_server_log(), before);
    assert_eq!(s.binding_key(b), Ok(fp(1)));
    assert_eq!(s.store_list_keys(), vec![fp(1)]);
}

#[test]
fn key_import_merges_only_its_own_fingerprint() {
    let (mut s, _store, b) = alice();
    assert_eq!(s.key_import(fp(1), &key(2, vec![vec![2]]), 20), Err(Error::Conflict));
    assert_eq!(s.key_import(fp(1), &signed(2, 1), 20), Err(Error::Conflict));
    assert_eq!(s.key_import(fp(3), &key(3, vec![vec![3]]), 20), Err(Error::NotFound));
    let merged = s.key_import(fp(1), &key(1, vec![vec![4]]), 30).unwrap();
    assert_eq!(merged.packets, vec![vec![1u8], vec![4]]);
    assert_eq!(s.key_tpk(fp(1)), Ok(merged.clone()));
    assert_eq!(s.binding_tpk(b), Ok(merged));
    assert_eq!(s.key_stats(fp(1)).unwrap().updated, Some(30));
    assert_eq!(s.key_stats(fp(9)), Err(Error::NotFound));
    assert_eq!(s.key_tpk(fp(9)), Err(Error::NotFound));
    assert_eq!(events(&s.key_log(fp(1))), vec![Event::BoundNewKey, Event::Merged]);
    assert_eq!(s.key_log(fp(1))[1].slug, "key");
    assert_eq!(s.store_list_keys(), vec![fp(1)]);
}

#[test]
fn import_twice_returns_the_same_material() {
    let (mut s, store, b) = alice();
    let cand = Tpk { fingerprint: fp(1), keyid: 1, subkeys: vec![5, 5], packets: vec![vec![7], vec![1], vec![7]], certifiers: vec![fp(4)] };
    let first = s.binding_import(b, &cand, 20).unwrap();
    let second = s.binding_import(b, &cand, 30).unwrap();
    assert_eq!(first, second);
    assert_eq!(first.packets, vec![vec![1u8], vec![7]]);
    // A first sighting, imported again.
    let fresh = Tpk { fingerprint: fp(8), keyid: 8, subkeys: vec![5, 5], packets: vec![vec![7], vec![7]], certifiers: vec![] };
    let first = s.store_import(store, "bob", &fresh, 40).unwrap();
    let second = s.store_import(store, "bob", &fresh, 50).unwrap();
    assert_eq!(first, fresh);
    assert_eq!(s.binding_tpk(s.store_lookup(store, "bob").unwrap()), Ok(second.clone()));
    assert_eq!(second.packets, vec![vec![7u8], vec![7]]);
    assert_eq!(first, second);
}

#[test]
fn later_import_sees_earlier_import() {
    let (mut s, _store, b) = alice();
    // A rotates to key 2; B, signed by key 1 only, comes after and must conflict.
    assert!(s.binding_import(b, &signed(2, 1), 20).is_ok());
    assert_eq!(s.binding_import(b, &signed(3, 1), 21), Err(Error::Conflict));
    // In the other order B would have rotated.
    let (mut s, _store, b) = alice();
    assert!(s.binding_import(b, &signed(3, 1), 20).is_ok());
    assert_eq!(s.binding_import(b, &signed(2, 1), 21), Err(Error::Conflict));
    assert_eq!(s.binding_import(b, &signed(2, 3), 22), Ok(signed(2, 3)));
}

#[test]
fn one_key_in_the_pool_for_many_bindings() {
    let mut s = Service::new();
    let c = ctx(NetworkPolicy::Encrypted);
    let one = s.store_open(&c, "one", 1).unwrap();
    let two = s.store_open(&c, "two", 1).unwrap();
    s.store_import(one, "a", &key(1, vec![vec![1]]), 2).unwrap();
    s.store_import(one, "b", &key(1, vec![vec![2]]), 3).unwrap();
    s.store_import(two, "a", &key(1, vec![vec![3]]), 4).unwrap();
    assert_eq!(s.store_list_keys(), vec![fp(1)]);
    let a = s.store_lookup(one, "a").unwrap();
    let b = s.store_lookup(two, "a").unwrap();
    assert_eq!(s.binding_tpk(a), s.binding_tpk(b));
    assert_eq!(s.binding_tpk(a).unwrap().packets, vec![vec![1u8], vec![2], vec![3]]);
    assert_eq!(s.store_lookup_by_keyid(1), vec![fp(1)]);
    assert_eq!(s.store_lookup_by_keyid(2), Vec::<Fingerprint>::new());
}

#[test]
fn lookup_by_subkey_identifier() {
    let (mut s, store, _b) = alice();
    let mut k = key(2, vec![vec![2]]);
    k.subkeys = vec![40, 41];
    s.store_import(store, "bob", &k, 11).unwrap();
    assert_eq!(s.store_lookup_by_subkeyid(41), vec![fp(2)]);
    assert_eq!(s.store_lookup_by_subkeyid(1), vec![fp(1)]);
    assert_eq!(s.store_lookup_by_keyid(41), Vec::<Fingerprint>::new());
}

#[test]
fn deleting_a_binding_keeps_the_key() {
    let (mut s, store, b) = alice();
    assert_eq!(s.binding_delete(b, 20), Ok(()));
    assert_eq!(s.binding_delete(b, 21), Err(Error::NotFound));
    assert_eq!(s.binding_stats(b), Err(Error::NotFound));
    assert_eq!(s.binding_key(b), Err(Error::NotFound));
    assert_eq!(s.store_lookup(store, "alice"), Err(Error::NotFound));
    assert_eq!(s.store_list_keys(), vec![fp(1)]);
    assert!(!s.key_referenced(fp(1)));
    assert_eq!(events(&s.binding_log(b)), vec![Event::BoundNewKey, Event::BindingDeleted]);
    // The label is free again, and gets a new handle.
    let again = s.store_add(store, "alice", fp(2), 30).unwrap();
    assert_ne!(again, b);
}

#[test]
fn refresh_goes_through_import() {
    let (mut s, store, b) = alice();
    assert_eq!(
        s.refresh_begin(b, 100),
        Ok(Action::Fetch { key: fp(1), policy: NetworkPolicy::Encrypted })
    );
    assert_eq!(s.refresh_complete(b, None, 101), Ok(Event::FetchFailed));
    assert_eq!(s.refresh_complete(b, Some(&key(1, vec![])), 102), Ok(Event::FetchFailed));
    assert_eq!(s.refresh_complete(b, Some(&key(2, vec![vec![2]])), 103), Ok(Event::Conflict));
    assert_eq!(s.binding_key(b), Ok(fp(1)));
    assert_eq!(s.store_list_keys(), vec![fp(1)]);
    assert_eq!(s.refresh_complete(b, Some(&key(1, vec![vec![6]])), 104), Ok(Event::Merged));
    assert_eq!(s.binding_tpk(b).unwrap().packets, vec![vec![1u8], vec![6]]);
    assert_eq!(s.refresh_complete(b, Some(&signed(2, 1)), 105), Ok(Event::RotatedSigned));
    assert_eq!(s.binding_key(b), Ok(fp(2)));
    let log = s.store_log(store);
    assert_eq!(
        events(&log),
        vec![
            Event::StoreCreated,
            Event::BoundNewKey,
            Event::FetchAttempt,
            Event::FetchFailed,
            Event::FetchFailed,
            Event::Conflict,
            Event::Merged,
            Event::RotatedSigned
        ]
    );
    assert_eq!(log[3].error, Some(Error::TransportError));
    assert_eq!(log[4].error, Some(Error::InvalidKeyMaterial));
    assert_eq!(log[5].error, Some(Error::Conflict));
    assert_eq!(log[6].error, None);
    let times: Vec<u64> = log.iter().map(|e| e.timestamp).collect();
    assert_eq!(times, vec![1, 10, 100, 101, 102, 103, 104, 105]);
}

#[test]
fn plan_by_policy() {
    assert_eq!(plan(NetworkPolicy::Offline, fp(1)), Action::Skip);
    for p in [NetworkPolicy::Anonymized, NetworkPolicy::Encrypted, NetworkPolicy::Insecure] {
        assert_eq!(plan(p, fp(1)), Action::Fetch { key: fp(1), policy: p });
    }
}

#[test]
fn verdicts_of_the_protocol() {
    let k2 = signed(2, 1);
    assert_eq!(decide_import(None, &k2), Verdict::Bind);
    assert_eq!(decide_import(Some(fp(2)), &k2), Verdict::Merge);
    assert_eq!(decide_import(Some(fp(1)), &k2), Verdict::RotateSigned);
    assert_eq!(decide_import(Some(fp(3)), &k2), Verdict::Conflict);
    assert_eq!(Verdict::Bind.to_event(), Event::BoundNewKey);
    assert_eq!(Verdict::Merge.to_event(), Event::Merged);
    assert_eq!(Verdict::RotateSigned.to_event(), Event::RotatedSigned);
    assert_eq!(Verdict::Conflict.to_event(), Event::Conflict);
}

#[test]
fn log_time_never_goes_back() {
    let (mut s, store, b) = alice();
    s.binding_import(b, &key(1, vec![vec![2]]), 5).unwrap();
    s.store_add(store, "bob", fp(2), 3).unwrap();
    let times: Vec<u64> = s.store_server_log().iter().map(|e| e.timestamp).collect();
    assert_eq!(times, vec![1, 10, 10, 10]);
    assert_eq!(s.binding_stats(b).unwrap().updated, Some(10));
}

#[test]
fn uses_are_counted_for_binding_and_key() {
    let (mut s, store, b) = alice();
    let other = s.store_import(store, "al", &key(1, vec![vec![1]]), 11).map(|_| ()).and_then(|_| s.store_lookup(store, "al")).unwrap();
    assert_eq!(s.binding_register_encryption(b, 50), Ok(()));
    assert_eq!(s.binding_register_encryption(b, 60), Ok(()));
    assert_eq!(s.binding_register_verification(other, 70), Ok(()));
    let stats = s.binding_stats(b).unwrap();
    assert_eq!(stats.encryption, trust_store::stats::Stamps { count: 2, first: Some(50), last: Some(60) });
    assert_eq!(stats.verification, trust_store::stats::Stamps::new());
    let stats = s.binding_stats(other).unwrap();
    assert_eq!(stats.encryption.count, 0);
    assert_eq!(stats.verification, trust_store::stats::Stamps { count: 1, first: Some(70), last: Some(70) });
    let stats = s.key_stats(fp(1)).unwrap();
    assert_eq!(stats.encryption, trust_store::stats::Stamps { count: 2, first: Some(50), last: Some(60) });
    assert_eq!(stats.verification, trust_store::stats::Stamps { count: 1, first: Some(70), last: Some(70) });
    assert_eq!(stats.created, Some(10));
    assert_eq!(s.binding_register_encryption(99, 80), Err(Error::NotFound));
    assert_eq!(
        events(&s.binding_log(b)),
        vec![Event::BoundNewKey, Event::UsedForEncryption, Event::UsedForEncryption]
    );
    assert_eq!(Event::UsedForEncryption.message(), "used for encryption");
    assert_eq!(Event::UsedForVerification.message(), "used for verification");
}

#[test]
fn use_of_a_key_without_material_counts_for_binding_and_key() {
    let mut s = Service::new();
    let store = s.store_open(&ctx(NetworkPolicy::Encrypted), "contacts", 1).unwrap();
    let b = s.store_add(store, "alice", fp(1), 5).unwrap();
    assert_eq!(s.binding_register_verification(b, 9), Ok(()));
    assert_eq!(s.binding_stats(b).unwrap().verification.count, 1);
    assert_eq!(s.key_stats(fp(1)).unwrap().verification.count, 1);
    assert_eq!(s.key_stats(fp(1)).unwrap().verification.first, Some(9));
    assert_eq!(s.store_list_keys(), vec![fp(1)]);
    assert_eq!(s.key_tpk(fp(1)), Err(Error::NotFound));
}

#[test]
fn log_of_a_new_binding_holds_its_first_entry_only() {
    let (mut s, store, b) = alice();
    s.binding_import(b, &key(1, vec![vec![3]]), 11).unwrap();
    s.store_add(store, "bob", fp(2), 12).unwrap();
    s.binding_delete(b, 13).unwrap();
    let material = s.store_import(store, "carol", &key(3, vec![vec![3]]), 14).unwrap();
    assert_eq!(material, key(3, vec![vec![3]]));
    let carol = s.store_lookup(store, "carol").unwrap();
    let log = s.binding_log(carol);
    assert_eq!(log.len(), 1);
    assert_eq!(log[0].event, Event::BoundNewKey);
    assert_eq!(log[0].event.message(), "bound new key");
    assert_eq!(log[0].error, None);
    assert_eq!(log[0].binding, Some(carol));
    assert_eq!(s.store_list_keys(), vec![fp(1), fp(2), fp(3)]);
}

#[test]
fn new_service_holds_nothing() {
    let mut s = Service::new();
    assert!(s.store_list_stores("").is_empty());
    assert!(s.store_list_keys().is_empty());
    assert!(s.store_lookup_by_keyid(1).is_empty());
    assert!(s.store_lookup_by_subkeyid(1).is_empty());
    assert!(s.store_server_log().is_empty());
    assert!(!s.key_referenced(fp(1)));
    assert_eq!(s.key_tpk(fp(1)), Err(Error::NotFound));
    assert_eq!(s.store_iter(0).err(), Some(Error::NotFound));
    // The first handle that is given out is 0, the next 1.
    let store = s.store_open(&ctx(NetworkPolicy::Encrypted), "contacts", 1).unwrap();
    assert_eq!(store, 0);
    assert_eq!(s.store_add(store, "alice", fp(1), 2), Ok(1));
}

#[test]
fn one_key_for_an_identifier_is_the_first_that_came() {
    let (mut s, store, _b) = alice();
    let mut k2 = key(2, vec![vec![2]]);
    k2.subkeys = vec![40, 1];
    s.store_import(store, "bob", &k2, 11).unwrap();
    let mut k3 = key(3, vec![vec![3]]);
    k3.subkeys = vec![40];
    s.store_import(store, "carol", &k3, 12).unwrap();
    assert_eq!(s.key_by_keyid(2), Ok(fp(2)));
    assert_eq!(s.key_by_keyid(40), Err(Error::NotFound));
    assert_eq!(s.key_by_subkeyid(40), Ok(fp(2)));
    assert_eq!(s.key_by_subkeyid(1), Ok(fp(1)));
    assert_eq!(s.key_by_subkeyid(3), Ok(fp(3)));
    assert_eq!(s.key_by_subkeyid(99), Err(Error::NotFound));
    assert_eq!(s.store_lookup_by_subkeyid(40), vec![fp(2), fp(3)]);
}
