use policy_cache::cache::{Cache, Topology};
use policy_cache::codec::CompositeKey;
use policy_cache::store::{FlatStore, MemStore};

fn key(parts: &[&str]) -> CompositeKey {
    CompositeKey::new(parts.iter().map(|p| p.as_bytes().to_vec()).collect())
}

fn fresh(topology: Topology) -> Cache<MemStore, bool> {
    Cache::new(MemStore::new(), topology)
}

fn fresh_flat() -> Cache<FlatStore, bool> {
    Cache::new(FlatStore::new(b"casbin:".to_vec()), Topology::Flat)
}

#[test]
fn test_set_has_get_clear() {
    let mut cache = fresh(Topology::SingleObject);

    cache.set(key(&["alice", "/data1", "read"]), false);
    assert!(cache.has(&key(&["alice", "/data1", "read"])));
    assert!(cache.get(&key(&["alice", "/data1", "read"])) == Some(false));
    cache.clear();

    assert!(cache.get(&key(&["alice", "/data1", "read"])) == None);
}

#[test]
fn scenario_capacity_one() {
    let mut cache = fresh(Topology::SingleObject);
    cache.set_capacity(1);

    cache.set(key(&["alice", "/data1", "read"]), false);
    assert_eq!(cache.get(&key(&["alice", "/data1", "read"])), Some(false));

    cache.set(key(&["bob", "/data2", "write"]), true);
    assert_eq!(cache.get(&key(&["bob", "/data2", "write"])), None);
    assert!(!cache.has(&key(&["bob", "/data2", "write"])));
    assert_eq!(cache.get(&key(&["alice", "/data1", "read"])), Some(false));
}

#[test]
fn scenario_clear_forgets() {
    let mut cache = fresh(Topology::SingleObject);

    cache.set(key(&["alice", "/data1", "read"]), false);
    cache.clear();
    assert_eq!(cache.get(&key(&["alice", "/data1", "read"])), None);
}

#[test]
fn set_overwrites_existing_key() {
    let mut cache = fresh(Topology::SingleObject);

    cache.set(key(&["alice", "/data1", "read"]), false);
    cache.set(key(&["alice", "/data1", "read"]), true);
    assert_eq!(cache.get(&key(&["alice", "/data1", "read"])), Some(true));
}

#[test]
fn full_namespace_rejects_further_writes() {
    let mut cache = fresh(Topology::SingleObject);
    cache.set_capacity(2);

    cache.set(key(&["a"]), true);
    cache.set(key(&["b"]), false);
    cache.set(key(&["c"]), true);

    assert_eq!(cache.get(&key(&["a"])), Some(true));
    assert_eq!(cache.get(&key(&["b"])), Some(false));
    assert_eq!(cache.get(&key(&["c"])), None);
}

#[test]
fn overwrite_at_capacity_is_rejected() {
    // the admission check counts entries, not novelty: a full namespace
    // rejects even a rewrite of a key it already holds
    let mut cache = fresh(Topology::SingleObject);
    cache.set_capacity(1);

    cache.set(key(&["a"]), true);
    cache.set(key(&["a"]), false);
    assert_eq!(cache.get(&key(&["a"])), Some(true));
}

#[test]
fn flat_topology_delegates_capacity() {
    let mut cache = fresh_flat();
    cache.set_capacity(1);

    cache.set(key(&["alice", "/data1", "read"]), false);
    cache.set(key(&["bob", "/data2", "write"]), true);
    assert_eq!(cache.get(&key(&["alice", "/data1", "read"])), Some(false));
    assert_eq!(cache.get(&key(&["bob", "/data2", "write"])), Some(true));
}

#[test]
fn flat_topology_has_agrees_with_get() {
    let mut cache = fresh_flat();

    assert!(!cache.has(&key(&["alice", "/data1", "read"])));
    cache.set(key(&["alice", "/data1", "read"]), false);
    assert!(cache.has(&key(&["alice", "/data1", "read"])));
    cache.clear();
    assert!(!cache.has(&key(&["alice", "/data1", "read"])));
}

#[test]
fn flat_clear_spares_unrelated_keys() {
    let mut store = FlatStore::new(b"casbin:".to_vec());
    store.seed_unrelated(b"other:session", b"opaque");

    let mut cache: Cache<FlatStore, bool> = Cache::new(store, Topology::Flat);
    cache.set(key(&["alice", "/data1", "read"]), false);
    cache.clear();
    assert_eq!(cache.get(&key(&["alice", "/data1", "read"])), None);

    let store = cache.into_store();
    assert_eq!(store.read_anywhere(b"other:session"), Some(b"opaque".to_vec()));
    assert_eq!(store.read_anywhere(b"casbin:x"), None);
}

#[test]
fn empty_and_blank_keys_are_distinct() {
    let mut cache = fresh(Topology::SingleObject);

    cache.set(key(&[]), true);
    cache.set(key(&[""]), false);
    assert_eq!(cache.get(&key(&[])), Some(true));
    assert_eq!(cache.get(&key(&[""])), Some(false));
}
