use omnipaxos_cache::cache::{CacheError, CacheSnapshot, Policy, SnapshotEntry};
use omnipaxos_cache::codec::TemplateCache;

fn k(s: &str) -> Vec<u8> {
    s.as_bytes().to_vec()
}

#[test]
fn recency_refresh_then_overflow_evicts_b() {
    let mut c = TemplateCache::new(2, Policy::Recency);
    c.put(k("A"), k("A"));
    c.put(k("B"), k("B"));
    c.put(k("A"), k("A"));
    c.put(k("C"), k("C"));
    assert_eq!(c.len(), 2);
    assert_eq!(c.index_of(&k("B")), None);
    assert_eq!(c.index_of(&k("A")), Some(0));
    assert_eq!(c.index_of(&k("C")), Some(2));
}

#[test]
fn recency_evicts_oldest_access() {
    let mut c = TemplateCache::with(3, false);
    c.put(k("A"), k("a"));
    c.put(k("B"), k("b"));
    c.put(k("C"), k("c"));
    assert_eq!(c.get(&k("A")), Some(k("a")));
    assert_eq!(c.index_of(&k("B")), Some(1));
    c.put(k("D"), k("d"));
    assert_eq!(c.index_of(&k("C")), None);
    assert_eq!(c.len(), 3);
}

#[test]
fn frequency_evicts_lowest_count() {
    let mut c = TemplateCache::new(2, Policy::Frequency);
    c.put(k("A"), k("A"));
    c.put(k("A"), k("A"));
    c.put(k("B"), k("B"));
    c.put(k("C"), k("C"));
    assert_eq!(c.index_of(&k("B")), None);
    assert_eq!(c.index_of(&k("A")), Some(0));
    assert_eq!(c.index_of(&k("C")), Some(2));
}

#[test]
fn frequency_tie_evicts_oldest_insertion() {
    let mut c = TemplateCache::with(2, true);
    c.put(k("B"), k("B"));
    c.put(k("A"), k("A"));
    c.put(k("C"), k("C"));
    assert_eq!(c.get(&k("B")), None);
    assert_eq!(c.get(&k("A")), Some(k("A")));
    assert_eq!(c.policy(), Policy::Frequency);
}

#[test]
fn index_stable_until_eviction_then_invalid() {
    let mut c = TemplateCache::new(1, Policy::Recency);
    c.put(k("X"), k("x"));
    let i = c.index_of(&k("X")).unwrap();
    assert_eq!(c.entry_at(i), Ok((k("X"), k("x"))));
    c.put(k("X"), k("x2"));
    assert_eq!(c.index_of(&k("X")), Some(i));
    assert_eq!(c.entry_at(i), Ok((k("X"), k("x2"))));
    c.put(k("Y"), k("y"));
    assert_eq!(c.entry_at(i), Err(CacheError::IndexInvalid));
    // the new key got a fresh index, never the evicted one
    assert_eq!(c.index_of(&k("Y")), Some(1));
    assert_eq!(c.entry_at(7), Err(CacheError::IndexInvalid));
}

#[test]
fn empty_cache_misses() {
    let mut c = TemplateCache::new(4, Policy::Recency);
    assert_eq!(c.len(), 0);
    assert_eq!(c.capacity(), 4);
    assert_eq!(c.index_of(&k("")), None);
    assert_eq!(c.entry_at(0), Err(CacheError::IndexInvalid));
    assert_eq!(c.next_index(), 0);
}

#[test]
fn snapshot_restores_identical_state() {
    let mut c = TemplateCache::new(2, Policy::Frequency);
    c.put(k("A"), k("A"));
    c.put(k("B"), k("B"));
    c.put(k("A"), k("A"));
    let s = c.snapshot();
    assert_eq!(s.counters, vec![1, 2]);
    assert_eq!(s.next_index, 2);
    let mut d = TemplateCache::from_snapshot(s.clone()).unwrap();
    assert_eq!(d.snapshot(), s);
    // both make the same eviction decision afterwards
    c.put(k("C"), k("C"));
    d.put(k("C"), k("C"));
    assert_eq!(c.snapshot(), d.snapshot());
    assert_eq!(d.index_of(&k("B")), None);
}

#[test]
fn snapshot_without_counters_is_incomplete() {
    let s = CacheSnapshot {
        capacity: 2,
        policy: Policy::Frequency,
        entries: vec![SnapshotEntry { key: k("A"), value: k("A"), index: 0 }],
        counters: vec![],
        next_index: 1,
    };
    assert!(matches!(TemplateCache::from_snapshot(s), Err(CacheError::ResyncIncomplete)));
}

#[test]
fn snapshot_with_duplicate_keys_is_incomplete() {
    let s = CacheSnapshot {
        capacity: 2,
        policy: Policy::Recency,
        entries: vec![
            SnapshotEntry { key: k("A"), value: k("A"), index: 0 },
            SnapshotEntry { key: k("A"), value: k("A"), index: 1 },
        ],
        counters: vec![1, 1],
        next_index: 2,
    };
    assert!(matches!(TemplateCache::from_snapshot(s), Err(CacheError::ResyncIncomplete)));
}

#[test]
fn snapshot_over_capacity_or_stale_index_is_incomplete() {
    let s = CacheSnapshot {
        capacity: 1,
        policy: Policy::Recency,
        entries: vec![
            SnapshotEntry { key: k("A"), value: k("A"), index: 0 },
            SnapshotEntry { key: k("B"), value: k("B"), index: 1 },
        ],
        counters: vec![1, 1],
        next_index: 2,
    };
    assert!(matches!(TemplateCache::from_snapshot(s), Err(CacheError::ResyncIncomplete)));
    let t = CacheSnapshot {
        capacity: 1,
        policy: Policy::Recency,
        entries: vec![SnapshotEntry { key: k("A"), value: k("A"), index: 5 }],
        counters: vec![1],
        next_index: 5,
    };
    assert!(matches!(TemplateCache::from_snapshot(t), Err(CacheError::ResyncIncomplete)));
}

#[test]
fn duplicate_copies_state() {
    let mut c = TemplateCache::new(3, Policy::Recency);
    c.put(k("A"), k("1"));
    c.put(k("B"), k("2"));
    let d = c.duplicate();
    assert_eq!(c.snapshot(), d.snapshot());
}
