//! Scenario tests for the storage engine: round trips, interleaved
//! writers, tombstones, counting, and compaction.

use engula::engine::Engine;
use engula::kernel::Kernel;

fn engine(flush_threshold: usize, compact_threshold: usize) -> Engine<(), ()> {
    Engine::new(Kernel::new((), ()), flush_threshold, compact_threshold)
}

#[test]
fn put_then_get_round_trip() {
    let mut db = engine(1024, 4);
    db.put(vec![1], vec![2]);
    assert_eq!(db.get(&vec![1]), Some(vec![2]));
    assert_eq!(db.get(&vec![9]), None);
}

#[test]
fn second_put_wins() {
    let mut db = engine(1024, 4);
    db.put(b"k".to_vec(), b"v1".to_vec());
    db.put(b"k".to_vec(), b"v2".to_vec());
    assert_eq!(db.get(&b"k".to_vec()), Some(b"v2".to_vec()));
}

#[test]
fn interleaved_writers_on_disjoint_keys_keep_last_values() {
    // Several writers' put/get cycles on disjoint keys, interleaved as a
    // serialization of concurrent tasks: afterwards every key holds its
    // last-written value and the count equals the distinct keys written.
    let tasks: u64 = 4;
    let entries: u64 = 64;
    let mut db = engine(16, 3);
    for i in 0..entries {
        for t in 0..tasks {
            let key = [t.to_be_bytes(), i.to_be_bytes()].concat();
            let value = i.to_be_bytes().to_vec();
            db.put(key.clone(), value.clone());
            assert_eq!(db.get(&key), Some(value));
        }
    }
    for t in 0..tasks {
        for i in 0..entries {
            let key = [t.to_be_bytes(), i.to_be_bytes()].concat();
            assert_eq!(db.get(&key), Some(i.to_be_bytes().to_vec()));
        }
    }
    assert_eq!(db.count(), (tasks * entries) as usize);
}

#[test]
fn deleted_key_reads_as_absent_and_is_not_counted() {
    let mut db = engine(2, 100);
    db.put(b"a".to_vec(), b"1".to_vec());
    db.put(b"b".to_vec(), b"2".to_vec());
    db.delete(b"a".to_vec());
    assert_eq!(db.get(&b"a".to_vec()), None);
    assert_eq!(db.get(&b"b".to_vec()), Some(b"2".to_vec()));
    assert_eq!(db.count(), 1);
    // Deleting an absent key is a no-op, not an error.
    db.delete(b"missing".to_vec());
    assert_eq!(db.count(), 1);
}

#[test]
fn flush_registers_tables_in_the_manifest() {
    // Every put flushes (threshold 1); compaction stays out of the way.
    let mut db = engine(1, 100);
    db.put(b"a".to_vec(), b"1".to_vec());
    db.put(b"b".to_vec(), b"2".to_vec());
    let manifest = db.kernel.current_version().objects;
    assert_eq!(manifest.len(), 2);
    assert_eq!(db.get(&b"a".to_vec()), Some(b"1".to_vec()));
    assert_eq!(db.get(&b"b".to_vec()), Some(b"2".to_vec()));
}

#[test]
fn compaction_preserves_reads_and_rewrites_the_manifest() {
    // Threshold 1 flushes each put; with compact_threshold 3 the third
    // table triggers a compaction into a single table.
    let mut db = engine(1, 3);
    db.put(b"a".to_vec(), b"1".to_vec());
    db.put(b"b".to_vec(), b"2".to_vec());
    let before = db.kernel.current_version().objects;
    assert_eq!(before.len(), 2);
    db.put(b"a".to_vec(), b"3".to_vec());
    // Post-compaction: reads unchanged, shadowed entry gone, manifest
    // holds exactly the compacted table.
    let after = db.kernel.current_version().objects;
    assert_eq!(after.len(), 1);
    assert!(!before.contains(&after[0]));
    assert_eq!(db.get(&b"a".to_vec()), Some(b"3".to_vec()));
    assert_eq!(db.get(&b"b".to_vec()), Some(b"2".to_vec()));
    assert_eq!(db.count(), 2);
    assert_eq!(db.tables.len(), 1);
}

#[test]
fn compaction_drops_tombstones() {
    let mut db = engine(1, 3);
    db.put(b"a".to_vec(), b"1".to_vec());
    db.delete(b"a".to_vec());
    db.put(b"b".to_vec(), b"2".to_vec());
    assert_eq!(db.tables.len(), 1);
    assert_eq!(db.tables[0].entries.len(), 1);
    assert_eq!(db.get(&b"a".to_vec()), None);
    assert_eq!(db.get(&b"b".to_vec()), Some(b"2".to_vec()));
    assert_eq!(db.count(), 1);
}

#[test]
fn every_write_is_journaled_before_acknowledgement() {
    let mut db = engine(2, 100);
    db.put(b"a".to_vec(), b"1".to_vec());
    db.delete(b"a".to_vec());
    assert_eq!(db.journal.len(), 2);
    assert_eq!(db.journal[0], (b"a".to_vec(), Some(b"1".to_vec())));
    assert_eq!(db.journal[1], (b"a".to_vec(), None));
}
