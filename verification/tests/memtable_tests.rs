use lsm_core::memtable::MemTable;
use lsm_core::wal::WriteAheadLog;

fn fresh_table() -> MemTable {
    MemTable::new(WriteAheadLog::new())
}

#[test]
fn test_put_and_get() {
    let mut memtable = fresh_table();
    memtable.put("key1".to_string(), "value1".to_string());

    assert_eq!(memtable.get("key1"), Some("value1".to_string()));
}

#[test]
fn test_get_nonexistent_key() {
    let memtable = fresh_table();
    assert_eq!(memtable.get("nonexistent"), None);
}

#[test]
fn test_update_existing_key() {
    let mut memtable = fresh_table();
    memtable.put("key1".to_string(), "value1".to_string());
    memtable.put("key1".to_string(), "value2".to_string());

    assert_eq!(memtable.get("key1"), Some("value2".to_string()));
}

#[test]
fn test_delete() {
    let mut memtable = fresh_table();
    memtable.put("key1".to_string(), "value1".to_string());

    let deleted_value = memtable.delete("key1");
    assert_eq!(deleted_value, Some("value1".to_string()));
    assert_eq!(memtable.get("key1"), None);
}

#[test]
fn test_delete_nonexistent_key() {
    let mut memtable = fresh_table();
    let result = memtable.delete("nonexistent");
    assert_eq!(result, None);
}

#[test]
fn test_crash_recovery() {
    // write data into one table, then abandon it as a crash would
    let lines = {
        let mut memtable = fresh_table();
        memtable.put("key1".to_string(), "value1".to_string());
        memtable.put("key2".to_string(), "value2".to_string());
        memtable.delete("key1");
        memtable.wal().lines().clone()
    };

    // restart: a new table over the same log recovers the state
    let memtable = MemTable::new(WriteAheadLog::from_lines(lines));
    assert_eq!(memtable.get("key1"), None);
    assert_eq!(memtable.get("key2"), Some("value2".to_string()));
}

#[test]
fn test_flush_to_sstable() {
    let mut memtable = fresh_table();

    // enough entries to cross the flush threshold of 100
    for i in 0..105 {
        memtable.put(format!("key_{}", i), format!("value_{}", i));
    }

    // after the flush only the overflow stays in memory
    assert!(memtable.size() < 100);

    // the flushed segment exists
    assert!(memtable.segment_count() == 1);
}

#[test]
fn test_last_write_wins_sequence() {
    let mut memtable = fresh_table();
    memtable.put("key".to_string(), "one".to_string());
    memtable.put("key".to_string(), "two".to_string());
    memtable.delete("key");
    memtable.put("key".to_string(), "three".to_string());

    assert_eq!(memtable.get("key"), Some("three".to_string()));

    memtable.delete("key");
    assert_eq!(memtable.get("key"), None);
}

#[test]
fn test_flush_trigger_exact_threshold() {
    let mut memtable = fresh_table();
    for i in 0..100 {
        memtable.put(format!("key_{:03}", i), format!("value_{:03}", i));
    }

    // the hundredth put flushed everything
    assert_eq!(memtable.size(), 0);
    assert_eq!(memtable.segment_count(), 1);

    // the segment holds all hundred entries
    let entries = lsm_core::sstable::SSTable::read(Some(memtable.segment(0))).unwrap();
    assert_eq!(entries.len(), 100);

    // five more leave five in memory and still one segment
    let mut memtable = fresh_table();
    for i in 0..105 {
        memtable.put(format!("key_{:03}", i), format!("value_{:03}", i));
    }
    assert_eq!(memtable.size(), 5);
    assert_eq!(memtable.segment_count(), 1);
    let entries = lsm_core::sstable::SSTable::read(Some(memtable.segment(0))).unwrap();
    assert_eq!(entries.len(), 100);
}

#[test]
fn test_get_reads_flushed_segment() {
    let mut memtable = fresh_table();
    for i in 0..100 {
        memtable.put(format!("key_{:03}", i), format!("value_{:03}", i));
    }
    assert_eq!(memtable.size(), 0);

    // the value now lives only in the segment
    assert_eq!(memtable.get("key_042"), Some("value_042".to_string()));
    // a key present nowhere is absence, not a failure
    assert_eq!(memtable.get("key_999"), None);
}

#[test]
fn test_newer_segment_shadows_older() {
    let mut memtable = fresh_table();
    for i in 0..100 {
        memtable.put(format!("key_{:03}", i), "old".to_string());
    }
    for i in 0..100 {
        memtable.put(format!("key_{:03}", i), "new".to_string());
    }
    assert_eq!(memtable.segment_count(), 2);
    assert_eq!(memtable.size(), 0);
    assert_eq!(memtable.get("key_007"), Some("new".to_string()));
}

#[test]
fn test_delete_does_not_reach_segments() {
    let mut memtable = fresh_table();
    for i in 0..100 {
        memtable.put(format!("key_{:03}", i), format!("value_{:03}", i));
    }
    // memory is empty now; the keys live only in the flushed segment
    assert_eq!(memtable.size(), 0);

    let removed = memtable.delete("key_050");
    // nothing in the current memory generation to remove
    assert_eq!(removed, None);

    // the segment still answers: deletion shadows only current memory
    assert_eq!(memtable.get("key_050"), Some("value_050".to_string()));
}

#[test]
fn test_recovery_skips_malformed_lines() {
    let lines = vec![
        "garbage".to_string(),
        "PUT,key1,value1".to_string(),
        "PUT,key2".to_string(),
        "PUT,key3,value3,extra".to_string(),
        "DELETE,key1,extra".to_string(),
        "LOOKUP,key1".to_string(),
    ];
    let memtable = MemTable::new(WriteAheadLog::from_lines(lines));
    assert_eq!(memtable.get("key1"), Some("value1".to_string()));
    assert_eq!(memtable.get("key2"), None);
    assert_eq!(memtable.get("key3"), None);
}
