use lsm_core::wal::WriteAheadLog;

#[test]
fn test_wal_log_and_replay() {
    let lines = {
        let mut wal = WriteAheadLog::new();
        wal.log_put("key1", "value1");
        wal.log_put("key2", "value2");
        wal.log_delete("key1");
        wal.lines().clone()
    };

    let wal = WriteAheadLog::from_lines(lines);
    let operations = wal.replay();

    assert_eq!(operations.len(), 3);
    assert_eq!(operations[0], ("key1".to_string(), Some("value1".to_string())));
    assert_eq!(operations[1], ("key2".to_string(), Some("value2".to_string())));
    assert_eq!(operations[2], ("key1".to_string(), None));
}

#[test]
fn test_log_line_format() {
    let mut wal = WriteAheadLog::new();
    wal.log_put("key1", "value1");
    wal.log_delete("key2");
    assert_eq!(
        wal.lines(),
        &vec!["PUT,key1,value1".to_string(), "DELETE,key2".to_string()]
    );
}

#[test]
fn test_replay_skips_malformed_lines() {
    let wal = WriteAheadLog::from_lines(vec![
        "".to_string(),
        "PUT,a,b".to_string(),
        "PUT,only_key".to_string(),
        "DELETE".to_string(),
        "DELETE,a".to_string(),
        "put,a,b".to_string(),
    ]);
    let operations = wal.replay();
    assert_eq!(operations.len(), 2);
    assert_eq!(operations[0], ("a".to_string(), Some("b".to_string())));
    assert_eq!(operations[1], ("a".to_string(), None));
}

#[test]
fn test_replay_preserves_order() {
    let mut wal = WriteAheadLog::new();
    wal.log_put("k", "1");
    wal.log_put("k", "2");
    wal.log_put("k", "3");
    let operations = wal.replay();
    assert_eq!(operations.len(), 3);
    assert_eq!(operations[2], ("k".to_string(), Some("3".to_string())));
}
