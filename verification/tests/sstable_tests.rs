use lsm_core::kvmap::sorted_copy;
use lsm_core::sstable::{SSTable, SegmentError};

fn pairs(data: &[(&str, &str)]) -> Vec<(String, String)> {
    data.iter().map(|(k, v)| (k.to_string(), v.to_string())).collect()
}

#[test]
fn test_write_and_read_sstable() {
    let data = pairs(&[("key1", "value1"), ("key2", "value2"), ("key3", "value3")]);

    let bytes = SSTable::write(&data);

    // Read it back
    let read_data = SSTable::read(Some(&bytes)).unwrap();

    assert_eq!(read_data.len(), 3);
    assert_eq!(read_data[0], ("key1".to_string(), "value1".to_string()));
    assert_eq!(read_data[1], ("key2".to_string(), "value2".to_string()));
    assert_eq!(read_data[2], ("key3".to_string(), "value3".to_string()));
}

#[test]
fn test_get_from_sstable() {
    let data = pairs(&[("user_1", "Alice"), ("user_2", "Bob")]);
    let bytes = SSTable::write(&data);

    assert_eq!(SSTable::get(Some(&bytes), "user_1").unwrap(), Some("Alice".to_string()));
    assert_eq!(SSTable::get(Some(&bytes), "user_2").unwrap(), Some("Bob".to_string()));
    assert_eq!(SSTable::get(Some(&bytes), "nonexistent").unwrap(), None);
}

#[test]
fn test_read_nonexistent_sstable() {
    let result = SSTable::read(None).unwrap();
    assert_eq!(result.len(), 0);
}

#[test]
fn test_round_trip_any_insertion_order() {
    let orders = [
        [("k1", "v1"), ("k2", "v2"), ("k3", "v3")],
        [("k3", "v3"), ("k1", "v1"), ("k2", "v2")],
        [("k2", "v2"), ("k3", "v3"), ("k1", "v1")],
    ];
    for order in &orders {
        let sorted = sorted_copy(&pairs(order));
        let bytes = SSTable::write(&sorted);
        let read_back = SSTable::read(Some(&bytes)).unwrap();
        // the same pairs come back, sorted, whatever order they arrived in
        assert_eq!(
            read_back,
            pairs(&[("k1", "v1"), ("k2", "v2"), ("k3", "v3")])
        );
    }
}

#[test]
fn test_exact_encoding() {
    let data = pairs(&[("a", "b")]);
    let bytes = SSTable::write(&data);
    // count 1, key length 1, 'a', value length 1, 'b' — all little-endian
    assert_eq!(
        bytes,
        vec![1, 0, 0, 0, 1, 0, 0, 0, 97, 1, 0, 0, 0, 98]
    );
}

#[test]
fn test_multibyte_text_round_trip() {
    let data = pairs(&[("clé", "crème brûlée"), ("日本", "案")]);
    let sorted = sorted_copy(&data);
    let bytes = SSTable::write(&sorted);
    let read_back = SSTable::read(Some(&bytes)).unwrap();
    assert_eq!(SSTable::get(Some(&bytes), "clé").unwrap(), Some("crème brûlée".to_string()));
    assert_eq!(read_back.len(), 2);
}

#[test]
fn test_read_truncated_segment_is_corrupt() {
    let data = pairs(&[("key1", "value1")]);
    let mut bytes = SSTable::write(&data);
    bytes.truncate(bytes.len() - 3);
    assert_eq!(SSTable::read(Some(&bytes)), Err(SegmentError::Corrupt));
}

#[test]
fn test_read_short_header_is_corrupt() {
    let bytes = vec![1u8, 0];
    assert_eq!(SSTable::read(Some(&bytes)), Err(SegmentError::Corrupt));
}

#[test]
fn test_read_overlong_length_prefix_is_corrupt() {
    // one declared entry whose key length runs past the end
    let bytes = vec![1u8, 0, 0, 0, 255, 0, 0, 0, 97];
    assert_eq!(SSTable::read(Some(&bytes)), Err(SegmentError::Corrupt));
}

#[test]
fn test_read_invalid_text_is_corrupt() {
    // count 1, key length 1, an invalid UTF-8 byte, value length 0
    let bytes = vec![1u8, 0, 0, 0, 1, 0, 0, 0, 0xFF, 0, 0, 0, 0];
    assert_eq!(SSTable::read(Some(&bytes)), Err(SegmentError::Corrupt));
    assert_eq!(SSTable::get(Some(&bytes), "any"), Err(SegmentError::Corrupt));
}

#[test]
fn test_trailing_bytes_are_ignored() {
    let data = pairs(&[("a", "b")]);
    let mut bytes = SSTable::write(&data);
    bytes.push(42);
    let read_back = SSTable::read(Some(&bytes)).unwrap();
    assert_eq!(read_back, pairs(&[("a", "b")]));
}
