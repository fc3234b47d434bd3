use actionkv::store::Store;
use actionkv::KvError;

const INDEX_KEY: &[u8] = b"+index";

fn fresh_store() -> Store {
    let mut s = Store::open(Vec::new());
    s.load().expect("an empty log loads");
    s
}

fn reopened(s: &Store) -> Store {
    let mut r = Store::open(s.log_bytes().clone());
    r.load().expect("an untouched log reloads");
    r
}

#[test]
fn get_on_empty_store_is_none() {
    let s = fresh_store();
    assert_eq!(s.get(b"missing").unwrap(), None);
}

#[test]
fn last_write_wins_scenario() {
    let mut s = fresh_store();
    s.insert(b"a", b"1").unwrap();
    s.insert(b"b", b"2").unwrap();
    s.update(b"a", b"3").unwrap();
    assert_eq!(s.get(b"a").unwrap().unwrap().value, b"3".to_vec());
    assert_eq!(s.get(b"b").unwrap().unwrap().value, b"2".to_vec());
    assert_eq!(s.get(b"c").unwrap(), None);
}

#[test]
fn insert_returns_record_offsets() {
    let mut s = fresh_store();
    let off_a = s.insert(b"a", b"1").unwrap();
    let off_b = s.insert(b"b", b"22").unwrap();
    assert_eq!(off_a, 0);
    // One record is 13 header bytes plus key plus value.
    assert_eq!(off_b, 13 + 1 + 1);
    let rec = s.get_at(off_b).unwrap();
    assert_eq!(rec.key, b"b".to_vec());
    assert_eq!(rec.value, b"22".to_vec());
}

#[test]
fn empty_key_and_empty_value_round_trip() {
    let mut s = fresh_store();
    s.insert(b"", b"empty key").unwrap();
    s.insert(b"empty value", b"").unwrap();
    assert_eq!(s.get(b"").unwrap().unwrap().value, b"empty key".to_vec());
    assert_eq!(s.get(b"empty value").unwrap().unwrap().value, Vec::<u8>::new());
    let r = reopened(&s);
    assert_eq!(r.get(b"").unwrap().unwrap().value, b"empty key".to_vec());
    assert_eq!(r.get(b"empty value").unwrap().unwrap().value, Vec::<u8>::new());
}

#[test]
fn rebuild_matches_incremental_index() {
    let mut s = fresh_store();
    s.insert(b"a", b"1").unwrap();
    s.insert(b"b", b"2").unwrap();
    s.update(b"a", b"3").unwrap();
    s.delete(b"b").unwrap();
    s.insert(b"c", b"4").unwrap();
    let r = reopened(&s);
    for key in [b"a".as_slice(), b"b", b"c", b"d"] {
        let live = s.get(key).unwrap().map(|rec| rec.value);
        let rebuilt = r.get(key).unwrap().map(|rec| rec.value);
        assert_eq!(live, rebuilt);
    }
}

#[test]
fn delete_removes_key_and_survives_rescan() {
    let mut s = fresh_store();
    s.insert(b"a", b"1").unwrap();
    s.insert(b"b", b"2").unwrap();
    s.delete(b"a").unwrap();
    assert_eq!(s.get(b"a").unwrap(), None);
    assert_eq!(s.get(b"b").unwrap().unwrap().value, b"2".to_vec());
    let r = reopened(&s);
    assert_eq!(r.get(b"a").unwrap(), None);
    assert_eq!(r.get(b"b").unwrap().unwrap().value, b"2".to_vec());
}

#[test]
fn reinsert_after_delete() {
    let mut s = fresh_store();
    s.insert(b"a", b"old").unwrap();
    s.delete(b"a").unwrap();
    s.insert(b"a", b"new").unwrap();
    assert_eq!(s.get(b"a").unwrap().unwrap().value, b"new".to_vec());
    let r = reopened(&s);
    assert_eq!(r.get(b"a").unwrap().unwrap().value, b"new".to_vec());
}

#[test]
fn persist_then_reopen_scenario() {
    let mut s = fresh_store();
    s.insert(b"x", b"y").unwrap();
    s.persist_index(INDEX_KEY).unwrap();
    let bytes = s.log_bytes().clone();
    drop(s);
    let mut r = Store::open(bytes);
    r.load().unwrap();
    assert_eq!(r.get(b"x").unwrap().unwrap().value, b"y".to_vec());
}

#[test]
fn persisted_snapshot_reads_back() {
    let mut s = fresh_store();
    let off_a = s.insert(b"a", b"1").unwrap();
    let off_b = s.insert(b"b", b"2").unwrap();
    s.persist_index(INDEX_KEY).unwrap();
    let pairs = s.read_snapshot(INDEX_KEY).expect("a snapshot was just persisted");
    let mut sorted: Vec<(Vec<u8>, u64)> = pairs;
    sorted.sort();
    assert_eq!(sorted, vec![(b"a".to_vec(), off_a), (b"b".to_vec(), off_b)]);
    // The snapshot never embeds its own key.
    let r = reopened(&s);
    let again = r.read_snapshot(INDEX_KEY).expect("the snapshot survives a reload");
    let mut again_sorted = again;
    again_sorted.sort();
    assert_eq!(again_sorted, sorted);
}

#[test]
fn snapshot_strips_its_own_stale_entry() {
    let mut s = fresh_store();
    s.insert(b"a", b"1").unwrap();
    s.persist_index(INDEX_KEY).unwrap();
    s.insert(b"b", b"2").unwrap();
    s.persist_index(INDEX_KEY).unwrap();
    let pairs = s.read_snapshot(INDEX_KEY).unwrap();
    assert!(pairs.iter().all(|(k, _)| k != INDEX_KEY));
    assert_eq!(pairs.len(), 2);
}

#[test]
fn read_snapshot_missing_key_is_none() {
    let mut s = fresh_store();
    s.insert(b"a", b"1").unwrap();
    assert!(s.read_snapshot(INDEX_KEY).is_none());
}

#[test]
fn flipping_any_payload_byte_is_detected() {
    let mut s = fresh_store();
    s.insert(b"key", b"value").unwrap();
    let bytes = s.log_bytes().clone();
    // The payload is everything after the 13-byte header.
    for j in 13..bytes.len() {
        let mut changed = bytes.clone();
        changed[j] ^= 0xFF;
        let broken = Store::open(changed);
        assert_eq!(broken.get_at(0).unwrap_err(), KvError::CorruptRecord);
    }
}

#[test]
fn flipping_checksum_bytes_is_detected() {
    let mut s = fresh_store();
    s.insert(b"key", b"value").unwrap();
    let bytes = s.log_bytes().clone();
    for j in 0..4 {
        let mut changed = bytes.clone();
        changed[j] ^= 0xFF;
        let broken = Store::open(changed);
        assert_eq!(broken.get_at(0).unwrap_err(), KvError::CorruptRecord);
    }
}

#[test]
fn get_at_past_end_is_not_found() {
    let mut s = fresh_store();
    s.insert(b"a", b"1").unwrap();
    let len = s.log_bytes().len() as u64;
    assert_eq!(s.get_at(len).unwrap_err(), KvError::NotFound);
    assert_eq!(s.get_at(len + 100).unwrap_err(), KvError::NotFound);
}

#[test]
fn get_at_mid_record_is_corrupt_or_not_a_record() {
    let mut s = fresh_store();
    s.insert(b"some key", b"some value").unwrap();
    // Offsets inside the record do not start a valid record.
    assert!(s.get_at(1).is_err());
}

#[test]
fn load_truncated_log_is_corrupt() {
    let mut s = fresh_store();
    s.insert(b"a", b"1").unwrap();
    let mut bytes = s.log_bytes().clone();
    bytes.pop();
    let mut broken = Store::open(bytes);
    assert_eq!(broken.load().unwrap_err(), KvError::CorruptRecord);
}

#[test]
fn load_log_corrupt_mid_file_is_an_error() {
    let mut s = fresh_store();
    s.insert(b"a", b"1").unwrap();
    s.insert(b"b", b"2").unwrap();
    let mut bytes = s.log_bytes().clone();
    // Flip a payload byte of the first record.
    bytes[13] ^= 0xFF;
    let mut broken = Store::open(bytes);
    assert_eq!(broken.load().unwrap_err(), KvError::CorruptRecord);
}

#[test]
fn update_works_as_plain_upsert() {
    let mut s = fresh_store();
    // No precondition ties update to a pre-existing key.
    s.update(b"fresh", b"first").unwrap();
    assert_eq!(s.get(b"fresh").unwrap().unwrap().value, b"first".to_vec());
}

#[test]
fn scan_lists_records_in_file_order() {
    let mut s = fresh_store();
    s.insert(b"a", b"1").unwrap();
    s.insert(b"b", b"2").unwrap();
    s.delete(b"a").unwrap();
    let entries = s.scan().unwrap();
    assert_eq!(entries.len(), 3);
    assert_eq!(entries[0].0, 0);
    assert_eq!(entries[0].1.key, b"a".to_vec());
    assert!(!entries[0].1.tombstone);
    assert_eq!(entries[1].1.key, b"b".to_vec());
    assert_eq!(entries[1].1.value, b"2".to_vec());
    assert_eq!(entries[2].1.key, b"a".to_vec());
    assert!(entries[2].1.tombstone);
}

#[test]
fn scan_corrupt_log_is_an_error() {
    let mut s = fresh_store();
    s.insert(b"a", b"1").unwrap();
    let mut bytes = s.log_bytes().clone();
    bytes[14] ^= 0xFF;
    let broken = Store::open(bytes);
    assert_eq!(broken.scan().unwrap_err(), KvError::CorruptRecord);
}
