use actionkv::engine::ActionKV;
use actionkv::index::KeyIndex;
use actionkv::record::{decode_record, encode_record, process_record, LogError};

fn reopen(store: &ActionKV) -> ActionKV {
    let mut fresh = ActionKV::open(store.log.clone());
    fresh.load().unwrap();
    fresh
}

#[test]
fn scenario_insert_update_delete_reload() {
    let mut store = ActionKV::open(Vec::new());
    store.load().unwrap();
    store.insert(b"a", b"1");
    store.insert(b"b", b"2");
    store.insert(b"a", b"3");
    store.delete(b"b");
    assert_eq!(store.get(b"a"), Ok(Some(b"3".to_vec())));
    assert_eq!(store.get(b"b"), Ok(Some(Vec::new())));
    let fresh = reopen(&store);
    assert_eq!(fresh.get(b"a"), Ok(Some(b"3".to_vec())));
    assert_eq!(fresh.get(b"b"), Ok(Some(Vec::new())));
}

#[test]
fn insert_then_get_round_trips() {
    let mut store = ActionKV::open(Vec::new());
    store.insert(b"key", b"value");
    assert_eq!(store.get(b"key"), Ok(Some(b"value".to_vec())));
    store.insert(b"", b"");
    assert_eq!(store.get(b""), Ok(Some(Vec::new())));
}

#[test]
fn last_write_wins() {
    let mut store = ActionKV::open(Vec::new());
    for v in [b"v1", b"v2", b"v3"] {
        store.insert(b"k", v);
    }
    store.update(b"other", b"x");
    assert_eq!(store.get(b"k"), Ok(Some(b"v3".to_vec())));
}

#[test]
fn deleted_key_reads_empty_and_unknown_key_reads_absent() {
    let mut store = ActionKV::open(Vec::new());
    store.insert(b"gone", b"here");
    store.delete(b"gone");
    assert_eq!(store.get(b"gone"), Ok(Some(Vec::new())));
    assert_eq!(store.get(b"never"), Ok(None));
}

#[test]
fn reload_gives_the_same_reads() {
    let mut store = ActionKV::open(Vec::new());
    store.load().unwrap();
    let keys: [&[u8]; 4] = [b"x", b"y", b"z", b"w"];
    for (i, k) in keys.iter().enumerate() {
        store.insert(k, format!("value{}", i).as_bytes());
    }
    store.insert(b"y", b"again");
    store.delete(b"z");
    let fresh = reopen(&store);
    for k in keys.iter() {
        assert_eq!(fresh.get(k), store.get(k));
    }
    let snapshot = store.index.entries();
    assert_eq!(snapshot.len(), 4);
    for (k, off) in snapshot {
        assert_eq!(fresh.index.get(&k), Some(off));
    }
}

#[test]
fn find_agrees_with_get() {
    let mut store = ActionKV::open(Vec::new());
    store.insert(b"a", b"1");
    store.insert(b"b", b"2");
    store.insert(b"a", b"3");
    let fresh = reopen(&store);
    assert_eq!(fresh.find(b"a"), Ok(Some((28, b"3".to_vec()))));
    assert_eq!(fresh.find(b"b"), Ok(Some((14, b"2".to_vec()))));
    assert_eq!(fresh.find(b"c"), Ok(None));
    for k in [&b"a"[..], &b"b"[..], &b"c"[..]] {
        let via_scan = fresh.find(k).unwrap().map(|(_, v)| v);
        assert_eq!(via_scan, fresh.get(k).unwrap());
    }
}

#[test]
fn record_layout_is_checksum_lengths_key_value() {
    let bytes = encode_record(b"1234", b"56789");
    let mut expected = vec![0x26, 0x39, 0xF4, 0xCB, 4, 0, 0, 0, 5, 0, 0, 0];
    expected.extend_from_slice(b"123456789");
    assert_eq!(bytes, expected);
}

#[test]
fn offsets_are_where_records_start() {
    let mut store = ActionKV::open(Vec::new());
    assert_eq!(store.insert_but_ignore_index(b"a", b"1"), 0);
    assert_eq!(store.insert_but_ignore_index(b"bb", b"22"), 14);
    assert_eq!(store.log.len(), 30);
    assert_eq!(store.get(b"a"), Ok(None));
    let kv = store.get_at(14).unwrap();
    assert_eq!(kv.key, b"bb".to_vec());
    assert_eq!(kv.value, b"22".to_vec());
    assert_eq!(store.get_at(30).err(), Some(LogError::NoRecord));
    assert_eq!(store.get_at(u64::MAX).err(), Some(LogError::NoRecord));
}

#[test]
fn flipped_bit_is_reported_as_corruption() {
    let mut store = ActionKV::open(Vec::new());
    store.insert(b"key", b"value");
    for bit in 0..8 * 8 {
        let mut log = store.log.clone();
        log[12 + bit / 8] ^= 1 << (bit % 8);
        let mut damaged = ActionKV::open(log.clone());
        damaged.index.insert(b"key", 0);
        assert_eq!(damaged.get(b"key"), Err(LogError::Corrupt));
        let mut reloaded = ActionKV::open(log);
        assert_eq!(reloaded.load(), Err(LogError::Corrupt));
        assert_eq!(reloaded.find(b"key"), Err(LogError::Corrupt));
    }
}

#[test]
fn load_stops_at_a_truncated_record_keeping_earlier_ones() {
    let mut store = ActionKV::open(Vec::new());
    store.insert(b"a", b"1");
    store.insert(b"b", b"2");
    for cut in [15usize, 20, 27] {
        let mut partial = ActionKV::open(store.log[..cut].to_vec());
        assert_eq!(partial.load(), Err(LogError::Truncated));
        assert_eq!(partial.get(b"a"), Ok(Some(b"1".to_vec())));
        assert_eq!(partial.get(b"b"), Ok(None));
    }
}

#[test]
fn empty_log_loads_cleanly() {
    let mut store = ActionKV::open(Vec::new());
    assert_eq!(store.load(), Ok(()));
    assert_eq!(store.get(b"a"), Ok(None));
    assert_eq!(store.find(b"a"), Ok(None));
}

#[test]
fn load_replaces_the_previous_index() {
    let mut store = ActionKV::open(encode_record(b"a", b"1"));
    store.index.insert(b"stale", 99);
    store.load().unwrap();
    assert_eq!(store.index.get(b"stale"), None);
    assert_eq!(store.index.get(b"a"), Some(0));
}

#[test]
fn decoding_walks_the_log_forward() {
    let mut log = encode_record(b"k1", b"v1");
    log.extend(encode_record(b"k2", b"value2"));
    let (first, next) = process_record(&log, 0).unwrap().unwrap();
    assert_eq!((first.key, first.value, next), (b"k1".to_vec(), b"v1".to_vec(), 16));
    let (second, end) = process_record(&log, next).unwrap().unwrap();
    assert_eq!((second.key, second.value, end), (b"k2".to_vec(), b"value2".to_vec(), 36));
    assert!(process_record(&log, end).unwrap().is_none());
}

#[test]
fn index_insert_get_remove() {
    let mut index = KeyIndex::new();
    index.insert(b"a", 1);
    index.insert(b"b", 2);
    index.insert(b"a", 3);
    assert_eq!(index.get(b"a"), Some(3));
    assert_eq!(index.entries().len(), 2);
    index.remove(b"a");
    assert_eq!(index.get(b"a"), None);
    assert_eq!(index.get(b"b"), Some(2));
    index.remove(b"missing");
    assert_eq!(index.entries().len(), 1);
}

#[test]
fn all_zero_header_is_an_empty_record_when_its_checksum_is_zero() {
    let log = vec![0u8; 12];
    let (kv, next) = decode_record(&log, 0, 0).unwrap().unwrap();
    assert_eq!((kv.key, kv.value, next), (Vec::new(), Vec::new(), 12));
    assert_eq!(decode_record(&log, 0, 1).err(), Some(LogError::Corrupt));
    let (kv, _) = process_record(&log, 0).unwrap().unwrap();
    assert!(kv.key.is_empty() && kv.value.is_empty());
}

#[test]
fn decode_with_given_checksum_splits_key_and_value() {
    let mut log = vec![0x26, 0x39, 0xF4, 0xCB, 4, 0, 0, 0, 5, 0, 0, 0];
    log.extend_from_slice(b"123456789");
    let (kv, next) = decode_record(&log, 0, 0xCBF4_3926).unwrap().unwrap();
    assert_eq!((kv.key, kv.value, next), (b"1234".to_vec(), b"56789".to_vec(), 21));
    assert_eq!(decode_record(&log, 0, 0xCBF4_3927).err(), Some(LogError::Corrupt));
    assert_eq!(decode_record(&log[..20], 0, 0xCBF4_3926).err(), Some(LogError::Truncated));
    assert!(decode_record(&log, 21, 0).unwrap().is_none());
    let (kv, _) = process_record(&log, 0).unwrap().unwrap();
    assert_eq!(kv.value, b"56789".to_vec());
}

#[test]
fn last_write_wins_across_other_keys() {
    let mut store = ActionKV::open(Vec::new());
    store.insert(b"k", b"v1");
    store.insert(b"j", b"x");
    store.insert(b"k", b"v2");
    store.delete(b"j");
    store.update(b"k", b"v3");
    store.insert(b"m", b"y");
    assert_eq!(store.get(b"k"), Ok(Some(b"v3".to_vec())));
    assert_eq!(reopen(&store).get(b"k"), Ok(Some(b"v3".to_vec())));
}
