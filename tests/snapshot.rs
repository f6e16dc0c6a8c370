use std::collections::HashMap;

use actionkv::engine::ActionKV;
use actionkv::snapshot::store_index_on_disk;

fn decode(bytes: &[u8]) -> HashMap<Vec<u8>, u64> {
    let (map, used): (HashMap<Vec<u8>, u64>, usize) =
        bincode::decode_from_slice(bytes, bincode::config::standard()).unwrap();
    assert_eq!(used, bytes.len());
    map
}

#[test]
fn snapshot_holds_the_index_without_itself() {
    let mut store = ActionKV::open(Vec::new());
    store.insert(b"a", b"1");
    store.insert(b"b", b"2");
    assert_eq!(store_index_on_disk(&mut store, b"+index"), Ok(()));
    let first = decode(&store.get(b"+index").unwrap().unwrap());
    let mut expected = HashMap::new();
    expected.insert(b"a".to_vec(), 0u64);
    expected.insert(b"b".to_vec(), 14u64);
    assert_eq!(first, expected);
    assert_eq!(store.get(b"a"), Ok(None));
    assert_eq!(store.index.entries().len(), 1);

    store.load().unwrap();
    store.insert(b"a", b"3");
    let before = store.log.len() as u64;
    assert_eq!(store_index_on_disk(&mut store, b"+index"), Ok(()));
    assert_eq!(store.index.get(b"+index"), Some(before));
    let second = decode(&store.get(b"+index").unwrap().unwrap());
    assert_eq!(second.len(), 2);
    assert!(!second.contains_key(&b"+index".to_vec()));
    let kv = store.get_at(second[&b"a".to_vec()]).unwrap();
    assert_eq!(kv.value, b"3".to_vec());
}

#[test]
fn snapshot_of_an_empty_index() {
    let mut store = ActionKV::open(Vec::new());
    assert_eq!(store_index_on_disk(&mut store, b"+index"), Ok(()));
    let bytes = store.get(b"+index").unwrap().unwrap();
    assert_eq!(bytes, vec![0u8]);
    assert!(decode(&bytes).is_empty());
}
