//! What holds of the engine across several operations.

use crate::engine::{find_from, lookup, record_at, scan_from, scan_log};
use crate::record::{
    crc32_of, lemma_decode_encoded, lemma_parse_extend, parse_at, record_bytes, LogError, Parsed,
};
use vstd::bytes::{lemma_auto_spec_u32_to_from_le_bytes, spec_u32_to_le_bytes};
use vstd::prelude::*;

verus! {

/// The log and index after one write of `value` under `key`: the record is
/// appended and the key points at its start.
pub open spec fn after_write(state: (Seq<u8>, Map<Seq<u8>, u64>), key: Seq<u8>, value: Seq<u8>) -> (Seq<u8>, Map<Seq<u8>, u64>) {
    (state.0 + record_bytes(key, value), state.1.insert(key, state.0.len() as u64))
}

/// The log and index after the writes `writes`, in order.
pub open spec fn after_writes(state: (Seq<u8>, Map<Seq<u8>, u64>), writes: Seq<(Seq<u8>, Seq<u8>)>) -> (Seq<u8>, Map<Seq<u8>, u64>)
    decreases writes.len(),
{
    if writes.len() == 0 {
        state
    } else {
        let last = writes.last();
        after_write(after_writes(state, writes.drop_last()), last.0, last.1)
    }
}

/// Keys and values short enough for the record's length fields.
pub open spec fn writable(writes: Seq<(Seq<u8>, Seq<u8>)>) -> bool {
    forall|i: int| 0 <= i < writes.len() ==> #[trigger] writes[i].0.len() <= u32::MAX && writes[i].1.len() <= u32::MAX
}

proof fn lemma_record_len(key: Seq<u8>, value: Seq<u8>)
    ensures
        record_bytes(key, value).len() == 12 + key.len() + value.len(),
{
    lemma_auto_spec_u32_to_from_le_bytes();
    assert(spec_u32_to_le_bytes(crc32_of(key + value)).len() == 4);
    assert(spec_u32_to_le_bytes(key.len() as u32).len() == 4);
    assert(spec_u32_to_le_bytes(value.len() as u32).len() == 4);
}

/// Replaying a log that ends cleanly, with one more record appended, gives
/// the same index with the new key pointing at that record.
pub proof fn lemma_scan_append(log: Seq<u8>, pos: int, acc: Map<Seq<u8>, u64>, key: Seq<u8>, value: Seq<u8>)
    requires
        0 <= pos <= log.len(),
        scan_from(log, pos, acc).1 is None,
        key.len() <= u32::MAX,
        value.len() <= u32::MAX,
        log.len() <= u64::MAX,
    ensures
        scan_from(log + record_bytes(key, value), pos, acc) == (scan_from(log, pos, acc).0.insert(key, log.len() as u64), None::<LogError>),
    decreases log.len() - pos,
{
    let big = log + record_bytes(key, value);
    lemma_record_len(key, value);
    if pos == log.len() {
        lemma_decode_encoded(log, key, value, Seq::empty());
        assert(log + record_bytes(key, value) + Seq::empty() =~= big);
        let acc2 = acc.insert(key, pos as u64);
        assert(parse_at(big, big.len() as int) is End);
        assert(scan_from(big, big.len() as int, acc2) == (acc2, None::<LogError>));
        assert(scan_from(log, pos, acc) == (acc, None::<LogError>));
    } else {
        lemma_parse_extend(log, record_bytes(key, value), pos);
        if let Parsed::Record { key: k, value: v, next } = parse_at(log, pos) {
            lemma_scan_append(log, next, acc.insert(k, pos as u64), key, value);
        }
    }
}

/// Inserting `value` under `key` and then reading `key` gives `value`.
pub proof fn lemma_insert_then_get(log: Seq<u8>, index: Map<Seq<u8>, u64>, key: Seq<u8>, value: Seq<u8>)
    requires
        key.len() <= u32::MAX,
        value.len() <= u32::MAX,
        log.len() <= u64::MAX,
    ensures
        lookup(after_write((log, index), key, value).0, after_write((log, index), key, value).1, key) == Ok::<Option<Seq<u8>>, LogError>(Some(value)),
{
    lemma_decode_encoded(log, key, value, Seq::empty());
    assert(log + record_bytes(key, value) + Seq::empty() =~= log + record_bytes(key, value));
}

proof fn lemma_writable_prefix(writes: Seq<(Seq<u8>, Seq<u8>)>)
    requires
        writable(writes),
        writes.len() > 0,
    ensures
        writable(writes.drop_last()),
        writes.last().0.len() <= u32::MAX && writes.last().1.len() <= u32::MAX,
{
    let rest = writes.drop_last();
    assert forall|i: int| 0 <= i < rest.len() implies #[trigger] rest[i].0.len() <= u32::MAX && rest[i].1.len() <= u32::MAX by {
        assert(rest[i] == writes[i]);
    }
    assert(writes[writes.len() - 1] == writes.last());
}

/// After a sequence of writes, reading a key gives the value of the last
/// write to it, whatever was written to other keys in between or after.
pub proof fn lemma_last_write_wins(log: Seq<u8>, index: Map<Seq<u8>, u64>, writes: Seq<(Seq<u8>, Seq<u8>)>, i: int)
    requires
        writable(writes),
        0 <= i < writes.len(),
        forall|j: int| i < j < writes.len() ==> (#[trigger] writes[j]).0 != writes[i].0,
        after_writes((log, index), writes).0.len() <= u64::MAX,
    ensures
        ({
            let after = after_writes((log, index), writes);
            lookup(after.0, after.1, writes[i].0) == Ok::<Option<Seq<u8>>, LogError>(Some(writes[i].1))
        }),
    decreases writes.len(),
{
    let rest = writes.drop_last();
    let last = writes.last();
    let before = after_writes((log, index), rest);
    lemma_writable_prefix(writes);
    lemma_record_len(last.0, last.1);
    if i == writes.len() - 1 {
        lemma_insert_then_get(before.0, before.1, last.0, last.1);
    } else {
        let key = writes[i].0;
        assert(rest[i] == writes[i]);
        assert forall|j: int| i < j < rest.len() implies (#[trigger] rest[j]).0 != rest[i].0 by {
            assert(rest[j] == writes[j]);
        }
        lemma_last_write_wins(log, index, rest, i);
        assert(writes[writes.len() - 1] == last);
        let off = before.1[key] as int;
        lemma_parse_extend(before.0, record_bytes(last.0, last.1), off);
    }
}

/// Deleting a key writes an empty value: reading it then gives an empty
/// value, not an absent one.
pub proof fn lemma_delete_then_get(log: Seq<u8>, index: Map<Seq<u8>, u64>, key: Seq<u8>)
    requires
        key.len() <= u32::MAX,
        log.len() <= u64::MAX,
    ensures
        lookup(after_write((log, index), key, Seq::empty()).0, after_write((log, index), key, Seq::empty()).1, key) == Ok::<Option<Seq<u8>>, LogError>(Some(Seq::empty())),
{
    lemma_insert_then_get(log, index, key, Seq::empty());
}

/// Writes on a loaded engine keep its index equal to the one a fresh load of
/// its log rebuilds, so every read gives the same result after reloading.
pub proof fn lemma_reload_after_writes(log: Seq<u8>, index: Map<Seq<u8>, u64>, writes: Seq<(Seq<u8>, Seq<u8>)>)
    requires
        scan_log(log) == (index, None::<LogError>),
        writable(writes),
        after_writes((log, index), writes).0.len() <= u64::MAX,
    ensures
        scan_log(after_writes((log, index), writes).0) == (after_writes((log, index), writes).1, None::<LogError>),
        forall|k: Seq<u8>|
            lookup(after_writes((log, index), writes).0, scan_log(after_writes((log, index), writes).0).0, k)
                == #[trigger] lookup(after_writes((log, index), writes).0, after_writes((log, index), writes).1, k),
    decreases writes.len(),
{
    if writes.len() > 0 {
        let rest = writes.drop_last();
        let last = writes.last();
        assert(writable(rest)) by {
            assert forall|i: int| 0 <= i < rest.len() implies #[trigger] rest[i].0.len() <= u32::MAX && rest[i].1.len() <= u32::MAX by {
                assert(rest[i] == writes[i]);
            }
        }
        assert(last.0.len() <= u32::MAX && last.1.len() <= u32::MAX) by {
            assert(writes[writes.len() - 1] == last);
        }
        let before = after_writes((log, index), rest);
        lemma_record_len(last.0, last.1);
        lemma_reload_after_writes(log, index, rest);
        lemma_scan_append(before.0, 0, Map::empty(), last.0, last.1);
    }
}

/// Whether `found` is what the index says of `target`: absent when the index
/// lacks it, else the offset the index holds and the value stored there.
pub open spec fn agrees(log: Seq<u8>, index: Map<Seq<u8>, u64>, target: Seq<u8>, found: Option<(u64, Seq<u8>)>) -> bool {
    match found {
        None => !index.contains_key(target),
        Some((o, v)) => index.contains_key(target) && index[target] == o && record_at(log, o as int) == Ok::<(Seq<u8>, Seq<u8>), LogError>((target, v)),
    }
}

proof fn lemma_find_scan(log: Seq<u8>, pos: int, target: Seq<u8>, index: Map<Seq<u8>, u64>, found: Option<(u64, Seq<u8>)>)
    requires
        0 <= pos,
        log.len() <= u64::MAX,
        scan_from(log, pos, index).1 is None,
        agrees(log, index, target, found),
    ensures
        find_from(log, pos, target, found) is Ok,
        agrees(log, scan_from(log, pos, index).0, target, find_from(log, pos, target, found)->Ok_0),
    decreases log.len() - pos,
{
    if let Parsed::Record { key, value, next } = parse_at(log, pos) {
        if pos < next <= log.len() {
            let index2 = index.insert(key, pos as u64);
            let found2 = if key == target { Some((pos as u64, value)) } else { found };
            assert(agrees(log, index2, target, found2));
            lemma_find_scan(log, next, target, index2, found2);
        }
    }
}

/// On a log that replays without error into `index`, scanning the log for
/// a key finds the offset that the index holds for it and the value that a
/// read through the index gives; it finds nothing exactly when the index
/// lacks the key.
pub proof fn lemma_find_matches_get(log: Seq<u8>, index: Map<Seq<u8>, u64>, target: Seq<u8>)
    requires
        log.len() <= u64::MAX,
        scan_log(log) == (index, None::<LogError>),
    ensures
        match find_from(log, 0, target, None) {
            Ok(Some((o, v))) => index.contains_key(target) && index[target] == o
                && lookup(log, index, target) == Ok::<Option<Seq<u8>>, LogError>(Some(v)),
            Ok(None) => !index.contains_key(target) && lookup(log, index, target) == Ok::<Option<Seq<u8>>, LogError>(None),
            Err(_) => false,
        },
{
    lemma_find_scan(log, 0, target, Map::empty(), None);
}

/// A record whose key or value bytes were changed so that their checksum no
/// longer matches the stored one reads as corrupt, never as a value.
pub proof fn lemma_corruption_detected(pre: Seq<u8>, key: Seq<u8>, value: Seq<u8>, key2: Seq<u8>, value2: Seq<u8>, post: Seq<u8>)
    requires
        key.len() <= u32::MAX,
        value.len() <= u32::MAX,
        key2.len() == key.len(),
        value2.len() == value.len(),
        crc32_of(key2 + value2) != crc32_of(key + value),
    ensures
        ({
            let log = pre + record_bytes(key, value).subrange(0, 12) + key2 + value2 + post;
            &&& parse_at(log, pre.len() as int) is Corrupt
            &&& record_at(log, pre.len() as int) == Err::<(Seq<u8>, Seq<u8>), LogError>(LogError::Corrupt)
        }),
{
    lemma_auto_spec_u32_to_from_le_bytes();
    lemma_record_len(key, value);
    let head = record_bytes(key, value).subrange(0, 12);
    let log = pre + head + key2 + value2 + post;
    let p = pre.len() as int;
    assert(log.subrange(p, p + 4) =~= spec_u32_to_le_bytes(crc32_of(key + value)));
    assert(log.subrange(p + 4, p + 8) =~= spec_u32_to_le_bytes(key.len() as u32));
    assert(log.subrange(p + 8, p + 12) =~= spec_u32_to_le_bytes(value.len() as u32));
    assert(log.subrange(p + 12, p + 12 + key.len() + value.len()) =~= key2 + value2);
}

/// Bytes after a log that replays cleanly from `pos` leave the replay of
/// that part unchanged: it then goes on at the old end.
proof fn lemma_scan_prefix(log: Seq<u8>, rest: Seq<u8>, pos: int, acc: Map<Seq<u8>, u64>, target: Seq<u8>, found: Option<(u64, Seq<u8>)>)
    requires
        0 <= pos <= log.len(),
        scan_from(log, pos, acc).1 is None,
    ensures
        scan_from(log + rest, pos, acc) == scan_from(log + rest, log.len() as int, scan_from(log, pos, acc).0),
        find_from(log, pos, target, found) is Ok,
        find_from(log + rest, pos, target, found) == find_from(log + rest, log.len() as int, target, find_from(log, pos, target, found)->Ok_0),
    decreases log.len() - pos,
{
    if pos < log.len() {
        lemma_parse_extend(log, rest, pos);
        if let Parsed::Record { key, value, next } = parse_at(log, pos) {
            let found2 = if key == target { Some((pos as u64, value)) } else { found };
            lemma_scan_prefix(log, rest, next, acc.insert(key, pos as u64), target, found2);
        }
    }
}

/// A log that replays cleanly up to a record whose key or value bytes were
/// changed so that their checksum no longer matches the stored one: a full
/// replay stops there with a corruption error, and so does a scan for any key.
pub proof fn lemma_corruption_stops_replay(pre: Seq<u8>, key: Seq<u8>, value: Seq<u8>, key2: Seq<u8>, value2: Seq<u8>, post: Seq<u8>, target: Seq<u8>)
    requires
        scan_log(pre).1 is None,
        key.len() <= u32::MAX,
        value.len() <= u32::MAX,
        key2.len() == key.len(),
        value2.len() == value.len(),
        crc32_of(key2 + value2) != crc32_of(key + value),
    ensures
        ({
            let log = pre + record_bytes(key, value).subrange(0, 12) + key2 + value2 + post;
            &&& scan_log(log).1 == Some(LogError::Corrupt)
            &&& find_from(log, 0, target, None) == Err::<Option<(u64, Seq<u8>)>, LogError>(LogError::Corrupt)
        }),
{
    let rest = record_bytes(key, value).subrange(0, 12) + key2 + value2 + post;
    let log = pre + record_bytes(key, value).subrange(0, 12) + key2 + value2 + post;
    assert(pre + rest =~= log);
    lemma_corruption_detected(pre, key, value, key2, value2, post);
    lemma_scan_prefix(pre, rest, 0, Map::empty(), target, None);
}

} // verus!
