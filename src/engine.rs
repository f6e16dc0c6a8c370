//! The log engine: an append-only log image with its index.

use crate::index::KeyIndex;
use crate::record::{
    encode_record, lemma_decode_encoded, lemma_parse_extend, parse_at, process_record,
    record_bytes, KeyValuePair, LogError, Parsed, HEADER_LEN,
};
use crate::laws::{lemma_scan_append, after_write};
use vstd::prelude::*;

verus! {

/// The index built by replaying the log from `pos` onwards into `idx`, and
/// the error that stopped the replay, if one did.
pub open spec fn scan_from(log: Seq<u8>, pos: int, idx: Map<Seq<u8>, u64>) -> (Map<Seq<u8>, u64>, Option<LogError>)
    decreases log.len() - pos,
{
    match parse_at(log, pos) {
        Parsed::Record { key, value, next } => {
            // a record always ends after its start and within the log
            if pos < next <= log.len() {
                scan_from(log, next, idx.insert(key, pos as u64))
            } else {
                (idx, None)
            }
        },
        Parsed::End => (idx, None),
        Parsed::Truncated => (idx, Some(LogError::Truncated)),
        Parsed::Corrupt => (idx, Some(LogError::Corrupt)),
    }
}

/// The index that a full replay of the log builds, with its error if any.
pub open spec fn scan_log(log: Seq<u8>) -> (Map<Seq<u8>, u64>, Option<LogError>) {
    scan_from(log, 0, Map::empty())
}

/// The last record for `target` from `pos` onwards, as offset and value,
/// with `found` standing for what came before `pos`.
pub open spec fn find_from(log: Seq<u8>, pos: int, target: Seq<u8>, found: Option<(u64, Seq<u8>)>) -> Result<Option<(u64, Seq<u8>)>, LogError>
    decreases log.len() - pos,
{
    match parse_at(log, pos) {
        Parsed::Record { key, value, next } => {
            if pos < next <= log.len() {
                find_from(log, next, target, if key == target { Some((pos as u64, value)) } else { found })
            } else {
                Ok(found)
            }
        },
        Parsed::End => Ok(found),
        Parsed::Truncated => Err(LogError::Truncated),
        Parsed::Corrupt => Err(LogError::Corrupt),
    }
}

/// The key and value of the record at `pos`.
pub open spec fn record_at(log: Seq<u8>, pos: int) -> Result<(Seq<u8>, Seq<u8>), LogError> {
    match parse_at(log, pos) {
        Parsed::Record { key, value, next } => Ok((key, value)),
        Parsed::End => Err(LogError::NoRecord),
        Parsed::Truncated => Err(LogError::Truncated),
        Parsed::Corrupt => Err(LogError::Corrupt),
    }
}

/// What a lookup of `key` through `index` reads from `log`.
pub open spec fn lookup(log: Seq<u8>, index: Map<Seq<u8>, u64>, key: Seq<u8>) -> Result<Option<Seq<u8>>, LogError> {
    if !index.contains_key(key) {
        Ok(None)
    } else {
        match record_at(log, index[key] as int) {
            Ok((k, v)) => Ok(Some(v)),
            Err(e) => Err(e),
        }
    }
}

/// A read's result, with the value as a sequence.
pub open spec fn bytes_result(r: Result<Option<Vec<u8>>, LogError>) -> Result<Option<Seq<u8>>, LogError> {
    match r {
        Ok(Some(v)) => Ok(Some(v@)),
        Ok(None) => Ok(None),
        Err(e) => Err(e),
    }
}

/// A scan's result, with the value as a sequence.
pub open spec fn found_result(r: Result<Option<(u64, Vec<u8>)>, LogError>) -> Result<Option<(u64, Seq<u8>)>, LogError> {
    match r {
        Ok(Some((p, v))) => Ok(Some((p, v@))),
        Ok(None) => Ok(None),
        Err(e) => Err(e),
    }
}

/// A record's key and value, as sequences.
pub open spec fn pair_result(r: Result<KeyValuePair, LogError>) -> Result<(Seq<u8>, Seq<u8>), LogError> {
    match r {
        Ok(kv) => Ok((kv.key@, kv.value@)),
        Err(e) => Err(e),
    }
}

/// An engine: the bytes of its log file and the index over them.
pub struct ActionKV {
    pub log: Vec<u8>,
    pub index: KeyIndex,
}

impl ActionKV {
    /// The index is well formed.
    pub open spec fn wf(&self) -> bool {
        self.index.wf()
    }

    /// The index is the one that a full replay of the log builds, and the
    /// replay meets no error.
    pub open spec fn loaded(&self) -> bool {
        scan_log(self.log@) == (self.index@, None::<LogError>)
    }

    /// An engine over a log that holds `contents`, with an empty index.
    pub fn open(contents: Vec<u8>) -> (r: Self)
        ensures
            r.wf(),
            r.log@ == contents@,
            r.index@ == Map::<Seq<u8>, u64>::empty(),
    {
        ActionKV { log: contents, index: KeyIndex::new() }
    }

    /// Rebuilds the index from scratch by replaying the whole log. On an
    /// error the index holds the records read before it.
    pub fn load(&mut self) -> (r: Result<(), LogError>)
        requires
            old(self).wf(),
        ensures
            final(self).wf(),
            final(self).log@ == old(self).log@,
            final(self).index@ == scan_log(old(self).log@).0,
            r == (match scan_log(old(self).log@).1 {
                None => Ok(()),
                Some(e) => Err(e),
            }),
    {
        let mut index = KeyIndex::new();
        let mut pos: usize = 0;
        let mut result: Result<(), LogError> = Ok(());
        loop
            invariant_except_break
                pos <= self.log@.len(),
                scan_from(self.log@, pos as int, index@) == scan_log(self.log@),
                result == Ok::<(), LogError>(()),
            invariant
                index.wf(),
            ensures
                index@ == scan_log(self.log@).0,
                result == (match scan_log(self.log@).1 {
                    None => Ok(()),
                    Some(e) => Err(e),
                }),
            decreases self.log@.len() - pos,
        {
            match process_record(self.log.as_slice(), pos) {
                Ok(Some((kv, next))) => {
                    index.insert(kv.key.as_slice(), pos as u64);
                    pos = next;
                },
                Ok(None) => {
                    break;
                },
                Err(e) => {
                    result = Err(e);
                    break;
                },
            }
        }
        self.index = index;
        result
    }

    /// The value of the latest record for `key`; `None` where the key was
    /// never written. A deleted key gives an empty value.
    pub fn get(&self, key: &[u8]) -> (r: Result<Option<Vec<u8>>, LogError>)
        requires
            self.wf(),
        ensures
            bytes_result(r) == lookup(self.log@, self.index@, key@),
    {
        match self.index.get(key) {
            None => Ok(None),
            Some(position) => match self.get_at(position) {
                Ok(kv) => Ok(Some(kv.value)),
                Err(e) => Err(e),
            },
        }
    }

    /// The record at offset `position` of the log.
    pub fn get_at(&self, position: u64) -> (r: Result<KeyValuePair, LogError>)
        ensures
            pair_result(r) == record_at(self.log@, position as int),
    {
        if position >= self.log.len() as u64 {
            return Err(LogError::NoRecord);
        }
        match process_record(self.log.as_slice(), position as usize) {
            Ok(Some((kv, next))) => Ok(kv),
            Ok(None) => Err(LogError::NoRecord),
            Err(e) => Err(e),
        }
    }

    /// The offset and value of the last record for `target`, found by reading
    /// the whole log without the index.
    pub fn find(&self, target: &[u8]) -> (r: Result<Option<(u64, Vec<u8>)>, LogError>)
        ensures
            found_result(r) == find_from(self.log@, 0, target@, None),
    {
        let mut found: Option<(u64, Vec<u8>)> = None;
        let mut pos: usize = 0;
        loop
            invariant
                pos <= self.log@.len(),
                find_from(self.log@, pos as int, target@, match found { Some((p, v)) => Some((p, v@)), None => None }) == find_from(self.log@, 0, target@, None),
            decreases self.log@.len() - pos,
        {
            match process_record(self.log.as_slice(), pos) {
                Ok(Some((kv, next))) => {
                    if crate::index::bytes_equal(kv.key.as_slice(), target) {
                        found = Some((pos as u64, kv.value));
                    }
                    pos = next;
                },
                Ok(None) => {
                    return Ok(found);
                },
                Err(e) => {
                    return Err(e);
                },
            }
        }
    }

    /// Appends a record for `key` and `value` without touching the index, and
    /// returns the offset at which it starts.
    pub fn insert_but_ignore_index(&mut self, key: &[u8], value: &[u8]) -> (r: u64)
        requires
            key@.len() <= u32::MAX,
            value@.len() <= u32::MAX,
            old(self).log@.len() + HEADER_LEN + key@.len() + value@.len() <= usize::MAX,
        ensures
            final(self).log@ == old(self).log@ + record_bytes(key@, value@),
            final(self).index == old(self).index,
            r == old(self).log@.len(),
    {
        let position = self.log.len() as u64;
        let record = encode_record(key, value);
        crate::record::push_all(&mut self.log, record.as_slice());
        position
    }
    /// Appends a record for `key` and `value` and points `key` at it. An
    /// existing key is simply overwritten.
    pub fn insert(&mut self, key: &[u8], value: &[u8])
        requires
            old(self).wf(),
            key@.len() <= u32::MAX,
            value@.len() <= u32::MAX,
            old(self).log@.len() + HEADER_LEN + key@.len() + value@.len() <= usize::MAX,
        ensures
            final(self).wf(),
            (final(self).log@, final(self).index@) == after_write((old(self).log@, old(self).index@), key@, value@),
            old(self).loaded() ==> final(self).loaded(),
    {
        let position = self.insert_but_ignore_index(key, value);
        self.index.insert(key, position);
        proof {
            if old(self).loaded() {
                lemma_scan_append(old(self).log@, 0, Map::empty(), key@, value@);
            }
        }
    }

    /// Writes an empty value under `key`, which then reads as deleted.
    pub fn delete(&mut self, key: &[u8])
        requires
            old(self).wf(),
            key@.len() <= u32::MAX,
            old(self).log@.len() + HEADER_LEN + key@.len() <= usize::MAX,
        ensures
            final(self).wf(),
            (final(self).log@, final(self).index@) == after_write((old(self).log@, old(self).index@), key@, Seq::empty()),
            old(self).loaded() ==> final(self).loaded(),
    {
        let empty: Vec<u8> = Vec::new();
        self.insert(key, empty.as_slice());
    }

    /// The same as `insert`: the key need not exist yet.
    pub fn update(&mut self, key: &[u8], value: &[u8])
        requires
            old(self).wf(),
            key@.len() <= u32::MAX,
            value@.len() <= u32::MAX,
            old(self).log@.len() + HEADER_LEN + key@.len() + value@.len() <= usize::MAX,
        ensures
            final(self).wf(),
            (final(self).log@, final(self).index@) == after_write((old(self).log@, old(self).index@), key@, value@),
            old(self).loaded() ==> final(self).loaded(),
    {
        self.insert(key, value);
    }
}

} // verus!
