//! Saving the index itself into the log, as the value of a reserved key.

use crate::engine::ActionKV;
use crate::index::KeyIndex;
use crate::laws::after_write;
use crate::record::HEADER_LEN;
use vstd::prelude::*;

verus! {

#[verifier::external_type_specification]
#[verifier::external_body]
pub struct ExEncodeError(bincode::error::EncodeError);

/// The bincode encoding, in the standard configuration, of a list of
/// key/offset pairs.
pub uninterp spec fn bincode_of(entries: Seq<(Seq<u8>, u64)>) -> Seq<u8>;

pub open spec fn entries_view(entries: Seq<(Vec<u8>, u64)>) -> Seq<(Seq<u8>, u64)> {
    entries.map_values(|e: (Vec<u8>, u64)| (e.0@, e.1))
}

/// Whether `entries` lists the pairs of `m`, each once.
pub open spec fn lists(entries: Seq<(Seq<u8>, u64)>, m: Map<Seq<u8>, u64>) -> bool {
    &&& entries.len() == m.len()
    &&& forall|i: int| 0 <= i < entries.len() ==> #[trigger] m.contains_key(entries[i].0) && m[entries[i].0] == entries[i].1
    &&& forall|k: Seq<u8>| #[trigger] m.contains_key(k) ==> exists|i: int| 0 <= i < entries.len() && entries[i].0 == k
}

/// Relies on bincode::encode_to_vec with config::standard(): the bytes depend
/// on the pairs alone, and encoding byte strings and integers into a `Vec`
/// never fails (its writer and size counter always succeed, and the standard
/// configuration sets no limit). A list of pairs has the wire form of a map
/// with those entries, so the bytes decode as a `HashMap`.
#[verifier::external_body]
fn encode_entries(entries: &Vec<(Vec<u8>, u64)>) -> (r: Result<Vec<u8>, bincode::error::EncodeError>)
    ensures
        r is Ok,
        r->Ok_0@ == bincode_of(entries_view(entries@)),
{
    bincode::encode_to_vec(entries, bincode::config::standard())
}

/// Why the index could not be saved.
#[derive(Debug, Clone, Copy, PartialEq, Eq)]
pub enum SnapshotError {
    /// bincode refused to encode the index; encoding into memory never does.
    Encode,
    /// The encoded index does not fit in one record, or the log would
    /// outgrow the address space.
    TooLarge,
}

/// Writes the index, without any earlier snapshot of it, as the value of
/// `index_key`; the index then holds that key alone, pointing at the new
/// record. On an error the log is unchanged and the index has lost only
/// `index_key`.
pub fn store_index_on_disk(a: &mut ActionKV, index_key: &[u8]) -> (r: Result<(), SnapshotError>)
    requires
        old(a).wf(),
        index_key@.len() <= u32::MAX,
    ensures
        final(a).wf(),
        r != Err::<(), SnapshotError>(SnapshotError::Encode),
        r is Ok ==> exists|entries: Seq<(Seq<u8>, u64)>|
            lists(entries, old(a).index@.remove(index_key@))
                && (final(a).log@, final(a).index@) == after_write((old(a).log@, Map::empty()), index_key@, bincode_of(entries)),
        r is Err ==> final(a).log@ == old(a).log@ && final(a).index@ == old(a).index@.remove(index_key@),
        r == Err::<(), SnapshotError>(SnapshotError::TooLarge) ==> exists|entries: Seq<(Seq<u8>, u64)>|
            lists(entries, old(a).index@.remove(index_key@)) && (bincode_of(entries).len() > u32::MAX
                || old(a).log@.len() + HEADER_LEN + index_key@.len() + bincode_of(entries).len() > usize::MAX),
{
    a.index.remove(index_key);
    let entries = a.index.entries();
    let ghost listed = entries_view(entries@);
    assert(lists(listed, a.index@)) by {
        assert forall|i: int| 0 <= i < listed.len() implies #[trigger] a.index@.contains_key(listed[i].0) && a.index@[listed[i].0] == listed[i].1 by {
            assert(listed[i] == (entries@[i].0@, entries@[i].1));
            assert(a.index@.contains_key(entries@[i].0@));
        }
        assert forall|k: Seq<u8>| #[trigger] a.index@.contains_key(k) implies exists|i: int| 0 <= i < listed.len() && listed[i].0 == k by {
            let i = choose|i: int| 0 <= i < entries@.len() && entries@[i].0@ == k;
            assert(listed[i] == (entries@[i].0@, entries@[i].1));
        }
    }
    let value = match encode_entries(&entries) {
        Ok(v) => v,
        Err(_) => {
            return Err(SnapshotError::Encode);
        },
    };
    let room = usize::MAX - a.log.len();
    if value.len() > u32::MAX as usize || room < HEADER_LEN || room - HEADER_LEN < index_key.len()
        || room - HEADER_LEN - index_key.len() < value.len() {
        return Err(SnapshotError::TooLarge);
    }
    a.index = KeyIndex::new();
    a.insert(index_key, value.as_slice());
    Ok(())
}

} // verus!
