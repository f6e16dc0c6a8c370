//! The record codec: framing, checksum and decoding of one log record.

use byteorder::{ByteOrder, LittleEndian};
use vstd::bytes::{lemma_auto_spec_u32_to_from_le_bytes, spec_u32_from_le_bytes, spec_u32_to_le_bytes};
use vstd::prelude::*;

verus! {

/// Bytes before a record's payload: checksum, key length, value length.
pub const HEADER_LEN: usize = 12;

/// The CRC-32 of a byte sequence.
pub uninterp spec fn crc32_of(data: Seq<u8>) -> u32;

/// Relies on crc32fast::Hasher (new, update, finalize): the CRC-32 of `data`,
/// which depends on the bytes alone.
#[verifier::external_body]
fn crc32(data: &[u8]) -> (r: u32)
    ensures
        r == crc32_of(data@),
{
    let mut hasher = crc32fast::Hasher::new();
    hasher.update(data);
    hasher.finalize()
}

/// Relies on byteorder's `LittleEndian::write_u32`: the four bytes of `n`,
/// least significant first.
#[verifier::external_body]
fn u32_le_bytes(n: u32) -> (r: Vec<u8>)
    ensures
        r@ == spec_u32_to_le_bytes(n),
{
    let mut buf = vec![0u8; 4];
    LittleEndian::write_u32(&mut buf, n);
    buf
}

/// Relies on byteorder's `LittleEndian::read_u32`: the number whose
/// little-endian form is `data[at..at + 4]`.
#[verifier::external_body]
fn read_u32_le(data: &[u8], at: usize) -> (r: u32)
    requires
        at + 4 <= data@.len(),
    ensures
        r == spec_u32_from_le_bytes(data@.subrange(at as int, at + 4)),
{
    LittleEndian::read_u32(&data[at..at + 4])
}

/// A decoded record.
#[derive(Debug)]
pub struct KeyValuePair {
    pub key: Vec<u8>,
    pub value: Vec<u8>,
}

/// Why a record could not be read.
#[derive(Debug, Clone, Copy, PartialEq, Eq)]
pub enum LogError {
    /// The log ends inside a record's header or payload.
    Truncated,
    /// The stored checksum differs from the one of the payload.
    Corrupt,
    /// No record starts at the requested offset: it is at or past the end.
    NoRecord,
}

/// What the log holds at an offset.
pub enum Parsed {
    /// The offset is at or past the end of the log.
    End,
    Truncated,
    Corrupt,
    Record { key: Seq<u8>, value: Seq<u8>, next: int },
}

/// The bytes of one record holding `key` and `value`.
pub open spec fn record_bytes(key: Seq<u8>, value: Seq<u8>) -> Seq<u8> {
    spec_u32_to_le_bytes(crc32_of(key + value)) + spec_u32_to_le_bytes(key.len() as u32)
        + spec_u32_to_le_bytes(value.len() as u32) + key + value
}

/// The little-endian 32-bit field at `at`.
pub open spec fn field(log: Seq<u8>, at: int) -> u32 {
    spec_u32_from_le_bytes(log.subrange(at, at + 4))
}

/// The end of the record at `pos`, as its header gives it.
pub open spec fn record_end(log: Seq<u8>, pos: int) -> int {
    pos + HEADER_LEN + field(log, pos + 4) as int + field(log, pos + 8) as int
}

/// The record at `pos`, with `checksum` taken as the checksum of its payload.
pub open spec fn parse_given(log: Seq<u8>, pos: int, checksum: u32) -> Parsed {
    if pos < 0 || pos >= log.len() {
        Parsed::End
    } else if log.len() - pos < HEADER_LEN {
        Parsed::Truncated
    } else {
        let key_len = field(log, pos + 4) as int;
        let end = record_end(log, pos);
        if end > log.len() {
            Parsed::Truncated
        } else if checksum != field(log, pos) {
            Parsed::Corrupt
        } else {
            Parsed::Record {
                key: log.subrange(pos + HEADER_LEN, pos + HEADER_LEN + key_len),
                value: log.subrange(pos + HEADER_LEN + key_len, end),
                next: end,
            }
        }
    }
}

/// The record that starts at `pos`, if one does.
pub open spec fn parse_at(log: Seq<u8>, pos: int) -> Parsed {
    parse_given(log, pos, crc32_of(log.subrange(pos + HEADER_LEN, record_end(log, pos))))
}

/// A decoding result, as what it says of the log.
pub open spec fn outcome(r: Result<Option<(KeyValuePair, usize)>, LogError>) -> Parsed {
    match r {
        Ok(Some((kv, next))) => Parsed::Record { key: kv.key@, value: kv.value@, next: next as int },
        Ok(None) => Parsed::End,
        Err(LogError::Corrupt) => Parsed::Corrupt,
        Err(_) => Parsed::Truncated,
    }
}

/// Appends all of `src` to `out`.
pub fn push_all(out: &mut Vec<u8>, src: &[u8])
    ensures
        final(out)@ == old(out)@ + src@,
{
    let mut i: usize = 0;
    while i < src.len()
        invariant
            i <= src@.len(),
            out@ == old(out)@ + src@.subrange(0, i as int),
        decreases src@.len() - i,
    {
        out.push(src[i]);
        i = i + 1;
        assert(out@ =~= old(out)@ + src@.subrange(0, i as int));
    }
    assert(src@.subrange(0, i as int) =~= src@);
}

/// A copy of `data[from..to]`.
pub fn copy_range(data: &[u8], from: usize, to: usize) -> (r: Vec<u8>)
    requires
        from <= to <= data@.len(),
    ensures
        r@ == data@.subrange(from as int, to as int),
{
    let mut out: Vec<u8> = Vec::with_capacity(to - from);
    let mut i: usize = from;
    while i < to
        invariant
            from <= i <= to <= data@.len(),
            out@ == data@.subrange(from as int, i as int),
        decreases to - i,
    {
        out.push(data[i]);
        i = i + 1;
        assert(out@ =~= data@.subrange(from as int, i as int));
    }
    out
}

/// The bytes of the record holding `key` and `value`, as they go to the log.
pub fn encode_record(key: &[u8], value: &[u8]) -> (r: Vec<u8>)
    requires
        key@.len() <= u32::MAX,
        value@.len() <= u32::MAX,
    ensures
        r@ == record_bytes(key@, value@),
{
    let mut payload: Vec<u8> = Vec::new();
    push_all(&mut payload, key);
    push_all(&mut payload, value);
    let checksum = crc32(payload.as_slice());
    let mut out = u32_le_bytes(checksum);
    let key_len = u32_le_bytes(key.len() as u32);
    push_all(&mut out, key_len.as_slice());
    let val_len = u32_le_bytes(value.len() as u32);
    push_all(&mut out, val_len.as_slice());
    push_all(&mut out, payload.as_slice());
    assert(out@ =~= record_bytes(key@, value@));
    out
}

/// Where the payload of the record at `pos` lies, when the log holds all
/// of it.
fn payload_range(log: &[u8], pos: usize) -> (r: Option<(usize, usize)>)
    ensures
        match r {
            Some((start, end)) => 0 <= pos < log@.len() && log@.len() - pos >= HEADER_LEN
                && start == pos + HEADER_LEN && end == record_end(log@, pos as int) && end <= log@.len(),
            None => pos >= log@.len() || log@.len() - pos < HEADER_LEN || record_end(log@, pos as int) > log@.len(),
        },
{
    let len = log.len();
    if pos >= len || len - pos < HEADER_LEN {
        return None;
    }
    let key_len = read_u32_le(log, pos + 4);
    let val_len = read_u32_le(log, pos + 8);
    let start = pos + HEADER_LEN;
    let room = len - start;
    if key_len as usize > room || val_len as usize > room - key_len as usize {
        return None;
    }
    Some((start, start + key_len as usize + val_len as usize))
}

/// Decodes the record that starts at `pos` in `log`, taking `checksum` as
/// the checksum of its payload, with the offset just after it; `None` where
/// `pos` is at or past the end.
pub fn decode_record(log: &[u8], pos: usize, checksum: u32) -> (r: Result<Option<(KeyValuePair, usize)>, LogError>)
    ensures
        outcome(r) == parse_given(log@, pos as int, checksum),
        r is Err ==> r->Err_0 != LogError::NoRecord,
{
    let len = log.len();
    if pos >= len {
        return Ok(None);
    }
    if len - pos < HEADER_LEN {
        return Err(LogError::Truncated);
    }
    let stored = read_u32_le(log, pos);
    let key_len = read_u32_le(log, pos + 4);
    let val_len = read_u32_le(log, pos + 8);
    let start = pos + HEADER_LEN;
    let room = len - start;
    if key_len as usize > room || val_len as usize > room - key_len as usize {
        return Err(LogError::Truncated);
    }
    let mid = start + key_len as usize;
    let end = mid + val_len as usize;
    if checksum != stored {
        return Err(LogError::Corrupt);
    }
    let key = copy_range(log, start, mid);
    let value = copy_range(log, mid, end);
    Ok(Some((KeyValuePair { key, value }, end)))
}

/// Decodes the record that starts at `pos` in `log`, with the offset just
/// after it; `None` where `pos` is at or past the end.
pub fn process_record(log: &[u8], pos: usize) -> (r: Result<Option<(KeyValuePair, usize)>, LogError>)
    ensures
        outcome(r) == parse_at(log@, pos as int),
        r is Err ==> r->Err_0 != LogError::NoRecord,
{
    let checksum = match payload_range(log, pos) {
        Some((start, end)) => {
            let payload = copy_range(log, start, end);
            crc32(payload.as_slice())
        },
        None => 0,
    };
    decode_record(log, pos, checksum)
}

/// The record that `record_bytes` frames decodes back to its key and value.
pub proof fn lemma_decode_encoded(pre: Seq<u8>, key: Seq<u8>, value: Seq<u8>, post: Seq<u8>)
    requires
        key.len() <= u32::MAX,
        value.len() <= u32::MAX,
    ensures
        parse_at(pre + record_bytes(key, value) + post, pre.len() as int) == (Parsed::Record {
            key,
            value,
            next: pre.len() + HEADER_LEN + key.len() + value.len(),
        }),
{
    lemma_auto_spec_u32_to_from_le_bytes();
    let log = pre + record_bytes(key, value) + post;
    let p = pre.len() as int;
    let c = crc32_of(key + value);
    assert(log.subrange(p, p + 4) =~= spec_u32_to_le_bytes(c));
    assert(log.subrange(p + 4, p + 8) =~= spec_u32_to_le_bytes(key.len() as u32));
    assert(log.subrange(p + 8, p + 12) =~= spec_u32_to_le_bytes(value.len() as u32));
    let end = p + 12 + key.len() + value.len();
    assert(log.subrange(p + 12, end) =~= key + value);
    assert(log.subrange(p + 12, p + 12 + key.len()) =~= key);
    assert(log.subrange(p + 12 + key.len(), end) =~= value);
}

/// Bytes appended after a record that lies wholly in the log do not change
/// what is read at its offset.
pub proof fn lemma_parse_extend(log: Seq<u8>, ext: Seq<u8>, pos: int)
    requires
        parse_at(log, pos) is Record || parse_at(log, pos) is Corrupt,
    ensures
        parse_at(log + ext, pos) == parse_at(log, pos),
{
    let big = log + ext;
    assert(big.subrange(pos, pos + 4) =~= log.subrange(pos, pos + 4));
    assert(big.subrange(pos + 4, pos + 8) =~= log.subrange(pos + 4, pos + 8));
    assert(big.subrange(pos + 8, pos + 12) =~= log.subrange(pos + 8, pos + 12));
    let key_len = field(log, pos + 4) as int;
    let end = pos + HEADER_LEN + key_len + field(log, pos + 8) as int;
    assert(big.subrange(pos + 12, end) =~= log.subrange(pos + 12, end));
    assert(big.subrange(pos + 12, pos + 12 + key_len) =~= log.subrange(pos + 12, pos + 12 + key_len));
    assert(big.subrange(pos + 12 + key_len, end) =~= log.subrange(pos + 12 + key_len, end));
}

} // verus!
