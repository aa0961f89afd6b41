//! The on-disk record codec.
//!
//! A record is a fixed 12-byte header followed by the payload:
//! a `u32` CRC-32 (IEEE) checksum of the payload, a `u32` key length and a
//! `u32` value length, all little-endian, then the key bytes and the value
//! bytes.  The checksum covers only the payload (key followed by value),
//! never the header.

use vstd::prelude::*;

verus! {

use vstd::bytes::{
    lemma_auto_spec_u32_to_from_le_bytes,
    spec_u32_from_le_bytes,
    spec_u32_to_le_bytes,
    u32_from_le_bytes,
    u32_to_le_bytes,
};
use vstd::slice::{slice_subrange, slice_to_vec};

/// The number of bytes in a record header: checksum, key length, value length.
pub const HEADER_LEN: usize = 12;

/// A key paired with its value, as decoded from one record.
#[derive(Debug)]
pub struct KeyValeuPair {
    pub key: Vec<u8>,
    pub value: Vec<u8>,
}

/// How reading a record can fail.
#[derive(Debug, Clone, Copy, PartialEq, Eq, Structural)]
pub enum StoreError {
    /// The bytes at the read position are too short to hold a whole record.
    /// A forward scan treats this as the clean end of the data.
    TruncatedTail,
    /// A whole record is present but its stored checksum does not match the
    /// checksum of its payload.  Never ignored: every reader reports it.
    CorruptRecord,
}

/// The CRC-32 (IEEE polynomial) checksum of a byte sequence.
pub uninterp spec fn crc32_ieee_of(data: Seq<u8>) -> u32;

/// Relies on `crc::crc32::checksum_ieee`: the checksum depends on the input
/// bytes alone.
#[verifier::external_body]
pub(crate) fn crc32_ieee(data: &[u8]) -> (r: u32)
    ensures
        r == crc32_ieee_of(data@),
{
    crc::crc32::checksum_ieee(data)
}

/// Whether two byte strings hold the same bytes.
pub fn bytes_eq(a: &[u8], b: &[u8]) -> (r: bool)
    ensures
        r == (a@ == b@),
{
    if a.len() != b.len() {
        return false;
    }
    let mut i: usize = 0;
    while i < a.len()
        invariant
            a@.len() == b@.len(),
            i <= a@.len(),
            forall|j: int| 0 <= j < i ==> a@[j] == b@[j],
        decreases a@.len() - i,
    {
        if a[i] != b[i] {
            return false;
        }
        i = i + 1;
    }
    proof {
        assert(a@ =~= b@);
    }
    true
}

/// The encoded form of one record: header, then key, then value.
pub open spec fn spec_encode(key: Seq<u8>, value: Seq<u8>) -> Seq<u8>
    recommends
        key.len() <= u32::MAX,
        value.len() <= u32::MAX,
{
    spec_u32_to_le_bytes(crc32_ieee_of(key + value)) + spec_u32_to_le_bytes(key.len() as u32)
        + spec_u32_to_le_bytes(value.len() as u32) + key + value
}

/// A whole header lies within the log at `pos`.
pub open spec fn header_in_bounds(log: Seq<u8>, pos: int) -> bool {
    0 <= pos && pos + HEADER_LEN <= log.len()
}

/// The stored checksum of the record starting at `pos`.
pub open spec fn rec_checksum(log: Seq<u8>, pos: int) -> u32 {
    spec_u32_from_le_bytes(log.subrange(pos, pos + 4))
}

/// The stored key length of the record starting at `pos`.
pub open spec fn rec_key_len(log: Seq<u8>, pos: int) -> u32 {
    spec_u32_from_le_bytes(log.subrange(pos + 4, pos + 8))
}

/// The stored value length of the record starting at `pos`.
pub open spec fn rec_value_len(log: Seq<u8>, pos: int) -> u32 {
    spec_u32_from_le_bytes(log.subrange(pos + 8, pos + 12))
}

/// The whole length of the record starting at `pos`, header included.
pub open spec fn rec_len(log: Seq<u8>, pos: int) -> int {
    HEADER_LEN + rec_key_len(log, pos) + rec_value_len(log, pos)
}

/// A whole record, payload included, lies within the log at `pos`.
pub open spec fn record_in_bounds(log: Seq<u8>, pos: int) -> bool {
    header_in_bounds(log, pos) && pos + rec_len(log, pos) <= log.len()
}

/// The key bytes of the record starting at `pos`.
pub open spec fn rec_key(log: Seq<u8>, pos: int) -> Seq<u8> {
    log.subrange(pos + HEADER_LEN, pos + HEADER_LEN + rec_key_len(log, pos))
}

/// The value bytes of the record starting at `pos`.
pub open spec fn rec_value(log: Seq<u8>, pos: int) -> Seq<u8> {
    log.subrange(pos + HEADER_LEN + rec_key_len(log, pos), pos + rec_len(log, pos))
}

/// The payload of the record starting at `pos`: key bytes then value bytes.
pub open spec fn rec_payload(log: Seq<u8>, pos: int) -> Seq<u8> {
    log.subrange(pos + HEADER_LEN, pos + rec_len(log, pos))
}

/// The stored checksum matches the checksum of the payload.
pub open spec fn rec_checksum_ok(log: Seq<u8>, pos: int) -> bool {
    rec_checksum(log, pos) == crc32_ieee_of(rec_payload(log, pos))
}

/// A whole record lies at `pos` and its checksum matches.
pub open spec fn rec_valid(log: Seq<u8>, pos: int) -> bool {
    record_in_bounds(log, pos) && rec_checksum_ok(log, pos)
}

/// What decoding one record at `pos` yields: the key and value on success,
/// `TruncatedTail` where the bytes run out first, `CorruptRecord` where a
/// whole record is present but its checksum does not match.
pub open spec fn decode_result(log: Seq<u8>, pos: int) -> Result<(Seq<u8>, Seq<u8>), StoreError> {
    if !record_in_bounds(log, pos) {
        Err(StoreError::TruncatedTail)
    } else if !rec_checksum_ok(log, pos) {
        Err(StoreError::CorruptRecord)
    } else {
        Ok((rec_key(log, pos), rec_value(log, pos)))
    }
}

/// An encoded record is 12 bytes of header plus the payload.
pub proof fn lemma_spec_encode_len(key: Seq<u8>, value: Seq<u8>)
    ensures
        spec_encode(key, value).len() == HEADER_LEN + key.len() + value.len(),
{
    lemma_auto_spec_u32_to_from_le_bytes();
}

/// Serialize one record: checksum of `key ++ value`, the two lengths, then
/// the payload itself.
pub fn encode_record(key: &[u8], value: &[u8]) -> (out: Vec<u8>)
    requires
        key@.len() <= u32::MAX,
        value@.len() <= u32::MAX,
        key@.len() + value@.len() + HEADER_LEN <= usize::MAX,
    ensures
        out@ == spec_encode(key@, value@),
        out@.len() == HEADER_LEN + key@.len() + value@.len(),
{
    proof {
        lemma_auto_spec_u32_to_from_le_bytes();
    }
    let mut payload: Vec<u8> = Vec::new();
    let mut i: usize = 0;
    while i < key.len()
        invariant
            i <= key@.len(),
            payload@ == key@.subrange(0, i as int),
        decreases key@.len() - i,
    {
        payload.push(key[i]);
        i = i + 1;
        proof {
            assert(payload@ =~= key@.subrange(0, i as int));
        }
    }
    proof {
        assert(payload@ =~= key@);
    }
    let mut j: usize = 0;
    while j < value.len()
        invariant
            j <= value@.len(),
            payload@ == key@ + value@.subrange(0, j as int),
        decreases value@.len() - j,
    {
        payload.push(value[j]);
        j = j + 1;
        proof {
            assert(payload@ =~= key@ + value@.subrange(0, j as int));
        }
    }
    proof {
        assert(payload@ =~= key@ + value@);
    }
    let checksum = crc32_ieee(payload.as_slice());
    let mut out = u32_to_le_bytes(checksum);
    let mut key_len_bytes = u32_to_le_bytes(key.len() as u32);
    out.append(&mut key_len_bytes);
    let mut value_len_bytes = u32_to_le_bytes(value.len() as u32);
    out.append(&mut value_len_bytes);
    out.append(&mut payload);
    proof {
        assert(out@ =~= spec_encode(key@, value@));
    }
    out
}

/// Decode the record that starts at `pos`, returning the pair and the
/// position just past the record.  Reports exactly what `decode_result`
/// says of the bytes.
pub fn decode_record(log: &Vec<u8>, pos: usize) -> (r: Result<(KeyValeuPair, usize), StoreError>)
    ensures
        ({
            match (decode_result(log@, pos as int), r) {
                (Ok(sp), Ok(ex)) => ex.0.key@ == sp.0 && ex.0.value@ == sp.1 && ex.1 == pos
                    + rec_len(log@, pos as int),
                (Err(e1), Err(e2)) => e1 == e2,
                _ => false,
            }
        }),
{
    let n = log.len();
    if pos > n || n - pos < HEADER_LEN {
        assert(!header_in_bounds(log@, pos as int));
        return Err(StoreError::TruncatedTail);
    }
    let b = log.as_slice();
    let checksum = u32_from_le_bytes(slice_subrange(b, pos, pos + 4));
    let key_len = u32_from_le_bytes(slice_subrange(b, pos + 4, pos + 8));
    let value_len = u32_from_le_bytes(slice_subrange(b, pos + 8, pos + 12));
    assert(checksum == rec_checksum(log@, pos as int));
    assert(key_len == rec_key_len(log@, pos as int));
    assert(value_len == rec_value_len(log@, pos as int));
    let data_len: u64 = key_len as u64 + value_len as u64;
    let avail: u64 = (n - (pos + HEADER_LEN)) as u64;
    if avail < data_len {
        assert(!record_in_bounds(log@, pos as int));
        return Err(StoreError::TruncatedTail);
    }
    assert(record_in_bounds(log@, pos as int));
    let key_len_us = key_len as usize;
    let data_len_us = data_len as usize;
    let payload = slice_subrange(b, pos + HEADER_LEN, pos + HEADER_LEN + data_len_us);
    assert(payload@ == rec_payload(log@, pos as int));
    let computed = crc32_ieee(payload);
    if computed != checksum {
        assert(!rec_checksum_ok(log@, pos as int));
        return Err(StoreError::CorruptRecord);
    }
    let key = slice_to_vec(slice_subrange(payload, 0, key_len_us));
    let value = slice_to_vec(slice_subrange(payload, key_len_us, data_len_us));
    proof {
        assert(key@ =~= rec_key(log@, pos as int));
        assert(value@ =~= rec_value(log@, pos as int));
    }
    Ok((KeyValeuPair { key, value }, pos + HEADER_LEN + data_len_us))
}

/// The bytes `spec_encode(key, value)` written at `pos` form a valid record
/// there, and reading it back gives the key and value unchanged.
pub proof fn lemma_record_at(log: Seq<u8>, pos: int, key: Seq<u8>, value: Seq<u8>)
    requires
        0 <= pos,
        key.len() <= u32::MAX,
        value.len() <= u32::MAX,
        pos + HEADER_LEN + key.len() + value.len() <= log.len(),
        log.subrange(pos, pos + HEADER_LEN + key.len() + value.len()) == spec_encode(key, value),
    ensures
        rec_valid(log, pos),
        rec_key_len(log, pos) == key.len(),
        rec_value_len(log, pos) == value.len(),
        rec_len(log, pos) == HEADER_LEN + key.len() + value.len(),
        rec_key(log, pos) == key,
        rec_value(log, pos) == value,
        decode_result(log, pos) == Ok::<(Seq<u8>, Seq<u8>), StoreError>((key, value)),
{
    lemma_auto_spec_u32_to_from_le_bytes();
    let enc = spec_encode(key, value);
    let cs = spec_u32_to_le_bytes(crc32_ieee_of(key + value));
    let kl = spec_u32_to_le_bytes(key.len() as u32);
    let vl = spec_u32_to_le_bytes(value.len() as u32);
    let klen = key.len() as int;
    let vlen = value.len() as int;
    let total = HEADER_LEN + klen + vlen;
    assert(enc == cs + kl + vl + key + value);
    let sub = log.subrange(pos, pos + total);
    assert(log.subrange(pos, pos + 4) =~= cs) by {
        assert forall|i: int| 0 <= i < 4 implies log.subrange(pos, pos + 4)[i] == cs[i] by {
            assert(sub[i] == cs[i]);
        }
    }
    assert(log.subrange(pos + 4, pos + 8) =~= kl) by {
        assert forall|i: int| 0 <= i < 4 implies log.subrange(pos + 4, pos + 8)[i] == kl[i] by {
            assert(sub[i + 4] == kl[i]);
        }
    }
    assert(log.subrange(pos + 8, pos + 12) =~= vl) by {
        assert forall|i: int| 0 <= i < 4 implies log.subrange(pos + 8, pos + 12)[i] == vl[i] by {
            assert(sub[i + 8] == vl[i]);
        }
    }
    assert(rec_checksum(log, pos) == crc32_ieee_of(key + value));
    assert(rec_key_len(log, pos) == key.len());
    assert(rec_value_len(log, pos) == value.len());
    assert(rec_key(log, pos) =~= key) by {
        assert forall|i: int| 0 <= i < klen implies log.subrange(
            pos + HEADER_LEN,
            pos + HEADER_LEN + klen,
        )[i] == key[i] by {
            assert(sub[i + HEADER_LEN] == key[i]);
        }
    }
    assert(rec_value(log, pos) =~= value) by {
        assert forall|i: int| 0 <= i < vlen implies log.subrange(
            pos + HEADER_LEN + klen,
            pos + HEADER_LEN + klen + vlen,
        )[i] == value[i] by {
            assert(sub[i + HEADER_LEN + klen] == value[i]);
        }
    }
    assert(rec_payload(log, pos) =~= key + value) by {
        assert forall|i: int| 0 <= i < klen + vlen implies log.subrange(
            pos + HEADER_LEN,
            pos + total,
        )[i] == (key + value)[i] by {
            assert(sub[i + HEADER_LEN] == (key + value)[i]);
        }
    }
}

/// Round trip: decoding an encoded record yields the key and the value that
/// went in.
pub proof fn lemma_encode_decode_roundtrip(key: Seq<u8>, value: Seq<u8>)
    requires
        key.len() <= u32::MAX,
        value.len() <= u32::MAX,
    ensures
        decode_result(spec_encode(key, value), 0) == Ok::<(Seq<u8>, Seq<u8>), StoreError>(
            (key, value),
        ),
{
    lemma_spec_encode_len(key, value);
    let log = spec_encode(key, value);
    assert(log.subrange(0, log.len() as int) =~= log);
    lemma_record_at(log, 0, key, value);
}

/// A checksum mismatch is never passed over: where a whole record is present
/// but its stored checksum differs from the checksum of its payload, decoding
/// reports `CorruptRecord`.
pub proof fn lemma_checksum_mismatch_detected(log: Seq<u8>, pos: int)
    requires
        record_in_bounds(log, pos),
        rec_checksum(log, pos) != crc32_ieee_of(rec_payload(log, pos)),
    ensures
        decode_result(log, pos) == Err::<(Seq<u8>, Seq<u8>), StoreError>(StoreError::CorruptRecord),
{
}

} // verus!
