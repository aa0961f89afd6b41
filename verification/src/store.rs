//! The store handle: an append-only log of records held as bytes, a read
//! cursor, and the in-memory index from key to offset.
//!
//! The caller owns the transport: it reads the log bytes from wherever they
//! persist, opens a store over them, and writes appended bytes back.  Every
//! operation on the records themselves lives here.

use vstd::prelude::*;

verus! {

use crate::codec::{
    bytes_eq,
    decode_record,
    decode_result,
    encode_record,
    rec_key,
    rec_len,
    rec_valid,
    rec_value,
    record_in_bounds,
    spec_encode,
    HEADER_LEN,
    KeyValeuPair,
    StoreError,
};
use crate::offset_index::OffsetIndex;
use vstd::math::min;

/// A store over an append-only log: the log bytes, the current read
/// position, and the index from key to the offset of its latest record.
pub struct DBKV {
    pub data: Vec<u8>,
    pub pos: usize,
    pub index: OffsetIndex,
}

/// Where a forward scan that starts at `pos` stops: the first position at
/// which no whole, checksum-valid record lies.
pub open spec fn scan_stop(log: Seq<u8>, pos: int) -> int
    decreases log.len() - pos,
{
    if rec_valid(log, pos) {
        scan_stop(log, pos + rec_len(log, pos))
    } else {
        pos
    }
}

/// Whether a forward scan from `pos` ends cleanly: it stops because the
/// bytes run out, not because a whole record fails its checksum.
pub open spec fn scan_clean(log: Seq<u8>, pos: int) -> bool
    decreases log.len() - pos,
{
    if rec_valid(log, pos) {
        scan_clean(log, pos + rec_len(log, pos))
    } else {
        !record_in_bounds(log, pos)
    }
}

/// The index that a replay from `pos` builds on top of `acc`: every record
/// read writes its offset under its key, so a later record for the same key
/// wins.
pub open spec fn scan_map(log: Seq<u8>, pos: int, acc: Map<Seq<u8>, u64>) -> Map<Seq<u8>, u64>
    decreases log.len() - pos,
{
    if rec_valid(log, pos) {
        scan_map(log, pos + rec_len(log, pos), acc.insert(rec_key(log, pos), pos as u64))
    } else {
        acc
    }
}

/// The first record with the given key that a forward scan from `pos`
/// reaches, as its offset and value, if the scan reaches one.
pub open spec fn scan_find(log: Seq<u8>, pos: int, target: Seq<u8>) -> Option<(int, Seq<u8>)>
    decreases log.len() - pos,
{
    if rec_valid(log, pos) {
        if rec_key(log, pos) == target {
            Some((pos, rec_value(log, pos)))
        } else {
            scan_find(log, pos + rec_len(log, pos), target)
        }
    } else {
        None
    }
}

/// Appending bytes to the log leaves every record that already lay wholly
/// within it unchanged.
proof fn lemma_rec_unchanged(log: Seq<u8>, ext: Seq<u8>, pos: int)
    requires
        record_in_bounds(log, pos),
    ensures
        record_in_bounds(log + ext, pos),
        rec_len(log + ext, pos) == rec_len(log, pos),
        rec_key(log + ext, pos) == rec_key(log, pos),
        rec_value(log + ext, pos) == rec_value(log, pos),
        rec_valid(log + ext, pos) == rec_valid(log, pos),
{
    let log2 = log + ext;
    assert(log2.subrange(pos, pos + 4) =~= log.subrange(pos, pos + 4));
    assert(log2.subrange(pos + 4, pos + 8) =~= log.subrange(pos + 4, pos + 8));
    assert(log2.subrange(pos + 8, pos + 12) =~= log.subrange(pos + 8, pos + 12));
    assert(crate::codec::rec_key_len(log2, pos) == crate::codec::rec_key_len(log, pos));
    assert(crate::codec::rec_value_len(log2, pos) == crate::codec::rec_value_len(log, pos));
    assert(rec_key(log2, pos) =~= rec_key(log, pos));
    assert(rec_value(log2, pos) =~= rec_value(log, pos));
    assert(crate::codec::rec_payload(log2, pos) =~= crate::codec::rec_payload(log, pos));
}

/// A replay that reaches the very end of the log, extended by one appended
/// record, reads the same records and then the new one: it stays clean,
/// stops at the new end, and its index gains exactly `key` at the offset
/// where the append began.
pub proof fn lemma_scan_append(
    log: Seq<u8>,
    pos: int,
    acc: Map<Seq<u8>, u64>,
    key: Seq<u8>,
    value: Seq<u8>,
)
    requires
        0 <= pos <= log.len(),
        scan_clean(log, pos),
        scan_stop(log, pos) == log.len(),
        key.len() <= u32::MAX,
        value.len() <= u32::MAX,
        log.len() + HEADER_LEN + key.len() + value.len() <= usize::MAX,
    ensures
        scan_clean(log + spec_encode(key, value), pos),
        scan_stop(log + spec_encode(key, value), pos) == log.len() + spec_encode(
            key,
            value,
        ).len(),
        scan_map(log + spec_encode(key, value), pos, acc) == scan_map(log, pos, acc).insert(
            key,
            log.len() as u64,
        ),
        rec_valid(log + spec_encode(key, value), log.len() as int),
        rec_key(log + spec_encode(key, value), log.len() as int) == key,
        rec_value(log + spec_encode(key, value), log.len() as int) == value,
    decreases log.len() - pos,
{
    let enc = spec_encode(key, value);
    let log2 = log + enc;
    crate::codec::lemma_spec_encode_len(key, value);
    if rec_valid(log, pos) {
        let next = pos + rec_len(log, pos);
        let acc2 = acc.insert(rec_key(log, pos), pos as u64);
        lemma_rec_unchanged(log, enc, pos);
        lemma_scan_append(log, next, acc2, key, value);
        assert(scan_clean(log2, pos) == scan_clean(log2, next));
        assert(scan_stop(log2, pos) == scan_stop(log2, next));
        assert(scan_map(log2, pos, acc) == scan_map(log2, next, acc2));
    } else {
        assert(pos == log.len());
        assert(log2.len() == pos + HEADER_LEN + key.len() + value.len());
        assert(log2.subrange(pos, pos + HEADER_LEN + key.len() + value.len()) =~= enc);
        crate::codec::lemma_record_at(log2, pos, key, value);
        let rl = rec_len(log2, pos);
        assert(pos + rl == log2.len());
        assert(!record_in_bounds(log2, pos + rl));
        assert(!rec_valid(log2, pos + rl));
        assert(scan_clean(log2, pos + rl));
        assert(scan_stop(log2, pos + rl) == pos + rl);
        assert(scan_map(log2, pos + rl, acc.insert(key, pos as u64)) == acc.insert(
            key,
            pos as u64,
        ));
        assert(rec_valid(log2, pos));
        assert(scan_clean(log2, pos));
        assert(scan_stop(log2, pos) == pos + rl);
        assert(acc.insert(rec_key(log2, pos), pos as u64) == acc.insert(key, pos as u64));
        assert(scan_map(log2, pos, acc) == acc.insert(key, pos as u64));
        assert(scan_map(log, pos, acc) == acc);
    }
}

/// Last write wins: append a record for `key` with value `a`, then one with
/// value `b`, to a log whose replay is clean and reaches its end.  The
/// replay of the extended log is clean, its index maps `key` to the second
/// record's offset, and the record at that offset carries `b`.
pub proof fn lemma_last_write_wins(
    log: Seq<u8>,
    acc: Map<Seq<u8>, u64>,
    key: Seq<u8>,
    a: Seq<u8>,
    b: Seq<u8>,
)
    requires
        scan_clean(log, 0),
        scan_stop(log, 0) == log.len(),
        key.len() <= u32::MAX,
        a.len() <= u32::MAX,
        b.len() <= u32::MAX,
        log.len() + 2 * HEADER_LEN + 2 * key.len() + a.len() + b.len() <= usize::MAX,
    ensures
        ({
            let log1 = log + spec_encode(key, a);
            let log2 = log1 + spec_encode(key, b);
            let m = scan_map(log2, 0, acc);
            &&& scan_clean(log2, 0)
            &&& m.contains_key(key)
            &&& m[key] == log1.len() as u64
            &&& rec_valid(log2, log1.len() as int)
            &&& rec_key(log2, log1.len() as int) == key
            &&& rec_value(log2, log1.len() as int) == b
        }),
{
    let log1 = log + spec_encode(key, a);
    crate::codec::lemma_spec_encode_len(key, a);
    crate::codec::lemma_spec_encode_len(key, b);
    lemma_scan_append(log, 0, acc, key, a);
    lemma_scan_append(log1, 0, acc, key, b);
}

/// Offset stability: the record appended at the end of a log decodes back,
/// from exactly that offset, to the key and value that were written,
/// whatever bytes lie before it.
pub proof fn lemma_offset_stability(log: Seq<u8>, key: Seq<u8>, value: Seq<u8>)
    requires
        key.len() <= u32::MAX,
        value.len() <= u32::MAX,
    ensures
        decode_result(log + spec_encode(key, value), log.len() as int) == Ok::<
            (Seq<u8>, Seq<u8>),
            StoreError,
        >((key, value)),
{
    let enc = spec_encode(key, value);
    let log2 = log + enc;
    crate::codec::lemma_spec_encode_len(key, value);
    assert(log2.subrange(log.len() as int, log.len() + HEADER_LEN + key.len() + value.len())
        =~= enc);
    crate::codec::lemma_record_at(log2, log.len() as int, key, value);
}

/// Tombstone semantics: the record a delete appends decodes, at the offset
/// the delete put in the index, to the key with a present value of length
/// zero, not to an absence.
pub proof fn lemma_tombstone(log: Seq<u8>, key: Seq<u8>)
    requires
        key.len() <= u32::MAX,
    ensures
        decode_result(log + spec_encode(key, Seq::<u8>::empty()), log.len() as int) == Ok::<
            (Seq<u8>, Seq<u8>),
            StoreError,
        >((key, Seq::<u8>::empty())),
        rec_value(log + spec_encode(key, Seq::<u8>::empty()), log.len() as int).len() == 0,
{
    lemma_offset_stability(log, key, Seq::<u8>::empty());
}

/// Every entry of the index points at a whole, checksum-valid record whose
/// key is exactly the entry's key.
pub open spec fn index_points_at_records(log: Seq<u8>, m: Map<Seq<u8>, u64>) -> bool {
    forall|k: Seq<u8>|
        #[trigger] m.contains_key(k) ==> rec_valid(log, m[k] as int) && rec_key(log, m[k] as int)
            == k
}

/// A replay only adds entries that point at the records it read: it keeps
/// an index of that shape in that shape.  In particular a rebuild from an
/// empty index leaves every entry pointing at a valid record for its key,
/// so a `get` of any indexed key is owed a success.
pub proof fn lemma_scan_map_records(log: Seq<u8>, pos: int, acc: Map<Seq<u8>, u64>)
    requires
        log.len() <= u64::MAX,
        index_points_at_records(log, acc),
    ensures
        index_points_at_records(log, scan_map(log, pos, acc)),
    decreases log.len() - pos,
{
    if rec_valid(log, pos) {
        let k = rec_key(log, pos);
        let acc2 = acc.insert(k, pos as u64);
        assert(index_points_at_records(log, acc2)) by {
            assert forall|k2: Seq<u8>| #[trigger] acc2.contains_key(k2) implies rec_valid(
                log,
                acc2[k2] as int,
            ) && rec_key(log, acc2[k2] as int) == k2 by {
                if k2 != k {
                    assert(acc.contains_key(k2));
                }
            }
        }
        lemma_scan_map_records(log, pos + rec_len(log, pos), acc2);
    }
}

/// An append keeps the index trustworthy: every old entry still points at
/// its record, which the appended bytes left untouched, and the new entry
/// points at the record just written.
pub proof fn lemma_append_preserves_index(
    log: Seq<u8>,
    m: Map<Seq<u8>, u64>,
    key: Seq<u8>,
    value: Seq<u8>,
)
    requires
        key.len() <= u32::MAX,
        value.len() <= u32::MAX,
        log.len() + HEADER_LEN + key.len() + value.len() <= usize::MAX,
        index_points_at_records(log, m),
    ensures
        index_points_at_records(
            log + spec_encode(key, value),
            m.insert(key, log.len() as u64),
        ),
{
    let enc = spec_encode(key, value);
    let log2 = log + enc;
    let m2 = m.insert(key, log.len() as u64);
    lemma_offset_stability(log, key, value);
    assert forall|k2: Seq<u8>| #[trigger] m2.contains_key(k2) implies rec_valid(
        log2,
        m2[k2] as int,
    ) && rec_key(log2, m2[k2] as int) == k2 by {
        if k2 == key {
            assert(decode_result(log2, log.len() as int) == Ok::<(Seq<u8>, Seq<u8>), StoreError>(
                (key, value),
            ));
        } else {
            assert(m.contains_key(k2));
            lemma_rec_unchanged(log, enc, m[k2] as int);
        }
    }
}

/// A replay threads its accumulator through unchanged: it equals the
/// replay from an empty index, overriding the accumulator.
proof fn lemma_scan_map_acc(log: Seq<u8>, pos: int, acc: Map<Seq<u8>, u64>)
    ensures
        scan_map(log, pos, acc) == acc.union_prefer_right(
            scan_map(log, pos, Map::<Seq<u8>, u64>::empty()),
        ),
    decreases log.len() - pos,
{
    let empty = Map::<Seq<u8>, u64>::empty();
    if rec_valid(log, pos) {
        let k = rec_key(log, pos);
        let next = pos + rec_len(log, pos);
        lemma_scan_map_acc(log, next, acc.insert(k, pos as u64));
        lemma_scan_map_acc(log, next, empty.insert(k, pos as u64));
        let tail = scan_map(log, next, empty);
        assert(acc.insert(k, pos as u64).union_prefer_right(tail) =~= acc.union_prefer_right(
            empty.insert(k, pos as u64).union_prefer_right(tail),
        ));
    } else {
        assert(acc.union_prefer_right(empty) =~= acc);
    }
}

/// Idempotent rebuild: replaying an unchanged log on top of the index that
/// a replay of it already built yields that same index again.
pub proof fn lemma_load_idempotent(log: Seq<u8>, acc: Map<Seq<u8>, u64>)
    ensures
        scan_map(log, 0, scan_map(log, 0, acc)) == scan_map(log, 0, acc),
{
    let empty = Map::<Seq<u8>, u64>::empty();
    lemma_scan_map_acc(log, 0, acc);
    lemma_scan_map_acc(log, 0, scan_map(log, 0, acc));
    assert(acc.union_prefer_right(scan_map(log, 0, empty)).union_prefer_right(
        scan_map(log, 0, empty),
    ) =~= acc.union_prefer_right(scan_map(log, 0, empty)));
}

impl DBKV {
    /// The log bytes the store holds.
    pub open spec fn log(&self) -> Seq<u8> {
        self.data@
    }

    /// The current read position, where the next forward scan starts.
    pub open spec fn cursor(&self) -> int {
        self.pos as int
    }

    /// The index entries hold pairwise distinct keys and the cursor lies
    /// within the log.
    pub open spec fn wf(&self) -> bool {
        self.index.wf() && 0 <= self.cursor() <= self.log().len()
    }

    /// Open a store over the given log bytes, with an empty index and the
    /// cursor at the start.  The index is not rebuilt here: the caller
    /// invokes `load` for that.
    pub fn open(contents: Vec<u8>) -> (store: Self)
        ensures
            store.wf(),
            store.log() == contents@,
            store.cursor() == 0,
            store.index@ == Map::<Seq<u8>, u64>::empty(),
    {
        DBKV { data: contents, pos: 0, index: OffsetIndex::new() }
    }

    /// How many bytes the log holds.
    pub fn file_len(&self) -> (n: u64)
        ensures
            n == self.log().len(),
    {
        self.data.len() as u64
    }

    /// A copy of the log bytes from `from` to the end, for a caller that
    /// persists what an append added.
    pub fn bytes_from(&self, from: u64) -> (out: Vec<u8>)
        requires
            from <= self.log().len(),
        ensures
            out@ == self.log().subrange(from as int, self.log().len() as int),
    {
        let s = vstd::slice::slice_subrange(self.data.as_slice(), from as usize, self.data.len());
        vstd::slice::slice_to_vec(s)
    }

    /// Append one record at the end of the log without touching the index,
    /// and return the offset at which its header begins.
    pub fn insert_but_ignore_index(&mut self, key: &[u8], value: &[u8]) -> (offset: u64)
        requires
            old(self).wf(),
            key@.len() <= u32::MAX,
            value@.len() <= u32::MAX,
            old(self).log().len() + HEADER_LEN + key@.len() + value@.len() <= usize::MAX,
        ensures
            final(self).wf(),
            offset == old(self).log().len(),
            final(self).log() == old(self).log() + spec_encode(key@, value@),
            final(self).cursor() == final(self).log().len(),
            final(self).index == old(self).index,
    {
        let offset = self.data.len();
        let mut rec = encode_record(key, value);
        self.data.append(&mut rec);
        self.pos = self.data.len();
        offset as u64
    }

    /// Append one record and point the index at it: set `index[key]` to the
    /// offset where the record's header begins, and return that offset.
    pub fn insert(&mut self, key: &[u8], value: &[u8]) -> (offset: u64)
        requires
            old(self).wf(),
            key@.len() <= u32::MAX,
            value@.len() <= u32::MAX,
            old(self).log().len() + HEADER_LEN + key@.len() + value@.len() <= usize::MAX,
        ensures
            final(self).wf(),
            offset == old(self).log().len(),
            final(self).log() == old(self).log() + spec_encode(key@, value@),
            final(self).cursor() == final(self).log().len(),
            final(self).index@ == old(self).index@.insert(key@, offset),
    {
        let position = self.insert_but_ignore_index(key, value);
        self.index.insert(key, position);
        position
    }

    /// An update is an insert: the newer record simply lands later in the
    /// log, and the index moves to it.
    pub fn update(&mut self, key: &[u8], value: &[u8]) -> (offset: u64)
        requires
            old(self).wf(),
            key@.len() <= u32::MAX,
            value@.len() <= u32::MAX,
            old(self).log().len() + HEADER_LEN + key@.len() + value@.len() <= usize::MAX,
        ensures
            final(self).wf(),
            offset == old(self).log().len(),
            final(self).log() == old(self).log() + spec_encode(key@, value@),
            final(self).cursor() == final(self).log().len(),
            final(self).index@ == old(self).index@.insert(key@, offset),
    {
        self.insert(key, value)
    }

    /// A delete is an insert of the empty value: a tombstone record.  A
    /// later `get` of the key finds a present, zero-length value, not an
    /// absence.
    pub fn delete(&mut self, key: &[u8]) -> (offset: u64)
        requires
            old(self).wf(),
            key@.len() <= u32::MAX,
            old(self).log().len() + HEADER_LEN + key@.len() <= usize::MAX,
        ensures
            final(self).wf(),
            offset == old(self).log().len(),
            final(self).log() == old(self).log() + spec_encode(key@, Seq::<u8>::empty()),
            final(self).cursor() == final(self).log().len(),
            final(self).index@ == old(self).index@.insert(key@, offset),
    {
        let empty: Vec<u8> = Vec::new();
        self.insert(key, empty.as_slice())
    }

    /// Read the one record whose header begins at `position`, whatever the
    /// index says, and leave the cursor just past it.
    pub fn get_at(&mut self, position: u64) -> (r: Result<KeyValeuPair, StoreError>)
        requires
            old(self).wf(),
        ensures
            final(self).wf(),
            final(self).log() == old(self).log(),
            final(self).index == old(self).index,
            ({
                match (decode_result(old(self).log(), position as int), r) {
                    (Ok(sp), Ok(kv)) => kv.key@ == sp.0 && kv.value@ == sp.1
                        && final(self).cursor() == position + rec_len(
                        old(self).log(),
                        position as int,
                    ),
                    (Err(e1), Err(e2)) => e1 == e2 && final(self).cursor() == min(
                        position as int,
                        old(self).log().len() as int,
                    ),
                    _ => false,
                }
            }),
    {
        let n = self.data.len();
        if position > n as u64 {
            self.pos = n;
            assert(!record_in_bounds(self.data@, position as int));
            return Err(StoreError::TruncatedTail);
        }
        let p = position as usize;
        match decode_record(&self.data, p) {
            Ok((kv, next)) => {
                self.pos = next;
                Ok(kv)
            },
            Err(e) => {
                self.pos = p;
                Err(e)
            },
        }
    }

    /// Consult the index: an absent key is a plain `None`; a present key is
    /// read back from its recorded offset with `get_at`.
    pub fn get(&mut self, key: &[u8]) -> (r: Result<Option<KeyValeuPair>, StoreError>)
        requires
            old(self).wf(),
        ensures
            final(self).wf(),
            final(self).log() == old(self).log(),
            final(self).index == old(self).index,
            !old(self).index@.contains_key(key@) ==> (r matches Ok(o) && o is None
                && final(self).cursor() == old(self).cursor()),
            old(self).index@.contains_key(key@) ==> ({
                let off = old(self).index@[key@] as int;
                match (decode_result(old(self).log(), off), r) {
                    (Ok(sp), Ok(o)) => o matches Some(kv) && kv.key@ == sp.0 && kv.value@ == sp.1
                        && final(self).cursor() == off + rec_len(old(self).log(), off),
                    (Err(e1), Err(e2)) => e1 == e2 && final(self).cursor() == min(
                        off,
                        old(self).log().len() as int,
                    ),
                    _ => false,
                }
            }),
    {
        match self.index.get(key) {
            Some(position) => match self.get_at(position) {
                Ok(kv) => Ok(Some(kv)),
                Err(e) => Err(e),
            },
            None => Ok(None),
        }
    }

    /// Scan forward from the current cursor and return the first record
    /// whose key equals `target`, as its offset and value.  This path
    /// ignores the index, so unlike `get` it sees the first occurrence from
    /// wherever the cursor stands, not the latest write.  Running out of
    /// bytes ends the scan with `None`; a checksum mismatch stops it with
    /// `CorruptRecord`.
    #[verifier::loop_isolation(false)]
    pub fn find(&mut self, target: &[u8]) -> (r: Result<Option<(u64, Vec<u8>)>, StoreError>)
        requires
            old(self).wf(),
        ensures
            final(self).wf(),
            final(self).log() == old(self).log(),
            final(self).index == old(self).index,
            ({
                let log = old(self).log();
                let start = old(self).cursor();
                match scan_find(log, start, target@) {
                    Some(m) => (r matches Ok(f) && f matches Some(p) && p.0 == m.0 && p.1@ == m.1
                        && final(self).cursor() == m.0 + rec_len(log, m.0)),
                    None => if scan_clean(log, start) {
                        (r matches Ok(f) && f is None && final(self).cursor() == scan_stop(
                            log,
                            start,
                        ))
                    } else {
                        (r matches Err(e) && e == StoreError::CorruptRecord
                            && final(self).cursor() == scan_stop(log, start))
                    },
                }
            }),
    {
        let ghost log = self.data@;
        let ghost start = self.pos as int;
        loop
            invariant
                self.wf(),
                self.data@ == log,
                self.index == old(self).index,
                start <= self.pos as int,
                scan_find(log, start, target@) == scan_find(log, self.pos as int, target@),
                scan_clean(log, start) == scan_clean(log, self.pos as int),
                scan_stop(log, start) == scan_stop(log, self.pos as int),
            decreases log.len() - self.pos,
        {
            let p = self.pos;
            match decode_record(&self.data, p) {
                Ok((kv, next)) => {
                    if bytes_eq(kv.key.as_slice(), target) {
                        self.pos = next;
                        return Ok(Some((p as u64, kv.value)));
                    }
                    self.pos = next;
                },
                Err(StoreError::TruncatedTail) => {
                    assert(!record_in_bounds(log, p as int));
                    return Ok(None);
                },
                Err(StoreError::CorruptRecord) => {
                    return Err(StoreError::CorruptRecord);
                },
            }
        }
    }

    /// Rebuild the index by replaying the log from the start: every record
    /// read sets `index[key]` to its offset, so the last write to a key
    /// wins.  Running out of bytes mid-record ends the replay cleanly; a
    /// checksum mismatch fails it with `CorruptRecord`.
    #[verifier::loop_isolation(false)]
    pub fn load(&mut self) -> (r: Result<(), StoreError>)
        requires
            old(self).wf(),
        ensures
            final(self).wf(),
            final(self).log() == old(self).log(),
            final(self).index@ == scan_map(old(self).log(), 0, old(self).index@),
            r is Ok <==> scan_clean(old(self).log(), 0),
            r is Err ==> r == Err::<(), StoreError>(StoreError::CorruptRecord),
            final(self).cursor() == scan_stop(old(self).log(), 0),
            index_points_at_records(old(self).log(), old(self).index@)
                ==> index_points_at_records(final(self).log(), final(self).index@),
    {
        let ghost log = self.data@;
        let n = self.data.len();
        proof {
            assert(log.len() <= n as u64);
            if index_points_at_records(log, self.index@) {
                lemma_scan_map_records(log, 0, self.index@);
            }
        }
        self.pos = 0;
        loop
            invariant
                self.wf(),
                self.data@ == log,
                scan_map(log, 0, old(self).index@) == scan_map(
                    log,
                    self.pos as int,
                    self.index@,
                ),
                scan_clean(log, 0) == scan_clean(log, self.pos as int),
                scan_stop(log, 0) == scan_stop(log, self.pos as int),
            decreases log.len() - self.pos,
        {
            let p = self.pos;
            match decode_record(&self.data, p) {
                Ok((kv, next)) => {
                    self.index.insert(kv.key.as_slice(), p as u64);
                    self.pos = next;
                },
                Err(StoreError::TruncatedTail) => {
                    assert(!record_in_bounds(log, p as int));
                    return Ok(());
                },
                Err(StoreError::CorruptRecord) => {
                    return Err(StoreError::CorruptRecord);
                },
            }
        }
    }
}

} // verus!
