use dbkv::codec::{encode_record, HEADER_LEN};
use dbkv::{OffsetIndex, StoreError, DBKV};

fn fresh() -> DBKV {
    DBKV::open(Vec::new())
}

fn sorted_pairs(index: &OffsetIndex) -> Vec<(Vec<u8>, u64)> {
    let mut pairs = index.pairs();
    pairs.sort();
    pairs
}

#[test]
fn basic_insert_load_get() {
    let mut store = fresh();
    store.insert(b"a", b"1");
    store.insert(b"b", b"22");
    store.load().unwrap();
    assert_eq!(store.get(b"a").unwrap().unwrap().value, b"1");
    assert_eq!(store.get(b"b").unwrap().unwrap().value, b"22");
    assert!(store.get(b"c").unwrap().is_none());
}

#[test]
fn last_write_wins() {
    let mut store = fresh();
    store.insert(b"k", b"A");
    store.insert(b"k", b"B");
    store.load().unwrap();
    assert_eq!(store.get(b"k").unwrap().unwrap().value, b"B");
}

#[test]
fn overwrite_keeps_both_records_in_file() {
    let mut store = fresh();
    let off1 = store.insert(b"x", b"v1");
    let off2 = store.insert(b"x", b"v2");
    store.load().unwrap();
    assert_eq!(store.get(b"x").unwrap().unwrap().value, b"v2");
    let rec_len = (HEADER_LEN + 1 + 2) as u64;
    assert_eq!(off1, 0);
    assert_eq!(off2, rec_len);
    assert_eq!(store.file_len(), 2 * rec_len);
    assert_eq!(store.get_at(off1).unwrap().value, b"v1");
    assert_eq!(store.get_at(off2).unwrap().value, b"v2");
}

#[test]
fn find_returns_first_match_from_start() {
    let mut bytes = encode_record(b"x", b"v1");
    bytes.extend_from_slice(&encode_record(b"x", b"v2"));
    let mut store = DBKV::open(bytes);
    // The cursor starts at offset 0, so the scan sees the older record
    // first, unlike the indexed path, which sees the latest write.
    let (off, value) = store.find(b"x").unwrap().unwrap();
    assert_eq!(off, 0);
    assert_eq!(value, b"v1");
    // The cursor now stands past the first record: the same scan resumed
    // finds the second occurrence.
    let (off2, value2) = store.find(b"x").unwrap().unwrap();
    assert_eq!(off2, (HEADER_LEN + 3) as u64);
    assert_eq!(value2, b"v2");
    store.load().unwrap();
    assert_eq!(store.get(b"x").unwrap().unwrap().value, b"v2");
}

#[test]
fn find_missing_key_is_none() {
    let mut store = fresh();
    store.insert(b"a", b"1");
    let mut store = DBKV::open(store.bytes_from(0));
    assert!(store.find(b"zzz").unwrap().is_none());
}

#[test]
fn tombstone_reads_back_present_and_empty() {
    let mut store = fresh();
    store.insert(b"k", b"value");
    store.delete(b"k");
    store.load().unwrap();
    let kv = store.get(b"k").unwrap().expect("deleted key stays present");
    assert_eq!(kv.key, b"k");
    assert_eq!(kv.value.len(), 0);
}

#[test]
fn delete_equals_insert_of_empty_value() {
    let mut a = fresh();
    a.insert(b"k", b"v");
    a.delete(b"k");
    let mut b = fresh();
    b.insert(b"k", b"v");
    b.insert(b"k", b"");
    assert_eq!(a.bytes_from(0), b.bytes_from(0));
}

#[test]
fn load_twice_yields_same_index() {
    let mut store = fresh();
    store.insert(b"a", b"1");
    store.insert(b"b", b"2");
    store.insert(b"a", b"3");
    store.delete(b"b");
    store.load().unwrap();
    let first = sorted_pairs(&store.index);
    store.load().unwrap();
    let second = sorted_pairs(&store.index);
    assert_eq!(first, second);
}

#[test]
fn insert_offset_rereads_same_record() {
    let mut store = fresh();
    let mut offsets = Vec::new();
    let entries: Vec<(&[u8], &[u8])> =
        vec![(b"one", b"1"), (b"two", b"22"), (b"three", b"333"), (b"two", b"2222")];
    for (k, v) in &entries {
        offsets.push(store.insert(k, v));
    }
    for (i, (k, v)) in entries.iter().enumerate() {
        let kv = store.get_at(offsets[i]).unwrap();
        assert_eq!(&kv.key, k);
        assert_eq!(&kv.value, v);
    }
}

#[test]
fn update_behaves_like_insert() {
    let mut store = fresh();
    store.update(b"fresh", b"v0");
    store.insert(b"fresh", b"v1");
    store.update(b"fresh", b"v2");
    store.load().unwrap();
    assert_eq!(store.get(b"fresh").unwrap().unwrap().value, b"v2");
}

#[test]
fn load_of_empty_log_is_clean_and_empty() {
    let mut store = fresh();
    store.load().unwrap();
    assert!(store.get(b"anything").unwrap().is_none());
    assert_eq!(store.file_len(), 0);
    assert_eq!(store.index.pairs().len(), 0);
}

#[test]
fn load_stops_cleanly_at_truncated_tail() {
    let mut bytes = encode_record(b"good", b"record");
    bytes.extend_from_slice(&encode_record(b"lost", b"tail")[..7]);
    let mut store = DBKV::open(bytes);
    store.load().unwrap();
    assert_eq!(store.get(b"good").unwrap().unwrap().value, b"record");
    assert!(store.get(b"lost").unwrap().is_none());
}

#[test]
fn load_reports_corrupt_record() {
    let mut bytes = encode_record(b"good", b"record");
    let second = encode_record(b"bad", b"record");
    let flip_at = bytes.len() + HEADER_LEN;
    bytes.extend_from_slice(&second);
    bytes[flip_at] ^= 0x01;
    let mut store = DBKV::open(bytes);
    assert_eq!(store.load().unwrap_err(), StoreError::CorruptRecord);
    // The records before the corruption were still indexed.
    assert_eq!(store.get(b"good").unwrap().unwrap().value, b"record");
}

#[test]
fn find_reports_corrupt_record() {
    let mut bytes = encode_record(b"a", b"1");
    bytes[HEADER_LEN] ^= 0x80;
    let mut store = DBKV::open(bytes);
    assert_eq!(store.find(b"a").unwrap_err(), StoreError::CorruptRecord);
}

#[test]
fn get_at_bad_offsets() {
    let mut store = fresh();
    store.insert(b"k", b"v");
    let end = store.file_len();
    assert_eq!(store.get_at(end).unwrap_err(), StoreError::TruncatedTail);
    assert_eq!(store.get_at(end + 1000).unwrap_err(), StoreError::TruncatedTail);
}

#[test]
fn stale_index_offset_still_reads_old_record() {
    // The index is a cache over the log: an offset taken before an
    // overwrite keeps pointing at the older, physically intact record.
    let mut store = fresh();
    let old = store.insert(b"k", b"old");
    store.insert(b"k", b"new");
    assert_eq!(store.get_at(old).unwrap().value, b"old");
    assert_eq!(store.get(b"k").unwrap().unwrap().value, b"new");
}

#[test]
fn index_insert_get_remove() {
    let mut index = OffsetIndex::new();
    assert!(index.get(b"a").is_none());
    index.insert(b"a", 0);
    index.insert(b"b", 17);
    index.insert(b"a", 42);
    assert_eq!(index.get(b"a"), Some(42));
    assert_eq!(index.get(b"b"), Some(17));
    assert_eq!(index.pairs().len(), 2);
    index.remove(b"a");
    assert!(index.get(b"a").is_none());
    assert_eq!(index.get(b"b"), Some(17));
    index.remove(b"missing");
    assert_eq!(index.pairs().len(), 1);
}

#[test]
fn open_then_reopen_from_persisted_bytes() {
    let mut store = fresh();
    store.insert(b"alpha", b"1");
    let before = store.file_len();
    store.insert(b"beta", b"2");
    let appended = store.bytes_from(before);
    // A caller that persisted the first record and then the appended bytes
    // holds exactly the log the store holds.
    let mut file = store.bytes_from(0);
    assert_eq!(&file[before as usize..], &appended[..]);
    let mut reopened = DBKV::open(std::mem::take(&mut file));
    reopened.load().unwrap();
    assert_eq!(reopened.get(b"alpha").unwrap().unwrap().value, b"1");
    assert_eq!(reopened.get(b"beta").unwrap().unwrap().value, b"2");
}
