use sp_core::storage::ChildInfo;
use substrate_runtime_fuzzer::compact::append_to_storage_vec;
use substrate_runtime_fuzzer::roundtrip::{is_blocklisted, reencoding_matches};
use substrate_runtime_fuzzer::{
    merge_top_into_base, ByteMap, Data, ExtrinsicFilter, FuzzingExternalities, Storage,
    StorageChild, MAX_BLOCK_LAPSE,
};

fn chunks_of(input: &[u8]) -> Vec<Vec<u8>> {
    let mut data = Data::from_data(input);
    let mut out = Vec::new();
    while let Some(chunk) = data.next() {
        out.push(chunk.to_vec());
    }
    out
}

#[test]
fn chunks_split_on_delimiter() {
    assert_eq!(chunks_of(b"abc********def"), vec![b"abc".to_vec(), b"def".to_vec()]);
    assert_eq!(chunks_of(b"abc********"), vec![b"abc".to_vec()]);
    assert_eq!(chunks_of(b"********abc"), vec![b"".to_vec(), b"abc".to_vec()]);
    assert_eq!(chunks_of(b"a*******b"), vec![b"a*******b".to_vec()]);
    assert_eq!(chunks_of(b"a*********b"), vec![b"a".to_vec(), b"*b".to_vec()]);
    assert!(chunks_of(b"").is_empty());
}

#[test]
fn chunks_stop_at_size_limit() {
    let mut input = Vec::new();
    for i in 0..20u8 {
        input.push(i);
        input.extend_from_slice(b"********");
    }
    let chunks = chunks_of(&input);
    assert_eq!(chunks.len(), 16);
    assert_eq!(chunks[15], vec![15u8]);
    let mut data = Data::from_data(&input);
    for _ in 0..16 {
        assert!(!data.size_limit_reached());
        assert!(data.next().is_some());
    }
    assert!(data.size_limit_reached());
    assert!(data.next().is_none());
}

fn chunk(lapse: u32, origin: u16, payload: &[u8]) -> Vec<u8> {
    let mut c = lapse.to_ne_bytes().to_vec();
    c.extend_from_slice(&origin.to_ne_bytes());
    c.extend_from_slice(payload);
    c
}

#[test]
fn filter_reads_headers() {
    let f = ExtrinsicFilter::new();
    let c = chunk(7, 3, &[0xAA, 0xBB]);
    let (lapse, origin, payload) = f.before_decode(&c).unwrap();
    assert_eq!(lapse, Some(7));
    assert_eq!(origin, 3);
    assert_eq!(payload, &[0xAA, 0xBB]);
    // A lapse of 0, or above the maximum, does not start a block.
    let c = chunk(0, 258, &[1]);
    assert_eq!(f.before_decode(&c).map(|h| (h.0, h.1)), Some((None, 258)));
    let c = chunk(MAX_BLOCK_LAPSE + 1, 1, &[1]);
    assert_eq!(f.before_decode(&c).map(|h| h.0), Some(None));
    let c = chunk(MAX_BLOCK_LAPSE, 1, &[1]);
    assert_eq!(f.before_decode(&c).map(|h| h.0), Some(Some(MAX_BLOCK_LAPSE)));
    // Six bytes hold no extrinsic.
    assert!(f.before_decode(&chunk(1, 1, &[])).is_none());
}

#[test]
fn filter_limits_blocks_and_extrinsics() {
    let mut f = ExtrinsicFilter::new();
    let plain = chunk(0, 0, &[1]);
    let lapse = chunk(1, 0, &[1]);
    // Four extrinsics fit in the first block, a fifth does not.
    for _ in 0..4 {
        assert!(f.before_decode(&plain).is_some());
        assert!(f.after_decode(None));
    }
    assert!(f.before_decode(&plain).is_none());
    // A lapse opens a new block.
    assert!(f.before_decode(&lapse).is_some());
    assert!(f.after_decode(Some(1)));
    assert!(f.before_decode(&plain).is_some());
    assert!(f.after_decode(Some(1)));
    assert!(f.after_decode(Some(1)));
    // The fourth block is decoded but not kept, and nothing after it is.
    assert!(!f.after_decode(Some(1)));
    assert!(f.before_decode(&lapse).is_none());
    assert!(f.before_decode(&plain).is_none());
}

fn input_of(chunks: &[Vec<u8>]) -> Vec<u8> {
    let mut input = Vec::new();
    for (i, c) in chunks.iter().enumerate() {
        if i > 0 {
            input.extend_from_slice(b"********");
        }
        input.extend_from_slice(c);
    }
    input
}

/// A stand-in decoder: the first payload byte, refusing a leading zero.
fn first_byte(payload: &[u8]) -> Option<u8> {
    match payload.first() {
        Some(0) | None => None,
        Some(b) => Some(*b),
    }
}

#[test]
fn extraction_keeps_headers_and_decoded_values() {
    let input = input_of(&[chunk(0, 5, &[10]), chunk(3, 9, &[11, 99]), chunk(0, 2, &[12])]);
    let mut data = Data::from_data(&input);
    let extrinsics = data.extract_extrinsics(first_byte);
    assert_eq!(extrinsics, vec![(None, 5, 10u8), (Some(3), 9, 11), (None, 2, 12)]);
    assert!(data.next().is_none());
}

#[test]
fn extraction_skips_short_and_undecodable_chunks() {
    let input = input_of(&[
        chunk(0, 1, &[]),
        chunk(0, 1, &[0]),
        b"xyz".to_vec(),
        chunk(0, 4, &[8]),
    ]);
    let mut data = Data::from_data(&input);
    assert_eq!(data.extract_extrinsics(first_byte), vec![(None, 4, 8u8)]);
}

#[test]
fn extraction_limits_extrinsics_per_block() {
    // Six extrinsics without a lapse: only four fit in the block; a lapse
    // then opens a new one.
    let mut chunks: Vec<Vec<u8>> = (1..=6u8).map(|i| chunk(0, 0, &[i])).collect();
    chunks.push(chunk(2, 0, &[7]));
    let input = input_of(&chunks);
    let mut data = Data::from_data(&input);
    let kept: Vec<u8> = data.extract_extrinsics(first_byte).into_iter().map(|e| e.2).collect();
    assert_eq!(kept, vec![1, 2, 3, 4, 7]);
}

#[test]
fn extraction_stops_at_block_limit() {
    // The fourth lapse reaches the block limit: it and everything after it
    // are dropped.
    let chunks: Vec<Vec<u8>> = (1..=6u8).map(|i| chunk(1, 0, &[i])).collect();
    let input = input_of(&chunks);
    let mut data = Data::from_data(&input);
    let kept: Vec<u8> = data.extract_extrinsics(first_byte).into_iter().map(|e| e.2).collect();
    assert_eq!(kept, vec![1, 2, 3]);
}

#[test]
fn append_grows_prefix_width() {
    // 63 elements fit a one-byte prefix; the 64th needs two bytes.
    let mut v = vec![63 << 2];
    v.extend(std::iter::repeat(7u8).take(63));
    append_to_storage_vec(&mut v, &[9]);
    assert_eq!(&v[..2], &[0x01, 0x01]);
    assert_eq!(v.len(), 2 + 63 + 1);
    assert_eq!(v[2], 7);
    assert_eq!(*v.last().unwrap(), 9);
}

#[test]
fn append_in_place_two_byte_prefix() {
    // 64 elements: prefix 0x0101; one more keeps the width.
    let mut v = vec![0x01, 0x01, 5];
    append_to_storage_vec(&mut v, &[6, 6]);
    assert_eq!(v, vec![0x05, 0x01, 5, 6, 6]);
}

#[test]
fn append_resets_unreadable_value() {
    let mut v = vec![0x01];
    append_to_storage_vec(&mut v, &[0xEE]);
    assert_eq!(v, vec![4, 0xEE]);
    let mut v = vec![0x05, 0x00];
    append_to_storage_vec(&mut v, &[0xEE]);
    assert_eq!(v, vec![4, 0xEE]);
    let mut v = Vec::new();
    append_to_storage_vec(&mut v, &[1, 2]);
    assert_eq!(v, vec![4, 1, 2]);
}

#[test]
fn append_saturates_at_max_count() {
    let mut v = vec![3, 0xFF, 0xFF, 0xFF, 0xFF, 1];
    append_to_storage_vec(&mut v, &[2]);
    assert_eq!(v, vec![3, 0xFF, 0xFF, 0xFF, 0xFF, 1, 2]);
    // 2^30 - 1 elements (four-byte prefix) grow into the five-byte form.
    let mut v = vec![0xFE, 0xFF, 0xFF, 0xFF];
    append_to_storage_vec(&mut v, &[]);
    assert_eq!(v, vec![3, 0x00, 0x00, 0x00, 0x40]);
}

#[test]
fn hashes_and_roots_are_dummy() {
    let mut e = FuzzingExternalities::default();
    assert_eq!(e.storage_hash(b"k"), None);
    e.place_storage(b"k".to_vec(), Some(b"v".to_vec()));
    assert_eq!(e.storage_hash(b"k"), Some(vec![0u8; 32]));
    assert_eq!(e.storage_root(), vec![0u8; 32]);
    let info = ChildInfo::new_default(b"c");
    assert_eq!(e.child_storage_hash(info.storage_key(), b"k"), None);
    e.place_child_storage(info.storage_key(), b"k".to_vec(), Some(vec![]));
    assert_eq!(e.child_storage_hash(info.storage_key(), b"k"), Some(vec![0u8; 32]));
    assert_eq!(e.child_storage_root(info.storage_key()), vec![0u8; 32]);
}

#[test]
fn child_prefixed_keys_are_not_placed() {
    let mut e = FuzzingExternalities::default();
    e.place_storage(b":child_storage:default:x".to_vec(), Some(b"v".to_vec()));
    assert_eq!(e.storage(b":child_storage:default:x"), None);
    e.place_storage(b":child_storag".to_vec(), Some(b"v".to_vec()));
    assert_eq!(e.storage(b":child_storag"), Some(b"v".to_vec()));
    let r = e.clear_prefix(b":child_storage:", None, None);
    assert_eq!(r.maybe_cursor, Some(b":child_storage:".to_vec()));
    assert_eq!((r.backend, r.unique, r.loops), (0, 0, 0));
}

#[test]
fn next_key_orders_prefixes_first() {
    let mut e = FuzzingExternalities::default();
    e.place_storage(b"b".to_vec(), Some(vec![]));
    e.storage_start_transaction();
    e.place_storage(b"ab".to_vec(), Some(vec![]));
    e.place_storage(b"a".to_vec(), Some(vec![]));
    assert_eq!(e.next_storage_key(b""), Some(b"a".to_vec()));
    assert_eq!(e.next_storage_key(b"a"), Some(b"ab".to_vec()));
    assert_eq!(e.next_storage_key(b"aa"), Some(b"ab".to_vec()));
    assert_eq!(e.next_storage_key(b"ab"), Some(b"b".to_vec()));
    assert_eq!(e.next_storage_key(b"b"), None);
}

#[test]
fn child_keys_next_clear_and_kill() {
    let mut e = FuzzingExternalities::default();
    let info = ChildInfo::new_default(b"child1");
    let sk = info.storage_key();
    e.place_child_storage(sk, b"a1".to_vec(), Some(b"1".to_vec()));
    e.place_child_storage(sk, b"a2".to_vec(), Some(b"2".to_vec()));
    e.place_child_storage(sk, b"b1".to_vec(), Some(b"3".to_vec()));
    e.storage_start_transaction();
    assert_eq!(e.next_child_storage_key(sk, b"a1"), Some(b"a2".to_vec()));
    let r = e.clear_child_prefix(sk, b"a", None, None);
    assert_eq!(r.backend, 2);
    assert_eq!(r.maybe_cursor, None);
    assert_eq!(e.next_child_storage_key(sk, b""), Some(b"b1".to_vec()));
    e.place_child_storage(sk, b"c1".to_vec(), Some(b"4".to_vec()));
    let r = e.kill_child_storage(sk, None, None);
    assert_eq!(r.backend, 2);
    assert_eq!(e.next_child_storage_key(sk, b""), None);
    e.place_child_storage(sk, b"d1".to_vec(), Some(b"5".to_vec()));
    assert_eq!(e.next_child_storage_key(sk, b""), Some(b"d1".to_vec()));
    let r = e.kill_child_storage(sk, None, None);
    assert_eq!(r.backend, 1);
    e.storage_rollback_transaction().unwrap();
    assert_eq!(e.child_storage(sk, b"a1"), Some(b"1".to_vec()));
    assert_eq!(e.child_storage(sk, b"c1"), None);
    let r = e.kill_child_storage(sk, None, None);
    assert_eq!(r.backend, 3);
    assert_eq!(e.child_storage(sk, b"b1"), None);
}

#[test]
fn commit_keeps_every_read() {
    let mut e = FuzzingExternalities::default();
    let info = ChildInfo::new_default(b"c");
    let sk = info.storage_key();
    e.place_storage(b"a".to_vec(), Some(b"1".to_vec()));
    e.place_storage(b"b".to_vec(), Some(b"2".to_vec()));
    e.place_child_storage(sk, b"x".to_vec(), Some(b"x".to_vec()));
    e.storage_start_transaction();
    e.place_storage(b"a".to_vec(), None);
    e.place_storage(b"c".to_vec(), Some(b"3".to_vec()));
    e.storage_start_transaction();
    e.place_storage(b"b".to_vec(), Some(b"22".to_vec()));
    let _ = e.kill_child_storage(sk, None, None);
    e.place_child_storage(sk, b"y".to_vec(), Some(b"y".to_vec()));
    let reads = |e: &FuzzingExternalities| {
        (
            e.storage(b"a"),
            e.storage(b"b"),
            e.storage(b"c"),
            e.child_storage(sk, b"x"),
            e.child_storage(sk, b"y"),
        )
    };
    let before = reads(&e);
    e.storage_commit_transaction().unwrap();
    assert_eq!(reads(&e), before);
    e.storage_commit_transaction().unwrap();
    assert_eq!(reads(&e), before);
    assert_eq!(e.transaction_depth(), 0);
    assert_eq!(before, (None, Some(b"22".to_vec()), Some(b"3".to_vec()), None, Some(b"y".to_vec())));
}

#[test]
fn rollback_undoes_every_operation() {
    let mut e = FuzzingExternalities::default();
    let info = ChildInfo::new_default(b"c");
    let sk = info.storage_key();
    e.place_storage(b"p1".to_vec(), Some(b"1".to_vec()));
    e.place_child_storage(sk, b"x".to_vec(), Some(b"x".to_vec()));
    e.storage_append(b"v".to_vec(), vec![1]);
    e.storage_start_transaction();
    e.place_storage(b"p2".to_vec(), Some(b"2".to_vec()));
    let _ = e.clear_prefix(b"p", None, None);
    e.storage_append(b"v".to_vec(), vec![2]);
    let _ = e.kill_child_storage(sk, None, None);
    let _ = e.clear_child_prefix(sk, b"", None, None);
    e.storage_rollback_transaction().unwrap();
    assert_eq!(e.storage(b"p1"), Some(b"1".to_vec()));
    assert_eq!(e.storage(b"p2"), None);
    assert_eq!(e.storage(b"v"), Some(vec![4, 1]));
    assert_eq!(e.child_storage(sk, b"x"), Some(b"x".to_vec()));
}

#[test]
fn new_and_into_storage_keep_contents() {
    let mut top = ByteMap::new();
    top.insert(b"a".to_vec(), b"1".to_vec());
    let mut data = ByteMap::new();
    data.insert(b"k".to_vec(), b"v".to_vec());
    let mut children_default = ByteMap::new();
    children_default.insert(b"c".to_vec(), StorageChild { data, child_info: b"c".to_vec() });
    let mut e = FuzzingExternalities::new(Storage { top, children_default });
    assert_eq!(e.storage(b"a"), Some(b"1".to_vec()));
    assert_eq!(e.child_storage(b"c", b"k"), Some(b"v".to_vec()));
    e.storage_start_transaction();
    let _ = e.kill_child_storage(b"c", None, None);
    e.place_child_storage(b"d", b"k".to_vec(), Some(b"w".to_vec()));
    let storage = e.into_storage();
    assert!(storage.children_default.get(b"c").is_none());
    let d = storage.children_default.get(b"d").unwrap();
    assert_eq!(d.data.get(b"k"), Some(&b"w".to_vec()));
    assert_eq!(d.child_info, b"d".to_vec());
    assert_eq!(storage.top.get(b"a"), Some(&b"1".to_vec()));
}

#[test]
fn merge_top_applies_writes_and_deletes() {
    let mut base = ByteMap::new();
    base.insert(b"a".to_vec(), b"1".to_vec());
    base.insert(b"b".to_vec(), b"2".to_vec());
    let mut overlay = ByteMap::new();
    overlay.insert(b"a".to_vec(), None);
    overlay.insert(b"c".to_vec(), Some(b"3".to_vec()));
    merge_top_into_base(&mut base, overlay);
    assert_eq!(base.get(b"a"), None);
    assert_eq!(base.get(b"b"), Some(&b"2".to_vec()));
    assert_eq!(base.get(b"c"), Some(&b"3".to_vec()));
    assert_eq!(base.len(), 2);
}

#[test]
fn blocklist_matches_adjacent_pairs() {
    let blocklist = [[0x01, 0x00], [0xff, 0x07]];
    assert!(is_blocklisted(&blocklist, &[5, 1, 0, 9]));
    assert!(is_blocklisted(&blocklist, &[0xff, 0x07]));
    assert!(!is_blocklisted(&blocklist, &[1, 5, 0]));
    assert!(!is_blocklisted(&blocklist, &[1]));
    assert!(!is_blocklisted(&[], &[1, 0]));
}

#[test]
fn reencoding_compares_consumed_prefix() {
    assert!(reencoding_matches(&[1, 2, 3, 4], 2, &[1, 2]));
    assert!(!reencoding_matches(&[1, 2, 3, 4], 1, &[1, 2]));
    assert!(reencoding_matches(&[1, 2], 2, &[]));
}

type Snapshot = (
    std::collections::BTreeMap<Vec<u8>, Vec<u8>>,
    std::collections::BTreeMap<Vec<u8>, (Vec<u8>, std::collections::BTreeMap<Vec<u8>, Vec<u8>>)>,
);

fn snapshot(storage: Storage) -> Snapshot {
    let top = storage.top.entries.into_iter().collect();
    let children = storage
        .children_default
        .entries
        .into_iter()
        .map(|(k, c)| (k, (c.child_info, c.data.entries.into_iter().collect())))
        .collect();
    (top, children)
}

fn layered_store() -> FuzzingExternalities {
    let mut e = FuzzingExternalities::default();
    e.place_storage(b"a".to_vec(), Some(b"1".to_vec()));
    e.place_child_storage(b"c", b"k".to_vec(), Some(b"v".to_vec()));
    e.storage_start_transaction();
    e.place_child_storage(b"c", b"j".to_vec(), Some(b"w".to_vec()));
    e.storage_append(b"l".to_vec(), vec![9]);
    e.storage_start_transaction();
    let _ = e.kill_child_storage(b"c", None, None);
    e.place_child_storage(b"c", b"m".to_vec(), Some(b"x".to_vec()));
    e.place_storage(b"a".to_vec(), None);
    e.storage_start_transaction();
    e.place_child_storage(b"d", b"k".to_vec(), None);
    e
}

#[test]
fn into_storage_as_if_every_transaction_committed() {
    let flushed = snapshot(layered_store().into_storage());
    let mut committed = layered_store();
    while committed.transaction_depth() > 0 {
        committed.storage_commit_transaction().unwrap();
    }
    assert_eq!(committed.transaction_depth(), 0);
    let committed = snapshot(committed.into_storage());
    assert_eq!(flushed, committed);
    assert!(flushed.0.get(b"a".as_slice()).is_none());
    let c = flushed.1.get(b"c".as_slice()).unwrap();
    assert_eq!(c.1.len(), 1);
    assert_eq!(c.1.get(b"m".as_slice()), Some(&b"x".to_vec()));
    // A child touched only by a deletion still exists, empty.
    assert!(flushed.1.get(b"d".as_slice()).unwrap().1.is_empty());
}

#[test]
fn rollback_undoes_nested_transactions() {
    let mut e = FuzzingExternalities::default();
    e.place_storage(b"a".to_vec(), Some(b"1".to_vec()));
    e.place_child_storage(b"c", b"k".to_vec(), Some(b"v".to_vec()));
    e.storage_start_transaction();
    e.storage_start_transaction();
    e.place_storage(b"a".to_vec(), Some(b"2".to_vec()));
    let _ = e.kill_child_storage(b"c", None, None);
    e.storage_commit_transaction().unwrap();
    e.storage_start_transaction();
    e.place_storage(b"b".to_vec(), Some(b"3".to_vec()));
    e.storage_rollback_transaction().unwrap();
    e.storage_append(b"l".to_vec(), vec![1]);
    assert_eq!(e.storage(b"a"), Some(b"2".to_vec()));
    assert_eq!(e.child_storage(b"c", b"k"), None);
    e.storage_rollback_transaction().unwrap();
    assert_eq!(e.transaction_depth(), 0);
    assert_eq!(e.storage(b"a"), Some(b"1".to_vec()));
    assert_eq!(e.storage(b"b"), None);
    assert_eq!(e.storage(b"l"), None);
    assert_eq!(e.child_storage(b"c", b"k"), Some(b"v".to_vec()));
}
