use sp_core::storage::ChildInfo;
use substrate_runtime_fuzzer::FuzzingExternalities;

fn ext() -> FuzzingExternalities {
    FuzzingExternalities::default()
}

#[test]
fn read_write_base() {
    let mut e = ext();
    assert_eq!(e.storage(b"k"), None);
    e.place_storage(b"k".to_vec(), Some(b"v".to_vec()));
    assert_eq!(e.storage(b"k"), Some(b"v".to_vec()));
    e.place_storage(b"k".to_vec(), None);
    assert_eq!(e.storage(b"k"), None);
}

#[test]
fn layered_read_write() {
    let mut e = ext();
    e.place_storage(b"a".to_vec(), Some(b"1".to_vec()));
    e.storage_start_transaction();
    e.place_storage(b"a".to_vec(), Some(b"2".to_vec()));
    e.place_storage(b"b".to_vec(), Some(b"X".to_vec()));
    assert_eq!(e.storage(b"a"), Some(b"2".to_vec()));
    assert_eq!(e.storage(b"b"), Some(b"X".to_vec()));
    e.storage_rollback_transaction().unwrap();
    assert_eq!(e.storage(b"a"), Some(b"1".to_vec()));
    assert_eq!(e.storage(b"b"), None);
}

#[test]
fn commit_merges_into_base() {
    let mut e = ext();
    e.storage_start_transaction();
    e.place_storage(b"k".to_vec(), Some(b"v".to_vec()));
    e.storage_commit_transaction().unwrap();
    assert_eq!(e.storage(b"k"), Some(b"v".to_vec()));
    assert!(e.transaction_depth() == 0);
}

#[test]
fn nested_transactions() {
    let mut e = ext();
    e.place_storage(b"k".to_vec(), Some(b"0".to_vec()));
    e.storage_start_transaction();
    e.place_storage(b"k".to_vec(), Some(b"1".to_vec()));
    e.storage_start_transaction();
    e.place_storage(b"k".to_vec(), Some(b"2".to_vec()));
    assert_eq!(e.storage(b"k"), Some(b"2".to_vec()));
    e.storage_rollback_transaction().unwrap();
    assert_eq!(e.storage(b"k"), Some(b"1".to_vec()));
    e.storage_commit_transaction().unwrap();
    assert_eq!(e.storage(b"k"), Some(b"1".to_vec()));
}

#[test]
fn delete_in_layer_commits_delete() {
    let mut e = ext();
    e.place_storage(b"k".to_vec(), Some(b"v".to_vec()));
    e.storage_start_transaction();
    e.place_storage(b"k".to_vec(), None);
    assert_eq!(e.storage(b"k"), None);
    e.storage_commit_transaction().unwrap();
    assert_eq!(e.storage(b"k"), None);
}

#[test]
fn rollback_without_transaction_errors() {
    let mut e = ext();
    assert!(e.storage_rollback_transaction().is_err());
    assert!(e.storage_commit_transaction().is_err());
}

#[test]
fn next_storage_key_merges_base_and_layers() {
    let mut e = ext();
    e.place_storage(b"a".to_vec(), Some(b"1".to_vec()));
    e.place_storage(b"c".to_vec(), Some(b"3".to_vec()));
    e.storage_start_transaction();
    e.place_storage(b"b".to_vec(), Some(b"2".to_vec()));
    assert_eq!(e.next_storage_key(b""), Some(b"a".to_vec()));
    assert_eq!(e.next_storage_key(b"a"), Some(b"b".to_vec()));
    assert_eq!(e.next_storage_key(b"b"), Some(b"c".to_vec()));
    assert_eq!(e.next_storage_key(b"c"), None);
}

#[test]
fn next_storage_key_skips_layer_deleted_keys() {
    let mut e = ext();
    e.place_storage(b"a".to_vec(), Some(b"1".to_vec()));
    e.place_storage(b"b".to_vec(), Some(b"2".to_vec()));
    e.storage_start_transaction();
    e.place_storage(b"a".to_vec(), None);
    assert_eq!(e.next_storage_key(b""), Some(b"b".to_vec()));
}

#[test]
fn clear_prefix_spans_base_and_layers() {
    let mut e = ext();
    e.place_storage(b"px_1".to_vec(), Some(b"1".to_vec()));
    e.place_storage(b"py_1".to_vec(), Some(b"y".to_vec()));
    e.storage_start_transaction();
    e.place_storage(b"px_2".to_vec(), Some(b"2".to_vec()));
    let r = e.clear_prefix(b"px_", None, None);
    assert_eq!(r.backend, 2);
    assert_eq!(e.storage(b"px_1"), None);
    assert_eq!(e.storage(b"px_2"), None);
    assert_eq!(e.storage(b"py_1"), Some(b"y".to_vec()));
    // Rollback: base state restored, layer-only px_2 gone.
    e.storage_rollback_transaction().unwrap();
    assert_eq!(e.storage(b"px_1"), Some(b"1".to_vec()));
    assert_eq!(e.storage(b"px_2"), None);
}

#[test]
fn storage_append_across_layers() {
    let mut e = ext();
    // First append on empty base: Compact(1) ++ 0xA
    e.storage_append(b"v".to_vec(), vec![0xA]);
    assert_eq!(e.storage(b"v"), Some(vec![1 << 2, 0xA]));

    e.storage_start_transaction();
    e.storage_append(b"v".to_vec(), vec![0xB]);
    assert_eq!(e.storage(b"v"), Some(vec![2 << 2, 0xA, 0xB]));
    // Subsequent append in same layer hits the in-place fast path.
    e.storage_append(b"v".to_vec(), vec![0xC]);
    assert_eq!(e.storage(b"v"), Some(vec![3 << 2, 0xA, 0xB, 0xC]));

    e.storage_rollback_transaction().unwrap();
    assert_eq!(e.storage(b"v"), Some(vec![1 << 2, 0xA]));
}

#[test]
fn child_storage_basics() {
    let mut e = ext();
    let info = ChildInfo::new_default(b"child1");
    e.place_child_storage(info.storage_key(), b"k".to_vec(), Some(b"v".to_vec()));
    assert_eq!(e.child_storage(info.storage_key(), b"k"), Some(b"v".to_vec()));

    e.storage_start_transaction();
    let _ = e.kill_child_storage(info.storage_key(), None, None);
    assert_eq!(e.child_storage(info.storage_key(), b"k"), None);
    e.place_child_storage(info.storage_key(), b"k2".to_vec(), Some(b"w".to_vec()));
    assert_eq!(e.child_storage(info.storage_key(), b"k2"), Some(b"w".to_vec()));
    assert_eq!(e.child_storage(info.storage_key(), b"k"), None);
    e.storage_rollback_transaction().unwrap();
    assert_eq!(e.child_storage(info.storage_key(), b"k"), Some(b"v".to_vec()));
    assert_eq!(e.child_storage(info.storage_key(), b"k2"), None);
}

#[test]
fn child_kill_then_commit_propagates() {
    let mut e = ext();
    let info = ChildInfo::new_default(b"child1");
    e.place_child_storage(info.storage_key(), b"k".to_vec(), Some(b"v".to_vec()));
    e.storage_start_transaction();
    let _ = e.kill_child_storage(info.storage_key(), None, None);
    e.place_child_storage(info.storage_key(), b"k2".to_vec(), Some(b"w".to_vec()));
    e.storage_commit_transaction().unwrap();
    assert_eq!(e.child_storage(info.storage_key(), b"k"), None);
    assert_eq!(e.child_storage(info.storage_key(), b"k2"), Some(b"w".to_vec()));
}

#[test]
fn into_storage_flushes_pending_layers() {
    let mut e = ext();
    e.place_storage(b"a".to_vec(), Some(b"1".to_vec()));
    e.storage_start_transaction();
    e.place_storage(b"b".to_vec(), Some(b"2".to_vec()));
    e.storage_start_transaction();
    e.place_storage(b"c".to_vec(), Some(b"3".to_vec()));
    let storage = e.into_storage();
    assert_eq!(storage.top.get(b"a".as_slice()), Some(&b"1".to_vec()));
    assert_eq!(storage.top.get(b"b".as_slice()), Some(&b"2".to_vec()));
    assert_eq!(storage.top.get(b"c".as_slice()), Some(&b"3".to_vec()));
}
