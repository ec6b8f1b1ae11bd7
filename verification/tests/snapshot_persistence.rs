use todo_store::snapshot::capture_snapshot;
use todo_store::snapshot::restore_from_snapshot;
use todo_store::TodoItem;
use todo_store::TodoStore;

fn assert_same_collection(a: &TodoStore, b: &TodoStore) {
    assert_eq!(a.todos.len(), b.todos.len());
    for (x, y) in a.todos.iter().zip(b.todos.iter()) {
        assert_eq!(x.id, y.id);
        assert_eq!(x.name, y.name);
        assert_eq!(x.done, y.done);
    }
}

#[test]
fn test_round_trip_preserves_collection() {
    let mut store = TodoStore::new();
    store.add("first".to_string());
    store.add("second".to_string());
    store.add("third".to_string());
    store.mark_done(2);
    store.update(3, "renamed third".to_string());

    let blob = capture_snapshot(&store);
    let restored = restore_from_snapshot(&blob).unwrap();

    assert_same_collection(&store, &restored);
}

#[test]
fn test_round_trip_empty_store() {
    let store = TodoStore::new();

    let blob = capture_snapshot(&store);
    assert_eq!(blob.len(), 8);

    let restored = restore_from_snapshot(&blob).unwrap();
    assert_eq!(restored.todos.len(), 0);
}

#[test]
fn test_round_trip_unicode_names() {
    let mut store = TodoStore::new();
    store.add("naïve ☃ снег 翻訳".to_string());
    store.add("".to_string());
    store.add("🎉🎉".to_string());

    let blob = capture_snapshot(&store);
    let restored = restore_from_snapshot(&blob).unwrap();

    assert_same_collection(&store, &restored);
}

#[test]
fn test_round_trip_after_deletes() {
    // a collection with reused ids survives the round trip untouched
    let mut store = TodoStore::new();
    store.add("A".to_string());
    store.add("B".to_string());
    store.delete(1);
    store.add("C".to_string());

    let blob = capture_snapshot(&store);
    let restored = restore_from_snapshot(&blob).unwrap();

    assert_same_collection(&store, &restored);
}

#[test]
fn test_store_usable_after_restore() {
    let mut store = TodoStore::new();
    store.add("kept".to_string());

    let blob = capture_snapshot(&store);
    let mut restored = restore_from_snapshot(&blob).unwrap();

    let id = restored.add("new".to_string());
    assert_eq!(id, 2);
    assert!(restored.mark_done(1));
}

#[test]
fn test_restore_rejects_short_blob() {
    // too short to even hold the record count
    assert!(restore_from_snapshot(&vec![1u8, 2, 3]).is_err());
    assert!(restore_from_snapshot(&Vec::new()).is_err());
}

#[test]
fn test_restore_rejects_truncated_record() {
    let mut store = TodoStore::new();
    store.add("abc".to_string());
    let mut blob = capture_snapshot(&store);

    blob.pop();
    assert!(restore_from_snapshot(&blob).is_err());
}

#[test]
fn test_restore_rejects_trailing_bytes() {
    let mut store = TodoStore::new();
    store.add("abc".to_string());
    let mut blob = capture_snapshot(&store);

    blob.push(0);
    assert!(restore_from_snapshot(&blob).is_err());
}

#[test]
fn test_restore_rejects_bad_done_flag() {
    let mut store = TodoStore::new();
    store.add("x".to_string());
    let mut blob = capture_snapshot(&store);

    // the done flag of the first record sits after the count and the id
    blob[8 + 4] = 2;
    assert!(restore_from_snapshot(&blob).is_err());
}

#[test]
fn test_restore_rejects_invalid_character() {
    let mut store = TodoStore::new();
    store.add("x".to_string());
    let mut blob = capture_snapshot(&store);

    // overwrite the character with a surrogate value, which no character has
    let ch = 8 + 4 + 1 + 8;
    blob[ch] = 0x00;
    blob[ch + 1] = 0xd8;
    blob[ch + 2] = 0x00;
    blob[ch + 3] = 0x00;
    assert!(restore_from_snapshot(&blob).is_err());
}

#[test]
fn test_restore_rejects_count_mismatch() {
    // a count that promises more records than the blob holds
    let mut store = TodoStore::new();
    store.add("x".to_string());
    let mut blob = capture_snapshot(&store);

    blob[0] = 2;
    assert!(restore_from_snapshot(&blob).is_err());
}

#[test]
fn test_snapshot_layout_is_fixed() {
    // one record, id 1, not done, label "A": the blob is pinned byte for byte
    let mut store = TodoStore::new();
    store.add("A".to_string());

    let blob = capture_snapshot(&store);
    let expected: Vec<u8> = vec![
        1, 0, 0, 0, 0, 0, 0, 0, // one record
        1, 0, 0, 0, // id 1
        0, // not done
        1, 0, 0, 0, 0, 0, 0, 0, // one character
        0x41, 0, 0, 0, // 'A'
    ];
    assert_eq!(blob, expected);
}

#[test]
fn test_snapshot_reflects_done_flag() {
    // a wrapper that ignored its argument would leave these blobs equal
    let mut plain = TodoStore::new();
    plain.add("A".to_string());
    let mut done = TodoStore::new();
    done.add("A".to_string());
    done.mark_done(1);

    assert_ne!(capture_snapshot(&plain), capture_snapshot(&done));
}
