use todo_store::TodoItem;
use todo_store::TodoStore;

fn store_with_three() -> TodoStore {
    let mut store = TodoStore::default();
    store.todos.push(TodoItem { id: 1, name: "Todo 1".to_string(), done: false });
    store.todos.push(TodoItem { id: 2, name: "Todo 2".to_string(), done: false });
    store.todos.push(TodoItem { id: 3, name: "Todo 3".to_string(), done: false });
    store
}

#[test]
fn test_get_empty_list() {
    let store = TodoStore::default();

    let todos = store.get(0, 5);

    assert_eq!(todos.len(), 0);
}

#[test]
fn test_get_partial_list() {
    let store = store_with_three();

    let todos = store.get(1, 2);

    assert_eq!(todos.len(), 2);
    assert_eq!(todos[0].id, 2);
    assert_eq!(todos[1].id, 3);
}

#[test]
fn test_get_full_list() {
    let store = store_with_three();

    let todos = store.get(0, 5);

    assert_eq!(todos.len(), 3);
    assert_eq!(todos[0].id, 1);
    assert_eq!(todos[1].id, 2);
    assert_eq!(todos[2].id, 3);
}

#[test]
fn test_get_by_id_existing() {
    let store = store_with_three();

    let item_id_to_retrieve = 2;
    let retrieved_item = store.get_by_id(item_id_to_retrieve);

    assert!(retrieved_item.is_some());
    let retrieved_item = retrieved_item.unwrap();
    assert_eq!(retrieved_item.id, item_id_to_retrieve);
    assert_eq!(retrieved_item.name, "Todo 2");
    assert_eq!(retrieved_item.done, false);
}

#[test]
fn test_get_by_id_nonexistent() {
    let store = store_with_three();

    let item_id_to_retrieve = 4;
    let retrieved_item = store.get_by_id(item_id_to_retrieve);

    assert!(retrieved_item.is_none());
}

#[test]
fn lib_test_add_todo() {
    let mut store = TodoStore::default();

    let new_todo_id = store.add("New Todo".to_string());

    assert_eq!(new_todo_id, 1);
    assert_eq!(store.todos.len(), 1);

    let added_todo = &store.todos[0];
    assert_eq!(added_todo.id, new_todo_id);
    assert_eq!(added_todo.name, "New Todo");
    assert_eq!(added_todo.done, false);
}

#[test]
fn test_update_todo_existing() {
    let mut store = store_with_three();

    let item_id_to_update = 2;
    let new_name = "Updated Todo 2".to_string();
    let is_updated = store.update(item_id_to_update, new_name.clone());

    assert!(is_updated);

    let updated_todo = store.todos.iter().find(|i| i.id == item_id_to_update).unwrap();
    assert_eq!(updated_todo.id, item_id_to_update);
    assert_eq!(updated_todo.name, new_name);
    assert_eq!(updated_todo.done, false);
}

#[test]
fn test_update_todo_nonexistent() {
    let mut store = store_with_three();

    let item_id_to_update = 4;
    let new_name = "Updated Todo 4".to_string();
    let is_updated = store.update(item_id_to_update, new_name.clone());

    assert!(!is_updated);
}

#[test]
fn test_delete_todo_existing() {
    let mut store = store_with_three();

    let item_id_to_delete = 2;
    let is_deleted = store.delete(item_id_to_delete);

    assert!(is_deleted);
    assert_eq!(store.todos.len(), 2);

    let deleted_item = store.todos.iter().find(|i| i.id == item_id_to_delete);
    assert!(deleted_item.is_none());
}

#[test]
fn test_delete_todo_nonexistent() {
    let mut store = store_with_three();

    let item_id_to_delete = 4;
    let is_deleted = store.delete(item_id_to_delete);

    assert!(!is_deleted);
    assert_eq!(store.todos.len(), 3);
}

#[test]
fn test_mark_done_existing_and_idempotent() {
    let mut store = store_with_three();

    assert!(store.mark_done(2));
    assert_eq!(store.todos[1].done, true);

    // marking again still succeeds and leaves the record done
    assert!(store.mark_done(2));
    assert_eq!(store.todos[1].done, true);

    // the other records are untouched
    assert_eq!(store.todos[0].done, false);
    assert_eq!(store.todos[2].done, false);
}

#[test]
fn test_mark_done_nonexistent() {
    let mut store = store_with_three();

    assert!(!store.mark_done(4));
    assert!(store.todos.iter().all(|i| !i.done));
    assert_eq!(store.todos.len(), 3);
}

#[test]
fn test_update_changes_only_name() {
    let mut store = store_with_three();
    store.mark_done(3);

    assert!(store.update(3, "renamed".to_string()));

    assert_eq!(store.todos[2].id, 3);
    assert_eq!(store.todos[2].name, "renamed");
    assert_eq!(store.todos[2].done, true);
    assert_eq!(store.todos[0].name, "Todo 1");
    assert_eq!(store.todos[1].name, "Todo 2");
}

#[test]
fn test_get_page_past_the_end() {
    // a page beyond a three-record collection is empty, not an error
    let store = store_with_three();

    let todos = store.get(5, 10);

    assert_eq!(todos.len(), 0);
}

#[test]
fn test_get_page_bounds_do_not_wrap() {
    // offset + limit near the maximum must clamp, not wrap around
    let store = store_with_three();

    let todos = store.get(u32::MAX, u32::MAX);
    assert_eq!(todos.len(), 0);

    let todos = store.get(1, u32::MAX);
    assert_eq!(todos.len(), 2);
    assert_eq!(todos[0].id, 2);
    assert_eq!(todos[1].id, 3);
}

#[test]
fn test_get_whole_collection() {
    let store = store_with_three();

    let todos = store.get(0, 3);

    assert_eq!(todos.len(), 3);
    for (k, item) in todos.iter().enumerate() {
        assert_eq!(item.id, store.todos[k].id);
        assert_eq!(item.name, store.todos[k].name);
        assert_eq!(item.done, store.todos[k].done);
    }
}

#[test]
fn test_id_reuse_after_delete() {
    // the id rule is length + 1, so a delete followed by an add can reassign
    // an id still in use; this pins that behavior down
    let mut store = TodoStore::default();

    assert_eq!(store.add("A".to_string()), 1);
    assert_eq!(store.todos.len(), 1);

    assert_eq!(store.add("B".to_string()), 2);
    assert_eq!(store.todos.len(), 2);

    assert!(store.delete(1));
    assert_eq!(store.todos.len(), 1);
    assert_eq!(store.todos[0].id, 2);
    assert_eq!(store.todos[0].name, "B");

    // the new record gets id 2 — colliding with the surviving record
    assert_eq!(store.add("C".to_string()), 2);

    // lookup scans in order, so the earlier record wins
    let found = store.get_by_id(2).unwrap();
    assert_eq!(found.name, "B");
}
