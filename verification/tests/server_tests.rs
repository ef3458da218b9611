use todo_core::codec::encode_todo;
use todo_core::server::{
    delete_command, match_route, store_command, ErrorKind, Route, ServiceError, Traversal,
    LISTEN_ADDRESS, STORE_ADDRESS,
};
use todo_core::ToDo;

fn sample(id: usize, text: &str) -> ToDo {
    ToDo::new(text, "2024-01-01", id)
}

#[test]
fn routes_match_the_request_contract() {
    assert_eq!(match_route("POST", "/store_todo"), Route::StoreTodo);
    assert_eq!(match_route("POST", "/delete_todo"), Route::DeleteTodo);
    assert_eq!(match_route("GET", "/get_todo"), Route::GetTodo);
    assert_eq!(match_route("GET", "/store_todo"), Route::NotFound);
    assert_eq!(match_route("POST", "/get_todo"), Route::NotFound);
    assert_eq!(match_route("GET", "/elsewhere"), Route::NotFound);
}

#[test]
fn store_command_builds_key_and_value() {
    let t = sample(12, "note");
    let (key, value) = store_command(&t);
    assert_eq!(key, b"12".to_vec());
    assert_eq!(value, encode_todo(&t));
}

#[test]
fn delete_command_builds_key_only() {
    assert_eq!(delete_command(&sample(7, "gone")), b"7".to_vec());
}

#[test]
fn service_error_carries_kind_and_detail() {
    let e = ServiceError::new(ErrorKind::ConnectionError, "Unable to connect to Redis");
    assert_eq!(e.kind, ErrorKind::ConnectionError);
    assert_eq!(e.detail, "Unable to connect to Redis");
}

#[test]
fn config_constants() {
    assert_eq!(STORE_ADDRESS, "redis://127.0.0.1");
    assert_eq!(LISTEN_ADDRESS, "127.0.0.1:3000");
}

#[test]
fn add_then_list_all_shows_the_record() {
    // empty store, then Add {text:"buy milk", date:"2024-01-01"} under the
    // first unused id, then a full listing
    let t = ToDo::new("buy milk", "2024-01-01", 0);
    let (_key, value) = store_command(&t);
    let tr = Traversal::new();
    let tr = tr.absorb_batch(0, &vec![value]).unwrap();
    assert!(tr.done);
    assert_eq!(tr.acc, vec![t]);
}

#[test]
fn update_then_list_all_shows_one_replaced_record() {
    // the store held {id:5, text:"old"}; an update overwrites the same key,
    // so the listing fetches only the new value for that key
    let updated = sample(5, "new");
    let (_key, value) = store_command(&updated);
    let tr = Traversal::new().absorb_batch(0, &vec![value]).unwrap();
    assert!(tr.done);
    assert_eq!(tr.acc.len(), 1);
    assert_eq!(tr.acc[0].id, 5);
    assert_eq!(tr.acc[0].todo_info, "new");
}

#[test]
fn delete_then_list_all_is_empty() {
    // the store held {id:7}; after the delete the scan finds no keys
    let tr = Traversal::new().absorb_batch(0, &Vec::new()).unwrap();
    assert!(tr.done);
    assert_eq!(tr.acc, Vec::<ToDo>::new());
}

#[test]
fn traversal_accumulates_across_batches_without_duplicates() {
    let a = sample(1, "a");
    let b = sample(2, "b");
    let c = sample(3, "c");
    let (_, va) = store_command(&a);
    let (_, vb) = store_command(&b);
    let (_, vc) = store_command(&c);
    let tr = Traversal::new();
    let tr = tr.absorb_batch(9, &vec![va, vb.clone()]).unwrap();
    assert!(!tr.done);
    // the scan revisits b's key in the second batch
    let tr = tr.absorb_batch(0, &vec![vb, vc]).unwrap();
    assert!(tr.done);
    assert_eq!(tr.acc, vec![a, b, c]);
}

#[test]
fn traversal_fails_whole_listing_on_one_bad_value() {
    let (_, good) = store_command(&sample(1, "fine"));
    let bad = b"not json at all".to_vec();
    let err = Traversal::new().absorb_batch(0, &vec![good, bad]).unwrap_err();
    assert_eq!(err.kind, ErrorKind::DeserializationError);
    assert_eq!(err.detail, "Unable to parse data");
}

#[test]
fn traversal_keeps_first_value_for_a_repeated_id() {
    let first = sample(4, "first");
    let second = sample(4, "second");
    let (_, v1) = store_command(&first);
    let (_, v2) = store_command(&second);
    let tr = Traversal::new().absorb_batch(0, &vec![v1, v2]).unwrap();
    assert_eq!(tr.acc, vec![first]);
}
