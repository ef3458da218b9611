use todo_core::codec::{encode_todo, encode_todo_list, parse_todo, parse_todo_list, todo_key};
use todo_core::ToDo;

#[test]
fn encode_exact_bytes() {
    let t = ToDo::new("buy milk", "2024-01-01", 0);
    let enc = encode_todo(&t);
    assert_eq!(
        enc,
        b"{\"id\":0,\"todo_info\":\"buy milk\",\"todo_date\":\"2024-01-01\"}".to_vec()
    );
}

#[test]
fn encode_escapes_quote_and_backslash() {
    let t = ToDo::new("say \"hi\" \\ done", "2024-02-02", 3);
    let enc = encode_todo(&t);
    assert_eq!(
        enc,
        b"{\"id\":3,\"todo_info\":\"say \\\"hi\\\" \\\\ done\",\"todo_date\":\"2024-02-02\"}"
            .to_vec()
    );
    assert_eq!(parse_todo(&enc), Some(t));
}

#[test]
fn round_trip_simple() {
    let t = ToDo::new("water the plants", "2024-03-04 10:00:00", 17);
    assert_eq!(parse_todo(&encode_todo(&t)), Some(t));
}

#[test]
fn round_trip_unicode_text() {
    let t = ToDo::new("café ☕ später", "2024-12-31 23:59:59", 42);
    assert_eq!(parse_todo(&encode_todo(&t)), Some(t));
}

#[test]
fn round_trip_largest_id() {
    let t = ToDo::new("edge", "2024-01-01", usize::MAX);
    assert_eq!(parse_todo(&encode_todo(&t)), Some(t));
}

#[test]
fn round_trip_empty_strings() {
    let t = ToDo::new("", "", 1);
    assert_eq!(parse_todo(&encode_todo(&t)), Some(t));
}

#[test]
fn parse_rejects_leading_zero() {
    let bad = b"{\"id\":01,\"todo_info\":\"a\",\"todo_date\":\"b\"}".to_vec();
    assert_eq!(parse_todo(&bad), None);
}

#[test]
fn parse_rejects_whitespace() {
    let bad = b"{ \"id\":1,\"todo_info\":\"a\",\"todo_date\":\"b\"}".to_vec();
    assert_eq!(parse_todo(&bad), None);
}

#[test]
fn parse_rejects_trailing_garbage() {
    let bad = b"{\"id\":1,\"todo_info\":\"a\",\"todo_date\":\"b\"} ".to_vec();
    assert_eq!(parse_todo(&bad), None);
}

#[test]
fn parse_rejects_swapped_fields() {
    let bad = b"{\"id\":1,\"todo_date\":\"b\",\"todo_info\":\"a\"}".to_vec();
    assert_eq!(parse_todo(&bad), None);
}

#[test]
fn parse_rejects_unknown_escape() {
    let bad = b"{\"id\":1,\"todo_info\":\"a\\n\",\"todo_date\":\"b\"}".to_vec();
    assert_eq!(parse_todo(&bad), None);
}

#[test]
fn parse_rejects_unterminated_string() {
    let bad = b"{\"id\":1,\"todo_info\":\"a".to_vec();
    assert_eq!(parse_todo(&bad), None);
}

#[test]
fn parse_rejects_empty_and_missing_id() {
    assert_eq!(parse_todo(&Vec::new()), None);
    assert_eq!(
        parse_todo(&b"{\"id\":,\"todo_info\":\"a\",\"todo_date\":\"b\"}".to_vec()),
        None
    );
}

#[test]
fn parse_rejects_overflowing_id() {
    let bad =
        b"{\"id\":99999999999999999999999999,\"todo_info\":\"a\",\"todo_date\":\"b\"}".to_vec();
    assert_eq!(parse_todo(&bad), None);
}

#[test]
fn parse_rejects_invalid_utf8_content() {
    let mut bad = b"{\"id\":1,\"todo_info\":\"".to_vec();
    bad.push(0xff);
    bad.extend_from_slice(b"\",\"todo_date\":\"b\"}");
    assert_eq!(parse_todo(&bad), None);
}

#[test]
fn key_is_decimal_string() {
    assert_eq!(todo_key(0), b"0".to_vec());
    assert_eq!(todo_key(1234), b"1234".to_vec());
}

#[test]
fn list_encode_empty() {
    let none: Vec<ToDo> = Vec::new();
    assert_eq!(encode_todo_list(&none), b"[]".to_vec());
    assert_eq!(parse_todo_list(&b"[]".to_vec()), Some(Vec::new()));
}

#[test]
fn list_round_trip_two_records() {
    let a = ToDo::new("first", "2024-01-01", 0);
    let b = ToDo::new("second", "2024-01-02", 1);
    let list = vec![a, b];
    let enc = encode_todo_list(&list);
    assert_eq!(
        enc,
        b"[{\"id\":0,\"todo_info\":\"first\",\"todo_date\":\"2024-01-01\"},{\"id\":1,\"todo_info\":\"second\",\"todo_date\":\"2024-01-02\"}]".to_vec()
    );
    assert_eq!(parse_todo_list(&enc), Some(list));
}

#[test]
fn list_rejects_unclosed_array() {
    let bad = b"[{\"id\":0,\"todo_info\":\"a\",\"todo_date\":\"b\"}".to_vec();
    assert_eq!(parse_todo_list(&bad), None);
    assert_eq!(parse_todo_list(&b"[".to_vec()), None);
    assert_eq!(parse_todo_list(&Vec::new()), None);
}

#[test]
fn encoding_agrees_with_serde_json() {
    let t = ToDo::new("buy milk", "2024-01-01", 5);
    let mut obj = serde_json::Map::new();
    obj.insert("id".to_string(), serde_json::Value::from(5u64));
    obj.insert(
        "todo_info".to_string(),
        serde_json::Value::String("buy milk".to_string()),
    );
    obj.insert(
        "todo_date".to_string(),
        serde_json::Value::String("2024-01-01".to_string()),
    );
    let expected = serde_json::to_string(&serde_json::Value::Object(obj)).unwrap();
    assert_eq!(encode_todo(&t), expected.into_bytes());
}

#[test]
fn serde_json_accepts_our_encoding() {
    let t = ToDo::new("say \"hi\" \\ done", "2024-02-02", 9);
    let enc = String::from_utf8(encode_todo(&t)).unwrap();
    let v: serde_json::Value = serde_json::from_str(&enc).unwrap();
    assert_eq!(v["id"].as_u64(), Some(9));
    assert_eq!(v["todo_info"].as_str(), Some("say \"hi\" \\ done"));
    assert_eq!(v["todo_date"].as_str(), Some("2024-02-02"));
}
