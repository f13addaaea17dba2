use jsonc::parser::parse_value;
use jsonc::slice::JsoncSlice;
use jsonc::value::{Jsonc, Node};
use jsonc::decoder::decode_slice;

#[test]
fn test_jsonc_get() {
    let jsonc = Jsonc {
        nodes: vec![
            Node::StartObject,
            Node::Key,
            Node::String,
            Node::Key,
            Node::String,
            Node::EndObject,
        ],
        strings: vec![
            "key1".to_string(),
            "value1".to_string(),
            "key2".to_string(),
            "value2".to_string(),
        ],
        numbers: vec![],
    };
    let jsonc_slice = JsoncSlice::new(&jsonc);
    let result = jsonc_slice.get_by_path("key1");
    assert_eq!(
        result,
        Some(JsoncSlice {
            nodes: &[Node::String],
            strings: &["value1".to_string()],
            numbers: &[],
        })
    );
    let result = jsonc_slice.get_by_path("key2");
    assert_eq!(
        result,
        Some(JsoncSlice {
            nodes: &[Node::String],
            strings: &["value2".to_string()],
            numbers: &[],
        })
    );
    let result = jsonc_slice.get_by_path("key3");
    assert_eq!(result.is_none(), true);
}

fn sample_object() -> Jsonc {
    parse_value(br#"{"a":1,"b":[2,3],"c":{"d":4}}"#).unwrap()
}

#[test]
fn path_lookup_returns_member_values() {
    let json = sample_object();
    let view = json.as_slice();
    let b = view.get_by_path("b").unwrap();
    assert_eq!(decode_slice(b), "[2,3]");
    let c = view.get_by_path("c").unwrap();
    assert_eq!(decode_slice(c), r#"{"d":4}"#);
    assert!(view.get_by_path("z").is_none());
}

#[test]
fn path_lookup_skips_nested_keys() {
    let json = parse_value(br#"{"x":{"y":1},"y":2}"#).unwrap();
    let view = json.as_slice();
    assert_eq!(decode_slice(view.get_by_path("y").unwrap()), "2");
}

#[test]
fn path_lookup_takes_first_of_duplicate_keys() {
    let json = parse_value(br#"{"k":"first","k":"second"}"#).unwrap();
    assert_eq!(json.nodes.len(), 6);
    assert_eq!(decode_slice(json.as_slice().get_by_path("k").unwrap()), r#""first""#);
}

#[test]
fn path_lookup_on_array_is_not_found() {
    let json = parse_value(b"[1,2]").unwrap();
    assert!(json.as_slice().get_by_path("a").is_none());
}

#[test]
fn index_lookup_returns_elements() {
    let json = parse_value(b"[10,20,[30,40],50]").unwrap();
    let view = json.as_slice();
    assert_eq!(decode_slice(view.get_by_idx(2).unwrap()), "[30,40]");
    assert_eq!(decode_slice(view.get_by_idx(0).unwrap()), "10");
    assert_eq!(decode_slice(view.get_by_idx(3).unwrap()), "50");
    assert!(view.get_by_idx(4).is_none());
}

#[test]
fn index_lookup_counts_scalars_of_every_kind() {
    let json = parse_value(br#"[null,true,"s",{"a":[1]},false]"#).unwrap();
    let view = json.as_slice();
    assert_eq!(decode_slice(view.get_by_idx(2).unwrap()), r#""s""#);
    assert_eq!(decode_slice(view.get_by_idx(3).unwrap()), r#"{"a":[1]}"#);
    assert_eq!(decode_slice(view.get_by_idx(4).unwrap()), "false");
}

#[test]
fn index_lookup_on_object_is_not_found() {
    let json = sample_object();
    assert!(json.as_slice().get_by_idx(0).is_none());
}

#[test]
fn slice_borrows_pool_ranges() {
    let json = sample_object();
    let c = json.as_slice().get_by_path("c").unwrap();
    assert_eq!(c.nodes, &[Node::StartObject, Node::Key, Node::Number, Node::EndObject]);
    assert_eq!(c.strings, &["d".to_string()]);
    assert_eq!(c.numbers, &["4".to_string()]);
}

#[test]
fn multi_segment_path() {
    let json = sample_object();
    assert_eq!(json.get(&["\"c\"", "\"d\""]), Some("4".to_string()));
    assert_eq!(json.get(&["\"b\"", "1"]), Some("3".to_string()));
    assert_eq!(json.get(&[]), Some(r#"{"a":1,"b":[2,3],"c":{"d":4}}"#.to_string()));
    assert_eq!(json.get(&["\"b\"", "5"]), None);
    assert_eq!(json.get(&["\"z\""]), None);
    assert_eq!(json.get(&["\"a\"", "\"q\""]), None);
    assert_eq!(json.get(&["x"]), None);
}

#[test]
fn view_copies_to_owned_document() {
    let json = sample_object();
    let owned = json.as_slice().get_by_path("b").unwrap().to_jsonc();
    assert_eq!(owned.nodes, vec![Node::StartArray, Node::Number, Node::Number, Node::EndArray]);
    assert!(owned.strings.is_empty());
    assert_eq!(owned.numbers, vec!["2".to_string(), "3".to_string()]);
    assert_eq!(jsonc::decoder::decode(&owned), "[2,3]");
}
