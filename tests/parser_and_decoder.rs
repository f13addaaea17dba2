use jsonc::decoder::decode;
use jsonc::parser::{parse_value, ParseError};
use jsonc::value::{Jsonc, Node};

const SAMPLE: &str = r#"
        {
            "name": "John Doe",
            "age": 43,
            "is_student": false,
            "scores": [100, 98, 100]
        }
    "#;

fn as_floats(numbers: &[String]) -> Vec<f64> {
    numbers.iter().map(|s| s.parse::<f64>().unwrap()).collect()
}

fn expected_nodes() -> Vec<Node> {
    vec![
        Node::StartObject,
        Node::Key,
        Node::String,
        Node::Key,
        Node::Number,
        Node::Key,
        Node::False,
        Node::Key,
        Node::StartArray,
        Node::Number,
        Node::Number,
        Node::Number,
        Node::EndArray,
        Node::EndObject,
    ]
}

fn expected_strings() -> Vec<String> {
    vec![
        "name".to_string(),
        "John Doe".to_string(),
        "age".to_string(),
        "is_student".to_string(),
        "scores".to_string(),
    ]
}

#[test]
fn parser_test() {
    let parsed_json = parse_value(SAMPLE.as_bytes()).unwrap();
    let offsets = vec![
        None,
        Some(0),
        Some(1),
        Some(2),
        Some(0),
        Some(3),
        None,
        Some(4),
        None,
        Some(1),
        Some(2),
        Some(3),
        None,
        None,
    ];
    assert_eq!(parsed_json.nodes, expected_nodes());
    assert_eq!(parsed_json.offsets(), offsets);
    assert_eq!(parsed_json.strings, expected_strings());
    assert_eq!(as_floats(&parsed_json.numbers), vec![43.0, 100.0, 98.0, 100.0]);
}

#[test]
fn parser_and_decoder_test() {
    let parsed_json = parse_value(SAMPLE.as_bytes()).unwrap();
    let mut expected_json = Jsonc::new();
    expected_json.nodes = expected_nodes();
    expected_json.strings = expected_strings();
    expected_json.numbers = vec![
        "43".to_string(),
        "100".to_string(),
        "98".to_string(),
        "100".to_string(),
    ];
    assert_eq!(parsed_json, expected_json);
    assert_eq!(as_floats(&parsed_json.numbers), vec![43.0, 100.0, 98.0, 100.0]);

    let decoded_json = decode(&parsed_json);
    let expected = r#"{"name":"John Doe","age":43,"is_student":false,"scores":[100,98,100]}"#;
    assert_eq!(decoded_json, expected);
}

fn round_trip(text: &str) -> String {
    decode(&parse_value(text.as_bytes()).unwrap())
}

#[test]
fn round_trip_strips_whitespace() {
    assert_eq!(round_trip(" [ 1 , { \"a\" : null } , [ ] , { } ] "), r#"[1,{"a":null},[],{}]"#);
    assert_eq!(round_trip("\"x\""), "\"x\"");
    assert_eq!(round_trip("true"), "true");
    assert_eq!(round_trip("-0.5e+10"), "-0.5e+10");
    assert_eq!(round_trip("18446744073709551615"), "18446744073709551615");
}

#[test]
fn decode_is_idempotent() {
    let once = round_trip(r#" {"a": [1, "t\u00e9", {"b": false}], "c": "\n"} "#);
    let twice = round_trip(&once);
    assert_eq!(once, twice);
    assert_eq!(once, "{\"a\":[1,\"t\u{e9}\",{\"b\":false}],\"c\":\"\\n\"}");
}

#[test]
fn strings_are_unescaped_and_reescaped() {
    let json = parse_value(br#""a\"b\\c\/d\b\f\n\r\t\u0041\u{0042}\ud83d\ude00""#).unwrap();
    assert_eq!(json.strings, vec!["a\"b\\c/d\u{8}\u{c}\n\r\tAB\u{1F600}".to_string()]);
    assert_eq!(decode(&json), "\"a\\\"b\\\\c/d\\b\\f\\n\\r\\tAB\u{1F600}\"");
}

#[test]
fn control_characters_are_escaped_on_output() {
    let json = Jsonc::new_with_values(vec![Node::String], vec!["\u{1}x\u{1f}".to_string()], vec![]);
    assert_eq!(decode(&json), "\"\\u0001x\\u001f\"");
}

#[test]
fn keys_are_escaped_on_output() {
    let json = parse_value(br#"{"q\"k":1}"#).unwrap();
    assert_eq!(json.strings, vec!["q\"k".to_string()]);
    assert_eq!(decode(&json), r#"{"q\"k":1}"#);
}

#[test]
fn structure_is_balanced_and_pools_match() {
    let json = parse_value(br#"{"a":[1,"x",{"b":2}],"c":"y"}"#).unwrap();
    let mut depth: i64 = 0;
    let mut zeros = 0;
    for (i, n) in json.nodes.iter().enumerate() {
        match n {
            Node::StartArray | Node::StartObject => depth += 1,
            Node::EndArray | Node::EndObject => depth -= 1,
            _ => {}
        }
        assert!(depth >= 0);
        if depth == 0 {
            zeros += 1;
            assert_eq!(i, json.nodes.len() - 1);
        }
    }
    assert_eq!(zeros, 1);
    let n_str = json.nodes.iter().filter(|n| matches!(n, Node::Key | Node::String)).count();
    let n_num = json.nodes.iter().filter(|n| matches!(n, Node::Number)).count();
    assert_eq!(n_str, json.strings.len());
    assert_eq!(n_num, json.numbers.len());
}

#[test]
fn escaped_whitespace_is_skipped() {
    let json = parse_value(b"\\n[1,\\t2]\\x0C").unwrap();
    assert_eq!(decode(&json), "[1,2]");
}

#[test]
fn malformed_numbers_are_rejected() {
    assert_eq!(parse_value(b"01"), Err(ParseError::InvalidNumberLiteral { at: 1 }));
    assert_eq!(parse_value(b"1."), Err(ParseError::UnexpectedEndOfInput));
    assert_eq!(parse_value(b"1.x"), Err(ParseError::InvalidNumberLiteral { at: 2 }));
    assert_eq!(parse_value(b"1e]"), Err(ParseError::InvalidNumberLiteral { at: 2 }));
    assert_eq!(parse_value(b"-a"), Err(ParseError::InvalidNumberLiteral { at: 1 }));
}

#[test]
fn trailing_comma_in_object_is_rejected() {
    let r = parse_value(b"{\"a\":1,}");
    assert!(matches!(
        r,
        Err(ParseError::ExpectedObjectKey { .. }) | Err(ParseError::UnexpectedCharacter { .. })
    ));
    assert_eq!(r, Err(ParseError::ExpectedObjectKey { at: 7 }));
}

#[test]
fn trailing_characters_are_rejected() {
    assert_eq!(parse_value(b"{\"a\":1} extra"), Err(ParseError::TrailingCharacters { at: 8 }));
}

#[test]
fn unterminated_input_is_rejected() {
    assert_eq!(parse_value(b"{\"a\":"), Err(ParseError::UnexpectedEndOfInput));
    assert_eq!(parse_value(b""), Err(ParseError::UnexpectedEndOfInput));
    assert_eq!(parse_value(b"\"abc"), Err(ParseError::UnexpectedEndOfInput));
    assert_eq!(parse_value(b"[1,2"), Err(ParseError::UnexpectedEndOfInput));
}

#[test]
fn unexpected_characters_are_rejected() {
    assert_eq!(parse_value(b"nul!"), Err(ParseError::UnexpectedCharacter { at: 3 }));
    assert_eq!(parse_value(b"?"), Err(ParseError::UnexpectedCharacter { at: 0 }));
    assert_eq!(parse_value(b"[1 2]"), Err(ParseError::UnexpectedCharacter { at: 3 }));
    assert_eq!(parse_value(b"{\"a\" 1}"), Err(ParseError::UnexpectedCharacter { at: 5 }));
}

#[test]
fn non_string_keys_are_rejected() {
    assert_eq!(parse_value(b"{1:2}"), Err(ParseError::ExpectedObjectKey { at: 1 }));
}

#[test]
fn bad_escapes_are_rejected() {
    assert_eq!(parse_value(br#""\q""#), Err(ParseError::InvalidStringEscape { at: 1 }));
    assert_eq!(parse_value(br#""\udc00x""#), Err(ParseError::InvalidStringEscape { at: 1 }));
    assert_eq!(parse_value(br#""\uzzzz""#), Err(ParseError::InvalidStringEscape { at: 1 }));
}

#[test]
fn bad_escape_is_reported_where_it_starts() {
    assert_eq!(parse_value(br#""ab\q""#), Err(ParseError::InvalidStringEscape { at: 3 }));
    assert_eq!(parse_value(br#"["x","ab\u12zz"]"#), Err(ParseError::InvalidStringEscape { at: 8 }));
    assert_eq!(parse_value(b"\"\\q\xff\""), Err(ParseError::InvalidStringEscape { at: 1 }));
}

#[test]
fn first_rejected_byte_wins() {
    assert_eq!(parse_value(b"\"\xff\\q\""), Err(ParseError::UnexpectedCharacter { at: 1 }));
    assert_eq!(parse_value(b"\"a\xffb\""), Err(ParseError::UnexpectedCharacter { at: 2 }));
    assert_eq!(parse_value(b"{\"k\":\"\\n\xc3(\"}"), Err(ParseError::UnexpectedCharacter { at: 8 }));
}

#[test]
fn invalid_utf8_is_rejected() {
    assert_eq!(parse_value(b"\"\xff\""), Err(ParseError::UnexpectedCharacter { at: 1 }));
}

#[test]
fn arbitrary_bytes_give_instance_or_error() {
    let inputs: [&[u8]; 8] = [b"", b"[", b"]", b"{]", b"[}", b"\"\\", b"[[[[1]]]]", b"\x00\x01"];
    for input in inputs.iter() {
        if let Ok(json) = parse_value(input) {
            let n_str = json.nodes.iter().filter(|n| matches!(n, Node::Key | Node::String)).count();
            assert_eq!(n_str, json.strings.len());
        }
    }
    assert!(parse_value(b"[[[[1]]]]").is_ok());
}

#[test]
fn node_codes_round_trip() {
    let all = [
        Node::Null,
        Node::StartArray,
        Node::EndArray,
        Node::StartObject,
        Node::EndObject,
        Node::Key,
        Node::String,
        Node::Number,
        Node::True,
        Node::False,
    ];
    for (i, n) in all.iter().enumerate() {
        assert_eq!(n.code() as usize, i);
        assert_eq!(Node::from_code(i as u8), Some(*n));
    }
    assert_eq!(Node::from_code(10), None);
}

#[test]
fn opt_lists_wrap_each_entry() {
    let json = parse_value(br#"["s",2]"#).unwrap();
    assert_eq!(json.node_opt_list(), vec![Some(1), Some(6), Some(7), Some(2)]);
    assert_eq!(json.string_opt_list(), vec![Some("s".to_string())]);
    assert_eq!(json.number_opt_list(), vec![Some("2".to_string())]);
}

#[test]
fn append_moves_all_arrays() {
    let mut a = Jsonc::new_with_values(vec![Node::String], vec!["x".to_string()], vec![]);
    let mut b = Jsonc::new_with_values(vec![Node::Number], vec![], vec!["1".to_string()]);
    a.append(&mut b);
    assert_eq!(a.nodes, vec![Node::String, Node::Number]);
    assert_eq!(a.strings, vec!["x".to_string()]);
    assert_eq!(a.numbers, vec!["1".to_string()]);
    assert!(b.nodes.is_empty() && b.strings.is_empty() && b.numbers.is_empty());
}
