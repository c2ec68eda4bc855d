use jsonparse::JSONValue;
use jsonparse::cursor::Cursor;
use jsonparse::cursor::consume_spaces;
use jsonparse::cursor::is_whitespace;
use jsonparse::cursor::next_char;
use jsonparse::errors::usize_to_string;
use jsonparse::parser::parse_json;
use jsonparse::parser::read_known_char;
use jsonparse::serial::serialize;

fn num_of(v: &JSONValue) -> f64 {
    match v {
        JSONValue::JSONNumber(n) => n.literal().parse::<f64>().unwrap(),
        other => panic!("expected a number, got {:?}", other),
    }
}

#[test]
fn literal_values_reconstructed() {
    assert_eq!(num_of(&parse_json("123").unwrap()), 123.0);
    assert_eq!(num_of(&parse_json("-0.5e2").unwrap()), -50.0);
    assert_eq!(
        parse_json("\"a\\tb\"").unwrap(),
        JSONValue::JSONString(String::from("a\tb"))
    );
}

#[test]
fn empty_object_and_array() {
    assert_eq!(parse_json("{}").unwrap(), JSONValue::JSONObject(vec![]));
    assert_eq!(parse_json("[]").unwrap(), JSONValue::JSONArray(vec![]));
}

#[test]
fn duplicate_key_last_wins() {
    match parse_json("{\"a\":1,\"a\":2}").unwrap() {
        JSONValue::JSONObject(pairs) => {
            assert_eq!(pairs.len(), 1);
            assert_eq!(pairs[0].0, "a");
            assert_eq!(num_of(&pairs[0].1), 2.0);
        },
        other => panic!("expected an object, got {:?}", other),
    }
}

#[test]
fn trailing_garbage_rejected() {
    let e = parse_json("123 abc").unwrap_err();
    assert_eq!(e.reason, "Unexpected character a at position 4");
}

#[test]
fn trailing_commas_rejected() {
    assert!(parse_json("[1,]").is_err());
    assert!(parse_json("{\"a\":1,}").is_err());
}

#[test]
fn leading_zeros_rejected() {
    assert!(parse_json("01").is_err());
    assert_eq!(num_of(&parse_json("0").unwrap()), 0.0);
}

#[test]
fn unterminated_input_ends_unexpectedly() {
    for s in ["\"abc", "[1,2", "{\"a\":1"] {
        let e = parse_json(s).unwrap_err();
        assert_eq!(e.reason, "String ended unexpectedly");
    }
}

#[test]
fn nested_arrays() {
    assert_eq!(
        parse_json("[[[1]]]").unwrap(),
        JSONValue::JSONArray(vec![JSONValue::JSONArray(vec![JSONValue::JSONArray(vec![
            parse_json("1").unwrap(),
        ])])])
    );
}

#[test]
fn unicode_escapes_decode() {
    assert_eq!(
        parse_json("\"\\u0041\"").unwrap(),
        JSONValue::JSONString(String::from("A"))
    );
    assert_eq!(
        parse_json("\"\\uD834\\uDD1E\"").unwrap(),
        JSONValue::JSONString(String::from("\u{1D11E}"))
    );
}

#[test]
fn lone_surrogates_rejected() {
    let e = parse_json("\"\\uD800\"").unwrap_err();
    assert_eq!(e.reason, "Invalid escape sequence \\uD800 at position 1");
    assert!(parse_json("\"\\uDC00\"").is_err());
    assert!(parse_json("\"\\uD834x\"").is_err());
}

#[test]
fn invalid_escape_message() {
    let e = parse_json("\"\\x\"").unwrap_err();
    assert_eq!(e.reason, "Invalid escape sequence \\x at position 1");
}

#[test]
fn empty_input_message() {
    let e = parse_json("").unwrap_err();
    assert_eq!(e.reason, "Empty string provided");
    let e2 = parse_json("   ").unwrap_err();
    assert_eq!(e2.reason, "Empty string provided");
}

#[test]
fn unexpected_character_message() {
    let e = parse_json("@").unwrap_err();
    assert_eq!(e.reason, "Unexpected character @ at position 0");
}

#[test]
fn expected_character_message() {
    let e = parse_json("{1 : 1}").unwrap_err();
    assert_eq!(e.reason, "Unexpected character 1 at position 1. Expected \"");
}

#[test]
fn control_characters_rejected_raw() {
    assert!(parse_json("\"a\u{01}b\"").is_err());
}

#[test]
fn exponent_needs_digits() {
    assert!(parse_json("1e").is_err());
    assert!(parse_json("1e+").is_err());
    assert!(parse_json("1ex").is_err());
    assert!(parse_json("1.").is_err());
    assert!(parse_json("-").is_err());
    assert!(parse_json("+1").is_err());
}

#[test]
fn whitespace_around_value() {
    assert_eq!(parse_json(" \t\r\n true \t\r\n ").unwrap(), JSONValue::JSONBool(true));
}

#[test]
fn serializer_writes_canonical_text() {
    assert_eq!(serialize(&parse_json("[1,2]").unwrap()), "[1,2]");
    assert_eq!(serialize(&parse_json("{\"a\": 1}").unwrap()), "{\"a\":1}");
    assert_eq!(serialize(&parse_json("\"a\\tb\\u0001\"").unwrap()), "\"a\\tb\\u0001\"");
    assert_eq!(serialize(&parse_json("-0.50e2").unwrap()), "-0.50e2");
    assert_eq!(serialize(&parse_json("0.00E+123").unwrap()), "0.00e123");
}

#[test]
fn roundtrip_reparse_equal() {
    for s in [
        "null",
        "true",
        "false",
        "0",
        "-12.5e-3",
        "\"plain\"",
        "\"quotes \\\" and \\\\ and \\u0007\"",
        "\"\\uD834\\uDD1E\"",
        "[]",
        "{}",
        "[1,[2,[3,null]],{\"k\":false}]",
        "{\"a\": 1, \"b\": [true, null, \"x\\ty\"], \"a\": 2.5e-3}",
    ] {
        let v1 = parse_json(s).unwrap();
        let text = serialize(&v1);
        let v2 = parse_json(&text).unwrap();
        assert_eq!(v1, v2, "round trip changed the value for {}", s);
    }
}

#[test]
fn offsets_in_messages_use_decimal() {
    let e = parse_json("            @").unwrap_err();
    assert_eq!(e.reason, "Unexpected character @ at position 12");
    assert_eq!(usize_to_string(0), "0");
    assert_eq!(usize_to_string(7), "7");
    assert_eq!(usize_to_string(120), "120");
    assert_eq!(usize_to_string(90710), "90710");
}

#[test]
fn cursor_and_whitespace_helpers() {
    assert!(is_whitespace(' ') && is_whitespace('\t') && is_whitespace('\r') && is_whitespace('\n'));
    assert!(!is_whitespace('a') && !is_whitespace('\u{0b}'));
    let mut cur = Cursor::new("  xy");
    consume_spaces(&mut cur);
    assert_eq!(next_char(&cur), Some('x'));
    assert!(read_known_char(&mut cur, 'x').is_ok());
    let e = read_known_char(&mut cur, 'z').unwrap_err();
    assert_eq!(e.reason, "Unexpected character y at position 3. Expected z");
    assert!(read_known_char(&mut cur, 'q').is_err());
}
