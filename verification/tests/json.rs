use no_proto::json::{json_decode, NP_JSON};

#[test]
fn json_text_is_written_without_white_space() {
    let text = " { \"a\" : [ 1 , 2.5e3 , -0.5 , true , false , null ] ,\n\t\"b\" : { } , \"c\" : [ ] } ";
    let value = json_decode(text.as_bytes()).unwrap();
    let written = value.stringify();
    assert_eq!(
        String::from_utf8(written.clone()).unwrap(),
        "{\"a\":[1,2.5e3,-0.5,true,false,null],\"b\":{},\"c\":[]}"
    );
    assert_eq!(json_decode(&written), Some(value));
}

#[test]
fn json_values_are_read_as_written() {
    let value = json_decode("[\"x\", 12, {\"k\": null}]".as_bytes()).unwrap();
    let expected = NP_JSON::Array(vec![
        NP_JSON::String(vec![120]),
        NP_JSON::Number(vec![49, 50]),
        NP_JSON::Dictionary(vec![(vec![107], NP_JSON::Null)]),
    ]);
    assert_eq!(value, expected);
    assert_eq!(json_decode("true".as_bytes()), Some(NP_JSON::True));
    assert_eq!(json_decode(" false ".as_bytes()), Some(NP_JSON::False));
    assert_eq!(json_decode("-0".as_bytes()), Some(NP_JSON::Number(vec![45, 48])));
    assert_eq!(json_decode("1E+2".as_bytes()), Some(NP_JSON::Number(vec![49, 69, 43, 50])));
}

#[test]
fn json_escapes_are_read_and_written() {
    let text = "\"a\\\"b\\\\c\\/d\\b\\f\\n\\r\\t\\u0041\\u00e9\\u20ac\\ud83d\\ude00\"";
    let value = json_decode(text.as_bytes()).unwrap();
    let mut expected: Vec<u8> = vec![97, 34, 98, 92, 99, 47, 100, 8, 12, 10, 13, 9, 65];
    expected.extend_from_slice("\u{e9}\u{20ac}\u{1f600}".as_bytes());
    assert_eq!(value, NP_JSON::String(expected));
    assert_eq!(
        String::from_utf8(value.stringify()).unwrap(),
        "\"a\\\"b\\\\c/d\\b\\f\\n\\r\\tA\u{e9}\u{20ac}\u{1f600}\""
    );
    assert_eq!(json_decode(&value.stringify()), Some(value));
}

#[test]
fn json_control_bytes_are_written_as_code_points() {
    let value = NP_JSON::String(vec![1, 31, 0]);
    let written = value.stringify();
    assert_eq!(String::from_utf8(written.clone()).unwrap(), "\"\\u0001\\u001f\\u0000\"");
    assert_eq!(json_decode(&written), Some(value));
}

#[test]
fn json_that_is_malformed_is_refused() {
    let cases: Vec<&str> = vec![
        "",
        " ",
        "{",
        "[1,]",
        "[1 2]",
        "{\"a\":}",
        "{\"a\" 1}",
        "{a:1}",
        "{\"a\":1,}",
        "01",
        "1.",
        ".5",
        "1e",
        "-",
        "+1",
        "tru",
        "nul",
        "\"abc",
        "\"\\x\"",
        "\"\\u12\"",
        "\"\\ud83d\"",
        "\"\\ude00\"",
        "\"\\ud83d\\u0041\"",
        "\"a\nb\"",
        "[1] x",
        "1 2",
    ];
    for text in cases {
        assert_eq!(json_decode(text.as_bytes()), None);
    }
}

#[test]
fn json_nesting_is_limited() {
    let fits = format!("{}{}", "[".repeat(256), "]".repeat(256));
    assert!(json_decode(fits.as_bytes()).is_some());
    let too_deep = format!("{}{}", "[".repeat(257), "]".repeat(257));
    assert_eq!(json_decode(too_deep.as_bytes()), None);
}

#[test]
fn json_dictionaries_give_the_first_member_of_a_key() {
    let value = json_decode("{\"a\":1,\"b\":2,\"a\":3}".as_bytes()).unwrap();
    assert_eq!(value.get("a".as_bytes()), Some(&NP_JSON::Number(vec![49])));
    assert_eq!(value.get("b".as_bytes()), Some(&NP_JSON::Number(vec![50])));
    assert_eq!(value.get("c".as_bytes()), None);
    assert_eq!(NP_JSON::Null.get("a".as_bytes()), None);
}
