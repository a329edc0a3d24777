//! The JSON codec against concrete texts and against serde_json.

use kkrpc::json::JsonValue;
use kkrpc::parse::parse_json;
use kkrpc::ser::json_text;

fn obj(members: Vec<(&str, JsonValue)>) -> JsonValue {
    JsonValue::Obj(members.into_iter().map(|(k, v)| (k.to_string(), v)).collect())
}

fn s(text: &str) -> JsonValue {
    JsonValue::Str(text.to_string())
}

#[test]
fn canonical_text_of_scalars() {
    assert_eq!(json_text(&JsonValue::Null), "null");
    assert_eq!(json_text(&JsonValue::Bool(true)), "true");
    assert_eq!(json_text(&JsonValue::Bool(false)), "false");
    assert_eq!(json_text(&JsonValue::Int(0)), "0");
    assert_eq!(json_text(&JsonValue::Int(-7)), "-7");
    assert_eq!(json_text(&JsonValue::Int(i64::MAX)), "9223372036854775807");
    assert_eq!(json_text(&JsonValue::Int(i64::MIN)), "-9223372036854775808");
}

#[test]
fn canonical_text_escapes_strings() {
    assert_eq!(json_text(&s("plain")), "\"plain\"");
    assert_eq!(json_text(&s("a\"b\\c")), "\"a\\\"b\\\\c\"");
    assert_eq!(json_text(&s("line\nbreak\tand\rreturn")), "\"line\\nbreak\\tand\\rreturn\"");
    assert_eq!(json_text(&s("\u{1}")), "\"\\u0001\"");
    assert_eq!(json_text(&s("caf\u{e9}")), "\"caf\u{e9}\"");
}

#[test]
fn canonical_text_of_containers() {
    let v = JsonValue::Arr(vec![JsonValue::Int(1), JsonValue::Int(2), s("x")]);
    assert_eq!(json_text(&v), "[1,2,\"x\"]");
    let o = obj(vec![("name", s("kkrpc")), ("count", JsonValue::Int(3))]);
    assert_eq!(json_text(&o), "{\"name\":\"kkrpc\",\"count\":3}");
    assert_eq!(json_text(&JsonValue::Arr(vec![])), "[]");
    assert_eq!(json_text(&obj(vec![])), "{}");
}

#[test]
fn parse_accepts_canonical_output() {
    let v = obj(vec![
        ("name", s("kk\nrpc")),
        ("items", JsonValue::Arr(vec![JsonValue::Int(-5), JsonValue::Null, JsonValue::Bool(true)])),
        ("inner", obj(vec![("deep", JsonValue::Arr(vec![obj(vec![])]))])),
    ]);
    let text = json_text(&v);
    let back = parse_json(&text).expect("canonical text parses");
    assert_eq!(json_text(&back), text);
}

#[test]
fn parse_accepts_whitespace_and_escapes() {
    let v = parse_json(" { \"a\" : [ 1 , 2 ] , \"b\" : \"\\u0041\\n\\/\" } ").expect("parses");
    assert_eq!(json_text(&v), "{\"a\":[1,2],\"b\":\"A\\n/\"}");
}

#[test]
fn parse_rejects_what_it_should() {
    assert!(parse_json("").is_none());
    assert!(parse_json("nul").is_none());
    assert!(parse_json("1.5").is_none());
    assert!(parse_json("1e3").is_none());
    assert!(parse_json("[1,]").is_none());
    assert!(parse_json("{\"a\" 1}").is_none());
    assert!(parse_json("\"unterminated").is_none());
    assert!(parse_json("\"bad\\q\"").is_none());
    assert!(parse_json("\"\\ud800\"").is_none());
    assert!(parse_json("9223372036854775808").is_none());
    assert!(parse_json("[1] [2]").is_none());
}

#[test]
fn parse_number_bounds() {
    match parse_json("-9223372036854775808") {
        Some(JsonValue::Int(i)) => assert_eq!(i, i64::MIN),
        other => panic!("expected the smallest integer, got {:?}", other.map(|v| json_text(&v))),
    }
    match parse_json("9223372036854775807") {
        Some(JsonValue::Int(i)) => assert_eq!(i, i64::MAX),
        other => panic!("expected the largest integer, got {:?}", other.map(|v| json_text(&v))),
    }
    assert!(parse_json("-9223372036854775809").is_none());
}

#[test]
fn serde_json_reads_our_output() {
    let v = obj(vec![
        ("text", s("with \"quotes\" and \\slashes\\ and \n newlines")),
        ("n", JsonValue::Int(-42)),
        ("list", JsonValue::Arr(vec![JsonValue::Bool(false), JsonValue::Null])),
    ]);
    let text = json_text(&v);
    let parsed: serde_json::Value = serde_json::from_str(&text).expect("serde_json parses ours");
    assert_eq!(parsed["n"], serde_json::Value::from(-42i64));
    assert_eq!(
        parsed["text"],
        serde_json::Value::from("with \"quotes\" and \\slashes\\ and \n newlines")
    );
    assert_eq!(parsed["list"][1], serde_json::Value::Null);
}

#[test]
fn we_read_serde_json_output() {
    let source: serde_json::Value =
        serde_json::from_str("{\"id\":\"x\",\"args\":{\"result\":3},\"flag\":true}").unwrap();
    let text = serde_json::to_string(&source).expect("serde_json prints");
    let v = parse_json(&text).expect("we parse serde_json output");
    let reparsed: serde_json::Value = serde_json::from_str(&json_text(&v)).unwrap();
    assert_eq!(reparsed, source);
}

#[test]
fn no_newline_in_one_message_text() {
    let v = obj(vec![("k", s("a\nb")), ("l", JsonValue::Arr(vec![s("\n\n")]))]);
    let text = json_text(&v);
    assert!(!text.contains('\n'));
}
