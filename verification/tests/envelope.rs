//! Envelopes on the wire: framing, field layout, tolerance.

use kkrpc::framing::split_frames;
use kkrpc::ids::generate_uuid;
use kkrpc::json::JsonValue;
use kkrpc::message::{deserialize_message, serialize_message, DecodeError, Message, MessageType};
use kkrpc::peer::{callback_line, response_line};

fn request(id: &str, method: &str, args: Vec<JsonValue>) -> Message {
    Message {
        id: id.to_string(),
        method: method.to_string(),
        args: if args.is_empty() { None } else { Some(JsonValue::Arr(args)) },
        msg_type: MessageType::Request,
        callback_ids: None,
        version: Some("json".to_string()),
        path: None,
        value: None,
    }
}

#[test]
fn request_line_layout() {
    let m = request("id-1", "math.add", vec![JsonValue::Int(1), JsonValue::Int(2)]);
    let line = serialize_message(&m);
    assert_eq!(
        line,
        "{\"args\":[1,2],\"id\":\"id-1\",\"method\":\"math.add\",\"type\":\"request\",\"version\":\"json\"}\n"
    );
}

#[test]
fn property_lines_carry_no_method() {
    let m = Message {
        id: "id-9".to_string(),
        method: String::new(),
        args: None,
        msg_type: MessageType::Get,
        callback_ids: None,
        version: Some("json".to_string()),
        path: Some(vec!["settings".to_string(), "theme".to_string()]),
        value: None,
    };
    let line = serialize_message(&m);
    assert_eq!(
        line,
        "{\"id\":\"id-9\",\"path\":[\"settings\",\"theme\"],\"type\":\"get\",\"version\":\"json\"}\n"
    );
}

#[test]
fn envelope_round_trip() {
    let m = request("abc", "echo", vec![JsonValue::Str("pong".to_string())]);
    let line = serialize_message(&m);
    let back = deserialize_message(line.trim_end()).expect("own line decodes");
    assert_eq!(back.id, "abc");
    assert_eq!(back.method, "echo");
    assert_eq!(back.msg_type, MessageType::Request);
    assert_eq!(back.version.as_deref(), Some("json"));
    match back.args {
        Some(JsonValue::Arr(items)) => match &items[0] {
            JsonValue::Str(s) => assert_eq!(s, "pong"),
            _ => panic!("first argument should be a string"),
        },
        _ => panic!("args should be an array"),
    }
}

#[test]
fn decode_tolerates_foreign_layout() {
    let line = "  {\"type\":\"response\", \"unknown\": [1,2,{}], \"id\":\"z\", \"args\":{\"result\": 9}} ";
    let m = deserialize_message(line).expect("foreign key order decodes");
    assert_eq!(m.msg_type, MessageType::Response);
    assert_eq!(m.id, "z");
}

fn rejection(line: &str) -> DecodeError {
    match deserialize_message(line) {
        Err(e) => e,
        Ok(_) => panic!("the line should have been rejected"),
    }
}

#[test]
fn decode_rejections() {
    assert_eq!(rejection("not json"), DecodeError::Malformed);
    assert_eq!(rejection(""), DecodeError::Malformed);
    assert_eq!(rejection("{\"id\":\"a\"}"), DecodeError::UnrecognizedType);
    assert_eq!(rejection("{\"type\":\"banana\",\"id\":\"a\"}"), DecodeError::UnrecognizedType);
    assert_eq!(rejection("[1,2,3]"), DecodeError::UnrecognizedType);
}

#[test]
fn response_line_shape() {
    let line = response_line("r1", JsonValue::Int(3));
    assert_eq!(
        line,
        "{\"args\":{\"result\":3},\"id\":\"r1\",\"method\":\"\",\"type\":\"response\",\"version\":\"json\"}\n"
    );
}

#[test]
fn callback_line_shape() {
    let line = callback_line("r1", "tok", vec![JsonValue::Str("payload".to_string())]);
    assert_eq!(
        line,
        "{\"args\":[\"payload\"],\"id\":\"r1\",\"method\":\"tok\",\"type\":\"callback\",\"version\":\"json\"}\n"
    );
}

#[test]
fn frames_split_on_newlines_without_loss() {
    let a = response_line("a", JsonValue::Int(1));
    let b = response_line("b", JsonValue::Int(2));
    let joined = format!("{}{}partial", a, b);
    let (frames, rest) = split_frames(&joined);
    assert_eq!(frames.len(), 2);
    assert_eq!(format!("{}\n", frames[0]), a);
    assert_eq!(format!("{}\n", frames[1]), b);
    assert_eq!(rest, "partial");

    let (more, rest2) = split_frames(&format!("{}{}\n", rest, "-tail"));
    assert_eq!(more, vec!["partial-tail".to_string()]);
    assert_eq!(rest2, "");
}

#[test]
fn generated_ids_have_four_parts() {
    let id = generate_uuid();
    let parts: Vec<&str> = id.split('-').collect();
    assert_eq!(parts.len(), 4);
    for part in parts {
        assert!(!part.is_empty());
        assert!(part.chars().all(|c| c.is_ascii_hexdigit()));
    }
    assert_ne!(generate_uuid(), generate_uuid());
}
