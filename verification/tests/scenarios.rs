//! Two peers wired back to back in memory: the calls, property
//! access, callbacks and concurrency interleavings of the protocol.

use kkrpc::json::JsonValue;
use kkrpc::peer::{
    callback_line, response_line, Action, Arg, CallOutcome, IncomingArg, PeerCore, RpcApi,
};
use kkrpc::ser::json_text;

/// A server peer with the conformance API: `math.add`, `echo`,
/// `withCallback`, and the seeded property store.
fn test_server() -> PeerCore {
    let mut api = RpcApi::new();
    api.register_method("math.add");
    api.register_method("echo");
    api.register_method("withCallback");
    api.set_value("counter", JsonValue::Int(42));
    api.set_value("settings.theme", JsonValue::Str("light".to_string()));
    api.set_value("settings.notifications.enabled", JsonValue::Bool(true));
    PeerCore::new(api)
}

fn as_int(arg: &IncomingArg) -> i64 {
    match arg {
        IncomingArg::Value(JsonValue::Int(i)) => *i,
        _ => 0,
    }
}

/// Feed one line to the server peer and run its handlers the way the
/// conformance server does; returns the lines the server writes back.
fn serve(server: &mut PeerCore, line: &str) -> Vec<String> {
    match server.handle_line(line.trim_end()) {
        Action::Reply { line } => vec![line],
        Action::RunHandler { id, method, args, .. } => {
            let mut out = Vec::new();
            let result = if method == "math.add" {
                JsonValue::Int(as_int(&args[0]) + as_int(&args[1]))
            } else if method == "echo" {
                match &args[0] {
                    IncomingArg::Value(v) => v.deep_clone(),
                    IncomingArg::Callback(_) => JsonValue::Null,
                }
            } else if method == "withCallback" {
                let payload = match &args[0] {
                    IncomingArg::Value(JsonValue::Str(s)) => s.clone(),
                    _ => String::new(),
                };
                if let IncomingArg::Callback(token) = &args[1] {
                    out.push(callback_line(
                        &id,
                        token,
                        vec![JsonValue::Str(format!("callback:{}", payload))],
                    ));
                }
                JsonValue::Str("callback-sent".to_string())
            } else {
                JsonValue::Null
            };
            out.push(response_line(&id, result));
            out
        },
        _ => vec![],
    }
}

fn expect_success(client: &mut PeerCore, line: &str, want_id: &str) -> JsonValue {
    match client.handle_line(line.trim_end()) {
        Action::Deliver { id, outcome } => {
            assert_eq!(id, want_id);
            match outcome {
                CallOutcome::Success(v) => v,
                CallOutcome::Failure(e) => panic!("call failed: {}", e.display_string()),
            }
        },
        _ => panic!("expected a delivery"),
    }
}

#[test]
fn call_math_add() {
    let mut server = test_server();
    let mut client = PeerCore::new(RpcApi::new());
    let b = client
        .build_call("math.add", vec![Arg::Value(JsonValue::Int(3)), Arg::Value(JsonValue::Int(6))])
        .expect("open peer accepts calls");
    let responses = serve(&mut server, &b.line);
    assert_eq!(responses.len(), 1);
    let result = expect_success(&mut client, &responses[0], &b.id);
    assert_eq!(json_text(&result), "9");
}

#[test]
fn call_echo_object() {
    let mut server = test_server();
    let mut client = PeerCore::new(RpcApi::new());
    let input = JsonValue::Obj(vec![
        ("name".to_string(), JsonValue::Str("kkrpc".to_string())),
        ("count".to_string(), JsonValue::Int(3)),
    ]);
    let b = client
        .build_call("echo", vec![Arg::Value(input.deep_clone())])
        .expect("open peer accepts calls");
    let responses = serve(&mut server, &b.line);
    let result = expect_success(&mut client, &responses[0], &b.id);
    assert_eq!(json_text(&result), json_text(&input));
    assert_eq!(json_text(&result), "{\"name\":\"kkrpc\",\"count\":3}");
}

#[test]
fn call_with_callback() {
    let mut server = test_server();
    let mut client = PeerCore::new(RpcApi::new());
    let b = client
        .build_call(
            "withCallback",
            vec![Arg::Value(JsonValue::Str("pong".to_string())), Arg::Callback],
        )
        .expect("open peer accepts calls");
    assert_eq!(b.callback_tokens.len(), 1);
    let responses = serve(&mut server, &b.line);
    assert_eq!(responses.len(), 2);

    let mut invocations = 0;
    match client.handle_line(responses[0].trim_end()) {
        Action::InvokeCallback { token, args } => {
            assert_eq!(token, b.callback_tokens[0]);
            assert_eq!(args.len(), 1);
            assert_eq!(json_text(&args[0]), "\"callback:pong\"");
            invocations += 1;
        },
        _ => panic!("expected the callback invocation first"),
    }
    let result = expect_success(&mut client, &responses[1], &b.id);
    assert_eq!(json_text(&result), "\"callback-sent\"");
    assert_eq!(invocations, 1);
}

#[test]
fn callback_and_response_commute() {
    let mut server = test_server();
    let mut client = PeerCore::new(RpcApi::new());
    let b = client
        .build_call(
            "withCallback",
            vec![Arg::Value(JsonValue::Str("x".to_string())), Arg::Callback],
        )
        .expect("open peer accepts calls");
    let responses = serve(&mut server, &b.line);
    let result = expect_success(&mut client, &responses[1], &b.id);
    assert_eq!(json_text(&result), "\"callback-sent\"");
    match client.handle_line(responses[0].trim_end()) {
        Action::InvokeCallback { token, .. } => assert_eq!(token, b.callback_tokens[0]),
        _ => panic!("the callback still runs after the response"),
    }
}

#[test]
fn property_access() {
    let mut server = test_server();
    let mut client = PeerCore::new(RpcApi::new());

    let b = client.build_get(&vec!["counter".to_string()]).expect("get");
    let r = serve(&mut server, &b.line);
    assert_eq!(json_text(&expect_success(&mut client, &r[0], &b.id)), "42");

    let b = client
        .build_get(&vec!["settings".to_string(), "theme".to_string()])
        .expect("get");
    let r = serve(&mut server, &b.line);
    assert_eq!(json_text(&expect_success(&mut client, &r[0], &b.id)), "\"light\"");

    let b = client
        .build_get(&vec![
            "settings".to_string(),
            "notifications".to_string(),
            "enabled".to_string(),
        ])
        .expect("get");
    let r = serve(&mut server, &b.line);
    assert_eq!(json_text(&expect_success(&mut client, &r[0], &b.id)), "true");
}

#[test]
fn set_then_get() {
    let mut server = test_server();
    let mut client = PeerCore::new(RpcApi::new());

    let b = client
        .build_set(
            &vec!["settings".to_string(), "theme".to_string()],
            JsonValue::Str("dark".to_string()),
        )
        .expect("set");
    let r = serve(&mut server, &b.line);
    assert_eq!(json_text(&expect_success(&mut client, &r[0], &b.id)), "true");

    let b = client
        .build_get(&vec!["settings".to_string(), "theme".to_string()])
        .expect("get");
    let r = serve(&mut server, &b.line);
    assert_eq!(json_text(&expect_success(&mut client, &r[0], &b.id)), "\"dark\"");
}

#[test]
fn twenty_interleaved_calls_correlate() {
    let mut server = test_server();
    let mut client = PeerCore::new(RpcApi::new());

    let mut calls = Vec::new();
    for i in 0..20i64 {
        let b = client
            .build_call(
                "math.add",
                vec![Arg::Value(JsonValue::Int(i)), Arg::Value(JsonValue::Int(i + 1))],
            )
            .expect("open peer accepts calls");
        calls.push((i, b));
    }
    let mut responses = Vec::new();
    for (i, b) in &calls {
        let r = serve(&mut server, &b.line);
        assert_eq!(r.len(), 1);
        responses.push((*i, b.id.clone(), r.into_iter().next().unwrap()));
    }
    responses.reverse();
    let mut seen = 0;
    for (i, id, line) in responses {
        let v = expect_success(&mut client, &line, &id);
        assert_eq!(json_text(&v), format!("{}", 2 * i + 1));
        seen += 1;
    }
    assert_eq!(seen, 20);
}

#[test]
fn unknown_method_returns_null() {
    let mut server = test_server();
    let mut client = PeerCore::new(RpcApi::new());
    let b = client.build_call("no.such.method", vec![]).expect("open peer accepts calls");
    let r = serve(&mut server, &b.line);
    assert_eq!(r.len(), 1);
    let v = expect_success(&mut client, &r[0], &b.id);
    assert_eq!(json_text(&v), "null");
}

#[test]
fn unmatched_response_is_dropped() {
    let mut client = PeerCore::new(RpcApi::new());
    let line = response_line("never-issued", JsonValue::Int(1));
    match client.handle_line(line.trim_end()) {
        Action::Ignore => {},
        _ => panic!("a response for an unknown id must be dropped"),
    }
}

#[test]
fn unknown_callback_token_is_dropped() {
    let mut client = PeerCore::new(RpcApi::new());
    let line = callback_line("some-id", "unknown-token", vec![JsonValue::Int(1)]);
    match client.handle_line(line.trim_end()) {
        Action::Ignore => {},
        _ => panic!("a callback for an unknown token must be dropped"),
    }
}

#[test]
fn malformed_lines_are_dropped() {
    let mut server = test_server();
    for line in ["", "   ", "not json", "{\"type\":\"mystery\",\"id\":\"x\"}", "[1,2"] {
        match server.handle_line(line) {
            Action::Ignore => {},
            _ => panic!("a malformed line must be dropped"),
        }
    }
}

#[test]
fn calls_after_close_fail() {
    let mut client = PeerCore::new(RpcApi::new());
    let b = client.build_call("math.add", vec![]).expect("open peer accepts calls");
    let abandoned = client.mark_closed();
    assert_eq!(abandoned, vec![b.id.clone()]);
    assert!(client.is_closed());
    let err = client.build_call("math.add", vec![]).unwrap_err();
    assert_eq!(err.message, "transport closed");
    assert_eq!(err.display_string(), "transport closed");
    assert!(client.build_get(&vec!["x".to_string()]).is_err());
    assert!(client.build_set(&vec!["x".to_string()], JsonValue::Null).is_err());
    assert!(client.build_construct("thing", vec![]).is_err());
}

#[test]
fn construct_dispatches_to_constructors() {
    let mut api = RpcApi::new();
    api.register_constructor("Counter");
    let mut server = PeerCore::new(api);
    let mut client = PeerCore::new(RpcApi::new());
    let b = client
        .build_construct("Counter", vec![Arg::Value(JsonValue::Int(5))])
        .expect("open peer accepts calls");
    match server.handle_line(b.line.trim_end()) {
        Action::RunHandler { constructor, method, args, .. } => {
            assert!(constructor);
            assert_eq!(method, "Counter");
            assert_eq!(as_int(&args[0]), 5);
        },
        _ => panic!("expected the constructor handler to run"),
    }
}

#[test]
fn callback_marker_string_is_reserved() {
    let mut server = test_server();
    let mut client = PeerCore::new(RpcApi::new());
    let b = client
        .build_call(
            "echo",
            vec![Arg::Value(JsonValue::Str("__callback__fake".to_string()))],
        )
        .expect("open peer accepts calls");
    match server.handle_line(b.line.trim_end()) {
        Action::RunHandler { args, .. } => match &args[0] {
            IncomingArg::Callback(token) => assert_eq!(token, "fake"),
            _ => panic!("the marker shape always reads as a callback"),
        },
        _ => panic!("expected the handler to run"),
    }
}

#[test]
fn error_responses_fail_the_call() {
    let mut client = PeerCore::new(RpcApi::new());
    let b = client.build_call("math.add", vec![]).expect("open peer accepts calls");
    let line = format!(
        "{{\"id\":\"{}\",\"method\":\"\",\"args\":{{\"error\":{{\"name\":\"TypeError\",\"message\":\"bad input\"}}}},\"type\":\"response\",\"version\":\"json\"}}",
        b.id
    );
    match client.handle_line(&line) {
        Action::Deliver { id, outcome } => {
            assert_eq!(id, b.id);
            match outcome {
                CallOutcome::Failure(e) => {
                    assert_eq!(e.name.as_deref(), Some("TypeError"));
                    assert_eq!(e.message, "bad input");
                    assert_eq!(e.display_string(), "TypeError: bad input");
                },
                CallOutcome::Success(_) => panic!("an error response must fail the call"),
            }
        },
        _ => panic!("expected a delivery"),
    }
}

#[test]
fn non_object_error_uses_its_text() {
    let mut client = PeerCore::new(RpcApi::new());
    let b = client.build_call("math.add", vec![]).expect("open peer accepts calls");
    let line = format!(
        "{{\"id\":\"{}\",\"method\":\"\",\"args\":{{\"error\":\"boom\"}},\"type\":\"response\",\"version\":\"json\"}}",
        b.id
    );
    match client.handle_line(&line) {
        Action::Deliver { outcome: CallOutcome::Failure(e), .. } => {
            assert_eq!(e.name, None);
            assert_eq!(e.message, "\"boom\"");
        },
        _ => panic!("expected a failed delivery"),
    }
}

#[test]
fn get_of_an_absent_path_returns_null() {
    let mut server = test_server();
    let mut client = PeerCore::new(RpcApi::new());
    let b = client.build_get(&vec!["no".to_string(), "where".to_string()]).expect("get");
    let r = serve(&mut server, &b.line);
    assert_eq!(json_text(&expect_success(&mut client, &r[0], &b.id)), "null");
}

#[test]
fn foreign_get_skips_non_string_path_entries() {
    let mut server = test_server();
    let line = "{\"id\":\"q1\",\"path\":[7,\"counter\"],\"type\":\"get\",\"version\":\"json\"}";
    match server.handle_line(line) {
        Action::Reply { line } => {
            assert_eq!(
                line,
                "{\"args\":{\"result\":42},\"id\":\"q1\",\"method\":\"\",\"type\":\"response\",\"version\":\"json\"}\n"
            );
        },
        _ => panic!("a get always gets a reply"),
    }
}

#[test]
fn set_with_no_value_stores_null() {
    let mut server = test_server();
    let mut client = PeerCore::new(RpcApi::new());
    let line = "{\"id\":\"q2\",\"path\":[\"counter\"],\"type\":\"set\",\"version\":\"json\"}";
    match server.handle_line(line) {
        Action::Reply { .. } => {},
        _ => panic!("a set always gets a reply"),
    }
    let b = client.build_get(&vec!["counter".to_string()]).expect("get");
    let r = serve(&mut server, &b.line);
    assert_eq!(json_text(&expect_success(&mut client, &r[0], &b.id)), "null");
}
