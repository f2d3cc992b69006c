use lsp_client::client::{number_from_id, prepare_lsp_json, Delivery, LanguageServer, Violation};
use lsp_client::json::RpcKind;
use lsp_client::parsing::{read_message, ByteReader};
use serde_json::Value;

fn parse(text: &str) -> Value {
    serde_json::from_str(text).unwrap()
}

fn frame_body(frame: &str) -> Value {
    let (head, body) = frame.split_once("\r\n\r\n").unwrap();
    assert_eq!(head, format!("Content-Length: {}", body.len()));
    parse(body)
}

#[test]
fn frame_has_length_header_and_body() {
    let v = parse(r#"{"a":"é"}"#);
    let frame = prepare_lsp_json(&v).unwrap();
    assert_eq!(frame, "Content-Length: 10\r\n\r\n{\"a\":\"é\"}");
}

#[test]
fn frame_reads_back_as_the_same_value() {
    let v = parse(r#"{"jsonrpc":"2.0","id":3,"params":[1,"two",null,{"x":false}]}"#);
    let frame = prepare_lsp_json(&v).unwrap();
    let mut reader = ByteReader::new(frame.into_bytes());
    assert_eq!(read_message(&mut reader).unwrap(), v);
}

#[test]
fn request_ids_start_at_one_and_increase() {
    let mut ls: LanguageServer<u32> = LanguageServer::new();
    let mut ids = Vec::new();
    for k in 0..5u32 {
        let (id, frame) = ls.send_request("m", Value::Null, k).unwrap();
        let body = frame_body(&frame);
        assert_eq!(body["id"], Value::from(id));
        assert_eq!(body["jsonrpc"], Value::from("2.0"));
        assert_eq!(body["method"], Value::from("m"));
        assert_eq!(body["params"], Value::Null);
        ids.push(id);
    }
    assert_eq!(ids, vec![1, 2, 3, 4, 5]);
}

#[test]
fn notification_has_no_id() {
    let mut ls: LanguageServer<u32> = LanguageServer::new();
    let frame = ls.send_notification("initialized", parse("{}")).unwrap();
    let body = frame_body(&frame);
    assert_eq!(body, parse(r#"{"jsonrpc":"2.0","method":"initialized","params":{}}"#));
    let (id, _) = ls.send_request("shutdown", Value::Null, 0).unwrap();
    assert_eq!(id, 1);
}

#[test]
fn success_response_completes_with_ok() {
    let mut ls: LanguageServer<&str> = LanguageServer::new();
    ls.send_request("initialize", parse("{}"), "first").unwrap();
    ls.send_request("other", parse("{}"), "second").unwrap();
    let msg = parse(r#"{"jsonrpc":"2.0","id":2,"result":{"ok":true}}"#);
    match ls.handle_msg(msg.clone()) {
        Ok(Delivery::Complete(c, Ok(v))) => {
            assert_eq!(c, "second");
            assert_eq!(v, msg);
        }
        _ => panic!("not delivered as a success"),
    }
    // a second response to the same id finds nothing in flight
    assert!(matches!(ls.handle_msg(msg), Err(Violation::UnknownId(2))));
}

#[test]
fn error_response_completes_with_err() {
    let mut ls: LanguageServer<u8> = LanguageServer::new();
    ls.send_request("shutdown", parse("{}"), 9).unwrap();
    let msg = parse(r#"{"jsonrpc":"2.0","id":1,"error":{"code":-32602,"message":"bad"}}"#);
    match ls.handle_msg(msg.clone()) {
        Ok(Delivery::Complete(c, Err(v))) => {
            assert_eq!(c, 9);
            assert!(v.get("error").is_some());
        }
        _ => panic!("not delivered as an error"),
    }
}

#[test]
fn string_id_routes_to_integer_id() {
    let mut ls: LanguageServer<u32> = LanguageServer::new();
    for k in 1..=8u32 {
        ls.send_request("m", Value::Null, k * 10).unwrap();
    }
    let msg = parse(r#"{"jsonrpc":"2.0","id":"7","result":null}"#);
    match ls.handle_msg(msg) {
        Ok(Delivery::Complete(c, Ok(_))) => assert_eq!(c, 70),
        _ => panic!("not routed"),
    }
}

#[test]
fn server_requests_and_notifications_are_ignored() {
    let mut ls: LanguageServer<u32> = LanguageServer::new();
    ls.send_request("m", Value::Null, 1).unwrap();
    let n = parse(r#"{"jsonrpc":"2.0","method":"window/logMessage","params":{}}"#);
    assert!(matches!(ls.handle_msg(n), Ok(Delivery::Ignored(RpcKind::Notification))));
    let r = parse(r#"{"jsonrpc":"2.0","id":1,"method":"workspace/configuration","params":{}}"#);
    assert!(matches!(ls.handle_msg(r), Ok(Delivery::Ignored(RpcKind::Request))));
    // the pending request is still there
    let ok = parse(r#"{"jsonrpc":"2.0","id":1,"result":1}"#);
    assert!(matches!(ls.handle_msg(ok), Ok(Delivery::Complete(1, Ok(_)))));
}

#[test]
fn protocol_violations() {
    let mut ls: LanguageServer<u32> = LanguageServer::new();
    assert!(matches!(ls.handle_msg(parse("[1,2]")), Err(Violation::NotRpc)));
    let unknown = parse(r#"{"jsonrpc":"2.0","id":5,"result":1}"#);
    assert!(matches!(ls.handle_msg(unknown), Err(Violation::UnknownId(5))));
    let bad = parse(r#"{"jsonrpc":"2.0","id":"x7","result":1}"#);
    assert!(matches!(ls.handle_msg(bad), Err(Violation::BadId)));
}

#[test]
fn ids_from_numbers_and_strings() {
    assert_eq!(number_from_id(Some(&Value::from(7))), Some(7));
    assert_eq!(number_from_id(Some(&Value::from("7"))), Some(7));
    assert_eq!(number_from_id(Some(&Value::from("seven"))), None);
    assert_eq!(number_from_id(Some(&Value::from(-1))), None);
    assert_eq!(number_from_id(Some(&Value::Null)), None);
    assert_eq!(number_from_id(None), None);
}

#[test]
fn scripted_session_initialize_then_bad_shutdown() {
    let mut ls: LanguageServer<&str> = LanguageServer::new();
    let (init_id, frame) = ls
        .send_request(
            "initialize",
            parse(r#"{"process_id":"Null","initialization_options":{},"capabilities":{}}"#),
            "initialize",
        )
        .unwrap();
    assert_eq!(frame_body(&frame)["method"], Value::from("initialize"));
    let reply = parse(&format!(
        r#"{{"jsonrpc":"2.0","id":{},"result":{{"capabilities":{{}}}}}}"#,
        init_id
    ));
    match ls.handle_msg(reply) {
        Ok(Delivery::Complete("initialize", Ok(v))) => assert!(v.get("error").is_none()),
        _ => panic!("initialize not completed"),
    }
    ls.send_notification("initialized", parse("{}")).unwrap();
    let (shutdown_id, _) = ls.send_request("shutdown", parse("{}"), "shutdown").unwrap();
    assert_eq!(shutdown_id, init_id + 1);
    let reply = parse(&format!(
        r#"{{"jsonrpc":"2.0","id":{},"error":{{"code":-32602,"message":"invalid params"}}}}"#,
        shutdown_id
    ));
    match ls.handle_msg(reply) {
        Ok(Delivery::Complete("shutdown", Err(v))) => assert!(v.get("error").is_some()),
        _ => panic!("shutdown not completed with an error"),
    }
    assert!(ls.send_notification("exit", parse("{}")).is_ok());
}
