use mcpd::json::{Json, JsonField};
use mcpd::mcp::{Request, RequestId, Response, Notification, Inbound};
use mcpd::mcp::{encode_request, encode_notification, encode_response, decode_response,
    classify_line};
use mcpd::mcp::{CallToolParams, CallToolResult, Content, ListToolsResult, Tool, InitializeResult};

fn field(key: &str, value: Json) -> JsonField {
    JsonField { key: key.to_string(), value }
}

#[test]
fn request_line_round_trips() {
    let req = Request::new(
        RequestId::Number(7),
        "tools/call",
        Some(Json::Obj(vec![field("name", Json::Str("echo".to_string()))])),
    );
    let line = encode_request(&req);
    match classify_line(&line) {
        Inbound::Req(back) => {
            assert_eq!(back.jsonrpc, "2.0");
            assert_eq!(back.id, RequestId::Number(7));
            assert_eq!(back.method, "tools/call");
            assert_eq!(
                back.params,
                Some(Json::Obj(vec![field("name", Json::Str("echo".to_string()))]))
            );
        },
        _ => panic!("request line not classified as a request"),
    }
}

#[test]
fn notification_line_round_trips() {
    let n = Notification::new("notifications/initialized");
    let line = encode_notification(&n);
    match classify_line(&line) {
        Inbound::Note(back) => {
            assert_eq!(back.method, "notifications/initialized");
            assert!(back.params.is_none());
        },
        _ => panic!("notification line not classified as a notification"),
    }
}

#[test]
fn response_line_round_trips() {
    let resp = Response::success(RequestId::Number(3), Json::Str("ok".to_string()));
    let line = encode_response(&resp);
    let back = decode_response(&line).unwrap();
    assert_eq!(back.id, RequestId::Number(3));
    assert_eq!(back.result, Some(Json::Str("ok".to_string())));
    assert!(back.error.is_none());

    let err = Response::error(RequestId::Str("abc".to_string()), -32601, "no such method");
    let line = encode_response(&err);
    let back = decode_response(&line).unwrap();
    assert_eq!(back.id, RequestId::Str("abc".to_string()));
    assert!(back.result.is_none());
    let e = back.error.unwrap();
    assert_eq!(e.code, -32601);
    assert_eq!(e.message, "no such method");
}

#[test]
fn decoding_ignores_field_order() {
    let line = r#"{"result":{"ok":true},"id":5,"jsonrpc":"2.0"}"#;
    let back = decode_response(line).unwrap();
    assert_eq!(back.id, RequestId::Number(5));
    assert_eq!(back.result, Some(Json::Obj(vec![field("ok", Json::Bool(true))])));
}

#[test]
fn response_shaped_line_is_not_a_request() {
    let line = r#"{"jsonrpc":"2.0","id":5,"result":{}}"#;
    match classify_line(line) {
        Inbound::Malformed => {},
        _ => panic!("a response line must not classify as request or notification"),
    }
}

#[test]
fn garbage_is_malformed() {
    match classify_line("not json at all") {
        Inbound::Malformed => {},
        _ => panic!("garbage must be malformed"),
    }
}

#[test]
fn call_tool_result_reads_both_error_spellings() {
    let camel = r#"{"content":[{"type":"text","text":"boom"}],"isError":true}"#;
    let snake = r#"{"content":[{"type":"text","text":"boom"}],"is_error":true}"#;
    let absent = r#"{"content":[]}"#;
    let c = CallToolResult::from_json(&mcpd::codec::decode_json(camel).unwrap()).unwrap();
    assert!(c.is_error);
    let s = CallToolResult::from_json(&mcpd::codec::decode_json(snake).unwrap()).unwrap();
    assert!(s.is_error);
    let a = CallToolResult::from_json(&mcpd::codec::decode_json(absent).unwrap()).unwrap();
    assert!(!a.is_error);
}

#[test]
fn content_variants_round_trip() {
    let items = vec![
        Content::Text { text: "hi".to_string() },
        Content::Image { data: "AAAA".to_string(), mime_type: "image/png".to_string() },
        Content::Resource { resource: Json::Obj(vec![field("uri", Json::Str("file:///x".to_string()))]) },
    ];
    for c in items {
        let j = c.to_json();
        let back = Content::from_json(&j).unwrap();
        assert_eq!(format!("{:?}", back), format!("{:?}", c));
    }
}

#[test]
fn list_tools_result_round_trips() {
    let lt = ListToolsResult {
        tools: vec![
            Tool {
                name: "echo".to_string(),
                description: Some("Echo back arguments".to_string()),
                input_schema: Json::Obj(vec![field("type", Json::Str("object".to_string()))]),
            },
            Tool { name: "fail".to_string(), description: None, input_schema: Json::Null },
        ],
    };
    let j = lt.to_json();
    let back = ListToolsResult::from_json(&j).unwrap();
    assert_eq!(back.tools.len(), 2);
    assert_eq!(back.tools[0].name, "echo");
    assert_eq!(back.tools[0].description.as_deref(), Some("Echo back arguments"));
    assert_eq!(back.tools[1].name, "fail");
    assert!(back.tools[1].description.is_none());
}

#[test]
fn call_tool_params_default_arguments() {
    let j = mcpd::codec::decode_json(r#"{"name":"echo"}"#).unwrap();
    let p = CallToolParams::from_json(&j).unwrap();
    assert_eq!(p.name, "echo");
    assert_eq!(p.arguments, Json::Null);
}

#[test]
fn initialize_result_parses_child_handshake() {
    let line = r#"{"protocolVersion":"2025-11-25","capabilities":{"tools":{"listChanged":false},"resources":{"listChanged":false}},"serverInfo":{"name":"mock-mcp","version":"0.1.0"}}"#;
    let j = mcpd::codec::decode_json(line).unwrap();
    let ir = InitializeResult::from_json(&j).unwrap();
    assert_eq!(ir.protocol_version, "2025-11-25");
    assert_eq!(ir.server_info.name, "mock-mcp");
    assert!(!ir.capabilities.tools.unwrap().list_changed);
}
