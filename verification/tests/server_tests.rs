use mcpd::json::{Json, JsonField};
use mcpd::mcp::{encode_response, classify_line, Inbound, RequestId, CallToolResult, Content,
    ListToolsResult, Tool};
use mcpd::registry::{Registry, Tool as RegistryTool};
use mcpd::server::{ListingOutcome, RequestAction, Server, wrap_tool_outcome, prefix_tool_name,
    unknown_tool_response};

fn field(key: &str, value: Json) -> JsonField {
    JsonField { key: key.to_string(), value }
}

fn mock_registry() -> Registry {
    let mut reg = Registry::new();
    reg.register(RegistryTool {
        name: "mock".to_string(),
        command: vec!["mock-server".to_string()],
        env: Vec::new(),
    });
    reg
}

fn mock_listing() -> ListingOutcome {
    ListingOutcome {
        proxy_name: "mock".to_string(),
        listing: Some(ListToolsResult {
            tools: vec![
                Tool {
                    name: "echo".to_string(),
                    description: Some("Echo back arguments".to_string()),
                    input_schema: Json::Obj(vec![field("type", Json::Str("object".to_string()))]),
                },
                Tool {
                    name: "fail".to_string(),
                    description: Some("Always fails".to_string()),
                    input_schema: Json::Obj(vec![field("type", Json::Str("object".to_string()))]),
                },
            ],
        }),
    }
}

#[test]
fn handshake_answers_with_the_gateway_identity() {
    // upstream sends the initialize request; the response carries
    // serverInfo.name "mcpd" and tools.listChanged false
    let line = r#"{"jsonrpc":"2.0","id":1,"method":"initialize","params":{"protocolVersion":"2024-11-05","capabilities":{},"clientInfo":{"name":"c","version":"1"}}}"#;
    let req = match classify_line(line) {
        Inbound::Req(r) => r,
        _ => panic!("the handshake line is a request"),
    };
    let mut server = Server::new(mock_registry());
    match server.route_request(&req) {
        RequestAction::Init => {},
        _ => panic!("initialize must route to the handshake"),
    }
    let resp = server.handle_initialize(req.id);
    let out = encode_response(&resp);
    assert_eq!(
        out,
        r#"{"jsonrpc":"2.0","id":1,"result":{"protocolVersion":"2024-11-05","capabilities":{"tools":{"listChanged":false}},"serverInfo":{"name":"mcpd","version":"0.1.0"}}}"#
    );
}

#[test]
fn listing_aggregates_under_prefixed_names() {
    let mut server = Server::new(mock_registry());
    let created = server.ensure_proxies();
    assert_eq!(created.len(), 1);
    assert_eq!(created[0].name, "mock");
    // a second walk creates nothing new
    assert_eq!(server.ensure_proxies().len(), 0);

    let resp = server.aggregate_tools(RequestId::Number(2), vec![mock_listing()]);
    let lt = ListToolsResult::from_json(&resp.result.unwrap()).unwrap();
    let names: Vec<&str> = lt.tools.iter().map(|t| t.name.as_str()).collect();
    assert_eq!(names, vec!["mock__echo", "mock__fail"]);
}

#[test]
fn call_routes_through_the_namespace() {
    let mut server = Server::new(mock_registry());
    server.ensure_proxies();
    server.aggregate_tools(RequestId::Number(2), vec![mock_listing()]);

    let line = r#"{"jsonrpc":"2.0","id":3,"method":"tools/call","params":{"name":"mock__echo","arguments":{"msg":"hi"}}}"#;
    let req = match classify_line(line) {
        Inbound::Req(r) => r,
        _ => panic!("expected a request"),
    };
    let params = match server.route_request(&req) {
        RequestAction::CallTool(p) => p,
        _ => panic!("tools/call must route to a call"),
    };
    assert_eq!(params.name, "mock__echo");
    let (proxy_name, original) = server.resolve_tool(&params.name).unwrap();
    assert_eq!(proxy_name, "mock");
    assert_eq!(original, "echo");

    // the child echoed the arguments back without error
    let child_result = CallToolResult {
        content: vec![Content::Text { text: r#"{"msg":"hi"}"#.to_string() }],
        is_error: false,
    };
    let resp = wrap_tool_outcome(req.id, Ok(child_result));
    let back = CallToolResult::from_json(&resp.result.unwrap()).unwrap();
    assert!(!back.is_error);
    match &back.content[0] {
        Content::Text { text } => assert!(text.contains("hi")),
        _ => panic!("expected text content"),
    }
}

#[test]
fn tool_failures_are_wrapped_not_raised() {
    // a failing call still yields a successful response, with the
    // error flagged inside the result
    let resp = wrap_tool_outcome(
        RequestId::Number(4),
        Err("RPC error -1: intentional failure".to_string()),
    );
    assert!(resp.error.is_none());
    let back = CallToolResult::from_json(&resp.result.unwrap()).unwrap();
    assert!(back.is_error);
    match &back.content[0] {
        Content::Text { text } => {
            assert_eq!(text, "Error: RPC error -1: intentional failure");
        },
        _ => panic!("expected text content"),
    }
}

#[test]
fn child_reported_failure_passes_through() {
    let child_result = CallToolResult {
        content: vec![Content::Text { text: "intentional failure".to_string() }],
        is_error: true,
    };
    let resp = wrap_tool_outcome(RequestId::Number(5), Ok(child_result));
    assert!(resp.error.is_none());
    let back = CallToolResult::from_json(&resp.result.unwrap()).unwrap();
    assert!(back.is_error);
}

#[test]
fn unknown_method_is_a_protocol_error() {
    let line = r#"{"jsonrpc":"2.0","id":9,"method":"resources/watch"}"#;
    let req = match classify_line(line) {
        Inbound::Req(r) => r,
        _ => panic!("expected a request"),
    };
    let server = Server::new(Registry::new());
    match server.route_request(&req) {
        RequestAction::Respond(resp) => {
            let e = resp.error.unwrap();
            assert_eq!(e.code, -32601);
            assert_eq!(e.message, "Unknown method: resources/watch");
        },
        _ => panic!("unknown methods must be answered directly"),
    }
}

#[test]
fn missing_and_invalid_params_are_rejected() {
    let server = Server::new(Registry::new());

    let line = r#"{"jsonrpc":"2.0","id":10,"method":"tools/call"}"#;
    let req = match classify_line(line) {
        Inbound::Req(r) => r,
        _ => panic!("expected a request"),
    };
    match server.route_request(&req) {
        RequestAction::Respond(resp) => {
            let e = resp.error.unwrap();
            assert_eq!(e.code, -32602);
            assert_eq!(e.message, "Missing params");
        },
        _ => panic!("missing params must be answered directly"),
    }

    let line = r#"{"jsonrpc":"2.0","id":11,"method":"tools/call","params":{"arguments":{}}}"#;
    let req = match classify_line(line) {
        Inbound::Req(r) => r,
        _ => panic!("expected a request"),
    };
    match server.route_request(&req) {
        RequestAction::Respond(resp) => {
            assert_eq!(resp.error.unwrap().code, -32602);
        },
        _ => panic!("invalid params must be answered directly"),
    }
}

#[test]
fn unknown_tool_is_answered_with_an_error() {
    let mut server = Server::new(mock_registry());
    server.aggregate_tools(RequestId::Number(2), vec![mock_listing()]);
    assert!(server.resolve_tool("mock__nope").is_none());
    let resp = unknown_tool_response(RequestId::Number(6), "mock__nope");
    let e = resp.error.unwrap();
    assert_eq!(e.code, -1);
    assert_eq!(e.message, "Unknown tool: mock__nope");
}

#[test]
fn later_listings_replace_the_namespace() {
    let mut server = Server::new(mock_registry());
    server.aggregate_tools(RequestId::Number(1), vec![mock_listing()]);
    assert!(server.resolve_tool("mock__echo").is_some());

    let smaller = ListingOutcome {
        proxy_name: "mock".to_string(),
        listing: Some(ListToolsResult {
            tools: vec![Tool {
                name: "only".to_string(),
                description: None,
                input_schema: Json::Null,
            }],
        }),
    };
    server.aggregate_tools(RequestId::Number(2), vec![smaller]);
    assert!(server.resolve_tool("mock__echo").is_none());
    assert!(server.resolve_tool("mock__only").is_some());
}

#[test]
fn failed_proxies_contribute_nothing() {
    let mut server = Server::new(mock_registry());
    let outcomes = vec![
        ListingOutcome { proxy_name: "dead".to_string(), listing: None },
        mock_listing(),
    ];
    let resp = server.aggregate_tools(RequestId::Number(2), outcomes);
    let lt = ListToolsResult::from_json(&resp.result.unwrap()).unwrap();
    assert_eq!(lt.tools.len(), 2);
    assert!(lt.tools.iter().all(|t| t.name.starts_with("mock__")));
}

#[test]
fn prefixing_joins_with_a_double_underscore() {
    assert_eq!(prefix_tool_name("mock", "echo"), "mock__echo");
}

#[test]
fn fractional_arguments_are_carried_through() {
    // an upstream call whose arguments hold a fraction is a request,
    // and the fraction survives to the forwarded parameters
    let line = r#"{"jsonrpc":"2.0","id":12,"method":"tools/call","params":{"name":"mock__echo","arguments":{"temperature":0.7,"seed":-3}}}"#;
    let req = match classify_line(line) {
        Inbound::Req(r) => r,
        _ => panic!("a frame with a fractional number must still parse"),
    };
    let server = Server::new(mock_registry());
    let params = match server.route_request(&req) {
        RequestAction::CallTool(p) => p,
        _ => panic!("expected a tool call"),
    };
    match params.arguments {
        Json::Obj(fs) => {
            assert_eq!(fs[0].key, "temperature");
            assert_eq!(fs[0].value, Json::Num("0.7".to_string()));
            assert_eq!(fs[1].key, "seed");
            assert_eq!(fs[1].value, Json::Int(-3));
        }
        _ => panic!("expected the argument object"),
    }
}
