use mcpd::json::{Json, JsonField};
use mcpd::mcp::{encode_request, encode_response, Inbound, RequestId, Response, classify_line};
use mcpd::proxy::{ReaderStep, ToolProxy};
use mcpd::registry::Tool;

fn mock_tool() -> Tool {
    Tool { name: "mock".to_string(), command: vec!["mock-server".to_string()], env: Vec::new() }
}

fn field(key: &str, value: Json) -> JsonField {
    JsonField { key: key.to_string(), value }
}

/// A scripted child: it records the request lines the proxy writes and
/// can answer them in any order.
fn echo_response_line(request_line: &str) -> String {
    match classify_line(request_line) {
        Inbound::Req(req) => {
            let echoed = req.params.unwrap_or(Json::Null);
            let resp = Response::success(req.id, echoed);
            encode_response(&resp)
        },
        _ => panic!("the child only answers requests"),
    }
}

#[test]
fn concurrent_calls_get_distinct_ids() {
    // ten calls in flight at once: the ids on the child's stdin are
    // pairwise distinct
    let mut proxy = ToolProxy::new(mock_tool());
    proxy.on_spawned();
    let mut ids = Vec::new();
    let mut lines = Vec::new();
    for i in 0..10i64 {
        let (id, req) = proxy.call_tool_request(
            "echo",
            Json::Obj(vec![field("n", Json::Int(i))]),
        );
        lines.push(encode_request(&req));
        ids.push(id);
    }
    for a in 0..ids.len() {
        for b in (a + 1)..ids.len() {
            assert_ne!(ids[a], ids[b]);
        }
    }
    assert_eq!(lines.len(), 10);
}

#[test]
fn responses_correlate_whatever_the_order() {
    // the child answers in reverse order; every waiter still gets the
    // response bearing its own id
    let mut proxy = ToolProxy::new(mock_tool());
    proxy.on_spawned();
    let mut issued = Vec::new();
    for i in 0..5i64 {
        let (id, req) = proxy.call_tool_request(
            "echo",
            Json::Obj(vec![field("n", Json::Int(i))]),
        );
        issued.push((id, encode_request(&req)));
    }
    for (id, line) in issued.iter().rev() {
        let answer = echo_response_line(line);
        match proxy.on_child_line(&answer) {
            ReaderStep::Deliver(got_id, resp) => {
                assert_eq!(got_id, *id);
                assert_eq!(resp.id, RequestId::Number(*id));
                // the delivered payload is the one sent under this id
                let n = match resp.result.unwrap() {
                    Json::Obj(fs) => match &fs[1].value {
                        Json::Obj(inner) => match inner[0].value {
                            Json::Int(n) => n,
                            _ => panic!("expected the echoed integer"),
                        },
                        _ => panic!("expected the echoed arguments"),
                    },
                    _ => panic!("expected the echoed params object"),
                };
                assert_eq!(n, *id - 1);  // ids start at 1, payloads at 0
            },
            ReaderStep::Ignore => panic!("a pending response was dropped"),
        }
    }
}

#[test]
fn eof_drains_every_pending_call() {
    let mut proxy = ToolProxy::new(mock_tool());
    proxy.on_spawned();
    let mut ids = Vec::new();
    for _ in 0..4 {
        let (id, _req) = proxy.list_tools_request();
        ids.push(id);
    }
    let drained = proxy.on_eof();
    assert_eq!(drained.len(), 4);
    for (k, (id, resp)) in drained.iter().enumerate() {
        assert_eq!(*id, ids[k]);
        assert_eq!(resp.id, RequestId::Number(*id));
        let e = resp.error.as_ref().unwrap();
        assert_eq!(e.code, -1);
        assert_eq!(e.message, "EOF from subprocess");
    }
    assert!(!proxy.running());
}

#[test]
fn stop_fails_pending_waiters() {
    let mut proxy = ToolProxy::new(mock_tool());
    proxy.on_spawned();
    let (_id, _req) = proxy.list_tools_request();
    let drained = proxy.on_stop();
    assert_eq!(drained.len(), 1);
    assert_eq!(drained[0].1.error.as_ref().unwrap().message, "Proxy stopped");
}

#[test]
fn restart_drains_with_restart_error() {
    let mut proxy = ToolProxy::new(mock_tool());
    proxy.on_spawned();
    let (first_id, _req) = proxy.list_tools_request();
    let drained = proxy.on_spawned();
    assert_eq!(drained.len(), 1);
    assert_eq!(drained[0].1.error.as_ref().unwrap().message, "proxy restarted");
    // ids are not recycled across the restart
    let (next_id, _req) = proxy.list_tools_request();
    assert!(next_id > first_id);
}

#[test]
fn concurrent_ensure_ready_sends_one_initialize() {
    // ten callers race through the double-checked latch: exactly one
    // wins it, so exactly one initialize frame is written
    let mut proxy = ToolProxy::new(mock_tool());
    proxy.on_spawned();
    let mut handshakes = 0;
    for _ in 0..10 {
        if !proxy.is_initialized() {
            if proxy.try_begin_init() {
                // the winner performs the handshake
                let (_id, req) = proxy.initialize_request();
                assert_eq!(req.method, "initialize");
                handshakes += 1;
                proxy.finish_init();
            }
        }
    }
    assert_eq!(handshakes, 1);
    assert!(proxy.is_initialized());
}

#[test]
fn failed_handshake_can_be_retried() {
    let mut proxy = ToolProxy::new(mock_tool());
    proxy.on_spawned();
    assert!(proxy.try_begin_init());
    proxy.fail_init();
    assert!(!proxy.is_initialized());
    assert!(proxy.try_begin_init());
    proxy.finish_init();
    assert!(proxy.is_initialized());
}

#[test]
fn reader_drops_foreign_and_unknown_responses() {
    let mut proxy = ToolProxy::new(mock_tool());
    proxy.on_spawned();
    let (_id, _req) = proxy.list_tools_request();

    // a string id is foreign: this proxy only mints numbers
    let foreign = encode_response(&Response::success(
        RequestId::Str("abc".to_string()),
        Json::Null,
    ));
    assert!(matches!(proxy.on_child_line(&foreign), ReaderStep::Ignore));

    // an unknown numeric id is a late arrival: dropped
    let late = encode_response(&Response::success(RequestId::Number(999), Json::Null));
    assert!(matches!(proxy.on_child_line(&late), ReaderStep::Ignore));

    // a non-decodable line is logged and skipped
    assert!(matches!(proxy.on_child_line("not json"), ReaderStep::Ignore));
}

#[test]
fn fractional_payloads_still_correlate() {
    // a child reply carrying a fractional number reaches its waiter
    // instead of being dropped
    let mut proxy = ToolProxy::new(mock_tool());
    proxy.on_spawned();
    let (id, _req) = proxy.list_tools_request();
    let line = format!(
        "{{\"jsonrpc\":\"2.0\",\"id\":{},\"result\":{{\"temperature\":0.7}}}}",
        id
    );
    match proxy.on_child_line(&line) {
        ReaderStep::Deliver(got, resp) => {
            assert_eq!(got, id);
            match resp.result.unwrap() {
                Json::Obj(fs) => {
                    assert_eq!(fs[0].key, "temperature");
                    assert_eq!(fs[0].value, Json::Num("0.7".to_string()));
                }
                _ => panic!("expected the child's object payload"),
            }
        }
        ReaderStep::Ignore => panic!("a pending response with a fraction was dropped"),
    }
}
