//! JSON-RPC message types — Request, Notification, Response — and their
//! line codec, built on the JSON value codec.

use vstd::prelude::*;
use crate::json::{Json, JsonField, JsonV, json_view, json_views, field_views, obj_get, wf_json};
use crate::json::{json_clone, obj_find, wf_fields};
use crate::codec::{ser_json, encode_json, decode_json};
use vstd::string::StringExecFns;

verus! {

// ---------------------------------------------------------------------
// Types and views
// ---------------------------------------------------------------------

/// A request id: a bare number or a bare string on the wire.
#[derive(Debug, PartialEq, Eq)]
pub enum RequestId {
    Number(i64),
    Str(String),
}

pub enum RequestIdV {
    Number(int),
    Str(Seq<char>),
}

impl View for RequestId {
    type V = RequestIdV;

    open spec fn view(&self) -> RequestIdV {
        match self {
            RequestId::Number(n) => RequestIdV::Number(*n as int),
            RequestId::Str(s) => RequestIdV::Str(s@),
        }
    }
}

/// A call that expects a response.
#[derive(Debug)]
pub struct Request {
    pub jsonrpc: String,
    pub id: RequestId,
    pub method: String,
    pub params: Option<Json>,
}

/// A one-way message: no id, no response.
#[derive(Debug)]
pub struct Notification {
    pub jsonrpc: String,
    pub method: String,
    pub params: Option<Json>,
}

/// The answer to a request, carrying exactly one of `result` / `error`
/// when constructed by this crate.
#[derive(Debug)]
pub struct Response {
    pub jsonrpc: String,
    pub id: RequestId,
    pub result: Option<Json>,
    pub error: Option<RpcError>,
}

/// A protocol-level error inside a response.
#[derive(Debug)]
pub struct RpcError {
    pub code: i32,
    pub message: String,
    pub data: Option<Json>,
}

pub struct RequestV {
    pub jsonrpc: Seq<char>,
    pub id: RequestIdV,
    pub method: Seq<char>,
    pub params: Option<JsonV>,
}

pub struct NotificationV {
    pub jsonrpc: Seq<char>,
    pub method: Seq<char>,
    pub params: Option<JsonV>,
}

pub struct ResponseV {
    pub jsonrpc: Seq<char>,
    pub id: RequestIdV,
    pub result: Option<JsonV>,
    pub error: Option<RpcErrorV>,
}

pub struct RpcErrorV {
    pub code: int,
    pub message: Seq<char>,
    pub data: Option<JsonV>,
}

pub open spec fn opt_view(p: Option<Json>) -> Option<JsonV> {
    match p {
        Some(j) => Some(json_view(j)),
        None => None,
    }
}

impl View for Request {
    type V = RequestV;

    open spec fn view(&self) -> RequestV {
        RequestV {
            jsonrpc: self.jsonrpc@,
            id: self.id@,
            method: self.method@,
            params: opt_view(self.params),
        }
    }
}

impl View for Notification {
    type V = NotificationV;

    open spec fn view(&self) -> NotificationV {
        NotificationV {
            jsonrpc: self.jsonrpc@,
            method: self.method@,
            params: opt_view(self.params),
        }
    }
}

impl View for RpcError {
    type V = RpcErrorV;

    open spec fn view(&self) -> RpcErrorV {
        RpcErrorV { code: self.code as int, message: self.message@, data: opt_view(self.data) }
    }
}

impl View for Response {
    type V = ResponseV;

    open spec fn view(&self) -> ResponseV {
        ResponseV {
            jsonrpc: self.jsonrpc@,
            id: self.id@,
            result: opt_view(self.result),
            error: match self.error {
                Some(e) => Some(e@),
                None => None,
            },
        }
    }
}

// ---------------------------------------------------------------------
// Well-formedness
// ---------------------------------------------------------------------

pub open spec fn wf_id(id: RequestIdV) -> bool {
    match id {
        RequestIdV::Number(n) => i64::MIN <= n <= i64::MAX,
        RequestIdV::Str(_) => true,
    }
}

pub open spec fn wf_opt(p: Option<JsonV>) -> bool {
    match p {
        Some(v) => wf_json(v),
        None => true,
    }
}

pub open spec fn wf_request(r: RequestV) -> bool {
    wf_id(r.id) && wf_opt(r.params)
}

pub open spec fn wf_notification(n: NotificationV) -> bool {
    wf_opt(n.params)
}

pub open spec fn wf_rpc_error(e: RpcErrorV) -> bool {
    i32::MIN <= e.code <= i32::MAX && wf_opt(e.data)
}

pub open spec fn wf_response(r: ResponseV) -> bool {
    wf_id(r.id) && wf_opt(r.result) && (match r.error {
        Some(e) => wf_rpc_error(e),
        None => true,
    })
}

// ---------------------------------------------------------------------
// JSON shape of each message
// ---------------------------------------------------------------------

pub open spec fn id_json(id: RequestIdV) -> JsonV {
    match id {
        RequestIdV::Number(n) => JsonV::Int(n),
        RequestIdV::Str(s) => JsonV::Str(s),
    }
}

pub open spec fn id_of_json(j: JsonV) -> Option<RequestIdV> {
    match j {
        JsonV::Int(n) => Some(RequestIdV::Number(n)),
        JsonV::Str(s) => Some(RequestIdV::Str(s)),
        _ => None,
    }
}

pub open spec fn req_json(r: RequestV) -> JsonV {
    JsonV::Obj(
        {
            let base = seq![
                ("jsonrpc"@, JsonV::Str(r.jsonrpc)),
                ("id"@, id_json(r.id)),
                ("method"@, JsonV::Str(r.method)),
            ];
            match r.params {
                Some(p) => base.push(("params"@, p)),
                None => base,
            }
        },
    )
}

pub open spec fn note_json(n: NotificationV) -> JsonV {
    JsonV::Obj(
        {
            let base = seq![
                ("jsonrpc"@, JsonV::Str(n.jsonrpc)),
                ("method"@, JsonV::Str(n.method)),
            ];
            match n.params {
                Some(p) => base.push(("params"@, p)),
                None => base,
            }
        },
    )
}

pub open spec fn err_json(e: RpcErrorV) -> JsonV {
    JsonV::Obj(
        {
            let base = seq![("code"@, JsonV::Int(e.code)), ("message"@, JsonV::Str(e.message))];
            match e.data {
                Some(d) => base.push(("data"@, d)),
                None => base,
            }
        },
    )
}

pub open spec fn resp_json(r: ResponseV) -> JsonV {
    JsonV::Obj(
        {
            let base = seq![("jsonrpc"@, JsonV::Str(r.jsonrpc)), ("id"@, id_json(r.id))];
            let with_result = match r.result {
                Some(v) => base.push(("result"@, v)),
                None => base,
            };
            match r.error {
                Some(e) => with_result.push(("error"@, err_json(e))),
                None => with_result,
            }
        },
    )
}

/// The wire line of a request.
pub open spec fn ser_request(r: RequestV) -> Seq<char> {
    ser_json(req_json(r))
}

/// The wire line of a notification.
pub open spec fn ser_notification(n: NotificationV) -> Seq<char> {
    ser_json(note_json(n))
}

/// The wire line of a response.
pub open spec fn ser_response(r: ResponseV) -> Seq<char> {
    ser_json(resp_json(r))
}

// ---------------------------------------------------------------------
// Reading messages out of a JSON value (field order free; unknown
// fields ignored)
// ---------------------------------------------------------------------

pub open spec fn request_of_json(j: JsonV) -> Option<RequestV> {
    match j {
        JsonV::Obj(fs) => {
            match (obj_get(fs, "jsonrpc"@), obj_get(fs, "id"@), obj_get(fs, "method"@)) {
                (Some(JsonV::Str(ver)), Some(idj), Some(JsonV::Str(m))) => {
                    match id_of_json(idj) {
                        Some(id) => Some(
                            RequestV { jsonrpc: ver, id, method: m, params: obj_get(fs, "params"@) },
                        ),
                        None => None,
                    }
                },
                _ => None,
            }
        },
        _ => None,
    }
}

pub open spec fn notification_of_json(j: JsonV) -> Option<NotificationV> {
    match j {
        JsonV::Obj(fs) => {
            match (obj_get(fs, "jsonrpc"@), obj_get(fs, "method"@)) {
                (Some(JsonV::Str(ver)), Some(JsonV::Str(m))) => Some(
                    NotificationV { jsonrpc: ver, method: m, params: obj_get(fs, "params"@) },
                ),
                _ => None,
            }
        },
        _ => None,
    }
}

pub open spec fn err_of_json(j: JsonV) -> Option<RpcErrorV> {
    match j {
        JsonV::Obj(fs) => {
            match (obj_get(fs, "code"@), obj_get(fs, "message"@)) {
                (Some(JsonV::Int(c)), Some(JsonV::Str(m))) => if i32::MIN <= c <= i32::MAX {
                    Some(RpcErrorV { code: c, message: m, data: obj_get(fs, "data"@) })
                } else {
                    None
                },
                _ => None,
            }
        },
        _ => None,
    }
}

pub open spec fn response_of_json(j: JsonV) -> Option<ResponseV> {
    match j {
        JsonV::Obj(fs) => {
            match (obj_get(fs, "jsonrpc"@), obj_get(fs, "id"@)) {
                (Some(JsonV::Str(ver)), Some(idj)) => {
                    match id_of_json(idj) {
                        Some(id) => {
                            let err = match obj_get(fs, "error"@) {
                                Some(ej) => match err_of_json(ej) {
                                    Some(e) => Some(Some(e)),
                                    None => None,
                                },
                                None => Some(None),
                            };
                            match err {
                                Some(e) => Some(
                                    ResponseV {
                                        jsonrpc: ver,
                                        id,
                                        result: obj_get(fs, "result"@),
                                        error: e,
                                    },
                                ),
                                None => None,
                            }
                        },
                        None => None,
                    }
                },
                _ => None,
            }
        },
        _ => None,
    }
}

// ---------------------------------------------------------------------
// Constructors
// ---------------------------------------------------------------------

impl Request {
    /// A fresh request with `jsonrpc: "2.0"`.
    pub fn new(id: RequestId, method: &str, params: Option<Json>) -> (r: Request)
        ensures
            r.jsonrpc@ == "2.0"@,
            r.id == id,
            r.method@ == method@,
            r.params == params,
    {
        Request { jsonrpc: String::from_str("2.0"), id, method: String::from_str(method), params }
    }
}

impl Notification {
    /// A fresh notification with `jsonrpc: "2.0"` and no parameters.
    pub fn new(method: &str) -> (r: Notification)
        ensures
            r.jsonrpc@ == "2.0"@,
            r.method@ == method@,
            r.params is None,
    {
        Notification { jsonrpc: String::from_str("2.0"), method: String::from_str(method), params: None }
    }
}

impl Response {
    /// A successful response carrying `result`.
    pub fn success(id: RequestId, result: Json) -> (r: Response)
        ensures
            r.jsonrpc@ == "2.0"@,
            r.id == id,
            r.result == Some(result),
            r.error is None,
    {
        Response { jsonrpc: String::from_str("2.0"), id, result: Some(result), error: None }
    }

    /// An error response with `code` and `message` and no data.
    pub fn error(id: RequestId, code: i32, message: &str) -> (r: Response)
        ensures
            r.jsonrpc@ == "2.0"@,
            r.id == id,
            r.result is None,
            r.error matches Some(e) && e.code == code && e.message@ == message@ && e.data is None,
    {
        Response {
            jsonrpc: String::from_str("2.0"),
            id,
            result: None,
            error: Some(RpcError { code, message: String::from_str(message), data: None }),
        }
    }
}

// ---------------------------------------------------------------------
// Building the JSON shape
// ---------------------------------------------------------------------

impl RequestId {
    pub fn to_json(&self) -> (r: Json)
        ensures
            r@ == id_json(self@),
    {
        match self {
            RequestId::Number(n) => Json::Int(*n),
            RequestId::Str(s) => Json::Str(s.clone()),
        }
    }
}

impl Request {
    pub fn to_json(&self) -> (r: Json)
        ensures
            r@ == req_json(self@),
    {
        let mut fields: Vec<JsonField> = Vec::new();
        fields.push(JsonField { key: String::from_str("jsonrpc"), value: Json::Str(self.jsonrpc.clone()) });
        fields.push(JsonField { key: String::from_str("id"), value: self.id.to_json() });
        fields.push(JsonField { key: String::from_str("method"), value: Json::Str(self.method.clone()) });
        match &self.params {
            Some(p) => {
                fields.push(JsonField { key: String::from_str("params"), value: json_clone(p) });
            },
            None => {},
        }
        let ghost fs = fields@;
        let r = Json::Obj(fields);
        proof {
            crate::json::lemma_field_views(fs);
            let target = req_json(self@)->Obj_0;
            assert forall|k: int| 0 <= k < fs.len() implies field_views(fs)[k] == target[k] by {
                assert(field_views(fs)[k] == (fs[k].key@, json_view(fs[k].value)));
            }
            assert(field_views(fs) =~= target);
        }
        r
    }
}

impl Notification {
    pub fn to_json(&self) -> (r: Json)
        ensures
            r@ == note_json(self@),
    {
        let mut fields: Vec<JsonField> = Vec::new();
        fields.push(JsonField { key: String::from_str("jsonrpc"), value: Json::Str(self.jsonrpc.clone()) });
        fields.push(JsonField { key: String::from_str("method"), value: Json::Str(self.method.clone()) });
        match &self.params {
            Some(p) => {
                fields.push(JsonField { key: String::from_str("params"), value: json_clone(p) });
            },
            None => {},
        }
        let ghost fs = fields@;
        let r = Json::Obj(fields);
        proof {
            crate::json::lemma_field_views(fs);
            let target = note_json(self@)->Obj_0;
            assert forall|k: int| 0 <= k < fs.len() implies field_views(fs)[k] == target[k] by {
                assert(field_views(fs)[k] == (fs[k].key@, json_view(fs[k].value)));
            }
            assert(field_views(fs) =~= target);
        }
        r
    }
}

impl RpcError {
    pub fn to_json(&self) -> (r: Json)
        ensures
            r@ == err_json(self@),
    {
        let mut fields: Vec<JsonField> = Vec::new();
        fields.push(JsonField { key: String::from_str("code"), value: Json::Int(self.code as i64) });
        fields.push(JsonField { key: String::from_str("message"), value: Json::Str(self.message.clone()) });
        match &self.data {
            Some(d) => {
                fields.push(JsonField { key: String::from_str("data"), value: json_clone(d) });
            },
            None => {},
        }
        let ghost fs = fields@;
        let r = Json::Obj(fields);
        proof {
            crate::json::lemma_field_views(fs);
            let target = err_json(self@)->Obj_0;
            assert forall|k: int| 0 <= k < fs.len() implies field_views(fs)[k] == target[k] by {
                assert(field_views(fs)[k] == (fs[k].key@, json_view(fs[k].value)));
            }
            assert(field_views(fs) =~= target);
        }
        r
    }
}

impl Response {
    pub fn to_json(&self) -> (r: Json)
        ensures
            r@ == resp_json(self@),
    {
        let mut fields: Vec<JsonField> = Vec::new();
        fields.push(JsonField { key: String::from_str("jsonrpc"), value: Json::Str(self.jsonrpc.clone()) });
        fields.push(JsonField { key: String::from_str("id"), value: self.id.to_json() });
        match &self.result {
            Some(v) => {
                fields.push(JsonField { key: String::from_str("result"), value: json_clone(v) });
            },
            None => {},
        }
        match &self.error {
            Some(e) => {
                fields.push(JsonField { key: String::from_str("error"), value: e.to_json() });
            },
            None => {},
        }
        let ghost fs = fields@;
        let r = Json::Obj(fields);
        proof {
            crate::json::lemma_field_views(fs);
            let target = resp_json(self@)->Obj_0;
            assert forall|k: int| 0 <= k < fs.len() implies field_views(fs)[k] == target[k] by {
                assert(field_views(fs)[k] == (fs[k].key@, json_view(fs[k].value)));
            }
            assert(field_views(fs) =~= target);
        }
        r
    }
}

// ---------------------------------------------------------------------
// Reading the JSON shape
// ---------------------------------------------------------------------

fn id_from(j: &Json) -> (r: Option<RequestId>)
    ensures
        match r {
            Some(id) => id_of_json(json_view(*j)) == Some(id@),
            None => id_of_json(json_view(*j)) is None,
        },
{
    match j {
        Json::Int(n) => Some(RequestId::Number(*n)),
        Json::Str(s) => Some(RequestId::Str(s.clone())),
        _ => None,
    }
}

/// Reads a request out of a decoded value.
pub fn request_from(j: &Json) -> (r: Option<Request>)
    ensures
        match r {
            Some(x) => request_of_json(json_view(*j)) == Some(x@),
            None => request_of_json(json_view(*j)) is None,
        },
{
    let fields = match j {
        Json::Obj(fs) => fs,
        _ => {
            return None;
        },
    };
    let ver = match obj_find(fields, "jsonrpc") {
        Some(v) => match v {
            Json::Str(sv) => sv.clone(),
            _ => {
                return None;
            },
        },
        None => {
            return None;
        },
    };
    let id = match obj_find(fields, "id") {
        Some(v) => match id_from(v) {
            Some(id) => id,
            None => {
                return None;
            },
        },
        None => {
            return None;
        },
    };
    let method = match obj_find(fields, "method") {
        Some(v) => match v {
            Json::Str(sv) => sv.clone(),
            _ => {
                return None;
            },
        },
        None => {
            return None;
        },
    };
    let params = match obj_find(fields, "params") {
        Some(v) => Some(json_clone(v)),
        None => None,
    };
    Some(Request { jsonrpc: ver, id, method, params })
}

/// Reads a notification out of a decoded value.
pub fn notification_from(j: &Json) -> (r: Option<Notification>)
    ensures
        match r {
            Some(x) => notification_of_json(json_view(*j)) == Some(x@),
            None => notification_of_json(json_view(*j)) is None,
        },
{
    let fields = match j {
        Json::Obj(fs) => fs,
        _ => {
            return None;
        },
    };
    let ver = match obj_find(fields, "jsonrpc") {
        Some(v) => match v {
            Json::Str(sv) => sv.clone(),
            _ => {
                return None;
            },
        },
        None => {
            return None;
        },
    };
    let method = match obj_find(fields, "method") {
        Some(v) => match v {
            Json::Str(sv) => sv.clone(),
            _ => {
                return None;
            },
        },
        None => {
            return None;
        },
    };
    let params = match obj_find(fields, "params") {
        Some(v) => Some(json_clone(v)),
        None => None,
    };
    Some(Notification { jsonrpc: ver, method, params })
}

fn err_from(j: &Json) -> (r: Option<RpcError>)
    ensures
        match r {
            Some(x) => err_of_json(json_view(*j)) == Some(x@),
            None => err_of_json(json_view(*j)) is None,
        },
{
    let fields = match j {
        Json::Obj(fs) => fs,
        _ => {
            return None;
        },
    };
    let code = match obj_find(fields, "code") {
        Some(v) => match v {
            Json::Int(n) => {
                if *n < -2147483648i64 || *n > 2147483647i64 {
                    return None;
                }
                *n as i32
            },
            _ => {
                return None;
            },
        },
        None => {
            return None;
        },
    };
    let message = match obj_find(fields, "message") {
        Some(v) => match v {
            Json::Str(sv) => sv.clone(),
            _ => {
                return None;
            },
        },
        None => {
            return None;
        },
    };
    let data = match obj_find(fields, "data") {
        Some(v) => Some(json_clone(v)),
        None => None,
    };
    Some(RpcError { code, message, data })
}

/// Reads a response out of a decoded value.
pub fn response_from(j: &Json) -> (r: Option<Response>)
    ensures
        match r {
            Some(x) => response_of_json(json_view(*j)) == Some(x@),
            None => response_of_json(json_view(*j)) is None,
        },
{
    let fields = match j {
        Json::Obj(fs) => fs,
        _ => {
            return None;
        },
    };
    let ver = match obj_find(fields, "jsonrpc") {
        Some(v) => match v {
            Json::Str(sv) => sv.clone(),
            _ => {
                return None;
            },
        },
        None => {
            return None;
        },
    };
    let id = match obj_find(fields, "id") {
        Some(v) => match id_from(v) {
            Some(id) => id,
            None => {
                return None;
            },
        },
        None => {
            return None;
        },
    };
    let error = match obj_find(fields, "error") {
        Some(v) => match err_from(v) {
            Some(e) => Some(e),
            None => {
                return None;
            },
        },
        None => None,
    };
    let result = match obj_find(fields, "result") {
        Some(v) => Some(json_clone(v)),
        None => None,
    };
    Some(Response { jsonrpc: ver, id, result, error })
}

// ---------------------------------------------------------------------
// Runtime well-formedness checks, for callers outside the proofs
// ---------------------------------------------------------------------

fn id_is_wf(id: &RequestId) -> (r: bool)
    ensures
        r == wf_id(id@),
{
    match id {
        RequestId::Number(_) => true,
        RequestId::Str(_) => true,
    }
}

fn opt_is_wf(p: &Option<Json>) -> (r: bool)
    ensures
        r == wf_opt(opt_view(*p)),
{
    match p {
        Some(j) => crate::json::json_is_wf(j),
        None => true,
    }
}

/// Whether the codec can carry this request.
pub fn request_is_wf(r: &Request) -> (out: bool)
    ensures
        out == wf_request(r@),
{
    id_is_wf(&r.id) && opt_is_wf(&r.params)
}

/// Whether the codec can carry this notification.
pub fn notification_is_wf(n: &Notification) -> (out: bool)
    ensures
        out == wf_notification(n@),
{
    opt_is_wf(&n.params)
}

/// Whether the codec can carry this response.
pub fn response_is_wf(r: &Response) -> (out: bool)
    ensures
        out == wf_response(r@),
{
    let head = id_is_wf(&r.id) && opt_is_wf(&r.result);
    if !head {
        return false;
    }
    match &r.error {
        Some(e) => opt_is_wf(&e.data),
        None => true,
    }
}

// ---------------------------------------------------------------------
// Round trip: reading a message's JSON shape gives the message back
// ---------------------------------------------------------------------

/// The field names of the wire format: all printable, all distinct.
proof fn lemma_wire_keys()
    ensures
        "jsonrpc"@ != "id"@ && "jsonrpc"@ != "method"@ && "jsonrpc"@ != "params"@,
        "jsonrpc"@ != "result"@ && "jsonrpc"@ != "error"@,
        "id"@ != "method"@ && "id"@ != "params"@ && "id"@ != "result"@ && "id"@ != "error"@,
        "method"@ != "params"@,
        "result"@ != "error"@,
        "code"@ != "message"@ && "code"@ != "data"@,
        "message"@ != "data"@,
{
    reveal_strlit("jsonrpc");
    reveal_strlit("id");
    reveal_strlit("method");
    reveal_strlit("params");
    reveal_strlit("result");
    reveal_strlit("error");
    reveal_strlit("code");
    reveal_strlit("message");
    reveal_strlit("data");
    assert("jsonrpc"@[0] == 'j');
    assert("id"@[0] == 'i');
    assert("method"@[0] == 'm');
    assert("params"@[0] == 'p');
    assert("result"@[0] == 'r');
    assert("error"@[0] == 'e');
    assert("code"@[0] == 'c');
    assert("message"@[0] == 'm');
    assert("data"@[0] == 'd');
    assert("jsonrpc"@.len() == 7 && "message"@.len() == 7);
    assert("jsonrpc"@[1] == 's' && "message"@[1] == 'e');
}

pub proof fn lemma_id_json_wf(id: RequestIdV)
    requires
        wf_id(id),
    ensures
        wf_json(id_json(id)),
{
}

/// A well-formed request has a well-formed JSON shape.
pub proof fn lemma_req_json_wf(rv: RequestV)
    requires
        wf_request(rv),
    ensures
        wf_json(req_json(rv)),
{
    lemma_wire_keys();
    lemma_id_json_wf(rv.id);
    let fs = req_json(rv)->Obj_0;
    crate::json::lemma_wf_fields(fs);
    assert forall|k: int| 0 <= k < fs.len() implies wf_json((#[trigger] fs[k]).1) by {}
}

/// A well-formed notification has a well-formed JSON shape.
pub proof fn lemma_note_json_wf(nv: NotificationV)
    requires
        wf_notification(nv),
    ensures
        wf_json(note_json(nv)),
{
    lemma_wire_keys();
    let fs = note_json(nv)->Obj_0;
    crate::json::lemma_wf_fields(fs);
    assert forall|k: int| 0 <= k < fs.len() implies wf_json((#[trigger] fs[k]).1) by {}
}

pub proof fn lemma_err_json_wf(ev: RpcErrorV)
    requires
        wf_rpc_error(ev),
    ensures
        wf_json(err_json(ev)),
{
    lemma_wire_keys();
    let fs = err_json(ev)->Obj_0;
    crate::json::lemma_wf_fields(fs);
    assert forall|k: int| 0 <= k < fs.len() implies wf_json((#[trigger] fs[k]).1) by {}
}

/// A well-formed response has a well-formed JSON shape.
pub proof fn lemma_resp_json_wf(rv: ResponseV)
    requires
        wf_response(rv),
    ensures
        wf_json(resp_json(rv)),
{
    lemma_wire_keys();
    lemma_id_json_wf(rv.id);
    match rv.error {
        Some(e) => lemma_err_json_wf(e),
        None => (),
    }
    let fs = resp_json(rv)->Obj_0;
    crate::json::lemma_wf_fields(fs);
    assert forall|k: int| 0 <= k < fs.len() implies wf_json((#[trigger] fs[k]).1) by {}
}

/// Reading a request's JSON shape gives the request back.
pub proof fn lemma_request_round_trip(rv: RequestV)
    requires
        wf_request(rv),
    ensures
        request_of_json(req_json(rv)) == Some(rv),
{
    lemma_wire_keys();
    let fs = req_json(rv)->Obj_0;
    let fs1 = fs.drop_first();
    let fs2 = fs1.drop_first();
    let fs3 = fs2.drop_first();
    assert(fs[0] == ("jsonrpc"@, JsonV::Str(rv.jsonrpc)));
    assert(fs1[0] == fs[1] && fs[1] == ("id"@, id_json(rv.id)));
    assert(fs2[0] == fs1[1] && fs1[1] == fs[2] && fs[2] == ("method"@, JsonV::Str(rv.method)));
    assert(obj_get(fs, "jsonrpc"@) == Some(JsonV::Str(rv.jsonrpc)));
    assert(obj_get(fs, "id"@) == obj_get(fs1, "id"@));
    assert(obj_get(fs1, "id"@) == Some(id_json(rv.id)));
    assert(obj_get(fs, "method"@) == obj_get(fs1, "method"@));
    assert(obj_get(fs1, "method"@) == obj_get(fs2, "method"@));
    assert(obj_get(fs2, "method"@) == Some(JsonV::Str(rv.method)));
    assert(obj_get(fs, "params"@) == obj_get(fs1, "params"@));
    assert(obj_get(fs1, "params"@) == obj_get(fs2, "params"@));
    assert(obj_get(fs2, "params"@) == obj_get(fs3, "params"@));
    match rv.params {
        Some(p) => {
            assert(fs3[0] == fs[3] && fs[3] == ("params"@, p));
            assert(obj_get(fs3, "params"@) == Some(p));
        },
        None => {
            assert(fs3.len() == 0);
            assert(obj_get(fs3, "params"@) is None);
        },
    }
    assert(id_of_json(id_json(rv.id)) == Some(rv.id));
}

/// Reading a notification's JSON shape gives the notification back.
pub proof fn lemma_notification_round_trip(nv: NotificationV)
    requires
        wf_notification(nv),
    ensures
        notification_of_json(note_json(nv)) == Some(nv),
{
    lemma_wire_keys();
    let fs = note_json(nv)->Obj_0;
    let fs1 = fs.drop_first();
    let fs2 = fs1.drop_first();
    assert(fs[0] == ("jsonrpc"@, JsonV::Str(nv.jsonrpc)));
    assert(fs1[0] == fs[1] && fs[1] == ("method"@, JsonV::Str(nv.method)));
    assert(obj_get(fs, "jsonrpc"@) == Some(JsonV::Str(nv.jsonrpc)));
    assert(obj_get(fs, "method"@) == obj_get(fs1, "method"@));
    assert(obj_get(fs1, "method"@) == Some(JsonV::Str(nv.method)));
    assert(obj_get(fs, "params"@) == obj_get(fs1, "params"@));
    assert(obj_get(fs1, "params"@) == obj_get(fs2, "params"@));
    match nv.params {
        Some(p) => {
            assert(fs2[0] == fs[2] && fs[2] == ("params"@, p));
            assert(obj_get(fs2, "params"@) == Some(p));
        },
        None => {
            assert(fs2.len() == 0);
            assert(obj_get(fs2, "params"@) is None);
        },
    }
}

/// A notification's JSON shape carries no `id`, so it never reads as a
/// request.
pub proof fn lemma_note_not_request(nv: NotificationV)
    ensures
        request_of_json(note_json(nv)) is None,
{
    lemma_wire_keys();
    let fs = note_json(nv)->Obj_0;
    let fs1 = fs.drop_first();
    let fs2 = fs1.drop_first();
    assert(fs[0] == ("jsonrpc"@, JsonV::Str(nv.jsonrpc)));
    assert(fs1[0] == fs[1] && fs[1] == ("method"@, JsonV::Str(nv.method)));
    assert("params"@ != "id"@) by {
        reveal_strlit("params");
        reveal_strlit("id");
    }
    assert(obj_get(fs, "id"@) == obj_get(fs1, "id"@));
    assert(obj_get(fs1, "id"@) == obj_get(fs2, "id"@));
    match nv.params {
        Some(p) => {
            assert(fs2[0] == fs[2] && fs[2] == ("params"@, p));
            let fs3 = fs2.drop_first();
            assert(fs3.len() == 0);
            assert(obj_get(fs2, "id"@) == obj_get(fs3, "id"@));
            assert(obj_get(fs3, "id"@) is None);
        },
        None => {
            assert(fs2.len() == 0);
            assert(obj_get(fs2, "id"@) is None);
        },
    }
}

proof fn lemma_err_round_trip(ev: RpcErrorV)
    requires
        wf_rpc_error(ev),
    ensures
        err_of_json(err_json(ev)) == Some(ev),
{
    lemma_wire_keys();
    let fs = err_json(ev)->Obj_0;
    let fs1 = fs.drop_first();
    let fs2 = fs1.drop_first();
    assert(fs[0] == ("code"@, JsonV::Int(ev.code)));
    assert(fs1[0] == fs[1] && fs[1] == ("message"@, JsonV::Str(ev.message)));
    assert(obj_get(fs, "code"@) == Some(JsonV::Int(ev.code)));
    assert(obj_get(fs, "message"@) == obj_get(fs1, "message"@));
    assert(obj_get(fs1, "message"@) == Some(JsonV::Str(ev.message)));
    assert(obj_get(fs, "data"@) == obj_get(fs1, "data"@));
    assert(obj_get(fs1, "data"@) == obj_get(fs2, "data"@));
    match ev.data {
        Some(d) => {
            assert(fs2[0] == fs[2] && fs[2] == ("data"@, d));
            assert(obj_get(fs2, "data"@) == Some(d));
        },
        None => {
            assert(fs2.len() == 0);
            assert(obj_get(fs2, "data"@) is None);
        },
    }
}

/// Reading a response's JSON shape gives the response back.
pub proof fn lemma_response_round_trip(rv: ResponseV)
    requires
        wf_response(rv),
    ensures
        response_of_json(resp_json(rv)) == Some(rv),
{
    lemma_wire_keys();
    let fs = resp_json(rv)->Obj_0;
    let fs1 = fs.drop_first();
    let fs2 = fs1.drop_first();
    assert(fs[0] == ("jsonrpc"@, JsonV::Str(rv.jsonrpc)));
    assert(fs1[0] == fs[1] && fs[1] == ("id"@, id_json(rv.id)));
    assert(obj_get(fs, "jsonrpc"@) == Some(JsonV::Str(rv.jsonrpc)));
    assert(obj_get(fs, "id"@) == obj_get(fs1, "id"@));
    assert(obj_get(fs1, "id"@) == Some(id_json(rv.id)));
    assert(id_of_json(id_json(rv.id)) == Some(rv.id));
    assert(obj_get(fs, "result"@) == obj_get(fs1, "result"@));
    assert(obj_get(fs1, "result"@) == obj_get(fs2, "result"@));
    assert(obj_get(fs, "error"@) == obj_get(fs1, "error"@));
    assert(obj_get(fs1, "error"@) == obj_get(fs2, "error"@));
    match rv.error {
        Some(e) => {
            lemma_err_round_trip(e);
            match rv.result {
                Some(v) => {
                    let fs3 = fs2.drop_first();
                    assert(fs2[0] == fs[2] && fs[2] == ("result"@, v));
                    assert(fs3[0] == fs[3] && fs[3] == ("error"@, err_json(e)));
                    assert(obj_get(fs2, "result"@) == Some(v));
                    assert(obj_get(fs2, "error"@) == obj_get(fs3, "error"@));
                    assert(obj_get(fs3, "error"@) == Some(err_json(e)));
                },
                None => {
                    assert(fs2[0] == fs[2] && fs[2] == ("error"@, err_json(e)));
                    assert(obj_get(fs2, "error"@) == Some(err_json(e)));
                    let fs3 = fs2.drop_first();
                    assert(fs3.len() == 0);
                    assert(obj_get(fs2, "result"@) == obj_get(fs3, "result"@));
                    assert(obj_get(fs3, "result"@) is None);
                },
            }
        },
        None => {
            match rv.result {
                Some(v) => {
                    assert(fs2[0] == fs[2] && fs[2] == ("result"@, v));
                    assert(obj_get(fs2, "result"@) == Some(v));
                    let fs3 = fs2.drop_first();
                    assert(fs3.len() == 0);
                    assert(obj_get(fs2, "error"@) == obj_get(fs3, "error"@));
                    assert(obj_get(fs3, "error"@) is None);
                },
                None => {
                    assert(fs2.len() == 0);
                    assert(obj_get(fs2, "result"@) is None);
                    assert(obj_get(fs2, "error"@) is None);
                },
            }
        },
    }
}

// ---------------------------------------------------------------------
// Well-formedness of what extraction reads
// ---------------------------------------------------------------------

/// A field looked up in a well-formed object is well formed.
pub proof fn lemma_obj_get_wf(fs: Seq<(Seq<char>, JsonV)>, k: Seq<char>)
    requires
        wf_fields(fs),
        obj_get(fs, k) is Some,
    ensures
        wf_json(obj_get(fs, k)->0),
    decreases fs.len(),
{
    if fs.len() > 0 {
        if fs[0].0 != k {
            lemma_obj_get_wf(fs.drop_first(), k);
        }
    }
}

/// What `request_of_json` reads from a well-formed value is well formed.
pub proof fn lemma_request_of_json_wf(j: JsonV)
    requires
        wf_json(j),
        request_of_json(j) is Some,
    ensures
        wf_request(request_of_json(j)->0),
{
    let fs = j->Obj_0;
    lemma_obj_get_wf(fs, "jsonrpc"@);
    lemma_obj_get_wf(fs, "id"@);
    lemma_obj_get_wf(fs, "method"@);
    if obj_get(fs, "params"@) is Some {
        lemma_obj_get_wf(fs, "params"@);
    }
}

/// What `notification_of_json` reads from a well-formed value is well
/// formed.
pub proof fn lemma_notification_of_json_wf(j: JsonV)
    requires
        wf_json(j),
        notification_of_json(j) is Some,
    ensures
        wf_notification(notification_of_json(j)->0),
{
    let fs = j->Obj_0;
    lemma_obj_get_wf(fs, "jsonrpc"@);
    lemma_obj_get_wf(fs, "method"@);
    if obj_get(fs, "params"@) is Some {
        lemma_obj_get_wf(fs, "params"@);
    }
}

/// What `response_of_json` reads from a well-formed value is well formed.
pub proof fn lemma_response_of_json_wf(j: JsonV)
    requires
        wf_json(j),
        response_of_json(j) is Some,
    ensures
        wf_response(response_of_json(j)->0),
{
    let fs = j->Obj_0;
    lemma_obj_get_wf(fs, "jsonrpc"@);
    lemma_obj_get_wf(fs, "id"@);
    if obj_get(fs, "result"@) is Some {
        lemma_obj_get_wf(fs, "result"@);
    }
    if obj_get(fs, "error"@) is Some {
        lemma_obj_get_wf(fs, "error"@);
        let ej = obj_get(fs, "error"@)->0;
        if err_of_json(ej) is Some {
            let efs = ej->Obj_0;
            lemma_obj_get_wf(efs, "message"@);
            if obj_get(efs, "data"@) is Some {
                lemma_obj_get_wf(efs, "data"@);
            }
        }
    }
}

// ---------------------------------------------------------------------
// Line codec
// ---------------------------------------------------------------------

/// Renders a request as one line of wire text.
pub fn encode_request(r: &Request) -> (out: String)
    requires
        wf_request(r@),
    ensures
        out@ == ser_request(r@),
{
    let j = r.to_json();
    proof {
        lemma_req_json_wf(r@);
    }
    encode_json(&j)
}

/// Renders a notification as one line of wire text.
pub fn encode_notification(n: &Notification) -> (out: String)
    requires
        wf_notification(n@),
    ensures
        out@ == ser_notification(n@),
{
    let j = n.to_json();
    proof {
        lemma_note_json_wf(n@);
    }
    encode_json(&j)
}

/// Renders a response as one line of wire text.
pub fn encode_response(r: &Response) -> (out: String)
    requires
        wf_response(r@),
    ensures
        out@ == ser_response(r@),
{
    let j = r.to_json();
    proof {
        lemma_resp_json_wf(r@);
    }
    encode_json(&j)
}

/// Reads a response line from a child.  Inverts `encode_response` on
/// every well-formed response.
pub fn decode_response(s: &str) -> (r: Option<Response>)
    ensures
        r matches Some(resp) ==> wf_response(resp@),
        forall|rv: ResponseV| #![trigger ser_response(rv)]
            (wf_response(rv) && s@ == ser_response(rv)) ==> (r matches Some(resp) && resp@ == rv),
{
    proof {
        assert forall|rv: ResponseV| wf_response(rv) && s@ == ser_response(rv) implies wf_json(
            resp_json(rv),
        ) by {
            lemma_resp_json_wf(rv);
        }
    }
    match decode_json(s) {
        Err(()) => {
            proof {
                assert forall|rv: ResponseV| wf_response(rv) && s@ == ser_response(rv) implies false by {
                    assert(ser_json(resp_json(rv)) == ser_json(resp_json(rv)));
                }
            }
            None
        },
        Ok(j) => {
            let out = response_from(&j);
            proof {
                assert forall|rv: ResponseV| wf_response(rv) && s@ == ser_response(rv) implies (
                out matches Some(resp) && resp@ == rv) by {
                    assert(ser_json(resp_json(rv)) == ser_json(resp_json(rv)));
                    assert(j@ == resp_json(rv));
                    lemma_response_round_trip(rv);
                }
                if out is Some {
                    lemma_response_of_json_wf(j@);
                }
            }
            out
        },
    }
}

/// A line read from upstream, as the dispatcher sees it.
pub enum Inbound {
    Req(Request),
    Note(Notification),
    Malformed,
}

/// Classifies one upstream line: a request if it reads as one, else a
/// notification, else malformed.  Inverts `encode_request` and
/// `encode_notification` on every well-formed message.
pub fn classify_line(s: &str) -> (r: Inbound)
    ensures
        r matches Inbound::Req(req) ==> wf_request(req@),
        r matches Inbound::Note(n) ==> wf_notification(n@),
        forall|rv: RequestV| #![trigger ser_request(rv)]
            (wf_request(rv) && s@ == ser_request(rv)) ==> (r matches Inbound::Req(req) && req@
                == rv),
        forall|nv: NotificationV| #![trigger ser_notification(nv)]
            (wf_notification(nv) && s@ == ser_notification(nv)) ==> (r matches Inbound::Note(n)
                && n@ == nv),
{
    proof {
        assert forall|rv: RequestV| wf_request(rv) && s@ == ser_request(rv) implies wf_json(
            req_json(rv),
        ) by {
            lemma_req_json_wf(rv);
        }
        assert forall|nv: NotificationV| wf_notification(nv) && s@ == ser_notification(nv) implies
            wf_json(note_json(nv)) by {
            lemma_note_json_wf(nv);
        }
    }
    match decode_json(s) {
        Err(()) => {
            proof {
                assert forall|rv: RequestV| wf_request(rv) && s@ == ser_request(rv) implies false by {
                    assert(ser_json(req_json(rv)) == ser_json(req_json(rv)));
                }
                assert forall|nv: NotificationV|
                    wf_notification(nv) && s@ == ser_notification(nv) implies false by {
                    assert(ser_json(note_json(nv)) == ser_json(note_json(nv)));
                }
            }
            Inbound::Malformed
        },
        Ok(j) => {
            match request_from(&j) {
                Some(req) => {
                    proof {
                        lemma_request_of_json_wf(j@);
                        assert forall|rv: RequestV| wf_request(rv) && s@ == ser_request(rv) implies
                            req@ == rv by {
                            assert(ser_json(req_json(rv)) == ser_json(req_json(rv)));
                            assert(j@ == req_json(rv));
                            lemma_request_round_trip(rv);
                        }
                        assert forall|nv: NotificationV|
                            wf_notification(nv) && s@ == ser_notification(nv) implies false by {
                            assert(ser_json(note_json(nv)) == ser_json(note_json(nv)));
                            assert(j@ == note_json(nv));
                            lemma_note_not_request(nv);
                        }
                    }
                    Inbound::Req(req)
                },
                None => {
                    match notification_from(&j) {
                        Some(n) => {
                            proof {
                                lemma_notification_of_json_wf(j@);
                                assert forall|rv: RequestV|
                                    wf_request(rv) && s@ == ser_request(rv) implies false by {
                                    assert(ser_json(req_json(rv)) == ser_json(req_json(rv)));
                                    assert(j@ == req_json(rv));
                                    lemma_request_round_trip(rv);
                                }
                                assert forall|nv: NotificationV|
                                    wf_notification(nv) && s@ == ser_notification(nv) implies n@
                                    == nv by {
                                    assert(ser_json(note_json(nv)) == ser_json(note_json(nv)));
                                    assert(j@ == note_json(nv));
                                    lemma_notification_round_trip(nv);
                                }
                            }
                            Inbound::Note(n)
                        },
                        None => {
                            proof {
                                assert forall|rv: RequestV|
                                    wf_request(rv) && s@ == ser_request(rv) implies false by {
                                    assert(ser_json(req_json(rv)) == ser_json(req_json(rv)));
                                    assert(j@ == req_json(rv));
                                    lemma_request_round_trip(rv);
                                }
                                assert forall|nv: NotificationV|
                                    wf_notification(nv) && s@ == ser_notification(nv) implies false by {
                                    assert(ser_json(note_json(nv)) == ser_json(note_json(nv)));
                                    assert(j@ == note_json(nv));
                                    lemma_notification_round_trip(nv);
                                }
                            }
                            Inbound::Malformed
                        },
                    }
                },
            }
        },
    }
}

// ---------------------------------------------------------------------
// MCP payload types
// ---------------------------------------------------------------------

/// The protocol version this gateway speaks.
pub open spec fn spec_protocol_version() -> Seq<char> {
    "2024-11-05"@
}

/// The protocol version this gateway speaks.
pub fn protocol_version() -> (r: &'static str)
    ensures
        r@ == spec_protocol_version(),
{
    "2024-11-05"
}

/// The gateway's own name on the wire.
pub open spec fn spec_server_name() -> Seq<char> {
    "mcpd"@
}

/// The gateway's own version on the wire.
pub open spec fn spec_server_version() -> Seq<char> {
    "0.1.0"@
}

/// What a client can do; nothing is advertised.
#[derive(Debug)]
pub struct ClientCapabilities {}

/// Who the client is.
#[derive(Debug)]
pub struct ClientInfo {
    pub name: String,
    pub version: String,
}

/// The parameters of the `initialize` call this gateway sends to a
/// child.
#[derive(Debug)]
pub struct InitializeParams {
    pub protocol_version: String,
    pub capabilities: ClientCapabilities,
    pub client_info: ClientInfo,
}

/// Who the server is.
#[derive(Debug)]
pub struct ServerInfo {
    pub name: String,
    pub version: String,
}

/// Whether the tool list can change under the client.
#[derive(Debug)]
pub struct ToolsCapability {
    pub list_changed: bool,
}

/// What a server can do.
#[derive(Debug)]
pub struct ServerCapabilities {
    pub tools: Option<ToolsCapability>,
}

/// The result of the `initialize` handshake.
#[derive(Debug)]
pub struct InitializeResult {
    pub protocol_version: String,
    pub capabilities: ServerCapabilities,
    pub server_info: ServerInfo,
}

pub open spec fn info_json(name: Seq<char>, version: Seq<char>) -> JsonV {
    JsonV::Obj(seq![("name"@, JsonV::Str(name)), ("version"@, JsonV::Str(version))])
}

pub open spec fn tools_capability_json(list_changed: bool) -> JsonV {
    JsonV::Obj(seq![("listChanged"@, JsonV::Bool(list_changed))])
}

pub open spec fn server_capabilities_json(tools: Option<bool>) -> JsonV {
    JsonV::Obj(
        seq![
            (
                "tools"@,
                match tools {
                    Some(lc) => tools_capability_json(lc),
                    None => JsonV::Null,
                },
            ),
        ],
    )
}

pub open spec fn initialize_result_json(
    protocol_version: Seq<char>,
    tools: Option<bool>,
    name: Seq<char>,
    version: Seq<char>,
) -> JsonV {
    JsonV::Obj(
        seq![
            ("protocolVersion"@, JsonV::Str(protocol_version)),
            ("capabilities"@, server_capabilities_json(tools)),
            ("serverInfo"@, info_json(name, version)),
        ],
    )
}

pub open spec fn initialize_params_json(
    protocol_version: Seq<char>,
    name: Seq<char>,
    version: Seq<char>,
) -> JsonV {
    JsonV::Obj(
        seq![
            ("protocolVersion"@, JsonV::Str(protocol_version)),
            ("capabilities"@, JsonV::Obj(Seq::empty())),
            ("clientInfo"@, info_json(name, version)),
        ],
    )
}

impl ClientInfo {
    pub fn to_json(&self) -> (r: Json)
        ensures
            r@ == info_json(self.name@, self.version@),
    {
        let mut fields: Vec<JsonField> = Vec::new();
        fields.push(JsonField { key: String::from_str("name"), value: Json::Str(self.name.clone()) });
        fields.push(
            JsonField { key: String::from_str("version"), value: Json::Str(self.version.clone()) },
        );
        let ghost fs = fields@;
        let r = Json::Obj(fields);
        proof {
            crate::json::lemma_field_views(fs);
            let target = info_json(self.name@, self.version@)->Obj_0;
            assert forall|k: int| 0 <= k < fs.len() implies field_views(fs)[k] == target[k] by {
                assert(field_views(fs)[k] == (fs[k].key@, json_view(fs[k].value)));
            }
            assert(field_views(fs) =~= target);
        }
        r
    }
}

impl ServerInfo {
    pub fn to_json(&self) -> (r: Json)
        ensures
            r@ == info_json(self.name@, self.version@),
    {
        let mut fields: Vec<JsonField> = Vec::new();
        fields.push(JsonField { key: String::from_str("name"), value: Json::Str(self.name.clone()) });
        fields.push(
            JsonField { key: String::from_str("version"), value: Json::Str(self.version.clone()) },
        );
        let ghost fs = fields@;
        let r = Json::Obj(fields);
        proof {
            crate::json::lemma_field_views(fs);
            let target = info_json(self.name@, self.version@)->Obj_0;
            assert forall|k: int| 0 <= k < fs.len() implies field_views(fs)[k] == target[k] by {
                assert(field_views(fs)[k] == (fs[k].key@, json_view(fs[k].value)));
            }
            assert(field_views(fs) =~= target);
        }
        r
    }
}

pub open spec fn server_capabilities_view(c: ServerCapabilities) -> Option<bool> {
    match c.tools {
        Some(tc) => Some(tc.list_changed),
        None => None,
    }
}

impl ServerCapabilities {
    pub fn to_json(&self) -> (r: Json)
        ensures
            r@ == server_capabilities_json(server_capabilities_view(*self)),
    {
        let inner: Json = match &self.tools {
            Some(tc) => {
                let mut tfields: Vec<JsonField> = Vec::new();
                tfields.push(
                    JsonField {
                        key: String::from_str("listChanged"),
                        value: Json::Bool(tc.list_changed),
                    },
                );
                let ghost tfs = tfields@;
                let inner = Json::Obj(tfields);
                proof {
                    crate::json::lemma_field_views(tfs);
                    let target = tools_capability_json(tc.list_changed)->Obj_0;
                    assert forall|k: int| 0 <= k < tfs.len() implies field_views(tfs)[k]
                        == target[k] by {
                        assert(field_views(tfs)[k] == (tfs[k].key@, json_view(tfs[k].value)));
                    }
                    assert(field_views(tfs) =~= target);
                }
                inner
            },
            None => Json::Null,
        };
        let mut fields: Vec<JsonField> = Vec::new();
        fields.push(JsonField { key: String::from_str("tools"), value: inner });
        let ghost fs = fields@;
        let r = Json::Obj(fields);
        proof {
            crate::json::lemma_field_views(fs);
            let target = server_capabilities_json(server_capabilities_view(*self))->Obj_0;
            assert forall|k: int| 0 <= k < fs.len() implies field_views(fs)[k] == target[k] by {
                assert(field_views(fs)[k] == (fs[k].key@, json_view(fs[k].value)));
            }
            assert(field_views(fs) =~= target);
        }
        r
    }
}

impl InitializeResult {
    pub fn to_json(&self) -> (r: Json)
        ensures
            r@ == initialize_result_json(
                self.protocol_version@,
                server_capabilities_view(self.capabilities),
                self.server_info.name@,
                self.server_info.version@,
            ),
    {
        let mut fields: Vec<JsonField> = Vec::new();
        fields.push(
            JsonField {
                key: String::from_str("protocolVersion"),
                value: Json::Str(self.protocol_version.clone()),
            },
        );
        fields.push(
            JsonField { key: String::from_str("capabilities"), value: self.capabilities.to_json() },
        );
        fields.push(
            JsonField { key: String::from_str("serverInfo"), value: self.server_info.to_json() },
        );
        let ghost fs = fields@;
        let r = Json::Obj(fields);
        proof {
            crate::json::lemma_field_views(fs);
            let target = initialize_result_json(
                self.protocol_version@,
                server_capabilities_view(self.capabilities),
                self.server_info.name@,
                self.server_info.version@,
            )->Obj_0;
            assert forall|k: int| 0 <= k < fs.len() implies field_views(fs)[k] == target[k] by {
                assert(field_views(fs)[k] == (fs[k].key@, json_view(fs[k].value)));
            }
            assert(field_views(fs) =~= target);
        }
        r
    }
}

impl InitializeParams {
    pub fn to_json(&self) -> (r: Json)
        ensures
            r@ == initialize_params_json(
                self.protocol_version@,
                self.client_info.name@,
                self.client_info.version@,
            ),
    {
        let empty: Vec<JsonField> = Vec::new();
        proof {
            assert(field_views(empty@) =~= Seq::<(Seq<char>, JsonV)>::empty());
        }
        let mut fields: Vec<JsonField> = Vec::new();
        fields.push(
            JsonField {
                key: String::from_str("protocolVersion"),
                value: Json::Str(self.protocol_version.clone()),
            },
        );
        fields.push(JsonField { key: String::from_str("capabilities"), value: Json::Obj(empty) });
        fields.push(
            JsonField { key: String::from_str("clientInfo"), value: self.client_info.to_json() },
        );
        let ghost fs = fields@;
        let r = Json::Obj(fields);
        proof {
            crate::json::lemma_field_views(fs);
            let target = initialize_params_json(
                self.protocol_version@,
                self.client_info.name@,
                self.client_info.version@,
            )->Obj_0;
            assert forall|k: int| 0 <= k < fs.len() implies field_views(fs)[k] == target[k] by {
                assert(field_views(fs)[k] == (fs[k].key@, json_view(fs[k].value)));
            }
            assert(field_views(fs) =~= target);
        }
        r
    }
}

/// One tool a server advertises.
#[derive(Debug)]
pub struct Tool {
    pub name: String,
    pub description: Option<String>,
    pub input_schema: Json,
}

pub struct McpToolV {
    pub name: Seq<char>,
    pub description: Option<Seq<char>>,
    pub input_schema: JsonV,
}

impl View for Tool {
    type V = McpToolV;

    open spec fn view(&self) -> McpToolV {
        McpToolV {
            name: self.name@,
            description: match self.description {
                Some(d) => Some(d@),
                None => None,
            },
            input_schema: json_view(self.input_schema),
        }
    }
}

pub open spec fn mcp_tool_json(t: McpToolV) -> JsonV {
    JsonV::Obj(
        seq![
            ("name"@, JsonV::Str(t.name)),
            (
                "description"@,
                match t.description {
                    Some(d) => JsonV::Str(d),
                    None => JsonV::Null,
                },
            ),
            ("inputSchema"@, t.input_schema),
        ],
    )
}

pub open spec fn mcp_tool_of_json(j: JsonV) -> Option<McpToolV> {
    match j {
        JsonV::Obj(fs) => match obj_get(fs, "name"@) {
            Some(JsonV::Str(n)) => {
                let desc = match obj_get(fs, "description"@) {
                    None => Some(None),
                    Some(JsonV::Null) => Some(None),
                    Some(JsonV::Str(d)) => Some(Some(d)),
                    Some(_) => None,
                };
                match desc {
                    Some(d) => Some(
                        McpToolV {
                            name: n,
                            description: d,
                            input_schema: match obj_get(fs, "inputSchema"@) {
                                Some(v) => v,
                                None => JsonV::Null,
                            },
                        },
                    ),
                    None => None,
                }
            },
            _ => None,
        },
        _ => None,
    }
}

impl Tool {
    pub fn to_json(&self) -> (r: Json)
        ensures
            r@ == mcp_tool_json(self@),
    {
        let mut fields: Vec<JsonField> = Vec::new();
        fields.push(JsonField { key: String::from_str("name"), value: Json::Str(self.name.clone()) });
        let desc: Json = match &self.description {
            Some(d) => Json::Str(d.clone()),
            None => Json::Null,
        };
        fields.push(JsonField { key: String::from_str("description"), value: desc });
        fields.push(
            JsonField {
                key: String::from_str("inputSchema"),
                value: json_clone(&self.input_schema),
            },
        );
        let ghost fs = fields@;
        let r = Json::Obj(fields);
        proof {
            crate::json::lemma_field_views(fs);
            let target = mcp_tool_json(self@)->Obj_0;
            assert forall|k: int| 0 <= k < fs.len() implies field_views(fs)[k] == target[k] by {
                assert(field_views(fs)[k] == (fs[k].key@, json_view(fs[k].value)));
            }
            assert(field_views(fs) =~= target);
        }
        r
    }

    /// Reads one advertised tool out of a decoded value.
    pub fn from_json(j: &Json) -> (r: Option<Tool>)
        ensures
            match r {
                Some(t) => mcp_tool_of_json(json_view(*j)) == Some(t@),
                None => mcp_tool_of_json(json_view(*j)) is None,
            },
    {
        let fields = match j {
            Json::Obj(fs) => fs,
            _ => {
                return None;
            },
        };
        let name = match obj_find(fields, "name") {
            Some(v) => match v {
                Json::Str(s) => s.clone(),
                _ => {
                    return None;
                },
            },
            None => {
                return None;
            },
        };
        let description: Option<String> = match obj_find(fields, "description") {
            None => None,
            Some(v) => match v {
                Json::Null => None,
                Json::Str(d) => Some(d.clone()),
                _ => {
                    return None;
                },
            },
        };
        let input_schema: Json = match obj_find(fields, "inputSchema") {
            Some(v) => json_clone(v),
            None => Json::Null,
        };
        Some(Tool { name, description, input_schema })
    }
}

/// The result of `tools/list`.
#[derive(Debug)]
pub struct ListToolsResult {
    pub tools: Vec<Tool>,
}

pub open spec fn mcp_tool_views(ts: Seq<Tool>) -> Seq<McpToolV> {
    ts.map_values(|t: Tool| t@)
}

pub open spec fn list_tools_result_json(ts: Seq<McpToolV>) -> JsonV {
    JsonV::Obj(
        seq![("tools"@, JsonV::Arr(ts.map_values(|t: McpToolV| mcp_tool_json(t))))],
    )
}

pub open spec fn tools_seq_of_json(items: Seq<JsonV>) -> Option<Seq<McpToolV>>
    decreases items.len(),
{
    if items.len() == 0 {
        Some(Seq::empty())
    } else {
        match mcp_tool_of_json(items[0]) {
            Some(t) => match tools_seq_of_json(items.drop_first()) {
                Some(r) => Some(seq![t] + r),
                None => None,
            },
            None => None,
        }
    }
}

pub open spec fn list_tools_result_of_json(j: JsonV) -> Option<Seq<McpToolV>> {
    match j {
        JsonV::Obj(fs) => match obj_get(fs, "tools"@) {
            Some(JsonV::Arr(items)) => tools_seq_of_json(items),
            _ => None,
        },
        _ => None,
    }
}

proof fn lemma_tools_seq_of_json(items: Seq<JsonV>)
    ensures
        (tools_seq_of_json(items) is Some) == (forall|k: int|
            0 <= k < items.len() ==> mcp_tool_of_json(#[trigger] items[k]) is Some),
        tools_seq_of_json(items) matches Some(r) ==> r.len() == items.len() && (forall|k: int|
            0 <= k < items.len() ==> #[trigger] r[k] == mcp_tool_of_json(items[k])->0),
    decreases items.len(),
{
    if items.len() > 0 {
        let rest = items.drop_first();
        lemma_tools_seq_of_json(rest);
        assert(forall|k: int| 0 <= k < rest.len() ==> #[trigger] rest[k] == items[k + 1]);
        if mcp_tool_of_json(items[0]) is Some && tools_seq_of_json(rest) is Some {
            assert forall|k: int| 0 <= k < items.len() implies mcp_tool_of_json(
                (#[trigger] items[k]),
            ) is Some by {
                if k > 0 {
                    assert(mcp_tool_of_json(rest[k - 1]) is Some);
                }
            }
            let r = tools_seq_of_json(items)->0;
            let rr = tools_seq_of_json(rest)->0;
            assert forall|k: int| 0 <= k < items.len() implies #[trigger] r[k] == mcp_tool_of_json(
                items[k],
            )->0 by {
                if k > 0 {
                    assert(r[k] == rr[k - 1]);
                }
            }
        }
        if tools_seq_of_json(items) is Some {
            assert(mcp_tool_of_json(items[0]) is Some && tools_seq_of_json(rest) is Some);
        }
        if forall|k: int| 0 <= k < items.len() ==> mcp_tool_of_json(#[trigger] items[k]) is Some {
            assert(mcp_tool_of_json(items[0]) is Some);
            assert forall|k: int| 0 <= k < rest.len() implies mcp_tool_of_json(
                (#[trigger] rest[k]),
            ) is Some by {
                assert(rest[k] == items[k + 1]);
            }
        }
    }
}

impl ListToolsResult {
    pub fn to_json(&self) -> (r: Json)
        ensures
            r@ == list_tools_result_json(mcp_tool_views(self.tools@)),
    {
        let mut items: Vec<Json> = Vec::new();
        let mut i: usize = 0;
        while i < self.tools.len()
            invariant
                0 <= i <= self.tools@.len(),
                items@.len() == i,
                forall|k: int| 0 <= k < i ==> json_view(#[trigger] items@[k]) == mcp_tool_json(
                    self.tools@[k]@,
                ),
            decreases self.tools@.len() - i,
        {
            items.push(self.tools[i].to_json());
            i = i + 1;
        }
        let ghost is = items@;
        let arr = Json::Arr(items);
        proof {
            crate::json::lemma_json_views(is);
            let target = mcp_tool_views(self.tools@).map_values(|t: McpToolV| mcp_tool_json(t));
            assert forall|k: int| 0 <= k < is.len() implies json_views(is)[k] == target[k] by {
                assert(json_views(is)[k] == json_view(is[k]));
                assert(mcp_tool_views(self.tools@)[k] == self.tools@[k]@);
                assert(target[k] == mcp_tool_json(mcp_tool_views(self.tools@)[k]));
            }
            assert(json_views(is) =~= target);
        }
        let mut fields: Vec<JsonField> = Vec::new();
        fields.push(JsonField { key: String::from_str("tools"), value: arr });
        let ghost fs = fields@;
        let r = Json::Obj(fields);
        proof {
            crate::json::lemma_field_views(fs);
            let target = list_tools_result_json(mcp_tool_views(self.tools@))->Obj_0;
            assert forall|k: int| 0 <= k < fs.len() implies field_views(fs)[k] == target[k] by {
                assert(field_views(fs)[k] == (fs[k].key@, json_view(fs[k].value)));
            }
            assert(field_views(fs) =~= target);
        }
        r
    }

    /// Reads a `tools/list` result out of a decoded value.
    pub fn from_json(j: &Json) -> (r: Option<ListToolsResult>)
        ensures
            match r {
                Some(x) => list_tools_result_of_json(json_view(*j)) == Some(
                    mcp_tool_views(x.tools@),
                ),
                None => list_tools_result_of_json(json_view(*j)) is None,
            },
    {
        let fields = match j {
            Json::Obj(fs) => fs,
            _ => {
                return None;
            },
        };
        let items = match obj_find(fields, "tools") {
            Some(v) => match v {
                Json::Arr(items) => items,
                _ => {
                    return None;
                },
            },
            None => {
                return None;
            },
        };
        proof {
            crate::json::lemma_json_views(items@);
            lemma_tools_seq_of_json(json_views(items@));
        }
        let mut out: Vec<Tool> = Vec::new();
        let mut i: usize = 0;
        while i < items.len()
            invariant
                0 <= i <= items@.len(),
                out@.len() == i,
                json_views(items@).len() == items@.len(),
                list_tools_result_of_json(json_view(*j)) == tools_seq_of_json(json_views(items@)),
                forall|k: int| 0 <= k < items@.len() ==> json_views(items@)[k] == json_view(
                    #[trigger] items@[k],
                ),
                forall|k: int|
                    0 <= k < i ==> mcp_tool_of_json(#[trigger] json_views(items@)[k]) == Some(
                        out@[k]@,
                    ),
            decreases items@.len() - i,
        {
            match Tool::from_json(&items[i]) {
                Some(t) => {
                    out.push(t);
                },
                None => {
                    proof {
                        lemma_tools_seq_of_json(json_views(items@));
                    }
                    return None;
                },
            }
            i = i + 1;
        }
        proof {
            lemma_tools_seq_of_json(json_views(items@));
            let ts = tools_seq_of_json(json_views(items@))->0;
            assert forall|k: int| 0 <= k < items@.len() implies ts[k] == mcp_tool_views(out@)[k] by {
                assert(mcp_tool_views(out@)[k] == out@[k]@);
            }
            assert(ts =~= mcp_tool_views(out@));
        }
        Some(ListToolsResult { tools: out })
    }
}

/// The parameters of `tools/call`.
#[derive(Debug)]
pub struct CallToolParams {
    pub name: String,
    pub arguments: Json,
}

pub open spec fn call_tool_params_json(name: Seq<char>, arguments: JsonV) -> JsonV {
    JsonV::Obj(seq![("name"@, JsonV::Str(name)), ("arguments"@, arguments)])
}

pub open spec fn call_tool_params_of_json(j: JsonV) -> Option<(Seq<char>, JsonV)> {
    match j {
        JsonV::Obj(fs) => match obj_get(fs, "name"@) {
            Some(JsonV::Str(n)) => Some(
                (
                    n,
                    match obj_get(fs, "arguments"@) {
                        Some(a) => a,
                        None => JsonV::Null,
                    },
                ),
            ),
            _ => None,
        },
        _ => None,
    }
}

impl CallToolParams {
    pub fn to_json(&self) -> (r: Json)
        ensures
            r@ == call_tool_params_json(self.name@, json_view(self.arguments)),
    {
        let mut fields: Vec<JsonField> = Vec::new();
        fields.push(JsonField { key: String::from_str("name"), value: Json::Str(self.name.clone()) });
        fields.push(
            JsonField { key: String::from_str("arguments"), value: json_clone(&self.arguments) },
        );
        let ghost fs = fields@;
        let r = Json::Obj(fields);
        proof {
            crate::json::lemma_field_views(fs);
            let target = call_tool_params_json(self.name@, json_view(self.arguments))->Obj_0;
            assert forall|k: int| 0 <= k < fs.len() implies field_views(fs)[k] == target[k] by {
                assert(field_views(fs)[k] == (fs[k].key@, json_view(fs[k].value)));
            }
            assert(field_views(fs) =~= target);
        }
        r
    }

    /// Reads `tools/call` parameters out of a decoded value.
    pub fn from_json(j: &Json) -> (r: Option<CallToolParams>)
        ensures
            match r {
                Some(p) => call_tool_params_of_json(json_view(*j)) == Some(
                    (p.name@, json_view(p.arguments)),
                ),
                None => call_tool_params_of_json(json_view(*j)) is None,
            },
    {
        let fields = match j {
            Json::Obj(fs) => fs,
            _ => {
                return None;
            },
        };
        let name = match obj_find(fields, "name") {
            Some(v) => match v {
                Json::Str(s) => s.clone(),
                _ => {
                    return None;
                },
            },
            None => {
                return None;
            },
        };
        let arguments = match obj_find(fields, "arguments") {
            Some(v) => json_clone(v),
            None => Json::Null,
        };
        Some(CallToolParams { name, arguments })
    }
}

/// One piece of content in a tool result.
#[derive(Debug)]
pub enum Content {
    Text { text: String },
    Image { data: String, mime_type: String },
    Resource { resource: Json },
}

pub enum ContentV {
    Text(Seq<char>),
    Image(Seq<char>, Seq<char>),
    Resource(JsonV),
}

impl View for Content {
    type V = ContentV;

    open spec fn view(&self) -> ContentV {
        match self {
            Content::Text { text } => ContentV::Text(text@),
            Content::Image { data, mime_type } => ContentV::Image(data@, mime_type@),
            Content::Resource { resource } => ContentV::Resource(json_view(*resource)),
        }
    }
}

pub open spec fn content_json(c: ContentV) -> JsonV {
    match c {
        ContentV::Text(t) => JsonV::Obj(
            seq![("type"@, JsonV::Str("text"@)), ("text"@, JsonV::Str(t))],
        ),
        ContentV::Image(d, m) => JsonV::Obj(
            seq![
                ("type"@, JsonV::Str("image"@)),
                ("data"@, JsonV::Str(d)),
                ("mimeType"@, JsonV::Str(m)),
            ],
        ),
        ContentV::Resource(r) => JsonV::Obj(
            seq![("type"@, JsonV::Str("resource"@)), ("resource"@, r)],
        ),
    }
}

pub open spec fn content_of_json(j: JsonV) -> Option<ContentV> {
    match j {
        JsonV::Obj(fs) => match obj_get(fs, "type"@) {
            Some(JsonV::Str(tag)) => if tag == "text"@ {
                match obj_get(fs, "text"@) {
                    Some(JsonV::Str(t)) => Some(ContentV::Text(t)),
                    _ => None,
                }
            } else if tag == "image"@ {
                match (obj_get(fs, "data"@), obj_get(fs, "mimeType"@)) {
                    (Some(JsonV::Str(d)), Some(JsonV::Str(m))) => Some(ContentV::Image(d, m)),
                    _ => None,
                }
            } else if tag == "resource"@ {
                match obj_get(fs, "resource"@) {
                    Some(r) => Some(ContentV::Resource(r)),
                    _ => None,
                }
            } else {
                None
            },
            _ => None,
        },
        _ => None,
    }
}

impl Content {
    pub fn to_json(&self) -> (r: Json)
        ensures
            r@ == content_json(self@),
    {
        let mut fields: Vec<JsonField> = Vec::new();
        match self {
            Content::Text { text } => {
                fields.push(
                    JsonField { key: String::from_str("type"), value: Json::Str(String::from_str("text")) },
                );
                fields.push(JsonField { key: String::from_str("text"), value: Json::Str(text.clone()) });
            },
            Content::Image { data, mime_type } => {
                fields.push(
                    JsonField { key: String::from_str("type"), value: Json::Str(String::from_str("image")) },
                );
                fields.push(JsonField { key: String::from_str("data"), value: Json::Str(data.clone()) });
                fields.push(
                    JsonField { key: String::from_str("mimeType"), value: Json::Str(mime_type.clone()) },
                );
            },
            Content::Resource { resource } => {
                fields.push(
                    JsonField {
                        key: String::from_str("type"),
                        value: Json::Str(String::from_str("resource")),
                    },
                );
                fields.push(JsonField { key: String::from_str("resource"), value: json_clone(resource) });
            },
        }
        let ghost fs = fields@;
        let r = Json::Obj(fields);
        proof {
            crate::json::lemma_field_views(fs);
            let target = content_json(self@)->Obj_0;
            assert forall|k: int| 0 <= k < fs.len() implies field_views(fs)[k] == target[k] by {
                assert(field_views(fs)[k] == (fs[k].key@, json_view(fs[k].value)));
            }
            assert(field_views(fs) =~= target);
        }
        r
    }

    /// Reads one content item out of a decoded value.
    pub fn from_json(j: &Json) -> (r: Option<Content>)
        ensures
            match r {
                Some(c) => content_of_json(json_view(*j)) == Some(c@),
                None => content_of_json(json_view(*j)) is None,
            },
    {
        let fields = match j {
            Json::Obj(fs) => fs,
            _ => {
                return None;
            },
        };
        let tag = match obj_find(fields, "type") {
            Some(v) => match v {
                Json::Str(s) => s,
                _ => {
                    return None;
                },
            },
            None => {
                return None;
            },
        };
        if crate::json::str_eq(tag.as_str(), "text") {
            match obj_find(fields, "text") {
                Some(v) => match v {
                    Json::Str(t) => {
                        return Some(Content::Text { text: t.clone() });
                    },
                    _ => {
                        return None;
                    },
                },
                None => {
                    return None;
                },
            }
        }
        if crate::json::str_eq(tag.as_str(), "image") {
            let data = match obj_find(fields, "data") {
                Some(v) => match v {
                    Json::Str(d) => d.clone(),
                    _ => {
                        return None;
                    },
                },
                None => {
                    return None;
                },
            };
            match obj_find(fields, "mimeType") {
                Some(v) => match v {
                    Json::Str(m) => {
                        return Some(Content::Image { data, mime_type: m.clone() });
                    },
                    _ => {
                        return None;
                    },
                },
                None => {
                    return None;
                },
            }
        }
        if crate::json::str_eq(tag.as_str(), "resource") {
            match obj_find(fields, "resource") {
                Some(v) => {
                    return Some(Content::Resource { resource: json_clone(v) });
                },
                None => {
                    return None;
                },
            }
        }
        None
    }
}

/// The result of `tools/call`.
#[derive(Debug)]
pub struct CallToolResult {
    pub content: Vec<Content>,
    pub is_error: bool,
}

pub open spec fn content_views(cs: Seq<Content>) -> Seq<ContentV> {
    cs.map_values(|c: Content| c@)
}

pub open spec fn call_tool_result_json(cs: Seq<ContentV>, is_error: bool) -> JsonV {
    JsonV::Obj(
        seq![
            ("content"@, JsonV::Arr(cs.map_values(|c: ContentV| content_json(c)))),
            ("isError"@, JsonV::Bool(is_error)),
        ],
    )
}

pub open spec fn contents_of_json(items: Seq<JsonV>) -> Option<Seq<ContentV>>
    decreases items.len(),
{
    if items.len() == 0 {
        Some(Seq::empty())
    } else {
        match content_of_json(items[0]) {
            Some(c) => match contents_of_json(items.drop_first()) {
                Some(r) => Some(seq![c] + r),
                None => None,
            },
            None => None,
        }
    }
}

/// Reads a `tools/call` result: `content` is required; the error flag
/// may be spelled `isError` or `is_error` and defaults to false.
pub open spec fn call_tool_result_of_json(j: JsonV) -> Option<(Seq<ContentV>, bool)> {
    match j {
        JsonV::Obj(fs) => match obj_get(fs, "content"@) {
            Some(JsonV::Arr(items)) => match contents_of_json(items) {
                Some(cs) => {
                    let flag = match obj_get(fs, "isError"@) {
                        Some(JsonV::Bool(b)) => Some(b),
                        Some(_) => None,
                        None => match obj_get(fs, "is_error"@) {
                            Some(JsonV::Bool(b)) => Some(b),
                            Some(_) => None,
                            None => Some(false),
                        },
                    };
                    match flag {
                        Some(b) => Some((cs, b)),
                        None => None,
                    }
                },
                None => None,
            },
            _ => None,
        },
        _ => None,
    }
}

proof fn lemma_contents_of_json(items: Seq<JsonV>)
    ensures
        (contents_of_json(items) is Some) == (forall|k: int|
            0 <= k < items.len() ==> content_of_json(#[trigger] items[k]) is Some),
        contents_of_json(items) matches Some(r) ==> r.len() == items.len() && (forall|k: int|
            0 <= k < items.len() ==> #[trigger] r[k] == content_of_json(items[k])->0),
    decreases items.len(),
{
    if items.len() > 0 {
        let rest = items.drop_first();
        lemma_contents_of_json(rest);
        assert(forall|k: int| 0 <= k < rest.len() ==> #[trigger] rest[k] == items[k + 1]);
        if content_of_json(items[0]) is Some && contents_of_json(rest) is Some {
            assert forall|k: int| 0 <= k < items.len() implies content_of_json(
                (#[trigger] items[k]),
            ) is Some by {
                if k > 0 {
                    assert(content_of_json(rest[k - 1]) is Some);
                }
            }
            let r = contents_of_json(items)->0;
            let rr = contents_of_json(rest)->0;
            assert forall|k: int| 0 <= k < items.len() implies #[trigger] r[k] == content_of_json(
                items[k],
            )->0 by {
                if k > 0 {
                    assert(r[k] == rr[k - 1]);
                }
            }
        }
        if contents_of_json(items) is Some {
            assert(content_of_json(items[0]) is Some && contents_of_json(rest) is Some);
        }
        if forall|k: int| 0 <= k < items.len() ==> content_of_json(#[trigger] items[k]) is Some {
            assert(content_of_json(items[0]) is Some);
            assert forall|k: int| 0 <= k < rest.len() implies content_of_json(
                (#[trigger] rest[k]),
            ) is Some by {
                assert(rest[k] == items[k + 1]);
            }
        }
    }
}

impl CallToolResult {
    pub fn to_json(&self) -> (r: Json)
        ensures
            r@ == call_tool_result_json(content_views(self.content@), self.is_error),
    {
        let mut items: Vec<Json> = Vec::new();
        let mut i: usize = 0;
        while i < self.content.len()
            invariant
                0 <= i <= self.content@.len(),
                items@.len() == i,
                forall|k: int| 0 <= k < i ==> json_view(#[trigger] items@[k]) == content_json(
                    self.content@[k]@,
                ),
            decreases self.content@.len() - i,
        {
            items.push(self.content[i].to_json());
            i = i + 1;
        }
        let ghost is = items@;
        let arr = Json::Arr(items);
        proof {
            crate::json::lemma_json_views(is);
            let target = content_views(self.content@).map_values(|c: ContentV| content_json(c));
            assert forall|k: int| 0 <= k < is.len() implies json_views(is)[k] == target[k] by {
                assert(json_views(is)[k] == json_view(is[k]));
                assert(content_views(self.content@)[k] == self.content@[k]@);
                assert(target[k] == content_json(content_views(self.content@)[k]));
            }
            assert(json_views(is) =~= target);
        }
        let mut fields: Vec<JsonField> = Vec::new();
        fields.push(JsonField { key: String::from_str("content"), value: arr });
        fields.push(JsonField { key: String::from_str("isError"), value: Json::Bool(self.is_error) });
        let ghost fs = fields@;
        let r = Json::Obj(fields);
        proof {
            crate::json::lemma_field_views(fs);
            let target = call_tool_result_json(content_views(self.content@), self.is_error)->Obj_0;
            assert forall|k: int| 0 <= k < fs.len() implies field_views(fs)[k] == target[k] by {
                assert(field_views(fs)[k] == (fs[k].key@, json_view(fs[k].value)));
            }
            assert(field_views(fs) =~= target);
        }
        r
    }

    /// Reads a `tools/call` result out of a decoded value.
    pub fn from_json(j: &Json) -> (r: Option<CallToolResult>)
        ensures
            match r {
                Some(x) => call_tool_result_of_json(json_view(*j)) == Some(
                    (content_views(x.content@), x.is_error),
                ),
                None => call_tool_result_of_json(json_view(*j)) is None,
            },
    {
        let fields = match j {
            Json::Obj(fs) => fs,
            _ => {
                return None;
            },
        };
        let items = match obj_find(fields, "content") {
            Some(v) => match v {
                Json::Arr(items) => items,
                _ => {
                    return None;
                },
            },
            None => {
                return None;
            },
        };
        proof {
            crate::json::lemma_json_views(items@);
            lemma_contents_of_json(json_views(items@));
        }
        let mut out: Vec<Content> = Vec::new();
        let mut i: usize = 0;
        while i < items.len()
            invariant
                0 <= i <= items@.len(),
                out@.len() == i,
                json_views(items@).len() == items@.len(),
                json_view(*j) == JsonV::Obj(field_views(fields@)),
                obj_get(field_views(fields@), "content"@) == Some(
                    JsonV::Arr(json_views(items@)),
                ),
                forall|k: int| 0 <= k < items@.len() ==> json_views(items@)[k] == json_view(
                    #[trigger] items@[k],
                ),
                forall|k: int|
                    0 <= k < i ==> content_of_json(#[trigger] json_views(items@)[k]) == Some(
                        out@[k]@,
                    ),
            decreases items@.len() - i,
        {
            match Content::from_json(&items[i]) {
                Some(c) => {
                    out.push(c);
                },
                None => {
                    proof {
                        lemma_contents_of_json(json_views(items@));
                    }
                    return None;
                },
            }
            i = i + 1;
        }
        proof {
            lemma_contents_of_json(json_views(items@));
            let cs = contents_of_json(json_views(items@))->0;
            assert forall|k: int| 0 <= k < items@.len() implies cs[k] == content_views(out@)[k] by {
                assert(content_views(out@)[k] == out@[k]@);
            }
            assert(cs =~= content_views(out@));
        }
        let is_error = match obj_find(fields, "isError") {
            Some(v) => match v {
                Json::Bool(b) => *b,
                _ => {
                    return None;
                },
            },
            None => match obj_find(fields, "is_error") {
                Some(v) => match v {
                    Json::Bool(b) => *b,
                    _ => {
                        return None;
                    },
                },
                None => false,
            },
        };
        Some(CallToolResult { content: out, is_error })
    }
}

/// Reads an `initialize` result out of a decoded value: the protocol
/// version, the tools capability if advertised, and the server's name
/// and version.
pub open spec fn initialize_result_of_json(j: JsonV) -> Option<
    (Seq<char>, Option<bool>, Seq<char>, Seq<char>),
> {
    match j {
        JsonV::Obj(fs) => match (obj_get(fs, "protocolVersion"@), obj_get(fs, "capabilities"@), obj_get(fs, "serverInfo"@)) {
            (Some(JsonV::Str(pv)), Some(JsonV::Obj(cfs)), Some(JsonV::Obj(sfs))) => {
                let tools = match obj_get(cfs, "tools"@) {
                    None => Some(None),
                    Some(JsonV::Null) => Some(None),
                    Some(JsonV::Obj(tfs)) => match obj_get(tfs, "listChanged"@) {
                        None => Some(Some(false)),
                        Some(JsonV::Bool(b)) => Some(Some(b)),
                        Some(_) => None,
                    },
                    Some(_) => None,
                };
                match tools {
                    Some(t) => match (obj_get(sfs, "name"@), obj_get(sfs, "version"@)) {
                        (Some(JsonV::Str(n)), Some(JsonV::Str(v))) => Some((pv, t, n, v)),
                        _ => None,
                    },
                    None => None,
                }
            },
            _ => None,
        },
        _ => None,
    }
}

impl InitializeResult {
    /// Reads an `initialize` result out of a decoded value.
    pub fn from_json(j: &Json) -> (r: Option<InitializeResult>)
        ensures
            match r {
                Some(x) => initialize_result_of_json(json_view(*j)) == Some(
                    (
                        x.protocol_version@,
                        server_capabilities_view(x.capabilities),
                        x.server_info.name@,
                        x.server_info.version@,
                    ),
                ),
                None => initialize_result_of_json(json_view(*j)) is None,
            },
    {
        let fields = match j {
            Json::Obj(fs) => fs,
            _ => {
                return None;
            },
        };
        let pv = match obj_find(fields, "protocolVersion") {
            Some(v) => match v {
                Json::Str(s) => s.clone(),
                _ => {
                    return None;
                },
            },
            None => {
                return None;
            },
        };
        let cfs = match obj_find(fields, "capabilities") {
            Some(v) => match v {
                Json::Obj(cfs) => cfs,
                _ => {
                    return None;
                },
            },
            None => {
                return None;
            },
        };
        let tools: Option<ToolsCapability> = match obj_find(cfs, "tools") {
            None => None,
            Some(v) => match v {
                Json::Null => None,
                Json::Obj(tfs) => {
                    let lc = match obj_find(tfs, "listChanged") {
                        None => false,
                        Some(b) => match b {
                            Json::Bool(b2) => *b2,
                            _ => {
                                return None;
                            },
                        },
                    };
                    Some(ToolsCapability { list_changed: lc })
                },
                _ => {
                    return None;
                },
            },
        };
        let sfs = match obj_find(fields, "serverInfo") {
            Some(v) => match v {
                Json::Obj(sfs) => sfs,
                _ => {
                    return None;
                },
            },
            None => {
                return None;
            },
        };
        let name = match obj_find(sfs, "name") {
            Some(v) => match v {
                Json::Str(s) => s.clone(),
                _ => {
                    return None;
                },
            },
            None => {
                return None;
            },
        };
        let version = match obj_find(sfs, "version") {
            Some(v) => match v {
                Json::Str(s) => s.clone(),
                _ => {
                    return None;
                },
            },
            None => {
                return None;
            },
        };
        Some(
            InitializeResult {
                protocol_version: pv,
                capabilities: ServerCapabilities { tools },
                server_info: ServerInfo { name, version },
            },
        )
    }
}

} // verus!
