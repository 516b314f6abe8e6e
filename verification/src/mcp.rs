//! The decisions of the Model Context Protocol tools server (JSON-RPC 2.0 over
//! newline-delimited stdio): which lines carry a message, how each method is
//! answered, and which tool a call names. Reading, decoding and writing the
//! messages happen outside this module.

use vstd::prelude::*;

use crate::document::{json_document, json_field, json_get, json_str, parse_json, JsonValue};
use crate::text;

verus! {

/// Protocol revision advertised when the client does not pin one.
pub const PROTOCOL_VERSION: &'static str = "2025-06-18";

/// Name of the tool that lists a project's dependencies.
pub const SCAN_DEPENDENCIES: &'static str = "scan_dependencies";

/// Name of the tool that reports the advisories affecting them.
pub const CHECK_VULNERABILITIES: &'static str = "check_vulnerabilities";

/// JSON-RPC error code for a line that is not JSON.
pub const PARSE_ERROR: i64 = -32700;

/// JSON-RPC error code for an unknown method.
pub const METHOD_NOT_FOUND: i64 = -32601;

/// How a received message is answered.
#[derive(Debug, Clone, Copy, PartialEq, Eq, Structural)]
pub enum Route {
    /// Reply with the server's capabilities.
    Initialize,
    /// Reply with an empty result.
    Ping,
    /// Reply with the tool definitions.
    ToolsList,
    /// Run the named tool and reply with its text.
    ToolsCall,
    /// Reply with the error `METHOD_NOT_FOUND`.
    MethodNotFound,
    /// A notification that the client finished initializing: no reply.
    Initialized,
    /// Any other notification: no reply.
    IgnoredNotification,
}

/// How a message with (`has_id`) or without an id and the given method is answered.
/// Messages without an id are notifications, which are never answered.
pub open spec fn route_of(method: Seq<char>, has_id: bool) -> Route {
    if !has_id {
        if method == "notifications/initialized"@ {
            Route::Initialized
        } else {
            Route::IgnoredNotification
        }
    } else if method == "initialize"@ {
        Route::Initialize
    } else if method == "ping"@ {
        Route::Ping
    } else if method == "tools/list"@ {
        Route::ToolsList
    } else if method == "tools/call"@ {
        Route::ToolsCall
    } else {
        Route::MethodNotFound
    }
}

/// A notification (a message without an id) is never answered, and every
/// request (a message with one) is answered, with a result or an error.
pub proof fn law_notifications_get_no_reply(method: Seq<char>)
    ensures
        route_of(method, false) == Route::Initialized || route_of(method, false)
            == Route::IgnoredNotification,
        route_of(method, true) != Route::Initialized && route_of(method, true)
            != Route::IgnoredNotification,
{
}

fn str_eq(a: &str, b: &str) -> (r: bool)
    ensures
        r == (a@ == b@),
{
    let ac = text::chars_of(a);
    let bc = text::chars_of(b);
    text::chars_eq(ac.as_slice(), bc.as_slice())
}

/// How a message is answered.
pub fn route(method: &str, has_id: bool) -> (r: Route)
    ensures
        r == route_of(method@, has_id),
{
    if !has_id {
        if str_eq(method, "notifications/initialized") {
            Route::Initialized
        } else {
            Route::IgnoredNotification
        }
    } else if str_eq(method, "initialize") {
        Route::Initialize
    } else if str_eq(method, "ping") {
        Route::Ping
    } else if str_eq(method, "tools/list") {
        Route::ToolsList
    } else if str_eq(method, "tools/call") {
        Route::ToolsCall
    } else {
        Route::MethodNotFound
    }
}

/// The message text of an input line: a leading byte-order mark (which
/// `str::trim` keeps) and surrounding whitespace dropped. An empty result
/// means the line carries no message.
pub open spec fn message_text_of(line: Seq<char>) -> Seq<char> {
    text::trim(text::trim_start_matches(line, '\u{feff}'))
}

/// The message text of an input line.
pub fn message_text(line: &str) -> (r: String)
    ensures
        r@ == message_text_of(line@),
{
    let c = text::chars_of(line);
    text::string_of(text::trim_chars(text::trim_start_matches_chars(c.as_slice(), '\u{feff}')))
}

/// What the server does with one input line.
#[derive(Debug, Clone, Copy, PartialEq, Eq, Structural)]
pub enum LineAction {
    /// A blank line: nothing.
    Skip,
    /// A line that is not JSON: reply with the error `PARSE_ERROR` (id null).
    ParseError,
    /// A JSON message, handled as its route says.
    Handle(Route),
}

/// A message's `id` member, if any (`Value::get`).
pub open spec fn message_id_of(doc: JsonValue) -> Option<JsonValue> {
    json_get(doc, "id"@)
}

/// A message's `method`, the empty text when it has no string `method`.
pub open spec fn message_method_of(doc: JsonValue) -> Seq<char> {
    match json_str(json_get(doc, "method"@)) {
        Some(m) => m,
        None => ""@,
    }
}

/// A message's `params`, null when it has none.
pub open spec fn message_params_of(doc: JsonValue) -> JsonValue {
    match json_get(doc, "params"@) {
        Some(p) => p,
        None => JsonValue::Null,
    }
}

/// What the server does with the input line `line`: its message text is
/// decoded as JSON, and a message is routed by its method and whether it
/// has an id.
pub open spec fn line_action_of(line: Seq<char>) -> LineAction {
    let t = message_text_of(line);
    if t.len() == 0 {
        LineAction::Skip
    } else {
        match json_document(t) {
            None => LineAction::ParseError,
            Some(doc) => LineAction::Handle(route_of(message_method_of(doc), message_id_of(doc) is Some)),
        }
    }
}

/// The parts of a message the server answers from.
pub struct Request {
    pub id: Option<JsonValue>,
    pub method: String,
    pub params: JsonValue,
}

/// Take the members `id`, `method` and `params` out of an object's members.
fn take_members(fs: Vec<(String, JsonValue)>) -> (r: (Option<JsonValue>, Option<JsonValue>, Option<JsonValue>))
    ensures
        r.0 == json_field(fs@, "id"@),
        r.1 == json_field(fs@, "method"@),
        r.2 == json_field(fs@, "params"@),
{
    let ghost all = fs@;
    let mut fs = fs;
    let mut id: Option<JsonValue> = None;
    let mut method: Option<JsonValue> = None;
    let mut params: Option<JsonValue> = None;
    proof {
        assert(all.skip(all.len() as int) =~= Seq::<(String, JsonValue)>::empty());
    }
    while fs.len() > 0
        invariant
            fs@.len() <= all.len(),
            fs@ == all.take(fs@.len() as int),
            id == json_field(all.skip(fs@.len() as int), "id"@),
            method == json_field(all.skip(fs@.len() as int), "method"@),
            params == json_field(all.skip(fs@.len() as int), "params"@),
        decreases fs@.len(),
    {
        let ghost m = fs@.len() as int;
        let e = fs.pop().unwrap();
        proof {
            assert(e == all[m - 1]);
            assert(all.skip(m - 1)[0] == e);
            assert(all.skip(m - 1).subrange(1, all.skip(m - 1).len() as int) =~= all.skip(m));
            assert(fs@ =~= all.take(m - 1));
            reveal_strlit("id");
            reveal_strlit("method");
            reveal_strlit("params");
            assert("id"@ != "method"@ && "id"@ != "params"@ && "method"@ != "params"@) by {
                assert("id"@.len() != "method"@.len());
                assert("id"@.len() != "params"@.len());
                assert("method"@[0] != "params"@[0]);
            }
        }
        let (k, v) = e;
        if str_eq(k.as_str(), "id") {
            id = Some(v);
        } else if str_eq(k.as_str(), "method") {
            method = Some(v);
        } else if str_eq(k.as_str(), "params") {
            params = Some(v);
        }
    }
    proof {
        assert(all.skip(0) =~= all);
    }
    (id, method, params)
}

/// Read one input line: what to do with it, and for a message the parts
/// the reply is made from.
pub fn read_line(line: &str) -> (r: (LineAction, Option<Request>))
    ensures
        r.0 == line_action_of(line@),
        r.1 is Some <==> r.0 is Handle,
        r.1 matches Some(q) ==> (json_document(message_text_of(line@)) matches Some(doc) && q.id
            == message_id_of(doc) && q.method@ == message_method_of(doc) && q.params
            == message_params_of(doc)),
{
    let t = message_text(line);
    let tc = text::chars_of(t.as_str());
    if tc.len() == 0 {
        return (LineAction::Skip, None);
    }
    match parse_json(t.as_str()) {
        Err(_) => (LineAction::ParseError, None),
        Ok(doc) => {
            let ghost d = doc;
            let (id, method, params) = match doc {
                JsonValue::Object(fs) => take_members(fs),
                _ => (None, None, None),
            };
            let method = match method {
                Some(JsonValue::Str(m)) => m,
                _ => String::new(),
            };
            let params = match params {
                Some(p) => p,
                None => JsonValue::Null,
            };
            let action = LineAction::Handle(route(method.as_str(), id.is_some()));
            proof {
                reveal_strlit("");
                assert(method@ == message_method_of(d));
            }
            (action, Some(Request { id, method, params }))
        },
    }
}

/// How many replies an action writes.
pub open spec fn replies_of(a: LineAction) -> nat {
    match a {
        LineAction::Skip => 0,
        LineAction::ParseError => 1,
        LineAction::Handle(Route::Initialized) => 0,
        LineAction::Handle(Route::IgnoredNotification) => 0,
        LineAction::Handle(_) => 1,
    }
}

/// Whether a line is a request: not blank, and either not JSON or a message with an id.
pub open spec fn is_request(line: Seq<char>) -> bool {
    let t = message_text_of(line);
    t.len() > 0 && match json_document(t) {
        None => true,
        Some(doc) => message_id_of(doc) is Some,
    }
}

/// The replies written for a run of input lines.
pub open spec fn replies_of_lines(ls: Seq<Seq<char>>) -> nat
    decreases ls.len(),
{
    if ls.len() == 0 {
        0
    } else {
        replies_of_lines(ls.drop_last()) + replies_of(line_action_of(ls.last()))
    }
}

/// The requests among a run of input lines.
pub open spec fn requests_of_lines(ls: Seq<Seq<char>>) -> nat
    decreases ls.len(),
{
    if ls.len() == 0 {
        0
    } else {
        requests_of_lines(ls.drop_last()) + if is_request(ls.last()) {
            1nat
        } else {
            0nat
        }
    }
}

/// Exactly one reply per request line: blank lines and notifications get
/// none, and a line that is not JSON or a message with an id gets one.
pub proof fn law_one_reply_per_request(ls: Seq<Seq<char>>)
    ensures
        forall|k: int|
            0 <= k < ls.len() ==> replies_of(line_action_of(#[trigger] ls[k])) == if is_request(ls[k]) {
                1nat
            } else {
                0nat
            },
        replies_of_lines(ls) == requests_of_lines(ls),
    decreases ls.len(),
{
    if ls.len() > 0 {
        law_one_reply_per_request(ls.drop_last());
        let l = ls.last();
        assert(replies_of(line_action_of(l)) == if is_request(l) { 1nat } else { 0nat });
        assert forall|k: int| 0 <= k < ls.len() implies replies_of(line_action_of(#[trigger] ls[k]))
            == if is_request(ls[k]) { 1nat } else { 0nat } by {
            if k < ls.len() - 1 {
                assert(ls[k] == ls.drop_last()[k]);
            }
        }
    }
}

/// The tools the server offers.
#[derive(Debug, Clone, Copy, PartialEq, Eq, Structural)]
pub enum Tool {
    /// `scan_dependencies`: list a project's resolved dependencies.
    ScanDependencies,
    /// `check_vulnerabilities`: report the advisories affecting them.
    CheckVulnerabilities,
}

pub open spec fn tool_of(name: Seq<char>) -> Option<Tool> {
    if name == SCAN_DEPENDENCIES@ {
        Some(Tool::ScanDependencies)
    } else if name == CHECK_VULNERABILITIES@ {
        Some(Tool::CheckVulnerabilities)
    } else {
        None
    }
}

/// The tool a `tools/call` names.
pub fn tool_named(name: &str) -> (r: Option<Tool>)
    ensures
        r == tool_of(name@),
{
    if str_eq(name, SCAN_DEPENDENCIES) {
        Some(Tool::ScanDependencies)
    } else if str_eq(name, CHECK_VULNERABILITIES) {
        Some(Tool::CheckVulnerabilities)
    } else {
        None
    }
}

/// The project path a tool call names, the current directory by default.
pub fn tool_path(path: Option<&str>) -> (r: &str)
    ensures
        r@ == match path {
            Some(p) => p@,
            None => "."@,
        },
{
    match path {
        Some(p) => p,
        None => ".",
    }
}

/// The text and error flag of a tool's answer: tool failures are reported in
/// the result, flagged, so that the model can read them.
pub open spec fn tool_reply_of(outcome: Result<Seq<char>, Seq<char>>) -> (Seq<char>, bool) {
    match outcome {
        Ok(t) => (t, false),
        Err(e) => ("Error: "@ + e, true),
    }
}

/// The text and error flag of a tool's answer.
pub fn tool_reply(outcome: Result<String, String>) -> (r: (String, bool))
    ensures
        (r.0@, r.1) == tool_reply_of(
            match outcome {
                Ok(t) => Ok(t@),
                Err(e) => Err(e@),
            },
        ),
{
    match outcome {
        Ok(t) => (t, false),
        Err(e) => {
            let mut s = String::new();
            s.append("Error: ");
            s.append(e.as_str());
            (s, true)
        },
    }
}

/// The error text of a call to a tool that does not exist.
pub fn unknown_tool_msg(name: &str) -> (r: String)
    ensures
        r@ == "unknown tool: "@ + name@,
{
    let mut s = String::new();
    s.append("unknown tool: ");
    s.append(name);
    s
}

/// The error message for an unknown method.
pub fn method_not_found_msg(method: &str) -> (r: String)
    ensures
        r@ == "Method not found: "@ + method@,
{
    let mut s = String::new();
    s.append("Method not found: ");
    s.append(method);
    s
}

/// The protocol version to answer `initialize` with: the client's when it
/// gives one, else `PROTOCOL_VERSION`.
pub fn protocol_version(requested: Option<&str>) -> (r: &str)
    ensures
        r@ == match requested {
            Some(p) => p@,
            None => PROTOCOL_VERSION@,
        },
{
    match requested {
        Some(p) => p,
        None => PROTOCOL_VERSION,
    }
}

} // verus!
