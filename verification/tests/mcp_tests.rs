use context_snipe::document::{json_get_of, json_str_of, JsonValue};
use context_snipe::mcp::{
    message_text, method_not_found_msg, protocol_version, read_line, route, tool_named,
    tool_path, tool_reply, unknown_tool_msg, LineAction, Request, Route, Tool,
    CHECK_VULNERABILITIES, PROTOCOL_VERSION, SCAN_DEPENDENCIES,
};

#[test]
fn routes_methods_and_notifications() {
    assert_eq!(route("initialize", true), Route::Initialize);
    assert_eq!(route("ping", true), Route::Ping);
    assert_eq!(route("tools/list", true), Route::ToolsList);
    assert_eq!(route("tools/call", true), Route::ToolsCall);
    assert_eq!(route("resources/list", true), Route::MethodNotFound);
    assert_eq!(route("notifications/initialized", false), Route::Initialized);
    // Without an id a message is a notification, whatever its method.
    assert_eq!(route("tools/call", false), Route::IgnoredNotification);
}

#[test]
fn message_text_drops_bom_and_whitespace() {
    assert_eq!(message_text("\u{feff}  {\"id\":1}\r"), "{\"id\":1}");
    assert_eq!(message_text("   "), "");
    assert_eq!(message_text("{}"), "{}");
}

#[test]
fn tools_and_replies() {
    assert_eq!(tool_named("scan_dependencies"), Some(Tool::ScanDependencies));
    assert_eq!(tool_named("check_vulnerabilities"), Some(Tool::CheckVulnerabilities));
    assert_eq!(tool_named("other"), None);
    assert_eq!(tool_path(None), ".");
    assert_eq!(tool_path(Some("/x")), "/x");
    assert_eq!(tool_reply(Ok("fine".into())), ("fine".to_string(), false));
    assert_eq!(tool_reply(Err("bad".into())), ("Error: bad".to_string(), true));
    assert_eq!(unknown_tool_msg("x"), "unknown tool: x");
    assert_eq!(method_not_found_msg("m"), "Method not found: m");
    assert_eq!(protocol_version(None), PROTOCOL_VERSION);
    assert_eq!(protocol_version(Some("2024-11-05")), "2024-11-05");
}

fn action(line: &str) -> LineAction {
    read_line(line).0
}

#[test]
fn one_reply_per_request_line() {
    assert_eq!(action(""), LineAction::Skip);
    assert_eq!(action("\u{feff} \t"), LineAction::Skip);
    // A mark after whitespace is not leading, and trim keeps it: not JSON.
    assert_eq!(action(" \u{feff}"), LineAction::ParseError);
    assert_eq!(action("{not json"), LineAction::ParseError);
    assert_eq!(
        action("{\"jsonrpc\":\"2.0\",\"id\":1,\"method\":\"ping\"}"),
        LineAction::Handle(Route::Ping)
    );
    assert_eq!(action("\u{feff}{\"id\":2}"), LineAction::Handle(Route::MethodNotFound));
    assert_eq!(
        action("{\"method\":\"notifications/initialized\"}"),
        LineAction::Handle(Route::Initialized)
    );
    assert_eq!(
        action("{\"method\":\"tools/call\"}"),
        LineAction::Handle(Route::IgnoredNotification)
    );
    // A JSON value that is not an object has no id: no reply.
    assert_eq!(action("[1, 2]"), LineAction::Handle(Route::IgnoredNotification));
    // A null id is still an id.
    assert_eq!(action("{\"id\":null,\"method\":\"ping\"}"), LineAction::Handle(Route::Ping));
}

#[test]
fn read_line_gives_the_message_parts() {
    let (a, req) = read_line(
        "  {\"jsonrpc\":\"2.0\",\"id\":\"x7\",\"method\":\"tools/call\",\"params\":{\"name\":\"scan_dependencies\",\"arguments\":{\"path\":\"/p\"}}}\r",
    );
    assert_eq!(a, LineAction::Handle(Route::ToolsCall));
    let Request { id, method, params } = req.unwrap();
    assert_eq!(id, Some(JsonValue::Str("x7".to_string())));
    assert_eq!(method, "tools/call");
    assert_eq!(
        json_str_of(json_get_of(&params, "name")).map(String::as_str),
        Some("scan_dependencies")
    );
    let args = json_get_of(&params, "arguments").unwrap();
    assert_eq!(json_str_of(json_get_of(args, "path")).map(String::as_str), Some("/p"));
    let (_, req) = read_line("{\"id\":3,\"method\":7}");
    let req = req.unwrap();
    assert_eq!(req.id, Some(JsonValue::Number("3".to_string())));
    assert_eq!(req.method, "");
    assert_eq!(req.params, JsonValue::Null);
    assert!(read_line("nope").1.is_none());
    assert!(read_line("").1.is_none());
}

#[test]
fn tool_names_are_shared() {
    assert_eq!(SCAN_DEPENDENCIES, "scan_dependencies");
    assert_eq!(CHECK_VULNERABILITIES, "check_vulnerabilities");
    assert_eq!(tool_named(SCAN_DEPENDENCIES), Some(Tool::ScanDependencies));
    assert_eq!(tool_named(CHECK_VULNERABILITIES), Some(Tool::CheckVulnerabilities));
}
