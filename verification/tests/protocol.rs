use plan_path::cli::{
    command_of, unknown_command_message, version_text, Command, HELP,
};
use plan_path::help_text;
use plan_path::protocol::{reply_for, Reply};
use plan_path::mineplan::{focus_text, FocusReply, MineplanError};
use plan_path::protocol::{
    check_tool_call, invalid_request, is_answered, is_blank, is_carried_out, method_not_found,
    method_of, search_failed, Method, INVALID_PARAMS, INVALID_REQUEST, METHOD_NOT_FOUND,
    SEARCH_FAILED, TOOL_NAME,
};

#[test]
fn methods_are_recognised() {
    assert_eq!(method_of("initialize"), Method::Initialize);
    assert_eq!(method_of("ping"), Method::Ping);
    assert_eq!(method_of("notifications/initialized"), Method::Notified);
    assert_eq!(method_of("notifications/cancelled"), Method::Notified);
    assert_eq!(method_of("tools/list"), Method::ListTools);
    assert_eq!(method_of("tools/call"), Method::CallTool);
    assert_eq!(method_of("tools/delete"), Method::Unknown);
    assert_eq!(method_of(""), Method::Unknown);
}

#[test]
fn only_find_path_is_offered() {
    assert_eq!(TOOL_NAME, "find_path");
}

#[test]
fn notifications_and_null_ids_get_no_answer() {
    assert!(!is_carried_out(Method::Notified));
    assert!(is_carried_out(Method::CallTool));
    assert!(!is_answered(Method::Notified, false));
    assert!(!is_answered(Method::Ping, true));
    assert!(is_answered(Method::Ping, false));
    assert!(is_answered(Method::Unknown, false));
}

#[test]
fn error_answers_carry_codes_and_messages() {
    let f = method_not_found("nope");
    assert_eq!(f.code, METHOD_NOT_FOUND);
    assert_eq!(f.code, -32601);
    assert_eq!(f.message, "method not found: nope");
    let f = invalid_request("missing field `method`");
    assert_eq!(f.code, INVALID_REQUEST);
    assert_eq!(f.code, -32600);
    assert_eq!(f.message, "invalid request: missing field `method`");
    let f = search_failed("mineplan request failed: down".to_string());
    assert_eq!(f.code, SEARCH_FAILED);
    assert_eq!(f.code, -32000);
    assert_eq!(f.message, "mineplan request failed: down");
}

#[test]
fn tool_call_needs_a_name() {
    let f = check_tool_call(None, Some("A"), Some("B")).unwrap_err();
    assert_eq!(f.code, INVALID_PARAMS);
    assert_eq!(f.code, -32602);
    assert_eq!(f.message, "tools/call requires name");
}

#[test]
fn tool_call_to_another_tool_is_refused() {
    let f = check_tool_call(Some("focus"), Some("A"), Some("B")).unwrap_err();
    assert_eq!(f.code, INVALID_PARAMS);
    assert_eq!(f.message, "unknown tool: focus");
}

#[test]
fn tool_call_needs_both_ends() {
    let f = check_tool_call(Some("find_path"), None, Some("B")).unwrap_err();
    assert_eq!(f.message, "from must be a non-empty string");
    let f = check_tool_call(Some("find_path"), Some("A"), None).unwrap_err();
    assert_eq!(f.message, "to must be a non-empty string");
    let f = check_tool_call(Some("find_path"), Some(" \t\n"), Some("B")).unwrap_err();
    assert_eq!(f.message, "from must be a non-empty string");
    let f = check_tool_call(Some("find_path"), Some("A"), Some("\u{3000}")).unwrap_err();
    assert_eq!(f.message, "to must be a non-empty string");
}

#[test]
fn tool_call_passes_the_ends_unchanged() {
    let (from, to) = check_tool_call(Some("find_path"), Some(" A "), Some("要件")).unwrap();
    assert_eq!(from, " A ");
    assert_eq!(to, "要件");
}

#[test]
fn blank_means_nothing_but_white_space() {
    assert!(is_blank(""));
    assert!(is_blank(" \t\r\n\u{85}\u{a0}\u{2003}\u{3000}"));
    assert!(!is_blank(" x "));
    assert!(!is_blank("\u{200b}"));
    for text in ["", "  ", "a", " b ", "\u{2028}", "\u{180e}"] {
        assert_eq!(is_blank(text), text.trim().is_empty());
    }
}

#[test]
fn focus_reply_with_error_is_an_mcp_error() {
    let reply = FocusReply {
        has_error: true,
        error_message: Some("no such node".into()),
        text: Some("{}".into()),
        rendered: "{...}".into(),
    };
    assert_eq!(focus_text(reply), Err(MineplanError::Mcp("no such node".into())));
    let reply = FocusReply {
        has_error: true,
        error_message: None,
        text: None,
        rendered: "{...}".into(),
    };
    assert_eq!(focus_text(reply), Err(MineplanError::Mcp("unknown error".into())));
}

#[test]
fn focus_reply_gives_its_text() {
    let reply = FocusReply {
        has_error: false,
        error_message: None,
        text: Some("{\"connections\":[]}".into()),
        rendered: "{...}".into(),
    };
    assert_eq!(focus_text(reply), Ok("{\"connections\":[]}".to_string()));
}

#[test]
fn focus_reply_without_text_is_invalid() {
    let reply = FocusReply {
        has_error: false,
        error_message: None,
        text: None,
        rendered: "{\"result\":{}}".into(),
    };
    assert_eq!(
        focus_text(reply),
        Err(MineplanError::InvalidResponse("{\"result\":{}}".into()))
    );
}

#[test]
fn mineplan_errors_describe_themselves() {
    assert_eq!(
        MineplanError::Request("timed out".into()).message(),
        "mineplan request failed: timed out"
    );
    assert_eq!(
        MineplanError::Mcp("boom".into()).message(),
        "mineplan returned an MCP error: boom"
    );
    assert_eq!(
        MineplanError::InvalidResponse("x".into()).message(),
        "mineplan returned an invalid focus response: x"
    );
}

#[test]
fn command_line_words() {
    for word in ["help", "--help", "-h"] {
        assert_eq!(command_of(Some(word)), Command::Help);
    }
    for word in ["version", "--version", "-V"] {
        assert_eq!(command_of(Some(word)), Command::Version);
    }
    assert_eq!(command_of(None), Command::Serve);
    assert_eq!(command_of(Some("run")), Command::Unknown("run".into()));
}

#[test]
fn help_and_messages() {
    assert!(help_text().starts_with("plan-path MCP server\n\nUSAGE:"));
    assert!(help_text().ends_with("Tools: find_path"));
    assert_eq!(help_text(), HELP);
    assert_eq!(
        unknown_command_message("run"),
        format!("unknown command: run\n\n{}", HELP)
    );
    assert_eq!(version_text("v0.1.0"), "plan-path v0.1.0");
}

#[test]
fn each_method_has_its_reply() {
    assert_eq!(reply_for("initialize"), Reply::ServerInfo);
    assert_eq!(reply_for("ping"), Reply::Empty);
    assert_eq!(reply_for("notifications/initialized"), Reply::Silent);
    assert_eq!(reply_for("notifications/cancelled"), Reply::Silent);
    assert_eq!(reply_for("tools/list"), Reply::ToolList);
    assert_eq!(reply_for("tools/call"), Reply::RunTool);
    match reply_for("resources/list") {
        Reply::Failure(f) => {
            assert_eq!(f.code, -32601);
            assert_eq!(f.message, "method not found: resources/list");
        }
        other => panic!("unexpected reply {:?}", other),
    }
}

#[test]
fn tool_list_names_find_path_alone() {
    assert_eq!(plan_path::protocol::tool_names(), vec!["find_path"]);
}
