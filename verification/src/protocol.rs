//! The decisions of the MCP (JSON-RPC) server: which method a request asks
//! for, whether it is answered, what a call of the `find_path` tool must
//! carry, and the errors it is refused with.
use vstd::prelude::*;
use vstd::string::StringExecFns;

verus! {

/// The name of the one tool the server offers.
pub const TOOL_NAME: &'static str = "find_path";

/// The names of the tools the server offers, in the order they are listed:
/// `find_path` alone.
pub fn tool_names() -> (r: Vec<&'static str>)
    ensures
        r@ == seq![TOOL_NAME],
{
    let mut r: Vec<&'static str> = Vec::new();
    r.push(TOOL_NAME);
    r
}

/// Code of a request that is not a JSON-RPC request.
pub const INVALID_REQUEST: i32 = -32600;

/// Code of a request for a method the server does not have.
pub const METHOD_NOT_FOUND: i32 = -32601;

/// Code of a tool call with missing or wrong parameters.
pub const INVALID_PARAMS: i32 = -32602;

/// Code of a tool call whose search failed.
pub const SEARCH_FAILED: i32 = -32000;

/// The methods a request may ask for.
#[derive(Debug, Clone, Copy, PartialEq, Eq, Structural)]
pub enum Method {
    /// `initialize`
    Initialize,
    /// `ping`
    Ping,
    /// `notifications/initialized` or `notifications/cancelled`
    Notified,
    /// `tools/list`
    ListTools,
    /// `tools/call`
    CallTool,
    /// Anything else.
    Unknown,
}

/// An error answer: a JSON-RPC error code and its message.
#[derive(Debug, Clone, PartialEq, Eq)]
pub struct RpcFailure {
    pub code: i32,
    pub message: String,
}

/// Whether two texts are the same.
pub fn same_text(a: &str, b: &str) -> (r: bool)
    ensures
        r == (a@ == b@),
{
    let la = a.unicode_len();
    let lb = b.unicode_len();
    if la != lb {
        return false;
    }
    let mut i: usize = 0;
    while i < la
        invariant
            la == a@.len(),
            lb == b@.len(),
            la == lb,
            i <= la,
            forall|k: int| 0 <= k < i ==> a@[k] == b@[k],
        decreases la - i,
    {
        if a.get_char(i) != b.get_char(i) {
            return false;
        }
        i = i + 1;
    }
    assert(a@ =~= b@);
    true
}

/// The method that a request names.
pub open spec fn method_named(name: Seq<char>) -> Method {
    if name == "initialize"@ {
        Method::Initialize
    } else if name == "ping"@ {
        Method::Ping
    } else if name == "notifications/initialized"@ || name == "notifications/cancelled"@ {
        Method::Notified
    } else if name == "tools/list"@ {
        Method::ListTools
    } else if name == "tools/call"@ {
        Method::CallTool
    } else {
        Method::Unknown
    }
}

/// What the server does with a request.
#[derive(Debug, Clone, PartialEq, Eq)]
pub enum Reply {
    /// Nothing: the request is a notification.
    Silent,
    /// Answer with the protocol version, capabilities and server info.
    ServerInfo,
    /// Answer with an empty object.
    Empty,
    /// Answer with the list of tools.
    ToolList,
    /// Run the tool call and answer with its result.
    RunTool,
    /// Answer with this error.
    Failure(RpcFailure),
}

/// What the server does with a request for the method `name`.
pub fn reply_for(name: &str) -> (r: Reply)
    ensures
        match method_named(name@) {
            Method::Initialize => r == Reply::ServerInfo,
            Method::Ping => r == Reply::Empty,
            Method::Notified => r == Reply::Silent,
            Method::ListTools => r == Reply::ToolList,
            Method::CallTool => r == Reply::RunTool,
            Method::Unknown => r matches Reply::Failure(f) && f.code == METHOD_NOT_FOUND
                && f.message@ == "method not found: "@ + name@,
        },
{
    match method_of(name) {
        Method::Initialize => Reply::ServerInfo,
        Method::Ping => Reply::Empty,
        Method::Notified => Reply::Silent,
        Method::ListTools => Reply::ToolList,
        Method::CallTool => Reply::RunTool,
        Method::Unknown => Reply::Failure(method_not_found(name)),
    }
}

/// The method that `name` asks for.
pub fn method_of(name: &str) -> (m: Method)
    ensures
        m == method_named(name@),
        m == if name@ == "initialize"@ {
            Method::Initialize
        } else if name@ == "ping"@ {
            Method::Ping
        } else if name@ == "notifications/initialized"@ || name@ == "notifications/cancelled"@ {
            Method::Notified
        } else if name@ == "tools/list"@ {
            Method::ListTools
        } else if name@ == "tools/call"@ {
            Method::CallTool
        } else {
            Method::Unknown
        },
{
    if same_text(name, "initialize") {
        Method::Initialize
    } else if same_text(name, "ping") {
        Method::Ping
    } else if same_text(name, "notifications/initialized") || same_text(
        name,
        "notifications/cancelled",
    ) {
        Method::Notified
    } else if same_text(name, "tools/list") {
        Method::ListTools
    } else if same_text(name, "tools/call") {
        Method::CallTool
    } else {
        Method::Unknown
    }
}

/// Whether a request is carried out at all: notifications are not.
pub fn is_carried_out(m: Method) -> (r: bool)
    ensures
        r == (m != Method::Notified),
{
    match m {
        Method::Notified => false,
        _ => true,
    }
}

/// Whether a request is answered: not for notifications, and not when its
/// `id` is missing or null (it is then carried out all the same).
pub fn is_answered(m: Method, id_is_null: bool) -> (r: bool)
    ensures
        r == (m != Method::Notified && !id_is_null),
{
    is_carried_out(m) && !id_is_null
}

/// `prefix` followed by `rest`.
fn joined(prefix: &str, rest: &str) -> (r: String)
    ensures
        r@ == prefix@ + rest@,
{
    let mut r = prefix.to_owned();
    r.append(rest);
    r
}

/// The answer to a request that could not be read as a JSON-RPC request.
pub fn invalid_request(detail: &str) -> (f: RpcFailure)
    ensures
        f.code == INVALID_REQUEST,
        f.message@ == "invalid request: "@ + detail@,
{
    RpcFailure { code: INVALID_REQUEST, message: joined("invalid request: ", detail) }
}

/// The answer to a request for a method the server does not have.
pub fn method_not_found(method: &str) -> (f: RpcFailure)
    ensures
        f.code == METHOD_NOT_FOUND,
        f.message@ == "method not found: "@ + method@,
{
    RpcFailure { code: METHOD_NOT_FOUND, message: joined("method not found: ", method) }
}

/// The answer to a tool call whose search failed with `message`.
pub fn search_failed(message: String) -> (f: RpcFailure)
    ensures
        f.code == SEARCH_FAILED,
        f.message == message,
{
    RpcFailure { code: SEARCH_FAILED, message }
}

/// What `str::trim` removes is white space and nothing else that a name is
/// written with: among ASCII characters only space, tab, line feed,
/// vertical tab, form feed and carriage return are white space, so no
/// letter, digit or punctuation mark is; of the C1 controls and Latin-1
/// only NEL and the no-break space are; past them, only the Ogham space
/// mark, the spaces U+2000 to U+200A, the line and paragraph separators,
/// the narrow no-break space, the medium mathematical space and the
/// ideographic space U+3000 are, so no letter of any script is.
pub proof fn law_names_are_not_white_space(c: char)
    ensures
        (c as int) < 0x80 ==> (white_space(c) <==> (c == ' ' || c == '\t' || c == '\n' || c
            == '\u{0b}' || c == '\u{0c}' || c == '\r')),
        0x21 <= c as int <= 0x7e ==> !white_space(c),
        0x80 <= c as int <= 0xa0 ==> (white_space(c) <==> (c == '\u{85}' || c == '\u{a0}')),
        0xa1 <= c as int <= 0x167f ==> !white_space(c),
        0x1681 <= c as int <= 0x1fff ==> !white_space(c),
        0x200b <= c as int <= 0x2027 ==> !white_space(c),
        0x202a <= c as int <= 0x202e ==> !white_space(c),
        0x2030 <= c as int <= 0x205e ==> !white_space(c),
        0x2060 <= c as int <= 0x2fff ==> !white_space(c),
        (c as int) > 0x3000 ==> !white_space(c),
{
}

/// A text that holds a letter, a digit or another visible ASCII
/// character, wherever in it, is not blank: a tool call whose `from` and
/// `to` are such texts passes their check (`check_tool_call` accepts them).
pub proof fn law_visible_text_is_not_blank(s: Seq<char>, i: int)
    requires
        0 <= i < s.len(),
        0x21 <= s[i] as int <= 0x7e,
    ensures
        !(forall|k: int| 0 <= k < s.len() ==> white_space(#[trigger] s[k])),
{
    law_names_are_not_white_space(s[i]);
}

/// `c` has the Unicode property White_Space.
pub open spec fn white_space(c: char) -> bool {
    let v = c as int;
    ||| 0x9 <= v <= 0xd
    ||| v == 0x20
    ||| v == 0x85
    ||| v == 0xa0
    ||| v == 0x1680
    ||| 0x2000 <= v <= 0x200a
    ||| v == 0x2028
    ||| v == 0x2029
    ||| v == 0x202f
    ||| v == 0x205f
    ||| v == 0x3000
}

/// Whether every character of `s` is white space (so that nothing is left
/// once it is trimmed).
pub fn is_blank(s: &str) -> (r: bool)
    ensures
        r == forall|i: int| 0 <= i < s@.len() ==> white_space(#[trigger] s@[i]),
{
    let n = s.unicode_len();
    let mut i: usize = 0;
    while i < n
        invariant
            n == s@.len(),
            i <= n,
            forall|k: int| 0 <= k < i ==> white_space(#[trigger] s@[k]),
        decreases n - i,
    {
        let v = s.get_char(i) as u32;
        let white = (0x9 <= v && v <= 0xd) || v == 0x20 || v == 0x85 || v == 0xa0 || v == 0x1680
            || (0x2000 <= v && v <= 0x200a) || v == 0x2028 || v == 0x2029 || v == 0x202f || v
            == 0x205f || v == 0x3000;
        if !white {
            assert(!white_space(s@[i as int]));
            return false;
        }
        i = i + 1;
    }
    true
}

/// The text of a required argument `name`: present, a string, and not
/// blank.
pub fn required_text(value: Option<&str>, name: &str) -> (r: Result<String, RpcFailure>)
    ensures
        match value {
            Some(v) if !(forall|i: int| 0 <= i < v@.len() ==> white_space(#[trigger] v@[i])) => r
                matches Ok(t) && t@ == v@,
            _ => r matches Err(f) && f.code == INVALID_PARAMS && f.message@ == name@
                + " must be a non-empty string"@,
        },
{
    match value {
        Some(v) => {
            if !is_blank(v) {
                return Ok(v.to_owned());
            }
        },
        None => {},
    }
    Err(RpcFailure { code: INVALID_PARAMS, message: joined(name, " must be a non-empty string") })
}

/// Checks a call of a tool: its `name` must be given and be `find_path`,
/// and its arguments `from` and `to` must be texts that are not blank;
/// gives `from` and `to`, or the first error in that order.
pub fn check_tool_call(name: Option<&str>, from: Option<&str>, to: Option<&str>) -> (r: Result<
    (String, String),
    RpcFailure,
>)
    ensures
        match name {
            None => r matches Err(f) && f.code == INVALID_PARAMS && f.message@
                == "tools/call requires name"@,
            Some(n) => if n@ != TOOL_NAME@ {
                r matches Err(f) && f.code == INVALID_PARAMS && f.message@ == "unknown tool: "@
                    + n@
            } else {
                let from_ok = from matches Some(v) && !(forall|i: int|
                    0 <= i < v@.len() ==> white_space(#[trigger] v@[i]));
                let to_ok = to matches Some(v) && !(forall|i: int|
                    0 <= i < v@.len() ==> white_space(#[trigger] v@[i]));
                if !from_ok {
                    r matches Err(f) && f.code == INVALID_PARAMS && f.message@
                        == "from"@ + " must be a non-empty string"@
                } else if !to_ok {
                    r matches Err(f) && f.code == INVALID_PARAMS && f.message@
                        == "to"@ + " must be a non-empty string"@
                } else {
                    r matches Ok((a, b)) && a@ == from.unwrap()@ && b@ == to.unwrap()@
                }
            },
        },
{
    let n = match name {
        Some(n) => n,
        None => {
            return Err(
                RpcFailure { code: INVALID_PARAMS, message: "tools/call requires name".to_owned() },
            );
        },
    };
    if !same_text(n, TOOL_NAME) {
        return Err(invalid_tool(n));
    }
    let a = match required_text(from, "from") {
        Ok(a) => a,
        Err(f) => {
            return Err(f);
        },
    };
    let b = match required_text(to, "to") {
        Ok(b) => b,
        Err(f) => {
            return Err(f);
        },
    };
    Ok((a, b))
}

/// The answer to a call of a tool other than `find_path`.
fn invalid_tool(name: &str) -> (f: RpcFailure)
    ensures
        f.code == INVALID_PARAMS,
        f.message@ == "unknown tool: "@ + name@,
{
    RpcFailure { code: INVALID_PARAMS, message: joined("unknown tool: ", name) }
}

} // verus!
