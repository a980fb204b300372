//! Reading mineplan's replies to `focus` calls.
use vstd::prelude::*;
use vstd::string::StringExecFns;

verus! {

/// Why a focus call to mineplan gave no edges.
#[derive(Debug, Clone, PartialEq, Eq)]
pub enum MineplanError {
    /// The request could not be made or was refused; the text says why.
    Request(String),
    /// mineplan answered with an MCP error carrying this message.
    Mcp(String),
    /// mineplan's answer was not a focus result; the text shows it.
    InvalidResponse(String),
}

/// The parts of a JSON-RPC reply to a focus call that decide its outcome.
pub struct FocusReply {
    /// The reply has an `error` member.
    pub has_error: bool,
    /// The `message` of that error, when it is a string.
    pub error_message: Option<String>,
    /// The string at `/result/content/0/text`, if there is one.
    pub text: Option<String>,
    /// The whole reply, written out as JSON.
    pub rendered: String,
}

/// `prefix` followed by `rest`.
fn joined(prefix: &str, rest: &str) -> (r: String)
    ensures
        r@ == prefix@ + rest@,
{
    let mut r = prefix.to_owned();
    r.append(rest);
    r
}

impl MineplanError {
    /// The text that describes the error.
    pub fn message(&self) -> (r: String)
        ensures
            r@ == match self {
                MineplanError::Request(d) => "mineplan request failed: "@ + d@,
                MineplanError::Mcp(d) => "mineplan returned an MCP error: "@ + d@,
                MineplanError::InvalidResponse(d) => "mineplan returned an invalid focus response: "@
                    + d@,
            },
    {
        match self {
            MineplanError::Request(d) => joined("mineplan request failed: ", d.as_str()),
            MineplanError::Mcp(d) => joined("mineplan returned an MCP error: ", d.as_str()),
            MineplanError::InvalidResponse(d) => joined(
                "mineplan returned an invalid focus response: ",
                d.as_str(),
            ),
        }
    }
}

/// The focus result text of a reply: an MCP error when the reply has an
/// `error` (with its message, or "unknown error" when it has none that is a
/// string); else the text of the first content item; else an invalid
/// response showing the whole reply.
pub fn focus_text(reply: FocusReply) -> (r: Result<String, MineplanError>)
    ensures
        if reply.has_error {
            r matches Err(MineplanError::Mcp(m)) && m@ == match reply.error_message {
                Some(t) => t@,
                None => "unknown error"@,
            }
        } else {
            match reply.text {
                Some(t) => r == Ok::<String, MineplanError>(t),
                None => r == Err::<String, MineplanError>(
                    MineplanError::InvalidResponse(reply.rendered),
                ),
            }
        },
{
    if reply.has_error {
        let message = match reply.error_message {
            Some(t) => t,
            None => "unknown error".to_owned(),
        };
        return Err(MineplanError::Mcp(message));
    }
    match reply.text {
        Some(t) => Ok(t),
        None => Err(MineplanError::InvalidResponse(reply.rendered)),
    }
}

} // verus!
