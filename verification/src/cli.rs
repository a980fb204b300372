//! The command line of the server and its settings.
use vstd::prelude::*;
use vstd::string::StringExecFns;

use crate::protocol::same_text;

verus! {

/// The text of `plan-path help`.
pub const HELP: &'static str = "plan-path MCP server

USAGE:
  plan-path
  plan-path help
  plan-path version

ENVIRONMENT:
  MINEPLAN_MCP_URL           mineplan endpoint (default: http://127.0.0.1:3000/mcp)
  PLAN_PATH_HTTP_PORT        local HTTP port (default: 3100)
  PLAN_PATH_MAX_FOCUS_CALLS  maximum focus calls per search (default: 50)
  PLAN_PATH_FOCUS_LIMIT      limit passed to each focus call (default: 50)

MCP:
  POST http://127.0.0.1:3100/mcp
  Tools: find_path";

/// The version of this server.
pub const PACKAGE_VERSION: &'static str = "0.1.0";

/// The mineplan endpoint used when none is set.
pub const DEFAULT_MINEPLAN_URL: &'static str = "http://127.0.0.1:3000/mcp";

/// The local HTTP port used when none is set.
pub const DEFAULT_PORT: usize = 3100;

/// The most focus calls of one search, when not set.
pub const DEFAULT_MAX_FOCUS_CALLS: usize = 50;

/// The limit passed to each focus call, when not set.
pub const DEFAULT_FOCUS_LIMIT: usize = 50;

/// What the command line asks for.
#[derive(Debug, Clone, PartialEq, Eq)]
pub enum Command {
    /// Print the help text.
    Help,
    /// Print the version.
    Version,
    /// An argument that means nothing; it is shown back.
    Unknown(String),
    /// Run the server.
    Serve,
}

/// The help text.
pub fn help_text() -> (r: &'static str)
    ensures
        r@ == HELP@,
{
    HELP
}

/// What the first argument asks for.
pub fn command_of(arg: Option<&str>) -> (c: Command)
    ensures
        match arg {
            None => c == Command::Serve,
            Some(a) => if a@ == "help"@ || a@ == "--help"@ || a@ == "-h"@ {
                c == Command::Help
            } else if a@ == "version"@ || a@ == "--version"@ || a@ == "-V"@ {
                c == Command::Version
            } else {
                c matches Command::Unknown(t) && t@ == a@
            },
        },
{
    match arg {
        None => Command::Serve,
        Some(a) => {
            if same_text(a, "help") || same_text(a, "--help") || same_text(a, "-h") {
                Command::Help
            } else if same_text(a, "version") || same_text(a, "--version") || same_text(a, "-V") {
                Command::Version
            } else {
                Command::Unknown(a.to_owned())
            }
        },
    }
}

/// The error shown for an argument that means nothing: the argument, a
/// blank line, and the help text.
pub fn unknown_command_message(arg: &str) -> (r: String)
    ensures
        r@ == "unknown command: "@ + arg@ + "\n\n"@ + HELP@,
{
    let mut r = "unknown command: ".to_owned();
    r.append(arg);
    r.append("\n\n");
    r.append(HELP);
    r
}

/// The line printed for `plan-path version`.
pub fn version_text(version: &str) -> (r: String)
    ensures
        r@ == "plan-path "@ + version@,
{
    let mut r = "plan-path ".to_owned();
    r.append(version);
    r
}

} // verus!
