//! Finds a route with few turns between two nodes of a plan graph, and
//! makes the decisions of the MCP server that offers that search.
pub mod cli;
pub mod explore;
pub mod graph;
pub mod index;
pub mod laws;
pub mod mineplan;
pub mod path;
pub mod protocol;
pub mod rounds;
pub mod search;
pub mod steps;
pub mod text;

pub use cli::help_text;
pub use graph::{Edge, FoundPath, TaskSegment};
pub use path::find_path;
