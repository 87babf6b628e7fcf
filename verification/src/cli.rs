//! The command surface of the bookmark store.
//!
//! Four subcommands: add a bookmark for the working directory, list all
//! bookmarks newest-first, find a path by name, and pop the newest
//! bookmark. The front end that parses the command line builds these
//! values and dispatches on them.

use vstd::prelude::*;

verus! {

/// One invocation's subcommand.
pub enum Commands {
    /// Add a bookmark under the given name.
    Add { name: String },
    /// List all bookmarks.
    List,
    /// Find a bookmark by name.
    Find { name: String },
    /// Pop the last added bookmark.
    Pop,
}

/// One parsed invocation of the tool.
pub struct Cli {
    pub command: Commands,
}

} // verus!
