//! A directory-bookmarking store.
//!
//! A bookmark is a (name, path) pair. The store persists bookmarks as a
//! text file with one record per line, `name|path`, oldest entry first.
//! This crate holds the verified core: the record format, the parser and
//! serializer, the list operations (find, pop), and the resolution of the
//! store's file location. Reading and writing the actual file, and the
//! command-line front end, live outside the verified core.
//!
//! Known limitation: there is no locking, so two processes mutating the
//! same store file concurrently can interleave non-atomically.

use vstd::prelude::*;

mod scan;
mod bookmark;
mod format;
mod store;
mod locate;
mod cli;

pub use bookmark::Bookmark;
pub use bookmark::BookmarkModel;
pub use bookmark::models;
pub use bookmark::line_of;
pub use bookmark::parse_line;
pub use bookmark::wf_bookmark;
pub use bookmark::lemma_parse_line_of;
pub use bookmark::lemma_line_of_parse;
pub use format::split_lines;
pub use format::parse_lines;
pub use format::parse_content;
pub use format::serialize;
pub use format::nl_terminated;
pub use format::load_bookmarks;
pub use format::save_bookmarks;
pub use format::lemma_append_record;
pub use format::lemma_round_trip;
pub use format::wf_content;
pub use format::lemma_save_load_identity;
pub use format::lemma_pop_then_save;
pub use store::find_spec;
pub use store::find_bookmark;
pub use store::lemma_find_first_match;
pub use store::pop_bookmark;
pub use store::add_bookmark;
pub use store::listing;
pub use store::list_bookmarks;
pub use locate::resolved_location;
pub use locate::bookmark_file_path;
pub use cli::Cli;
pub use cli::Commands;

verus! {

/// The delimiter separating a bookmark's name from its path in a record.
pub const DELIM: char = '|';

/// Records in the store file are terminated by this character.
pub const RECORD_END: char = '\n';

} // verus!
