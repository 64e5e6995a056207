//! Desktop default-application association engine.
//!
//! Resolves which installed application is the configured default handler
//! for a MIME type or URI scheme, and lets a caller change that mapping.
//! The crate covers the association store (parsing, merging, querying and
//! serialising `mimeapps.list`-style files), the application-descriptor
//! parser, the application registry with its lookup indexes, the fixed
//! category tables, and the command-line preparation for descriptor `Exec`
//! fields. All file and environment access stays with the caller: every
//! function here is a pure computation over the values it is given.

pub mod assoc_format;
pub mod categories;
pub mod entry;
pub mod exec_cmd;
pub mod listmap;
pub mod mimeapps;
pub mod registry;
pub mod strutil;

use vstd::prelude::*;

verus! {

/// A character sequence is plain text for the line-oriented formats in this
/// crate: no line break that would split it across lines.
pub open spec fn no_newline(s: Seq<char>) -> bool {
    forall|i: int| 0 <= i < s.len() ==> s[i] != '\n'
}

} // verus!
