use vstd::prelude::*;

use crate::text;

verus! {

/// The names of the built-in commands, which no variant may take.
pub open spec fn is_reserved_name(name: Seq<char>) -> bool {
    ||| name == "init"@
    ||| name == "list"@
    ||| name == "open"@
    ||| name == "rename"@
    ||| name == "remove"@
    ||| name == "search"@
}

/// Whether `name` is the name of a built-in command.
pub fn is_reserved(name: &str) -> (r: bool)
    ensures
        r == is_reserved_name(name@),
{
    text::same_text(name, "init") || text::same_text(name, "list") || text::same_text(name, "open")
        || text::same_text(name, "rename") || text::same_text(name, "remove") || text::same_text(
        name,
        "search",
    )
}

/// A built-in command with its arguments.
#[derive(Debug)]
pub enum Cmd {
    /// Initialise the notes directory.
    Init,
    /// List the variants and their most recent notes, at most `limit` of each.
    List { limit: usize },
    /// Open the notes directory in the editor.
    Open,
    /// Rename a variant.
    Rename { from: String, to: String },
    /// Remove a variant.
    Remove { key: String },
    /// Search notes by tag, name or content.
    Search { key: String },
}

/// What a command line asks for: a built-in command, or a new note of a variant
/// with the tags given.
#[derive(Debug)]
pub enum Action {
    Static(Cmd),
    Variant { key: String, tags: Vec<String> },
}

} // verus!
