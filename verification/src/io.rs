use vstd::prelude::*;

use crate::error::JotError;
use crate::resolve::ResolvedEntry;

verus! {

/// A run of the editor to make: the program, and the path to open in it.
pub struct EditorLaunch {
    pub program: String,
    pub path: String,
}

/// The run of the editor that opens `path`, given the value of `EDITOR` (none
/// when it is not set or not Unicode).
pub fn open_editor(path: &str, editor: Option<String>) -> (r: Result<EditorLaunch, JotError>)
    ensures
        match editor {
            None => r matches Err(JotError::NoEditor),
            Some(e) => r matches Ok(l) && l.program@ == e@ && l.path@ == path@,
        },
{
    match editor {
        None => Err(JotError::NoEditor),
        Some(e) => Ok(EditorLaunch { program: e, path: path.to_string() }),
    }
}

/// The outcome of a run of the editor that ended: success, or the way it exited.
pub fn editor_outcome(success: bool, status: String) -> (r: Result<(), JotError>)
    ensures
        success ==> r is Ok,
        !success ==> (r matches Err(JotError::EditorFailed(s)) && s@ == status@),
{
    if success {
        Ok(())
    } else {
        Err(JotError::EditorFailed(status))
    }
}

/// How a new note's file is started.
pub enum SeedStep {
    /// The file exists already: leave it.
    Keep,
    /// Copy the template to the file.
    Copy { from: String, to: String },
    /// Create the file empty.
    Create { path: String },
}

/// How the file of a new note is started: left alone if it exists, else copied
/// from the variant's template if that exists, else created empty.
pub fn seed_from_template(entry: &ResolvedEntry, file_exists: bool, template_exists: bool) -> (r: SeedStep)
    ensures
        file_exists ==> r is Keep,
        !file_exists && template_exists ==> (r matches SeedStep::Copy { from, to } && from@
            == entry.template_path@ && to@ == entry.file_path@),
        !file_exists && !template_exists ==> (r matches SeedStep::Create { path } && path@
            == entry.file_path@),
{
    if file_exists {
        SeedStep::Keep
    } else if template_exists {
        SeedStep::Copy { from: entry.template_path.clone(), to: entry.file_path.clone() }
    } else {
        SeedStep::Create { path: entry.file_path.clone() }
    }
}

} // verus!
