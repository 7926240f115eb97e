//! The tool surface: the input a caller hands the tool, and the tool's
//! fixed presentation strings.

use vstd::prelude::*;

use vstd::string::StringExecFns;

verus! {

/// The caller's input: natural-language edit instructions for the editor
/// model, and a terse description shown to the user while the edit runs.
pub struct EditFilesToolInput {
    /// High-level edit instructions, naming every file path to change from
    /// a project root.  They must not contain code blocks or snippets.
    pub edit_instructions: String,
    /// A user-facing description of the change, kept extremely terse.
    pub display_description: String,
}

/// The tool that interprets a streamed edit script and applies it to the
/// project's files.
pub struct EditFilesTool;

pub open spec fn tool_name() -> Seq<char> {
    "edit-files"@
}

pub open spec fn tool_description() -> Seq<char> {
    "Edits files based on natural-language instructions, which a smaller model turns into search/replace blocks and whole-file writes."@
}

pub open spec fn fallback_ui_text() -> Seq<char> {
    "Edit files"@
}

impl EditFilesTool {
    /// The tool's registered name.
    pub fn name(&self) -> (r: String)
        ensures
            r@ == tool_name(),
    {
        String::from_str("edit-files")
    }

    /// The tool's description, shown to the calling model.
    pub fn description(&self) -> (r: String)
        ensures
            r@ == tool_description(),
    {
        String::from_str(
            "Edits files based on natural-language instructions, which a smaller model turns into search/replace blocks and whole-file writes.",
        )
    }

    /// The text shown in the UI for a run: the input's display description,
    /// or a fixed fallback when the input could not be decoded.
    pub fn ui_text(&self, input: &Option<EditFilesToolInput>) -> (r: String)
        ensures
            match input {
                Some(i) => r@ == i.display_description@,
                None => r@ == fallback_ui_text(),
            },
    {
        match input {
            Some(i) => i.display_description.clone(),
            None => String::from_str("Edit files"),
        }
    }
}

} // verus!
