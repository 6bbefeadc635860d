//! What to ask when a note changes on disk under an open editor, and what
//! each answer does.

use vstd::prelude::*;

verus! {

/// The question asked about a note changed outside the application.
#[derive(Clone, Copy, Debug, PartialEq, Eq, Structural)]
pub enum ExternalChangePrompt {
    /// The note's file was deleted.
    Deleted,
    /// The file changed while the editor holds unsaved edits.
    Conflict,
}

/// What an answer to the question does.
#[derive(Clone, Copy, Debug, PartialEq, Eq, Structural)]
pub enum ExternalChangeAction {
    /// Keep the editor as it is.
    Keep,
    /// Save the note again.
    SaveAgain,
    /// Close the editor.
    Close,
    /// Reload the note from disk.
    Reload,
    /// Compare the edits with the file on disk.
    Compare,
}

/// The question to ask, if any: none while one is open, none when the note
/// was neither deleted nor changed under unsaved edits, none when the
/// editor is not in a pane of a workspace; a deleted note is asked about
/// first.
pub open spec fn external_change_prompt_spec(
    prompt_open: bool,
    was_deleted: bool,
    has_conflict: bool,
    in_workspace_pane: bool,
) -> Option<ExternalChangePrompt> {
    if prompt_open || (!was_deleted && !has_conflict) || !in_workspace_pane {
        None
    } else if was_deleted {
        Some(ExternalChangePrompt::Deleted)
    } else {
        Some(ExternalChangePrompt::Conflict)
    }
}

/// The question to ask about an external change (see
/// [`external_change_prompt_spec`]).
pub fn external_change_prompt(
    prompt_open: bool,
    was_deleted: bool,
    has_conflict: bool,
    in_workspace_pane: bool,
) -> (r: Option<ExternalChangePrompt>)
    ensures
        r == external_change_prompt_spec(prompt_open, was_deleted, has_conflict, in_workspace_pane),
{
    if prompt_open || (!was_deleted && !has_conflict) || !in_workspace_pane {
        None
    } else if was_deleted {
        Some(ExternalChangePrompt::Deleted)
    } else {
        Some(ExternalChangePrompt::Conflict)
    }
}

/// The message of a question.
pub open spec fn prompt_message_spec(p: ExternalChangePrompt) -> Seq<char> {
    match p {
        ExternalChangePrompt::Deleted => "This note was deleted outside zednotes."@,
        ExternalChangePrompt::Conflict => "This note changed on disk while you have unsaved edits."@,
    }
}

/// The message of a question.
pub fn prompt_message(p: ExternalChangePrompt) -> (r: &'static str)
    ensures
        r@ == prompt_message_spec(p),
{
    match p {
        ExternalChangePrompt::Deleted => "This note was deleted outside zednotes.",
        ExternalChangePrompt::Conflict => "This note changed on disk while you have unsaved edits.",
    }
}

/// The answers offered to a question, in order.
pub open spec fn prompt_answers_spec(p: ExternalChangePrompt) -> Seq<Seq<char>> {
    match p {
        ExternalChangePrompt::Deleted => seq!["Keep Open"@, "Save Again"@, "Close"@],
        ExternalChangePrompt::Conflict => seq![
            "Keep My Changes"@,
            "Reload from Disk"@,
            "Compare"@,
        ],
    }
}

/// The answers offered to a question, in order.
pub fn prompt_answers(p: ExternalChangePrompt) -> (r: Vec<&'static str>)
    ensures
        r@.map_values(|a: &'static str| a@) == prompt_answers_spec(p),
{
    let r = match p {
        ExternalChangePrompt::Deleted => vec!["Keep Open", "Save Again", "Close"],
        ExternalChangePrompt::Conflict => vec!["Keep My Changes", "Reload from Disk", "Compare"],
    };
    assert(r@.map_values(|a: &'static str| a@) =~= prompt_answers_spec(p));
    r
}

/// What the answer with position `answer` does: for a deleted note, keep
/// it open, save it again or close it; for a conflict, keep the edits,
/// reload from disk, or compare with the file, which needs the note's path
/// on the local disk. Any other answer keeps the editor as it is.
pub open spec fn external_change_action_spec(
    p: ExternalChangePrompt,
    answer: usize,
    has_local_path: bool,
) -> ExternalChangeAction {
    match p {
        ExternalChangePrompt::Deleted => if answer == 1 {
            ExternalChangeAction::SaveAgain
        } else if answer == 2 {
            ExternalChangeAction::Close
        } else {
            ExternalChangeAction::Keep
        },
        ExternalChangePrompt::Conflict => if answer == 1 {
            ExternalChangeAction::Reload
        } else if answer == 2 && has_local_path {
            ExternalChangeAction::Compare
        } else {
            ExternalChangeAction::Keep
        },
    }
}

/// What an answer does (see [`external_change_action_spec`]).
pub fn external_change_action(p: ExternalChangePrompt, answer: usize, has_local_path: bool) -> (r:
    ExternalChangeAction)
    ensures
        r == external_change_action_spec(p, answer, has_local_path),
{
    match p {
        ExternalChangePrompt::Deleted => if answer == 1 {
            ExternalChangeAction::SaveAgain
        } else if answer == 2 {
            ExternalChangeAction::Close
        } else {
            ExternalChangeAction::Keep
        },
        ExternalChangePrompt::Conflict => if answer == 1 {
            ExternalChangeAction::Reload
        } else if answer == 2 && has_local_path {
            ExternalChangeAction::Compare
        } else {
            ExternalChangeAction::Keep
        },
    }
}

} // verus!
