use zednotes_links::external_changes::{
    external_change_action, external_change_prompt, prompt_answers, prompt_message,
    ExternalChangeAction, ExternalChangePrompt,
};

#[test]
fn a_question_is_asked_once_for_a_deleted_or_conflicting_note() {
    assert_eq!(external_change_prompt(false, true, true, true), Some(ExternalChangePrompt::Deleted));
    assert_eq!(external_change_prompt(false, false, true, true), Some(ExternalChangePrompt::Conflict));
    assert_eq!(external_change_prompt(true, true, false, true), None);
    assert_eq!(external_change_prompt(false, false, false, true), None);
    assert_eq!(external_change_prompt(false, true, false, false), None);
    assert_eq!(prompt_message(ExternalChangePrompt::Deleted), "This note was deleted outside zednotes.");
    assert_eq!(prompt_answers(ExternalChangePrompt::Deleted), vec!["Keep Open", "Save Again", "Close"]);
    assert_eq!(
        prompt_answers(ExternalChangePrompt::Conflict),
        vec!["Keep My Changes", "Reload from Disk", "Compare"]
    );
}

#[test]
fn each_answer_leads_to_its_action() {
    let deleted = ExternalChangePrompt::Deleted;
    let conflict = ExternalChangePrompt::Conflict;
    assert_eq!(external_change_action(deleted, 0, true), ExternalChangeAction::Keep);
    assert_eq!(external_change_action(deleted, 1, false), ExternalChangeAction::SaveAgain);
    assert_eq!(external_change_action(deleted, 2, false), ExternalChangeAction::Close);
    assert_eq!(external_change_action(deleted, 7, true), ExternalChangeAction::Keep);
    assert_eq!(external_change_action(conflict, 1, false), ExternalChangeAction::Reload);
    assert_eq!(external_change_action(conflict, 2, true), ExternalChangeAction::Compare);
    assert_eq!(external_change_action(conflict, 2, false), ExternalChangeAction::Keep);
    assert_eq!(external_change_action(conflict, 0, true), ExternalChangeAction::Keep);
}
