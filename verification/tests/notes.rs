use zednotes_links::notes::{
    last_updated_replacement,
    exclusion_glob, frontmatter_last_updated_range, markdown_note_filename, note_statistics,
    note_statistics_message, validate_vault_relative_path, NoteSaveState, NoteStatistics,
    SettingsError,
};

#[test]
fn test_note_statistics_count_words_and_unicode_characters() {
    let text = "# Hello, **world**\n\n你好 world\n";
    assert_eq!(
        note_statistics(text),
        NoteStatistics {
            words: 4,
            characters: text.chars().count(),
        }
    );
    assert_eq!(
        note_statistics_message(text),
        format!("4 words · {} characters", text.chars().count())
    );
}

#[test]
fn test_markdown_note_filename_appends_only_when_missing() {
    assert_eq!(markdown_note_filename("note"), "note.md");
    assert_eq!(markdown_note_filename("nested/note.md"), "nested/note.md");
    assert_eq!(
        markdown_note_filename("nested/note.markdown"),
        "nested/note.markdown"
    );
}

#[test]
fn test_last_updated_field_must_be_unique_and_top_level() {
    let quoted = "---\nlastUpdated: '2000-01-01T00:00:00+08:00'\n---\n";
    let (range, quote) = frontmatter_last_updated_range(quoted).unwrap();
    assert_eq!(&quoted[range], "'2000-01-01T00:00:00+08:00'");
    assert_eq!(quote, Some('\''));

    assert!(frontmatter_last_updated_range("# Note\nlastUpdated: old\n").is_none());
    assert!(frontmatter_last_updated_range("---\n  lastUpdated: nested\n---\n").is_none());
    assert!(
        frontmatter_last_updated_range("---\nlastUpdated: first\nlastUpdated: second\n---\n")
            .is_none()
    );
}

#[test]
fn last_updated_ranges_follow_bytes_and_fences() {
    let text = "---\r\ntitle: 数学\r\nlastUpdated:\u{3000}\"x\" \r\n---\r\nbody";
    let (range, quote) = frontmatter_last_updated_range(text).unwrap();
    assert_eq!(&text[range], "\"x\"");
    assert_eq!(quote, Some('"'));
    let empty = "---\nlastUpdated:\n---\n";
    let (range, quote) = frontmatter_last_updated_range(empty).unwrap();
    assert_eq!(range, 16..16);
    assert_eq!(quote, None);
    assert!(frontmatter_last_updated_range("---\nlastUpdated: x\n").is_none());
    assert!(frontmatter_last_updated_range("").is_none());
    let single = "---\nlastUpdated: '\n---";
    assert_eq!(frontmatter_last_updated_range(single).unwrap().1, Some('\''));
}

#[test]
fn statistics_count_tokens_with_letters_or_digits() {
    assert_eq!(note_statistics(""), NoteStatistics { words: 0, characters: 0 });
    assert_eq!(note_statistics("- -- 1 a-b ** x"), NoteStatistics { words: 3, characters: 15 });
    assert_eq!(note_statistics_message("a b"), "2 words · 3 characters");
}

#[test]
fn exclusion_globs_match_bare_names_anywhere() {
    assert_eq!(exclusion_glob("node_modules"), "**/node_modules");
    assert_eq!(exclusion_glob("build/out"), "build/out");
    assert_eq!(exclusion_glob("*.tmp"), "*.tmp");
    assert_eq!(exclusion_glob("a?"), "a?");
}

#[test]
fn save_state_labels() {
    assert_eq!(NoteSaveState::Saved.label(), "Saved");
    assert_eq!(NoteSaveState::Modified.label(), "Modified");
    assert_eq!(NoteSaveState::default(), NoteSaveState::Saved);
}

#[test]
fn vault_relative_paths_stay_inside_the_notes_folder() {
    assert_eq!(validate_vault_relative_path("journal/2024", "dir", false), Ok(()));
    assert_eq!(validate_vault_relative_path("", "dir", true), Ok(()));
    assert_eq!(
        validate_vault_relative_path("  ", "dir", false),
        Err(SettingsError::Empty { setting: "dir".to_owned() })
    );
    for value in ["../outside", "/tmp/x", "./x", "a/../b"] {
        assert_eq!(
            validate_vault_relative_path(value, "dir", true),
            Err(SettingsError::OutsideNotesFolder { setting: "dir".to_owned() }),
            "{value}"
        );
    }
}

#[test]
fn globbing_a_glob_changes_nothing_and_words_fit_in_characters() {
    for path in ["target", "a/b", "*.log"] {
        let glob = exclusion_glob(path);
        assert_eq!(exclusion_glob(&glob), glob);
    }
    for text in ["", "a", "ab cd", "  x  ", "数学 and more"] {
        let statistics = note_statistics(text);
        assert!(statistics.words <= statistics.characters);
    }
}

#[test]
fn last_updated_replacements_keep_the_quote() {
    assert_eq!(last_updated_replacement(Some('\''), "2024-01-01T00:00:00+00:00"), "'2024-01-01T00:00:00+00:00'");
    assert_eq!(last_updated_replacement(None, "now"), "now");
}
