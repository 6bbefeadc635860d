use zednotes_links::settings_documents::{
    contains_key, get, is_legacy_settings, merge_settings_documents, SettingsEntry, SettingsValue,
};

fn text(s: &str) -> SettingsValue {
    SettingsValue::Text(s.to_string())
}

fn number(s: &str) -> SettingsValue {
    SettingsValue::Number(s.to_string())
}

fn object(entries: Vec<(&str, SettingsValue)>) -> SettingsValue {
    SettingsValue::Object(
        entries
            .into_iter()
            .map(|(key, value)| SettingsEntry {
                key: key.to_string(),
                value,
            })
            .collect(),
    )
}

fn entries(value: &SettingsValue) -> &Vec<SettingsEntry> {
    match value {
        SettingsValue::Object(entries) => entries,
        other => panic!("expected an object, got {other:?}"),
    }
}

fn text_at<'a>(value: &'a SettingsValue, key: &str) -> Option<&'a str> {
    match get(entries(value), key) {
        Some(SettingsValue::Text(t)) => Some(t.as_str()),
        _ => None,
    }
}

fn number_at<'a>(value: &'a SettingsValue, key: &str) -> Option<&'a str> {
    match get(entries(value), key) {
        Some(SettingsValue::Number(n)) => Some(n.as_str()),
        _ => None,
    }
}

fn bool_at(value: &SettingsValue, key: &str) -> Option<bool> {
    match get(entries(value), key) {
        Some(SettingsValue::Bool(b)) => Some(*b),
        _ => None,
    }
}

#[test]
fn merge_lays_the_overlay_over_the_base_at_every_depth() {
    let mut base = object(vec![
        ("theme", text("One Dark")),
        (
            "zednotes",
            object(vec![
                ("vim", object(vec![("leader", text("space"))])),
                ("explorer", object(vec![("markdown_only", SettingsValue::Bool(true))])),
            ]),
        ),
        ("ui_font_size", number("16")),
    ]);
    let overlay = object(vec![
        (
            "zednotes",
            object(vec![
                ("vim", object(vec![("leader", text(","))])),
                ("daily_notes", object(vec![("directory", text("journal"))])),
            ]),
        ),
        ("ui_font_size", number("14.5")),
        ("vim_mode", SettingsValue::Bool(true)),
    ]);
    merge_settings_documents(&mut base, overlay);

    assert_eq!(entries(&base).len(), 4);
    assert_eq!(text_at(&base, "theme"), Some("One Dark"));
    assert_eq!(number_at(&base, "ui_font_size"), Some("14.5"));
    assert_eq!(bool_at(&base, "vim_mode"), Some(true));
    let zednotes = get(entries(&base), "zednotes").unwrap();
    assert_eq!(entries(zednotes).len(), 3);
    let vim = get(entries(zednotes), "vim").unwrap();
    assert_eq!(text_at(vim, "leader"), Some(","));
    let explorer = get(entries(zednotes), "explorer").unwrap();
    assert_eq!(bool_at(explorer, "markdown_only"), Some(true));
    let daily_notes = get(entries(zednotes), "daily_notes").unwrap();
    assert_eq!(text_at(daily_notes, "directory"), Some("journal"));
}

#[test]
fn merge_replaces_what_is_not_an_object_on_both_sides() {
    let mut base = object(vec![
        ("autosave", object(vec![("after_delay", object(vec![]))])),
        ("soft_wrap", text("none")),
    ]);
    let overlay = object(vec![
        ("autosave", text("off")),
        ("soft_wrap", object(vec![("mode", text("editor_width"))])),
    ]);
    merge_settings_documents(&mut base, overlay);
    assert_eq!(text_at(&base, "autosave"), Some("off"));
    let soft_wrap = get(entries(&base), "soft_wrap").unwrap();
    assert_eq!(text_at(soft_wrap, "mode"), Some("editor_width"));
    assert_eq!(entries(soft_wrap).len(), 1);

    let mut scalar = SettingsValue::Bool(false);
    merge_settings_documents(&mut scalar, object(vec![("a", SettingsValue::Null)]));
    assert!(matches!(get(entries(&scalar), "a"), Some(SettingsValue::Null)));

    let mut whole = object(vec![("a", SettingsValue::Null)]);
    merge_settings_documents(
        &mut whole,
        SettingsValue::Array(vec![number("1"), number("2")]),
    );
    assert!(matches!(&whole, SettingsValue::Array(items) if items.len() == 2));
}

#[test]
fn merge_with_an_empty_overlay_keeps_the_base() {
    let mut base = object(vec![("a", text("x")), ("b", number("2"))]);
    merge_settings_documents(&mut base, object(vec![]));
    assert_eq!(entries(&base).len(), 2);
    assert_eq!(text_at(&base, "a"), Some("x"));
    assert_eq!(number_at(&base, "b"), Some("2"));
}

#[test]
fn merge_with_itself_keeps_the_document() {
    let document = || {
        object(vec![
            ("a", object(vec![("b", text("c"))])),
            ("d", number("1")),
        ])
    };
    let mut base = document();
    merge_settings_documents(&mut base, document());
    assert_eq!(entries(&base).len(), 2);
    let a = get(entries(&base), "a").unwrap();
    assert_eq!(entries(a).len(), 1);
    assert_eq!(text_at(a, "b"), Some("c"));
    assert_eq!(number_at(&base, "d"), Some("1"));
}

#[test]
fn legacy_settings_are_told_from_native_settings() {
    let legacy_theme = object(vec![("theme", text("dark"))]);
    assert!(is_legacy_settings(entries(&legacy_theme)));
    let native_theme = object(vec![(
        "theme",
        object(vec![("mode", text("dark")), ("light", text("One Light"))]),
    )]);
    assert!(!is_legacy_settings(entries(&native_theme)));
    let other_theme = object(vec![("theme", text("One Dark"))]);
    assert!(!is_legacy_settings(entries(&other_theme)));

    for section in ["ui", "editor", "explorer", "files", "preview", "daily_notes"] {
        let document = object(vec![(section, object(vec![]))]);
        assert!(is_legacy_settings(entries(&document)), "{section}");
    }

    let autosave = object(vec![("autosave", object(vec![("delay_ms", number("500"))]))]);
    assert!(is_legacy_settings(entries(&autosave)));
    let native_autosave = object(vec![("autosave", text("off"))]);
    assert!(!is_legacy_settings(entries(&native_autosave)));

    let legacy_vim = object(vec![("vim", object(vec![("leader", text("space"))]))]);
    assert!(is_legacy_settings(entries(&legacy_vim)));
    let native_vim = object(vec![(
        "vim",
        object(vec![("toggle_relative_line_numbers", SettingsValue::Bool(true))]),
    )]);
    assert!(!is_legacy_settings(entries(&native_vim)));

    let native = object(vec![
        ("vim_mode", SettingsValue::Bool(true)),
        ("zednotes", object(vec![("vim", object(vec![("leader", text(","))]))])),
    ]);
    assert!(!is_legacy_settings(entries(&native)));
    assert!(contains_key(entries(&native), "zednotes"));
    assert!(!contains_key(entries(&native), "ui"));
}

#[test]
fn native_initial_settings_are_not_legacy() {
    let initial = object(vec![
        (
            "theme",
            object(vec![
                ("mode", text("system")),
                ("light", text("One Light")),
                ("dark", text("One Dark")),
            ]),
        ),
        ("vim_mode", SettingsValue::Bool(true)),
        ("relative_line_numbers", text("disabled")),
        (
            "vim",
            object(vec![("toggle_relative_line_numbers", SettingsValue::Bool(false))]),
        ),
        (
            "which_key",
            object(vec![
                ("enabled", SettingsValue::Bool(true)),
                ("delay_ms", number("500")),
            ]),
        ),
        ("ui_font_family", text(".SystemUIFont")),
        ("ui_font_size", number("14")),
        ("buffer_font_family", text(".ZedMono")),
        ("buffer_font_size", number("15")),
        ("buffer_line_height", object(vec![("custom", number("1.55"))])),
        ("gutter", object(vec![("line_numbers", SettingsValue::Bool(false))])),
        ("soft_wrap", text("editor_width")),
        (
            "autosave",
            object(vec![("after_delay", object(vec![("milliseconds", number("750"))]))]),
        ),
        (
            "project_panel",
            object(vec![
                ("default_width", number("240")),
                ("hide_hidden", SettingsValue::Bool(true)),
            ]),
        ),
        (
            "file_scan_exclusions",
            SettingsValue::Array(vec![
                text("**/.git"),
                text("**/.DS_Store"),
                text("**/node_modules"),
                text("**/target"),
            ]),
        ),
        ("markdown_preview_font_family", text(".SystemUIFont")),
        ("markdown_preview_font_size", number("16")),
        (
            "zednotes",
            object(vec![
                ("vim", object(vec![("leader", text("space"))])),
                ("explorer", object(vec![("markdown_only", SettingsValue::Bool(true))])),
            ]),
        ),
    ]);
    assert!(!is_legacy_settings(entries(&initial)));
}
