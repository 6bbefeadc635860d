use zednotes_links::notes::SettingsError;
use zednotes_links::notes_settings::{
    is_one_keystroke_exec, leader_is_ok, legacy_notes_settings, merge_split_settings,
    migrate_legacy_settings_document,
    parse_notes_settings, LegacyNumbers,
    NotesTheme, RelativeLineNumbers,
};
use zednotes_links::settings_documents::{get, SettingsEntry, SettingsValue};

const INITIAL_SETTINGS_CONTENT: &str = r#"{
  // Standard Zed settings. These are also editable through Cmd+,.
  "theme": {
    "mode": "system",
    "light": "One Light",
    "dark": "One Dark",
  },
  "vim_mode": true,
  "relative_line_numbers": "disabled",

  "vim": {
    "toggle_relative_line_numbers": false,
  },

  "which_key": {
    "enabled": true,
    "delay_ms": 500,
  },

  "ui_font_family": ".SystemUIFont",
  "ui_font_size": 14,
  "buffer_font_family": ".ZedMono",
  "buffer_font_size": 15,
  "buffer_line_height": {
    "custom": 1.55,
  },
  "gutter": {
    "line_numbers": false,
  },
  "soft_wrap": "editor_width",

  "autosave": {
    "after_delay": {
      "milliseconds": 750,
    },
  },

  "project_panel": {
    "default_width": 240,
    "hide_hidden": true,
  },
  "file_scan_exclusions": [
    "**/.git",
    "**/.DS_Store",
    "**/node_modules",
    "**/target",
  ],

  "markdown_preview_font_family": ".SystemUIFont",
  "markdown_preview_font_size": 16,
  "markdown_preview": {
    "limit_content_width": true,
    "max_width": 760,
    "allow_remote_images": false,
    "max_file_size_bytes": 5242880,
  },

  // Zednotes-only policy. Upstream Zed settings stay at the root above.
  "zednotes": {
    "vim": {
      "leader": "space",
    },
    "explorer": {
      "markdown_only": true,
    },
    "daily_notes": {
      "directory": "journal",
      "filename_format": "%Y-%m-%d.md",
      // Optional path relative to the notes folder. The template may use
      // {{date}}, {{datetime}}, and {{title}} placeholders.
      // "template": "templates/daily.md",
    },
  },
}
"#;

fn value(json: serde_json_lenient::Value) -> SettingsValue {
    match json {
        serde_json_lenient::Value::Null => SettingsValue::Null,
        serde_json_lenient::Value::Bool(b) => SettingsValue::Bool(b),
        serde_json_lenient::Value::Number(n) => SettingsValue::Number(n.to_string()),
        serde_json_lenient::Value::String(s) => SettingsValue::Text(s),
        serde_json_lenient::Value::Array(items) => SettingsValue::Array(items.into_iter().map(value).collect()),
        serde_json_lenient::Value::Object(map) => SettingsValue::Object(
            map.into_iter()
                .map(|(key, v)| SettingsEntry { key, value: value(v) })
                .collect(),
        ),
    }
}

fn doc(json: &str) -> SettingsValue {
    value(serde_json_lenient::from_str(json).expect("test documents are JSON with comments"))
}

fn at<'a>(v: &'a SettingsValue, path: &[&str]) -> &'a SettingsValue {
    let mut current = v;
    for key in path {
        current = match current {
            SettingsValue::Object(entries) => get(entries, key).unwrap_or_else(|| panic!("no {key}")),
            other => panic!("{other:?} is no object"),
        };
    }
    current
}

fn text(v: &SettingsValue) -> &str {
    match v {
        SettingsValue::Text(t) => t,
        other => panic!("{other:?} is no text"),
    }
}

fn number(v: &SettingsValue) -> &str {
    match v {
        SettingsValue::Number(n) => n,
        other => panic!("{other:?} is no number"),
    }
}

fn boolean(v: &SettingsValue) -> bool {
    match v {
        SettingsValue::Bool(b) => *b,
        other => panic!("{other:?} is no boolean"),
    }
}

fn has(v: &SettingsValue, key: &str) -> bool {
    match v {
        SettingsValue::Object(entries) => get(entries, key).is_some(),
        _ => false,
    }
}

fn rounded(ui: &str, buffer: &str, line_height: &str, preview: &str) -> LegacyNumbers {
    LegacyNumbers {
        ui_font_size: ui.to_owned(),
        buffer_font_size: buffer.to_owned(),
        buffer_line_height: line_height.to_owned(),
        markdown_preview_font_size: preview.to_owned(),
    }
}

#[test]
fn test_legacy_parser_reads_autosave_settings_from_jsonc() {
    let settings = legacy_notes_settings(&doc("{}")).expect("default settings should parse");
    assert!(settings.autosave_enabled);
    assert_eq!(settings.autosave_delay_ms, 750);

    let settings = legacy_notes_settings(&doc(
        r#"
            {
                "autosave": {
                    "enabled": false,
                    "delay_ms": 1250,
                },
            }
            "#,
    ))
    .expect("settings should parse");
    assert!(!settings.autosave_enabled);
    assert_eq!(settings.autosave_delay_ms, 1250);
}

#[test]
fn test_legacy_parser_reads_which_key_settings_from_jsonc() {
    let settings = legacy_notes_settings(&doc("{}")).expect("default settings should parse");
    assert!(settings.which_key_enabled);
    assert_eq!(settings.which_key_delay_ms, 500);

    let settings = legacy_notes_settings(&doc(
        r#"{
                    "which_key": {
                        "enabled": false,
                        "delay_ms": 900,
                    },
                }"#,
    ))
    .expect("which-key settings should parse");
    assert!(!settings.which_key_enabled);
    assert_eq!(settings.which_key_delay_ms, 900);
}

#[test]
fn test_legacy_parser_reads_editor_theme_vim_and_explorer_width_settings() {
    let settings = legacy_notes_settings(&doc(
        r#"
            {
                "theme": "dark",
                "vim_mode": false,
                "relative_line_numbers": "wrapped",
                "vim": {
                    "leader": "ctrl-space",
                    "toggle_relative_line_numbers": true,
                },
                "ui": {
                    "font_family": "Test Sans",
                    "font_size": 13.5,
                },
                "editor": {
                    "font_family": "Test Mono",
                    "font_size": 18.5,
                    "line_height": 1.4,
                    "line_numbers": true,
                    "soft_wrap": false,
                },
                "explorer": {
                    "width": 320,
                },
                "preview": {
                    "font_family": "Test Serif",
                    "font_size": 17,
                },
            }
            "#,
    ))
    .expect("settings should parse");

    assert_eq!(settings.theme, NotesTheme::Dark);
    assert!(!settings.vim_mode);
    assert_eq!(settings.relative_line_numbers, RelativeLineNumbers::Wrapped);
    assert_eq!(settings.vim_leader, "ctrl-space");
    assert!(settings.toggle_relative_line_numbers);
    assert_eq!(settings.ui_font_family, "Test Sans");
    assert_eq!(settings.ui_font_size.as_deref(), Some("13.5"));
    assert_eq!(settings.editor_font_family, "Test Mono");
    assert_eq!(settings.editor_font_size.as_deref(), Some("18.5"));
    assert_eq!(settings.editor_line_height.as_deref(), Some("1.4"));
    assert!(settings.line_numbers);
    assert!(!settings.soft_wrap);
    assert_eq!(settings.explorer_width, 320);
    assert_eq!(settings.preview_font_family, "Test Serif");
    assert_eq!(settings.preview_font_size.as_deref(), Some("17"));
    assert!(settings.autosave_enabled);
    assert_eq!(settings.autosave_delay_ms, 750);
}

#[test]
fn test_invalid_legacy_settings_are_rejected_for_migration() {
    assert_eq!(
        legacy_notes_settings(&doc(r#"{ "preview": { "font_family": "" } }"#)).err(),
        Some(SettingsError::Empty { setting: "preview.font_family".to_owned() })
    );
    assert_eq!(
        legacy_notes_settings(&doc(r#"{ "vim": { "leader": "" } }"#)).err(),
        Some(SettingsError::InvalidLeader)
    );
    assert_eq!(
        legacy_notes_settings(&doc(r#"{ "vim": { "leader": "g g" } }"#)).err(),
        Some(SettingsError::InvalidLeader)
    );
    assert_eq!(
        legacy_notes_settings(&doc(r#"{ "vim": { "leader": "ctrl-alt-x-y" } }"#)).err(),
        Some(SettingsError::InvalidLeader)
    );
}

#[test]
fn a_leader_is_one_keystroke() {
    for leader in ["space", "ctrl-space", "Ctrl-Alt-k", "cmd-shift-p", "ctrl--", "-", "a->b", ","] {
        assert!(is_one_keystroke_exec(leader), "{leader}");
    }
    for leader in ["ctrl-alt-x-y", "x-y", "space-ctrl", "a-b-"] {
        assert!(!is_one_keystroke_exec(leader), "{leader}");
    }
    assert!(leader_is_ok("ctrl-space"));
    assert!(!leader_is_ok(""));
    assert!(!leader_is_ok("g g"));
    assert!(!leader_is_ok("ctrl-alt-x-y"));
}

#[test]
fn legacy_settings_of_the_wrong_kind_are_rejected() {
    for json in [
        r#"[]"#,
        r#"{ "theme": "sepia" }"#,
        r#"{ "vim_mode": "yes" }"#,
        r#"{ "ui": 5 }"#,
        r#"{ "explorer": { "width": -1 } }"#,
        r#"{ "explorer": { "width": 4294967296 } }"#,
        r#"{ "which_key": { "delay_ms": 1.5 } }"#,
        r#"{ "files": { "exclude": ["a", 1] } }"#,
    ] {
        assert_eq!(
            legacy_notes_settings(&doc(json)).err(),
            Some(SettingsError::InvalidValue),
            "{json}"
        );
    }
    assert_eq!(
        legacy_notes_settings(&doc(r#"{ "explorer": { "width": 0 } }"#)).err(),
        Some(SettingsError::NotPositive { setting: "explorer.width".to_owned() })
    );
    let settings = legacy_notes_settings(&doc(r#"{ "theme": null, "ui": null }"#)).unwrap();
    assert_eq!(settings.theme, NotesTheme::System);
    assert_eq!(settings.ui_font_family, ".SystemUIFont");
}

#[test]
fn test_legacy_parser_reads_explorer_settings_from_jsonc() {
    let settings = legacy_notes_settings(&doc(
        r#"
            {
                // Non-Markdown files are useful in mixed vaults.
                "explorer": {
                    "markdown_only": false,
                    "show_hidden": true,
                },
                "files": {
                    "exclude": ["drafts", "**/*.tmp"],
                },
            }
            "#,
    ))
    .expect("settings should parse");
    assert_eq!(settings.explorer_width, 240);
    assert!(!settings.markdown_only);
    assert!(settings.show_hidden);
    assert_eq!(settings.excluded_paths, vec!["drafts".to_owned(), "**/*.tmp".to_owned()]);
}

#[test]
fn test_legacy_parser_reads_preview_settings_from_jsonc() {
    let settings = legacy_notes_settings(&doc(
        r#"
            {
                "preview": {
                    "max_width": 680,
                    "allow_remote_images": true,
                    "max_file_size_bytes": 2048,
                },
            }
            "#,
    ))
    .expect("settings should parse");
    assert_eq!(settings.preview_font_family, ".SystemUIFont");
    assert_eq!(settings.preview_font_size, None);
    assert_eq!(settings.preview_max_width, 680);
    assert!(settings.allow_remote_images);
    assert_eq!(settings.max_file_size_bytes, 2048);
}

#[test]
fn test_reads_only_zednotes_policy_from_native_settings() {
    let settings = parse_notes_settings(&doc(
        r#"{
                "vim_mode": false,
                "buffer_font_size": 22,
                "zednotes": {
                    "vim": { "leader": "ctrl-space" },
                    "explorer": { "markdown_only": false },
                    "daily_notes": {
                        "directory": "log",
                        "filename_format": "%Y%m%d.md",
                        "template": "templates/log.md",
                    },
                },
            }"#,
    ))
    .expect("native settings with zednotes policy should parse");

    assert_eq!(settings.vim_leader, "ctrl-space");
    assert!(!settings.markdown_only);
    assert_eq!(settings.daily_notes.directory, "log");
    assert_eq!(settings.daily_notes.filename_format, "%Y%m%d.md");
    assert_eq!(settings.daily_notes.template.as_deref(), Some("templates/log.md"));
    assert!(
        settings.vim_mode,
        "standard settings are owned by SettingsStore rather than the notes policy parser"
    );
    assert_eq!(settings.editor_font_size, None);
    assert!(parse_notes_settings(&doc(r#"{ "zednotes": { "vim": { "leader": "g g" } } }"#)).is_err());
}

#[test]
fn test_daily_note_settings_cannot_escape_the_notes_folder() {
    for content in [
        r#"{ "zednotes": { "daily_notes": { "directory": "../outside" } } }"#,
        r#"{ "zednotes": { "daily_notes": { "filename_format": "%Y/%m/%d.md" } } }"#,
        r#"{ "zednotes": { "daily_notes": { "filename_format": "%Q.md" } } }"#,
        r#"{ "zednotes": { "daily_notes": { "filename_format": "%Y.txt" } } }"#,
        r#"{ "zednotes": { "daily_notes": { "template": "/tmp/daily.md" } } }"#,
    ] {
        assert!(parse_notes_settings(&doc(content)).is_err(), "{content} should fail");
    }
}

#[test]
fn test_migrates_legacy_settings_to_native_schema_and_zednotes_namespace() {
    let document = doc(
        r#"{
                // Preserve unrelated user-owned keys during the one-time migration.
                "custom_unknown": { "value": 7 },
                "theme": "dark",
                "vim_mode": false,
                "relative_line_numbers": "wrapped",
                "vim": {
                    "leader": "ctrl-space",
                    "toggle_relative_line_numbers": true,
                },
                "which_key": { "enabled": false, "delay_ms": 900 },
                "ui": { "font_family": "Test Sans", "font_size": 13.5 },
                "editor": {
                    "font_family": "Test Mono",
                    "font_size": 18.5,
                    "line_height": 1.4,
                    "line_numbers": true,
                    "soft_wrap": false,
                },
                "autosave": { "enabled": true, "delay_ms": 1250 },
                "explorer": {
                    "width": 320,
                    "markdown_only": false,
                    "show_hidden": true,
                },
                "files": { "exclude": ["drafts", "**/*.tmp"] },
                "preview": {
                    "font_family": "Test Serif",
                    "font_size": 17,
                    "max_width": 680,
                    "allow_remote_images": true,
                    "max_file_size_bytes": 2048,
                },
                "daily_notes": {
                    "directory": "log",
                    "filename_format": "%Y%m%d.md",
                    "template": "templates/log.md",
                },
            }"#,
    );
    let migrated = migrate_legacy_settings_document(document, &rounded("13.5", "18.5", "1.4", "17.0"))
        .expect("legacy settings should be migratable")
        .expect("legacy settings should require migration");

    assert_eq!(number(at(&migrated, &["custom_unknown", "value"])), "7");
    assert_eq!(text(at(&migrated, &["theme", "mode"])), "dark");
    assert_eq!(text(at(&migrated, &["ui_font_family"])), "Test Sans");
    assert_eq!(text(at(&migrated, &["buffer_font_family"])), "Test Mono");
    assert_eq!(number(at(&migrated, &["buffer_line_height", "custom"])), "1.4");
    assert!(boolean(at(&migrated, &["gutter", "line_numbers"])));
    assert_eq!(text(at(&migrated, &["soft_wrap"])), "none");
    assert_eq!(number(at(&migrated, &["autosave", "after_delay", "milliseconds"])), "1250");
    assert_eq!(number(at(&migrated, &["project_panel", "default_width"])), "320");
    assert!(!boolean(at(&migrated, &["project_panel", "hide_hidden"])));
    match at(&migrated, &["file_scan_exclusions"]) {
        SettingsValue::Array(items) => {
            assert_eq!(text(&items[0]), "**/drafts");
            assert_eq!(text(&items[1]), "**/*.tmp");
        }
        other => panic!("{other:?}"),
    }
    assert_eq!(number(at(&migrated, &["markdown_preview", "max_width"])), "680");
    assert_eq!(text(at(&migrated, &["zednotes", "vim", "leader"])), "ctrl-space");
    assert!(!boolean(at(&migrated, &["zednotes", "explorer", "markdown_only"])));
    assert_eq!(text(at(&migrated, &["zednotes", "daily_notes", "directory"])), "log");
    assert_eq!(text(at(&migrated, &["zednotes", "daily_notes", "filename_format"])), "%Y%m%d.md");
    assert_eq!(
        text(at(&migrated, &["zednotes", "daily_notes", "template"])),
        "templates/log.md"
    );
    for legacy_key in ["ui", "editor", "explorer", "files", "preview", "daily_notes"] {
        assert!(!has(&migrated, legacy_key), "{legacy_key}");
    }
    assert!(!has(at(&migrated, &["vim"]), "leader"));
    assert!(boolean(at(&migrated, &["vim", "toggle_relative_line_numbers"])));
    assert_eq!(text(at(&migrated, &["relative_line_numbers"])), "wrapped");
    assert_eq!(number(at(&migrated, &["ui_font_size"])), "13.5");
    assert_eq!(number(at(&migrated, &["markdown_preview_font_size"])), "17.0");

    assert!(matches!(
        migrate_legacy_settings_document(migrated, &rounded("14.0", "15.0", "1.55", "16.0")),
        Ok(None)
    ));
}

#[test]
fn test_native_initial_settings_do_not_need_migration() {
    let initial = doc(INITIAL_SETTINGS_CONTENT);
    assert!(matches!(
        migrate_legacy_settings_document(initial, &rounded("14.0", "15.0", "1.55", "16.0")),
        Ok(None)
    ));
}

#[test]
fn migration_keeps_the_other_entries_of_the_vim_and_zednotes_sections() {
    let document = doc(
        r#"{
            "ui": {},
            "vim": { "leader": ",", "use_smartcase_find": true },
            "zednotes": { "vim": { "other": 1 }, "daily_notes": "x" },
            "autosave": { "enabled": false }
        }"#,
    );
    let migrated = migrate_legacy_settings_document(document, &rounded("14.0", "15.0", "1.55", "16.0"))
        .unwrap()
        .unwrap();
    assert!(boolean(at(&migrated, &["vim", "use_smartcase_find"])));
    assert!(!has(at(&migrated, &["vim"]), "leader"));
    assert_eq!(number(at(&migrated, &["zednotes", "vim", "other"])), "1");
    assert_eq!(text(at(&migrated, &["zednotes", "vim", "leader"])), ",");
    assert_eq!(text(at(&migrated, &["zednotes", "daily_notes", "directory"])), "journal");
    assert!(!has(at(&migrated, &["zednotes", "daily_notes"]), "template"));
    assert_eq!(text(at(&migrated, &["autosave"])), "off");
    assert_eq!(text(at(&migrated, &["theme", "mode"])), "system");
    assert!(matches!(
        migrate_legacy_settings_document(doc("[1]"), &rounded("1", "1", "1", "1")),
        Err(SettingsError::InvalidValue)
    ));
}

#[test]
fn test_merges_former_gui_settings_into_the_canonical_file() {
    let canonical = migrate_legacy_settings_document(
        doc(
            r#"{
                    "editor": { "font_size": 15 },
                    "vim": { "leader": "ctrl-space" },
                    "explorer": { "markdown_only": false },
                }"#,
        ),
        &rounded("14.0", "15.0", "1.55", "16.0"),
    )
    .expect("legacy settings should be migratable")
    .expect("legacy settings should require migration");
    let split = doc(
        r#"{
                "buffer_font_size": 22,
                "theme": {
                    "mode": "dark",
                    "light": "One Light",
                    "dark": "One Dark",
                },
            }"#,
    );
    let document = merge_split_settings(Some(canonical), split, true)
        .expect("the daily note format applies")
        .expect("split settings should merge");

    assert_eq!(number(at(&document, &["buffer_font_size"])), "22");
    assert_eq!(text(at(&document, &["theme", "mode"])), "dark");
    assert_eq!(text(at(&document, &["zednotes", "vim", "leader"])), "ctrl-space");
    assert!(!boolean(at(&document, &["zednotes", "explorer", "markdown_only"])));
    assert!(!has(&document, "editor"));
    assert!(!has(&document, "explorer"));
}

#[test]
fn split_settings_merge_under_or_over_the_canonical_file() {
    let canonical = doc(r#"{ "vim_mode": false, "zednotes": { "vim": { "leader": "space" } } }"#);
    let split = doc(r#"{ "vim_mode": true, "zednotes": { "vim": { "leader": "," } } }"#);
    let over = merge_split_settings(Some(canonical), split, true).unwrap().unwrap();
    assert!(boolean(at(&over, &["vim_mode"])));
    assert_eq!(text(at(&over, &["zednotes", "vim", "leader"])), ",");

    let canonical = doc(r#"{ "vim_mode": false, "zednotes": { "vim": { "leader": "space" } } }"#);
    let split = doc(r#"{ "vim_mode": true, "zednotes": { "vim": { "leader": "," } } }"#);
    let under = merge_split_settings(Some(canonical), split, false).unwrap().unwrap();
    assert!(!boolean(at(&under, &["vim_mode"])));
    assert_eq!(text(at(&under, &["zednotes", "vim", "leader"])), "space");

    let alone = merge_split_settings(None, doc(r#"{ "vim_mode": true }"#), true).unwrap().unwrap();
    assert!(boolean(at(&alone, &["vim_mode"])));

    let bad = doc(r#"{ "zednotes": { "vim": { "leader": "ctrl-alt-x-y" } } }"#);
    assert_eq!(
        merge_split_settings(None, bad, true).unwrap().err(),
        Some(SettingsError::InvalidLeader)
    );
}

#[test]
fn migration_keeps_the_notes_policy() {
    let json = r#"{
        "vim": { "leader": "ctrl-space" },
        "explorer": { "markdown_only": false },
        "daily_notes": { "directory": "log", "filename_format": "%Y%m%d.md", "template": "t.md" }
    }"#;
    let before = legacy_notes_settings(&doc(json)).unwrap();
    let migrated = migrate_legacy_settings_document(doc(json), &rounded("14.0", "15.0", "1.55", "16.0"))
        .unwrap()
        .unwrap();
    let after = parse_notes_settings(&migrated).unwrap();
    assert_eq!(after.vim_leader, before.vim_leader);
    assert_eq!(after.markdown_only, before.markdown_only);
    assert_eq!(after.daily_notes.directory, before.daily_notes.directory);
    assert_eq!(after.daily_notes.filename_format, before.daily_notes.filename_format);
    assert_eq!(after.daily_notes.template, before.daily_notes.template);
}
