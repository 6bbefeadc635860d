use zednotes_links::daily_notes::{
    DEFAULT_DAILY_NOTE_TEMPLATE,
    checked_daily_note_relative_path, checked_render_daily_note_template,
    daily_note_relative_path, render_daily_note_template, validate_daily_notes_settings,
    CalendarDate, DailyNotesSettings, check_example_filename, daily_note_path, render_template,
};
use zednotes_links::notes::SettingsError;

fn settings(directory: &str, filename_format: &str, template: Option<&str>) -> DailyNotesSettings {
    DailyNotesSettings {
        directory: directory.to_owned(),
        filename_format: filename_format.to_owned(),
        template: template.map(str::to_owned),
    }
}

#[test]
fn test_daily_note_path_and_template_placeholders() {
    let date = CalendarDate { year: 2026, month: 8, day: 29 };
    let settings = settings("journal", "%Y-%m-%d.md", None);
    let path = daily_note_relative_path(&settings, date).unwrap();

    assert_eq!(path, "journal/2026-08-29.md");
    assert_eq!(
        render_daily_note_template(
            "---\ntitle: \"{{title}}\"\ndate: {{datetime}}\nlastUpdated: {{datetime}}\n---\n\nDate: {{date}}\n",
            date,
            "2026-08-29T10:01:02+08:00",
            &path,
        ),
        "---\ntitle: \"2026-08-29\"\ndate: 2026-08-29T10:01:02+08:00\nlastUpdated: 2026-08-29T10:01:02+08:00\n---\n\nDate: 2026-08-29\n"
    );
}

#[test]
fn daily_note_settings_errors_name_the_failed_check() {
    assert_eq!(
        validate_daily_notes_settings(&settings("../outside", "%Y-%m-%d.md", None)),
        Err(SettingsError::OutsideNotesFolder {
            setting: "zednotes.daily_notes.directory".to_owned()
        })
    );
    assert_eq!(
        validate_daily_notes_settings(&settings("journal", "%Y/%m/%d.md", None)),
        Err(SettingsError::NotOneFilename)
    );
    assert_eq!(
        validate_daily_notes_settings(&settings("journal", "../%Y.md", None)),
        Err(SettingsError::OutsideNotesFolder {
            setting: "zednotes.daily_notes.filename_format".to_owned()
        })
    );
    assert_eq!(
        validate_daily_notes_settings(&settings("journal", "%Q.md", None)),
        Err(SettingsError::InvalidDateDirective)
    );
    assert_eq!(
        validate_daily_notes_settings(&settings("journal", "%Y.txt", None)),
        Err(SettingsError::NotMarkdownFilename)
    );
    assert_eq!(
        validate_daily_notes_settings(&settings("journal", "%Y.md", Some("/tmp/daily.md"))),
        Err(SettingsError::OutsideNotesFolder {
            setting: "zednotes.daily_notes.template".to_owned()
        })
    );
    assert_eq!(
        validate_daily_notes_settings(&settings("journal", "  ", None)),
        Err(SettingsError::Empty { setting: "zednotes.daily_notes.filename_format".to_owned() })
    );
    assert_eq!(validate_daily_notes_settings(&settings("", "%d.md", Some("t.md"))), Ok(()));
}

#[test]
fn checked_variants_report_dates_chrono_cannot_format() {
    let date = CalendarDate { year: 2024, month: 2, day: 29 };
    assert_eq!(
        checked_daily_note_relative_path(&settings("j/", "%d.md", None), date),
        Some(Ok("j/29.md".to_owned()))
    );
    assert_eq!(checked_daily_note_relative_path(&settings("j", "%H.md", None), date), None);
    let missing = CalendarDate { year: 2023, month: 2, day: 29 };
    assert_eq!(checked_daily_note_relative_path(&settings("j", "%d.md", None), missing), None);
    assert_eq!(
        checked_render_daily_note_template("{{date}}/{{title}}", date, "", "notes"),
        Some("2024-02-29/notes".to_owned())
    );
    assert_eq!(checked_render_daily_note_template("x", missing, "", "n.md"), None);
}

#[test]
fn default_daily_notes_live_in_the_journal() {
    let settings = DailyNotesSettings::default();
    assert_eq!(settings.directory, "journal");
    assert_eq!(settings.filename_format, "%Y-%m-%d.md");
    assert!(settings.template.is_none());
    let date = CalendarDate { year: 2025, month: 1, day: 9 };
    let path = daily_note_relative_path(&settings, date).unwrap();
    assert_eq!(path, "journal/2025-01-09.md");
    assert_eq!(
        render_daily_note_template(DEFAULT_DAILY_NOTE_TEMPLATE, date, "T", &path),
        "---\ntitle: \"2025-01-09\"\ndate: T\nlastUpdated: T\n---\n\n"
    );
}

#[test]
fn the_logic_after_formatting_works_on_given_text() {
    assert_eq!(
        render_template("# {{title}}\n{{date}} {{datetime}} {{date}}", "2026-08-29", "T10", "journal/Day.md"),
        "# Day\n2026-08-29 T10 2026-08-29"
    );
    assert_eq!(render_template("{{title}}", "2026-08-29", "", ""), "2026-08-29");
    assert_eq!(daily_note_path("journal", "2026-08-29.md"), "journal/2026-08-29.md");
    assert_eq!(daily_note_path("journal/", "a.md"), "journal/a.md");
    assert_eq!(daily_note_path("", "a.md"), "a.md");
    assert_eq!(check_example_filename("2000-01-02.md"), Ok(()));
    assert_eq!(check_example_filename("2000/01.md"), Err(SettingsError::NotOneFilename));
    assert_eq!(check_example_filename("2000.txt"), Err(SettingsError::NotMarkdownFilename));
    assert_eq!(
        check_example_filename("../2000.md"),
        Err(SettingsError::OutsideNotesFolder {
            setting: "zednotes.daily_notes.filename_format".to_owned()
        })
    );
}
