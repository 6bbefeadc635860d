//! The settings of the notes application read from a settings document:
//! the former schema (`ui`, `editor`, `explorer`, ... sections) and the
//! native one, where only the `zednotes` section belongs to the notes
//! application.
//!
//! Font sizes and the line height are floating-point numbers; they are kept
//! here as the text of the number, `None` where the document gives none and
//! the default applies. Checking that they are positive, and rounding them,
//! is left to the caller.

use vstd::prelude::*;
use crate::daily_notes::{
    daily_notes_check, example_filename, example_filename_formats, formats_example,
    validate_daily_notes_settings,
    DailyNotesSettings, DailyNotesSettingsView,
};
use crate::notes::{check_view, SettingsError, SettingsErrorView};
use crate::settings_documents::{
    has_key, lookup, set_entry, take_entry,
    bool_setting, distinct_keys, number_text_setting, read_bool, read_number_text, read_section,
    read_text, read_text_list, read_unsigned, section, section_entries, text_list_setting,
    text_read_view, text_setting, unsigned_setting, values_well_formed, well_formed, SettingsEntry,
    SettingsValue, present, list_read_view, section_read_view, unsigned_read_view,
};
use crate::text::{eq_ignore_ascii_case_spec, is_whitespace, is_whitespace_spec, trim, trim_spec};

verus! {

/// The colour theme mode.
#[derive(Clone, Copy, Debug, PartialEq, Eq, Structural)]
pub enum NotesTheme {
    System,
    Light,
    Dark,
}

/// How the editor numbers lines relative to the cursor.
#[derive(Clone, Copy, Debug, PartialEq, Eq, Structural)]
pub enum RelativeLineNumbers {
    Disabled,
    Enabled,
    Wrapped,
}

/// The name of a theme mode in a settings document.
pub open spec fn theme_name(t: NotesTheme) -> Seq<char> {
    match t {
        NotesTheme::System => "system"@,
        NotesTheme::Light => "light"@,
        NotesTheme::Dark => "dark"@,
    }
}

/// The name of a relative line numbering in a settings document.
pub open spec fn relative_line_numbers_name(r: RelativeLineNumbers) -> Seq<char> {
    match r {
        RelativeLineNumbers::Disabled => "disabled"@,
        RelativeLineNumbers::Enabled => "enabled"@,
        RelativeLineNumbers::Wrapped => "wrapped"@,
    }
}

/// Reading the `theme` setting: one of the three mode names.
pub open spec fn theme_setting(root: Seq<SettingsEntry>) -> Option<Option<NotesTheme>> {
    match text_setting(root, "theme"@) {
        Some(None) => Some(None),
        Some(Some(t)) => if t == "system"@ {
            Some(Some(NotesTheme::System))
        } else if t == "light"@ {
            Some(Some(NotesTheme::Light))
        } else if t == "dark"@ {
            Some(Some(NotesTheme::Dark))
        } else {
            None
        },
        None => None,
    }
}

/// Reading the `relative_line_numbers` setting: one of the three names.
pub open spec fn relative_line_numbers_setting(root: Seq<SettingsEntry>) -> Option<
    Option<RelativeLineNumbers>,
> {
    match text_setting(root, "relative_line_numbers"@) {
        Some(None) => Some(None),
        Some(Some(t)) => if t == "disabled"@ {
            Some(Some(RelativeLineNumbers::Disabled))
        } else if t == "enabled"@ {
            Some(Some(RelativeLineNumbers::Enabled))
        } else if t == "wrapped"@ {
            Some(Some(RelativeLineNumbers::Wrapped))
        } else {
            None
        },
        None => None,
    }
}

/// The settings of the notes application.
#[derive(Debug)]
pub struct NotesSettings {
    pub theme: NotesTheme,
    pub vim_mode: bool,
    pub relative_line_numbers: RelativeLineNumbers,
    pub vim_leader: String,
    pub toggle_relative_line_numbers: bool,
    pub which_key_enabled: bool,
    pub which_key_delay_ms: u64,
    pub ui_font_family: String,
    pub ui_font_size: Option<String>,
    pub editor_font_family: String,
    pub editor_font_size: Option<String>,
    pub editor_line_height: Option<String>,
    pub line_numbers: bool,
    pub soft_wrap: bool,
    pub autosave_enabled: bool,
    pub autosave_delay_ms: u64,
    pub explorer_width: u32,
    pub markdown_only: bool,
    pub show_hidden: bool,
    pub excluded_paths: Vec<String>,
    pub preview_font_family: String,
    pub preview_font_size: Option<String>,
    pub preview_max_width: u32,
    pub allow_remote_images: bool,
    pub max_file_size_bytes: u64,
    pub daily_notes: DailyNotesSettings,
}

/// The settings of the notes application, as values.
pub struct NotesSettingsView {
    pub theme: NotesTheme,
    pub vim_mode: bool,
    pub relative_line_numbers: RelativeLineNumbers,
    pub vim_leader: Seq<char>,
    pub toggle_relative_line_numbers: bool,
    pub which_key_enabled: bool,
    pub which_key_delay_ms: nat,
    pub ui_font_family: Seq<char>,
    pub ui_font_size: Option<Seq<char>>,
    pub editor_font_family: Seq<char>,
    pub editor_font_size: Option<Seq<char>>,
    pub editor_line_height: Option<Seq<char>>,
    pub line_numbers: bool,
    pub soft_wrap: bool,
    pub autosave_enabled: bool,
    pub autosave_delay_ms: nat,
    pub explorer_width: nat,
    pub markdown_only: bool,
    pub show_hidden: bool,
    pub excluded_paths: Seq<Seq<char>>,
    pub preview_font_family: Seq<char>,
    pub preview_font_size: Option<Seq<char>>,
    pub preview_max_width: nat,
    pub allow_remote_images: bool,
    pub max_file_size_bytes: nat,
    pub daily_notes: DailyNotesSettingsView,
}

/// The view of an optional text.
pub open spec fn opt_text(o: Option<String>) -> Option<Seq<char>> {
    match o {
        Some(t) => Some(t@),
        None => None,
    }
}

impl View for NotesSettings {
    type V = NotesSettingsView;

    open spec fn view(&self) -> NotesSettingsView {
        NotesSettingsView {
            theme: self.theme,
            vim_mode: self.vim_mode,
            relative_line_numbers: self.relative_line_numbers,
            vim_leader: self.vim_leader@,
            toggle_relative_line_numbers: self.toggle_relative_line_numbers,
            which_key_enabled: self.which_key_enabled,
            which_key_delay_ms: self.which_key_delay_ms as nat,
            ui_font_family: self.ui_font_family@,
            ui_font_size: opt_text(self.ui_font_size),
            editor_font_family: self.editor_font_family@,
            editor_font_size: opt_text(self.editor_font_size),
            editor_line_height: opt_text(self.editor_line_height),
            line_numbers: self.line_numbers,
            soft_wrap: self.soft_wrap,
            autosave_enabled: self.autosave_enabled,
            autosave_delay_ms: self.autosave_delay_ms as nat,
            explorer_width: self.explorer_width as nat,
            markdown_only: self.markdown_only,
            show_hidden: self.show_hidden,
            excluded_paths: self.excluded_paths@.map_values(|t: String| t@),
            preview_font_family: self.preview_font_family@,
            preview_font_size: opt_text(self.preview_font_size),
            preview_max_width: self.preview_max_width as nat,
            allow_remote_images: self.allow_remote_images,
            max_file_size_bytes: self.max_file_size_bytes as nat,
            daily_notes: self.daily_notes@,
        }
    }
}

/// The paths the explorer hides by default.
pub open spec fn default_excluded_paths() -> Seq<Seq<char>> {
    seq![".git"@, ".DS_Store"@, "node_modules"@, "target"@]
}

/// The default settings.
pub open spec fn default_settings() -> NotesSettingsView {
    NotesSettingsView {
        theme: NotesTheme::System,
        vim_mode: true,
        relative_line_numbers: RelativeLineNumbers::Disabled,
        vim_leader: "space"@,
        toggle_relative_line_numbers: false,
        which_key_enabled: true,
        which_key_delay_ms: 500,
        ui_font_family: ".SystemUIFont"@,
        ui_font_size: None,
        editor_font_family: ".ZedMono"@,
        editor_font_size: None,
        editor_line_height: None,
        line_numbers: false,
        soft_wrap: true,
        autosave_enabled: true,
        autosave_delay_ms: 750,
        explorer_width: 240,
        markdown_only: true,
        show_hidden: false,
        excluded_paths: default_excluded_paths(),
        preview_font_family: ".SystemUIFont"@,
        preview_font_size: None,
        preview_max_width: 760,
        allow_remote_images: false,
        max_file_size_bytes: 5242880,
        daily_notes: DailyNotesSettingsView {
            directory: "journal"@,
            filename_format: "%Y-%m-%d.md"@,
            template: None,
        },
    }
}

impl Default for NotesSettings {
    /// The default settings (see [`default_settings`]).
    fn default() -> (r: Self)
        ensures
            r@ == default_settings(),
    {
        let excluded_paths = vec![
            ".git".to_owned(),
            ".DS_Store".to_owned(),
            "node_modules".to_owned(),
            "target".to_owned(),
        ];
        let r = NotesSettings {
            theme: NotesTheme::System,
            vim_mode: true,
            relative_line_numbers: RelativeLineNumbers::Disabled,
            vim_leader: "space".to_owned(),
            toggle_relative_line_numbers: false,
            which_key_enabled: true,
            which_key_delay_ms: 500,
            ui_font_family: ".SystemUIFont".to_owned(),
            ui_font_size: None,
            editor_font_family: ".ZedMono".to_owned(),
            editor_font_size: None,
            editor_line_height: None,
            line_numbers: false,
            soft_wrap: true,
            autosave_enabled: true,
            autosave_delay_ms: 750,
            explorer_width: 240,
            markdown_only: true,
            show_hidden: false,
            excluded_paths,
            preview_font_family: ".SystemUIFont".to_owned(),
            preview_font_size: None,
            preview_max_width: 760,
            allow_remote_images: false,
            max_file_size_bytes: 5242880,
            daily_notes: DailyNotesSettings::default(),
        };
        assert(r@.excluded_paths =~= default_excluded_paths());
        r
    }
}

/// The value read, or `d` when the setting is not given.
pub open spec fn or_default<T>(read: Option<Option<T>>, d: T) -> T {
    match read {
        Some(Some(v)) => v,
        _ => d,
    }
}

/// The value read, if the setting is given.
pub open spec fn given<T>(read: Option<Option<T>>) -> Option<T> {
    match read {
        Some(Some(v)) => Some(v),
        _ => None,
    }
}

/// Whether every setting of the former schema in `root` holds a value of
/// its kind, in range.
#[verifier::opaque]
pub open spec fn legacy_typed(root: Seq<SettingsEntry>) -> bool {
    let vim = section_entries(root, "vim"@);
    let which_key = section_entries(root, "which_key"@);
    let ui = section_entries(root, "ui"@);
    let editor = section_entries(root, "editor"@);
    let autosave = section_entries(root, "autosave"@);
    let explorer = section_entries(root, "explorer"@);
    let files = section_entries(root, "files"@);
    let preview = section_entries(root, "preview"@);
    let daily = section_entries(root, "daily_notes"@);
    &&& theme_setting(root) is Some
    &&& bool_setting(root, "vim_mode"@) is Some
    &&& relative_line_numbers_setting(root) is Some
    &&& section(root, "vim"@) is Some
    &&& text_setting(vim, "leader"@) is Some
    &&& bool_setting(vim, "toggle_relative_line_numbers"@) is Some
    &&& section(root, "which_key"@) is Some
    &&& bool_setting(which_key, "enabled"@) is Some
    &&& unsigned_setting(which_key, "delay_ms"@, u64::MAX as nat) is Some
    &&& section(root, "ui"@) is Some
    &&& text_setting(ui, "font_family"@) is Some
    &&& number_text_setting(ui, "font_size"@) is Some
    &&& section(root, "editor"@) is Some
    &&& text_setting(editor, "font_family"@) is Some
    &&& number_text_setting(editor, "font_size"@) is Some
    &&& number_text_setting(editor, "line_height"@) is Some
    &&& bool_setting(editor, "line_numbers"@) is Some
    &&& bool_setting(editor, "soft_wrap"@) is Some
    &&& section(root, "autosave"@) is Some
    &&& bool_setting(autosave, "enabled"@) is Some
    &&& unsigned_setting(autosave, "delay_ms"@, u64::MAX as nat) is Some
    &&& section(root, "explorer"@) is Some
    &&& unsigned_setting(explorer, "width"@, u32::MAX as nat) is Some
    &&& bool_setting(explorer, "markdown_only"@) is Some
    &&& bool_setting(explorer, "show_hidden"@) is Some
    &&& section(root, "files"@) is Some
    &&& text_list_setting(files, "exclude"@) is Some
    &&& section(root, "preview"@) is Some
    &&& text_setting(preview, "font_family"@) is Some
    &&& number_text_setting(preview, "font_size"@) is Some
    &&& unsigned_setting(preview, "max_width"@, u32::MAX as nat) is Some
    &&& bool_setting(preview, "allow_remote_images"@) is Some
    &&& unsigned_setting(preview, "max_file_size_bytes"@, u64::MAX as nat) is Some
    &&& section(root, "daily_notes"@) is Some
    &&& text_setting(daily, "directory"@) is Some
    &&& text_setting(daily, "filename_format"@) is Some
    &&& text_setting(daily, "template"@) is Some
}

/// The settings that a document in the former schema gives: each setting
/// it holds replaces the default.
#[verifier::opaque]
pub open spec fn legacy_merged(root: Seq<SettingsEntry>) -> NotesSettingsView {
    let d = default_settings();
    let vim = section_entries(root, "vim"@);
    let which_key = section_entries(root, "which_key"@);
    let ui = section_entries(root, "ui"@);
    let editor = section_entries(root, "editor"@);
    let autosave = section_entries(root, "autosave"@);
    let explorer = section_entries(root, "explorer"@);
    let files = section_entries(root, "files"@);
    let preview = section_entries(root, "preview"@);
    let daily = section_entries(root, "daily_notes"@);
    NotesSettingsView {
        theme: or_default(theme_setting(root), d.theme),
        vim_mode: or_default(bool_setting(root, "vim_mode"@), d.vim_mode),
        relative_line_numbers: or_default(
            relative_line_numbers_setting(root),
            d.relative_line_numbers,
        ),
        vim_leader: or_default(text_setting(vim, "leader"@), d.vim_leader),
        toggle_relative_line_numbers: or_default(
            bool_setting(vim, "toggle_relative_line_numbers"@),
            d.toggle_relative_line_numbers,
        ),
        which_key_enabled: or_default(bool_setting(which_key, "enabled"@), d.which_key_enabled),
        which_key_delay_ms: or_default(
            unsigned_setting(which_key, "delay_ms"@, u64::MAX as nat),
            d.which_key_delay_ms,
        ),
        ui_font_family: or_default(text_setting(ui, "font_family"@), d.ui_font_family),
        ui_font_size: given(number_text_setting(ui, "font_size"@)),
        editor_font_family: or_default(text_setting(editor, "font_family"@), d.editor_font_family),
        editor_font_size: given(number_text_setting(editor, "font_size"@)),
        editor_line_height: given(number_text_setting(editor, "line_height"@)),
        line_numbers: or_default(bool_setting(editor, "line_numbers"@), d.line_numbers),
        soft_wrap: or_default(bool_setting(editor, "soft_wrap"@), d.soft_wrap),
        autosave_enabled: or_default(bool_setting(autosave, "enabled"@), d.autosave_enabled),
        autosave_delay_ms: or_default(
            unsigned_setting(autosave, "delay_ms"@, u64::MAX as nat),
            d.autosave_delay_ms,
        ),
        explorer_width: or_default(
            unsigned_setting(explorer, "width"@, u32::MAX as nat),
            d.explorer_width,
        ),
        markdown_only: or_default(bool_setting(explorer, "markdown_only"@), d.markdown_only),
        show_hidden: or_default(bool_setting(explorer, "show_hidden"@), d.show_hidden),
        excluded_paths: or_default(text_list_setting(files, "exclude"@), d.excluded_paths),
        preview_font_family: or_default(
            text_setting(preview, "font_family"@),
            d.preview_font_family,
        ),
        preview_font_size: given(number_text_setting(preview, "font_size"@)),
        preview_max_width: or_default(
            unsigned_setting(preview, "max_width"@, u32::MAX as nat),
            d.preview_max_width,
        ),
        allow_remote_images: or_default(
            bool_setting(preview, "allow_remote_images"@),
            d.allow_remote_images,
        ),
        max_file_size_bytes: or_default(
            unsigned_setting(preview, "max_file_size_bytes"@, u64::MAX as nat),
            d.max_file_size_bytes,
        ),
        daily_notes: DailyNotesSettingsView {
            directory: or_default(text_setting(daily, "directory"@), d.daily_notes.directory),
            filename_format: or_default(
                text_setting(daily, "filename_format"@),
                d.daily_notes.filename_format,
            ),
            template: given(text_setting(daily, "template"@)),
        },
    }
}

/// Whether `part` names a modifier key, in any ASCII case: `ctrl`, `alt`,
/// `shift`, `fn`, `cmd`, `super`, `win` or `secondary`.
pub open spec fn is_modifier_name(part: Seq<char>) -> bool {
    ||| eq_ignore_ascii_case_spec(part, seq!['c', 't', 'r', 'l'])
    ||| eq_ignore_ascii_case_spec(part, seq!['a', 'l', 't'])
    ||| eq_ignore_ascii_case_spec(part, seq!['s', 'h', 'i', 'f', 't'])
    ||| eq_ignore_ascii_case_spec(part, seq!['f', 'n'])
    ||| eq_ignore_ascii_case_spec(part, seq!['c', 'm', 'd'])
    ||| eq_ignore_ascii_case_spec(part, seq!['s', 'u', 'p', 'e', 'r'])
    ||| eq_ignore_ascii_case_spec(part, seq!['w', 'i', 'n'])
    ||| eq_ignore_ascii_case_spec(part, seq!['s', 'e', 'c', 'o', 'n', 'd', 'a', 'r', 'y'])
}

/// Whether the first `n` of `parts` all name modifiers.
pub open spec fn modifiers_before(parts: Seq<Seq<char>>, n: int) -> bool {
    forall|i: int| 0 <= i < n ==> is_modifier_name(#[trigger] parts[i])
}

/// Whether `leader` is one keystroke: split at `-`, every part but the last
/// names a modifier and the last is the key; a keystroke that ends in `--`
/// after its modifiers names the `-` key; and a key may be followed by
/// `->` and the character it types.
pub open spec fn is_one_keystroke(leader: Seq<char>) -> bool {
    let parts = crate::paths::split_on(leader, '-');
    let n = parts.len() as int;
    ||| modifiers_before(parts, n - 1)
    ||| (n >= 2 && parts[n - 2].len() == 0 && parts[n - 1].len() == 0 && modifiers_before(
        parts,
        n - 2,
    ))
    ||| (n >= 2 && parts[n - 1].len() > 1 && parts[n - 1][0] == '>' && modifiers_before(
        parts,
        n - 2,
    ))
}

/// Whether `leader` can be the Vim leader: it is not empty, holds no
/// whitespace, and is one keystroke.
pub open spec fn leader_ok(leader: Seq<char>) -> bool {
    &&& leader.len() > 0
    &&& forall|i: int| 0 <= i < leader.len() ==> !is_whitespace_spec(#[trigger] leader[i])
    &&& is_one_keystroke(leader)
}

/// The checks on settings in the former schema that do not involve a
/// floating-point number: the font families must not be blank, the leader
/// must be one key, the explorer and preview widths must be positive, and
/// the daily-note settings must pass their check.
pub open spec fn legacy_check(s: NotesSettingsView) -> Result<(), SettingsErrorView> {
    if trim_spec(s.ui_font_family).len() == 0 {
        Err(SettingsErrorView::Empty("ui.font_family"@))
    } else if trim_spec(s.editor_font_family).len() == 0 {
        Err(SettingsErrorView::Empty("editor.font_family"@))
    } else if !leader_ok(s.vim_leader) {
        Err(SettingsErrorView::InvalidLeader)
    } else if s.explorer_width == 0 {
        Err(SettingsErrorView::NotPositive("explorer.width"@))
    } else if trim_spec(s.preview_font_family).len() == 0 {
        Err(SettingsErrorView::Empty("preview.font_family"@))
    } else if s.preview_max_width == 0 {
        Err(SettingsErrorView::NotPositive("preview.max_width"@))
    } else {
        daily_notes_check(s.daily_notes)
    }
}

/// The settings a document in the former schema gives, or why it is
/// refused: it must be an object whose settings hold values of their kinds,
/// and the merged settings must pass [`legacy_check`].
pub open spec fn legacy_settings_spec(document: SettingsValue) -> Result<
    NotesSettingsView,
    SettingsErrorView,
> {
    match document {
        SettingsValue::Object(root) => if !legacy_typed(root@) {
            Err(SettingsErrorView::InvalidValue)
        } else {
            match legacy_check(legacy_merged(root@)) {
                Err(e) => Err(e),
                Ok(()) => Ok(legacy_merged(root@)),
            }
        },
        _ => Err(SettingsErrorView::InvalidValue),
    }
}

/// The view of a settings result.
pub open spec fn settings_result_view(r: Result<NotesSettings, SettingsError>) -> Result<
    NotesSettingsView,
    SettingsErrorView,
> {
    match r {
        Ok(s) => Ok(s@),
        Err(e) => Err(e@),
    }
}

/// Whether checking the daily-note settings `d`, where it gets to format
/// the example date, can format it.
pub open spec fn example_formats(d: DailyNotesSettingsView) -> bool {
    formats_example(d) ==> example_filename(d.filename_format) is Some
}

/// Whether the checks of [`legacy_check`] before the daily-note check pass.
pub open spec fn legacy_checks_reach_daily_notes(s: NotesSettingsView) -> bool {
    &&& trim_spec(s.ui_font_family).len() > 0
    &&& trim_spec(s.editor_font_family).len() > 0
    &&& leader_ok(s.vim_leader)
    &&& s.explorer_width > 0
    &&& trim_spec(s.preview_font_family).len() > 0
    &&& s.preview_max_width > 0
}

/// Whether reading `document` in the former schema, where it gets to check
/// the daily-note settings, can format their example date.
pub open spec fn legacy_example_formats(document: SettingsValue) -> bool {
    document matches SettingsValue::Object(root) ==> (legacy_typed(root@)
        && legacy_checks_reach_daily_notes(legacy_merged(root@)) ==> example_formats(
        legacy_merged(root@).daily_notes,
    ))
}

/// Whether `part` names a modifier key (see [`is_modifier_name`]).
fn is_modifier_name_exec(part: &Vec<char>) -> (r: bool)
    ensures
        r == is_modifier_name(part@),
{
    assert(part@.skip(0) =~= part@);
    let p = part.as_slice();
    crate::text::eq_ignore_ascii_case_from(p, 0, &['c', 't', 'r', 'l'])
        || crate::text::eq_ignore_ascii_case_from(p, 0, &['a', 'l', 't'])
        || crate::text::eq_ignore_ascii_case_from(p, 0, &['s', 'h', 'i', 'f', 't'])
        || crate::text::eq_ignore_ascii_case_from(p, 0, &['f', 'n'])
        || crate::text::eq_ignore_ascii_case_from(p, 0, &['c', 'm', 'd'])
        || crate::text::eq_ignore_ascii_case_from(p, 0, &['s', 'u', 'p', 'e', 'r'])
        || crate::text::eq_ignore_ascii_case_from(p, 0, &['w', 'i', 'n'])
        || crate::text::eq_ignore_ascii_case_from(
        p,
        0,
        &['s', 'e', 'c', 'o', 'n', 'd', 'a', 'r', 'y'],
    )
}

/// Whether `leader` is one keystroke (see [`is_one_keystroke`]).
pub fn is_one_keystroke_exec(leader: &str) -> (r: bool)
    ensures
        r == is_one_keystroke(leader@),
{
    let chars = crate::text::chars_of(leader);
    let parts = crate::paths::split_chars(&chars, '-');
    let ghost pv = parts@.map_values(|v: Vec<char>| v@);
    proof {
        crate::paths::lemma_split_on_nonempty(leader@, '-');
    }
    let n = parts.len();
    assert(n >= 1);
    // How many leading parts name modifiers.
    let mut m: usize = 0;
    while m < n && is_modifier_name_exec(&parts[m])
        invariant
            m <= n,
            n == parts@.len(),
            pv == parts@.map_values(|v: Vec<char>| v@),
            modifiers_before(pv, m as int),
        decreases n - m,
    {
        assert(pv[m as int] == parts@[m as int]@);
        m += 1;
    }
    proof {
        if m < n {
            assert(pv[m as int] == parts@[m as int]@);
        }
        assert forall|k: int| k > m && k <= n implies !modifiers_before(pv, k) by {
            assert(!is_modifier_name(pv[m as int]));
        }
    }
    if n - m <= 1 {
        return true;
    }
    assert(!modifiers_before(pv, n - 1));
    if m + 2 == n {
        let last = &parts[n - 1];
        let before_last = &parts[n - 2];
        proof {
            assert(pv[n - 1] == last@ && pv[n - 2] == before_last@);
        }
        return (before_last.len() == 0 && last.len() == 0) || (last.len() > 1 && last[0]
            == '>');
    }
    false
}

/// Whether the leader key can be the Vim leader (see [`leader_ok`]).
pub fn leader_is_ok(leader: &str) -> (r: bool)
    ensures
        r == leader_ok(leader@),
{
    if !is_one_keystroke_exec(leader) {
        return false;
    }
    let chars = crate::text::chars_of(leader);
    if chars.len() == 0 {
        return false;
    }
    let mut i: usize = 0;
    while i < chars.len()
        invariant
            i <= chars.len(),
            chars@ == leader@,
            forall|j: int| 0 <= j < i ==> !is_whitespace_spec(#[trigger] chars@[j]),
        decreases chars.len() - i,
    {
        if is_whitespace(chars[i]) {
            return false;
        }
        i += 1;
    }
    true
}

/// The text of `o` as a `String` option.
fn take_text(o: Option<Option<String>>, d: String) -> (r: String)
    ensures
        r@ == or_default(text_read_view(o), d@),
{
    match o {
        Some(Some(t)) => t,
        _ => d,
    }
}

/// Reads the settings of the former schema from the entries of a document,
/// without checking them: `None` when a setting holds a value of the wrong
/// kind.
#[verifier::rlimit(40)]
fn read_legacy_settings(root: &Vec<SettingsEntry>) -> (r: Option<NotesSettings>)
    requires
        distinct_keys(root@),
        values_well_formed(root@),
    ensures
        match r {
            Some(s) => legacy_typed(root@) && s@ == legacy_merged(root@),
            None => !legacy_typed(root@),
        },
{
    reveal(legacy_typed);
    reveal(legacy_merged);
    let empty: Vec<SettingsEntry> = Vec::new();
    assert(empty@ =~= Seq::<SettingsEntry>::empty());
    let ghost rv = root@;
    let d = NotesSettings::default();
    let theme = match read_theme(root) {
        Some(t) => t,
        None => return None,
    };
    let vim_mode = match read_bool(root, "vim_mode") {
        Some(b) => b,
        None => return None,
    };
    let relative_line_numbers = match read_relative_line_numbers(root) {
        Some(r) => r,
        None => return None,
    };
    let vim = match read_section(root, "vim") {
        Some(Some(s)) => s,
        Some(None) => &empty,
        None => return None,
    };
    assert(vim@ == section_entries(rv, "vim"@));
    let leader = match read_text(vim, "leader") {
        Some(t) => t,
        None => return None,
    };
    let toggle = match read_bool(vim, "toggle_relative_line_numbers") {
        Some(b) => b,
        None => return None,
    };
    let which_key = match read_section(root, "which_key") {
        Some(Some(s)) => s,
        Some(None) => &empty,
        None => return None,
    };
    assert(which_key@ == section_entries(rv, "which_key"@));
    let which_key_enabled = match read_bool(which_key, "enabled") {
        Some(b) => b,
        None => return None,
    };
    let which_key_delay_ms = match read_unsigned(which_key, "delay_ms", u64::MAX) {
        Some(n) => n,
        None => return None,
    };
    let ui = match read_section(root, "ui") {
        Some(Some(s)) => s,
        Some(None) => &empty,
        None => return None,
    };
    assert(ui@ == section_entries(rv, "ui"@));
    let ui_font_family = match read_text(ui, "font_family") {
        Some(t) => t,
        None => return None,
    };
    let ui_font_size = match read_number_text(ui, "font_size") {
        Some(t) => t,
        None => return None,
    };
    let editor = match read_section(root, "editor") {
        Some(Some(s)) => s,
        Some(None) => &empty,
        None => return None,
    };
    assert(editor@ == section_entries(rv, "editor"@));
    let editor_font_family = match read_text(editor, "font_family") {
        Some(t) => t,
        None => return None,
    };
    let editor_font_size = match read_number_text(editor, "font_size") {
        Some(t) => t,
        None => return None,
    };
    let editor_line_height = match read_number_text(editor, "line_height") {
        Some(t) => t,
        None => return None,
    };
    let line_numbers = match read_bool(editor, "line_numbers") {
        Some(b) => b,
        None => return None,
    };
    let soft_wrap = match read_bool(editor, "soft_wrap") {
        Some(b) => b,
        None => return None,
    };
    let autosave = match read_section(root, "autosave") {
        Some(Some(s)) => s,
        Some(None) => &empty,
        None => return None,
    };
    assert(autosave@ == section_entries(rv, "autosave"@));
    let autosave_enabled = match read_bool(autosave, "enabled") {
        Some(b) => b,
        None => return None,
    };
    let autosave_delay_ms = match read_unsigned(autosave, "delay_ms", u64::MAX) {
        Some(n) => n,
        None => return None,
    };
    let explorer = match read_section(root, "explorer") {
        Some(Some(s)) => s,
        Some(None) => &empty,
        None => return None,
    };
    assert(explorer@ == section_entries(rv, "explorer"@));
    let explorer_width = match read_unsigned(explorer, "width", 4294967295) {
        Some(n) => n,
        None => return None,
    };
    let markdown_only = match read_bool(explorer, "markdown_only") {
        Some(b) => b,
        None => return None,
    };
    let show_hidden = match read_bool(explorer, "show_hidden") {
        Some(b) => b,
        None => return None,
    };
    let files = match read_section(root, "files") {
        Some(Some(s)) => s,
        Some(None) => &empty,
        None => return None,
    };
    assert(files@ == section_entries(rv, "files"@));
    let exclude = match read_text_list(files, "exclude") {
        Some(l) => l,
        None => return None,
    };
    let preview = match read_section(root, "preview") {
        Some(Some(s)) => s,
        Some(None) => &empty,
        None => return None,
    };
    assert(preview@ == section_entries(rv, "preview"@));
    let preview_font_family = match read_text(preview, "font_family") {
        Some(t) => t,
        None => return None,
    };
    let preview_font_size = match read_number_text(preview, "font_size") {
        Some(t) => t,
        None => return None,
    };
    let preview_max_width = match read_unsigned(preview, "max_width", 4294967295) {
        Some(n) => n,
        None => return None,
    };
    let allow_remote_images = match read_bool(preview, "allow_remote_images") {
        Some(b) => b,
        None => return None,
    };
    let max_file_size_bytes = match read_unsigned(preview, "max_file_size_bytes", u64::MAX) {
        Some(n) => n,
        None => return None,
    };
    let daily = match read_section(root, "daily_notes") {
        Some(Some(s)) => s,
        Some(None) => &empty,
        None => return None,
    };
    assert(daily@ == section_entries(rv, "daily_notes"@));
    let directory = match read_text(daily, "directory") {
        Some(t) => t,
        None => return None,
    };
    let filename_format = match read_text(daily, "filename_format") {
        Some(t) => t,
        None => return None,
    };
    let template = match read_text(daily, "template") {
        Some(t) => t,
        None => return None,
    };
    assert(legacy_typed(rv));
    let settings = NotesSettings {
        theme: match theme {
            Some(t) => t,
            None => d.theme,
        },
        vim_mode: match vim_mode {
            Some(b) => b,
            None => d.vim_mode,
        },
        relative_line_numbers: match relative_line_numbers {
            Some(r) => r,
            None => d.relative_line_numbers,
        },
        vim_leader: take_text(Some(leader), d.vim_leader),
        toggle_relative_line_numbers: match toggle {
            Some(b) => b,
            None => d.toggle_relative_line_numbers,
        },
        which_key_enabled: match which_key_enabled {
            Some(b) => b,
            None => d.which_key_enabled,
        },
        which_key_delay_ms: match which_key_delay_ms {
            Some(n) => n,
            None => d.which_key_delay_ms,
        },
        ui_font_family: take_text(Some(ui_font_family), d.ui_font_family),
        ui_font_size,
        editor_font_family: take_text(Some(editor_font_family), d.editor_font_family),
        editor_font_size,
        editor_line_height,
        line_numbers: match line_numbers {
            Some(b) => b,
            None => d.line_numbers,
        },
        soft_wrap: match soft_wrap {
            Some(b) => b,
            None => d.soft_wrap,
        },
        autosave_enabled: match autosave_enabled {
            Some(b) => b,
            None => d.autosave_enabled,
        },
        autosave_delay_ms: match autosave_delay_ms {
            Some(n) => n,
            None => d.autosave_delay_ms,
        },
        explorer_width: match explorer_width {
            Some(n) => n as u32,
            None => d.explorer_width,
        },
        markdown_only: match markdown_only {
            Some(b) => b,
            None => d.markdown_only,
        },
        show_hidden: match show_hidden {
            Some(b) => b,
            None => d.show_hidden,
        },
        excluded_paths: match exclude {
            Some(l) => l,
            None => d.excluded_paths,
        },
        preview_font_family: take_text(Some(preview_font_family), d.preview_font_family),
        preview_font_size,
        preview_max_width: match preview_max_width {
            Some(n) => n as u32,
            None => d.preview_max_width,
        },
        allow_remote_images: match allow_remote_images {
            Some(b) => b,
            None => d.allow_remote_images,
        },
        max_file_size_bytes: match max_file_size_bytes {
            Some(n) => n,
            None => d.max_file_size_bytes,
        },
        daily_notes: DailyNotesSettings {
            directory: take_text(Some(directory), d.daily_notes.directory),
            filename_format: take_text(Some(filename_format), d.daily_notes.filename_format),
            template,
        },
    };
    assert(settings@ == legacy_merged(rv));
    Some(settings)
}

/// Reads the settings of a document in the former schema (see
/// [`legacy_settings_spec`]). Documents whose daily-note file name format
/// `chrono` cannot apply to the example date, though it finds no invalid
/// directive in it, are outside what this accepts.
pub fn legacy_notes_settings(document: &SettingsValue) -> (r: Result<NotesSettings, SettingsError>)
    requires
        well_formed(*document),
        legacy_example_formats(*document),
    ensures
        settings_result_view(r) == legacy_settings_spec(*document),
{
    let root = match document {
        SettingsValue::Object(root) => root,
        _ => return Err(SettingsError::InvalidValue),
    };
    let settings = match read_legacy_settings(root) {
        Some(s) => s,
        None => return Err(SettingsError::InvalidValue),
    };
    match check_legacy(&settings) {
        Err(e) => Err(e),
        Ok(()) => Ok(settings),
    }
}

/// The settings of a document in the former schema, when `chrono` can
/// format the example date that checking them formats; `None` where it
/// cannot.
pub fn checked_legacy_notes_settings(document: &SettingsValue) -> (r: Option<
    Result<NotesSettings, SettingsError>,
>)
    requires
        well_formed(*document),
    ensures
        match r {
            Some(s) => legacy_example_formats(*document) && settings_result_view(s)
                == legacy_settings_spec(*document),
            None => !legacy_example_formats(*document),
        },
{
    if let SettingsValue::Object(root) = document {
        if let Some(s) = read_legacy_settings(root) {
            if check_legacy_before_daily_notes(&s) && !example_filename_formats(&s.daily_notes) {
                return None;
            }
        }
    }
    Some(legacy_notes_settings(document))
}

/// Runs [`legacy_check`] on `s`.
fn check_legacy(s: &NotesSettings) -> (r: Result<(), SettingsError>)
    requires
        legacy_checks_reach_daily_notes(s@) ==> example_formats(s@.daily_notes),
    ensures
        check_view(r) == legacy_check(s@),
{
    if trim(s.ui_font_family.as_str()).is_empty() {
        return Err(SettingsError::Empty { setting: "ui.font_family".to_owned() });
    }
    if trim(s.editor_font_family.as_str()).is_empty() {
        return Err(SettingsError::Empty { setting: "editor.font_family".to_owned() });
    }
    if !leader_is_ok(s.vim_leader.as_str()) {
        return Err(SettingsError::InvalidLeader);
    }
    if s.explorer_width == 0 {
        return Err(SettingsError::NotPositive { setting: "explorer.width".to_owned() });
    }
    if trim(s.preview_font_family.as_str()).is_empty() {
        return Err(SettingsError::Empty { setting: "preview.font_family".to_owned() });
    }
    if s.preview_max_width == 0 {
        return Err(SettingsError::NotPositive { setting: "preview.max_width".to_owned() });
    }
    validate_daily_notes_settings(&s.daily_notes)
}

/// Whether the checks of [`legacy_check`] before the daily-note check pass.
fn check_legacy_before_daily_notes(s: &NotesSettings) -> (r: bool)
    ensures
        r == legacy_checks_reach_daily_notes(s@),
{
    !trim(s.ui_font_family.as_str()).is_empty() && !trim(s.editor_font_family.as_str()).is_empty()
        && leader_is_ok(s.vim_leader.as_str()) && s.explorer_width != 0 && !trim(
        s.preview_font_family.as_str(),
    ).is_empty() && s.preview_max_width != 0
}

/// Reads the `theme` setting (see [`theme_setting`]).
fn read_theme(root: &Vec<SettingsEntry>) -> (r: Option<Option<NotesTheme>>)
    requires
        distinct_keys(root@),
    ensures
        r == theme_setting(root@),
{
    match read_text(root, "theme") {
        Some(Some(t)) => if t == "system".to_owned() {
            Some(Some(NotesTheme::System))
        } else if t == "light".to_owned() {
            Some(Some(NotesTheme::Light))
        } else if t == "dark".to_owned() {
            Some(Some(NotesTheme::Dark))
        } else {
            None
        },
        Some(None) => Some(None),
        None => None,
    }
}

/// Reads the `relative_line_numbers` setting (see
/// [`relative_line_numbers_setting`]).
fn read_relative_line_numbers(root: &Vec<SettingsEntry>) -> (r: Option<Option<RelativeLineNumbers>>)
    requires
        distinct_keys(root@),
    ensures
        r == relative_line_numbers_setting(root@),
{
    match read_text(root, "relative_line_numbers") {
        Some(Some(t)) => if t == "disabled".to_owned() {
            Some(Some(RelativeLineNumbers::Disabled))
        } else if t == "enabled".to_owned() {
            Some(Some(RelativeLineNumbers::Enabled))
        } else if t == "wrapped".to_owned() {
            Some(Some(RelativeLineNumbers::Wrapped))
        } else {
            None
        },
        Some(None) => Some(None),
        None => None,
    }
}

/// Whether the `zednotes` section of a native document holds values of the
/// right kinds.
pub open spec fn native_typed(root: Seq<SettingsEntry>) -> bool {
    let z = section_entries(root, "zednotes"@);
    let vim = section_entries(z, "vim"@);
    let explorer = section_entries(z, "explorer"@);
    let daily = section_entries(z, "daily_notes"@);
    &&& section(root, "zednotes"@) is Some
    &&& section(z, "vim"@) is Some
    &&& text_setting(vim, "leader"@) is Some
    &&& section(z, "explorer"@) is Some
    &&& bool_setting(explorer, "markdown_only"@) is Some
    &&& section(z, "daily_notes"@) is Some
    &&& text_setting(daily, "directory"@) is Some
    &&& text_setting(daily, "filename_format"@) is Some
    &&& text_setting(daily, "template"@) is Some
}

/// The settings a native document gives: the defaults, with the leader,
/// the explorer's Markdown-only filter and the daily-note settings of its
/// `zednotes` section where it gives them. Every other setting belongs to
/// the editor, not to the notes application.
pub open spec fn native_merged(root: Seq<SettingsEntry>) -> NotesSettingsView {
    let d = default_settings();
    let z = section_entries(root, "zednotes"@);
    let vim = section_entries(z, "vim"@);
    let explorer = section_entries(z, "explorer"@);
    let daily = section_entries(z, "daily_notes"@);
    NotesSettingsView {
        vim_leader: or_default(text_setting(vim, "leader"@), d.vim_leader),
        markdown_only: or_default(bool_setting(explorer, "markdown_only"@), d.markdown_only),
        daily_notes: DailyNotesSettingsView {
            directory: or_default(text_setting(daily, "directory"@), d.daily_notes.directory),
            filename_format: or_default(
                text_setting(daily, "filename_format"@),
                d.daily_notes.filename_format,
            ),
            template: given(text_setting(daily, "template"@)),
        },
        ..d
    }
}

/// The checks on native settings: the leader must be one key, and the
/// daily-note settings must pass their check.
pub open spec fn native_check(s: NotesSettingsView) -> Result<(), SettingsErrorView> {
    if !leader_ok(s.vim_leader) {
        Err(SettingsErrorView::InvalidLeader)
    } else {
        daily_notes_check(s.daily_notes)
    }
}

/// The settings a document gives, or why it is refused: it must be an
/// object; a document in the former schema is read as such (see
/// [`legacy_settings_spec`]); a native one by its `zednotes` section.
pub open spec fn notes_settings_spec(document: SettingsValue) -> Result<
    NotesSettingsView,
    SettingsErrorView,
> {
    match document {
        SettingsValue::Object(root) => if crate::settings_documents::is_legacy_settings_spec(
            root@,
        ) {
            legacy_settings_spec(document)
        } else if !native_typed(root@) {
            Err(SettingsErrorView::InvalidValue)
        } else {
            match native_check(native_merged(root@)) {
                Err(e) => Err(e),
                Ok(()) => Ok(native_merged(root@)),
            }
        },
        _ => Err(SettingsErrorView::InvalidValue),
    }
}

/// Whether reading `document`, where it gets to check the daily-note
/// settings, can format their example date.
pub open spec fn notes_example_formats(document: SettingsValue) -> bool {
    document matches SettingsValue::Object(root) ==> if crate::settings_documents::is_legacy_settings_spec(
        root@,
    ) {
        legacy_example_formats(document)
    } else {
        native_typed(root@) && leader_ok(native_merged(root@).vim_leader) ==> example_formats(
            native_merged(root@).daily_notes,
        )
    }
}

/// Reads the `zednotes` section of a native document, without checking it:
/// `None` when a setting holds a value of the wrong kind.
fn read_native_settings(root: &Vec<SettingsEntry>) -> (r: Option<NotesSettings>)
    requires
        distinct_keys(root@),
        values_well_formed(root@),
    ensures
        match r {
            Some(s) => native_typed(root@) && s@ == native_merged(root@),
            None => !native_typed(root@),
        },
{
    let empty: Vec<SettingsEntry> = Vec::new();
    assert(empty@ =~= Seq::<SettingsEntry>::empty());
    let ghost rv = root@;
    let z = match read_section(root, "zednotes") {
        Some(Some(s)) => s,
        Some(None) => &empty,
        None => return None,
    };
    assert(z@ == section_entries(rv, "zednotes"@));
    let vim = match read_section(z, "vim") {
        Some(Some(s)) => s,
        Some(None) => &empty,
        None => return None,
    };
    assert(vim@ == section_entries(z@, "vim"@));
    let leader = match read_text(vim, "leader") {
        Some(t) => t,
        None => return None,
    };
    let explorer = match read_section(z, "explorer") {
        Some(Some(s)) => s,
        Some(None) => &empty,
        None => return None,
    };
    assert(explorer@ == section_entries(z@, "explorer"@));
    let markdown_only = match read_bool(explorer, "markdown_only") {
        Some(b) => b,
        None => return None,
    };
    let daily = match read_section(z, "daily_notes") {
        Some(Some(s)) => s,
        Some(None) => &empty,
        None => return None,
    };
    assert(daily@ == section_entries(z@, "daily_notes"@));
    let directory = match read_text(daily, "directory") {
        Some(t) => t,
        None => return None,
    };
    let filename_format = match read_text(daily, "filename_format") {
        Some(t) => t,
        None => return None,
    };
    let template = match read_text(daily, "template") {
        Some(t) => t,
        None => return None,
    };
    let mut s = NotesSettings::default();
    let d = DailyNotesSettings::default();
    s.vim_leader = take_text(Some(leader), s.vim_leader);
    if let Some(b) = markdown_only {
        s.markdown_only = b;
    }
    s.daily_notes = DailyNotesSettings {
        directory: take_text(Some(directory), d.directory),
        filename_format: take_text(Some(filename_format), d.filename_format),
        template,
    };
    assert(s@ == native_merged(rv));
    Some(s)
}

/// Reads the settings of a document (see [`notes_settings_spec`]).
/// Documents whose daily-note file name format `chrono` cannot apply to
/// the example date, though it finds no invalid directive in it, are
/// outside what this accepts.
pub fn parse_notes_settings(document: &SettingsValue) -> (r: Result<NotesSettings, SettingsError>)
    requires
        well_formed(*document),
        notes_example_formats(*document),
    ensures
        settings_result_view(r) == notes_settings_spec(*document),
{
    let root = match document {
        SettingsValue::Object(root) => root,
        _ => return Err(SettingsError::InvalidValue),
    };
    if crate::settings_documents::is_legacy_settings(root) {
        return legacy_notes_settings(document);
    }
    let settings = match read_native_settings(root) {
        Some(s) => s,
        None => return Err(SettingsError::InvalidValue),
    };
    if !leader_is_ok(settings.vim_leader.as_str()) {
        return Err(SettingsError::InvalidLeader);
    }
    match validate_daily_notes_settings(&settings.daily_notes) {
        Err(e) => Err(e),
        Ok(()) => Ok(settings),
    }
}

/// The settings of a document, when `chrono` can format the example date
/// that checking them formats; `None` where it cannot.
pub fn checked_parse_notes_settings(document: &SettingsValue) -> (r: Option<
    Result<NotesSettings, SettingsError>,
>)
    requires
        well_formed(*document),
    ensures
        match r {
            Some(s) => notes_example_formats(*document) && settings_result_view(s)
                == notes_settings_spec(*document),
            None => !notes_example_formats(*document),
        },
{
    if let SettingsValue::Object(root) = document {
        if crate::settings_documents::is_legacy_settings(root) {
            return checked_legacy_notes_settings(document);
        }
        if let Some(s) = read_native_settings(root) {
            if leader_is_ok(s.vim_leader.as_str()) && !example_filename_formats(
                &s.daily_notes,
            ) {
                return None;
            }
        }
    }
    Some(parse_notes_settings(document))
}

/// The rounded texts of the floating-point settings that a migrated
/// document writes: font sizes and the line height, each rounded to two
/// decimals by the caller.
#[derive(Debug)]
pub struct LegacyNumbers {
    pub ui_font_size: String,
    pub buffer_font_size: String,
    pub buffer_line_height: String,
    pub markdown_preview_font_size: String,
}

/// The rounded number texts, as values.
pub struct LegacyNumbersView {
    pub ui_font_size: Seq<char>,
    pub buffer_font_size: Seq<char>,
    pub buffer_line_height: Seq<char>,
    pub markdown_preview_font_size: Seq<char>,
}

impl View for LegacyNumbers {
    type V = LegacyNumbersView;

    open spec fn view(&self) -> LegacyNumbersView {
        LegacyNumbersView {
            ui_font_size: self.ui_font_size@,
            buffer_font_size: self.buffer_font_size@,
            buffer_line_height: self.buffer_line_height@,
            markdown_preview_font_size: self.markdown_preview_font_size@,
        }
    }
}

/// The entries of `v` when it is an object; none otherwise.
pub open spec fn entries_of(v: Option<SettingsValue>) -> Seq<SettingsEntry> {
    match v {
        Some(SettingsValue::Object(e)) => e@,
        _ => Seq::empty(),
    }
}

/// The value under `k` in `v`, when `v` is an object.
pub open spec fn field(v: Option<SettingsValue>, k: Seq<char>) -> Option<SettingsValue> {
    lookup(entries_of(v), k)
}

/// `v` is the text `t`.
pub open spec fn text_is(v: Option<SettingsValue>, t: Seq<char>) -> bool {
    v matches Some(SettingsValue::Text(x)) && x@ == t
}

/// `v` is the number written `t`.
pub open spec fn number_is(v: Option<SettingsValue>, t: Seq<char>) -> bool {
    v matches Some(SettingsValue::Number(x)) && x@ == t
}

/// `v` is an object with distinct keys, well formed, whose keys are those
/// that `keys` holds.
pub open spec fn object_with_keys(v: Option<SettingsValue>, keys: spec_fn(Seq<char>) -> bool) -> bool {
    &&& v matches Some(SettingsValue::Object(e))
    &&& well_formed(v->0)
    &&& forall|k: Seq<char>| has_key(entries_of(v), k) <==> keys(k)
}

/// `new` is the object `old` (an empty one where `old` is no object) with
/// the keys `removed` taken out and the keys `set` given new values; every
/// other entry is kept.
pub open spec fn updated_object(
    old: Option<SettingsValue>,
    new: Option<SettingsValue>,
    removed: spec_fn(Seq<char>) -> bool,
    set: spec_fn(Seq<char>) -> bool,
) -> bool {
    &&& new matches Some(SettingsValue::Object(e))
    &&& well_formed(new->0)
    &&& forall|k: Seq<char>|
        has_key(entries_of(new), k) <==> ((has_key(entries_of(old), k) && !removed(k)) || set(k))
    &&& forall|k: Seq<char>|
        !removed(k) && !set(k) ==> #[trigger] field(new, k) == field(old, k)
}

/// The sections of the former schema, which migration removes.
pub open spec fn legacy_section_key(k: Seq<char>) -> bool {
    ||| k == "ui"@
    ||| k == "editor"@
    ||| k == "explorer"@
    ||| k == "files"@
    ||| k == "preview"@
    ||| k == "daily_notes"@
}

/// The keys that migration writes.
pub open spec fn native_key(k: Seq<char>) -> bool {
    ||| k == "theme"@
    ||| k == "vim_mode"@
    ||| k == "relative_line_numbers"@
    ||| k == "vim"@
    ||| k == "which_key"@
    ||| k == "ui_font_family"@
    ||| k == "ui_font_size"@
    ||| k == "buffer_font_family"@
    ||| k == "buffer_font_size"@
    ||| k == "buffer_line_height"@
    ||| k == "gutter"@
    ||| k == "soft_wrap"@
    ||| k == "autosave"@
    ||| k == "project_panel"@
    ||| k == "file_scan_exclusions"@
    ||| k == "markdown_preview_font_family"@
    ||| k == "markdown_preview_font_size"@
    ||| k == "markdown_preview"@
    ||| k == "zednotes"@
}

/// The first of the editor settings that a migrated document holds: the
/// theme mode with the default light and dark themes, Vim mode, relative
/// line numbers, which-key, and the interface and buffer fonts.
#[verifier::opaque]
pub open spec fn migrated_editor_settings_a(
    m: Seq<SettingsEntry>,
    s: NotesSettingsView,
    n: LegacyNumbersView,
) -> bool {
    let theme = lookup(m, "theme"@);
    let which_key = lookup(m, "which_key"@);
    &&& object_with_keys(theme, |k: Seq<char>| k == "mode"@ || k == "light"@ || k == "dark"@)
    &&& text_is(field(theme, "mode"@), theme_name(s.theme))
    &&& text_is(field(theme, "light"@), "One Light"@)
    &&& text_is(field(theme, "dark"@), "One Dark"@)
    &&& lookup(m, "vim_mode"@) == Some(SettingsValue::Bool(s.vim_mode))
    &&& text_is(
        lookup(m, "relative_line_numbers"@),
        relative_line_numbers_name(s.relative_line_numbers),
    )
    &&& object_with_keys(which_key, |k: Seq<char>| k == "enabled"@ || k == "delay_ms"@)
    &&& field(which_key, "enabled"@) == Some(SettingsValue::Bool(s.which_key_enabled))
    &&& number_is(field(which_key, "delay_ms"@), crate::text::decimal(s.which_key_delay_ms))
    &&& text_is(lookup(m, "ui_font_family"@), s.ui_font_family)
    &&& number_is(lookup(m, "ui_font_size"@), n.ui_font_size)
    &&& text_is(lookup(m, "buffer_font_family"@), s.editor_font_family)
    &&& number_is(lookup(m, "buffer_font_size"@), n.buffer_font_size)
}

/// The keys that [`migrated_editor_settings_a`] speaks of.
pub open spec fn editor_keys_a(k: Seq<char>) -> bool {
    ||| k == "theme"@
    ||| k == "vim_mode"@
    ||| k == "relative_line_numbers"@
    ||| k == "which_key"@
    ||| k == "ui_font_family"@
    ||| k == "ui_font_size"@
    ||| k == "buffer_font_family"@
    ||| k == "buffer_font_size"@
}

/// The next editor settings of a migrated document: line height, gutter,
/// soft wrap, autosave and the project panel.
#[verifier::opaque]
pub open spec fn migrated_editor_settings_b(
    m: Seq<SettingsEntry>,
    s: NotesSettingsView,
    n: LegacyNumbersView,
) -> bool {
    let autosave = lookup(m, "autosave"@);
    let panel = lookup(m, "project_panel"@);
    &&& object_with_keys(lookup(m, "buffer_line_height"@), |k: Seq<char>| k == "custom"@)
    &&& number_is(field(lookup(m, "buffer_line_height"@), "custom"@), n.buffer_line_height)
    &&& object_with_keys(lookup(m, "gutter"@), |k: Seq<char>| k == "line_numbers"@)
    &&& field(lookup(m, "gutter"@), "line_numbers"@) == Some(SettingsValue::Bool(s.line_numbers))
    &&& text_is(lookup(m, "soft_wrap"@), if s.soft_wrap { "editor_width"@ } else { "none"@ })
    &&& if s.autosave_enabled {
        &&& object_with_keys(autosave, |k: Seq<char>| k == "after_delay"@)
        &&& object_with_keys(field(autosave, "after_delay"@), |k: Seq<char>| k == "milliseconds"@)
        &&& number_is(
            field(field(autosave, "after_delay"@), "milliseconds"@),
            crate::text::decimal(s.autosave_delay_ms),
        )
    } else {
        text_is(autosave, "off"@)
    }
    &&& object_with_keys(panel, |k: Seq<char>| k == "default_width"@ || k == "hide_hidden"@)
    &&& number_is(field(panel, "default_width"@), crate::text::decimal(s.explorer_width))
    &&& field(panel, "hide_hidden"@) == Some(SettingsValue::Bool(!s.show_hidden))
}

/// The keys that [`migrated_editor_settings_b`] speaks of.
pub open spec fn editor_keys_b(k: Seq<char>) -> bool {
    ||| k == "buffer_line_height"@
    ||| k == "gutter"@
    ||| k == "soft_wrap"@
    ||| k == "autosave"@
    ||| k == "project_panel"@
}

/// The last editor settings of a migrated document: the exclusions as
/// globs and the Markdown preview.
#[verifier::opaque]
pub open spec fn migrated_editor_settings_c(
    m: Seq<SettingsEntry>,
    s: NotesSettingsView,
    n: LegacyNumbersView,
) -> bool {
    let preview = lookup(m, "markdown_preview"@);
    &&& lookup(m, "file_scan_exclusions"@) matches Some(SettingsValue::Array(items)) && items@.len()
        == s.excluded_paths.len() && forall|i: int|
        0 <= i < items@.len() ==> text_is(
            Some(#[trigger] items@[i]),
            crate::notes::exclusion_glob_spec(s.excluded_paths[i]),
        )
    &&& text_is(lookup(m, "markdown_preview_font_family"@), s.preview_font_family)
    &&& number_is(lookup(m, "markdown_preview_font_size"@), n.markdown_preview_font_size)
    &&& object_with_keys(
        preview,
        |k: Seq<char>|
            k == "limit_content_width"@ || k == "max_width"@ || k == "allow_remote_images"@ || k
                == "max_file_size_bytes"@,
    )
    &&& field(preview, "limit_content_width"@) == Some(SettingsValue::Bool(true))
    &&& number_is(field(preview, "max_width"@), crate::text::decimal(s.preview_max_width))
    &&& field(preview, "allow_remote_images"@) == Some(SettingsValue::Bool(s.allow_remote_images))
    &&& number_is(
        field(preview, "max_file_size_bytes"@),
        crate::text::decimal(s.max_file_size_bytes),
    )
}

/// The keys that [`migrated_editor_settings_c`] speaks of.
pub open spec fn editor_keys_c(k: Seq<char>) -> bool {
    ||| k == "file_scan_exclusions"@
    ||| k == "markdown_preview_font_family"@
    ||| k == "markdown_preview_font_size"@
    ||| k == "markdown_preview"@
}

/// The settings of the editor that a migrated document holds (see the
/// three parts).
pub open spec fn migrated_editor_settings(
    m: Seq<SettingsEntry>,
    s: NotesSettingsView,
    n: LegacyNumbersView,
) -> bool {
    &&& migrated_editor_settings_a(m, s, n)
    &&& migrated_editor_settings_b(m, s, n)
    &&& migrated_editor_settings_c(m, s, n)
}

/// The Vim section and the `zednotes` section of a migrated document: the
/// Vim section loses its leader and gains whether `toggle_relative_line_numbers`
/// is on; the leader, the Markdown-only filter and the daily-note settings
/// move into `zednotes`. Entries of those sections that migration does not
/// write are kept.
#[verifier::opaque]
pub open spec fn migrated_notes_sections(
    root: Seq<SettingsEntry>,
    m: Seq<SettingsEntry>,
    s: NotesSettingsView,
) -> bool {
    let vim = lookup(m, "vim"@);
    let old_z = lookup(root, "zednotes"@);
    let z = lookup(m, "zednotes"@);
    let daily_keys = |k: Seq<char>|
        k == "directory"@ || k == "filename_format"@ || (s.daily_notes.template is Some && k
            == "template"@);
    &&& updated_object(
        lookup(root, "vim"@),
        vim,
        |k: Seq<char>| k == "leader"@,
        |k: Seq<char>| k == "toggle_relative_line_numbers"@,
    )
    &&& field(vim, "toggle_relative_line_numbers"@) == Some(
        SettingsValue::Bool(s.toggle_relative_line_numbers),
    )
    &&& updated_object(
        old_z,
        z,
        |k: Seq<char>| false,
        |k: Seq<char>| k == "vim"@ || k == "explorer"@ || k == "daily_notes"@,
    )
    &&& updated_object(
        field(old_z, "vim"@),
        field(z, "vim"@),
        |k: Seq<char>| false,
        |k: Seq<char>| k == "leader"@,
    )
    &&& text_is(field(field(z, "vim"@), "leader"@), s.vim_leader)
    &&& updated_object(
        field(old_z, "explorer"@),
        field(z, "explorer"@),
        |k: Seq<char>| false,
        |k: Seq<char>| k == "markdown_only"@,
    )
    &&& field(field(z, "explorer"@), "markdown_only"@) == Some(SettingsValue::Bool(s.markdown_only))
    &&& updated_object(field(old_z, "daily_notes"@), field(z, "daily_notes"@), |k: Seq<char>| false, daily_keys)
    &&& text_is(field(field(z, "daily_notes"@), "directory"@), s.daily_notes.directory)
    &&& text_is(field(field(z, "daily_notes"@), "filename_format"@), s.daily_notes.filename_format)
    &&& (s.daily_notes.template matches Some(t) ==> text_is(
        field(field(z, "daily_notes"@), "template"@),
        t,
    ))
}

/// `m` is the root of the migrated form of the document root `root`, whose
/// settings are `s`, with the rounded numbers `n`: the sections of the
/// former schema are gone, the native settings are written, and every
/// other entry is kept as it was.
#[verifier::opaque]
pub open spec fn migrated_root(
    root: Seq<SettingsEntry>,
    s: NotesSettingsView,
    n: LegacyNumbersView,
    m: Seq<SettingsEntry>,
) -> bool {
    &&& distinct_keys(m)
    &&& values_well_formed(m)
    &&& forall|k: Seq<char>|
        #![trigger has_key(m, k)]
        has_key(m, k) <==> ((has_key(root, k) && !legacy_section_key(k)) || native_key(k))
    &&& forall|k: Seq<char>|
        !legacy_section_key(k) && !native_key(k) ==> #[trigger] lookup(m, k) == lookup(root, k)
    &&& migrated_editor_settings(m, s, n)
    &&& migrated_notes_sections(root, m, s)
}

/// The lengths and first characters of the setting names that migration
/// reads and writes, which tell them apart.
proof fn lemma_setting_names()
    ensures
        "theme"@.len() == 5,
        "theme"@[0] == 't',
        "vim_mode"@.len() == 8,
        "vim_mode"@[0] == 'v',
        "relative_line_numbers"@.len() == 21,
        "relative_line_numbers"@[0] == 'r',
        "vim"@.len() == 3,
        "vim"@[0] == 'v',
        "which_key"@.len() == 9,
        "which_key"@[0] == 'w',
        "ui_font_family"@.len() == 14,
        "ui_font_family"@[0] == 'u',
        "ui_font_size"@.len() == 12,
        "ui_font_size"@[0] == 'u',
        "buffer_font_family"@.len() == 18,
        "buffer_font_family"@[0] == 'b',
        "buffer_font_size"@.len() == 16,
        "buffer_font_size"@[0] == 'b',
        "buffer_line_height"@.len() == 18,
        "buffer_line_height"@[0] == 'b',
        "gutter"@.len() == 6,
        "gutter"@[0] == 'g',
        "soft_wrap"@.len() == 9,
        "soft_wrap"@[0] == 's',
        "autosave"@.len() == 8,
        "autosave"@[0] == 'a',
        "project_panel"@.len() == 13,
        "project_panel"@[0] == 'p',
        "file_scan_exclusions"@.len() == 20,
        "file_scan_exclusions"@[0] == 'f',
        "markdown_preview_font_family"@.len() == 28,
        "markdown_preview_font_family"@[0] == 'm',
        "markdown_preview_font_size"@.len() == 26,
        "markdown_preview_font_size"@[0] == 'm',
        "markdown_preview"@.len() == 16,
        "markdown_preview"@[0] == 'm',
        "zednotes"@.len() == 8,
        "zednotes"@[0] == 'z',
        "ui"@.len() == 2,
        "ui"@[0] == 'u',
        "editor"@.len() == 6,
        "editor"@[0] == 'e',
        "explorer"@.len() == 8,
        "explorer"@[0] == 'e',
        "files"@.len() == 5,
        "files"@[0] == 'f',
        "preview"@.len() == 7,
        "preview"@[0] == 'p',
        "daily_notes"@.len() == 11,
        "daily_notes"@[0] == 'd',
        "mode"@.len() == 4,
        "mode"@[0] == 'm',
        "light"@.len() == 5,
        "light"@[0] == 'l',
        "dark"@.len() == 4,
        "dark"@[0] == 'd',
        "enabled"@.len() == 7,
        "enabled"@[0] == 'e',
        "delay_ms"@.len() == 8,
        "delay_ms"@[0] == 'd',
        "custom"@.len() == 6,
        "custom"@[0] == 'c',
        "line_numbers"@.len() == 12,
        "line_numbers"@[0] == 'l',
        "after_delay"@.len() == 11,
        "after_delay"@[0] == 'a',
        "milliseconds"@.len() == 12,
        "milliseconds"@[0] == 'm',
        "default_width"@.len() == 13,
        "default_width"@[0] == 'd',
        "hide_hidden"@.len() == 11,
        "hide_hidden"@[0] == 'h',
        "limit_content_width"@.len() == 19,
        "limit_content_width"@[0] == 'l',
        "max_width"@.len() == 9,
        "max_width"@[0] == 'm',
        "allow_remote_images"@.len() == 19,
        "allow_remote_images"@[0] == 'a',
        "max_file_size_bytes"@.len() == 19,
        "max_file_size_bytes"@[0] == 'm',
        "leader"@.len() == 6,
        "leader"@[0] == 'l',
        "toggle_relative_line_numbers"@.len() == 28,
        "toggle_relative_line_numbers"@[0] == 't',
        "markdown_only"@.len() == 13,
        "markdown_only"@[0] == 'm',
        "directory"@.len() == 9,
        "directory"@[0] == 'd',
        "filename_format"@.len() == 15,
        "filename_format"@[0] == 'f',
        "template"@.len() == 8,
        "template"@[0] == 't',
        "buffer_font_family"@[7] == 'f',
        "buffer_line_height"@[7] == 'l',
{
    reveal_strlit("theme");
    reveal_strlit("vim_mode");
    reveal_strlit("relative_line_numbers");
    reveal_strlit("vim");
    reveal_strlit("which_key");
    reveal_strlit("ui_font_family");
    reveal_strlit("ui_font_size");
    reveal_strlit("buffer_font_family");
    reveal_strlit("buffer_font_size");
    reveal_strlit("buffer_line_height");
    reveal_strlit("gutter");
    reveal_strlit("soft_wrap");
    reveal_strlit("autosave");
    reveal_strlit("project_panel");
    reveal_strlit("file_scan_exclusions");
    reveal_strlit("markdown_preview_font_family");
    reveal_strlit("markdown_preview_font_size");
    reveal_strlit("markdown_preview");
    reveal_strlit("zednotes");
    reveal_strlit("ui");
    reveal_strlit("editor");
    reveal_strlit("explorer");
    reveal_strlit("files");
    reveal_strlit("preview");
    reveal_strlit("daily_notes");
    reveal_strlit("mode");
    reveal_strlit("light");
    reveal_strlit("dark");
    reveal_strlit("enabled");
    reveal_strlit("delay_ms");
    reveal_strlit("custom");
    reveal_strlit("line_numbers");
    reveal_strlit("after_delay");
    reveal_strlit("milliseconds");
    reveal_strlit("default_width");
    reveal_strlit("hide_hidden");
    reveal_strlit("limit_content_width");
    reveal_strlit("max_width");
    reveal_strlit("allow_remote_images");
    reveal_strlit("max_file_size_bytes");
    reveal_strlit("leader");
    reveal_strlit("toggle_relative_line_numbers");
    reveal_strlit("markdown_only");
    reveal_strlit("directory");
    reveal_strlit("filename_format");
    reveal_strlit("template");
}

/// The text value `t`.
fn text_value(t: &str) -> (r: SettingsValue)
    ensures
        text_is(Some(r), t@),
        well_formed(r),
{
    SettingsValue::Text(t.to_owned())
}

/// The number value `n`, written in decimal.
fn number_value(n: u64) -> (r: SettingsValue)
    ensures
        number_is(Some(r), crate::text::decimal(n as nat)),
        well_formed(r),
{
    let mut digits: Vec<char> = Vec::new();
    crate::text::push_decimal(&mut digits, n as u128);
    assert(digits@ =~= crate::text::decimal(n as nat));
    SettingsValue::Number(crate::text::string_from_chars(digits.as_slice()))
}

/// The entries of `v` when it is an object, and none otherwise.
fn object_entries(v: Option<SettingsValue>) -> (r: Vec<SettingsEntry>)
    requires
        v matches Some(x) ==> well_formed(x),
    ensures
        r@ == entries_of(v),
        distinct_keys(r@),
        values_well_formed(r@),
{
    match v {
        Some(SettingsValue::Object(e)) => e,
        _ => {
            let e: Vec<SettingsEntry> = Vec::new();
            assert(e@ =~= Seq::<SettingsEntry>::empty());
            e
        },
    }
}

/// `lookup` finds a value exactly under the keys that `has_key` finds.
proof fn lemma_has_key_lookup(e: Seq<SettingsEntry>, k: Seq<char>)
    ensures
        has_key(e, k) <==> lookup(e, k) is Some,
{
}

/// The `theme` value of a migrated document.
fn theme_value(theme: NotesTheme) -> (r: SettingsValue)
    ensures
        object_with_keys(Some(r), |k: Seq<char>| k == "mode"@ || k == "light"@ || k == "dark"@),
        text_is(field(Some(r), "mode"@), theme_name(theme)),
        text_is(field(Some(r), "light"@), "One Light"@),
        text_is(field(Some(r), "dark"@), "One Dark"@),
{
    proof {
        lemma_setting_names();
    }
    let name = match theme {
        NotesTheme::System => "system",
        NotesTheme::Light => "light",
        NotesTheme::Dark => "dark",
    };
    let mut e: Vec<SettingsEntry> = Vec::new();
    assert(e@ =~= Seq::<SettingsEntry>::empty());
    set_entry(&mut e, "mode", text_value(name));
    let ghost e1 = e@;
    set_entry(&mut e, "light", text_value("One Light"));
    let ghost e2 = e@;
    set_entry(&mut e, "dark", text_value("One Dark"));
    let ghost e3 = e@;
    assert forall|k: Seq<char>| has_key(e3, k) <==> (k == "mode"@ || k == "light"@ || k == "dark"@) by {
        lemma_has_key_lookup(e3, k);
        lemma_has_key_lookup(e2, k);
        lemma_has_key_lookup(e1, k);
        lemma_has_key_lookup(Seq::<SettingsEntry>::empty(), k);
    }
    SettingsValue::Object(e)
}

/// The number value written `t`.
fn number_text_value(t: &String) -> (r: SettingsValue)
    ensures
        number_is(Some(r), t@),
        well_formed(r),
{
    SettingsValue::Number(t.clone())
}

/// An empty object's entries.
fn no_entries() -> (r: Vec<SettingsEntry>)
    ensures
        r@ == Seq::<SettingsEntry>::empty(),
{
    let e: Vec<SettingsEntry> = Vec::new();
    assert(e@ =~= Seq::<SettingsEntry>::empty());
    e
}

/// The `which_key` value of a migrated document.
fn which_key_value(enabled: bool, delay_ms: u64) -> (r: SettingsValue)
    ensures
        object_with_keys(Some(r), |k: Seq<char>| k == "enabled"@ || k == "delay_ms"@),
        field(Some(r), "enabled"@) == Some(SettingsValue::Bool(enabled)),
        number_is(field(Some(r), "delay_ms"@), crate::text::decimal(delay_ms as nat)),
{
    proof {
        lemma_setting_names();
    }
    let mut e = no_entries();
    set_entry(&mut e, "enabled", SettingsValue::Bool(enabled));
    let ghost e1 = e@;
    set_entry(&mut e, "delay_ms", number_value(delay_ms));
    let ghost e2 = e@;
    assert forall|k: Seq<char>| has_key(e2, k) <==> (k == "enabled"@ || k == "delay_ms"@) by {
        lemma_has_key_lookup(e2, k);
        lemma_has_key_lookup(e1, k);
        lemma_has_key_lookup(Seq::<SettingsEntry>::empty(), k);
    }
    SettingsValue::Object(e)
}

/// An object with the one entry `key`, `value`.
fn single_entry_object(key: &str, value: SettingsValue) -> (r: SettingsValue)
    requires
        well_formed(value),
    ensures
        object_with_keys(Some(r), |k: Seq<char>| k == key@),
        field(Some(r), key@) == Some(value),
{
    let mut e = no_entries();
    set_entry(&mut e, key, value);
    let ghost e1 = e@;
    assert forall|k: Seq<char>| has_key(e1, k) <==> k == key@ by {
        lemma_has_key_lookup(e1, k);
        lemma_has_key_lookup(Seq::<SettingsEntry>::empty(), k);
    }
    SettingsValue::Object(e)
}

/// The `project_panel` value of a migrated document.
fn project_panel_value(width: u32, show_hidden: bool) -> (r: SettingsValue)
    ensures
        object_with_keys(Some(r), |k: Seq<char>| k == "default_width"@ || k == "hide_hidden"@),
        number_is(field(Some(r), "default_width"@), crate::text::decimal(width as nat)),
        field(Some(r), "hide_hidden"@) == Some(SettingsValue::Bool(!show_hidden)),
{
    proof {
        lemma_setting_names();
    }
    let mut e = no_entries();
    set_entry(&mut e, "default_width", number_value(width as u64));
    let ghost e1 = e@;
    set_entry(&mut e, "hide_hidden", SettingsValue::Bool(!show_hidden));
    let ghost e2 = e@;
    assert forall|k: Seq<char>| has_key(e2, k) <==> (k == "default_width"@ || k == "hide_hidden"@) by {
        lemma_has_key_lookup(e2, k);
        lemma_has_key_lookup(e1, k);
        lemma_has_key_lookup(Seq::<SettingsEntry>::empty(), k);
    }
    SettingsValue::Object(e)
}

/// The `markdown_preview` value of a migrated document.
fn markdown_preview_value(max_width: u32, allow_remote_images: bool, max_file_size_bytes: u64) -> (r:
    SettingsValue)
    ensures
        object_with_keys(
            Some(r),
            |k: Seq<char>|
                k == "limit_content_width"@ || k == "max_width"@ || k == "allow_remote_images"@ || k
                    == "max_file_size_bytes"@,
        ),
        field(Some(r), "limit_content_width"@) == Some(SettingsValue::Bool(true)),
        number_is(field(Some(r), "max_width"@), crate::text::decimal(max_width as nat)),
        field(Some(r), "allow_remote_images"@) == Some(SettingsValue::Bool(allow_remote_images)),
        number_is(
            field(Some(r), "max_file_size_bytes"@),
            crate::text::decimal(max_file_size_bytes as nat),
        ),
{
    proof {
        lemma_setting_names();
    }
    let mut e = no_entries();
    set_entry(&mut e, "limit_content_width", SettingsValue::Bool(true));
    let ghost e1 = e@;
    set_entry(&mut e, "max_width", number_value(max_width as u64));
    let ghost e2 = e@;
    set_entry(&mut e, "allow_remote_images", SettingsValue::Bool(allow_remote_images));
    let ghost e3 = e@;
    set_entry(&mut e, "max_file_size_bytes", number_value(max_file_size_bytes));
    let ghost e4 = e@;
    assert forall|k: Seq<char>|
        has_key(e4, k) <==> (k == "limit_content_width"@ || k == "max_width"@ || k
            == "allow_remote_images"@ || k == "max_file_size_bytes"@) by {
        lemma_has_key_lookup(e4, k);
        lemma_has_key_lookup(e3, k);
        lemma_has_key_lookup(e2, k);
        lemma_has_key_lookup(e1, k);
        lemma_has_key_lookup(Seq::<SettingsEntry>::empty(), k);
    }
    SettingsValue::Object(e)
}

/// The `autosave` value of a migrated document.
fn autosave_value(enabled: bool, delay_ms: u64) -> (r: SettingsValue)
    ensures
        well_formed(r),
        if enabled {
            &&& object_with_keys(Some(r), |k: Seq<char>| k == "after_delay"@)
            &&& object_with_keys(field(Some(r), "after_delay"@), |k: Seq<char>| k == "milliseconds"@)
            &&& number_is(
                field(field(Some(r), "after_delay"@), "milliseconds"@),
                crate::text::decimal(delay_ms as nat),
            )
        } else {
            text_is(Some(r), "off"@)
        },
{
    if enabled {
        let inner = single_entry_object("milliseconds", number_value(delay_ms));
        single_entry_object("after_delay", inner)
    } else {
        text_value("off")
    }
}

/// The `file_scan_exclusions` value of a migrated document: the glob of
/// each excluded path.
fn exclusions_value(paths: &Vec<String>) -> (r: SettingsValue)
    ensures
        well_formed(r),
        r matches SettingsValue::Array(items) && items@.len() == paths@.len() && forall|i: int|
            0 <= i < items@.len() ==> text_is(
                Some(#[trigger] items@[i]),
                crate::notes::exclusion_glob_spec(paths@[i]@),
            ),
{
    let mut items: Vec<SettingsValue> = Vec::new();
    let mut i: usize = 0;
    while i < paths.len()
        invariant
            i <= paths.len(),
            items@.len() == i,
            forall|j: int|
                0 <= j < i ==> text_is(
                    Some(#[trigger] items@[j]),
                    crate::notes::exclusion_glob_spec(paths@[j]@),
                ),
        decreases paths.len() - i,
    {
        items.push(SettingsValue::Text(crate::notes::exclusion_glob(paths[i].as_str())));
        i += 1;
    }
    assert forall|j: int| 0 <= j < items@.len() implies well_formed(#[trigger] items@[j]) by {
        assert(text_is(Some(items@[j]), crate::notes::exclusion_glob_spec(paths@[j]@)));
    }
    SettingsValue::Array(items)
}

/// The object `old` (an empty one where `old` is no object) with `value`
/// under `key`.
fn set_in_object(old: Option<SettingsValue>, key: &str, value: SettingsValue) -> (r: SettingsValue)
    requires
        old matches Some(x) ==> well_formed(x),
        well_formed(value),
    ensures
        updated_object(old, Some(r), |k: Seq<char>| false, |k: Seq<char>| k == key@),
        field(Some(r), key@) == Some(value),
{
    let ghost e0 = entries_of(old);
    let mut e = object_entries(old);
    set_entry(&mut e, key, value);
    let ghost e1 = e@;
    assert forall|k: Seq<char>| has_key(e1, k) <==> ((has_key(e0, k) && !false) || k == key@) by {
        lemma_has_key_lookup(e1, k);
        lemma_has_key_lookup(e0, k);
    }
    SettingsValue::Object(e)
}

/// The Vim section of a migrated document: `old` without its leader, with
/// `toggle_relative_line_numbers`.
fn vim_value(old: Option<SettingsValue>, toggle: bool) -> (r: SettingsValue)
    requires
        old matches Some(x) ==> well_formed(x),
    ensures
        updated_object(
            old,
            Some(r),
            |k: Seq<char>| k == "leader"@,
            |k: Seq<char>| k == "toggle_relative_line_numbers"@,
        ),
        field(Some(r), "toggle_relative_line_numbers"@) == Some(SettingsValue::Bool(toggle)),
{
    proof {
        lemma_setting_names();
    }
    let ghost e0 = entries_of(old);
    let mut e = object_entries(old);
    let _ = take_entry(&mut e, "leader");
    let ghost e1 = e@;
    set_entry(&mut e, "toggle_relative_line_numbers", SettingsValue::Bool(toggle));
    let ghost e2 = e@;
    assert forall|k: Seq<char>|
        has_key(e2, k) <==> ((has_key(e0, k) && !(k == "leader"@)) || k
            == "toggle_relative_line_numbers"@) by {
        lemma_has_key_lookup(e2, k);
        lemma_has_key_lookup(e1, k);
        lemma_has_key_lookup(e0, k);
    }
    SettingsValue::Object(e)
}

/// The daily-note section of a migrated document's `zednotes` section.
fn daily_notes_value(old: Option<SettingsValue>, d: &DailyNotesSettings) -> (r: SettingsValue)
    requires
        old matches Some(x) ==> well_formed(x),
    ensures
        updated_object(
            old,
            Some(r),
            |k: Seq<char>| false,
            |k: Seq<char>|
                k == "directory"@ || k == "filename_format"@ || (d@.template is Some && k
                    == "template"@),
        ),
        text_is(field(Some(r), "directory"@), d@.directory),
        text_is(field(Some(r), "filename_format"@), d@.filename_format),
        d@.template matches Some(t) ==> text_is(field(Some(r), "template"@), t),
{
    proof {
        lemma_setting_names();
    }
    let ghost e0 = entries_of(old);
    let mut e = object_entries(old);
    set_entry(&mut e, "directory", text_value(d.directory.as_str()));
    let ghost e1 = e@;
    set_entry(&mut e, "filename_format", text_value(d.filename_format.as_str()));
    let ghost e2 = e@;
    if let Some(t) = &d.template {
        set_entry(&mut e, "template", text_value(t.as_str()));
    }
    let ghost e3 = e@;
    assert forall|k: Seq<char>|
        has_key(e3, k) <==> ((has_key(e0, k) && !false) || (k == "directory"@ || k
            == "filename_format"@ || (d@.template is Some && k == "template"@))) by {
        lemma_has_key_lookup(e3, k);
        lemma_has_key_lookup(e2, k);
        lemma_has_key_lookup(e1, k);
        lemma_has_key_lookup(e0, k);
    }
    SettingsValue::Object(e)
}

/// The `zednotes` section of a migrated document: `old` with the leader,
/// the Markdown-only filter and the daily-note settings written into its
/// sections.
fn zednotes_value(old: Option<SettingsValue>, s: &NotesSettings) -> (r: SettingsValue)
    requires
        old matches Some(x) ==> well_formed(x),
    ensures
        updated_object(
            old,
            Some(r),
            |k: Seq<char>| false,
            |k: Seq<char>| k == "vim"@ || k == "explorer"@ || k == "daily_notes"@,
        ),
        updated_object(
            field(old, "vim"@),
            field(Some(r), "vim"@),
            |k: Seq<char>| false,
            |k: Seq<char>| k == "leader"@,
        ),
        text_is(field(field(Some(r), "vim"@), "leader"@), s@.vim_leader),
        updated_object(
            field(old, "explorer"@),
            field(Some(r), "explorer"@),
            |k: Seq<char>| false,
            |k: Seq<char>| k == "markdown_only"@,
        ),
        field(field(Some(r), "explorer"@), "markdown_only"@) == Some(
            SettingsValue::Bool(s@.markdown_only),
        ),
        updated_object(
            field(old, "daily_notes"@),
            field(Some(r), "daily_notes"@),
            |k: Seq<char>| false,
            |k: Seq<char>|
                k == "directory"@ || k == "filename_format"@ || (s@.daily_notes.template is Some
                    && k == "template"@),
        ),
        text_is(field(field(Some(r), "daily_notes"@), "directory"@), s@.daily_notes.directory),
        text_is(
            field(field(Some(r), "daily_notes"@), "filename_format"@),
            s@.daily_notes.filename_format,
        ),
        s@.daily_notes.template matches Some(t) ==> text_is(
            field(field(Some(r), "daily_notes"@), "template"@),
            t,
        ),
{
    proof {
        lemma_setting_names();
    }
    let ghost e0 = entries_of(old);
    let mut e = object_entries(old);
    let old_vim = take_entry(&mut e, "vim");
    proof {
        if old_vim is Some {
            let i = choose|i: int| 0 <= i < e0.len() && (#[trigger] e0[i]).key@ == "vim"@;
            crate::settings_documents::lemma_value_of_pub(e0, i);
        }
    }
    let vim = set_in_object(old_vim, "leader", text_value(s.vim_leader.as_str()));
    set_entry(&mut e, "vim", vim);
    let ghost e1 = e@;
    let old_explorer = take_entry(&mut e, "explorer");
    proof {
        if old_explorer is Some {
            let i = choose|i: int| 0 <= i < e0.len() && (#[trigger] e0[i]).key@ == "explorer"@;
            crate::settings_documents::lemma_value_of_pub(e0, i);
        }
    }
    let explorer = set_in_object(
        old_explorer,
        "markdown_only",
        SettingsValue::Bool(s.markdown_only),
    );
    set_entry(&mut e, "explorer", explorer);
    let ghost e2 = e@;
    let old_daily = take_entry(&mut e, "daily_notes");
    proof {
        if old_daily is Some {
            let i = choose|i: int| 0 <= i < e0.len() && (#[trigger] e0[i]).key@ == "daily_notes"@;
            crate::settings_documents::lemma_value_of_pub(e0, i);
        }
    }
    let daily = daily_notes_value(old_daily, &s.daily_notes);
    set_entry(&mut e, "daily_notes", daily);
    let ghost e3 = e@;
    assert forall|k: Seq<char>|
        has_key(e3, k) <==> ((has_key(e0, k) && !false) || (k == "vim"@ || k == "explorer"@ || k
            == "daily_notes"@)) by {
        lemma_has_key_lookup(e3, k);
        lemma_has_key_lookup(e2, k);
        lemma_has_key_lookup(e1, k);
        lemma_has_key_lookup(e0, k);
    }
    SettingsValue::Object(e)
}

/// What migrating `document` gives: an error when it is not an object;
/// `Ok(None)` when it is not in the former schema; the error of reading
/// its settings (see [`legacy_settings_spec`]); or the migrated document
/// (see [`migrated_root`]).
pub open spec fn migration_result(
    document: SettingsValue,
    n: LegacyNumbersView,
    r: Result<Option<SettingsValue>, SettingsError>,
) -> bool {
    match document {
        SettingsValue::Object(root) => if !crate::settings_documents::is_legacy_settings_spec(
            root@,
        ) {
            r == Ok::<Option<SettingsValue>, SettingsError>(None)
        } else {
            match legacy_settings_spec(document) {
                Err(e) => r matches Err(x) && x@ == e,
                Ok(s) => r matches Ok(Some(SettingsValue::Object(m))) && migrated_root(
                    root@,
                    s,
                    n,
                    m@,
                ),
            }
        },
        _ => r matches Err(x) && x@ == SettingsErrorView::InvalidValue,
    }
}

/// The first editor settings depend on the values under their keys alone.
proof fn lemma_editor_a_frame(m1: Seq<SettingsEntry>, m2: Seq<SettingsEntry>, s: NotesSettingsView, n: LegacyNumbersView)
    requires
        migrated_editor_settings_a(m1, s, n),
        forall|k: Seq<char>| editor_keys_a(k) ==> #[trigger] lookup(m2, k) == lookup(m1, k),
    ensures
        migrated_editor_settings_a(m2, s, n),
{
    reveal(migrated_editor_settings_a);
    assert(lookup(m2, "theme"@) == lookup(m1, "theme"@));
    assert(lookup(m2, "vim_mode"@) == lookup(m1, "vim_mode"@));
    assert(lookup(m2, "relative_line_numbers"@) == lookup(m1, "relative_line_numbers"@));
    assert(lookup(m2, "which_key"@) == lookup(m1, "which_key"@));
    assert(lookup(m2, "ui_font_family"@) == lookup(m1, "ui_font_family"@));
    assert(lookup(m2, "ui_font_size"@) == lookup(m1, "ui_font_size"@));
    assert(lookup(m2, "buffer_font_family"@) == lookup(m1, "buffer_font_family"@));
    assert(lookup(m2, "buffer_font_size"@) == lookup(m1, "buffer_font_size"@));
}

/// The next editor settings depend on the values under their keys alone.
proof fn lemma_editor_b_frame(m1: Seq<SettingsEntry>, m2: Seq<SettingsEntry>, s: NotesSettingsView, n: LegacyNumbersView)
    requires
        migrated_editor_settings_b(m1, s, n),
        forall|k: Seq<char>| editor_keys_b(k) ==> #[trigger] lookup(m2, k) == lookup(m1, k),
    ensures
        migrated_editor_settings_b(m2, s, n),
{
    reveal(migrated_editor_settings_b);
    assert(lookup(m2, "buffer_line_height"@) == lookup(m1, "buffer_line_height"@));
    assert(lookup(m2, "gutter"@) == lookup(m1, "gutter"@));
    assert(lookup(m2, "soft_wrap"@) == lookup(m1, "soft_wrap"@));
    assert(lookup(m2, "autosave"@) == lookup(m1, "autosave"@));
    assert(lookup(m2, "project_panel"@) == lookup(m1, "project_panel"@));
}

/// The last editor settings depend on the values under their keys alone.
proof fn lemma_editor_c_frame(m1: Seq<SettingsEntry>, m2: Seq<SettingsEntry>, s: NotesSettingsView, n: LegacyNumbersView)
    requires
        migrated_editor_settings_c(m1, s, n),
        forall|k: Seq<char>| editor_keys_c(k) ==> #[trigger] lookup(m2, k) == lookup(m1, k),
    ensures
        migrated_editor_settings_c(m2, s, n),
{
    reveal(migrated_editor_settings_c);
    assert(lookup(m2, "file_scan_exclusions"@) == lookup(m1, "file_scan_exclusions"@));
    assert(lookup(m2, "markdown_preview_font_family"@) == lookup(
        m1,
        "markdown_preview_font_family"@,
    ));
    assert(lookup(m2, "markdown_preview_font_size"@) == lookup(m1, "markdown_preview_font_size"@));
    assert(lookup(m2, "markdown_preview"@) == lookup(m1, "markdown_preview"@));
}

/// The steps of migration together give the migrated root.
proof fn lemma_migration_assembled(
    r0: Seq<SettingsEntry>,
    r1: Seq<SettingsEntry>,
    r2: Seq<SettingsEntry>,
    r3: Seq<SettingsEntry>,
    r4: Seq<SettingsEntry>,
    r5: Seq<SettingsEntry>,
    m: Seq<SettingsEntry>,
    s: NotesSettingsView,
    n: LegacyNumbersView,
    vim: SettingsValue,
    z: SettingsValue,
)
    requires
        distinct_keys(r0),
        values_well_formed(r0),
        distinct_keys(r1),
        values_well_formed(r1),
        forall|k: Seq<char>|
            #![trigger lookup(r1, k)]
            lookup(r1, k) == if legacy_section_key(k) || k == "vim"@ || k == "zednotes"@ {
                None
            } else {
                lookup(r0, k)
            },
        rewritten_only(r1, r2, |k: Seq<char>| editor_keys_a(k)),
        migrated_editor_settings_a(r2, s, n),
        rewritten_only(r2, r3, |k: Seq<char>| editor_keys_b(k)),
        migrated_editor_settings_b(r3, s, n),
        rewritten_only(r3, r4, |k: Seq<char>| editor_keys_c(k)),
        migrated_editor_settings_c(r4, s, n),
        crate::settings_documents::entry_set(r4, r5, "vim"@, vim),
        crate::settings_documents::entry_set(r5, m, "zednotes"@, z),
        updated_object(
            lookup(r0, "vim"@),
            Some(vim),
            |k: Seq<char>| k == "leader"@,
            |k: Seq<char>| k == "toggle_relative_line_numbers"@,
        ),
        field(Some(vim), "toggle_relative_line_numbers"@) == Some(
            SettingsValue::Bool(s.toggle_relative_line_numbers),
        ),
        updated_object(
            lookup(r0, "zednotes"@),
            Some(z),
            |k: Seq<char>| false,
            |k: Seq<char>| k == "vim"@ || k == "explorer"@ || k == "daily_notes"@,
        ),
        updated_object(
            field(lookup(r0, "zednotes"@), "vim"@),
            field(Some(z), "vim"@),
            |k: Seq<char>| false,
            |k: Seq<char>| k == "leader"@,
        ),
        text_is(field(field(Some(z), "vim"@), "leader"@), s.vim_leader),
        updated_object(
            field(lookup(r0, "zednotes"@), "explorer"@),
            field(Some(z), "explorer"@),
            |k: Seq<char>| false,
            |k: Seq<char>| k == "markdown_only"@,
        ),
        field(field(Some(z), "explorer"@), "markdown_only"@) == Some(
            SettingsValue::Bool(s.markdown_only),
        ),
        updated_object(
            field(lookup(r0, "zednotes"@), "daily_notes"@),
            field(Some(z), "daily_notes"@),
            |k: Seq<char>| false,
            |k: Seq<char>|
                k == "directory"@ || k == "filename_format"@ || (s.daily_notes.template is Some
                    && k == "template"@),
        ),
        text_is(field(field(Some(z), "daily_notes"@), "directory"@), s.daily_notes.directory),
        text_is(
            field(field(Some(z), "daily_notes"@), "filename_format"@),
            s.daily_notes.filename_format,
        ),
        s.daily_notes.template matches Some(t) ==> text_is(
            field(field(Some(z), "daily_notes"@), "template"@),
            t,
        ),
    ensures
        migrated_root(r0, s, n, m),
{
    reveal(migrated_root);
    reveal(migrated_notes_sections);
    lemma_setting_names();
    assert forall|k: Seq<char>| editor_keys_a(k) implies #[trigger] lookup(m, k) == lookup(r2, k) by {
        assert(!editor_keys_b(k) && !editor_keys_c(k));
        assert(lookup(r3, k) == lookup(r2, k));
        assert(lookup(r4, k) == lookup(r3, k));
        assert(lookup(r5, k) == lookup(r4, k));
    }
    lemma_editor_a_frame(r2, m, s, n);
    assert forall|k: Seq<char>| editor_keys_b(k) implies #[trigger] lookup(m, k) == lookup(r3, k) by {
        assert(!editor_keys_c(k));
        assert(lookup(r4, k) == lookup(r3, k));
        assert(lookup(r5, k) == lookup(r4, k));
    }
    lemma_editor_b_frame(r3, m, s, n);
    assert forall|k: Seq<char>| editor_keys_c(k) implies #[trigger] lookup(m, k) == lookup(r4, k) by {
        assert(lookup(r5, k) == lookup(r4, k));
    }
    lemma_editor_c_frame(r4, m, s, n);
    assert(lookup(m, "vim"@) == Some(vim));
    assert forall|k: Seq<char>|
        !legacy_section_key(k) && !native_key(k) implies #[trigger] lookup(m, k) == lookup(r0, k) by {
        assert(!editor_keys_a(k) && !editor_keys_b(k) && !editor_keys_c(k));
        assert(lookup(r5, k) == lookup(r4, k));
        assert(lookup(r4, k) == lookup(r3, k));
        assert(lookup(r3, k) == lookup(r2, k));
        assert(lookup(r2, k) == lookup(r1, k));
    }
    assert forall|k: Seq<char>|
        has_key(m, k) <==> ((has_key(r0, k) && !legacy_section_key(k)) || native_key(k)) by {
        lemma_has_key_lookup(m, k);
        lemma_has_key_lookup(r0, k);
        lemma_has_key_lookup(r1, k);
        if native_key(k) {
            if editor_keys_a(k) {
                assert(lookup(r2, k) is Some);
                assert(!editor_keys_b(k) && !editor_keys_c(k));
                assert(lookup(r3, k) == lookup(r2, k));
                assert(lookup(r4, k) == lookup(r3, k));
                assert(lookup(r5, k) == lookup(r4, k));
            } else if editor_keys_b(k) {
                assert(lookup(r3, k) is Some);
                assert(!editor_keys_c(k));
                assert(lookup(r4, k) == lookup(r3, k));
                assert(lookup(r5, k) == lookup(r4, k));
            } else if editor_keys_c(k) {
                assert(lookup(r4, k) is Some);
                assert(lookup(r5, k) == lookup(r4, k));
            } else if k == "vim"@ {
                assert(lookup(r5, k) is Some);
            }
        } else {
            assert(!editor_keys_a(k) && !editor_keys_b(k) && !editor_keys_c(k));
            assert(lookup(r5, k) == lookup(r4, k));
            assert(lookup(r4, k) == lookup(r3, k));
            assert(lookup(r3, k) == lookup(r2, k));
            assert(lookup(r2, k) == lookup(r1, k));
        }
    }
    assert(values_well_formed(m)) by {
        assert(well_formed(vim));
        assert(well_formed(z));
    }
}

/// `after` is `before` with new values under the keys that `keys` holds,
/// and no other change.
pub open spec fn rewritten_only(
    before: Seq<SettingsEntry>,
    after: Seq<SettingsEntry>,
    keys: spec_fn(Seq<char>) -> bool,
) -> bool {
    &&& distinct_keys(after)
    &&& values_well_formed(before) ==> values_well_formed(after)
    &&& forall|k: Seq<char>| keys(k) ==> #[trigger] lookup(after, k) is Some
    &&& forall|k: Seq<char>| !keys(k) ==> #[trigger] lookup(after, k) == lookup(before, k)
}

/// Writes the first editor settings (see [`migrated_editor_settings_a`]).
fn write_editor_settings_a(root: &mut Vec<SettingsEntry>, s: &NotesSettings, n: &LegacyNumbers)
    requires
        distinct_keys(old(root)@),
    ensures
        rewritten_only(old(root)@, final(root)@, |k: Seq<char>| editor_keys_a(k)),
        migrated_editor_settings_a(final(root)@, s@, n@),
{
    proof {
        lemma_setting_names();
        reveal(migrated_editor_settings_a);
    }
    set_entry(root, "theme", theme_value(s.theme));
    set_entry(root, "vim_mode", SettingsValue::Bool(s.vim_mode));
    let name = match s.relative_line_numbers {
        RelativeLineNumbers::Disabled => "disabled",
        RelativeLineNumbers::Enabled => "enabled",
        RelativeLineNumbers::Wrapped => "wrapped",
    };
    set_entry(root, "relative_line_numbers", text_value(name));
    set_entry(root, "which_key", which_key_value(s.which_key_enabled, s.which_key_delay_ms));
    set_entry(root, "ui_font_family", text_value(s.ui_font_family.as_str()));
    set_entry(root, "ui_font_size", number_text_value(&n.ui_font_size));
    set_entry(root, "buffer_font_family", text_value(s.editor_font_family.as_str()));
    set_entry(root, "buffer_font_size", number_text_value(&n.buffer_font_size));
}

/// Writes the next editor settings (see [`migrated_editor_settings_b`]).
fn write_editor_settings_b(root: &mut Vec<SettingsEntry>, s: &NotesSettings, n: &LegacyNumbers)
    requires
        distinct_keys(old(root)@),
    ensures
        rewritten_only(old(root)@, final(root)@, |k: Seq<char>| editor_keys_b(k)),
        migrated_editor_settings_b(final(root)@, s@, n@),
{
    proof {
        lemma_setting_names();
        reveal(migrated_editor_settings_b);
    }
    set_entry(
        root,
        "buffer_line_height",
        single_entry_object("custom", number_text_value(&n.buffer_line_height)),
    );
    set_entry(
        root,
        "gutter",
        single_entry_object("line_numbers", SettingsValue::Bool(s.line_numbers)),
    );
    let wrap = if s.soft_wrap {
        "editor_width"
    } else {
        "none"
    };
    set_entry(root, "soft_wrap", text_value(wrap));
    set_entry(root, "autosave", autosave_value(s.autosave_enabled, s.autosave_delay_ms));
    set_entry(root, "project_panel", project_panel_value(s.explorer_width, s.show_hidden));
}

/// Writes the last editor settings (see [`migrated_editor_settings_c`]).
fn write_editor_settings_c(root: &mut Vec<SettingsEntry>, s: &NotesSettings, n: &LegacyNumbers)
    requires
        distinct_keys(old(root)@),
    ensures
        rewritten_only(old(root)@, final(root)@, |k: Seq<char>| editor_keys_c(k)),
        migrated_editor_settings_c(final(root)@, s@, n@),
{
    proof {
        lemma_setting_names();
        reveal(migrated_editor_settings_c);
    }
    set_entry(root, "file_scan_exclusions", exclusions_value(&s.excluded_paths));
    assert(s@.excluded_paths =~= s.excluded_paths@.map_values(|t: String| t@));
    set_entry(root, "markdown_preview_font_family", text_value(s.preview_font_family.as_str()));
    set_entry(root, "markdown_preview_font_size", number_text_value(&n.markdown_preview_font_size));
    set_entry(
        root,
        "markdown_preview",
        markdown_preview_value(s.preview_max_width, s.allow_remote_images, s.max_file_size_bytes),
    );
}

/// Takes the Vim and `zednotes` sections and the sections of the former
/// schema out of `root`, and returns the first two.
fn strip_root(root: &mut Vec<SettingsEntry>) -> (r: (Option<SettingsValue>, Option<SettingsValue>))
    requires
        distinct_keys(old(root)@),
        values_well_formed(old(root)@),
    ensures
        r.0 == lookup(old(root)@, "vim"@),
        r.1 == lookup(old(root)@, "zednotes"@),
        r.0 matches Some(x) ==> well_formed(x),
        r.1 matches Some(x) ==> well_formed(x),
        distinct_keys(final(root)@),
        values_well_formed(final(root)@),
        forall|k: Seq<char>|
            #![trigger lookup(final(root)@, k)]
            lookup(final(root)@, k) == if legacy_section_key(k) || k == "vim"@ || k == "zednotes"@ {
                None
            } else {
                lookup(old(root)@, k)
            },
{
    proof {
        lemma_setting_names();
    }
    let ghost r0 = root@;
    let old_vim = take_entry(root, "vim");
    proof {
        if old_vim is Some {
            let i = choose|i: int| 0 <= i < r0.len() && (#[trigger] r0[i]).key@ == "vim"@;
            crate::settings_documents::lemma_value_of_pub(r0, i);
        }
    }
    let old_z = take_entry(root, "zednotes");
    proof {
        if old_z is Some {
            let i = choose|i: int| 0 <= i < r0.len() && (#[trigger] r0[i]).key@ == "zednotes"@;
            crate::settings_documents::lemma_value_of_pub(r0, i);
        }
    }
    let _ = take_entry(root, "ui");
    let _ = take_entry(root, "editor");
    let _ = take_entry(root, "explorer");
    let _ = take_entry(root, "files");
    let _ = take_entry(root, "preview");
    let _ = take_entry(root, "daily_notes");
    (old_vim, old_z)
}

/// Rewrites a settings document in the former schema into the native one
/// (see [`migration_result`]). The caller rounds the floating-point
/// settings into `rounded`, and refuses a font size or line height out of
/// range before calling. Documents whose daily-note file name format
/// `chrono` cannot apply to the example date, though it finds no invalid
/// directive in it, are outside what this accepts.
pub fn migrate_legacy_settings_document(document: SettingsValue, rounded: &LegacyNumbers) -> (r:
    Result<Option<SettingsValue>, SettingsError>)
    requires
        well_formed(document),
        legacy_example_formats(document),
    ensures
        migration_result(document, rounded@, r),
{
    let settings = match &document {
        SettingsValue::Object(root) => {
            if !crate::settings_documents::is_legacy_settings(root) {
                return Ok(None);
            }
            match legacy_notes_settings(&document) {
                Ok(s) => s,
                Err(e) => return Err(e),
            }
        },
        _ => return Err(SettingsError::InvalidValue),
    };
    let mut root = match document {
        SettingsValue::Object(root) => root,
        _ => return Err(SettingsError::InvalidValue),
    };
    let ghost r0 = root@;
    proof {
        lemma_setting_names();
    }
    let (old_vim, old_z) = strip_root(&mut root);
    let ghost r1 = root@;
    write_editor_settings_a(&mut root, &settings, rounded);
    let ghost r2 = root@;
    write_editor_settings_b(&mut root, &settings, rounded);
    let ghost r3 = root@;
    write_editor_settings_c(&mut root, &settings, rounded);
    let ghost r4 = root@;
    let vim = vim_value(old_vim, settings.toggle_relative_line_numbers);
    let ghost vim_g = vim;
    set_entry(&mut root, "vim", vim);
    let ghost r5 = root@;
    let z = zednotes_value(old_z, &settings);
    let ghost z_g = z;
    set_entry(&mut root, "zednotes", z);
    let ghost m = root@;
    proof {
        lemma_migration_assembled(r0, r1, r2, r3, r4, r5, m, settings@, rounded@, vim_g, z_g);
    }
    Ok(Some(SettingsValue::Object(root)))
}

/// Migrating, when `chrono` can format the example date that reading the
/// document's settings formats; `None` where it cannot.
pub fn checked_migrate_legacy_settings_document(document: SettingsValue, rounded: &LegacyNumbers) -> (r:
    Option<Result<Option<SettingsValue>, SettingsError>>)
    requires
        well_formed(document),
    ensures
        match r {
            Some(m) => legacy_example_formats(document) && migration_result(document, rounded@, m),
            None => !legacy_example_formats(document),
        },
{
    if let SettingsValue::Object(root) = &document {
        if let Some(s) = read_legacy_settings(root) {
            if check_legacy_before_daily_notes(&s) && !example_filename_formats(&s.daily_notes) {
                return None;
            }
        }
    }
    Some(migrate_legacy_settings_document(document, rounded))
}

/// The theme of a migrated document is an object, not a mode name.
proof fn lemma_migrated_theme_is_object(m: Seq<SettingsEntry>, s: NotesSettingsView, n: LegacyNumbersView)
    requires
        migrated_editor_settings_a(m, s, n),
    ensures
        lookup(m, "theme"@) matches Some(SettingsValue::Object(_)),
{
    reveal(migrated_editor_settings_a);
}

/// The autosave setting of a migrated document has no `enabled` or
/// `delay_ms` entry.
proof fn lemma_migrated_autosave(m: Seq<SettingsEntry>, s: NotesSettingsView, n: LegacyNumbersView)
    requires
        migrated_editor_settings_b(m, s, n),
    ensures
        !has_key(entries_of(lookup(m, "autosave"@)), "enabled"@),
        !has_key(entries_of(lookup(m, "autosave"@)), "delay_ms"@),
{
    reveal(migrated_editor_settings_b);
    lemma_setting_names();
}

/// The Vim section of a migrated document has no leader.
proof fn lemma_migrated_vim(root: Seq<SettingsEntry>, m: Seq<SettingsEntry>, s: NotesSettingsView)
    requires
        migrated_notes_sections(root, m, s),
    ensures
        !has_key(entries_of(lookup(m, "vim"@)), "leader"@),
{
    reveal(migrated_notes_sections);
    lemma_setting_names();
}

/// A migrated document is in the native schema: migrating it again gives
/// `Ok(None)`.
pub proof fn law_migrated_document_needs_no_migration(
    root: Seq<SettingsEntry>,
    s: NotesSettingsView,
    n: LegacyNumbersView,
    m: Seq<SettingsEntry>,
)
    requires
        migrated_root(root, s, n, m),
    ensures
        !crate::settings_documents::is_legacy_settings_spec(m),
{
    reveal(migrated_root);
    lemma_setting_names();
    lemma_migrated_theme_is_object(m, s, n);
    lemma_migrated_autosave(m, s, n);
    lemma_migrated_vim(root, m, s);
    assert(!has_key(m, "ui"@));
    assert(!has_key(m, "editor"@));
    assert(!has_key(m, "explorer"@));
    assert(!has_key(m, "files"@));
    assert(!has_key(m, "preview"@));
    assert(!has_key(m, "daily_notes"@));
}

/// `layer` is the canonical settings document: the given one, or an empty
/// object where there is none.
pub open spec fn canonical_layer(canonical: Option<SettingsValue>, layer: SettingsValue) -> bool {
    match canonical {
        Some(c) => layer == c,
        None => layer matches SettingsValue::Object(e) && e@.len() == 0,
    }
}

/// `m` is the canonical settings document `layer` and the split one merged,
/// the split one laid over the other where `split_wins`, under it
/// otherwise (see [`merge_result`]).
pub open spec fn split_merge(layer: SettingsValue, split: SettingsValue, split_wins: bool, m: SettingsValue) -> bool {
    &&& well_formed(m)
    &&& if split_wins {
        crate::settings_documents::merge_result(layer, split, m)
    } else {
        crate::settings_documents::merge_result(split, layer, m)
    }
}

/// Merges a canonical settings document, if there is one, with a split
/// one, both in the native schema (a document in the former schema is
/// migrated first), and checks the merged settings (see
/// [`notes_settings_spec`]): the merged document, or why its settings are
/// refused; `None` where `chrono` cannot format the example date that
/// checking them formats.
pub fn merge_split_settings(canonical: Option<SettingsValue>, split: SettingsValue, split_wins: bool) -> (r:
    Option<Result<SettingsValue, SettingsError>>)
    requires
        canonical matches Some(c) ==> well_formed(c),
        well_formed(split),
    ensures
        match r {
            Some(Ok(m)) => exists|layer: SettingsValue|
                canonical_layer(canonical, layer) && split_merge(layer, split, split_wins, m)
                    && notes_example_formats(m) && notes_settings_spec(m) is Ok,
            Some(Err(e)) => exists|layer: SettingsValue, m: SettingsValue|
                canonical_layer(canonical, layer) && split_merge(layer, split, split_wins, m)
                    && notes_example_formats(m) && notes_settings_spec(m) == Err::<
                    NotesSettingsView,
                    SettingsErrorView,
                >(e@),
            None => exists|layer: SettingsValue, m: SettingsValue|
                canonical_layer(canonical, layer) && split_merge(layer, split, split_wins, m)
                    && !notes_example_formats(m),
        },
{
    let layer = match canonical {
        Some(c) => c,
        None => {
            let e: Vec<SettingsEntry> = Vec::new();
            assert(e@ =~= Seq::<SettingsEntry>::empty());
            SettingsValue::Object(e)
        },
    };
    let ghost lg = layer;
    let ghost sg = split;
    let (mut merged, overlay) = if split_wins {
        (layer, split)
    } else {
        (split, layer)
    };
    crate::settings_documents::merge_settings_documents(&mut merged, overlay);
    let ghost mg = merged;
    assert(split_merge(lg, sg, split_wins, mg));
    assert(canonical_layer(canonical, lg));
    match checked_parse_notes_settings(&merged) {
        None => None,
        Some(Ok(s)) => {
            assert(settings_result_view(Ok(s)) == Ok::<NotesSettingsView, SettingsErrorView>(s@));
            assert(notes_settings_spec(mg) is Ok);
            Some(Ok(merged))
        },
        Some(Err(e)) => Some(Err(e)),
    }
}

/// What the `zednotes` section of a migrated document holds, where the
/// document had no `zednotes` section before.
proof fn lemma_migrated_zednotes(root: Seq<SettingsEntry>, s: NotesSettingsView, m: Seq<SettingsEntry>)
    requires
        migrated_notes_sections(root, m, s),
        lookup(root, "zednotes"@) is None,
    ensures
        native_typed(m),
        native_merged(m).vim_leader == s.vim_leader,
        native_merged(m).markdown_only == s.markdown_only,
        native_merged(m).daily_notes == s.daily_notes,
{
    reveal(migrated_notes_sections);
    lemma_setting_names();
    let z = lookup(m, "zednotes"@);
    let zv = field(z, "vim"@);
    let ze = field(z, "explorer"@);
    let zd = field(z, "daily_notes"@);
    assert(entries_of(lookup(root, "zednotes"@)) =~= Seq::<SettingsEntry>::empty());
    assert(field(lookup(root, "zednotes"@), "daily_notes"@) is None);
    assert(entries_of(field(lookup(root, "zednotes"@), "daily_notes"@)) =~= Seq::<SettingsEntry>::empty());
    assert(section_entries(m, "zednotes"@) == entries_of(z));
    assert(section_entries(entries_of(z), "vim"@) == entries_of(zv));
    assert(section_entries(entries_of(z), "explorer"@) == entries_of(ze));
    assert(section_entries(entries_of(z), "daily_notes"@) == entries_of(zd));
    if s.daily_notes.template is None {
        assert(!has_key(entries_of(zd), "template"@));
        assert(text_setting(entries_of(zd), "template"@) == Some::<Option<Seq<char>>>(None));
    }
    let n = native_merged(m);
    assert(n.daily_notes.template == s.daily_notes.template);
    assert(n.daily_notes =~= s.daily_notes);
}

/// Law: migration keeps the notes policy. Where the document had no
/// `zednotes` section, reading the migrated document gives the leader, the
/// Markdown-only filter and the daily-note settings that reading the
/// document in the former schema gave.
pub proof fn law_migration_keeps_notes_policy(
    document: SettingsValue,
    n: LegacyNumbersView,
    migrated: SettingsValue,
)
    requires
        migration_result(
            document,
            n,
            Ok::<Option<SettingsValue>, SettingsError>(Some(migrated)),
        ),
        document matches SettingsValue::Object(root) && lookup(root@, "zednotes"@) is None,
    ensures
        notes_settings_spec(migrated) matches Ok(t) && legacy_settings_spec(document) matches Ok(
            s,
        ) && t.vim_leader == s.vim_leader && t.markdown_only == s.markdown_only && t.daily_notes
            == s.daily_notes,
{
    let root = document->Object_0@;
    let s = legacy_settings_spec(document)->Ok_0;
    let mm = migrated->Object_0@;
    assert(migrated_root(root, s, n, mm));
    law_migrated_document_needs_no_migration(root, s, n, mm);
    assert(migrated_notes_sections(root, mm, s)) by {
        reveal(migrated_root);
    }
    lemma_migrated_zednotes(root, s, mm);
    assert(legacy_check(legacy_merged(root)) is Ok);
    assert(s == legacy_merged(root));
}

} // verus!
