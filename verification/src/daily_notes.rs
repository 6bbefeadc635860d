//! Daily notes: where the note for a date lives in the notes folder, the
//! checks on the daily-note settings, and the filling of a note template.
//!
//! Dates are formatted by `chrono`; what it makes of a format string is
//! named, not restated.

use chrono::format::StrftimeItems;
use chrono::NaiveDate;
use std::fmt::Write;
use vstd::prelude::*;
use crate::notes::{
    check_view, validate_vault_relative_path, vault_relative_path_check, SettingsError,
    SettingsErrorView,
};
use crate::paths::{
    components, file_stem, file_stem_chars, is_markdown_path, is_note_spec, path_components,
};
use crate::text::{chars_of, string_from_chars, trim, trim_spec};

verus! {

/// Whether `chrono::format::StrftimeItems` finds an invalid directive in
/// `format`.
pub uninterp spec fn strftime_has_error(format: Seq<char>) -> bool;

/// What `chrono` writes for the date `year-month-day` formatted with
/// `format`; `None` when the date does not exist or `chrono` reports an
/// error while formatting.
pub uninterp spec fn formatted_date(year: int, month: int, day: int, format: Seq<char>) -> Option<
    Seq<char>,
>;

/// `StrftimeItems::new(format).parse()` fails: the format holds a directive
/// that `chrono` does not know (an `Item::Error`). The result is named by
/// [`strftime_has_error`].
#[verifier::external_body]
fn has_invalid_date_directive(format: &str) -> (r: bool)
    ensures
        r == strftime_has_error(format@),
{
    match StrftimeItems::new(format).parse() {
        Ok(_) => false,
        Err(_) => true,
    }
}

/// `NaiveDate::from_ymd_opt(year, month, day)` formatted with `format`, as
/// `write!` produces it; `None` when there is no such date or formatting
/// fails. The result is named by [`formatted_date`].
#[verifier::external_body]
fn format_date(year: i32, month: u32, day: u32, format: &str) -> (r: Option<String>)
    ensures
        match r {
            Some(s) => formatted_date(year as int, month as int, day as int, format@) == Some(s@),
            None => formatted_date(year as int, month as int, day as int, format@) is None,
        },
{
    let date = NaiveDate::from_ymd_opt(year, month, day)?;
    let mut out = String::new();
    match write!(out, "{}", date.format(format)) {
        Ok(()) => Some(out),
        Err(_) => None,
    }
}

/// A calendar date.
#[derive(Clone, Copy, Debug, PartialEq, Eq)]
pub struct CalendarDate {
    pub year: i32,
    pub month: u32,
    pub day: u32,
}

/// The settings of daily notes: the folder they live in, the `chrono`
/// format of their file names, and an optional template note.
#[derive(Debug)]
pub struct DailyNotesSettings {
    pub directory: String,
    pub filename_format: String,
    pub template: Option<String>,
}

/// The template of a daily note when the settings name none.
pub const DEFAULT_DAILY_NOTE_TEMPLATE: &'static str =
    "---\ntitle: \"{{title}}\"\ndate: {{datetime}}\nlastUpdated: {{datetime}}\n---\n\n";

impl Default for DailyNotesSettings {
    /// Daily notes in `journal`, named `%Y-%m-%d.md`, without a template.
    fn default() -> (r: Self)
        ensures
            r@.directory == "journal"@,
            r@.filename_format == "%Y-%m-%d.md"@,
            r@.template is None,
    {
        DailyNotesSettings {
            directory: "journal".to_owned(),
            filename_format: "%Y-%m-%d.md".to_owned(),
            template: None,
        }
    }
}

/// Daily-note settings, as values.
pub struct DailyNotesSettingsView {
    pub directory: Seq<char>,
    pub filename_format: Seq<char>,
    pub template: Option<Seq<char>>,
}

impl View for DailyNotesSettings {
    type V = DailyNotesSettingsView;

    open spec fn view(&self) -> DailyNotesSettingsView {
        DailyNotesSettingsView {
            directory: self.directory@,
            filename_format: self.filename_format@,
            template: match self.template {
                Some(t) => Some(t@),
                None => None,
            },
        }
    }
}

/// The name of the daily-note folder setting.
pub open spec fn directory_setting() -> Seq<char> {
    "zednotes.daily_notes.directory"@
}

/// The name of the daily-note file name format setting.
pub open spec fn filename_format_setting() -> Seq<char> {
    "zednotes.daily_notes.filename_format"@
}

/// The name of the daily-note template setting.
pub open spec fn template_setting() -> Seq<char> {
    "zednotes.daily_notes.template"@
}

/// The date on which a file name format is tried: 2 January 2000.
pub open spec fn example_filename(format: Seq<char>) -> Option<Seq<char>> {
    formatted_date(2000, 1, 2, format)
}

/// Whether checking `s` gets to format the example date: the folder is
/// inside the notes folder, and the format is not blank and has no invalid
/// directive.
pub open spec fn formats_example(s: DailyNotesSettingsView) -> bool {
    &&& vault_relative_path_check(s.directory, directory_setting(), true) is Ok
    &&& trim_spec(s.filename_format).len() > 0
    &&& !strftime_has_error(s.filename_format)
}

/// The check of daily-note settings: the folder must stay inside the notes
/// folder; the file name format must not be blank, must hold no invalid
/// directive, and must make, for the example date, one Markdown file name
/// inside the folder; a template must be a path inside the notes folder.
pub open spec fn daily_notes_check(s: DailyNotesSettingsView) -> Result<(), SettingsErrorView> {
    match vault_relative_path_check(s.directory, directory_setting(), true) {
        Err(e) => Err(e),
        Ok(()) => if trim_spec(s.filename_format).len() == 0 {
            Err(SettingsErrorView::Empty(filename_format_setting()))
        } else if strftime_has_error(s.filename_format) {
            Err(SettingsErrorView::InvalidDateDirective)
        } else {
            match example_filename_check(example_filename(s.filename_format)->0) {
                Err(e) => Err(e),
                Ok(()) => match s.template {
                    Some(t) => vault_relative_path_check(t, template_setting(), false),
                    None => Ok(()),
                },
            }
        },
    }
}

/// The check on the file name that the name format gives for the example
/// date: a path inside the notes folder, of one component, naming a
/// Markdown note.
pub open spec fn example_filename_check(example: Seq<char>) -> Result<(), SettingsErrorView> {
    match vault_relative_path_check(example, filename_format_setting(), false) {
        Err(e) => Err(e),
        Ok(()) => if path_components(example).len() != 1 {
            Err(SettingsErrorView::NotOneFilename)
        } else if !is_note_spec(example) {
            Err(SettingsErrorView::NotMarkdownFilename)
        } else {
            Ok(())
        },
    }
}

/// Checks the file name that the name format gives for the example date,
/// already formatted (see [`example_filename_check`]).
pub fn check_example_filename(example: &str) -> (r: Result<(), SettingsError>)
    ensures
        check_view(r) == example_filename_check(example@),
{
    match validate_vault_relative_path(example, "zednotes.daily_notes.filename_format", false) {
        Err(e) => return Err(e),
        Ok(()) => {},
    }
    if components(example).len() != 1 {
        return Err(SettingsError::NotOneFilename);
    }
    if !is_markdown_path(example) {
        return Err(SettingsError::NotMarkdownFilename);
    }
    Ok(())
}

/// Checks daily-note settings (see [`daily_notes_check`]). Settings whose
/// format `chrono` cannot apply to the example date, though it finds no
/// invalid directive in it, are outside what this accepts.
pub fn validate_daily_notes_settings(settings: &DailyNotesSettings) -> (r: Result<
    (),
    SettingsError,
>)
    requires
        formats_example(settings@) ==> example_filename(settings@.filename_format) is Some,
    ensures
        check_view(r) == daily_notes_check(settings@),
{
    let directory = "zednotes.daily_notes.directory";
    let format_setting = "zednotes.daily_notes.filename_format";
    match validate_vault_relative_path(settings.directory.as_str(), directory, true) {
        Err(e) => return Err(e),
        Ok(()) => {},
    }
    if trim(settings.filename_format.as_str()).is_empty() {
        return Err(SettingsError::Empty { setting: format_setting.to_owned() });
    }
    if has_invalid_date_directive(settings.filename_format.as_str()) {
        return Err(SettingsError::InvalidDateDirective);
    }
    let example = match format_date(2000, 1, 2, settings.filename_format.as_str()) {
        Some(e) => e,
        None => {
            assert(false);
            return Err(SettingsError::InvalidDateDirective);
        },
    };
    match check_example_filename(example.as_str()) {
        Err(e) => return Err(e),
        Ok(()) => {},
    }
    match &settings.template {
        Some(template) => validate_vault_relative_path(
            template.as_str(),
            "zednotes.daily_notes.template",
            false,
        ),
        None => Ok(()),
    }
}

/// Whether checking `settings`, where it gets to format the example date,
/// can format it.
pub fn example_filename_formats(settings: &DailyNotesSettings) -> (r: bool)
    ensures
        r == (formats_example(settings@) ==> example_filename(settings@.filename_format) is Some),
{
    let formats = validate_vault_relative_path(
        settings.directory.as_str(),
        "zednotes.daily_notes.directory",
        true,
    ).is_ok() && !trim(settings.filename_format.as_str()).is_empty()
        && !has_invalid_date_directive(settings.filename_format.as_str());
    !(formats && format_date(2000, 1, 2, settings.filename_format.as_str()).is_none())
}

/// The path of the daily note for `date`, relative to the notes folder:
/// the folder, then the date formatted with the file name format.
pub open spec fn daily_note_path_spec(s: DailyNotesSettingsView, date: CalendarDate) -> Result<
    Seq<char>,
    SettingsErrorView,
> {
    match daily_notes_check(s) {
        Err(e) => Err(e),
        Ok(()) => {
            let name = formatted_date(
                date.year as int,
                date.month as int,
                date.day as int,
                s.filename_format,
            )->0;
            Ok(path_join(s.directory, name))
        },
    }
}

/// `dir` joined with `name` as `Path::join` does for a relative name: with
/// a `/` between them unless `dir` is empty or already ends with one.
pub open spec fn path_join(dir: Seq<char>, name: Seq<char>) -> Seq<char> {
    if dir.len() == 0 {
        name
    } else if dir.last() == '/' {
        dir + name
    } else {
        dir + seq!['/'] + name
    }
}

/// Whether computing the daily-note path of `date` gets to format it, and
/// `chrono` then formats it.
pub open spec fn formats_date(s: DailyNotesSettingsView, date: CalendarDate) -> bool {
    daily_notes_check(s) is Ok ==> formatted_date(
        date.year as int,
        date.month as int,
        date.day as int,
        s.filename_format,
    ) is Some
}

/// The view of a path result.
pub open spec fn path_result_view(r: Result<String, SettingsError>) -> Result<
    Seq<char>,
    SettingsErrorView,
> {
    match r {
        Ok(p) => Ok(p@),
        Err(e) => Err(e@),
    }
}

/// The path of the daily note for `date` (see [`daily_note_path_spec`]).
pub fn daily_note_relative_path(settings: &DailyNotesSettings, date: CalendarDate) -> (r: Result<
    String,
    SettingsError,
>)
    requires
        formats_example(settings@) ==> example_filename(settings@.filename_format) is Some,
        formats_date(settings@, date),
    ensures
        path_result_view(r) == daily_note_path_spec(settings@, date),
{
    match validate_daily_notes_settings(settings) {
        Err(e) => return Err(e),
        Ok(()) => {},
    }
    let name = match format_date(date.year, date.month, date.day, settings.filename_format.as_str()) {
        Some(n) => n,
        None => {
            assert(false);
            return Err(SettingsError::InvalidDateDirective);
        },
    };
    Ok(daily_note_path(settings.directory.as_str(), name.as_str()))
}

/// The daily note's path from its folder and its file name, already
/// formatted: the folder joined with the name (see [`path_join`]).
pub fn daily_note_path(directory: &str, file_name: &str) -> (r: String)
    ensures
        r@ == path_join(directory@, file_name@),
{
    let mut path = chars_of(directory);
    if path.len() > 0 && path[path.len() - 1] != '/' {
        path.push('/');
    }
    let mut rest = chars_of(file_name);
    path.append(&mut rest);
    proof {
        if directory@.len() > 0 && directory@.last() != '/' {
            assert(path@ =~= directory@ + seq!['/'] + file_name@);
        } else {
            assert(path@ =~= directory@ + file_name@);
        }
    }
    string_from_chars(path.as_slice())
}

/// The daily-note path for `date`, when `chrono` can format the dates that
/// computing it formats; `None` where it cannot.
pub fn checked_daily_note_relative_path(settings: &DailyNotesSettings, date: CalendarDate) -> (r:
    Option<Result<String, SettingsError>>)
    ensures
        match r {
            Some(p) => (formats_example(settings@) ==> example_filename(settings@.filename_format)
                is Some) && formats_date(settings@, date) && path_result_view(p)
                == daily_note_path_spec(settings@, date),
            None => !(formats_example(settings@) ==> example_filename(settings@.filename_format)
                is Some) || !formats_date(settings@, date),
        },
{
    let formats = validate_vault_relative_path(
        settings.directory.as_str(),
        "zednotes.daily_notes.directory",
        true,
    ).is_ok() && !trim(settings.filename_format.as_str()).is_empty()
        && !has_invalid_date_directive(settings.filename_format.as_str());
    if formats && format_date(2000, 1, 2, settings.filename_format.as_str()).is_none() {
        return None;
    }
    let valid = validate_daily_notes_settings(settings).is_ok();
    if valid && format_date(
        date.year,
        date.month,
        date.day,
        settings.filename_format.as_str(),
    ).is_none() {
        return None;
    }
    Some(daily_note_relative_path(settings, date))
}

/// `s` with every occurrence of `pattern` replaced by `with`, scanning
/// from the left and not overlapping, as `str::replace` does.
pub open spec fn replace_all(s: Seq<char>, pattern: Seq<char>, with: Seq<char>) -> Seq<char>
    recommends
        pattern.len() > 0,
    decreases s.len(),
{
    if s.len() < pattern.len() || pattern.len() == 0 {
        s
    } else if s.take(pattern.len() as int) == pattern {
        with + replace_all(s.skip(pattern.len() as int), pattern, with)
    } else {
        seq![s[0]] + replace_all(s.drop_first(), pattern, with)
    }
}

/// Law: text in which the pattern does not occur is left as it is.
pub proof fn law_replace_all_without_occurrence(s: Seq<char>, pattern: Seq<char>, with: Seq<char>)
    requires
        pattern.len() > 0,
        forall|i: int|
            0 <= i && i + pattern.len() <= s.len() ==> #[trigger] s.subrange(i, i + pattern.len())
                != pattern,
    ensures
        replace_all(s, pattern, with) == s,
    decreases s.len(),
{
    if s.len() >= pattern.len() {
        let n = pattern.len() as int;
        assert(s.subrange(0, 0 + n) != pattern);
        assert(s.take(n) =~= s.subrange(0, 0 + n));
        assert(s.take(n) != pattern);
        let rest = s.drop_first();
        assert forall|i: int| 0 <= i && i + pattern.len() <= rest.len() implies #[trigger] rest.subrange(
            i,
            i + pattern.len(),
        ) != pattern by {
            assert(rest.subrange(i, i + pattern.len()) =~= s.subrange(i + 1, i + 1 + pattern.len()));
        }
        law_replace_all_without_occurrence(rest, pattern, with);
        assert(seq![s[0]] + rest =~= s);
    }
}

/// Law: the leftmost occurrence of the pattern is replaced, the text before
/// it kept, and the replacing goes on after it.
pub proof fn law_replace_all_replaces_the_leftmost_occurrence(
    before: Seq<char>,
    pattern: Seq<char>,
    after: Seq<char>,
    with: Seq<char>,
)
    requires
        pattern.len() > 0,
        forall|i: int|
            0 <= i < before.len() ==> #[trigger] (before + pattern + after).subrange(
                i,
                i + pattern.len(),
            ) != pattern,
    ensures
        replace_all(before + pattern + after, pattern, with) == before + with + replace_all(
            after,
            pattern,
            with,
        ),
    decreases before.len(),
{
    let s = before + pattern + after;
    if before.len() == 0 {
        assert(s =~= pattern + after);
        assert(s.take(pattern.len() as int) =~= pattern);
        assert(s.skip(pattern.len() as int) =~= after);
        assert(before + with =~= with);
    } else {
        let n = pattern.len() as int;
        assert(s.subrange(0, 0 + n) != pattern);
        assert(s.take(n) =~= s.subrange(0, 0 + n));
        assert(s.take(n) != pattern);
        let b2 = before.drop_first();
        assert forall|i: int| 0 <= i < b2.len() implies #[trigger] (b2 + pattern + after).subrange(
            i,
            i + pattern.len(),
        ) != pattern by {
            assert((b2 + pattern + after).subrange(i, i + pattern.len()) =~= s.subrange(
                i + 1,
                i + 1 + pattern.len(),
            ));
        }
        law_replace_all_replaces_the_leftmost_occurrence(b2, pattern, after, with);
        assert(s.drop_first() =~= b2 + pattern + after);
        assert(seq![s[0]] + (b2 + with + replace_all(after, pattern, with)) =~= before + with
            + replace_all(after, pattern, with));
    }
}

/// Replaces every occurrence of the non-empty `pattern` in `s` (see
/// [`replace_all`]).
fn replace_chars(s: &Vec<char>, pattern: &[char], with: &[char]) -> (r: Vec<char>)
    requires
        pattern.len() > 0,
    ensures
        r@ == replace_all(s@, pattern@, with@),
{
    let mut out: Vec<char> = Vec::new();
    let mut i: usize = 0;
    proof {
        assert(s@.skip(0) =~= s@);
        assert(out@ + replace_all(s@, pattern@, with@) =~= replace_all(s@, pattern@, with@));
    }
    while i < s.len()
        invariant
            i <= s.len(),
            pattern.len() > 0,
            replace_all(s@, pattern@, with@) == out@ + replace_all(s@.skip(i as int), pattern@, with@),
        decreases s.len() - i,
    {
        let ghost rest = s@.skip(i as int);
        let mut same = s.len() - i >= pattern.len();
        let mut k: usize = 0;
        while same && k < pattern.len()
            invariant
                i < s.len(),
                same ==> i + pattern.len() <= s.len(),
                k <= pattern.len(),
                same ==> forall|j: int| 0 <= j < k ==> s@[i + j] == pattern@[j],
                !same && i + pattern.len() <= s.len() ==> k < pattern.len() && s@[i + k]
                    != pattern@[k as int],
            decreases (pattern.len() - k + (if same {
                1int
            } else {
                0int
            })),
        {
            if s[i + k] != pattern[k] {
                same = false;
            } else {
                k += 1;
            }
        }
        proof {
            if same {
                assert(rest.take(pattern.len() as int) =~= pattern@);
            } else if rest.len() >= pattern.len() {
                assert(rest.take(pattern.len() as int)[k as int] == s@[i + k]);
                assert(rest.take(pattern.len() as int) != pattern@);
            }
        }
        if same {
            let mut j: usize = 0;
            let ghost base = out@;
            while j < with.len()
                invariant
                    j <= with.len(),
                    out@ == base + with@.take(j as int),
                decreases with.len() - j,
            {
                out.push(with[j]);
                assert(with@.take(j + 1) =~= with@.take(j as int).push(with@[j as int]));
                j += 1;
            }
            proof {
                assert(with@.take(with.len() as int) =~= with@);
                assert(rest.skip(pattern.len() as int) =~= s@.skip(i + pattern.len()));
                assert(base + (with@ + replace_all(s@.skip(i + pattern.len()), pattern@, with@))
                    =~= out@ + replace_all(s@.skip(i + pattern.len()), pattern@, with@));
            }
            i += pattern.len();
        } else {
            out.push(s[i]);
            proof {
                assert(rest.drop_first() =~= s@.skip(i + 1));
                assert(rest[0] == s@[i as int]);
                assert(out@.drop_last() + (seq![s@[i as int]] + replace_all(
                    s@.skip(i + 1),
                    pattern@,
                    with@,
                )) =~= out@ + replace_all(s@.skip(i + 1), pattern@, with@));
            }
            i += 1;
        }
    }
    proof {
        assert(s@.skip(i as int) =~= Seq::<char>::empty());
        assert(out@ + Seq::<char>::empty() =~= out@);
    }
    out
}

/// A daily note made from `template`: `{{date}}` becomes the date as
/// `%Y-%m-%d`, then `{{datetime}}` becomes `datetime`, then `{{title}}`
/// becomes the file stem of the note's path (the date when it has none).
pub open spec fn render_template_spec(
    template: Seq<char>,
    date: Seq<char>,
    datetime: Seq<char>,
    note_path: Seq<char>,
) -> Seq<char> {
    let title = match file_stem(note_path) {
        Some(stem) => stem,
        None => date,
    };
    replace_all(
        replace_all(
            replace_all(template, "{{date}}"@, date),
            "{{datetime}}"@,
            datetime,
        ),
        "{{title}}"@,
        title,
    )
}

/// `%Y-%m-%d`, the format of the date placed in a daily note.
pub open spec fn iso_date_format() -> Seq<char> {
    "%Y-%m-%d"@
}

/// Fills a daily-note template (see [`render_template_spec`]) with the
/// date already written as `date_text`.
pub fn render_template(template: &str, date_text: &str, datetime: &str, note_path: &str) -> (r:
    String)
    ensures
        r@ == render_template_spec(template@, date_text@, datetime@, note_path@),
{
    let date_chars = chars_of(date_text);
    let title = match file_stem_chars(note_path) {
        Some(stem) => stem,
        None => chars_of(date_text),
    };
    let datetime_chars = chars_of(datetime);
    let text = chars_of(template);
    let date_key = chars_of("{{date}}");
    let datetime_key = chars_of("{{datetime}}");
    let title_key = chars_of("{{title}}");
    proof {
        reveal_strlit("{{date}}");
        reveal_strlit("{{datetime}}");
        reveal_strlit("{{title}}");
    }
    let step1 = replace_chars(&text, date_key.as_slice(), date_chars.as_slice());
    let step2 = replace_chars(&step1, datetime_key.as_slice(), datetime_chars.as_slice());
    let step3 = replace_chars(&step2, title_key.as_slice(), title.as_slice());
    string_from_chars(step3.as_slice())
}

/// Fills a daily-note template (see [`render_template_spec`]) for the note
/// at `note_path` on `date`.
pub fn render_daily_note_template(
    template: &str,
    date: CalendarDate,
    datetime: &str,
    note_path: &str,
) -> (r: String)
    requires
        formatted_date(date.year as int, date.month as int, date.day as int, iso_date_format())
            is Some,
    ensures
        r@ == render_template_spec(
            template@,
            formatted_date(
                date.year as int,
                date.month as int,
                date.day as int,
                iso_date_format(),
            )->0,
            datetime@,
            note_path@,
        ),
{
    let date_text = match format_date(date.year, date.month, date.day, "%Y-%m-%d") {
        Some(d) => d,
        None => {
            assert(false);
            String::new()
        },
    };
    render_template(template, date_text.as_str(), datetime, note_path)
}

/// The filled daily-note template, when `chrono` can format `date`;
/// `None` where it cannot.
pub fn checked_render_daily_note_template(
    template: &str,
    date: CalendarDate,
    datetime: &str,
    note_path: &str,
) -> (r: Option<String>)
    ensures
        match r {
            Some(s) => formatted_date(
                date.year as int,
                date.month as int,
                date.day as int,
                iso_date_format(),
            ) is Some && s@ == render_template_spec(
                template@,
                formatted_date(
                    date.year as int,
                    date.month as int,
                    date.day as int,
                    iso_date_format(),
                )->0,
                datetime@,
                note_path@,
            ),
            None => formatted_date(
                date.year as int,
                date.month as int,
                date.day as int,
                iso_date_format(),
            ) is None,
        },
{
    if format_date(date.year, date.month, date.day, "%Y-%m-%d").is_none() {
        return None;
    }
    Some(render_daily_note_template(template, date, datetime, note_path))
}

} // verus!
