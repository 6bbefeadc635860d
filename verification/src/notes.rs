//! Rules of the notes application that read and write note text and note
//! file names: word and character statistics, Markdown file names, folder
//! exclusion globs, and paths that must stay inside the notes folder.

use std::ops::Range;

use vstd::prelude::*;
use vstd::utf8::*;
use crate::paths::{is_markdown_path, is_note_spec, path_components, ComponentView, PathComponent};
use crate::text::{
    byte_len, char_is_alphanumeric, chars_byte_len, chars_of, decimal, is_alphanumeric,
    is_whitespace, is_whitespace_spec, lemma_byte_len_split, lemma_trim_byte_len, push_decimal,
    string_from_chars, trim_bounds, trim_end_len, trim_end_spec, trim_spec, trim_start_spec,
};

verus! {

/// Whether the run of non-whitespace characters at the end of `s` holds an
/// alphanumeric character.
pub open spec fn last_token_has_alnum(s: Seq<char>) -> bool
    decreases s.len(),
{
    s.len() > 0 && !is_whitespace_spec(s.last()) && (char_is_alphanumeric(s.last())
        || last_token_has_alnum(s.drop_last()))
}

/// The number of whitespace-separated tokens of `s` that hold an
/// alphanumeric character: a token counts once, where it first becomes one
/// that holds such a character.
pub open spec fn word_count(s: Seq<char>) -> nat
    decreases s.len(),
{
    if s.len() == 0 {
        0
    } else {
        word_count(s.drop_last()) + if last_token_has_alnum(s) && !last_token_has_alnum(
            s.drop_last(),
        ) {
            1nat
        } else {
            0nat
        }
    }
}

/// The words and characters of a note.
#[derive(Clone, Copy, Debug, Default, PartialEq, Eq)]
pub struct NoteStatistics {
    pub words: usize,
    pub characters: usize,
}

/// Counts the words (whitespace-separated tokens with a letter or digit)
/// and the characters of a note.
pub fn note_statistics(text: &str) -> (r: NoteStatistics)
    ensures
        r.words == word_count(text@),
        r.characters == text@.len(),
{
    let chars = chars_of(text);
    let mut words: usize = 0;
    let mut in_word = false;
    let mut i: usize = 0;
    while i < chars.len()
        invariant
            i <= chars.len(),
            chars@ == text@,
            words <= i,
            words == word_count(chars@.take(i as int)),
            in_word == last_token_has_alnum(chars@.take(i as int)),
        decreases chars.len() - i,
    {
        let c = chars[i];
        proof {
            assert(chars@.take(i + 1).drop_last() =~= chars@.take(i as int));
            assert(chars@.take(i + 1).last() == c);
        }
        if is_whitespace(c) {
            in_word = false;
        } else if !in_word && is_alphanumeric(c) {
            in_word = true;
            words += 1;
        }
        i += 1;
    }
    assert(chars@.take(chars.len() as int) =~= chars@);
    NoteStatistics { words, characters: chars.len() }
}

/// ` words · `
pub open spec fn words_label() -> Seq<char> {
    seq![' ', 'w', 'o', 'r', 'd', 's', ' ', '\u{b7}', ' ']
}

/// ` characters`
pub open spec fn characters_label() -> Seq<char> {
    seq![' ', 'c', 'h', 'a', 'r', 'a', 'c', 't', 'e', 'r', 's']
}

/// Appends the characters of `label` to `out`.
fn push_label(out: &mut Vec<char>, label: &[char])
    ensures
        final(out)@ == old(out)@ + label@,
{
    let mut i: usize = 0;
    while i < label.len()
        invariant
            i <= label.len(),
            out@ == old(out)@ + label@.take(i as int),
        decreases label.len() - i,
    {
        out.push(label[i]);
        assert(label@.take(i + 1) =~= label@.take(i as int).push(label@[i as int]));
        i += 1;
    }
    assert(label@.take(label.len() as int) =~= label@);
}

/// The status message for a note: `"{words} words · {characters}
/// characters"`.
pub fn note_statistics_message(text: &str) -> (r: String)
    ensures
        r@ == decimal(word_count(text@)) + words_label() + decimal(text@.len())
            + characters_label(),
{
    let statistics = note_statistics(text);
    let mut out: Vec<char> = Vec::new();
    push_decimal(&mut out, statistics.words as u128);
    let words = [' ', 'w', 'o', 'r', 'd', 's', ' ', '\u{b7}', ' '];
    assert(words@ =~= words_label());
    push_label(&mut out, &words);
    push_decimal(&mut out, statistics.characters as u128);
    let characters = [' ', 'c', 'h', 'a', 'r', 'a', 'c', 't', 'e', 'r', 's'];
    assert(characters@ =~= characters_label());
    push_label(&mut out, &characters);
    assert(out@ =~= decimal(word_count(text@)) + words_label() + decimal(text@.len())
        + characters_label());
    string_from_chars(out.as_slice())
}

/// The file name for a new note: `filename` itself when it already names a
/// Markdown file, else `filename` with `.md` added.
pub fn markdown_note_filename(filename: &str) -> (r: String)
    ensures
        r@ == if is_note_spec(filename@) {
            filename@
        } else {
            filename@ + seq!['.', 'm', 'd']
        },
{
    let mut chars = chars_of(filename);
    if !is_markdown_path(filename) {
        chars.push('.');
        chars.push('m');
        chars.push('d');
        assert(chars@ =~= filename@ + seq!['.', 'm', 'd']);
    }
    string_from_chars(chars.as_slice())
}

/// The glob that excludes `path` from the notes explorer: `path` itself
/// when it holds `/`, `*` or `?`, else `**/` and `path`, which matches it
/// in any folder.
pub open spec fn exclusion_glob_spec(path: Seq<char>) -> Seq<char> {
    if path.contains('/') || path.contains('*') || path.contains('?') {
        path
    } else {
        seq!['*', '*', '/'] + path
    }
}

/// The explorer exclusion glob for a configured excluded path.
pub fn exclusion_glob(path: &str) -> (r: String)
    ensures
        r@ == exclusion_glob_spec(path@),
{
    let chars = chars_of(path);
    let mut i: usize = 0;
    while i < chars.len()
        invariant
            i <= chars.len(),
            chars@ == path@,
            forall|j: int| 0 <= j < i ==> chars@[j] != '/' && chars@[j] != '*' && chars@[j] != '?',
        decreases chars.len() - i,
    {
        let c = chars[i];
        if c == '/' || c == '*' || c == '?' {
            assert(path@.contains(path@[i as int]));
            return string_from_chars(chars.as_slice());
        }
        i += 1;
    }
    let mut out: Vec<char> = vec!['*', '*', '/'];
    let mut rest = chars;
    out.append(&mut rest);
    assert(out@ =~= seq!['*', '*', '/'] + path@);
    string_from_chars(out.as_slice())
}

/// The text that replaces a front-matter `lastUpdated` value: the new
/// timestamp, inside the quote the old value had, if any.
pub fn last_updated_replacement(quote: Option<char>, timestamp: &str) -> (r: String)
    ensures
        r@ == match quote {
            Some(q) => seq![q] + timestamp@ + seq![q],
            None => timestamp@,
        },
{
    let mut chars = chars_of(timestamp);
    match quote {
        Some(q) => {
            let mut out: Vec<char> = vec![q];
            out.append(&mut chars);
            out.push(q);
            assert(out@ =~= seq![q] + timestamp@ + seq![q]);
            string_from_chars(out.as_slice())
        },
        None => string_from_chars(chars.as_slice()),
    }
}

/// Whether a note has unsaved edits.
#[derive(Clone, Copy, Debug, Default, PartialEq, Eq)]
pub enum NoteSaveState {
    #[default]
    Saved,
    Modified,
}

impl NoteSaveState {
    /// The status-bar label of the state.
    pub fn label(self) -> (r: &'static str)
        ensures
            r@ == match self {
                NoteSaveState::Saved => seq!['S', 'a', 'v', 'e', 'd'],
                NoteSaveState::Modified => seq!['M', 'o', 'd', 'i', 'f', 'i', 'e', 'd'],
            },
    {
        match self {
            NoteSaveState::Saved => {
                proof {
                    reveal_strlit("Saved");
                }
                "Saved"
            },
            NoteSaveState::Modified => {
                proof {
                    reveal_strlit("Modified");
                }
                "Modified"
            },
        }
    }
}

/// Why a setting was refused.
#[derive(Debug, PartialEq, Eq)]
pub enum SettingsError {
    /// The named setting is empty or only whitespace.
    Empty { setting: String },
    /// The named setting is not a relative path of plain names.
    OutsideNotesFolder { setting: String },
    /// The daily-note file name format holds an invalid date directive.
    InvalidDateDirective,
    /// The daily-note file name format makes more than one path component.
    NotOneFilename,
    /// The daily-note file name format makes a file name without a
    /// Markdown extension.
    NotMarkdownFilename,
    /// The settings document is not an object, or a setting in it holds a
    /// value of the wrong kind or out of range.
    InvalidValue,
    /// The Vim leader key is empty or holds whitespace.
    InvalidLeader,
    /// The named setting must be greater than zero.
    NotPositive { setting: String },
}

/// A setting error, as a value.
pub enum SettingsErrorView {
    Empty(Seq<char>),
    OutsideNotesFolder(Seq<char>),
    InvalidDateDirective,
    NotOneFilename,
    NotMarkdownFilename,
    InvalidValue,
    InvalidLeader,
    NotPositive(Seq<char>),
}

impl View for SettingsError {
    type V = SettingsErrorView;

    open spec fn view(&self) -> SettingsErrorView {
        match self {
            SettingsError::Empty { setting } => SettingsErrorView::Empty(setting@),
            SettingsError::OutsideNotesFolder { setting } => SettingsErrorView::OutsideNotesFolder(
                setting@,
            ),
            SettingsError::InvalidDateDirective => SettingsErrorView::InvalidDateDirective,
            SettingsError::NotOneFilename => SettingsErrorView::NotOneFilename,
            SettingsError::NotMarkdownFilename => SettingsErrorView::NotMarkdownFilename,
            SettingsError::InvalidValue => SettingsErrorView::InvalidValue,
            SettingsError::InvalidLeader => SettingsErrorView::InvalidLeader,
            SettingsError::NotPositive { setting } => SettingsErrorView::NotPositive(setting@),
        }
    }
}

/// Whether every component of `c` is a plain name.
pub open spec fn all_normal(c: Seq<ComponentView>) -> bool {
    forall|i: int| 0 <= i < c.len() ==> (#[trigger] c[i]) is Normal
}

/// The check of a setting that names a path inside the notes folder: it
/// must not be blank unless `allow_empty`, must not start at the root, and
/// must be made of plain names only (no `.` or `..`).
pub open spec fn vault_relative_path_check(
    value: Seq<char>,
    setting: Seq<char>,
    allow_empty: bool,
) -> Result<(), SettingsErrorView> {
    if !allow_empty && trim_spec(value).len() == 0 {
        Err(SettingsErrorView::Empty(setting))
    } else if (value.len() > 0 && value[0] == '/') || !all_normal(path_components(value)) {
        Err(SettingsErrorView::OutsideNotesFolder(setting))
    } else {
        Ok(())
    }
}

/// The view of a settings check result.
pub open spec fn check_view(r: Result<(), SettingsError>) -> Result<(), SettingsErrorView> {
    match r {
        Ok(()) => Ok(()),
        Err(e) => Err(e@),
    }
}

/// Checks a setting that names a path inside the notes folder (see
/// [`vault_relative_path_check`]).
pub fn validate_vault_relative_path(value: &str, setting_name: &str, allow_empty: bool) -> (r:
    Result<(), SettingsError>)
    ensures
        check_view(r) == vault_relative_path_check(value@, setting_name@, allow_empty),
{
    if !allow_empty && crate::text::trim(value).is_empty() {
        return Err(SettingsError::Empty { setting: setting_name.to_owned() });
    }
    let chars = chars_of(value);
    let comps = crate::paths::components(value);
    let mut all_plain = true;
    let mut i: usize = 0;
    while i < comps.len()
        invariant
            i <= comps.len(),
            crate::paths::components_view(comps@) == path_components(value@),
            all_plain == forall|j: int|
                0 <= j < i ==> (#[trigger] path_components(value@)[j]) is Normal,
        decreases comps.len() - i,
    {
        assert(path_components(value@)[i as int] == comps@[i as int]@);
        match &comps[i] {
            PathComponent::Normal(_) => {},
            _ => {
                all_plain = false;
            },
        }
        i += 1;
    }
    if (chars.len() > 0 && chars[0] == '/') || !all_plain {
        return Err(SettingsError::OutsideNotesFolder { setting: setting_name.to_owned() });
    }
    Ok(())
}

/// The number of characters of the first line of `s`, its newline
/// included.
pub open spec fn line_length(s: Seq<char>) -> nat
    decreases s.len(),
{
    if s.len() == 0 {
        0
    } else if s[0] == '\n' {
        1
    } else {
        1 + line_length(s.drop_first())
    }
}

/// A non-empty text's first line has at least one character and at most
/// all of them.
pub proof fn lemma_line_length_bounds(s: Seq<char>)
    ensures
        line_length(s) <= s.len(),
        s.len() > 0 ==> line_length(s) >= 1,
    decreases s.len(),
{
    if s.len() > 0 && s[0] != '\n' {
        lemma_line_length_bounds(s.drop_first());
    }
}

/// `s` without its trailing carriage returns and newlines.
pub open spec fn trim_line_end(s: Seq<char>) -> Seq<char>
    decreases s.len(),
{
    if s.len() > 0 && (s.last() == '\r' || s.last() == '\n') {
        trim_line_end(s.drop_last())
    } else {
        s
    }
}

/// `---`, the line that opens and closes front matter.
pub open spec fn front_matter_fence() -> Seq<char> {
    seq!['-', '-', '-']
}

/// `lastUpdated:`, the key of the front-matter timestamp.
pub open spec fn last_updated_key() -> Seq<char> {
    seq!['l', 'a', 's', 't', 'U', 'p', 'd', 'a', 't', 'e', 'd', ':']
}

/// The result of looking for the `lastUpdated` value of a note's front
/// matter.
pub enum LastUpdatedScan {
    /// The value's byte range and the quote that surrounds it, if any.
    Found(nat, nat, Option<char>),
    /// No front matter, no closing fence, no `lastUpdated:` line, or more
    /// than one.
    Absent,
    /// A `lastUpdated:` line whose value is whitespace only, so that its
    /// trimmed start lies after its trimmed end.
    BlankValue,
}

/// The value of the `lastUpdated:` line `content`, which starts at byte
/// `offset` of the note: its trimmed byte range, and the quote character
/// when the trimmed value starts and ends with the same `'` or `"`.
pub open spec fn last_updated_value(content: Seq<char>, offset: nat) -> LastUpdatedScan {
    let value = content.skip(12);
    let start = offset + 12 + (byte_len(value) - byte_len(trim_start_spec(value)));
    let end = offset + byte_len(content) - (byte_len(value) - byte_len(trim_end_spec(value)));
    if start > end {
        LastUpdatedScan::BlankValue
    } else {
        let old = trim_spec(value);
        LastUpdatedScan::Found(
            start as nat,
            end as nat,
            if old.len() > 0 && old[0] == old.last() && (old[0] == '\'' || old[0] == '"') {
                Some(old[0])
            } else {
                None
            },
        )
    }
}

/// Scans the front-matter lines in `rest`, which starts at byte `offset`,
/// with the `lastUpdated:` value `found` so far, up to the closing fence.
pub open spec fn scan_front_matter(
    rest: Seq<char>,
    offset: nat,
    found: Option<(nat, nat, Option<char>)>,
) -> LastUpdatedScan
    decreases rest.len(),
{
    if rest.len() == 0 {
        LastUpdatedScan::Absent
    } else {
        let line = rest.take(line_length(rest) as int);
        let content = trim_line_end(line);
        proof {
            lemma_line_length_bounds(rest);
        }
        if content == front_matter_fence() {
            match found {
                Some((start, end, quote)) => LastUpdatedScan::Found(start, end, quote),
                None => LastUpdatedScan::Absent,
            }
        } else if content.len() >= 12 && content.take(12) == last_updated_key() {
            if found is Some {
                LastUpdatedScan::Absent
            } else {
                match last_updated_value(content, offset) {
                    LastUpdatedScan::Found(start, end, quote) => scan_front_matter(
                        rest.skip(line.len() as int),
                        offset + byte_len(line),
                        Some((start, end, quote)),
                    ),
                    other => other,
                }
            }
        } else {
            scan_front_matter(rest.skip(line.len() as int), offset + byte_len(line), found)
        }
    }
}

/// The `lastUpdated:` value of a note's front matter: the note must open
/// with a `---` line, the key must start a line before the closing `---`,
/// and it must occur once.
pub open spec fn last_updated_scan(text: Seq<char>) -> LastUpdatedScan {
    if text.len() == 0 {
        LastUpdatedScan::Absent
    } else {
        let line = text.take(line_length(text) as int);
        if trim_line_end(line) != front_matter_fence() {
            LastUpdatedScan::Absent
        } else {
            scan_front_matter(text.skip(line.len() as int), byte_len(line), None)
        }
    }
}

/// The index just past the line of `chars` that starts at `from`.
fn line_end_at(chars: &Vec<char>, from: usize) -> (r: usize)
    requires
        from < chars.len(),
    ensures
        r - from == line_length(chars@.skip(from as int)),
        from < r <= chars.len(),
{
    let mut i: usize = from;
    while i < chars.len() && chars[i] != '\n'
        invariant
            from <= i <= chars.len(),
            forall|j: int| from <= j < i ==> chars@[j] != '\n',
        decreases chars.len() - i,
    {
        i += 1;
    }
    let end = if i < chars.len() {
        i + 1
    } else {
        i
    };
    proof {
        lemma_line_length_at(chars@.skip(from as int), (i - from) as int);
    }
    end
}

proof fn lemma_line_length_at(s: Seq<char>, k: int)
    requires
        0 <= k <= s.len(),
        forall|j: int| 0 <= j < k ==> s[j] != '\n',
        k < s.len() ==> s[k] == '\n',
    ensures
        line_length(s) == if k < s.len() {
            k + 1
        } else {
            k
        },
    decreases k,
{
    if k > 0 {
        assert forall|j: int| 0 <= j < k - 1 implies s.drop_first()[j] != '\n' by {
            assert(s.drop_first()[j] == s[j + 1]);
        }
        lemma_line_length_at(s.drop_first(), k - 1);
    }
}

/// The end of `chars[from..to]` without its trailing `\r` and `\n`.
fn trim_line_end_at(chars: &Vec<char>, from: usize, to: usize) -> (r: usize)
    requires
        from <= to <= chars.len(),
    ensures
        from <= r <= to,
        trim_line_end(chars@.subrange(from as int, to as int)) == chars@.subrange(
            from as int,
            r as int,
        ),
{
    let mut e: usize = to;
    while e > from && (chars[e - 1] == '\r' || chars[e - 1] == '\n')
        invariant
            from <= e <= to <= chars.len(),
            trim_line_end(chars@.subrange(from as int, to as int)) == trim_line_end(
                chars@.subrange(from as int, e as int),
            ),
        decreases e,
    {
        assert(chars@.subrange(from as int, e as int).drop_last() =~= chars@.subrange(
            from as int,
            e - 1,
        ));
        e -= 1;
    }
    e
}

/// Whether `chars[from..to]` is `word`.
fn chars_equal_at(chars: &Vec<char>, from: usize, to: usize, word: &[char]) -> (r: bool)
    requires
        from <= to <= chars.len(),
    ensures
        r == (chars@.subrange(from as int, to as int) == word@),
{
    if to - from != word.len() {
        return false;
    }
    let mut k: usize = 0;
    while k < word.len()
        invariant
            to - from == word.len(),
            from <= to <= chars.len(),
            k <= word.len(),
            forall|j: int| 0 <= j < k ==> chars@[from + j] == word@[j],
        decreases word.len() - k,
    {
        if chars[from + k] != word[k] {
            assert(chars@.subrange(from as int, to as int)[k as int] != word@[k as int]);
            return false;
        }
        k += 1;
    }
    assert(chars@.subrange(from as int, to as int) =~= word@);
    true
}

/// The characters `chars[from..to]`.
fn chars_range(chars: &Vec<char>, from: usize, to: usize) -> (r: Vec<char>)
    requires
        from <= to <= chars.len(),
    ensures
        r@ == chars@.subrange(from as int, to as int),
{
    let mut r: Vec<char> = Vec::new();
    let mut i: usize = from;
    while i < to
        invariant
            from <= i <= to <= chars.len(),
            r@ == chars@.subrange(from as int, i as int),
        decreases to - i,
    {
        r.push(chars[i]);
        assert(chars@.subrange(from as int, i + 1) =~= chars@.subrange(from as int, i as int).push(
            chars@[i as int],
        ));
        i += 1;
    }
    r
}

/// The `lastUpdated:` value of the line content `chars[from..to]`, which
/// starts at byte `offset` of the note (see [`last_updated_value`]).
fn last_updated_value_at(chars: &Vec<char>, from: usize, to: usize, offset: usize) -> (r: (
    usize,
    usize,
    Option<char>,
))
    requires
        from + 12 <= to <= chars.len(),
        chars@.subrange(from as int, from + 12) == last_updated_key(),
        byte_len(last_updated_key()) == 12,
        offset + byte_len(chars@.subrange(from as int, to as int)) <= usize::MAX,
        byte_len(chars@) <= usize::MAX,
        !(last_updated_value(chars@.subrange(from as int, to as int), offset as nat) is BlankValue),
    ensures
        last_updated_value(chars@.subrange(from as int, to as int), offset as nat)
            == LastUpdatedScan::Found(r.0 as nat, r.1 as nat, r.2),
{
    let ghost content = chars@.subrange(from as int, to as int);
    let value = chars_range(chars, from + 12, to);
    let (ts, te) = trim_bounds(&value);
    let tend = trim_end_len(&value);
    proof {
        assert(value@ =~= content.skip(12));
        assert(content.take(12) =~= chars@.subrange(from as int, from + 12));
        lemma_byte_len_split(content, 12);
        lemma_byte_len_split(value@, ts as int);
        lemma_byte_len_split(value@, tend as int);
        lemma_byte_len_split(chars@, from as int);
        lemma_byte_len_split(chars@.skip(from as int), (to - from) as int);
        assert(chars@.skip(from as int).take((to - from) as int) =~= content);
        assert(value@.subrange(0, tend as int) =~= value@.take(tend as int));
        assert(value@.subrange(ts as int, value.len() as int) =~= value@.skip(ts as int));
        assert(value@.subrange(0, value.len() as int) =~= value@);
    }
    let vb = chars_byte_len(&value, 0, value.len());
    let lead = vb - chars_byte_len(&value, ts, value.len());
    let trail = vb - chars_byte_len(&value, 0, tend);
    let cb = chars_byte_len(chars, from, to);
    let start = offset + 12 + lead;
    let end = offset + cb - trail;
    let quote = if te > ts && value[ts] == value[te - 1] && (value[ts] == '\'' || value[ts] == '"') {
        Some(value[ts])
    } else {
        None
    };
    (start, end, quote)
}

/// The view of the value found so far.
pub open spec fn found_view(f: Option<(usize, usize, Option<char>)>) -> Option<(nat, nat, Option<char>)> {
    match f {
        Some((start, end, quote)) => Some((start as nat, end as nat, quote)),
        None => None,
    }
}

/// The byte range of the `lastUpdated:` value in a note's front matter and
/// the quote around it, if any (see [`last_updated_scan`]). A value that is
/// whitespace only is outside what this accepts.
pub fn frontmatter_last_updated_range(text: &str) -> (r: Option<(Range<usize>, Option<char>)>)
    requires
        !(last_updated_scan(text@) is BlankValue),
    ensures
        match r {
            Some((range, quote)) => last_updated_scan(text@) == LastUpdatedScan::Found(
                range.start as nat,
                range.end as nat,
                quote,
            ),
            None => last_updated_scan(text@) is Absent,
        },
{
    let chars = chars_of(text);
    let total = text.as_bytes().len();
    assert(byte_len(chars@) == total);
    let n = chars.len();
    if n == 0 {
        return None;
    }
    let first_end = line_end_at(&chars, 0);
    let content_end = trim_line_end_at(&chars, 0, first_end);
    let fence = ['-', '-', '-'];
    assert(fence@ =~= front_matter_fence());
    assert(chars@.skip(0) =~= chars@);
    assert(chars@.take(first_end as int) =~= chars@.subrange(0, first_end as int));
    if !chars_equal_at(&chars, 0, content_end, &fence) {
        return None;
    }
    let key = ['l', 'a', 's', 't', 'U', 'p', 'd', 'a', 't', 'e', 'd', ':'];
    assert(key@ =~= last_updated_key());
    proof {
        is_ascii_chars_encode_utf8(last_updated_key());
    }
    let mut offset = chars_byte_len(&chars, 0, first_end);
    let mut i = first_end;
    let mut found: Option<(usize, usize, Option<char>)> = None;
    proof {
        lemma_byte_len_split(chars@, i as int);
    }
    while i < n
        invariant
            i <= n == chars.len(),
            chars@ == text@,
            byte_len(chars@) == total,
            fence@ == front_matter_fence(),
            key@ == last_updated_key(),
            byte_len(last_updated_key()) == 12,
            offset == byte_len(chars@.take(i as int)),
            offset + byte_len(chars@.skip(i as int)) == total,
            scan_front_matter(chars@.skip(i as int), offset as nat, found_view(found))
                == last_updated_scan(text@),
            !(last_updated_scan(text@) is BlankValue),
        decreases n - i,
    {
        let le = line_end_at(&chars, i);
        let ce = trim_line_end_at(&chars, i, le);
        let ghost rest = chars@.skip(i as int);
        let ghost line = chars@.subrange(i as int, le as int);
        let ghost content = chars@.subrange(i as int, ce as int);
        proof {
            assert(rest.take(line_length(rest) as int) =~= line);
            assert(rest.skip(line.len() as int) =~= chars@.skip(le as int));
            lemma_byte_len_split(rest, (le - i) as int);
            assert(rest.take((le - i) as int) =~= line);
            lemma_byte_len_split(chars@.take(le as int), i as int);
            assert(chars@.take(le as int).take(i as int) =~= chars@.take(i as int));
            assert(chars@.take(le as int).skip(i as int) =~= line);
            lemma_byte_len_split(line, (ce - i) as int);
            assert(line.take((ce - i) as int) =~= content);
        }
        if chars_equal_at(&chars, i, ce, &fence) {
            return match found {
                Some((start, end, quote)) => Some((Range { start, end }, quote)),
                None => None,
            };
        }
        let ghost next_offset = (offset + byte_len(line)) as nat;
        let ghost before = found_view(found);
        let is_key = ce - i >= 12 && chars_equal_at(&chars, i, i + 12, &key);
        proof {
            if ce - i >= 12 {
                assert(content.take(12) =~= chars@.subrange(i as int, i + 12));
            }
            assert(is_key == (content.len() >= 12 && content.take(12) == last_updated_key()));
            assert(rest.len() > 0);
            assert(trim_line_end(rest.take(line_length(rest) as int)) == content);
            assert(content != front_matter_fence());
        }
        if is_key {
            if found.is_some() {
                return None;
            }
            proof {
                lemma_byte_len_split(chars@.skip(i as int), (ce - i) as int);
                assert(chars@.skip(i as int).take((ce - i) as int) =~= content);
                assert(last_updated_value(content, offset as nat) is BlankValue ==> scan_front_matter(
                    rest,
                    offset as nat,
                    before,
                ) is BlankValue);
            }
            let value_range = last_updated_value_at(&chars, i, ce, offset);
            found = Some(value_range);
            assert(scan_front_matter(rest, offset as nat, before) == scan_front_matter(
                chars@.skip(le as int),
                next_offset,
                found_view(found),
            ));
        } else {
            assert(scan_front_matter(rest, offset as nat, before) == scan_front_matter(
                chars@.skip(le as int),
                next_offset,
                before,
            ));
        }
        offset = offset + chars_byte_len(&chars, i, le);
        i = le;
    }
    assert(chars@.skip(i as int) =~= Seq::<char>::empty());
    None
}

/// Law: a note never has more words than characters.
pub proof fn law_words_never_exceed_characters(text: Seq<char>)
    ensures
        word_count(text) <= text.len(),
    decreases text.len(),
{
    if text.len() > 0 {
        law_words_never_exceed_characters(text.drop_last());
    }
}

/// Law: the exclusion glob of an exclusion glob is itself.
pub proof fn law_exclusion_glob_is_idempotent(path: Seq<char>)
    ensures
        exclusion_glob_spec(exclusion_glob_spec(path)) == exclusion_glob_spec(path),
{
    let g = exclusion_glob_spec(path);
    if !(path.contains('/') || path.contains('*') || path.contains('?')) {
        assert(g[0] == '*');
        assert(g.contains('*'));
    }
}

/// The front-matter value found by scanning `rest` lies in the scanned
/// bytes, and its quote is `'` or `"`.
proof fn lemma_scan_bounds(rest: Seq<char>, offset: nat, found: Option<(nat, nat, Option<char>)>)
    requires
        found matches Some((s, e, q)) ==> s <= e <= offset && (q matches Some(c) ==> c == '\''
            || c == '"'),
    ensures
        scan_front_matter(rest, offset, found) matches LastUpdatedScan::Found(s, e, q) ==> s <= e
            <= offset + byte_len(rest) && (q matches Some(c) ==> c == '\'' || c == '"'),
    decreases rest.len(),
{
    if rest.len() > 0 {
        lemma_line_length_bounds(rest);
        let line = rest.take(line_length(rest) as int);
        let content = trim_line_end(line);
        let next = rest.skip(line.len() as int);
        lemma_byte_len_split(rest, line.len() as int);
        lemma_trim_line_end_prefix(line);
        let k = content.len();
        lemma_byte_len_split(line, k as int);
        assert(line.take(k as int) == content);
        if content != front_matter_fence() && content.len() >= 12 && content.take(12)
            == last_updated_key() && found is None {
            let value = content.skip(12);
            lemma_byte_len_split(content, 12);
            assert(content.skip(12) == value);
            lemma_trim_byte_len(value);
            if let LastUpdatedScan::Found(s, e, q) = last_updated_value(content, offset) {
                lemma_scan_bounds(next, offset + byte_len(line), Some((s, e, q)));
            }
        } else if content != front_matter_fence() && !(content.len() >= 12 && content.take(12)
            == last_updated_key()) {
            lemma_scan_bounds(next, offset + byte_len(line), found);
        }
    }
}

proof fn lemma_trim_line_end_prefix(s: Seq<char>)
    ensures
        trim_line_end(s).len() <= s.len(),
        trim_line_end(s) == s.take(trim_line_end(s).len() as int),
    decreases s.len(),
{
    if s.len() > 0 && (s.last() == '\r' || s.last() == '\n') {
        lemma_trim_line_end_prefix(s.drop_last());
        assert(s.drop_last().take(trim_line_end(s).len() as int) =~= s.take(
            trim_line_end(s).len() as int,
        ));
    } else {
        assert(s.take(s.len() as int) =~= s);
    }
}

/// Law: a `lastUpdated` value that is found lies within the note's bytes,
/// and the quote reported around it is `'` or `"`.
pub proof fn law_last_updated_range_is_in_the_note(text: Seq<char>)
    ensures
        last_updated_scan(text) matches LastUpdatedScan::Found(start, end, quote) ==> start
            <= end <= byte_len(text) && (quote matches Some(c) ==> c == '\'' || c == '"'),
{
    if text.len() > 0 {
        lemma_line_length_bounds(text);
        let line = text.take(line_length(text) as int);
        lemma_byte_len_split(text, line.len() as int);
        lemma_scan_bounds(text.skip(line.len() as int), byte_len(line), None);
    }
}

/// The lines of `text`, each with its line end (the last one without one
/// where the text does not end in a newline).
pub open spec fn note_lines(text: Seq<char>) -> Seq<Seq<char>>
    decreases text.len(),
{
    if text.len() == 0 {
        Seq::empty()
    } else {
        proof {
            lemma_line_length_bounds(text);
        }
        seq![text.take(line_length(text) as int)] + note_lines(
            text.skip(line_length(text) as int),
        )
    }
}

/// The number of bytes of the lines `ls`.
pub open spec fn lines_byte_len(ls: Seq<Seq<char>>) -> nat
    decreases ls.len(),
{
    if ls.len() == 0 {
        0
    } else {
        lines_byte_len(ls.drop_last()) + byte_len(ls.last())
    }
}

/// Whether `line` is a `---` line.
pub open spec fn is_fence_line(line: Seq<char>) -> bool {
    trim_line_end(line) == front_matter_fence()
}

/// Whether `line` starts with `lastUpdated:`.
pub open spec fn is_last_updated_line(line: Seq<char>) -> bool {
    let content = trim_line_end(line);
    content.len() >= 12 && content.take(12) == last_updated_key()
}

/// The first line and the rest.
proof fn lemma_note_lines_first(text: Seq<char>)
    requires
        text.len() > 0,
    ensures
        note_lines(text).len() > 0,
        note_lines(text)[0] == text.take(line_length(text) as int),
        note_lines(text).drop_first() == note_lines(text.skip(line_length(text) as int)),
        1 <= line_length(text) <= text.len(),
{
    lemma_line_length_bounds(text);
    let n = line_length(text) as int;
    assert((seq![text.take(n)] + note_lines(text.skip(n))).drop_first() =~= note_lines(
        text.skip(n),
    ));
}

/// The bytes of the lines after the first.
proof fn lemma_lines_byte_len_first(ls: Seq<Seq<char>>, k: int)
    requires
        ls.len() > 0,
        0 <= k < ls.len(),
    ensures
        lines_byte_len(ls.take(k + 1)) == byte_len(ls[0]) + lines_byte_len(ls.drop_first().take(k)),
    decreases k,
{
    if k == 0 {
        assert(ls.take(1).drop_last() =~= Seq::<Seq<char>>::empty());
        assert(ls.drop_first().take(0) =~= Seq::<Seq<char>>::empty());
    } else {
        lemma_lines_byte_len_first(ls, k - 1);
        assert(ls.take(k + 1).drop_last() =~= ls.take(k));
        assert(ls.drop_first().take(k).drop_last() =~= ls.drop_first().take(k - 1));
        assert(ls.drop_first().take(k).last() == ls[k]);
    }
}

/// What scanning the front-matter lines in `rest` finds: a closing fence
/// line `l` with no fence before it, and the `lastUpdated:` value either
/// found before (and no key line before the fence) or in the one key line
/// `k` before the fence.
#[verifier::spinoff_prover]
#[verifier::rlimit(60)]
proof fn lemma_scan_found(rest: Seq<char>, offset: nat, found: Option<(nat, nat, Option<char>)>)
    ensures
        scan_front_matter(rest, offset, found) matches LastUpdatedScan::Found(s, e, q) ==> {
            let ls = note_lines(rest);
            exists|l: int|
                #![trigger ls[l]]
                0 <= l < ls.len() && is_fence_line(ls[l]) && (forall|i: int|
                    0 <= i < l ==> !is_fence_line(#[trigger] ls[i])) && ((found == Some(
                    (s, e, q),
                ) && forall|i: int| 0 <= i < l ==> !is_last_updated_line(#[trigger] ls[i])) || (
                found is None && exists|k: int|
                    0 <= k < l && is_last_updated_line(#[trigger] ls[k]) && (forall|i: int|
                        0 <= i < l && i != k ==> !is_last_updated_line(#[trigger] ls[i]))
                        && last_updated_value(
                        trim_line_end(ls[k]),
                        offset + lines_byte_len(ls.take(k)),
                    ) == LastUpdatedScan::Found(s, e, q)))
        },
    decreases rest.len(),
{
    if rest.len() > 0 {
        lemma_note_lines_first(rest);
        let line = rest.take(line_length(rest) as int);
        let content = trim_line_end(line);
        let next = rest.skip(line.len() as int);
        let ls = note_lines(rest);
        let lt = note_lines(next);
        assert(ls[0] == line);
        assert forall|i: int| 0 <= i < lt.len() implies #[trigger] ls[i + 1] == lt[i] by {
            assert(ls.drop_first()[i] == ls[i + 1]);
        }
        if let LastUpdatedScan::Found(s, e, q) = scan_front_matter(rest, offset, found) {
            if content == front_matter_fence() {
                assert(is_fence_line(ls[0]));
            } else if content.len() >= 12 && content.take(12) == last_updated_key() {
                let v = last_updated_value(content, offset);
                let f = Some((v->Found_0, v->Found_1, v->Found_2));
                lemma_scan_found(next, offset + byte_len(line), f);
                let l2 = choose|l2: int|
                    #![trigger lt[l2]]
                    0 <= l2 < lt.len() && is_fence_line(lt[l2]) && (forall|i: int|
                        0 <= i < l2 ==> !is_fence_line(#[trigger] lt[i])) && ((f == Some(
                        (s, e, q),
                    ) && forall|i: int| 0 <= i < l2 ==> !is_last_updated_line(#[trigger] lt[i])) || (
                    f is None && exists|k: int|
                        0 <= k < l2 && is_last_updated_line(#[trigger] lt[k]) && (forall|i: int|
                            0 <= i < l2 && i != k ==> !is_last_updated_line(#[trigger] lt[i]))
                            && last_updated_value(
                            trim_line_end(lt[k]),
                            offset + byte_len(line) + lines_byte_len(lt.take(k)),
                        ) == LastUpdatedScan::Found(s, e, q)));
                let l = l2 + 1;
                assert(ls[l] == lt[l2]);
                assert forall|i: int| 0 <= i < l implies !is_fence_line(#[trigger] ls[i]) by {
                    if i > 0 {
                        assert(ls[i] == lt[i - 1]);
                    }
                }
                assert(ls.take(0) =~= Seq::<Seq<char>>::empty());
                assert(is_last_updated_line(ls[0]));
                assert forall|i: int| 0 <= i < l && i != 0 implies !is_last_updated_line(
                    #[trigger] ls[i],
                ) by {
                    assert(ls[i] == lt[i - 1]);
                }
            } else {
                lemma_scan_found(next, offset + byte_len(line), found);
                let l2 = choose|l2: int|
                    #![trigger lt[l2]]
                    0 <= l2 < lt.len() && is_fence_line(lt[l2]) && (forall|i: int|
                        0 <= i < l2 ==> !is_fence_line(#[trigger] lt[i])) && ((found == Some(
                        (s, e, q),
                    ) && forall|i: int| 0 <= i < l2 ==> !is_last_updated_line(#[trigger] lt[i])) || (
                    found is None && exists|k: int|
                        0 <= k < l2 && is_last_updated_line(#[trigger] lt[k]) && (forall|i: int|
                            0 <= i < l2 && i != k ==> !is_last_updated_line(#[trigger] lt[i]))
                            && last_updated_value(
                            trim_line_end(lt[k]),
                            offset + byte_len(line) + lines_byte_len(lt.take(k)),
                        ) == LastUpdatedScan::Found(s, e, q)));
                let l = l2 + 1;
                assert(ls[l] == lt[l2]);
                assert(!is_fence_line(ls[0]) && !is_last_updated_line(ls[0]));
                assert forall|i: int| 0 <= i < l implies !is_fence_line(#[trigger] ls[i]) by {
                    if i > 0 {
                        assert(ls[i] == lt[i - 1]);
                    }
                }
                if found is Some {
                    assert forall|i: int| 0 <= i < l implies !is_last_updated_line(
                        #[trigger] ls[i],
                    ) by {
                        if i > 0 {
                            assert(ls[i] == lt[i - 1]);
                        }
                    }
                } else {
                    let k2 = choose|k: int|
                        0 <= k < l2 && is_last_updated_line(#[trigger] lt[k]) && (forall|i: int|
                            0 <= i < l2 && i != k ==> !is_last_updated_line(#[trigger] lt[i]))
                            && last_updated_value(
                            trim_line_end(lt[k]),
                            offset + byte_len(line) + lines_byte_len(lt.take(k)),
                        ) == LastUpdatedScan::Found(s, e, q);
                    let k = k2 + 1;
                    assert(ls[k] == lt[k2]);
                    lemma_lines_byte_len_first(ls, k2);
                    assert(ls.take(k2 + 1) == ls.take(k));
                    assert forall|i: int| 0 <= i < l && i != k implies !is_last_updated_line(
                        #[trigger] ls[i],
                    ) by {
                        if i > 0 {
                            assert(ls[i] == lt[i - 1]);
                        }
                    }
                }
            }
        }
    }
}

/// Law: a `lastUpdated` value is found only in front matter: the note's
/// first line is `---`, a later `---` line closes the block with no `---`
/// line between, exactly one line between them starts with `lastUpdated:`,
/// and the range and quote are those of that line's value (see
/// [`last_updated_value`]), found where the line starts.
pub proof fn law_last_updated_is_the_one_key_line_of_the_front_matter(text: Seq<char>)
    ensures
        last_updated_scan(text) matches LastUpdatedScan::Found(s, e, q) ==> {
            let ls = note_lines(text);
            &&& ls.len() > 0
            &&& is_fence_line(ls[0])
            &&& exists|l: int, k: int|
                #![trigger ls[l], ls[k]]
                0 < k < l < ls.len() && is_fence_line(ls[l]) && (forall|i: int|
                    0 < i < l ==> !is_fence_line(#[trigger] ls[i])) && is_last_updated_line(ls[k])
                    && (forall|i: int|
                    0 < i < l && i != k ==> !is_last_updated_line(#[trigger] ls[i]))
                    && last_updated_value(trim_line_end(ls[k]), lines_byte_len(ls.take(k)))
                    == LastUpdatedScan::Found(s, e, q)
        },
{
    if text.len() > 0 {
        if let LastUpdatedScan::Found(s, e, q) = last_updated_scan(text) {
            lemma_note_lines_first(text);
            let line = text.take(line_length(text) as int);
            let rest = text.skip(line.len() as int);
            let ls = note_lines(text);
            let lt = note_lines(rest);
            assert(ls[0] == line);
            assert forall|i: int| 0 <= i < lt.len() implies #[trigger] ls[i + 1] == lt[i] by {
                assert(ls.drop_first()[i] == ls[i + 1]);
            }
            lemma_scan_found(rest, byte_len(line), None);
            let l2 = choose|l2: int|
                #![trigger lt[l2]]
                0 <= l2 < lt.len() && is_fence_line(lt[l2]) && (forall|i: int|
                    0 <= i < l2 ==> !is_fence_line(#[trigger] lt[i])) && ((None::<(nat, nat, Option<char>)> == Some(
                    (s, e, q),
                ) && forall|i: int| 0 <= i < l2 ==> !is_last_updated_line(#[trigger] lt[i])) || (
                None::<(nat, nat, Option<char>)> is None && exists|k: int|
                    0 <= k < l2 && is_last_updated_line(#[trigger] lt[k]) && (forall|i: int|
                        0 <= i < l2 && i != k ==> !is_last_updated_line(#[trigger] lt[i]))
                        && last_updated_value(
                        trim_line_end(lt[k]),
                        byte_len(line) + lines_byte_len(lt.take(k)),
                    ) == LastUpdatedScan::Found(s, e, q)));
            let k2 = choose|k: int|
                0 <= k < l2 && is_last_updated_line(#[trigger] lt[k]) && (forall|i: int|
                    0 <= i < l2 && i != k ==> !is_last_updated_line(#[trigger] lt[i]))
                    && last_updated_value(
                    trim_line_end(lt[k]),
                    byte_len(line) + lines_byte_len(lt.take(k)),
                ) == LastUpdatedScan::Found(s, e, q);
            let l = l2 + 1;
            let k = k2 + 1;
            assert(ls[l] == lt[l2] && ls[k] == lt[k2]);
            lemma_lines_byte_len_first(ls, k2);
            assert(ls.take(k2 + 1) == ls.take(k));
            assert forall|i: int| 0 < i < l implies !is_fence_line(#[trigger] ls[i]) by {
                assert(ls[i] == lt[i - 1]);
            }
            assert forall|i: int| 0 < i < l && i != k implies !is_last_updated_line(
                #[trigger] ls[i],
            ) by {
                assert(ls[i] == lt[i - 1]);
            }
        }
    }
}

} // verus!
