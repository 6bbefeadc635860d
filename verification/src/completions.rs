//! Completion of wiki-link targets: which note paths are offered, under
//! which target text, and which bytes of the note the completion replaces.
//!
//! A note is offered by its bare file stem when that stem, resolved from
//! the current note among the notes sharing the stem, leads to it; else it
//! is offered by its path from the root of the notes folder.

use std::ops::Range;

use vstd::prelude::*;
use vstd::string::*;
use vstd::utf8::*;
use crate::note_links::{
    candidates, contains_components, contains_names, distinct_paths, ends_with_candidate,
    is_component_suffix, is_note, join_names, lemma_components_of_join, lookup, markdown_suffix,
    md_suffix, normalize_spec, normals, parent_components, present, replace_backslashes,
    resolve_path, resolve_path_spec, same_path, slashes, strip_root, suffix_matches, valid_name,
    valid_names, with_suffix, NotePaths,
};
use crate::paths::{
    file_name, file_stem, file_stem_chars, is_markdown_extension, is_note_spec, last_index_of,
    lemma_split_on_nonempty, name_extension, name_stem, path_components, pieces_components,
    split_on, ComponentView,
};
use crate::text::{
    chars_of, index_of, is_whitespace_spec, lemma_index_of_first, lemma_trim_end_last,
    string_from_chars, trim_end_spec, trim_spec, trim_start_spec,
};
use crate::wiki_links::{completion_range, completion_range_spec, split_target_spec};

verus! {

/// The notes among `paths` whose file stem is `stem`, in order; a path
/// with the components of one already taken is left out, as a set does.
pub open spec fn paths_with_stem(paths: Seq<Seq<char>>, stem: Seq<char>) -> Seq<Seq<char>>
    decreases paths.len(),
{
    if paths.len() == 0 {
        Seq::empty()
    } else {
        let before = paths_with_stem(paths.drop_last(), stem);
        let p = paths.last();
        if file_stem(p) == Some(stem) && !contains_components(before, path_components(p)) {
            before.push(p)
        } else {
            before
        }
    }
}

/// The text under which the note `p` is offered from the note at
/// `source`: its file stem when the stem, resolved among the notes that
/// share it, leads to `p`; else `/` and its path with forward slashes.
pub open spec fn completion_target(
    source: Seq<char>,
    p: Seq<char>,
    paths: Seq<Seq<char>>,
) -> Seq<char> {
    let rooted = seq!['/'] + slashes(p);
    match file_stem(p) {
        Some(stem) => match resolve_path_spec(source, stem, paths_with_stem(paths, stem)) {
            Ok(q) => if path_components(q) == path_components(p) {
                stem
            } else {
                rooted
            },
            Err(_) => rooted,
        },
        None => rooted,
    }
}

/// `]`, `|`, `#` or a newline: a byte that ends the target after the
/// cursor.
pub open spec fn is_completion_stop(byte: u8) -> bool {
    byte == 93u8 || byte == 124u8 || byte == 35u8 || byte == 10u8
}

/// The first stop byte at or after `from`.
pub open spec fn first_stop(bytes: Seq<u8>, from: int) -> Option<int>
    decreases bytes.len() - from,
{
    if from < 0 || from >= bytes.len() {
        None
    } else if is_completion_stop(bytes[from]) {
        Some(from)
    } else {
        first_stop(bytes, from + 1)
    }
}

/// Whether `bytes[at..]` starts with `]]`, `|` or `#`: the link after the
/// cursor is already closed or continued, so the completion must not close
/// it again.
pub open spec fn is_closed_at(bytes: Seq<u8>, at: int) -> bool {
    ||| (0 <= at && at + 1 < bytes.len() && bytes[at] == 93u8 && bytes[at + 1] == 93u8)
    ||| (0 <= at < bytes.len() && (bytes[at] == 124u8 || bytes[at] == 35u8))
}

/// Whether `bytes[from..to]` holds a `#`.
pub open spec fn has_hash(bytes: Seq<u8>, from: int, to: int) -> bool {
    exists|j: int| from <= j < to && #[trigger] bytes[j] == 35u8
}

/// One completion: the target text shown and the text inserted.
#[derive(Debug)]
pub struct NoteLinkCompletion {
    pub target: String,
    pub new_text: String,
}

/// A completion, as a value.
pub struct NoteLinkCompletionView {
    pub target: Seq<char>,
    pub new_text: Seq<char>,
}

impl View for NoteLinkCompletion {
    type V = NoteLinkCompletionView;

    open spec fn view(&self) -> NoteLinkCompletionView {
        NoteLinkCompletionView { target: self.target@, new_text: self.new_text@ }
    }
}

/// The completions for a link target being typed: the byte range they
/// replace and one item per note.
#[derive(Debug)]
pub struct NoteLinkCompletions {
    pub replace_range: Range<usize>,
    pub items: Vec<NoteLinkCompletion>,
}

/// The completions, as a value.
pub struct NoteLinkCompletionsView {
    pub start: usize,
    pub end: usize,
    pub items: Seq<NoteLinkCompletionView>,
}

impl View for NoteLinkCompletions {
    type V = NoteLinkCompletionsView;

    open spec fn view(&self) -> NoteLinkCompletionsView {
        NoteLinkCompletionsView {
            start: self.replace_range.start,
            end: self.replace_range.end,
            items: self.items@.map_values(|c: NoteLinkCompletion| c@),
        }
    }
}

/// The item offering `p`: `]]` is added unless the link is already closed.
pub open spec fn completion_item(
    source: Seq<char>,
    p: Seq<char>,
    paths: Seq<Seq<char>>,
    closed: bool,
) -> NoteLinkCompletionView {
    let target = completion_target(source, p, paths);
    NoteLinkCompletionView {
        target,
        new_text: if closed {
            target
        } else {
            target + seq![']', ']']
        },
    }
}

/// The completions for the target that starts at byte `start` of `text`
/// and is typed up to the cursor at `offset`, in the note at `source`:
/// none when the typed part holds `#` (a heading is being named). The
/// replaced range runs from `start` to the first stop byte after the
/// cursor when the link is closed or continued there, else to the cursor.
pub open spec fn completions_for_target_spec(
    source: Seq<char>,
    text: Seq<char>,
    start: int,
    offset: int,
    paths: Seq<Seq<char>>,
) -> Option<NoteLinkCompletionsView> {
    let bytes = encode_utf8(text);
    if has_hash(bytes, start, offset) {
        None
    } else {
        let stop = match first_stop(bytes, offset) {
            Some(j) => j,
            None => offset,
        };
        let closed = is_closed_at(bytes, stop);
        Some(
            NoteLinkCompletionsView {
                start: start as usize,
                end: (if closed {
                    stop
                } else {
                    offset
                }) as usize,
                items: paths.map_values(|p: Seq<char>| completion_item(source, p, paths, closed)),
            },
        )
    }
}

/// The completions at byte `offset` of the note at `source` whose text is
/// `text`: none unless `source` is a note and the cursor is in a wiki-link
/// target (see [`completion_range_spec`]).
pub open spec fn note_link_completions_spec(
    source: Seq<char>,
    text: Seq<char>,
    offset: int,
    paths: Seq<Seq<char>>,
) -> Option<NoteLinkCompletionsView> {
    if !is_note_spec(source) {
        None
    } else {
        match completion_range_spec(text, offset) {
            Some((start, end)) => completions_for_target_spec(source, text, start, end, paths),
            None => None,
        }
    }
}

/// Every path that [`paths_with_stem`] keeps is one of `paths`.
proof fn lemma_paths_with_stem_from(paths: Seq<Seq<char>>, stem: Seq<char>)
    ensures
        forall|i: int|
            0 <= i < paths_with_stem(paths, stem).len() ==> exists|k: int|
                0 <= k < paths.len() && #[trigger] paths_with_stem(paths, stem)[i] == paths[k],
    decreases paths.len(),
{
    if paths.len() > 0 {
        let front = paths.drop_last();
        lemma_paths_with_stem_from(front, stem);
        let before = paths_with_stem(front, stem);
        let r = paths_with_stem(paths, stem);
        assert forall|i: int| 0 <= i < r.len() implies exists|k: int|
            0 <= k < paths.len() && #[trigger] r[i] == paths[k] by {
            if i < before.len() {
                assert(r[i] == before[i]);
                let k = choose|k: int| 0 <= k < front.len() && before[i] == front[k];
                assert(front[k] == paths[k]);
            } else {
                assert(r[i] == paths[paths.len() - 1]);
            }
        }
    }
}

/// The notes of `paths` whose file stem is `stem`.
fn paths_with_stem_exec(paths: &NotePaths, stem: &Vec<char>) -> (r: NotePaths)
    ensures
        r@ == paths_with_stem(paths@, stem@),
{
    let mut r = NotePaths::new();
    let mut j: usize = 0;
    while j < paths.len()
        invariant
            j <= paths@.len(),
            r@ == paths_with_stem(paths@.take(j as int), stem@),
        decreases paths@.len() - j,
    {
        proof {
            assert(paths@.take(j + 1).drop_last() =~= paths@.take(j as int));
            assert(paths@.take(j + 1).last() == paths@[j as int]);
        }
        let p = paths.get(j);
        proof {
            let front = paths@.take(j as int);
            lemma_paths_with_stem_from(front, stem@);
            assert forall|i: int| 0 <= i < r@.len() implies crate::paths::path_before(
                #[trigger] r@[i],
                p@,
            ) by {
                let k = choose|k: int| 0 <= k < front.len() && r@[i] == front[k];
                assert(front[k] == paths@[k]);
            }
        }
        match file_stem_chars(p.as_str()) {
            Some(s) => {
                if crate::note_links::chars_equal(&s, stem) {
                    r.insert(p.clone());
                }
            },
            None => {},
        }
        j += 1;
    }
    assert(paths@.take(paths@.len() as int) =~= paths@);
    r
}

/// The text under which the note `p` is offered (see
/// [`completion_target`]).
fn completion_target_exec(source: &str, p: &String, paths: &NotePaths) -> (r: String)
    ensures
        r@ == completion_target(source@, p@, paths@),
{
    let chars = chars_of(p.as_str());
    let mut rooted: Vec<char> = vec!['/'];
    let mut tail = replace_backslashes(&chars);
    rooted.append(&mut tail);
    assert(rooted@ =~= seq!['/'] + slashes(p@));
    match file_stem_chars(p.as_str()) {
        Some(stem) => {
            let candidates = paths_with_stem_exec(paths, &stem);
            let stem_string = string_from_chars(stem.as_slice());
            match resolve_path(source, stem_string.as_str(), &candidates) {
                Ok(q) => if same_path(q.as_str(), p.as_str()) {
                    stem_string
                } else {
                    string_from_chars(rooted.as_slice())
                },
                Err(_) => string_from_chars(rooted.as_slice()),
            }
        },
        None => string_from_chars(rooted.as_slice()),
    }
}

/// The first stop byte at or after `from`.
fn find_first_stop(bytes: &[u8], from: usize) -> (r: Option<usize>)
    requires
        from <= bytes@.len(),
    ensures
        match r {
            Some(j) => first_stop(bytes@, from as int) == Some(j as int) && j < bytes@.len(),
            None => first_stop(bytes@, from as int) is None,
        },
{
    let mut j: usize = from;
    while j < bytes.len()
        invariant
            from <= j <= bytes@.len(),
            first_stop(bytes@, j as int) == first_stop(bytes@, from as int),
        decreases bytes@.len() - j,
    {
        let byte = bytes[j];
        if byte == 93u8 || byte == 124u8 || byte == 35u8 || byte == 10u8 {
            return Some(j);
        }
        j += 1;
    }
    None
}

/// Whether `bytes[from..to]` holds a `#`.
fn find_hash(bytes: &[u8], from: usize, to: usize) -> (r: bool)
    requires
        from <= to <= bytes@.len(),
    ensures
        r == has_hash(bytes@, from as int, to as int),
{
    let mut j: usize = from;
    while j < to
        invariant
            from <= j <= to <= bytes@.len(),
            forall|i: int| from <= i < j ==> #[trigger] bytes@[i] != 35u8,
        decreases to - j,
    {
        if bytes[j] == 35u8 {
            return true;
        }
        j += 1;
    }
    false
}

/// The completions for the target typed from byte `start` to the cursor
/// at `offset` of `text`, in the note at `source` (see
/// [`completions_for_target_spec`]).
pub fn completions_for_target(
    source: &str,
    text: &str,
    start: usize,
    offset: usize,
    paths: &NotePaths,
) -> (r: Option<NoteLinkCompletions>)
    requires
        start <= offset <= encode_utf8(text@).len(),
    ensures
        match r {
            Some(c) => completions_for_target_spec(
                source@,
                text@,
                start as int,
                offset as int,
                paths@,
            ) == Some(c@),
            None => completions_for_target_spec(
                source@,
                text@,
                start as int,
                offset as int,
                paths@,
            ) is None,
        },
{
    let bytes = text.as_bytes();
    if find_hash(bytes, start, offset) {
        return None;
    }
    let stop = match find_first_stop(bytes, offset) {
        Some(j) => j,
        None => offset,
    };
    let closed = stop < bytes.len() && ((bytes.len() - stop > 1 && bytes[stop] == 93u8
        && bytes[stop + 1] == 93u8) || bytes[stop] == 124u8 || bytes[stop] == 35u8);
    let end = if closed {
        stop
    } else {
        offset
    };
    let ghost closed_spec = is_closed_at(bytes@, stop as int);
    assert(closed == closed_spec);
    let mut items: Vec<NoteLinkCompletion> = Vec::new();
    let mut j: usize = 0;
    while j < paths.len()
        invariant
            j <= paths@.len(),
            closed == closed_spec,
            items@.map_values(|c: NoteLinkCompletion| c@) =~= paths@.take(j as int).map_values(
                |p: Seq<char>| completion_item(source@, p, paths@, closed),
            ),
        decreases paths@.len() - j,
    {
        let p = paths.get(j);
        let target = completion_target_exec(source, p, paths);
        let new_text = if closed {
            target.clone()
        } else {
            let mut t = target.clone();
            proof {
                reveal_strlit("]]");
            }
            t.append("]]");
            assert("]]"@ =~= seq![']', ']']);
            t
        };
        assert(new_text@ == completion_item(source@, paths@[j as int], paths@, closed).new_text);
        let item = NoteLinkCompletion { target, new_text };
        let ghost prev = items@;
        items.push(item);
        proof {
            assert(paths@.take(j + 1) =~= paths@.take(j as int).push(paths@[j as int]));
            assert(items@.map_values(|c: NoteLinkCompletion| c@) =~= prev.map_values(
                |c: NoteLinkCompletion| c@,
            ).push(completion_item(source@, paths@[j as int], paths@, closed)));
        }
        j += 1;
    }
    assert(paths@.take(paths@.len() as int) =~= paths@);
    Some(NoteLinkCompletions { replace_range: Range { start, end }, items })
}

/// The completions for the wiki-link target being typed at byte `offset`
/// of `text`, the text of the note at `source`, among the notes `paths`
/// (see [`note_link_completions_spec`]).
pub fn note_link_completions(source: &str, text: &str, offset: usize, paths: &NotePaths) -> (r:
    Option<NoteLinkCompletions>)
    ensures
        match r {
            Some(c) => note_link_completions_spec(source@, text@, offset as int, paths@) == Some(
                c@,
            ),
            None => note_link_completions_spec(source@, text@, offset as int, paths@) is None,
        },
{
    if !is_note(source) {
        return None;
    }
    match completion_range(text, offset) {
        Some(range) => completions_for_target(source, text, range.start, range.end, paths),
        None => None,
    }
}

/// Whether a file name has the extension `md` or `markdown`.
pub open spec fn has_markdown_extension(name: Seq<char>) -> bool {
    name_extension(name) matches Some(e) && is_markdown_extension(e)
}

proof fn lemma_last_index_of_suffix(a: Seq<char>, b: Seq<char>, c: char)
    requires
        b.len() > 0,
        b[0] == c,
        forall|j: int| 1 <= j < b.len() ==> b[j] != c,
    ensures
        last_index_of(a + b, c) == Some(a.len() as int),
    decreases b.len(),
{
    if b.len() == 1 {
        assert((a + b).last() == c);
    } else {
        assert((a + b).last() == b[b.len() - 1]);
        assert((a + b).drop_last() =~= a + b.drop_last());
        lemma_last_index_of_suffix(a, b.drop_last(), c);
    }
}

/// A name with `.md` or `.markdown` added has that extension, and its
/// stem is the name.
proof fn lemma_suffixed_name_stem(s: Seq<char>, suffix: Seq<char>)
    requires
        s.len() > 0,
        suffix == md_suffix() || suffix == markdown_suffix(),
    ensures
        name_extension(s + suffix) == Some(suffix.skip(1)),
        name_stem(s + suffix) == s,
        has_markdown_extension(s + suffix),
{
    lemma_last_index_of_suffix(s, suffix, '.');
    assert((s + suffix).skip(s.len() + 1int) =~= suffix.skip(1));
    assert((s + suffix).take(s.len() as int) =~= s);
    if suffix == md_suffix() {
        assert(suffix.skip(1) =~= seq!['m', 'd']);
    } else {
        assert(suffix.skip(1) =~= seq!['m', 'a', 'r', 'k', 'd', 'o', 'w', 'n']);
    }
}

/// The components of a single valid name are that name.
proof fn lemma_name_components(s: Seq<char>)
    requires
        valid_name(s),
    ensures
        path_components(s) == seq![ComponentView::Normal(s)],
{
    let names = seq![s];
    assert(valid_names(names));
    lemma_components_of_join(names);
    assert(join_names(names) == s);
    assert(normals(names) =~= seq![ComponentView::Normal(s)]);
}

/// A path whose last component is the name `x` has `x` as its file name.
proof fn lemma_last_name(q: Seq<char>, x: Seq<char>)
    requires
        path_components(q).len() > 0,
        path_components(q).last() == ComponentView::Normal(x),
    ensures
        file_name(q) == Some(x),
        file_stem(q) == Some(name_stem(x)),
        is_note_spec(q) == has_markdown_extension(x),
{
}

/// The notes sharing a stem are notes of `paths`, and with distinct
/// paths, every note with that stem is among them.
proof fn lemma_paths_with_stem_members(paths: Seq<Seq<char>>, stem: Seq<char>)
    requires
        distinct_paths(paths),
    ensures
        forall|k: int|
            0 <= k < paths_with_stem(paths, stem).len() ==> exists|i: int|
                0 <= i < paths.len() && paths[i] == #[trigger] paths_with_stem(paths, stem)[k],
        forall|i: int|
            0 <= i < paths.len() && file_stem(#[trigger] paths[i]) == Some(stem) ==> exists|k: int|
                0 <= k < paths_with_stem(paths, stem).len() && paths_with_stem(paths, stem)[k]
                    == paths[i],
    decreases paths.len(),
{
    if paths.len() > 0 {
        let front = paths.drop_last();
        assert(distinct_paths(front)) by {
            assert forall|i: int, j: int|
                0 <= i < front.len() && 0 <= j < front.len() && i != j implies path_components(
                #[trigger] front[i],
            ) != path_components(#[trigger] front[j]) by {
                assert(front[i] == paths[i] && front[j] == paths[j]);
            }
        }
        lemma_paths_with_stem_members(front, stem);
        let before = paths_with_stem(front, stem);
        let p = paths.last();
        assert(paths[paths.len() - 1] == p);
        assert(!contains_components(before, path_components(p))) by {
            if contains_components(before, path_components(p)) {
                let k = choose|k: int|
                    0 <= k < before.len() && path_components(#[trigger] before[k])
                        == path_components(p);
                let i = choose|i: int| 0 <= i < front.len() && front[i] == #[trigger] before[k];
                assert(paths[i] == front[i]);
            }
        }
        let after = paths_with_stem(paths, stem);
        assert forall|k: int| 0 <= k < after.len() implies exists|i: int|
            0 <= i < paths.len() && paths[i] == #[trigger] after[k] by {
            if k < before.len() {
                assert(after[k] == before[k]);
                let i = choose|i: int| 0 <= i < front.len() && front[i] == #[trigger] before[k];
                assert(paths[i] == front[i]);
            } else {
                assert(after[k] == p);
            }
        }
        assert forall|i: int|
            0 <= i < paths.len() && file_stem(#[trigger] paths[i]) == Some(stem) implies exists|k: int|
            0 <= k < after.len() && after[k] == paths[i] by {
            if i < front.len() {
                assert(front[i] == paths[i]);
                let k = choose|k: int| 0 <= k < before.len() && before[k] == front[i];
                assert(after[k] == before[k]);
            } else {
                assert(after[before.len() as int] == p);
            }
        }
    }
}

/// Whether every note of `paths` that ends with one of `cands` has the
/// stem `stem`.
pub open spec fn suffix_matches_have_stem(
    paths: Seq<Seq<char>>,
    cands: Seq<Seq<Seq<char>>>,
    stem: Seq<char>,
) -> bool {
    forall|i: int|
        0 <= i < paths.len() && ends_with_candidate(#[trigger] paths[i], cands) ==> file_stem(
            paths[i],
        ) == Some(stem)
}

/// Matching path suffixes among the notes sharing a stem finds what it
/// finds among all notes, when only such notes can match.
proof fn lemma_suffix_matches_in_stem(
    paths: Seq<Seq<char>>,
    cands: Seq<Seq<Seq<char>>>,
    stem: Seq<char>,
)
    requires
        distinct_paths(paths),
        suffix_matches_have_stem(paths, cands, stem),
    ensures
        suffix_matches(paths, cands) == suffix_matches(paths_with_stem(paths, stem), cands),
    decreases paths.len(),
{
    if paths.len() > 0 {
        let front = paths.drop_last();
        let p = paths.last();
        assert(paths[paths.len() - 1] == p);
        assert(distinct_paths(front)) by {
            assert forall|i: int, j: int|
                0 <= i < front.len() && 0 <= j < front.len() && i != j implies path_components(
                #[trigger] front[i],
            ) != path_components(#[trigger] front[j]) by {
                assert(front[i] == paths[i] && front[j] == paths[j]);
            }
        }
        assert(suffix_matches_have_stem(front, cands, stem)) by {
            assert forall|i: int|
                0 <= i < front.len() && ends_with_candidate(#[trigger] front[i], cands) implies file_stem(
                front[i],
            ) == Some(stem) by {
                assert(front[i] == paths[i]);
            }
        }
        lemma_suffix_matches_in_stem(front, cands, stem);
        lemma_paths_with_stem_members(front, stem);
        let before = paths_with_stem(front, stem);
        assert(!contains_components(before, path_components(p))) by {
            if contains_components(before, path_components(p)) {
                let k = choose|k: int|
                    0 <= k < before.len() && path_components(#[trigger] before[k])
                        == path_components(p);
                let i = choose|i: int| 0 <= i < front.len() && front[i] == #[trigger] before[k];
                assert(paths[i] == front[i]);
            }
        }
        if file_stem(p) == Some(stem) {
            let after = before.push(p);
            assert(paths_with_stem(paths, stem) == after);
            assert(after.drop_last() =~= before);
            assert(after.last() == p);
        }
    }
}

/// Looking candidates up among the notes sharing a stem finds what it
/// finds among all notes, when every candidate found among all notes has
/// that stem.
proof fn lemma_present_in_stem(
    cands: Seq<Seq<Seq<char>>>,
    paths: Seq<Seq<char>>,
    stem: Seq<char>,
)
    requires
        forall|c: int|
            0 <= c < cands.len() ==> (contains_names(paths, #[trigger] cands[c]) <==> contains_names(
                paths_with_stem(paths, stem),
                cands[c],
            )),
    ensures
        present(cands, paths) == present(cands, paths_with_stem(paths, stem)),
    decreases cands.len(),
{
    if cands.len() > 0 {
        lemma_present_in_stem(cands.drop_last(), paths, stem);
        assert(cands[cands.len() - 1] == cands.last());
    }
}

/// Whether `paths` holds only notes, no two with the same components.
pub open spec fn note_set(paths: Seq<Seq<char>>) -> bool {
    &&& distinct_paths(paths)
    &&& forall|i: int| 0 <= i < paths.len() ==> is_note_spec(#[trigger] paths[i])
}

/// Whether a file stem can stand bare as a link target: a plain name,
/// trimmed, without `#` or `\`, and not itself a Markdown file name.
pub open spec fn linkable_stem(stem: Seq<char>) -> bool {
    &&& valid_name(stem)
    &&& trim_spec(stem) == stem
    &&& !stem.contains('#')
    &&& !stem.contains('\\')
    &&& !has_markdown_extension(stem)
}

/// A candidate spelled by names ending in the stem, or in the stem with
/// `.md` or `.markdown`, is a note of `paths` just when it is one of the
/// notes sharing the stem.
proof fn lemma_candidate_in_stem(paths: Seq<Seq<char>>, c: Seq<Seq<char>>, stem: Seq<char>)
    requires
        note_set(paths),
        linkable_stem(stem),
        c.len() > 0,
        c.last() == stem || c.last() == stem + md_suffix() || c.last() == stem + markdown_suffix(),
    ensures
        contains_names(paths, c) <==> contains_names(paths_with_stem(paths, stem), c),
{
    let sub = paths_with_stem(paths, stem);
    lemma_paths_with_stem_members(paths, stem);
    assert(normals(c).last() == ComponentView::Normal(c.last()));
    if contains_names(sub, c) {
        let k = choose|k: int| 0 <= k < sub.len() && path_components(#[trigger] sub[k]) == normals(c);
        let i = choose|i: int| 0 <= i < paths.len() && paths[i] == #[trigger] sub[k];
        assert(path_components(paths[i]) == normals(c));
    }
    if contains_names(paths, c) {
        let i = choose|i: int|
            0 <= i < paths.len() && path_components(#[trigger] paths[i]) == normals(c);
        lemma_last_name(paths[i], c.last());
        assert(is_note_spec(paths[i]));
        if c.last() == stem + md_suffix() {
            lemma_suffixed_name_stem(stem, md_suffix());
        } else {
            lemma_suffixed_name_stem(stem, markdown_suffix());
        }
        let k = choose|k: int| 0 <= k < sub.len() && sub[k] == paths[i];
        assert(path_components(sub[k]) == normals(c));
    }
}

/// Looking up names that end in the stem finds the same among all notes
/// as among the notes sharing the stem.
proof fn lemma_lookup_in_stem(names: Option<Seq<Seq<char>>>, paths: Seq<Seq<char>>, stem: Seq<char>)
    requires
        note_set(paths),
        linkable_stem(stem),
        names matches Some(n) ==> n.len() > 0 && n.last() == stem,
    ensures
        lookup(names, paths) == lookup(names, paths_with_stem(paths, stem)),
{
    if let Some(n) = names {
        let cands = candidates(n);
        assert(cands == seq![n, with_suffix(n, md_suffix()), with_suffix(n, markdown_suffix())]);
        assert forall|c: int| 0 <= c < cands.len() implies (contains_names(
            paths,
            #[trigger] cands[c],
        ) <==> contains_names(paths_with_stem(paths, stem), cands[c])) by {
            assert(with_suffix(n, md_suffix()).last() == stem + md_suffix());
            assert(with_suffix(n, markdown_suffix()).last() == stem + markdown_suffix());
            lemma_candidate_in_stem(paths, cands[c], stem);
        }
        lemma_present_in_stem(cands, paths, stem);
    }
}

/// Resolving a linkable stem among all notes resolves it as among the
/// notes that share it.
proof fn lemma_stem_resolution(source: Seq<char>, stem: Seq<char>, paths: Seq<Seq<char>>)
    requires
        note_set(paths),
        linkable_stem(stem),
    ensures
        resolve_path_spec(source, stem, paths) == resolve_path_spec(
            source,
            stem,
            paths_with_stem(paths, stem),
        ),
{
    let sub = paths_with_stem(paths, stem);
    lemma_index_of_first(stem, '#');
    if index_of(stem, '#') is Some {
        let i = index_of(stem, '#')->0;
        assert(stem.contains('#'));
    }
    assert(split_target_spec(stem) == (stem, None::<Seq<char>>));
    assert(slashes(stem) =~= stem) by {
        assert forall|i: int| 0 <= i < stem.len() implies stem[i] != '\\' by {
            if stem[i] == '\\' {
                assert(stem.contains('\\'));
            }
        }
    }
    lemma_name_components(stem);
    let tc = path_components(stem);
    let pc = parent_components(path_components(source));
    let relative = normalize_spec(pc + tc);
    assert((pc + tc).drop_last() =~= pc);
    assert((pc + tc).last() == ComponentView::Normal(stem));
    lemma_lookup_in_stem(relative, paths, stem);
    let root = normalize_spec(strip_root(tc));
    assert(strip_root(tc) == tc);
    assert(tc.drop_last() =~= Seq::<ComponentView>::empty());
    assert(root == Some(seq![stem])) by {
        assert(tc.last() == ComponentView::Normal(stem));
        assert(crate::note_links::normalize_fold(Some(Seq::empty()), tc.drop_last()) == Some(
            Seq::<Seq<char>>::empty(),
        ));
        assert(Seq::<Seq<char>>::empty().push(stem) =~= seq![stem]);
    }
    lemma_lookup_in_stem(root, paths, stem);
    let cands = candidates(seq![stem]);
    assert(suffix_matches_have_stem(paths, cands, stem)) by {
        assert forall|i: int|
            0 <= i < paths.len() && ends_with_candidate(#[trigger] paths[i], cands) implies file_stem(
            paths[i],
        ) == Some(stem) by {
            let c = choose|c: int|
                0 <= c < cands.len() && is_component_suffix(
                    normals(#[trigger] cands[c]),
                    path_components(paths[i]),
                );
            let comps = path_components(paths[i]);
            assert(cands[c].len() == 1);
            assert(comps.skip(comps.len() - 1) == normals(cands[c]));
            assert(comps.last() == comps.skip(comps.len() - 1)[0]);
            assert(comps.last() == ComponentView::Normal(cands[c][0]));
            lemma_last_name(paths[i], cands[c][0]);
            assert(with_suffix(seq![stem], md_suffix())[0] == stem + md_suffix());
            assert(with_suffix(seq![stem], markdown_suffix())[0] == stem + markdown_suffix());
            if cands[c][0] == stem + md_suffix() {
                lemma_suffixed_name_stem(stem, md_suffix());
            } else if cands[c][0] == stem + markdown_suffix() {
                lemma_suffixed_name_stem(stem, markdown_suffix());
            }
        }
    }
    lemma_suffix_matches_in_stem(paths, cands, stem);
}

proof fn lemma_split_after_slash(s: Seq<char>)
    ensures
        split_on(seq!['/'] + s, '/') == seq![Seq::<char>::empty()] + split_on(s, '/'),
    decreases s.len(),
{
    let x = seq!['/'] + s;
    if s.len() == 0 {
        assert(x.drop_last() =~= Seq::<char>::empty());
        assert(split_on(Seq::<char>::empty(), '/') =~= seq![Seq::<char>::empty()]);
        assert(split_on(x, '/') =~= seq![Seq::<char>::empty(), Seq::<char>::empty()]);
    } else {
        lemma_split_after_slash(s.drop_last());
        lemma_split_on_nonempty(s.drop_last(), '/');
        assert(x.drop_last() =~= seq!['/'] + s.drop_last());
        assert(x.last() == s.last());
        let prev = split_on(s.drop_last(), '/');
        let head = seq![Seq::<char>::empty()];
        if s.last() == '/' {
            assert((head + prev).push(Seq::empty()) =~= head + prev.push(Seq::empty()));
        } else {
            let np = prev.update(prev.len() - 1, prev.last().push(s.last()));
            assert((head + prev).last() == prev.last());
            assert((head + prev).update((head + prev).len() - 1, prev.last().push(s.last()))
                =~= head + np);
        }
    }
}

proof fn lemma_pieces_after_root(names: Seq<Seq<char>>)
    requires
        valid_names(names),
    ensures
        pieces_components(seq![Seq::<char>::empty()] + names, true) == normals(names),
    decreases names.len(),
{
    let all = seq![Seq::<char>::empty()] + names;
    if names.len() == 0 {
        assert(all =~= seq![Seq::<char>::empty()]);
        assert(all.drop_last() =~= Seq::<Seq<char>>::empty());
        assert(pieces_components(Seq::<Seq<char>>::empty(), true) =~= Seq::<ComponentView>::empty());
        assert(all.last().len() == 0);
        assert(normals(names) =~= Seq::<ComponentView>::empty());
    } else {
        let front = names.drop_last();
        assert(valid_names(front)) by {
            assert forall|i: int| 0 <= i < front.len() implies valid_name(#[trigger] front[i]) by {
                assert(front[i] == names[i]);
            }
        }
        lemma_pieces_after_root(front);
        assert(all.drop_last() =~= seq![Seq::<char>::empty()] + front);
        assert(all.last() == names.last());
        assert(valid_name(names[names.len() - 1]));
        assert(normals(names) =~= normals(front).push(ComponentView::Normal(names.last())));
        assert(names.last().len() > 0 && names.last() != crate::paths::dot() && names.last()
            != crate::paths::dot_dot());
        assert(pieces_components(all, true) == pieces_components(all.drop_last(), true).push(
            ComponentView::Normal(names.last()),
        ));
    }
}

/// The components of `/` followed by plain names joined with `/`: the root,
/// then the names.
proof fn lemma_rooted_join_components(names: Seq<Seq<char>>)
    requires
        names.len() > 0,
        valid_names(names),
    ensures
        path_components(seq!['/'] + join_names(names)) == seq![ComponentView::Root] + normals(
            names,
        ),
{
    let p = join_names(names);
    lemma_split_after_slash(p);
    crate::note_links::lemma_split_join(names);
    lemma_pieces_after_root(names);
    assert((seq!['/'] + p)[0] == '/');
}

/// Law: with plain note paths, completing a wiki link to a note inserts a
/// target that resolves back to that note: its bare stem when that leads
/// to it, else its path from the root of the notes folder. Notes whose
/// stem or path holds `#` or `\`, has whitespace at either end, or whose
/// stem itself ends in `.md` or `.markdown` are left out.
pub proof fn law_completion_target_leads_to_its_note(
    source: Seq<char>,
    names: Seq<Seq<char>>,
    paths: Seq<Seq<char>>,
)
    requires
        note_set(paths),
        names.len() > 0,
        valid_names(names),
        paths.contains(join_names(names)),
        trim_spec(join_names(names)) == join_names(names),
        !join_names(names).contains('#'),
        !join_names(names).contains('\\'),
        linkable_stem(name_stem(names.last())),
    ensures
        resolve_path_spec(source, completion_target(source, join_names(names), paths), paths) matches Ok(
            q,
        ) && path_components(q) == path_components(join_names(names)),
{
    let p = join_names(names);
    lemma_components_of_join(names);
    let comps = path_components(p);
    assert(comps.last() == ComponentView::Normal(names.last()));
    lemma_last_name(p, names.last());
    let stem = name_stem(names.last());
    let sub = paths_with_stem(paths, stem);
    lemma_stem_resolution(source, stem, paths);
    let rooted = seq!['/'] + slashes(p);
    if completion_target(source, p, paths) != stem {
        assert(completion_target(source, p, paths) == rooted);
        assert(slashes(p) =~= p) by {
            assert forall|i: int| 0 <= i < p.len() implies p[i] != '\\' by {
                if p[i] == '\\' {
                    assert(p.contains('\\'));
                }
            }
        }
        assert(trim_spec(rooted) == rooted) by {
            lemma_trim_end_last(trim_start_spec(p));
            assert(!is_whitespace_spec('/'));
            let t = rooted;
            assert(t[0] == '/');
            assert(trim_start_spec(t) == t);
            if p.len() > 0 {
                assert(t.last() == p.last());
                assert(trim_end_spec(t) == t);
            }
        }
        lemma_index_of_first(rooted, '#');
        if index_of(rooted, '#') is Some {
            let i = index_of(rooted, '#')->0;
            assert(p[i - 1] == '#');
            assert(p.contains('#'));
        }
        assert(split_target_spec(rooted) == (rooted, None::<Seq<char>>));
        assert(slashes(rooted) =~= rooted) by {
            assert forall|i: int| 0 <= i < rooted.len() implies rooted[i] != '\\' by {
                if i > 0 {
                    assert(rooted[i] == p[i - 1]);
                }
            }
        }
        lemma_rooted_join_components(names);
        let tc = path_components(rooted);
        assert(strip_root(tc) =~= normals(names));
        crate::note_links::lemma_normalize_normals(Seq::empty(), names);
        assert(Seq::<Seq<char>>::empty() + names =~= names);
        assert(candidates(names) == seq![names]);
        let i = choose|i: int| 0 <= i < paths.len() && paths[i] == p;
        assert(contains_names(paths, names)) by {
            assert(path_components(paths[i]) == normals(names));
        }
        assert(present(candidates(names), paths) =~= seq![names]) by {
            assert(candidates(names).drop_last() =~= Seq::<Seq<Seq<char>>>::empty());
            assert(candidates(names).last() == names);
            assert(present(Seq::<Seq<Seq<char>>>::empty(), paths) =~= Seq::<Seq<Seq<char>>>::empty());
        }
    }
}

} // verus!
