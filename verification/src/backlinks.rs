//! Backlinks: the wiki links of other notes that resolve to a given note,
//! each with the row it stands on and the text of its line.

use std::ops::Range;

use vstd::prelude::*;
use vstd::string::*;
use vstd::utf8::*;
use crate::note_links::{resolve_path, resolve_path_spec, same_path, NotePaths};
use crate::paths::path_components;
use crate::text::{lemma_boundary_after_ascii, trim, trim_spec};
use crate::wiki_links::{
    find_line_start, line_start, NoteLinks, NoteLinksView, WikiLink,
    WikiLinkView,
};

verus! {

/// A note of the backlinks index: its path in the notes folder, its text
/// and the links parsed from that text.
pub struct CachedNote {
    pub path: String,
    pub text: String,
    pub links: NoteLinks,
}

/// A cached note, as a value.
pub struct CachedNoteView {
    pub path: Seq<char>,
    pub text: Seq<char>,
    pub links: NoteLinksView,
}

impl View for CachedNote {
    type V = CachedNoteView;

    open spec fn view(&self) -> CachedNoteView {
        CachedNoteView { path: self.path@, text: self.text@, links: self.links@ }
    }
}

/// One occurrence of a link to the target note.
#[derive(Debug)]
pub struct Backlink {
    /// The note that holds the link.
    pub path: String,
    /// The byte range of the link in that note.
    pub range: Range<usize>,
    /// The zero-based row of the link's first byte.
    pub row: usize,
    /// The line that holds the link's first byte, trimmed.
    pub excerpt: String,
}

/// A backlink, as a value.
pub struct BacklinkView {
    pub path: Seq<char>,
    pub start: usize,
    pub end: usize,
    pub row: nat,
    pub excerpt: Seq<char>,
}

impl View for Backlink {
    type V = BacklinkView;

    open spec fn view(&self) -> BacklinkView {
        BacklinkView {
            path: self.path@,
            start: self.range.start,
            end: self.range.end,
            row: self.row as nat,
            excerpt: self.excerpt@,
        }
    }
}

/// The number of newline bytes in `bytes`.
pub open spec fn count_newlines(bytes: Seq<u8>) -> nat
    decreases bytes.len(),
{
    if bytes.len() == 0 {
        0
    } else {
        count_newlines(bytes.drop_last()) + if bytes.last() == 10u8 {
            1nat
        } else {
            0nat
        }
    }
}

/// Where the line that starts at or before `from` ends: the first newline
/// byte at or after `from`, or the end of `bytes`.
pub open spec fn line_end(bytes: Seq<u8>, from: int) -> int
    decreases bytes.len() - from,
{
    if from >= bytes.len() {
        bytes.len() as int
    } else if bytes[from] == 10u8 {
        from
    } else {
        line_end(bytes, from + 1)
    }
}

/// Whether two paths name the same note: they have the same components.
pub open spec fn same_note(a: Seq<char>, b: Seq<char>) -> bool {
    path_components(a) == path_components(b)
}

/// Whether `link` of the note at `source` leads to `target` among `paths`.
pub open spec fn links_to(
    source: Seq<char>,
    link: WikiLinkView,
    target: Seq<char>,
    paths: Seq<Seq<char>>,
) -> bool {
    match resolve_path_spec(source, link.target, paths) {
        Ok(p) => same_note(p, target),
        Err(_) => false,
    }
}

/// The backlink that `link` of `note` makes to `target`: none when the
/// link leads elsewhere or its start is not a character boundary of the
/// note's text.
#[verifier::opaque]
pub open spec fn link_backlink(
    note: CachedNoteView,
    link: WikiLinkView,
    target: Seq<char>,
    paths: Seq<Seq<char>>,
) -> Option<BacklinkView> {
    let bytes = encode_utf8(note.text);
    if links_to(note.path, link, target, paths) && is_char_boundary(bytes, link.start as int) {
        let start = line_start(bytes, link.start as int);
        Some(
            BacklinkView {
                path: note.path,
                start: link.start,
                end: link.end,
                row: count_newlines(bytes.take(link.start as int)),
                excerpt: trim_spec(decode_utf8(bytes.subrange(start, line_end(bytes, start)))),
            },
        )
    } else {
        None
    }
}

/// The backlinks that `links` of `note` make to `target`, in link order.
pub open spec fn links_backlinks(
    note: CachedNoteView,
    links: Seq<WikiLinkView>,
    target: Seq<char>,
    paths: Seq<Seq<char>>,
) -> Seq<BacklinkView>
    decreases links.len(),
{
    if links.len() == 0 {
        Seq::empty()
    } else {
        let before = links_backlinks(note, links.drop_last(), target, paths);
        match link_backlink(note, links.last(), target, paths) {
            Some(b) => before.push(b),
            None => before,
        }
    }
}

/// Every backlink to `target` in `notes`, note by note and link by link;
/// the target note's own links are not backlinks.
pub open spec fn backlinks_spec(
    notes: Seq<CachedNoteView>,
    target: Seq<char>,
    paths: Seq<Seq<char>>,
) -> Seq<BacklinkView>
    decreases notes.len(),
{
    if notes.len() == 0 {
        Seq::empty()
    } else {
        let note = notes.last();
        let before = backlinks_spec(notes.drop_last(), target, paths);
        if same_note(note.path, target) {
            before
        } else {
            before + links_backlinks(note, note.links.links, target, paths)
        }
    }
}

/// The views of a sequence of backlinks.
pub open spec fn backlinks_view(v: Seq<Backlink>) -> Seq<BacklinkView> {
    v.map_values(|b: Backlink| b@)
}

/// The number of newline bytes in `bytes[..end]`.
fn count_newlines_before(bytes: &[u8], end: usize) -> (r: usize)
    requires
        end <= bytes@.len(),
    ensures
        r == count_newlines(bytes@.take(end as int)),
{
    let mut count: usize = 0;
    let mut i: usize = 0;
    while i < end
        invariant
            i <= end <= bytes@.len(),
            count <= i,
            count == count_newlines(bytes@.take(i as int)),
        decreases end - i,
    {
        assert(bytes@.take(i + 1).drop_last() =~= bytes@.take(i as int));
        if bytes[i] == 10u8 {
            count += 1;
        }
        i += 1;
    }
    count
}

/// The end of the line that starts at or before `from`.
fn find_line_end(bytes: &[u8], from: usize) -> (r: usize)
    requires
        from <= bytes@.len(),
    ensures
        r == line_end(bytes@, from as int),
        from <= r <= bytes@.len(),
        r < bytes@.len() ==> bytes@[r as int] == 10u8,
{
    let mut i: usize = from;
    while i < bytes.len() && bytes[i] != 10u8
        invariant
            from <= i <= bytes@.len(),
            line_end(bytes@, i as int) == line_end(bytes@, from as int),
        decreases bytes@.len() - i,
    {
        i += 1;
    }
    i
}

/// The backlink that `link` of `note` makes to `target`, if any.
fn backlink_of(note: &CachedNote, link: &WikiLink, target: &str, paths: &NotePaths) -> (r: Option<
    Backlink,
>)
    ensures
        match r {
            Some(b) => link_backlink(note@, link@, target@, paths@) == Some(b@),
            None => link_backlink(note@, link@, target@, paths@) is None,
        },
{
    reveal(link_backlink);
    let leads_here = match resolve_path(note.path.as_str(), link.target.as_str(), paths) {
        Ok(p) => same_path(p.as_str(), target),
        Err(_) => false,
    };
    if !leads_here {
        return None;
    }
    let text = note.text.as_str();
    let start = link.range.start;
    if !text.is_char_boundary(start) {
        return None;
    }
    let bytes = text.as_bytes();
    let ghost b = encode_utf8(text@);
    proof {
        encode_utf8_valid_utf8(text@);
        is_char_boundary_start_end_of_seq(b);
    }
    assert(start <= b.len()) by {
        reveal_with_fuel(is_char_boundary, 1);
    }
    let row = count_newlines_before(bytes, start);
    let line_begin = find_line_start(bytes, start);
    let line_stop = find_line_end(bytes, line_begin);
    proof {
        if line_begin > 0 {
            is_char_boundary_iff_not_is_continuation_byte(b, line_begin - 1);
            lemma_boundary_after_ascii(b, line_begin - 1);
        }
    }
    let (_, rest) = text.split_at(line_begin);
    proof {
        encode_utf8_valid_utf8(rest@);
        is_char_boundary_start_end_of_seq(rest.spec_bytes());
        assert(rest.spec_bytes() =~= b.subrange(line_begin as int, b.len() as int));
        if line_stop < b.len() {
            assert(rest.spec_bytes()[line_stop - line_begin] == 10u8);
            is_char_boundary_iff_not_is_continuation_byte(
                rest.spec_bytes(),
                line_stop - line_begin,
            );
        }
    }
    let (line, _) = rest.split_at(line_stop - line_begin);
    proof {
        encode_utf8_decode_utf8(line@);
        assert(line.spec_bytes() =~= b.subrange(line_begin as int, line_stop as int));
    }
    let excerpt = trim(line).to_owned();
    Some(
        Backlink {
            path: note.path.clone(),
            range: Range { start: link.range.start, end: link.range.end },
            row,
            excerpt,
        },
    )
}

/// The notes come one per path, in the order of their paths.
pub open spec fn notes_in_path_order(notes: Seq<CachedNoteView>) -> bool {
    forall|i: int, j: int|
        0 <= i < j < notes.len() ==> crate::paths::path_before(
            #[trigger] notes[i].path,
            #[trigger] notes[j].path,
        )
}

/// The cached notes of a notes folder, one per path, kept in path order.
pub struct NoteCache {
    notes: Vec<CachedNote>,
}

impl View for NoteCache {
    type V = Seq<CachedNoteView>;

    closed spec fn view(&self) -> Seq<CachedNoteView> {
        self.notes@.map_values(|n: CachedNote| n@)
    }
}

impl NoteCache {
    #[verifier::type_invariant]
    spec fn in_order(&self) -> bool {
        notes_in_path_order(self@)
    }

    /// An empty cache.
    pub fn new() -> (r: NoteCache)
        ensures
            r@ == Seq::<CachedNoteView>::empty(),
    {
        let r = NoteCache { notes: Vec::new() };
        assert(r@ =~= Seq::<CachedNoteView>::empty());
        r
    }

    /// The number of notes; the notes always come one per path, in path
    /// order.
    pub fn len(&self) -> (r: usize)
        ensures
            r == self@.len(),
            notes_in_path_order(self@),
    {
        proof {
            use_type_invariant(self);
        }
        self.notes.len()
    }

    /// The note at position `i`.
    pub fn get(&self, i: usize) -> (r: &CachedNote)
        requires
            i < self@.len(),
        ensures
            r@ == self@[i as int],
    {
        &self.notes[i]
    }

    /// Stores `note`: in place of the note with the same path components,
    /// or at its place in path order.
    pub fn insert(&mut self, note: CachedNote)
        ensures
            notes_in_path_order(final(self)@),
            (exists|i: int|
                0 <= i < old(self)@.len() && path_components(old(self)@[i].path) == path_components(
                    note@.path,
                )) ==> exists|i: int|
                0 <= i < old(self)@.len() && path_components(old(self)@[i].path) == path_components(
                    note@.path,
                ) && final(self)@ == old(self)@.update(i, note@),
            !(exists|i: int|
                0 <= i < old(self)@.len() && path_components(old(self)@[i].path) == path_components(
                    note@.path,
                )) ==> exists|k: int|
                0 <= k <= old(self)@.len() && final(self)@ == old(self)@.insert(k, note@),
    {
        proof {
            use_type_invariant(&*self);
        }
        let ghost before = self@;
        let ghost nv = note@;
        let comps = crate::paths::components(note.path.as_str());
        let mut pos: usize = 0;
        while pos < self.notes.len() && crate::paths::path_before_exec(
            self.notes[pos].path.as_str(),
            note.path.as_str(),
        )
            invariant
                pos <= self.notes.len(),
                before == self@,
                nv == note@,
                self@ == self.notes@.map_values(|n: CachedNote| n@),
                forall|i: int|
                    0 <= i < pos ==> crate::paths::path_before(#[trigger] before[i].path, nv.path),
            decreases self.notes.len() - pos,
        {
            assert(before[pos as int] == self.notes@[pos as int]@);
            pos += 1;
        }
        let same = pos < self.notes.len() && crate::note_links::components_equal(
            &crate::paths::components(self.notes[pos].path.as_str()),
            &comps,
        );
        proof {
            assert forall|i: int| 0 <= i < pos implies path_components(#[trigger] before[i].path)
                != path_components(nv.path) by {
                crate::paths::lemma_components_before_total(
                    path_components(before[i].path),
                    path_components(nv.path),
                );
            }
            if pos < before.len() {
                assert(before[pos as int] == self.notes@[pos as int]@);
                assert(!crate::paths::path_before(before[pos as int].path, nv.path));
                if !same {
                    crate::paths::lemma_components_before_total(
                        path_components(before[pos as int].path),
                        path_components(nv.path),
                    );
                }
                assert forall|j: int| pos < j < before.len() implies crate::paths::path_before(
                    nv.path,
                    #[trigger] before[j].path,
                ) && path_components(before[j].path) != path_components(nv.path) by {
                    assert(crate::paths::path_before(before[pos as int].path, before[j].path));
                    if same {
                        assert(crate::paths::path_before(nv.path, before[j].path));
                    } else {
                        crate::paths::lemma_components_before_transitive(
                            path_components(nv.path),
                            path_components(before[pos as int].path),
                            path_components(before[j].path),
                        );
                    }
                    crate::paths::lemma_components_before_total(
                        path_components(nv.path),
                        path_components(before[j].path),
                    );
                }
            }
        }
        let mut notes: Vec<CachedNote> = Vec::new();
        std::mem::swap(&mut notes, &mut self.notes);
        if same {
            notes.set(pos, note);
            let ghost after = notes@.map_values(|n: CachedNote| n@);
            assert(after =~= before.update(pos as int, nv));
            proof {
                assert forall|i: int, j: int| 0 <= i < j < after.len() implies crate::paths::path_before(
                    #[trigger] after[i].path,
                    #[trigger] after[j].path,
                ) by {
                    assert(before[i].path == after[i].path || i == pos);
                    assert(before[j].path == after[j].path || j == pos);
                }
            }
        } else {
            notes.insert(pos, note);
            let ghost after = notes@.map_values(|n: CachedNote| n@);
            assert(after =~= before.insert(pos as int, nv));
            proof {
                assert forall|i: int, j: int| 0 <= i < j < after.len() implies crate::paths::path_before(
                    #[trigger] after[i].path,
                    #[trigger] after[j].path,
                ) by {
                    if j < pos {
                        assert(after[i] == before[i] && after[j] == before[j]);
                    } else if j == pos {
                        assert(after[i] == before[i] && after[j] == nv);
                    } else if i < pos {
                        assert(after[i] == before[i] && after[j] == before[j - 1]);
                        crate::paths::lemma_components_before_transitive(
                            path_components(before[i].path),
                            path_components(nv.path),
                            path_components(before[j - 1].path),
                        );
                    } else if i == pos {
                        assert(after[i] == nv && after[j] == before[j - 1]);
                    } else {
                        assert(after[i] == before[i - 1] && after[j] == before[j - 1]);
                    }
                }
                assert forall|i: int|
                    0 <= i < before.len() implies path_components(#[trigger] before[i].path)
                    != path_components(nv.path) by {}
            }
        }
        self.notes = notes;
    }
}

/// Every link in `notes` that resolves to `target` among `paths`, in the
/// order of the notes (path order) and of the links within each note.
/// Links of the target note itself are skipped, and each occurrence of a
/// link counts.
pub fn collect_backlinks(target: &str, notes: &NoteCache, paths: &NotePaths) -> (r: Vec<Backlink>)
    ensures
        backlinks_view(r@) == backlinks_spec(notes@, target@, paths@),
{
    let ghost nv = notes@;
    let mut result: Vec<Backlink> = Vec::new();
    let mut i: usize = 0;
    while i < notes.len()
        invariant
            i <= nv.len(),
            nv == notes@,
            backlinks_view(result@) == backlinks_spec(nv.take(i as int), target@, paths@),
        decreases nv.len() - i,
    {
        let note = notes.get(i);
        proof {
            assert(nv.take(i + 1).drop_last() =~= nv.take(i as int));
            assert(nv.take(i + 1).last() == note@);
        }
        if !same_path(note.path.as_str(), target) {
            let ghost lv = note@.links.links;
            let ghost before = backlinks_view(result@);
            let mut k: usize = 0;
            while k < note.links.links.len()
                invariant
                    k <= note.links.links.len(),
                    lv == note.links.links@.map_values(|l: WikiLink| l@),
                    backlinks_view(result@) == before + links_backlinks(
                        note@,
                        lv.take(k as int),
                        target@,
                        paths@,
                    ),
                decreases note.links.links.len() - k,
            {
                let link = &note.links.links[k];
                proof {
                    assert(lv.take(k + 1).drop_last() =~= lv.take(k as int));
                    assert(lv.take(k + 1).last() == link@);
                }
                match backlink_of(note, link, target, paths) {
                    Some(b) => {
                        let ghost prev = result@;
                        result.push(b);
                        assert(backlinks_view(result@) =~= backlinks_view(prev).push(
                            result@.last()@,
                        ));
                    },
                    None => {},
                }
                k += 1;
            }
            assert(lv.take(lv.len() as int) =~= lv);
        }
        i += 1;
    }
    assert(nv.take(nv.len() as int) =~= nv);
    result
}

/// Whether `b` records a link of `note` that leads to `target`.
pub open spec fn records_link_to(
    b: BacklinkView,
    note: CachedNoteView,
    target: Seq<char>,
    paths: Seq<Seq<char>>,
) -> bool {
    &&& b.path == note.path
    &&& exists|l: int|
        0 <= l < note.links.links.len() && (#[trigger] note.links.links[l]).start == b.start
            && note.links.links[l].end == b.end && links_to(
            note.path,
            note.links.links[l],
            target,
            paths,
        )
}

proof fn lemma_links_backlinks_recorded(
    note: CachedNoteView,
    links: Seq<WikiLinkView>,
    target: Seq<char>,
    paths: Seq<Seq<char>>,
)
    requires
        forall|l: int|
            0 <= l < links.len() ==> exists|m: int|
                0 <= m < note.links.links.len() && note.links.links[m] == #[trigger] links[l],
    ensures
        forall|k: int|
            0 <= k < links_backlinks(note, links, target, paths).len() ==> records_link_to(
                #[trigger] links_backlinks(note, links, target, paths)[k],
                note,
                target,
                paths,
            ),
    decreases links.len(),
{
    if links.len() > 0 {
        let front = links.drop_last();
        assert forall|l: int| 0 <= l < front.len() implies exists|m: int|
            0 <= m < note.links.links.len() && note.links.links[m] == #[trigger] front[l] by {
            assert(front[l] == links[l]);
        }
        lemma_links_backlinks_recorded(note, front, target, paths);
        let before = links_backlinks(note, front, target, paths);
        reveal(link_backlink);
        if let Some(b) = link_backlink(note, links.last(), target, paths) {
            let m = choose|m: int|
                0 <= m < note.links.links.len() && note.links.links[m] == #[trigger] links[links.len() - 1];
            assert(records_link_to(b, note, target, paths)) by {
                assert(note.links.links[m].start == b.start);
            }
            assert forall|k: int| 0 <= k < before.push(b).len() implies records_link_to(
                #[trigger] before.push(b)[k],
                note,
                target,
                paths,
            ) by {
                if k < before.len() {
                    assert(before.push(b)[k] == before[k]);
                }
            }
        }
    }
}

/// Law: every backlink comes from a note other than the target and
/// records one of that note's links that resolves to the target.
pub proof fn law_backlinks_lead_to_the_target(
    notes: Seq<CachedNoteView>,
    target: Seq<char>,
    paths: Seq<Seq<char>>,
)
    ensures
        forall|k: int|
            0 <= k < backlinks_spec(notes, target, paths).len() ==> {
                let b = #[trigger] backlinks_spec(notes, target, paths)[k];
                &&& !same_note(b.path, target)
                &&& exists|n: int|
                    0 <= n < notes.len() && records_link_to(b, #[trigger] notes[n], target, paths)
            },
    decreases notes.len(),
{
    if notes.len() > 0 {
        let front = notes.drop_last();
        law_backlinks_lead_to_the_target(front, target, paths);
        let note = notes.last();
        let before = backlinks_spec(front, target, paths);
        let all = backlinks_spec(notes, target, paths);
        if !same_note(note.path, target) {
            let mine = links_backlinks(note, note.links.links, target, paths);
            lemma_links_backlinks_recorded(note, note.links.links, target, paths);
            assert(all == before + mine);
            assert forall|k: int| 0 <= k < all.len() implies {
                let b = #[trigger] all[k];
                &&& !same_note(b.path, target)
                &&& exists|n: int|
                    0 <= n < notes.len() && records_link_to(b, #[trigger] notes[n], target, paths)
            } by {
                if k < before.len() {
                    assert(all[k] == before[k]);
                    let n = choose|n: int|
                        0 <= n < front.len() && records_link_to(before[k], #[trigger] front[n], target, paths);
                    assert(notes[n] == front[n]);
                } else {
                    assert(all[k] == mine[k - before.len()]);
                    assert(records_link_to(mine[k - before.len()], note, target, paths));
                    assert(notes[notes.len() - 1] == note);
                }
            }
        } else {
            assert(all == before);
            assert forall|k: int| 0 <= k < all.len() implies {
                let b = #[trigger] all[k];
                &&& !same_note(b.path, target)
                &&& exists|n: int|
                    0 <= n < notes.len() && records_link_to(b, #[trigger] notes[n], target, paths)
            } by {
                let n = choose|n: int|
                    0 <= n < front.len() && records_link_to(before[k], #[trigger] front[n], target, paths);
                assert(notes[n] == front[n]);
            }
        }
    }
}

/// The note the backlinks panel follows: the notes folder (worktree) it
/// belongs to and its path there.
#[derive(Debug)]
pub struct FollowedNote {
    pub folder: u64,
    pub path: String,
}

/// What the backlinks panel does when the active note changes.
#[derive(Clone, Copy, Debug, PartialEq, Eq)]
pub struct FollowChange {
    /// Drop the notes cached for the previous notes folder.
    pub forget_cached_notes: bool,
    /// Drop the backlinks shown and the selection.
    pub forget_backlinks: bool,
    /// Scan the notes folder for the new note's backlinks.
    pub rescan: bool,
}

/// The folder of a followed note, if any.
pub open spec fn followed_folder(note: Option<&FollowedNote>) -> Option<u64> {
    match note {
        Some(n) => Some(n.folder),
        None => None,
    }
}

/// Whether two followed notes are the same note.
pub open spec fn same_followed(a: Option<&FollowedNote>, b: Option<&FollowedNote>) -> bool {
    match (a, b) {
        (Some(x), Some(y)) => x.folder == y.folder && x.path@ == y.path@,
        (None, None) => true,
        _ => false,
    }
}

/// What changes when the panel moves from following `current` to
/// following `next`: the cache goes with a change of notes folder, the
/// backlinks with a change of note (or when no note is active), and a scan
/// follows whenever a note is active.
pub fn follow_change(current: Option<&FollowedNote>, next: Option<&FollowedNote>) -> (r:
    FollowChange)
    ensures
        r.forget_cached_notes == (followed_folder(current) != followed_folder(next)),
        r.forget_backlinks == (!same_followed(current, next) || next is None),
        r.rescan == next is Some,
{
    let forget_cached_notes = match (current, next) {
        (Some(a), Some(b)) => a.folder != b.folder,
        (None, None) => false,
        _ => true,
    };
    let same = match (current, next) {
        (Some(a), Some(b)) => a.folder == b.folder && a.path == b.path,
        (None, None) => true,
        _ => false,
    };
    FollowChange {
        forget_cached_notes,
        forget_backlinks: !same || next.is_none(),
        rescan: next.is_some(),
    }
}

/// When a note file was last changed, and its size: how the panel tells
/// whether a cached note is still current.
#[derive(Clone, Copy, Debug, PartialEq, Eq, Structural)]
pub struct FileStamp {
    pub modified_nanos: Option<u128>,
    pub size: u64,
}

/// Where the panel takes a note's text from during a scan.
#[derive(Clone, Copy, Debug, PartialEq, Eq, Structural)]
pub enum NoteTextSource {
    /// The open, possibly unsaved, buffer.
    OpenBuffer,
    /// The cached note, unchanged on disk since it was read.
    Cached,
    /// The file on disk.
    Disk,
}

/// Where the text of a note comes from: its open buffer when there is one,
/// else the cache when the file's stamp has not changed, else the disk.
pub fn note_text_source(has_open_buffer: bool, stamp: FileStamp, cached: Option<FileStamp>) -> (r:
    NoteTextSource)
    ensures
        r == if has_open_buffer {
            NoteTextSource::OpenBuffer
        } else if cached == Some(stamp) {
            NoteTextSource::Cached
        } else {
            NoteTextSource::Disk
        },
{
    if has_open_buffer {
        NoteTextSource::OpenBuffer
    } else {
        match cached {
            Some(c) => if c == stamp {
                NoteTextSource::Cached
            } else {
                NoteTextSource::Disk
            },
            None => NoteTextSource::Disk,
        }
    }
}

/// The backlink selected after moving the selection one step (up when
/// `previous`) among `count` backlinks: the first when none was selected,
/// staying within the list; unchanged when the list is empty.
pub open spec fn next_selection_spec(selected: Option<usize>, previous: bool, count: usize) -> Option<
    usize,
> {
    if count == 0 {
        selected
    } else {
        match selected {
            None => Some(0),
            Some(i) => if previous {
                Some(
                    if i == 0 {
                        0
                    } else {
                        (i - 1) as usize
                    },
                )
            } else {
                Some(
                    if i + 1 < count {
                        (i + 1) as usize
                    } else {
                        (count - 1) as usize
                    },
                )
            },
        }
    }
}

/// Moves the backlink selection one step (see [`next_selection_spec`]).
pub fn next_selection(selected: Option<usize>, previous: bool, count: usize) -> (r: Option<usize>)
    ensures
        r == next_selection_spec(selected, previous, count),
{
    if count == 0 {
        return selected;
    }
    match selected {
        None => Some(0),
        Some(i) => if previous {
            Some(i.saturating_sub(1))
        } else {
            Some(
                if i < count - 1 {
                    i + 1
                } else {
                    count - 1
                },
            )
        },
    }
}

/// The selection kept after a scan found `count` backlinks: the selected
/// one when it still exists.
pub fn selection_after_scan(selected: Option<usize>, count: usize) -> (r: Option<usize>)
    ensures
        r == match selected {
            Some(i) => if i < count {
                Some(i)
            } else {
                None
            },
            None => None,
        },
{
    match selected {
        Some(i) => if i < count {
            Some(i)
        } else {
            None
        },
        None => None,
    }
}

/// Law: moving the selection among a non-empty list of backlinks always
/// selects one of them.
pub proof fn law_selection_stays_in_the_list(selected: Option<usize>, previous: bool, count: usize)
    requires
        count > 0,
        selected matches Some(i) ==> i < count,
    ensures
        next_selection_spec(selected, previous, count) matches Some(i) && i < count,
{
}

/// Every backlink that the links of `note` make names `note`'s path.
proof fn lemma_links_backlinks_path(
    note: CachedNoteView,
    links: Seq<WikiLinkView>,
    target: Seq<char>,
    paths: Seq<Seq<char>>,
)
    ensures
        forall|i: int|
            0 <= i < links_backlinks(note, links, target, paths).len() ==> (#[trigger] links_backlinks(
                note,
                links,
                target,
                paths,
            )[i]).path == note.path,
    decreases links.len(),
{
    reveal(link_backlink);
    if links.len() > 0 {
        lemma_links_backlinks_path(note, links.drop_last(), target, paths);
        let before = links_backlinks(note, links.drop_last(), target, paths);
        let r = links_backlinks(note, links, target, paths);
        assert forall|i: int| 0 <= i < r.len() implies (#[trigger] r[i]).path == note.path by {
            if i < before.len() {
                assert(r[i] == before[i]);
            }
        }
    }
}

/// Every backlink names the path of one of the notes.
proof fn lemma_backlinks_paths(notes: Seq<CachedNoteView>, target: Seq<char>, paths: Seq<Seq<char>>)
    ensures
        forall|i: int|
            0 <= i < backlinks_spec(notes, target, paths).len() ==> exists|k: int|
                0 <= k < notes.len() && (#[trigger] backlinks_spec(notes, target, paths)[i]).path
                    == notes[k].path,
    decreases notes.len(),
{
    if notes.len() > 0 {
        let last = notes.last();
        let before = backlinks_spec(notes.drop_last(), target, paths);
        lemma_backlinks_paths(notes.drop_last(), target, paths);
        lemma_links_backlinks_path(last, last.links.links, target, paths);
        let r = backlinks_spec(notes, target, paths);
        assert forall|i: int| 0 <= i < r.len() implies exists|k: int|
            0 <= k < notes.len() && (#[trigger] r[i]).path == notes[k].path by {
            if i < before.len() {
                assert(r[i] == before[i]);
                let k = choose|k: int|
                    0 <= k < notes.drop_last().len() && before[i].path == notes.drop_last()[k].path;
                assert(notes.drop_last()[k] == notes[k]);
            } else {
                assert(r[i].path == notes[notes.len() - 1].path);
            }
        }
    }
}

/// Backlinks come in the order of their notes' paths: where the notes come
/// one per path in path order, a backlink never names a path that comes
/// before the path of an earlier backlink.
pub proof fn law_backlinks_in_path_order(
    notes: Seq<CachedNoteView>,
    target: Seq<char>,
    paths: Seq<Seq<char>>,
)
    requires
        notes_in_path_order(notes),
    ensures
        forall|i: int, j: int|
            0 <= i < j < backlinks_spec(notes, target, paths).len() ==> (#[trigger] backlinks_spec(
                notes,
                target,
                paths,
            )[i]).path == (#[trigger] backlinks_spec(notes, target, paths)[j]).path
                || crate::paths::path_before(
                backlinks_spec(notes, target, paths)[i].path,
                backlinks_spec(notes, target, paths)[j].path,
            ),
    decreases notes.len(),
{
    if notes.len() > 0 {
        let front = notes.drop_last();
        let last = notes.last();
        assert(notes_in_path_order(front)) by {
            assert forall|i: int, j: int| 0 <= i < j < front.len() implies crate::paths::path_before(
                #[trigger] front[i].path,
                #[trigger] front[j].path,
            ) by {
                assert(front[i] == notes[i] && front[j] == notes[j]);
            }
        }
        law_backlinks_in_path_order(front, target, paths);
        lemma_backlinks_paths(front, target, paths);
        lemma_links_backlinks_path(last, last.links.links, target, paths);
        let before = backlinks_spec(front, target, paths);
        let r = backlinks_spec(notes, target, paths);
        assert forall|i: int, j: int| 0 <= i < j < r.len() implies (#[trigger] r[i]).path == (
        #[trigger] r[j]).path || crate::paths::path_before(r[i].path, r[j].path) by {
            if j < before.len() {
                assert(r[i] == before[i] && r[j] == before[j]);
            } else if i < before.len() {
                assert(r[i] == before[i]);
                let k = choose|k: int| 0 <= k < front.len() && before[i].path == front[k].path;
                assert(front[k] == notes[k]);
                assert(r[j].path == notes[notes.len() - 1].path);
                assert(crate::paths::path_before(notes[k].path, notes[notes.len() - 1].path));
            } else {
                assert(r[i].path == last.path && r[j].path == last.path);
            }
        }
    }
}

/// The backlinks of a note's links are exactly what its links make.
proof fn lemma_links_backlinks_members(
    note: CachedNoteView,
    links: Seq<WikiLinkView>,
    target: Seq<char>,
    paths: Seq<Seq<char>>,
)
    ensures
        forall|i: int|
            #![trigger links_backlinks(note, links, target, paths)[i]]
            0 <= i < links_backlinks(note, links, target, paths).len() ==> exists|j: int|
                0 <= j < links.len() && link_backlink(note, #[trigger] links[j], target, paths)
                    == Some(links_backlinks(note, links, target, paths)[i]),
        forall|j: int|
            0 <= j < links.len() && (#[trigger] link_backlink(note, links[j], target, paths)) is Some
                ==> exists|i: int|
                0 <= i < links_backlinks(note, links, target, paths).len() && links_backlinks(
                    note,
                    links,
                    target,
                    paths,
                )[i] == link_backlink(note, links[j], target, paths)->0,
    decreases links.len(),
{
    if links.len() > 0 {
        let front = links.drop_last();
        lemma_links_backlinks_members(note, front, target, paths);
        let before = links_backlinks(note, front, target, paths);
        let r = links_backlinks(note, links, target, paths);
        let n = links.len() - 1;
        assert(links[n] == links.last());
        assert forall|i: int| #![trigger r[i]] 0 <= i < r.len() implies exists|j: int|
            0 <= j < links.len() && link_backlink(note, #[trigger] links[j], target, paths) == Some(
                r[i],
            ) by {
            if i < before.len() {
                assert(r[i] == before[i]);
                let j = choose|j: int|
                    0 <= j < front.len() && link_backlink(note, #[trigger] front[j], target, paths)
                        == Some(before[i]);
                assert(links[j] == front[j]);
            } else {
                assert(link_backlink(note, links[n], target, paths) == Some(r[i]));
            }
        }
        assert forall|j: int|
            0 <= j < links.len() && (#[trigger] link_backlink(note, links[j], target, paths)) is Some
                implies exists|i: int|
            0 <= i < r.len() && r[i] == link_backlink(note, links[j], target, paths)->0 by {
            if j < n {
                assert(front[j] == links[j]);
                assert(link_backlink(note, front[j], target, paths) is Some);
                let i = choose|i: int|
                    0 <= i < before.len() && before[i] == link_backlink(note, front[j], target, paths)->0;
                assert(r[i] == before[i]);
            } else {
                assert(r[r.len() - 1] == link_backlink(note, links[n], target, paths)->0);
            }
        }
    }
}

/// Law: the backlinks to `target` are exactly the backlinks that the links
/// of the other notes make: each one comes from a link of a note other than
/// the target, and each such link's backlink is listed.
pub proof fn law_backlinks_are_the_links_to_the_target(
    notes: Seq<CachedNoteView>,
    target: Seq<char>,
    paths: Seq<Seq<char>>,
)
    ensures
        forall|i: int|
            #![trigger backlinks_spec(notes, target, paths)[i]]
            0 <= i < backlinks_spec(notes, target, paths).len() ==> exists|k: int, j: int|
                0 <= k < notes.len() && !same_note(notes[k].path, target) && 0 <= j
                    < notes[k].links.links.len() && link_backlink(
                    notes[k],
                    #[trigger] notes[k].links.links[j],
                    target,
                    paths,
                ) == Some(backlinks_spec(notes, target, paths)[i]),
        forall|k: int, j: int|
            0 <= k < notes.len() && !same_note(notes[k].path, target) && 0 <= j
                < notes[k].links.links.len() && (#[trigger] link_backlink(
                notes[k],
                notes[k].links.links[j],
                target,
                paths,
            )) is Some ==> exists|i: int|
                0 <= i < backlinks_spec(notes, target, paths).len() && backlinks_spec(
                    notes,
                    target,
                    paths,
                )[i] == link_backlink(notes[k], notes[k].links.links[j], target, paths)->0,
    decreases notes.len(),
{
    if notes.len() > 0 {
        let front = notes.drop_last();
        let last = notes.last();
        let n = notes.len() - 1;
        assert(notes[n] == last);
        law_backlinks_are_the_links_to_the_target(front, target, paths);
        lemma_links_backlinks_members(last, last.links.links, target, paths);
        let before = backlinks_spec(front, target, paths);
        let lb = links_backlinks(last, last.links.links, target, paths);
        let r = backlinks_spec(notes, target, paths);
        assert forall|i: int| #![trigger r[i]] 0 <= i < r.len() implies exists|k: int, j: int|
            0 <= k < notes.len() && !same_note(notes[k].path, target) && 0 <= j
                < notes[k].links.links.len() && link_backlink(
                notes[k],
                #[trigger] notes[k].links.links[j],
                target,
                paths,
            ) == Some(r[i]) by {
            if i < before.len() {
                assert(r[i] == before[i]);
                let (k, j) = choose|k: int, j: int|
                    0 <= k < front.len() && !same_note(front[k].path, target) && 0 <= j
                        < front[k].links.links.len() && link_backlink(
                        front[k],
                        #[trigger] front[k].links.links[j],
                        target,
                        paths,
                    ) == Some(before[i]);
                assert(notes[k] == front[k]);
            } else {
                assert(r[i] == lb[i - before.len()]);
                let j = choose|j: int|
                    0 <= j < last.links.links.len() && link_backlink(
                        last,
                        #[trigger] last.links.links[j],
                        target,
                        paths,
                    ) == Some(lb[i - before.len()]);
                assert(notes[n].links.links[j] == last.links.links[j]);
            }
        }
        assert forall|k: int, j: int|
            0 <= k < notes.len() && !same_note(notes[k].path, target) && 0 <= j
                < notes[k].links.links.len() && (#[trigger] link_backlink(
                notes[k],
                notes[k].links.links[j],
                target,
                paths,
            )) is Some implies exists|i: int|
            0 <= i < r.len() && r[i] == link_backlink(notes[k], notes[k].links.links[j], target, paths)->0 by {
            if k < n {
                assert(front[k] == notes[k]);
                assert(link_backlink(front[k], front[k].links.links[j], target, paths) is Some);
                let i = choose|i: int|
                    0 <= i < before.len() && before[i] == link_backlink(
                        front[k],
                        front[k].links.links[j],
                        target,
                        paths,
                    )->0;
                assert(r[i] == before[i]);
            } else {
                assert(link_backlink(last, last.links.links[j], target, paths) is Some);
                let i = choose|i: int|
                    0 <= i < lb.len() && lb[i] == link_backlink(last, last.links.links[j], target, paths)->0;
                assert(r[before.len() + i] == lb[i]);
            }
        }
    }
}

/// How many of `links` make a backlink of `note` to `target`.
pub open spec fn links_made(
    note: CachedNoteView,
    links: Seq<WikiLinkView>,
    target: Seq<char>,
    paths: Seq<Seq<char>>,
) -> nat
    decreases links.len(),
{
    if links.len() == 0 {
        0
    } else {
        links_made(note, links.drop_last(), target, paths) + if link_backlink(
            note,
            links.last(),
            target,
            paths,
        ) is Some {
            1nat
        } else {
            0nat
        }
    }
}

/// How many links of the notes other than `target` make a backlink to it.
pub open spec fn backlinks_made(notes: Seq<CachedNoteView>, target: Seq<char>, paths: Seq<Seq<char>>) -> nat
    decreases notes.len(),
{
    if notes.len() == 0 {
        0
    } else {
        backlinks_made(notes.drop_last(), target, paths) + if same_note(notes.last().path, target) {
            0nat
        } else {
            links_made(notes.last(), notes.last().links.links, target, paths)
        }
    }
}

proof fn lemma_links_made(
    note: CachedNoteView,
    links: Seq<WikiLinkView>,
    target: Seq<char>,
    paths: Seq<Seq<char>>,
)
    ensures
        links_backlinks(note, links, target, paths).len() == links_made(note, links, target, paths),
    decreases links.len(),
{
    if links.len() > 0 {
        lemma_links_made(note, links.drop_last(), target, paths);
    }
}

/// Law: there is one backlink for each link of another note that makes
/// one: as many backlinks as such links.
pub proof fn law_one_backlink_per_link(
    notes: Seq<CachedNoteView>,
    target: Seq<char>,
    paths: Seq<Seq<char>>,
)
    ensures
        backlinks_spec(notes, target, paths).len() == backlinks_made(notes, target, paths),
    decreases notes.len(),
{
    if notes.len() > 0 {
        law_one_backlink_per_link(notes.drop_last(), target, paths);
        lemma_links_made(notes.last(), notes.last().links.links, target, paths);
    }
}

} // verus!
