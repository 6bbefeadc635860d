//! Wiki links (`[[target]]`, `[[target|alias]]`, `[[target#heading]]`) and
//! headings of a Markdown note.

use std::ops::Range;

use pulldown_cmark::{Event, LinkType, Options, Parser, Tag, TagEnd};
use vstd::prelude::*;
use vstd::string::*;
use vstd::utf8::*;
use crate::text::{
    char_is_alphanumeric, char_lowercase, chars_of, copy_chars, decimal, find_char, index_of,
    is_alphanumeric, is_whitespace, is_whitespace_spec, lemma_boundary_after_ascii,
    lemma_decimal_injective, lemma_index_of_first, lemma_trim_idempotent, lemma_trim_keeps_chars,
    lowercase, push_decimal, string_from_chars, trim, trim_spec,
};

verus! {

/// The Markdown extensions the note parser enables, as `pulldown_cmark`
/// option bits: tables, footnotes (old and new style), strikethrough, task
/// lists, smart punctuation, heading attributes, YAML and `+++` metadata
/// blocks, math, GitHub-flavored syntax and wiki links.
pub const MARKDOWN_OPTION_BITS: u32 = 36862;

/// What the note indexer reads of one Markdown parser event.
#[derive(Debug)]
pub enum MarkdownEvent {
    /// The start of a wiki link: its destination and its byte range.
    WikiLink(String, usize, usize),
    /// The start of a heading at the given byte offset.
    HeadingStart(usize),
    /// The end of a heading.
    HeadingEnd,
    /// Text or inline code.
    Text(String),
    /// A soft or hard line break.
    LineBreak,
    /// Any other event.
    Other,
}

/// A Markdown parser event, as a value.
pub enum MarkdownEventView {
    WikiLink(Seq<char>, usize, usize),
    HeadingStart(usize),
    HeadingEnd,
    Text(Seq<char>),
    LineBreak,
    Other,
}

impl View for MarkdownEvent {
    type V = MarkdownEventView;

    open spec fn view(&self) -> MarkdownEventView {
        match self {
            MarkdownEvent::WikiLink(dest, start, end) => MarkdownEventView::WikiLink(
                dest@,
                *start,
                *end,
            ),
            MarkdownEvent::HeadingStart(start) => MarkdownEventView::HeadingStart(*start),
            MarkdownEvent::HeadingEnd => MarkdownEventView::HeadingEnd,
            MarkdownEvent::Text(text) => MarkdownEventView::Text(text@),
            MarkdownEvent::LineBreak => MarkdownEventView::LineBreak,
            MarkdownEvent::Other => MarkdownEventView::Other,
        }
    }
}

/// The views of a sequence of events.
pub open spec fn events_view(events: Seq<MarkdownEvent>) -> Seq<MarkdownEventView> {
    events.map_values(|e: MarkdownEvent| e@)
}

/// The events that `pulldown_cmark` produces for `source` with the options
/// of [`MARKDOWN_OPTION_BITS`], in document order.
pub uninterp spec fn markdown_events(source: Seq<char>) -> Seq<MarkdownEventView>;

/// Runs `pulldown_cmark::Parser::new_ext(..).into_offset_iter()` on
/// `source` and keeps, of each event, what the note indexer reads. The
/// result is named by [`markdown_events`]; nothing more of the parser's
/// behaviour is stated.
#[verifier::external_body]
fn parse_markdown_events(source: &str) -> (events: Vec<MarkdownEvent>)
    ensures
        events_view(events@) == markdown_events(source@),
{
    let options = Options::from_bits_truncate(MARKDOWN_OPTION_BITS);
    let mut events = Vec::new();
    for (event, range) in Parser::new_ext(source, options).into_offset_iter() {
        events.push(match event {
            Event::Start(Tag::Link { link_type: LinkType::WikiLink { .. }, dest_url, .. }) =>
                MarkdownEvent::WikiLink(dest_url.into_string(), range.start, range.end),
            Event::Start(Tag::Heading { .. }) => MarkdownEvent::HeadingStart(range.start),
            Event::End(TagEnd::Heading(_)) => MarkdownEvent::HeadingEnd,
            Event::Text(text) | Event::Code(text) => MarkdownEvent::Text(text.into_string()),
            Event::SoftBreak | Event::HardBreak => MarkdownEvent::LineBreak,
            _ => MarkdownEvent::Other,
        });
    }
    events
}

/// A wiki link of a note: its trimmed target and its byte range in the
/// note's source.
#[derive(Debug, PartialEq, Eq)]
pub struct WikiLink {
    pub target: String,
    pub range: Range<usize>,
}

/// A wiki link, as a value.
pub struct WikiLinkView {
    pub target: Seq<char>,
    pub start: usize,
    pub end: usize,
}

impl View for WikiLink {
    type V = WikiLinkView;

    open spec fn view(&self) -> WikiLinkView {
        WikiLinkView { target: self.target@, start: self.range.start, end: self.range.end }
    }
}

impl Clone for WikiLink {
    fn clone(&self) -> (r: Self)
        ensures
            r@ == self@,
    {
        WikiLink {
            target: self.target.clone(),
            range: Range { start: self.range.start, end: self.range.end },
        }
    }
}

/// A heading of a note: its text, its unique slug, and the byte offset
/// where it starts.
#[derive(Clone, Debug, PartialEq, Eq)]
pub struct Heading {
    pub title: String,
    pub slug: String,
    pub offset: usize,
}

/// A heading, as a value.
pub struct HeadingView {
    pub title: Seq<char>,
    pub slug: Seq<char>,
    pub offset: usize,
}

impl View for Heading {
    type V = HeadingView;

    open spec fn view(&self) -> HeadingView {
        HeadingView { title: self.title@, slug: self.slug@, offset: self.offset }
    }
}

/// The wiki links and headings of a note, in document order.
#[derive(Clone, Debug)]
pub struct NoteLinks {
    pub links: Vec<WikiLink>,
    pub headings: Vec<Heading>,
}

/// The links and headings of a note, as values.
pub struct NoteLinksView {
    pub links: Seq<WikiLinkView>,
    pub headings: Seq<HeadingView>,
}

impl View for NoteLinks {
    type V = NoteLinksView;

    open spec fn view(&self) -> NoteLinksView {
        NoteLinksView {
            links: self.links@.map_values(|l: WikiLink| l@),
            headings: self.headings@.map_values(|h: Heading| h@),
        }
    }
}

/// The slug text contributed by one heading character: letters and digits
/// lower-cased, `-` and `_` kept, whitespace turned into `-`, anything else
/// dropped.
pub open spec fn slug_char(c: char) -> Seq<char> {
    if char_is_alphanumeric(c) {
        char_lowercase(c)
    } else if c == '-' || c == '_' {
        seq![c]
    } else if is_whitespace_spec(c) {
        seq!['-']
    } else {
        Seq::empty()
    }
}

/// The URL-style slug of a heading text.
pub open spec fn heading_slug(text: Seq<char>) -> Seq<char>
    decreases text.len(),
{
    if text.len() == 0 {
        Seq::empty()
    } else {
        heading_slug(text.drop_last()) + slug_char(text.last())
    }
}

/// The slug `base-k`.
pub open spec fn suffixed(base: Seq<char>, k: nat) -> Seq<char> {
    base + seq!['-'] + decimal(k)
}

/// Whether one of `headings` already has the slug `slug`.
pub open spec fn slug_taken(headings: Seq<HeadingView>, slug: Seq<char>) -> bool {
    exists|i: int| 0 <= i < headings.len() && (#[trigger] headings[i]).slug == slug
}

/// Whether `slug` is `base-k` for some `k >= from`.
pub open spec fn suffixed_from(slug: Seq<char>, base: Seq<char>, from: nat) -> bool {
    exists|k: nat| k >= from && slug == #[trigger] suffixed(base, k)
}

/// How many of `headings` have a slug `base-k` with `k >= from`.
pub open spec fn taken_from(headings: Seq<HeadingView>, base: Seq<char>, from: nat) -> nat
    decreases headings.len(),
{
    if headings.len() == 0 {
        0
    } else {
        taken_from(headings.drop_last(), base, from) + if suffixed_from(
            headings.last().slug,
            base,
            from,
        ) {
            1nat
        } else {
            0nat
        }
    }
}

proof fn lemma_suffixed_injective(base: Seq<char>, a: nat, b: nat)
    requires
        suffixed(base, a) == suffixed(base, b),
    ensures
        a == b,
{
    assert(decimal(a) =~= suffixed(base, a).skip(base.len() + 1int));
    assert(decimal(b) =~= suffixed(base, b).skip(base.len() + 1int));
    lemma_decimal_injective(a, b);
}

/// Taking `base-from` leaves one fewer slug of the form `base-k`, `k > from`.
pub proof fn lemma_taken_from_decreases(headings: Seq<HeadingView>, base: Seq<char>, from: nat)
    ensures
        taken_from(headings, base, from + 1) <= taken_from(headings, base, from),
        taken_from(headings, base, from) <= headings.len(),
        slug_taken(headings, suffixed(base, from)) ==> taken_from(headings, base, from + 1)
            < taken_from(headings, base, from),
    decreases headings.len(),
{
    if headings.len() > 0 {
        let front = headings.drop_last();
        lemma_taken_from_decreases(front, base, from);
        let s = headings.last().slug;
        if suffixed_from(s, base, from + 1) {
            let k = choose|k: nat| k >= from + 1 && s == #[trigger] suffixed(base, k);
            assert(suffixed_from(s, base, from));
            if s == suffixed(base, from) {
                lemma_suffixed_injective(base, k, from);
            }
        }
        if s == suffixed(base, from) {
            assert(suffixed_from(s, base, from));
        }
        if slug_taken(headings, suffixed(base, from)) && s != suffixed(base, from) {
            let i = choose|i: int|
                0 <= i < headings.len() && (#[trigger] headings[i]).slug == suffixed(base, from);
            assert(i < front.len());
            assert(front[i] == headings[i]);
            assert(slug_taken(front, suffixed(base, from)));
        }
    }
}

/// The first slug from `base-from` on that no heading has yet, and the
/// count after it.
pub open spec fn next_free_slug(headings: Seq<HeadingView>, base: Seq<char>, from: nat) -> (
    Seq<char>,
    nat,
)
    decreases taken_from(headings, base, from),
{
    if slug_taken(headings, suffixed(base, from)) {
        proof {
            lemma_taken_from_decreases(headings, base, from);
        }
        next_free_slug(headings, base, from + 1)
    } else {
        (suffixed(base, from), from + 1)
    }
}

/// The slug a heading with base slug `base` gets when `count` headings
/// with that base came before, and the new count: `base` the first time,
/// `base-count` afterwards, moving on while the slug is taken.
pub open spec fn assign_slug(headings: Seq<HeadingView>, base: Seq<char>, count: nat) -> (
    Seq<char>,
    nat,
) {
    let first = if count == 0 {
        base
    } else {
        suffixed(base, count)
    };
    if slug_taken(headings, first) {
        next_free_slug(headings, base, count + 1)
    } else {
        (first, count + 1)
    }
}

/// The position of `key` in an association list.
pub open spec fn key_index(counts: Seq<(Seq<char>, nat)>, key: Seq<char>) -> Option<int>
    decreases counts.len(),
{
    if counts.len() == 0 {
        None
    } else if counts[0].0 == key {
        Some(0)
    } else {
        match key_index(counts.drop_first(), key) {
            Some(i) => Some(i + 1),
            None => None,
        }
    }
}

/// The count stored for `key`, zero when there is none.
pub open spec fn count_for(counts: Seq<(Seq<char>, nat)>, key: Seq<char>) -> nat {
    match key_index(counts, key) {
        Some(i) => counts[i].1,
        None => 0,
    }
}

/// `counts` with the count for `key` set to `value`.
pub open spec fn set_count(counts: Seq<(Seq<char>, nat)>, key: Seq<char>, value: nat) -> Seq<
    (Seq<char>, nat),
> {
    match key_index(counts, key) {
        Some(i) => counts.update(i, (key, value)),
        None => counts.push((key, value)),
    }
}

/// The state of the indexer between two events.
pub struct IndexState {
    pub links: Seq<WikiLinkView>,
    pub headings: Seq<HeadingView>,
    pub current: Option<(usize, Seq<char>)>,
    pub counts: Seq<(Seq<char>, nat)>,
}

/// The indexer's state before the first event.
pub open spec fn initial_index_state() -> IndexState {
    IndexState {
        links: Seq::empty(),
        headings: Seq::empty(),
        current: None,
        counts: Seq::empty(),
    }
}

/// How one event changes the indexer's state: a wiki link is recorded
/// with its trimmed destination; a heading collects its text, with a space
/// per line break, and gets a slug when it ends.
pub open spec fn index_step(state: IndexState, event: MarkdownEventView) -> IndexState {
    match event {
        MarkdownEventView::WikiLink(dest, start, end) => IndexState {
            links: state.links.push(WikiLinkView { target: trim_spec(dest), start, end }),
            ..state
        },
        MarkdownEventView::HeadingStart(start) => IndexState {
            current: Some((start, Seq::empty())),
            ..state
        },
        MarkdownEventView::Text(text) => match state.current {
            Some((offset, title)) => IndexState { current: Some((offset, title + text)), ..state },
            None => state,
        },
        MarkdownEventView::LineBreak => match state.current {
            Some((offset, title)) => IndexState {
                current: Some((offset, title.push(' '))),
                ..state
            },
            None => state,
        },
        MarkdownEventView::HeadingEnd => match state.current {
            Some((offset, title)) => {
                let base = heading_slug(title);
                let (slug, next) = assign_slug(
                    state.headings,
                    base,
                    count_for(state.counts, base),
                );
                IndexState {
                    links: state.links,
                    headings: state.headings.push(HeadingView { title, slug, offset }),
                    current: None,
                    counts: set_count(state.counts, base, next),
                }
            },
            None => state,
        },
        MarkdownEventView::Other => state,
    }
}

/// The indexer's state after `events`.
pub open spec fn index_events(events: Seq<MarkdownEventView>) -> IndexState
    decreases events.len(),
{
    if events.len() == 0 {
        initial_index_state()
    } else {
        index_step(index_events(events.drop_last()), events.last())
    }
}

/// The wiki links and headings of a note whose parser events are `events`.
pub open spec fn note_links_of(events: Seq<MarkdownEventView>) -> NoteLinksView {
    NoteLinksView {
        links: index_events(events).links,
        headings: index_events(events).headings,
    }
}

/// The slug of a heading text.
pub fn heading_slug_exec(text: &Vec<char>) -> (r: Vec<char>)
    ensures
        r@ == heading_slug(text@),
{
    let mut r: Vec<char> = Vec::new();
    let mut i: usize = 0;
    while i < text.len()
        invariant
            i <= text.len(),
            r@ == heading_slug(text@.take(i as int)),
        decreases text.len() - i,
    {
        let c = text[i];
        proof {
            assert(text@.take(i + 1).drop_last() =~= text@.take(i as int));
            assert(text@.take(i + 1).last() == c);
        }
        let ghost before = r@;
        if is_alphanumeric(c) {
            let lower = lowercase(c);
            let mut j: usize = 0;
            while j < lower.len()
                invariant
                    j <= lower.len(),
                    r@ == before + lower@.take(j as int),
                decreases lower.len() - j,
            {
                r.push(lower[j]);
                assert(lower@.take(j + 1) =~= lower@.take(j as int).push(lower@[j as int]));
                j += 1;
            }
            assert(lower@.take(lower.len() as int) =~= lower@);
        } else if c == '-' || c == '_' {
            r.push(c);
            assert(r@ =~= before + seq![c]);
        } else if is_whitespace(c) {
            r.push('-');
            assert(r@ =~= before + seq!['-']);
        } else {
            assert(r@ =~= before + Seq::<char>::empty());
        }
        i += 1;
    }
    assert(text@.take(text.len() as int) =~= text@);
    r
}

/// The slug of a heading text (`# A **heading**` has the slug
/// `a-heading`).
pub fn generate_heading_slug(text: &str) -> (r: String)
    ensures
        r@ == heading_slug(text@),
{
    let chars = chars_of(text);
    let slug = heading_slug_exec(&chars);
    string_from_chars(slug.as_slice())
}

/// The views of an association list of counts.
pub open spec fn counts_view(c: Seq<(Vec<char>, u128)>) -> Seq<(Seq<char>, nat)> {
    c.map_values(|e: (Vec<char>, u128)| (e.0@, e.1 as nat))
}

proof fn lemma_key_index_prefix(c: Seq<(Seq<char>, nat)>, key: Seq<char>, i: int)
    requires
        0 <= i <= c.len(),
        forall|j: int| 0 <= j < i ==> (#[trigger] c[j]).0 != key,
    ensures
        i < c.len() && c[i].0 == key ==> key_index(c, key) == Some(i),
        i == c.len() ==> key_index(c, key) is None,
    decreases i,
{
    if i > 0 {
        assert forall|j: int| 0 <= j < i - 1 implies (#[trigger] c.drop_first()[j]).0 != key by {
            assert(c.drop_first()[j] == c[j + 1]);
        }
        lemma_key_index_prefix(c.drop_first(), key, i - 1);
    }
}

proof fn lemma_key_index_bounds(c: Seq<(Seq<char>, nat)>, key: Seq<char>)
    ensures
        key_index(c, key) matches Some(i) ==> 0 <= i < c.len() && c[i].0 == key,
    decreases c.len(),
{
    if c.len() > 0 && c[0].0 != key {
        lemma_key_index_bounds(c.drop_first(), key);
    }
}

fn find_key(counts: &Vec<(Vec<char>, u128)>, key: &Vec<char>) -> (r: Option<usize>)
    ensures
        match r {
            Some(i) => i < counts.len() && key_index(counts_view(counts@), key@) == Some(i as int),
            None => key_index(counts_view(counts@), key@) is None,
        },
{
    let ghost cv = counts_view(counts@);
    let mut i: usize = 0;
    while i < counts.len()
        invariant
            i <= counts.len(),
            cv == counts_view(counts@),
            forall|j: int| 0 <= j < i ==> (#[trigger] cv[j]).0 != key@,
        decreases counts.len() - i,
    {
        if crate::note_links::chars_equal(&counts[i].0, key) {
            proof {
                lemma_key_index_prefix(cv, key@, i as int);
            }
            return Some(i);
        }
        i += 1;
    }
    proof {
        lemma_key_index_prefix(cv, key@, i as int);
    }
    None
}

/// Whether one of `slugs` is `slug`; `slugs` are the slugs of `headings`.
fn slug_taken_exec(slugs: &Vec<Vec<char>>, Ghost(headings): Ghost<Seq<HeadingView>>, slug: &Vec<
    char,
>) -> (r: bool)
    requires
        slugs.len() == headings.len(),
        forall|j: int| 0 <= j < slugs.len() ==> (#[trigger] slugs@[j])@ == headings[j].slug,
    ensures
        r == slug_taken(headings, slug@),
{
    let mut i: usize = 0;
    while i < slugs.len()
        invariant
            i <= slugs.len(),
            slugs.len() == headings.len(),
            forall|j: int| 0 <= j < slugs.len() ==> (#[trigger] slugs@[j])@ == headings[j].slug,
            forall|j: int| 0 <= j < i ==> (#[trigger] headings[j]).slug != slug@,
        decreases slugs.len() - i,
    {
        if crate::note_links::chars_equal(&slugs[i], slug) {
            assert(headings[i as int].slug == slug@);
            return true;
        }
        i += 1;
    }
    false
}

/// `base-k` as characters.
fn suffixed_exec(base: &Vec<char>, k: u128) -> (r: Vec<char>)
    ensures
        r@ == suffixed(base@, k as nat),
{
    let mut r = copy_chars(base.as_slice());
    r.push('-');
    push_decimal(&mut r, k);
    r
}

/// `h * h`, a bound on any slug count after `h` headings.
pub open spec fn count_bound(h: nat) -> nat {
    h * h
}

proof fn lemma_count_bound_step(h: nat)
    ensures
        count_bound(h) + h + 1 <= count_bound(h + 1),
        count_bound(h) <= count_bound(h + 1),
{
    assert((h + 1) * (h + 1) == h * h + 2 * h + 1) by (nonlinear_arith);
}

proof fn lemma_count_bound_max(h: nat)
    requires
        h <= 0xffff_ffff_ffff_ffff,
    ensures
        count_bound(h) + h + 1 <= 0xffff_ffff_ffff_ffff_ffff_ffff_ffff_ffff,
{
    assert(h * h <= 0xffff_ffff_ffff_ffff * 0xffff_ffff_ffff_ffff) by (nonlinear_arith)
        requires
            h <= 0xffff_ffff_ffff_ffff,
    ;
}

proof fn lemma_taken_from_excludes(headings: Seq<HeadingView>, base: Seq<char>, from: nat, i: int)
    requires
        0 <= i < headings.len(),
        !suffixed_from(headings[i].slug, base, from),
    ensures
        taken_from(headings, base, from) + 1 <= headings.len(),
    decreases headings.len(),
{
    let front = headings.drop_last();
    lemma_taken_from_decreases(front, base, from);
    if i < headings.len() - 1 {
        assert(front[i] == headings[i]);
        lemma_taken_from_excludes(front, base, from, i);
    }
}

/// The slug a new heading with base slug `base` gets, and the new count.
fn assign_slug_exec(
    slugs: &Vec<Vec<char>>,
    Ghost(headings): Ghost<Seq<HeadingView>>,
    base: &Vec<char>,
    count: u128,
) -> (r: (Vec<char>, u128))
    requires
        slugs.len() == headings.len(),
        forall|j: int| 0 <= j < slugs.len() ==> (#[trigger] slugs@[j])@ == headings[j].slug,
        count <= count_bound(headings.len()),
    ensures
        (r.0@, r.1 as nat) == assign_slug(headings, base@, count as nat),
        r.1 <= count + 1 + headings.len(),
{
    proof {
        lemma_count_bound_max(headings.len());
    }
    let first = if count == 0 {
        copy_chars(base.as_slice())
    } else {
        suffixed_exec(base, count)
    };
    if !slug_taken_exec(slugs, Ghost(headings), &first) {
        return (first, count + 1);
    }
    proof {
        let i = choose|i: int| 0 <= i < headings.len() && (#[trigger] headings[i]).slug == first@;
        if suffixed_from(first@, base@, (count + 1) as nat) {
            let k = choose|k: nat| k >= count + 1 && first@ == #[trigger] suffixed(base@, k);
            if count == 0 {
                assert(suffixed(base@, k).len() > base@.len());
            } else {
                lemma_suffixed_injective(base@, k, count as nat);
            }
        }
        lemma_taken_from_excludes(headings, base@, (count + 1) as nat, i);
    }
    let mut c: u128 = count + 1;
    let mut candidate = suffixed_exec(base, c);
    while slug_taken_exec(slugs, Ghost(headings), &candidate)
        invariant
            slugs.len() == headings.len(),
            forall|j: int| 0 <= j < slugs.len() ==> (#[trigger] slugs@[j])@ == headings[j].slug,
            count + 1 <= c,
            count <= count_bound(headings.len()),
            count_bound(headings.len()) + headings.len() + 1
                <= 0xffff_ffff_ffff_ffff_ffff_ffff_ffff_ffff,
            candidate@ == suffixed(base@, c as nat),
            c - count - 1 + taken_from(headings, base@, c as nat) + 1 <= headings.len(),
            next_free_slug(headings, base@, c as nat) == next_free_slug(
                headings,
                base@,
                (count + 1) as nat,
            ),
        decreases taken_from(headings, base@, c as nat),
    {
        proof {
            lemma_taken_from_decreases(headings, base@, c as nat);
            lemma_taken_from_decreases(headings, base@, (c + 1) as nat);
        }
        c = c + 1;
        candidate = suffixed_exec(base, c);
    }
    (candidate, c + 1)
}

fn set_count_exec(counts: &mut Vec<(Vec<char>, u128)>, key: Vec<char>, value: u128)
    ensures
        counts_view(final(counts)@) == set_count(counts_view(old(counts)@), key@, value as nat),
{
    let ghost kv = key@;
    match find_key(counts, &key) {
        Some(i) => {
            counts.set(i, (key, value));
            assert(counts_view(counts@) =~= counts_view(old(counts)@).update(
                i as int,
                (kv, value as nat),
            ));
        },
        None => {
            counts.push((key, value));
            assert(counts_view(counts@) =~= counts_view(old(counts)@).push((kv, value as nat)));
        },
    }
}

/// The view of the heading being read.
pub open spec fn current_view(c: Option<(usize, Vec<char>)>) -> Option<(usize, Seq<char>)> {
    match c {
        Some((offset, title)) => Some((offset, title@)),
        None => None,
    }
}

/// The wiki links and headings of a note whose parser events are `events`.
pub fn note_links_from_events(events: &Vec<MarkdownEvent>) -> (r: NoteLinks)
    ensures
        r@ == note_links_of(events_view(events@)),
{
    let ghost ev = events_view(events@);
    let mut links: Vec<WikiLink> = Vec::new();
    let mut headings: Vec<Heading> = Vec::new();
    let mut slugs: Vec<Vec<char>> = Vec::new();
    let mut current: Option<(usize, Vec<char>)> = None;
    let mut counts: Vec<(Vec<char>, u128)> = Vec::new();
    let mut i: usize = 0;
    proof {
        assert(ev.take(0) =~= Seq::<MarkdownEventView>::empty());
        assert(links@.map_values(|l: WikiLink| l@) =~= Seq::<WikiLinkView>::empty());
        assert(headings@.map_values(|h: Heading| h@) =~= Seq::<HeadingView>::empty());
        assert(counts_view(counts@) =~= Seq::<(Seq<char>, nat)>::empty());
    }
    while i < events.len()
        invariant
            i <= events.len(),
            ev == events_view(events@),
            links@.map_values(|l: WikiLink| l@) == index_events(ev.take(i as int)).links,
            headings@.map_values(|h: Heading| h@) == index_events(ev.take(i as int)).headings,
            current_view(current) == index_events(ev.take(i as int)).current,
            counts_view(counts@) == index_events(ev.take(i as int)).counts,
            slugs.len() == headings.len(),
            forall|j: int| 0 <= j < slugs.len() ==> (#[trigger] slugs@[j])@ == headings@[j].slug@,
            forall|j: int|
                0 <= j < counts.len() ==> (#[trigger] counts@[j]).1 <= count_bound(
                    headings.len() as nat,
                ),
        decreases events.len() - i,
    {
        let ghost state = index_events(ev.take(i as int));
        let ghost hv = headings@.map_values(|h: Heading| h@);
        proof {
            assert(ev.take(i + 1).drop_last() =~= ev.take(i as int));
            assert(ev.take(i + 1).last() == events@[i as int]@);
        }
        match &events[i] {
            MarkdownEvent::WikiLink(dest, start, end) => {
                let target = trim(dest.as_str()).to_owned();
                let link = WikiLink { target, range: Range { start: *start, end: *end } };
                let ghost lv = link@;
                links.push(link);
                assert(links@.map_values(|l: WikiLink| l@) =~= state.links.push(lv));
            },
            MarkdownEvent::HeadingStart(start) => {
                current = Some((*start, Vec::new()));
                assert(current_view(current) == Some((*start, Seq::<char>::empty())));
            },
            MarkdownEvent::Text(text) => {
                if let Some((offset, title)) = current {
                    let extra = chars_of(text.as_str());
                    let mut title = title;
                    let ghost before = title@;
                    let mut j: usize = 0;
                    while j < extra.len()
                        invariant
                            j <= extra.len(),
                            title@ == before + extra@.take(j as int),
                        decreases extra.len() - j,
                    {
                        title.push(extra[j]);
                        assert(extra@.take(j + 1) =~= extra@.take(j as int).push(
                            extra@[j as int],
                        ));
                        j += 1;
                    }
                    assert(extra@.take(extra.len() as int) =~= extra@);
                    current = Some((offset, title));
                }
            },
            MarkdownEvent::LineBreak => {
                if let Some((offset, title)) = current {
                    let mut title = title;
                    title.push(' ');
                    current = Some((offset, title));
                }
            },
            MarkdownEvent::HeadingEnd => {
                if let Some((offset, title)) = current {
                    let base = heading_slug_exec(&title);
                    let count = match find_key(&counts, &base) {
                        Some(k) => counts[k].1,
                        None => 0,
                    };
                    proof {
                        lemma_key_index_bounds(counts_view(counts@), base@);
                        assert(hv.len() == headings.len());
                    }
                    assert(slugs.len() == hv.len());
                    assert(forall|j: int|
                        0 <= j < slugs.len() ==> (#[trigger] slugs@[j])@ == hv[j].slug);
                    assert(count <= count_bound(hv.len()));
                    let (slug, next) = assign_slug_exec(&slugs, Ghost(hv), &base, count);
                    proof {
                        lemma_count_bound_step(headings.len() as nat);
                    }
                    let ghost old_counts = counts@;
                    let ghost bv = base@;
                    set_count_exec(&mut counts, base, next);
                    let heading = Heading {
                        title: string_from_chars(title.as_slice()),
                        slug: string_from_chars(slug.as_slice()),
                        offset,
                    };
                    let ghost h = heading@;
                    headings.push(heading);
                    slugs.push(slug);
                    current = None;
                    proof {
                        assert(headings@.map_values(|h: Heading| h@) =~= hv.push(h));
                        assert forall|j: int| 0 <= j < counts.len() implies (
                        #[trigger] counts@[j]).1 <= count_bound(headings.len() as nat) by {
                            let cv = counts_view(counts@);
                            let ocv = counts_view(old_counts);
                            assert(cv[j].1 == counts@[j].1);
                            assert(cv == set_count(ocv, bv, next as nat));
                            lemma_key_index_bounds(ocv, bv);
                            assert(next <= count_bound(headings.len() as nat));
                            assert(cv.len() == counts@.len());
                            assert(ocv.len() == old_counts.len());
                            match key_index(ocv, bv) {
                                Some(k) => {
                                    assert(cv.len() == ocv.len());
                                    if j != k {
                                        assert(ocv[j] == (old_counts[j].0@, old_counts[j].1 as nat));
                                        assert(cv[j] == ocv[j]);
                                        assert(old_counts[j].1 <= count_bound(hv.len()));
                                    }
                                },
                                None => {
                                    if j < old_counts.len() {
                                        assert(ocv[j] == (old_counts[j].0@, old_counts[j].1 as nat));
                                        assert(cv[j] == ocv[j]);
                                        assert(old_counts[j].1 <= count_bound(hv.len()));
                                    }
                                },
                            }
                        }
                    }
                }
            },
            MarkdownEvent::Other => {},
        }
        i += 1;
    }
    assert(ev.take(events.len() as int) =~= ev);
    NoteLinks { links, headings }
}

/// Finds the wiki links and headings of a Markdown note. Links inside
/// code, math, HTML and front matter are not links.
pub fn parse(source: &str) -> (r: NoteLinks)
    ensures
        r@ == note_links_of(markdown_events(source@)),
{
    let events = parse_markdown_events(source);
    note_links_from_events(&events)
}

/// The position of the first link of `links` whose range holds `offset`.
pub open spec fn link_index_at(links: Seq<WikiLinkView>, offset: usize) -> Option<int>
    decreases links.len(),
{
    if links.len() == 0 {
        None
    } else if links[0].start <= offset < links[0].end {
        Some(0)
    } else {
        match link_index_at(links.drop_first(), offset) {
            Some(i) => Some(i + 1),
            None => None,
        }
    }
}

proof fn lemma_link_index_prefix(links: Seq<WikiLinkView>, offset: usize, i: int)
    requires
        0 <= i <= links.len(),
        forall|j: int|
            0 <= j < i ==> !((#[trigger] links[j]).start <= offset < links[j].end),
    ensures
        i < links.len() && links[i].start <= offset < links[i].end ==> link_index_at(
            links,
            offset,
        ) == Some(i),
        i == links.len() ==> link_index_at(links, offset) is None,
    decreases i,
{
    if i > 0 {
        assert forall|j: int| 0 <= j < i - 1 implies !((
        #[trigger] links.drop_first()[j]).start <= offset < links.drop_first()[j].end) by {
            assert(links.drop_first()[j] == links[j + 1]);
        }
        lemma_link_index_prefix(links.drop_first(), offset, i - 1);
    }
}

/// The position of the first heading of `headings` satisfying `title` or
/// having the slug `slug`.
pub open spec fn heading_with_title(headings: Seq<HeadingView>, title: Seq<char>) -> Option<int>
    decreases headings.len(),
{
    if headings.len() == 0 {
        None
    } else if headings[0].title == title {
        Some(0)
    } else {
        match heading_with_title(headings.drop_first(), title) {
            Some(i) => Some(i + 1),
            None => None,
        }
    }
}

/// The position of the first heading of `headings` with slug `slug`.
pub open spec fn heading_with_slug(headings: Seq<HeadingView>, slug: Seq<char>) -> Option<int>
    decreases headings.len(),
{
    if headings.len() == 0 {
        None
    } else if headings[0].slug == slug {
        Some(0)
    } else {
        match heading_with_slug(headings.drop_first(), slug) {
            Some(i) => Some(i + 1),
            None => None,
        }
    }
}

/// Where the heading named by a link fragment starts: the first heading
/// whose text is the fragment, else the first whose slug is the fragment's
/// slug.
pub open spec fn heading_offset_spec(headings: Seq<HeadingView>, fragment: Seq<char>) -> Option<
    usize,
> {
    match heading_with_title(headings, fragment) {
        Some(i) => Some(headings[i].offset),
        None => match heading_with_slug(headings, heading_slug(fragment)) {
            Some(i) => Some(headings[i].offset),
            None => None,
        },
    }
}

proof fn lemma_heading_title_prefix(headings: Seq<HeadingView>, title: Seq<char>, i: int)
    requires
        0 <= i <= headings.len(),
        forall|j: int| 0 <= j < i ==> (#[trigger] headings[j]).title != title,
    ensures
        i < headings.len() && headings[i].title == title ==> heading_with_title(headings, title)
            == Some(i),
        i == headings.len() ==> heading_with_title(headings, title) is None,
    decreases i,
{
    if i > 0 {
        assert forall|j: int| 0 <= j < i - 1 implies (
        #[trigger] headings.drop_first()[j]).title != title by {
            assert(headings.drop_first()[j] == headings[j + 1]);
        }
        lemma_heading_title_prefix(headings.drop_first(), title, i - 1);
    }
}

proof fn lemma_heading_slug_prefix(headings: Seq<HeadingView>, slug: Seq<char>, i: int)
    requires
        0 <= i <= headings.len(),
        forall|j: int| 0 <= j < i ==> (#[trigger] headings[j]).slug != slug,
    ensures
        i < headings.len() && headings[i].slug == slug ==> heading_with_slug(headings, slug)
            == Some(i),
        i == headings.len() ==> heading_with_slug(headings, slug) is None,
    decreases i,
{
    if i > 0 {
        assert forall|j: int| 0 <= j < i - 1 implies (
        #[trigger] headings.drop_first()[j]).slug != slug by {
            assert(headings.drop_first()[j] == headings[j + 1]);
        }
        lemma_heading_slug_prefix(headings.drop_first(), slug, i - 1);
    }
}

/// A fragment that is the text of a heading names the first heading with
/// that text, whatever the slugs of the headings before it.
pub proof fn law_heading_offset_takes_the_first_exact_title(
    headings: Seq<HeadingView>,
    fragment: Seq<char>,
    k: int,
)
    requires
        0 <= k < headings.len(),
        headings[k].title == fragment,
        forall|j: int| 0 <= j < k ==> (#[trigger] headings[j]).title != fragment,
    ensures
        heading_offset_spec(headings, fragment) == Some(headings[k].offset),
{
    lemma_heading_title_prefix(headings, fragment, k);
}

/// A fragment that is the text of no heading names the first heading whose
/// slug is the fragment's slug.
pub proof fn law_heading_offset_falls_back_to_the_first_slug(
    headings: Seq<HeadingView>,
    fragment: Seq<char>,
    k: int,
)
    requires
        forall|j: int| 0 <= j < headings.len() ==> (#[trigger] headings[j]).title != fragment,
        0 <= k < headings.len(),
        headings[k].slug == heading_slug(fragment),
        forall|j: int| 0 <= j < k ==> (#[trigger] headings[j]).slug != heading_slug(fragment),
    ensures
        heading_offset_spec(headings, fragment) == Some(headings[k].offset),
{
    lemma_heading_title_prefix(headings, fragment, headings.len() as int);
    lemma_heading_slug_prefix(headings, heading_slug(fragment), k);
}

/// A fragment that matches no heading by text or by slug names none.
pub proof fn law_heading_offset_of_an_unknown_fragment(
    headings: Seq<HeadingView>,
    fragment: Seq<char>,
)
    requires
        forall|j: int|
            0 <= j < headings.len() ==> (#[trigger] headings[j]).title != fragment
                && headings[j].slug != heading_slug(fragment),
    ensures
        heading_offset_spec(headings, fragment) is None,
{
    lemma_heading_title_prefix(headings, fragment, headings.len() as int);
    lemma_heading_slug_prefix(headings, heading_slug(fragment), headings.len() as int);
}

impl NoteLinks {
    /// No links and no headings.
    pub fn new() -> (r: NoteLinks)
        ensures
            r@.links.len() == 0,
            r@.headings.len() == 0,
    {
        NoteLinks { links: Vec::new(), headings: Vec::new() }
    }

    /// The first wiki link whose source range holds the byte `offset`.
    pub fn link_at(&self, offset: usize) -> (r: Option<&WikiLink>)
        ensures
            match r {
                Some(link) => link_index_at(self@.links, offset) matches Some(i) && link@
                    == self@.links[i],
                None => link_index_at(self@.links, offset) is None,
            },
    {
        let ghost lv = self@.links;
        let mut i: usize = 0;
        while i < self.links.len()
            invariant
                i <= self.links.len(),
                lv == self.links@.map_values(|l: WikiLink| l@),
                forall|j: int| 0 <= j < i ==> !((#[trigger] lv[j]).start <= offset < lv[j].end),
            decreases self.links.len() - i,
        {
            let link = &self.links[i];
            assert(lv[i as int] == link@);
            if link.range.start <= offset && offset < link.range.end {
                proof {
                    lemma_link_index_prefix(lv, offset, i as int);
                }
                return Some(link);
            }
            i += 1;
        }
        proof {
            lemma_link_index_prefix(lv, offset, i as int);
        }
        None
    }

    /// The byte offset of the heading that a link fragment names: by its
    /// text first, then by its slug.
    pub fn heading_offset(&self, fragment: &str) -> (r: Option<usize>)
        ensures
            r == heading_offset_spec(self@.headings, fragment@),
    {
        let ghost hv = self@.headings;
        let title = chars_of(fragment);
        let mut i: usize = 0;
        while i < self.headings.len()
            invariant
                i <= self.headings.len(),
                hv == self.headings@.map_values(|h: Heading| h@),
                title@ == fragment@,
                forall|j: int| 0 <= j < i ==> (#[trigger] hv[j]).title != fragment@,
            decreases self.headings.len() - i,
        {
            let heading = &self.headings[i];
            assert(hv[i as int] == heading@);
            let heading_title = chars_of(heading.title.as_str());
            if crate::note_links::chars_equal(&heading_title, &title) {
                proof {
                    lemma_heading_title_prefix(hv, fragment@, i as int);
                }
                return Some(heading.offset);
            }
            i += 1;
        }
        proof {
            lemma_heading_title_prefix(hv, fragment@, i as int);
        }
        let slug = heading_slug_exec(&title);
        let mut k: usize = 0;
        while k < self.headings.len()
            invariant
                k <= self.headings.len(),
                hv == self.headings@.map_values(|h: Heading| h@),
                slug@ == heading_slug(fragment@),
                heading_with_title(hv, fragment@) is None,
                forall|j: int| 0 <= j < k ==> (#[trigger] hv[j]).slug != slug@,
            decreases self.headings.len() - k,
        {
            let heading = &self.headings[k];
            assert(hv[k as int] == heading@);
            let heading_slug_chars = chars_of(heading.slug.as_str());
            if crate::note_links::chars_equal(&heading_slug_chars, &slug) {
                proof {
                    lemma_heading_slug_prefix(hv, slug@, k as int);
                }
                return Some(heading.offset);
            }
            k += 1;
        }
        proof {
            lemma_heading_slug_prefix(hv, slug@, k as int);
        }
        None
    }
}

/// The path part and the heading part of a wiki-link target: the target is
/// trimmed, split at its first `#`, and both parts are trimmed again.
pub open spec fn split_target_spec(target: Seq<char>) -> (Seq<char>, Option<Seq<char>>) {
    let t = trim_spec(target);
    match index_of(t, '#') {
        Some(i) => (trim_spec(t.take(i)), Some(trim_spec(t.skip(i + 1)))),
        None => (t, None),
    }
}

/// Splits a wiki-link target into its note path and optional heading.
pub fn split_target(target: &str) -> (r: (&str, Option<&str>))
    ensures
        (r.0@, match r.1 {
            Some(h) => Some(h@),
            None => None,
        }) == split_target_spec(target@),
{
    let t = trim(target);
    let chars = chars_of(t);
    match find_char(chars.as_slice(), '#') {
        Some(i) => {
            let path = trim(t.substring_char(0, i));
            let heading = trim(t.substring_char(i + 1, chars.len()));
            proof {
                assert(t@.subrange(0, i as int) =~= t@.take(i as int));
                assert(t@.subrange(i + 1, t@.len() as int) =~= t@.skip(i + 1));
            }
            (path, Some(heading))
        },
        None => (t, None),
    }
}


/// Where the line holding byte `end` of `bytes` starts: just after the last
/// newline before `end`, or at 0.
pub open spec fn line_start(bytes: Seq<u8>, end: int) -> int
    decreases end,
{
    if end <= 0 {
        0
    } else if bytes[end - 1] == 10u8 {
        end
    } else {
        line_start(bytes, end - 1)
    }
}

/// The start of the last `[[` lying wholly in `bytes[lo..end]`.
pub open spec fn last_opening(bytes: Seq<u8>, lo: int, end: int) -> Option<int>
    decreases end - lo,
{
    if end - lo < 2 {
        None
    } else if bytes[end - 2] == 91u8 && bytes[end - 1] == 91u8 {
        Some(end - 2)
    } else {
        last_opening(bytes, lo, end - 1)
    }
}

proof fn lemma_last_opening_bounds(bytes: Seq<u8>, lo: int, end: int)
    ensures
        last_opening(bytes, lo, end) matches Some(o) ==> lo <= o && o + 2 <= end && bytes[o]
            == 91u8 && bytes[o + 1] == 91u8,
    decreases end - lo,
{
    if end - lo >= 2 && !(bytes[end - 2] == 91u8 && bytes[end - 1] == 91u8) {
        lemma_last_opening_bounds(bytes, lo, end - 1);
    }
}

/// `[`, `]` or `|`: a byte that ends a link target being typed.
pub open spec fn is_target_delimiter(byte: u8) -> bool {
    byte == 91u8 || byte == 93u8 || byte == 124u8
}

/// Whether `bytes[from..to]` holds a target delimiter.
pub open spec fn has_target_delimiter(bytes: Seq<u8>, from: int, to: int) -> bool {
    exists|j: int| from <= j < to && is_target_delimiter(#[trigger] bytes[j])
}

/// The text that closes the link being typed in a completion probe.
pub open spec fn probe_closing() -> Seq<char> {
    seq!['n', 'o', 't', 'e', ']', ']']
}

/// For a cursor at byte `offset` of the note `source`: the byte offset of
/// the `[[` that opens the link target being typed, and the probe note in
/// which that link is closed, `source[..opening + 2] + "note]]" +
/// source[offset..]`. There is none when `offset` is not a character
/// boundary, when no `[[` precedes the cursor on its line, or when the text
/// between the last such `[[` and the cursor holds `[`, `]` or `|`.
pub open spec fn completion_probe_spec(source: Seq<char>, offset: int) -> Option<(int, Seq<char>)> {
    let bytes = encode_utf8(source);
    if !is_char_boundary(bytes, offset) {
        None
    } else {
        match last_opening(bytes, line_start(bytes, offset), offset) {
            None => None,
            Some(opening) => if has_target_delimiter(bytes, opening + 2, offset) {
                None
            } else {
                Some(
                    (
                        opening,
                        decode_utf8(bytes.take(opening + 2)) + probe_closing() + decode_utf8(
                            bytes.skip(offset),
                        ),
                    ),
                )
            },
        }
    }
}

/// Whether one of `links` starts at byte `start`.
pub open spec fn starts_link(links: Seq<WikiLinkView>, start: int) -> bool {
    exists|k: int| 0 <= k < links.len() && (#[trigger] links[k]).start == start
}

/// The byte range of the wiki-link target being typed at `offset`: from
/// just after its `[[` to the cursor, when the probe note of
/// [`completion_probe_spec`] parses with a wiki link starting at that `[[`.
pub open spec fn completion_range_spec(source: Seq<char>, offset: int) -> Option<(int, int)> {
    match completion_probe_spec(source, offset) {
        None => None,
        Some((opening, probe)) => if starts_link(
            note_links_of(markdown_events(probe)).links,
            opening,
        ) {
            Some((opening + 2, offset))
        } else {
            None
        },
    }
}

/// Where the line holding byte `end` starts.
pub(crate) fn find_line_start(bytes: &[u8], end: usize) -> (r: usize)
    requires
        end <= bytes@.len(),
    ensures
        r as int == line_start(bytes@, end as int),
        r <= end,
        r > 0 ==> bytes@[r - 1] == 10u8,
{
    let mut i: usize = end;
    while i > 0 && bytes[i - 1] != 10u8
        invariant
            i <= end <= bytes@.len(),
            line_start(bytes@, i as int) == line_start(bytes@, end as int),
        decreases i,
    {
        i -= 1;
    }
    i
}

/// The start of the last `[[` in `bytes[lo..end]`.
fn find_last_opening(bytes: &[u8], lo: usize, end: usize) -> (r: Option<usize>)
    requires
        lo <= end <= bytes@.len(),
    ensures
        match r {
            Some(o) => last_opening(bytes@, lo as int, end as int) == Some(o as int),
            None => last_opening(bytes@, lo as int, end as int) is None,
        },
{
    let mut e: usize = end;
    while e - lo >= 2
        invariant
            lo <= e <= end <= bytes@.len(),
            last_opening(bytes@, lo as int, e as int) == last_opening(
                bytes@,
                lo as int,
                end as int,
            ),
        decreases e,
    {
        if bytes[e - 2] == 91u8 && bytes[e - 1] == 91u8 {
            return Some(e - 2);
        }
        e -= 1;
    }
    None
}

/// Whether `bytes[from..to]` holds `[`, `]` or `|`.
fn find_target_delimiter(bytes: &[u8], from: usize, to: usize) -> (r: bool)
    requires
        from <= to <= bytes@.len(),
    ensures
        r == has_target_delimiter(bytes@, from as int, to as int),
{
    let mut j: usize = from;
    while j < to
        invariant
            from <= j <= to <= bytes@.len(),
            forall|i: int| from <= i < j ==> !is_target_delimiter(#[trigger] bytes@[i]),
        decreases to - j,
    {
        let byte = bytes[j];
        if byte == 91u8 || byte == 93u8 || byte == 124u8 {
            assert(is_target_delimiter(bytes@[j as int]));
            return true;
        }
        j += 1;
    }
    false
}

/// The `[[` of the link target being typed at byte `offset` of `source`,
/// and the probe note in which that link is closed (see
/// [`completion_probe_spec`]).
pub fn completion_probe(source: &str, offset: usize) -> (r: Option<(usize, String)>)
    ensures
        match r {
            Some((opening, probe)) => completion_probe_spec(source@, offset as int) == Some(
                (opening as int, probe@),
            ) && opening + 2 <= offset && offset <= encode_utf8(source@).len(),
            None => completion_probe_spec(source@, offset as int) is None,
        },
{
    let bytes = source.as_bytes();
    let ghost b = encode_utf8(source@);
    proof {
        encode_utf8_valid_utf8(source@);
    }
    if !source.is_char_boundary(offset) {
        return None;
    }
    assert(offset <= b.len()) by {
        reveal_with_fuel(is_char_boundary, 1);
    }
    let start = find_line_start(bytes, offset);
    proof {
        lemma_last_opening_bounds(b, start as int, offset as int);
    }
    let opening = match find_last_opening(bytes, start, offset) {
        Some(o) => o,
        None => return None,
    };
    if find_target_delimiter(bytes, opening + 2, offset) {
        return None;
    }
    proof {
        is_char_boundary_iff_not_is_continuation_byte(b, opening as int);
        lemma_boundary_after_ascii(b, opening as int);
        lemma_boundary_after_ascii(b, opening + 1);
    }
    let (head, _) = source.split_at(opening + 2);
    let (_, tail) = source.split_at(offset);
    let mut probe = head.to_owned();
    probe.append("note]]");
    probe.append(tail);
    proof {
        reveal_strlit("note]]");
        encode_utf8_decode_utf8(head@);
        encode_utf8_decode_utf8(tail@);
        assert(b.take(opening + 2) =~= head.spec_bytes());
        assert(b.skip(offset as int) =~= tail.spec_bytes());
        assert("note]]"@ =~= probe_closing());
    }
    Some((opening, probe))
}

impl NoteLinks {
    /// Whether one of the links starts at byte `start`.
    pub fn starts_link_at(&self, start: usize) -> (r: bool)
        ensures
            r == starts_link(self@.links, start as int),
    {
        let ghost lv = self@.links;
        let mut i: usize = 0;
        while i < self.links.len()
            invariant
                i <= self.links.len(),
                lv == self.links@.map_values(|l: WikiLink| l@),
                forall|k: int| 0 <= k < i ==> (#[trigger] lv[k]).start != start,
            decreases self.links.len() - i,
        {
            assert(lv[i as int] == self.links[i as int]@);
            if self.links[i].range.start == start {
                return true;
            }
            i += 1;
        }
        false
    }
}

/// The byte range of the wiki-link target being typed at byte `offset` of
/// `source`, without its `[[`, an alias or a closing `]]`; `None` where the
/// cursor is not in such a target (inside code, math, an escape, HTML or
/// front matter, after an alias bar, or after the link was closed).
pub fn completion_range(source: &str, offset: usize) -> (r: Option<Range<usize>>)
    ensures
        match r {
            Some(range) => completion_range_spec(source@, offset as int) == Some(
                (range.start as int, range.end as int),
            ) && range.start <= range.end <= encode_utf8(source@).len(),
            None => completion_range_spec(source@, offset as int) is None,
        },
{
    match completion_probe(source, offset) {
        None => None,
        Some((opening, probe)) => {
            let parsed = parse(probe.as_str());
            if parsed.starts_link_at(opening) {
                Some(opening + 2..offset)
            } else {
                None
            }
        },
    }
}

proof fn lemma_next_free_slug_is_free(headings: Seq<HeadingView>, base: Seq<char>, from: nat)
    ensures
        !slug_taken(headings, next_free_slug(headings, base, from).0),
    decreases taken_from(headings, base, from),
{
    if slug_taken(headings, suffixed(base, from)) {
        lemma_taken_from_decreases(headings, base, from);
        lemma_next_free_slug_is_free(headings, base, from + 1);
    }
}

proof fn lemma_assign_slug_is_free(headings: Seq<HeadingView>, base: Seq<char>, count: nat)
    ensures
        !slug_taken(headings, assign_slug(headings, base, count).0),
{
    let first = if count == 0 {
        base
    } else {
        suffixed(base, count)
    };
    if slug_taken(headings, first) {
        lemma_next_free_slug_is_free(headings, base, count + 1);
    }
}

/// Law: no two headings of a note share a slug, so that a slug names one
/// heading; this holds whatever events the parser produces.
pub proof fn law_heading_slugs_are_distinct(events: Seq<MarkdownEventView>)
    ensures
        forall|i: int, j: int|
            0 <= i < j < note_links_of(events).headings.len() ==> (#[trigger] note_links_of(
                events,
            ).headings[i]).slug != (#[trigger] note_links_of(events).headings[j]).slug,
    decreases events.len(),
{
    if events.len() > 0 {
        let front = events.drop_last();
        law_heading_slugs_are_distinct(front);
        let state = index_events(front);
        let hs = state.headings;
        assert(note_links_of(front).headings == hs);
        let after = index_events(events).headings;
        if events.last() is HeadingEnd && state.current is Some {
            let (offset, title) = state.current->0;
            let base = heading_slug(title);
            let count = count_for(state.counts, base);
            lemma_assign_slug_is_free(hs, base, count);
            let slug = assign_slug(hs, base, count).0;
            assert(after == hs.push(HeadingView { title, slug, offset }));
            assert forall|i: int, j: int| 0 <= i < j < after.len() implies (
            #[trigger] after[i]).slug != (#[trigger] after[j]).slug by {
                assert(after[i] == hs[i]);
                if j < hs.len() {
                    assert(after[j] == hs[j]);
                } else if hs[i].slug == slug {
                    assert(slug_taken(hs, slug));
                }
            }
        } else {
            assert(after == hs);
        }
    }
}

/// Law: every link target of a note is trimmed: it neither starts nor ends
/// with whitespace.
pub proof fn law_link_targets_are_trimmed(events: Seq<MarkdownEventView>)
    ensures
        forall|k: int|
            0 <= k < note_links_of(events).links.len() ==> trim_spec(
                (#[trigger] note_links_of(events).links[k]).target,
            ) == note_links_of(events).links[k].target,
    decreases events.len(),
{
    if events.len() > 0 {
        let front = events.drop_last();
        law_link_targets_are_trimmed(front);
        let before = index_events(front).links;
        let after = index_events(events).links;
        assert forall|k: int| 0 <= k < after.len() implies trim_spec(
            (#[trigger] after[k]).target,
        ) == after[k].target by {
            if k < before.len() {
                assert(after[k] == before[k]);
                assert(note_links_of(front).links[k] == before[k]);
            } else if let MarkdownEventView::WikiLink(dest, start, end) = events.last() {
                lemma_trim_idempotent(dest);
            }
        }
    }
}

/// Law: the link that `link_at` finds holds the offset and is the first
/// that does, and when it finds none, no link holds it.
pub proof fn law_link_at_holds_the_offset(links: Seq<WikiLinkView>, offset: usize)
    ensures
        link_index_at(links, offset) matches Some(i) ==> 0 <= i < links.len() && links[i].start
            <= offset < links[i].end && forall|j: int|
            0 <= j < i ==> !((#[trigger] links[j]).start <= offset < links[j].end),
        link_index_at(links, offset) is None ==> forall|k: int|
            0 <= k < links.len() ==> !((#[trigger] links[k]).start <= offset < links[k].end),
    decreases links.len(),
{
    if links.len() > 0 {
        law_link_at_holds_the_offset(links.drop_first(), offset);
        assert forall|k: int| 0 < k < links.len() implies links[k] == links.drop_first()[k - 1] by {}
    }
}

/// Law: a completion range runs from just after a `[[` to the cursor, and
/// the text in it holds no `[`, `]` or `|`.
pub proof fn law_completion_range_is_a_bare_target(source: Seq<char>, offset: int)
    requires
        completion_range_spec(source, offset) is Some,
    ensures
        ({
            let (start, end) = completion_range_spec(source, offset)->0;
            let bytes = encode_utf8(source);
            &&& end == offset
            &&& 2 <= start <= end <= bytes.len()
            &&& bytes[start - 2] == 91u8 && bytes[start - 1] == 91u8
            &&& !has_target_delimiter(bytes, start, end)
        }),
{
    let bytes = encode_utf8(source);
    encode_utf8_valid_utf8(source);
    assert(offset <= bytes.len()) by {
        reveal_with_fuel(is_char_boundary, 1);
    }
    lemma_last_opening_bounds(bytes, line_start(bytes, offset), offset);
}

/// Law: both parts of a split target are trimmed, and the note part holds
/// no `#`.
pub proof fn law_split_target_parts_are_trimmed(target: Seq<char>)
    ensures
        ({
            let (path, heading) = split_target_spec(target);
            &&& trim_spec(path) == path
            &&& !path.contains('#')
            &&& heading matches Some(h) ==> trim_spec(h) == h
        }),
{
    let t = trim_spec(target);
    lemma_trim_idempotent(target);
    lemma_index_of_first(t, '#');
    match index_of(t, '#') {
        Some(i) => {
            lemma_trim_idempotent(t.take(i));
            lemma_trim_idempotent(t.skip(i + 1));
            lemma_trim_keeps_chars(t.take(i), '#');
            if t.take(i).contains('#') {
                let k = choose|k: int| 0 <= k < t.take(i).len() && t.take(i)[k] == '#';
                assert(t[k] == '#');
            }
        },
        None => {},
    }
}

} // verus!
