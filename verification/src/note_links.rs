//! Resolution of wiki-link targets to note paths inside one notes folder.
//!
//! A target resolves against the folder of the current note, then against
//! the root of the notes folder, then as a unique path suffix anywhere in
//! the folder. Ambiguous names are refused rather than resolved to an
//! arbitrary note.

use vstd::prelude::*;
use crate::paths::{
    components, components_of_chars, components_view, extension_start, is_markdown_extension,
    is_markdown_extension_at, is_markdown_path, is_note_spec, is_rooted, name_extension,
    path_before, path_before_exec, path_components, split_on, ComponentView, PathComponent,
};
use crate::text::{chars_of, copy_chars, string_from_chars};
use crate::wiki_links::{
    heading_offset_spec, link_index_at, markdown_events, note_links_of, parse, split_target,
    split_target_spec, WikiLink,
};

verus! {

/// The character sequences of a vector of names.
pub open spec fn names_view(v: Seq<Vec<char>>) -> Seq<Seq<char>> {
    v.map_values(|n: Vec<char>| n@)
}

/// One step of lexical normalization: a normal name is appended, `.` is
/// skipped, `..` removes the last name (and fails when there is none), and
/// a root fails.
pub open spec fn normalize_step(acc: Option<Seq<Seq<char>>>, c: ComponentView) -> Option<
    Seq<Seq<char>>,
> {
    match acc {
        None => None,
        Some(names) => match c {
            ComponentView::Normal(n) => Some(names.push(n)),
            ComponentView::Current => Some(names),
            ComponentView::Parent => if names.len() == 0 {
                None
            } else {
                Some(names.drop_last())
            },
            ComponentView::Root => None,
        },
    }
}

/// Normalization of `cs` continued from `acc`.
pub open spec fn normalize_fold(acc: Option<Seq<Seq<char>>>, cs: Seq<ComponentView>) -> Option<
    Seq<Seq<char>>,
>
    decreases cs.len(),
{
    if cs.len() == 0 {
        acc
    } else {
        normalize_step(normalize_fold(acc, cs.drop_last()), cs.last())
    }
}

/// The names of the lexically normalized relative path with components
/// `cs`, or `None` when it climbs above its start or is absolute.
pub open spec fn normalize_spec(cs: Seq<ComponentView>) -> Option<Seq<Seq<char>>> {
    normalize_fold(Some(Seq::empty()), cs)
}

/// The path spelled by `names` joined with `/`.
pub open spec fn join_names(names: Seq<Seq<char>>) -> Seq<char>
    decreases names.len(),
{
    if names.len() == 0 {
        Seq::empty()
    } else if names.len() == 1 {
        names[0]
    } else {
        join_names(names.drop_last()) + seq!['/'] + names.last()
    }
}

/// The components of the path spelled by `names`.
pub open spec fn normals(names: Seq<Seq<char>>) -> Seq<ComponentView> {
    names.map_values(|n: Seq<char>| ComponentView::Normal(n))
}

pub(crate) proof fn lemma_normalize_fold_none(cs: Seq<ComponentView>)
    ensures
        normalize_fold(None, cs) is None,
    decreases cs.len(),
{
    if cs.len() > 0 {
        lemma_normalize_fold_none(cs.drop_last());
    }
}

pub(crate) proof fn lemma_normalize_fold_append(
    acc: Option<Seq<Seq<char>>>,
    a: Seq<ComponentView>,
    b: Seq<ComponentView>,
)
    ensures
        normalize_fold(acc, a + b) == normalize_fold(normalize_fold(acc, a), b),
    decreases b.len(),
{
    if b.len() == 0 {
        assert(a + b =~= a);
    } else {
        lemma_normalize_fold_append(acc, a, b.drop_last());
        assert((a + b).drop_last() =~= a + b.drop_last());
        assert((a + b).last() == b.last());
    }
}

/// Applies the components `comps[start..end]` to the normalized `names`;
/// `false` when normalization fails.
pub(crate) fn normalize_extend(
    names: &mut Vec<Vec<char>>,
    comps: &Vec<PathComponent>,
    start: usize,
    end: usize,
) -> (ok: bool)
    requires
        start <= end <= comps.len(),
    ensures
        ok ==> normalize_fold(
            Some(names_view(old(names)@)),
            components_view(comps@).subrange(start as int, end as int),
        ) == Some(names_view(final(names)@)),
        !ok ==> normalize_fold(
            Some(names_view(old(names)@)),
            components_view(comps@).subrange(start as int, end as int),
        ) is None,
{
    let ghost init = Some(names_view(names@));
    let ghost cv = components_view(comps@);
    let mut i: usize = start;
    assert(cv.subrange(start as int, start as int) =~= Seq::<ComponentView>::empty());
    while i < end
        invariant
            start <= i <= end,
            end <= comps.len(),
            init == Some(names_view(old(names)@)),
            cv == components_view(comps@),
            normalize_fold(init, cv.subrange(start as int, i as int)) == Some(
                names_view(names@),
            ),
        decreases end - i,
    {
        let ghost before = names_view(names@);
        assert(cv.subrange(start as int, i + 1).drop_last() =~= cv.subrange(
            start as int,
            i as int,
        ));
        assert(cv.subrange(start as int, i + 1).last() == comps@[i as int]@);
        let failed = match &comps[i] {
            PathComponent::Normal(name) => {
                names.push(copy_chars(name.as_slice()));
                assert(names_view(names@) =~= before.push(name@));
                false
            },
            PathComponent::Current => false,
            PathComponent::Parent => {
                if names.len() == 0 {
                    assert(comps@[i as int]@ == ComponentView::Parent);
                    true
                } else {
                    names.pop();
                    assert(names_view(names@) =~= before.drop_last());
                    false
                }
            },
            PathComponent::Root => {
                assert(comps@[i as int]@ == ComponentView::Root);
                true
            },
        };
        if failed {
            proof {
                assert(normalize_fold(init, cv.subrange(start as int, i + 1)) is None);
                lemma_normalize_fold_none(cv.subrange(i + 1, end as int));
                lemma_normalize_fold_append(
                    init,
                    cv.subrange(start as int, i + 1),
                    cv.subrange(i + 1, end as int),
                );
                assert(cv.subrange(start as int, i + 1) + cv.subrange(i + 1, end as int)
                    =~= cv.subrange(start as int, end as int));
            }
            return false;
        }
        i += 1;
    }
    true
}

/// The characters of the path spelled by `names`.
pub(crate) fn join_names_exec(names: &Vec<Vec<char>>) -> (r: Vec<char>)
    ensures
        r@ == join_names(names_view(names@)),
{
    let mut r: Vec<char> = Vec::new();
    let mut i: usize = 0;
    while i < names.len()
        invariant
            i <= names.len(),
            r@ == join_names(names_view(names@).take(i as int)),
        decreases names.len() - i,
    {
        let ghost before = r@;
        if i > 0 {
            r.push('/');
        }
        let name = &names[i];
        let mut j: usize = 0;
        let ghost base = r@;
        while j < name.len()
            invariant
                j <= name.len(),
                r@ == base + name@.take(j as int),
            decreases name.len() - j,
        {
            r.push(name[j]);
            assert(name@.take(j + 1) =~= name@.take(j as int).push(name@[j as int]));
            j += 1;
        }
        proof {
            let nv = names_view(names@);
            assert(name@.take(name.len() as int) =~= name@);
            assert(nv.take(i + 1).drop_last() =~= nv.take(i as int));
            assert(nv.take(i + 1).last() == name@);
            if i == 0 {
                assert(r@ =~= join_names(nv.take(1)));
            } else {
                assert(r@ =~= before + seq!['/'] + name@);
            }
        }
        i += 1;
    }
    assert(names_view(names@).take(names.len() as int) =~= names_view(names@));
    r
}

/// Whether the path names a note: its extension is `md` or `markdown`, in
/// any ASCII case.
pub fn is_note(path: &str) -> (r: bool)
    ensures
        r == is_note_spec(path@),
{
    is_markdown_path(path)
}

/// The wiki link under the cursor at byte `offset` of the note at `path`
/// whose text is `text`; none for a file that is not a note.
pub fn link_at(path: &str, text: &str, offset: usize) -> (r: Option<WikiLink>)
    ensures
        match r {
            Some(link) => is_note_spec(path@) && (link_index_at(
                note_links_of(markdown_events(text@)).links,
                offset,
            ) matches Some(i) && link@ == note_links_of(markdown_events(text@)).links[i]),
            None => !is_note_spec(path@) || link_index_at(
                note_links_of(markdown_events(text@)).links,
                offset,
            ) is None,
        },
{
    if !is_note(path) {
        return None;
    }
    let parsed = parse(text);
    match parsed.link_at(offset) {
        Some(link) => Some(link.clone()),
        None => None,
    }
}

/// Where a link target leads inside the note it resolves to, whose text
/// is `note_text`: the start of the heading its fragment names, or the
/// note's start when there is no fragment.
pub open spec fn link_target_offset_spec(target: Seq<char>, note_text: Seq<char>) -> Option<usize> {
    match split_target_spec(target).1 {
        Some(fragment) => if fragment.len() > 0 {
            heading_offset_spec(note_links_of(markdown_events(note_text)).headings, fragment)
        } else {
            Some(0)
        },
        None => Some(0),
    }
}

/// The byte offset a link target leads to in the note it resolves to (see
/// [`link_target_offset_spec`]); `None` when its heading is not found.
pub fn link_target_offset(target: &str, note_text: &str) -> (r: Option<usize>)
    ensures
        r == link_target_offset_spec(target@, note_text@),
{
    let (_, fragment) = split_target(target);
    match fragment {
        Some(fragment) => {
            if fragment.is_empty() {
                Some(0)
            } else {
                parse(note_text).heading_offset(fragment)
            }
        },
        None => Some(0),
    }
}

/// Lexically normalizes a relative path: `.` components are dropped and
/// `..` removes the preceding name. `None` when the path is absolute or
/// climbs above its start.
pub fn normalize(path: &str) -> (r: Option<String>)
    ensures
        match r {
            Some(s) => normalize_spec(path_components(path@)) matches Some(names) && s@
                == join_names(names),
            None => normalize_spec(path_components(path@)) is None,
        },
{
    let comps = components(path);
    let mut names: Vec<Vec<char>> = Vec::new();
    assert(names_view(names@) =~= Seq::<Seq<char>>::empty());
    assert(components_view(comps@).subrange(0, comps.len() as int) =~= components_view(comps@));
    if normalize_extend(&mut names, &comps, 0, comps.len()) {
        let joined = join_names_exec(&names);
        Some(string_from_chars(joined.as_slice()))
    } else {
        None
    }
}

/// Whether the path spelled by `names` is a Markdown note.
pub open spec fn names_note(names: Seq<Seq<char>>) -> bool {
    names.len() > 0 && match name_extension(names.last()) {
        Some(e) => is_markdown_extension(e),
        None => false,
    }
}

/// `names` with `suffix` appended to the last name (or as the only name).
pub open spec fn with_suffix(names: Seq<Seq<char>>, suffix: Seq<char>) -> Seq<Seq<char>> {
    if names.len() == 0 {
        seq![suffix]
    } else {
        names.drop_last().push(names.last() + suffix)
    }
}

/// `.md`
pub open spec fn md_suffix() -> Seq<char> {
    seq!['.', 'm', 'd']
}

/// `.markdown`
pub open spec fn markdown_suffix() -> Seq<char> {
    seq!['.', 'm', 'a', 'r', 'k', 'd', 'o', 'w', 'n']
}

/// The note paths a link path may stand for: the path itself, and, when
/// it is not already a Markdown path, the path with `.md` and with
/// `.markdown` appended.
pub open spec fn candidates(names: Seq<Seq<char>>) -> Seq<Seq<Seq<char>>> {
    if names_note(names) {
        seq![names]
    } else {
        seq![names, with_suffix(names, md_suffix()), with_suffix(names, markdown_suffix())]
    }
}

/// Whether a path of `paths` has the components spelled by `names`.
pub open spec fn contains_names(paths: Seq<Seq<char>>, names: Seq<Seq<char>>) -> bool {
    contains_components(paths, normals(names))
}

/// The candidates that `paths` contains, in order.
pub open spec fn present(cands: Seq<Seq<Seq<char>>>, paths: Seq<Seq<char>>) -> Seq<
    Seq<Seq<char>>,
>
    decreases cands.len(),
{
    if cands.len() == 0 {
        Seq::empty()
    } else {
        let found = present(cands.drop_last(), paths);
        if contains_names(paths, cands.last()) {
            found.push(cands.last())
        } else {
            found
        }
    }
}

/// Whether `suffix` is a trailing part of `comps`.
pub open spec fn is_component_suffix(suffix: Seq<ComponentView>, comps: Seq<ComponentView>) -> bool {
    suffix.len() <= comps.len() && comps.skip(comps.len() - suffix.len()) == suffix
}

/// Whether the path `p` ends with one of the candidates.
pub open spec fn ends_with_candidate(p: Seq<char>, cands: Seq<Seq<Seq<char>>>) -> bool {
    exists|i: int|
        0 <= i < cands.len() && is_component_suffix(
            normals(#[trigger] cands[i]),
            path_components(p),
        )
}

/// The paths of `paths` that end with one of the candidates, in order.
pub open spec fn suffix_matches(paths: Seq<Seq<char>>, cands: Seq<Seq<Seq<char>>>) -> Seq<
    Seq<char>,
>
    decreases paths.len(),
{
    if paths.len() == 0 {
        Seq::empty()
    } else {
        let found = suffix_matches(paths.drop_last(), cands);
        if ends_with_candidate(paths.last(), cands) {
            found.push(paths.last())
        } else {
            found
        }
    }
}

/// A set of note paths, compared by their components as paths are.
pub struct NotePaths {
    paths: Vec<String>,
}

impl View for NotePaths {
    type V = Seq<Seq<char>>;

    closed spec fn view(&self) -> Seq<Seq<char>> {
        self.paths@.map_values(|p: String| p@)
    }
}

/// Whether no two of `paths` have the same components.
pub open spec fn distinct_paths(paths: Seq<Seq<char>>) -> bool {
    forall|i: int, j: int|
        0 <= i < paths.len() && 0 <= j < paths.len() && i != j ==> path_components(
            #[trigger] paths[i],
        ) != path_components(#[trigger] paths[j])
}

/// Whether `paths` come in path order (and so with distinct components).
pub open spec fn paths_in_order(paths: Seq<Seq<char>>) -> bool {
    forall|i: int, j: int|
        0 <= i < j < paths.len() ==> path_before(#[trigger] paths[i], #[trigger] paths[j])
}

/// Paths in path order have distinct components.
proof fn lemma_in_order_distinct(paths: Seq<Seq<char>>)
    requires
        paths_in_order(paths),
    ensures
        distinct_paths(paths),
{
    assert forall|i: int, j: int|
        0 <= i < paths.len() && 0 <= j < paths.len() && i != j implies path_components(
        #[trigger] paths[i],
    ) != path_components(#[trigger] paths[j]) by {
        let a = if i < j { i } else { j };
        let b = if i < j { j } else { i };
        assert(path_before(paths[a], paths[b]));
        crate::paths::lemma_components_before_total(
            path_components(paths[a]),
            path_components(paths[b]),
        );
    }
}

/// Whether a path of `paths` has the components `comps`.
pub open spec fn contains_components(paths: Seq<Seq<char>>, comps: Seq<ComponentView>) -> bool {
    exists|i: int| 0 <= i < paths.len() && path_components(#[trigger] paths[i]) == comps
}

pub(crate) fn components_equal(a: &Vec<PathComponent>, b: &Vec<PathComponent>) -> (r: bool)
    ensures
        r == (components_view(a@) == components_view(b@)),
{
    if a.len() != b.len() {
        assert(components_view(a@).len() != components_view(b@).len());
        return false;
    }
    let mut i: usize = 0;
    while i < a.len()
        invariant
            a.len() == b.len(),
            i <= a.len(),
            forall|j: int| 0 <= j < i ==> a@[j]@ == b@[j]@,
        decreases a.len() - i,
    {
        let same = match (&a[i], &b[i]) {
            (PathComponent::Root, PathComponent::Root) => true,
            (PathComponent::Current, PathComponent::Current) => true,
            (PathComponent::Parent, PathComponent::Parent) => true,
            (PathComponent::Normal(x), PathComponent::Normal(y)) => chars_equal(x, y),
            _ => false,
        };
        if !same {
            assert(components_view(a@)[i as int] != components_view(b@)[i as int]);
            return false;
        }
        i += 1;
    }
    assert(components_view(a@) =~= components_view(b@));
    true
}

/// Whether two paths have the same components, as `Path` equality
/// compares them.
pub fn same_path(a: &str, b: &str) -> (r: bool)
    ensures
        r == (path_components(a@) == path_components(b@)),
{
    let ca = components(a);
    let cb = components(b);
    components_equal(&ca, &cb)
}

/// Whether two character vectors are equal.
pub fn chars_equal(a: &Vec<char>, b: &Vec<char>) -> (r: bool)
    ensures
        r == (a@ == b@),
{
    if a.len() != b.len() {
        return false;
    }
    let mut i: usize = 0;
    while i < a.len()
        invariant
            a.len() == b.len(),
            i <= a.len(),
            forall|j: int| 0 <= j < i ==> a@[j] == b@[j],
        decreases a.len() - i,
    {
        if a[i] != b[i] {
            return false;
        }
        i += 1;
    }
    assert(a@ =~= b@);
    true
}

impl NotePaths {
    #[verifier::type_invariant]
    spec fn paths_distinct(&self) -> bool {
        distinct_paths(self@) && paths_in_order(self@)
    }

    /// An empty set of note paths.
    pub fn new() -> (r: NotePaths)
        ensures
            r@ == Seq::<Seq<char>>::empty(),
    {
        let r = NotePaths { paths: Vec::new() };
        assert(r@ =~= Seq::<Seq<char>>::empty());
        r
    }

    /// The number of paths; the paths always come in path order.
    pub fn len(&self) -> (r: usize)
        ensures
            r == self@.len(),
            paths_in_order(self@),
    {
        proof {
            use_type_invariant(self);
        }
        self.paths.len()
    }

    /// The path at position `i`.
    pub fn get(&self, i: usize) -> (r: &String)
        requires
            i < self@.len(),
        ensures
            r@ == self@[i as int],
    {
        &self.paths[i]
    }

    /// Whether a path with the same components as `comps` is in the set.
    pub fn contains_path_components(&self, comps: &Vec<PathComponent>) -> (r: bool)
        ensures
            r == contains_components(self@, components_view(comps@)),
    {
        let mut i: usize = 0;
        while i < self.paths.len()
            invariant
                i <= self@.len(),
                self@ == self.paths@.map_values(|p: String| p@),
                forall|j: int|
                    0 <= j < i ==> path_components(#[trigger] self@[j]) != components_view(
                        comps@,
                    ),
            decreases self@.len() - i,
        {
            let other = components(self.paths[i].as_str());
            if components_equal(&other, comps) {
                assert(path_components(self@[i as int]) == components_view(comps@));
                return true;
            }
            i += 1;
        }
        false
    }

    /// Whether the set holds a path with the same components as `path`.
    pub fn contains(&self, path: &str) -> (r: bool)
        ensures
            r == contains_components(self@, path_components(path@)),
    {
        let comps = components(path);
        self.contains_path_components(&comps)
    }

    /// Adds `path` unless a path with the same components is present, at
    /// its place in path order; `true` when it was added.
    pub fn insert(&mut self, path: String) -> (r: bool)
        ensures
            r == !contains_components(old(self)@, path_components(path@)),
            !r ==> final(self)@ == old(self)@,
            r ==> exists|k: int|
                0 <= k <= old(self)@.len() && final(self)@ == old(self)@.insert(k, path@),
            r && (forall|i: int|
                0 <= i < old(self)@.len() ==> path_before(#[trigger] old(self)@[i], path@))
                ==> final(self)@ == old(self)@.push(path@),
            paths_in_order(final(self)@),
    {
        proof {
            use_type_invariant(&*self);
        }
        if self.contains(path.as_str()) {
            return false;
        }
        let ghost before = self@;
        let ghost pv = path@;
        let mut pos: usize = 0;
        while pos < self.paths.len() && path_before_exec(self.paths[pos].as_str(), path.as_str())
            invariant
                pos <= self.paths.len(),
                before == self@,
                pv == path@,
                self@ == self.paths@.map_values(|p: String| p@),
                forall|i: int| 0 <= i < pos ==> path_before(#[trigger] before[i], pv),
            decreases self.paths.len() - pos,
        {
            assert(before[pos as int] == self.paths@[pos as int]@);
            pos += 1;
        }
        proof {
            if pos < before.len() {
                assert(!path_before(before[pos as int], pv));
                crate::paths::lemma_components_before_total(
                    path_components(before[pos as int]),
                    path_components(pv),
                );
                assert(path_before(pv, before[pos as int]));
                assert forall|j: int| pos <= j < before.len() implies path_before(
                    pv,
                    #[trigger] before[j],
                ) by {
                    if j > pos {
                        crate::paths::lemma_components_before_transitive(
                            path_components(pv),
                            path_components(before[pos as int]),
                            path_components(before[j]),
                        );
                    }
                }
            }
        }
        let mut paths: Vec<String> = Vec::new();
        std::mem::swap(&mut paths, &mut self.paths);
        paths.insert(pos, path);
        let ghost after = paths@.map_values(|p: String| p@);
        assert(after =~= before.insert(pos as int, pv));
        proof {
            assert forall|i: int, j: int| 0 <= i < j < after.len() implies path_before(
                #[trigger] after[i],
                #[trigger] after[j],
            ) by {
                if j < pos {
                    assert(after[i] == before[i] && after[j] == before[j]);
                } else if j == pos {
                    assert(after[i] == before[i] && after[j] == pv);
                } else if i < pos {
                    assert(after[i] == before[i] && after[j] == before[j - 1]);
                    crate::paths::lemma_components_before_transitive(
                        path_components(before[i]),
                        path_components(pv),
                        path_components(before[j - 1]),
                    );
                } else if i == pos {
                    assert(after[i] == pv && after[j] == before[j - 1]);
                } else {
                    assert(after[i] == before[i - 1] && after[j] == before[j - 1]);
                }
            }
            lemma_in_order_distinct(after);
            if forall|i: int| 0 <= i < before.len() ==> path_before(#[trigger] before[i], pv) {
                if pos < before.len() {
                    crate::paths::lemma_components_before_total(
                        path_components(before[pos as int]),
                        path_components(before[pos as int]),
                    );
                    crate::paths::lemma_components_before_transitive(
                        path_components(before[pos as int]),
                        path_components(pv),
                        path_components(before[pos as int]),
                    );
                }
                assert(pos == before.len());
                assert(after =~= before.push(pv));
            }
        }
        self.paths = paths;
        true
    }
}

/// The views of candidate lists.
pub open spec fn cands_view(v: Seq<Vec<Vec<char>>>) -> Seq<Seq<Seq<char>>> {
    v.map_values(|n: Vec<Vec<char>>| names_view(n@))
}

fn copy_names(names: &Vec<Vec<char>>) -> (r: Vec<Vec<char>>)
    ensures
        names_view(r@) == names_view(names@),
{
    let mut r: Vec<Vec<char>> = Vec::new();
    let mut i: usize = 0;
    while i < names.len()
        invariant
            i <= names.len(),
            names_view(r@) == names_view(names@).take(i as int),
        decreases names.len() - i,
    {
        let ghost before = names_view(r@);
        let c = copy_chars(names[i].as_slice());
        r.push(c);
        assert(names_view(r@) =~= before.push(c@));
        assert(names_view(names@).take(i + 1) =~= names_view(names@).take(i as int).push(
            names@[i as int]@,
        ));
        i += 1;
    }
    assert(names_view(names@).take(names.len() as int) =~= names_view(names@));
    r
}

fn names_is_note(names: &Vec<Vec<char>>) -> (r: bool)
    ensures
        r == names_note(names_view(names@)),
{
    if names.len() == 0 {
        return false;
    }
    let last = &names[names.len() - 1];
    assert(names_view(names@).last() == last@);
    match extension_start(last.as_slice()) {
        Some(start) => is_markdown_extension_at(last.as_slice(), start),
        None => false,
    }
}

fn with_suffix_exec(names: &Vec<Vec<char>>, suffix: &[char]) -> (r: Vec<Vec<char>>)
    ensures
        names_view(r@) == with_suffix(names_view(names@), suffix@),
{
    let mut r = copy_names(names);
    if r.len() == 0 {
        r.push(copy_chars(suffix));
        assert(names_view(r@) =~= seq![suffix@]);
    } else {
        let ghost before = names_view(r@);
        let mut last = r.pop().unwrap();
        let ghost last_before = last@;
        let mut i: usize = 0;
        while i < suffix.len()
            invariant
                i <= suffix.len(),
                last@ == last_before + suffix@.take(i as int),
            decreases suffix.len() - i,
        {
            last.push(suffix[i]);
            assert(suffix@.take(i + 1) =~= suffix@.take(i as int).push(suffix@[i as int]));
            i += 1;
        }
        assert(suffix@.take(suffix.len() as int) =~= suffix@);
        r.push(last);
        assert(names_view(r@) =~= before.drop_last().push(before.last() + suffix@));
    }
    r
}

/// The candidate note paths for the link path spelled by `names`.
fn candidates_exec(names: &Vec<Vec<char>>) -> (r: Vec<Vec<Vec<char>>>)
    ensures
        cands_view(r@) == candidates(names_view(names@)),
{
    let mut r: Vec<Vec<Vec<char>>> = Vec::new();
    let note = names_is_note(names);
    r.push(copy_names(names));
    if !note {
        let md = vec!['.', 'm', 'd'];
        let markdown = vec!['.', 'm', 'a', 'r', 'k', 'd', 'o', 'w', 'n'];
        assert(md@ =~= md_suffix());
        assert(markdown@ =~= markdown_suffix());
        r.push(with_suffix_exec(names, md.as_slice()));
        r.push(with_suffix_exec(names, markdown.as_slice()));
    }
    assert(cands_view(r@) =~= candidates(names_view(names@)));
    r
}

/// The components spelled by `names`.
fn normal_components(names: &Vec<Vec<char>>) -> (r: Vec<PathComponent>)
    ensures
        components_view(r@) == normals(names_view(names@)),
{
    let mut r: Vec<PathComponent> = Vec::new();
    let mut i: usize = 0;
    while i < names.len()
        invariant
            i <= names.len(),
            components_view(r@) == normals(names_view(names@).take(i as int)),
        decreases names.len() - i,
    {
        let ghost before = components_view(r@);
        let c = copy_chars(names[i].as_slice());
        let ghost cv = c@;
        r.push(PathComponent::Normal(c));
        assert(components_view(r@) =~= before.push(ComponentView::Normal(cv)));
        assert(names_view(names@).take(i + 1) =~= names_view(names@).take(i as int).push(
            names@[i as int]@,
        ));
        assert(normals(names_view(names@).take(i + 1)) =~= normals(
            names_view(names@).take(i as int),
        ).push(ComponentView::Normal(cv)));
        i += 1;
    }
    assert(names_view(names@).take(names.len() as int) =~= names_view(names@));
    r
}

/// The outcome of looking a link path up among the note paths.
pub enum Lookup {
    Found(Seq<Seq<char>>),
    Ambiguous,
    Missing,
}

/// Looks the normalized link path `names` up among `paths`: exactly one
/// present candidate is found, more than one is ambiguous.
pub open spec fn lookup(names: Option<Seq<Seq<char>>>, paths: Seq<Seq<char>>) -> Lookup {
    match names {
        None => Lookup::Missing,
        Some(n) => {
            let found = present(candidates(n), paths);
            if found.len() == 1 {
                Lookup::Found(found[0])
            } else if found.len() == 0 {
                Lookup::Missing
            } else {
                Lookup::Ambiguous
            }
        },
    }
}

enum LookupResult {
    Found(Vec<Vec<char>>),
    Ambiguous,
    Missing,
}

impl View for LookupResult {
    type V = Lookup;

    closed spec fn view(&self) -> Lookup {
        match self {
            LookupResult::Found(n) => Lookup::Found(names_view(n@)),
            LookupResult::Ambiguous => Lookup::Ambiguous,
            LookupResult::Missing => Lookup::Missing,
        }
    }
}

/// The view of an optional list of names.
pub open spec fn opt_names_view(n: Option<Vec<Vec<char>>>) -> Option<Seq<Seq<char>>> {
    match n {
        Some(v) => Some(names_view(v@)),
        None => None,
    }
}

fn lookup_exec(names: &Option<Vec<Vec<char>>>, paths: &NotePaths) -> (r: LookupResult)
    ensures
        r@ == lookup(opt_names_view(*names), paths@),
{
    match names {
        None => LookupResult::Missing,
        Some(n) => {
            let cands = candidates_exec(n);
            let ghost cv = cands_view(cands@);
            let mut count: usize = 0;
            let mut first: usize = 0;
            let mut i: usize = 0;
            assert(cv.take(0) =~= Seq::<Seq<Seq<char>>>::empty());
            while i < cands.len()
                invariant
                    i <= cands.len(),
                    cv == cands_view(cands@),
                    count == present(cv.take(i as int), paths@).len(),
                    count <= i,
                    count > 0 ==> first < cands.len() && present(cv.take(i as int), paths@)[0]
                        == cv[first as int],
                decreases cands.len() - i,
            {
                proof {
                    assert(cv.take(i + 1).drop_last() =~= cv.take(i as int));
                    assert(cv.take(i + 1).last() == cv[i as int]);
                }
                let comps = normal_components(&cands[i]);
                if paths.contains_path_components(&comps) {
                    if count == 0 {
                        first = i;
                    }
                    count += 1;
                }
                i += 1;
            }
            assert(cv.take(cands.len() as int) =~= cv);
            if count == 1 {
                LookupResult::Found(copy_names(&cands[first]))
            } else if count == 0 {
                LookupResult::Missing
            } else {
                LookupResult::Ambiguous
            }
        },
    }
}

fn is_suffix_exec(names: &Vec<Vec<char>>, comps: &Vec<PathComponent>) -> (r: bool)
    ensures
        r == is_component_suffix(normals(names_view(names@)), components_view(comps@)),
{
    let suffix = normal_components(names);
    if suffix.len() > comps.len() {
        return false;
    }
    let offset = comps.len() - suffix.len();
    let ghost sv = components_view(suffix@);
    let ghost cv = components_view(comps@);
    let mut i: usize = 0;
    while i < suffix.len()
        invariant
            i <= suffix.len(),
            offset + suffix.len() == comps.len(),
            sv == components_view(suffix@),
            sv == normals(names_view(names@)),
            cv == components_view(comps@),
            forall|j: int| 0 <= j < i ==> cv[offset + j] == sv[j],
        decreases suffix.len() - i,
    {
        assert(cv[offset + i] == comps@[offset + i]@);
        assert(sv[i as int] == suffix@[i as int]@);
        let same = match (&comps[offset + i], &suffix[i]) {
            (PathComponent::Normal(x), PathComponent::Normal(y)) => chars_equal(x, y),
            (PathComponent::Root, PathComponent::Root) => true,
            (PathComponent::Current, PathComponent::Current) => true,
            (PathComponent::Parent, PathComponent::Parent) => true,
            _ => false,
        };
        if !same {
            assert(cv.skip(offset as int)[i as int] != sv[i as int]);
            return false;
        }
        i += 1;
    }
    assert(cv.skip(offset as int) =~= sv);
    true
}

fn ends_with_candidate_exec(comps: &Vec<PathComponent>, cands: &Vec<Vec<Vec<char>>>) -> (r: bool)
    ensures
        r == exists|i: int|
            0 <= i < cands@.len() && is_component_suffix(
                normals(#[trigger] cands_view(cands@)[i]),
                components_view(comps@),
            ),
{
    let mut i: usize = 0;
    while i < cands.len()
        invariant
            i <= cands.len(),
            forall|j: int|
                0 <= j < i ==> !is_component_suffix(
                    normals(#[trigger] cands_view(cands@)[j]),
                    components_view(comps@),
                ),
        decreases cands.len() - i,
    {
        assert(cands_view(cands@)[i as int] == names_view(cands@[i as int]@));
        if is_suffix_exec(&cands[i], comps) {
            return true;
        }
        i += 1;
    }
    false
}

/// Why a wiki link did not resolve.
#[derive(Debug)]
pub enum NoteLinkError {
    /// The link names neither a note nor a heading.
    EmptyLink,
    /// More than one note matches in the current folder or at the root.
    Ambiguous { target: String },
    /// More than one note elsewhere in the folder has the linked name.
    AmbiguousName { target: String },
    /// No note matches.
    NotFound { target: String },
}

/// A wiki-link resolution error, as a value.
pub enum NoteLinkErrorView {
    EmptyLink,
    Ambiguous(Seq<char>),
    AmbiguousName(Seq<char>),
    NotFound(Seq<char>),
}

impl View for NoteLinkError {
    type V = NoteLinkErrorView;

    open spec fn view(&self) -> NoteLinkErrorView {
        match self {
            NoteLinkError::EmptyLink => NoteLinkErrorView::EmptyLink,
            NoteLinkError::Ambiguous { target } => NoteLinkErrorView::Ambiguous(target@),
            NoteLinkError::AmbiguousName { target } => NoteLinkErrorView::AmbiguousName(target@),
            NoteLinkError::NotFound { target } => NoteLinkErrorView::NotFound(target@),
        }
    }
}

/// The view of a resolution result.
pub open spec fn resolution_view(r: Result<String, NoteLinkError>) -> Result<
    Seq<char>,
    NoteLinkErrorView,
> {
    match r {
        Ok(p) => Ok(p@),
        Err(e) => Err(e@),
    }
}

/// `s` with every backslash turned into a slash.
pub open spec fn slashes(s: Seq<char>) -> Seq<char> {
    s.map_values(|c: char| if c == '\\' { '/' } else { c })
}

/// The components of a path's parent: all but the last, or none when the
/// path is empty or ends at the root.
pub open spec fn parent_components(c: Seq<ComponentView>) -> Seq<ComponentView> {
    if c.len() == 0 || c.last() is Root {
        Seq::empty()
    } else {
        c.drop_last()
    }
}

/// The components without a leading root.
pub open spec fn strip_root(c: Seq<ComponentView>) -> Seq<ComponentView> {
    if c.len() > 0 && c[0] is Root {
        c.drop_first()
    } else {
        c
    }
}

/// Where a wiki-link target leads from the note at `source`, among the
/// note paths `paths`.
///
/// An empty path with a non-empty heading is the source note itself. A
/// path is tried relative to the source note's folder (unless it starts at
/// the root), then from the root of the notes folder (unless it starts with
/// `.` or `..`); each try accepts the path itself and, for a path without a
/// Markdown extension, the path with `.md` or `.markdown`. A bare path then
/// matches any note whose path ends with it. At any step, two matches are
/// an ambiguity.
pub open spec fn resolve_path_spec(
    source: Seq<char>,
    target: Seq<char>,
    paths: Seq<Seq<char>>,
) -> Result<Seq<char>, NoteLinkErrorView> {
    let (path, fragment) = split_target_spec(target);
    if path.len() == 0 {
        if fragment matches Some(f) && f.len() > 0 {
            Ok(source)
        } else {
            Err(NoteLinkErrorView::EmptyLink)
        }
    } else {
        let t = slashes(path);
        let tc = path_components(t);
        let explicit = tc.len() > 0 && (tc[0] is Current || tc[0] is Parent);
        let rooted = is_rooted(t);
        let relative = normalize_spec(parent_components(path_components(source)) + tc);
        let root = normalize_spec(strip_root(tc));
        let first = if rooted {
            Lookup::Missing
        } else {
            lookup(relative, paths)
        };
        let second = if explicit {
            Lookup::Missing
        } else {
            lookup(root, paths)
        };
        match first {
            Lookup::Found(n) => Ok(join_names(n)),
            Lookup::Ambiguous => Err(NoteLinkErrorView::Ambiguous(t)),
            Lookup::Missing => match second {
                Lookup::Found(n) => Ok(join_names(n)),
                Lookup::Ambiguous => Err(NoteLinkErrorView::Ambiguous(t)),
                Lookup::Missing => if !explicit && !rooted && root is Some {
                    let matches = suffix_matches(paths, candidates(root->0));
                    if matches.len() == 1 {
                        Ok(matches[0])
                    } else if matches.len() == 0 {
                        Err(NoteLinkErrorView::NotFound(t))
                    } else {
                        Err(NoteLinkErrorView::AmbiguousName(t))
                    }
                } else {
                    Err(NoteLinkErrorView::NotFound(t))
                },
            },
        }
    }
}

pub(crate) fn replace_backslashes(s: &Vec<char>) -> (r: Vec<char>)
    ensures
        r@ == slashes(s@),
{
    let mut r: Vec<char> = Vec::new();
    let mut i: usize = 0;
    while i < s.len()
        invariant
            i <= s.len(),
            r@ == slashes(s@.take(i as int)),
        decreases s.len() - i,
    {
        let c = s[i];
        r.push(if c == '\\' { '/' } else { c });
        assert(slashes(s@.take(i + 1)) =~= slashes(s@.take(i as int)).push(
            if c == '\\' { '/' } else { c },
        ));
        i += 1;
    }
    assert(s@.take(s.len() as int) =~= s@);
    r
}

/// The paths of `paths` that end with one of `cands`: how many, and the
/// first of them.
fn suffix_matches_exec(paths: &NotePaths, cands: &Vec<Vec<Vec<char>>>) -> (r: (usize, usize))
    ensures
        r.0 == suffix_matches(paths@, cands_view(cands@)).len(),
        r.0 > 0 ==> r.1 < paths@.len() && suffix_matches(paths@, cands_view(cands@))[0]
            == paths@[r.1 as int],
{
    let ghost cv = cands_view(cands@);
    let mut count: usize = 0;
    let mut first: usize = 0;
    let mut j: usize = 0;
    assert(paths@.take(0) =~= Seq::<Seq<char>>::empty());
    while j < paths.len()
        invariant
            j <= paths@.len(),
            cv == cands_view(cands@),
            count <= j,
            count == suffix_matches(paths@.take(j as int), cv).len(),
            count > 0 ==> first < j && suffix_matches(paths@.take(j as int), cv)[0]
                == paths@[first as int],
        decreases paths@.len() - j,
    {
        proof {
            assert(paths@.take(j + 1).drop_last() =~= paths@.take(j as int));
            assert(paths@.take(j + 1).last() == paths@[j as int]);
        }
        let comps = components(paths.get(j).as_str());
        if ends_with_candidate_exec(&comps, cands) {
            if count == 0 {
                first = j;
            }
            count += 1;
        }
        j += 1;
    }
    assert(paths@.take(paths@.len() as int) =~= paths@);
    (count, first)
}

/// Resolves a wiki-link target from the note at `source` among the note
/// paths of one notes folder; see [`resolve_path_spec`].
pub fn resolve_path(source: &str, target: &str, paths: &NotePaths) -> (r: Result<
    String,
    NoteLinkError,
>)
    ensures
        resolution_view(r) == resolve_path_spec(source@, target@, paths@),
{
    let (path, fragment) = split_target(target);
    let path_chars = chars_of(path);
    if path_chars.len() == 0 {
        return match fragment {
            Some(f) => if !f.is_empty() {
                Ok(source.to_owned())
            } else {
                Err(NoteLinkError::EmptyLink)
            },
            None => Err(NoteLinkError::EmptyLink),
        };
    }
    let t = replace_backslashes(&path_chars);
    let tc = components_of_chars(&t);
    let ghost tcv = components_view(tc@);
    let explicit = tc.len() > 0 && match &tc[0] {
        PathComponent::Current => true,
        PathComponent::Parent => true,
        _ => false,
    };
    assert(tc.len() > 0 ==> tcv[0] == tc@[0]@);
    let rooted = t.len() > 0 && t[0] == '/';
    let source_comps = components(source);
    let ghost scv = components_view(source_comps@);
    let parent_len: usize = if source_comps.len() == 0 {
        0
    } else {
        match &source_comps[source_comps.len() - 1] {
            PathComponent::Root => 0,
            _ => source_comps.len() - 1,
        }
    };
    proof {
        if source_comps.len() > 0 {
            assert(scv.last() == source_comps@.last()@);
        }
        assert(parent_components(scv) =~= scv.subrange(0, parent_len as int));
        assert(tcv.subrange(0, tc.len() as int) =~= tcv);
        lemma_normalize_fold_append(Some(Seq::empty()), parent_components(scv), tcv);
    }
    let mut relative_names: Vec<Vec<char>> = Vec::new();
    assert(names_view(relative_names@) =~= Seq::<Seq<char>>::empty());
    let relative = if normalize_extend(&mut relative_names, &source_comps, 0, parent_len) {
        if normalize_extend(&mut relative_names, &tc, 0, tc.len()) {
            Some(relative_names)
        } else {
            proof {
                lemma_normalize_fold_none(Seq::<ComponentView>::empty());
            }
            None
        }
    } else {
        proof {
            lemma_normalize_fold_none(tcv);
        }
        None
    };
    assert(opt_names_view(relative) == normalize_spec(parent_components(scv) + tcv));
    let root_start: usize = if tc.len() > 0 {
        match &tc[0] {
            PathComponent::Root => 1,
            _ => 0,
        }
    } else {
        0
    };
    assert(strip_root(tcv) =~= tcv.subrange(root_start as int, tc.len() as int));
    let mut root_names: Vec<Vec<char>> = Vec::new();
    assert(names_view(root_names@) =~= Seq::<Seq<char>>::empty());
    let root = if normalize_extend(&mut root_names, &tc, root_start, tc.len()) {
        Some(root_names)
    } else {
        None
    };
    let target_string = string_from_chars(t.as_slice());
    if !rooted {
        match lookup_exec(&relative, paths) {
            LookupResult::Found(n) => {
                let joined = join_names_exec(&n);
                return Ok(string_from_chars(joined.as_slice()));
            },
            LookupResult::Ambiguous => {
                return Err(NoteLinkError::Ambiguous { target: target_string });
            },
            LookupResult::Missing => {},
        }
    }
    if !explicit {
        match lookup_exec(&root, paths) {
            LookupResult::Found(n) => {
                let joined = join_names_exec(&n);
                return Ok(string_from_chars(joined.as_slice()));
            },
            LookupResult::Ambiguous => {
                return Err(NoteLinkError::Ambiguous { target: target_string });
            },
            LookupResult::Missing => {},
        }
        if !rooted {
            if let Some(root_names) = &root {
                let cands = candidates_exec(root_names);
                let (count, first) = suffix_matches_exec(paths, &cands);
                if count == 1 {
                    return Ok(paths.get(first).clone());
                } else if count > 1 {
                    return Err(NoteLinkError::AmbiguousName { target: target_string });
                }
            }
        }
    }
    Err(NoteLinkError::NotFound { target: target_string })
}

/// A name that a normal path component can have: non-empty, without `/`,
/// and neither `.` nor `..`.
pub open spec fn valid_name(n: Seq<char>) -> bool {
    n.len() > 0 && !n.contains('/') && n != crate::paths::dot() && n != crate::paths::dot_dot()
}

/// Whether all of `names` are valid names.
pub open spec fn valid_names(names: Seq<Seq<char>>) -> bool {
    forall|i: int| 0 <= i < names.len() ==> valid_name(#[trigger] names[i])
}

proof fn lemma_split_append_plain(s: Seq<char>, t: Seq<char>, sep: char)
    requires
        !t.contains(sep),
    ensures
        split_on(s + t, sep).len() == split_on(s, sep).len(),
        split_on(s + t, sep) == split_on(s, sep).update(
            split_on(s, sep).len() - 1,
            split_on(s, sep).last() + t,
        ),
    decreases t.len(),
{
    crate::paths::lemma_split_on_nonempty(s, sep);
    if t.len() == 0 {
        assert(s + t =~= s);
        assert(split_on(s, sep).last() + t =~= split_on(s, sep).last());
        assert(split_on(s, sep).update(split_on(s, sep).len() - 1, split_on(s, sep).last())
            =~= split_on(s, sep));
    } else {
        assert(!t.drop_last().contains(sep)) by {
            if t.drop_last().contains(sep) {
                let k = choose|k: int| 0 <= k < t.drop_last().len() && t.drop_last()[k] == sep;
                assert(t[k] == sep);
            }
        }
        assert(t.last() != sep) by {
            assert(t[t.len() - 1] == t.last());
        }
        lemma_split_append_plain(s, t.drop_last(), sep);
        assert((s + t).drop_last() =~= s + t.drop_last());
        assert((s + t).last() == t.last());
        let p = split_on(s, sep);
        assert(p.last() + t =~= (p.last() + t.drop_last()).push(t.last()));
        assert(split_on(s + t, sep) =~= p.update(p.len() - 1, p.last() + t));
    }
}

proof fn lemma_split_push_sep(s: Seq<char>, sep: char)
    ensures
        split_on(s.push(sep), sep) == split_on(s, sep).push(Seq::empty()),
{
    assert(s.push(sep).drop_last() =~= s);
}

proof fn lemma_join_starts(names: Seq<Seq<char>>)
    requires
        names.len() > 0,
        names[0].len() > 0,
    ensures
        join_names(names).len() > 0,
        join_names(names)[0] == names[0][0],
    decreases names.len(),
{
    if names.len() > 1 {
        lemma_join_starts(names.drop_last());
    }
}

pub(crate) proof fn lemma_split_join(names: Seq<Seq<char>>)
    requires
        names.len() > 0,
        valid_names(names),
    ensures
        split_on(join_names(names), '/') == names,
    decreases names.len(),
{
    if names.len() == 1 {
        lemma_split_append_plain(Seq::empty(), names[0], '/');
        assert(Seq::<char>::empty() + names[0] =~= names[0]);
        assert(split_on(Seq::<char>::empty(), '/') =~= seq![Seq::<char>::empty()]);
        assert(Seq::<char>::empty() + names[0] =~= names[0]);
        assert(seq![Seq::<char>::empty()].update(0, Seq::<char>::empty() + names[0]) =~= names);
    } else {
        let front = names.drop_last();
        assert(valid_names(front)) by {
            assert forall|i: int| 0 <= i < front.len() implies valid_name(#[trigger] front[i]) by {
                assert(front[i] == names[i]);
            }
        }
        lemma_split_join(front);
        let j = join_names(front);
        assert(valid_name(names[names.len() - 1]));
        lemma_split_push_sep(j, '/');
        lemma_split_append_plain(j.push('/'), names.last(), '/');
        assert(j + seq!['/'] =~= j.push('/'));
        assert(split_on(j.push('/'), '/').last() + names.last() =~= names.last());
        assert(split_on(join_names(names), '/') =~= names);
    }
}

proof fn lemma_pieces_valid(names: Seq<Seq<char>>, rooted: bool)
    requires
        valid_names(names),
    ensures
        crate::paths::pieces_components(names, rooted) == normals(names),
    decreases names.len(),
{
    if names.len() > 0 {
        let front = names.drop_last();
        assert(valid_names(front)) by {
            assert forall|i: int| 0 <= i < front.len() implies valid_name(#[trigger] front[i]) by {
                assert(front[i] == names[i]);
            }
        }
        lemma_pieces_valid(front, rooted);
        assert(valid_name(names[names.len() - 1]));
        assert(normals(names) =~= normals(front).push(ComponentView::Normal(names.last())));
    }
}

/// The components of the path spelled by valid names are those names.
pub proof fn lemma_components_of_join(names: Seq<Seq<char>>)
    requires
        valid_names(names),
    ensures
        path_components(join_names(names)) == normals(names),
{
    if names.len() == 0 {
        assert(join_names(names) =~= Seq::<char>::empty());
        assert(split_on(Seq::<char>::empty(), '/') =~= seq![Seq::<char>::empty()]);
        assert(crate::paths::pieces_components(seq![Seq::<char>::empty()], false)
            =~= Seq::<ComponentView>::empty()) by {
            let one = seq![Seq::<char>::empty()];
            assert(one.drop_last() =~= Seq::<Seq<char>>::empty());
            assert(one.last().len() == 0);
            assert(crate::paths::pieces_components(Seq::<Seq<char>>::empty(), false)
                =~= Seq::<ComponentView>::empty());
        }
        assert(normals(names) =~= Seq::<ComponentView>::empty());
        assert(path_components(join_names(names)) =~= Seq::<ComponentView>::empty());
    } else {
        assert(valid_name(names[0]));
        lemma_join_starts(names);
        assert(!is_rooted(join_names(names))) by {
            if names[0][0] == '/' {
                assert(names[0].contains('/'));
            }
        }
        lemma_split_join(names);
        lemma_pieces_valid(names, false);
        assert(path_components(join_names(names)) =~= normals(names));
    }
}

/// Whether every normal component of `cs` has a valid name.
pub open spec fn valid_normals(cs: Seq<ComponentView>) -> bool {
    forall|i: int| 0 <= i < cs.len() ==> (#[trigger] cs[i] matches ComponentView::Normal(n)
        ==> valid_name(n))
}

proof fn lemma_split_pieces_plain(s: Seq<char>, sep: char)
    ensures
        forall|i: int|
            0 <= i < split_on(s, sep).len() ==> !(#[trigger] split_on(s, sep)[i]).contains(sep),
    decreases s.len(),
{
    if s.len() > 0 {
        lemma_split_pieces_plain(s.drop_last(), sep);
        crate::paths::lemma_split_on_nonempty(s.drop_last(), sep);
        let p = split_on(s.drop_last(), sep);
        if s.last() != sep {
            assert forall|i: int| 0 <= i < split_on(s, sep).len() implies !(
            #[trigger] split_on(s, sep)[i]).contains(sep) by {
                if i == p.len() - 1 {
                    let piece = p.last().push(s.last());
                    if piece.contains(sep) {
                        let k = choose|k: int| 0 <= k < piece.len() && piece[k] == sep;
                        if k < p.last().len() {
                            assert(p.last()[k] == sep);
                            assert(p[p.len() - 1].contains(sep));
                        }
                    }
                }
            }
        }
    }
}

proof fn lemma_pieces_components_valid(pieces: Seq<Seq<char>>, rooted: bool)
    requires
        forall|i: int| 0 <= i < pieces.len() ==> !(#[trigger] pieces[i]).contains('/'),
    ensures
        valid_normals(crate::paths::pieces_components(pieces, rooted)),
    decreases pieces.len(),
{
    if pieces.len() > 0 {
        lemma_pieces_components_valid(pieces.drop_last(), rooted);
        assert(pieces[pieces.len() - 1] == pieces.last());
    }
}

/// The normal components of any path have valid names.
pub proof fn lemma_components_valid(p: Seq<char>)
    ensures
        valid_normals(path_components(p)),
{
    lemma_split_pieces_plain(p, '/');
    lemma_pieces_components_valid(split_on(p, '/'), is_rooted(p));
    let root: Seq<ComponentView> = if is_rooted(p) {
        seq![ComponentView::Root]
    } else {
        Seq::empty()
    };
    let rest = crate::paths::pieces_components(split_on(p, '/'), is_rooted(p));
    assert forall|i: int| 0 <= i < path_components(p).len() implies (#[trigger] path_components(
        p,
    )[i] matches ComponentView::Normal(n) ==> valid_name(n)) by {
        if i >= root.len() {
            assert(path_components(p)[i] == rest[i - root.len()]);
        }
    }
}

proof fn lemma_normalize_fold_valid(acc: Option<Seq<Seq<char>>>, cs: Seq<ComponentView>)
    requires
        acc matches Some(names) ==> valid_names(names),
        valid_normals(cs),
    ensures
        normalize_fold(acc, cs) matches Some(names) ==> valid_names(names),
    decreases cs.len(),
{
    if cs.len() > 0 {
        assert(valid_normals(cs.drop_last())) by {
            assert forall|i: int| 0 <= i < cs.drop_last().len() implies (
            #[trigger] cs.drop_last()[i] matches ComponentView::Normal(n) ==> valid_name(n)) by {
                assert(cs.drop_last()[i] == cs[i]);
            }
        }
        lemma_normalize_fold_valid(acc, cs.drop_last());
        assert(cs[cs.len() - 1] == cs.last());
        if let Some(names) = normalize_fold(acc, cs) {
            let prev = normalize_fold(acc, cs.drop_last())->0;
            assert forall|i: int| 0 <= i < names.len() implies valid_name(#[trigger] names[i]) by {
                if i < prev.len() {
                    assert(names[i] == prev[i]);
                }
            }
        }
    }
}

proof fn lemma_sub_valid(cs: Seq<ComponentView>, a: int, b: int)
    requires
        valid_normals(cs),
        0 <= a <= b <= cs.len(),
    ensures
        valid_normals(cs.subrange(a, b)),
{
    assert forall|i: int| 0 <= i < cs.subrange(a, b).len() implies (
    #[trigger] cs.subrange(a, b)[i] matches ComponentView::Normal(n) ==> valid_name(n)) by {
        assert(cs.subrange(a, b)[i] == cs[a + i]);
    }
}

proof fn lemma_concat_valid(a: Seq<ComponentView>, b: Seq<ComponentView>)
    requires
        valid_normals(a),
        valid_normals(b),
    ensures
        valid_normals(a + b),
{
    assert forall|i: int| 0 <= i < (a + b).len() implies (#[trigger] (a + b)[i] matches ComponentView::Normal(n) ==> valid_name(n)) by {
        if i < a.len() {
            assert((a + b)[i] == a[i]);
        } else {
            assert((a + b)[i] == b[i - a.len()]);
        }
    }
}

proof fn lemma_suffixed_valid(names: Seq<Seq<char>>, suffix: Seq<char>)
    requires
        valid_names(names),
        valid_name(suffix),
        suffix.len() > 2,
    ensures
        valid_names(with_suffix(names, suffix)),
{
    let w = with_suffix(names, suffix);
    if names.len() > 0 {
        let last = names.last() + suffix;
        assert(valid_name(names[names.len() - 1]));
        assert(!last.contains('/')) by {
            if last.contains('/') {
                let k = choose|k: int| 0 <= k < last.len() && last[k] == '/';
                if k < names.last().len() {
                    assert(names.last()[k] == '/');
                    assert(names[names.len() - 1].contains('/'));
                } else {
                    assert(suffix[k - names.last().len()] == '/');
                }
            }
        }
        assert(last.len() > 2);
        assert(last != crate::paths::dot() && last != crate::paths::dot_dot()) by {
            if last == crate::paths::dot() || last == crate::paths::dot_dot() {
                assert(last.len() <= 2);
            }
        }
        assert forall|i: int| 0 <= i < w.len() implies valid_name(#[trigger] w[i]) by {
            if i < names.len() - 1 {
                assert(w[i] == names[i]);
            }
        }
    }
}

proof fn lemma_candidates_valid(names: Seq<Seq<char>>)
    requires
        valid_names(names),
    ensures
        forall|i: int|
            0 <= i < candidates(names).len() ==> valid_names(#[trigger] candidates(names)[i]),
{
    assert(!md_suffix().contains('/')) by {
        if md_suffix().contains('/') {
            let k = choose|k: int| 0 <= k < md_suffix().len() && md_suffix()[k] == '/';
        }
    }
    assert(!markdown_suffix().contains('/')) by {
        if markdown_suffix().contains('/') {
            let k = choose|k: int| 0 <= k < markdown_suffix().len() && markdown_suffix()[k] == '/';
        }
    }
    assert(md_suffix() != crate::paths::dot() && md_suffix() != crate::paths::dot_dot()) by {
        assert(md_suffix().len() == 3);
    }
    assert(markdown_suffix() != crate::paths::dot() && markdown_suffix() != crate::paths::dot_dot())
        by {
        assert(markdown_suffix().len() == 9);
    }
    lemma_suffixed_valid(names, md_suffix());
    lemma_suffixed_valid(names, markdown_suffix());
}

proof fn lemma_present_members(cands: Seq<Seq<Seq<char>>>, paths: Seq<Seq<char>>)
    ensures
        forall|i: int|
            0 <= i < present(cands, paths).len() ==> contains_names(
                paths,
                #[trigger] present(cands, paths)[i],
            ) && exists|j: int| 0 <= j < cands.len() && cands[j] == present(cands, paths)[i],
    decreases cands.len(),
{
    if cands.len() > 0 {
        lemma_present_members(cands.drop_last(), paths);
        let prev = present(cands.drop_last(), paths);
        assert forall|i: int| 0 <= i < present(cands, paths).len() implies contains_names(
            paths,
            #[trigger] present(cands, paths)[i],
        ) && exists|j: int| 0 <= j < cands.len() && cands[j] == present(cands, paths)[i] by {
            if i < prev.len() {
                assert(present(cands, paths)[i] == prev[i]);
                let j = choose|j: int|
                    0 <= j < cands.drop_last().len() && cands.drop_last()[j] == prev[i];
                assert(cands[j] == cands.drop_last()[j]);
            } else {
                assert(cands[cands.len() - 1] == present(cands, paths)[i]);
            }
        }
    }
}

proof fn lemma_suffix_matches_members(paths: Seq<Seq<char>>, cands: Seq<Seq<Seq<char>>>)
    ensures
        forall|i: int|
            0 <= i < suffix_matches(paths, cands).len() ==> exists|j: int|
                0 <= j < paths.len() && paths[j] == #[trigger] suffix_matches(paths, cands)[i],
    decreases paths.len(),
{
    if paths.len() > 0 {
        lemma_suffix_matches_members(paths.drop_last(), cands);
        let prev = suffix_matches(paths.drop_last(), cands);
        assert forall|i: int| 0 <= i < suffix_matches(paths, cands).len() implies exists|j: int|
            0 <= j < paths.len() && paths[j] == #[trigger] suffix_matches(paths, cands)[i] by {
            if i < prev.len() {
                assert(suffix_matches(paths, cands)[i] == prev[i]);
                let j = choose|j: int|
                    0 <= j < paths.drop_last().len() && paths.drop_last()[j] == prev[i];
                assert(paths[j] == paths.drop_last()[j]);
            } else {
                assert(paths[paths.len() - 1] == suffix_matches(paths, cands)[i]);
            }
        }
    }
}

proof fn lemma_found_is_known(names: Option<Seq<Seq<char>>>, paths: Seq<Seq<char>>)
    requires
        names matches Some(n) ==> valid_names(n),
        lookup(names, paths) is Found,
    ensures
        contains_components(paths, path_components(join_names(lookup(names, paths)->Found_0))),
{
    let n = names->0;
    let cands = candidates(n);
    lemma_candidates_valid(n);
    lemma_present_members(cands, paths);
    let found = present(cands, paths);
    assert(contains_names(paths, found[0]));
    let j = choose|j: int| 0 <= j < cands.len() && cands[j] == found[0];
    assert(valid_names(cands[j]));
    lemma_components_of_join(found[0]);
}

/// Law: a link whose path part is not empty resolves only to a note that
/// is among the note paths of the folder.
pub proof fn law_resolved_link_is_a_known_note(
    source: Seq<char>,
    target: Seq<char>,
    paths: Seq<Seq<char>>,
)
    requires
        split_target_spec(target).0.len() > 0,
        resolve_path_spec(source, target, paths) is Ok,
    ensures
        contains_components(
            paths,
            path_components(resolve_path_spec(source, target, paths)->Ok_0),
        ),
{
    let (path, fragment) = split_target_spec(target);
    let t = slashes(path);
    let tc = path_components(t);
    let pc = parent_components(path_components(source));
    let relative = normalize_spec(pc + tc);
    let root = normalize_spec(strip_root(tc));
    lemma_components_valid(t);
    lemma_components_valid(source);
    let sc = path_components(source);
    assert(valid_normals(pc)) by {
        if sc.len() > 0 && !(sc.last() is Root) {
            lemma_sub_valid(sc, 0, sc.len() - 1);
            assert(sc.drop_last() =~= sc.subrange(0, sc.len() - 1));
        }
    }
    assert(valid_normals(strip_root(tc))) by {
        if tc.len() > 0 && tc[0] is Root {
            lemma_sub_valid(tc, 1, tc.len() as int);
            assert(tc.drop_first() =~= tc.subrange(1, tc.len() as int));
        }
    }
    lemma_concat_valid(pc, tc);
    assert(valid_names(Seq::<Seq<char>>::empty()));
    lemma_normalize_fold_valid(Some(Seq::empty()), pc + tc);
    lemma_normalize_fold_valid(Some(Seq::empty()), strip_root(tc));
    if lookup(relative, paths) is Found {
        lemma_found_is_known(relative, paths);
    }
    if lookup(root, paths) is Found {
        lemma_found_is_known(root, paths);
    }
    if root is Some {
        let matches = suffix_matches(paths, candidates(root->0));
        lemma_suffix_matches_members(paths, candidates(root->0));
        if matches.len() == 1 {
            let j = choose|j: int| 0 <= j < paths.len() && paths[j] == matches[0];
            assert(path_components(paths[j]) == path_components(matches[0]));
        }
    }
}

/// Law: the heading part of a link never changes which note the link
/// resolves to.
pub proof fn law_heading_does_not_change_note(
    source: Seq<char>,
    first: Seq<char>,
    second: Seq<char>,
    paths: Seq<Seq<char>>,
)
    requires
        split_target_spec(first).0 == split_target_spec(second).0,
        split_target_spec(first).0.len() > 0,
    ensures
        resolve_path_spec(source, first, paths) == resolve_path_spec(source, second, paths),
{
}

/// Law: a link made only of a non-empty heading (`[[#Heading]]`) stays in
/// the current note.
pub proof fn law_heading_link_stays_in_note(
    source: Seq<char>,
    target: Seq<char>,
    paths: Seq<Seq<char>>,
)
    requires
        split_target_spec(target).0.len() == 0,
        split_target_spec(target).1 matches Some(heading) && heading.len() > 0,
    ensures
        resolve_path_spec(source, target, paths) == Ok::<Seq<char>, NoteLinkErrorView>(source),
{
}

pub(crate) proof fn lemma_normalize_normals(acc: Seq<Seq<char>>, names: Seq<Seq<char>>)
    ensures
        normalize_fold(Some(acc), normals(names)) == Some(acc + names),
    decreases names.len(),
{
    if names.len() == 0 {
        assert(acc + names =~= acc);
    } else {
        lemma_normalize_normals(acc, names.drop_last());
        assert(normals(names).drop_last() =~= normals(names.drop_last()));
        assert(acc + names =~= (acc + names.drop_last()).push(names.last()));
    }
}

/// Law: a normalized path is its own normalization: its components are
/// plain names, and normalizing it again gives it back.
pub proof fn law_normalize_is_idempotent(path: Seq<char>)
    requires
        normalize_spec(path_components(path)) is Some,
    ensures
        ({
            let names = normalize_spec(path_components(path))->0;
            &&& path_components(join_names(names)) == normals(names)
            &&& normalize_spec(path_components(join_names(names))) == Some(names)
        }),
{
    let names = normalize_spec(path_components(path))->0;
    lemma_components_valid(path);
    assert(valid_names(Seq::<Seq<char>>::empty()));
    lemma_normalize_fold_valid(Some(Seq::empty()), path_components(path));
    lemma_components_of_join(names);
    lemma_normalize_normals(Seq::empty(), names);
    assert(Seq::<Seq<char>>::empty() + names =~= names);
}

/// How many more names than `..` components `cs` holds.
pub open spec fn name_balance(cs: Seq<ComponentView>) -> int
    decreases cs.len(),
{
    if cs.len() == 0 {
        0
    } else {
        name_balance(cs.drop_last()) + match cs.last() {
            ComponentView::Normal(_) => 1int,
            ComponentView::Parent => -1int,
            _ => 0int,
        }
    }
}

/// Whether `cs` starts at the root or climbs, in some leading run of its
/// components, above its start with more `..` than names.
pub open spec fn climbs_or_rooted(cs: Seq<ComponentView>) -> bool {
    (exists|i: int| 0 <= i < cs.len() && #[trigger] cs[i] is Root) || (exists|k: int|
        0 <= k <= cs.len() && #[trigger] name_balance(cs.take(k)) < 0)
}

proof fn lemma_normalize_balance(cs: Seq<ComponentView>)
    ensures
        normalize_spec(cs) is None <==> climbs_or_rooted(cs),
        normalize_spec(cs) matches Some(n) ==> n.len() == name_balance(cs),
    decreases cs.len(),
{
    if cs.len() == 0 {
        assert(cs.take(0) =~= cs);
    } else {
        let front = cs.drop_last();
        lemma_normalize_balance(front);
        assert(cs.take(cs.len() as int) =~= cs);
        if climbs_or_rooted(front) {
            if exists|i: int| 0 <= i < front.len() && #[trigger] front[i] is Root {
                let i = choose|i: int| 0 <= i < front.len() && #[trigger] front[i] is Root;
                assert(cs[i] == front[i]);
            } else {
                let k = choose|k: int| 0 <= k <= front.len() && #[trigger] name_balance(front.take(k)) < 0;
                assert(cs.take(k) =~= front.take(k));
            }
            lemma_normalize_fold_none(seq![cs.last()]);
        } else {
            assert forall|k: int| 0 <= k <= front.len() implies #[trigger] name_balance(cs.take(k)) >= 0 by {
                assert(cs.take(k) =~= front.take(k));
            }
            assert forall|i: int| 0 <= i < front.len() implies !(#[trigger] cs[i] is Root) by {
                assert(cs[i] == front[i]);
            }
            assert(cs.take(cs.len() as int).drop_last() =~= front);
            assert(front.take(front.len() as int) =~= front);
            assert(name_balance(front.take(front.len() as int)) >= 0);
            assert(name_balance(cs.take(cs.len() as int)) == name_balance(cs));
            if cs.last() is Root {
                assert(cs[cs.len() - 1] is Root);
            }
            if cs.last() is Parent && name_balance(front) == 0 {
                assert(name_balance(cs.take(cs.len() as int)) < 0);
            }
            if climbs_or_rooted(cs) {
                if exists|i: int| 0 <= i < cs.len() && #[trigger] cs[i] is Root {
                    let i = choose|i: int| 0 <= i < cs.len() && #[trigger] cs[i] is Root;
                    assert(i == cs.len() - 1);
                } else {
                    let k = choose|k: int| 0 <= k <= cs.len() && #[trigger] name_balance(cs.take(k)) < 0;
                    assert(k == cs.len());
                }
            }
        }
    }
}

/// Law: normalizing fails exactly when the path starts at the root or some
/// leading run of its components holds more `..` than names: a `..` above
/// the start is refused, never clamped.
pub proof fn law_normalize_fails_exactly_above_start(path: Seq<char>)
    ensures
        normalize_spec(path_components(path)) is None <==> climbs_or_rooted(path_components(path)),
{
    lemma_normalize_balance(path_components(path));
}

/// How the suffix matches of `paths` are made up: none when no path
/// matches, the one matching path when exactly one does, two or more when
/// two different entries of `paths` match.
proof fn lemma_suffix_matches_count(paths: Seq<Seq<char>>, cands: Seq<Seq<Seq<char>>>)
    ensures
        suffix_matches(paths, cands).len() == 0 <==> forall|k: int|
            0 <= k < paths.len() ==> !ends_with_candidate(#[trigger] paths[k], cands),
        suffix_matches(paths, cands).len() == 1 ==> exists|k: int|
            0 <= k < paths.len() && paths[k] == suffix_matches(paths, cands)[0]
                && ends_with_candidate(#[trigger] paths[k], cands) && forall|k2: int|
                0 <= k2 < paths.len() && ends_with_candidate(#[trigger] paths[k2], cands) ==> k2
                    == k,
        suffix_matches(paths, cands).len() >= 2 <==> exists|i: int, j: int|
            0 <= i < j < paths.len() && ends_with_candidate(#[trigger] paths[i], cands)
                && ends_with_candidate(#[trigger] paths[j], cands),
    decreases paths.len(),
{
    if paths.len() > 0 {
        let front = paths.drop_last();
        let last = paths.last();
        let n = paths.len() - 1;
        lemma_suffix_matches_count(front, cands);
        assert forall|k: int| 0 <= k < front.len() implies #[trigger] front[k] == paths[k] by {}
        assert(paths[n] == last);
        let sm = suffix_matches(paths, cands);
        let fm = suffix_matches(front, cands);
        if ends_with_candidate(last, cands) {
            if fm.len() == 0 {
                assert forall|k2: int|
                    0 <= k2 < paths.len() && ends_with_candidate(#[trigger] paths[k2], cands) implies k2
                    == n by {
                    if k2 < n {
                        assert(front[k2] == paths[k2]);
                    }
                }
                assert(sm[0] == last);
            } else if fm.len() == 1 {
                let k = choose|k: int|
                    0 <= k < front.len() && front[k] == fm[0] && ends_with_candidate(
                        #[trigger] front[k],
                        cands,
                    ) && forall|k2: int|
                        0 <= k2 < front.len() && ends_with_candidate(#[trigger] front[k2], cands)
                            ==> k2 == k;
                assert(ends_with_candidate(paths[k], cands) && ends_with_candidate(paths[n], cands));
            } else {
                let (i, j) = choose|i: int, j: int|
                    0 <= i < j < front.len() && ends_with_candidate(#[trigger] front[i], cands)
                        && ends_with_candidate(#[trigger] front[j], cands);
                assert(ends_with_candidate(paths[i], cands) && ends_with_candidate(paths[j], cands));
            }
            if exists|i: int, j: int|
                0 <= i < j < paths.len() && ends_with_candidate(#[trigger] paths[i], cands)
                    && ends_with_candidate(#[trigger] paths[j], cands) {
                let (i, j) = choose|i: int, j: int|
                    0 <= i < j < paths.len() && ends_with_candidate(#[trigger] paths[i], cands)
                        && ends_with_candidate(#[trigger] paths[j], cands);
                assert(ends_with_candidate(front[i], cands));
            }
        } else {
            assert(sm == fm);
            if fm.len() == 0 {
                assert forall|k: int| 0 <= k < paths.len() implies !ends_with_candidate(
                    #[trigger] paths[k],
                    cands,
                ) by {
                    if k < n {
                        assert(front[k] == paths[k]);
                    }
                }
            }
            if fm.len() == 1 {
                let k = choose|k: int|
                    0 <= k < front.len() && front[k] == fm[0] && ends_with_candidate(
                        #[trigger] front[k],
                        cands,
                    ) && forall|k2: int|
                        0 <= k2 < front.len() && ends_with_candidate(#[trigger] front[k2], cands)
                            ==> k2 == k;
                assert(paths[k] == front[k]);
                assert forall|k2: int|
                    0 <= k2 < paths.len() && ends_with_candidate(#[trigger] paths[k2], cands) implies k2
                    == k by {
                    if k2 < n {
                        assert(front[k2] == paths[k2]);
                    }
                }
            }
            if exists|i: int, j: int|
                0 <= i < j < paths.len() && ends_with_candidate(#[trigger] paths[i], cands)
                    && ends_with_candidate(#[trigger] paths[j], cands) {
                let (i, j) = choose|i: int, j: int|
                    0 <= i < j < paths.len() && ends_with_candidate(#[trigger] paths[i], cands)
                        && ends_with_candidate(#[trigger] paths[j], cands);
                assert(j < n);
                assert(ends_with_candidate(front[i], cands) && ends_with_candidate(front[j], cands));
            }
            if exists|i: int, j: int|
                0 <= i < j < front.len() && ends_with_candidate(#[trigger] front[i], cands)
                    && ends_with_candidate(#[trigger] front[j], cands) {
                let (i, j) = choose|i: int, j: int|
                    0 <= i < j < front.len() && ends_with_candidate(#[trigger] front[i], cands)
                        && ends_with_candidate(#[trigger] front[j], cands);
                assert(ends_with_candidate(paths[i], cands) && ends_with_candidate(paths[j], cands));
            }
        }
    }
}

/// Whether resolving `target` from `source` falls through to matching the
/// bare link path against the ends of the note paths: the link path is not
/// empty, does not start at the root or with `.` or `..`, normalizes, and
/// neither the source's folder nor the root of the notes folder holds a
/// candidate for it.
pub open spec fn resolves_by_suffix(source: Seq<char>, target: Seq<char>, paths: Seq<Seq<char>>) -> bool {
    let path = split_target_spec(target).0;
    let t = slashes(path);
    let tc = path_components(t);
    let relative = normalize_spec(parent_components(path_components(source)) + tc);
    let root = normalize_spec(strip_root(tc));
    &&& path.len() > 0
    &&& !(tc.len() > 0 && (tc[0] is Current || tc[0] is Parent))
    &&& !is_rooted(t)
    &&& root is Some
    &&& lookup(relative, paths) is Missing
    &&& lookup(root, paths) is Missing
}

/// The candidates that a bare link path is matched against.
pub open spec fn bare_candidates(target: Seq<char>) -> Seq<Seq<Seq<char>>> {
    candidates(
        normalize_spec(strip_root(path_components(slashes(split_target_spec(target).0))))->0,
    )
}

/// Where resolution falls through to suffix matching, its result is that of
/// the matching.
proof fn lemma_resolve_by_suffix(source: Seq<char>, target: Seq<char>, paths: Seq<Seq<char>>)
    requires
        resolves_by_suffix(source, target, paths),
    ensures
        ({
            let sm = suffix_matches(paths, bare_candidates(target));
            let t = slashes(split_target_spec(target).0);
            resolve_path_spec(source, target, paths) == if sm.len() == 1 {
                Ok::<Seq<char>, NoteLinkErrorView>(sm[0])
            } else if sm.len() == 0 {
                Err(NoteLinkErrorView::NotFound(t))
            } else {
                Err(NoteLinkErrorView::AmbiguousName(t))
            }
        }),
{
}

/// What a result decided by suffix matching says of the matching paths.
#[verifier::rlimit(40)]
proof fn lemma_suffix_outcome(
    r: Result<Seq<char>, NoteLinkErrorView>,
    t: Seq<char>,
    paths: Seq<Seq<char>>,
    c: Seq<Seq<Seq<char>>>,
)
    requires
        r == if suffix_matches(paths, c).len() == 1 {
            Ok::<Seq<char>, NoteLinkErrorView>(suffix_matches(paths, c)[0])
        } else if suffix_matches(paths, c).len() == 0 {
            Err(NoteLinkErrorView::NotFound(t))
        } else {
            Err(NoteLinkErrorView::AmbiguousName(t))
        },
    ensures
        r matches Ok(q) ==> exists|k: int|
            0 <= k < paths.len() && #[trigger] paths[k] == q && ends_with_candidate(q, c) && forall|
                k2: int,
            | 0 <= k2 < paths.len() && ends_with_candidate(#[trigger] paths[k2], c) ==> k2 == k,
        r is Ok <==> exists|k: int|
            0 <= k < paths.len() && ends_with_candidate(#[trigger] paths[k], c) && forall|k2: int|
                0 <= k2 < paths.len() && ends_with_candidate(#[trigger] paths[k2], c) ==> k2 == k,
        r matches Err(NoteLinkErrorView::NotFound(_)) <==> forall|k: int|
            0 <= k < paths.len() ==> !ends_with_candidate(#[trigger] paths[k], c),
        r matches Err(NoteLinkErrorView::AmbiguousName(_)) <==> exists|i: int, j: int|
            0 <= i < j < paths.len() && ends_with_candidate(#[trigger] paths[i], c)
                && ends_with_candidate(#[trigger] paths[j], c),
{
    lemma_suffix_matches_count(paths, c);
    let sm = suffix_matches(paths, c);
    if sm.len() == 0 {
        assert(forall|k: int| 0 <= k < paths.len() ==> !ends_with_candidate(#[trigger] paths[k], c));
    } else if sm.len() == 1 {
        let k = choose|k: int|
            0 <= k < paths.len() && paths[k] == sm[0] && ends_with_candidate(#[trigger] paths[k], c)
                && forall|k2: int|
                0 <= k2 < paths.len() && ends_with_candidate(#[trigger] paths[k2], c) ==> k2 == k;
        assert(!ends_with_candidate(paths[k], c) ==> false);
        assert(!(forall|k3: int| 0 <= k3 < paths.len() ==> !ends_with_candidate(#[trigger] paths[k3], c)));
    } else {
        let (i, j) = choose|i: int, j: int|
            0 <= i < j < paths.len() && ends_with_candidate(#[trigger] paths[i], c)
                && ends_with_candidate(#[trigger] paths[j], c);
        assert(!(forall|k3: int| 0 <= k3 < paths.len() ==> !ends_with_candidate(#[trigger] paths[k3], c)));
        assert forall|k: int|
            0 <= k < paths.len() && ends_with_candidate(#[trigger] paths[k], c) implies !(forall|k2: int|
                0 <= k2 < paths.len() && ends_with_candidate(#[trigger] paths[k2], c) ==> k2 == k) by {
            if k == i {
                assert(ends_with_candidate(paths[j], c));
            } else {
                assert(ends_with_candidate(paths[i], c));
            }
        }
    }
}

/// Law: a bare link path that neither the source's folder nor the root
/// resolves leads to the one note whose path ends with it, is not found
/// when none does, and is ambiguous when two do: it never picks one of
/// several.
pub proof fn law_bare_name_resolves_only_to_a_unique_match(
    source: Seq<char>,
    target: Seq<char>,
    paths: Seq<Seq<char>>,
)
    requires
        resolves_by_suffix(source, target, paths),
    ensures
        resolve_path_spec(source, target, paths) matches Ok(q) ==> exists|k: int|
            0 <= k < paths.len() && #[trigger] paths[k] == q && ends_with_candidate(
                q,
                bare_candidates(target),
            ) && forall|k2: int|
                0 <= k2 < paths.len() && ends_with_candidate(
                    #[trigger] paths[k2],
                    bare_candidates(target),
                ) ==> k2 == k,
        resolve_path_spec(source, target, paths) is Ok <==> exists|k: int|
            0 <= k < paths.len() && ends_with_candidate(#[trigger] paths[k], bare_candidates(target))
                && forall|k2: int|
                0 <= k2 < paths.len() && ends_with_candidate(
                    #[trigger] paths[k2],
                    bare_candidates(target),
                ) ==> k2 == k,
        resolve_path_spec(source, target, paths) matches Err(NoteLinkErrorView::NotFound(_))
            <==> forall|k: int|
            0 <= k < paths.len() ==> !ends_with_candidate(#[trigger] paths[k], bare_candidates(target)),
        resolve_path_spec(source, target, paths) matches Err(NoteLinkErrorView::AmbiguousName(_))
            <==> exists|i: int, j: int|
            0 <= i < j < paths.len() && ends_with_candidate(#[trigger] paths[i], bare_candidates(target))
                && ends_with_candidate(#[trigger] paths[j], bare_candidates(target)),
{
    lemma_resolve_by_suffix(source, target, paths);
    lemma_suffix_outcome(
        resolve_path_spec(source, target, paths),
        slashes(split_target_spec(target).0),
        paths,
        bare_candidates(target),
    );
}

/// Whether the last components of the path `p` are, in order, the names
/// `names`: the last name is the last component, the name before it the
/// component before, and so on.
pub open spec fn ends_with_names(p: Seq<char>, names: Seq<Seq<char>>) -> bool {
    let c = path_components(p);
    names.len() <= c.len() && forall|j: int|
        0 <= j < names.len() ==> c[c.len() - names.len() + j] == ComponentView::Normal(
            #[trigger] names[j],
        )
}

/// Law: a path ends with a candidate exactly when one candidate's names
/// are, every one of them in order, the last components of the path.
pub proof fn law_ends_with_candidate_compares_every_name(
    p: Seq<char>,
    cands: Seq<Seq<Seq<char>>>,
)
    ensures
        ends_with_candidate(p, cands) <==> exists|i: int|
            0 <= i < cands.len() && ends_with_names(p, #[trigger] cands[i]),
{
    assert forall|i: int| 0 <= i < cands.len() implies is_component_suffix(
        normals(#[trigger] cands[i]),
        path_components(p),
    ) == ends_with_names(p, cands[i]) by {
        lemma_component_suffix_by_index(p, cands[i]);
    }
    if ends_with_candidate(p, cands) {
        let i = choose|i: int|
            0 <= i < cands.len() && is_component_suffix(
                normals(#[trigger] cands[i]),
                path_components(p),
            );
        assert(ends_with_names(p, cands[i]));
    }
    if exists|i: int| 0 <= i < cands.len() && ends_with_names(p, #[trigger] cands[i]) {
        let i = choose|i: int| 0 <= i < cands.len() && ends_with_names(p, #[trigger] cands[i]);
        assert(is_component_suffix(normals(cands[i]), path_components(p)));
    }
}

proof fn lemma_component_suffix_by_index(p: Seq<char>, names: Seq<Seq<char>>)
    ensures
        is_component_suffix(normals(names), path_components(p)) == ends_with_names(p, names),
{
    let c = path_components(p);
    let n = normals(names);
    if is_component_suffix(n, c) {
        assert forall|j: int| 0 <= j < names.len() implies c[c.len() - names.len() + j]
            == ComponentView::Normal(#[trigger] names[j]) by {
            assert(c.skip(c.len() - n.len())[j] == n[j]);
        }
    }
    if ends_with_names(p, names) {
        assert(c.skip(c.len() - n.len()) =~= n);
    }
}

/// Law: where a link path falls through to matching the ends of the note
/// paths, a note path matches only when every name of a candidate (the
/// normalized link path, or it with `.md` or `.markdown` on its last name)
/// is the corresponding trailing component of the note path. The link
/// resolves to a note that matches so and that no other note path shares;
/// it is not found when no note path matches so, and ambiguous when two
/// do.
pub proof fn law_bare_name_matches_whole_trailing_components(
    source: Seq<char>,
    target: Seq<char>,
    paths: Seq<Seq<char>>,
)
    requires
        resolves_by_suffix(source, target, paths),
    ensures
        ({
            let c = bare_candidates(target);
            let r = resolve_path_spec(source, target, paths);
            &&& (r matches Ok(q) ==> (exists|a: int|
                0 <= a < c.len() && ends_with_names(q, #[trigger] c[a])) && forall|k: int, a: int|
                0 <= k < paths.len() && 0 <= a < c.len() && #[trigger] ends_with_names(
                    paths[k],
                    c[a],
                ) ==> paths[k] == q)
            &&& (r matches Err(NoteLinkErrorView::NotFound(_)) <==> forall|k: int, a: int|
                0 <= k < paths.len() && 0 <= a < c.len() ==> !(#[trigger] ends_with_names(
                    paths[k],
                    c[a],
                )))
            &&& (r matches Err(NoteLinkErrorView::AmbiguousName(_)) <==> exists|
                i: int,
                j: int,
                a: int,
                b: int,
            |
                0 <= i < j < paths.len() && 0 <= a < c.len() && 0 <= b < c.len()
                    && #[trigger] ends_with_names(paths[i], c[a]) && #[trigger] ends_with_names(
                    paths[j],
                    c[b],
                ))
        }),
{
    law_bare_name_resolves_only_to_a_unique_match(source, target, paths);
    lemma_suffix_outcome_by_names(
        resolve_path_spec(source, target, paths),
        paths,
        bare_candidates(target),
    );
}

/// What a suffix-matching outcome says of the matching paths, stated name
/// by name.
proof fn lemma_suffix_outcome_by_names(
    r: Result<Seq<char>, NoteLinkErrorView>,
    paths: Seq<Seq<char>>,
    c: Seq<Seq<Seq<char>>>,
)
    requires
        r matches Ok(q) ==> exists|k: int|
            0 <= k < paths.len() && #[trigger] paths[k] == q && ends_with_candidate(q, c) && forall|
                k2: int,
            | 0 <= k2 < paths.len() && ends_with_candidate(#[trigger] paths[k2], c) ==> k2 == k,
        r matches Err(NoteLinkErrorView::NotFound(_)) <==> forall|k: int|
            0 <= k < paths.len() ==> !ends_with_candidate(#[trigger] paths[k], c),
        r matches Err(NoteLinkErrorView::AmbiguousName(_)) <==> exists|i: int, j: int|
            0 <= i < j < paths.len() && ends_with_candidate(#[trigger] paths[i], c)
                && ends_with_candidate(#[trigger] paths[j], c),
    ensures
        r matches Ok(q) ==> (exists|a: int|
            0 <= a < c.len() && ends_with_names(q, #[trigger] c[a])) && forall|k: int, a: int|
            0 <= k < paths.len() && 0 <= a < c.len() && #[trigger] ends_with_names(paths[k], c[a])
                ==> paths[k] == q,
        r matches Err(NoteLinkErrorView::NotFound(_)) <==> forall|k: int, a: int|
            0 <= k < paths.len() && 0 <= a < c.len() ==> !(#[trigger] ends_with_names(
                paths[k],
                c[a],
            )),
        r matches Err(NoteLinkErrorView::AmbiguousName(_)) <==> exists|
            i: int,
            j: int,
            a: int,
            b: int,
        |
            0 <= i < j < paths.len() && 0 <= a < c.len() && 0 <= b < c.len()
                && #[trigger] ends_with_names(paths[i], c[a]) && #[trigger] ends_with_names(
                paths[j],
                c[b],
            ),
{
    assert forall|p: Seq<char>| #[trigger] ends_with_candidate(p, c) <==> exists|a: int|
        0 <= a < c.len() && ends_with_names(p, #[trigger] c[a]) by {
        law_ends_with_candidate_compares_every_name(p, c);
    }
    if let Ok(q) = r {
        let k = choose|k: int|
            0 <= k < paths.len() && #[trigger] paths[k] == q && ends_with_candidate(q, c) && forall|
                k2: int,
            | 0 <= k2 < paths.len() && ends_with_candidate(#[trigger] paths[k2], c) ==> k2 == k;
        assert forall|k2: int, a: int|
            0 <= k2 < paths.len() && 0 <= a < c.len() && #[trigger] ends_with_names(
                paths[k2],
                c[a],
            ) implies paths[k2] == q by {
            assert(ends_with_candidate(paths[k2], c));
        }
    }
    if forall|k: int| 0 <= k < paths.len() ==> !ends_with_candidate(#[trigger] paths[k], c) {
        assert forall|k: int, a: int| 0 <= k < paths.len() && 0 <= a < c.len() implies
            !(#[trigger] ends_with_names(paths[k], c[a])) by {
            assert(!ends_with_candidate(paths[k], c));
        }
    }
    if forall|k: int, a: int|
        0 <= k < paths.len() && 0 <= a < c.len() ==> !(#[trigger] ends_with_names(paths[k], c[a])) {
        assert forall|k: int| 0 <= k < paths.len() implies !ends_with_candidate(
            #[trigger] paths[k],
            c,
        ) by {
            if ends_with_candidate(paths[k], c) {
                let a = choose|a: int| 0 <= a < c.len() && ends_with_names(paths[k], #[trigger] c[a]);
            }
        }
    }
    if exists|i: int, j: int|
        0 <= i < j < paths.len() && ends_with_candidate(#[trigger] paths[i], c)
            && ends_with_candidate(#[trigger] paths[j], c) {
        let (i, j) = choose|i: int, j: int|
            0 <= i < j < paths.len() && ends_with_candidate(#[trigger] paths[i], c)
                && ends_with_candidate(#[trigger] paths[j], c);
        let a = choose|a: int| 0 <= a < c.len() && ends_with_names(paths[i], #[trigger] c[a]);
        let b = choose|b: int| 0 <= b < c.len() && ends_with_names(paths[j], #[trigger] c[b]);
        assert(ends_with_names(paths[i], c[a]) && ends_with_names(paths[j], c[b]));
    }
    if exists|i: int, j: int, a: int, b: int|
        0 <= i < j < paths.len() && 0 <= a < c.len() && 0 <= b < c.len()
            && #[trigger] ends_with_names(paths[i], c[a]) && #[trigger] ends_with_names(
            paths[j],
            c[b],
        ) {
        let (i, j, a, b) = choose|i: int, j: int, a: int, b: int|
            0 <= i < j < paths.len() && 0 <= a < c.len() && 0 <= b < c.len()
                && #[trigger] ends_with_names(paths[i], c[a]) && #[trigger] ends_with_names(
                paths[j],
                c[b],
            );
        assert(ends_with_candidate(paths[i], c) && ends_with_candidate(paths[j], c));
    }
}

/// Law: where the source note's folder holds exactly one candidate for a
/// link path that does not start at the root, the link leads there,
/// whatever other notes at the root or elsewhere also match it.
pub proof fn law_source_folder_is_tried_first(
    source: Seq<char>,
    target: Seq<char>,
    paths: Seq<Seq<char>>,
)
    requires
        split_target_spec(target).0.len() > 0,
        !is_rooted(slashes(split_target_spec(target).0)),
        lookup(
            normalize_spec(
                parent_components(path_components(source)) + path_components(
                    slashes(split_target_spec(target).0),
                ),
            ),
            paths,
        ) is Found,
    ensures
        resolve_path_spec(source, target, paths) == Ok::<Seq<char>, NoteLinkErrorView>(
            join_names(
                lookup(
                    normalize_spec(
                        parent_components(path_components(source)) + path_components(
                            slashes(split_target_spec(target).0),
                        ),
                    ),
                    paths,
                )->Found_0,
            ),
        ),
{
}

} // verus!
