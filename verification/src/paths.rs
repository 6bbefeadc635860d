//! A model of slash-separated relative and absolute paths: their
//! components, file names, extensions, and lexical normalization.
//!
//! Components follow the Unix rules: a leading `/` is the root, empty
//! pieces and `.` pieces are skipped except for a `.` that begins a
//! relative path, and `..` is a parent component.

use vstd::prelude::*;
use crate::text::{chars_of, copy_chars, eq_ignore_ascii_case_from, eq_ignore_ascii_case_spec};

verus! {

/// One component of a path, as a value.
pub enum ComponentView {
    Root,
    Current,
    Parent,
    Normal(Seq<char>),
}

/// One component of a path.
#[derive(Debug, PartialEq, Eq)]
pub enum PathComponent {
    Root,
    Current,
    Parent,
    Normal(Vec<char>),
}

impl View for PathComponent {
    type V = ComponentView;

    open spec fn view(&self) -> ComponentView {
        match self {
            PathComponent::Root => ComponentView::Root,
            PathComponent::Current => ComponentView::Current,
            PathComponent::Parent => ComponentView::Parent,
            PathComponent::Normal(name) => ComponentView::Normal(name@),
        }
    }
}

/// The views of a sequence of components.
pub open spec fn components_view(v: Seq<PathComponent>) -> Seq<ComponentView> {
    v.map_values(|c: PathComponent| c@)
}

/// `s` split at every occurrence of `sep`; always at least one piece.
pub open spec fn split_on(s: Seq<char>, sep: char) -> Seq<Seq<char>>
    decreases s.len(),
{
    if s.len() == 0 {
        seq![Seq::empty()]
    } else {
        let pieces = split_on(s.drop_last(), sep);
        if s.last() == sep {
            pieces.push(Seq::empty())
        } else {
            pieces.update(pieces.len() - 1, pieces.last().push(s.last()))
        }
    }
}

/// Splitting always gives at least one piece.
pub proof fn lemma_split_on_nonempty(s: Seq<char>, sep: char)
    ensures
        split_on(s, sep).len() >= 1,
    decreases s.len(),
{
    if s.len() > 0 {
        lemma_split_on_nonempty(s.drop_last(), sep);
    }
}

/// The piece `.`.
pub open spec fn dot() -> Seq<char> {
    seq!['.']
}

/// The piece `..`.
pub open spec fn dot_dot() -> Seq<char> {
    seq!['.', '.']
}

/// The components contributed by the slash-separated `pieces` of a path;
/// `rooted` tells whether the path starts at the root.
pub open spec fn pieces_components(pieces: Seq<Seq<char>>, rooted: bool) -> Seq<ComponentView>
    decreases pieces.len(),
{
    if pieces.len() == 0 {
        Seq::empty()
    } else {
        let prev = pieces_components(pieces.drop_last(), rooted);
        let piece = pieces.last();
        if piece.len() == 0 {
            prev
        } else if piece == dot() {
            if pieces.len() == 1 && !rooted {
                prev.push(ComponentView::Current)
            } else {
                prev
            }
        } else if piece == dot_dot() {
            prev.push(ComponentView::Parent)
        } else {
            prev.push(ComponentView::Normal(piece))
        }
    }
}

/// Whether `a` comes before `b` when both are compared character by
/// character by code point, a proper prefix first: the order of their
/// UTF-8 bytes.
pub open spec fn chars_before(a: Seq<char>, b: Seq<char>) -> bool
    decreases a.len(),
{
    if a.len() == 0 {
        b.len() > 0
    } else if b.len() == 0 {
        false
    } else if a[0] != b[0] {
        (a[0] as int) < (b[0] as int)
    } else {
        chars_before(a.drop_first(), b.drop_first())
    }
}

/// The rank of a component's kind in the order of path components: the
/// root, then `.`, then `..`, then names.
pub open spec fn component_rank(c: ComponentView) -> int {
    match c {
        ComponentView::Root => 1,
        ComponentView::Current => 2,
        ComponentView::Parent => 3,
        ComponentView::Normal(_) => 4,
    }
}

/// Whether component `a` comes before component `b`: by kind, and names
/// by their characters.
pub open spec fn component_before(a: ComponentView, b: ComponentView) -> bool {
    match (a, b) {
        (ComponentView::Normal(x), ComponentView::Normal(y)) => chars_before(x, y),
        _ => component_rank(a) < component_rank(b),
    }
}

/// Whether the components `a` come before the components `b`: compared
/// one by one, a proper prefix first.
pub open spec fn components_before(a: Seq<ComponentView>, b: Seq<ComponentView>) -> bool
    decreases a.len(),
{
    if a.len() == 0 {
        b.len() > 0
    } else if b.len() == 0 {
        false
    } else if a[0] != b[0] {
        component_before(a[0], b[0])
    } else {
        components_before(a.drop_first(), b.drop_first())
    }
}

/// Whether path `a` comes before path `b` in the order of paths: by their
/// components.
pub open spec fn path_before(a: Seq<char>, b: Seq<char>) -> bool {
    components_before(path_components(a), path_components(b))
}

/// Whether the path starts at the root.
pub open spec fn is_rooted(p: Seq<char>) -> bool {
    p.len() > 0 && p[0] == '/'
}

/// The components of the path `p`.
pub open spec fn path_components(p: Seq<char>) -> Seq<ComponentView> {
    let root: Seq<ComponentView> = if is_rooted(p) {
        seq![ComponentView::Root]
    } else {
        Seq::empty()
    };
    root + pieces_components(split_on(p, '/'), is_rooted(p))
}

fn is_dot(piece: &Vec<char>) -> (r: bool)
    ensures
        r == (piece@ == dot()),
{
    if piece.len() == 1 && piece[0] == '.' {
        assert(piece@ =~= dot());
        true
    } else {
        false
    }
}

fn is_dot_dot(piece: &Vec<char>) -> (r: bool)
    ensures
        r == (piece@ == dot_dot()),
{
    if piece.len() == 2 && piece[0] == '.' && piece[1] == '.' {
        assert(piece@ =~= dot_dot());
        true
    } else {
        false
    }
}

/// Appends the component of one more piece, the last of `pieces`.
fn push_piece(
    comps: &mut Vec<PathComponent>,
    piece: Vec<char>,
    Ghost(prefix): Ghost<Seq<ComponentView>>,
    Ghost(pieces): Ghost<Seq<Seq<char>>>,
    first: bool,
    rooted: bool,
)
    requires
        pieces.len() >= 1,
        first == (pieces.len() == 1),
        pieces.last() == piece@,
        components_view(old(comps)@) == prefix + pieces_components(pieces.drop_last(), rooted),
    ensures
        components_view(final(comps)@) == prefix + pieces_components(pieces, rooted),
{
    let ghost old_view = components_view(comps@);
    let ghost prev = pieces_components(pieces.drop_last(), rooted);
    assert(pieces.drop_last().push(pieces.last()) =~= pieces);
    if piece.len() == 0 {
        assert(pieces_components(pieces, rooted) == prev);
    } else if is_dot(&piece) {
        if first && !rooted {
            comps.push(PathComponent::Current);
            assert(components_view(comps@) =~= old_view.push(ComponentView::Current));
            assert(pieces_components(pieces, rooted) == prev.push(ComponentView::Current));
        } else {
            assert(pieces_components(pieces, rooted) == prev);
        }
    } else if is_dot_dot(&piece) {
        comps.push(PathComponent::Parent);
        assert(components_view(comps@) =~= old_view.push(ComponentView::Parent));
        assert(pieces_components(pieces, rooted) == prev.push(ComponentView::Parent));
    } else {
        let ghost pv = piece@;
        comps.push(PathComponent::Normal(piece));
        assert(components_view(comps@) =~= old_view.push(ComponentView::Normal(pv)));
        assert(pieces_components(pieces, rooted) == prev.push(ComponentView::Normal(pv)));
    }
    assert(components_view(comps@) =~= prefix + pieces_components(pieces, rooted));
}

/// The components of the path `p`.
pub fn components(p: &str) -> (r: Vec<PathComponent>)
    ensures
        components_view(r@) == path_components(p@),
{
    let chars = chars_of(p);
    components_of_chars(&chars)
}

/// The components of the path whose characters are `chars`.
pub fn components_of_chars(chars: &Vec<char>) -> (r: Vec<PathComponent>)
    ensures
        components_view(r@) == path_components(chars@),
{
    let rooted = chars.len() > 0 && chars[0] == '/';
    let mut comps: Vec<PathComponent> = Vec::new();
    if rooted {
        comps.push(PathComponent::Root);
    }
    let ghost root_part = components_view(comps@);
    let mut current: Vec<char> = Vec::new();
    let mut i: usize = 0;
    let mut first = true;
    proof {
        assert(chars@.take(0) =~= Seq::<char>::empty());
        assert(split_on(chars@.take(0), '/').drop_last() =~= Seq::<Seq<char>>::empty());
    }
    while i < chars.len()
        invariant
            i <= chars.len(),
            rooted == is_rooted(chars@),
            root_part == (if rooted {
                seq![ComponentView::Root]
            } else {
                Seq::<ComponentView>::empty()
            }),
            split_on(chars@.take(i as int), '/').len() >= 1,
            first == (split_on(chars@.take(i as int), '/').len() == 1),
            current@ == split_on(chars@.take(i as int), '/').last(),
            components_view(comps@) == root_part + pieces_components(
                split_on(chars@.take(i as int), '/').drop_last(),
                rooted,
            ),
        decreases chars.len() - i,
    {
        let ghost before = split_on(chars@.take(i as int), '/');
        let ghost after = split_on(chars@.take(i + 1), '/');
        proof {
            assert(chars@.take(i + 1).drop_last() =~= chars@.take(i as int));
            assert(chars@.take(i + 1).last() == chars@[i as int]);
        }
        let c = chars[i];
        if c == '/' {
            let piece = current;
            current = Vec::new();
            proof {
                assert(after == before.push(Seq::empty()));
                assert(after.drop_last() =~= before);
            }
            push_piece(&mut comps, piece, Ghost(root_part), Ghost(before), first, rooted);
            first = false;
        } else {
            current.push(c);
            proof {
                assert(after.drop_last() =~= before.drop_last());
            }
        }
        i += 1;
    }
    proof {
        assert(chars@.take(chars.len() as int) =~= chars@);
    }
    push_piece(&mut comps, current, Ghost(root_part), Ghost(split_on(chars@, '/')), first, rooted);
    comps
}

/// The position of the last `c` in `s`.
pub open spec fn last_index_of(s: Seq<char>, c: char) -> Option<int>
    decreases s.len(),
{
    if s.len() == 0 {
        None
    } else if s.last() == c {
        Some(s.len() - 1)
    } else {
        last_index_of(s.drop_last(), c)
    }
}

/// The extension of a file name: the text after its last `.`, unless that
/// dot is the name's first character or there is none.
pub open spec fn name_extension(name: Seq<char>) -> Option<Seq<char>> {
    match last_index_of(name, '.') {
        Some(i) => if i == 0 {
            None
        } else {
            Some(name.skip(i + 1))
        },
        None => None,
    }
}

/// The file name of a path: its last component when that is a normal one.
pub open spec fn file_name(p: Seq<char>) -> Option<Seq<char>> {
    let c = path_components(p);
    if c.len() > 0 && c.last() is Normal {
        Some(c.last()->Normal_0)
    } else {
        None
    }
}

/// The extension of the path's file name.
pub open spec fn path_extension(p: Seq<char>) -> Option<Seq<char>> {
    match file_name(p) {
        Some(name) => name_extension(name),
        None => None,
    }
}

/// `md` and `markdown`, ignoring ASCII case.
pub open spec fn is_markdown_extension(e: Seq<char>) -> bool {
    eq_ignore_ascii_case_spec(e, seq!['m', 'd']) || eq_ignore_ascii_case_spec(
        e,
        seq!['m', 'a', 'r', 'k', 'd', 'o', 'w', 'n'],
    )
}

/// Whether the path names a Markdown note.
pub open spec fn is_note_spec(p: Seq<char>) -> bool {
    match path_extension(p) {
        Some(e) => is_markdown_extension(e),
        None => false,
    }
}

proof fn lemma_last_index_bounds(s: Seq<char>, c: char)
    ensures
        last_index_of(s, c) matches Some(i) ==> 0 <= i < s.len() && s[i] == c,
    decreases s.len(),
{
    if s.len() > 0 && s.last() != c {
        lemma_last_index_bounds(s.drop_last(), c);
    }
}

/// The position just after the last `.` of a file name, when the name has
/// an extension: `name_extension(name) == Some(name[start..])`.
pub fn extension_start(name: &[char]) -> (r: Option<usize>)
    ensures
        match r {
            Some(start) => 2 <= start <= name.len() && name_extension(name@) == Some(
                name@.skip(start as int),
            ),
            None => name_extension(name@) is None,
        },
{
    let mut i: usize = name.len();
    assert(name@.take(i as int) =~= name@);
    while i > 0 && name[i - 1] != '.'
        invariant
            i <= name.len(),
            last_index_of(name@, '.') == last_index_of(name@.take(i as int), '.'),
        decreases i,
    {
        proof {
            assert(name@.take(i as int).drop_last() =~= name@.take(i - 1));
        }
        i -= 1;
    }
    if i == 0 {
        proof {
            assert(name@.take(0) =~= Seq::<char>::empty());
        }
        None
    } else {
        proof {
            assert(name@.take(i as int).last() == name@[i - 1]);
        }
        if i == 1 {
            None
        } else {
            Some(i)
        }
    }
}

/// Whether `ext` is `md` or `markdown`, ignoring ASCII case; `ext` is the
/// part of `name` from `start` on.
pub fn is_markdown_extension_at(name: &[char], start: usize) -> (r: bool)
    requires
        start <= name.len(),
    ensures
        r == is_markdown_extension(name@.skip(start as int)),
{
    let md = vec!['m', 'd'];
    let markdown = vec!['m', 'a', 'r', 'k', 'd', 'o', 'w', 'n'];
    proof {
        assert(md@ =~= seq!['m', 'd']);
        assert(markdown@ =~= seq!['m', 'a', 'r', 'k', 'd', 'o', 'w', 'n']);
    }
    eq_ignore_ascii_case_from(name, start, md.as_slice()) || eq_ignore_ascii_case_from(
        name,
        start,
        markdown.as_slice(),
    )
}

/// Whether the last of `comps` is a normal component with a Markdown
/// extension.
pub fn components_name_note(comps: &Vec<PathComponent>) -> (r: bool)
    ensures
        r == (components_view(comps@).len() > 0 && components_view(comps@).last() is Normal
            && match name_extension(components_view(comps@).last()->Normal_0) {
            Some(e) => is_markdown_extension(e),
            None => false,
        }),
{
    if comps.len() == 0 {
        return false;
    }
    let last = &comps[comps.len() - 1];
    assert(components_view(comps@).last() == comps@.last()@);
    match last {
        PathComponent::Normal(name) => match extension_start(name.as_slice()) {
            Some(start) => is_markdown_extension_at(name.as_slice(), start),
            None => false,
        },
        _ => false,
    }
}

/// Whether the path names a Markdown note (`.md` or `.markdown`, in any
/// ASCII case).
pub fn is_markdown_path(path: &str) -> (r: bool)
    ensures
        r == is_note_spec(path@),
{
    let comps = components(path);
    components_name_note(&comps)
}

/// The stem of a file name: the name without its extension and the dot
/// before it.
pub open spec fn name_stem(name: Seq<char>) -> Seq<char> {
    match name_extension(name) {
        Some(e) => name.take(name.len() - e.len() - 1),
        None => name,
    }
}

/// The stem of the path's file name.
pub open spec fn file_stem(p: Seq<char>) -> Option<Seq<char>> {
    match file_name(p) {
        Some(name) => Some(name_stem(name)),
        None => None,
    }
}

/// The first `n` characters of `v`.
pub fn prefix_chars(v: &[char], n: usize) -> (r: Vec<char>)
    requires
        n <= v.len(),
    ensures
        r@ == v@.take(n as int),
{
    let mut r: Vec<char> = Vec::new();
    let mut i: usize = 0;
    while i < n
        invariant
            i <= n <= v.len(),
            r@ == v@.take(i as int),
        decreases n - i,
    {
        r.push(v[i]);
        assert(v@.take(i + 1) =~= v@.take(i as int).push(v@[i as int]));
        i += 1;
    }
    r
}

/// The characters of the stem of the path's file name.
pub fn file_stem_chars(path: &str) -> (r: Option<Vec<char>>)
    ensures
        match r {
            Some(stem) => file_stem(path@) == Some(stem@),
            None => file_stem(path@) is None,
        },
{
    let comps = components(path);
    if comps.len() == 0 {
        return None;
    }
    let last = &comps[comps.len() - 1];
    assert(components_view(comps@).last() == comps@.last()@);
    match last {
        PathComponent::Normal(name) => match extension_start(name.as_slice()) {
            Some(start) => Some(prefix_chars(name.as_slice(), start - 1)),
            None => Some(copy_chars(name.as_slice())),
        },
        _ => None,
    }
}

/// The order of characters is transitive.
pub proof fn lemma_chars_before_transitive(a: Seq<char>, b: Seq<char>, c: Seq<char>)
    requires
        chars_before(a, b),
        chars_before(b, c),
    ensures
        chars_before(a, c),
    decreases a.len(),
{
    if a.len() > 0 && b.len() > 0 && c.len() > 0 && a[0] == b[0] && b[0] == c[0] {
        lemma_chars_before_transitive(a.drop_first(), b.drop_first(), c.drop_first());
    }
}

/// No sequence of characters comes before itself.
pub proof fn lemma_chars_before_irreflexive(a: Seq<char>)
    ensures
        !chars_before(a, a),
    decreases a.len(),
{
    if a.len() > 0 {
        lemma_chars_before_irreflexive(a.drop_first());
    }
}

/// Of two different sequences of characters, one comes before the other.
pub proof fn lemma_chars_before_total(a: Seq<char>, b: Seq<char>)
    requires
        a != b,
    ensures
        chars_before(a, b) || chars_before(b, a),
    decreases a.len(),
{
    if a.len() == 0 && b.len() == 0 {
        assert(a =~= b);
    }
    if a.len() > 0 && b.len() > 0 && a[0] == b[0] {
        if a.drop_first() == b.drop_first() {
            assert(a =~= seq![a[0]] + a.drop_first());
            assert(b =~= seq![b[0]] + b.drop_first());
        }
        lemma_chars_before_total(a.drop_first(), b.drop_first());
    }
}

/// The order of components is transitive.
pub proof fn lemma_component_before_transitive(a: ComponentView, b: ComponentView, c: ComponentView)
    requires
        component_before(a, b),
        component_before(b, c),
    ensures
        component_before(a, c),
{
    if a is Normal && b is Normal && c is Normal {
        lemma_chars_before_transitive(a->Normal_0, b->Normal_0, c->Normal_0);
    }
}

/// Of two different components, one comes before the other, and no
/// component comes before itself.
pub proof fn lemma_component_before_total(a: ComponentView, b: ComponentView)
    ensures
        a != b ==> component_before(a, b) || component_before(b, a),
        !component_before(a, a),
{
    if a is Normal && b is Normal {
        if a != b {
            lemma_chars_before_total(a->Normal_0, b->Normal_0);
        }
    }
    if a is Normal {
        lemma_chars_before_irreflexive(a->Normal_0);
    }
}

/// The order of component sequences is transitive.
pub proof fn lemma_components_before_transitive(
    a: Seq<ComponentView>,
    b: Seq<ComponentView>,
    c: Seq<ComponentView>,
)
    requires
        components_before(a, b),
        components_before(b, c),
    ensures
        components_before(a, c),
    decreases a.len(),
{
    if a.len() > 0 && b.len() > 0 && c.len() > 0 {
        if a[0] == b[0] && b[0] == c[0] {
            lemma_components_before_transitive(a.drop_first(), b.drop_first(), c.drop_first());
        } else if a[0] != b[0] && b[0] != c[0] {
            lemma_component_before_transitive(a[0], b[0], c[0]);
            lemma_component_before_total(a[0], c[0]);
        }
    }
}

/// Of two different component sequences, one comes before the other, and
/// none comes before itself.
pub proof fn lemma_components_before_total(a: Seq<ComponentView>, b: Seq<ComponentView>)
    ensures
        a != b ==> components_before(a, b) || components_before(b, a),
        !components_before(a, a),
    decreases a.len(),
{
    if a.len() > 0 {
        lemma_components_before_total(a.drop_first(), a.drop_first());
    }
    if a.len() == 0 && b.len() == 0 {
        assert(a =~= b);
    }
    if a.len() > 0 && b.len() > 0 {
        if a[0] == b[0] {
            if a != b {
                if a.drop_first() == b.drop_first() {
                    assert(a =~= seq![a[0]] + a.drop_first());
                    assert(b =~= seq![b[0]] + b.drop_first());
                }
            }
            lemma_components_before_total(a.drop_first(), b.drop_first());
        } else {
            lemma_component_before_total(a[0], b[0]);
        }
    }
}

/// Whether `a` comes before `b` (see [`chars_before`]).
fn chars_before_exec(a: &Vec<char>, b: &Vec<char>) -> (r: bool)
    ensures
        r == chars_before(a@, b@),
{
    let mut i: usize = 0;
    assert(a@.skip(0) =~= a@ && b@.skip(0) =~= b@);
    while i < a.len() && i < b.len() && a[i] == b[i]
        invariant
            i <= a.len(),
            i <= b.len(),
            chars_before(a@, b@) == chars_before(a@.skip(i as int), b@.skip(i as int)),
        decreases a.len() - i,
    {
        assert(a@.skip(i as int).drop_first() =~= a@.skip(i + 1));
        assert(b@.skip(i as int).drop_first() =~= b@.skip(i + 1));
        i += 1;
    }
    let ghost sa = a@.skip(i as int);
    let ghost sb = b@.skip(i as int);
    if i == a.len() {
        assert(sa.len() == 0);
        i < b.len()
    } else if i == b.len() {
        assert(sb.len() == 0 && sa.len() > 0);
        false
    } else {
        assert(sa[0] == a@[i as int] && sb[0] == b@[i as int]);
        assert(sa[0] != sb[0]);
        let x = a[i];
        let y = b[i];
        x < y
    }
}

/// Whether component `a` comes before component `b`.
fn component_before_exec(a: &PathComponent, b: &PathComponent) -> (r: bool)
    ensures
        r == component_before(a@, b@),
{
    match (a, b) {
        (PathComponent::Normal(x), PathComponent::Normal(y)) => chars_before_exec(x, y),
        _ => {
            let ra: u8 = match a {
                PathComponent::Root => 1,
                PathComponent::Current => 2,
                PathComponent::Parent => 3,
                PathComponent::Normal(_) => 4,
            };
            let rb: u8 = match b {
                PathComponent::Root => 1,
                PathComponent::Current => 2,
                PathComponent::Parent => 3,
                PathComponent::Normal(_) => 4,
            };
            ra < rb
        },
    }
}

/// Whether two components are the same.
fn component_equal(a: &PathComponent, b: &PathComponent) -> (r: bool)
    ensures
        r == (a@ == b@),
{
    match (a, b) {
        (PathComponent::Root, PathComponent::Root) => true,
        (PathComponent::Current, PathComponent::Current) => true,
        (PathComponent::Parent, PathComponent::Parent) => true,
        (PathComponent::Normal(x), PathComponent::Normal(y)) => {
            let r = !chars_before_exec(x, y) && !chars_before_exec(y, x);
            proof {
                if x@ != y@ {
                    lemma_chars_before_total(x@, y@);
                } else {
                    lemma_chars_before_irreflexive(x@);
                }
            }
            r
        },
        _ => false,
    }
}

/// Whether path `a` comes before path `b` (see [`path_before`]).
pub fn path_before_exec(a: &str, b: &str) -> (r: bool)
    ensures
        r == path_before(a@, b@),
{
    let ca = components(a);
    let cb = components(b);
    let ghost va = components_view(ca@);
    let ghost vb = components_view(cb@);
    let mut i: usize = 0;
    assert(va.skip(0) =~= va && vb.skip(0) =~= vb);
    while i < ca.len() && i < cb.len() && component_equal(&ca[i], &cb[i])
        invariant
            i <= ca.len(),
            i <= cb.len(),
            va == components_view(ca@),
            vb == components_view(cb@),
            components_before(va, vb) == components_before(va.skip(i as int), vb.skip(i as int)),
        decreases ca.len() - i,
    {
        assert(va.skip(i as int).drop_first() =~= va.skip(i + 1));
        assert(vb.skip(i as int).drop_first() =~= vb.skip(i + 1));
        i += 1;
    }
    if i == ca.len() {
        i < cb.len()
    } else if i == cb.len() {
        false
    } else {
        component_before_exec(&ca[i], &cb[i])
    }
}

/// `last_index_of` finds the last occurrence of `c`.
proof fn lemma_last_index_of(s: Seq<char>, c: char)
    ensures
        match last_index_of(s, c) {
            Some(i) => 0 <= i < s.len() && s[i] == c && forall|j: int| i < j < s.len() ==> s[j] != c,
            None => forall|j: int| 0 <= j < s.len() ==> s[j] != c,
        },
    decreases s.len(),
{
    if s.len() > 0 && s.last() != c {
        lemma_last_index_of(s.drop_last(), c);
        let t = s.drop_last();
        assert forall|j: int| 0 <= j < t.len() implies t[j] == s[j] by {}
    }
}

/// Law: a path names a Markdown note exactly when its file name has an
/// extension, the text after its last `.` where that dot is not the name's
/// first character, and that extension is `md` or `markdown` in any ASCII
/// case.
pub proof fn law_is_note_by_extension(p: Seq<char>)
    ensures
        is_note_spec(p) <==> exists|name: Seq<char>, i: int|
            file_name(p) == Some(name) && 0 < i < name.len() && #[trigger] name[i] == '.' && (forall|
                j: int,
            | i < j < name.len() ==> name[j] != '.') && is_markdown_extension(name.skip(i + 1)),
{
    match file_name(p) {
        Some(name) => {
            lemma_last_index_of(name, '.');
            if is_note_spec(p) {
                let i = last_index_of(name, '.')->0;
                assert(name[i] == '.');
            }
            if exists|name2: Seq<char>, i: int|
                file_name(p) == Some(name2) && 0 < i < name2.len() && #[trigger] name2[i] == '.' && (
                forall|j: int| i < j < name2.len() ==> name2[j] != '.') && is_markdown_extension(
                    name2.skip(i + 1),
                ) {
                let (name2, i) = choose|name2: Seq<char>, i: int|
                    file_name(p) == Some(name2) && 0 < i < name2.len() && #[trigger] name2[i] == '.'
                        && (forall|j: int| i < j < name2.len() ==> name2[j] != '.')
                        && is_markdown_extension(name2.skip(i + 1));
                assert(name2 == name);
                match last_index_of(name, '.') {
                    Some(k) => {
                        if k < i {
                            assert(name[i] != '.');
                        } else if k > i {
                            assert(name[k] != '.');
                        }
                    },
                    None => {
                        assert(name[i] != '.');
                    },
                }
            }
        },
        None => {},
    }
}

/// The pieces of `chars` split at every `sep` (see [`split_on`]).
pub fn split_chars(chars: &Vec<char>, sep: char) -> (r: Vec<Vec<char>>)
    ensures
        r@.map_values(|v: Vec<char>| v@) == split_on(chars@, sep),
{
    let mut pieces: Vec<Vec<char>> = Vec::new();
    let mut current: Vec<char> = Vec::new();
    let mut i: usize = 0;
    proof {
        assert(chars@.take(0) =~= Seq::<char>::empty());
        assert(split_on(chars@.take(0), sep).drop_last() =~= Seq::<Seq<char>>::empty());
        assert(pieces@.map_values(|v: Vec<char>| v@) =~= Seq::<Seq<char>>::empty());
    }
    while i < chars.len()
        invariant
            i <= chars.len(),
            split_on(chars@.take(i as int), sep).len() >= 1,
            current@ == split_on(chars@.take(i as int), sep).last(),
            pieces@.map_values(|v: Vec<char>| v@) == split_on(chars@.take(i as int), sep).drop_last(),
        decreases chars.len() - i,
    {
        let ghost before = split_on(chars@.take(i as int), sep);
        let ghost after = split_on(chars@.take(i + 1), sep);
        proof {
            assert(chars@.take(i + 1).drop_last() =~= chars@.take(i as int));
            assert(chars@.take(i + 1).last() == chars@[i as int]);
        }
        let c = chars[i];
        if c == sep {
            let piece = current;
            current = Vec::new();
            let ghost pv = piece@;
            pieces.push(piece);
            proof {
                assert(after == before.push(Seq::empty()));
                assert(after.drop_last() =~= before);
                assert(before =~= before.drop_last().push(pv));
                assert(pieces@.map_values(|v: Vec<char>| v@) =~= before.drop_last().push(pv));
                assert(current@ =~= Seq::<char>::empty());
            }
        } else {
            current.push(c);
            proof {
                assert(after.drop_last() =~= before.drop_last());
            }
        }
        i += 1;
    }
    proof {
        assert(chars@.take(chars.len() as int) =~= chars@);
    }
    let ghost all = split_on(chars@, sep);
    let ghost last = current@;
    pieces.push(current);
    proof {
        assert(all =~= all.drop_last().push(last));
        assert(pieces@.map_values(|v: Vec<char>| v@) =~= all);
    }
    pieces
}

} // verus!
