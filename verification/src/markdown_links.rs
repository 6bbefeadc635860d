//! Inline Markdown links (`[text](destination "title")`): finding the link
//! under the cursor, reading its destination, and resolving a relative
//! destination against the note that holds it.

use vstd::prelude::*;
use vstd::string::*;
use vstd::utf8::*;
use crate::note_links::{join_names, join_names_exec, names_view, normalize_extend, normalize_spec};
use crate::paths::{
    components, components_view, is_rooted, path_components, ComponentView, PathComponent,
};
use crate::text::{
    byte_substring, chars_of, lemma_boundary_after_ascii, string_from_chars, trim_end,
    trim_end_spec, trim_start, trim_start_spec,
};

verus! {

/// The number of backslash bytes just before `index`.
pub open spec fn backslashes_before(bytes: Seq<u8>, index: int) -> nat
    decreases index,
{
    if index <= 0 || index > bytes.len() || bytes[index - 1] != 92u8 {
        0
    } else {
        1 + backslashes_before(bytes, index - 1)
    }
}

/// Whether the byte at `index` is escaped: an odd number of backslashes
/// precede it.
pub open spec fn is_escaped_spec(bytes: Seq<u8>, index: int) -> bool {
    backslashes_before(bytes, index) % 2 == 1
}

/// Whether the byte at `index` is escaped by the backslashes before it.
pub fn is_escaped(bytes: &[u8], index: usize) -> (r: bool)
    requires
        index <= bytes@.len(),
    ensures
        r == is_escaped_spec(bytes@, index as int),
{
    let mut count: usize = 0;
    let mut j: usize = index;
    while j > 0 && bytes[j - 1] == 92u8
        invariant
            j <= index <= bytes@.len(),
            count + backslashes_before(bytes@, j as int) == backslashes_before(
                bytes@,
                index as int,
            ),
            count <= index - j,
        decreases j,
    {
        count += 1;
        j -= 1;
    }
    count % 2 == 1
}

/// Where the delimiter opened at or after byte `index` closes, with
/// `depth` delimiters already open: escaped bytes are skipped, `opening`
/// opens one more, `closing` closes one; `None` when a `closing` comes
/// with none open or the bytes end first.
pub open spec fn balanced_from(bytes: Seq<u8>, index: int, depth: nat, opening: u8, closing: u8) -> Option<
    int,
>
    decreases bytes.len() - index,
{
    if index < 0 || index >= bytes.len() {
        None
    } else if is_escaped_spec(bytes, index) {
        balanced_from(bytes, index + 1, depth, opening, closing)
    } else if bytes[index] == opening {
        balanced_from(bytes, index + 1, depth + 1, opening, closing)
    } else if bytes[index] == closing {
        if depth == 0 {
            None
        } else if depth == 1 {
            Some(index)
        } else {
            balanced_from(bytes, index + 1, (depth - 1) as nat, opening, closing)
        }
    } else {
        balanced_from(bytes, index + 1, depth, opening, closing)
    }
}

/// What `balanced_from` finds lies at or after where it starts, and is a
/// closing byte.
pub proof fn lemma_balanced_after(
    bytes: Seq<u8>,
    index: int,
    depth: nat,
    opening: u8,
    closing: u8,
)
    ensures
        balanced_from(bytes, index, depth, opening, closing) matches Some(e) ==> index <= e
            < bytes.len() && bytes[e] == closing,
    decreases bytes.len() - index,
{
    if 0 <= index < bytes.len() {
        if is_escaped_spec(bytes, index) {
            lemma_balanced_after(bytes, index + 1, depth, opening, closing);
        } else if bytes[index] == opening {
            lemma_balanced_after(bytes, index + 1, depth + 1, opening, closing);
        } else if bytes[index] == closing {
            if depth > 1 {
                lemma_balanced_after(bytes, index + 1, (depth - 1) as nat, opening, closing);
            }
        } else {
            lemma_balanced_after(bytes, index + 1, depth, opening, closing);
        }
    }
}

/// The byte that closes the delimiter group starting at `start` (see
/// [`balanced_from`]).
pub fn find_balanced_delimiter(bytes: &[u8], start: usize, opening: u8, closing: u8) -> (r:
    Option<usize>)
    ensures
        match r {
            Some(e) => balanced_from(bytes@, start as int, 0, opening, closing) == Some(e as int),
            None => balanced_from(bytes@, start as int, 0, opening, closing) is None,
        },
{
    let mut depth: usize = 0;
    let mut index: usize = start;
    while index < bytes.len()
        invariant
            start <= index,
            depth <= index - start,
            balanced_from(bytes@, index as int, depth as nat, opening, closing) == balanced_from(
                bytes@,
                start as int,
                0,
                opening,
                closing,
            ),
        decreases bytes@.len() - index,
    {
        let byte = bytes[index];
        if !is_escaped(bytes, index) {
            if byte == opening {
                depth = depth + 1;
            } else if byte == closing {
                if depth == 0 {
                    return None;
                }
                depth = depth - 1;
                if depth == 0 {
                    return Some(index);
                }
            }
        }
        index += 1;
    }
    None
}

/// The characters of `s` with each backslash dropped and the character
/// after it kept as it is; `None` when `s` ends in a lone backslash.
pub open spec fn unescape_chars(s: Seq<char>) -> Option<Seq<char>>
    decreases s.len(),
{
    if s.len() == 0 {
        Some(Seq::empty())
    } else if s[0] == '\\' {
        if s.len() == 1 {
            None
        } else {
            match unescape_chars(s.skip(2)) {
                Some(rest) => Some(seq![s[1]] + rest),
                None => None,
            }
        }
    } else {
        match unescape_chars(s.skip(1)) {
            Some(rest) => Some(seq![s[0]] + rest),
            None => None,
        }
    }
}

/// A link destination with its backslash escapes removed; `None` for an
/// empty destination or one that ends in a lone backslash.
pub open spec fn unescape_destination_spec(s: Seq<char>) -> Option<Seq<char>> {
    if s.len() == 0 {
        None
    } else {
        unescape_chars(s)
    }
}

/// Removes the backslash escapes of a link destination (see
/// [`unescape_destination_spec`]).
pub fn unescape_markdown_destination(destination: &str) -> (r: Option<String>)
    ensures
        match r {
            Some(s) => unescape_destination_spec(destination@) == Some(s@),
            None => unescape_destination_spec(destination@) is None,
        },
{
    let chars = chars_of(destination);
    if chars.len() == 0 {
        return None;
    }
    let ghost s = chars@;
    let mut out: Vec<char> = Vec::new();
    let mut i: usize = 0;
    proof {
        assert(s.skip(0) =~= s);
        if let Some(rest) = unescape_chars(s) {
            assert(out@ + rest =~= rest);
        }
    }
    while i < chars.len()
        invariant
            i <= chars.len(),
            s == chars@,
            s == destination@,
            s.len() > 0,
            unescape_chars(s) == match unescape_chars(s.skip(i as int)) {
                Some(rest) => Some(out@ + rest),
                None => None,
            },
        decreases chars.len() - i,
    {
        let ghost tail = s.skip(i as int);
        if chars[i] == '\\' {
            if i + 1 >= chars.len() {
                assert(tail.len() == 1 && tail[0] == '\\');
                assert(unescape_chars(tail) is None);
                return None;
            }
            out.push(chars[i + 1]);
            proof {
                assert(tail.skip(2) =~= s.skip(i + 2));
                assert(tail[1] == s[i + 1]);
                match unescape_chars(tail.skip(2)) {
                    Some(rest) => {
                        assert(out@ + rest =~= out@.drop_last() + (seq![tail[1]] + rest));
                    },
                    None => {},
                }
            }
            i += 2;
        } else {
            out.push(chars[i]);
            proof {
                assert(tail.skip(1) =~= s.skip(i + 1));
                match unescape_chars(tail.skip(1)) {
                    Some(rest) => {
                        assert(out@ + rest =~= out@.drop_last() + (seq![tail[0]] + rest));
                    },
                    None => {},
                }
            }
            i += 1;
        }
    }
    assert(s.skip(i as int) =~= Seq::<char>::empty());
    assert(out@ + Seq::<char>::empty() =~= out@);
    Some(string_from_chars(out.as_slice()))
}

/// Whether `c` is an ASCII letter.
pub open spec fn is_ascii_letter(c: char) -> bool {
    ('a' <= c && c <= 'z') || ('A' <= c && c <= 'Z')
}

/// Whether the text before the first `:` of `target` is a URI scheme: a
/// letter, then letters, `+`, `-` or `.`.
pub open spec fn has_uri_scheme_spec(target: Seq<char>) -> bool {
    match crate::text::index_of(target, ':') {
        Some(colon) => colon > 0 && forall|i: int|
            0 <= i < colon ==> is_ascii_letter(#[trigger] target[i]) || (i > 0 && (target[i]
                == '+' || target[i] == '-' || target[i] == '.')),
        None => false,
    }
}

/// Whether `target` starts with a URI scheme such as `https:`.
pub fn has_uri_scheme(target: &str) -> (r: bool)
    ensures
        r == has_uri_scheme_spec(target@),
{
    let chars = chars_of(target);
    let colon = match crate::text::find_char(chars.as_slice(), ':') {
        Some(c) => c,
        None => return false,
    };
    if colon == 0 {
        return false;
    }
    let mut i: usize = 0;
    while i < colon
        invariant
            0 < colon <= chars.len(),
            chars@ == target@,
            crate::text::index_of(target@, ':') == Some(colon as int),
            i <= colon,
            forall|j: int|
                0 <= j < i ==> is_ascii_letter(#[trigger] chars@[j]) || (j > 0 && (chars@[j]
                    == '+' || chars@[j] == '-' || chars@[j] == '.')),
        decreases colon - i,
    {
        let c = chars[i];
        let letter = ('a' <= c && c <= 'z') || ('A' <= c && c <= 'Z');
        if !(letter || (i > 0 && (c == '+' || c == '-' || c == '.'))) {
            assert(!(is_ascii_letter(target@[i as int]) || (i > 0 && (target@[i as int] == '+'
                || target@[i as int] == '-' || target@[i as int] == '.'))));
            return false;
        }
        i += 1;
    }
    true
}

/// The first `>` at or after `index` that is not escaped.
pub open spec fn angle_end(bytes: Seq<u8>, index: int) -> Option<int>
    decreases bytes.len() - index,
{
    if index < 0 || index >= bytes.len() {
        None
    } else if bytes[index] == 62u8 && !is_escaped_spec(bytes, index) {
        Some(index)
    } else {
        angle_end(bytes, index + 1)
    }
}

/// Space, tab, line feed, form feed or carriage return.
pub open spec fn is_ascii_whitespace_byte(byte: u8) -> bool {
    byte == 32u8 || byte == 9u8 || byte == 10u8 || byte == 12u8 || byte == 13u8
}

/// Where a destination without angle brackets ends, scanning from `index`
/// with `nested` parentheses open: at the first ASCII whitespace outside
/// parentheses, else at the end. A backslash skips the byte after it.
pub open spec fn bare_end(bytes: Seq<u8>, index: int, nested: nat) -> int
    decreases bytes.len() + 1 - index,
{
    if index < 0 || index >= bytes.len() {
        bytes.len() as int
    } else if bytes[index] == 92u8 {
        bare_end(bytes, index + 2, nested)
    } else if bytes[index] == 40u8 {
        bare_end(bytes, index + 1, nested + 1)
    } else if bytes[index] == 41u8 && nested > 0 {
        bare_end(bytes, index + 1, (nested - 1) as nat)
    } else if is_ascii_whitespace_byte(bytes[index]) && nested == 0 {
        index
    } else {
        bare_end(bytes, index + 1, nested)
    }
}

proof fn lemma_bare_end_bounds(bytes: Seq<u8>, index: int, nested: nat)
    requires
        0 <= index,
    ensures
        index <= bare_end(bytes, index, nested) <= bytes.len() || bare_end(bytes, index, nested)
            == bytes.len(),
        bare_end(bytes, index, nested) < bytes.len() ==> is_ascii_whitespace_byte(
            bytes[bare_end(bytes, index, nested)],
        ),
    decreases bytes.len() + 1 - index,
{
    if index < bytes.len() {
        if bytes[index] == 92u8 {
            lemma_bare_end_bounds(bytes, index + 2, nested);
        } else if bytes[index] == 40u8 {
            lemma_bare_end_bounds(bytes, index + 1, nested + 1);
        } else if bytes[index] == 41u8 && nested > 0 {
            lemma_bare_end_bounds(bytes, index + 1, (nested - 1) as nat);
        } else if is_ascii_whitespace_byte(bytes[index]) && nested == 0 {
        } else {
            lemma_bare_end_bounds(bytes, index + 1, nested);
        }
    }
}

/// The destination of an inline link, from the text between its
/// parentheses: `<...>` up to the first unescaped `>`, or else the text up
/// to the first ASCII whitespace outside parentheses (which drops a
/// title); escapes are then removed.
pub open spec fn parse_destination_spec(contents: Seq<char>) -> Option<Seq<char>> {
    let c = trim_start_spec(contents);
    if c.len() > 0 && c[0] == '<' {
        let inner = encode_utf8(c.drop_first());
        match angle_end(inner, 0) {
            Some(e) => unescape_destination_spec(decode_utf8(inner.take(e))),
            None => None,
        }
    } else {
        let bytes = encode_utf8(c);
        unescape_destination_spec(trim_end_spec(decode_utf8(bytes.take(bare_end(bytes, 0, 0)))))
    }
}

fn find_angle_end(bytes: &[u8]) -> (r: Option<usize>)
    ensures
        match r {
            Some(e) => angle_end(bytes@, 0) == Some(e as int) && e < bytes@.len() && bytes@[e as int]
                == 62u8,
            None => angle_end(bytes@, 0) is None,
        },
{
    let mut j: usize = 0;
    while j < bytes.len()
        invariant
            j <= bytes@.len(),
            angle_end(bytes@, j as int) == angle_end(bytes@, 0),
        decreases bytes@.len() - j,
    {
        if bytes[j] == 62u8 && !is_escaped(bytes, j) {
            return Some(j);
        }
        j += 1;
    }
    None
}

fn find_bare_end(bytes: &[u8]) -> (r: usize)
    ensures
        r == bare_end(bytes@, 0, 0),
{
    let mut nested: usize = 0;
    let mut index: usize = 0;
    while index < bytes.len()
        invariant
            index <= bytes@.len(),
            nested <= index,
            bare_end(bytes@, index as int, nested as nat) == bare_end(bytes@, 0, 0),
        decreases bytes@.len() - index,
    {
        let byte = bytes[index];
        if byte == 92u8 {
            if bytes.len() - index >= 2 {
                index += 2;
            } else {
                assert(bare_end(bytes@, index + 2, nested as nat) == bytes@.len());
                index = bytes.len();
            }
        } else {
            if byte == 40u8 {
                nested += 1;
            } else if byte == 41u8 && nested > 0 {
                nested -= 1;
            } else if (byte == 32u8 || byte == 9u8 || byte == 10u8 || byte == 12u8 || byte == 13u8)
                && nested == 0 {
                return index;
            }
            index += 1;
        }
    }
    index
}

/// The destination of an inline link from the text between its
/// parentheses (see [`parse_destination_spec`]).
pub fn parse_markdown_link_destination(contents: &str) -> (r: Option<String>)
    ensures
        match r {
            Some(d) => parse_destination_spec(contents@) == Some(d@),
            None => parse_destination_spec(contents@) is None,
        },
{
    let c = trim_start(contents);
    let chars = chars_of(c);
    if chars.len() > 0 && chars[0] == '<' {
        let inner = c.substring_char(1, chars.len());
        assert(inner@ =~= c@.drop_first());
        let bytes = inner.as_bytes();
        let end = match find_angle_end(bytes) {
            Some(e) => e,
            None => return None,
        };
        proof {
            encode_utf8_valid_utf8(inner@);
            is_char_boundary_iff_not_is_continuation_byte(inner.spec_bytes(), end as int);
        }
        let (head, _) = inner.split_at(end);
        proof {
            encode_utf8_decode_utf8(head@);
            assert(head.spec_bytes() =~= inner.spec_bytes().take(end as int));
        }
        return unescape_markdown_destination(head);
    }
    let bytes = c.as_bytes();
    let end = find_bare_end(bytes);
    proof {
        lemma_bare_end_bounds(bytes@, 0, 0);
        encode_utf8_valid_utf8(c@);
        is_char_boundary_start_end_of_seq(c.spec_bytes());
        if end < bytes@.len() {
            is_char_boundary_iff_not_is_continuation_byte(c.spec_bytes(), end as int);
        }
    }
    let (head, _) = c.split_at(end);
    proof {
        encode_utf8_decode_utf8(head@);
        assert(head.spec_bytes() =~= c.spec_bytes().take(end as int));
    }
    unescape_markdown_destination(trim_end(head))
}

/// How far on either side of the cursor links are looked for, in bytes.
pub const LINK_SCAN_LIMIT: usize = 4096;

/// The first character boundary at or after `index`.
pub open spec fn next_boundary(bytes: Seq<u8>, index: int) -> int
    decreases bytes.len() - index,
{
    if index >= bytes.len() || is_char_boundary(bytes, index) {
        index
    } else {
        next_boundary(bytes, index + 1)
    }
}

/// The last character boundary at or before `index`.
pub open spec fn prev_boundary(bytes: Seq<u8>, index: int) -> int
    decreases index,
{
    if index <= 0 || is_char_boundary(bytes, index) {
        index
    } else {
        prev_boundary(bytes, index - 1)
    }
}

/// The inline link found by scanning `bytes` from `start`: for the first
/// link (an unescaped `[` not after `!`, its balanced `]`, then a balanced
/// `(...)`) that holds `cursor`, where its `[` stands and the bounds of the
/// text between its parentheses. A link before the cursor is skipped whole;
/// a `[` that does not start a link is skipped alone.
pub open spec fn link_at_from(bytes: Seq<u8>, start: int, cursor: int) -> Option<(int, int, int)>
    decreases bytes.len() - start,
{
    if start < 0 || start >= bytes.len() {
        None
    } else if bytes[start] != 91u8 || is_escaped_spec(bytes, start) || (start > 0 && bytes[start
        - 1] == 33u8) {
        link_at_from(bytes, start + 1, cursor)
    } else {
        match balanced_from(bytes, start, 0, 91u8, 93u8) {
            None => link_at_from(bytes, start + 1, cursor),
            Some(text_end) => {
                let dest = text_end + 1;
                if dest >= bytes.len() || bytes[dest] != 40u8 {
                    link_at_from(bytes, start + 1, cursor)
                } else {
                    match balanced_from(bytes, dest, 0, 40u8, 41u8) {
                        None => link_at_from(bytes, start + 1, cursor),
                        Some(link_end) => if start <= cursor <= link_end {
                            Some((start, dest + 1, link_end))
                        } else {
                            proof {
                                lemma_balanced_after(bytes, start, 0, 91u8, 93u8);
                                lemma_balanced_after(bytes, dest, 0, 40u8, 41u8);
                            }
                            link_at_from(bytes, link_end + 1, cursor)
                        },
                    }
                }
            },
        }
    }
}

/// The bytes around the cursor that are scanned for links: at most
/// [`LINK_SCAN_LIMIT`] bytes on each side, shrunk to character boundaries.
pub open spec fn scan_window(bytes: Seq<u8>, cursor: int) -> (int, int) {
    let lo = if cursor >= LINK_SCAN_LIMIT {
        cursor - LINK_SCAN_LIMIT
    } else {
        0
    };
    let hi = if cursor + LINK_SCAN_LIMIT <= bytes.len() {
        cursor + LINK_SCAN_LIMIT
    } else {
        bytes.len() as int
    };
    (next_boundary(bytes, lo), prev_boundary(bytes, hi))
}

/// The destination of the inline link under the cursor at byte `cursor` of
/// `text`; `None` when the cursor is not a character boundary or not in a
/// link of the scanned window.
pub open spec fn markdown_link_target_spec(text: Seq<char>, cursor: int) -> Option<Seq<char>> {
    let bytes = encode_utf8(text);
    if !is_char_boundary(bytes, cursor) {
        None
    } else {
        let (lo, hi) = scan_window(bytes, cursor);
        let window = bytes.subrange(lo, hi);
        match link_at_from(window, 0, cursor - lo) {
            Some((_, from, to)) => parse_destination_spec(decode_utf8(window.subrange(from, to))),
            None => None,
        }
    }
}

/// Finds the bounds of the link text between the parentheses of the link
/// that holds `cursor` (see [`link_at_from`]).
fn find_link_at(bytes: &[u8], cursor: usize) -> (r: Option<(usize, usize, usize)>)
    ensures
        match r {
            Some((at, from, to)) => link_at_from(bytes@, 0, cursor as int) == Some(
                (at as int, from as int, to as int),
            ) && 1 <= from <= to < bytes@.len() && bytes@[from - 1] == 40u8 && bytes@[to as int]
                == 41u8,
            None => link_at_from(bytes@, 0, cursor as int) is None,
        },
{
    let mut start: usize = 0;
    while start < bytes.len()
        invariant
            start <= bytes@.len(),
            link_at_from(bytes@, start as int, cursor as int) == link_at_from(
                bytes@,
                0,
                cursor as int,
            ),
        decreases bytes@.len() - start,
    {
        if bytes[start] != 91u8 || is_escaped(bytes, start) || (start > 0 && bytes[start - 1]
            == 33u8) {
            start += 1;
        } else {
            proof {
                lemma_balanced_after(bytes@, start as int, 0, 91u8, 93u8);
            }
            match find_balanced_delimiter(bytes, start, 91u8, 93u8) {
                None => {
                    start += 1;
                },
                Some(text_end) => {
                    let dest = text_end + 1;
                    if dest >= bytes.len() || bytes[dest] != 40u8 {
                        start += 1;
                    } else {
                        proof {
                            lemma_balanced_after(bytes@, dest as int, 0, 40u8, 41u8);
                        }
                        match find_balanced_delimiter(bytes, dest, 40u8, 41u8) {
                            None => {
                                start += 1;
                            },
                            Some(link_end) => {
                                if start <= cursor && cursor <= link_end {
                                    return Some((start, dest + 1, link_end));
                                }
                                start = link_end + 1;
                            },
                        }
                    }
                },
            }
        }
    }
    None
}

/// The bounds of the scanned window around a cursor on a character
/// boundary (see [`scan_window`]).
fn scan_window_bounds(text: &str, cursor: usize) -> (r: (usize, usize))
    requires
        is_char_boundary(encode_utf8(text@), cursor as int),
    ensures
        scan_window(encode_utf8(text@), cursor as int) == (r.0 as int, r.1 as int),
        r.0 <= cursor <= r.1,
        is_char_boundary(encode_utf8(text@), r.0 as int),
        is_char_boundary(encode_utf8(text@), r.1 as int),
{
    let ghost bytes = encode_utf8(text@);
    let len = text.as_bytes().len();
    proof {
        encode_utf8_valid_utf8(text@);
        is_char_boundary_start_end_of_seq(bytes);
    }
    assert(cursor <= len) by {
        reveal_with_fuel(is_char_boundary, 1);
    }
    let mut lo: usize = if cursor >= LINK_SCAN_LIMIT {
        cursor - LINK_SCAN_LIMIT
    } else {
        0
    };
    let ghost lo0 = lo as int;
    while !text.is_char_boundary(lo)
        invariant
            lo <= cursor <= len,
            len == bytes.len(),
            bytes == text.spec_bytes(),
            valid_utf8(bytes),
            is_char_boundary(bytes, cursor as int),
            next_boundary(bytes, lo as int) == next_boundary(bytes, lo0),
        decreases cursor - lo,
    {
        lo += 1;
    }
    let mut hi: usize = if len - cursor >= LINK_SCAN_LIMIT {
        cursor + LINK_SCAN_LIMIT
    } else {
        len
    };
    let ghost hi0 = hi as int;
    while !text.is_char_boundary(hi)
        invariant
            cursor <= hi <= len,
            len == bytes.len(),
            bytes == text.spec_bytes(),
            valid_utf8(bytes),
            is_char_boundary(bytes, cursor as int),
            prev_boundary(bytes, hi as int) == prev_boundary(bytes, hi0),
        decreases hi - cursor,
    {
        hi -= 1;
    }
    (lo, hi)
}

/// The destination of the inline Markdown link under the cursor at byte
/// `cursor_offset` of `text` (see [`markdown_link_target_spec`]).
pub fn markdown_link_target_at(text: &str, cursor_offset: usize) -> (r: Option<String>)
    ensures
        match r {
            Some(t) => markdown_link_target_spec(text@, cursor_offset as int) == Some(t@),
            None => markdown_link_target_spec(text@, cursor_offset as int) is None,
        },
{
    if !text.is_char_boundary(cursor_offset) {
        return None;
    }
    let (lo, hi) = scan_window_bounds(text, cursor_offset);
    let window = byte_substring(text, lo, hi);
    let wbytes = window.as_bytes();
    let (_, from, to) = match find_link_at(wbytes, cursor_offset - lo) {
        Some(bounds) => bounds,
        None => return None,
    };
    proof {
        encode_utf8_valid_utf8(window@);
        encode_utf8_decode_utf8(window@);
        is_char_boundary_iff_not_is_continuation_byte(window.spec_bytes(), from - 1);
        lemma_boundary_after_ascii(window.spec_bytes(), from - 1);
        is_char_boundary_iff_not_is_continuation_byte(window.spec_bytes(), to as int);
    }
    let inside = byte_substring(window, from, to);
    parse_markdown_link_destination(inside)
}

/// Whether an inline link starts at byte `at` of `bytes`, with the text
/// between its parentheses at `from..to`: an unescaped `[` that does not
/// follow `!`, the `]` that balances it just before the `(` at `from - 1`,
/// and the `)` at `to` that balances that `(`.
pub open spec fn is_inline_link(bytes: Seq<u8>, at: int, from: int, to: int) -> bool {
    &&& 0 <= at < bytes.len()
    &&& bytes[at] == 91u8
    &&& !is_escaped_spec(bytes, at)
    &&& !(at > 0 && bytes[at - 1] == 33u8)
    &&& balanced_from(bytes, at, 0, 91u8, 93u8) == Some(from - 2)
    &&& 0 < from <= bytes.len()
    &&& bytes[from - 1] == 40u8
    &&& balanced_from(bytes, from - 1, 0, 40u8, 41u8) == Some(to)
}

/// What the scan finds lies at or after where it starts: an `[` at the
/// link's start, at or before the cursor, and a `)` at its end, at or after
/// the cursor.
proof fn lemma_link_at_from_found(bytes: Seq<u8>, start: int, cursor: int)
    ensures
        link_at_from(bytes, start, cursor) matches Some((at, from, to)) ==> 0 <= start <= at
            <= cursor <= to < bytes.len() && at + 1 < from <= to && bytes[at] == 91u8 && bytes[from
            - 1] == 40u8 && bytes[to] == 41u8 && is_inline_link(bytes, at, from, to),
    decreases bytes.len() - start,
{
    if 0 <= start < bytes.len() {
        if bytes[start] != 91u8 || is_escaped_spec(bytes, start) || (start > 0 && bytes[start
            - 1] == 33u8) {
            lemma_link_at_from_found(bytes, start + 1, cursor);
        } else {
            lemma_balanced_after(bytes, start, 0, 91u8, 93u8);
            match balanced_from(bytes, start, 0, 91u8, 93u8) {
                None => lemma_link_at_from_found(bytes, start + 1, cursor),
                Some(text_end) => {
                    let dest = text_end + 1;
                    if dest >= bytes.len() || bytes[dest] != 40u8 {
                        lemma_link_at_from_found(bytes, start + 1, cursor);
                    } else {
                        lemma_balanced_after(bytes, dest, 0, 40u8, 41u8);
                        match balanced_from(bytes, dest, 0, 40u8, 41u8) {
                            None => lemma_link_at_from_found(bytes, start + 1, cursor),
                            Some(link_end) => {
                                if !(start <= cursor <= link_end) {
                                    lemma_link_at_from_found(bytes, link_end + 1, cursor);
                                }
                            },
                        }
                    }
                },
            }
        }
    }
}

/// Scanning from `start`, a cursor anywhere in the link that another
/// cursor finds finds that same link.
proof fn lemma_link_at_from_same_link(bytes: Seq<u8>, start: int, cursor: int, other: int)
    requires
        link_at_from(bytes, start, cursor) matches Some((at, _, to)) && at <= other <= to,
    ensures
        link_at_from(bytes, start, other) == link_at_from(bytes, start, cursor),
    decreases bytes.len() - start,
{
    if 0 <= start < bytes.len() {
        if bytes[start] != 91u8 || is_escaped_spec(bytes, start) || (start > 0 && bytes[start
            - 1] == 33u8) {
            lemma_link_at_from_same_link(bytes, start + 1, cursor, other);
        } else {
            lemma_balanced_after(bytes, start, 0, 91u8, 93u8);
            match balanced_from(bytes, start, 0, 91u8, 93u8) {
                None => lemma_link_at_from_same_link(bytes, start + 1, cursor, other),
                Some(text_end) => {
                    let dest = text_end + 1;
                    if dest >= bytes.len() || bytes[dest] != 40u8 {
                        lemma_link_at_from_same_link(bytes, start + 1, cursor, other);
                    } else {
                        lemma_balanced_after(bytes, dest, 0, 40u8, 41u8);
                        match balanced_from(bytes, dest, 0, 40u8, 41u8) {
                            None => lemma_link_at_from_same_link(bytes, start + 1, cursor, other),
                            Some(link_end) => {
                                if !(start <= cursor <= link_end) {
                                    lemma_link_at_from_found(bytes, link_end + 1, cursor);
                                    lemma_link_at_from_same_link(
                                        bytes,
                                        link_end + 1,
                                        cursor,
                                        other,
                                    );
                                }
                            },
                        }
                    }
                },
            }
        }
    }
}

/// The link that the scan finds under a cursor runs from an `[` at or
/// before the cursor to a `)` at or after it, and every cursor from that
/// `[` through that `)` finds the same link.
pub proof fn law_link_found_from_its_opening_to_its_closing(
    bytes: Seq<u8>,
    cursor: int,
    other: int,
)
    ensures
        link_at_from(bytes, 0, cursor) matches Some((at, from, to)) ==> at <= cursor <= to
            && bytes[at] == 91u8 && bytes[from - 1] == 40u8 && bytes[to] == 41u8
            && is_inline_link(bytes, at, from, to),
        link_at_from(bytes, 0, cursor) matches Some((at, _, to)) && at <= other <= to
            ==> link_at_from(bytes, 0, other) == link_at_from(bytes, 0, cursor),
{
    lemma_link_at_from_found(bytes, 0, cursor);
    if link_at_from(bytes, 0, cursor) matches Some((at, _, to)) && at <= other <= to {
        lemma_link_at_from_same_link(bytes, 0, cursor, other);
    }
}

/// In a note that fits in the scanned window, every cursor from the `[` of
/// the link under a cursor through its `)` gives that link's destination.
pub proof fn law_link_target_from_opening_to_closing(text: Seq<char>, cursor: int, other: int)
    requires
        encode_utf8(text).len() <= LINK_SCAN_LIMIT,
        is_char_boundary(encode_utf8(text), cursor),
        is_char_boundary(encode_utf8(text), other),
        link_at_from(encode_utf8(text), 0, cursor) matches Some((at, _, to)) && at <= other
            <= to,
    ensures
        markdown_link_target_spec(text, other) == markdown_link_target_spec(text, cursor),
        markdown_link_target_spec(text, other) == (match link_at_from(
            encode_utf8(text),
            0,
            cursor,
        ) {
            Some((_, from, to)) => parse_destination_spec(
                decode_utf8(encode_utf8(text).subrange(from, to)),
            ),
            None => None,
        }),
{
    let bytes = encode_utf8(text);
    encode_utf8_valid_utf8(text);
    is_char_boundary_start_end_of_seq(bytes);
    assert(cursor <= bytes.len() && other <= bytes.len() && 0 <= cursor && 0 <= other) by {
        reveal_with_fuel(is_char_boundary, 1);
    }
    assert(scan_window(bytes, cursor) == (0int, bytes.len() as int));
    assert(scan_window(bytes, other) == (0int, bytes.len() as int));
    assert(bytes.subrange(0, bytes.len() as int) =~= bytes);
    lemma_link_at_from_same_link(bytes, 0, cursor, other);
}

/// The value of an ASCII hexadecimal digit.
pub open spec fn hex_value(byte: u8) -> Option<u8> {
    if 48u8 <= byte <= 57u8 {
        Some((byte - 48) as u8)
    } else if 97u8 <= byte <= 102u8 {
        Some((byte - 87) as u8)
    } else if 65u8 <= byte <= 70u8 {
        Some((byte - 55) as u8)
    } else {
        None
    }
}

/// The bytes that percent-decoding makes of `bytes`: each `%` followed by
/// two hexadecimal digits becomes the byte they spell; every other byte
/// stays.
pub open spec fn percent_decoded(bytes: Seq<u8>) -> Seq<u8>
    decreases bytes.len(),
{
    if bytes.len() == 0 {
        Seq::empty()
    } else if bytes[0] == 37u8 && bytes.len() >= 3 && hex_value(bytes[1]) is Some && hex_value(
        bytes[2],
    ) is Some {
        seq![(hex_value(bytes[1])->0 * 16 + hex_value(bytes[2])->0) as u8] + percent_decoded(
            bytes.skip(3),
        )
    } else {
        seq![bytes[0]] + percent_decoded(bytes.skip(1))
    }
}

/// `percent_encoding::percent_decode_str(s).decode_utf8()`: the text whose
/// UTF-8 encoding is the percent-decoded bytes of `s`, or `None` when those
/// bytes are not valid UTF-8.
#[verifier::external_body]
fn percent_decode_utf8(s: &str) -> (r: Option<String>)
    ensures
        match r {
            Some(d) => valid_utf8(percent_decoded(s.spec_bytes())) && d@ == decode_utf8(
                percent_decoded(s.spec_bytes()),
            ),
            None => !valid_utf8(percent_decoded(s.spec_bytes())),
        },
{
    match percent_encoding::percent_decode_str(s).decode_utf8() {
        Ok(decoded) => Some(decoded.into_owned()),
        Err(_) => None,
    }
}

/// The position of the first `#` or `?` of `t`, or its length.
pub open spec fn path_end(t: Seq<char>) -> int
    decreases t.len(),
{
    if t.len() == 0 || t[0] == '#' || t[0] == '?' {
        0
    } else {
        1 + path_end(t.drop_first())
    }
}

/// The components of the parent of a path with components `c`: all but
/// the last; none when there are no components or only the root is left.
pub open spec fn parent_of(c: Seq<ComponentView>) -> Option<Seq<ComponentView>> {
    if c.len() == 0 || c.last() is Root {
        None
    } else {
        Some(c.drop_last())
    }
}

/// The lexically normalized path with components `c`: a leading root or
/// `.` is kept, `.` elsewhere is dropped and `..` removes the name before
/// it; `None` when a `..` would climb above the start.
pub open spec fn lexical_normal(c: Seq<ComponentView>) -> Option<Seq<char>> {
    if c.len() == 0 {
        Some(Seq::empty())
    } else if c[0] is Parent {
        None
    } else if c[0] is Root {
        match normalize_spec(c.drop_first()) {
            Some(names) => Some(seq!['/'] + join_names(names)),
            None => None,
        }
    } else if c[0] is Current {
        match normalize_spec(c.drop_first()) {
            Some(names) => Some(
                if names.len() == 0 {
                    seq!['.']
                } else {
                    seq!['.', '/'] + join_names(names)
                },
            ),
            None => None,
        }
    } else {
        match normalize_spec(c) {
            Some(names) => Some(join_names(names)),
            None => None,
        }
    }
}

/// The file that a relative Markdown link destination `target` names from
/// the note at `current`: the destination without its `#` fragment or `?`
/// query, percent-decoded, joined to the note's folder and lexically
/// normalized. `None` for an empty destination, one that starts with `//`
/// or a URI scheme, one that is not UTF-8 once decoded, an absolute one,
/// and one that climbs above the start of the note's path.
pub open spec fn resolve_relative_link_spec(current: Seq<char>, target: Seq<char>) -> Option<
    Seq<char>,
> {
    let t = target.take(path_end(target));
    if t.len() == 0 || (t.len() >= 2 && t[0] == '/' && t[1] == '/') || has_uri_scheme_spec(t) {
        None
    } else {
        let decoded = percent_decoded(encode_utf8(t));
        if !valid_utf8(decoded) || is_rooted(decode_utf8(decoded)) {
            None
        } else {
            match parent_of(path_components(current)) {
                Some(parent) => lexical_normal(parent + path_components(decode_utf8(decoded))),
                None => None,
            }
        }
    }
}

/// The position of the first `#` or `?` of `t`, or its length.
fn find_path_end(t: &Vec<char>) -> (r: usize)
    ensures
        r == path_end(t@),
        r <= t.len(),
{
    let mut i: usize = 0;
    while i < t.len()
        invariant
            i <= t.len(),
            forall|j: int| 0 <= j < i ==> t@[j] != '#' && t@[j] != '?',
        decreases t.len() - i,
    {
        if t[i] == '#' || t[i] == '?' {
            proof {
                lemma_path_end_at(t@, i as int);
            }
            return i;
        }
        i += 1;
    }
    proof {
        lemma_path_end_at(t@, i as int);
    }
    i
}

proof fn lemma_path_end_at(t: Seq<char>, i: int)
    requires
        0 <= i <= t.len(),
        forall|j: int| 0 <= j < i ==> t[j] != '#' && t[j] != '?',
        i < t.len() ==> t[i] == '#' || t[i] == '?',
    ensures
        path_end(t) == i,
    decreases i,
{
    if i > 0 {
        assert forall|j: int| 0 <= j < i - 1 implies t.drop_first()[j] != '#'
            && t.drop_first()[j] != '?' by {
            assert(t.drop_first()[j] == t[j + 1]);
        }
        lemma_path_end_at(t.drop_first(), i - 1);
    }
}

/// The lexically normalized path with components `comps` (see
/// [`lexical_normal`]).
fn lexical_normal_exec(comps: &Vec<PathComponent>) -> (r: Option<Vec<char>>)
    ensures
        match r {
            Some(p) => lexical_normal(components_view(comps@)) == Some(p@),
            None => lexical_normal(components_view(comps@)) is None,
        },
{
    let ghost cv = components_view(comps@);
    if comps.len() == 0 {
        return Some(Vec::new());
    }
    assert(cv[0] == comps@[0]@);
    let mut names: Vec<Vec<char>> = Vec::new();
    assert(names_view(names@) =~= Seq::<Seq<char>>::empty());
    match &comps[0] {
        PathComponent::Parent => None,
        PathComponent::Root => {
            assert(cv.subrange(1, cv.len() as int) =~= cv.drop_first());
            if normalize_extend(&mut names, comps, 1, comps.len()) {
                let mut r = vec!['/'];
                let mut joined = join_names_exec(&names);
                r.append(&mut joined);
                Some(r)
            } else {
                None
            }
        },
        PathComponent::Current => {
            assert(cv.subrange(1, cv.len() as int) =~= cv.drop_first());
            if normalize_extend(&mut names, comps, 1, comps.len()) {
                if names.len() == 0 {
                    Some(vec!['.'])
                } else {
                    let mut r = vec!['.', '/'];
                    let mut joined = join_names_exec(&names);
                    r.append(&mut joined);
                    Some(r)
                }
            } else {
                None
            }
        },
        PathComponent::Normal(_) => {
            assert(cv.subrange(0, cv.len() as int) =~= cv);
            if normalize_extend(&mut names, comps, 0, comps.len()) {
                Some(join_names_exec(&names))
            } else {
                None
            }
        },
    }
}

/// Resolves a relative Markdown link destination against the note at
/// `current_file` (see [`resolve_relative_link_spec`]).
pub fn resolve_relative_markdown_link(current_file: &str, target: &str) -> (r: Option<String>)
    ensures
        match r {
            Some(p) => resolve_relative_link_spec(current_file@, target@) == Some(p@),
            None => resolve_relative_link_spec(current_file@, target@) is None,
        },
{
    let chars = chars_of(target);
    let end = find_path_end(&chars);
    let t = target.substring_char(0, end);
    assert(t@ =~= target@.take(path_end(target@)));
    let tc = chars_of(t);
    if tc.len() == 0 || (tc.len() >= 2 && tc[0] == '/' && tc[1] == '/') || has_uri_scheme(t) {
        return None;
    }
    let decoded = match percent_decode_utf8(t) {
        Some(d) => d,
        None => return None,
    };
    let dc = chars_of(decoded.as_str());
    if dc.len() > 0 && dc[0] == '/' {
        return None;
    }
    let mut comps = components(current_file);
    if comps.len() == 0 {
        return None;
    }
    let last = comps.pop();
    match last {
        Some(PathComponent::Root) => {
            return None;
        },
        _ => {},
    }
    let ghost parent = components_view(comps@);
    assert(parent_of(path_components(current_file@)) == Some(parent));
    let mut target_comps = components(decoded.as_str());
    comps.append(&mut target_comps);
    assert(components_view(comps@) =~= parent + path_components(decoded@));
    match lexical_normal_exec(&comps) {
        Some(p) => Some(string_from_chars(p.as_slice())),
        None => None,
    }
}

/// Law: a link from a note with an absolute path resolves to an absolute
/// path.
pub proof fn law_links_from_absolute_notes_stay_absolute(current: Seq<char>, target: Seq<char>)
    requires
        is_rooted(current),
        resolve_relative_link_spec(current, target) is Some,
    ensures
        ({
            let p = resolve_relative_link_spec(current, target)->0;
            p.len() > 0 && p[0] == '/'
        }),
{
    let c = path_components(current);
    assert(c[0] == ComponentView::Root);
    let parent = parent_of(c)->0;
    assert(parent[0] == c[0]);
    let t = target.take(path_end(target));
    let decoded = decode_utf8(percent_decoded(encode_utf8(t)));
    assert((parent + path_components(decoded))[0] == ComponentView::Root);
}

/// The file that the inline link under the cursor at byte `cursor_offset`
/// of `text` leads to, from the note at `current_file` (see
/// [`markdown_link_target_spec`] and [`resolve_relative_link_spec`]).
pub fn link_target_path(current_file: &str, text: &str, cursor_offset: usize) -> (r: Option<
    String,
>)
    ensures
        match r {
            Some(p) => markdown_link_target_spec(text@, cursor_offset as int) matches Some(t)
                && resolve_relative_link_spec(current_file@, t) == Some(p@),
            None => match markdown_link_target_spec(text@, cursor_offset as int) {
                Some(t) => resolve_relative_link_spec(current_file@, t) is None,
                None => true,
            },
        },
{
    match markdown_link_target_at(text, cursor_offset) {
        Some(target) => resolve_relative_markdown_link(current_file, target.as_str()),
        None => None,
    }
}

} // verus!
