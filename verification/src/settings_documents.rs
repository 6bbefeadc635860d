//! The data model of a settings document (a JSON value) and the logic that
//! reads and merges such documents.

use vstd::prelude::*;

verus! {

/// A settings document value, as a JSON parser gives it.
#[derive(Debug)]
pub enum SettingsValue {
    Null,
    Bool(bool),
    /// A number, kept as it is written in the document.
    Number(String),
    Text(String),
    Array(Vec<SettingsValue>),
    /// An object: its entries, in no particular order, with distinct keys.
    Object(Vec<SettingsEntry>),
}

/// One entry of a settings object.
#[derive(Debug)]
pub struct SettingsEntry {
    pub key: String,
    pub value: SettingsValue,
}

/// Whether some entry of `entries` has the key `k`.
pub open spec fn has_key(entries: Seq<SettingsEntry>, k: Seq<char>) -> bool {
    exists|i: int| 0 <= i < entries.len() && (#[trigger] entries[i]).key@ == k
}

/// No two entries share a key.
pub open spec fn distinct_keys(entries: Seq<SettingsEntry>) -> bool {
    forall|i: int, j: int|
        0 <= i < entries.len() && 0 <= j < entries.len() && i != j ==> (#[trigger] entries[i]).key@
            != (#[trigger] entries[j]).key@
}

/// The value stored under `k` (meaningful where `has_key(entries, k)`).
pub open spec fn value_of(entries: Seq<SettingsEntry>, k: Seq<char>) -> SettingsValue {
    entries[choose|i: int| 0 <= i < entries.len() && (#[trigger] entries[i]).key@ == k].value
}

/// Every object in `v`, at any depth, has distinct keys.
pub open spec fn well_formed(v: SettingsValue) -> bool
    decreases v,
{
    match v {
        SettingsValue::Array(items) => forall|i: int|
            0 <= i < items@.len() ==> well_formed(#[trigger] items@[i]),
        SettingsValue::Object(entries) => {
            &&& distinct_keys(entries@)
            &&& forall|i: int| 0 <= i < entries@.len() ==> well_formed(#[trigger] entries@[i].value)
        },
        _ => true,
    }
}

/// `result` is `overlay` laid over `base`: where both are objects, the result
/// is an object with the keys of both; a key of one side only keeps its
/// value, and a key of both holds the two values merged in the same way.
/// Anywhere else the overlay replaces the base.
pub open spec fn merge_result(base: SettingsValue, overlay: SettingsValue, result: SettingsValue) -> bool
    decreases overlay,
{
    match overlay {
        SettingsValue::Object(o) => match base {
            SettingsValue::Object(b) => match result {
                SettingsValue::Object(r) => {
                    &&& forall|k: Seq<char>| has_key(r@, k) <==> (has_key(b@, k) || has_key(o@, k))
                    &&& forall|i: int|
                        0 <= i < o@.len() ==> if has_key(b@, (#[trigger] o@[i]).key@) {
                            merge_result(
                                value_of(b@, o@[i].key@),
                                o@[i].value,
                                value_of(r@, o@[i].key@),
                            )
                        } else {
                            value_of(r@, o@[i].key@) == o@[i].value
                        }
                    &&& forall|j: int|
                        0 <= j < b@.len() && !has_key(o@, (#[trigger] b@[j]).key@) ==> value_of(
                            r@,
                            b@[j].key@,
                        ) == b@[j].value
                },
                _ => false,
            },
            _ => result == overlay,
        },
        _ => result == overlay,
    }
}


/// What the entries processed so far say of entry `e` of the merged object:
/// a key of the processed overlay entries `done` holds the overlay value laid
/// over the base value, if the base has one; any other key keeps its base
/// value.
spec fn merged_entry(b: Seq<SettingsEntry>, done: Seq<SettingsEntry>, e: SettingsEntry) -> bool {
    if has_key(done, e.key@) {
        if has_key(b, e.key@) {
            merge_result(value_of(b, e.key@), value_of(done, e.key@), e.value)
        } else {
            e.value == value_of(done, e.key@)
        }
    } else {
        e.value == value_of(b, e.key@)
    }
}

/// With distinct keys, the value under the key of entry `i` is that entry's.
proof fn lemma_value_of(entries: Seq<SettingsEntry>, i: int)
    requires
        distinct_keys(entries),
        0 <= i < entries.len(),
    ensures
        has_key(entries, entries[i].key@),
        value_of(entries, entries[i].key@) == entries[i].value,
{
    let k = entries[i].key@;
    assert(entries[i].key@ == k);
    let c = choose|c: int| 0 <= c < entries.len() && (#[trigger] entries[c]).key@ == k;
    assert(c == i);
}

/// Appending an entry with another key changes nothing about `k`.
proof fn lemma_push_other(done: Seq<SettingsEntry>, e: SettingsEntry, k: Seq<char>)
    requires
        distinct_keys(done.push(e)),
        e.key@ != k,
    ensures
        has_key(done.push(e), k) == has_key(done, k),
        has_key(done, k) ==> value_of(done.push(e), k) == value_of(done, k),
{
    let d2 = done.push(e);
    if has_key(done, k) {
        let i = choose|i: int| 0 <= i < done.len() && (#[trigger] done[i]).key@ == k;
        assert(d2[i] == done[i]);
        assert(distinct_keys(done)) by {
            assert forall|a: int, b: int|
                0 <= a < done.len() && 0 <= b < done.len() && a != b implies (#[trigger] done[a]).key@
                != (#[trigger] done[b]).key@ by {
                assert(d2[a] == done[a] && d2[b] == done[b]);
            }
        }
        lemma_value_of(done, i);
        lemma_value_of(d2, i);
    }
    if has_key(d2, k) {
        let i = choose|i: int| 0 <= i < d2.len() && (#[trigger] d2[i]).key@ == k;
        assert(i < done.len());
        assert(done[i] == d2[i]);
    }
}

/// Replacing an entry by one with the same key keeps the set of keys.
proof fn lemma_update_same_key(s: Seq<SettingsEntry>, j: int, x: SettingsEntry, k: Seq<char>)
    requires
        0 <= j < s.len(),
        x.key@ == s[j].key@,
    ensures
        has_key(s.update(j, x), k) == has_key(s, k),
{
    let t = s.update(j, x);
    if has_key(s, k) {
        let i = choose|i: int| 0 <= i < s.len() && (#[trigger] s[i]).key@ == k;
        assert(t[i].key@ == k);
    }
    if has_key(t, k) {
        let i = choose|i: int| 0 <= i < t.len() && (#[trigger] t[i]).key@ == k;
        assert(s[i].key@ == k);
    }
}

/// Appending an entry adds its key to the set of keys.
proof fn lemma_push_key(s: Seq<SettingsEntry>, e: SettingsEntry, k: Seq<char>)
    ensures
        has_key(s.push(e), k) == (has_key(s, k) || e.key@ == k),
{
    let t = s.push(e);
    if has_key(s, k) {
        let i = choose|i: int| 0 <= i < s.len() && (#[trigger] s[i]).key@ == k;
        assert(t[i] == s[i]);
    }
    if e.key@ == k {
        assert(t[s.len() as int] == e);
    }
    if has_key(t, k) {
        let i = choose|i: int| 0 <= i < t.len() && (#[trigger] t[i]).key@ == k;
        if i < s.len() {
            assert(s[i] == t[i]);
        }
    }
}

/// The index of the entry with key `key`, if there is one.
fn find_key(entries: &Vec<SettingsEntry>, key: &String) -> (r: Option<usize>)
    ensures
        match r {
            Some(j) => j < entries.len() && entries@[j as int].key@ == key@,
            None => !has_key(entries@, key@),
        },
{
    let mut j: usize = 0;
    while j < entries.len()
        invariant
            j <= entries.len(),
            forall|i: int| 0 <= i < j ==> (#[trigger] entries@[i]).key@ != key@,
        decreases entries.len() - j,
    {
        if entries[j].key == *key {
            return Some(j);
        }
        j += 1;
    }
    None
}

/// `overlay` laid over `base` (see `merge_result`).
fn merged(base: SettingsValue, overlay: SettingsValue) -> (r: SettingsValue)
    requires
        well_formed(base),
        well_formed(overlay),
    ensures
        well_formed(r),
        merge_result(base, overlay, r),
    decreases overlay,
{
    let ghost ov = overlay;
    let ghost bv = base;
    match overlay {
        SettingsValue::Object(o) => match base {
            SettingsValue::Object(b) => {
                let ghost ovec = o;
                let ghost o0 = o@;
                let ghost b0 = b@;
                let ghost bvec = b;
                let mut result = b;
                let mut rest = o;
                let mut i: usize = 0;
                while rest.len() > 0
                    invariant
                        ov == SettingsValue::Object(ovec),
                        ov == overlay,
                        bv == SettingsValue::Object(bvec),
                        ovec@ == o0,
                        bvec@ == b0,
                        o0.len() == ovec.len(),
                        i <= o0.len(),
                        rest@ == o0.skip(i as int),
                        distinct_keys(o0),
                        distinct_keys(b0),
                        distinct_keys(result@),
                        forall|x: int| 0 <= x < o0.len() ==> well_formed(#[trigger] o0[x].value),
                        forall|x: int|
                            0 <= x < result@.len() ==> well_formed(#[trigger] result@[x].value),
                        forall|k: Seq<char>|
                            #![trigger has_key(result@, k)]
                            has_key(result@, k) <==> (has_key(b0, k) || has_key(
                                o0.take(i as int),
                                k,
                            )),
                        forall|x: int|
                            0 <= x < result@.len() ==> merged_entry(
                                b0,
                                o0.take(i as int),
                                #[trigger] result@[x],
                            ),
                    decreases rest.len(),
                {
                    let ghost done = o0.take(i as int);
                    let ghost r0 = result@;
                    let e = rest.remove(0);
                    assert(e == o0[i as int]);
                    let ghost k = e.key@;
                    let ghost eg = e;
                    assert(o0.take(i as int + 1) =~= done.push(e));
                    assert(!has_key(done, k)) by {
                        if has_key(done, k) {
                            let x = choose|x: int| 0 <= x < done.len() && (#[trigger] done[x]).key@ == k;
                            assert(done[x] == o0[x]);
                        }
                    }
                    assert(distinct_keys(done.push(e))) by {
                        assert forall|a: int, c: int|
                            0 <= a < done.push(e).len() && 0 <= c < done.push(e).len() && a != c
                            implies (#[trigger] done.push(e)[a]).key@ != (#[trigger] done.push(
                            e,
                        )[c]).key@ by {
                            assert(done.push(e)[a] == o0[a] && done.push(e)[c] == o0[c]);
                        }
                    }
                    proof {
                        lemma_value_of(done.push(e), i as int);
                    }
                    match find_key(&result, &e.key) {
                        Some(j) => {
                            proof {
                                lemma_value_of(r0, j as int);
                            }
                            let old = result.remove(j);
                            assert(has_key(b0, k));
                            assert(old.value == value_of(b0, k));
                            // The overlay's entry value is part of the overlay.
                            assert(decreases_to!(ov => ov->Object_0));
                            assert(decreases_to!(ovec => ovec@));
                            assert(decreases_to!(ovec@ => ovec@[i as int]));
                            assert(decreases_to!(ovec@[i as int] => ovec@[i as int].value));
                            let mv = merged(old.value, e.value);
                            result.insert(j, SettingsEntry { key: old.key, value: mv });
                            assert(result@ =~= r0.update(j as int, SettingsEntry { key: old.key, value: mv }));
                            assert forall|k2: Seq<char>|
                                #![trigger has_key(result@, k2)]
                                has_key(result@, k2) <==> (has_key(b0, k2) || has_key(
                                    done.push(e),
                                    k2,
                                )) by {
                                lemma_update_same_key(r0, j as int, result@[j as int], k2);
                                if k2 != k {
                                    lemma_push_other(done, e, k2);
                                } else {
                                    assert(done.push(e)[i as int] == e);
                                }
                            }
                        },
                        None => {
                            assert(!has_key(b0, k)) by {
                                if has_key(b0, k) {
                                    assert(has_key(r0, k));
                                }
                            }
                            result.push(e);
                            assert(result@ =~= r0.push(e));
                            assert forall|k2: Seq<char>|
                                #![trigger has_key(result@, k2)]
                                has_key(result@, k2) <==> (has_key(b0, k2) || has_key(
                                    done.push(e),
                                    k2,
                                )) by {
                                lemma_push_key(r0, e, k2);
                                assert(has_key(r0, k2) <==> (has_key(b0, k2) || has_key(done, k2)));
                                if k2 != k {
                                    lemma_push_other(done, e, k2);
                                } else {
                                    assert(done.push(e)[i as int] == e);
                                }
                            }
                        },
                    }
                    i += 1;
                    assert(o0.take(i as int) == done.push(eg));
                }
                proof {
                    assert(o0.take(i as int) =~= o0);
                    let r = result@;
                    assert forall|x: int| 0 <= x < o0.len() implies if has_key(
                        b0,
                        (#[trigger] o0[x]).key@,
                    ) {
                        merge_result(value_of(b0, o0[x].key@), o0[x].value, value_of(r, o0[x].key@))
                    } else {
                        value_of(r, o0[x].key@) == o0[x].value
                    } by {
                        let k = o0[x].key@;
                        assert(has_key(o0, k));
                        assert(has_key(r, k));
                        let idx = choose|idx: int| 0 <= idx < r.len() && (#[trigger] r[idx]).key@ == k;
                        lemma_value_of(r, idx);
                        lemma_value_of(o0, x);
                        assert(merged_entry(b0, o0, r[idx]));
                    }
                    assert forall|y: int|
                        0 <= y < b0.len() && !has_key(o0, (#[trigger] b0[y]).key@) implies value_of(
                        r,
                        b0[y].key@,
                    ) == b0[y].value by {
                        let k = b0[y].key@;
                        assert(has_key(b0, k));
                        assert(has_key(r, k));
                        let idx = choose|idx: int| 0 <= idx < r.len() && (#[trigger] r[idx]).key@ == k;
                        lemma_value_of(r, idx);
                        lemma_value_of(b0, y);
                        assert(merged_entry(b0, o0, r[idx]));
                    }
                }
                SettingsValue::Object(result)
            },
            _ => SettingsValue::Object(o),
        },
        other => other,
    }
}

/// Lays `overlay` over `base` in place: objects are merged key by key, at
/// any depth, and anywhere else the overlay replaces the base.
pub fn merge_settings_documents(base: &mut SettingsValue, overlay: SettingsValue)
    requires
        well_formed(*old(base)),
        well_formed(overlay),
    ensures
        well_formed(*final(base)),
        merge_result(*old(base), overlay, *final(base)),
{
    let mut taken = SettingsValue::Null;
    std::mem::swap(&mut taken, base);
    *base = merged(taken, overlay);
}

/// The value under `k`, if `entries` has one.
pub open spec fn lookup(entries: Seq<SettingsEntry>, k: Seq<char>) -> Option<SettingsValue> {
    if has_key(entries, k) {
        Some(value_of(entries, k))
    } else {
        None
    }
}

/// The value under `key`, if `entries` has one.
pub fn get<'a>(entries: &'a Vec<SettingsEntry>, key: &str) -> (r: Option<&'a SettingsValue>)
    requires
        distinct_keys(entries@),
    ensures
        match r {
            Some(v) => lookup(entries@, key@) == Some(*v),
            None => lookup(entries@, key@) is None,
        },
{
    let owned = key.to_owned();
    match find_key(entries, &owned) {
        Some(j) => {
            proof {
                lemma_value_of(entries@, j as int);
            }
            Some(&entries[j].value)
        },
        None => None,
    }
}

/// Whether `entries` has an entry with key `key`.
pub fn contains_key(entries: &Vec<SettingsEntry>, key: &str) -> (r: bool)
    ensures
        r == has_key(entries@, key@),
{
    let owned = key.to_owned();
    find_key(entries, &owned).is_some()
}

/// Whether the value under `k` is an object with an entry under `inner`.
pub open spec fn has_nested_key(root: Seq<SettingsEntry>, k: Seq<char>, inner: Seq<char>) -> bool {
    match lookup(root, k) {
        Some(SettingsValue::Object(entries)) => has_key(entries@, inner),
        _ => false,
    }
}

/// Whether a settings document root is in the former schema of the notes
/// application: a `theme` of `"system"`, `"light"` or `"dark"`, one of its
/// former sections (`ui`, `editor`, `explorer`, `files`, `preview`,
/// `daily_notes`), an `autosave` object with `enabled` or `delay_ms`, or a
/// `vim` object with a `leader`.
pub open spec fn is_legacy_settings_spec(root: Seq<SettingsEntry>) -> bool {
    ||| match lookup(root, "theme"@) {
        Some(SettingsValue::Text(t)) => t@ == "system"@ || t@ == "light"@ || t@ == "dark"@,
        _ => false,
    }
    ||| has_key(root, "ui"@)
    ||| has_key(root, "editor"@)
    ||| has_key(root, "explorer"@)
    ||| has_key(root, "files"@)
    ||| has_key(root, "preview"@)
    ||| has_key(root, "daily_notes"@)
    ||| has_nested_key(root, "autosave"@, "enabled"@)
    ||| has_nested_key(root, "autosave"@, "delay_ms"@)
    ||| has_nested_key(root, "vim"@, "leader"@)
}

/// Whether the value under `key` is an object with an entry under `inner`.
fn nested_key(root: &Vec<SettingsEntry>, key: &str, inner: &str) -> (r: bool)
    requires
        distinct_keys(root@),
    ensures
        r == has_nested_key(root@, key@, inner@),
{
    match get(root, key) {
        Some(SettingsValue::Object(entries)) => contains_key(entries, inner),
        _ => false,
    }
}

/// Whether the text `t` names one of the former theme modes.
fn is_legacy_theme(t: &String) -> (r: bool)
    ensures
        r == (t@ == "system"@ || t@ == "light"@ || t@ == "dark"@),
{
    *t == "system".to_owned() || *t == "light".to_owned() || *t == "dark".to_owned()
}

/// Whether a settings document root is in the former schema (see
/// `is_legacy_settings_spec`).
pub fn is_legacy_settings(root: &Vec<SettingsEntry>) -> (r: bool)
    requires
        distinct_keys(root@),
    ensures
        r == is_legacy_settings_spec(root@),
{
    let theme = match get(root, "theme") {
        Some(SettingsValue::Text(t)) => is_legacy_theme(t),
        _ => false,
    };
    theme || contains_key(root, "ui") || contains_key(root, "editor") || contains_key(
        root,
        "explorer",
    ) || contains_key(root, "files") || contains_key(root, "preview") || contains_key(
        root,
        "daily_notes",
    ) || nested_key(root, "autosave", "enabled") || nested_key(root, "autosave", "delay_ms")
        || nested_key(root, "vim", "leader")
}

/// Laying a document over itself gives the same document back, at any
/// depth.
pub proof fn law_merge_with_itself(v: SettingsValue)
    requires
        well_formed(v),
    ensures
        merge_result(v, v, v),
    decreases v,
{
    if let SettingsValue::Object(entries) = v {
        let s = entries@;
        assert forall|i: int| 0 <= i < s.len() implies if has_key(s, (#[trigger] s[i]).key@) {
            merge_result(value_of(s, s[i].key@), s[i].value, value_of(s, s[i].key@))
        } else {
            value_of(s, s[i].key@) == s[i].value
        } by {
            lemma_value_of(s, i);
            assert(decreases_to!(v => v->Object_0));
            assert(decreases_to!(entries => entries@));
            assert(decreases_to!(entries@ => entries@[i]));
            assert(decreases_to!(entries@[i] => entries@[i].value));
            law_merge_with_itself(s[i].value);
        }
        assert forall|j: int|
            0 <= j < s.len() && !has_key(s, (#[trigger] s[j]).key@) implies value_of(s, s[j].key@)
            == s[j].value by {
            lemma_value_of(s, j);
        }
    }
}

/// Laying an empty object over an object leaves the object as it was.
pub proof fn law_empty_overlay_keeps_base(base: SettingsValue, empty: Vec<SettingsEntry>)
    requires
        well_formed(base),
        base is Object,
        empty@.len() == 0,
    ensures
        merge_result(base, SettingsValue::Object(empty), base),
{
    let s = base->Object_0@;
    assert forall|k: Seq<char>| has_key(empty@, k) implies false by {
        let i = choose|i: int| 0 <= i < empty@.len() && (#[trigger] empty@[i]).key@ == k;
    }
    assert forall|j: int|
        0 <= j < s.len() && !has_key(empty@, (#[trigger] s[j]).key@) implies value_of(s, s[j].key@)
        == s[j].value by {
        lemma_value_of(s, j);
    }
}

/// The value under `k`, unless it is absent or `null`: a setting given as
/// `null` reads as not given.
pub open spec fn present(entries: Seq<SettingsEntry>, k: Seq<char>) -> Option<SettingsValue> {
    match lookup(entries, k) {
        Some(SettingsValue::Null) => None,
        other => other,
    }
}

/// Reading the boolean setting `k`: `Some(None)` when it is not given,
/// `Some(Some(b))` for `b`, `None` when it holds another kind of value.
pub open spec fn bool_setting(entries: Seq<SettingsEntry>, k: Seq<char>) -> Option<Option<bool>> {
    match present(entries, k) {
        None => Some(None),
        Some(SettingsValue::Bool(b)) => Some(Some(b)),
        _ => None,
    }
}

/// Reading the text setting `k` (as [`bool_setting`] reads a boolean).
pub open spec fn text_setting(entries: Seq<SettingsEntry>, k: Seq<char>) -> Option<
    Option<Seq<char>>,
> {
    match present(entries, k) {
        None => Some(None),
        Some(SettingsValue::Text(t)) => Some(Some(t@)),
        _ => None,
    }
}

/// Reading the number setting `k` as the number's text.
pub open spec fn number_text_setting(entries: Seq<SettingsEntry>, k: Seq<char>) -> Option<
    Option<Seq<char>>,
> {
    match present(entries, k) {
        None => Some(None),
        Some(SettingsValue::Number(t)) => Some(Some(t@)),
        _ => None,
    }
}

/// Every character of `s` is an ASCII digit.
pub open spec fn all_digits(s: Seq<char>) -> bool {
    forall|i: int| 0 <= i < s.len() ==> '0' <= #[trigger] s[i] <= '9'
}

/// The value of the decimal digits `s`.
pub open spec fn digits_value(s: Seq<char>) -> nat
    decreases s.len(),
{
    if s.len() == 0 {
        0
    } else {
        digits_value(s.drop_last()) * 10 + (s.last() as nat - '0' as nat) as nat
    }
}

/// The unsigned integer that the number text `t` writes, if it writes one
/// no greater than `max`: a non-negative integer without sign, fraction or
/// exponent.
pub open spec fn unsigned_number(t: Seq<char>, max: nat) -> Option<nat> {
    if t.len() > 0 && all_digits(t) && digits_value(t) <= max {
        Some(digits_value(t))
    } else {
        None
    }
}

/// Reading the unsigned integer setting `k`, at most `max`.
pub open spec fn unsigned_setting(entries: Seq<SettingsEntry>, k: Seq<char>, max: nat) -> Option<
    Option<nat>,
> {
    match present(entries, k) {
        None => Some(None),
        Some(SettingsValue::Number(t)) => match unsigned_number(t@, max) {
            Some(n) => Some(Some(n)),
            None => None,
        },
        _ => None,
    }
}

/// Reading the section `k`: an object of settings.
pub open spec fn section(entries: Seq<SettingsEntry>, k: Seq<char>) -> Option<
    Option<Seq<SettingsEntry>>,
> {
    match present(entries, k) {
        None => Some(None),
        Some(SettingsValue::Object(e)) => Some(Some(e@)),
        _ => None,
    }
}

/// The entries of the section `k`; none when it is not given.
pub open spec fn section_entries(entries: Seq<SettingsEntry>, k: Seq<char>) -> Seq<SettingsEntry> {
    match section(entries, k) {
        Some(Some(e)) => e,
        _ => Seq::empty(),
    }
}

/// The texts of the items of a list of texts.
pub open spec fn texts_of(items: Seq<SettingsValue>) -> Seq<Seq<char>> {
    Seq::new(items.len(), |i: int| items[i]->Text_0@)
}

/// Reading the setting `k` as a list of texts.
pub open spec fn text_list_setting(entries: Seq<SettingsEntry>, k: Seq<char>) -> Option<
    Option<Seq<Seq<char>>>,
> {
    match present(entries, k) {
        None => Some(None),
        Some(SettingsValue::Array(items)) => if forall|i: int|
            0 <= i < items@.len() ==> (#[trigger] items@[i]) is Text {
            Some(Some(texts_of(items@)))
        } else {
            None
        },
        _ => None,
    }
}

/// With distinct keys, the entry at `i` is what `lookup` finds under its key.
proof fn lemma_lookup_at(entries: Seq<SettingsEntry>, i: int)
    requires
        distinct_keys(entries),
        0 <= i < entries.len(),
    ensures
        lookup(entries, entries[i].key@) == Some(entries[i].value),
{
    lemma_value_of(entries, i);
}

/// Every value stored in `entries` is well formed.
pub open spec fn values_well_formed(entries: Seq<SettingsEntry>) -> bool {
    forall|i: int| 0 <= i < entries.len() ==> well_formed(#[trigger] entries[i].value)
}

/// `after` is `before` with the entry under `key` taken out.
pub open spec fn entry_removed(before: Seq<SettingsEntry>, after: Seq<SettingsEntry>, key: Seq<char>) -> bool {
    &&& distinct_keys(after)
    &&& lookup(after, key) is None
    &&& forall|k: Seq<char>| k != key ==> #[trigger] lookup(after, k) == lookup(before, k)
    &&& values_well_formed(before) ==> values_well_formed(after)
}

/// Takes the entry under `key` out of `entries` and returns its value.
pub fn take_entry(entries: &mut Vec<SettingsEntry>, key: &str) -> (r: Option<SettingsValue>)
    requires
        distinct_keys(old(entries)@),
    ensures
        r == lookup(old(entries)@, key@),
        entry_removed(old(entries)@, final(entries)@, key@),
{
    let owned = key.to_owned();
    let ghost before = entries@;
    match find_key(entries, &owned) {
        Some(j) => {
            proof {
                lemma_lookup_at(before, j as int);
            }
            let e = entries.remove(j);
            let ghost after = entries@;
            assert(after =~= before.remove(j as int));
            assert(distinct_keys(after)) by {
                assert forall|a: int, b: int|
                    0 <= a < after.len() && 0 <= b < after.len() && a != b implies (#[trigger] after[a]).key@
                    != (#[trigger] after[b]).key@ by {
                    let a0 = if a < j { a } else { a + 1 };
                    let b0 = if b < j { b } else { b + 1 };
                    assert(after[a] == before[a0] && after[b] == before[b0]);
                }
            }
            assert forall|k: Seq<char>| k != key@ implies #[trigger] lookup(after, k) == lookup(before, k) by {
                if has_key(before, k) {
                    let i = choose|i: int| 0 <= i < before.len() && (#[trigger] before[i]).key@ == k;
                    lemma_lookup_at(before, i);
                    let i2 = if i < j { i } else { i - 1 };
                    assert(i != j);
                    assert(after[i2] == before[i]);
                    lemma_lookup_at(after, i2);
                }
                if has_key(after, k) {
                    let i = choose|i: int| 0 <= i < after.len() && (#[trigger] after[i]).key@ == k;
                    let i0 = if i < j { i } else { i + 1 };
                    assert(before[i0] == after[i]);
                }
            }
            assert(!has_key(after, key@)) by {
                if has_key(after, key@) {
                    let i = choose|i: int| 0 <= i < after.len() && (#[trigger] after[i]).key@ == key@;
                    let i0 = if i < j { i } else { i + 1 };
                    assert(before[i0] == after[i]);
                }
            }
            assert(values_well_formed(before) ==> values_well_formed(after)) by {
                if values_well_formed(before) {
                    assert forall|i: int| 0 <= i < after.len() implies well_formed(#[trigger] after[i].value) by {
                        let i0 = if i < j { i } else { i + 1 };
                        assert(before[i0] == after[i]);
                    }
                }
            }
            Some(e.value)
        },
        None => None,
    }
}

/// `after` is `before` with `value` stored under `key`.
pub open spec fn entry_set(
    before: Seq<SettingsEntry>,
    after: Seq<SettingsEntry>,
    key: Seq<char>,
    value: SettingsValue,
) -> bool {
    &&& distinct_keys(after)
    &&& lookup(after, key) == Some(value)
    &&& forall|k: Seq<char>| k != key ==> #[trigger] lookup(after, k) == lookup(before, k)
    &&& values_well_formed(before) && well_formed(value) ==> values_well_formed(after)
}

/// Stores `value` under `key` in `entries`, in place of any value there.
pub fn set_entry(entries: &mut Vec<SettingsEntry>, key: &str, value: SettingsValue)
    requires
        distinct_keys(old(entries)@),
    ensures
        entry_set(old(entries)@, final(entries)@, key@, value),
{
    let ghost before = entries@;
    let ghost v = value;
    let _ = take_entry(entries, key);
    let ghost mid = entries@;
    let e = SettingsEntry { key: key.to_owned(), value };
    entries.push(e);
    let ghost after = entries@;
    assert(after =~= mid.push(e));
    assert(distinct_keys(after)) by {
        assert forall|a: int, b: int|
            0 <= a < after.len() && 0 <= b < after.len() && a != b implies (#[trigger] after[a]).key@
            != (#[trigger] after[b]).key@ by {
            if a < mid.len() && b < mid.len() {
                assert(after[a] == mid[a] && after[b] == mid[b]);
            } else if a < mid.len() {
                assert(after[a] == mid[a]);
                assert(has_key(mid, mid[a].key@));
            } else {
                assert(after[b] == mid[b]);
                assert(has_key(mid, mid[b].key@));
            }
        }
    }
    proof {
        lemma_lookup_at(after, mid.len() as int);
    }
    assert forall|k: Seq<char>| k != key@ implies #[trigger] lookup(after, k) == lookup(before, k) by {
        assert(lookup(mid, k) == lookup(before, k));
        if has_key(mid, k) {
            let i = choose|i: int| 0 <= i < mid.len() && (#[trigger] mid[i]).key@ == k;
            lemma_lookup_at(mid, i);
            assert(after[i] == mid[i]);
            lemma_lookup_at(after, i);
        }
        if has_key(after, k) {
            let i = choose|i: int| 0 <= i < after.len() && (#[trigger] after[i]).key@ == k;
            assert(i < mid.len());
            assert(mid[i] == after[i]);
        }
    }
    assert(values_well_formed(before) && well_formed(v) ==> values_well_formed(after)) by {
        if values_well_formed(before) && well_formed(v) {
            assert forall|i: int| 0 <= i < after.len() implies well_formed(#[trigger] after[i].value) by {
                if i < mid.len() {
                    assert(after[i] == mid[i]);
                }
            }
        }
    }
}

/// The value under `key`, unless it is absent or `null`.
fn present_value<'a>(entries: &'a Vec<SettingsEntry>, key: &str) -> (r: Option<&'a SettingsValue>)
    requires
        distinct_keys(entries@),
    ensures
        match r {
            Some(v) => present(entries@, key@) == Some(*v),
            None => present(entries@, key@) is None,
        },
{
    match get(entries, key) {
        Some(SettingsValue::Null) => None,
        other => other,
    }
}

/// Reads the boolean setting `key` (see [`bool_setting`]).
pub fn read_bool(entries: &Vec<SettingsEntry>, key: &str) -> (r: Option<Option<bool>>)
    requires
        distinct_keys(entries@),
    ensures
        r == bool_setting(entries@, key@),
{
    match present_value(entries, key) {
        None => Some(None),
        Some(SettingsValue::Bool(b)) => Some(Some(*b)),
        Some(_) => None,
    }
}

/// The view of a text read.
pub open spec fn text_read_view(r: Option<Option<String>>) -> Option<Option<Seq<char>>> {
    match r {
        Some(Some(t)) => Some(Some(t@)),
        Some(None) => Some(None),
        None => None,
    }
}

/// Reads the text setting `key` (see [`text_setting`]).
pub fn read_text(entries: &Vec<SettingsEntry>, key: &str) -> (r: Option<Option<String>>)
    requires
        distinct_keys(entries@),
    ensures
        text_read_view(r) == text_setting(entries@, key@),
{
    match present_value(entries, key) {
        None => Some(None),
        Some(SettingsValue::Text(t)) => Some(Some(t.clone())),
        Some(_) => None,
    }
}

/// Reads the number setting `key` as text (see [`number_text_setting`]).
pub fn read_number_text(entries: &Vec<SettingsEntry>, key: &str) -> (r: Option<Option<String>>)
    requires
        distinct_keys(entries@),
    ensures
        text_read_view(r) == number_text_setting(entries@, key@),
{
    match present_value(entries, key) {
        None => Some(None),
        Some(SettingsValue::Number(t)) => Some(Some(t.clone())),
        Some(_) => None,
    }
}

/// A longer run of digits is worth at least as much as its prefix.
proof fn lemma_digits_prefix(s: Seq<char>, i: int)
    requires
        0 <= i <= s.len(),
        all_digits(s),
    ensures
        digits_value(s.take(i)) <= digits_value(s),
    decreases s.len() - i,
{
    if i < s.len() {
        let t = s.take(i + 1);
        assert(t.drop_last() =~= s.take(i));
        assert(t.last() == s[i]);
        assert('0' <= s[i] <= '9');
        assert(digits_value(s.take(i)) <= digits_value(t));
        lemma_digits_prefix(s, i + 1);
    } else {
        assert(s.take(i) =~= s);
    }
}

/// The unsigned integer written by `t`, if it is at most `max` (see
/// [`unsigned_number`]).
pub fn parse_unsigned(t: &String, max: u64) -> (r: Option<u64>)
    ensures
        match r {
            Some(n) => unsigned_number(t@, max as nat) == Some(n as nat),
            None => unsigned_number(t@, max as nat) is None,
        },
{
    let chars = crate::text::chars_of(t.as_str());
    if chars.len() == 0 {
        return None;
    }
    let mut acc: u64 = 0;
    let mut i: usize = 0;
    while i < chars.len()
        invariant
            i <= chars.len(),
            chars@ == t@,
            acc as nat == digits_value(chars@.take(i as int)),
            acc <= max,
            forall|j: int| 0 <= j < i ==> '0' <= #[trigger] chars@[j] <= '9',
        decreases chars.len() - i,
    {
        let c = chars[i];
        let ghost next = chars@.take(i as int + 1);
        assert(next.drop_last() =~= chars@.take(i as int));
        if c < '0' || c > '9' {
            assert(!all_digits(t@)) by {
                assert(!('0' <= t@[i as int] <= '9'));
            }
            return None;
        }
        let d: u64 = (c as u32 - '0' as u32) as u64;
        assert(d == (c as nat - '0' as nat));
        if d > max || acc > (max - d) / 10 {
            proof {
                assert(digits_value(next) == acc * 10 + d);
                if d <= max {
                    assert(digits_value(next) > max) by (nonlinear_arith)
                        requires
                            acc > (max - d) / 10,
                            d <= max,
                            digits_value(next) == acc * 10 + d,
                    ;
                }
                if all_digits(t@) {
                    lemma_digits_prefix(t@, i as int + 1);
                }
            }
            return None;
        }
        assert(acc * 10 + d <= max) by (nonlinear_arith)
            requires
                acc <= (max - d) / 10,
                d <= max,
        ;
        acc = acc * 10 + d;
        i += 1;
    }
    assert(chars@.take(i as int) =~= t@);
    Some(acc)
}

/// The view of an unsigned read.
pub open spec fn unsigned_read_view(r: Option<Option<u64>>) -> Option<Option<nat>> {
    match r {
        Some(Some(n)) => Some(Some(n as nat)),
        Some(None) => Some(None),
        None => None,
    }
}

/// Reads the unsigned integer setting `key`, at most `max` (see
/// [`unsigned_setting`]).
pub fn read_unsigned(entries: &Vec<SettingsEntry>, key: &str, max: u64) -> (r: Option<Option<u64>>)
    requires
        distinct_keys(entries@),
    ensures
        unsigned_read_view(r) == unsigned_setting(entries@, key@, max as nat),
{
    match present_value(entries, key) {
        None => Some(None),
        Some(SettingsValue::Number(t)) => match parse_unsigned(t, max) {
            Some(n) => Some(Some(n)),
            None => None,
        },
        Some(_) => None,
    }
}

/// The view of a section read.
pub open spec fn section_read_view(r: Option<Option<&Vec<SettingsEntry>>>) -> Option<
    Option<Seq<SettingsEntry>>,
> {
    match r {
        Some(Some(e)) => Some(Some(e@)),
        Some(None) => Some(None),
        None => None,
    }
}

/// Reads the section `key` (see [`section`]).
pub fn read_section<'a>(entries: &'a Vec<SettingsEntry>, key: &str) -> (r: Option<
    Option<&'a Vec<SettingsEntry>>,
>)
    requires
        distinct_keys(entries@),
        values_well_formed(entries@),
    ensures
        section_read_view(r) == section(entries@, key@),
        r matches Some(Some(e)) ==> distinct_keys(e@) && values_well_formed(e@),
{
    match present_value(entries, key) {
        None => Some(None),
        Some(SettingsValue::Object(e)) => {
            proof {
                let k = key@;
                let i = choose|i: int| 0 <= i < entries@.len() && (#[trigger] entries@[i]).key@ == k;
                lemma_lookup_at(entries@, i);
                assert(well_formed(entries@[i].value));
            }
            Some(Some(e))
        },
        Some(_) => None,
    }
}

/// The view of a list read.
pub open spec fn list_read_view(r: Option<Option<Vec<String>>>) -> Option<Option<Seq<Seq<char>>>> {
    match r {
        Some(Some(l)) => Some(Some(l@.map_values(|t: String| t@))),
        Some(None) => Some(None),
        None => None,
    }
}

/// Reads the setting `key` as a list of texts (see [`text_list_setting`]).
pub fn read_text_list(entries: &Vec<SettingsEntry>, key: &str) -> (r: Option<Option<Vec<String>>>)
    requires
        distinct_keys(entries@),
    ensures
        list_read_view(r) == text_list_setting(entries@, key@),
{
    match present_value(entries, key) {
        None => Some(None),
        Some(SettingsValue::Array(items)) => {
            let mut out: Vec<String> = Vec::new();
            let mut i: usize = 0;
            while i < items.len()
                invariant
                    i <= items.len(),
                    present(entries@, key@) == Some(SettingsValue::Array(*items)),
                    out@.len() == i,
                    forall|j: int| 0 <= j < i ==> (#[trigger] items@[j]) is Text,
                    forall|j: int| 0 <= j < i ==> (#[trigger] out@[j])@ == items@[j]->Text_0@,
                decreases items.len() - i,
            {
                match &items[i] {
                    SettingsValue::Text(t) => out.push(t.clone()),
                    _ => {
                        assert(!(items@[i as int] is Text));
                        assert(!(forall|j: int| 0 <= j < items@.len() ==> (#[trigger] items@[j]) is Text));
                        return None;
                    },
                }
                i += 1;
            }
            assert(out@.map_values(|t: String| t@) =~= texts_of(items@));
            Some(Some(out))
        },
        Some(_) => None,
    }
}

/// With distinct keys and well-formed values, the value under the key of
/// entry `i` is that entry's, and is well formed.
pub proof fn lemma_value_of_pub(entries: Seq<SettingsEntry>, i: int)
    requires
        distinct_keys(entries),
        values_well_formed(entries),
        0 <= i < entries.len(),
    ensures
        lookup(entries, entries[i].key@) == Some(entries[i].value),
        well_formed(entries[i].value),
{
    lemma_value_of(entries, i);
}

} // verus!
