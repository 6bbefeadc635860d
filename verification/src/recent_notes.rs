//! The history of opened notes: how often and when each note was last
//! opened, most recent first, bounded in size.

use vstd::prelude::*;
use crate::note_links::same_path;
use crate::paths::path_components;

verus! {

/// How many notes the history keeps.
pub const MAX_RECENT_NOTES: usize = 512;

/// How often a note was opened, and when last.
#[derive(Debug)]
pub struct RecentNoteUsage {
    pub path: String,
    pub open_count: u64,
    pub last_opened: u64,
}

/// A history entry, as a value.
pub struct RecentNoteUsageView {
    pub path: Seq<char>,
    pub open_count: u64,
    pub last_opened: u64,
}

impl View for RecentNoteUsage {
    type V = RecentNoteUsageView;

    open spec fn view(&self) -> RecentNoteUsageView {
        RecentNoteUsageView {
            path: self.path@,
            open_count: self.open_count,
            last_opened: self.last_opened,
        }
    }
}

/// The history of opened notes.
#[derive(Debug, Default)]
pub struct RecentNotes {
    pub entries: Vec<RecentNoteUsage>,
}

impl View for RecentNotes {
    type V = Seq<RecentNoteUsageView>;

    open spec fn view(&self) -> Seq<RecentNoteUsageView> {
        self.entries@.map_values(|e: RecentNoteUsage| e@)
    }
}

/// The position of the first entry for the note at `path` (paths compared
/// by their components).
pub open spec fn entry_index(entries: Seq<RecentNoteUsageView>, path: Seq<char>) -> Option<int>
    decreases entries.len(),
{
    if entries.len() == 0 {
        None
    } else if path_components(entries[0].path) == path_components(path) {
        Some(0)
    } else {
        match entry_index(entries.drop_first(), path) {
            Some(i) => Some(i + 1),
            None => None,
        }
    }
}

/// `count + 1`, staying at the largest count.
pub open spec fn saturating_increment(count: u64) -> u64 {
    if count == u64::MAX {
        count
    } else {
        (count + 1) as u64
    }
}

/// The entries after the note at `path` is opened at `opened_at`: its
/// entry counts one more opening and records the time, or a new entry is
/// added at the end.
pub open spec fn with_opening(
    entries: Seq<RecentNoteUsageView>,
    path: Seq<char>,
    opened_at: u64,
) -> Seq<RecentNoteUsageView> {
    match entry_index(entries, path) {
        Some(i) => entries.update(
            i,
            RecentNoteUsageView {
                path: entries[i].path,
                open_count: saturating_increment(entries[i].open_count),
                last_opened: opened_at,
            },
        ),
        None => entries.push(RecentNoteUsageView { path, open_count: 1, last_opened: opened_at }),
    }
}

/// `sorted` with `x` placed after every entry opened at the same time as
/// it or later, looking from the end.
pub open spec fn insert_by_recency(
    sorted: Seq<RecentNoteUsageView>,
    x: RecentNoteUsageView,
) -> Seq<RecentNoteUsageView>
    decreases sorted.len(),
{
    if sorted.len() == 0 {
        seq![x]
    } else if sorted.last().last_opened >= x.last_opened {
        sorted.push(x)
    } else {
        insert_by_recency(sorted.drop_last(), x).push(sorted.last())
    }
}

/// The entries ordered from the most recently opened, entries opened at
/// the same time keeping their order (a stable sort).
pub open spec fn sort_by_recency(entries: Seq<RecentNoteUsageView>) -> Seq<RecentNoteUsageView>
    decreases entries.len(),
{
    if entries.len() == 0 {
        Seq::empty()
    } else {
        insert_by_recency(sort_by_recency(entries.drop_last()), entries.last())
    }
}

/// The history after the note at `path` is opened at `opened_at`: the
/// opening recorded, the entries sorted by recency, and at most
/// [`MAX_RECENT_NOTES`] of them kept.
pub open spec fn record_spec(
    entries: Seq<RecentNoteUsageView>,
    path: Seq<char>,
    opened_at: u64,
) -> Seq<RecentNoteUsageView> {
    let sorted = sort_by_recency(with_opening(entries, path, opened_at));
    if sorted.len() > MAX_RECENT_NOTES {
        sorted.take(MAX_RECENT_NOTES as int)
    } else {
        sorted
    }
}

/// Inserting from the end stops at the last entry opened at the same time
/// or later.
proof fn lemma_insert_at(sorted: Seq<RecentNoteUsageView>, x: RecentNoteUsageView, pos: int)
    requires
        0 <= pos <= sorted.len(),
        forall|j: int| pos <= j < sorted.len() ==> (#[trigger] sorted[j]).last_opened < x.last_opened,
        pos > 0 ==> sorted[pos - 1].last_opened >= x.last_opened,
    ensures
        insert_by_recency(sorted, x) == sorted.insert(pos, x),
    decreases sorted.len(),
{
    if sorted.len() == 0 {
        assert(sorted.insert(pos, x) =~= seq![x]);
    } else if pos == sorted.len() {
        assert(sorted.insert(pos, x) =~= sorted.push(x));
    } else {
        let front = sorted.drop_last();
        assert(sorted.last().last_opened < x.last_opened);
        assert forall|j: int| pos <= j < front.len() implies (#[trigger] front[j]).last_opened
            < x.last_opened by {
            assert(front[j] == sorted[j]);
        }
        lemma_insert_at(front, x, pos);
        assert(front.insert(pos, x).push(sorted.last()) =~= sorted.insert(pos, x));
    }
}

/// The position of the first entry for `path`.
fn find_entry(entries: &Vec<RecentNoteUsage>, path: &str) -> (r: Option<usize>)
    ensures
        match r {
            Some(i) => entry_index(entries@.map_values(|e: RecentNoteUsage| e@), path@) == Some(
                i as int,
            ) && i < entries.len(),
            None => entry_index(entries@.map_values(|e: RecentNoteUsage| e@), path@) is None,
        },
{
    let ghost ev = entries@.map_values(|e: RecentNoteUsage| e@);
    let mut i: usize = 0;
    assert(ev.skip(0) =~= ev);
    while i < entries.len()
        invariant
            i <= entries.len(),
            ev == entries@.map_values(|e: RecentNoteUsage| e@),
            entry_index(ev, path@) == match entry_index(ev.skip(i as int), path@) {
                Some(k) => Some(k + i),
                None => None,
            },
        decreases entries.len() - i,
    {
        let ghost rest = ev.skip(i as int);
        assert(rest[0] == entries[i as int]@);
        if same_path(entries[i].path.as_str(), path) {
            return Some(i);
        }
        assert(rest.drop_first() =~= ev.skip(i + 1));
        i += 1;
    }
    None
}

impl RecentNotes {
    /// Records that the note at `path` was opened at `opened_at` (see
    /// [`record_spec`]).
    pub fn record(&mut self, path: String, opened_at: u64)
        ensures
            final(self)@ == record_spec(old(self)@, path@, opened_at),
    {
        let ghost before = self@;
        let mut entries: Vec<RecentNoteUsage> = Vec::new();
        std::mem::swap(&mut entries, &mut self.entries);
        assert(entries@.map_values(|e: RecentNoteUsage| e@) == before);
        match find_entry(&entries, path.as_str()) {
            Some(i) => {
                let entry = &entries[i];
                let count = if entry.open_count == u64::MAX {
                    entry.open_count
                } else {
                    entry.open_count + 1
                };
                let updated = RecentNoteUsage {
                    path: entry.path.clone(),
                    open_count: count,
                    last_opened: opened_at,
                };
                entries.set(i, updated);
            },
            None => {
                entries.push(RecentNoteUsage { path, open_count: 1, last_opened: opened_at });
            },
        }
        let ghost opened = entries@.map_values(|e: RecentNoteUsage| e@);
        assert(opened =~= with_opening(before, path@, opened_at));
        let mut sorted: Vec<RecentNoteUsage> = Vec::new();
        let mut taken: usize = 0;
        let total = entries.len();
        assert(opened.take(0) =~= Seq::<RecentNoteUsageView>::empty());
        while entries.len() > 0
            invariant
                taken + entries.len() == total,
                total == opened.len(),
                entries@.map_values(|e: RecentNoteUsage| e@) =~= opened.skip(taken as int),
                sorted@.map_values(|e: RecentNoteUsage| e@) == sort_by_recency(
                    opened.take(taken as int),
                ),
            decreases entries.len(),
        {
            assert(entries@.map_values(|e: RecentNoteUsage| e@)[0] == entries@[0]@);
            let x = entries.remove(0);
            let ghost xv = x@;
            assert(xv == opened[taken as int]);
            let ghost sv = sorted@.map_values(|e: RecentNoteUsage| e@);
            let mut pos: usize = sorted.len();
            while pos > 0 && sorted[pos - 1].last_opened < x.last_opened
                invariant
                    pos <= sorted.len(),
                    xv == x@,
                    sv == sorted@.map_values(|e: RecentNoteUsage| e@),
                    forall|j: int| pos <= j < sv.len() ==> (#[trigger] sv[j]).last_opened
                        < xv.last_opened,
                decreases pos,
            {
                assert(sv[pos - 1] == sorted@[pos - 1]@);
                pos -= 1;
            }
            proof {
                lemma_insert_at(sv, xv, pos as int);
                assert(opened.take(taken + 1).drop_last() =~= opened.take(taken as int));
                assert(opened.take(taken + 1).last() == xv);
                assert(opened.skip(taken as int).drop_first() =~= opened.skip(taken + 1));
            }
            sorted.insert(pos, x);
            assert(sorted@.map_values(|e: RecentNoteUsage| e@) =~= sv.insert(pos as int, xv));
            taken += 1;
        }
        assert(opened.take(taken as int) =~= opened);
        sorted.truncate(MAX_RECENT_NOTES);
        self.entries = sorted;
        assert(self@ =~= record_spec(before, path@, opened_at));
    }
}

/// Whether entries are ordered from the most recently opened.
pub open spec fn sorted_by_recency(entries: Seq<RecentNoteUsageView>) -> bool {
    forall|i: int, j: int|
        0 <= i < j < entries.len() ==> (#[trigger] entries[i]).last_opened >= (
        #[trigger] entries[j]).last_opened
}

proof fn lemma_insert_keeps_order(sorted: Seq<RecentNoteUsageView>, x: RecentNoteUsageView)
    requires
        sorted_by_recency(sorted),
    ensures
        sorted_by_recency(insert_by_recency(sorted, x)),
        insert_by_recency(sorted, x).len() == sorted.len() + 1,
    decreases sorted.len(),
{
    if sorted.len() > 0 && sorted.last().last_opened < x.last_opened {
        let front = sorted.drop_last();
        assert(sorted_by_recency(front)) by {
            assert forall|i: int, j: int| 0 <= i < j < front.len() implies (
            #[trigger] front[i]).last_opened >= (#[trigger] front[j]).last_opened by {
                assert(front[i] == sorted[i] && front[j] == sorted[j]);
            }
        }
        lemma_insert_keeps_order(front, x);
        lemma_insert_elements(front, x);
        let inserted = insert_by_recency(front, x);
        let r = inserted.push(sorted.last());
        assert forall|i: int, j: int| 0 <= i < j < r.len() implies (#[trigger] r[i]).last_opened
            >= (#[trigger] r[j]).last_opened by {
            if j == r.len() - 1 {
                assert(r[j] == sorted.last());
                assert(r[i] == inserted[i]);
                if inserted[i] != x {
                    let k = choose|k: int| 0 <= k < front.len() && front[k] == inserted[i];
                    assert(sorted[k] == front[k]);
                    assert(sorted[sorted.len() - 1] == sorted.last());
                }
            } else {
                assert(r[i] == inserted[i] && r[j] == inserted[j]);
            }
        }
    } else if sorted.len() > 0 {
        let r = sorted.push(x);
        assert forall|i: int, j: int| 0 <= i < j < r.len() implies (#[trigger] r[i]).last_opened
            >= (#[trigger] r[j]).last_opened by {
            if j == r.len() - 1 {
                assert(r[i] == sorted[i]);
                assert(sorted[sorted.len() - 1] == sorted.last());
            } else {
                assert(r[i] == sorted[i] && r[j] == sorted[j]);
            }
        }
    }
}

proof fn lemma_insert_elements(sorted: Seq<RecentNoteUsageView>, x: RecentNoteUsageView)
    ensures
        forall|i: int|
            0 <= i < insert_by_recency(sorted, x).len() ==> #[trigger] insert_by_recency(
                sorted,
                x,
            )[i] == x || exists|k: int| 0 <= k < sorted.len() && sorted[k] == insert_by_recency(
                sorted,
                x,
            )[i],
    decreases sorted.len(),
{
    if sorted.len() > 0 {
        let r = insert_by_recency(sorted, x);
        if sorted.last().last_opened >= x.last_opened {
            assert forall|i: int| 0 <= i < r.len() implies #[trigger] r[i] == x || exists|k: int|
                0 <= k < sorted.len() && sorted[k] == r[i] by {
                if i < sorted.len() {
                    assert(sorted[i] == r[i]);
                }
            }
        } else {
            let front = sorted.drop_last();
            lemma_insert_elements(front, x);
            let inner = insert_by_recency(front, x);
            assert forall|i: int| 0 <= i < r.len() implies #[trigger] r[i] == x || exists|k: int|
                0 <= k < sorted.len() && sorted[k] == r[i] by {
                if i < inner.len() {
                    assert(r[i] == inner[i]);
                    if inner[i] != x {
                        let k = choose|k: int| 0 <= k < front.len() && front[k] == inner[i];
                        assert(sorted[k] == front[k]);
                    }
                } else {
                    assert(r[i] == sorted[sorted.len() - 1]);
                }
            }
        }
    }
}

proof fn lemma_sort_keeps_order(entries: Seq<RecentNoteUsageView>)
    ensures
        sorted_by_recency(sort_by_recency(entries)),
        sort_by_recency(entries).len() == entries.len(),
    decreases entries.len(),
{
    if entries.len() > 0 {
        lemma_sort_keeps_order(entries.drop_last());
        lemma_insert_keeps_order(sort_by_recency(entries.drop_last()), entries.last());
    }
}

/// Law: after an opening is recorded, the history runs from the most
/// recently opened note, and holds at most [`MAX_RECENT_NOTES`] entries.
pub proof fn law_history_is_recent_first_and_bounded(
    entries: Seq<RecentNoteUsageView>,
    path: Seq<char>,
    opened_at: u64,
)
    ensures
        sorted_by_recency(record_spec(entries, path, opened_at)),
        record_spec(entries, path, opened_at).len() <= MAX_RECENT_NOTES,
{
    let sorted = sort_by_recency(with_opening(entries, path, opened_at));
    lemma_sort_keeps_order(with_opening(entries, path, opened_at));
    if sorted.len() > MAX_RECENT_NOTES {
        let t = sorted.take(MAX_RECENT_NOTES as int);
        assert forall|i: int, j: int| 0 <= i < j < t.len() implies (#[trigger] t[i]).last_opened
            >= (#[trigger] t[j]).last_opened by {
            assert(t[i] == sorted[i] && t[j] == sorted[j]);
        }
    }
}

/// Law: recording an opening keeps the most recently opened entries. Every
/// entry it keeps is one of the history with the opening recorded; an entry
/// of that history that it drops is dropped only when the history holds
/// more than [`MAX_RECENT_NOTES`] entries, and was opened no later than
/// every entry kept.
pub proof fn law_record_drops_only_the_least_recent(
    entries: Seq<RecentNoteUsageView>,
    path: Seq<char>,
    opened_at: u64,
)
    ensures
        ({
            let w = with_opening(entries, path, opened_at);
            let r = record_spec(entries, path, opened_at);
            &&& forall|x: RecentNoteUsageView|
                #![trigger holds_entry(r, x)]
                holds_entry(r, x) ==> holds_entry(w, x)
            &&& forall|x: RecentNoteUsageView|
                #![trigger holds_entry(w, x)]
                holds_entry(w, x) && !holds_entry(r, x) ==> w.len() > MAX_RECENT_NOTES && forall|
                    i: int,
                |
                    0 <= i < r.len() ==> x.last_opened <= (#[trigger] r[i]).last_opened
        }),
{
    let w = with_opening(entries, path, opened_at);
    lemma_sort_keeps_entries(w);
    lemma_sort_keeps_order(w);
    let sorted = sort_by_recency(w);
    let r = record_spec(entries, path, opened_at);
    assert forall|i: int| 0 <= i < r.len() implies #[trigger] r[i] == sorted[i] by {}
    assert forall|x: RecentNoteUsageView| holds_entry(r, x) implies holds_entry(w, x) by {
        let k = choose|k: int| 0 <= k < r.len() && #[trigger] r[k] == x;
        assert(sorted[k] == x);
        assert(holds_entry(sorted, x));
    }
    assert forall|x: RecentNoteUsageView| holds_entry(w, x) && !holds_entry(r, x) implies w.len()
        > MAX_RECENT_NOTES && forall|i: int|
        0 <= i < r.len() ==> x.last_opened <= (#[trigger] r[i]).last_opened by {
        assert(holds_entry(sorted, x));
        let k = choose|k: int| 0 <= k < sorted.len() && #[trigger] sorted[k] == x;
        if k < r.len() {
            assert(r[k] == x);
            assert(holds_entry(r, x));
        }
        assert forall|i: int| 0 <= i < r.len() implies x.last_opened <= (
        #[trigger] r[i]).last_opened by {
            assert(r[i] == sorted[i]);
            assert(sorted[i].last_opened >= sorted[k].last_opened);
        }
    }
}

/// The entries of `entries` opened at time `t`, in their order.
pub open spec fn opened_at(entries: Seq<RecentNoteUsageView>, t: u64) -> Seq<RecentNoteUsageView> {
    entries.filter(|e: RecentNoteUsageView| e.last_opened == t)
}

proof fn lemma_insert_keeps_ties_in_order(
    sorted: Seq<RecentNoteUsageView>,
    x: RecentNoteUsageView,
    t: u64,
)
    ensures
        opened_at(insert_by_recency(sorted, x), t) == if x.last_opened == t {
            opened_at(sorted, t).push(x)
        } else {
            opened_at(sorted, t)
        },
    decreases sorted.len(),
{
    reveal(Seq::filter);
    if sorted.len() == 0 {
        assert(seq![x].drop_last() =~= sorted);
    } else if sorted.last().last_opened >= x.last_opened {
        assert(sorted.push(x).drop_last() =~= sorted);
    } else {
        let front = sorted.drop_last();
        lemma_insert_keeps_ties_in_order(front, x, t);
        let inner = insert_by_recency(front, x);
        assert(inner.push(sorted.last()).drop_last() =~= inner);
    }
}

/// Law: sorting by recency is stable: the entries opened at any one time
/// come out in the order they had.
pub proof fn law_sort_by_recency_keeps_ties_in_order(entries: Seq<RecentNoteUsageView>, t: u64)
    ensures
        opened_at(sort_by_recency(entries), t) == opened_at(entries, t),
    decreases entries.len(),
{
    if entries.len() > 0 {
        let front = entries.drop_last();
        law_sort_by_recency_keeps_ties_in_order(front, t);
        lemma_insert_keeps_ties_in_order(sort_by_recency(front), entries.last(), t);
        reveal(Seq::filter);
    }
}

/// Law: recording an opening keeps, of the entries opened at any one time,
/// the first ones in the order the history (with the opening recorded) had
/// them.
pub proof fn law_record_keeps_ties_in_order(
    entries: Seq<RecentNoteUsageView>,
    path: Seq<char>,
    opened_at_time: u64,
    t: u64,
)
    ensures
        ({
            let kept = opened_at(record_spec(entries, path, opened_at_time), t);
            let all = opened_at(with_opening(entries, path, opened_at_time), t);
            kept.len() <= all.len() && kept == all.take(kept.len() as int)
        }),
{
    let w = with_opening(entries, path, opened_at_time);
    let sorted = sort_by_recency(w);
    law_sort_by_recency_keeps_ties_in_order(w, t);
    let r = record_spec(entries, path, opened_at_time);
    if sorted.len() > MAX_RECENT_NOTES {
        let n = MAX_RECENT_NOTES as int;
        assert(sorted =~= sorted.take(n) + sorted.skip(n));
        Seq::filter_distributes_over_add(
            sorted.take(n),
            sorted.skip(n),
            |e: RecentNoteUsageView| e.last_opened == t,
        );
        let kept = opened_at(r, t);
        assert(opened_at(sorted, t).take(kept.len() as int) =~= kept);
    } else {
        assert(opened_at(sorted, t).take(opened_at(sorted, t).len() as int) =~= opened_at(sorted, t));
    }
}

/// No two entries are for the same note.
pub open spec fn one_entry_per_note(entries: Seq<RecentNoteUsageView>) -> bool {
    forall|i: int, j: int|
        0 <= i < entries.len() && 0 <= j < entries.len() && i != j ==> path_components(
            #[trigger] entries[i].path,
        ) != path_components(#[trigger] entries[j].path)
}

/// Whether `e` is one of `entries`.
pub open spec fn holds_entry(entries: Seq<RecentNoteUsageView>, e: RecentNoteUsageView) -> bool {
    exists|k: int| 0 <= k < entries.len() && #[trigger] entries[k] == e
}

/// Inserting by recency places `x` somewhere among `sorted`.
proof fn lemma_insert_is_insert(sorted: Seq<RecentNoteUsageView>, x: RecentNoteUsageView)
    ensures
        exists|p: int| 0 <= p <= sorted.len() && insert_by_recency(sorted, x) == sorted.insert(p, x),
    decreases sorted.len(),
{
    if sorted.len() == 0 {
        assert(insert_by_recency(sorted, x) =~= sorted.insert(0, x));
    } else if sorted.last().last_opened >= x.last_opened {
        assert(insert_by_recency(sorted, x) =~= sorted.insert(sorted.len() as int, x));
    } else {
        let front = sorted.drop_last();
        lemma_insert_is_insert(front, x);
        let p = choose|p: int| 0 <= p <= front.len() && insert_by_recency(front, x) == front.insert(p, x);
        assert(front.insert(p, x).push(sorted.last()) =~= sorted.insert(p, x));
    }
}

/// Sorting keeps exactly the entries, and one entry per note.
proof fn lemma_sort_keeps_entries(entries: Seq<RecentNoteUsageView>)
    ensures
        forall|e: RecentNoteUsageView|
            #![trigger holds_entry(sort_by_recency(entries), e)]
            #![trigger holds_entry(entries, e)]
            holds_entry(sort_by_recency(entries), e) <==> holds_entry(entries, e),
        one_entry_per_note(entries) ==> one_entry_per_note(sort_by_recency(entries)),
    decreases entries.len(),
{
    if entries.len() > 0 {
        let front = entries.drop_last();
        let x = entries.last();
        lemma_sort_keeps_entries(front);
        let sf = sort_by_recency(front);
        lemma_insert_is_insert(sf, x);
        let p = choose|p: int| 0 <= p <= sf.len() && insert_by_recency(sf, x) == sf.insert(p, x);
        let r = sf.insert(p, x);
        assert forall|e: RecentNoteUsageView| holds_entry(r, e) <==> holds_entry(entries, e) by {
            if holds_entry(r, e) {
                let k = choose|k: int| 0 <= k < r.len() && #[trigger] r[k] == e;
                if k == p {
                    assert(entries[entries.len() - 1] == e);
                } else {
                    let k2 = if k < p { k } else { k - 1 };
                    assert(sf[k2] == e);
                    assert(holds_entry(sf, e));
                    let k3 = choose|k3: int| 0 <= k3 < front.len() && #[trigger] front[k3] == e;
                    assert(entries[k3] == e);
                }
            }
            if holds_entry(entries, e) {
                let k = choose|k: int| 0 <= k < entries.len() && #[trigger] entries[k] == e;
                if k == entries.len() - 1 {
                    assert(r[p] == e);
                } else {
                    assert(front[k] == e);
                    assert(holds_entry(front, e));
                    let k2 = choose|k2: int| 0 <= k2 < sf.len() && #[trigger] sf[k2] == e;
                    let k3 = if k2 < p { k2 } else { k2 + 1 };
                    assert(r[k3] == e);
                }
            }
        }
        if one_entry_per_note(entries) {
            assert(one_entry_per_note(front)) by {
                assert forall|i: int, j: int|
                    0 <= i < front.len() && 0 <= j < front.len() && i != j implies path_components(
                    #[trigger] front[i].path,
                ) != path_components(#[trigger] front[j].path) by {
                    assert(front[i] == entries[i] && front[j] == entries[j]);
                }
            }
            assert forall|i: int, j: int|
                0 <= i < r.len() && 0 <= j < r.len() && i != j implies path_components(
                #[trigger] r[i].path,
            ) != path_components(#[trigger] r[j].path) by {
                if i != p && j != p {
                    let i2 = if i < p { i } else { i - 1 };
                    let j2 = if j < p { j } else { j - 1 };
                    assert(r[i] == sf[i2] && r[j] == sf[j2]);
                } else {
                    let o = if i == p { j } else { i };
                    let o2 = if o < p { o } else { o - 1 };
                    assert(r[o] == sf[o2]);
                    assert(holds_entry(sf, sf[o2]));
                    let k = choose|k: int| 0 <= k < front.len() && #[trigger] front[k] == sf[o2];
                    assert(entries[k] == front[k]);
                    assert(entries[entries.len() - 1] == x);
                    assert(r[p] == x);
                }
            }
        }
    }
}

/// The entries after an opening is recorded, before sorting: one entry per
/// note where there was one before.
proof fn lemma_with_opening(entries: Seq<RecentNoteUsageView>, path: Seq<char>, opened_at: u64)
    requires
        one_entry_per_note(entries),
    ensures
        one_entry_per_note(with_opening(entries, path, opened_at)),
        with_opening(entries, path, opened_at).len() == entries.len() + if entry_index(
            entries,
            path,
        ) is None {
            1int
        } else {
            0int
        },
        forall|i: int|
            0 <= i < with_opening(entries, path, opened_at).len() ==> {
                let e = #[trigger] with_opening(entries, path, opened_at)[i];
                if path_components(e.path) == path_components(path) {
                    e.last_opened == opened_at && e.open_count == match entry_index(entries, path) {
                        Some(k) => saturating_increment(entries[k].open_count),
                        None => 1u64,
                    }
                } else {
                    holds_entry(entries, e)
                }
            },
        exists|i: int|
            0 <= i < with_opening(entries, path, opened_at).len() && path_components(
                (#[trigger] with_opening(entries, path, opened_at)[i]).path,
            ) == path_components(path),
{
    lemma_entry_index(entries, path);
    let w = with_opening(entries, path, opened_at);
    match entry_index(entries, path) {
        Some(k) => {
            assert(w[k].path == entries[k].path);
            assert forall|i: int| 0 <= i < w.len() implies {
                let e = #[trigger] w[i];
                if path_components(e.path) == path_components(path) {
                    e.last_opened == opened_at && e.open_count == saturating_increment(
                        entries[k].open_count,
                    )
                } else {
                    holds_entry(entries, e)
                }
            } by {
                if i != k {
                    assert(w[i] == entries[i]);
                }
            }
            assert forall|i: int, j: int|
                0 <= i < w.len() && 0 <= j < w.len() && i != j implies path_components(
                #[trigger] w[i].path,
            ) != path_components(#[trigger] w[j].path) by {
                assert(w[i].path == entries[i].path && w[j].path == entries[j].path);
            }
        },
        None => {
            let n = entries.len() as int;
            assert forall|i: int| 0 <= i < w.len() implies {
                let e = #[trigger] w[i];
                if path_components(e.path) == path_components(path) {
                    e.last_opened == opened_at && e.open_count == 1u64
                } else {
                    holds_entry(entries, e)
                }
            } by {
                if i < n {
                    assert(w[i] == entries[i]);
                }
            }
            assert forall|i: int, j: int|
                0 <= i < w.len() && 0 <= j < w.len() && i != j implies path_components(
                #[trigger] w[i].path,
            ) != path_components(#[trigger] w[j].path) by {
                if i < n && j < n {
                    assert(w[i] == entries[i] && w[j] == entries[j]);
                } else if i < n {
                    assert(w[i] == entries[i]);
                } else {
                    assert(w[j] == entries[j]);
                }
            }
            assert(w[n].path == path);
        },
    }
}

/// `entry_index` finds the entry for the note, or there is none.
proof fn lemma_entry_index(entries: Seq<RecentNoteUsageView>, path: Seq<char>)
    ensures
        match entry_index(entries, path) {
            Some(k) => 0 <= k < entries.len() && path_components(entries[k].path) == path_components(
                path,
            ),
            None => forall|k: int|
                0 <= k < entries.len() ==> path_components(#[trigger] entries[k].path)
                    != path_components(path),
        },
    decreases entries.len(),
{
    if entries.len() > 0 && path_components(entries[0].path) != path_components(path) {
        lemma_entry_index(entries.drop_first(), path);
        assert forall|k: int| 1 <= k < entries.len() implies entries[k] == entries.drop_first()[k - 1] by {}
    }
}

/// Law: recording an opening keeps one entry per note; the history grows
/// by one for a note it did not hold, up to [`MAX_RECENT_NOTES`]; the
/// note's entry, where kept, records the time and one more opening; every
/// other entry is one the history held; and a note opened later than every
/// other comes first.
pub proof fn law_record_keeps_one_entry_per_note(
    entries: Seq<RecentNoteUsageView>,
    path: Seq<char>,
    opened_at: u64,
)
    requires
        one_entry_per_note(entries),
    ensures
        ({
            let r = record_spec(entries, path, opened_at);
            let grown = entries.len() + if entry_index(entries, path) is None {
                1int
            } else {
                0int
            };
            &&& one_entry_per_note(r)
            &&& r.len() == if grown > MAX_RECENT_NOTES {
                MAX_RECENT_NOTES as int
            } else {
                grown
            }
            &&& forall|i: int|
                0 <= i < r.len() ==> {
                    let e = #[trigger] r[i];
                    if path_components(e.path) == path_components(path) {
                        e.last_opened == opened_at && e.open_count == match entry_index(
                            entries,
                            path,
                        ) {
                            Some(k) => saturating_increment(entries[k].open_count),
                            None => 1u64,
                        }
                    } else {
                        holds_entry(entries, e)
                    }
                }
            &&& (forall|k: int|
                0 <= k < entries.len() && path_components(entries[k].path) != path_components(path)
                    ==> #[trigger] entries[k].last_opened < opened_at) ==> path_components(r[0].path)
                == path_components(path)
        }),
{
    let w = with_opening(entries, path, opened_at);
    lemma_with_opening(entries, path, opened_at);
    lemma_sort_keeps_entries(w);
    lemma_sort_keeps_order(w);
    let sorted = sort_by_recency(w);
    let r = record_spec(entries, path, opened_at);
    assert forall|i: int| 0 <= i < r.len() implies #[trigger] r[i] == sorted[i] by {}
    assert forall|i: int| 0 <= i < r.len() implies {
        let e = #[trigger] r[i];
        if path_components(e.path) == path_components(path) {
            e.last_opened == opened_at && e.open_count == match entry_index(entries, path) {
                Some(k) => saturating_increment(entries[k].open_count),
                None => 1u64,
            }
        } else {
            holds_entry(entries, e)
        }
    } by {
        assert(r[i] == sorted[i]);
        assert(holds_entry(sorted, sorted[i]));
        let k = choose|k: int| 0 <= k < w.len() && #[trigger] w[k] == sorted[i];
    }
    assert(one_entry_per_note(r)) by {
        assert forall|i: int, j: int|
            0 <= i < r.len() && 0 <= j < r.len() && i != j implies path_components(
            #[trigger] r[i].path,
        ) != path_components(#[trigger] r[j].path) by {
            assert(r[i] == sorted[i] && r[j] == sorted[j]);
        }
    }
    if forall|k: int|
        0 <= k < entries.len() && path_components(entries[k].path) != path_components(path)
            ==> #[trigger] entries[k].last_opened < opened_at {
        let m = choose|i: int|
            0 <= i < w.len() && path_components((#[trigger] w[i]).path) == path_components(path);
        assert(holds_entry(w, w[m]));
        let s = choose|s: int| 0 <= s < sorted.len() && #[trigger] sorted[s] == w[m];
        assert(sorted[0].last_opened >= sorted[s].last_opened || s == 0);
        assert(holds_entry(sorted, sorted[0]));
        let k = choose|k: int| 0 <= k < w.len() && #[trigger] w[k] == sorted[0];
        if path_components(sorted[0].path) != path_components(path) {
            assert(holds_entry(entries, w[k]));
            let k2 = choose|k2: int| 0 <= k2 < entries.len() && #[trigger] entries[k2] == w[k];
            assert(entries[k2].last_opened < opened_at);
        }
        assert(r[0] == sorted[0]);
    }
}

/// Law: the recent-notes history after an opening is recorded, from a
/// history with one entry per note: most recent first, one entry per note,
/// grown by one for a new note up to [`MAX_RECENT_NOTES`], the note's entry
/// (where kept) carrying the time and one more opening, every other entry
/// one the history held, and a note opened after every other first.
pub proof fn law_recording_an_opening(
    entries: Seq<RecentNoteUsageView>,
    path: Seq<char>,
    opened_at: u64,
)
    requires
        one_entry_per_note(entries),
    ensures
        ({
            let r = record_spec(entries, path, opened_at);
            let grown = entries.len() + if entry_index(entries, path) is None {
                1int
            } else {
                0int
            };
            &&& sorted_by_recency(r)
            &&& one_entry_per_note(r)
            &&& r.len() == if grown > MAX_RECENT_NOTES {
                MAX_RECENT_NOTES as int
            } else {
                grown
            }
            &&& forall|i: int|
                0 <= i < r.len() ==> {
                    let e = #[trigger] r[i];
                    if path_components(e.path) == path_components(path) {
                        e.last_opened == opened_at && e.open_count == match entry_index(
                            entries,
                            path,
                        ) {
                            Some(k) => saturating_increment(entries[k].open_count),
                            None => 1u64,
                        }
                    } else {
                        holds_entry(entries, e)
                    }
                }
            &&& (forall|k: int|
                0 <= k < entries.len() && path_components(entries[k].path) != path_components(path)
                    ==> #[trigger] entries[k].last_opened < opened_at) ==> path_components(r[0].path)
                == path_components(path)
        }),
{
    law_history_is_recent_first_and_bounded(entries, path, opened_at);
    law_record_keeps_one_entry_per_note(entries, path, opened_at);
}

} // verus!
