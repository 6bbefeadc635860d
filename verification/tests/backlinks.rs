use zednotes_links::backlinks::{
    collect_backlinks, follow_change, next_selection, note_text_source, selection_after_scan,
    CachedNote, FileStamp, FollowChange, FollowedNote, NoteCache, NoteTextSource,
};
use zednotes_links::note_links::NotePaths;
use zednotes_links::wiki_links::parse;

fn cached(path: &str, text: &str) -> CachedNote {
    CachedNote { path: path.to_owned(), text: text.to_owned(), links: parse(text) }
}

fn cache(notes: Vec<CachedNote>) -> NoteCache {
    let mut cache = NoteCache::new();
    for note in notes {
        cache.insert(note);
    }
    cache
}

fn paths_of(notes: &NoteCache) -> NotePaths {
    let mut paths = NotePaths::new();
    for i in 0..notes.len() {
        paths.insert(notes.get(i).path.clone());
    }
    paths
}

#[test]
fn backlinks_resolve_paths_and_keep_every_occurrence() {
    let notes = cache(vec![
        cached("a/Source.md", "[[Target|label]]\n[[Target#Heading]]\n`[[Target]]`"),
        cached("Target.md", "# Heading\n[[Target]]"),
        cached("b/Target.md", ""),
        cached("a/Duplicate.md", "[[Target]]"),
    ]);
    let backlinks = collect_backlinks("Target.md", &notes, &paths_of(&notes));
    assert_eq!(backlinks.len(), 3);
    assert_eq!(backlinks[0].path, "a/Duplicate.md");
    assert_eq!(backlinks[1].row, 0);
    assert_eq!(backlinks[2].row, 1);
    let without_target = cache(vec![
        cached("a/Duplicate.md", "[[Target]]"),
        cached("a/Source.md", "[[Target|label]]\n[[Target#Heading]]\n`[[Target]]`"),
        cached("b/Target.md", ""),
    ]);
    assert!(collect_backlinks("Target.md", &without_target, &paths_of(&without_target)).is_empty());
}

#[test]
fn backlinks_carry_path_range_row_and_trimmed_line() {
    let notes = cache(vec![
        cached("notes/Day.md", "intro\n  see [[Topic]] here  \r\nend [[Topic#Part]]"),
        cached("notes/Topic.md", "# Part\n[[Day]]"),
    ]);
    let backlinks = collect_backlinks("notes/Topic.md", &notes, &paths_of(&notes));
    assert_eq!(backlinks.len(), 2);
    assert_eq!(backlinks[0].path, "notes/Day.md");
    assert_eq!(backlinks[0].range, 12..21);
    assert_eq!(backlinks[0].row, 1);
    assert_eq!(backlinks[0].excerpt, "see [[Topic]] here");
    assert_eq!(backlinks[1].row, 2);
    assert_eq!(backlinks[1].excerpt, "end [[Topic#Part]]");
    let back = collect_backlinks("notes//Day.md", &notes, &paths_of(&notes));
    assert_eq!(back.len(), 1);
    assert_eq!(back[0].path, "notes/Topic.md");
    assert_eq!(back[0].excerpt, "[[Day]]");
}

#[test]
fn the_panel_follows_note_changes() {
    let a = FollowedNote { folder: 1, path: "a.md".to_owned() };
    let a_again = FollowedNote { folder: 1, path: "a.md".to_owned() };
    let b = FollowedNote { folder: 1, path: "b.md".to_owned() };
    let other = FollowedNote { folder: 2, path: "a.md".to_owned() };
    assert_eq!(
        follow_change(Some(&a), Some(&a_again)),
        FollowChange { forget_cached_notes: false, forget_backlinks: false, rescan: true }
    );
    assert_eq!(
        follow_change(Some(&a), Some(&b)),
        FollowChange { forget_cached_notes: false, forget_backlinks: true, rescan: true }
    );
    assert_eq!(
        follow_change(Some(&a), Some(&other)),
        FollowChange { forget_cached_notes: true, forget_backlinks: true, rescan: true }
    );
    assert_eq!(
        follow_change(Some(&a), None),
        FollowChange { forget_cached_notes: true, forget_backlinks: true, rescan: false }
    );
    assert_eq!(
        follow_change(None, None),
        FollowChange { forget_cached_notes: false, forget_backlinks: true, rescan: false }
    );
}

#[test]
fn note_text_comes_from_the_buffer_the_cache_or_the_disk() {
    let stamp = FileStamp { modified_nanos: Some(5), size: 10 };
    let newer = FileStamp { modified_nanos: Some(6), size: 10 };
    assert_eq!(note_text_source(true, stamp, Some(stamp)), NoteTextSource::OpenBuffer);
    assert_eq!(note_text_source(false, stamp, Some(stamp)), NoteTextSource::Cached);
    assert_eq!(note_text_source(false, newer, Some(stamp)), NoteTextSource::Disk);
    assert_eq!(note_text_source(false, stamp, None), NoteTextSource::Disk);
}

#[test]
fn the_selection_moves_within_the_list() {
    assert_eq!(next_selection(None, false, 3), Some(0));
    assert_eq!(next_selection(None, true, 3), Some(0));
    assert_eq!(next_selection(Some(0), true, 3), Some(0));
    assert_eq!(next_selection(Some(1), false, 3), Some(2));
    assert_eq!(next_selection(Some(2), false, 3), Some(2));
    assert_eq!(next_selection(Some(7), false, 0), Some(7));
    assert_eq!(selection_after_scan(Some(2), 2), None);
    assert_eq!(selection_after_scan(Some(1), 2), Some(1));
    assert_eq!(selection_after_scan(None, 2), None);
}

#[test]
fn the_note_cache_keeps_one_note_per_path_in_path_order() {
    let mut notes = cache(vec![cached("b.md", ""), cached("a/z.md", ""), cached("B.md", "")]);
    notes.insert(cached("a//z.md", "[[x]]"));
    assert_eq!(notes.len(), 3);
    let paths: Vec<&str> = (0..notes.len()).map(|i| notes.get(i).path.as_str()).collect();
    assert_eq!(paths, vec!["B.md", "a//z.md", "b.md"]);
    assert_eq!(notes.get(1).links.links.len(), 1);
}
