use zednotes_links::recent_notes::{RecentNoteUsage, RecentNotes, MAX_RECENT_NOTES};

fn usage(path: &str, open_count: u64, last_opened: u64) -> RecentNoteUsage {
    RecentNoteUsage { path: path.to_owned(), open_count, last_opened }
}

#[test]
fn recording_counts_openings_and_sorts_by_recency() {
    let mut history = RecentNotes {
        entries: vec![usage("/notes/a.md", 3, 10), usage("/notes/b.md", 1, 20)],
    };
    history.record("/notes//a.md".to_owned(), 30);
    assert_eq!(history.entries.len(), 2);
    assert_eq!(history.entries[0].path, "/notes/a.md");
    assert_eq!(history.entries[0].open_count, 4);
    assert_eq!(history.entries[0].last_opened, 30);
    history.record("/notes/c.md".to_owned(), 25);
    let order: Vec<&str> = history.entries.iter().map(|e| e.path.as_str()).collect();
    assert_eq!(order, vec!["/notes/a.md", "/notes/c.md", "/notes/b.md"]);
    assert_eq!(history.entries[1].open_count, 1);
}

#[test]
fn equal_times_keep_their_order_and_counts_saturate() {
    let mut history = RecentNotes {
        entries: vec![usage("x.md", u64::MAX, 5), usage("y.md", 1, 5), usage("z.md", 1, 1)],
    };
    history.record("x.md".to_owned(), 5);
    let order: Vec<&str> = history.entries.iter().map(|e| e.path.as_str()).collect();
    assert_eq!(order, vec!["x.md", "y.md", "z.md"]);
    assert_eq!(history.entries[0].open_count, u64::MAX);
}

#[test]
fn the_history_is_bounded() {
    let mut history = RecentNotes::default();
    for i in 0..(MAX_RECENT_NOTES as u64 + 3) {
        history.record(format!("n{i}.md"), i);
    }
    assert_eq!(history.entries.len(), MAX_RECENT_NOTES);
    assert_eq!(history.entries[0].path, format!("n{}.md", MAX_RECENT_NOTES + 2));
    assert!(history.entries.windows(2).all(|w| w[0].last_opened >= w[1].last_opened));
}

#[test]
fn recording_keeps_one_entry_per_note() {
    let mut history = RecentNotes {
        entries: vec![usage("a.md", 2, 30), usage("b.md", 1, 20), usage("c.md", 5, 10)],
    };
    history.record("b.md".to_owned(), 40);
    assert_eq!(history.entries.len(), 3);
    assert_eq!(history.entries[0].path, "b.md");
    assert_eq!(history.entries[0].open_count, 2);
    let paths: Vec<&str> = history.entries.iter().map(|e| e.path.as_str()).collect();
    assert_eq!(paths, vec!["b.md", "a.md", "c.md"]);
    history.record("d.md".to_owned(), 50);
    assert_eq!(history.entries.len(), 4);
    assert_eq!(history.entries[0].path, "d.md");
    assert_eq!(history.entries[0].open_count, 1);
}
