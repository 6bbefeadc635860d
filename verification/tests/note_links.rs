use zednotes_links::note_links::{
    is_note, link_at, link_target_offset, normalize, resolve_path, same_path, NoteLinkError,
    NotePaths,
};

fn note_paths(paths: &[&str]) -> NotePaths {
    let mut set = NotePaths::new();
    for path in paths {
        set.insert((*path).to_owned());
    }
    set
}

#[test]
fn resolves_relative_root_and_unique_suffixes() {
    let paths = note_paths(&[
        "notes/Start.md",
        "notes/Local.md",
        "math/向量.md",
        "math/v1.0.md",
        "root.md",
    ]);
    let source = "notes/Start.md";
    for (link, expected) in [
        ("Local|label", None),
        ("Local", Some("notes/Local.md")),
        ("向量#定义", Some("math/向量.md")),
        ("../root", Some("root.md")),
        ("/math/向量", Some("math/向量.md")),
        ("v1.0", Some("math/v1.0.md")),
        ("#Heading", Some("notes/Start.md")),
        ("../../root", None),
    ] {
        assert_eq!(
            resolve_path(source, link, &paths).ok(),
            expected.map(str::to_owned),
            "{link}"
        );
    }
}

#[test]
fn refuses_ambiguous_or_unresolved_links() {
    let paths = note_paths(&["a/Note.md", "b/Note.md"]);
    assert!(resolve_path("Start.md", "Note", &paths).is_err());
    assert!(resolve_path("Start.md", "Missing", &paths).is_err());
    assert_eq!(resolve_path("a/Start.md", "Note", &paths).unwrap(), "a/Note.md".to_owned());
}

#[test]
fn resolution_errors_name_their_cause() {
    let paths = note_paths(&["a/Note.md", "b/Note.md", "Dup.md", "Dup.markdown"]);
    assert!(matches!(resolve_path("Start.md", "", &paths), Err(NoteLinkError::EmptyLink)));
    assert!(matches!(resolve_path("Start.md", "#", &paths), Err(NoteLinkError::EmptyLink)));
    assert!(matches!(
        resolve_path("Start.md", "Dup", &paths),
        Err(NoteLinkError::Ambiguous { target }) if target == "Dup"
    ));
    assert!(matches!(
        resolve_path("Start.md", "Note", &paths),
        Err(NoteLinkError::AmbiguousName { target }) if target == "Note"
    ));
    assert!(matches!(
        resolve_path("Start.md", "folder\\Missing", &paths),
        Err(NoteLinkError::NotFound { target }) if target == "folder/Missing"
    ));
}

#[test]
fn resolution_tries_the_folder_then_the_root_then_suffixes() {
    let paths = note_paths(&["Note.md", "sub/Note.md", "deep/x/Only.md"]);
    assert_eq!(resolve_path("sub/Start.md", "Note", &paths).unwrap(), "sub/Note.md");
    assert_eq!(resolve_path("other/Start.md", "Note", &paths).unwrap(), "Note.md");
    assert_eq!(resolve_path("Start.md", "x/Only", &paths).unwrap(), "deep/x/Only.md");
    assert_eq!(resolve_path("Start.md", "./Note.md", &paths).unwrap(), "Note.md");
    assert!(resolve_path("Start.md", "./x/Only", &paths).is_err());
    assert!(resolve_path("Start.md", "/x/Only", &paths).is_err());
}

#[test]
fn note_paths_are_a_set_by_components() {
    let mut paths = NotePaths::new();
    assert!(paths.insert("a/b.md".to_owned()));
    assert!(!paths.insert("a//b.md".to_owned()));
    assert!(paths.contains("a/./b.md"));
    assert!(!paths.contains("a/c.md"));
    assert_eq!(paths.len(), 1);
    assert_eq!(paths.get(0), "a/b.md");
}

#[test]
fn is_note_accepts_markdown_extensions_in_any_case() {
    assert!(is_note("a/Note.md"));
    assert!(is_note("Note.MarkDown"));
    assert!(!is_note("Note.txt"));
    assert!(!is_note(".md"));
    assert!(!is_note("folder.md/.."));
    assert!(!is_note("Note"));
}

#[test]
fn normalize_drops_dots_and_refuses_climbing_or_roots() {
    assert_eq!(normalize("a/./b/../c.md"), Some("a/c.md".to_owned()));
    assert_eq!(normalize("./a"), Some("a".to_owned()));
    assert_eq!(normalize("a/.."), Some(String::new()));
    assert_eq!(normalize(".."), None);
    assert_eq!(normalize("/a"), None);
}

#[test]
fn same_path_compares_components() {
    assert!(same_path("a//b/", "a/b"));
    assert!(same_path("a/./b", "a/b"));
    assert!(!same_path("a/../b", "b"));
    assert!(!same_path("/a", "a"));
}

#[test]
fn normalizing_twice_changes_nothing() {
    for path in ["a/./b/../c.md", "x//y/", "./a/b", "a/.."] {
        let once = normalize(path).unwrap();
        assert_eq!(normalize(&once), Some(once.clone()), "{path}");
    }
}

#[test]
fn the_heading_part_never_changes_the_note() {
    let paths = note_paths(&["notes/Topic.md", "notes/Start.md"]);
    let plain = resolve_path("notes/Start.md", "Topic", &paths).ok();
    assert_eq!(resolve_path("notes/Start.md", "Topic#One", &paths).ok(), plain);
    assert_eq!(resolve_path("notes/Start.md", " Topic # Two ", &paths).ok(), plain);
}

#[test]
fn links_under_the_cursor_only_in_notes() {
    let text = "see [[Topic#Part|label]] now";
    assert_eq!(link_at("a.md", text, 6).map(|l| l.target), Some("Topic#Part".to_owned()));
    assert_eq!(link_at("a.txt", text, 6), None);
    assert_eq!(link_at("a.md", text, 2), None);
}

#[test]
fn link_targets_lead_to_headings_or_the_start() {
    let note = "intro\n\n## Part two\n";
    assert_eq!(link_target_offset("Topic", note), Some(0));
    assert_eq!(link_target_offset("Topic#", note), Some(0));
    assert_eq!(link_target_offset("Topic#Part two", note), Some(7));
    assert_eq!(link_target_offset("Topic#part-two", note), Some(7));
    assert_eq!(link_target_offset("Topic#Missing", note), None);
}

#[test]
fn normalizing_refuses_to_climb_above_the_start() {
    assert_eq!(normalize("a/../../b.md"), None);
    assert_eq!(normalize("a/../b/../c.md"), Some("c.md".to_owned()));
    assert_eq!(normalize("a/b/../../c/../d.md"), Some("d.md".to_owned()));
}
