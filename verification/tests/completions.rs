use zednotes_links::completions::{completions_for_target, note_link_completions};
use zednotes_links::note_links::NotePaths;

fn note_paths(paths: &[&str]) -> NotePaths {
    let mut set = NotePaths::new();
    for path in paths {
        set.insert((*path).to_owned());
    }
    set
}

fn vault() -> NotePaths {
    note_paths(&["Source.md", "Target.md", "a/Duplicate.md", "b/Duplicate.md"])
}

#[test]
fn wiki_link_completion_preserves_delimiters_aliases_and_headings() {
    let paths = vault();
    for (text, offset, expected) in [
        ("[[Tar", 5, "[[Target]]"),
        ("[[Tar]]", 5, "[[Target]]"),
        ("[[Tar|label]]", 5, "[[Target|label]]"),
        ("[[Tar#Heading]]", 5, "[[Target#Heading]]"),
        ("[[Tar\nnext line", 5, "[[Target]]\nnext line"),
    ] {
        let response = note_link_completions("Source.md", text, offset, &paths).unwrap();
        let completion = response
            .items
            .iter()
            .find(|completion| completion.target == "Target")
            .unwrap();
        let mut edited = text.to_owned();
        edited.replace_range(response.replace_range.clone(), &completion.new_text);
        assert_eq!(edited, expected);
    }
    let response = note_link_completions("Source.md", "[[", 2, &paths).unwrap();
    let duplicates: Vec<_> = response
        .items
        .iter()
        .filter(|completion| completion.target.contains("Duplicate"))
        .collect();
    assert_eq!(duplicates.len(), 2);
    assert!(duplicates.iter().all(|completion| completion.new_text.starts_with('/')));
    assert_eq!(duplicates[0].target, "/a/Duplicate.md");
}

#[test]
fn completions_are_offered_only_in_notes_and_link_targets() {
    let paths = vault();
    assert!(note_link_completions("Source.txt", "[[Tar", 5, &paths).is_none());
    assert!(note_link_completions("Source.md", "plain text", 5, &paths).is_none());
    assert!(note_link_completions("Source.md", "[[Target#He", 11, &paths).is_none());
    let all = note_link_completions("Source.md", "[[", 2, &paths).unwrap();
    assert_eq!(all.items.len(), 4);
    assert_eq!(all.replace_range, 2..2);
}

#[test]
fn completions_for_a_typed_target_replace_up_to_the_delimiter() {
    let paths = note_paths(&["x/Note.md"]);
    let text = "[[No]] rest";
    let response = completions_for_target("Start.md", text, 2, 4, &paths).unwrap();
    assert_eq!(response.replace_range, 2..4);
    assert_eq!(response.items[0].target, "Note");
    assert_eq!(response.items[0].new_text, "Note");
    let open = completions_for_target("Start.md", "[[No] rest", 2, 4, &paths).unwrap();
    assert_eq!(open.replace_range, 2..4);
    assert_eq!(open.items[0].new_text, "Note]]");
    assert!(completions_for_target("Start.md", "[[a#b", 2, 5, &paths).is_none());
}

#[test]
fn every_offered_target_leads_back_to_its_note() {
    // In path order, the order in which the completions come.
    let notes = ["Source.md", "Target.md", "a/Duplicate.md", "a/Local.md", "b/Duplicate.md", "b/Local.markdown"];
    let paths = note_paths(&notes);
    let response = note_link_completions("a/Source.md", "[[", 2, &paths).unwrap();
    assert_eq!(response.items.len(), notes.len());
    for (item, note) in response.items.iter().zip(notes) {
        let resolved = zednotes_links::note_links::resolve_path("a/Source.md", &item.target, &paths);
        assert_eq!(resolved.ok().as_deref(), Some(note), "{}", item.target);
    }
}

#[test]
fn completions_come_in_path_order_whatever_the_insertion_order() {
    let paths = note_paths(&["b/Zeta.md", "a/Beta.md", "Alpha.md", "a/Alpha.md"]);
    let response = note_link_completions("Start.md", "[[", 2, &paths).unwrap();
    let targets: Vec<&str> = response.items.iter().map(|item| item.target.as_str()).collect();
    assert_eq!(targets, vec!["Alpha", "/a/Alpha.md", "Beta", "Zeta"]);
}
