use zednotes_links::markdown_links::{
    link_target_path,
    find_balanced_delimiter, has_uri_scheme, is_escaped, markdown_link_target_at,
    parse_markdown_link_destination, resolve_relative_markdown_link, unescape_markdown_destination,
};

#[test]
fn test_relative_markdown_link_resolution() {
    for (current_file, target, expected) in [
        ("/vault/current.md", "target.md", "/vault/target.md"),
        (
            "/vault/projects/current.md",
            "nested/target.md",
            "/vault/projects/nested/target.md",
        ),
        (
            "/vault/projects/current.md",
            "../target.md",
            "/vault/target.md",
        ),
    ] {
        assert_eq!(
            resolve_relative_markdown_link(current_file, target),
            Some(expected.to_owned())
        );
    }
}

#[test]
fn test_relative_markdown_link_resolution_decodes_paths_and_strips_fragments() {
    assert_eq!(
        resolve_relative_markdown_link("/vault/current.md", "project%20notes.md#details"),
        Some("/vault/project notes.md".to_owned())
    );
    assert_eq!(
        resolve_relative_markdown_link("/vault/current.md", "https://example.com"),
        None
    );
    assert_eq!(resolve_relative_markdown_link("/vault/current.md", "/absolute.md"), None);
}

#[test]
fn test_markdown_link_target_at_accepts_link_text_destination_and_title() {
    let text = r#"See [Project notes](projects/notes\ \(draft\).md "Draft") today"#;
    assert_eq!(
        markdown_link_target_at(text, text.find("Project").expect("link text should be present")),
        Some("projects/notes (draft).md".to_owned())
    );
    assert_eq!(
        markdown_link_target_at(
            text,
            text.find("notes\\").expect("link destination should be present")
        ),
        Some("projects/notes (draft).md".to_owned())
    );
    assert_eq!(
        markdown_link_target_at(text, text.find("today").expect("plain text should be present")),
        None
    );
}

#[test]
fn relative_links_refuse_schemes_climbing_and_bad_encodings() {
    assert_eq!(resolve_relative_markdown_link("/vault/a.md", "//host/x.md"), None);
    assert_eq!(resolve_relative_markdown_link("/vault/a.md", "mailto:me"), None);
    assert_eq!(resolve_relative_markdown_link("/vault/a.md", "#only-fragment"), None);
    assert_eq!(resolve_relative_markdown_link("/vault/a.md", "%FF.md"), None);
    assert_eq!(resolve_relative_markdown_link("/vault/a.md", "%2Fetc.md"), None);
    assert_eq!(resolve_relative_markdown_link("/a.md", "../../x.md"), None);
    assert_eq!(resolve_relative_markdown_link("/", "x.md"), None);
    assert_eq!(resolve_relative_markdown_link("a.md", "./x.md?raw"), Some("./x.md".to_owned()));
    assert_eq!(resolve_relative_markdown_link("/v/a.md", "b/./c/../d.md"), Some("/v/b/d.md".to_owned()));
    assert_eq!(resolve_relative_markdown_link("/v/a.md", "%41%4a%zz"), Some("/v/AJ%zz".to_owned()));
}

#[test]
fn uri_schemes_start_with_a_letter() {
    assert!(has_uri_scheme("https://example.com"));
    assert!(has_uri_scheme("a+b-c.d:x"));
    assert!(!has_uri_scheme("1http:x"));
    assert!(!has_uri_scheme(":x"));
    assert!(!has_uri_scheme("c3:x"));
    assert!(!has_uri_scheme("no-colon"));
}

#[test]
fn escapes_and_balanced_delimiters() {
    let bytes = br"a\[b\\[c";
    assert!(!is_escaped(bytes, 0));
    assert!(is_escaped(bytes, 2));
    assert!(!is_escaped(bytes, 6));
    assert_eq!(find_balanced_delimiter(b"[a[b]c]d", 0, b'[', b']'), Some(6));
    assert_eq!(find_balanced_delimiter(br"[a\]b]", 0, b'[', b']'), Some(5));
    assert_eq!(find_balanced_delimiter(b"[a[b]", 0, b'[', b']'), None);
    assert_eq!(find_balanced_delimiter(b"]", 0, b'[', b']'), None);
    assert_eq!(find_balanced_delimiter(b"[]", 5, b'[', b']'), None);
}

#[test]
fn destinations_are_read_and_unescaped() {
    assert_eq!(parse_markdown_link_destination("  <a b\\>c> \"t\""), Some("a b>c".to_owned()));
    assert_eq!(parse_markdown_link_destination("<unclosed"), None);
    assert_eq!(parse_markdown_link_destination("a(b)c d"), Some("a(b)c".to_owned()));
    assert_eq!(parse_markdown_link_destination("   "), None);
    assert_eq!(unescape_markdown_destination(r"a\\b\(c"), Some(r"a\b(c".to_owned()));
    assert_eq!(unescape_markdown_destination(r"trailing\"), None);
    assert_eq!(unescape_markdown_destination(""), None);
}

#[test]
fn link_search_skips_images_and_escaped_brackets() {
    let text = "![img](pic.png) \\[no](x.md) [yes](y.md)";
    assert_eq!(markdown_link_target_at(text, 3), None);
    assert_eq!(markdown_link_target_at(text, 18), None);
    assert_eq!(markdown_link_target_at(text, text.find("yes").unwrap()), Some("y.md".to_owned()));
    assert_eq!(markdown_link_target_at("[é](x)", 2), None);
}

#[test]
fn following_a_link_resolves_its_destination() {
    let text = "go [there](sub/a%20b.md#top) now";
    assert_eq!(link_target_path("/v/n.md", text, 5), Some("/v/sub/a b.md".to_owned()));
    assert_eq!(link_target_path("/v/n.md", text, 0), None);
    assert_eq!(link_target_path("/v/n.md", "[x](https://a.b)", 1), None);
}
