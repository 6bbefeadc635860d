use zednotes_links::wiki_links::{
    completion_probe, completion_range, parse, split_target, NoteLinks, WikiLink,
};

#[test]
fn extracts_aliases_headings_and_unicode_with_source_ranges() {
    let source = "See [[数学#向量|vectors]] and [[folder/Note]].";
    let parsed = parse(source);
    assert_eq!(parsed.links.len(), 2);
    assert_eq!(parsed.links[0].target, "数学#向量");
    assert_eq!(
        &source[parsed.links[0].range.clone()],
        "[[数学#向量|vectors]]"
    );
    assert_eq!(parsed.links[1].target, "folder/Note");
}

#[test]
fn ignores_code_math_metadata_and_escaped_links() {
    let source = "---\ntitle: '[[metadata]]'\n---\n`[[inline]]`\n\n```md\n[[fenced]]\n```\n\n    [[indented]]\n\n$[[math]]$ and \\[[escaped]]\n\n[[real]]";
    assert_eq!(
        parse(source)
            .links
            .iter()
            .map(|link| link.target.as_str())
            .collect::<Vec<_>>(),
        vec!["real"]
    );
}

#[test]
fn headings_support_formatted_titles_and_duplicate_slugs() {
    let source = "# A **heading**\n\n# A heading\n\n# A heading-1\n\n## 数学";
    let parsed = parse(source);
    assert_eq!(parsed.heading_offset("A heading"), Some(0));
    assert_eq!(
        parsed.heading_offset("a-heading-1"),
        source.find("# A heading\n")
    );
    assert_eq!(
        parsed
            .headings
            .iter()
            .map(|heading| heading.slug.as_str())
            .collect::<Vec<_>>(),
        vec!["a-heading", "a-heading-1", "a-heading-1-1", "数学"]
    );
}

#[test]
fn completes_only_wiki_link_targets() {
    for source in ["[[", "[[folder/", "[[Note#", "See [[数学"] {
        assert!(completion_range(source, source.len()).is_some(), "{source}");
    }
    for source in ["```\n[[code", "\\[[escaped", "[[Note|alias", "[[done]]"] {
        assert!(completion_range(source, source.len()).is_none(), "{source}");
    }
    assert!(completion_range("`[[code`", 7).is_none());
    assert!(completion_range("$[[math$", 7).is_none());
}

#[test]
fn split_target_trims_both_parts_at_the_first_hash() {
    assert_eq!(split_target("  Note  "), ("Note", None));
    assert_eq!(split_target(" folder/Note # Heading # more "), ("folder/Note", Some("Heading # more")));
    assert_eq!(split_target("#Heading"), ("", Some("Heading")));
    assert_eq!(split_target(""), ("", None));
}

#[test]
fn link_at_finds_the_first_link_holding_the_offset() {
    let source = "a [[One]] b [[Two|2]]";
    let parsed = parse(source);
    assert_eq!(parsed.link_at(0), None);
    assert_eq!(parsed.link_at(2).map(|l| l.target.as_str()), Some("One"));
    assert_eq!(parsed.link_at(8).map(|l| l.target.as_str()), Some("One"));
    assert_eq!(parsed.link_at(9), None);
    assert_eq!(parsed.link_at(source.len() - 1).map(|l| l.target.as_str()), Some("Two"));
    assert_eq!(parsed.link_at(source.len()), None);
}

#[test]
fn link_at_on_hand_built_links() {
    let links = NoteLinks {
        links: vec![
            WikiLink { target: "A".to_owned(), range: 0..5 },
            WikiLink { target: "B".to_owned(), range: 3..9 },
        ],
        headings: Vec::new(),
    };
    assert_eq!(links.link_at(4).map(|l| l.target.as_str()), Some("A"));
    assert_eq!(links.link_at(5).map(|l| l.target.as_str()), Some("B"));
    assert!(links.starts_link_at(3));
    assert!(!links.starts_link_at(4));
}

#[test]
fn heading_offset_prefers_titles_then_slugs() {
    let source = "intro\n# Setup\n\n## Set up\n";
    let parsed = parse(source);
    assert_eq!(parsed.heading_offset("Set up"), source.find("## Set up"));
    assert_eq!(parsed.heading_offset("setup"), source.find("# Setup"));
    assert_eq!(parsed.heading_offset("set-up"), source.find("## Set up"));
    assert_eq!(parsed.heading_offset("missing"), None);
}

#[test]
fn parse_keeps_every_occurrence_and_trims_targets() {
    let source = "[[ A ]] [[A]]\n\n# T\n\n[[B#T]]";
    let parsed = parse(source);
    let targets: Vec<&str> = parsed.links.iter().map(|l| l.target.as_str()).collect();
    assert_eq!(targets, vec!["A", "A", "B#T"]);
    assert_eq!(parsed.headings.len(), 1);
    assert_eq!(parsed.headings[0].title, "T");
    assert_eq!(parsed.headings[0].slug, "t");
}

#[test]
fn completion_probe_closes_the_link_being_typed() {
    let (opening, probe) = completion_probe("See [[No", 8).unwrap();
    assert_eq!(opening, 4);
    assert_eq!(probe, "See [[note]]");
    let (opening, probe) = completion_probe("x\n[[a [[b]] tail", 9).unwrap();
    assert_eq!(opening, 6);
    assert_eq!(probe, "x\n[[a [[note]]]] tail");
    assert_eq!(completion_probe("[[a\nb", 5), None);
    assert_eq!(completion_probe("[[a|b", 5), None);
    assert_eq!(completion_probe("数", 1), None);
    assert_eq!(completion_probe("[[", 3), None);
}

#[test]
fn completion_range_excludes_brackets() {
    assert_eq!(completion_range("See [[数学", "See [[数学".len()), Some(6.."See [[数学".len()));
    assert_eq!(completion_range("[[Tar]]", 5), Some(2..5));
    assert_eq!(completion_range("[[Tar|label]]", 5), Some(2..5));
}
