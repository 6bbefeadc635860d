use zednotes_links::pdf::is_pdf;

#[test]
fn recognizes_single_file_worktrees() {
    assert!(is_pdf(None, Some("/documents/report.PDF")));
    assert!(!is_pdf(None, Some("/documents/report.txt")));
}

#[test]
fn recognizes_pdf_extensions_only() {
    assert!(is_pdf(Some("pdf"), None));
    assert!(is_pdf(Some("PDF"), None));
    assert!(!is_pdf(Some("pdf.bak"), None));
    assert!(!is_pdf(None, None));
}

#[test]
fn the_given_extension_wins_over_the_path() {
    assert!(!is_pdf(Some("txt"), Some("/a/b.pdf")));
    assert!(!is_pdf(None, Some("/a/.pdf")));
    assert!(is_pdf(None, Some("b.Pdf")));
}
