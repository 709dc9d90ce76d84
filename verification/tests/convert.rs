use kb_core::convert::{is_convertible, parse_bookmarks};

#[test]
fn reads_a_netscape_bookmark_file() {
    let html = r#"
<!DOCTYPE NETSCAPE-Bookmark-file-1>
<DL><p>
    <DT><H3>Folder</H3>
    <DL><p>
        <DT><A HREF="https://example.com/a" ADD_DATE="1700000000">Example &amp; Co</A>
        <DT><A HREF="https://example.com/b">Second</A>
    </DL><p>
</DL><p>
"#;
    let bookmarks = parse_bookmarks(html);
    assert_eq!(bookmarks.len(), 2);
    assert_eq!(bookmarks[0].url, "https://example.com/a");
    assert_eq!(bookmarks[0].title, "Example & Co");
    assert_eq!(bookmarks[1].title, "Second");
}

#[test]
fn skips_entries_that_are_not_links() {
    let html = r#"<A HREF="javascript:void(0)">bookmarklet</A>
                  <A HREF="place:type=6">smart folder</A>
                  <A HREF="https://example.com">real</A>"#;
    let bookmarks = parse_bookmarks(html);
    assert_eq!(bookmarks.len(), 1);
    assert_eq!(bookmarks[0].url, "https://example.com");
}

#[test]
fn falls_back_to_the_url_when_a_title_is_empty() {
    let bookmarks = parse_bookmarks(r#"<A HREF="https://example.com"></A>"#);
    assert_eq!(bookmarks[0].title, "https://example.com");
}

#[test]
fn handles_single_quotes_and_nested_markup() {
    let bookmarks = parse_bookmarks("<A HREF='https://example.com'><B>Bold</B> title</A>");
    assert_eq!(bookmarks[0].url, "https://example.com");
    assert_eq!(bookmarks[0].title, "Bold title");
}

#[test]
fn an_empty_document_yields_nothing() {
    assert!(parse_bookmarks("").is_empty());
    assert!(parse_bookmarks("<html><body>no links</body></html>").is_empty());
}

#[test]
fn recognises_what_is_worth_converting() {
    assert!(is_convertible("a.html"));
    assert!(is_convertible("a.DOCX"));
    assert!(!is_convertible("a.md"));
    assert!(!is_convertible("a.png"));
    assert!(!is_convertible("noext"));
}

#[test]
fn reads_unquoted_attributes_and_entities() {
    let bookmarks = parse_bookmarks("<a href=https://x.org/?a=1&amp;b=2 id=1>X &lt;Y&gt;</a>");
    assert_eq!(bookmarks.len(), 1);
    assert_eq!(bookmarks[0].url, "https://x.org/?a=1&b=2");
    assert_eq!(bookmarks[0].title, "X <Y>");
}
