use kb_core::bookmark::{bookmark_contents, bookmark_stem, bookmark_title, BOOKMARK_EXT};
use kb_core::create::candidate;
use kb_core::bookmark::{domain_of, heading, html_title, is_bookmark, render, url_of, NewBookmark};

fn spec(url: &str) -> NewBookmark {
    NewBookmark {
        url: url.to_string(),
        ..Default::default()
    }
}

#[test]
fn renders_what_nb_renders() {
    let spec = NewBookmark {
        comment: Some("COMMENT".into()),
        quote: Some("QUOTE".into()),
        tags: vec!["a".into(), "b".into()],
        related: vec!["https://rel.example".into()],
        ..spec("https://example.com/x")
    };
    assert_eq!(
        render(&spec, "Full"),
        "# Full (example.com)\n\
         \n<https://example.com/x>\n\
         \n## Quote\n\n> QUOTE\n\
         \n## Comment\n\nCOMMENT\n\
         \n## Related\n\n- <https://rel.example>\n\
         \n## Tags\n\n#a #b\n"
    );
}

#[test]
fn a_bare_bookmark_is_just_heading_and_url() {
    assert_eq!(
        render(&spec("https://example.com"), "Example Domain"),
        "# Example Domain (example.com)\n\n<https://example.com>\n"
    );
}

#[test]
fn extracts_the_domain() {
    assert_eq!(
        domain_of("https://example.com/path").as_deref(),
        Some("example.com")
    );
    assert_eq!(
        domain_of("http://www.example.com").as_deref(),
        Some("example.com")
    );
    assert_eq!(
        domain_of("https://sub.example.com:8443/x").as_deref(),
        Some("sub.example.com")
    );
    assert_eq!(
        domain_of("https://user@example.com/x").as_deref(),
        Some("example.com")
    );
    assert_eq!(domain_of("not a url"), Some("not a url".to_string()));
}

#[test]
fn reads_the_html_title() {
    assert_eq!(
        html_title("<html><head><title>Hi</title>").as_deref(),
        Some("Hi")
    );
    assert_eq!(
        html_title("<TITLE lang=\"en\">\n  Spaced  Out\n</TITLE>").as_deref(),
        Some("Spaced Out")
    );
    assert_eq!(
        html_title("<title>A &amp; B &#39;quoted&#39;</title>").as_deref(),
        Some("A & B 'quoted'")
    );
    assert_eq!(html_title("<title></title>"), None);
    assert_eq!(html_title("<html>no title here</html>"), None);
    assert_eq!(html_title("<title>unterminated"), None);
}

#[test]
fn a_multiline_quote_is_quoted_per_line() {
    let spec = NewBookmark {
        quote: Some("one\ntwo".into()),
        ..spec("https://e.com")
    };
    assert!(render(&spec, "T").contains("> one\n> two\n"));
}

#[test]
fn a_related_selector_is_not_bracketed_like_a_url() {
    let spec = NewBookmark {
        related: vec!["home:3".into()],
        ..spec("https://e.com")
    };
    assert!(render(&spec, "T").contains("- home:3\n"));
}

#[test]
fn tags_are_not_double_hashed() {
    let spec = NewBookmark {
        tags: vec!["#a".into(), "b".into()],
        ..spec("https://e.com")
    };
    assert!(render(&spec, "T").ends_with("#a #b\n"));
}

#[test]
fn recognises_bookmark_paths() {
    assert!(is_bookmark("a/20260729131258.bookmark.md"));
    assert!(!is_bookmark("a/note.md"));
    assert!(!is_bookmark("a/bookmark.md.txt"));
}

#[test]
fn reads_the_url_back_out() {
    let rendered = render(&spec("https://example.com/x"), "T");
    assert_eq!(url_of(&rendered).as_deref(), Some("https://example.com/x"));
    assert_eq!(url_of("# just a note\n\ntext"), None);
}

#[test]
fn a_heading_without_a_host_is_the_title_alone() {
    assert_eq!(heading(&spec("https:///path"), "T"), "T");
    assert_eq!(heading(&spec("https://www.www.x.org"), "T"), "T (x.org)");
}

#[test]
fn an_uppercase_bookmark_extension_counts() {
    assert!(is_bookmark("A/NOTE.BOOKMARK.MD"));
}

#[test]
fn entities_and_blank_titles() {
    assert_eq!(html_title("<title>  &nbsp; </title>"), None);
    assert_eq!(
        html_title("<title>&lt;b&gt; &quot;x&quot; &apos;y&apos;</title>").as_deref(),
        Some("<b> \"x\" 'y'")
    );
}

#[test]
fn a_bracketed_line_without_a_scheme_is_no_url() {
    assert_eq!(url_of("<not a url>\n<https://a.b>"), None);
}

#[test]
fn a_new_bookmark_takes_its_title_stem_and_name() {
    let plain = NewBookmark { url: "https://example.com/a".to_string(), ..Default::default() };
    let page = "<html><head><title>Example &amp; Co</title></head></html>";
    assert_eq!(bookmark_title(&plain, Some(page)), "Example & Co");
    assert_eq!(bookmark_title(&plain, Some("<p>no title</p>")), "https://example.com/a");
    assert_eq!(bookmark_title(&plain, None), "https://example.com/a");
    let titled = NewBookmark { title: Some("Mine".to_string()), ..plain.clone() };
    assert_eq!(bookmark_title(&titled, Some(page)), "Mine");

    assert_eq!(bookmark_stem(Some("reading.bookmark.md"), "20240102030405"), "reading");
    assert_eq!(bookmark_stem(Some("notes.md.md"), "20240102030405"), "notes");
    assert_eq!(bookmark_stem(None, "20240102030405"), "20240102030405");

    assert_eq!(candidate("/kb/home", "reading", Some(BOOKMARK_EXT), 1), "/kb/home/reading.bookmark.md");
    assert_eq!(candidate("/kb/home", "reading", Some(BOOKMARK_EXT), 3), "/kb/home/reading-3.bookmark.md");

    let text = bookmark_contents(&plain, "Example", "S");
    assert!(text.starts_with("---\ntype: Bookmark\n"));
    assert!(text.contains("\ntags: [bookmark]\ncreated: S\nupdated: S\n---\n\n"));
    assert!(text.ends_with(&render(&plain, "Example")));
}

#[test]
fn a_new_bookmark_reads_back_its_url() {
    let full = NewBookmark {
        comment: Some("see <https://other.example>".into()),
        related: vec!["https://rel.example".into()],
        ..spec("https://example.com/page?q=1")
    };
    assert_eq!(url_of(&render(&full, "Title")).as_deref(), Some("https://example.com/page?q=1"));
    assert_eq!(
        url_of(&bookmark_contents(&full, "Title", "S")).as_deref(),
        Some("https://example.com/page?q=1")
    );
}
