use kb_core::render::{escape, linkify, to_html, url_decode, url_encode, LinkBase};

fn base() -> LinkBase {
    LinkBase::new("//localhost:6789", "home")
}

#[test]
fn wiki_links_become_internal_links() {
    let html = to_html("See [[1]] here.", &base());
    assert!(html.contains(r#"href="//localhost:6789/home:1""#), "{html}");
    assert!(html.contains("[[1]]</a>"), "{html}");
}

#[test]
fn a_scoped_wiki_link_keeps_its_notebook() {
    let html = to_html("[[work:knowledge/3]]", &base());
    assert!(
        html.contains("href=\"//localhost:6789/work:knowledge/3\""),
        "{html}"
    );
}

#[test]
fn tags_become_search_links() {
    let html = to_html("See #mytag here.", &base());
    assert!(html.contains("--query=%23mytag"), "{html}");
    assert!(html.contains(">#mytag</a>"), "{html}");
}

#[test]
fn a_heading_is_not_a_tag() {
    let html = to_html("# Heading\n\nbody", &base());
    assert!(html.contains("<h1>Heading</h1>"), "{html}");
    assert!(!html.contains("--query"), "{html}");
}

#[test]
fn code_is_left_alone() {
    let markdown = "```sh\n# not a heading\ngrep #tag [[1]]\n```";
    let linked = linkify(markdown, &base());
    assert_eq!(linked.trim_end(), markdown);
}

#[test]
fn inline_code_is_left_alone() {
    let linked = linkify("use `#tag` and `[[1]]` literally", &base());
    assert_eq!(linked.trim_end(), "use `#tag` and `[[1]]` literally");
}

#[test]
fn a_hash_inside_a_word_is_not_a_tag() {
    let linked = linkify("issue-#12 and C#", &base());
    assert!(!linked.contains("--query"), "{linked}");
}

#[test]
fn an_unclosed_wiki_link_is_left_as_text() {
    let linked = linkify("[[unclosed", &base());
    assert_eq!(linked.trim_end(), "[[unclosed");
}

#[test]
fn urls_round_trip() {
    assert_eq!(url_encode("home:1"), "home:1");
    assert_eq!(url_encode("#tag"), "%23tag");
    assert_eq!(url_encode("a b"), "a%20b");
    assert_eq!(url_decode("%23tag"), "#tag");
    assert_eq!(url_decode("a+b"), "a b");
    assert_eq!(url_decode(&url_encode("日本語 #tag")), "日本語 #tag");
    assert_eq!(url_decode("100%"), "100%");
}

#[test]
fn escapes_html() {
    assert_eq!(
        escape("<a href=\"x\">&</a>"),
        "&lt;a href=&quot;x&quot;&gt;&amp;&lt;/a&gt;"
    );
}

#[test]
fn renders_tables_and_task_lists() {
    let html = to_html("| a | b |\n| - | - |\n| 1 | 2 |", &base());
    assert!(html.contains("<table>"), "{html}");
    let html = to_html("- [x] done\n- [ ] open", &base());
    assert!(html.contains("type=\"checkbox\""), "{html}");
}

#[test]
fn linkify_writes_the_exact_links() {
    assert_eq!(
        linkify("See [[ 1 ]] and #a-b_c.", &base()),
        "See [\\[\\[1\\]\\]](//localhost:6789/home:1) and [#a-b_c](//localhost:6789/home:?--query=%23a-b_c)."
    );
}

#[test]
fn an_empty_wiki_link_stays_text() {
    assert_eq!(linkify("x [[  ]] y", &base()), "x [[  ]] y");
}

#[test]
fn a_leading_tag_on_an_indented_line_is_not_linked() {
    assert_eq!(linkify("  #tag", &base()), "  #tag");
}

#[test]
fn a_trailing_newline_is_kept_only_when_present() {
    assert_eq!(linkify("a\n", &base()), "a\n");
    assert_eq!(linkify("a", &base()), "a");
    assert_eq!(linkify("", &base()), "");
}

#[test]
fn percent_escapes_are_upper_case_and_plus_signed_pairs_decode() {
    assert_eq!(url_encode("é"), "%C3%A9");
    assert_eq!(url_decode("%c3%a9"), "é");
    assert_eq!(url_decode("%+9"), "\t");
    assert_eq!(url_decode("%zz"), "%zz");
}

#[test]
fn a_stray_percent_before_other_text_is_kept() {
    assert_eq!(url_decode("%41é"), "Aé");
    assert_eq!(url_decode("%aé"), "%aé");
    assert_eq!(url_decode("%日本"), "%日本");
}
