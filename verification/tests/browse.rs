use kb_core::browse::{browse_path, BrowseAction};
use kb_core::browse::{
    crumbs, form_get, join_selector, note_view, page, parse_form, render_index, render_search,
    result_row, route, search_tag, NoteView, Request, Route,
};
use kb_core::note::Note;

#[test]
fn parses_a_plain_selector() {
    let request = Request::parse("/home:2");
    assert_eq!(request.selector, "home:2");
    assert!(!request.edit);
}

#[test]
fn parses_flags() {
    let request = Request::parse("/home:2?--columns=80&--edit");
    assert_eq!(request.selector, "home:2");
    assert!(request.edit);

    assert!(Request::parse("/home:?--add").add);
    assert!(Request::parse("/home:2?--delete").delete);
    assert!(Request::parse("/?--notebooks").notebooks);
}

#[test]
fn parses_a_query() {
    let request = Request::parse("/home:?--query=%23mytag");
    assert_eq!(request.query.as_deref(), Some("#mytag"));
}

#[test]
fn parses_the_original_prefix() {
    let request = Request::parse("/--original/home/linker.md");
    assert!(request.original);
    assert_eq!(request.selector, "home/linker.md");
}

#[test]
fn decodes_a_percent_encoded_selector() {
    assert_eq!(Request::parse("/home:%E6%97%A5%E6%9C%AC").selector, "home:日本");
}

#[test]
fn parses_form_bodies() {
    let fields = parse_form("title=Hello+World&content=a%3Db&tags=x%2Cy");
    assert_eq!(fields[0], ("title".into(), "Hello World".into()));
    assert_eq!(fields[1], ("content".into(), "a=b".into()));
    assert_eq!(fields[2], ("tags".into(), "x,y".into()));
    assert_eq!(form_get(&fields, "content").as_deref(), Some("a=b"));
    assert_eq!(form_get(&fields, "missing"), None);
}

#[test]
fn joins_folder_selectors() {
    assert_eq!(join_selector("home:", "a.md"), "a.md");
    assert_eq!(join_selector("home:knowledge/", "a.md"), "knowledge/a.md");
    assert_eq!(join_selector("", "a.md"), "a.md");
}

#[test]
fn a_split_percent_escape_is_kept_as_it_is() {
    assert_eq!(Request::parse("/home:%E6%97%A5").selector, "home:日");
    assert_eq!(Request::parse("/home:%aé").selector, "home:%aé");
    assert_eq!(Request::parse("/home?-q=%aé").query.as_deref(), Some("%aé"));
}

#[test]
fn routes_requests() {
    assert_eq!(route(&Request::parse("/"), false), Route::Index);
    assert_eq!(route(&Request::parse("/home:?--notebooks"), false), Route::Index);
    assert_eq!(route(&Request::parse("/home:?-q=x"), false), Route::Search);
    assert_eq!(route(&Request::parse("/home:2"), false), Route::Item);
    assert_eq!(route(&Request::parse("/home:2"), true), Route::Post);
    assert_eq!(note_view(&Request::parse("/--original/home:2?--edit")), NoteView::Original);
    assert_eq!(note_view(&Request::parse("/home:2?--edit&--delete")), NoteView::Edit);
    assert_eq!(note_view(&Request::parse("/home:2")), NoteView::Rendered);
}

#[test]
fn crumbs_link_the_notebook_and_the_item() {
    assert_eq!(crumbs(""), "<a href=\"/\">❯ kb</a>");
    let c = crumbs("home:2");
    assert!(c.contains("<a href=\"/home:\">home</a>"));
    assert!(c.contains("<a href=\"/home:2?--edit\">edit</a>"));
    assert!(c.contains("<a href=\"/home:2?--delete\">delete</a>"));
}

#[test]
fn pages_carry_title_styles_and_search_box() {
    let html = page("<T>", "<p>x</p>", "home", "crumbs");
    assert!(html.starts_with("<!DOCTYPE html>\n"));
    assert!(html.contains("<title>kb browse &lt;T&gt;</title>"));
    assert!(html.contains("action=\"/home:\""));
    assert!(html.contains("<main><p>x</p></main>"));
    assert!(html.contains("html { background:#141418;"));
}

#[test]
fn search_pages_list_each_note_once() {
    let note = |path: &str| Note::parse("# T\n", path, "home", "a.md");
    let html = render_search("#x", &vec![note("/a.md"), note("/a.md"), note("/b.md")], "home");
    assert_eq!(html.matches("<li>").count(), 2);
    assert_eq!(search_tag("#x").as_deref(), Some("x"));
    assert_eq!(search_tag("x"), None);
    assert_eq!(
        result_row(&note("/a.md")),
        "<li><a href=\"/home:a.md\">T</a> <span class=\"muted\">home</span></li>"
    );
    let index = render_index(&vec![("home".to_string(), 3)], "home");
    assert!(index.contains("<a href=\"/home:\">home</a> <span class=\"muted\">3 items</span>"));
}

#[test]
fn browse_opens_the_page_asked_for() {
    assert_eq!(browse_path(true, "home", None, None, None, Some("x")), "/?--notebooks");
    assert_eq!(browse_path(false, "home", None, None, None, None), "/home:");
    assert_eq!(browse_path(false, "home", None, None, None, Some("home:ideas/a.md")), "/home:ideas/a.md");
    assert_eq!(browse_path(false, "home", None, Some("##work"), None, None), "/home:?--query=%23work");
    assert_eq!(browse_path(false, "home", None, None, Some("two words"), None), "/home:?--query=two%20words");
    assert_eq!(browse_path(false, "home", None, None, None, Some("a b")), "/a%20b");
    assert_eq!(browse_path(false, "home", Some((BrowseAction::Add, None)), None, None, None), "/home:?--add");
    assert_eq!(
        browse_path(false, "home", Some((BrowseAction::Delete, Some("3"))), Some("t"), None, None),
        "/3?--delete"
    );
}
