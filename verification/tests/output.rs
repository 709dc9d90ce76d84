use kb_core::note::Note;
use kb_core::output::{display_width, qualified_path, render_hits, render_notes, truncate, Style};
use kb_core::search::{Hit, MatchLine};
use kb_core::theme::Theme;

fn note(title: &str, rel: &str) -> Note {
    Note {
        path: format!("/nb/home/{rel}"),
        notebook: "home".into(),
        rel_path: rel.into(),
        title: title.into(),
        tags: vec![],
        created: None,
        updated: None,
        has_frontmatter: false,
    }
}

#[test]
fn qualifies_paths_with_the_notebook() {
    assert_eq!(qualified_path(&note("T", "knowledge/a.md")), "home/knowledge/a.md");
}

#[test]
fn lists_without_ansi_when_styling_is_off() {
    let rendered = render_notes(&[note("Title", "knowledge/a.md")], Style::plain());
    assert!(!rendered.contains('\u{1b}'));
    assert!(rendered.contains("home/knowledge/a.md"));
    assert!(rendered.contains("Title"));
}

#[test]
fn omits_a_title_that_merely_repeats_the_filename() {
    let hit = Hit {
        note: note("alpha", "knowledge/alpha.md"),
        matches: vec![],
        match_count: 0,
        title_match: true,
    };
    let rendered = render_hits(&[hit], Style::plain());
    assert_eq!(rendered.trim(), "home/knowledge/alpha.md");
}

#[test]
fn reports_matches_beyond_the_shown_ones() {
    let hit = Hit {
        note: note("T", "a.md"),
        matches: vec![MatchLine { line: 1, text: "x".into() }],
        match_count: 4,
        title_match: false,
    };
    assert!(render_hits(&[hit], Style::plain()).contains("3 more match"));
}

#[test]
fn the_theme_decides_the_colours() {
    let ocean = Theme::by_name("ocean").unwrap();
    let style = Style::themed(ocean);
    assert_eq!(style.path("x"), "\u{1b}[38;5;75mx\u{1b}[0m");
    assert_eq!(style.line_number("1"), "\u{1b}[38;5;26m1\u{1b}[0m");
    let rendered = render_notes(&[note("Title", "knowledge/a.md")], style);
    assert!(rendered.contains("\u{1b}[38;5;75m"), "{rendered:?}");
}

#[test]
fn styling_off_emits_no_escapes_whatever_the_theme() {
    let rendered = render_notes(&[note("Title", "knowledge/a.md")], Style::plain());
    assert!(!rendered.contains('\u{1b}'));
}

#[test]
fn counts_cjk_as_double_width() {
    assert_eq!(display_width("abc"), 3);
    assert_eq!(display_width("日本語"), 6);
    assert_eq!(display_width("a日"), 3);
}

#[test]
fn a_listing_row_is_date_path_padding_title() {
    let rows = render_notes(&[note("T", "a.md"), note("U", "bb.md")], Style::plain());
    assert_eq!(
        rows,
        "──────────  home/a.md   T\n──────────  home/bb.md  U\n"
    );
}

#[test]
fn a_search_listing_separates_hits_and_numbers_lines() {
    let hit = |title: &str, rel: &str| Hit {
        note: note(title, rel),
        matches: vec![MatchLine { line: 3, text: "found".into() }],
        match_count: 1,
        title_match: false,
    };
    assert_eq!(
        render_hits(&[hit("Title", "a.md"), hit("b", "b.md")], Style::plain()),
        "home/a.md — Title\n  3: found\n\nhome/b.md\n  3: found\n"
    );
}

#[test]
fn truncation_marks_the_cut() {
    assert_eq!(truncate("abcdef", 3), "abc…");
    assert_eq!(truncate("abc", 3), "abc");
    let styled = Style::detect(true, Some(""), Theme::by_name("nb").unwrap());
    assert!(styled.enabled);
    assert!(!Style::detect(true, Some("1"), Theme::by_name("nb").unwrap()).enabled);
    assert!(!Style::detect(false, None, Theme::by_name("nb").unwrap()).enabled);
}
