use kb_core::selector::{describe, find_by_name, Resolved, Selector, Target};

fn sel(input: &str) -> Selector {
    Selector::parse(input)
}

#[test]
fn parses_a_bare_id() {
    let s = sel("3");
    assert_eq!(s.notebook, None);
    assert!(s.folder.is_empty());
    assert_eq!(s.target, Some(Target::Id(3)));
}

#[test]
fn parses_a_notebook_scope() {
    let s = sel("home:3");
    assert_eq!(s.notebook.as_deref(), Some("home"));
    assert_eq!(s.target, Some(Target::Id(3)));
}

#[test]
fn parses_a_folder_path() {
    let s = sel("home:knowledge/3");
    assert_eq!(s.notebook.as_deref(), Some("home"));
    assert_eq!(s.folder, vec!["knowledge"]);
    assert_eq!(s.target, Some(Target::Id(3)));
}

#[test]
fn parses_nested_folders() {
    let s = sel("work:a/b/c/12");
    assert_eq!(s.folder, vec!["a", "b", "c"]);
    assert_eq!(s.target, Some(Target::Id(12)));
}

#[test]
fn a_trailing_slash_means_folder_only() {
    let s = sel("work:knowledge/");
    assert_eq!(s.notebook.as_deref(), Some("work"));
    assert_eq!(s.folder, vec!["knowledge"]);
    assert_eq!(s.target, None);
}

#[test]
fn a_notebook_alone_has_no_target() {
    let s = sel("home:");
    assert!(s.is_notebook_only());
    assert_eq!(s.target, None);
}

#[test]
fn a_filename_is_a_name_not_an_id() {
    assert_eq!(sel("note.md").target, Some(Target::Name("note.md".into())));
    assert_eq!(
        sel("20260108203523.md").target,
        Some(Target::Name("20260108203523.md".into()))
    );
}

#[test]
fn a_title_with_spaces_survives_parsing() {
    assert_eq!(sel("My Note Title").target, Some(Target::Name("My Note Title".into())));
}

#[test]
fn a_url_is_not_a_notebook_scope() {
    let s = sel("https://example.com/page");
    assert_eq!(s.notebook, None);
    assert_eq!(s.target, Some(Target::Name("page".into())));
}

#[test]
fn an_empty_selector_targets_nothing() {
    let s = sel("");
    assert_eq!(s, Selector::empty());
    assert!(!s.is_notebook_only());
}

#[test]
fn describe_round_trips() {
    for input in ["home:3", "home:knowledge/3", "work:a/b/12", "note.md"] {
        assert_eq!(describe(&sel(input)), input);
    }
}

#[test]
fn a_number_too_large_for_an_id_is_a_name() {
    let s = sel("99999999999999999999999");
    assert_eq!(s.target, Some(Target::Name("99999999999999999999999".into())));
    assert_eq!(sel("+7").target, Some(Target::Id(7)));
}

#[test]
fn the_folder_path_joins_components() {
    assert_eq!(sel("home:a/b/c").folder_path(), "a/b");
    assert_eq!(sel("home:a/b/").folder_path(), "a/b");
    assert_eq!(sel("3").folder_path(), "");
}

#[test]
fn resolved_items_report_their_path() {
    let note = Resolved::Note { path: "/nb/home/a.md".into(), id: Some(1) };
    let notebook = Resolved::Notebook { name: "home".into(), root: "/nb/home".into() };
    assert_eq!(note.path(), "/nb/home/a.md");
    assert!(note.is_note());
    assert_eq!(notebook.path(), "/nb/home");
    assert!(!notebook.is_note());
}

#[test]
fn names_match_files_then_titles() {
    let entries = vec!["alpha.md".to_string(), "alpha".to_string(), "b.md".to_string()];
    let titles = vec![
        ("alpha.md".to_string(), "First".to_string()),
        ("b.md".to_string(), "Second Note".to_string()),
    ];
    assert_eq!(find_by_name(&entries, &titles, "alpha"), Some("alpha".to_string()));
    assert_eq!(find_by_name(&entries, &titles, "b"), Some("b.md".to_string()));
    assert_eq!(find_by_name(&entries, &titles, "First"), Some("alpha.md".to_string()));
    assert_eq!(find_by_name(&entries, &titles, "second note"), Some("b.md".to_string()));
    assert_eq!(find_by_name(&entries, &titles, "nothing"), None);
}

#[test]
fn describe_keeps_folders_and_a_name_target() {
    for input in ["work:a/b/meeting notes.md", "archive/2024/", "home:", "home:knowledge/"] {
        assert_eq!(describe(&sel(input)), input);
    }
}

#[test]
fn describe_prints_an_id_the_way_numbers_print() {
    assert_eq!(describe(&sel("007")), "7");
    assert_eq!(describe(&sel("a//b/3")), "a/b/3");
    assert_eq!(describe(&sel("https://example.com/x")), "https:/example.com/x");
}
