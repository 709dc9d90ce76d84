use kb_core::todo::{
    is_done, is_pinned, is_todo, pin, pindex_contents, pinned, render, set_done,
    sort_pinned_first, task_of, unpin,
};

#[test]
fn renders_an_open_todo() {
    assert_eq!(render("買い物に行く", &[]), "# [ ] 買い物に行く\n");
}

#[test]
fn renders_tags_below_the_task() {
    assert_eq!(
        render("レビューする", &["work".into()]),
        "# [ ] レビューする\n\n## Tags\n\n#work\n"
    );
}

#[test]
fn reads_and_flips_the_checkbox() {
    let open = "# [ ] タスク\n";
    assert!(!is_done(open));
    assert_eq!(task_of(open).as_deref(), Some("タスク"));

    let done = set_done(open, true).unwrap();
    assert_eq!(done, "# [x] タスク\n");
    assert!(is_done(&done));

    assert_eq!(set_done(&done, false).unwrap(), open);
}

#[test]
fn flipping_leaves_the_rest_of_the_note_alone() {
    let raw = "# [ ] タスク\n\n## Tags\n\n#work\n";
    assert_eq!(set_done(raw, true).unwrap(), "# [x] タスク\n\n## Tags\n\n#work\n");
}

#[test]
fn an_uppercase_mark_counts_as_done() {
    assert!(is_done("# [X] done\n"));
}

#[test]
fn a_plain_note_has_no_checkbox() {
    assert_eq!(set_done("# just a heading\n", true), None);
    assert!(!is_done("# just a heading\n"));
}

#[test]
fn setting_the_state_it_already_has_changes_nothing() {
    let raw = "# [x] done\n";
    assert_eq!(set_done(raw, true).unwrap(), raw);
}

#[test]
fn recognises_todo_paths() {
    assert!(is_todo("a/20260729131756.todo.md"));
    assert!(!is_todo("a/note.md"));
}

#[test]
fn tags_are_written_once_hashed() {
    assert!(render("t", &["#a".into(), "b".into()]).ends_with("#a #b\n"));
}

#[test]
fn pinning_round_trips_in_memory() {
    let mut entries = pinned("");
    assert!(entries.is_empty());
    assert!(pin(&mut entries, "a.md"));
    assert!(pin(&mut entries, "b.md"));
    assert!(!pin(&mut entries, "a.md"));
    assert_eq!(entries, vec!["a.md", "b.md"]);
    assert!(is_pinned(&entries, "a.md"));
    assert_eq!(pindex_contents(&entries).as_deref(), Some("a.md\nb.md\n"));

    unpin(&mut entries, "a.md");
    assert_eq!(entries, vec!["b.md"]);
    unpin(&mut entries, "b.md");
    assert_eq!(pindex_contents(&entries), None);
    assert_eq!(pinned("  a.md \n\nb.md\n"), vec!["a.md", "b.md"]);
}

#[test]
fn pinned_items_sort_first() {
    let pins = vec!["c.md".to_string(), "a.md".to_string()];
    let mut paths = vec![
        "/d/a.md".to_string(),
        "/d/b.md".to_string(),
        "/d/c.md".to_string(),
        "/d/d.md".to_string(),
    ];
    sort_pinned_first(&pins, &mut paths);
    assert_eq!(paths, vec!["/d/c.md", "/d/a.md", "/d/b.md", "/d/d.md"]);
}

#[test]
fn the_pin_file_reads_back_what_was_written() {
    let names = vec!["b.md".to_string(), "a folder".to_string(), "c.todo.md".to_string()];
    let text = pindex_contents(&names).unwrap();
    assert_eq!(pinned(&text), names);
    assert_eq!(pinned(&pindex_contents(&Vec::new()).unwrap_or_default()), Vec::<String>::new());
}

#[test]
fn flipping_keeps_every_other_line_and_reads_back() {
    let raw = "---\ntitle: T\n---\n\n  # [ ]   Pay rent  \nnotes\n# [ ] second\n";
    let done = set_done(raw, true).unwrap();
    assert_eq!(done, "---\ntitle: T\n---\n\n# [x] Pay rent\nnotes\n# [ ] second\n");
    assert!(is_done(&done));
    assert_eq!(task_of(&done).as_deref(), Some("Pay rent"));
    // Doing it again changes nothing.
    assert_eq!(set_done(&done, true).unwrap(), done);
    // Without a closing newline the last line stays as it is.
    assert_eq!(set_done("# [x] a\nend", false).unwrap(), "# [ ] a\nend");
}

#[test]
fn flipping_keeps_crlf_line_endings() {
    assert_eq!(set_done("# [ ] a\r\nb\r\n", true).unwrap(), "# [x] a\r\nb\r\n");
    assert_eq!(set_done("x\r\n  # [x]  a  \r\nb", false).unwrap(), "x\r\n# [ ] a\r\nb");
}

#[test]
fn unpinning_keeps_the_other_pins_in_order() {
    let mut pins = vec!["a.md".to_string(), "b.md".to_string(), "c.md".to_string()];
    unpin(&mut pins, "b.md");
    assert_eq!(pins, vec!["a.md".to_string(), "c.md".to_string()]);
    assert!(!is_pinned(&pins, "b.md"));
    assert!(pin(&mut pins, "b.md"));
    assert!(is_pinned(&pins, "b.md"));
    assert_eq!(pins, vec!["a.md".to_string(), "c.md".to_string(), "b.md".to_string()]);
}

#[test]
fn checking_then_reading_gives_the_state_just_set() {
    let raw = "intro\n  # [ ] buy milk  \r\nrest\n";
    let checked = set_done(raw, true).unwrap();
    assert_eq!(checked, "intro\n# [x] buy milk\r\nrest\n");
    assert!(is_done(&checked));
    assert_eq!(task_of(&checked).as_deref(), Some("buy milk"));
    let unchecked = set_done(&checked, false).unwrap();
    assert!(!is_done(&unchecked));
    assert_eq!(task_of(&unchecked).as_deref(), Some("buy milk"));
    assert_eq!(set_done("no box here", true), None);
}
