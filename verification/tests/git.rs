use kb_core::git::{
    commit, current_branch, failure_message, history, history_args, history_entries, is_clean,
    run_raw, set_remote, staged_changes,
};

const LOG: &str = "\u{1}2026-01-08T20:35:23+09:00\n\na.md\n\u{1}2026-02-01T10:00:00+09:00\n\nb.md\n\u{1}2026-07-17T09:12:44+09:00\n\na.md\n";

#[test]
fn reads_first_and_last_change_per_file() {
    let hist = history(LOG);
    assert_eq!(hist.len(), 2);
    let a = &hist.iter().find(|(n, _)| n == "a.md").unwrap().1;
    assert_eq!(a.created.date, "2026-01-08");
    assert_eq!(a.updated.date, "2026-07-17");
    let b = &hist.iter().find(|(n, _)| n == "b.md").unwrap().1;
    assert_eq!(b.created.date, "2026-02-01");
    assert_eq!(b.updated.date, "2026-02-01");
}

#[test]
fn handles_non_ascii_filenames() {
    let log = "\u{1}2026-03-01T12:00:00+09:00\n\n日本語のノート.md\n";
    let hist = history(log);
    assert!(hist.iter().any(|(n, _)| n == "日本語のノート.md"));
    assert!(history_args().contains(&"core.quotepath=false".to_string()));
}

#[test]
fn detects_a_dirty_tree() {
    assert!(is_clean(""));
    assert!(is_clean("\n"));
    assert!(!is_clean(" M a.md\n"));
}

#[test]
fn pairs_files_with_their_commit_date() {
    let entries = history_entries("stray.md\n\u{1}D1\n\na.md\nb.md\n\u{1}D2\n\na.md\n");
    assert_eq!(
        entries,
        vec![
            ("a.md".to_string(), "D1".to_string()),
            ("b.md".to_string(), "D1".to_string()),
            ("a.md".to_string(), "D2".to_string()),
        ]
    );
}

#[test]
fn an_unreadable_date_drops_its_files() {
    let hist = history("\u{1}not a date\n\na.md\n");
    assert!(hist.is_empty());
}

#[test]
fn reads_staged_changes() {
    let staged = staged_changes("A\tknowledge/a.md\nM\tb.md\nR100\told.md\tnew.md\n\n");
    assert_eq!(staged.len(), 3);
    assert_eq!(staged[0].status, 'A');
    assert_eq!(staged[0].path, "knowledge/a.md");
    assert!(staged[0].is_addition());
    assert!(!staged[1].is_addition());
    assert_eq!(staged[2].status, 'R');
    assert_eq!(staged[2].path, "new.md");
}

#[test]
fn builds_command_lines() {
    assert_eq!(commit("Add a.md"), vec!["commit", "-m", "Add a.md"]);
    assert_eq!(set_remote("u", true), vec!["remote", "set-url", "origin", "u"]);
    assert_eq!(set_remote("u", false), vec!["remote", "add", "origin", "u"]);
    assert_eq!(
        run_raw("/nb/home", &vec!["log".to_string(), "-1".to_string()]),
        vec!["-C", "/nb/home", "log", "-1"]
    );
    assert_eq!(current_branch("main\n"), "main");
    assert_eq!(
        failure_message(&vec!["push".to_string()], "/nb/home", "denied\n"),
        "git push failed in /nb/home: denied"
    );
}
