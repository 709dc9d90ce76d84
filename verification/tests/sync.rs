use kb_core::git::StagedChange;
use kb_core::sync::{commit_plan, committed_paths, describe, is_markdown, stage_args};

fn change(status: char, path: &str) -> StagedChange {
    StagedChange {
        status,
        path: path.to_string(),
    }
}

#[test]
fn names_a_single_file() {
    assert_eq!(
        describe(&vec![change('A', "knowledge/a.md")]),
        "Add knowledge/a.md"
    );
    assert_eq!(
        describe(&vec![change('M', "knowledge/a.md")]),
        "Update knowledge/a.md"
    );
}

#[test]
fn counts_a_batch() {
    let staged = vec![change('A', "a.md"), change('A', "b.md")];
    assert_eq!(describe(&staged), "Add 2 notes");
}

#[test]
fn a_mixed_batch_reads_as_an_update() {
    let staged = vec![change('A', "a.md"), change('M', "b.md")];
    assert_eq!(describe(&staged), "Update 2 notes");
}

#[test]
fn recognises_markdown_by_extension() {
    assert!(is_markdown("knowledge/a.md"));
    assert!(is_markdown("knowledge/a.MARKDOWN"));
    assert!(!is_markdown("knowledge/.index"));
    assert!(!is_markdown("mcp"));
    assert!(!is_markdown("a.md.bak"));
}

#[test]
fn stages_only_markdown_unless_asked() {
    assert_eq!(stage_args(false), vec!["add", "--", "*.md"]);
    assert_eq!(stage_args(true), vec!["add", "-A"]);
}

#[test]
fn refuses_foreign_changes_already_staged() {
    let staged = vec![change('A', "a.md"), change('M', "worker.js"), change('A', "ci.yml")];
    assert_eq!(
        commit_plan("home", None, false, &staged),
        Err("home has non-Markdown changes already staged (worker.js, ci.yml); commit or unstage them, or pass --all".to_string())
    );
    assert_eq!(
        commit_plan("home", None, true, &staged),
        Ok(Some("Update 3 notes".to_string()))
    );
}

#[test]
fn nothing_staged_means_no_commit() {
    assert_eq!(commit_plan("home", Some("msg"), false, &vec![]), Ok(None));
}

#[test]
fn a_given_message_wins() {
    let staged = vec![change('A', "a.md")];
    assert_eq!(
        commit_plan("home", Some("Notes"), false, &staged),
        Ok(Some("Notes".to_string()))
    );
    assert_eq!(committed_paths(&staged), vec!["a.md".to_string()]);
}
