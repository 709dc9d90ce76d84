use kb_core::workspace::{is_markdown, Notebook, Workspace};

fn dirs(names: &[&str]) -> Vec<String> {
    names.iter().map(|n| n.to_string()).collect()
}

#[test]
fn discovers_notebooks_and_skips_hidden_directories() {
    let ws = Workspace::open("/kb", &dirs(&["work", ".cache", "home"])).unwrap();
    let names: Vec<&str> = ws.notebooks.iter().map(|nb| nb.name.as_str()).collect();
    assert_eq!(names, vec!["home", "work"]);
    assert_eq!(ws.notebooks[0].root, "/kb/home");
}

#[test]
fn an_empty_root_is_an_error() {
    assert_eq!(
        Workspace::open("/kb", &dirs(&[".git"])).unwrap_err(),
        "no notebooks found under /kb"
    );
}

#[test]
fn walks_markdown_and_ignores_everything_else() {
    assert!(is_markdown("home/a.md"));
    assert!(is_markdown("home/nested/b.markdown"));
    assert!(is_markdown("home/C.MD"));
    assert!(!is_markdown("home/notes.txt"));
    assert!(!is_markdown("home/.md"));
}

#[test]
fn selecting_an_unknown_notebook_is_an_error() {
    let ws = Workspace::open("/kb", &dirs(&["home"])).unwrap();
    assert_eq!(
        ws.select(Some("nope")).unwrap_err(),
        "unknown notebook `nope` (have: home)"
    );
    assert_eq!(ws.select(None).unwrap().len(), 1);
}

#[test]
fn use_selects_the_default_notebook() {
    let ws = Workspace::open("/kb", &dirs(&["home", "work"])).unwrap();
    let selected = ws.current(Some("work\n"));
    assert_eq!(selected.as_deref(), Some("work"));
    assert_eq!(ws.default_notebook(None, selected.as_deref(), false).unwrap().name, "work");

    assert_eq!(ws.set_current("home").unwrap(), "home\n");
    let selected = ws.current(Some("home\n"));
    assert_eq!(ws.default_notebook(None, selected.as_deref(), false).unwrap().name, "home");
    assert!(ws.set_current("nope").is_err());
}

#[test]
fn a_stale_current_falls_through_to_the_machine_default() {
    let ws = Workspace::open("/kb", &dirs(&["home"])).unwrap();
    assert_eq!(
        ws.default_notebook(None, Some("deleted-notebook"), false).unwrap().name,
        "home"
    );
}

#[test]
fn the_environment_and_the_machine_decide_before_the_first_notebook() {
    let ws = Workspace::open("/kb", &dirs(&["alpha", "home", "work"])).unwrap();
    assert_eq!(ws.default_notebook(Some("alpha"), Some("home"), true).unwrap().name, "alpha");
    assert_eq!(
        ws.default_notebook(Some("nope"), None, false).unwrap_err(),
        "$KB_NOTEBOOK names an unknown notebook `nope`"
    );
    assert_eq!(ws.default_notebook(None, None, true).unwrap().name, "work");
    let ws = Workspace::open("/kb", &dirs(&["beta", "alpha"])).unwrap();
    assert_eq!(ws.default_notebook(None, None, false).unwrap().name, "alpha");
    assert_eq!(ws.current(Some("  \n")), None);
    assert_eq!(ws.current(Some("deleted-notebook\n")), None);
    assert_eq!(ws.current(Some(" beta \n")).as_deref(), Some("beta"));
}

#[test]
fn notes_carry_their_notebook_relative_path() {
    let nb = Notebook {
        name: "home".into(),
        root: "/kb/home".into(),
    };
    assert_eq!(nb.relative("/kb/home/knowledge/deep/a.md"), "knowledge/deep/a.md");
    assert_eq!(nb.relative("/elsewhere/a.md"), "/elsewhere/a.md");
    assert_eq!(nb.relative("/kb/homework/a.md"), "/kb/homework/a.md");
}
