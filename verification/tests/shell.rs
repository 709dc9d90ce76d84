use kb_core::shell::{
    browse_directory, confirmed, editor, fzf_args, launch, launch_with_args, open_externally,
    page, password_check, picked,
};

#[test]
fn the_editor_follows_the_order_of_precedence() {
    assert_eq!(editor(Some("nano"), Some("code"), None, None, None, None), "nano");
    assert_eq!(editor(None, Some("  "), Some("emacs"), Some("vim"), None, None), "emacs");
    assert_eq!(editor(None, None, None, Some("vim"), Some("ed"), None), "vim");
    assert_eq!(editor(None, None, None, None, None, Some("kak")), "kak");
    assert_eq!(editor(None, None, None, None, None, None), "vi");
}

#[test]
fn programs_run_through_the_shell() {
    assert_eq!(
        launch("code -w", "/nb/a.md"),
        vec!["sh", "-c", "code -w  \"$1\"", "sh", "/nb/a.md"]
    );
    assert_eq!(
        launch_with_args("glow", &vec!["-p".to_string()], "/nb/a.md"),
        vec!["sh", "-c", "glow -p \"$1\"", "sh", "/nb/a.md"]
    );
}

#[test]
fn pages_markdown_with_glow_when_it_can() {
    assert_eq!(page("/nb/a.md", true, true, None)[2], "glow -p \"$1\"");
    assert_eq!(page("/nb/a.txt", true, true, None)[2], "bat --style=plain \"$1\"");
    assert_eq!(page("/nb/a.txt", false, false, Some("most"))[2], "most  \"$1\"");
    assert_eq!(page("/nb/a.txt", false, false, None)[2], "less  \"$1\"");
}

#[test]
fn browses_with_the_first_browser_found() {
    assert_eq!(
        browse_directory("/nb", &vec![false, false, true, true, false, false])[2],
        "vifm  \"$1\""
    );
    assert_eq!(browse_directory("/nb", &vec![])[2], "ls  \"$1\"");
    assert_eq!(open_externally("/nb/a.md", false, true, false, false, None)[2], "xdg-open  \"$1\"");
    assert_eq!(open_externally("/nb/a.md", true, false, false, true, None)[2], "bat --style=plain \"$1\"");
}

#[test]
fn reads_answers_and_passwords() {
    assert!(confirmed(" YES\n"));
    assert!(confirmed("y"));
    assert!(!confirmed("no"));
    assert!(!confirmed(""));
    assert_eq!(password_check("s3cret", Some("s3cret")), Ok("s3cret".to_string()));
    assert_eq!(
        password_check("a", Some("b")),
        Err("passwords did not match".to_string())
    );
    assert_eq!(password_check("", None), Err("empty password".to_string()));
}

#[test]
fn reads_back_the_picked_path() {
    assert_eq!(
        picked("/nb/home/a.md\thome/a.md  A\n"),
        Some("/nb/home/a.md".to_string())
    );
    assert_eq!(picked("  \n"), None);
    let args = fzf_args(false, Some("rust"));
    assert_eq!(args[5], "cat {1}");
    assert_eq!(&args[8..], &["--query".to_string(), "rust".to_string()]);
}
