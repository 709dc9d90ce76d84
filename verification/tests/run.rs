use kb_core::run::shell_from_name;
use kb_core::run::add_target;
use kb_core::run::{resolve_in, selector_dir};
use kb_core::selector::Resolved;
use kb_core::index::Index;
use kb_core::cli::ShowOpts;
use kb_core::note::Note;
use kb_core::run::export_conversion;
use kb_core::run::set_todo;
use kb_core::run::settings_listing;
use kb_core::run::todo_contents;
use kb_core::run::remote_listing;
use kb_core::run::{env_check, env_tools};
use kb_core::run::{completion_dir, completion_filename, completion_shell, current_shell, Shell};
use kb_core::run::{field_value, metadata_field, Field};
use kb_core::run::{set_setting, unset_setting};
use kb_core::run::{todo_row, TodoFilter};
use kb_core::settings::Settings;
use kb_core::run::{add_positionals, folder_path_of, looks_like_path, tags, ViewMode};

#[test]
fn a_folder_option_is_a_folder_all_the_way_down() {
    assert_eq!(folder_path_of("knowledge"), "knowledge");
    assert_eq!(folder_path_of("knowledge/"), "knowledge");
    assert_eq!(folder_path_of("a/b/c"), "a/b/c");
    assert_eq!(folder_path_of("work:knowledge"), "knowledge");
    assert_eq!(folder_path_of("work:a/b"), "a/b");
    assert_eq!(folder_path_of(""), "");
}

#[test]
fn a_bare_argument_is_a_path_when_it_has_a_slash_or_an_extension() {
    assert!(looks_like_path("knowledge/"));
    assert!(looks_like_path("knowledge/noext"));
    assert!(looks_like_path("note.md"));
    assert!(!looks_like_path("content only, no extension"));
    assert!(!looks_like_path("日本語の本文"));
}

#[test]
fn positionals_split_into_filename_and_content() {
    assert_eq!(
        add_positionals(Some("a.md"), Some("body")),
        (Some("a.md".to_string()), Some("body".to_string()))
    );
    assert_eq!(
        add_positionals(Some("just words"), Some("ignored")),
        (None, Some("just words".to_string()))
    );
    assert_eq!(add_positionals(None, None), (None, None));
}

#[test]
fn only_show_lists_folders() {
    assert!(!ViewMode::Show.browses_folders());
    assert!(ViewMode::Peek.browses_folders());
    assert!(ViewMode::Open.browses_folders());
}

#[test]
fn counts_tags_most_used_first() {
    let notes = vec![
        vec!["rust".to_string(), "cli".to_string()],
        vec![],
        vec!["cli".to_string()],
        vec!["alpha".to_string(), "rust".to_string()],
        vec![],
    ];
    let (rows, untagged) = tags(&notes);
    assert_eq!(
        rows,
        vec![
            ("cli".to_string(), 2),
            ("rust".to_string(), 2),
            ("alpha".to_string(), 1)
        ]
    );
    assert_eq!(untagged, 2);
}

use kb_core::migrate::Plan;
use kb_core::output::Style;
use kb_core::plugins::Plugin;
use kb_core::run::{
    destination_path, folders, history, migrate_notes, notebooks, plugins, refuse_dirty, status,
    sync, RepoState,
};
use kb_core::workspace::Notebook;
use kb_core::selector::Selector;

#[test]
fn destinations_land_in_the_named_place() {
    let (c, inside) = destination_path("/nb/home", &Selector::parse("knowledge/b.md"), "/nb/home/a.md");
    assert_eq!(c, "/nb/home/knowledge/b.md");
    assert_eq!(inside, Some("/nb/home/knowledge/b.md/a.md".to_string()));
    let (c, inside) = destination_path("/nb/home", &Selector::parse("knowledge/"), "/nb/home/a.md");
    assert_eq!(c, "/nb/home/knowledge/a.md");
    assert_eq!(inside, None);
    let (c, _) = destination_path("/nb/home", &Selector::parse("7"), "/nb/home/a.md");
    assert_eq!(c, "/nb/home/7");
}

#[test]
fn reports_a_notebook_status() {
    let style = Style::plain();
    assert_eq!(
        status(&style, "home", "/nb/home", &None, 3),
        "home\n  not a git repository\n"
    );
    let repo = RepoState {
        branch: Some("main".into()),
        remote: None,
        dirty: true,
    };
    assert_eq!(
        status(&style, "home", "/nb/home", &Some(repo), 3),
        "home\n  path    /nb/home\n  branch  main\n  remote  (none)\n  status  uncommitted changes\n  items   3\n"
    );
}

#[test]
fn history_narrows_to_a_file() {
    assert_eq!(
        history(Some("a.md")),
        vec!["log", "--format=%h %ad %an — %s", "--date=short", "--", "a.md"]
    );
    assert_eq!(history(None).len(), 3);
}

#[test]
fn lists_folders_with_ids() {
    let index = kb_core::index::Index::parse("a.md\nknowledge\n");
    let entries = vec![
        ("misc".to_string(), true),
        ("a.md".to_string(), false),
        (".git".to_string(), true),
        ("knowledge".to_string(), true),
    ];
    assert_eq!(folders(&entries, &index), "[2] knowledge/\n[-] misc/\n");
    assert_eq!(folders(&Vec::new(), &index), "");
}

#[test]
fn summarises_a_sync() {
    assert_eq!(sync(Some("Add a.md"), true), "Add a.md — pushed");
    assert_eq!(sync(Some("Add a.md"), false), "Add a.md — committed (no upstream)");
    assert_eq!(sync(None, true), "nothing to commit — pulled and pushed");
    assert_eq!(sync(None, false), "nothing to do");
}

#[test]
fn migration_reports_and_refuses_dirt() {
    let plan = Plan {
        path: "/nb/home/a.md".into(),
        notebook: "home".into(),
        rel_path: "a.md".into(),
        added: vec![("title".into(), "A".into()), ("tags".into(), "[]".into())],
        creates_block: true,
        contents: String::new(),
    };
    let (report, closing) = migrate_notes(&Style::plain(), &vec![plan], 4, false, true);
    assert_eq!(
        report,
        "home/a.md  + title, tags\n      title: A\n      tags: []\n\n1 of 4 notes need frontmatter.\nNothing written — pass --apply to write.\n"
    );
    assert_eq!(closing, "");
    assert_eq!(
        refuse_dirty(true, false, &vec![("home".into(), false), ("work".into(), true)]),
        Some("notebook `work` has uncommitted changes; commit them first or pass --allow-dirty".to_string())
    );
    assert_eq!(refuse_dirty(true, true, &vec![("work".into(), true)]), None);
}

#[test]
fn lists_plugins_and_marks_themes() {
    let all = vec![
        Plugin { name: "dark".into(), path: "/kb/.plugins/dark.nb-theme".into() },
        Plugin { name: "hello".into(), path: "/kb/.plugins/hello.kb-plugin".into() },
    ];
    assert_eq!(plugins(&all, None, false), "dark (theme)\nhello\n");
    assert_eq!(plugins(&all, Some("hello"), true), "/kb/.plugins/hello.kb-plugin\n");
}

#[test]
fn the_notebook_listing_marks_the_current_one() {
    let listed = vec![
        Notebook { name: "home".to_string(), root: "/kb/home".to_string() },
        Notebook { name: "work".to_string(), root: "/kb/work".to_string() },
    ];
    assert_eq!(notebooks(&listed, "work", false, false), "  home\n* work\n");
    assert_eq!(notebooks(&listed, "work", false, true), "home\nwork\n");
    assert_eq!(notebooks(&listed, "work", true, true), "/kb/home\n/kb/work\n");
    assert_eq!(notebooks(&Vec::new(), "work", false, false), "");
}

#[test]
fn set_and_unset_report_what_they_did() {
    let mut settings = Settings::load("/kb/.nbrc", None);
    let plain = Style::plain();
    assert_eq!(set_setting(&mut settings, &plain, "editor", None, (None, None)), Ok("(unset)\n".to_string()));
    assert_eq!(
        set_setting(&mut settings, &plain, "editor", Some("vim"), (None, None)),
        Ok("editor = vim\n".to_string())
    );
    assert_eq!(set_setting(&mut settings, &plain, "editor", None, (None, None)), Ok("vim\n".to_string()));
    assert_eq!(
        set_setting(&mut settings, &plain, "editor", None, (None, Some("nano"))),
        Ok("nano\n".to_string())
    );
    // Settings are numbered from 1 in `settings list` order; `editor` is the sixth.
    assert_eq!(unset_setting(&mut settings, "6"), Ok("unset editor\n".to_string()));
    assert_eq!(settings.get("editor", None, None), None);
    assert!(set_setting(&mut settings, &plain, "nonsense", Some("x"), (None, None)).is_err());
    assert!(unset_setting(&mut settings, "nonsense").is_err());
    assert!(settings.entries().is_empty());
}

#[test]
fn the_settings_listing_numbers_every_known_setting() {
    let settings = Settings::load("/kb/.nbrc", Some("export NB_EDITOR=\"${NB_EDITOR:-vim}\"\n"));
    let no_env: Vec<(Option<&str>, Option<&str>)> = vec![(None, None); 12];
    let listing = settings_listing(&settings, &no_env);
    assert!(listing.starts_with("[1] auto_sync            \n[2] color_primary        \n"));
    assert!(listing.ends_with("[12] syntax_theme         \n"));
    assert_eq!(listing.lines().count(), 12);
    assert!(listing.contains("[6] editor               vim\n"));
    let mut env = no_env.clone();
    env[5] = (None, Some("nano"));
    assert!(settings_listing(&settings, &env).contains("[6] editor               nano\n"));
    env[5] = (Some("emacs"), Some("nano"));
    assert!(settings_listing(&settings, &env).contains("[6] editor               emacs\n"));
}

#[test]
fn export_converts_only_across_extensions() {
    let none: Vec<String> = Vec::new();
    // Same extension: a plain copy, whatever else holds.
    assert_eq!(export_conversion("/kb/home/a.md", "/tmp/b.md", &none, true), None);
    // A new extension with pandoc installed converts, writing to the destination.
    assert_eq!(
        export_conversion("/kb/home/a.md", "/tmp/a.html", &none, true),
        Some(vec!["--output".to_string(), "/tmp/a.html".to_string()])
    );
    // Without pandoc and without arguments, a plain copy.
    assert_eq!(export_conversion("/kb/home/a.md", "/tmp/a.html", &none, false), None);
    // Given arguments that name the output are kept as they are.
    let named = vec!["-o".to_string(), "x.pdf".to_string()];
    assert_eq!(export_conversion("/kb/home/a.md", "/tmp/a.pdf", &named, false), Some(named.clone()));
    // A destination with no extension converts only when arguments are given.
    assert_eq!(export_conversion("/kb/home/a.md", "/tmp/a", &none, true), None);
    let standalone = vec!["--standalone".to_string()];
    assert_eq!(
        export_conversion("/kb/home/a.md", "/tmp/a", &standalone, false),
        Some(vec!["--standalone".to_string(), "--output".to_string(), "/tmp/a".to_string()])
    );
}

#[test]
fn show_prints_the_first_field_asked_for() {
    let none = ShowOpts::default();
    assert_eq!(metadata_field(&none), None);
    let both = ShowOpts { title: true, filename: true, ..ShowOpts::default() };
    assert_eq!(metadata_field(&both), Some(Field::Filename));
    let last = ShowOpts { updated: true, ..ShowOpts::default() };
    assert_eq!(metadata_field(&last), Some(Field::Updated));
    assert!(Field::Title.needs_note());
    assert!(!Field::Path.needs_note());

    let note = Note {
        path: "/kb/home/ideas/a.md".to_string(),
        notebook: "home".to_string(),
        rel_path: "ideas/a.md".to_string(),
        title: "Alpha".to_string(),
        tags: Vec::new(),
        created: None,
        updated: None,
        has_frontmatter: false,
    };
    let home = Notebook { name: "home".to_string(), root: "/kb/home".to_string() };
    let path = "/kb/home/ideas/a.md";
    let get = |f: Field, id: Option<usize>, owner: Option<&Notebook>| field_value(f, path, id, owner, &note);
    assert_eq!(get(Field::Path, None, None), Ok(path.to_string()));
    assert_eq!(get(Field::Filename, None, None), Ok("a.md".to_string()));
    assert_eq!(get(Field::Id, Some(7), None), Ok("7".to_string()));
    assert_eq!(get(Field::Id, None, None), Ok(String::new()));
    assert_eq!(get(Field::RelativePath, None, Some(&home)), Ok("ideas/a.md".to_string()));
    assert_eq!(
        get(Field::RelativePath, None, None),
        Err("item is outside the knowledge base".to_string())
    );
    assert_eq!(get(Field::Kind, None, None), Ok("md".to_string()));
    assert_eq!(get(Field::Title, None, None), Ok("Alpha".to_string()));
    assert_eq!(get(Field::InfoLine, Some(3), None), Ok("[3] a.md · Alpha".to_string()));
    assert_eq!(get(Field::InfoLine, None, None), Ok("[-] a.md · Alpha".to_string()));
    assert_eq!(get(Field::Added, None, None), Ok(String::new()));
}

#[test]
fn todo_rows_follow_the_filter() {
    let open = "---\ntitle: Milk\n---\n# [ ] Buy milk\n";
    let done = "# [x] Call Bob\n";
    let plain = "Just text\n";
    assert_eq!(todo_row(open, "Milk", Some(2), TodoFilter::Open), Some("[2] [ ] Buy milk\n".to_string()));
    assert_eq!(todo_row(open, "Milk", Some(2), TodoFilter::Done), None);
    assert_eq!(todo_row(done, "Bob", None, TodoFilter::Done), Some("[-] [x] Call Bob\n".to_string()));
    assert_eq!(todo_row(done, "Bob", None, TodoFilter::Open), None);
    assert_eq!(todo_row(plain, "Plain", Some(9), TodoFilter::All), Some("[9] [ ] Plain\n".to_string()));
}

#[test]
fn doing_a_todo_ticks_its_box_and_reports_it() {
    let (updated, line) = set_todo("/kb/home/t.todo.md", "# [ ] Buy milk\n", true).unwrap();
    assert_eq!(updated, "# [x] Buy milk\n");
    assert_eq!(line, "[x] Buy milk\n");
    let (again, line) = set_todo("/kb/home/t.todo.md", &updated, false).unwrap();
    assert_eq!(again, "# [ ] Buy milk\n");
    assert_eq!(line, "[ ] Buy milk\n");
    assert_eq!(
        set_todo("/kb/home/n.md", "no box here\n", true),
        Err("/kb/home/n.md has no checkbox to change".to_string())
    );
}

#[test]
fn a_new_todo_note_is_typed_and_tagged() {
    let words = vec!["Buy".to_string(), "milk".to_string()];
    assert_eq!(
        todo_contents(&words, &Vec::new(), "2024-01-02T03:04:05+00:00"),
        "---\ntype: Todo\ntitle: Buy milk\ntags: [todo]\ncreated: 2024-01-02T03:04:05+00:00\nupdated: 2024-01-02T03:04:05+00:00\n---\n\n# [ ] Buy milk\n"
    );
    let tags = vec!["home".to_string()];
    assert_eq!(
        todo_contents(&words, &tags, "S"),
        "---\ntype: Todo\ntitle: Buy milk\ntags: [home]\ncreated: S\nupdated: S\n---\n\n# [ ] Buy milk\n\n## Tags\n\n#home\n"
    );
}

#[test]
fn completions_know_each_shell_s_file_and_place() {
    assert_eq!(current_shell(Some("/bin/zsh")), Some(Shell::Zsh));
    assert_eq!(current_shell(Some("/usr/local/bin/fish")), Some(Shell::Fish));
    assert_eq!(current_shell(Some("/bin/Zsh")), None);
    assert_eq!(current_shell(Some("/bin/tcsh")), None);
    assert_eq!(current_shell(None), None);
    assert_eq!(completion_shell(Some(Shell::Bash), Some("/bin/zsh")), Ok(Shell::Bash));
    assert_eq!(completion_shell(None, Some("/bin/zsh")), Ok(Shell::Zsh));
    assert_eq!(
        completion_shell(None, None),
        Err("cannot tell which shell to use; name one, e.g. `kb completions install zsh`".to_string())
    );
    assert_eq!(completion_filename(Shell::Zsh), "_kb");
    assert_eq!(completion_filename(Shell::Bash), "kb");
    assert_eq!(completion_filename(Shell::PowerShell), "kb.ps1");
    assert_eq!(completion_dir(Shell::Zsh, Some("/home/u"), None, None), Ok("/home/u/.zfunc".to_string()));
    assert_eq!(
        completion_dir(Shell::Bash, Some("/home/u"), None, None),
        Ok("/home/u/.local/share/bash-completion/completions".to_string())
    );
    assert_eq!(
        completion_dir(Shell::Bash, Some("/home/u"), Some("/data"), None),
        Ok("/data/bash-completion/completions".to_string())
    );
    assert_eq!(
        completion_dir(Shell::Fish, Some("/home/u"), None, Some("/cfg")),
        Ok("/cfg/fish/completions".to_string())
    );
    assert_eq!(completion_dir(Shell::Elvish, None, None, None), Err("no home directory".to_string()));
}

#[test]
fn env_check_marks_each_tool_found_or_missing() {
    let tools = env_tools();
    assert_eq!(tools.len(), 7);
    assert_eq!(tools[0], ("git", "sync, status, history"));
    let found = vec![true, false, false, false, false, false, true];
    let report = env_check(&Style::plain(), &found);
    assert!(report.starts_with("✓ git      sync, status, history\n· fzf      pick,"));
    assert!(report.ends_with("✓ gpg      encrypted notes when encryption_tool is gpg\n"));
    assert_eq!(report.lines().count(), 7);
}

#[test]
fn remote_lists_each_notebook_s_url() {
    let rows = vec![
        ("home".to_string(), Some("git@example.com:me/home.git".to_string())),
        ("work".to_string(), None),
    ];
    assert_eq!(
        remote_listing(&Style::plain(), &rows),
        "home  git@example.com:me/home.git\nwork  (none)\n"
    );
    assert_eq!(remote_listing(&Style::plain(), &Vec::new()), "");
}

#[test]
fn resolving_a_selector_inside_its_directory() {
    let nb = kb_core::workspace::Notebook { name: "home".to_string(), root: "/kb/home".to_string() };
    let index = Index::parse("a.md\nsub\n\nc.md\n");
    let entries = vec![
        ("a.md".to_string(), false),
        ("sub".to_string(), true),
        ("c.md".to_string(), false),
        (".hidden.md".to_string(), false),
    ];
    let titles = vec![("a.md".to_string(), "Alpha".to_string()), ("c.md".to_string(), "Gamma".to_string())];
    let run = |input: &str, exists: bool| {
        resolve_in(&Selector::parse(input), &nb, exists, &index, &entries, &titles)
    };
    assert_eq!(selector_dir(&Selector::parse("home:x/y/3"), &nb), "/kb/home/x/y");
    assert_eq!(run("home:", true), Ok(Resolved::Notebook { name: "home".into(), root: "/kb/home".into() }));
    assert_eq!(run("1", true), Ok(Resolved::Note { path: "/kb/home/a.md".into(), id: Some(1) }));
    assert_eq!(run("2", true), Ok(Resolved::Folder { path: "/kb/home/sub".into(), id: Some(2) }));
    assert_eq!(run("3", true), Err("not found: 3".to_string()));
    assert_eq!(run("Gamma", true), Ok(Resolved::Note { path: "/kb/home/c.md".into(), id: Some(4) }));
    assert_eq!(run(".hidden.md", true), Err("not found: .hidden.md".to_string()));
    assert_eq!(run("x/", true), Ok(Resolved::Folder { path: "/kb/home/x".into(), id: None }));
    assert_eq!(run("x/1", false), Err("not found: x/1".to_string()));
}

#[test]
fn adding_takes_notebook_folder_and_name_from_the_arguments() {
    let t = |a: Option<&str>, f: Option<&str>, n: Option<&str>| add_target(a, f, n);
    assert_eq!(
        t(Some("home:knowledge/idea.md"), None, None),
        (Some("home".to_string()), "knowledge".to_string(), Some("idea.md".to_string()))
    );
    assert_eq!(
        t(Some("knowledge/idea.md"), Some("work:notes/daily"), Some("x.md")),
        (Some("work".to_string()), "notes/daily".to_string(), Some("x.md".to_string()))
    );
    assert_eq!(t(Some("knowledge/12"), None, None), (None, "knowledge".to_string(), None));
    assert_eq!(t(None, None, None), (None, String::new(), None));
}

#[test]
fn shells_are_named_by_their_lower_case_names() {
    assert_eq!(shell_from_name("zsh"), Some(Shell::Zsh));
    assert_eq!(shell_from_name("powershell"), Some(Shell::PowerShell));
    assert_eq!(shell_from_name("tcsh"), None);
}
