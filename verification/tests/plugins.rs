use kb_core::plugins::{
    catalogue, directory, find, install_target, plugin_name, uninstall_target, url_plugin_file,
    Plugin,
};

#[test]
fn recognises_both_kb_and_nb_plugins() {
    assert_eq!(plugin_name("a/hello.kb-plugin").as_deref(), Some("hello"));
    assert_eq!(plugin_name("a/hello.nb-plugin").as_deref(), Some("hello"));
    assert_eq!(plugin_name("a/dark.nb-theme").as_deref(), Some("dark"));
    assert_eq!(plugin_name("a/notes.md"), None);
}

#[test]
fn themes_are_not_subcommands() {
    let theme = Plugin {
        name: "dark".into(),
        path: "dark.nb-theme".into(),
    };
    let command = Plugin {
        name: "hello".into(),
        path: "hello.nb-plugin".into(),
    };
    assert!(theme.is_theme());
    assert!(!command.is_theme());
}

#[test]
fn installs_lists_and_uninstalls() {
    let root = "/kb";
    let installed_plugin = install_target(root, "/src/hello.nb-plugin", false, false).unwrap();
    assert_eq!(installed_plugin.name, "hello");
    assert!(installed_plugin.path.starts_with(&directory(root)));
    assert_eq!(installed_plugin.path, "/kb/.plugins/hello.nb-plugin");

    let all = catalogue(&vec![installed_plugin.path.clone(), "/kb/.plugins/README".to_string()]);
    assert_eq!(all.len(), 1);
    assert_eq!(all[0].name, "hello");
    assert!(find(&all, "hello").is_some());

    assert_eq!(
        install_target(root, "/src/hello.nb-plugin", true, false),
        Err("already installed: /kb/.plugins/hello.nb-plugin (pass --force to replace)".to_string())
    );
    assert!(install_target(root, "/src/hello.nb-plugin", true, true).is_ok());

    assert_eq!(uninstall_target(&all, "hello").unwrap().name, "hello");
    assert_eq!(
        uninstall_target(&vec![], "hello"),
        Err("no plugin named `hello`".to_string())
    );
}

#[test]
fn refuses_a_file_that_is_not_a_plugin() {
    assert_eq!(
        install_target("/kb", "/src/notes.md", false, false),
        Err("/src/notes.md is not a plugin (expected one of: .kb-plugin, .nb-plugin, .kb-theme, .nb-theme)".to_string())
    );
}

#[test]
fn no_plugins_directory_means_no_plugins() {
    let all = catalogue(&vec![]);
    assert!(all.is_empty());
    assert!(find(&all, "anything").is_none());
}

#[test]
fn lists_plugins_by_name() {
    let all = catalogue(&vec![
        "/kb/.plugins/zeta.kb-plugin".to_string(),
        "/kb/.plugins/alpha.nb-plugin".to_string(),
        "/kb/.plugins/mid.kb-theme".to_string(),
    ]);
    let names: Vec<&str> = all.iter().map(|p| p.name.as_str()).collect();
    assert_eq!(names, vec!["alpha", "mid", "zeta"]);
    assert!(find(&all, "mid").is_none());
}

#[test]
fn names_a_download_after_its_url() {
    assert_eq!(
        url_plugin_file("https://example.com/p/greet.nb-plugin?raw=1#x"),
        Ok("greet.nb-plugin".to_string())
    );
    assert_eq!(
        url_plugin_file("https://example.com/p/readme.txt"),
        Err("readme.txt is not a plugin filename (expected one of: .kb-plugin, .nb-plugin, .kb-theme, .nb-theme)".to_string())
    );
    assert_eq!(
        url_plugin_file("///"),
        Err("cannot tell the filename from that URL".to_string())
    );
}
