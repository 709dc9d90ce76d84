use kb_core::settings::{env_key, kb_env_key, nbrc_path, parse, rc_path, resolve_name, settings_source, Settings};

fn value_of(values: &[(String, String)], name: &str) -> Option<String> {
    values.iter().find(|(n, _)| n == name).map(|(_, v)| v.clone())
}

#[test]
fn reads_the_nbrc_format_nb_writes() {
    let raw = "\
#!/usr/bin/env bash
# comment

export NB_DEFAULT_EXTENSION=\"${NB_DEFAULT_EXTENSION:-org}\" # Set by `nb` • Wed Jul 29 13:33:44 JST 2026

export NB_LIMIT=\"${NB_LIMIT:-30}\" # Set by `nb` • Wed Jul 29 13:33:45 JST 2026
";
    let values = parse(raw);
    assert_eq!(value_of(&values, "default_extension").as_deref(), Some("org"));
    assert_eq!(value_of(&values, "limit").as_deref(), Some("30"));
}

#[test]
fn reads_a_plain_export_too() {
    let values = parse("export NB_EDITOR=\"nvim\"\nexport NB_LIMIT=20\n");
    assert_eq!(value_of(&values, "editor").as_deref(), Some("nvim"));
    assert_eq!(value_of(&values, "limit").as_deref(), Some("20"));
}

#[test]
fn round_trips_through_the_file() {
    let mut settings = Settings::load("/kb/.nbrc", None);
    settings.set("default_extension", "org").unwrap();
    settings.set("limit", "30").unwrap();

    let written = settings.contents();
    assert!(written.contains(r#"export NB_DEFAULT_EXTENSION="${NB_DEFAULT_EXTENSION:-org}""#));

    let reloaded = Settings::load("/kb/.nbrc", Some(&written));
    assert_eq!(reloaded.get("default_extension", None, None).as_deref(), Some("org"));
    assert_eq!(reloaded.get("limit", None, None).as_deref(), Some("30"));
}

#[test]
fn unsetting_removes_the_line() {
    let mut settings = Settings::load("/kb/.nbrc", None);
    settings.set("editor", "nvim").unwrap();
    settings.unset("editor").unwrap();
    let reloaded = Settings::load("/kb/.nbrc", Some(&settings.contents()));
    assert_eq!(reloaded.get("editor", None, None), None);
    assert!(!settings.contents().contains("NB_EDITOR"));
}

#[test]
fn settings_resolve_by_name_or_number() {
    assert_eq!(resolve_name("5").unwrap(), "default_extension");
    assert_eq!(resolve_name("default_extension").unwrap(), "default_extension");
    assert_eq!(resolve_name("NB_DEFAULT_EXTENSION").unwrap(), "default_extension");
    assert!(resolve_name("99").is_err());
    assert!(resolve_name("not_a_setting").is_err());
}

#[test]
fn an_unknown_setting_is_refused() {
    let mut settings = Settings::load("/kb/.nbrc", None);
    assert!(settings.set("nonsense", "x").is_err());
    assert!(settings.entries().is_empty());
}

#[test]
fn the_environment_wins_over_the_file() {
    let settings = Settings::load("/kb/.nbrc", Some("export NB_EDITOR=vim\n"));
    assert_eq!(settings.get("editor", None, Some("nano")).as_deref(), Some("nano"));
    assert_eq!(settings.get("editor", Some(""), Some("")).as_deref(), Some("vim"));
    assert_eq!(settings.get("EDITOR", None, None).as_deref(), Some("vim"));
}

#[test]
fn error_messages_name_the_problem() {
    assert_eq!(resolve_name("0").unwrap_err(), "no setting numbered 0");
    assert_eq!(
        resolve_name("bogus").unwrap_err(),
        "unknown setting `bogus` (known: auto_sync, color_primary, color_secondary, color_theme, \
         default_extension, editor, encryption_tool, footer, header, limit, nb_dir, syntax_theme)"
    );
    assert_eq!(resolve_name("+12").unwrap(), "syntax_theme");
}

#[test]
fn entries_come_in_name_order_and_later_lines_win() {
    let settings = Settings::load(
        "/kb/.nbrc",
        Some("export NB_LIMIT=1\nexport NB_EDITOR=vi\nexport NB_LIMIT=2\nexport OTHER=3\n"),
    );
    assert_eq!(
        settings.entries(),
        vec![
            ("editor".to_string(), "vi".to_string()),
            ("limit".to_string(), "2".to_string())
        ]
    );
}

#[test]
fn keys_and_paths() {
    assert_eq!(env_key(" nb_Color_Theme "), "NB_COLOR_THEME");
    assert_eq!(rc_path("/home/me", None), "/home/me/.kbrc");
    assert_eq!(rc_path("/home/me", Some("")), "/home/me/.kbrc");
    assert_eq!(rc_path("/home/me", Some("/etc/kbrc")), "/etc/kbrc");
    assert_eq!(nbrc_path("/home/me", None), "/home/me/.nbrc");
    assert_eq!(nbrc_path("/home/me", Some("/etc/nbrc")), "/etc/nbrc");
    assert_eq!(settings_source(None, Some("nb".to_string())), Some("nb".to_string()));
    assert_eq!(settings_source(Some("kb".to_string()), Some("nb".to_string())), Some("kb".to_string()));
    assert_eq!(Settings::load("/x/.nbrc", None).path(), "/x/.nbrc");
}

#[test]
fn the_file_starts_with_the_header() {
    let settings = Settings::load("/kb/.nbrc", None);
    assert!(settings.contents().starts_with("#!/usr/bin/env bash\n"));
    assert!(settings.contents().ends_with("###\n"));
}

#[test]
fn kb_variables_win_over_nb_ones() {
    let settings = Settings::load("/kb/.nbrc", None);
    assert_eq!(kb_env_key("encryption_tool"), "KB_ENCRYPTION_TOOL");
    assert_eq!(settings.get("encryption_tool", Some("gpg"), None).as_deref(), Some("gpg"));
    assert_eq!(settings.get("encryption_tool", Some("gpg"), Some("openssl")).as_deref(), Some("gpg"));
    assert_eq!(settings.get("encryption_tool", Some(""), Some("openssl")).as_deref(), Some("openssl"));
}

#[test]
fn nb_dir_is_a_setting_of_its_own() {
    assert_eq!(resolve_name("nb_dir"), Ok("nb_dir".to_string()));
    assert_eq!(resolve_name("11"), Ok("nb_dir".to_string()));
    assert_eq!(resolve_name("NB_EDITOR"), Ok("editor".to_string()));
    assert_eq!(env_key("nb_dir"), "NB_NB_DIR");
    let mut settings = Settings::load("/kb/.nbrc", None);
    settings.set("nb_dir", "/notes").unwrap();
    let reloaded = Settings::load("/kb/.nbrc", Some(&settings.contents()));
    assert_eq!(reloaded.get("nb_dir", None, None).as_deref(), Some("/notes"));
}
