use kb_core::theme::{default_theme, foreground, palette, resolve, themes, Theme};

#[test]
fn themes_match_nb() {
    assert_eq!(Theme::by_name("blacklight").unwrap().primary, 39);
    assert_eq!(Theme::by_name("blacklight").unwrap().secondary, 56);
    assert_eq!(Theme::by_name("console").unwrap().primary, 40);
    assert_eq!(Theme::by_name("desert").unwrap().secondary, 95);
    assert_eq!(Theme::by_name("electro").unwrap().primary, 200);
    assert_eq!(Theme::by_name("forest").unwrap().primary, 29);
    assert_eq!(Theme::by_name("ocean").unwrap().primary, 75);
    assert_eq!(Theme::by_name("raspberry").unwrap().secondary, 90);
    assert_eq!(Theme::by_name("smoke").unwrap().primary, 248);
    assert_eq!(Theme::by_name("unicorn").unwrap().secondary, 153);
    assert_eq!(Theme::by_name("utility").unwrap().secondary, 8);
    assert_eq!(default_theme().primary, 69);
    assert_eq!(default_theme().secondary, 8);
}

#[test]
fn unlisted_themes_still_resolve() {
    assert_eq!(Theme::by_name("lavender").unwrap().primary, 183);
    assert_eq!(Theme::by_name("mage").unwrap().primary, 199);
    assert_eq!(Theme::by_name("mint").unwrap().primary, 43);
    assert_eq!(Theme::by_name("monochrome").unwrap().primary, 248);
    assert!(!themes().iter().any(|theme| theme.name == "lavender"));
}

#[test]
fn names_are_matched_loosely() {
    assert_eq!(Theme::by_name("  OCEAN  ").unwrap().name, "ocean");
    assert!(Theme::by_name("nonexistent").is_none());
}

#[test]
fn an_unknown_theme_falls_back_to_the_default() {
    assert_eq!(resolve(Some("nonsense"), None, None), default_theme());
    assert_eq!(resolve(None, None, None), default_theme());
}

#[test]
fn explicit_colours_override_the_theme() {
    let theme = resolve(Some("ocean"), Some("196"), None);
    assert_eq!(theme.primary, 196);
    assert_eq!(theme.secondary, 26);

    let theme = resolve(Some("ocean"), None, Some("240"));
    assert_eq!(theme.primary, 75);
    assert_eq!(theme.secondary, 240);
}

#[test]
fn a_colour_that_is_not_a_number_is_ignored() {
    assert_eq!(resolve(Some("ocean"), Some("blue"), None).primary, 75);
    assert_eq!(resolve(Some("ocean"), Some("999"), None).primary, 75);
}

#[test]
fn renders_256_colour_escapes() {
    assert_eq!(foreground(75), "\u{1b}[38;5;75m");
    let palette = palette();
    assert_eq!(palette.lines().count(), 16);
    assert!(palette.contains("\u{1b}[38;5;255m"));
}

#[test]
fn the_palette_pads_numbers_to_four_columns() {
    assert!(palette().starts_with("\u{1b}[38;5;0m   0\u{1b}[0m\u{1b}[38;5;1m   1\u{1b}[0m"));
    assert!(palette().ends_with("\u{1b}[38;5;255m 255\u{1b}[0m\n"));
}

#[test]
fn eleven_themes_are_listed_in_order() {
    let names: Vec<&str> = themes().iter().map(|t| t.name).collect();
    assert_eq!(names.len(), 11);
    assert_eq!(names[0], "blacklight");
    assert_eq!(names[5], "nb");
    assert_eq!(names[10], "utility");
}

#[test]
fn a_plus_signed_colour_parses_and_whitespace_is_trimmed() {
    assert_eq!(resolve(None, Some(" +12 "), None).primary, 12);
    assert_eq!(resolve(None, None, Some("256")).secondary, 8);
}
