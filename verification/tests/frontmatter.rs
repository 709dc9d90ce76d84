use kb_core::frontmatter::{render_block, touch_updated, yaml_scalar, yaml_tags, Document};

#[test]
fn splits_a_well_formed_block() {
    let raw = "---\ntitle: Hello\ntags: [a, b]\n---\n# Body\n";
    let doc = Document::split(raw);
    let fm = doc.frontmatter.expect("frontmatter");
    assert_eq!(fm.title.as_deref(), Some("Hello"));
    assert_eq!(fm.tags, vec!["a", "b"]);
    assert_eq!(doc.body, "# Body\n");
    assert_eq!(doc.span, Some(0..raw.find("# Body").unwrap()));
}

#[test]
fn reads_block_sequence_tags() {
    let raw = "---\ntags:\n  - one\n  - two\n---\nbody";
    let fm = Document::split(raw).frontmatter.expect("frontmatter");
    assert_eq!(fm.tags, vec!["one", "two"]);
}

#[test]
fn reads_a_bare_scalar_tag() {
    let raw = "---\ntags: solo\n---\nbody";
    let fm = Document::split(raw).frontmatter.expect("frontmatter");
    assert_eq!(fm.tags, vec!["solo"]);
}

#[test]
fn records_every_top_level_key() {
    let raw = "---\ntitle: T\nstatus: draft\ndescription: d\n---\nbody";
    let fm = Document::split(raw).frontmatter.expect("frontmatter");
    assert!(fm.has("status"));
    assert!(fm.has("description"));
    assert!(!fm.has("tags"));
}

#[test]
fn a_note_without_frontmatter_is_all_body() {
    let raw = "# Just a heading\n\ntext\n";
    let doc = Document::split(raw);
    assert!(doc.frontmatter.is_none());
    assert_eq!(doc.body, raw);
}

#[test]
fn a_leading_horizontal_rule_is_not_frontmatter() {
    let raw = "---\n\nthis is prose, not a mapping\n---\n";
    let doc = Document::split(raw);
    assert!(doc.frontmatter.is_none());
    assert_eq!(doc.body, raw);
}

#[test]
fn an_unterminated_block_is_not_frontmatter() {
    let raw = "---\ntitle: T\n\nbody without a closing delimiter\n";
    let doc = Document::split(raw);
    assert!(doc.frontmatter.is_none());
    assert_eq!(doc.body, raw);
}

#[test]
fn handles_crlf_and_a_bom() {
    let raw = "\u{feff}---\r\ntitle: T\r\n---\r\nbody";
    let doc = Document::split(raw);
    let fm = doc.frontmatter.expect("frontmatter");
    assert_eq!(fm.title.as_deref(), Some("T"));
    assert_eq!(doc.body, "body");
}

#[test]
fn quotes_only_what_yaml_would_misread() {
    assert_eq!(
        yaml_scalar("Cloudflare で RAG を構築する"),
        "Cloudflare で RAG を構築する"
    );
    assert_eq!(yaml_scalar("nb: 遅い"), "\"nb: 遅い\"");
    assert_eq!(yaml_scalar("- leading dash"), "\"- leading dash\"");
    assert_eq!(yaml_scalar("true"), "\"true\"");
    assert_eq!(yaml_scalar("20260108"), "\"20260108\"");
    assert_eq!(yaml_scalar(""), "\"\"");
    assert_eq!(yaml_scalar("say \"hi\""), "say \"hi\"");
    assert_eq!(yaml_scalar("\"quoted\""), "\"\\\"quoted\\\"\"");
}

#[test]
fn quotes_every_spelling_of_a_float() {
    for value in ["1.5", ".5", "1.", "1e5", "-2E-3", "+inf", "NaN", "Infinity"] {
        assert_eq!(yaml_scalar(value), format!("\"{value}\""), "{value}");
    }
    for value in ["1.2.3", "e5", ".", "1e", "v1.0", "infinite"] {
        assert_eq!(yaml_scalar(value), value, "{value}");
    }
}

#[test]
fn touching_updates_only_that_line() {
    let raw = "---\ntitle: T\ntags: [a]\ncreated: 2026-01-01T00:00:00+09:00\nupdated: 2026-01-01T00:00:00+09:00\n---\n\n# Body\n";
    let touched = touch_updated(raw, "2026-07-29T13:30:00+09:00");

    assert!(touched.contains("updated: 2026-07-29T13:30:00+09:00"));
    assert!(touched.contains("created: 2026-01-01T00:00:00+09:00"));
    assert!(touched.ends_with("\n# Body\n"));
    assert_eq!(touched.lines().count(), raw.lines().count());
}

#[test]
fn touching_a_note_without_frontmatter_changes_nothing() {
    let raw = "# Just a heading\n\nbody\n";
    assert_eq!(touch_updated(raw, "2026-07-29T13:30:00+09:00"), raw);
}

#[test]
fn touching_without_an_updated_key_changes_nothing() {
    let raw = "---\ntitle: T\n---\n\nbody\n";
    assert_eq!(touch_updated(raw, "2026-07-29T13:30:00+09:00"), raw);
}

#[test]
fn touching_keeps_the_indent() {
    let raw = "---\n  updated: old\n---\nbody";
    assert_eq!(touch_updated(raw, "new"), "---\n  updated: new\n---\nbody");
}

#[test]
fn a_rendered_block_carries_its_type_and_parses_back() {
    let raw = format!(
        "{}\nbody\n",
        render_block("Bookmark", "T", &["bookmark".into()], "2026-08-17T16:00:00+09:00")
    );
    assert!(raw.starts_with("---\ntype: Bookmark\n"), "{raw}");

    let doc = Document::split(&raw);
    let fm = doc.frontmatter.expect("frontmatter");
    assert!(fm.has("type"));
    assert_eq!(fm.title.as_deref(), Some("T"));
    assert_eq!(fm.tags, vec!["bookmark"]);
    assert_eq!(doc.body, "\nbody\n");
}

#[test]
fn renders_tags_inline() {
    assert_eq!(yaml_tags(&["knowledge".into()]), "[knowledge]");
    assert_eq!(yaml_tags(&["a".into(), "b".into()]), "[a, b]");
    assert_eq!(yaml_tags(&[]), "[]");
}

#[test]
fn numbers_and_booleans_read_as_text() {
    let raw = "---\ntitle: 42\ntags: [1, true, {a: b}]\nupdated: false\n---\n";
    let fm = Document::split(raw).frontmatter.expect("frontmatter");
    assert_eq!(fm.title.as_deref(), Some("42"));
    assert_eq!(fm.tags, vec!["1", "true"]);
    assert_eq!(fm.updated.as_deref(), Some("false"));
}

#[test]
fn touching_keeps_crlf_line_endings() {
    let raw = "---\r\nupdated: 1\r\ntitle: T\r\n---\r\nbody";
    assert_eq!(touch_updated(raw, "S"), "---\r\nupdated: S\r\ntitle: T\r\n---\r\nbody");
}

#[test]
fn the_span_is_a_byte_range() {
    let raw = "\u{feff}---\ntitle: 日本語\n---\nbody é";
    let doc = Document::split(raw);
    let span = doc.span.clone().expect("span");
    assert_eq!(span.start, 3);
    assert_eq!(span.end, raw.find("body").unwrap());
    assert!(raw[span.start..].starts_with("---"));
    assert_eq!(&raw[span.end..], doc.body);
}

#[test]
fn quotes_hex_octal_and_binary_numbers() {
    assert_eq!(yaml_scalar("0x1F"), "\"0x1F\"");
    assert_eq!(yaml_scalar("0o17"), "\"0o17\"");
    assert_eq!(yaml_scalar("+0b101"), "\"+0b101\"");
    assert_eq!(yaml_scalar("0xZZ"), "0xZZ");
    assert_eq!(yaml_scalar("0x"), "0x");
}
