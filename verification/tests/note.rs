use kb_core::note::{parse_timestamp, slugify, timestamp_from_filename, Note};

fn note(raw: &str, name: &str) -> Note {
    Note::parse(raw, name, "home", name)
}

#[test]
fn prefers_the_frontmatter_title() {
    let n = note("---\ntitle: From frontmatter\n---\n# From heading\n", "file.md");
    assert_eq!(n.title, "From frontmatter");
    assert!(n.has_frontmatter);
}

#[test]
fn falls_back_to_the_first_heading() {
    let n = note("# From heading\n\ntext\n", "file.md");
    assert_eq!(n.title, "From heading");
    assert!(!n.has_frontmatter);
}

#[test]
fn takes_a_heading_of_any_level() {
    assert_eq!(note("## Second level\n\ntext\n", "f.md").title, "Second level");
    assert_eq!(note("#### Fourth level\n", "f.md").title, "Fourth level");
}

#[test]
fn takes_the_first_line_of_prose_when_there_is_no_heading() {
    let n = note("my first memo from nvim\n\nmore text\n", "20260108203523.md");
    assert_eq!(n.title, "my first memo from nvim");
}

#[test]
fn strips_list_and_quote_markers() {
    assert_eq!(note("- a bullet point\n", "f.md").title, "a bullet point");
    assert_eq!(note("> a quotation\n", "f.md").title, "a quotation");
    assert_eq!(note("## closed atx ##\n", "f.md").title, "closed atx");
}

#[test]
fn skips_horizontal_rules() {
    assert_eq!(note("---\n\n***\n\nreal content\n", "f.md").title, "real content");
}

#[test]
fn condenses_a_long_opening_line_at_the_first_sentence() {
    let raw = "burio.com apps/web の SNS アイコンを自前 SVG コンポーネント化した。\
               SocialLink 型を LucideIcon 固定から汎用化したことで依存を切れた。\
               さらに長く続く本文がここにある。";
    let n = note(raw, "20260421224448.md");
    assert_eq!(n.title, "burio.com apps/web の SNS アイコンを自前 SVG コンポーネント化した");
}

#[test]
fn breaks_on_an_ascii_colon_only_when_a_space_follows() {
    let raw = format!("cameraman.8122.jp Upload 納品の調査: 原因は {}", "詳細".repeat(60));
    let n = note(&raw, "20260608120623.md");
    assert_eq!(n.title, "cameraman.8122.jp Upload 納品の調査");
}

#[test]
fn truncates_when_a_long_line_has_no_sentence_break() {
    let n = note(&"x".repeat(200), "20260108203523.md");
    assert_eq!(n.title.chars().count(), 81);
    assert!(n.title.ends_with('…'));
}

#[test]
fn falls_back_to_the_filename_when_there_is_no_content() {
    assert_eq!(note("\n\n", "20260108203523.md").title, "20260108203523");
}

#[test]
fn ignores_headings_inside_code_fences() {
    let n = note("```sh\n# not a title\n```\n\n# real title\n", "file.md");
    assert_eq!(n.title, "real title");
}

#[test]
fn an_empty_frontmatter_title_falls_through() {
    let n = note("---\ntitle: \"\"\n---\n# real title\n", "file.md");
    assert_eq!(n.title, "real title");
}

#[test]
fn reads_timestamps_from_nb_filenames() {
    let ts = timestamp_from_filename("20260108203523.md").expect("timestamp");
    assert_eq!(ts.date, "2026-01-08");
    assert!(ts.iso.contains("T20:35:23"), "{}", ts.iso);
}

#[test]
fn reads_a_date_prefix() {
    let ts = timestamp_from_filename("20260720-tanstack-review.md").expect("date");
    assert_eq!(ts.date, "2026-07-20");
    assert!(ts.iso.contains("T00:00:00"), "{}", ts.iso);
}

#[test]
fn rejects_names_that_only_look_like_dates() {
    assert!(timestamp_from_filename("kebab-case-note.md").is_none());
    assert!(timestamp_from_filename("8122-partner-audit.md").is_none());
    assert!(timestamp_from_filename("202601082035231.md").is_none());
    assert!(timestamp_from_filename("20261332203523.md").is_none());
}

#[test]
fn parses_the_timestamp_forms_frontmatter_may_carry() {
    assert!(parse_timestamp("2026-04-20T13:34:09+09:00").is_some());
    assert!(parse_timestamp("2026-04-20T13:34:09").is_some());
    assert!(parse_timestamp("2026-04-20").is_some());
    assert!(parse_timestamp("not a date").is_none());
    assert!(parse_timestamp("").is_none());
}

#[test]
fn slugifies_titles() {
    assert_eq!(slugify("Hello World"), "hello-world");
    assert_eq!(slugify("nb: 遅い理由"), "nb-遅い理由");
    assert_eq!(slugify("Cloudflare で RAG を構築する"), "cloudflare-で-rag-を構築する");
    assert_eq!(slugify("  spaced  out  "), "spaced-out");
    assert_eq!(slugify("!!!"), "untitled");
}

#[test]
fn a_date_prefix_needs_a_break_and_the_day_must_exist() {
    assert!(timestamp_from_filename("20260720abc.md").is_none());
    assert!(timestamp_from_filename("20260230.md").is_none());
    assert_eq!(timestamp_from_filename("20240229_leap.md").unwrap().date, "2024-02-29");
}

#[test]
fn tags_and_sort_keys_come_from_frontmatter() {
    let n = note(
        "---\ntags: [Nix, rust]\ncreated: 2026-01-01T00:00:00+00:00\n---\nbody\n",
        "a.md",
    );
    assert!(n.has_tag("nix"));
    assert!(!n.has_tag("go"));
    assert!(n.updated.is_none());
    assert_eq!(n.sort_key().unwrap().seconds, n.created.as_ref().unwrap().seconds);
}

#[test]
fn civil_dates_and_times_always_read() {
    let day = parse_timestamp(" 2024-01-02 ").expect("a date");
    assert_eq!(day.date, "2024-01-02");
    assert_eq!(day.compact, "20240102000000");
    let moment = parse_timestamp("2024-01-02T03:04:05").expect("a datetime");
    assert_eq!(moment.compact, "20240102030405");
    assert!(moment.seconds > day.seconds);
    assert!(parse_timestamp("not a date").is_none());
    assert!(parse_timestamp("   ").is_none());
}

#[test]
fn a_parsed_time_lies_within_a_zone_of_its_fields() {
    // 2024-01-02T03:04:05 read as UTC.
    let naive: i64 = 1_704_164_645;
    let t = parse_timestamp("  2024-01-02T03:04:05 ").expect("datetime");
    assert!((t.seconds - naive).abs() <= 93_600);
    let z = parse_timestamp("2024-01-02T03:04:05+09:00[+09:00]").expect("zoned");
    assert_eq!(z.seconds, naive - 9 * 3600);
    let d = parse_timestamp("2024-01-02").expect("date");
    assert!((d.seconds - 1_704_153_600).abs() <= 93_600);
    let f = timestamp_from_filename("20240102030405.md").expect("filename");
    assert!((f.seconds - naive).abs() <= 93_600);
    assert_eq!(f.compact.len(), 14);
}
