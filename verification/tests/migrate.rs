use kb_core::frontmatter::Document;
use kb_core::git::FileHistory;
use kb_core::migrate::{derive_tags, plan_note, plan_with, Plan};
use kb_core::note::{parse_timestamp, Note};
use kb_core::workspace::Notebook;

fn notebook() -> Notebook {
    Notebook {
        name: "home".into(),
        root: "/nb/home".into(),
    }
}

fn plan_for(raw: &str, rel: &str) -> Option<Plan> {
    let path = format!("/nb/home/{rel}");
    plan_note(raw, &path, &notebook(), rel, None)
}

#[test]
fn adds_a_block_to_a_bare_note() {
    let plan = plan_for("# Alpha\n\nbody\n", "knowledge/alpha.md").expect("plan");
    assert!(plan.creates_block);
    assert_eq!(
        plan.contents,
        "---\ntitle: Alpha\ntags: [knowledge]\n---\n\n# Alpha\n\nbody\n"
    );
}

#[test]
fn keeps_the_body_untouched() {
    let body = "# Alpha\n\nprose with --- a rule\n\n```\ncode\n```\n";
    let plan = plan_for(body, "knowledge/alpha.md").expect("plan");
    assert!(plan.contents.ends_with(body));
}

#[test]
fn fills_only_the_missing_keys() {
    let raw = "---\ntitle: Kept\nstatus: draft\n---\n# Heading\n";
    let plan = plan_for(raw, "knowledge/a.md").expect("plan");
    assert!(!plan.creates_block);
    let keys: Vec<&str> = plan.added.iter().map(|(k, _)| k.as_str()).collect();
    assert_eq!(keys, vec!["tags"]);
    assert_eq!(
        plan.contents,
        "---\ntitle: Kept\nstatus: draft\ntags: [knowledge]\n---\n# Heading\n"
    );
}

#[test]
fn a_complete_note_needs_no_change() {
    let raw = "---\ntitle: T\ntags: [x]\ncreated: 2026-01-01\nupdated: 2026-01-02\n---\nbody";
    assert!(plan_for(raw, "knowledge/a.md").is_none());
}

#[test]
fn takes_created_from_an_nb_filename() {
    let plan = plan_for("no heading", "knowledge/20260108203523.md").expect("plan");
    let created = plan
        .added
        .iter()
        .find(|(k, _)| k == "created")
        .expect("created");
    assert!(created.1.starts_with("2026-01-08T20:35:23"));
}

#[test]
fn prefers_git_history_for_updated() {
    let rel = "knowledge/20260108203523.md";
    let path = format!("/nb/home/{rel}");
    let history = FileHistory {
        created: parse_timestamp("2026-02-01T00:00:00+09:00").unwrap(),
        updated: parse_timestamp("2026-07-17T09:12:44+09:00").unwrap(),
    };
    let plan = plan_note("body", &path, &notebook(), rel, Some(&history)).expect("plan");
    let get = |key: &str| {
        plan.added
            .iter()
            .find(|(k, _)| k == key)
            .map(|(_, v)| v.clone())
            .unwrap()
    };
    assert!(get("created").starts_with("2026-01-08T20:35:23"));
    assert!(get("updated").starts_with("2026-07-17T09:12:44"));
}

#[test]
fn migrate_a_note_at_the_root_gets_no_tags() {
    let plan = plan_for("# A\n", "loose.md").expect("plan");
    let tags = plan.added.iter().find(|(k, _)| k == "tags").expect("tags");
    assert_eq!(tags.1, "[]");
}

#[test]
fn nested_notes_are_tagged_by_their_top_directory() {
    let plan = plan_for("# A\n", "knowledge/deep/nested/a.md").expect("plan");
    let tags = plan.added.iter().find(|(k, _)| k == "tags").expect("tags");
    assert_eq!(tags.1, "[knowledge]");
}

#[test]
fn generated_frontmatter_parses_back() {
    let body = "# nb: 遅い理由\n\nbody\n";
    let plan = plan_for(body, "knowledge/20260108203523.md").expect("plan");
    let note = Note::parse(
        &plan.contents,
        "/nb/home/knowledge/20260108203523.md",
        "home",
        "knowledge/20260108203523.md",
    );
    assert_eq!(note.title, "nb: 遅い理由");
    assert_eq!(note.tags, vec!["knowledge"]);
    assert_eq!(&note.created.expect("created").iso[..19], "2026-01-08T20:35:23");
    assert!(note.has_frontmatter);
    assert_eq!(
        Document::split(&plan.contents).body.trim_start_matches('\n'),
        body
    );
}

#[test]
fn migration_is_idempotent() {
    let first = plan_for("# Alpha\n\nbody\n", "knowledge/20260108203523.md").expect("plan");
    assert!(plan_for(&first.contents, "knowledge/20260108203523.md").is_none());
}

#[test]
fn quotes_a_title_that_yaml_would_misread() {
    let plan = plan_for("# nb: 遅い理由\n", "knowledge/a.md").expect("plan");
    let title = plan
        .added
        .iter()
        .find(|(k, _)| k == "title")
        .expect("title");
    assert_eq!(title.1, "\"nb: 遅い理由\"");
}

#[test]
fn tags_come_from_the_top_directory() {
    assert_eq!(derive_tags("knowledge/deep/a.md"), vec!["knowledge"]);
    assert!(derive_tags("loose.md").is_empty());
    assert_eq!(derive_tags("/abs/a.md"), vec!["/"]);
    assert_eq!(derive_tags("../up/a.md"), vec![".."]);
}

#[test]
fn lines_land_above_the_closing_delimiter() {
    let raw = "\u{feff}---\r\ntitle: T\r\n---\r\n\r\nbody";
    let plan = plan_with(raw, "/nb/home/a.md", &notebook(), "a.md", None, None).expect("plan");
    assert_eq!(
        plan.contents,
        "\u{feff}---\r\ntitle: T\r\ntags: []\n---\r\n\r\nbody"
    );
}

#[test]
fn leading_blank_lines_give_way_to_the_new_block() {
    let plan = plan_with("\n\nbody", "/nb/home/a.md", &notebook(), "a.md", None, None).unwrap();
    assert_eq!(plan.contents, "---\ntitle: body\ntags: []\n---\n\nbody");
}
