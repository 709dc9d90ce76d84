use kb_core::create::{candidate, contents, stem, target_dir, NewNote};
use kb_core::note::{parse_timestamp, Note, Stamp};

/// Create `spec` under `root` the way the binary does, with `taken` standing
/// for the files already there; returns the path and the text written.
fn create(root: &str, spec: &NewNote, now: &Stamp, taken: &[String]) -> (String, String) {
    let dir = target_dir(root, spec);
    let stem = stem(spec, now);
    let mut n = 1;
    let path = loop {
        let path = candidate(&dir, &stem, spec.extension.as_deref(), n);
        if !taken.contains(&path) {
            break path;
        }
        n += 1;
    };
    let raw = contents(spec, &path, &now.iso);
    (path, raw)
}

fn now() -> Stamp {
    parse_timestamp("2026-07-29T12:57:42+09:00").unwrap()
}

fn read(path: &str, raw: &str) -> Note {
    Note::parse(raw, path, "home", path)
}

#[test]
fn writes_a_note_that_parses_back() {
    let spec = NewNote::new("Cloudflare で RAG を構築する", "knowledge");
    let (path, raw) = create("/nb", &spec, &now(), &[]);
    assert_eq!(path, "/nb/knowledge/cloudflare_で_rag_を構築する.md");
    let note = read(&path, &raw);
    assert_eq!(note.title, "Cloudflare で RAG を構築する");
    assert_eq!(note.tags, vec!["knowledge"]);
    assert!(note.created.is_some());
    assert!(note.has_frontmatter);
}

#[test]
fn never_overwrites_an_existing_note() {
    let spec = NewNote::new("Same Title", "knowledge");
    let (first, _) = create("/nb", &spec, &now(), &[]);
    let (second, _) = create("/nb", &spec, &now(), &[first.clone()]);
    assert_ne!(first, second);
    assert!(second.ends_with("same_title-2.md"));
}

#[test]
fn writes_a_supplied_body_verbatim() {
    let spec = NewNote {
        body: Some("## 背景\n\n本文がここにある。\n".into()),
        ..NewNote::new("記録", "knowledge")
    };
    let (path, raw) = create("/nb", &spec, &now(), &[]);
    assert!(raw.ends_with("## 背景\n\n本文がここにある。\n"));
    assert!(!raw.contains("# 記録\n"));
    assert_eq!(read(&path, &raw).title, "記録");
}

#[test]
fn an_empty_body_falls_back_to_a_heading() {
    let spec = NewNote {
        body: Some("   \n".into()),
        ..NewNote::new("見出しだけ", "knowledge")
    };
    let (_, raw) = create("/nb", &spec, &now(), &[]);
    assert!(raw.ends_with("# 見出しだけ\n"));
}

#[test]
fn an_untitled_note_is_named_for_the_time() {
    let spec = NewNote {
        body: Some("content only".into()),
        ..NewNote::untitled("knowledge")
    };
    let (path, raw) = create("/nb", &spec, &now(), &[]);
    assert_eq!(path, "/nb/knowledge/20260729125742.md");
    assert!(raw.ends_with("content only\n"));
    assert!(!raw.contains("# "));
    assert_eq!(read(&path, &raw).title, "content only");
}

#[test]
fn an_explicit_filename_wins_over_the_title() {
    let spec = NewNote {
        filename: Some("chosen.md".into()),
        ..NewNote::new("Ignored", "knowledge")
    };
    let (path, raw) = create("/nb", &spec, &now(), &[]);
    assert_eq!(path, "/nb/knowledge/chosen.md");
    assert_eq!(read(&path, &raw).title, "Ignored");
}

#[test]
fn a_type_sets_the_extension() {
    let spec = NewNote {
        extension: Some("org".into()),
        ..NewNote::new("Notes", "knowledge")
    };
    let (path, _) = create("/nb", &spec, &now(), &[]);
    assert_eq!(path, "/nb/knowledge/notes.org");
}

#[test]
fn explicit_tags_win_over_the_directory() {
    let spec = NewNote {
        tags: vec!["nix".into()],
        ..NewNote::new("T", "knowledge")
    };
    let (path, raw) = create("/nb", &spec, &now(), &[]);
    assert_eq!(read(&path, &raw).tags, vec!["nix"]);
}

#[test]
fn a_note_at_the_root_gets_no_tags() {
    let (path, raw) = create("/nb", &NewNote::new("T", ""), &now(), &[]);
    assert_eq!(path, "/nb/t.md");
    assert!(read(&path, &raw).tags.is_empty());
}

#[test]
fn quotes_a_title_yaml_would_misread() {
    let (path, raw) = create("/nb", &NewNote::new("nb: 遅い理由", "knowledge"), &now(), &[]);
    assert!(raw.contains("title: \"nb: 遅い理由\""));
    assert_eq!(Note::parse(&raw, &path, "home", "x.md").title, "nb: 遅い理由");
}

#[test]
fn the_folder_tag_is_the_top_level_folder_and_dots_are_dropped_from_types() {
    let spec = NewNote::new("T", "/knowledge/deep/");
    assert_eq!(spec.effective_tags(), vec!["knowledge"]);
    assert_eq!(target_dir("/nb", &spec), "/nb/knowledge/deep");
    assert_eq!(candidate("/nb", "t", Some("..org"), 3), "/nb/t-3.org");
    assert_eq!(candidate("/nb", "t", None, 1), "/nb/t.md");
}
