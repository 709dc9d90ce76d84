use kb_core::note::{parse_timestamp, Note};
use kb_core::search::{build_matcher, filter_notes, rank_hits, search_all, search_note, Hit, Query};

fn run(files: &[(&str, &str)], query: &Query) -> Vec<Hit> {
    let matcher = build_matcher(query).unwrap();
    let mut hits = Vec::new();
    for (rel, raw) in files {
        let path = format!("/kb/home/{rel}");
        if let Some(hit) = search_note(raw, &path, "home", rel, &matcher, query).unwrap() {
            hits.push(hit);
        }
    }
    rank_hits(hits, query.limit)
}

#[test]
fn finds_matches_in_the_body() {
    let hits = run(
        &[("a.md", "# Alpha\n\nnix flakes are useful\n"), ("b.md", "# Beta\n\nnothing here\n")],
        &Query::new("nix"),
    );
    assert_eq!(hits.len(), 1);
    assert_eq!(hits[0].note.title, "Alpha");
    assert_eq!(hits[0].matches[0].text, "nix flakes are useful");
    assert_eq!(hits[0].matches[0].line, 3);
}

#[test]
fn line_numbers_account_for_frontmatter() {
    let hits = run(
        &[("a.md", "---\ntitle: Alpha\ntags: [x]\n---\n# Alpha\n\ntarget line\n")],
        &Query::new("target"),
    );
    assert_eq!(hits[0].matches[0].line, 7);
}

#[test]
fn frontmatter_is_not_searched() {
    let hits = run(
        &[("a.md", "---\ntitle: Alpha\ntags: [knowledge]\n---\n\nbody text\n")],
        &Query::new("knowledge"),
    );
    assert!(hits.is_empty());
}

#[test]
fn a_title_match_counts_and_ranks_first() {
    let hits = run(
        &[
            ("a.md", "# Nix flakes\n\nunrelated body\n"),
            ("b.md", "# Other\n\nnix appears in the body\n"),
        ],
        &Query::new("nix"),
    );
    assert_eq!(hits.len(), 2);
    assert_eq!(hits[0].note.title, "Nix flakes");
    assert!(hits[0].title_match);
}

#[test]
fn smart_case_is_the_default() {
    let files = [("a.md", "# T\n\nNixOS is here\n")];
    assert_eq!(run(&files, &Query::new("nixos")).len(), 1);
    assert!(run(&files, &Query::new("NIXOS")).is_empty());
}

#[test]
fn truncates_matches_but_reports_the_full_count() {
    let query = Query {
        max_matches_per_note: Some(2),
        ..Query::new("x")
    };
    let hits = run(&[("a.md", "# T\n\nx\nx\nx\nx\nx\n")], &query);
    assert_eq!(hits[0].matches.len(), 2);
    assert_eq!(hits[0].match_count, 5);
}

#[test]
fn filters_by_tag() {
    let query = Query {
        tags: vec!["nix".into()],
        ..Query::new("term")
    };
    let hits = run(
        &[
            ("a.md", "---\ntags: [nix]\n---\n# A\n\nterm\n"),
            ("b.md", "---\ntags: [other]\n---\n# B\n\nterm\n"),
        ],
        &query,
    );
    assert_eq!(hits.len(), 1);
    assert_eq!(hits[0].note.title, "A");
}

#[test]
fn a_fixed_string_pattern_skips_regex_syntax() {
    let files = [("a.md", "# T\n\nliteral a.c here\n")];
    let query = Query {
        fixed_string: true,
        ..Query::new("a.c")
    };
    assert_eq!(run(&files, &query).len(), 1);
    let query = Query {
        fixed_string: true,
        ..Query::new("abc")
    };
    assert!(run(&files, &query).is_empty());
}

#[test]
fn listing_sorts_newest_first() {
    let old = Note::parse("---\nupdated: 2026-01-01\n---\n# Old\n", "/kb/home/old.md", "home", "old.md");
    let new = Note::parse("---\nupdated: 2026-07-01\n---\n# New\n", "/kb/home/new.md", "home", "new.md");
    let notes = filter_notes(vec![old, new], &Query::default());
    assert_eq!(notes[0].title, "New");
    assert_eq!(notes[1].title, "Old");
}

#[test]
fn an_invalid_pattern_is_reported() {
    let err = build_matcher(&Query::new("(")).unwrap_err();
    assert_eq!(err, "invalid search pattern `(`");
}

#[test]
fn since_and_limit_filter_the_listing() {
    let a = Note::parse("---\nupdated: 2026-03-01T00:00:00+00:00\n---\n# A\n", "/a.md", "home", "a.md");
    let b = Note::parse("---\nupdated: 2026-05-01T00:00:00+00:00\n---\n# B\n", "/b.md", "home", "b.md");
    let c = Note::parse("# C\n", "/c.md", "home", "c.md");
    let query = Query {
        since: parse_timestamp("2026-04-01T00:00:00+00:00"),
        ..Query::default()
    };
    let notes = filter_notes(vec![a.clone(), b.clone(), c.clone()], &query);
    assert_eq!(notes.len(), 1);
    assert_eq!(notes[0].title, "B");
    let query = Query {
        limit: Some(2),
        ..Query::default()
    };
    let titles: Vec<String> = filter_notes(vec![c, a, b], &query).into_iter().map(|n| n.title).collect();
    assert_eq!(titles, vec!["B", "A"]);
}

#[test]
fn an_unclosed_group_is_an_invalid_pattern() {
    let q = kb_core::search::Query::new("(");
    assert_eq!(
        kb_core::search::build_matcher(&q).err(),
        Some("invalid search pattern `(`".to_string())
    );
    let mut literal = kb_core::search::Query::new("(");
    literal.fixed_string = true;
    assert!(kb_core::search::build_matcher(&literal).is_ok());
}

fn docs(files: &[(&str, &str)]) -> Vec<(String, String, String, String)> {
    files
        .iter()
        .map(|(rel, raw)| (raw.to_string(), format!("/kb/home/{rel}"), "home".to_string(), rel.to_string()))
        .collect()
}

#[test]
fn searching_every_note_ranks_filters_and_limits() {
    let files = [
        ("a.md", "---\ntags: [x]\n---\n# Other\n\nnix in the body\n"),
        ("b.md", "# Nix flakes\n\nunrelated body\n"),
        ("c.md", "# Third\n\nnothing\n"),
        ("d.md", "---\ntags: [x]\n---\n# Nix too\n\nnix again\nand nix\n"),
    ];
    let mut query = Query::new("nix");
    let hits = search_all(&docs(&files), &query).unwrap();
    let titles: Vec<&str> = hits.iter().map(|h| h.note.title.as_str()).collect();
    assert_eq!(titles, vec!["Nix flakes", "Nix too", "Other"]);
    assert_eq!(hits[1].match_count, 3);
    assert_eq!(hits[1].matches[0].line, 4);
    assert_eq!(hits[1].matches[1].line, 6);

    query.tags = vec!["x".to_string()];
    let tagged = search_all(&docs(&files), &query).unwrap();
    let titles: Vec<&str> = tagged.iter().map(|h| h.note.title.as_str()).collect();
    assert_eq!(titles, vec!["Nix too", "Other"]);

    query.limit = Some(1);
    assert_eq!(search_all(&docs(&files), &query).unwrap().len(), 1);
}

#[test]
fn searching_with_a_broken_pattern_is_an_error() {
    let query = Query::new("(");
    assert!(search_all(&docs(&[("a.md", "# A\n")]), &query).is_err());
}
