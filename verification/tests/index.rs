use kb_core::index::{index_path, Index};

#[test]
fn ids_are_line_numbers() {
    let index = Index::parse("a.md\nb.md\nc.md\n");
    assert_eq!(index.name_of(1), Some("a.md"));
    assert_eq!(index.name_of(3), Some("c.md"));
    assert_eq!(index.id_of("b.md"), Some(2));
}

#[test]
fn a_blank_line_is_a_retired_id() {
    let index = Index::parse("\nb.md\nc.md\n");
    assert_eq!(index.name_of(1), None);
    assert_eq!(index.name_of(2), Some("b.md"));
    assert_eq!(index.len(), 2);
}

#[test]
fn id_zero_never_resolves() {
    let index = Index::parse("a.md\n");
    assert_eq!(index.name_of(0), None);
    assert_eq!(index.name_of(2), None);
}

#[test]
fn removing_retires_the_id_without_shifting_others() {
    let mut index = Index::parse("a.md\nb.md\nc.md\n");
    assert_eq!(index.remove("b.md"), Some(2));
    assert_eq!(index.name_of(2), None);
    assert_eq!(index.name_of(3), Some("c.md"));
    assert_eq!(index.render(), "a.md\n\nc.md\n");
}

#[test]
fn a_new_entry_never_reuses_a_retired_id() {
    let mut index = Index::parse("a.md\nb.md\nc.md\n");
    index.remove("b.md");
    assert_eq!(index.add("d.md"), 4);
    assert_eq!(index.name_of(2), None);
}

#[test]
fn adding_an_existing_entry_keeps_its_id() {
    let mut index = Index::parse("a.md\nb.md\n");
    assert_eq!(index.add("a.md"), 1);
    assert_eq!(index.len(), 2);
}

#[test]
fn renaming_preserves_the_id() {
    let mut index = Index::parse("a.md\nb.md\n");
    assert_eq!(index.rename("a.md", "renamed.md"), Some(1));
    assert_eq!(index.name_of(1), Some("renamed.md"));
    assert_eq!(index.id_of("a.md"), None);
}

#[test]
fn round_trips_through_render() {
    let raw = "\na.md\n\nfolder\nc.md\n";
    assert_eq!(Index::parse(raw).render(), raw);
}

#[test]
fn trailing_blanks_are_dropped() {
    let index = Index::parse("a.md\n\n\n");
    assert_eq!(index.render(), "a.md\n");
}

#[test]
fn entries_list_live_ids_in_order() {
    let index = Index::parse("\na.md\n\nfolder\n");
    assert_eq!(
        index.entries(),
        vec![(2, "a.md".to_string()), (4, "folder".to_string())]
    );
    assert!(!index.is_empty());
    assert!(Index::parse("\n\n").is_empty());
}

#[test]
fn removing_the_last_entry_retires_its_id_too() {
    let mut index = Index::parse("a.md\nb.md\n");
    assert_eq!(index.remove("b.md"), Some(2));
    assert_eq!(index.render(), "a.md\n\n");
    assert_eq!(index.add("c.md"), 3);
    assert_eq!(index.name_of(2), None);
    assert_eq!(index.remove("missing.md"), None);
}

#[test]
fn lines_are_trimmed_and_crlf_is_read() {
    let index = Index::parse("  a.md  \r\nb.md\r\n");
    assert_eq!(index.name_of(1), Some("a.md"));
    assert_eq!(index.name_of(2), Some("b.md"));
}

#[test]
fn the_index_file_sits_in_its_directory() {
    assert_eq!(index_path("/nb/home"), "/nb/home/.index");
    assert_eq!(index_path("/nb/home/"), "/nb/home/.index");
    assert_eq!(index_path(""), ".index");
}

#[test]
fn reconcile_adds_only_what_is_missing() {
    let on_disk: Vec<String> = ["a.md", "b.md", ".hidden.md"].iter().map(|s| s.to_string()).collect();
    let listed = kb_core::items::list_dir(&on_disk);
    let mut index = Index::parse("a.md\n");
    assert!(index.reconcile(&listed));
    assert_eq!(index.id_of("a.md"), Some(1));
    assert_eq!(index.id_of("b.md"), Some(2));
    assert_eq!(index.id_of(".hidden.md"), None);
    assert!(!index.reconcile(&listed));
}

#[test]
fn missing_reports_entries_without_files() {
    let on_disk = vec!["a.md".to_string()];
    let index = Index::parse("a.md\ngone.md\n");
    assert_eq!(index.missing(&on_disk), vec![(2, "gone.md".to_string())]);
}

#[test]
fn each_id_names_the_trimmed_text_of_its_line() {
    let index = Index::parse("  a.md  \n\n\tc.md\n   \n");
    assert_eq!(index.name_of(1), Some("a.md"));
    assert_eq!(index.name_of(2), None);
    assert_eq!(index.name_of(3), Some("c.md"));
    assert_eq!(index.name_of(4), None);
    assert_eq!(index.len(), 2);
    assert_eq!(index.render(), "a.md\n\nc.md\n");
}
