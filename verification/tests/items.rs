use kb_core::index::Index;
use kb_core::items::{already_exists_message, beside, count, destination, list_dir, rename_to_title};

fn names(list: &[&str]) -> Vec<String> {
    list.iter().map(|n| n.to_string()).collect()
}

#[test]
fn deleting_retires_the_id_but_leaves_later_ones_alone() {
    let mut index = Index::parse("a.md\nb.md\nc.md\n");
    assert_eq!(index.remove("b.md"), Some(2));
    assert_eq!(index.name_of(2), None);
    assert_eq!(index.name_of(3), Some("c.md"));
}

#[test]
fn renaming_within_a_directory_keeps_the_id() {
    let mut index = Index::parse("a.md\n");
    let moved = destination("/d/a.md", "/d/renamed.md", false).unwrap();
    assert_eq!(moved, "/d/renamed.md");
    assert_eq!(index.rename("a.md", "renamed.md"), Some(1));
    assert_eq!(index.name_of(1), Some("renamed.md"));
}

#[test]
fn moving_across_directories_reissues_the_id() {
    let mut source = Index::parse("a.md\nkeep.md\n");
    let mut target = Index::parse("existing.md\n");
    source.remove("a.md");
    target.add("a.md");
    assert_eq!(source.name_of(1), None);
    assert_eq!(target.name_of(2), Some("a.md"));
}

#[test]
fn moving_into_a_directory_keeps_the_filename() {
    assert_eq!(destination("/d/a.md", "/d/folder", true).unwrap(), "/d/folder/a.md");
}

#[test]
fn moving_onto_an_existing_file_is_refused() {
    assert_eq!(already_exists_message("/d/b.md"), "already exists: /d/b.md");
}

#[test]
fn copying_gives_the_copy_its_own_id() {
    let mut index = Index::parse("a.md\n");
    let copied = beside("/d", "/d/a.md", 2);
    assert_eq!(copied, "/d/a-2.md");
    index.add("a-2.md");
    assert_eq!(index.name_of(1), Some("a.md"));
    assert_eq!(index.name_of(2), Some("a-2.md"));
}

#[test]
fn renaming_to_the_title_uses_nb_filename_rules() {
    assert_eq!(
        rename_to_title("/d/20260108203523.md", "日本語UIライティング - 句点のルール"),
        "日本語uiライティング_-_句点のルール.md"
    );
}

#[test]
fn creating_a_folder_indexes_it() {
    let mut index = Index::parse("a.md\n");
    index.add("notes");
    assert_eq!(index.name_of(2), Some("notes"));
}

#[test]
fn counting_skips_dotfiles() {
    assert_eq!(count(&names(&["a.md", ".index", "b.md"])), 2);
}

#[test]
fn listing_sorts_and_reconciling_adds_what_is_missing() {
    let listed = list_dir(&names(&["c.md", ".git", "a.md", "b"]));
    assert_eq!(listed, names(&["a.md", "b", "c.md"]));
    let mut index = Index::parse("c.md\n\nx.md\n");
    assert!(index.reconcile(&listed));
    assert_eq!(index.render(), "c.md\n\nx.md\na.md\nb\n");
    assert!(!index.reconcile(&listed));
    assert_eq!(index.missing(&listed), vec![(3, "x.md".to_string())]);
}
