use std::collections::BTreeSet;
use vault_links::db::{Database, StoreError};

fn set(v: Vec<String>) -> BTreeSet<String> {
    v.into_iter().collect()
}

fn strs(v: &[&str]) -> BTreeSet<String> {
    v.iter().map(|s| s.to_string()).collect()
}

fn targets(v: &[&str]) -> Vec<String> {
    v.iter().map(|s| s.to_string()).collect()
}

#[test]
fn empty_store_has_nothing() {
    let db = Database::init();
    assert!(db.get_all_links().is_empty());
    assert!(db.get_all_indexed_files().is_empty());
    assert!(db.get_orphaned_files().is_empty());
}

#[test]
fn second_index_replaces_edges() {
    let mut db = Database::init();
    db.index_file("/v/A.md", 10, 5, &targets(&["/v/B.md", "/v/C.md"]));
    db.index_file("/v/A.md", 11, 6, &targets(&["/v/D.md"]));
    assert_eq!(set(db.get_outgoing_links("/v/A.md")), strs(&["/v/D.md"]));
    assert_eq!(db.get_all_indexed_files(), vec![("/v/A.md".to_string(), 11)]);
}

#[test]
fn duplicate_targets_make_one_edge() {
    let mut db = Database::init();
    db.index_file("/v/A.md", 1, 1, &targets(&["/v/B.md", "/v/B.md"]));
    assert_eq!(db.get_outgoing_links("/v/A.md"), vec!["/v/B.md".to_string()]);
}

#[test]
fn unsafe_targets_are_skipped() {
    let mut db = Database::init();
    db.index_file("/v/A.md", 1, 1, &targets(&["/v/../etc/passwd", "   ", "/v/B.md"]));
    assert_eq!(db.get_outgoing_links("/v/A.md"), vec!["/v/B.md".to_string()]);
}

#[test]
fn backlinks_list_sources() {
    let mut db = Database::init();
    db.index_file("/v/A.md", 1, 1, &targets(&["/v/C.md"]));
    db.index_file("/v/B.md", 1, 1, &targets(&["/v/C.md"]));
    assert_eq!(set(db.get_backlinks("/v/C.md")), strs(&["/v/A.md", "/v/B.md"]));
    assert_eq!(db.get_all_links().len(), 2);
}

#[test]
fn delete_removes_source_edges_and_leaves_broken_backlinks() {
    let mut db = Database::init();
    db.index_file("/v/A.md", 1, 1, &targets(&["/v/B.md"]));
    db.index_file("/v/B.md", 1, 1, &targets(&["/v/A.md"]));
    assert!(db.get_broken_links().is_empty());
    assert!(db.delete_file("/v/B.md"));
    assert!(db.get_outgoing_links("/v/B.md").is_empty());
    assert_eq!(db.get_broken_links(), vec![("/v/A.md".to_string(), "/v/B.md".to_string())]);
    assert!(!db.delete_file("/v/B.md"));
}

#[test]
fn rename_keeps_the_graph_shape() {
    let mut db = Database::init();
    db.index_file("/v/A.md", 1, 1, &targets(&["/v/B.md", "/v/C.md"]));
    db.index_file("/v/D.md", 1, 1, &targets(&["/v/A.md"]));
    let before = set(db.get_outgoing_links("/v/A.md"));
    assert!(db.update_file_path("/v/A.md", "/v/New.md").is_ok());
    assert_eq!(set(db.get_outgoing_links("/v/New.md")), before);
    assert!(db.get_outgoing_links("/v/A.md").is_empty());
    assert_eq!(db.get_outgoing_links("/v/D.md"), vec!["/v/New.md".to_string()]);
    assert!(db.get_backlinks("/v/A.md").is_empty());
    let paths: BTreeSet<String> = db.get_all_indexed_files().into_iter().map(|(p, _)| p).collect();
    assert_eq!(paths, strs(&["/v/New.md", "/v/D.md"]));
}

#[test]
fn rename_onto_another_document_is_refused() {
    let mut db = Database::init();
    db.index_file("/v/A.md", 1, 1, &targets(&["/v/B.md"]));
    db.index_file("/v/B.md", 2, 1, &targets(&[]));
    assert_eq!(db.update_file_path("/v/A.md", "/v/B.md"), Err(StoreError::PathTaken));
    assert_eq!(db.get_outgoing_links("/v/A.md"), vec!["/v/B.md".to_string()]);
    assert_eq!(db.get_all_indexed_files().len(), 2);
    assert!(!StoreError::PathTaken.message().is_empty());
}

#[test]
fn rename_merges_into_existing_broken_edges() {
    let mut db = Database::init();
    db.index_file("/v/A.md", 1, 1, &targets(&["/v/Old.md", "/v/New.md"]));
    db.index_file("/v/Old.md", 1, 1, &targets(&[]));
    assert!(db.update_file_path("/v/Old.md", "/v/New.md").is_ok());
    assert_eq!(db.get_outgoing_links("/v/A.md"), vec!["/v/New.md".to_string()]);
}

#[test]
fn orphans_have_no_edges_either_way() {
    let mut db = Database::init();
    db.index_file("/v/A.md", 1, 1, &targets(&["/v/B.md"]));
    db.index_file("/v/B.md", 1, 1, &targets(&[]));
    db.index_file("/v/Lonely.md", 1, 1, &targets(&[]));
    assert_eq!(db.get_orphaned_files(), vec!["/v/Lonely.md".to_string()]);
}

#[test]
fn batch_delete_counts_documents_actually_removed() {
    let mut db = Database::init();
    db.index_file("/v/A.md", 1, 1, &targets(&["/v/B.md"]));
    db.index_file("/v/B.md", 1, 1, &targets(&[]));
    let n = db.batch_delete_files(&targets(&["/v/A.md", "/v/A.md", "/v/Missing.md"]));
    assert_eq!(n, 1);
    assert!(db.get_all_links().is_empty());
    assert_eq!(db.get_all_indexed_files(), vec![("/v/B.md".to_string(), 1)]);
}

#[test]
fn rename_to_unsafe_path_is_refused() {
    let mut db = Database::init();
    db.index_file("/v/A.md", 1, 1, &targets(&["/v/B.md"]));
    assert_eq!(db.update_file_path("/v/A.md", "/v/../etc/x.md"), Err(StoreError::UnsafePath));
    assert_eq!(db.update_file_path("/v/A.md", "  "), Err(StoreError::UnsafePath));
    assert_eq!(db.get_outgoing_links("/v/A.md"), vec!["/v/B.md".to_string()]);
}
