use std::collections::BTreeSet;
use vault_links::db::Database;
use vault_links::file_index::{FileIndex, VaultListing, WalkEntry};
use vault_links::indexer::{IndexStats, SyncPlan, VaultIndexer};
use vault_links::models::{is_listed, FileMetadata, SyncResult};

fn file(path: &str, modified: i64) -> WalkEntry {
    WalkEntry { path: path.to_string(), is_file: true, modified, size: 3 }
}

fn listing(entries: Vec<WalkEntry>) -> VaultListing {
    VaultListing { root_exists: true, entries }
}

/// Runs one full sync, reading each planned document from `files`.
fn run(db: &mut Database, vault: &str, walk: &VaultListing, files: &[(&str, &str)]) -> IndexStats {
    let plan: SyncPlan = match VaultIndexer::plan_sync(db, vault, walk) {
        Ok(p) => p,
        Err(_) => panic!("vault should exist"),
    };
    let index = match FileIndex::build(vault, walk) {
        Ok(i) => i,
        Err(_) => panic!("vault should exist"),
    };
    let contents: Vec<Option<String>> = plan
        .to_index
        .iter()
        .map(|&k| {
            let path = &walk.entries[k].path;
            files.iter().find(|(p, _)| p == path).map(|(_, text)| text.to_string())
        })
        .collect();
    VaultIndexer::apply_sync(db, vault, &index, walk, &plan, &contents)
}

fn edges(db: &Database) -> BTreeSet<(String, String)> {
    db.get_all_links().into_iter().collect()
}

#[test]
fn example_vault_indexes_resolved_links_only() {
    let files = [("/v/A.md", "See [[B]] and [[C|See Also]]"), ("/v/B.md", "")];
    let walk = listing(vec![file("/v/A.md", 100), file("/v/B.md", 100)]);
    let mut db = Database::init();
    let stats = run(&mut db, "/v", &walk, &files);
    assert_eq!(stats.files_indexed, 2);
    assert_eq!(db.get_outgoing_links("/v/A.md"), vec!["/v/B.md".to_string()]);
    // `C` resolves to no document, so no edge is stored for it at all
    assert!(db.get_broken_links().is_empty());
}

#[test]
fn literal_missing_target_becomes_a_broken_edge() {
    let mut db = Database::init();
    db.index_file("/v/A.md", 1, 1, &vec!["/v/B.md".to_string(), "/v/C.md".to_string()]);
    db.index_file("/v/B.md", 1, 1, &vec![]);
    assert_eq!(db.get_broken_links(), vec![("/v/A.md".to_string(), "/v/C.md".to_string())]);
}

#[test]
fn second_sync_without_changes_indexes_nothing() {
    let files = [("/v/A.md", "[[B]] [[sub/C]]"), ("/v/B.md", "[[A]]"), ("/v/sub/C.md", "")];
    let walk = listing(vec![file("/v/A.md", 5), file("/v/B.md", 6), file("/v/sub/C.md", 7)]);
    let mut db = Database::init();
    let first = run(&mut db, "/v", &walk, &files);
    assert_eq!(first.files_indexed, 3);
    let after_first = edges(&db);
    assert_eq!(after_first.len(), 3);
    let second = run(&mut db, "/v", &walk, &files);
    assert_eq!(second.files_indexed, 0);
    assert_eq!(second.files_skipped, 3);
    assert_eq!(second.files_deleted, 0);
    assert_eq!(edges(&db), after_first);
}

#[test]
fn modified_files_are_reindexed_and_gone_files_deleted() {
    let files = [("/v/A.md", "[[B]]"), ("/v/B.md", "")];
    let mut db = Database::init();
    run(&mut db, "/v", &listing(vec![file("/v/A.md", 5), file("/v/B.md", 5)]), &files);
    let changed = [("/v/A.md", "nothing now")];
    let stats = run(&mut db, "/v", &listing(vec![file("/v/A.md", 9)]), &changed);
    assert_eq!(stats.files_indexed, 1);
    assert_eq!(stats.files_deleted, 1);
    assert_eq!(stats.files_skipped, 0);
    assert!(db.get_all_links().is_empty());
    assert_eq!(db.get_all_indexed_files(), vec![("/v/A.md".to_string(), 9)]);
}

#[test]
fn unreadable_file_is_counted_and_sync_goes_on() {
    let files = [("/v/B.md", "[[A]]")];
    let walk = listing(vec![file("/v/A.md", 1), file("/v/B.md", 1)]);
    let mut db = Database::init();
    let stats = run(&mut db, "/v", &walk, &files);
    assert_eq!(stats.files_indexed, 1);
    assert_eq!(stats.files_failed, 1);
    assert_eq!(db.get_outgoing_links("/v/B.md"), vec!["/v/A.md".to_string()]);
}

#[test]
fn missing_vault_fails_the_plan() {
    let db = Database::init();
    let walk = VaultListing { root_exists: false, entries: vec![] };
    assert!(VaultIndexer::plan_sync(&db, "/v", &walk).is_err());
}

#[test]
fn sync_result_reports_counts_or_error() {
    let stats = IndexStats { files_indexed: 2, files_deleted: 1, files_skipped: 4, files_failed: 0, duration_ms: 12 };
    let ok = SyncResult::from_outcome(Ok(stats));
    assert!(ok.success);
    assert_eq!((ok.files_indexed, ok.files_deleted, ok.files_skipped, ok.duration_ms), (2, 1, 4, 12));
    assert_eq!(ok.error, None);
    let failed = SyncResult::from_outcome(Err("Vault path does not exist".to_string()));
    assert!(!failed.success);
    assert_eq!(failed.files_indexed, 0);
    assert_eq!(failed.error, Some("Vault path does not exist".to_string()));
}

#[test]
fn file_metadata_takes_last_segment_as_name() {
    let m = FileMetadata::from_entry("/v/sub/Note.md", false, 42, 7);
    assert_eq!(m.filename, "Note.md");
    assert_eq!(m.path, "/v/sub/Note.md");
    assert_eq!((m.is_dir, m.size, m.last_modified), (false, 42, 7));
}

#[test]
fn listing_leaves_out_version_control_and_trash() {
    assert!(is_listed("/v/notes/a.md"));
    assert!(!is_listed("/v/.git/config"));
    assert!(!is_listed("/v/.trash/old.md"));
}

#[test]
fn file_metadata_name_ignores_trailing_slash() {
    let m = FileMetadata::from_entry("/v/notes/", true, 0, 0);
    assert_eq!(m.filename, "notes");
}
