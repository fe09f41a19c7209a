use vault_links::file_index::{FileIndex, IndexError, VaultListing, WalkEntry};

fn file(path: &str) -> WalkEntry {
    WalkEntry { path: path.to_string(), is_file: true, modified: 0, size: 0 }
}

fn dir(path: &str) -> WalkEntry {
    WalkEntry { path: path.to_string(), is_file: false, modified: 0, size: 0 }
}

fn index(entries: Vec<WalkEntry>) -> FileIndex {
    let listing = VaultListing { root_exists: true, entries };
    match FileIndex::build("/vault", &listing) {
        Ok(idx) => idx,
        Err(_) => panic!("vault should exist"),
    }
}

#[test]
fn missing_vault_is_an_error() {
    let listing = VaultListing { root_exists: false, entries: vec![] };
    assert!(matches!(FileIndex::build("/vault", &listing), Err(IndexError::VaultNotFound)));
    assert_eq!(IndexError::VaultNotFound.message(), "Vault path does not exist");
}

#[test]
fn resolves_by_stem_and_by_file_name() {
    let idx = index(vec![dir("/vault"), file("/vault/Note.md")]);
    assert_eq!(idx.resolve("/vault", "Note"), Some("/vault/Note.md".to_string()));
    assert_eq!(idx.resolve("/vault", "Note.md"), Some("/vault/Note.md".to_string()));
    assert_eq!(idx.resolve("/vault", "Other"), None);
}

#[test]
fn root_level_document_wins_over_subfolder() {
    let idx = index(vec![
        dir("/vault"),
        dir("/vault/sub"),
        file("/vault/sub/Note.md"),
        file("/vault/Note.md"),
    ]);
    assert_eq!(idx.resolve("/vault", "Note"), Some("/vault/Note.md".to_string()));
}

#[test]
fn shallowest_wins_and_first_among_equals() {
    let idx = index(vec![
        file("/vault/a/b/Note.md"),
        file("/vault/x/Note.md"),
        file("/vault/y/Note.md"),
    ]);
    assert_eq!(idx.resolve("/vault", "Note"), Some("/vault/x/Note.md".to_string()));
}

#[test]
fn hidden_and_non_markdown_files_are_not_indexed() {
    let idx = index(vec![
        file("/vault/.trash/Gone.md"),
        file("/vault/.git/Config.md"),
        file("/vault/.Hidden.md"),
        file("/vault/Picture.png"),
        dir("/vault/Folder.md"),
    ]);
    assert_eq!(idx.resolve("/vault", "Gone"), None);
    assert_eq!(idx.resolve("/vault", "Config"), None);
    assert_eq!(idx.resolve("/vault", ".Hidden"), None);
    assert_eq!(idx.resolve("/vault", "Picture"), None);
    assert_eq!(idx.resolve("/vault", "Folder"), None);
}

#[test]
fn path_link_resolves_directly_when_present() {
    let idx = index(vec![file("/vault/Note.md"), file("/vault/folder/Note.md")]);
    assert_eq!(idx.resolve("/vault", "folder/Note"), Some("/vault/folder/Note.md".to_string()));
    assert_eq!(idx.resolve("/vault", "folder/Note.md"), Some("/vault/folder/Note.md".to_string()));
}

#[test]
fn path_link_falls_back_to_matching_relative_path() {
    let idx = index(vec![file("/vault/Note.md"), file("/vault/deep/folder/Note.md")]);
    assert_eq!(idx.resolve("/vault", "folder/Note.md"), Some("/vault/deep/folder/Note.md".to_string()));
}

#[test]
fn path_link_with_no_match_fails() {
    let idx = index(vec![file("/vault/Note.md")]);
    assert_eq!(idx.resolve("/vault", "elsewhere/Note"), None);
}

#[test]
fn direct_path_outside_the_vault_is_not_found() {
    let idx = index(vec![file("/vault/Note.md")]);
    assert_eq!(idx.resolve("/vault", "/etc/Note"), None);
}
