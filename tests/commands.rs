use vault_links::commands::{
    generate_trash_name, new_folder_path, new_note_path, new_note_title, plan_rename, RenameError,
};

#[test]
fn note_title_is_sanitized_or_untitled() {
    assert_eq!(new_note_title("My Note".to_string()), "My Note");
    assert_eq!(new_note_title("   ".to_string()), "Untitled");
    assert_eq!(new_note_title("Note/With*Chars".to_string()), "NoteWithChars");
}

#[test]
fn note_path_numbers_collisions() {
    assert_eq!(new_note_path("/v", "My Note", 0), "/v/My Note.md");
    assert_eq!(new_note_path("/v", "My Note", 1), "/v/My Note (1).md");
    assert_eq!(new_note_path("/v/", "My Note", 12), "/v/My Note (12).md");
}

#[test]
fn folder_path_needs_a_name() {
    assert_eq!(new_folder_path("/v", "New Project".to_string()), Ok("/v/New Project".to_string()));
    assert_eq!(
        new_folder_path("/v", "   ".to_string()),
        Err("Invalid folder name: Name cannot be empty".to_string())
    );
}

#[test]
fn rename_adds_md_to_files_only() {
    assert_eq!(plan_rename("/v", "/v/old_note.md", "new_note".to_string(), false), Ok("/v/new_note.md".to_string()));
    assert_eq!(plan_rename("/v", "/v/a/OldFolder", "NewFolder".to_string(), true), Ok("/v/a/NewFolder".to_string()));
    assert_eq!(plan_rename("/v", "/v/x.md", "y.md".to_string(), false), Ok("/v/y.md".to_string()));
}

#[test]
fn rename_refuses_items_outside_the_vault_and_empty_names() {
    assert_eq!(plan_rename("/v", "/other/hacker.md", "innocent".to_string(), false), Err(RenameError::OutsideVault));
    assert_eq!(plan_rename("/v", "/v/a.md", " * ".to_string(), false), Err(RenameError::EmptyName));
    assert!(RenameError::OutsideVault.message().starts_with("Security Error"));
}

#[test]
fn rename_cannot_climb_out_through_the_name() {
    assert_eq!(plan_rename("/v", "/v/a.md", "../escape".to_string(), false), Ok("/v/..escape.md".to_string()));
}

#[test]
fn trash_name_records_origin_and_time() {
    let ts = 1698196352910u128;
    assert_eq!(
        generate_trash_name("/example/Folder (Root) 12345/test.md", false, ts),
        Some("test (Folder) 1698196352910.md".to_string())
    );
    assert_eq!(
        generate_trash_name("/example/Folder (Root) 12345/Subfolder", true, ts),
        Some("Subfolder (Folder) 1698196352910".to_string())
    );
    assert_eq!(generate_trash_name("note.md", false, 5), Some("note (root) 5.md".to_string()));
    assert_eq!(generate_trash_name("/a/b/..", false, 5), None);
    assert_eq!(generate_trash_name("", true, 0), None);
}

#[test]
fn trash_name_ignores_trailing_separators() {
    assert_eq!(generate_trash_name("dir/", true, 7), Some("dir (root) 7".to_string()));
    assert_eq!(generate_trash_name("/v/sub/dir/", true, 7), Some("dir (sub) 7".to_string()));
    assert_eq!(generate_trash_name("/v/sub/note.md/.", false, 7), Some("note (sub) 7.md".to_string()));
    assert_eq!(generate_trash_name("/", true, 7), None);
}

#[test]
fn rename_of_folder_given_with_trailing_slash_stays_beside_it() {
    assert_eq!(plan_rename("/v", "/v/a/Old/", "New".to_string(), true), Ok("/v/a/New".to_string()));
}
