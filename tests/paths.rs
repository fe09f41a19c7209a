use vault_links::path::{is_safe_filename, is_safe_path};
use vault_links::sanitize::sanitize_string;

#[test]
fn test_is_safe_path() {
    assert!(is_safe_path("valid/path/to/file.md"));
    assert!(is_safe_path("file.md"));
    assert!(is_safe_path("folder/subfolder/note.md"));

    assert!(!is_safe_path(""));
    assert!(!is_safe_path("   "));
    assert!(!is_safe_path("../etc/passwd"));
    assert!(!is_safe_path("/etc/passwd"));
    assert!(!is_safe_path("folder/../../../etc/passwd"));
}

#[test]
fn test_is_safe_filename() {
    assert!(is_safe_filename("note.md"));
    assert!(is_safe_filename("my-note_123.md"));

    assert!(!is_safe_filename(""));
    assert!(!is_safe_filename("folder/note.md"));
    assert!(!is_safe_filename("../note.md"));
    assert!(!is_safe_filename("note\\file.md"));
}

#[test]
fn safe_path_rejects_current_dir_start() {
    assert!(!is_safe_path("./note.md"));
    assert!(!is_safe_path("."));
    assert!(is_safe_path("a/./note.md"));
    assert!(is_safe_path("a/..b/note.md"));
}

#[test]
fn safe_filename_rejects_dot_names() {
    assert!(!is_safe_filename("."));
    assert!(!is_safe_filename(".."));
    assert!(!is_safe_filename("  \t "));
    assert!(is_safe_filename(".hidden"));
}

#[test]
fn sanitize_drops_disallowed_characters() {
    assert_eq!(sanitize_string("Note/With*Chars".to_string()), "NoteWithChars");
    assert_eq!(sanitize_string("My Note".to_string()), "My Note");
    assert_eq!(sanitize_string("a_b-(c).d".to_string()), "a_b-(c).d");
}

#[test]
fn sanitize_strips_trailing_dots_and_spaces() {
    assert_eq!(sanitize_string("name. . ".to_string()), "name");
    assert_eq!(sanitize_string("...".to_string()), "");
    assert_eq!(sanitize_string("".to_string()), "");
}

#[test]
fn sanitize_keeps_unicode_letters() {
    assert_eq!(sanitize_string("Café 2024!".to_string()), "Café 2024");
}

#[test]
fn unicode_whitespace_counts_as_blank() {
    assert!(!is_safe_filename("\u{2003}\u{00A0}"));
    assert!(is_safe_filename("a\u{2003}b"));
}
