use std::path::PathBuf;
use texoxide::error::StoreError;
use texoxide::launch::{editor_command, menu_title, no_match_message, plan, Plan};
use texoxide::path::{clean_path, locate, removal_key, resolve, Canonical};
use texoxide::text::{chars_of, contains_chars};

fn contains(text: &str, term: &str) -> bool {
    contains_chars(&chars_of(text), &chars_of(term))
}

#[test]
fn clean_path_strips_the_extended_prefix() {
    assert_eq!(clean_path("\\\\?\\C:\\Users\\u\\a.txt"), "C:\\Users\\u\\a.txt");
    assert_eq!(clean_path("\\\\?\\"), "");
    assert_eq!(clean_path("\\\\?\\\\\\?\\x"), "\\\\?\\x");
}

#[test]
fn clean_path_leaves_other_paths_alone() {
    assert_eq!(clean_path("/home/u/a.txt"), "/home/u/a.txt");
    assert_eq!(clean_path("C:\\Users\\u\\a.txt"), "C:\\Users\\u\\a.txt");
    assert_eq!(clean_path(""), "");
    assert_eq!(clean_path("\\\\?"), "\\\\?");
    assert_eq!(clean_path("\\\\.\\pipe"), "\\\\.\\pipe");
    assert_eq!(clean_path("a\\\\?\\b"), "a\\\\?\\b");
    assert_eq!(clean_path("\\\\?/ü"), "\\\\?/ü");
}

#[test]
fn clean_path_keeps_text_beyond_ascii() {
    assert_eq!(clean_path("\\\\?\\C:\\zoë\\ü.txt"), "C:\\zoë\\ü.txt");
}

#[test]
fn locate_gives_the_text_of_a_path() {
    assert_eq!(
        locate(Some(PathBuf::from("/a/b.txt"))),
        Canonical::Text("/a/b.txt".to_string())
    );
    assert_eq!(
        locate(Some(PathBuf::from("/home/zoë/ü.txt"))),
        Canonical::Text("/home/zoë/ü.txt".to_string())
    );
    assert_eq!(locate(None), Canonical::Unresolved);
}

#[test]
fn resolve_gives_the_canonical_path_of_a_file_that_exists() {
    let found = locate(Some(PathBuf::from("/a/b.txt")));
    assert_eq!(resolve(true, &found), Ok("/a/b.txt".to_string()));
}

#[test]
fn resolve_refuses_a_missing_file() {
    let found = Canonical::Text("/a/b.txt".to_string());
    assert_eq!(resolve(false, &found), Err(StoreError::NonExistentFile));
    assert_eq!(resolve(false, &Canonical::Unresolved), Err(StoreError::NonExistentFile));
    assert_eq!(resolve(false, &Canonical::NotText), Err(StoreError::NonExistentFile));
    assert_eq!(resolve(true, &Canonical::Unresolved), Err(StoreError::NonExistentFile));
}

#[test]
fn resolve_refuses_a_path_that_is_no_text() {
    assert_eq!(resolve(true, &Canonical::NotText), Err(StoreError::PathEncodingError));
}

#[test]
fn removal_falls_back_to_the_path_as_given() {
    assert_eq!(removal_key("b.txt", &Canonical::Text("/a/b.txt".to_string())), "/a/b.txt");
    assert_eq!(removal_key("b.txt", &Canonical::Unresolved), "b.txt");
    assert_eq!(removal_key("b.txt", &Canonical::NotText), "b.txt");
    assert_eq!(removal_key("/nonexistent", &locate(None)), "/nonexistent");
}

#[test]
fn contains_finds_substrings() {
    assert!(contains("/home/u/notes.txt", "notes"));
    assert!(contains("/home/u/notes.txt", "/home"));
    assert!(contains("/home/u/notes.txt", ".txt"));
    assert!(contains("/home/u/notes.txt", "/home/u/notes.txt"));
    assert!(contains("/home/u/notes.txt", ""));
    assert!(contains("", ""));
    assert!(contains("aab", "ab"));
    assert!(contains("zoë", "ë"));
}

#[test]
fn contains_refuses_what_is_not_there() {
    assert!(!contains("/home/u/notes.txt", "Notes"));
    assert!(!contains("/home/u/notes.txt", "/home/u/notes.txt2"));
    assert!(!contains("", "a"));
    assert!(!contains("abc", "ac"));
    assert!(!contains("zoe", "ë"));
}

#[test]
fn chars_of_keeps_every_character() {
    assert_eq!(chars_of("aë/"), vec!['a', 'ë', '/']);
    assert_eq!(chars_of(""), Vec::<char>::new());
}

#[test]
fn plan_chooses_where_there_are_candidates() {
    assert_eq!(plan(3, "notes", false), Plan::Choose);
    assert_eq!(plan(1, "", true), Plan::Choose);
}

#[test]
fn plan_opens_the_term_where_it_names_a_file() {
    assert_eq!(plan(0, "/a/b.txt", true), Plan::OpenTerm);
}

#[test]
fn plan_gives_up_otherwise() {
    assert_eq!(plan(0, "/a/b.txt", false), Plan::NoMatch);
    assert_eq!(plan(0, "", true), Plan::NoMatch);
    assert_eq!(plan(0, "", false), Plan::NoMatch);
}

#[test]
fn texts_for_the_user() {
    assert_eq!(menu_title("notes"), " Matches for 'notes' ");
    assert_eq!(menu_title(""), " Matches for '' ");
    assert_eq!(no_match_message("notes"), "No matches for 'notes'");
}

#[test]
fn editor_is_the_configured_one_or_the_default() {
    assert_eq!(editor_command(Some("nano".to_string()), false), "nano");
    assert_eq!(editor_command(Some("nano".to_string()), true), "nano");
    assert_eq!(editor_command(None, false), "vim");
    assert_eq!(editor_command(None, true), "notepad");
}
