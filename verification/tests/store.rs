use texoxide::error::StoreError;
use texoxide::store::{FileEntry, Presence, Probe, Texoxide};

fn entry(path: &str, last_accessed: u64, frequency: u64) -> FileEntry {
    FileEntry { path: path.to_string(), last_accessed, frequency }
}

fn probe(path: &str, presence: Presence) -> Probe {
    Probe { path: path.to_string(), presence }
}

#[test]
fn new_index_is_empty() {
    let store = Texoxide::new();
    assert_eq!(store.len(), 0);
    assert_eq!(store.query(""), Vec::<String>::new());
    assert_eq!(store.paths(), Vec::<String>::new());
    assert_eq!(store.frequency("/a/b.txt"), None);
    assert_eq!(store.last_accessed("/a/b.txt"), None);
}

#[test]
fn first_add_counts_one() {
    let mut store = Texoxide::new();
    assert_eq!(store.add("/a/b.txt", 100), Ok(()));
    assert_eq!(store.len(), 1);
    assert_eq!(store.frequency("/a/b.txt"), Some(1));
    assert_eq!(store.last_accessed("/a/b.txt"), Some(100));
}

#[test]
fn repeated_add_counts_every_call_and_keeps_the_last_date() {
    let mut store = Texoxide::new();
    let times: [u64; 5] = [10, 20, 30, 40, 50];
    for (n, now) in times.iter().enumerate() {
        assert_eq!(store.add("/a/b.txt", *now), Ok(()));
        assert_eq!(store.frequency("/a/b.txt"), Some(n as u64 + 1));
        assert_eq!(store.last_accessed("/a/b.txt"), Some(*now));
    }
    assert_eq!(store.len(), 1);
    assert_eq!(store.frequency("/a/b.txt"), Some(5));
    assert_eq!(store.last_accessed("/a/b.txt"), Some(50));
}

#[test]
fn add_leaves_other_entries_alone() {
    let mut store = Texoxide::new();
    store.add("/a/b.txt", 1).unwrap();
    store.add("/c/d.txt", 2).unwrap();
    store.add("/a/b.txt", 3).unwrap();
    assert_eq!(store.frequency("/c/d.txt"), Some(1));
    assert_eq!(store.last_accessed("/c/d.txt"), Some(2));
    assert_eq!(store.paths(), vec!["/a/b.txt".to_string(), "/c/d.txt".to_string()]);
}

#[test]
fn add_takes_the_date_as_given() {
    let mut store = Texoxide::new();
    store.add("/a/b.txt", 50).unwrap();
    store.add("/a/b.txt", 40).unwrap();
    assert_eq!(store.last_accessed("/a/b.txt"), Some(40));
    assert_eq!(store.frequency("/a/b.txt"), Some(2));
}

#[test]
fn add_fails_where_the_count_is_full() {
    let mut store = Texoxide::load(vec![entry("/a/b.txt", 7, u64::MAX)]).unwrap();
    assert_eq!(store.add("/a/b.txt", 8), Err(StoreError::StorageError));
    assert_eq!(store.frequency("/a/b.txt"), Some(u64::MAX));
    assert_eq!(store.last_accessed("/a/b.txt"), Some(7));
    assert_eq!(store.add("/c/d.txt", 9), Ok(()));
}

#[test]
fn remove_of_a_path_never_added_is_not_found() {
    let mut store = Texoxide::new();
    assert_eq!(store.remove_entry("/nonexistent"), Err(StoreError::NotFound));
    store.add("/a/b.txt", 1).unwrap();
    assert_eq!(store.remove_entry("/nonexistent"), Err(StoreError::NotFound));
    assert_eq!(store.len(), 1);
    assert_eq!(store.frequency("/a/b.txt"), Some(1));
}

#[test]
fn removed_entry_is_in_no_answer() {
    let mut store = Texoxide::new();
    store.add("/a/b.txt", 1).unwrap();
    store.add("/c/d.txt", 2).unwrap();
    assert_eq!(store.remove_entry("/a/b.txt"), Ok(()));
    assert_eq!(store.query(""), vec!["/c/d.txt".to_string()]);
    assert_eq!(store.query("b.txt"), Vec::<String>::new());
    assert_eq!(store.frequency("/a/b.txt"), None);
    assert_eq!(store.remove_entry("/a/b.txt"), Err(StoreError::NotFound));
}

#[test]
fn removed_entry_starts_again_at_one() {
    let mut store = Texoxide::new();
    store.add("/a/b.txt", 1).unwrap();
    store.add("/a/b.txt", 2).unwrap();
    store.remove_entry("/a/b.txt").unwrap();
    store.add("/a/b.txt", 3).unwrap();
    assert_eq!(store.frequency("/a/b.txt"), Some(1));
    assert_eq!(store.last_accessed("/a/b.txt"), Some(3));
}

#[test]
fn remove_keeps_the_order_of_the_rest() {
    let mut store = Texoxide::new();
    store.add("/one", 1).unwrap();
    store.add("/two", 1).unwrap();
    store.add("/three", 1).unwrap();
    store.remove_entry("/two").unwrap();
    assert_eq!(store.paths(), vec!["/one".to_string(), "/three".to_string()]);
}

#[test]
fn cleanup_removes_exactly_the_absent() {
    let mut store = Texoxide::new();
    store.add("/here", 1).unwrap();
    store.add("/gone", 2).unwrap();
    store.add("/gone", 3).unwrap();
    store.add("/unsure", 4).unwrap();
    store.add("/also/gone", 5).unwrap();
    store.add("/unasked", 6).unwrap();
    let probes = vec![
        probe("/here", Presence::Present),
        probe("/gone", Presence::Absent),
        probe("/unsure", Presence::Unknown),
        probe("/also/gone", Presence::Absent),
        probe("/not/stored", Presence::Absent),
    ];
    let removed = store.cleanup(&probes);
    assert_eq!(removed, vec!["/gone".to_string(), "/also/gone".to_string()]);
    assert_eq!(
        store.paths(),
        vec!["/here".to_string(), "/unsure".to_string(), "/unasked".to_string()]
    );
    assert_eq!(store.frequency("/here"), Some(1));
    assert_eq!(store.last_accessed("/here"), Some(1));
    assert_eq!(store.frequency("/unsure"), Some(1));
    assert_eq!(store.last_accessed("/unsure"), Some(4));
    assert_eq!(store.frequency("/unasked"), Some(1));
    assert_eq!(store.last_accessed("/unasked"), Some(6));
    assert_eq!(store.frequency("/gone"), None);
}

#[test]
fn cleanup_without_probes_changes_nothing() {
    let mut store = Texoxide::new();
    store.add("/a", 1).unwrap();
    store.add("/b", 2).unwrap();
    let removed = store.cleanup(&Vec::new());
    assert_eq!(removed, Vec::<String>::new());
    assert_eq!(store.paths(), vec!["/a".to_string(), "/b".to_string()]);
}

#[test]
fn cleanup_removes_on_any_absent_report() {
    let mut store = Texoxide::new();
    store.add("/a", 1).unwrap();
    let probes = vec![probe("/a", Presence::Present), probe("/a", Presence::Absent)];
    assert_eq!(store.cleanup(&probes), vec!["/a".to_string()]);
    assert_eq!(store.len(), 0);
}

#[test]
fn cleanup_can_empty_the_index() {
    let mut store = Texoxide::new();
    store.add("/a", 1).unwrap();
    store.add("/b", 2).unwrap();
    let probes = vec![probe("/b", Presence::Absent), probe("/a", Presence::Absent)];
    assert_eq!(store.cleanup(&probes), vec!["/a".to_string(), "/b".to_string()]);
    assert_eq!(store.len(), 0);
    assert_eq!(store.query(""), Vec::<String>::new());
}

#[test]
fn frequency_outranks_recency() {
    let mut store = Texoxide::new();
    store.add("/a/b.txt", 1).unwrap();
    store.add("/a/b.txt", 2).unwrap();
    store.add("/c/d.txt", 3).unwrap();
    assert_eq!(store.query(""), vec!["/a/b.txt".to_string(), "/c/d.txt".to_string()]);
}

#[test]
fn recency_breaks_ties_of_frequency() {
    let mut store = Texoxide::new();
    store.add("/old", 10).unwrap();
    store.add("/new", 30).unwrap();
    store.add("/mid", 20).unwrap();
    assert_eq!(
        store.query(""),
        vec!["/new".to_string(), "/mid".to_string(), "/old".to_string()]
    );
}

#[test]
fn full_ties_keep_the_recorded_order() {
    let mut store = Texoxide::new();
    store.add("/z", 5).unwrap();
    store.add("/a", 5).unwrap();
    store.add("/m", 5).unwrap();
    assert_eq!(store.query(""), vec!["/z".to_string(), "/a".to_string(), "/m".to_string()]);
}

#[test]
fn query_answers_only_paths_that_contain_the_term() {
    let rows = vec![
        entry("/home/u/notes.txt", 5, 1),
        entry("/home/u/report.tex", 6, 9),
        entry("/srv/notes/old.md", 7, 3),
        entry("/tmp/x", 8, 20),
    ];
    let store = Texoxide::load(rows).unwrap();
    assert_eq!(
        store.query("notes"),
        vec!["/srv/notes/old.md".to_string(), "/home/u/notes.txt".to_string()]
    );
    assert_eq!(store.query("/home/u/report.tex"), vec!["/home/u/report.tex".to_string()]);
    assert_eq!(store.query("nothing"), Vec::<String>::new());
    assert_eq!(store.query("/tmp/x/y"), Vec::<String>::new());
    assert_eq!(
        store.query(""),
        vec![
            "/tmp/x".to_string(),
            "/home/u/report.tex".to_string(),
            "/srv/notes/old.md".to_string(),
            "/home/u/notes.txt".to_string()
        ]
    );
}

#[test]
fn query_takes_the_term_letter_for_letter() {
    let rows = vec![
        entry("/a/Notes.txt", 1, 1),
        entry("/a/100%.txt", 2, 1),
        entry("/a/b_c.txt", 3, 1),
        entry("/a/bxc.txt", 4, 1),
    ];
    let store = Texoxide::load(rows).unwrap();
    assert_eq!(store.query("notes"), Vec::<String>::new());
    assert_eq!(store.query("Notes"), vec!["/a/Notes.txt".to_string()]);
    assert_eq!(store.query("%"), vec!["/a/100%.txt".to_string()]);
    assert_eq!(store.query("b_c"), vec!["/a/b_c.txt".to_string()]);
}

#[test]
fn query_handles_text_beyond_ascii() {
    let mut store = Texoxide::new();
    store.add("/home/zoë/übung.txt", 1).unwrap();
    store.add("/home/zoe/uebung.txt", 2).unwrap();
    assert_eq!(store.query("ë/ü"), vec!["/home/zoë/übung.txt".to_string()]);
    assert_eq!(store.frequency("/home/zoë/übung.txt"), Some(1));
}

#[test]
fn query_hands_out_the_best_twenty() {
    let mut rows = Vec::new();
    for i in 0..25u64 {
        rows.push(entry(&format!("/f/{i}"), 100 + i, 1 + i));
    }
    let store = Texoxide::load(rows).unwrap();
    let answer = store.query("/f/");
    assert_eq!(answer.len(), 20);
    let mut expected = Vec::new();
    for i in (5..25u64).rev() {
        expected.push(format!("/f/{i}"));
    }
    assert_eq!(answer, expected);
}

#[test]
fn query_of_exactly_twenty_hands_out_all() {
    let mut store = Texoxide::new();
    for i in 0..20u64 {
        store.add(&format!("/f/{i}"), i).unwrap();
    }
    assert_eq!(store.query("").len(), 20);
    store.add("/f/20", 20).unwrap();
    let answer = store.query("");
    assert_eq!(answer.len(), 20);
    assert_eq!(answer[0], "/f/20".to_string());
    assert!(!answer.contains(&"/f/0".to_string()));
}

#[test]
fn query_does_not_change_the_index() {
    let mut store = Texoxide::new();
    store.add("/a", 1).unwrap();
    let first = store.query("a");
    let second = store.query("a");
    assert_eq!(first, second);
    assert_eq!(store.frequency("/a"), Some(1));
}

#[test]
fn load_keeps_rows_and_order() {
    let rows = vec![entry("/b", 2, 4), entry("/a", 9, 1)];
    let store = Texoxide::load(rows).unwrap();
    assert_eq!(store.len(), 2);
    assert_eq!(store.paths(), vec!["/b".to_string(), "/a".to_string()]);
    assert_eq!(store.frequency("/b"), Some(4));
    assert_eq!(store.last_accessed("/a"), Some(9));
    assert_eq!(Texoxide::load(Vec::new()).unwrap().len(), 0);
}

#[test]
fn load_refuses_a_path_stored_twice() {
    let rows = vec![entry("/a", 1, 1), entry("/b", 2, 1), entry("/a", 3, 2)];
    assert!(matches!(Texoxide::load(rows), Err(StoreError::StorageError)));
}

#[test]
fn load_refuses_a_count_of_zero() {
    let rows = vec![entry("/a", 1, 1), entry("/b", 2, 0)];
    assert!(matches!(Texoxide::load(rows), Err(StoreError::StorageError)));
}

#[test]
fn error_messages_name_the_path() {
    assert_eq!(StoreError::NotFound.message("/x"), "No entry found for /x");
    assert_eq!(StoreError::NonExistentFile.message("/x"), "File /x does not exist");
    assert_eq!(StoreError::PathEncodingError.message("/x"), "Invalid file path encoding");
    assert_eq!(StoreError::StorageError.message("/x"), "Cannot store /x");
}
