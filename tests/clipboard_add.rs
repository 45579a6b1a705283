use filec::clipboard::{can_store, new_entries};
use filec::{Clipboard, ClipboardError};

fn strings(v: &[&str]) -> Vec<String> {
    v.iter().map(|s| s.to_string()).collect()
}

fn clip() -> Clipboard {
    Clipboard::new("/tmp/clip.txt".to_string())
}

#[test]
fn clipboard_keeps_its_path() {
    assert_eq!(clip().path(), "/tmp/clip.txt");
}

#[test]
fn duplicate_argument_is_stored_once() {
    let c = clip();
    let text = c.add("", &strings(&["/tmp/a.txt", "/tmp/a.txt"])).unwrap();
    assert_eq!(text, "/tmp/a.txt\n");
    assert_eq!(c.contents(&text), strings(&["/tmp/a.txt"]));
}

#[test]
fn spellings_of_one_target_are_stored_once() {
    // "./a.txt", "/tmp/../tmp/a.txt" and a symlink all resolve to this path.
    let c = clip();
    let resolved = strings(&["/tmp/a.txt", "/tmp/b.txt", "/tmp/a.txt", "/tmp/a.txt"]);
    let text = c.add("", &resolved).unwrap();
    assert_eq!(c.contents(&text), strings(&["/tmp/a.txt", "/tmp/b.txt"]));
}

#[test]
fn add_skips_paths_already_queued() {
    let c = clip();
    let existing = "/tmp/a.txt\n";
    let text = c.add(existing, &strings(&["/tmp/a.txt", "/tmp/b.txt"])).unwrap();
    assert_eq!(text, "/tmp/b.txt\n");
    let after = format!("{}{}", existing, text);
    assert_eq!(c.contents(&after), strings(&["/tmp/a.txt", "/tmp/b.txt"]));
}

#[test]
fn add_of_nothing_resolved_is_no_new_files() {
    assert_eq!(clip().add("/tmp/a.txt\n", &Vec::new()), Err(ClipboardError::NoNewFiles));
}

#[test]
fn add_of_queued_paths_only_is_no_new_files() {
    let r = clip().add("/tmp/a.txt\n/tmp/b.txt\n", &strings(&["/tmp/b.txt", "/tmp/a.txt"]));
    assert_eq!(r, Err(ClipboardError::NoNewFiles));
}

#[test]
fn add_twice_stores_what_once_stores() {
    let c = clip();
    let resolved = strings(&["/tmp/a.txt", "/tmp/b.txt"]);
    let once = c.add("", &resolved).unwrap();
    assert_eq!(c.add(&once, &resolved), Err(ClipboardError::NoNewFiles));
    assert_eq!(c.contents(&once), resolved);
}

#[test]
fn add_after_unterminated_line_starts_a_new_line() {
    let c = clip();
    let existing = "/tmp/a.txt";
    let text = c.add(existing, &strings(&["/tmp/b.txt"])).unwrap();
    let after = format!("{}{}", existing, text);
    assert_eq!(c.contents(&after), strings(&["/tmp/a.txt", "/tmp/b.txt"]));
}

#[test]
fn paths_that_cannot_be_a_line_are_not_queued() {
    assert!(!can_store(""));
    assert!(!can_store("/tmp/a\nb"));
    assert!(can_store("/tmp/a b"));
    let r = clip().add("", &strings(&["/tmp/a\nb", ""]));
    assert_eq!(r, Err(ClipboardError::NoNewFiles));
}

#[test]
fn new_entries_keep_first_occurrence_order() {
    let existing = strings(&["/b"]);
    let resolved = strings(&["/c", "/b", "/a", "/c"]);
    assert_eq!(new_entries(&existing, &resolved), strings(&["/c", "/a"]));
}

#[test]
fn contents_of_cleared_file_is_empty() {
    assert!(clip().contents("").is_empty());
}
