use filec::{append_text, lock_result, read_all, render, ClipboardFileError, LockStatus};

fn strings(v: &[&str]) -> Vec<String> {
    v.iter().map(|s| s.to_string()).collect()
}

#[test]
fn read_all_splits_lines() {
    assert_eq!(read_all("/a\n/b/c\n"), strings(&["/a", "/b/c"]));
}

#[test]
fn read_all_skips_blank_lines() {
    assert_eq!(read_all("\n/a\n\n\n/b\n\n"), strings(&["/a", "/b"]));
}

#[test]
fn read_all_keeps_last_line_without_newline() {
    assert_eq!(read_all("/a\n/b"), strings(&["/a", "/b"]));
}

#[test]
fn read_all_of_empty_text_is_empty() {
    assert!(read_all("").is_empty());
    assert!(read_all("\n\n").is_empty());
}

#[test]
fn read_all_keeps_non_ascii_paths() {
    assert_eq!(read_all("/tmp/é\n/tmp/日本\n"), strings(&["/tmp/é", "/tmp/日本"]));
}

#[test]
fn render_writes_one_line_each() {
    assert_eq!(render(&strings(&["/a", "/b/c"])), "/a\n/b/c\n");
    assert_eq!(render(&Vec::new()), "");
}

#[test]
fn render_then_read_gives_the_same_paths() {
    let paths = strings(&["/x/y", "/z", "/ü"]);
    assert_eq!(read_all(&render(&paths)), paths);
}

#[test]
fn append_text_after_complete_line() {
    assert_eq!(append_text("/a\n", &strings(&["/b"])), "/b\n");
    assert_eq!(append_text("", &strings(&["/b", "/c"])), "/b\n/c\n");
}

#[test]
fn append_text_ends_an_open_line_first() {
    let t = append_text("/a", &strings(&["/b"]));
    assert_eq!(t, "\n/b\n");
    assert_eq!(read_all(&format!("/a{}", t)), strings(&["/a", "/b"]));
}

#[test]
fn lock_acquired_is_ok() {
    assert_eq!(lock_result(LockStatus::Acquired), Ok(()));
}

#[test]
fn lock_held_by_other_process_fails_at_once() {
    assert_eq!(lock_result(LockStatus::HeldByOther), Err(ClipboardFileError::Lock(None)));
}

#[test]
fn lock_failure_keeps_its_message() {
    assert_eq!(
        lock_result(LockStatus::Failed("bad descriptor".to_string())),
        Err(ClipboardFileError::Lock(Some("bad descriptor".to_string())))
    );
}
