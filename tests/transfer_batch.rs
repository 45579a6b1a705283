use filec::{
    copy_plan, finish_batch, retained, target_in, Clipboard, ClipboardError, CopyStep, EntryKind,
    ExecError, ExecErrorKind, TreeEntry,
};

fn strings(v: &[&str]) -> Vec<String> {
    v.iter().map(|s| s.to_string()).collect()
}

fn entry(rel: &str, kind: EntryKind) -> TreeEntry {
    TreeEntry { rel: rel.to_string(), kind }
}

#[test]
fn exec_error_new_keeps_fields() {
    let e = ExecError::new("/a".to_string(), ExecErrorKind::InvalidPath);
    assert_eq!(e.file, "/a");
    assert_eq!(e.kind, ExecErrorKind::InvalidPath);
}

#[test]
fn target_is_named_by_final_component() {
    assert_eq!(target_in("/tmp/a.txt", "/tmp/out"), Ok("/tmp/out/a.txt".to_string()));
    assert_eq!(target_in("/home/u/dir", "/"), Ok("/dir".to_string()));
}

#[test]
fn root_has_no_target() {
    assert_eq!(
        target_in("/", "/tmp/out"),
        Err(ExecError::new("/".to_string(), ExecErrorKind::InvalidPath))
    );
}

#[test]
fn copy_plan_of_single_file() {
    let plan = copy_plan("/tmp/a.txt", "/tmp/out/a.txt", &vec![entry("", EntryKind::File)]);
    assert_eq!(
        plan,
        vec![CopyStep::CopyFile("/tmp/a.txt".to_string(), "/tmp/out/a.txt".to_string())]
    );
}

#[test]
fn copy_plan_reproduces_nested_tree() {
    let entries = vec![
        entry("", EntryKind::Dir),
        entry("f1", EntryKind::File),
        entry("sub", EntryKind::Dir),
        entry("sub/f2", EntryKind::File),
        entry("sub/deeper", EntryKind::Dir),
        entry("sub/deeper/f3", EntryKind::File),
    ];
    let plan = copy_plan("/src/d", "/dst/d", &entries);
    assert_eq!(
        plan,
        vec![
            CopyStep::CreateDir("/dst/d".to_string()),
            CopyStep::CopyFile("/src/d/f1".to_string(), "/dst/d/f1".to_string()),
            CopyStep::CreateDir("/dst/d/sub".to_string()),
            CopyStep::CopyFile("/src/d/sub/f2".to_string(), "/dst/d/sub/f2".to_string()),
            CopyStep::CreateDir("/dst/d/sub/deeper".to_string()),
            CopyStep::CopyFile(
                "/src/d/sub/deeper/f3".to_string(),
                "/dst/d/sub/deeper/f3".to_string()
            ),
        ]
    );
}

#[test]
fn copy_plan_reports_unreadable_places() {
    let entries = vec![
        entry("", EntryKind::Dir),
        entry("locked", EntryKind::Dir),
        entry("locked", EntryKind::Unreadable("permission denied".to_string())),
        entry("ok", EntryKind::File),
    ];
    let plan = copy_plan("/src/d", "/dst/d", &entries);
    assert_eq!(plan.len(), 4);
    assert_eq!(plan[1], CopyStep::CreateDir("/dst/d/locked".to_string()));
    assert_eq!(
        plan[2],
        CopyStep::Fail(ExecError::new(
            "/src/d/locked".to_string(),
            ExecErrorKind::Io("permission denied".to_string())
        ))
    );
    assert_eq!(plan[3], CopyStep::CopyFile("/src/d/ok".to_string(), "/dst/d/ok".to_string()));
}

#[test]
fn copy_plan_of_empty_listing_is_empty() {
    assert!(copy_plan("/a", "/b/a", &Vec::new()).is_empty());
}

#[test]
fn successful_copy_empties_clipboard() {
    let queued = strings(&["/tmp/a.txt"]);
    let (text, result) = finish_batch(&queued, &vec![false]);
    assert_eq!(text, "");
    assert_eq!(result, Ok(()));
}

#[test]
fn partial_move_keeps_only_failed_path() {
    let queued = strings(&["/tmp/a.txt", "/tmp/missing-perm.txt"]);
    let (text, result) = finish_batch(&queued, &vec![false, true]);
    assert_eq!(result, Err(ClipboardError::PartialFail));
    let c = Clipboard::new("/tmp/clip.txt".to_string());
    assert_eq!(c.contents(&text), strings(&["/tmp/missing-perm.txt"]));
}

#[test]
fn retained_is_exactly_the_failed_subset() {
    let queued = strings(&["/a", "/b", "/c", "/d"]);
    assert_eq!(retained(&queued, &vec![true, false, true, false]), strings(&["/a", "/c"]));
    assert!(retained(&queued, &vec![false; 4]).is_empty());
    assert_eq!(retained(&queued, &vec![true; 4]), queued);
}

#[test]
fn batch_over_empty_clipboard_succeeds() {
    let (text, result) = finish_batch(&Vec::new(), &Vec::new());
    assert_eq!(text, "");
    assert_eq!(result, Ok(()));
}
