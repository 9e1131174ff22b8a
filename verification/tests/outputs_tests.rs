use nclgen::outputs::{
    CheckFailure, EntryKind, ListedEntry, ProjectOutputs, TargetOutputs, WriteStep,
};
use nclgen::paths::OutputPathProblem;

fn entries(pairs: &[(&str, &str)]) -> Vec<(String, String)> {
    pairs.iter().map(|(k, v)| (k.to_string(), v.to_string())).collect()
}

fn file(path: &str) -> ListedEntry {
    ListedEntry { path: path.to_string(), kind: EntryKind::File }
}

fn dir(path: &str) -> ListedEntry {
    ListedEntry { path: path.to_string(), kind: EntryKind::Other }
}

fn sample() -> TargetOutputs {
    TargetOutputs::build(
        "/proj/gen".to_string(),
        entries(&[("b.txt", "bee"), ("a/x.txt", "ex"), ("a-b", "ab")]),
    )
    .unwrap()
}

#[test]
fn build_refuses_first_bad_path() {
    let err = TargetOutputs::build(
        "/o".to_string(),
        entries(&[("ok", "1"), ("../up", "2"), ("/abs", "3")]),
    )
    .unwrap_err();
    assert_eq!(err.path, "../up");
    assert_eq!(err.problem, OutputPathProblem::ParentDir);
}

#[test]
fn build_refuses_empty_path() {
    let err = TargetOutputs::build("/o".to_string(), entries(&[("", "x")])).unwrap_err();
    assert_eq!(err.problem, OutputPathProblem::Empty);
}

#[test]
fn build_orders_by_path() {
    let t = sample();
    assert_eq!(t.len(), 3);
    assert_eq!(t.outputs_dir(), "/proj/gen");
    let shown = t.print();
    let paths: Vec<&str> = shown.iter().map(|(p, _)| p.as_str()).collect();
    // "a/x.txt" sorts before "a-b": the separator comes first
    assert_eq!(paths, vec!["/proj/gen/a/x.txt", "/proj/gen/a-b", "/proj/gen/b.txt"]);
    assert_eq!(shown[0].1, "ex");
}

#[test]
fn build_merges_same_normal_path() {
    let t = TargetOutputs::build("/o".to_string(), entries(&[("a//b", "first"), ("a/b", "second")]))
        .unwrap();
    assert_eq!(t.len(), 1);
    // the path as first given is kept, the later content wins
    assert_eq!(t.print(), vec![("/o/a//b".to_string(), "second".to_string())]);
}

#[test]
fn write_steps_replace_directory_then_write() {
    let t = sample();
    let steps = t.write();
    let expected = vec![
        WriteStep::ClearDir("/proj/gen".to_string()),
        WriteStep::CreateDir("/proj/gen".to_string()),
        WriteStep::EnsureDir("/proj/gen/a".to_string()),
        WriteStep::WriteFile("/proj/gen/a/x.txt".to_string(), "ex".to_string()),
        WriteStep::EnsureDir("/proj/gen".to_string()),
        WriteStep::WriteFile("/proj/gen/a-b".to_string(), "ab".to_string()),
        WriteStep::EnsureDir("/proj/gen".to_string()),
        WriteStep::WriteFile("/proj/gen/b.txt".to_string(), "bee".to_string()),
    ];
    assert_eq!(format!("{:?}", steps), format!("{:?}", expected));
}

#[test]
fn check_current_outputs() {
    let t = sample();
    let listing = vec![dir(""), dir("a"), file("a/x.txt"), file("a-b"), file("b.txt")];
    let to_read = t.files_to_compare(&listing).unwrap();
    assert_eq!(to_read, vec!["/proj/gen/a/x.txt", "/proj/gen/a-b", "/proj/gen/b.txt"]);
    let contents = vec![Some(b"ex".to_vec()), Some(b"ab".to_vec()), Some(b"bee".to_vec())];
    assert!(t.check(true, &listing, &contents));
}

#[test]
fn check_detects_changed_content() {
    let t = sample();
    let listing = vec![file("a/x.txt"), file("a-b"), file("b.txt")];
    let contents = vec![Some(b"ex".to_vec()), Some(b"AB".to_vec()), Some(b"bee".to_vec())];
    assert!(!t.check(true, &listing, &contents));
}

#[test]
fn check_detects_vanished_file() {
    let t = sample();
    let listing = vec![file("a/x.txt"), file("a-b"), file("b.txt")];
    let contents = vec![Some(b"ex".to_vec()), None, Some(b"bee".to_vec())];
    assert!(!t.check(true, &listing, &contents));
}

#[test]
fn check_detects_missing_file() {
    let t = sample();
    let listing = vec![file("a/x.txt"), file("b.txt")];
    let to_read = t.files_to_compare(&listing).unwrap();
    assert_eq!(to_read, vec!["/proj/gen/a/x.txt", "/proj/gen/b.txt"]);
    let contents = vec![Some(b"ex".to_vec()), Some(b"bee".to_vec())];
    assert!(!t.check(true, &listing, &contents));
}

#[test]
fn check_detects_extra_file() {
    let t = sample();
    let listing = vec![file("a/x.txt"), file("a-b"), file("b.txt"), file("stray")];
    let contents = vec![Some(b"ex".to_vec()), Some(b"ab".to_vec()), Some(b"bee".to_vec())];
    assert!(!t.check(true, &listing, &contents));
}

#[test]
fn check_refuses_symlinks() {
    let t = sample();
    let listing = vec![
        file("a/x.txt"),
        ListedEntry { path: "link".to_string(), kind: EntryKind::Symlink },
        ListedEntry { path: "link2".to_string(), kind: EntryKind::Symlink },
    ];
    assert_eq!(t.files_to_compare(&listing).unwrap_err().path, "link");
}

fn three_targets() -> ProjectOutputs {
    let mut po = ProjectOutputs::new(Vec::new());
    po.push("one".to_string(), sample());
    po.push("three".to_string(), sample());
    po.push("two".to_string(), sample());
    po
}

#[test]
fn project_check_reports_stale_targets_in_order() {
    let po = three_targets();
    let verdicts: Vec<Result<bool, String>> = vec![Ok(false), Ok(true), Ok(false)];
    match po.check(verdicts) {
        Err(CheckFailure::Stale(names)) => assert_eq!(names, vec!["one", "two"]),
        other => panic!("unexpected {:?}", other),
    }
}

#[test]
fn project_check_passes_when_all_current() {
    let po = ProjectOutputs::new(vec![("one".to_string(), sample())]);
    assert!(po.check::<String>(vec![Ok(true)]).is_ok());
}

#[test]
fn project_check_reports_first_failure() {
    let po = three_targets();
    let verdicts: Vec<Result<bool, String>> = vec![Ok(false), Err("walk failed".to_string())];
    match po.check(verdicts) {
        Err(CheckFailure::Target { target, error }) => {
            assert_eq!(target, "three");
            assert_eq!(error, "walk failed");
        }
        other => panic!("unexpected {:?}", other),
    }
}

#[test]
fn project_write_and_print_cover_all_targets() {
    let po = ProjectOutputs::new(vec![("one".to_string(), sample()), ("two".to_string(), sample())]);
    assert_eq!(po.write().len(), 16);
    let shown = po.print();
    assert_eq!(shown.len(), 6);
    assert_eq!(shown[3].0, "/proj/gen/a/x.txt");
    assert_eq!(po.len(), 2);
    assert_eq!(po.get(1).0, "two");
}

#[test]
fn check_missing_directory_is_stale() {
    let empty = TargetOutputs::build("/o".to_string(), vec![]).unwrap();
    assert!(!empty.check(false, &vec![], &vec![]));
    assert!(empty.check(true, &vec![], &vec![]));
}

#[test]
fn generated_then_checked_is_current() {
    // what writing leaves in the directory is found up to date
    let t = sample();
    let steps = t.write();
    let mut listing = Vec::new();
    let mut written = Vec::new();
    for step in &steps {
        if let WriteStep::WriteFile(path, content) = step {
            listing.push(file(path.strip_prefix("/proj/gen/").unwrap()));
            written.push((path.clone(), content.clone()));
        }
    }
    let to_read = t.files_to_compare(&listing).unwrap();
    let contents: Vec<Option<Vec<u8>>> = to_read
        .iter()
        .map(|p| written.iter().find(|(w, _)| w == p).map(|(_, c)| c.as_bytes().to_vec()))
        .collect();
    assert!(t.check(true, &listing, &contents));
}
