use nclgen::paths::{
    ancestors, check_output_path, join, normalize, parent, path_less, split_parts,
    OutputPathProblem,
};
use nclgen::pathset::PathSet;

#[test]
fn output_path_plain_is_accepted() {
    assert_eq!(check_output_path("a/b.txt").unwrap(), "a/b.txt");
}

#[test]
fn output_path_is_normalized() {
    assert_eq!(check_output_path("a//b/").unwrap(), "a/b");
    assert_eq!(normalize("x///y//z/"), "x/y/z");
}

#[test]
fn output_path_absolute_is_refused() {
    assert_eq!(check_output_path("/etc/passwd"), Err(OutputPathProblem::NotRelative));
    assert_eq!(check_output_path("/"), Err(OutputPathProblem::NotRelative));
}

#[test]
fn output_path_cur_dir_is_refused() {
    assert_eq!(check_output_path("./a"), Err(OutputPathProblem::CurDir));
    assert_eq!(check_output_path("a/./b"), Err(OutputPathProblem::CurDir));
    assert_eq!(check_output_path("."), Err(OutputPathProblem::CurDir));
}

#[test]
fn output_path_parent_dir_is_refused() {
    assert_eq!(check_output_path("a/../b"), Err(OutputPathProblem::ParentDir));
    assert_eq!(check_output_path(".."), Err(OutputPathProblem::ParentDir));
    // the first offending part decides
    assert_eq!(check_output_path("../a/."), Err(OutputPathProblem::ParentDir));
}

#[test]
fn output_path_empty_is_refused() {
    assert_eq!(check_output_path(""), Err(OutputPathProblem::Empty));
}

#[test]
fn dotted_names_are_ordinary_parts() {
    assert_eq!(check_output_path(".hidden/...").unwrap(), ".hidden/...");
}

#[test]
fn parts_split_on_separators() {
    assert_eq!(split_parts("/a//bc/d/"), vec!["a", "bc", "d"]);
    assert!(split_parts("///").is_empty());
}

#[test]
fn join_follows_path_rules() {
    assert_eq!(join("/root", "out"), "/root/out");
    assert_eq!(join("/root/", "out"), "/root/out");
    assert_eq!(join("/root", "/abs"), "/abs");
    assert_eq!(join("", "out"), "out");
    assert_eq!(join("a", ""), "a/");
}

#[test]
fn parent_drops_last_part() {
    assert_eq!(parent("/a/b/c").unwrap(), "/a/b");
    assert_eq!(parent("/a").unwrap(), "/");
    assert_eq!(parent("a").unwrap(), "");
    assert_eq!(parent("a/b/").unwrap(), "a");
    assert!(parent("/").is_none());
    assert!(parent("").is_none());
}

#[test]
fn ancestors_nearest_first() {
    assert_eq!(ancestors("/x/y/z"), vec!["/x/y/z", "/x/y", "/x", "/"]);
    assert_eq!(ancestors("/"), vec!["/"]);
    assert_eq!(ancestors("a/b"), vec!["a/b", "a", ""]);
}

#[test]
fn path_order_puts_separator_first() {
    // component order: "/a/b" has components [a, b], "/a-c" has [a-c]; "a" < "a-c"
    assert!(path_less("/a/b", "/a-c"));
    assert!(!path_less("/a-c", "/a/b"));
    assert!(path_less("/a", "/a/b"));
    assert!(path_less("/a/b", "/b"));
    assert!(!path_less("/a", "/a"));
    assert!(path_less("/a/\u{e9}", "/a/\u{10000}"));
}

#[test]
fn path_set_is_ordered_and_unique() {
    let mut s = PathSet::new();
    s.insert("/p/z".to_string());
    s.insert("/p/a-b".to_string());
    s.insert("/p/a/b".to_string());
    s.insert("/p/z".to_string());
    assert_eq!(s.len(), 3);
    assert_eq!(s.to_vec(), vec!["/p/a/b", "/p/a-b", "/p/z"]);
    assert!(s.contains("/p/a-b"));
    assert!(!s.contains("/p/a"));
}

#[test]
fn path_set_resolve_subtracts_excludes() {
    let matches = vec![
        vec!["/r/b.ncl".to_string(), "/r/a.ncl".to_string()],
        vec!["/r/c.ncl".to_string(), "/r/a.ncl".to_string()],
    ];
    let excludes = vec![vec!["/r/b.ncl".to_string()], vec!["/r/nothing.ncl".to_string()]];
    let s = PathSet::resolve(&matches, &excludes);
    assert_eq!(s.to_vec(), vec!["/r/a.ncl", "/r/c.ncl"]);
}

#[test]
fn path_set_difference_and_duplicate() {
    let a = PathSet::from_groups(&vec![vec!["/1".to_string(), "/2".to_string(), "/3".to_string()]]);
    let b = PathSet::from_groups(&vec![vec!["/2".to_string()]]);
    let d = a.difference(&b);
    assert_eq!(d.to_vec(), vec!["/1", "/3"]);
    assert_eq!(d.duplicate().to_vec(), vec!["/1", "/3"]);
    assert!(PathSet::new().is_empty());
}

#[test]
fn normal_form_is_stable() {
    for p in ["a//b/", "x", "a/b/c//", ".x/..y"] {
        let once = check_output_path(p).unwrap();
        assert_eq!(check_output_path(&once).unwrap(), once);
    }
}
