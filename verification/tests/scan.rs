use dirstat::scan::collect_children;
use dirstat::scan::file_entry_node;
use dirstat::scan::scan_decision;
use dirstat::scan::PathKind;
use dirstat::tree::FileNode;

fn file(path: &str, size: u64) -> FileNode {
    FileNode::File { path: path.into(), size }
}

#[test]
fn scan_plain_file() {
    let r = scan_decision("/f".into(), Some(PathKind::IsFile), 7, None);
    assert_eq!(r, Some(file("/f", 7)));
}

#[test]
fn scan_unreachable_path() {
    let r = scan_decision("/gone".into(), None, 0, None);
    assert_eq!(r, None);
}

#[test]
fn scan_other_filesystem_object() {
    let r = scan_decision("/dev/null".into(), Some(PathKind::Other), 0, None);
    assert_eq!(r, None);
}

#[test]
fn scan_unlistable_directory() {
    let r = scan_decision("/locked".into(), Some(PathKind::IsDir), 0, None);
    assert_eq!(r, None);
}

#[test]
fn scan_directory_with_children() {
    let listing = vec![Some(file("/d/a", 1)), Some(file("/d/b", 2))];
    let r = scan_decision("/d".into(), Some(PathKind::IsDir), 0, Some(listing));
    assert_eq!(
        r,
        Some(FileNode::Directory {
            path: "/d".into(),
            children: vec![file("/d/a", 1), file("/d/b", 2)],
        })
    );
}

#[test]
fn scan_directory_omits_only_the_failed_entry() {
    // One unreadable entry: the directory node still comes back, and its
    // children list omits that entry alone.
    let listing = vec![Some(file("/d/a", 1)), None, Some(file("/d/b", 2))];
    let r = scan_decision("/d".into(), Some(PathKind::IsDir), 0, Some(listing));
    assert_eq!(
        r,
        Some(FileNode::Directory {
            path: "/d".into(),
            children: vec![file("/d/a", 1), file("/d/b", 2)],
        })
    );
}

#[test]
fn scan_empty_directory() {
    let r = scan_decision("/d".into(), Some(PathKind::IsDir), 0, Some(vec![]));
    assert_eq!(r, Some(FileNode::Directory { path: "/d".into(), children: vec![] }));
}

#[test]
fn file_entry_size_defaults_to_zero() {
    assert_eq!(file_entry_node("/x".into(), None), file("/x", 0));
    assert_eq!(file_entry_node("/x".into(), Some(5)), file("/x", 5));
}

#[test]
fn collect_children_keeps_order() {
    let results = vec![None, Some(file("/1", 1)), None, Some(file("/2", 2)), Some(file("/3", 3))];
    assert_eq!(collect_children(results), vec![file("/1", 1), file("/2", 2), file("/3", 3)]);
}
