use dirstat::flatten::flatten;
use dirstat::flatten::total_size;
use dirstat::flatten::FileNodeIterator;
use dirstat::tree::FileNode;

fn file(path: &str, size: u64) -> FileNode {
    FileNode::File { path: path.into(), size }
}

fn dir(path: &str, children: Vec<FileNode>) -> FileNode {
    FileNode::Directory { path: path.into(), children }
}

fn sample_tree() -> FileNode {
    dir("/", vec![file("/1", 1), dir("/2", vec![file("/2/3", 3)])])
}

#[test]
fn iterator() {
    let root = sample_tree();
    let mut it = FileNodeIterator::new(root);
    let mut all_children: Vec<FileNode> = Vec::new();
    while let Some(node) = it.next() {
        all_children.push(node);
    }
    assert_eq!(all_children, vec![file("/1", 1), file("/2/3", 3)]);
}

#[test]
fn flatten_is_deterministic() {
    let first = flatten(sample_tree());
    let second = flatten(sample_tree());
    assert_eq!(first, second);
    assert_eq!(first, vec![file("/1", 1), file("/2/3", 3)]);
}

#[test]
fn flatten_yields_files_only() {
    let leaves = flatten(dir(
        "/",
        vec![dir("/sub", vec![dir("/sub/inner", vec![file("/sub/inner/a", 2)])]), file("/b", 5)],
    ));
    assert!(leaves.iter().all(|node| matches!(node, FileNode::File { .. })));
    assert_eq!(leaves, vec![file("/sub/inner/a", 2), file("/b", 5)]);
}

#[test]
fn flatten_empty_directory() {
    let leaves = flatten(dir("/", vec![]));
    assert_eq!(leaves, vec![]);
}

#[test]
fn flatten_deeply_nested_directory_first() {
    // A directory whose first child is itself a directory is traversed
    // through, not yielded.
    let root = dir("/", vec![dir("/d", vec![file("/d/x", 4)]), file("/y", 6)]);
    assert_eq!(flatten(root), vec![file("/d/x", 4), file("/y", 6)]);
}

#[test]
fn total_size_sums_flattened_files() {
    let leaves = flatten(sample_tree());
    assert_eq!(total_size(&leaves), Some(4));
}

#[test]
fn total_size_of_empty_sequence_is_zero() {
    assert_eq!(total_size(&vec![]), Some(0));
}

#[test]
fn total_size_reports_overflow() {
    let leaves = vec![file("/big", u64::MAX), file("/one", 1)];
    assert_eq!(total_size(&leaves), None);
}

#[test]
fn node_size_and_path() {
    let f = file("/a", 9);
    let d = dir("/d", vec![file("/d/a", 9)]);
    assert_eq!(f.size(), 9);
    assert_eq!(d.size(), 0);
    assert_eq!(f.path(), &String::from("/a"));
    assert_eq!(d.path(), &String::from("/d"));
}
