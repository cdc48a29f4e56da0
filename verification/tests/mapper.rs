use dirstat::flatten::flatten;
use dirstat::flatten::total_size;
use dirstat::mapper::paint_segments;
use dirstat::mapper::resolve;
use dirstat::tree::FileNode;

fn file(path: &str, size: u64) -> FileNode {
    FileNode::File { path: path.into(), size }
}

fn dir(path: &str, children: Vec<FileNode>) -> FileNode {
    FileNode::Directory { path: path.into(), children }
}

/// The scenario tree: "/" holding "/a" of size 1 and "/b" holding "/b/c"
/// of size 3, flattened against an extent of 100.
fn scenario() -> (Vec<FileNode>, u64) {
    let root = dir("/", vec![file("/a", 1), dir("/b", vec![file("/b/c", 3)])]);
    let leaves = flatten(root);
    let total = total_size(&leaves).unwrap();
    (leaves, total)
}

#[test]
fn scenario_flatten_and_total() {
    let (leaves, total) = scenario();
    assert_eq!(leaves, vec![file("/a", 1), file("/b/c", 3)]);
    assert_eq!(total, 4);
}

#[test]
fn scenario_segments() {
    let (leaves, total) = scenario();
    let segs = paint_segments(&leaves, total, 100);
    assert_eq!(segs.len(), 2);
    // Bounds are scaled by the total (4): "/a" occupies [0, 25) of the
    // extent and "/b/c" occupies [25, 100).
    assert_eq!(segs[0].file, file("/a", 1));
    assert_eq!(segs[0].lo, 0);
    assert_eq!(segs[0].hi, 100);
    assert_eq!(segs[0].hi / total as u128, 25);
    assert_eq!(segs[1].file, file("/b/c", 3));
    assert_eq!(segs[1].lo, 100);
    assert_eq!(segs[1].hi, 400);
    assert_eq!(segs[1].lo / total as u128, 25);
    assert_eq!(segs[1].hi / total as u128, 100);
}

#[test]
fn scenario_resolve() {
    let (leaves, total) = scenario();
    assert_eq!(resolve(&leaves, total, 100, 10), Some(file("/a", 1)));
    assert_eq!(resolve(&leaves, total, 100, 50), Some(file("/b/c", 3)));
}

#[test]
fn resolve_right_edge_policy() {
    // The fixed policy: the right edge is inclusive for the last segment
    // only — position == extent resolves to the last file, anything past
    // it resolves to nothing.
    let (leaves, total) = scenario();
    assert_eq!(resolve(&leaves, total, 100, 100), Some(file("/b/c", 3)));
    assert_eq!(resolve(&leaves, total, 100, 101), None);
}

#[test]
fn resolve_interval_boundary() {
    // Position 25 is the exact boundary: the target 4 * 25 / 100 = 1 is
    // reached by "/a"'s running size, so the boundary belongs to "/a".
    let (leaves, total) = scenario();
    assert_eq!(resolve(&leaves, total, 100, 25), Some(file("/a", 1)));
    assert_eq!(resolve(&leaves, total, 100, 26), Some(file("/b/c", 3)));
}

#[test]
fn round_trip_midpoints() {
    // Resolving the midpoint of each painted interval returns the very
    // file that was painted there. The midpoints 12.5 and 62.5 are exact
    // halves, so both position and extent are doubled: 25 of 200 and 125
    // of 200 denote the same fractions.
    let (leaves, total) = scenario();
    let segs = paint_segments(&leaves, total, 100);
    for (i, seg) in segs.iter().enumerate() {
        let doubled_extent = 2 * total * 100;
        let midpoint_numerator = (seg.lo + seg.hi) as u64;
        let hit = resolve(&leaves, total, doubled_extent, midpoint_numerator);
        assert_eq!(hit.as_ref(), Some(&leaves[i]));
    }
    assert_eq!(resolve(&leaves, total, 200, 25), Some(file("/a", 1)));
    assert_eq!(resolve(&leaves, total, 200, 125), Some(file("/b/c", 3)));
}

#[test]
fn segments_cover_extent_exactly() {
    let (leaves, total) = scenario();
    let segs = paint_segments(&leaves, total, 100);
    assert_eq!(segs[0].lo, 0);
    for w in segs.windows(2) {
        assert_eq!(w[0].hi, w[1].lo);
    }
    assert_eq!(segs.last().unwrap().hi, total as u128 * 100);
}

#[test]
fn resolve_on_empty_sequence() {
    let leaves: Vec<FileNode> = Vec::new();
    assert_eq!(resolve(&leaves, 0, 100, 0), None);
    assert_eq!(resolve(&leaves, 0, 100, 50), None);
}

#[test]
fn zero_total_paints_nothing_and_resolves_nothing() {
    let leaves = vec![file("/empty", 0)];
    let total = total_size(&leaves).unwrap();
    assert_eq!(total, 0);
    assert_eq!(paint_segments(&leaves, total, 100).len(), 0);
    assert_eq!(resolve(&leaves, total, 100, 10), None);
}

#[test]
fn zero_extent_resolves_nothing() {
    let (leaves, total) = scenario();
    assert_eq!(resolve(&leaves, total, 0, 0), None);
}
