//! The file-tree data model: a node is either a directory with an ordered
//! list of children or a file with a byte size.

use vstd::prelude::*;

verus! {

/// A node of a scanned file tree. Directory children are kept in the order
/// the scan produced them; a tree is never mutated after construction.
#[derive(Debug, PartialEq, Eq)]
pub enum FileNode {
    Directory { path: String, children: Vec<FileNode> },
    File { path: String, size: u64 },
}

impl FileNode {
    /// A directory contributes no size of its own; a file contributes its
    /// stored byte size.
    pub open spec fn size_spec(self) -> u64 {
        match self {
            FileNode::Directory { .. } => 0,
            FileNode::File { size, .. } => size,
        }
    }

    /// The node's path, regardless of variant.
    pub open spec fn path_spec(self) -> String {
        match self {
            FileNode::Directory { path, .. } => path,
            FileNode::File { path, .. } => path,
        }
    }

    /// The children of a directory; a file has none.
    pub open spec fn children_spec(self) -> Seq<FileNode> {
        match self {
            FileNode::Directory { children, .. } => children@,
            FileNode::File { .. } => Seq::empty(),
        }
    }

    pub fn size(&self) -> (s: u64)
        ensures
            s == self.size_spec(),
    {
        match self {
            FileNode::Directory { .. } => 0,
            FileNode::File { size, .. } => *size,
        }
    }

    pub fn path(&self) -> (p: &String)
        ensures
            p == self.path_spec(),
    {
        match self {
            FileNode::Directory { path, .. } => path,
            FileNode::File { path, .. } => path,
        }
    }
}

/// An owned copy of a file leaf. Only file nodes are copied this way, so no
/// recursion over children is needed.
pub fn clone_file(node: &FileNode) -> (r: FileNode)
    requires
        node is File,
    ensures
        r == *node,
{
    match node {
        FileNode::File { path, size } => FileNode::File { path: path.clone(), size: *size },
        FileNode::Directory { .. } => unreached(),
    }
}

} // verus!
