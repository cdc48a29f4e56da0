//! Decision logic of the filesystem scanner. The walking itself — stat,
//! directory listing, and the parallel fan-out over sibling entries — is
//! filesystem work done by the surrounding application; every decision
//! about what those answers mean for the tree is taken here: which kind of
//! node a path becomes, what a missing size defaults to, and how entries
//! whose scan failed are omitted without disturbing their siblings.

use vstd::prelude::*;

use crate::tree::FileNode;

verus! {

/// What the filesystem answered when a path was stat'ed.
#[derive(Clone, Copy, Debug, PartialEq, Eq, Structural)]
pub enum PathKind {
    IsDir,
    IsFile,
    Other,
}

/// The nodes present in a list of per-entry scan results, in order:
/// entries whose scan failed contribute nothing.
pub open spec fn present(results: Seq<Option<FileNode>>) -> Seq<FileNode>
    decreases results.len(),
{
    if results.len() == 0 {
        Seq::empty()
    } else {
        present(results.drop_last()) + (match results.last() {
            Some(node) => seq![node],
            None => Seq::empty(),
        })
    }
}

proof fn lemma_present_concat(a: Seq<Option<FileNode>>, b: Seq<Option<FileNode>>)
    ensures
        present(a + b) == present(a) + present(b),
    decreases b.len(),
{
    if b.len() == 0 {
        assert(a + b =~= a);
        assert(present(a) + Seq::<FileNode>::empty() =~= present(a));
    } else {
        lemma_present_concat(a, b.drop_last());
        assert((a + b).drop_last() =~= a + b.drop_last());
        assert((a + b).last() == b.last());
        assert((present(a) + present(b.drop_last())) + (match b.last() {
            Some(node) => seq![node],
            None => Seq::<FileNode>::empty(),
        }) =~= present(a) + (present(b.drop_last()) + (match b.last() {
            Some(node) => seq![node],
            None => Seq::<FileNode>::empty(),
        })));
    }
}

/// The node for a directory entry that stat reports as a plain file: its
/// measured size, defaulting to 0 when the size could not be read.
pub fn file_entry_node(path: String, size: Option<u64>) -> (r: FileNode)
    ensures
        r == (FileNode::File {
            path,
            size: match size {
                Some(s) => s,
                None => 0,
            },
        }),
{
    match size {
        Some(s) => FileNode::File { path, size: s },
        None => FileNode::File { path, size: 0 },
    }
}

/// Keep, in order, exactly the children whose scan succeeded: an entry
/// that failed is omitted, and omits nothing else.
pub fn collect_children(results: Vec<Option<FileNode>>) -> (children: Vec<FileNode>)
    ensures
        children@ == present(results@),
{
    let ghost orig = results@;
    let mut results = results;
    let mut children: Vec<FileNode> = Vec::new();
    while results.len() > 0
        invariant
            present(orig) == children@ + present(results@),
        decreases results.len(),
    {
        let ghost rpre = results@;
        let ghost cpre = children@;
        let r0 = results.remove(0);
        proof {
            assert(seq![r0] + results@ =~= rpre);
            lemma_present_concat(seq![r0], results@);
            assert(seq![r0].drop_last() =~= Seq::<Option<FileNode>>::empty());
            assert(seq![r0].last() == r0);
            assert(present(Seq::<Option<FileNode>>::empty()) == Seq::<FileNode>::empty());
        }
        match r0 {
            Some(node) => {
                children.push(node);
                proof {
                    assert(cpre + (seq![node] + present(results@)) =~= (cpre + seq![node])
                        + present(results@));
                    assert(Seq::<FileNode>::empty() + seq![node] =~= seq![node]);
                }
            },
            None => {
                proof {
                    assert(Seq::<FileNode>::empty() + Seq::<FileNode>::empty() =~= Seq::<
                        FileNode,
                    >::empty());
                    assert(cpre + (Seq::<FileNode>::empty() + present(results@)) =~= cpre
                        + present(results@));
                }
            },
        }
    }
    proof {
        assert(children@ + present(results@) =~= children@);
    }
    children
}

/// One scan step's decision, from what the filesystem answered to the node,
/// if any, for the scanned path:
/// - a path that could not be stat'ed gives no node;
/// - a plain file gives a file node with its measured size;
/// - a directory whose entries could be listed gives a directory node whose
///   children are the successfully scanned entries, in listing order;
/// - a directory that could not be listed gives no node at all: the whole
///   subtree is omitted;
/// - any other filesystem object gives no node.
pub fn scan_decision(
    path: String,
    meta: Option<PathKind>,
    size: u64,
    listing: Option<Vec<Option<FileNode>>>,
) -> (r: Option<FileNode>)
    ensures
        meta is None ==> r is None,
        meta == Some(PathKind::IsFile) ==> r == Some(FileNode::File { path, size }),
        meta == Some(PathKind::Other) ==> r is None,
        meta == Some(PathKind::IsDir) ==> match listing {
            Some(entries) => r matches Some(node) && node is Directory && node.path_spec() == path
                && node.children_spec() == present(entries@),
            None => r is None,
        },
{
    match meta {
        None => None,
        Some(PathKind::IsFile) => Some(FileNode::File { path, size }),
        Some(PathKind::IsDir) => match listing {
            None => None,
            Some(entries) => Some(
                FileNode::Directory { path, children: collect_children(entries) },
            ),
        },
        Some(PathKind::Other) => None,
    }
}

} // verus!
