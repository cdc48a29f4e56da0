//! Deterministic flattening of a file tree into the ordered sequence of its
//! file leaves: a depth-first, left-to-right traversal that yields files
//! only, driven by an explicit work stack so that arbitrarily deep trees
//! cannot overflow the call stack.

use vstd::prelude::*;

use crate::tree::FileNode;

verus! {

/// The canonical flattening of a tree: the depth-first, left-to-right
/// sequence of its file leaves. Directories are never part of the result.
pub open spec fn flatten_spec(node: FileNode) -> Seq<FileNode>
    decreases node,
{
    match node {
        FileNode::File { .. } => seq![node],
        FileNode::Directory { children, .. } => flatten_list(children@),
    }
}

/// The concatenation, in order, of the flattenings of a list of sibling
/// nodes.
pub open spec fn flatten_list(nodes: Seq<FileNode>) -> Seq<FileNode>
    decreases nodes,
{
    if nodes.len() == 0 {
        Seq::empty()
    } else {
        flatten_list(nodes.drop_last()) + flatten_spec(nodes.last())
    }
}

/// The number of nodes in a tree, used as the termination measure of the
/// iterative traversal.
pub open spec fn node_count(node: FileNode) -> nat
    decreases node,
{
    match node {
        FileNode::File { .. } => 1,
        FileNode::Directory { children, .. } => 1 + list_count(children@),
    }
}

/// The total node count of a list of sibling nodes.
pub open spec fn list_count(nodes: Seq<FileNode>) -> nat
    decreases nodes,
{
    if nodes.len() == 0 {
        0
    } else {
        list_count(nodes.drop_last()) + node_count(nodes.last())
    }
}

/// What a work stack still has to deliver: the flattening of its entries
/// from the top of the stack (the end of the sequence) down to the bottom.
pub open spec fn flatten_stack(nodes: Seq<FileNode>) -> Seq<FileNode>
    decreases nodes.len(),
{
    if nodes.len() == 0 {
        Seq::empty()
    } else {
        flatten_spec(nodes.last()) + flatten_stack(nodes.drop_last())
    }
}

/// The total node count of a work stack.
pub open spec fn stack_count(nodes: Seq<FileNode>) -> nat
    decreases nodes.len(),
{
    if nodes.len() == 0 {
        0
    } else {
        node_count(nodes.last()) + stack_count(nodes.drop_last())
    }
}

/// Pushing a node on a work stack puts its flattening in front of what the
/// stack already had to deliver, and adds its nodes to the stack's count.
proof fn lemma_stack_push(s: Seq<FileNode>, x: FileNode)
    ensures
        flatten_stack(s.push(x)) == flatten_spec(x) + flatten_stack(s),
        stack_count(s.push(x)) == node_count(x) + stack_count(s),
{
    assert(s.push(x).last() == x);
    assert(s.push(x).drop_last() =~= s);
}

/// The depth-first traversal of a file tree, restartable at any point: an
/// explicit work stack whose top is traversed first. `next` pops work until
/// it can yield the next file leaf in canonical order.
pub struct FileNodeIterator {
    pub stack: Vec<FileNode>,
}

impl FileNodeIterator {
    /// The file leaves this traversal has still to yield, in order.
    pub open spec fn remaining(self) -> Seq<FileNode> {
        flatten_stack(self.stack@)
    }

    pub fn new(root: FileNode) -> (it: Self)
        ensures
            it.remaining() == flatten_spec(root),
    {
        let it = FileNodeIterator { stack: vec![root] };
        proof {
            assert(it.stack@.last() == root);
            assert(it.stack@.drop_last() =~= Seq::<FileNode>::empty());
            assert(flatten_stack(it.stack@.drop_last()) =~= Seq::<FileNode>::empty());
            assert(flatten_spec(root) + Seq::<FileNode>::empty() =~= flatten_spec(root));
        }
        it
    }

    /// Yield the next file leaf of the traversal, or `None` when none is
    /// left. Directories popped from the stack are replaced by their
    /// children, first child on top, and are never yielded themselves.
    pub fn next(&mut self) -> (r: Option<FileNode>)
        ensures
            match r {
                Some(node) => old(self).remaining().len() > 0 && node == old(self).remaining()[0]
                    && final(self).remaining() == old(self).remaining().drop_first(),
                None => old(self).remaining().len() == 0 && final(self).remaining().len() == 0,
            },
    {
        let ghost orig = self.remaining();
        loop
            invariant
                orig == old(self).remaining(),
                flatten_stack(self.stack@) == orig,
            decreases stack_count(self.stack@),
        {
            let ghost pre = self.stack@;
            match self.stack.pop() {
                None => {
                    return None;
                },
                Some(node) => {
                    proof {
                        assert(self.stack@ =~= pre.drop_last());
                    }
                    match node {
                        FileNode::File { path, size } => {
                            let ghost leaf = FileNode::File { path, size };
                            proof {
                                assert(orig == seq![leaf] + flatten_stack(self.stack@));
                                assert(orig[0] == leaf);
                                assert(flatten_stack(self.stack@) =~= orig.drop_first());
                            }
                            return Some(FileNode::File { path, size });
                        },
                        FileNode::Directory { path: _, children } => {
                            let ghost count_pre = stack_count(pre);
                            let mut children = children;
                            proof {
                                assert(orig == flatten_list(children@) + flatten_stack(
                                    self.stack@,
                                ));
                                assert(count_pre == 1 + list_count(children@) + stack_count(
                                    self.stack@,
                                ));
                            }
                            while children.len() > 0
                                invariant
                                    flatten_list(children@) + flatten_stack(self.stack@) == orig,
                                    list_count(children@) + stack_count(self.stack@) + 1
                                        == count_pre,
                                decreases children.len(),
                            {
                                let ghost cpre = children@;
                                let ghost spre = self.stack@;
                                let c = children.pop().unwrap();
                                proof {
                                    assert(children@ =~= cpre.drop_last());
                                    lemma_stack_push(spre, c);
                                }
                                self.stack.push(c);
                                proof {
                                    assert(flatten_list(children@) + (flatten_spec(c)
                                        + flatten_stack(spre)) =~= (flatten_list(children@)
                                        + flatten_spec(c)) + flatten_stack(spre));
                                }
                            }
                            proof {
                                assert(flatten_list(children@) =~= Seq::<FileNode>::empty());
                                assert(Seq::<FileNode>::empty() + flatten_stack(self.stack@)
                                    =~= flatten_stack(self.stack@));
                                assert(stack_count(self.stack@) < count_pre);
                            }
                        },
                    }
                },
            }
        }
    }
}

impl FileNode {
    /// The canonical ordered sequence of this tree's file leaves, produced
    /// by the iterative depth-first traversal. Two calls on equal trees
    /// yield equal sequences: the result is a function of the tree alone.
    pub fn as_vector(self) -> (r: Vec<FileNode>)
        ensures
            r@ == flatten_spec(self),
    {
        let ghost target = flatten_spec(self);
        let mut it = FileNodeIterator::new(self);
        let mut out: Vec<FileNode> = Vec::new();
        loop
            invariant
                target == flatten_spec(self),
                out@ + it.remaining() == target,
            decreases it.remaining().len(),
        {
            let ghost opre = out@;
            let ghost rpre = it.remaining();
            match it.next() {
                Some(node) => {
                    out.push(node);
                    proof {
                        assert(out@ + it.remaining() =~= opre + rpre);
                    }
                },
                None => {
                    proof {
                        assert(out@ =~= target);
                    }
                    return out;
                },
            }
        }
    }
}

/// The canonical flattening of a tree, as a plain function.
pub fn flatten(tree: FileNode) -> (r: Vec<FileNode>)
    ensures
        r@ == flatten_spec(tree),
{
    tree.as_vector()
}

/// The sum of the sizes of a sequence of nodes; directories contribute 0.
pub open spec fn sum_sizes(s: Seq<FileNode>) -> int
    decreases s.len(),
{
    if s.len() == 0 {
        0
    } else {
        sum_sizes(s.drop_last()) + s.last().size_spec()
    }
}

/// The total size of every file anywhere in a tree; directories contribute
/// nothing of their own.
pub open spec fn tree_size(node: FileNode) -> int
    decreases node,
{
    match node {
        FileNode::File { size, .. } => size as int,
        FileNode::Directory { children, .. } => tree_size_list(children@),
    }
}

/// The total file size of a list of sibling trees.
pub open spec fn tree_size_list(nodes: Seq<FileNode>) -> int
    decreases nodes,
{
    if nodes.len() == 0 {
        0
    } else {
        tree_size_list(nodes.drop_last()) + tree_size(nodes.last())
    }
}

/// A sum of sizes is never negative.
pub proof fn lemma_sum_sizes_nonneg(s: Seq<FileNode>)
    ensures
        sum_sizes(s) >= 0,
    decreases s.len(),
{
    if s.len() > 0 {
        lemma_sum_sizes_nonneg(s.drop_last());
    }
}

/// Summing a prefix of a sequence never exceeds summing a longer prefix.
pub proof fn lemma_sum_take_le(s: Seq<FileNode>, i: int, j: int)
    requires
        0 <= i <= j <= s.len(),
    ensures
        sum_sizes(s.take(i)) <= sum_sizes(s.take(j)),
    decreases j - i,
{
    if i < j {
        lemma_sum_take_le(s, i, j - 1);
        assert(s.take(j).drop_last() =~= s.take(j - 1));
    }
}

/// Sums distribute over concatenation of sequences.
pub proof fn lemma_sum_sizes_concat(a: Seq<FileNode>, b: Seq<FileNode>)
    ensures
        sum_sizes(a + b) == sum_sizes(a) + sum_sizes(b),
    decreases b.len(),
{
    if b.len() == 0 {
        assert(a + b =~= a);
    } else {
        lemma_sum_sizes_concat(a, b.drop_last());
        assert((a + b).drop_last() =~= a + b.drop_last());
        assert((a + b).last() == b.last());
    }
}

/// The flattened sequence holds file leaves only: no directory node ever
/// appears in it.
pub proof fn lemma_flatten_files_only(node: FileNode)
    ensures
        forall|k: int|
            0 <= k < flatten_spec(node).len() ==> (#[trigger] flatten_spec(node)[k]) is File,
    decreases node,
{
    match node {
        FileNode::File { .. } => {
        },
        FileNode::Directory { children, .. } => {
            lemma_flatten_list_files_only(children@);
        },
    }
}

/// Every node of the flattening of a sibling list is a file leaf.
pub proof fn lemma_flatten_list_files_only(nodes: Seq<FileNode>)
    ensures
        forall|k: int|
            0 <= k < flatten_list(nodes).len() ==> (#[trigger] flatten_list(nodes)[k]) is File,
    decreases nodes,
{
    if nodes.len() > 0 {
        lemma_flatten_list_files_only(nodes.drop_last());
        lemma_flatten_files_only(nodes.last());
    }
}

/// Size conservation: the sum of the sizes over the flattened sequence is
/// exactly the total size of every file anywhere in the tree.
pub proof fn lemma_size_conservation(node: FileNode)
    ensures
        sum_sizes(flatten_spec(node)) == tree_size(node),
    decreases node,
{
    match node {
        FileNode::File { .. } => {
            assert(seq![node].drop_last() =~= Seq::<FileNode>::empty());
            assert(sum_sizes(Seq::<FileNode>::empty()) == 0);
            assert(seq![node].last() == node);
        },
        FileNode::Directory { children, .. } => {
            lemma_size_conservation_list(children@);
        },
    }
}

/// Size conservation over a list of sibling trees.
pub proof fn lemma_size_conservation_list(nodes: Seq<FileNode>)
    ensures
        sum_sizes(flatten_list(nodes)) == tree_size_list(nodes),
    decreases nodes,
{
    if nodes.len() > 0 {
        lemma_size_conservation_list(nodes.drop_last());
        lemma_size_conservation(nodes.last());
        lemma_sum_sizes_concat(flatten_list(nodes.drop_last()), flatten_spec(nodes.last()));
    }
}

/// The total size of a flattened sequence of files, guarded against
/// overflow: the sum is returned exactly when it fits in a `u64`.
pub fn total_size(files: &Vec<FileNode>) -> (t: Option<u64>)
    ensures
        match t {
            Some(v) => v as int == sum_sizes(files@),
            None => sum_sizes(files@) > u64::MAX,
        },
{
    let mut acc: u64 = 0;
    let mut i: usize = 0;
    while i < files.len()
        invariant
            0 <= i <= files.len(),
            acc as int == sum_sizes(files@.take(i as int)),
        decreases files.len() - i,
    {
        let s = files[i].size();
        proof {
            assert(files@.take(i + 1).drop_last() =~= files@.take(i as int));
            assert(files@.take(i + 1).last() == files@[i as int]);
        }
        if s > u64::MAX - acc {
            proof {
                lemma_sum_take_le(files@, i + 1, files@.len() as int);
                assert(files@.take(files@.len() as int) =~= files@);
            }
            return None;
        }
        acc = acc + s;
        i = i + 1;
    }
    proof {
        assert(files@.take(files@.len() as int) =~= files@);
    }
    Some(acc)
}

} // verus!
