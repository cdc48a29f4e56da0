//! Disk-usage visualization core: a file-tree model, a deterministic
//! flattening of the tree into its ordered sequence of file leaves, the
//! decision logic of the filesystem scanner, and the proportional
//! forward/inverse mapping between a linear extent and those files.

pub mod flatten;
pub mod mapper;
pub mod scan;
pub mod tree;
