use crate::node::{lemma_node_ext, Node};
use vstd::prelude::*;
use vstd::std_specs::cmp::PartialEqSpecImpl;

verus! {

/// What kind of file a leaf of the tree is.
#[derive(Clone, Copy, Debug, PartialEq, Eq, Structural)]
pub enum FileType {
    Regular,
    Executable,
    Symlink,
}

/// What the tree records of a file: the node of its content and its kind.
#[derive(Clone, Copy, Debug)]
pub struct FileMetadata {
    pub node: Node,
    pub file_type: FileType,
}

/// What stands at a path of the tree.
#[derive(Clone, Copy, Debug)]
pub enum FsNode {
    Directory,
    File(FileMetadata),
}

impl FileMetadata {
    pub fn new(node: Node, file_type: FileType) -> (r: FileMetadata)
        ensures
            r == (FileMetadata { node, file_type }),
    {
        FileMetadata { node, file_type }
    }

    /// A regular file with the given content node.
    pub fn regular(node: Node) -> (r: FileMetadata)
        ensures
            r == (FileMetadata { node, file_type: FileType::Regular }),
    {
        FileMetadata { node, file_type: FileType::Regular }
    }

    /// An executable file with the given content node.
    pub fn executable(node: Node) -> (r: FileMetadata)
        ensures
            r == (FileMetadata { node, file_type: FileType::Executable }),
    {
        FileMetadata { node, file_type: FileType::Executable }
    }

    /// A symbolic link with the given content node.
    pub fn symlink(node: Node) -> (r: FileMetadata)
        ensures
            r == (FileMetadata { node, file_type: FileType::Symlink }),
    {
        FileMetadata { node, file_type: FileType::Symlink }
    }

    /// Tells whether two records are the same.
    pub fn same(&self, other: &FileMetadata) -> (r: bool)
        ensures
            r == (*self == *other),
    {
        let r = self.node.same(&other.node) && self.file_type == other.file_type;
        proof {
            if r {
                lemma_node_ext(self.node, other.node);
            }
        }
        r
    }
}

impl PartialEq for FileMetadata {
    fn eq(&self, other: &FileMetadata) -> (r: bool) {
        self.same(other)
    }
}

impl PartialEqSpecImpl for FileMetadata {
    open spec fn obeys_eq_spec() -> bool {
        true
    }

    open spec fn eq_spec(&self, other: &FileMetadata) -> bool {
        *self == *other
    }
}

impl FsNode {
    /// Tells whether two answers are the same.
    pub fn same(&self, other: &FsNode) -> (r: bool)
        ensures
            r == (*self == *other),
    {
        match (self, other) {
            (FsNode::Directory, FsNode::Directory) => true,
            (FsNode::File(a), FsNode::File(b)) => a.same(b),
            _ => false,
        }
    }
}

impl PartialEq for FsNode {
    fn eq(&self, other: &FsNode) -> (r: bool) {
        self.same(other)
    }
}

impl PartialEqSpecImpl for FsNode {
    open spec fn obeys_eq_spec() -> bool {
        true
    }

    open spec fn eq_spec(&self, other: &FsNode) -> bool {
        *self == *other
    }
}

} // verus!
