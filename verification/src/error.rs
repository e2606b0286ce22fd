use crate::entry::EntryFault;
use crate::node::Node;
use crate::path::RepoPath;
use vstd::prelude::*;

verus! {

/// What a path ran into when a file was to be inserted.
#[derive(Clone, Copy, Debug, PartialEq, Eq, Structural)]
pub enum ConflictKind {
    /// A component before the last names a file.
    File,
    /// The whole path names a directory.
    Dir,
}

/// A state that the data structures must never be in.
#[derive(Clone, Copy, Debug, PartialEq, Eq, Structural)]
pub enum Violation {
    /// A stored directory cannot be read.
    MalformedEntry(EntryFault),
    /// A directory is too large to be hashed.
    EntryTooLarge,
    /// A parent tree holds a directory that was never hashed.
    EphemeralParent,
    /// More than two parent trees were given.
    TooManyParents,
    /// The tree is deeper than a path can be long.
    PathTooLong,
    /// A stored directory is looked into that was not loaded.
    NotLoaded,
    /// The segment structure knows more vertices than the id map.
    IdDagAhead,
    /// The vertex space of the group is used up.
    VertexSpaceExhausted,
    /// The head got no vertex.
    HeadUnassigned,
    /// The parents of a commit were asked for but are not known.
    UnknownParents,
    /// A commit has no vertex where one is needed.
    UnknownVertex,
    /// A commit was fetched with parents other than those recorded for it.
    ParentsContradict,
}

/// Why a stored directory could not be loaded.
#[derive(Clone, Copy, Debug, PartialEq, Eq, Structural)]
pub enum LoadFault {
    NotFound,
    Io,
    Malformed(EntryFault),
}

/// What an operation of this library fails with.
#[derive(Debug)]
pub enum Error {
    /// The blob store holds nothing under the path and node.
    BlobNotFound { path: RepoPath, node: Node },
    /// The blob store could not be reached.
    StorageIo,
    /// A file cannot be inserted at `path` because of what stands at `at`.
    PathConflict { kind: ConflictKind, path: RepoPath, at: RepoPath },
    /// The data is not in a state it may be in.
    InvariantViolated(Violation),
    /// A vertex or a commit is already mapped to something else.
    IdMapCollision,
    /// The segment builder failed.
    DagBackend,
    /// The id map holds nothing for what was asked.
    NotFound,
}

/// The mathematical content of an `Error`.
pub ghost enum ErrorView {
    BlobNotFound { path: Seq<Seq<u8>>, node: Seq<u8> },
    StorageIo,
    PathConflict { kind: ConflictKind, path: Seq<Seq<u8>>, at: Seq<Seq<u8>> },
    InvariantViolated(Violation),
    IdMapCollision,
    DagBackend,
    NotFound,
}

impl View for Error {
    type V = ErrorView;

    open spec fn view(&self) -> ErrorView {
        match self {
            Error::BlobNotFound { path, node } => ErrorView::BlobNotFound { path: path@, node: node@ },
            Error::StorageIo => ErrorView::StorageIo,
            Error::PathConflict { kind, path, at } => ErrorView::PathConflict {
                kind: *kind,
                path: path@,
                at: at@,
            },
            Error::InvariantViolated(v) => ErrorView::InvariantViolated(*v),
            Error::IdMapCollision => ErrorView::IdMapCollision,
            Error::DagBackend => ErrorView::DagBackend,
            Error::NotFound => ErrorView::NotFound,
        }
    }
}

/// The error that a failed load of the directory at `path` with hash `node`
/// surfaces as.
pub open spec fn load_error(path: Seq<Seq<u8>>, node: Seq<u8>, fault: LoadFault) -> ErrorView {
    match fault {
        LoadFault::NotFound => ErrorView::BlobNotFound { path, node },
        LoadFault::Io => ErrorView::StorageIo,
        LoadFault::Malformed(f) => ErrorView::InvariantViolated(Violation::MalformedEntry(f)),
    }
}

impl Error {
    /// The error for a directory that failed to load.
    pub fn from_load(path: &RepoPath, node: &Node, fault: LoadFault) -> (r: Error)
        ensures
            r@ == load_error(path@, node@, fault),
    {
        match fault {
            LoadFault::NotFound => Error::BlobNotFound { path: path.clone(), node: *node },
            LoadFault::Io => Error::StorageIo,
            LoadFault::Malformed(f) => Error::InvariantViolated(Violation::MalformedEntry(f)),
        }
    }
}

} // verus!
