use std::cell::Cell;

use scm_core::error::Error;
use scm_core::file::{FileMetadata, FsNode};
use scm_core::node::Node;
use scm_core::path::RepoPath;
use scm_core::store::{InnerStore, MemStore, StoreFault, TreeStore};
use scm_core::subtree::fetched;
use scm_core::tree::Tree;

struct FailingStore;

impl TreeStore for FailingStore {
    fn get(&self, _path: &RepoPath, _node: &Node) -> Result<Vec<u8>, StoreFault> {
        Err(StoreFault::Io)
    }

    fn insert(&mut self, _path: &RepoPath, _node: &Node, _data: Vec<u8>) -> Result<(), StoreFault> {
        Err(StoreFault::Io)
    }
}

#[test]
fn mem_store_returns_newest_blob() {
    let mut store = MemStore::new();
    let path = RepoPath::from_str("foo/bar").unwrap();
    let node = Node::from_hex(b"0000000000000000000000000000000000000010").unwrap();
    assert_eq!(store.get(&path, &node), Err(StoreFault::NotFound));
    store.insert(&path, &node, vec![1, 2, 3]).unwrap();
    store.insert(&path, &node, vec![4, 5]).unwrap();
    assert_eq!(store.get(&path, &node), Ok(vec![4, 5]));
    assert_eq!(store.get(&RepoPath::new(), &node), Err(StoreFault::NotFound));
    assert_eq!(store.len(), 2);
}

#[test]
fn failing_store_fails() {
    let mut store = FailingStore;
    let node = Node::null_id();
    assert_eq!(store.get(&RepoPath::new(), &node), Err(StoreFault::Io));
    assert_eq!(store.insert(&RepoPath::new(), &node, vec![]), Err(StoreFault::Io));
}

#[test]
fn refusals_of_the_store_become_errors_with_path_and_hash() {
    let path = RepoPath::from_str("a/b").unwrap();
    let node = Node { bytes: [7u8; 20] };
    assert_eq!(fetched(Ok(vec![1, 2, 3]), &path, &node).unwrap(), vec![1, 2, 3]);
    match fetched(Err(StoreFault::NotFound), &path, &node) {
        Err(Error::BlobNotFound { path: p, node: n }) => {
            assert_eq!(p, path);
            assert_eq!(n, node);
        }
        other => panic!("{:?}", other),
    }
    assert!(matches!(fetched(Err(StoreFault::Io), &path, &node), Err(Error::StorageIo)));
}

struct CountingStore {
    inner: MemStore,
    gets: Cell<usize>,
}

impl TreeStore for CountingStore {
    fn get(&self, path: &RepoPath, node: &Node) -> Result<Vec<u8>, StoreFault> {
        self.gets.set(self.gets.get() + 1);
        self.inner.get(path, node)
    }

    fn insert(&mut self, path: &RepoPath, node: &Node, data: Vec<u8>) -> Result<(), StoreFault> {
        self.inner.insert(path, node, data)
    }
}

#[test]
fn a_stored_directory_is_asked_for_once() {
    let mut store = InnerStore::new(CountingStore { inner: MemStore::new(), gets: Cell::new(0) });
    let mut tree = Tree::ephemeral();
    let file = FileMetadata::regular(Node { bytes: [1u8; 20] });
    tree.insert(&mut store, RepoPath::from_str("a/b/c").unwrap(), file).unwrap();
    let root = tree.flush(&mut store).unwrap();
    assert_eq!(store.store.gets.get(), 0);

    let mut stored = Tree::durable(root);
    let path = RepoPath::from_str("a/b/c").unwrap();
    assert!(matches!(stored.get(&mut store, &path), Ok(Some(FsNode::File(_)))));
    assert_eq!(store.store.gets.get(), 3);
    assert!(matches!(stored.get(&mut store, &path), Ok(Some(FsNode::File(_)))));
    assert_eq!(store.store.gets.get(), 3);

    // a directory that is not there is asked for once, and fails every time
    let mut missing = Tree::durable(Node { bytes: [9u8; 20] });
    assert!(matches!(missing.get(&mut store, &path), Err(Error::BlobNotFound { .. })));
    assert!(matches!(missing.get(&mut store, &path), Err(Error::BlobNotFound { .. })));
    assert_eq!(store.store.gets.get(), 4);
}
