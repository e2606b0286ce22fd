use scm_core::entry::{from_elements, parse, Element, EntryFault, Flag};
use scm_core::error::{ConflictKind, Error, Violation};
use scm_core::cursor::{Cursor, Step};
use scm_core::diff::{diff, DiffEntry, DiffType};
use scm_core::dir::{Directory, File};
use scm_core::file::FileType;
use scm_core::files::{FileEntry, Files};
use scm_core::matcher::{AlwaysMatcher, NeverMatcher, TreeMatcher};
use scm_core::subtree::compat_subtree_diff;
use scm_core::link::{Lazy, Link};
use scm_core::file::{FileMetadata, FsNode};
use scm_core::node::Node;
use scm_core::order::Order;
use scm_core::path::{PathComponent, RepoPath};
use scm_core::store::{InnerStore, MemStore};
use scm_core::tree::{List, Tree};

fn repo_path(s: &str) -> RepoPath {
    RepoPath::from_str(s).unwrap()
}

fn path_component(s: &str) -> PathComponent {
    PathComponent::from_str(s).unwrap()
}

fn node(hex: &str) -> Node {
    let padded = format!("{:0>40}", hex);
    Node::from_hex(padded.as_bytes()).unwrap()
}

fn make_meta(hex: &str) -> FileMetadata {
    FileMetadata::regular(node(hex))
}

fn new_store() -> InnerStore<MemStore> {
    InnerStore::new(MemStore::new())
}

#[test]
fn test_insert() {
    let mut store = new_store();
    let mut tree = Tree::ephemeral();
    tree.insert(&mut store, repo_path("foo/bar"), make_meta("10")).unwrap();
    assert_eq!(tree.get_file(&mut store, &repo_path("foo/bar")).unwrap(), Some(make_meta("10")));
    assert_eq!(tree.get_file(&mut store, &repo_path("baz")).unwrap(), None);

    tree.insert(&mut store, repo_path("baz"), make_meta("20")).unwrap();
    assert_eq!(tree.get_file(&mut store, &repo_path("foo/bar")).unwrap(), Some(make_meta("10")));
    assert_eq!(tree.get_file(&mut store, &repo_path("baz")).unwrap(), Some(make_meta("20")));

    tree.insert(&mut store, repo_path("foo/bat"), make_meta("30")).unwrap();
    assert_eq!(tree.get_file(&mut store, &repo_path("foo/bat")).unwrap(), Some(make_meta("30")));
    assert_eq!(tree.get_file(&mut store, &repo_path("foo/bar")).unwrap(), Some(make_meta("10")));
    assert_eq!(tree.get_file(&mut store, &repo_path("baz")).unwrap(), Some(make_meta("20")));

    assert_eq!(
        tree.insert(&mut store, repo_path("foo/bar/error"), make_meta("40")).unwrap_err().message(),
        "Asked to insert 'foo/bar/error' but 'foo/bar' is already a file.",
    );
    assert_eq!(
        tree.insert(&mut store, repo_path("foo"), make_meta("50")).unwrap_err().message(),
        "Asked to insert 'foo' but it is already a directory.",
    );
}

#[test]
fn insert_conflicts_name_what_stands_in_the_way() {
    let mut store = new_store();
    let mut tree = Tree::ephemeral();
    tree.insert(&mut store, repo_path("foo/bar"), make_meta("10")).unwrap();
    match tree.insert(&mut store, repo_path("foo/bar/error"), make_meta("40")).unwrap_err() {
        Error::PathConflict { kind, path, at } => {
            assert_eq!(kind, ConflictKind::File);
            assert_eq!(path, repo_path("foo/bar/error"));
            assert_eq!(at, repo_path("foo/bar"));
        }
        other => panic!("unexpected error {:?}", other),
    }
    match tree.insert(&mut store, repo_path("foo"), make_meta("50")).unwrap_err() {
        Error::PathConflict { kind, path, .. } => {
            assert_eq!(kind, ConflictKind::Dir);
            assert_eq!(path, repo_path("foo"));
        }
        other => panic!("unexpected error {:?}", other),
    }
    assert!(matches!(
        tree.insert(&mut store, RepoPath::new(), make_meta("60")),
        Err(Error::PathConflict { kind: ConflictKind::Dir, .. })
    ));
    // the same file again changes nothing
    let before = tree.describe();
    tree.insert(&mut store, repo_path("foo/bar"), make_meta("10")).unwrap();
    assert_eq!(tree.describe(), before);
}

#[test]
fn test_insert_into_directory() {
    let mut store = new_store();
    let mut tree = Tree::ephemeral();
    tree.insert(&mut store, repo_path("foo/bar/baz"), make_meta("10")).unwrap();
    assert!(tree.insert(&mut store, repo_path("foo/bar"), make_meta("20")).is_err());
    assert!(tree.insert(&mut store, repo_path("foo"), make_meta("30")).is_err());
}

#[test]
fn test_insert_with_file_parent() {
    let mut store = new_store();
    let mut tree = Tree::ephemeral();
    tree.insert(&mut store, repo_path("foo"), make_meta("10")).unwrap();
    assert!(tree.insert(&mut store, repo_path("foo/bar"), make_meta("20")).is_err());
    assert!(tree.insert(&mut store, repo_path("foo/bar/baz"), make_meta("30")).is_err());
}

#[test]
fn test_get_from_directory() {
    let mut store = new_store();
    let mut tree = Tree::ephemeral();
    tree.insert(&mut store, repo_path("foo/bar/baz"), make_meta("10")).unwrap();
    assert_eq!(tree.get(&mut store, &repo_path("foo/bar")).unwrap(), Some(FsNode::Directory));
    assert_eq!(tree.get(&mut store, &repo_path("foo")).unwrap(), Some(FsNode::Directory));
}

#[test]
fn test_get_with_file_parent() {
    let mut store = new_store();
    let mut tree = Tree::ephemeral();
    tree.insert(&mut store, repo_path("foo"), make_meta("10")).unwrap();
    assert_eq!(tree.get(&mut store, &repo_path("foo/bar")).unwrap(), None);
    assert_eq!(tree.get(&mut store, &repo_path("foo/bar/baz")).unwrap(), None);
}

#[test]
fn test_remove_from_ephemeral() {
    let mut store = new_store();
    let mut tree = Tree::ephemeral();
    tree.insert(&mut store, repo_path("a1/b1/c1/d1"), make_meta("10")).unwrap();
    tree.insert(&mut store, repo_path("a1/b2"), make_meta("20")).unwrap();
    tree.insert(&mut store, repo_path("a2/b2/c2"), make_meta("30")).unwrap();

    assert_eq!(tree.remove(&mut store, &repo_path("a1")).unwrap(), None);
    assert_eq!(tree.remove(&mut store, &repo_path("a1/b1")).unwrap(), None);
    assert_eq!(tree.remove(&mut store, &repo_path("a1/b1/c1/d1/e1")).unwrap(), None);
    assert_eq!(tree.remove(&mut store, &repo_path("a1/b1/c1/d1")).unwrap(), Some(make_meta("10")));
    assert_eq!(tree.remove(&mut store, &repo_path("a3")).unwrap(), None);
    assert_eq!(tree.remove(&mut store, &repo_path("a1/b3")).unwrap(), None);
    assert_eq!(tree.remove(&mut store, &repo_path("a1/b1/c1/d2")).unwrap(), None);
    assert_eq!(tree.remove(&mut store, &repo_path("a1/b1/c1/d1/e1")).unwrap(), None);
    assert_eq!(tree.remove(&mut store, &RepoPath::new()).unwrap(), None);
    assert_eq!(tree.get(&mut store, &repo_path("a1/b1/c1/d1")).unwrap(), None);
    assert_eq!(tree.get(&mut store, &repo_path("a1/b1/c1")).unwrap(), None);
    assert_eq!(tree.get(&mut store, &repo_path("a1/b2")).unwrap(), Some(FsNode::File(make_meta("20"))));
    assert_eq!(tree.remove(&mut store, &repo_path("a1/b2")).unwrap(), Some(make_meta("20")));
    assert_eq!(tree.get(&mut store, &repo_path("a1")).unwrap(), None);

    assert_eq!(tree.get(&mut store, &repo_path("a2/b2/c2")).unwrap(), Some(FsNode::File(make_meta("30"))));
    assert_eq!(tree.remove(&mut store, &repo_path("a2/b2/c2")).unwrap(), Some(make_meta("30")));
    assert_eq!(tree.get(&mut store, &repo_path("a2")).unwrap(), None);

    assert_eq!(tree.get(&mut store, &RepoPath::new()).unwrap(), Some(FsNode::Directory));
}

#[test]
fn test_flush() {
    let mut store = new_store();
    let mut tree = Tree::ephemeral();
    tree.insert(&mut store, repo_path("a1/b1/c1/d1"), make_meta("10")).unwrap();
    tree.insert(&mut store, repo_path("a1/b2"), make_meta("20")).unwrap();
    tree.insert(&mut store, repo_path("a2/b2/c2"), make_meta("30")).unwrap();

    let node = tree.flush(&mut store).unwrap();

    let mut tree = Tree::durable(node);
    assert_eq!(tree.get_file(&mut store, &repo_path("a1/b1/c1/d1")).unwrap(), Some(make_meta("10")));
    assert_eq!(tree.get_file(&mut store, &repo_path("a1/b2")).unwrap(), Some(make_meta("20")));
    assert_eq!(tree.get_file(&mut store, &repo_path("a2/b2/c2")).unwrap(), Some(make_meta("30")));
    assert_eq!(tree.get(&mut store, &repo_path("a2/b1")).unwrap(), None);
}

#[test]
fn flush_twice_writes_once() {
    let mut store = new_store();
    let mut tree = Tree::ephemeral();
    tree.insert(&mut store, repo_path("a1/b1"), make_meta("10")).unwrap();
    tree.insert(&mut store, repo_path("a2"), make_meta("20")).unwrap();
    let first = tree.flush(&mut store).unwrap();
    let written = store.store.len();
    assert_eq!(written, 2);
    let second = tree.flush(&mut store).unwrap();
    assert_eq!(first, second);
    assert_eq!(store.store.len(), written);
}

#[test]
fn flush_hash_is_sha1_of_entry() {
    let mut store = new_store();
    let mut tree = Tree::ephemeral();
    tree.insert(&mut store, repo_path("d1"), make_meta("10")).unwrap();
    let root = tree.flush(&mut store).unwrap();
    // sha1("d1\0" + "0"*38 + "10" + "r\n")
    assert_eq!(root.to_hex(), b"9653d3c9fc2e0ce464d3fc87fcaf8b935fd79e59".to_vec());
}

#[test]
fn test_list() {
    let mut store = new_store();
    let mut tree = Tree::ephemeral();
    tree.insert(&mut store, repo_path("a1/b1/c1"), make_meta("10")).unwrap();
    tree.insert(&mut store, repo_path("a1/b2"), make_meta("20")).unwrap();
    let _node = tree.flush(&mut store).unwrap();
    tree.insert(&mut store, repo_path("a2/b3/c2"), make_meta("30")).unwrap();
    tree.insert(&mut store, repo_path("a2/b4"), make_meta("30")).unwrap();

    assert_eq!(tree.list(&mut store, &repo_path("not_found")).unwrap(), List::NotFound);
    assert_eq!(tree.list(&mut store, &repo_path("a1/b1/c1")).unwrap(), List::File);
    assert_eq!(
        tree.list(&mut store, &repo_path("a1/b1")).unwrap(),
        List::Directory(vec![path_component("c1")]),
    );
    assert_eq!(
        tree.list(&mut store, &repo_path("a1")).unwrap(),
        List::Directory(vec![path_component("b1"), path_component("b2")]),
    );
    assert_eq!(tree.list(&mut store, &repo_path("a2/b3/c2")).unwrap(), List::File);
    assert_eq!(
        tree.list(&mut store, &repo_path("a2/b3")).unwrap(),
        List::Directory(vec![path_component("c2")]),
    );
    assert_eq!(
        tree.list(&mut store, &repo_path("a2")).unwrap(),
        List::Directory(vec![path_component("b3"), path_component("b4")]),
    );
    assert_eq!(
        tree.list(&mut store, &RepoPath::new()).unwrap(),
        List::Directory(vec![path_component("a1"), path_component("a2")]),
    );
}

fn null_id() -> Node {
    Node::null_id()
}

fn get_node(tree: &Tree, path: &RepoPath) -> Node {
    let mut link = &tree.root;
    for i in 0..path.len() {
        let children = match link {
            Link::Ephemeral(cs) => cs,
            Link::Durable(entry) => match &entry.links {
                Lazy::Loaded(cs) => cs,
                other => panic!("directory is not loaded: {:?}", other),
            },
            Link::Leaf(_) => panic!("path runs through a file"),
        };
        let name = path.component(i);
        link = &children.iter().find(|c| &c.name == name).expect("no such child").link;
    }
    match link {
        Link::Durable(entry) => entry.node,
        other => panic!("no stored directory at the path: {:?}", other),
    }
}

#[test]
fn test_finalize_with_zero_and_one_parents() {
    let mut store = new_store();
    let mut tree = Tree::ephemeral();
    tree.insert(&mut store, repo_path("a1/b1/c1/d1"), make_meta("10")).unwrap();
    tree.insert(&mut store, repo_path("a1/b2"), make_meta("20")).unwrap();
    tree.insert(&mut store, repo_path("a2/b2/c2"), make_meta("30")).unwrap();
    let tree_changed = tree.finalize(&mut store, &mut vec![]).unwrap();

    assert_eq!(tree_changed.len(), 6);
    assert_eq!(tree_changed[0].0, repo_path("a1/b1/c1"));
    assert_eq!(tree_changed[1].0, repo_path("a1/b1"));
    assert_eq!(tree_changed[2].0, repo_path("a1"));
    assert_eq!(tree_changed[3].0, repo_path("a2/b2"));
    assert_eq!(tree_changed[4].0, repo_path("a2"));
    assert_eq!(tree_changed[5].0, RepoPath::new());

    for (path, node, raw, _, _) in tree_changed.iter() {
        store.insert(path, node, raw.clone()).unwrap();
    }

    let mut update = tree.clone();
    update.insert(&mut store, repo_path("a1/b2"), make_meta("40")).unwrap();
    update.remove(&mut store, &repo_path("a2/b2/c2")).unwrap();
    update.insert(&mut store, repo_path("a3/b1"), make_meta("50")).unwrap();
    let mut parents = vec![tree];
    let update_changed = update.finalize(&mut store, &mut parents).unwrap();
    assert_eq!(update_changed[0].0, repo_path("a1"));
    assert_eq!(update_changed[0].3, tree_changed[2].1);
    assert_eq!(update_changed[0].4, null_id());
    assert_eq!(update_changed[1].0, repo_path("a3"));
    assert_eq!(update_changed[1].3, null_id());
    assert_eq!(update_changed[1].4, null_id());
    assert_eq!(update_changed[2].0, RepoPath::new());
    assert_eq!(update_changed[2].3, tree_changed[5].1);
    assert_eq!(update_changed[2].4, null_id());
}

#[test]
fn test_finalize_merge() {
    let mut store = new_store();
    let mut first = Tree::ephemeral();
    first.insert(&mut store, repo_path("a1/b1/c1/d1"), make_meta("10")).unwrap();
    first.insert(&mut store, repo_path("a1/b2"), make_meta("20")).unwrap();
    first.insert(&mut store, repo_path("a2/b2/c2"), make_meta("30")).unwrap();
    let _first_changed = first.finalize(&mut store, &mut vec![]).unwrap();

    let mut second = Tree::ephemeral();
    second.insert(&mut store, repo_path("a1/b2"), make_meta("40")).unwrap();
    second.insert(&mut store, repo_path("a3/b1"), make_meta("50")).unwrap();
    let _second_changed = second.finalize(&mut store, &mut vec![]).unwrap();

    let mut tree = first.clone();
    tree.insert(&mut store, repo_path("a1/b2"), make_meta("40")).unwrap();
    tree.insert(&mut store, repo_path("a2/b2/c2"), make_meta("60")).unwrap();
    tree.insert(&mut store, repo_path("a3/b1"), make_meta("50")).unwrap();
    let mut parents = vec![first, second];
    let tree_changed = tree.finalize(&mut store, &mut parents).unwrap();
    let (first, second) = (&parents[0], &parents[1]);
    assert_eq!(tree_changed[0].0, repo_path("a1"));
    assert_eq!(tree_changed[0].3, get_node(first, &repo_path("a1")));
    assert_eq!(tree_changed[0].4, get_node(second, &repo_path("a1")));

    assert_eq!(tree_changed[1].0, repo_path("a2/b2"));
    assert_eq!(tree_changed[1].3, get_node(first, &repo_path("a2/b2")));
    assert_eq!(tree_changed[1].4, null_id());
    assert_eq!(tree_changed[2].0, repo_path("a2"));
    assert_eq!(tree_changed[3].0, repo_path("a3"));
    assert_eq!(tree_changed[3].3, get_node(second, &repo_path("a3")));
    assert_eq!(tree_changed[3].4, null_id());
    assert_eq!(tree_changed[4].0, RepoPath::new());

    assert_eq!(
        vec![tree_changed[4].3, tree_changed[4].4],
        vec![get_node(first, &RepoPath::new()), get_node(second, &RepoPath::new())]
    );
}

#[test]
fn test_finalize_file_to_directory() {
    let mut store = new_store();
    let mut tree1 = Tree::ephemeral();
    tree1.insert(&mut store, repo_path("a1"), make_meta("10")).unwrap();
    let tree1_changed = tree1.finalize(&mut store, &mut vec![]).unwrap();
    assert_eq!(tree1_changed[0].0, RepoPath::new());
    assert_eq!(tree1_changed[0].3, null_id());

    let mut tree2 = Tree::ephemeral();
    tree2.insert(&mut store, repo_path("a1/b1"), make_meta("20")).unwrap();
    let mut parents = vec![tree1];
    let tree2_changed = tree2.finalize(&mut store, &mut parents).unwrap();
    assert_eq!(tree2_changed[0].0, repo_path("a1"));
    assert_eq!(tree2_changed[0].3, null_id());
    assert_eq!(tree2_changed[1].0, RepoPath::new());
    assert_eq!(tree2_changed[1].3, tree1_changed[0].1);
    assert_eq!(tree2_changed[1].4, null_id());

    let mut tree3 = Tree::ephemeral();
    tree3.insert(&mut store, repo_path("a1"), make_meta("30")).unwrap();
    let mut parents = vec![tree2];
    let tree3_changed = tree3.finalize(&mut store, &mut parents).unwrap();
    assert_eq!(tree3_changed[0].0, RepoPath::new());
    assert_eq!(tree3_changed[0].3, tree2_changed[1].1);
    assert_eq!(tree3_changed[0].4, null_id());
}

#[test]
fn test_finalize_on_durable() {
    let mut store = new_store();
    let mut tree1 = Tree::ephemeral();
    tree1.insert(&mut store, repo_path("a1/b1/c1/d1"), make_meta("10")).unwrap();
    tree1.insert(&mut store, repo_path("a1/b2"), make_meta("20")).unwrap();
    tree1.insert(&mut store, repo_path("a2/b2/c2"), make_meta("30")).unwrap();
    let _tree1_changed = tree1.finalize(&mut store, &mut vec![]).unwrap();

    let mut tree2 = tree1.clone();
    tree2.insert(&mut store, repo_path("a1/b2"), make_meta("40")).unwrap();
    tree2.insert(&mut store, repo_path("a2/b2/c2"), make_meta("60")).unwrap();
    tree2.insert(&mut store, repo_path("a3/b1"), make_meta("50")).unwrap();
    let mut parents = vec![tree1];
    let tree_changed = tree2.finalize(&mut store, &mut parents).unwrap();
    assert_eq!(tree2.finalize(&mut store, &mut parents).unwrap(), tree_changed);
}

#[test]
fn finalize_against_lazily_loaded_parent() {
    let mut store = new_store();
    let mut first = Tree::ephemeral();
    first.insert(&mut store, repo_path("a1/b1"), make_meta("10")).unwrap();
    first.insert(&mut store, repo_path("a2/b2"), make_meta("20")).unwrap();
    let made = first.finalize(&mut store, &mut vec![]).unwrap();
    let root = made[2].1;

    let mut second = Tree::durable(root);
    second.insert(&mut store, repo_path("a2/b3"), make_meta("30")).unwrap();
    let mut parents = vec![Tree::durable(root)];
    let changed = second.finalize(&mut store, &mut parents).unwrap();
    assert_eq!(changed.len(), 2);
    assert_eq!(changed[0].0, repo_path("a2"));
    assert_eq!(changed[0].3, made[1].1);
    assert_eq!(changed[1].0, RepoPath::new());
    assert_eq!(changed[1].3, root);
    assert_eq!(changed[1].4, null_id());
}

#[test]
fn finalize_hash_mixes_sorted_parents() {
    let mut store = new_store();
    let mut tree = Tree::ephemeral();
    tree.insert(&mut store, repo_path("d1"), make_meta("10")).unwrap();
    let made = tree.finalize(&mut store, &mut vec![]).unwrap();
    // sha1(null ++ null ++ "d1\0" + "0"*38 + "10" + "r\n")
    assert_eq!(made[0].1.to_hex(), b"b45066d78c899a41f877a7e5d31da01726aa6aa2".to_vec());
}

#[test]
fn finalize_rejects_ephemeral_parent_and_three_parents() {
    let mut store = new_store();
    let mut parent = Tree::ephemeral();
    parent.insert(&mut store, repo_path("a"), make_meta("10")).unwrap();
    let mut tree = Tree::ephemeral();
    tree.insert(&mut store, repo_path("b"), make_meta("20")).unwrap();
    let mut parents = vec![parent];
    assert!(matches!(
        tree.finalize(&mut store, &mut parents),
        Err(Error::InvariantViolated(Violation::EphemeralParent))
    ));
    let mut three = vec![Tree::ephemeral(), Tree::ephemeral(), Tree::ephemeral()];
    assert!(matches!(
        tree.finalize(&mut store, &mut three),
        Err(Error::InvariantViolated(Violation::TooManyParents))
    ));
}

fn store_element(path: &str, hex: &str, flag: Flag) -> Element {
    Element::new(path_component(path), node(hex), flag)
}

#[test]
fn test_durable_link() {
    let mut store = new_store();
    let root_entry = from_elements(vec![
        store_element("foo", "10", Flag::Directory),
        store_element("baz", "20", Flag::File(FileType::Regular)),
    ])
    .unwrap();
    store.insert(&RepoPath::new(), &node("1"), root_entry).unwrap();
    let foo_entry =
        from_elements(vec![store_element("bar", "11", Flag::File(FileType::Regular))]).unwrap();
    store.insert(&repo_path("foo"), &node("10"), foo_entry).unwrap();
    let mut tree = Tree::durable(node("1"));

    assert_eq!(tree.get_file(&mut store, &repo_path("foo/bar")).unwrap(), Some(make_meta("11")));
    assert_eq!(tree.get_file(&mut store, &repo_path("baz")).unwrap(), Some(make_meta("20")));

    tree.insert(&mut store, repo_path("foo/bat"), make_meta("12")).unwrap();
    assert_eq!(tree.get_file(&mut store, &repo_path("foo/bat")).unwrap(), Some(make_meta("12")));
    assert_eq!(tree.get_file(&mut store, &repo_path("foo/bar")).unwrap(), Some(make_meta("11")));
    assert_eq!(tree.get_file(&mut store, &repo_path("baz")).unwrap(), Some(make_meta("20")));
}

#[test]
fn test_remove_from_durable() {
    let mut store = new_store();
    let root_entry = from_elements(vec![
        store_element("a1", "10", Flag::Directory),
        store_element("a2", "20", Flag::File(FileType::Regular)),
    ])
    .unwrap();
    store.insert(&RepoPath::new(), &node("1"), root_entry).unwrap();
    let a1_entry = from_elements(vec![
        store_element("b1", "11", Flag::File(FileType::Regular)),
        store_element("b2", "12", Flag::File(FileType::Regular)),
    ])
    .unwrap();
    store.insert(&repo_path("a1"), &node("10"), a1_entry).unwrap();
    let mut tree = Tree::durable(node("1"));

    assert_eq!(tree.remove(&mut store, &repo_path("a1")).unwrap(), None);
    assert_eq!(tree.remove(&mut store, &repo_path("a1/b1")).unwrap(), Some(make_meta("11")));
    assert_eq!(tree.get(&mut store, &repo_path("a1/b1")).unwrap(), None);
    assert_eq!(tree.get(&mut store, &repo_path("a1/b2")).unwrap(), Some(FsNode::File(make_meta("12"))));
    assert_eq!(tree.remove(&mut store, &repo_path("a1/b2")).unwrap(), Some(make_meta("12")));
    assert_eq!(tree.get(&mut store, &repo_path("a1/b2")).unwrap(), None);
    assert_eq!(tree.get(&mut store, &repo_path("a1")).unwrap(), None);
    assert_eq!(tree.get_file(&mut store, &repo_path("a1")).unwrap(), None);

    assert_eq!(tree.get(&mut store, &repo_path("a2")).unwrap(), Some(FsNode::File(make_meta("20"))));
    assert_eq!(tree.remove(&mut store, &repo_path("a2")).unwrap(), Some(make_meta("20")));
    assert_eq!(tree.get(&mut store, &repo_path("a2")).unwrap(), None);

    assert_eq!(tree.get(&mut store, &RepoPath::new()).unwrap(), Some(FsNode::Directory));
}

#[test]
fn test_compat_subtree_diff() {
    let mut store = new_store();
    // add ("", 1), ("foo", 11), ("baz", 21), ("foo/bar", 111)
    let root_1_entry = from_elements(vec![
        store_element("foo", "11", Flag::Directory),
        store_element("baz", "21", Flag::File(FileType::Regular)),
    ])
    .unwrap();
    store.insert(&RepoPath::new(), &node("1"), root_1_entry.clone()).unwrap();
    let foo_11_entry =
        from_elements(vec![store_element("bar", "111", Flag::File(FileType::Regular))]).unwrap();
    store.insert(&repo_path("foo"), &node("11"), foo_11_entry.clone()).unwrap();

    // add ("", 2), ("foo", 12), ("baz", 21), ("foo/bar", 112)
    let root_2_entry = from_elements(vec![
        store_element("foo", "12", Flag::Directory),
        store_element("baz", "21", Flag::File(FileType::Regular)),
    ])
    .unwrap();
    store.insert(&RepoPath::new(), &node("2"), root_2_entry).unwrap();
    let foo_12_entry =
        from_elements(vec![store_element("bar", "112", Flag::File(FileType::Regular))]).unwrap();
    store.insert(&repo_path("foo"), &node("12"), foo_12_entry).unwrap();

    assert_eq!(
        compat_subtree_diff(&mut store, &RepoPath::new(), node("1"), vec![node("2")], 3).unwrap(),
        vec![
            (repo_path("foo"), node("11"), foo_11_entry.clone()),
            (RepoPath::new(), node("1"), root_1_entry.clone()),
        ]
    );
    assert_eq!(
        compat_subtree_diff(&mut store, &RepoPath::new(), node("1"), vec![node("2")], 1).unwrap(),
        vec![(RepoPath::new(), node("1"), root_1_entry.clone()),]
    );
    assert_eq!(
        compat_subtree_diff(&mut store, &repo_path("foo"), node("11"), vec![node("12")], 3).unwrap(),
        vec![(repo_path("foo"), node("11"), foo_11_entry.clone()),]
    );
    assert_eq!(
        compat_subtree_diff(&mut store, &RepoPath::new(), node("1"), vec![node("1")], 3).unwrap(),
        vec![]
    );
    assert_eq!(
        compat_subtree_diff(&mut store, &repo_path("foo"), node("11"), vec![node("11")], 3).unwrap(),
        vec![]
    );
}

#[test]
fn entry_round_trip_and_faults() {
    let bytes = from_elements(vec![
        store_element("foo", "11", Flag::Directory),
        store_element("bar", "21", Flag::File(FileType::Executable)),
        store_element("baz", "31", Flag::File(FileType::Symlink)),
    ])
    .unwrap();
    let mut expected = Vec::new();
    expected.extend_from_slice(b"bar\0");
    expected.extend_from_slice(format!("{:0>40}", "21").as_bytes());
    expected.extend_from_slice(b"x\nbaz\0");
    expected.extend_from_slice(format!("{:0>40}", "31").as_bytes());
    expected.extend_from_slice(b"l\nfoo\0");
    expected.extend_from_slice(format!("{:0>40}", "11").as_bytes());
    expected.extend_from_slice(b"t\n");
    assert_eq!(bytes, expected);
    let parsed = parse(&bytes).unwrap();
    assert_eq!(parsed.len(), 3);
    assert_eq!(parsed[0].component, path_component("bar"));
    assert_eq!(parsed[0].node, node("21"));
    assert_eq!(parsed[0].flag, Flag::File(FileType::Executable));
    assert_eq!(parsed[2].flag, Flag::Directory);

    assert_eq!(
        from_elements(vec![
            store_element("foo", "11", Flag::Directory),
            store_element("foo", "12", Flag::Directory),
        ]),
        Err(EntryFault::Unsorted)
    );
    let unsorted = [&bytes[46..], &bytes[..46]].concat();
    assert_eq!(parse(&unsorted).err(), Some(EntryFault::Unsorted));
    let twice = [&bytes[..46], &bytes[..46]].concat();
    assert_eq!(parse(&twice).err(), Some(EntryFault::Unsorted));
    assert_eq!(parse(b"foo").err(), Some(EntryFault::MissingNul));
    assert_eq!(parse(b"\0").err(), Some(EntryFault::BadName));
    assert_eq!(parse(b"a/b\0").err(), Some(EntryFault::BadName));
    assert_eq!(parse(b"foo\0abc").err(), Some(EntryFault::Truncated));
    let mut bad_hash = bytes[..46].to_vec();
    bad_hash[10] = b'G';
    assert_eq!(parse(&bad_hash).err(), Some(EntryFault::BadHash));
    let mut bad_flag = bytes[..46].to_vec();
    bad_flag[44] = b'q';
    assert_eq!(parse(&bad_flag).err(), Some(EntryFault::BadFlag));
    let mut no_newline = bytes[..46].to_vec();
    no_newline[45] = b' ';
    assert_eq!(parse(&no_newline).err(), Some(EntryFault::MissingNewline));
}

fn collect(mut files: Files) -> Vec<Result<FileEntry, Error>> {
    let mut out = Vec::new();
    while let Some(item) = files.next() {
        out.push(item);
    }
    out
}

fn collect_ok(files: Files) -> Vec<FileEntry> {
    collect(files).into_iter().map(|item| item.unwrap()).collect()
}

fn tree_matcher(rules: &[&str]) -> TreeMatcher {
    TreeMatcher::from_rules(&rules.iter().map(|r| r.as_bytes().to_vec()).collect()).unwrap()
}

#[test]
fn test_files_empty() {
    let mut store = new_store();
    let mut tree = Tree::ephemeral();
    assert!(tree.files(&mut store, &AlwaysMatcher::new()).next().is_none());
}

#[test]
fn test_files_ephemeral() {
    let mut store = new_store();
    let mut tree = Tree::ephemeral();
    tree.insert(&mut store, repo_path("a1/b1/c1/d1"), make_meta("10")).unwrap();
    tree.insert(&mut store, repo_path("a1/b2"), make_meta("20")).unwrap();
    tree.insert(&mut store, repo_path("a2/b2/c2"), make_meta("30")).unwrap();

    assert_eq!(
        collect_ok(tree.files(&mut store, &AlwaysMatcher::new())),
        vec!(
            (repo_path("a1/b1/c1/d1"), make_meta("10")),
            (repo_path("a1/b2"), make_meta("20")),
            (repo_path("a2/b2/c2"), make_meta("30")),
        )
    );
}

#[test]
fn test_files_durable() {
    let mut store = new_store();
    let mut tree = Tree::ephemeral();
    tree.insert(&mut store, repo_path("a1/b1/c1/d1"), make_meta("10")).unwrap();
    tree.insert(&mut store, repo_path("a1/b2"), make_meta("20")).unwrap();
    tree.insert(&mut store, repo_path("a2/b2/c2"), make_meta("30")).unwrap();
    let node = tree.flush(&mut store).unwrap();
    let mut tree = Tree::durable(node);

    assert_eq!(
        collect_ok(tree.files(&mut store, &AlwaysMatcher::new())),
        vec!(
            (repo_path("a1/b1/c1/d1"), make_meta("10")),
            (repo_path("a1/b2"), make_meta("20")),
            (repo_path("a2/b2/c2"), make_meta("30")),
        )
    );
}

#[test]
fn test_files_matcher() {
    let mut store = new_store();
    let mut tree = Tree::ephemeral();
    tree.insert(&mut store, repo_path("a1/b1/c1/d1"), make_meta("10")).unwrap();
    tree.insert(&mut store, repo_path("a1/b2"), make_meta("20")).unwrap();
    tree.insert(&mut store, repo_path("a2/b2/c2"), make_meta("30")).unwrap();
    tree.insert(&mut store, repo_path("a2/b2/c3"), make_meta("40")).unwrap();
    tree.insert(&mut store, repo_path("a3/b2/c3"), make_meta("50")).unwrap();

    assert_eq!(
        collect_ok(tree.files(&mut store, &tree_matcher(&["a2/b2"]))),
        vec!(
            (repo_path("a2/b2/c2"), make_meta("30")),
            (repo_path("a2/b2/c3"), make_meta("40"))
        )
    );
    assert_eq!(
        collect_ok(tree.files(&mut store, &tree_matcher(&["a1/*/c1"]))),
        vec!((repo_path("a1/b1/c1/d1"), make_meta("10")),)
    );
    assert_eq!(
        collect_ok(tree.files(&mut store, &tree_matcher(&["**/c3"]))),
        vec!(
            (repo_path("a2/b2/c3"), make_meta("40")),
            (repo_path("a3/b2/c3"), make_meta("50"))
        )
    );
}

#[test]
fn test_files_finish_on_error_when_collecting_to_vec() {
    let mut store = new_store();
    let mut tree = Tree::durable(node("1"));
    let file_results = collect(tree.files(&mut store, &AlwaysMatcher::new()));
    assert_eq!(file_results.len(), 1);
    assert!(file_results[0].is_err());

    let files_result =
        collect(tree.files(&mut store, &AlwaysMatcher::new())).into_iter().collect::<Result<Vec<_>, _>>();
    assert!(files_result.is_err());
}

#[test]
fn files_skips_directories_that_match_nothing() {
    let mut store = new_store();
    let mut tree = Tree::ephemeral();
    tree.insert(&mut store, repo_path("a1/b1"), make_meta("10")).unwrap();
    tree.insert(&mut store, repo_path("a2/b2"), make_meta("20")).unwrap();
    let root = tree.flush(&mut store).unwrap();
    let mut tree = Tree::durable(root);
    assert_eq!(collect_ok(tree.files(&mut store, &NeverMatcher::new())), vec![]);
    // nothing was loaded: the root matched nothing
    assert!(matches!(&tree.root, Link::Durable(entry) if matches!(entry.links, Lazy::Unloaded)));
    assert_eq!(
        collect_ok(tree.files(&mut store, &tree_matcher(&["a2"]))),
        vec![(repo_path("a2/b2"), make_meta("20"))]
    );
    // a1 was not looked into
    match &tree.root {
        Link::Durable(entry) => match &entry.links {
            Lazy::Loaded(cs) => {
                assert!(matches!(&cs[0].link, Link::Durable(e) if matches!(e.links, Lazy::Unloaded)));
                assert!(matches!(&cs[1].link, Link::Durable(e) if matches!(e.links, Lazy::Loaded(_))));
            }
            other => panic!("root is not loaded: {:?}", other),
        },
        other => panic!("unexpected root {:?}", other),
    }
}

fn sorted(mut entries: Vec<DiffEntry>) -> Vec<DiffEntry> {
    entries.sort_by(|a, b| a.path.to_bytes().cmp(&b.path.to_bytes()));
    entries
}

#[test]
fn diff_lists_left_right_and_changed() {
    let mut store = new_store();
    let mut left = Tree::ephemeral();
    left.insert(&mut store, repo_path("a1/b1"), make_meta("10")).unwrap();
    left.insert(&mut store, repo_path("a1/b2"), make_meta("20")).unwrap();
    left.insert(&mut store, repo_path("a2"), make_meta("30")).unwrap();
    left.insert(&mut store, repo_path("a3/b1/c1"), make_meta("40")).unwrap();
    let mut right = Tree::ephemeral();
    right.insert(&mut store, repo_path("a1/b2"), make_meta("21")).unwrap();
    right.insert(&mut store, repo_path("a2/b1"), make_meta("31")).unwrap();
    right.insert(&mut store, repo_path("a3/b1/c1"), make_meta("40")).unwrap();
    right.insert(&mut store, repo_path("a4"), make_meta("50")).unwrap();

    let (dfs, error) = diff(&mut left, &mut right, &mut store, &AlwaysMatcher::new(), false);
    assert!(error.is_none());
    assert_eq!(
        dfs,
        vec![
            DiffEntry::new(repo_path("a1/b1"), DiffType::LeftOnly(make_meta("10"))),
            DiffEntry::new(repo_path("a1/b2"), DiffType::Changed(make_meta("20"), make_meta("21"))),
            DiffEntry::new(repo_path("a2"), DiffType::LeftOnly(make_meta("30"))),
            DiffEntry::new(repo_path("a2/b1"), DiffType::RightOnly(make_meta("31"))),
            DiffEntry::new(repo_path("a4"), DiffType::RightOnly(make_meta("50"))),
        ]
    );
    let (bfs, error) = diff(&mut left, &mut right, &mut store, &AlwaysMatcher::new(), true);
    assert!(error.is_none());
    assert_eq!(
        bfs,
        vec![
            DiffEntry::new(repo_path("a2"), DiffType::LeftOnly(make_meta("30"))),
            DiffEntry::new(repo_path("a4"), DiffType::RightOnly(make_meta("50"))),
            DiffEntry::new(repo_path("a1/b1"), DiffType::LeftOnly(make_meta("10"))),
            DiffEntry::new(repo_path("a1/b2"), DiffType::Changed(make_meta("20"), make_meta("21"))),
            DiffEntry::new(repo_path("a2/b1"), DiffType::RightOnly(make_meta("31"))),
        ]
    );
    assert_eq!(sorted(dfs), sorted(bfs));

    let (only_a1, error) = diff(&mut left, &mut right, &mut store, &tree_matcher(&["a1"]), false);
    assert!(error.is_none());
    assert_eq!(only_a1.len(), 2);
}

#[test]
fn diff_skips_directories_with_the_same_hash() {
    let mut store = new_store();
    let mut base = Tree::ephemeral();
    base.insert(&mut store, repo_path("same/x"), make_meta("10")).unwrap();
    base.insert(&mut store, repo_path("other/y"), make_meta("20")).unwrap();
    let root = base.flush(&mut store).unwrap();
    let mut left = Tree::durable(root);
    let mut right = Tree::durable(root);
    right.insert(&mut store, repo_path("other/y"), make_meta("21")).unwrap();
    for bfs in [false, true] {
        let (entries, error) = diff(&mut left, &mut right, &mut store, &AlwaysMatcher::new(), bfs);
        assert!(error.is_none());
        assert_eq!(
            entries,
            vec![DiffEntry::new(
                repo_path("other/y"),
                DiffType::Changed(make_meta("20"), make_meta("21"))
            )]
        );
    }
    // the directory that both sides store under one hash was not loaded
    match &left.root {
        Link::Durable(entry) => match &entry.links {
            Lazy::Loaded(cs) => {
                assert_eq!(cs[1].name, path_component("same"));
                assert!(matches!(&cs[1].link, Link::Durable(e) if matches!(e.links, Lazy::Unloaded)));
            }
            other => panic!("root is not loaded: {:?}", other),
        },
        other => panic!("unexpected root {:?}", other),
    }
}

#[test]
fn diff_ends_with_the_error_of_a_directory_that_fails_to_load() {
    let mut store = new_store();
    let mut left = Tree::durable(node("1"));
    let mut right = Tree::ephemeral();
    right.insert(&mut store, repo_path("a"), make_meta("10")).unwrap();
    let (entries, error) = diff(&mut left, &mut right, &mut store, &AlwaysMatcher::new(), false);
    assert!(entries.is_empty());
    assert!(matches!(error, Some(Error::BlobNotFound { .. })));
    // the failure is kept: the store is not needed to fail again
    assert!(matches!(left.get(&mut store, &repo_path("a")), Err(Error::BlobNotFound { .. })));
}

#[test]
fn test_cursor_skip_on_root() {
    let mut store = new_store();
    let mut tree = Tree::ephemeral();
    let mut cursor = tree.root_cursor();
    cursor.skip_subtree();
    match cursor.step(&mut tree, &mut store) {
        Step::Success => panic!("should have reached the end of the tree"),
        Step::End => (), // success
        Step::Failed(error) => panic!("{:?}", error),
    }
}

fn step(cursor: &mut Cursor, tree: &mut Tree, store: &mut InnerStore<MemStore>) {
    match cursor.step(tree, store) {
        Step::Success => (),
        Step::End => panic!("reached the end too soon"),
        Step::Failed(error) => panic!("{:?}", error),
    }
}

#[test]
fn test_cursor_skip() {
    let mut store = new_store();
    let mut tree = Tree::ephemeral();
    tree.insert(&mut store, repo_path("a1"), make_meta("10")).unwrap();
    tree.insert(&mut store, repo_path("a2/b2"), make_meta("20")).unwrap();
    tree.insert(&mut store, repo_path("a3"), make_meta("30")).unwrap();

    let mut cursor = tree.root_cursor();
    step(&mut cursor, &mut tree, &mut store);
    assert_eq!(cursor.path(), &RepoPath::new());
    step(&mut cursor, &mut tree, &mut store);
    assert_eq!(cursor.path(), &RepoPath::from_str("a1").unwrap());
    // Skip leaf
    cursor.skip_subtree();
    step(&mut cursor, &mut tree, &mut store);
    assert_eq!(cursor.path(), &RepoPath::from_str("a2").unwrap());
    // Skip directory
    cursor.skip_subtree();
    step(&mut cursor, &mut tree, &mut store);
    assert_eq!(cursor.path(), &RepoPath::from_str("a3").unwrap());
    // Skip on the element before State::End
    cursor.skip_subtree();
    match cursor.step(&mut tree, &mut store) {
        Step::Success => panic!("should have reached the end of the tree"),
        Step::End => (), // success
        Step::Failed(error) => panic!("{:?}", error),
    }
}

#[test]
fn cursor_walks_every_link_in_order() {
    let mut store = new_store();
    let mut tree = Tree::ephemeral();
    tree.insert(&mut store, repo_path("a1/b1/c1"), make_meta("10")).unwrap();
    tree.insert(&mut store, repo_path("a1/b2"), make_meta("20")).unwrap();
    tree.insert(&mut store, repo_path("a2"), make_meta("30")).unwrap();
    let root = tree.flush(&mut store).unwrap();
    let mut tree = Tree::durable(root);
    let mut cursor = tree.root_cursor();
    let mut seen = Vec::new();
    loop {
        match cursor.step(&mut tree, &mut store) {
            Step::Success => seen.push(String::from_utf8(cursor.path().to_bytes()).unwrap()),
            Step::End => break,
            Step::Failed(error) => panic!("{:?}", error),
        }
    }
    assert_eq!(seen, vec!["", "a1", "a1/b1", "a1/b1/c1", "a1/b2", "a2"]);
    assert!(cursor.finished());
    assert!(matches!(cursor.step(&mut tree, &mut store), Step::End));
}

#[test]
fn test_debug() {
    let mut store = new_store();
    let mut tree = Tree::ephemeral();
    tree.insert(&mut store, repo_path("a1/b1/c1/d1"), make_meta("10")).unwrap();
    let _node = tree.flush(&mut store).unwrap();

    tree.insert(&mut store, repo_path("a1/b2"), make_meta("20")).unwrap();
    tree.insert(&mut store, repo_path("a2/b2/c2"), make_meta("30")).unwrap();

    let output = tree.debug_string();
    assert_eq!(
        output,
        "Root (Ephemeral)\n\
         | a1 (Ephemeral)\n\
         | | b1 (Durable, bc8e803fb3462f86ce7a0135a9287cbb1509bdc0)\n\
         | | | c1 (Durable, 9653d3c9fc2e0ce464d3fc87fcaf8b935fd79e59)\n\
         | | | | d1 (File, 0000000000000000000000000000000000000010, Regular)\n\
         | | b2 (File, 0000000000000000000000000000000000000020, Regular)\n\
         | a2 (Ephemeral)\n\
         | | b2 (Ephemeral)\n\
         | | | c2 (File, 0000000000000000000000000000000000000030, Regular)\n\
         "
    );
}

#[test]
fn test_file_from_link() {
    // Leaf link should result in a file.
    let meta = make_meta("a");
    let path = repo_path("test/leaf");

    let leaf = Link::Leaf(meta.clone());
    let file = File::from_link(&leaf, path.clone()).unwrap();

    let expected = File { path: path.clone(), meta };
    assert_eq!(file, expected);

    // Attempting to use a directory link should fail.
    let ephemeral = Link::Ephemeral(Vec::new());
    let _file = File::from_link(&ephemeral, path.clone());

    // Durable link should result in a directory.
    let durable = Tree::durable(node("a")).root;
    let file = File::from_link(&durable, path.clone());
    assert!(file.is_none());
}

#[test]
fn test_diff_entry_from_file() {
    let path = repo_path("foo/bar");
    let meta = make_meta("a");
    let file = File { path: path.clone(), meta: meta.clone() };

    let left = file.clone().into_left();
    let expected = DiffEntry::new(path.clone(), DiffType::LeftOnly(meta.clone()));
    assert_eq!(left, expected);

    let right = file.clone().into_right();
    let expected = DiffEntry::new(path.clone(), DiffType::RightOnly(meta.clone()));
    assert_eq!(right, expected);

    let meta2 = make_meta("b");
    let file2 = File { path: path.clone(), meta: meta2.clone() };

    let changed = file.into_changed(file2);
    let expected = DiffEntry::new(path, DiffType::Changed(meta, meta2));
    assert_eq!(changed, expected);
}

#[test]
fn test_directory_from_link() {
    let meta = make_meta("a");
    let path = repo_path("test/leaf");

    let ephemeral = Link::Ephemeral(Vec::new());
    let dir = Directory::from_link(&ephemeral, path.clone()).unwrap();
    let expected = Directory { path: path.clone(), node: None, link: &ephemeral };
    assert_eq!(dir, expected);

    let hash = node("b");
    let durable = Tree::durable(hash).root;
    let dir = Directory::from_link(&durable, path.clone()).unwrap();
    let expected = Directory { path: path.clone(), node: Some(hash), link: &ephemeral };
    assert_eq!(dir, expected);

    // If the Link is actually a file, we should get None.
    let leaf = Link::Leaf(meta.clone());
    let dir = Directory::from_link(&leaf, path.clone());
    assert!(dir.is_none());
}

fn make_tree(store: &mut InnerStore<MemStore>, files: &[(&str, &str)]) -> Tree {
    let mut tree = Tree::ephemeral();
    for (path, hex) in files {
        tree.insert(store, repo_path(path), make_meta(hex)).unwrap();
    }
    tree
}

#[test]
fn test_list_directory() {
    let mut store = new_store();
    let tree = make_tree(&mut store, &[("a", "1"), ("b/f", "2"), ("c", "3"), ("d/f", "4")]);
    let dir = Directory::from_root(&tree.root).unwrap();
    let (files, dirs) = dir.list().unwrap();

    let file_names = files.into_iter().map(|f| f.path).collect::<Vec<_>>();
    let dir_names = dirs.into_iter().map(|d| d.path).collect::<Vec<_>>();

    assert_eq!(file_names, vec![repo_path("a"), repo_path("c")]);
    assert_eq!(dir_names, vec![repo_path("b"), repo_path("d")]);
}

#[test]
fn insert_get_remove() {
    let mut store = new_store();
    let mut tree = Tree::ephemeral();
    tree.insert(&mut store, repo_path("foo/bar"), make_meta("10")).unwrap();
    assert_eq!(tree.get(&mut store, &repo_path("foo/bar")).unwrap(), Some(FsNode::File(make_meta("10"))));
    assert_eq!(tree.get(&mut store, &repo_path("foo")).unwrap(), Some(FsNode::Directory));
    assert_eq!(tree.remove(&mut store, &repo_path("foo/bar")).unwrap(), Some(make_meta("10")));
    assert_eq!(tree.get(&mut store, &repo_path("foo")).unwrap(), None);
    assert_eq!(tree.get(&mut store, &RepoPath::new()).unwrap(), Some(FsNode::Directory));
}

#[test]
fn failed_load_is_kept() {
    let mut store = new_store();
    let mut tree = Tree::durable(node("1"));
    assert!(matches!(tree.get(&mut store, &repo_path("a")), Err(Error::BlobNotFound { .. })));
    // the blob arrives later, but the failure is kept
    store.insert(&RepoPath::new(), &node("1"), Vec::new()).unwrap();
    assert!(matches!(tree.get(&mut store, &repo_path("a")), Err(Error::BlobNotFound { .. })));
    assert_eq!(tree.get(&mut store, &RepoPath::new()).unwrap(), Some(FsNode::Directory));
    assert!(matches!(tree.list(&mut store, &RepoPath::new()), Err(Error::BlobNotFound { .. })));

    store.insert(&RepoPath::new(), &node("2"), b"broken".to_vec()).unwrap();
    let mut broken = Tree::durable(node("2"));
    assert!(matches!(
        broken.get(&mut store, &repo_path("a")),
        Err(Error::InvariantViolated(Violation::MalformedEntry(EntryFault::MissingNul)))
    ));
}

#[test]
fn paths_are_checked() {
    assert!(RepoPath::from_str("a//b").is_none());
    assert!(RepoPath::from_str("/a").is_none());
    assert!(RepoPath::from_str("a/").is_none());
    assert!(RepoPath::from_bytes(b"a\0b").is_none());
    assert_eq!(RepoPath::from_str("").unwrap(), RepoPath::new());
    assert_eq!(RepoPath::from_str("a/b").unwrap().to_bytes(), b"a/b".to_vec());
    assert_eq!(RepoPath::from_str("a/b/c").unwrap().len(), 3);
    assert!(PathComponent::from_str("").is_none());
    assert!(PathComponent::from_str("a/b").is_none());
    assert!(Node::from_hex(b"00").is_none());
    assert!(Node::from_hex(b"000000000000000000000000000000000000001G").is_none());
    assert!(Node::from_hex(b"000000000000000000000000000000000000001A").is_none());
    assert_eq!(node("1f").to_hex(), b"000000000000000000000000000000000000001f".to_vec());
    assert!(Node::null_id().is_null());
    assert!(!node("1").is_null());
    assert!(Node::null_id().less_than(&node("1")));
}

#[test]
fn finalize_ignores_the_order_of_parents() {
    let mut store = new_store();
    let mut left = Tree::ephemeral();
    left.insert(&mut store, repo_path("a1/b1"), make_meta("10")).unwrap();
    left.insert(&mut store, repo_path("a2"), make_meta("20")).unwrap();
    left.finalize(&mut store, &mut vec![]).unwrap();
    let mut right = Tree::ephemeral();
    right.insert(&mut store, repo_path("a1/b2"), make_meta("30")).unwrap();
    right.finalize(&mut store, &mut vec![]).unwrap();

    let mut tree = Tree::ephemeral();
    tree.insert(&mut store, repo_path("a1/b1"), make_meta("10")).unwrap();
    tree.insert(&mut store, repo_path("a1/b2"), make_meta("30")).unwrap();
    tree.insert(&mut store, repo_path("a3"), make_meta("40")).unwrap();
    let mut swapped = tree.clone();

    let one = tree.finalize(&mut store, &mut vec![left.clone(), right.clone()]).unwrap();
    let other = swapped.finalize(&mut store, &mut vec![right, left]).unwrap();
    assert_eq!(one.len(), 2);
    assert_eq!(one.len(), other.len());
    for (a, b) in one.iter().zip(other.iter()) {
        assert_eq!(a.0, b.0);
        assert_eq!(a.1, b.1);
        assert_eq!(a.2, b.2);
        assert_eq!((a.3, a.4), (b.4, b.3));
    }
    assert_eq!(get_node(&tree, &RepoPath::new()), get_node(&swapped, &RepoPath::new()));
}

#[test]
fn directories_are_ordered_by_path_then_hash() {
    let link = Link::Ephemeral(Vec::new());
    let dir = |path: &str, hash: Option<&str>| Directory {
        path: repo_path(path),
        node: hash.map(node),
        link: &link,
    };
    assert_eq!(dir("a/b", None).order(&dir("a/b", None)), Order::Equal);
    assert_eq!(dir("a/b", None).order(&dir("a/c", None)), Order::Less);
    assert_eq!(dir("a/b", Some("1")).order(&dir("a", Some("2"))), Order::Greater);
    assert_eq!(dir("a-b", None).order(&dir("a/b", None)), Order::Less);
    assert_eq!(dir("a", None).order(&dir("a", Some("1"))), Order::Less);
    assert_eq!(dir("a", Some("2")).order(&dir("a", Some("1"))), Order::Greater);
    assert_eq!(dir("a", Some("2")).order(&dir("a", Some("2"))), Order::Equal);
}

#[test]
fn breadth_first_diff_goes_on_beside_a_directory_that_fails_below() {
    let mut store = new_store();
    let root = from_elements(vec![
        store_element("a", "10", Flag::Directory),
        store_element("b", "20", Flag::Directory),
    ])
    .unwrap();
    store.insert(&RepoPath::new(), &node("1"), root).unwrap();
    let a = from_elements(vec![store_element("x", "11", Flag::Directory)]).unwrap();
    store.insert(&repo_path("a"), &node("10"), a).unwrap();
    let b = from_elements(vec![store_element("y", "5", Flag::File(FileType::Regular))]).unwrap();
    store.insert(&repo_path("b"), &node("20"), b).unwrap();

    // breadth first, the file below `b` is seen before the missing `a/x` is looked into
    let mut left = Tree::ephemeral();
    let mut right = Tree::durable(node("1"));
    let (entries, error) = diff(&mut left, &mut right, &mut store, &AlwaysMatcher::new(), true);
    assert_eq!(entries, vec![DiffEntry::new(repo_path("b/y"), DiffType::RightOnly(make_meta("5")))]);
    match error {
        Some(Error::BlobNotFound { path, node: missing }) => {
            assert_eq!(path, repo_path("a/x"));
            assert_eq!(missing, node("11"));
        }
        other => panic!("{:?}", other),
    }

    // depth first, the missing directory comes first
    let mut left = Tree::ephemeral();
    let mut right = Tree::durable(node("1"));
    let (entries, error) = diff(&mut left, &mut right, &mut store, &AlwaysMatcher::new(), false);
    assert!(entries.is_empty());
    assert!(matches!(error, Some(Error::BlobNotFound { .. })));

    // against the same tree nothing is loaded, and nothing differs
    let mut left = Tree::durable(node("1"));
    let mut right = Tree::durable(node("1"));
    let (entries, error) = diff(&mut left, &mut right, &mut store, &AlwaysMatcher::new(), true);
    assert!(entries.is_empty() && error.is_none());
    assert!(matches!(&left.root, Link::Durable(entry) if matches!(entry.links, Lazy::Unloaded)));
}
