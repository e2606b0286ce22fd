use crate::diff::{DiffEntry, DiffType, DiffView};
use crate::error::{load_error, Error, ErrorView, Violation};
use crate::file::FileMetadata;
use crate::link::{children_view, ChildView, Lazy, LazyView, Link, LinkView};
use crate::node::Node;
use crate::order::{order_bytes, order_of, Order};
use crate::path::{join_path, RepoPath};
use vstd::prelude::*;
use vstd::std_specs::cmp::PartialEqSpecImpl;

verus! {

/// A file that a walk through a tree came to: its path and its record.
#[derive(Debug)]
pub struct File {
    pub path: RepoPath,
    pub meta: FileMetadata,
}

/// The mathematical content of a `File`.
pub ghost struct FileView {
    pub path: Seq<Seq<u8>>,
    pub meta: FileMetadata,
}

impl View for File {
    type V = FileView;

    open spec fn view(&self) -> FileView {
        FileView { path: self.path@, meta: self.meta }
    }
}

impl File {
    pub fn new(path: RepoPath, meta: FileMetadata) -> (r: File)
        ensures
            r@ == (FileView { path: path@, meta }),
    {
        File { path, meta }
    }

    /// The file that the link is, at the given path; `None` for a directory.
    pub fn from_link(link: &Link, path: RepoPath) -> (r: Option<File>)
        ensures
            match link@ {
                LinkView::Leaf(meta) => r is Some && r.unwrap()@ == (FileView { path: path@, meta }),
                _ => r is None,
            },
    {
        match link {
            Link::Leaf(meta) => Some(File { path, meta: *meta }),
            _ => None,
        }
    }

    /// The difference that the file makes where only the left tree has it.
    pub fn into_left(self) -> (r: DiffEntry)
        ensures
            r@ == (DiffView { path: self@.path, diff_type: DiffType::LeftOnly(self@.meta) }),
    {
        DiffEntry::new(self.path, DiffType::LeftOnly(self.meta))
    }

    /// The difference that the file makes where only the right tree has it.
    pub fn into_right(self) -> (r: DiffEntry)
        ensures
            r@ == (DiffView { path: self@.path, diff_type: DiffType::RightOnly(self@.meta) }),
    {
        DiffEntry::new(self.path, DiffType::RightOnly(self.meta))
    }

    /// The difference between this file of the left tree and the file of the
    /// right tree at the same path.
    pub fn into_changed(self, other: File) -> (r: DiffEntry)
        ensures
            r@ == (DiffView { path: self@.path, diff_type: DiffType::Changed(self@.meta, other@.meta) }),
    {
        DiffEntry::new(self.path, DiffType::Changed(self.meta, other.meta))
    }

    /// Tells whether two files are the same.
    pub fn same(&self, other: &File) -> (r: bool)
        ensures
            r == (self@ == other@),
    {
        self.path.same(&other.path) && self.meta.same(&other.meta)
    }
}

impl Clone for File {
    fn clone(&self) -> (r: Self)
        ensures
            r@ == self@,
    {
        File { path: self.path.clone(), meta: self.meta }
    }
}

impl PartialEq for File {
    fn eq(&self, other: &File) -> (r: bool) {
        self.same(other)
    }
}

impl PartialEqSpecImpl for File {
    open spec fn obeys_eq_spec() -> bool {
        true
    }

    open spec fn eq_spec(&self, other: &File) -> bool {
        self@ == other@
    }
}

/// A directory that a walk through a tree came to: its path, its hash if it
/// has one, and the link that it is.
#[derive(Debug)]
pub struct Directory<'a> {
    pub path: RepoPath,
    pub node: Option<Node>,
    pub link: &'a Link,
}

/// The hash of a directory, if it has one.
pub open spec fn hash_of(l: LinkView) -> Option<Seq<u8>> {
    match l {
        LinkView::Durable(n, _) => Some(n),
        _ => None,
    }
}

/// The view of an optional node.
pub open spec fn node_view(n: Option<Node>) -> Option<Seq<u8>> {
    match n {
        Some(x) => Some(x@),
        None => None,
    }
}

/// The views of a list of files.
pub open spec fn files_view(v: Seq<File>) -> Seq<FileView> {
    Seq::new(v.len(), |i: int| v[i]@)
}

/// The files among the first `n` children of the directory at `path`, in
/// order.
pub open spec fn child_files(cs: Seq<ChildView>, path: Seq<Seq<u8>>, n: int) -> Seq<FileView>
    decreases n,
{
    if n <= 0 || n > cs.len() {
        Seq::empty()
    } else {
        match cs[n - 1].link {
            LinkView::Leaf(meta) => child_files(cs, path, n - 1).push(
                FileView { path: path.push(cs[n - 1].name), meta },
            ),
            _ => child_files(cs, path, n - 1),
        }
    }
}

/// The directories among the first `n` children of the directory at `path`,
/// in order: the path and the link of each.
pub open spec fn child_dirs(cs: Seq<ChildView>, path: Seq<Seq<u8>>, n: int) -> Seq<(Seq<Seq<u8>>, LinkView)>
    decreases n,
{
    if n <= 0 || n > cs.len() {
        Seq::empty()
    } else {
        match cs[n - 1].link {
            LinkView::Leaf(_) => child_dirs(cs, path, n - 1),
            d => child_dirs(cs, path, n - 1).push((path.push(cs[n - 1].name), d)),
        }
    }
}

/// The paths and links of a list of directories.
pub open spec fn dirs_view(v: Seq<Directory>) -> Seq<(Seq<Seq<u8>>, LinkView)> {
    Seq::new(v.len(), |i: int| (v[i].path@, v[i].link@))
}

/// How two directories stand to each other: by their paths written as text
/// and, where the paths are the same, by their hashes, a directory without a
/// hash before any with one.
pub open spec fn dir_order(
    path: Seq<Seq<u8>>,
    node: Option<Seq<u8>>,
    other_path: Seq<Seq<u8>>,
    other_node: Option<Seq<u8>>,
) -> Order {
    match order_of(join_path(path), join_path(other_path)) {
        Order::Equal => match (node, other_node) {
            (None, None) => Order::Equal,
            (None, Some(_)) => Order::Less,
            (Some(_), None) => Order::Greater,
            (Some(a), Some(b)) => order_of(a, b),
        },
        o => o,
    }
}

impl<'a> Directory<'a> {
    /// The record agrees with its link: the link is a directory, and the
    /// hash is that of the link.
    pub open spec fn wf(&self) -> bool {
        self.link@.is_dir() && node_view(self.node) == hash_of(self.link@)
    }

    /// The directory that the link is, at the given path; `None` for a file.
    pub fn from_link(link: &'a Link, path: RepoPath) -> (r: Option<Directory<'a>>)
        ensures
            r is Some <==> link@.is_dir(),
            r is Some ==> r.unwrap().wf() && r.unwrap().path@ == path@ && r.unwrap().link@ == link@,
    {
        let node = match link {
            Link::Leaf(_) => {
                return None;
            },
            Link::Ephemeral(_) => None,
            Link::Durable(entry) => Some(entry.node),
        };
        Some(Directory { path, node, link })
    }

    /// The directory that the root link is.
    pub fn from_root(link: &'a Link) -> (r: Option<Directory<'a>>)
        ensures
            r is Some <==> link@.is_dir(),
            r is Some ==> r.unwrap().wf() && r.unwrap().path@ == Seq::<Seq<u8>>::empty()
                && r.unwrap().link@ == link@,
    {
        Self::from_link(link, RepoPath::new())
    }

    /// The path and the hash under which the directory is stored, if it has
    /// a hash.
    pub fn key(&self) -> (r: Option<(RepoPath, Node)>)
        ensures
            r is Some <==> self.node is Some,
            r is Some ==> r.unwrap().0@ == self.path@ && r.unwrap().1 == self.node.unwrap(),
    {
        match self.node {
            Some(node) => Some((self.path.clone(), node)),
            None => None,
        }
    }

    /// The files and the directories that stand directly in the directory,
    /// each in the order of the names. Fails with the error of a directory
    /// that failed to load, and with `NotLoaded` for a stored directory that
    /// was not asked for yet.
    pub fn list(&self) -> (r: Result<(Vec<File>, Vec<Directory<'a>>), Error>)
        requires
            self.wf(),
        ensures
            match self.link@ {
                LinkView::Durable(n, LazyView::Failed(fault)) => r is Err && r.unwrap_err()@ == load_error(
                    self.path@,
                    n,
                    fault,
                ),
                LinkView::Durable(n, LazyView::Unloaded) => r is Err && r.unwrap_err()@
                    == ErrorView::InvariantViolated(Violation::NotLoaded),
                d => r is Ok && files_view(r.unwrap().0@) == child_files(
                    d.children(),
                    self.path@,
                    d.children().len() as int,
                ) && dirs_view(r.unwrap().1@) == child_dirs(
                    d.children(),
                    self.path@,
                    d.children().len() as int,
                ) && forall|i: int| 0 <= i < r.unwrap().1@.len() ==> (#[trigger] r.unwrap().1@[i]).wf(),
            },
    {
        let cs = match self.link {
            Link::Ephemeral(cs) => cs,
            Link::Durable(entry) => match &entry.links {
                Lazy::Loaded(cs) => cs,
                Lazy::Failed(f) => {
                    return Err(Error::from_load(&self.path, &entry.node, *f));
                },
                Lazy::Unloaded => {
                    return Err(Error::InvariantViolated(Violation::NotLoaded));
                },
            },
            Link::Leaf(_) => {
                return Err(Error::InvariantViolated(Violation::NotLoaded));
            },
        };
        let ghost cv = children_view(cs@);
        let mut files: Vec<File> = Vec::new();
        let mut dirs: Vec<Directory<'a>> = Vec::new();
        let mut i: usize = 0;
        assert(files_view(files@) =~= child_files(cv, self.path@, 0));
        assert(dirs_view(dirs@) =~= child_dirs(cv, self.path@, 0));
        while i < cs.len()
            invariant
                i <= cs@.len(),
                cv == children_view(cs@),
                files_view(files@) == child_files(cv, self.path@, i as int),
                dirs_view(dirs@) == child_dirs(cv, self.path@, i as int),
                forall|k: int| 0 <= k < dirs@.len() ==> (#[trigger] dirs@[k]).wf(),
            decreases cs@.len() - i,
        {
            let c = &cs[i];
            assert(cv[i as int] == c@);
            let mut path = self.path.clone();
            path.push(c.name.clone());
            let ghost fv = files_view(files@);
            let ghost dv = dirs_view(dirs@);
            match &c.link {
                Link::Leaf(meta) => {
                    let f = File { path, meta: *meta };
                    let ghost v = f@;
                    files.push(f);
                    assert(files_view(files@) =~= fv.push(v));
                },
                link => {
                    let node = match link {
                        Link::Durable(entry) => Some(entry.node),
                        _ => None,
                    };
                    let d = Directory { path, node, link };
                    let ghost v = (d.path@, d.link@);
                    dirs.push(d);
                    assert(dirs_view(dirs@) =~= dv.push(v));
                },
            }
            i += 1;
        }
        Ok((files, dirs))
    }

    /// Tells how the directory stands to another in the order of
    /// directories: see `dir_order`.
    pub fn order(&self, other: &Directory<'a>) -> (r: Order)
        ensures
            r == dir_order(self.path@, node_view(self.node), other.path@, node_view(other.node)),
    {
        match order_bytes(self.path.to_bytes().as_slice(), other.path.to_bytes().as_slice()) {
            Order::Equal => match (self.node, other.node) {
                (None, None) => Order::Equal,
                (None, Some(_)) => Order::Less,
                (Some(_), None) => Order::Greater,
                (Some(a), Some(b)) => order_bytes(a.bytes.as_slice(), b.bytes.as_slice()),
            },
            o => o,
        }
    }

    /// Tells whether two records stand for the same directory: the same
    /// path and the same hash, or no hash on either side.
    pub fn same(&self, other: &Directory<'a>) -> (r: bool)
        ensures
            r == (self.path@ == other.path@ && node_view(self.node) == node_view(other.node)),
    {
        if !self.path.same(&other.path) {
            return false;
        }
        match (self.node, other.node) {
            (Some(a), Some(b)) => a.same(&b),
            (None, None) => true,
            _ => false,
        }
    }
}

impl<'a> PartialEq for Directory<'a> {
    fn eq(&self, other: &Directory<'a>) -> (r: bool) {
        self.same(other)
    }
}

impl<'a> PartialEqSpecImpl for Directory<'a> {
    open spec fn obeys_eq_spec() -> bool {
        true
    }

    open spec fn eq_spec(&self, other: &Directory<'a>) -> bool {
        self.path@ == other.path@ && node_view(self.node) == node_view(other.node)
    }
}

} // verus!
