use crate::error::{load_error, Error, ErrorView, Violation};
use crate::file::FileMetadata;
use crate::link::{children_view, wf_children, Child, ChildView, Lazy, LazyView, Link, LinkView};
use crate::lookup::{
    kids_load_by, kids_load_to, lemma_kids_load_by_refl, lemma_kids_load_by_step, lemma_kids_load_to_refl, lemma_kids_load_to_trans, lemma_kids_update, lemma_loaded_by_last, lemma_loads_by_more, lemma_loads_by_refl, lemma_loads_by_trans, lemma_loads_to_refl, loads_by, loads_to,
};
use crate::matcher::{DirectoryMatch, Matcher};
use crate::path::RepoPath;
use crate::store::{
    extends, lemma_extends_one, lemma_extends_refl, lemma_extends_trans, InnerStore, TreeStore,
};
use crate::tree::{load_entry, Tree};
use vstd::prelude::*;

verus! {

/// The mathematical content of a file that a walk found: its path and its
/// record.
pub ghost struct FoundFile {
    pub path: Seq<Seq<u8>>,
    pub meta: FileMetadata,
}

/// What a walk over files came to: the files it found, in order, and the
/// error that ended it, if one did.
pub ghost struct Walk {
    pub files: Seq<FoundFile>,
    pub error: Option<ErrorView>,
}

/// The files at and below the link at `path` that the matcher takes, in the
/// order of their paths, up to the first error.
///
/// A file is asked for with `file_spec`. A directory is asked for with
/// `dir_spec`: of a directory that matches nothing, nothing is looked at;
/// any other directory has its children walked in order. A directory that
/// failed to load ends the walk with its error.
pub open spec fn files_below<M: Matcher>(l: LinkView, path: Seq<Seq<u8>>, m: M) -> Walk
    decreases l, 0int,
{
    match l {
        LinkView::Leaf(meta) => Walk {
            files: if m.file_spec(path) {
                seq![FoundFile { path, meta }]
            } else {
                Seq::empty()
            },
            error: None,
        },
        _ => if m.dir_spec(path) == DirectoryMatch::Nothing {
            Walk { files: Seq::empty(), error: None }
        } else {
            match l {
                LinkView::Durable(n, LazyView::Failed(fault)) => Walk {
                    files: Seq::empty(),
                    error: Some(load_error(path, n, fault)),
                },
                LinkView::Durable(n, LazyView::Unloaded) => Walk {
                    files: Seq::empty(),
                    error: Some(ErrorView::InvariantViolated(Violation::NotLoaded)),
                },
                _ => files_in(l.children(), path, m, l.children().len() as int),
            }
        },
    }
}

/// The files below the first `k` children of the directory at `path`.
pub open spec fn files_in<M: Matcher>(cs: Seq<ChildView>, path: Seq<Seq<u8>>, m: M, k: int) -> Walk
    decreases cs, k,
{
    if k <= 0 || k > cs.len() {
        Walk { files: Seq::empty(), error: None }
    } else {
        let before = files_in(cs, path, m, k - 1);
        if before.error is Some {
            before
        } else if path.len() >= usize::MAX {
            Walk {
                files: before.files,
                error: Some(ErrorView::InvariantViolated(Violation::PathTooLong)),
            }
        } else {
            let sub = files_below(cs[k - 1].link, path.push(cs[k - 1].name), m);
            Walk { files: before.files + sub.files, error: sub.error }
        }
    }
}

/// A file that a walk found: its path and its record.
pub type FileEntry = (RepoPath, FileMetadata);

/// The mathematical content of a list of found files.
pub open spec fn found_view(v: Seq<FileEntry>) -> Seq<FoundFile> {
    Seq::new(v.len(), |i: int| FoundFile { path: v[i].0@, meta: v[i].1 })
}

/// An error in the first `k` children ends the walk of the directory.
proof fn lemma_files_in_error<M: Matcher>(cs: Seq<ChildView>, path: Seq<Seq<u8>>, m: M, k: int, n: int)
    requires
        0 <= k <= n <= cs.len(),
        files_in(cs, path, m, k).error is Some,
    ensures
        files_in(cs, path, m, n) == files_in(cs, path, m, k),
    decreases n - k,
{
    if k < n {
        lemma_files_in_error(cs, path, m, k, n - 1);
    }
}

/// The walk of the first `k` children looks at these children only.
proof fn lemma_files_in_prefix<M: Matcher>(
    a: Seq<ChildView>,
    b: Seq<ChildView>,
    path: Seq<Seq<u8>>,
    m: M,
    k: int,
)
    requires
        0 <= k <= a.len(),
        k <= b.len(),
        forall|j: int| 0 <= j < k ==> a[j] == b[j],
    ensures
        files_in(a, path, m, k) == files_in(b, path, m, k),
    decreases k,
{
    if k > 0 {
        lemma_files_in_prefix(a, b, path, m, k - 1);
    }
}

/// The walk ended because a stored directory was not loaded.
pub open spec fn not_loaded(error: Option<Error>) -> bool {
    error is Some && error.unwrap()@ == ErrorView::InvariantViolated(Violation::NotLoaded)
}

/// Walks the link at the path: loads each stored directory that is looked
/// into, and collects the files that the matcher takes.
pub(crate) fn walk_files<S: TreeStore, M: Matcher>(
    link: &mut Link,
    store: &mut InnerStore<S>,
    matcher: &M,
    path: &mut RepoPath,
    out: &mut Vec<FileEntry>,
) -> (r: Option<Error>)
    requires
        old(link)@.wf(),
    ensures
        final(store).written@ == old(store).written@,
        final(path)@ == old(path)@,
        final(link)@.wf(),
        loads_to(old(link)@, final(link)@),
        extends(old(store).reads@, final(store).reads@),
        loads_by(old(link)@, final(link)@, old(path)@, final(store).reads@),
        found_view(final(out)@) == found_view(old(out)@) + files_below(
            final(link)@,
            old(path)@,
            *matcher,
        ).files,
        match files_below(final(link)@, old(path)@, *matcher).error {
            Some(e) => r is Some && r.unwrap()@ == e,
            None => r is None,
        },
        !not_loaded(r),
    decreases usize::MAX - old(path)@.len(), 1int,
{
    let ghost out0 = found_view(out@);
    let ghost r0 = store.reads@;
    proof {
        assert(out0 + Seq::<FoundFile>::empty() =~= out0);
        lemma_loads_to_refl(link@);
        lemma_loads_by_refl(link@, path@, r0);
        lemma_extends_refl(r0);
    }
    match link {
        Link::Leaf(meta) => {
            if matcher.matches_file(path) {
                let ghost f = FoundFile { path: path@, meta: *meta };
                out.push((path.clone(), *meta));
                assert(found_view(out@) =~= out0 + seq![f]);
            }
            None
        },
        Link::Ephemeral(cs) => {
            if matcher.matches_directory(path) == DirectoryMatch::Nothing {
                return None;
            }
            walk_children(cs, store, matcher, path, out)
        },
        Link::Durable(entry) => {
            if matcher.matches_directory(path) == DirectoryMatch::Nothing {
                return None;
            }
            load_entry(entry, store, path);
            let ghost r1 = store.reads@;
            let ghost mid = LinkView::Durable(entry.node@, entry.links@);
            proof {
                if old(link)@->Durable_1 is Unloaded {
                    lemma_extends_one(r0, r1);
                    lemma_loaded_by_last(entry.node@, path@, r1);
                } else {
                    lemma_loads_by_refl(mid, path@, r1);
                }
            }
            match &mut entry.links {
                Lazy::Loaded(cs) => {
                    let ghost loaded = children_view(cs@);
                    let r = walk_children(cs, store, matcher, path, out);
                    proof {
                        match old(link)@ {
                            LinkView::Durable(_, LazyView::Loaded(ca)) => {
                                assert(ca == loaded);
                            },
                            _ => {},
                        }
                        lemma_extends_trans(r0, r1, store.reads@);
                        lemma_loads_by_more(old(link)@, mid, path@, r1, store.reads@);
                        lemma_loads_by_trans(old(link)@, mid, link@, path@, store.reads@);
                    }
                    r
                },
                Lazy::Failed(f) => Some(Error::from_load(path, &entry.node, *f)),
                Lazy::Unloaded => Some(Error::InvariantViolated(Violation::NotLoaded)),
            }
        },
    }
}

/// Walks the children of the directory at the path in order.
fn walk_children<S: TreeStore, M: Matcher>(
    cs: &mut Vec<Child>,
    store: &mut InnerStore<S>,
    matcher: &M,
    path: &mut RepoPath,
    out: &mut Vec<FileEntry>,
) -> (r: Option<Error>)
    requires
        wf_children(children_view(old(cs)@)),
    ensures
        final(store).written@ == old(store).written@,
        final(path)@ == old(path)@,
        wf_children(children_view(final(cs)@)),
        kids_load_to(children_view(old(cs)@), children_view(final(cs)@)),
        extends(old(store).reads@, final(store).reads@),
        kids_load_by(children_view(old(cs)@), children_view(final(cs)@), old(path)@, final(store).reads@),
        found_view(final(out)@) == found_view(old(out)@) + files_in(
            children_view(final(cs)@),
            old(path)@,
            *matcher,
            final(cs)@.len() as int,
        ).files,
        match files_in(children_view(final(cs)@), old(path)@, *matcher, final(cs)@.len() as int).error {
            Some(e) => r is Some && r.unwrap()@ == e,
            None => r is None,
        },
        !not_loaded(r),
    decreases usize::MAX - old(path)@.len(), 0int,
{
    let ghost before = children_view(cs@);
    let ghost out0 = found_view(out@);
    let n = cs.len();
    let mut i: usize = 0;
    proof {
        lemma_kids_load_to_refl(before);
        lemma_kids_load_by_refl(before, path@, store.reads@);
        lemma_extends_refl(store.reads@);
        assert(out0 + Seq::<FoundFile>::empty() =~= out0);
    }
    while i < n
        invariant
            store.written@ == old(store).written@,
            extends(old(store).reads@, store.reads@),
            kids_load_by(before, children_view(cs@), old(path)@, store.reads@),
            n == cs@.len(),
            i <= n,
            before == children_view(old(cs)@),
            out0 == found_view(old(out)@),
            path@ == old(path)@,
            wf_children(children_view(cs@)),
            kids_load_to(before, children_view(cs@)),
            files_in(children_view(cs@), old(path)@, *matcher, i as int).error is None,
            found_view(out@) == out0 + files_in(children_view(cs@), old(path)@, *matcher, i as int).files,
        decreases n - i,
    {
        let ghost cur = children_view(cs@);
        let ghost sofar = files_in(cur, old(path)@, *matcher, i as int);
        let ghost out1 = found_view(out@);
        let ghost ri = store.reads@;
        if path.len() == usize::MAX {
            proof {
                let w = files_in(cur, old(path)@, *matcher, i + 1);
                assert(w.files == sofar.files);
                lemma_files_in_error(cur, old(path)@, *matcher, i + 1, n as int);
            }
            return Some(Error::InvariantViolated(Violation::PathTooLong));
        }
        let child = &mut cs[i];
        assert(child@ == cur[i as int]);
        assert(cur[i as int].link.wf());
        path.push(child.name.clone());
        let r = walk_files(&mut child.link, store, matcher, path, out);
        path.pop();
        proof {
            assert(path@ =~= old(path)@);
            let ch = cs@[i as int]@;
            let now = children_view(cs@);
            assert(now =~= cur.update(i as int, ch));
            lemma_kids_update(cur, i as int, ch);
            lemma_kids_load_to_trans(before, cur, now);
            lemma_extends_trans(old(store).reads@, ri, store.reads@);
            lemma_kids_load_by_step(before, cur, i as int, ch, old(path)@, ri, store.reads@);
            lemma_files_in_prefix(now, cur, old(path)@, *matcher, i as int);
            let sub = files_below(ch.link, old(path)@.push(ch.name), *matcher);
            assert(out0 + (sofar.files + sub.files) =~= out1 + sub.files);
            assert(now[i as int] == ch);
            let w = files_in(now, old(path)@, *matcher, i + 1);
            assert(w.files == sofar.files + sub.files);
            assert(w.error == sub.error);
        }
        match r {
            Some(e) => {
                proof {
                    lemma_files_in_error(children_view(cs@), old(path)@, *matcher, i + 1, n as int);
                }
                return Some(e);
            },
            None => {},
        }
        i += 1;
    }
    None
}

/// The files that a walk found, to be taken one by one, and the error that
/// ended the walk, if one did, as the last item.
pub struct Files {
    /// The items that are left, the next one last.
    pub items: Vec<Result<FileEntry, Error>>,
}

impl Files {
    /// Takes the next item; `None` when none is left.
    pub fn next(&mut self) -> (r: Option<Result<FileEntry, Error>>)
        ensures
            old(self).items@.len() == 0 ==> r is None && final(self).items@ == old(self).items@,
            old(self).items@.len() > 0 ==> r == Some(old(self).items@.last()) && final(self).items@
                == old(self).items@.drop_last(),
    {
        self.items.pop()
    }

    /// Number of items that are left.
    pub fn len(&self) -> (r: usize)
        ensures
            r == self.items@.len(),
    {
        self.items.len()
    }
}

/// The item is the file.
pub open spec fn item_is(item: Result<FileEntry, Error>, f: FoundFile) -> bool {
    match item {
        Ok(e) => e.0@ == f.path && e.1 == f.meta,
        Err(_) => false,
    }
}

/// The item is the error.
pub open spec fn item_fails(item: Result<FileEntry, Error>, e: ErrorView) -> bool {
    match item {
        Ok(_) => false,
        Err(x) => x@ == e,
    }
}

/// The result of a walk with its error replaced by the view of the error.
pub open spec fn walk_view(files: Seq<FileEntry>, error: Option<Error>) -> Walk {
    Walk {
        files: found_view(files),
        error: match error {
            Some(e) => Some(e@),
            None => None,
        },
    }
}

impl Tree {
    /// Lists the files of the tree that the matcher takes, in the order of
    /// their paths, and the error that ended the walk, if one did.
    ///
    /// Each stored directory that is looked into is loaded first, so the
    /// walk never ends for want of a directory that is not loaded; a
    /// directory of which the matcher takes nothing is not loaded. Each
    /// directory that is loaded holds what the store answered when it was
    /// asked for it: see `loads_by`. What is listed is read off the tree as
    /// it stands afterwards: see `files_below`.
    pub fn list_files<S: TreeStore, M: Matcher>(&mut self, store: &mut InnerStore<S>, matcher: &M) -> (r: (
        Vec<FileEntry>,
        Option<Error>,
    ))
        requires
            old(self).wf(),
        ensures
            final(store).written@ == old(store).written@,
            final(self).wf(),
            loads_to(old(self).root@, final(self).root@),
            extends(old(store).reads@, final(store).reads@),
            loads_by(old(self).root@, final(self).root@, Seq::empty(), final(store).reads@),
            walk_view(r.0@, r.1) == files_below(final(self).root@, Seq::empty(), *matcher),
            !not_loaded(r.1),
    {
        let mut out: Vec<FileEntry> = Vec::new();
        let mut path = RepoPath::new();
        assert(found_view(out@) =~= Seq::<FoundFile>::empty());
        let error = walk_files(&mut self.root, store, matcher, &mut path, &mut out);
        proof {
            let w = files_below(self.root@, Seq::empty(), *matcher);
            assert(Seq::<FoundFile>::empty() + w.files =~= w.files);
        }
        (out, error)
    }

    /// The files of the tree that the matcher takes, to be taken one by one
    /// in the order of their paths; an error that ended the walk is the
    /// last item. See `list_files`.
    pub fn files<S: TreeStore, M: Matcher>(&mut self, store: &mut InnerStore<S>, matcher: &M) -> (r: Files)
        requires
            old(self).wf(),
        ensures
            final(store).written@ == old(store).written@,
            final(self).wf(),
            loads_to(old(self).root@, final(self).root@),
            extends(old(store).reads@, final(store).reads@),
            loads_by(old(self).root@, final(self).root@, Seq::empty(), final(store).reads@),
            ({
                let w = files_below(final(self).root@, Seq::empty(), *matcher);
                let n = r.items@.len() as int;
                &&& n == w.files.len() + (if w.error is Some { 1int } else { 0int })
                &&& forall|i: int|
                    0 <= i < w.files.len() ==> item_is(#[trigger] r.items@[n - 1 - i], w.files[i])
                &&& w.error is Some ==> item_fails(r.items@[0], w.error.unwrap())
                &&& w.error != Some(ErrorView::InvariantViolated(Violation::NotLoaded))
            }),
    {
        let (mut found, error) = self.list_files(store, matcher);
        let ghost w = files_below(self.root@, Seq::empty(), *matcher);
        let ghost fv = found_view(found@);
        let mut items: Vec<Result<FileEntry, Error>> = Vec::new();
        let ghost base: int = 0;
        match error {
            Some(e) => {
                items.push(Err(e));
                proof {
                    base = 1;
                }
            },
            None => {},
        }
        let total = found.len();
        while found.len() > 0
            invariant
                store.written@ == old(store).written@,
                found@.len() <= total,
                total == fv.len(),
                fv == w.files,
                base == (if w.error is Some { 1int } else { 0int }),
                found_view(found@) == fv.subrange(0, found@.len() as int),
                items@.len() == base + total - found@.len(),
                w.error is Some ==> item_fails(items@[0], w.error.unwrap()),
                forall|k: int|
                    base <= k < items@.len() ==> item_is(#[trigger] items@[k], fv[total - 1 - (k - base)]),
            decreases found@.len(),
        {
            let ghost before = found_view(found@);
            let ghost n = found@.len() - 1;
            let f = found.pop().unwrap();
            proof {
                assert(before[n] == fv.subrange(0, n + 1)[n]);
                assert(found_view(found@) =~= fv.subrange(0, n));
            }
            items.push(Ok(f));
        }
        proof {
            let n = items@.len() as int;
            assert forall|i: int| 0 <= i < w.files.len() implies item_is(
                #[trigger] items@[n - 1 - i],
                w.files[i],
            ) by {
                let k = n - 1 - i;
                assert(base <= k < items@.len());
            }
        }
        Files { items }
    }
}

} // verus!
