use crate::entry::{elements_view, entry_bytes, serialize, Element, ElementView, Flag};
use crate::error::{Error, ErrorView, Violation};
use crate::hash::{hash_bytes, sha1, SHA1_LIMIT};
use crate::link::{
    children_view, wf_children, Child, ChildView, DurableEntry, Lazy, LazyView, Link, LinkView,
};
use crate::node::Node;
use crate::path::RepoPath;
use crate::store::{Blob, InnerStore, StoreFault, TreeStore};
use crate::edit::lemma_update_wf;
use crate::tree::Tree;
use vstd::prelude::*;

verus! {

/// The hash under which a parent directory lists the link. A directory
/// without a hash has none.
pub open spec fn link_node(l: LinkView) -> Seq<u8> {
    match l {
        LinkView::Leaf(m) => m.node@,
        LinkView::Durable(n, _) => n,
        LinkView::Ephemeral(_) => Seq::empty(),
    }
}

/// The flag with which a parent directory lists the link.
pub open spec fn link_flag(l: LinkView) -> Flag {
    match l {
        LinkView::Leaf(m) => Flag::File(m.file_type),
        _ => Flag::Directory,
    }
}

/// The line that a directory holds for a child.
pub open spec fn element_of(c: ChildView) -> ElementView {
    ElementView { name: c.name, node: link_node(c.link), flag: link_flag(c.link) }
}

/// The lines that a directory holds for its children.
pub open spec fn elements_of(cs: Seq<ChildView>) -> Seq<ElementView> {
    Seq::new(cs.len(), |i: int| element_of(cs[i]))
}

/// The stored form of a directory with the given children.
pub open spec fn dir_bytes(cs: Seq<ChildView>) -> Seq<u8> {
    entry_bytes(elements_of(cs))
}

/// The link after a flush: a directory without a hash becomes a stored
/// directory whose children are flushed and in memory and whose hash is the
/// SHA-1 digest of its stored form. Files and directories that have a hash
/// stay as they are.
pub open spec fn flushed(l: LinkView) -> LinkView
    decreases l,
{
    match l {
        LinkView::Ephemeral(cs) => {
            let fcs = flushed_children(cs);
            LinkView::Durable(sha1(dir_bytes(fcs)), LazyView::Loaded(fcs))
        },
        _ => l,
    }
}

/// The children of a directory after a flush.
pub open spec fn flushed_children(cs: Seq<ChildView>) -> Seq<ChildView>
    decreases cs,
{
    Seq::new(
        cs.len(),
        |i: int|
            if 0 <= i < cs.len() {
                ChildView { name: cs[i].name, link: flushed(cs[i].link) }
            } else {
                ChildView { name: Seq::empty(), link: LinkView::Ephemeral(Seq::empty()) }
            },
    )
}

/// The blobs that a flush of the link at `path` hands to the store, in
/// order: those of each child in turn, then the directory itself.
pub open spec fn flush_writes(l: LinkView, path: Seq<Seq<u8>>) -> Seq<Blob>
    decreases l,
{
    match l {
        LinkView::Ephemeral(cs) => {
            let fcs = flushed_children(cs);
            children_writes(cs, path, cs.len() as int).push(
                Blob { path, node: sha1(dir_bytes(fcs)), data: dir_bytes(fcs) },
            )
        },
        _ => Seq::empty(),
    }
}

/// The blobs that a flush of the first `n` children hands to the store.
pub open spec fn children_writes(cs: Seq<ChildView>, path: Seq<Seq<u8>>, n: int) -> Seq<Blob>
    decreases cs, n,
{
    if n <= 0 || n > cs.len() {
        Seq::empty()
    } else {
        children_writes(cs, path, n - 1) + flush_writes(cs[n - 1].link, path.push(cs[n - 1].name))
    }
}

/// The error that a refusal of the store to take a blob surfaces as.
pub open spec fn write_error(path: Seq<Seq<u8>>, node: Seq<u8>, fault: StoreFault) -> ErrorView {
    match fault {
        StoreFault::NotFound => ErrorView::BlobNotFound { path, node },
        StoreFault::Io => ErrorView::StorageIo,
    }
}

/// A flushed link has a hash, so flushing it again changes nothing and
/// writes nothing.
pub proof fn lemma_flush_idempotent(l: LinkView, path: Seq<Seq<u8>>)
    ensures
        !(flushed(l) is Ephemeral),
        flushed(flushed(l)) == flushed(l),
        flush_writes(flushed(l), path) == Seq::<Blob>::empty(),
        link_node(flushed(flushed(l))) == link_node(flushed(l)),
{
}

pub(crate) fn elements_from_children(cs: &Vec<Child>) -> (r: Vec<Element>)
    requires
        forall|i: int| 0 <= i < cs@.len() ==> !((#[trigger] cs@[i]).link@ is Ephemeral),
    ensures
        elements_view(r@) == elements_of(children_view(cs@)),
{
    let mut out: Vec<Element> = Vec::with_capacity(cs.len());
    let mut i: usize = 0;
    while i < cs.len()
        invariant
            i <= cs@.len(),
            out@.len() == i,
            forall|k: int| 0 <= k < cs@.len() ==> !((#[trigger] cs@[k]).link@ is Ephemeral),
            forall|k: int| 0 <= k < i ==> (#[trigger] out@[k])@ == element_of(cs@[k]@),
        decreases cs@.len() - i,
    {
        let c = &cs[i];
        let (node, flag) = match &c.link {
            Link::Leaf(m) => (m.node, Flag::File(m.file_type)),
            Link::Durable(entry) => (entry.node, Flag::Directory),
            Link::Ephemeral(_) => (Node::null_id(), Flag::Directory),
        };
        out.push(Element { component: c.name.clone(), node, flag });
        i += 1;
    }
    proof {
        let a = elements_view(out@);
        let b = elements_of(children_view(cs@));
        assert forall|k: int| 0 <= k < a.len() implies a[k] == b[k] by {
            assert(out@[k]@ == element_of(cs@[k]@));
            assert(children_view(cs@)[k] == cs@[k]@);
        }
        assert(a =~= b);
    }
    out
}

/// One child after another, flushing is pointwise.
proof fn lemma_flushed_children_ext(a: Seq<ChildView>, b: Seq<ChildView>)
    requires
        a.len() == b.len(),
        forall|k: int|
            0 <= k < a.len() ==> (#[trigger] a[k]).name == b[k].name && flushed(a[k].link) == flushed(
                b[k].link,
            ),
    ensures
        flushed_children(a) == flushed_children(b),
{
    assert forall|k: int| 0 <= k < a.len() implies flushed_children(a)[k] == flushed_children(b)[k] by {
        assert(a[k].name == b[k].name);
    }
    assert(flushed_children(a) =~= flushed_children(b));
}

/// A flush that was to write the blobs `full` stopped with the error `e`
/// at one of them: the blobs before it are written, in order, and nothing
/// else. The error is `EntryTooLarge` where the stored form of that blob is
/// too long to be hashed, and else the error of the store's refusal to take
/// that blob.
pub open spec fn flush_stopped(log0: Seq<Blob>, log1: Seq<Blob>, full: Seq<Blob>, e: ErrorView) -> bool {
    exists|k: int|
        {
            &&& 0 <= k < full.len()
            &&& log1 == log0 + #[trigger] full.subrange(0, k)
            &&& if full[k].data.len() >= SHA1_LIMIT {
                e == ErrorView::InvariantViolated(Violation::EntryTooLarge)
            } else {
                e == write_error(full[k].path, full[k].node, StoreFault::NotFound) || e == write_error(
                    full[k].path,
                    full[k].node,
                    StoreFault::Io,
                )
            }
        }
}

proof fn lemma_children_writes_grow(cs: Seq<ChildView>, path: Seq<Seq<u8>>, i: int, n: int)
    requires
        0 <= i <= n <= cs.len(),
    ensures
        children_writes(cs, path, i).len() <= children_writes(cs, path, n).len(),
        children_writes(cs, path, n).subrange(0, children_writes(cs, path, i).len() as int)
            == children_writes(cs, path, i),
    decreases n - i,
{
    if i < n {
        lemma_children_writes_grow(cs, path, i, n - 1);
        let a = children_writes(cs, path, i);
        let b = children_writes(cs, path, n - 1);
        let c = children_writes(cs, path, n);
        assert(c.subrange(0, a.len() as int) =~= b.subrange(0, a.len() as int));
    } else {
        let a = children_writes(cs, path, i);
        assert(a.subrange(0, a.len() as int) =~= a);
    }
}

/// A flush that stopped in child `i`, after all the writes of the children
/// before it, stopped among the writes of the first `n` children.
proof fn lemma_stopped_in_child(
    log0: Seq<Blob>,
    log1: Seq<Blob>,
    cs: Seq<ChildView>,
    path: Seq<Seq<u8>>,
    i: int,
    n: int,
    e: ErrorView,
)
    requires
        0 <= i < n <= cs.len(),
        flush_stopped(
            log0 + children_writes(cs, path, i),
            log1,
            flush_writes(cs[i].link, path.push(cs[i].name)),
            e,
        ),
    ensures
        flush_stopped(log0, log1, children_writes(cs, path, n), e),
{
    let base = children_writes(cs, path, i);
    let sub = flush_writes(cs[i].link, path.push(cs[i].name));
    let k = choose|k: int|
        {
            &&& 0 <= k < sub.len()
            &&& log1 == (log0 + base) + #[trigger] sub.subrange(0, k)
            &&& if sub[k].data.len() >= SHA1_LIMIT {
                e == ErrorView::InvariantViolated(Violation::EntryTooLarge)
            } else {
                e == write_error(sub[k].path, sub[k].node, StoreFault::NotFound) || e == write_error(
                    sub[k].path,
                    sub[k].node,
                    StoreFault::Io,
                )
            }
        };
    let upto = children_writes(cs, path, i + 1);
    let all = children_writes(cs, path, n);
    lemma_children_writes_grow(cs, path, i + 1, n);
    let m = base.len() + k;
    assert(upto == base + sub);
    assert(all.subrange(0, upto.len() as int) == upto);
    assert(all[m] == sub[k]) by {
        assert(all.subrange(0, upto.len() as int)[m] == upto[m]);
    }
    assert(all.subrange(0, m) =~= base + sub.subrange(0, k)) by {
        assert forall|j: int| 0 <= j < m implies all.subrange(0, m)[j] == (base + sub.subrange(0, k))[j] by {
            assert(all.subrange(0, upto.len() as int)[j] == upto[j]);
        }
    }
    assert(log1 =~= log0 + all.subrange(0, m));
}

/// Flushes the children of a directory in order. Stops at the first child
/// that fails.
fn flush_children<S: TreeStore>(
    cs: &mut Vec<Child>,
    store: &mut InnerStore<S>,
    path: &mut RepoPath,
) -> (r: Result<(), Error>)
    requires
        wf_children(children_view(old(cs)@)),
    ensures
        final(path)@ == old(path)@,
        wf_children(children_view(final(cs)@)),
        flushed_children(children_view(final(cs)@)) == flushed_children(children_view(old(cs)@)),
        r is Ok ==> children_view(final(cs)@) == flushed_children(children_view(old(cs)@))
            && final(store).written@ == old(store).written@ + children_writes(
            children_view(old(cs)@),
            old(path)@,
            old(cs)@.len() as int,
        ),
        r is Err ==> flush_stopped(
            old(store).written@,
            final(store).written@,
            children_writes(children_view(old(cs)@), old(path)@, old(cs)@.len() as int),
            r.unwrap_err()@,
        ),
    decreases children_view(old(cs)@), 0int,
{
    let ghost before = children_view(cs@);
    let n = cs.len();
    let mut i: usize = 0;
    assert(old(store).written@ + Seq::<Blob>::empty() =~= old(store).written@);
    while i < n
        invariant
            n == cs@.len(),
            i <= n,
            before.len() == n,
            before == children_view(old(cs)@),
            wf_children(before),
            path@ == old(path)@,
            wf_children(children_view(cs@)),
            forall|k: int|
                0 <= k < i ==> (#[trigger] children_view(cs@)[k]) == (ChildView {
                    name: before[k].name,
                    link: flushed(before[k].link),
                }),
            forall|k: int| i <= k < n ==> (#[trigger] children_view(cs@)[k]) == before[k],
            store.written@ == old(store).written@ + children_writes(before, old(path)@, i as int),
        decreases n - i,
    {
        let ghost cur = children_view(cs@);
        let ghost log = store.written@;
        let child = &mut cs[i];
        assert(child@ == cur[i as int]);
        assert(cur[i as int].link.wf());
        path.push(child.name.clone());
        let r = flush_link(&mut child.link, store, path);
        path.pop();
        proof {
            assert(path@ =~= old(path)@);
            let c = cs@[i as int]@;
            assert(children_view(cs@) =~= cur.update(i as int, c));
            lemma_update_wf(cur, i as int, c);
            lemma_flushed_children_ext_mixed(before, children_view(cs@), i as int);
        }
        if r.is_err() {
            proof {
                lemma_stopped_in_child(
                    old(store).written@,
                    store.written@,
                    before,
                    old(path)@,
                    i as int,
                    n as int,
                    r.unwrap_err()@,
                );
            }
            return r;
        }
        proof {
            assert(old(store).written@ + children_writes(before, old(path)@, i + 1) =~= log
                + flush_writes(before[i as int].link, old(path)@.push(before[i as int].name)));
        }
        i += 1;
    }
    proof {
        assert(children_view(cs@) =~= flushed_children(before));
        lemma_flushed_children_ext_mixed(before, children_view(cs@), n as int);
    }
    Ok(())
}

/// Children of which the first `i` are flushed, the one at `i`, if any,
/// flushes to the same as before, and the others stand as before, flush to
/// the same children as before.
proof fn lemma_flushed_children_ext_mixed(before: Seq<ChildView>, cur: Seq<ChildView>, i: int)
    requires
        before.len() == cur.len(),
        0 <= i <= before.len(),
        forall|k: int|
            0 <= k < i ==> (#[trigger] cur[k]) == (ChildView {
                name: before[k].name,
                link: flushed(before[k].link),
            }),
        i < before.len() ==> cur[i].name == before[i].name && flushed(cur[i].link) == flushed(
            before[i].link,
        ),
        forall|k: int| i < k < before.len() ==> (#[trigger] cur[k]) == before[k],
    ensures
        flushed_children(cur) == flushed_children(before),
{
    assert forall|k: int| 0 <= k < cur.len() implies (#[trigger] cur[k]).name == before[k].name
        && flushed(cur[k].link) == flushed(before[k].link) by {
        if k < i {
            lemma_flush_idempotent(before[k].link, Seq::empty());
        }
    }
    lemma_flushed_children_ext(cur, before);
}

/// Flushes one link: a directory without a hash is flushed child by child,
/// written to the store under the digest of its stored form, and then
/// becomes a stored directory. Any other link is left alone.
fn flush_link<S: TreeStore>(link: &mut Link, store: &mut InnerStore<S>, path: &mut RepoPath) -> (r:
    Result<(), Error>)
    requires
        old(link)@.wf(),
    ensures
        final(path)@ == old(path)@,
        final(link)@.wf(),
        flushed(final(link)@) == flushed(old(link)@),
        r is Ok ==> final(link)@ == flushed(old(link)@) && final(store).written@ == old(
            store,
        ).written@ + flush_writes(old(link)@, old(path)@),
        r is Err ==> flush_stopped(
            old(store).written@,
            final(store).written@,
            flush_writes(old(link)@, old(path)@),
            r.unwrap_err()@,
        ),
        !(old(link)@ is Ephemeral) ==> r is Ok,
    decreases old(link)@, 1int,
{
    let node = match link {
        Link::Ephemeral(cs) => {
            let ghost before = children_view(cs@);
            assert(decreases_to!(old(link)@ => old(link)@->Ephemeral_0));
            let ghost full = flush_writes(old(link)@, old(path)@);
            let ghost kids = children_writes(before, old(path)@, before.len() as int);
            proof {
                assert(full.subrange(0, kids.len() as int) =~= kids);
            }
            match flush_children(cs, store, path) {
                Err(e) => {
                    proof {
                        let k = choose|k: int|
                            {
                                &&& 0 <= k < kids.len()
                                &&& store.written@ == old(store).written@ + #[trigger] kids.subrange(0, k)
                                &&& if kids[k].data.len() >= SHA1_LIMIT {
                                    e@ == ErrorView::InvariantViolated(Violation::EntryTooLarge)
                                } else {
                                    e@ == write_error(kids[k].path, kids[k].node, StoreFault::NotFound) || e@
                                        == write_error(kids[k].path, kids[k].node, StoreFault::Io)
                                }
                            };
                        assert(full.subrange(0, k) =~= kids.subrange(0, k));
                        assert(full[k] == kids[k]);
                    }
                    return Err(e);
                },
                Ok(()) => {},
            }
            proof {
                assert forall|i: int| 0 <= i < cs@.len() implies !((#[trigger] cs@[i]).link@ is Ephemeral) by {
                    assert(children_view(cs@)[i].link == cs@[i].link@);
                    lemma_flush_idempotent(before[i].link, Seq::empty());
                }
            }
            let elements = elements_from_children(cs);
            let bytes = serialize(&elements);
            proof {
                assert(store.written@ == old(store).written@ + full.subrange(0, kids.len() as int));
                assert(full[kids.len() as int].data == bytes@);
            }
            let node = match hash_bytes(bytes.as_slice()) {
                Some(n) => n,
                None => {
                    return Err(Error::InvariantViolated(Violation::EntryTooLarge));
                },
            };
            match store.insert(path, &node, bytes) {
                Ok(()) => {},
                Err(StoreFault::NotFound) => {
                    return Err(Error::BlobNotFound { path: path.clone(), node });
                },
                Err(StoreFault::Io) => {
                    return Err(Error::StorageIo);
                },
            }
            node
        },
        _ => {
            assert(old(store).written@ + Seq::<Blob>::empty() =~= old(store).written@);
            return Ok(());
        },
    };
    let mut taken = Link::Ephemeral(Vec::new());
    core::mem::swap(link, &mut taken);
    match taken {
        Link::Ephemeral(cs) => {
            *link = Link::Durable(DurableEntry { node, links: Lazy::Loaded(cs) });
        },
        other => {
            *link = other;
        },
    }
    Ok(())
}

impl Tree {
    /// Gives every directory that has none a hash, writes each such
    /// directory to the store, children before parents, and returns the hash
    /// of the root. Directories that have a hash are not written again.
    ///
    /// The hash of a directory is the SHA-1 digest of its stored form alone.
    /// Where a directory is too large to be hashed, or the store refuses a
    /// blob, the flush stops there with `EntryTooLarge` or with the error
    /// of the refusal: see `flush_stopped`. What was flushed so far stays
    /// flushed, and flushing again carries on from there.
    pub fn flush<S: TreeStore>(&mut self, store: &mut InnerStore<S>) -> (r: Result<Node, Error>)
        requires
            old(self).wf(),
        ensures
            final(self).wf(),
            flushed(final(self).root@) == flushed(old(self).root@),
            r is Ok ==> final(self).root@ == flushed(old(self).root@) && r.unwrap()@ == link_node(
                final(self).root@,
            ) && final(store).written@ == old(store).written@ + flush_writes(
                old(self).root@,
                Seq::empty(),
            ),
            r is Err ==> flush_stopped(
                old(store).written@,
                final(store).written@,
                flush_writes(old(self).root@, Seq::empty()),
                r.unwrap_err()@,
            ),
            !(old(self).root@ is Ephemeral) ==> r is Ok,
    {
        let mut path = RepoPath::new();
        match flush_link(&mut self.root, store, &mut path) {
            Err(e) => Err(e),
            Ok(()) => match &self.root {
                Link::Durable(entry) => Ok(entry.node),
                _ => Ok(Node::null_id()),
            },
        }
    }
}

/// A link as it is when it was just read from a stored directory: a file,
/// or a stored directory that is not loaded.
pub open spec fn as_read(l: LinkView) -> LinkView {
    match l {
        LinkView::Durable(n, _) => LinkView::Durable(n, LazyView::Unloaded),
        other => other,
    }
}

/// The children of a directory as they are when the directory was just read.
pub open spec fn as_read_children(cs: Seq<ChildView>) -> Seq<ChildView> {
    Seq::new(cs.len(), |i: int| ChildView { name: cs[i].name, link: as_read(cs[i].link) })
}

/// The stored form of a directory whose children all have a hash loads back
/// as that directory, with the directories below it not loaded.
pub proof fn lemma_load_stored(cs: Seq<ChildView>)
    requires
        wf_children(cs),
        forall|i: int| 0 <= i < cs.len() ==> !((#[trigger] cs[i]).link is Ephemeral),
    ensures
        crate::tree::cell_of(Ok(dir_bytes(cs))) == LazyView::Loaded(as_read_children(cs)),
{
    let es = elements_of(cs);
    assert(crate::entry::wf_elements(es)) by {
        assert forall|i: int, j: int| 0 <= i < j < es.len() implies crate::order::lex_lt(
            #[trigger] es[i].name,
            #[trigger] es[j].name,
        ) by {
            assert(crate::order::lex_lt(cs[i].name, cs[j].name));
        }
        assert forall|i: int| 0 <= i < es.len() implies crate::path::valid_component(
            #[trigger] es[i].name,
        ) by {
            assert(crate::path::valid_component(cs[i].name));
        }
        assert forall|i: int| 0 <= i < es.len() implies (#[trigger] es[i].node).len() == 20 by {
            assert(cs[i].link.wf());
        }
    }
    crate::entry::lemma_parse_serialized(es);
    let loaded = crate::tree::children_of_elements(es);
    assert forall|i: int| 0 <= i < cs.len() implies loaded[i] == as_read_children(cs)[i] by {
        match cs[i].link {
            LinkView::Leaf(m) => {
                crate::node::lemma_node_of(m.node);
            },
            _ => {},
        }
    }
    assert(loaded =~= as_read_children(cs));
}

} // verus!
