use crate::error::{load_error, ConflictKind, ErrorView};
use crate::file::FileMetadata;
use crate::link::{find, lemma_find, lemma_find_is, lemma_rank, rank, wf_children, ChildView, LinkView};
use crate::lookup::{loads_to, lookup, lookup_from, Found};
use crate::order::{lemma_lex_irreflexive, lex_lt};
use crate::path::{valid_component, valid_path};
use vstd::prelude::*;

verus! {

/// The link that holds one file at the rest of the path from component `i`
/// on: a chain of directories with one child each, and the file at its end.
pub open spec fn chain(path: Seq<Seq<u8>>, i: int, meta: FileMetadata) -> LinkView
    decreases path.len() - i,
{
    if i < 0 || i >= path.len() {
        LinkView::Leaf(meta)
    } else {
        LinkView::Ephemeral(seq![ChildView { name: path[i], link: chain(path, i + 1, meta) }])
    }
}

/// The link `l`, which stands at the first `i` components, after the file
/// was put at the path: every directory on the way is in memory without a
/// hash, directories that were missing are made, and nothing else differs.
pub open spec fn inserted(l: LinkView, path: Seq<Seq<u8>>, i: int, meta: FileMetadata) -> LinkView
    decreases path.len() - i,
{
    if i < 0 || i >= path.len() {
        LinkView::Leaf(meta)
    } else {
        let cs = l.children();
        match find(cs, path[i]) {
            Some(k) => LinkView::Ephemeral(
                cs.update(k, ChildView { name: path[i], link: inserted(cs[k].link, path, i + 1, meta) }),
            ),
            None => LinkView::Ephemeral(
                cs.insert(rank(cs, path[i]), ChildView { name: path[i], link: chain(path, i + 1, meta) }),
            ),
        }
    }
}

/// What inserting a file into the tree `h` gives: the new tree, or why the
/// file cannot stand at the path.
pub open spec fn insert_outcome(h: LinkView, path: Seq<Seq<u8>>, meta: FileMetadata) -> Result<
    LinkView,
    ErrorView,
> {
    match lookup(h, path) {
        Found::Dir(_) => Err(ErrorView::PathConflict { kind: ConflictKind::Dir, path, at: path }),
        Found::Blocked { at } => Err(
            ErrorView::PathConflict { kind: ConflictKind::File, path, at: path.subrange(0, at) },
        ),
        Found::Failed { at, node, fault } => Err(load_error(path.subrange(0, at), node, fault)),
        Found::File(m) => if m == meta {
            Ok(h)
        } else {
            Ok(inserted(h, path, 0, meta))
        },
        _ => Ok(inserted(h, path, 0, meta)),
    }
}

/// What `insert` leaves behind: the tree `h` is the tree before with the
/// directories on the way loaded, and the result and the tree after are what
/// inserting into `h` gives. On an error the tree stays `h`.
pub open spec fn insert_post(
    before: LinkView,
    path: Seq<Seq<u8>>,
    meta: FileMetadata,
    r: Result<(), ErrorView>,
    after: LinkView,
) -> bool {
    exists|h: LinkView|
        {
            &&& #[trigger] loads_to(before, h)
            &&& h.wf()
            &&& !(lookup(h, path) is Unloaded)
            &&& match insert_outcome(h, path, meta) {
                Ok(t) => r is Ok && after == t,
                Err(e) => r == Err::<(), ErrorView>(e) && after == h,
            }
        }
}

/// The link `l`, which stands at the first `i` components, after the file at
/// the path was taken out: every directory on the way is in memory without a
/// hash, and a directory that lost its last child is taken out with it.
pub open spec fn removed(l: LinkView, path: Seq<Seq<u8>>, i: int) -> LinkView
    decreases path.len() - i,
{
    let cs = l.children();
    if i < 0 || i >= path.len() || find(cs, path[i]) is None {
        l
    } else {
        let k = find(cs, path[i]).unwrap();
        if i + 1 >= path.len() {
            LinkView::Ephemeral(cs.remove(k))
        } else {
            let sub = removed(cs[k].link, path, i + 1);
            if sub.children().len() == 0 {
                LinkView::Ephemeral(cs.remove(k))
            } else {
                LinkView::Ephemeral(cs.update(k, ChildView { name: path[i], link: sub }))
            }
        }
    }
}

/// What removing the path from the tree `h` gives: the record of the file
/// that was removed and the new tree; or no record and the same tree, where
/// the path names no file; or the error of a directory that failed to load.
pub open spec fn remove_outcome(h: LinkView, path: Seq<Seq<u8>>) -> Result<
    (Option<FileMetadata>, LinkView),
    ErrorView,
> {
    match lookup(h, path) {
        Found::File(m) => Ok((Some(m), removed(h, path, 0))),
        Found::Failed { at, node, fault } => Err(load_error(path.subrange(0, at), node, fault)),
        _ => Ok((None, h)),
    }
}

/// What `remove` leaves behind, in the way of `insert_post`.
pub open spec fn remove_post(
    before: LinkView,
    path: Seq<Seq<u8>>,
    r: Result<Option<FileMetadata>, ErrorView>,
    after: LinkView,
) -> bool {
    exists|h: LinkView|
        {
            &&& #[trigger] loads_to(before, h)
            &&& h.wf()
            &&& !(lookup(h, path) is Unloaded)
            &&& match remove_outcome(h, path) {
                Ok((m, t)) => r == Ok::<Option<FileMetadata>, ErrorView>(m) && after == t,
                Err(e) => r == Err::<Option<FileMetadata>, ErrorView>(e) && after == h,
            }
        }
}

/// A directory stays valid when one child is replaced under its name.
pub proof fn lemma_update_wf(cs: Seq<ChildView>, k: int, c: ChildView)
    requires
        wf_children(cs),
        0 <= k < cs.len(),
        c.name == cs[k].name,
        c.link.wf(),
    ensures
        wf_children(cs.update(k, c)),
        find(cs.update(k, c), c.name) == Some(k),
        find(cs, c.name) == Some(k),
{
    let cb = cs.update(k, c);
    assert forall|i: int, j: int| 0 <= i < j < cb.len() implies lex_lt(
        #[trigger] cb[i].name,
        #[trigger] cb[j].name,
    ) by {
        assert(cb[i].name == cs[i].name);
        assert(cb[j].name == cs[j].name);
    }
    assert forall|i: int| 0 <= i < cb.len() implies valid_component(#[trigger] cb[i].name) by {
        assert(cb[i].name == cs[i].name);
    }
    assert forall|i: int| 0 <= i < cb.len() implies (#[trigger] cb[i]).link.wf() by {
        if i != k {
            assert(cs[i].link.wf());
        }
    }
    lemma_find_is(cb, c.name, k);
    lemma_find_is(cs, c.name, k);
}

/// A directory stays valid when a child with a new name is put where the
/// name belongs.
pub proof fn lemma_insert_wf(cs: Seq<ChildView>, c: ChildView)
    requires
        wf_children(cs),
        find(cs, c.name) is None,
        valid_component(c.name),
        c.link.wf(),
    ensures
        0 <= rank(cs, c.name) <= cs.len(),
        wf_children(cs.insert(rank(cs, c.name), c)),
        find(cs.insert(rank(cs, c.name), c), c.name) == Some(rank(cs, c.name)),
{
    lemma_rank(cs, c.name);
    let r = rank(cs, c.name);
    let cb = cs.insert(r, c);
    assert forall|i: int, j: int| 0 <= i < j < cb.len() implies lex_lt(
        #[trigger] cb[i].name,
        #[trigger] cb[j].name,
    ) by {
        if j < r {
            assert(cb[i] == cs[i] && cb[j] == cs[j]);
        } else if j == r {
            assert(cb[i] == cs[i]);
        } else if i < r {
            assert(cb[i] == cs[i] && cb[j] == cs[j - 1]);
        } else if i == r {
            assert(cb[j] == cs[j - 1]);
        } else {
            assert(cb[i] == cs[i - 1] && cb[j] == cs[j - 1]);
        }
    }
    assert forall|i: int| 0 <= i < cb.len() implies valid_component(#[trigger] cb[i].name) by {
        if i < r {
            assert(cb[i] == cs[i]);
        } else if i > r {
            assert(cb[i] == cs[i - 1]);
        }
    }
    assert forall|i: int| 0 <= i < cb.len() implies (#[trigger] cb[i]).link.wf() by {
        if i < r {
            assert(cb[i] == cs[i]);
            assert(cs[i].link.wf());
        } else if i > r {
            assert(cb[i] == cs[i - 1]);
            assert(cs[i - 1].link.wf());
        }
    }
    lemma_find_is(cb, c.name, r);
}

/// A directory stays valid when a child is taken out, and its name is gone.
pub proof fn lemma_remove_wf(cs: Seq<ChildView>, k: int)
    requires
        wf_children(cs),
        0 <= k < cs.len(),
    ensures
        wf_children(cs.remove(k)),
        find(cs.remove(k), cs[k].name) is None,
{
    let cb = cs.remove(k);
    assert forall|i: int, j: int| 0 <= i < j < cb.len() implies lex_lt(
        #[trigger] cb[i].name,
        #[trigger] cb[j].name,
    ) by {
        let i0 = if i < k { i } else { i + 1 };
        let j0 = if j < k { j } else { j + 1 };
        assert(cb[i] == cs[i0] && cb[j] == cs[j0]);
    }
    assert forall|i: int| 0 <= i < cb.len() implies valid_component(#[trigger] cb[i].name) by {
        let i0 = if i < k { i } else { i + 1 };
        assert(cb[i] == cs[i0]);
    }
    assert forall|i: int| 0 <= i < cb.len() implies (#[trigger] cb[i]).link.wf() by {
        let i0 = if i < k { i } else { i + 1 };
        assert(cb[i] == cs[i0]);
        assert(cs[i0].link.wf());
    }
    lemma_find(cb, cs[k].name);
    if find(cb, cs[k].name) is Some {
        let j = find(cb, cs[k].name).unwrap();
        let j0 = if j < k { j } else { j + 1 };
        assert(cb[j] == cs[j0]);
        lemma_lex_irreflexive(cs[k].name);
        if j0 < k {
            assert(lex_lt(cs[j0].name, cs[k].name));
        } else {
            assert(lex_lt(cs[k].name, cs[j0].name));
        }
    }
}

/// A chain is valid, holds its file at the path, and a directory at every
/// shorter path.
pub proof fn lemma_chain(path: Seq<Seq<u8>>, i: int, meta: FileMetadata, q: Seq<Seq<u8>>)
    requires
        valid_path(path),
        0 <= i <= path.len(),
        i <= q.len() <= path.len(),
        forall|j: int| i <= j < q.len() ==> q[j] == path[j],
    ensures
        chain(path, i, meta).wf(),
        q.len() == path.len() ==> lookup_from(chain(path, i, meta), q, i) == Found::File(meta),
        q.len() < path.len() ==> lookup_from(chain(path, i, meta), q, i) is Dir && lookup_from(
            chain(path, i, meta),
            q,
            i,
        )->Dir_0.children().len() > 0,
        i < path.len() ==> chain(path, i, meta) is Ephemeral && chain(path, i, meta).children().len()
            == 1,
    decreases path.len() - i,
{
    if i < path.len() {
        let c = ChildView { name: path[i], link: chain(path, i + 1, meta) };
        let cs = seq![c];
        assert(chain(path, i, meta) == LinkView::Ephemeral(cs));
        if i < q.len() {
            lemma_chain(path, i + 1, meta, q);
            assert(cs[0] == c);
            lemma_find_is(cs, q[i], 0);
        } else {
            lemma_chain(path, i + 1, meta, path);
        }
        assert(wf_children(cs)) by {
            assert forall|j: int| 0 <= j < cs.len() implies (#[trigger] cs[j]).link.wf() by {
                assert(cs[j] == c);
            }
        }
    }
}

} // verus!
