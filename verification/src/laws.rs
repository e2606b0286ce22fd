use crate::edit::{
    chain, insert_outcome, insert_post, inserted, lemma_chain, lemma_insert_wf, lemma_remove_wf,
    lemma_update_wf, remove_outcome, remove_post, removed,
};
use crate::error::ErrorView;
use crate::file::{FileMetadata, FsNode};
use crate::link::{find, lemma_find, rank, wf_children, ChildView, LinkView};
use crate::lookup::{get_answer, lemma_lookup_stable, loads_to, lookup, lookup_from, Found};
use crate::path::{is_prefix, valid_path};
use vstd::prelude::*;

verus! {

/// `q` agrees with `path` from component `i` up to its own end.
pub open spec fn agrees(q: Seq<Seq<u8>>, path: Seq<Seq<u8>>, i: int) -> bool {
    &&& 0 <= i <= q.len() <= path.len()
    &&& forall|j: int| i <= j < q.len() ==> q[j] == path[j]
}

/// Where a walk ends in a file, every shorter walk ends in a directory.
pub proof fn lemma_prefix_is_dir(l: LinkView, path: Seq<Seq<u8>>, q: Seq<Seq<u8>>, i: int)
    requires
        agrees(q, path, i),
        q.len() < path.len(),
        lookup_from(l, path, i) is File,
    ensures
        lookup_from(l, q, i) is Dir,
    decreases path.len() - i,
{
    if i < q.len() {
        let cs = l.children();
        lemma_find(cs, path[i]);
        let k = find(cs, path[i]).unwrap();
        lemma_prefix_is_dir(cs[k].link, path, q, i + 1);
    }
}

/// What putting a file below a link gives: a valid link in which a walk down
/// the path ends in the file, and a walk down every shorter path in a
/// directory.
pub proof fn lemma_inserted(
    l: LinkView,
    path: Seq<Seq<u8>>,
    i: int,
    meta: FileMetadata,
    q: Seq<Seq<u8>>,
)
    requires
        l.wf(),
        valid_path(path),
        agrees(q, path, i),
        lookup_from(l, path, i) is Missing || lookup_from(l, path, i) is File,
    ensures
        inserted(l, path, i, meta).wf(),
        i < path.len() ==> inserted(l, path, i, meta) is Ephemeral,
        q.len() == path.len() ==> lookup_from(inserted(l, path, i, meta), q, i) == Found::File(meta),
        q.len() < path.len() ==> lookup_from(inserted(l, path, i, meta), q, i) is Dir,
    decreases path.len() - i,
{
    if i < path.len() {
        let cs = l.children();
        assert(l.is_loaded_dir());
        assert(wf_children(cs));
        lemma_find(cs, path[i]);
        let t = inserted(l, path, i, meta);
        match find(cs, path[i]) {
            Some(k) => {
                let sub = inserted(cs[k].link, path, i + 1, meta);
                let c = ChildView { name: path[i], link: sub };
                assert(cs[k].link.wf());
                if i < q.len() {
                    lemma_inserted(cs[k].link, path, i + 1, meta, q);
                } else {
                    lemma_inserted(cs[k].link, path, i + 1, meta, path);
                }
                lemma_update_wf(cs, k, c);
                assert(t == LinkView::Ephemeral(cs.update(k, c)));
                assert(t.children()[k] == c);
            },
            None => {
                let c = ChildView { name: path[i], link: chain(path, i + 1, meta) };
                if i < q.len() {
                    lemma_chain(path, i + 1, meta, q);
                } else {
                    lemma_chain(path, i + 1, meta, path);
                }
                lemma_insert_wf(cs, c);
                let r = rank(cs, path[i]);
                assert(t == LinkView::Ephemeral(cs.insert(r, c)));
                assert(t.children()[r] == c);
            },
        }
    }
}

/// After a file was inserted without a conflict, `get` finds that file at
/// its path and a directory at every shorter path, whatever is loaded in
/// between.
pub proof fn lemma_insert_then_get(
    before: LinkView,
    after: LinkView,
    path: Seq<Seq<u8>>,
    meta: FileMetadata,
    later: LinkView,
    q: Seq<Seq<u8>>,
)
    requires
        valid_path(path),
        insert_post(before, path, meta, Ok(()), after),
        loads_to(after, later),
        is_prefix(q, path),
    ensures
        q == path ==> get_answer(lookup(later, q), q) == Ok::<Option<FsNode>, ErrorView>(
            Some(FsNode::File(meta)),
        ),
        q != path ==> get_answer(lookup(later, q), q) == Ok::<Option<FsNode>, ErrorView>(
            Some(FsNode::Directory),
        ),
{
    let h = choose|h: LinkView|
        {
            &&& #[trigger] loads_to(before, h)
            &&& h.wf()
            &&& !(lookup(h, path) is Unloaded)
            &&& match insert_outcome(h, path, meta) {
                Ok(t) => after == t,
                Err(e) => false,
            }
        };
    assert(agrees(q, path, 0)) by {
        assert forall|j: int| 0 <= j < q.len() implies q[j] == path[j] by {
            assert(path.subrange(0, q.len() as int)[j] == path[j]);
        }
    }
    if q.len() == path.len() {
        assert(q =~= path);
    }
    match lookup(h, path) {
        Found::File(m) => {
            if m == meta {
                if q.len() < path.len() {
                    lemma_prefix_is_dir(h, path, q, 0);
                }
            } else {
                lemma_inserted(h, path, 0, meta, q);
            }
        },
        _ => {
            lemma_inserted(h, path, 0, meta, q);
        },
    }
    lemma_lookup_stable(after, later, q, 0);
}

/// What taking a file out below a link gives: a valid directory in which a
/// walk down the path finds nothing, and a walk down a shorter path that is
/// longer than `i` finds nothing or a directory that is not empty.
pub proof fn lemma_removed(l: LinkView, path: Seq<Seq<u8>>, i: int, q: Seq<Seq<u8>>)
    requires
        l.wf(),
        0 <= i < path.len(),
        agrees(q, path, i),
        lookup_from(l, path, i) is File,
    ensures
        removed(l, path, i).wf(),
        removed(l, path, i) is Ephemeral,
        lookup_from(removed(l, path, i), path, i) is Missing,
        i < q.len() < path.len() ==> match lookup_from(removed(l, path, i), q, i) {
            Found::Missing => true,
            Found::Dir(d) => d is Ephemeral && d.children().len() > 0,
            _ => false,
        },
    decreases path.len() - i,
{
    let cs = l.children();
    assert(l.is_loaded_dir());
    assert(wf_children(cs));
    lemma_find(cs, path[i]);
    let k = find(cs, path[i]).unwrap();
    let t = removed(l, path, i);
    lemma_remove_wf(cs, k);
    if i + 1 < path.len() {
        assert(cs[k].link.wf());
        let sub = removed(cs[k].link, path, i + 1);
        let c = ChildView { name: path[i], link: sub };
        if i + 1 <= q.len() {
            lemma_removed(cs[k].link, path, i + 1, q);
        } else {
            lemma_removed(cs[k].link, path, i + 1, path);
        }
        if sub.children().len() != 0 {
            lemma_update_wf(cs, k, c);
            assert(t.children()[k] == c);
        }
    }
}

/// After `remove` of a path that names no directory, `get` finds nothing at
/// the path, whatever is loaded in between; and where a file was removed,
/// no directory on the way below the root is left without children.
pub proof fn lemma_remove_then_get(
    before: LinkView,
    after: LinkView,
    path: Seq<Seq<u8>>,
    taken: Option<FileMetadata>,
    later: LinkView,
    q: Seq<Seq<u8>>,
)
    requires
        before.is_dir(),
        remove_post(before, path, Ok(taken), after),
        !(lookup(after, path) is Dir),
        loads_to(after, later),
        is_prefix(q, path),
    ensures
        get_answer(lookup(later, path), path) == Ok::<Option<FsNode>, ErrorView>(None),
        taken is Some && 0 < q.len() < path.len() ==> match lookup(later, q) {
            Found::Missing => true,
            Found::Dir(d) => d.children().len() > 0,
            _ => false,
        },
{
    let h = choose|h: LinkView|
        {
            &&& #[trigger] loads_to(before, h)
            &&& h.wf()
            &&& !(lookup(h, path) is Unloaded)
            &&& match remove_outcome(h, path) {
                Ok((m, t)) => taken == m && after == t,
                Err(e) => false,
            }
        };
    assert(agrees(q, path, 0)) by {
        assert forall|j: int| 0 <= j < q.len() implies q[j] == path[j] by {
            assert(path.subrange(0, q.len() as int)[j] == path[j]);
        }
    }
    match lookup(h, path) {
        Found::File(m) => {
            assert(h.is_dir());
            assert(path.len() > 0);
            lemma_removed(h, path, 0, q);
        },
        _ => {},
    }
    lemma_lookup_stable(after, later, path, 0);
    if taken is Some && 0 < q.len() < path.len() {
        lemma_lookup_stable(after, later, q, 0);
    }
}

} // verus!
