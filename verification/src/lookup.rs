use crate::error::{load_error, ErrorView, LoadFault};
use crate::file::{FileMetadata, FsNode};
use crate::link::{find, lemma_find, lemma_find_is, wf_children, ChildView, LazyView, LinkView};
use crate::store::{extends, Read};
use vstd::prelude::*;

verus! {

/// What a walk down a path ends in.
pub ghost enum Found {
    /// A component names nothing in its directory.
    Missing,
    /// The first `at` components name a file, and the path goes on.
    Blocked { at: int },
    /// The path names a file.
    File(FileMetadata),
    /// The path names a directory.
    Dir(LinkView),
    /// The first `at` components name a stored directory that is not loaded.
    Unloaded { at: int, node: Seq<u8> },
    /// The first `at` components name a stored directory that failed to load.
    Failed { at: int, node: Seq<u8>, fault: LoadFault },
}

/// Walks from `l`, which stands at the first `i` components, down the rest
/// of the path.
pub open spec fn lookup_from(l: LinkView, path: Seq<Seq<u8>>, i: int) -> Found
    decreases path.len() - i,
{
    if i < 0 || i >= path.len() {
        match l {
            LinkView::Leaf(m) => Found::File(m),
            _ => Found::Dir(l),
        }
    } else {
        match l {
            LinkView::Leaf(_) => Found::Blocked { at: i },
            LinkView::Durable(node, LazyView::Unloaded) => Found::Unloaded { at: i, node },
            LinkView::Durable(node, LazyView::Failed(fault)) => Found::Failed { at: i, node, fault },
            _ => match find(l.children(), path[i]) {
                None => Found::Missing,
                Some(k) => lookup_from(l.children()[k].link, path, i + 1),
            },
        }
    }
}

/// Walks from the root down the path.
pub open spec fn lookup(root: LinkView, path: Seq<Seq<u8>>) -> Found {
    lookup_from(root, path, 0)
}

/// What `get` answers for the outcome of a walk.
pub open spec fn get_answer(f: Found, path: Seq<Seq<u8>>) -> Result<Option<FsNode>, ErrorView> {
    match f {
        Found::File(m) => Ok(Some(FsNode::File(m))),
        Found::Dir(_) => Ok(Some(FsNode::Directory)),
        Found::Failed { at, node, fault } => Err(load_error(path.subrange(0, at), node, fault)),
        _ => Ok(None),
    }
}

/// `b` is `a` after some stored directories were asked for: a directory that
/// was not loaded may now be loaded or failed, and nothing else differs.
pub open spec fn loads_to(a: LinkView, b: LinkView) -> bool
    decreases a,
{
    match a {
        LinkView::Leaf(_) => b == a,
        LinkView::Ephemeral(ca) => b is Ephemeral && kids_load_to(ca, b->Ephemeral_0),
        LinkView::Durable(n, la) => b is Durable && b->Durable_0 == n && match la {
            LazyView::Unloaded => true,
            LazyView::Loaded(ca) => b->Durable_1 is Loaded && kids_load_to(
                ca,
                b->Durable_1->Loaded_0,
            ),
            LazyView::Failed(_) => b->Durable_1 == la,
        },
    }
}

/// `loads_to`, child by child.
pub open spec fn kids_load_to(ca: Seq<ChildView>, cb: Seq<ChildView>) -> bool
    decreases ca,
{
    &&& ca.len() == cb.len()
    &&& forall|i: int|
        if 0 <= i < ca.len() {
            (#[trigger] ca[i]).name == cb[i].name && loads_to(ca[i].link, cb[i].link)
        } else {
            true
        }
}

/// Loading nothing is a way of loading.
pub proof fn lemma_loads_to_refl(a: LinkView)
    ensures
        loads_to(a, a),
    decreases a,
{
    match a {
        LinkView::Leaf(_) => {},
        LinkView::Ephemeral(ca) => {
            lemma_kids_load_to_refl(ca);
        },
        LinkView::Durable(n, la) => {
            match la {
                LazyView::Loaded(ca) => {
                    lemma_kids_load_to_refl(ca);
                },
                _ => {},
            }
        },
    }
}

pub proof fn lemma_kids_load_to_refl(ca: Seq<ChildView>)
    ensures
        kids_load_to(ca, ca),
    decreases ca,
{
    assert forall|i: int| 0 <= i < ca.len() implies loads_to((#[trigger] ca[i]).link, ca[i].link) by {
        lemma_loads_to_refl(ca[i].link);
    }
}

/// Loading in two rounds is loading.
pub proof fn lemma_loads_to_trans(a: LinkView, b: LinkView, c: LinkView)
    requires
        loads_to(a, b),
        loads_to(b, c),
    ensures
        loads_to(a, c),
    decreases a,
{
    match a {
        LinkView::Leaf(_) => {},
        LinkView::Ephemeral(ca) => {
            lemma_kids_load_to_trans(ca, b->Ephemeral_0, c->Ephemeral_0);
        },
        LinkView::Durable(n, la) => {
            match la {
                LazyView::Loaded(ca) => {
                    lemma_kids_load_to_trans(ca, b->Durable_1->Loaded_0, c->Durable_1->Loaded_0);
                },
                _ => {},
            }
        },
    }
}

pub proof fn lemma_kids_load_to_trans(ca: Seq<ChildView>, cb: Seq<ChildView>, cc: Seq<ChildView>)
    requires
        kids_load_to(ca, cb),
        kids_load_to(cb, cc),
    ensures
        kids_load_to(ca, cc),
    decreases ca,
{
    assert forall|i: int| 0 <= i < ca.len() implies (#[trigger] ca[i]).name == cc[i].name && loads_to(
        ca[i].link,
        cc[i].link,
    ) by {
        assert(cb[i].name == cc[i].name);
        lemma_loads_to_trans(ca[i].link, cb[i].link, cc[i].link);
    }
}

/// Replacing one child by a loaded form of it loads the directory.
pub proof fn lemma_kids_update(ca: Seq<ChildView>, k: int, c: ChildView)
    requires
        0 <= k < ca.len(),
        c.name == ca[k].name,
        loads_to(ca[k].link, c.link),
        wf_children(ca),
        c.link.wf(),
    ensures
        kids_load_to(ca, ca.update(k, c)),
        wf_children(ca.update(k, c)),
        find(ca.update(k, c), c.name) == Some(k),
        find(ca, c.name) == Some(k),
{
    let cb = ca.update(k, c);
    assert forall|i: int| 0 <= i < ca.len() implies (#[trigger] ca[i]).name == cb[i].name && loads_to(
        ca[i].link,
        cb[i].link,
    ) by {
        if i != k {
            lemma_loads_to_refl(ca[i].link);
        }
    }
    assert forall|i: int, j: int| 0 <= i < j < cb.len() implies crate::order::lex_lt(
        #[trigger] cb[i].name,
        #[trigger] cb[j].name,
    ) by {
        assert(cb[i].name == ca[i].name);
        assert(cb[j].name == ca[j].name);
    }
    assert forall|i: int| 0 <= i < cb.len() implies crate::path::valid_component(
        #[trigger] cb[i].name,
    ) by {
        assert(cb[i].name == ca[i].name);
    }
    assert forall|i: int| 0 <= i < cb.len() implies (#[trigger] cb[i]).link.wf() by {
        if i != k {
            assert(ca[i].link.wf());
        }
    }
    lemma_find_is(cb, c.name, k);
    lemma_find_is(ca, c.name, k);
}

/// A walk that met no unloaded directory ends the same way after loading,
/// except that a directory it ends in may itself have been loaded.
pub proof fn lemma_lookup_stable(a: LinkView, b: LinkView, path: Seq<Seq<u8>>, i: int)
    requires
        loads_to(a, b),
        0 <= i,
        !(lookup_from(a, path, i) is Unloaded),
    ensures
        match lookup_from(a, path, i) {
            Found::Dir(d) => lookup_from(b, path, i) is Dir && loads_to(d, lookup_from(b, path, i)->Dir_0),
            f => lookup_from(b, path, i) == f,
        },
    decreases path.len() - i,
{
    if i < path.len() {
        match a {
            LinkView::Leaf(_) => {},
            LinkView::Durable(_, LazyView::Unloaded) => {},
            LinkView::Durable(_, LazyView::Failed(_)) => {},
            _ => {
                let ca = a.children();
                let cb = b.children();
                assert(kids_load_to(ca, cb));
                lemma_find(ca, path[i]);
                lemma_find(cb, path[i]);
                match find(ca, path[i]) {
                    None => {
                        if find(cb, path[i]) is Some {
                            let k = find(cb, path[i]).unwrap();
                            assert(ca[k].name == cb[k].name);
                        }
                    },
                    Some(k) => {
                        assert(ca[k].name == cb[k].name);
                        lemma_find_from_same_names(ca, cb, path[i], 0);
                        lemma_lookup_stable(ca[k].link, cb[k].link, path, i + 1);
                    },
                }
            },
        }
    }
}

/// Two directories with the same names find a name at the same place.
pub proof fn lemma_find_from_same_names(ca: Seq<ChildView>, cb: Seq<ChildView>, name: Seq<u8>, i: int)
    requires
        ca.len() == cb.len(),
        forall|j: int| 0 <= j < ca.len() ==> (#[trigger] ca[j]).name == cb[j].name,
        0 <= i,
    ensures
        crate::link::find_from(ca, name, i) == crate::link::find_from(cb, name, i),
    decreases ca.len() - i,
{
    if i < ca.len() {
        assert(ca[i].name == cb[i].name);
        if ca[i].name != name {
            lemma_find_from_same_names(ca, cb, name, i + 1);
        }
    }
}

/// `b` is `a` after some stored directories were asked for, and every
/// directory that was loaded since holds what the store answered: for each
/// there is a request in the record `rs`, for its path and hash, whose
/// answer comes to its children, these loaded further in the same way.
/// `path` is where the link stands.
pub open spec fn loads_by(a: LinkView, b: LinkView, path: Seq<Seq<u8>>, rs: Seq<Read>) -> bool
    decreases b, 1int,
{
    match b {
        LinkView::Leaf(_) => a == b,
        LinkView::Ephemeral(cb) => a is Ephemeral && kids_load_by(a->Ephemeral_0, cb, path, rs),
        LinkView::Durable(n, lb) => a is Durable && a->Durable_0 == n && match a->Durable_1 {
            LazyView::Unloaded => lb is Unloaded || exists|i: int|
                0 <= i < rs.len() && (#[trigger] rs[i]).path == path && rs[i].node == n && cell_loads_by(
                    crate::tree::cell_of(rs[i].answer),
                    lb,
                    path,
                    rs,
                ),
            LazyView::Loaded(ca) => lb is Loaded && kids_load_by(ca, lb->Loaded_0, path, rs),
            LazyView::Failed(_) => lb == a->Durable_1,
        },
    }
}

/// `loads_by` for the cell of a stored directory that was asked for.
pub open spec fn cell_loads_by(a: LazyView, b: LazyView, path: Seq<Seq<u8>>, rs: Seq<Read>) -> bool
    decreases b, 0int,
{
    match b {
        LazyView::Loaded(cb) => a is Loaded && kids_load_by(a->Loaded_0, cb, path, rs),
        _ => a == b,
    }
}

/// `loads_by`, child by child.
pub open spec fn kids_load_by(ca: Seq<ChildView>, cb: Seq<ChildView>, path: Seq<Seq<u8>>, rs: Seq<Read>) -> bool
    decreases cb,
{
    &&& ca.len() == cb.len()
    &&& forall|i: int|
        if 0 <= i < cb.len() {
            ca[i].name == (#[trigger] cb[i]).name && loads_by(ca[i].link, cb[i].link, path.push(cb[i].name), rs)
        } else {
            true
        }
}

/// Loading nothing asks nothing.
pub proof fn lemma_loads_by_refl(a: LinkView, path: Seq<Seq<u8>>, rs: Seq<Read>)
    ensures
        loads_by(a, a, path, rs),
    decreases a,
{
    match a {
        LinkView::Leaf(_) => {},
        LinkView::Ephemeral(ca) => {
            lemma_kids_load_by_refl(ca, path, rs);
        },
        LinkView::Durable(n, la) => {
            match la {
                LazyView::Loaded(ca) => {
                    lemma_kids_load_by_refl(ca, path, rs);
                },
                _ => {},
            }
        },
    }
}

pub proof fn lemma_kids_load_by_refl(ca: Seq<ChildView>, path: Seq<Seq<u8>>, rs: Seq<Read>)
    ensures
        kids_load_by(ca, ca, path, rs),
    decreases ca,
{
    assert forall|i: int| 0 <= i < ca.len() implies loads_by(
        ca[i].link,
        (#[trigger] ca[i]).link,
        path.push(ca[i].name),
        rs,
    ) by {
        lemma_loads_by_refl(ca[i].link, path.push(ca[i].name), rs);
    }
}

/// What was loaded by a record was loaded by every record that extends it.
pub proof fn lemma_loads_by_more(a: LinkView, b: LinkView, path: Seq<Seq<u8>>, rs: Seq<Read>, more: Seq<Read>)
    requires
        loads_by(a, b, path, rs),
        extends(rs, more),
    ensures
        loads_by(a, b, path, more),
    decreases b, 1int,
{
    match b {
        LinkView::Leaf(_) => {},
        LinkView::Ephemeral(cb) => {
            lemma_kids_load_by_more(a->Ephemeral_0, cb, path, rs, more);
        },
        LinkView::Durable(n, lb) => match a->Durable_1 {
            LazyView::Unloaded => {
                if !(lb is Unloaded) {
                    let i = choose|i: int|
                        0 <= i < rs.len() && (#[trigger] rs[i]).path == path && rs[i].node == n && cell_loads_by(
                            crate::tree::cell_of(rs[i].answer),
                            lb,
                            path,
                            rs,
                        );
                    assert(more.subrange(0, rs.len() as int)[i] == rs[i]);
                    assert(more[i] == rs[i]);
                    lemma_cell_loads_by_more(crate::tree::cell_of(rs[i].answer), lb, path, rs, more);
                }
            },
            LazyView::Loaded(ca) => {
                lemma_kids_load_by_more(ca, lb->Loaded_0, path, rs, more);
            },
            LazyView::Failed(_) => {},
        },
    }
}

pub proof fn lemma_cell_loads_by_more(
    a: LazyView,
    b: LazyView,
    path: Seq<Seq<u8>>,
    rs: Seq<Read>,
    more: Seq<Read>,
)
    requires
        cell_loads_by(a, b, path, rs),
        extends(rs, more),
    ensures
        cell_loads_by(a, b, path, more),
    decreases b, 0int,
{
    match b {
        LazyView::Loaded(cb) => {
            lemma_kids_load_by_more(a->Loaded_0, cb, path, rs, more);
        },
        _ => {},
    }
}

pub proof fn lemma_kids_load_by_more(
    ca: Seq<ChildView>,
    cb: Seq<ChildView>,
    path: Seq<Seq<u8>>,
    rs: Seq<Read>,
    more: Seq<Read>,
)
    requires
        kids_load_by(ca, cb, path, rs),
        extends(rs, more),
    ensures
        kids_load_by(ca, cb, path, more),
    decreases cb,
{
    assert forall|i: int| 0 <= i < cb.len() implies ca[i].name == (#[trigger] cb[i]).name && loads_by(
        ca[i].link,
        cb[i].link,
        path.push(cb[i].name),
        more,
    ) by {
        lemma_loads_by_more(ca[i].link, cb[i].link, path.push(cb[i].name), rs, more);
    }
}

/// Loading in two rounds by one record is loading by that record.
pub proof fn lemma_loads_by_trans(a: LinkView, b: LinkView, c: LinkView, path: Seq<Seq<u8>>, rs: Seq<Read>)
    requires
        loads_by(a, b, path, rs),
        loads_by(b, c, path, rs),
    ensures
        loads_by(a, c, path, rs),
    decreases c, 1int,
{
    match c {
        LinkView::Leaf(_) => {},
        LinkView::Ephemeral(cc) => {
            lemma_kids_load_by_trans(a->Ephemeral_0, b->Ephemeral_0, cc, path, rs);
        },
        LinkView::Durable(n, lc) => {
            let la = a->Durable_1;
            let lb = b->Durable_1;
            match la {
                LazyView::Unloaded => {
                    if !(lc is Unloaded) {
                        if lb is Unloaded {
                        } else {
                            let i = choose|i: int|
                                0 <= i < rs.len() && (#[trigger] rs[i]).path == path && rs[i].node == n
                                    && cell_loads_by(crate::tree::cell_of(rs[i].answer), lb, path, rs);
                            match lb {
                                LazyView::Loaded(cb) => {
                                    lemma_kids_load_by_trans(
                                        crate::tree::cell_of(rs[i].answer)->Loaded_0,
                                        cb,
                                        lc->Loaded_0,
                                        path,
                                        rs,
                                    );
                                },
                                _ => {},
                            }
                            assert(cell_loads_by(crate::tree::cell_of(rs[i].answer), lc, path, rs));
                        }
                    }
                },
                LazyView::Loaded(ca) => {
                    lemma_kids_load_by_trans(ca, lb->Loaded_0, lc->Loaded_0, path, rs);
                },
                LazyView::Failed(_) => {},
            }
        },
    }
}

pub proof fn lemma_kids_load_by_trans(
    ca: Seq<ChildView>,
    cb: Seq<ChildView>,
    cc: Seq<ChildView>,
    path: Seq<Seq<u8>>,
    rs: Seq<Read>,
)
    requires
        kids_load_by(ca, cb, path, rs),
        kids_load_by(cb, cc, path, rs),
    ensures
        kids_load_by(ca, cc, path, rs),
    decreases cc,
{
    assert forall|i: int| 0 <= i < cc.len() implies ca[i].name == (#[trigger] cc[i]).name && loads_by(
        ca[i].link,
        cc[i].link,
        path.push(cc[i].name),
        rs,
    ) by {
        assert(cb[i].name == cc[i].name);
        assert(ca[i].name == cb[i].name);
        lemma_loads_by_trans(ca[i].link, cb[i].link, cc[i].link, path.push(cc[i].name), rs);
    }
}

/// One more child of a directory was loaded further, by a record that
/// extends the one by which the directory was loaded so far.
pub proof fn lemma_kids_load_by_step(
    before: Seq<ChildView>,
    cur: Seq<ChildView>,
    k: int,
    c: ChildView,
    path: Seq<Seq<u8>>,
    rs: Seq<Read>,
    more: Seq<Read>,
)
    requires
        kids_load_by(before, cur, path, rs),
        extends(rs, more),
        0 <= k < cur.len(),
        c.name == cur[k].name,
        loads_by(cur[k].link, c.link, path.push(c.name), more),
    ensures
        kids_load_by(before, cur.update(k, c), path, more),
{
    lemma_kids_load_by_more(before, cur, path, rs, more);
    let now = cur.update(k, c);
    assert forall|i: int| 0 <= i < now.len() implies before[i].name == (#[trigger] now[i]).name && loads_by(
        before[i].link,
        now[i].link,
        path.push(now[i].name),
        more,
    ) by {
        assert(before[i].name == cur[i].name);
        if i == k {
            lemma_loads_by_trans(before[k].link, cur[k].link, c.link, path.push(c.name), more);
        }
    }
}

/// A stored directory that was just asked for is loaded by the record that
/// ends with the request.
pub proof fn lemma_loaded_by_last(n: Seq<u8>, path: Seq<Seq<u8>>, rs: Seq<Read>)
    requires
        rs.len() > 0,
        rs.last().path == path,
        rs.last().node == n,
    ensures
        loads_by(
            LinkView::Durable(n, LazyView::Unloaded),
            LinkView::Durable(n, crate::tree::cell_of(rs.last().answer)),
            path,
            rs,
        ),
{
    let cell = crate::tree::cell_of(rs.last().answer);
    match cell {
        LazyView::Loaded(cs) => {
            lemma_kids_load_by_refl(cs, path, rs);
        },
        _ => {},
    }
    assert(cell_loads_by(cell, cell, path, rs));
    assert(rs[rs.len() - 1] == rs.last());
}

/// The whole tree below the link is in memory: no stored directory in it
/// is left to be asked for.
pub open spec fn in_memory(l: LinkView) -> bool
    decreases l,
{
    match l {
        LinkView::Leaf(_) => true,
        LinkView::Ephemeral(cs) => kids_in_memory(cs),
        LinkView::Durable(_, lazy) => match lazy {
            LazyView::Unloaded => false,
            LazyView::Loaded(cs) => kids_in_memory(cs),
            LazyView::Failed(_) => true,
        },
    }
}

/// `in_memory`, child by child.
pub open spec fn kids_in_memory(cs: Seq<ChildView>) -> bool
    decreases cs,
{
    forall|i: int|
        if 0 <= i < cs.len() {
            in_memory((#[trigger] cs[i]).link)
        } else {
            true
        }
}

/// A tree that is in memory loads nothing: whatever it loads to is the
/// tree itself. So every operation leaves such a tree as its contract says
/// of the tree before, whatever the store answers.
pub proof fn lemma_in_memory_stays(a: LinkView, b: LinkView)
    requires
        in_memory(a),
        loads_to(a, b),
    ensures
        b == a,
    decreases a,
{
    match a {
        LinkView::Leaf(_) => {},
        LinkView::Ephemeral(ca) => {
            lemma_kids_in_memory_stay(ca, b->Ephemeral_0);
        },
        LinkView::Durable(n, la) => {
            match la {
                LazyView::Loaded(ca) => {
                    lemma_kids_in_memory_stay(ca, b->Durable_1->Loaded_0);
                },
                _ => {},
            }
        },
    }
}

/// `lemma_in_memory_stays` for the children of a directory.
pub proof fn lemma_kids_in_memory_stay(ca: Seq<ChildView>, cb: Seq<ChildView>)
    requires
        kids_in_memory(ca),
        kids_load_to(ca, cb),
    ensures
        cb == ca,
    decreases ca,
{
    assert forall|i: int| 0 <= i < ca.len() implies cb[i] == ca[i] by {
        assert(in_memory(ca[i].link));
        assert(ca[i].name == cb[i].name && loads_to(ca[i].link, cb[i].link));
        lemma_in_memory_stays(ca[i].link, cb[i].link);
    }
    assert(cb =~= ca);
}

} // verus!
