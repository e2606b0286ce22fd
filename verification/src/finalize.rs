use crate::edit::lemma_update_wf;
use crate::entry::serialize;
use crate::error::{load_error, Error, ErrorView, Violation};
use crate::flush::{dir_bytes, elements_from_children};
use crate::hash::hash_bytes;
use crate::link::{children_view, Child, DurableEntry, Lazy, Link};
use crate::node::contains_node;
use crate::path::{append_bytes, RepoPath};
use crate::flush::write_error;
use crate::lookup::{lemma_kids_load_to_refl, lemma_kids_load_to_trans, lemma_kids_update, lemma_loads_to_refl, lemma_loads_to_trans};
use crate::store::{
    extends, lemma_extends_one, lemma_extends_refl, lemma_extends_trans, InnerStore, Read, StoreFault,
    TreeStore,
};
use crate::tree::{load_along, load_entry, walk, Tree, Walked};
use crate::hash::{sha1, SHA1_LIMIT};
use crate::link::{wf_children, ChildView, LazyView, LinkView};
use crate::lookup::{
    kids_load_by, kids_load_to, lemma_kids_load_by_refl, lemma_kids_load_by_step, lemma_loaded_by_last,
    in_memory, lemma_in_memory_stays, lemma_loads_by_more, lemma_loads_by_refl, lemma_loads_by_trans,
    lemma_lookup_stable, loads_by, loads_to, lookup, Found,
};
use crate::node::Node;
use crate::order::{lemma_lex_asymmetric, lemma_lex_total, lex_lt};
use crate::store::Blob;
use vstd::prelude::*;

verus! {

/// The bytes that are hashed for a directory with the given parent hashes:
/// the smaller parent hash, the greater one, and the stored form. The null
/// hash is ordered like any other.
pub open spec fn mix_input(first: Seq<u8>, second: Seq<u8>, content: Seq<u8>) -> Seq<u8> {
    if lex_lt(first, second) {
        first + second + content
    } else {
        second + first + content
    }
}

/// The hash of a directory at commit time: the SHA-1 digest of the two parent
/// hashes in byte order and the stored form.
pub open spec fn mix_hash(first: Seq<u8>, second: Seq<u8>, content: Seq<u8>) -> Seq<u8> {
    sha1(mix_input(first, second, content))
}

/// The hash of a directory does not depend on the order of its parents.
pub proof fn lemma_mix_symmetric(first: Seq<u8>, second: Seq<u8>, content: Seq<u8>)
    ensures
        mix_input(first, second, content) == mix_input(second, first, content),
        mix_hash(first, second, content) == mix_hash(second, first, content),
{
    lemma_lex_total(first, second);
    if lex_lt(first, second) {
        lemma_lex_asymmetric(first, second);
    }
}

/// What a parent tree holds at a path.
pub ghost enum ParentAt {
    /// No directory: nothing, or a file.
    Absent,
    /// A stored directory with this hash.
    Active(Seq<u8>),
    /// A directory that was never hashed.
    Ephemeral,
    /// The walk ran into a directory that failed to load.
    Failed(ErrorView),
    /// The walk ran into a directory that is not loaded.
    Unloaded,
}

/// What the parent tree with the given root holds at the path.
pub open spec fn parent_at(root: LinkView, path: Seq<Seq<u8>>) -> ParentAt {
    match lookup(root, path) {
        Found::Dir(LinkView::Durable(node, _)) => ParentAt::Active(node),
        Found::Dir(_) => ParentAt::Ephemeral,
        Found::Failed { at, node, fault } => ParentAt::Failed(
            load_error(path.subrange(0, at), node, fault),
        ),
        Found::Unloaded { .. } => ParentAt::Unloaded,
        _ => ParentAt::Absent,
    }
}

/// The error of the first parent, from index `i` on, that stands in the way
/// at the path: one that holds a directory without a hash, or one whose walk
/// ran into a directory that failed to load.
pub open spec fn parents_fault(ps: Seq<LinkView>, path: Seq<Seq<u8>>, i: int) -> Option<ErrorView>
    decreases ps.len() - i,
{
    if i < 0 || i >= ps.len() {
        None
    } else {
        match parent_at(ps[i], path) {
            ParentAt::Ephemeral => Some(ErrorView::InvariantViolated(Violation::EphemeralParent)),
            ParentAt::Failed(e) => Some(e),
            _ => parents_fault(ps, path, i + 1),
        }
    }
}

/// The hashes of the parents, from index `i` on, that hold a stored
/// directory at the path, in the order of the parents.
pub open spec fn active_nodes(ps: Seq<LinkView>, path: Seq<Seq<u8>>, i: int) -> Seq<Seq<u8>>
    decreases ps.len() - i,
{
    if i < 0 || i >= ps.len() {
        Seq::empty()
    } else {
        match parent_at(ps[i], path) {
            ParentAt::Active(node) => seq![node] + active_nodes(ps, path, i + 1),
            _ => active_nodes(ps, path, i + 1),
        }
    }
}

/// The hash at place `k` of the list, or the null hash where the list is
/// shorter.
pub open spec fn nth_or_null(nodes: Seq<Seq<u8>>, k: int) -> Seq<u8> {
    if 0 <= k < nodes.len() {
        nodes[k]
    } else {
        Node::null_view()
    }
}

/// One directory that a finalize made: its path, its new hash, its stored
/// form, and the hashes of its parents, null where there are fewer than two.
pub ghost struct FinalizedView {
    pub path: Seq<Seq<u8>>,
    pub node: Seq<u8>,
    pub data: Seq<u8>,
    pub first: Seq<u8>,
    pub second: Seq<u8>,
}

/// What finalizing the link at the path against the parents gives: the link
/// as it stands afterwards, and the directories that were made, children
/// before parents; or the first error on the way.
///
/// - A parent that stands in the way fails the link.
/// - A file stays as it is.
/// - A stored directory whose hash is that of a parent at the same path is
///   unchanged: it stays as it is, and nothing below it is looked at.
/// - Any other directory has its children finalized in order and is then
///   stored under the hash that mixes in the parents' hashes.
pub open spec fn finalize_link(l: LinkView, ps: Seq<LinkView>, path: Seq<Seq<u8>>) -> Result<
    (LinkView, Seq<FinalizedView>),
    ErrorView,
>
    decreases l, 0int,
{
    let nodes = active_nodes(ps, path, 0);
    if parents_fault(ps, path, 0) is Some {
        Err(parents_fault(ps, path, 0).unwrap())
    } else {
        match l {
            LinkView::Leaf(_) => Ok((l, Seq::empty())),
            LinkView::Durable(n, lazy) => if nodes.contains(n) {
                Ok((l, Seq::empty()))
            } else {
                match lazy {
                    LazyView::Loaded(cs) => finalize_dir(cs, ps, path, nodes),
                    LazyView::Failed(fault) => Err(load_error(path, n, fault)),
                    LazyView::Unloaded => Err(ErrorView::InvariantViolated(Violation::NotLoaded)),
                }
            },
            LinkView::Ephemeral(cs) => finalize_dir(cs, ps, path, nodes),
        }
    }
}

/// What finalizing a directory with the given children gives.
pub open spec fn finalize_dir(
    cs: Seq<ChildView>,
    ps: Seq<LinkView>,
    path: Seq<Seq<u8>>,
    nodes: Seq<Seq<u8>>,
) -> Result<(LinkView, Seq<FinalizedView>), ErrorView>
    decreases cs, cs.len() + 1,
{
    match finalize_children(cs, ps, path, cs.len() as int) {
        Err(e) => Err(e),
        Ok((fcs, made)) => {
            let data = dir_bytes(fcs);
            let first = nth_or_null(nodes, 0);
            let second = nth_or_null(nodes, 1);
            if mix_input(first, second, data).len() >= SHA1_LIMIT {
                Err(ErrorView::InvariantViolated(Violation::EntryTooLarge))
            } else {
                let node = mix_hash(first, second, data);
                Ok(
                    (
                        LinkView::Durable(node, LazyView::Loaded(fcs)),
                        made.push(FinalizedView { path, node, data, first, second }),
                    ),
                )
            }
        },
    }
}

/// What finalizing the first `k` children of a directory gives: the children
/// as they stand afterwards, and the directories that were made.
pub open spec fn finalize_children(
    cs: Seq<ChildView>,
    ps: Seq<LinkView>,
    path: Seq<Seq<u8>>,
    k: int,
) -> Result<(Seq<ChildView>, Seq<FinalizedView>), ErrorView>
    decreases cs, k,
{
    if k <= 0 || k > cs.len() {
        Ok((Seq::empty(), Seq::empty()))
    } else {
        match finalize_children(cs, ps, path, k - 1) {
            Err(e) => Err(e),
            Ok((fcs, made)) => match finalize_link(cs[k - 1].link, ps, path.push(cs[k - 1].name)) {
                Err(e) => Err(e),
                Ok((l, more)) => Ok((fcs.push(ChildView { name: cs[k - 1].name, link: l }), made + more)),
            },
        }
    }
}

/// The blobs that a finalize hands to the store for the directories it made.
pub open spec fn blobs_of(made: Seq<FinalizedView>) -> Seq<Blob> {
    Seq::new(made.len(), |i: int| Blob { path: made[i].path, node: made[i].node, data: made[i].data })
}

/// All that finalizing the link looks at is in memory: no walk through a
/// parent runs into a directory that is not loaded, and every directory of
/// the link that is looked into is loaded.
pub open spec fn ready(l: LinkView, ps: Seq<LinkView>, path: Seq<Seq<u8>>) -> bool
    decreases l,
{
    &&& forall|i: int| 0 <= i < ps.len() ==> !(lookup(#[trigger] ps[i], path) is Unloaded)
    &&& parents_fault(ps, path, 0) is Some || match l {
        LinkView::Leaf(_) => true,
        LinkView::Durable(n, lazy) => active_nodes(ps, path, 0).contains(n) || match lazy {
            LazyView::Loaded(cs) => kids_ready(cs, ps, path),
            LazyView::Failed(_) => true,
            LazyView::Unloaded => false,
        },
        LinkView::Ephemeral(cs) => kids_ready(cs, ps, path),
    }
}

/// `ready`, child by child.
pub open spec fn kids_ready(cs: Seq<ChildView>, ps: Seq<LinkView>, path: Seq<Seq<u8>>) -> bool
    decreases cs,
{
    forall|k: int|
        if 0 <= k < cs.len() {
            ready((#[trigger] cs[k]).link, ps, path.push(cs[k].name))
        } else {
            true
        }
}

/// Finalizing the link would have to look into a directory that lies as
/// many components deep as a path can be long: the walk cannot go into it.
pub open spec fn too_deep(l: LinkView, ps: Seq<LinkView>, path: Seq<Seq<u8>>) -> bool
    decreases l,
{
    parents_fault(ps, path, 0) is None && match l {
        LinkView::Leaf(_) => false,
        LinkView::Durable(n, lazy) => !active_nodes(ps, path, 0).contains(n) && match lazy {
            LazyView::Loaded(cs) => kids_too_deep(cs, ps, path),
            _ => false,
        },
        LinkView::Ephemeral(cs) => kids_too_deep(cs, ps, path),
    }
}

/// `too_deep` for the children of a directory: the directory has children
/// and lies too deep itself, or finalizing one of its children would have
/// to look too deep.
pub open spec fn kids_too_deep(cs: Seq<ChildView>, ps: Seq<LinkView>, path: Seq<Seq<u8>>) -> bool
    decreases cs,
{
    cs.len() > 0 && (path.len() >= usize::MAX || exists|k: int|
        if 0 <= k < cs.len() {
            too_deep((#[trigger] cs[k]).link, ps, path.push(cs[k].name))
        } else {
            false
        })
}

/// Number of levels of directories in memory at and below the link.
pub open spec fn height(l: LinkView) -> nat
    decreases l,
{
    match l {
        LinkView::Leaf(_) => 0,
        LinkView::Durable(_, LazyView::Loaded(cs)) => 1 + kids_height(cs, cs.len() as int),
        LinkView::Durable(_, _) => 1,
        LinkView::Ephemeral(cs) => 1 + kids_height(cs, cs.len() as int),
    }
}

/// The greatest `height` among the first `k` children.
pub open spec fn kids_height(cs: Seq<ChildView>, k: int) -> nat
    decreases cs, k,
{
    if k <= 0 || k > cs.len() {
        0
    } else {
        let rest = kids_height(cs, k - 1);
        let here = height(cs[k - 1].link);
        if here > rest {
            here
        } else {
            rest
        }
    }
}

/// Each of the first `k` children is at most as high as the highest.
pub proof fn lemma_kids_height(cs: Seq<ChildView>, k: int, j: int)
    requires
        0 <= j < k <= cs.len(),
    ensures
        height(cs[j].link) <= kids_height(cs, k),
    decreases k,
{
    if j < k - 1 {
        lemma_kids_height(cs, k - 1, j);
    }
}

/// Only a tree that reaches the greatest length of a path is too deep.
pub proof fn lemma_too_deep_is_high(l: LinkView, ps: Seq<LinkView>, path: Seq<Seq<u8>>)
    requires
        too_deep(l, ps, path),
    ensures
        path.len() + height(l) > usize::MAX,
    decreases l,
{
    match l {
        LinkView::Leaf(_) => {},
        LinkView::Durable(n, lazy) => match lazy {
            LazyView::Loaded(cs) => {
                lemma_kids_too_deep_is_high(cs, ps, path);
            },
            _ => {},
        },
        LinkView::Ephemeral(cs) => {
            lemma_kids_too_deep_is_high(cs, ps, path);
        },
    }
}

/// `lemma_too_deep_is_high` for the children of a directory.
pub proof fn lemma_kids_too_deep_is_high(cs: Seq<ChildView>, ps: Seq<LinkView>, path: Seq<Seq<u8>>)
    requires
        kids_too_deep(cs, ps, path),
    ensures
        path.len() + 1 + kids_height(cs, cs.len() as int) > usize::MAX,
    decreases cs,
{
    if path.len() < usize::MAX {
        let k = choose|k: int|
            if 0 <= k < cs.len() {
                too_deep((#[trigger] cs[k]).link, ps, path.push(cs[k].name))
            } else {
                false
            };
        lemma_too_deep_is_high(cs[k].link, ps, path.push(cs[k].name));
        lemma_kids_height(cs, cs.len() as int, k);
    }
}

/// The parents `qs` are the parents `ps` after more was loaded.
pub open spec fn all_load_to(ps: Seq<LinkView>, qs: Seq<LinkView>) -> bool {
    &&& ps.len() == qs.len()
    &&& forall|i: int| 0 <= i < ps.len() ==> loads_to(#[trigger] ps[i], qs[i])
}

/// What a parent holds at a path does not change by loading, once the walk
/// to the path meets no directory that is not loaded.
pub proof fn lemma_parent_at_stable(p: LinkView, q: LinkView, path: Seq<Seq<u8>>)
    requires
        loads_to(p, q),
        !(lookup(p, path) is Unloaded),
    ensures
        parent_at(q, path) == parent_at(p, path),
        !(lookup(q, path) is Unloaded),
{
    lemma_lookup_stable(p, q, path, 0);
}

pub proof fn lemma_parents_stable(ps: Seq<LinkView>, qs: Seq<LinkView>, path: Seq<Seq<u8>>, i: int)
    requires
        all_load_to(ps, qs),
        0 <= i,
        forall|j: int| 0 <= j < ps.len() ==> !(lookup(#[trigger] ps[j], path) is Unloaded),
    ensures
        parents_fault(qs, path, i) == parents_fault(ps, path, i),
        active_nodes(qs, path, i) == active_nodes(ps, path, i),
        forall|j: int| 0 <= j < qs.len() ==> !(lookup(#[trigger] qs[j], path) is Unloaded),
    decreases ps.len() - i,
{
    assert forall|j: int| 0 <= j < qs.len() implies !(lookup(#[trigger] qs[j], path) is Unloaded) by {
        assert(loads_to(ps[j], qs[j]));
        lemma_parent_at_stable(ps[j], qs[j], path);
    }
    if i < ps.len() {
        assert(loads_to(ps[i], qs[i]));
        lemma_parent_at_stable(ps[i], qs[i], path);
        lemma_parents_stable(ps, qs, path, i + 1);
    }
}

/// Once all that finalizing a link looks at is in memory, loading more of
/// the parents changes nothing of it.
pub proof fn lemma_ready_stable(l: LinkView, ps: Seq<LinkView>, qs: Seq<LinkView>, path: Seq<Seq<u8>>)
    requires
        all_load_to(ps, qs),
        ready(l, ps, path),
    ensures
        ready(l, qs, path),
        finalize_link(l, qs, path) == finalize_link(l, ps, path),
    decreases l, 0int,
{
    lemma_parents_stable(ps, qs, path, 0);
    if parents_fault(ps, path, 0) is Some {
        return ;
    }
    match l {
        LinkView::Leaf(_) => {},
        LinkView::Durable(n, lazy) => {
            if !active_nodes(ps, path, 0).contains(n) {
                match lazy {
                    LazyView::Loaded(cs) => {
                        lemma_kids_ready_stable(cs, ps, qs, path, cs.len() as int);
                    },
                    _ => {},
                }
            }
        },
        LinkView::Ephemeral(cs) => {
            lemma_kids_ready_stable(cs, ps, qs, path, cs.len() as int);
        },
    }
}

pub proof fn lemma_kids_ready_stable(
    cs: Seq<ChildView>,
    ps: Seq<LinkView>,
    qs: Seq<LinkView>,
    path: Seq<Seq<u8>>,
    k: int,
)
    requires
        all_load_to(ps, qs),
        kids_ready(cs, ps, path),
        0 <= k <= cs.len(),
    ensures
        kids_ready(cs, qs, path),
        finalize_children(cs, qs, path, k) == finalize_children(cs, ps, path, k),
    decreases cs, k,
{
    assert forall|j: int| 0 <= j < cs.len() implies ready(
        (#[trigger] cs[j]).link,
        qs,
        path.push(cs[j].name),
    ) by {
        lemma_ready_stable(cs[j].link, ps, qs, path.push(cs[j].name));
    }
    if k > 0 {
        lemma_kids_ready_stable(cs, ps, qs, path, k - 1);
        lemma_ready_stable(cs[k - 1].link, ps, qs, path.push(cs[k - 1].name));
    }
}

/// One directory that a finalize made: its path, its new hash, its stored
/// form, and the hashes of its first and second parent, null where it has
/// none.
pub type Finalized = (RepoPath, Node, Vec<u8>, Node, Node);

/// The mathematical content of a `Finalized`.
pub open spec fn finalized_view(t: Finalized) -> FinalizedView {
    FinalizedView { path: t.0@, node: t.1@, data: t.2@, first: t.3@, second: t.4@ }
}

/// The mathematical content of a list of `Finalized`.
pub open spec fn made_view(ts: Seq<Finalized>) -> Seq<FinalizedView> {
    Seq::new(ts.len(), |i: int| finalized_view(ts[i]))
}

/// The views of the roots of the trees.
pub open spec fn roots(trees: Seq<Tree>) -> Seq<LinkView> {
    Seq::new(trees.len(), |i: int| trees[i].root@)
}

/// Every tree of the list is valid.
pub open spec fn trees_wf(trees: Seq<Tree>) -> bool {
    forall|i: int| 0 <= i < trees.len() ==> (#[trigger] trees[i]).wf()
}

/// The views of a list of nodes.
pub open spec fn hashes(v: Seq<Node>) -> Seq<Seq<u8>> {
    Seq::new(v.len(), |i: int| v[i]@)
}

/// An error in the first `k` children fails the directory.
proof fn lemma_children_error(cs: Seq<ChildView>, ps: Seq<LinkView>, path: Seq<Seq<u8>>, k: int, n: int)
    requires
        0 <= k <= n <= cs.len(),
        finalize_children(cs, ps, path, k) is Err,
    ensures
        finalize_children(cs, ps, path, n) == finalize_children(cs, ps, path, k),
    decreases n - k,
{
    if k < n {
        lemma_children_error(cs, ps, path, k, n - 1);
    }
}

/// What the parents hold at the path: the hashes of those that hold a stored
/// directory there, or the error of the first that stands in the way.
fn parent_nodes(parents: &Vec<Tree>, path: &RepoPath) -> (r: Result<Vec<Node>, Error>)
    requires
        trees_wf(parents@),
        forall|i: int| 0 <= i < parents@.len() ==> !(lookup(#[trigger] roots(parents@)[i], path@) is Unloaded),
    ensures
        match parents_fault(roots(parents@), path@, 0) {
            Some(e) => r is Err && r.unwrap_err()@ == e,
            None => r is Ok && hashes(r.unwrap()@) == active_nodes(roots(parents@), path@, 0),
        },
{
    let ghost ps = roots(parents@);
    let mut nodes: Vec<Node> = Vec::new();
    let n = parents.len();
    let mut i: usize = n;
    assert(hashes(nodes@) =~= active_nodes(ps, path@, n as int));
    while i > 0
        invariant
            i <= n,
            n == parents@.len(),
            ps == roots(parents@),
            trees_wf(parents@),
            forall|k: int| 0 <= k < ps.len() ==> !(lookup(#[trigger] ps[k], path@) is Unloaded),
            parents_fault(ps, path@, i as int) is None,
            hashes(nodes@) == active_nodes(ps, path@, i as int),
        decreases i,
    {
        i -= 1;
        let tree = &parents[i];
        assert(tree.wf());
        assert(ps[i as int] == tree.root@);
        assert(!(lookup(ps[i as int], path@) is Unloaded));
        match walk(&tree.root, path, 0) {
            Err(e) => {
                proof {
                    lemma_fault_at(ps, path@, 0, i as int);
                }
                return first_fault(parents, path, i);
            },
            Ok(Walked::At(link)) => match link {
                Link::Durable(entry) => {
                    let ghost before = hashes(nodes@);
                    nodes.insert(0, entry.node);
                    assert(hashes(nodes@) =~= seq![entry.node@] + before);
                },
                Link::Ephemeral(_) => {
                    return first_fault(parents, path, i);
                },
                Link::Leaf(_) => {},
            },
            Ok(_) => {},
        }
    }
    Ok(nodes)
}

/// A parent that stands in the way at index `k` makes a fault from any
/// earlier index on.
proof fn lemma_fault_at(ps: Seq<LinkView>, path: Seq<Seq<u8>>, i: int, k: int)
    requires
        0 <= i <= k < ps.len(),
        parent_at(ps[k], path) is Ephemeral || parent_at(ps[k], path) is Failed,
    ensures
        parents_fault(ps, path, i) is Some,
    decreases k - i,
{
    if i < k {
        lemma_fault_at(ps, path, i + 1, k);
    }
}

/// The error of the first parent that stands in the way, given that the
/// parent at index `k` does.
fn first_fault(parents: &Vec<Tree>, path: &RepoPath, k: usize) -> (r: Result<Vec<Node>, Error>)
    requires
        trees_wf(parents@),
        k < parents@.len(),
        forall|i: int| 0 <= i < parents@.len() ==> !(lookup(#[trigger] roots(parents@)[i], path@) is Unloaded),
        parent_at(roots(parents@)[k as int], path@) is Ephemeral || parent_at(
            roots(parents@)[k as int],
            path@,
        ) is Failed,
    ensures
        parents_fault(roots(parents@), path@, 0) is Some,
        r is Err && r.unwrap_err()@ == parents_fault(roots(parents@), path@, 0).unwrap(),
{
    let ghost ps = roots(parents@);
    let mut i: usize = 0;
    proof {
        lemma_fault_at(ps, path@, 0, k as int);
    }
    while i < k
        invariant
            i <= k < parents@.len(),
            ps == roots(parents@),
            trees_wf(parents@),
            forall|j: int| 0 <= j < ps.len() ==> !(lookup(#[trigger] ps[j], path@) is Unloaded),
            parents_fault(ps, path@, 0) == parents_fault(ps, path@, i as int),
            parent_at(ps[k as int], path@) is Ephemeral || parent_at(ps[k as int], path@) is Failed,
        decreases k - i,
    {
        let tree = &parents[i];
        assert(tree.wf());
        assert(ps[i as int] == tree.root@);
        match walk(&tree.root, path, 0) {
            Err(e) => {
                return Err(e);
            },
            Ok(Walked::At(link)) => match link {
                Link::Ephemeral(_) => {
                    return Err(Error::InvariantViolated(Violation::EphemeralParent));
                },
                _ => {},
            },
            Ok(_) => {},
        }
        i += 1;
    }
    let tree = &parents[k];
    assert(tree.wf());
    assert(ps[k as int] == tree.root@);
    match walk(&tree.root, path, 0) {
        Err(e) => Err(e),
        _ => Err(Error::InvariantViolated(Violation::EphemeralParent)),
    }
}

/// The hash of a directory at commit time; `None` where the bytes to hash
/// are too many.
pub fn mixed_hash(first: &Node, second: &Node, content: &[u8]) -> (r: Option<Node>)
    ensures
        r is Some <==> mix_input(first@, second@, content@).len() < SHA1_LIMIT,
        r is Some ==> r.unwrap()@ == mix_hash(first@, second@, content@),
{
    let mut input: Vec<u8> = Vec::new();
    if first.less_than(second) {
        append_bytes(&mut input, first.bytes.as_slice());
        append_bytes(&mut input, second.bytes.as_slice());
    } else {
        append_bytes(&mut input, second.bytes.as_slice());
        append_bytes(&mut input, first.bytes.as_slice());
    }
    append_bytes(&mut input, content);
    assert(input@ =~= mix_input(first@, second@, content@));
    hash_bytes(input.as_slice())
}

/// Finalizes the children of a directory in order.
fn finalize_kids(cs: &mut Vec<Child>, parents: &Vec<Tree>, path: &mut RepoPath, out: &mut Vec<Finalized>) -> (r:
    Result<(), Error>)
    requires
        wf_children(children_view(old(cs)@)),
        trees_wf(parents@),
        kids_ready(children_view(old(cs)@), roots(parents@), old(path)@),
    ensures
        final(path)@ == old(path)@,
        wf_children(children_view(final(cs)@)),
        match finalize_children(
            children_view(old(cs)@),
            roots(parents@),
            old(path)@,
            old(cs)@.len() as int,
        ) {
            Ok((fcs, made)) => r is Ok && children_view(final(cs)@) == fcs && made_view(final(out)@)
                == made_view(old(out)@) + made && forall|k: int|
                0 <= k < fcs.len() ==> !((#[trigger] fcs[k]).link is Ephemeral),
            Err(e) => r is Err && r.unwrap_err()@ == e,
        },
    decreases children_view(old(cs)@), 0int,
{
    let ghost before = children_view(cs@);
    let ghost ps = roots(parents@);
    let ghost out0 = made_view(out@);
    let n = cs.len();
    let mut i: usize = 0;
    proof {
        assert(out0 + Seq::<FinalizedView>::empty() =~= out0);
    }
    while i < n
        invariant
            n == cs@.len(),
            i <= n,
            before.len() == n,
            before == children_view(old(cs)@),
            ps == roots(parents@),
            trees_wf(parents@),
            wf_children(before),
            kids_ready(before, ps, old(path)@),
            path@ == old(path)@,
            wf_children(children_view(cs@)),
            finalize_children(before, ps, old(path)@, i as int) is Ok,
            children_view(cs@).subrange(0, i as int) == finalize_children(
                before,
                ps,
                old(path)@,
                i as int,
            )->Ok_0.0,
            made_view(out@) == out0 + finalize_children(before, ps, old(path)@, i as int)->Ok_0.1,
            forall|k: int| i <= k < n ==> (#[trigger] children_view(cs@)[k]) == before[k],
            forall|k: int| 0 <= k < i ==> !((#[trigger] children_view(cs@)[k]).link is Ephemeral),
        decreases n - i,
    {
        let ghost cur = children_view(cs@);
        let ghost done = finalize_children(before, ps, old(path)@, i as int)->Ok_0;
        let ghost out1 = made_view(out@);
        let child = &mut cs[i];
        assert(child@ == cur[i as int]);
        assert(cur[i as int] == before[i as int]);
        assert(before[i as int].link.wf());
        assert(ready(before[i as int].link, ps, old(path)@.push(before[i as int].name)));
        path.push(child.name.clone());
        let r = finalize_below(&mut child.link, parents, path, out);
        path.pop();
        proof {
            assert(path@ =~= old(path)@);
            let c = cs@[i as int]@;
            assert(children_view(cs@) =~= cur.update(i as int, c));
            lemma_update_wf(cur, i as int, c);
        }
        match r {
            Err(e) => {
                proof {
                    lemma_children_error(before, ps, old(path)@, i + 1, n as int);
                }
                return Err(e);
            },
            Ok(()) => {},
        }
        proof {
            let step = finalize_link(before[i as int].link, ps, old(path)@.push(before[i as int].name))->Ok_0;
            let c = ChildView { name: before[i as int].name, link: step.0 };
            assert(children_view(cs@).subrange(0, i + 1) =~= done.0.push(c));
            assert(out0 + (done.1 + step.1) =~= out1 + step.1);
            assert forall|k: int| 0 <= k < i + 1 implies !((#[trigger] children_view(cs@)[k]).link is Ephemeral) by {
                if k < i {
                    assert(children_view(cs@)[k] == cur[k]);
                }
            }
        }
        i += 1;
    }
    proof {
        assert(children_view(cs@).subrange(0, n as int) =~= children_view(cs@));
    }
    Ok(())
}

/// Finalizes one link against the parents; see `finalize_link`.
fn finalize_below(link: &mut Link, parents: &Vec<Tree>, path: &mut RepoPath, out: &mut Vec<Finalized>) -> (r:
    Result<(), Error>)
    requires
        old(link)@.wf(),
        trees_wf(parents@),
        ready(old(link)@, roots(parents@), old(path)@),
    ensures
        final(path)@ == old(path)@,
        final(link)@.wf(),
        final(link)@.is_dir() == old(link)@.is_dir(),
        match finalize_link(old(link)@, roots(parents@), old(path)@) {
            Ok((l, made)) => r is Ok && final(link)@ == l && made_view(final(out)@) == made_view(
                old(out)@,
            ) + made && !(l is Ephemeral),
            Err(e) => r is Err && r.unwrap_err()@ == e,
        },
    decreases old(link)@, 1int,
{
    let ghost ps = roots(parents@);
    let ghost out0 = made_view(out@);
    proof {
        assert(out0 + Seq::<FinalizedView>::empty() =~= out0);
    }
    let nodes = match parent_nodes(parents, path) {
        Ok(nodes) => nodes,
        Err(e) => {
            return Err(e);
        },
    };
    let ghost nv = hashes(nodes@);
    let (first, second) = {
        let first = if nodes.len() > 0 {
            nodes[0]
        } else {
            Node::null_id()
        };
        let second = if nodes.len() > 1 {
            nodes[1]
        } else {
            Node::null_id()
        };
        (first, second)
    };
    assert(first@ == nth_or_null(nv, 0) && second@ == nth_or_null(nv, 1));
    let node = match link {
        Link::Leaf(_) => {
            return Ok(());
        },
        Link::Durable(entry) => {
            if contains_node(&nodes, &entry.node) {
                proof {
                    let i = choose|i: int| 0 <= i < nodes@.len() && #[trigger] nodes@[i]@ == entry.node@;
                    assert(nv[i] == entry.node@);
                }
                return Ok(());
            }
            proof {
                if nv.contains(entry.node@) {
                    let i = choose|i: int| 0 <= i < nv.len() && nv[i] == entry.node@;
                    assert(nodes@[i]@ == entry.node@);
                }
            }
            match &mut entry.links {
                Lazy::Loaded(cs) => {
                    assert(decreases_to!(old(link)@ => old(link)@->Durable_1));
                    match finish_dir(cs, parents, path, out, &first, &second) {
                        Ok(node) => node,
                        Err(e) => {
                            return Err(e);
                        },
                    }
                },
                Lazy::Failed(f) => {
                    return Err(Error::from_load(path, &entry.node, *f));
                },
                Lazy::Unloaded => {
                    return Err(Error::InvariantViolated(Violation::NotLoaded));
                },
            }
        },
        Link::Ephemeral(cs) => {
            assert(decreases_to!(old(link)@ => old(link)@->Ephemeral_0));
            match finish_dir(cs, parents, path, out, &first, &second) {
                Ok(node) => node,
                Err(e) => {
                    return Err(e);
                },
            }
        },
    };
    let mut taken = Link::Ephemeral(Vec::new());
    core::mem::swap(link, &mut taken);
    match taken {
        Link::Ephemeral(cs) => {
            *link = Link::Durable(DurableEntry { node, links: Lazy::Loaded(cs) });
        },
        Link::Durable(entry) => {
            let DurableEntry { node: _, links } = entry;
            *link = Link::Durable(DurableEntry { node, links });
        },
        other => {
            *link = other;
        },
    }
    Ok(())
}

/// Finalizes the children of a directory, then makes the directory: hashes
/// its stored form with the parents' hashes and records what was made.
fn finish_dir(
    cs: &mut Vec<Child>,
    parents: &Vec<Tree>,
    path: &mut RepoPath,
    out: &mut Vec<Finalized>,
    first: &Node,
    second: &Node,
) -> (r: Result<Node, Error>)
    requires
        wf_children(children_view(old(cs)@)),
        trees_wf(parents@),
        kids_ready(children_view(old(cs)@), roots(parents@), old(path)@),
        first@ == nth_or_null(active_nodes(roots(parents@), old(path)@, 0), 0),
        second@ == nth_or_null(active_nodes(roots(parents@), old(path)@, 0), 1),
    ensures
        final(path)@ == old(path)@,
        wf_children(children_view(final(cs)@)),
        match finalize_dir(
            children_view(old(cs)@),
            roots(parents@),
            old(path)@,
            active_nodes(roots(parents@), old(path)@, 0),
        ) {
            Ok((l, made)) => r is Ok && l == LinkView::Durable(
                r.unwrap()@,
                LazyView::Loaded(children_view(final(cs)@)),
            ) && made_view(final(out)@) == made_view(old(out)@) + made,
            Err(e) => r is Err && r.unwrap_err()@ == e,
        },
    decreases children_view(old(cs)@), 1int,
{
    let ghost out0 = made_view(out@);
    match finalize_kids(cs, parents, path, out) {
        Err(e) => {
            return Err(e);
        },
        Ok(()) => {},
    }
    let ghost out1 = made_view(out@);
    proof {
        assert forall|i: int| 0 <= i < cs@.len() implies !((#[trigger] cs@[i]).link@ is Ephemeral) by {
            assert(children_view(cs@)[i].link == cs@[i].link@);
        }
    }
    let elements = elements_from_children(cs);
    let bytes = serialize(&elements);
    let node = match mixed_hash(first, second, bytes.as_slice()) {
        Some(n) => n,
        None => {
            return Err(Error::InvariantViolated(Violation::EntryTooLarge));
        },
    };
    let made: Finalized = (path.clone(), node, bytes, *first, *second);
    proof {
        let t = finalized_view(made);
        assert(made_view(out@.push(made)) =~= out1.push(t));
        let kids = finalize_children(
            children_view(old(cs)@),
            roots(parents@),
            old(path)@,
            old(cs)@.len() as int,
        )->Ok_0;
        assert(out0 + kids.1.push(t) =~= (out0 + kids.1).push(t));
    }
    out.push(made);
    Ok(node)
}

/// The parents `qs` are the parents `ps` after more was loaded, and what
/// was loaded is what the store answered according to the record: see
/// `loads_by`.
pub open spec fn all_load_by(ps: Seq<LinkView>, qs: Seq<LinkView>, rs: Seq<Read>) -> bool {
    &&& ps.len() == qs.len()
    &&& forall|i: int| 0 <= i < ps.len() ==> loads_by(#[trigger] ps[i], qs[i], Seq::empty(), rs)
}

/// Loading nothing asks nothing, parent by parent.
pub proof fn lemma_all_load_by_refl(ps: Seq<LinkView>, rs: Seq<Read>)
    ensures
        all_load_by(ps, ps, rs),
{
    assert forall|i: int| 0 <= i < ps.len() implies loads_by(#[trigger] ps[i], ps[i], Seq::empty(), rs) by {
        lemma_loads_by_refl(ps[i], Seq::empty(), rs);
    }
}

/// Loading in two rounds, the second by a record that extends that of the
/// first, is loading by the second record, parent by parent.
pub proof fn lemma_all_load_by_trans(
    ps: Seq<LinkView>,
    qs: Seq<LinkView>,
    ts: Seq<LinkView>,
    rs: Seq<Read>,
    more: Seq<Read>,
)
    requires
        all_load_by(ps, qs, rs),
        all_load_by(qs, ts, more),
        extends(rs, more),
    ensures
        all_load_by(ps, ts, more),
{
    assert forall|i: int| 0 <= i < ps.len() implies loads_by(#[trigger] ps[i], ts[i], Seq::empty(), more) by {
        assert(loads_by(ps[i], qs[i], Seq::empty(), rs));
        assert(loads_by(qs[i], ts[i], Seq::empty(), more));
        lemma_loads_by_more(ps[i], qs[i], Seq::empty(), rs, more);
        lemma_loads_by_trans(ps[i], qs[i], ts[i], Seq::empty(), more);
    }
}

/// Loading in two rounds is loading, parent by parent.
pub proof fn lemma_all_load_to_trans(ps: Seq<LinkView>, qs: Seq<LinkView>, rs: Seq<LinkView>)
    requires
        all_load_to(ps, qs),
        all_load_to(qs, rs),
    ensures
        all_load_to(ps, rs),
{
    assert forall|i: int| 0 <= i < ps.len() implies loads_to(#[trigger] ps[i], rs[i]) by {
        assert(loads_to(ps[i], qs[i]));
        assert(loads_to(qs[i], rs[i]));
        lemma_loads_to_trans(ps[i], qs[i], rs[i]);
    }
}

/// Loads, in every parent, the stored directories on the way to the path.
fn load_parents<S: TreeStore>(parents: &mut Vec<Tree>, store: &mut InnerStore<S>, path: &RepoPath)
    requires
        trees_wf(old(parents)@),
    ensures
        final(store).written@ == old(store).written@,
        trees_wf(final(parents)@),
        all_load_to(roots(old(parents)@), roots(final(parents)@)),
        extends(old(store).reads@, final(store).reads@),
        all_load_by(roots(old(parents)@), roots(final(parents)@), final(store).reads@),
        forall|i: int|
            0 <= i < final(parents)@.len() ==> !(lookup(#[trigger] roots(final(parents)@)[i], path@) is Unloaded),
{
    let n = parents.len();
    let mut i: usize = 0;
    proof {
        lemma_all_load_by_refl(roots(parents@), store.reads@);
        lemma_extends_refl(store.reads@);
        assert forall|k: int| 0 <= k < n implies loads_to(
            #[trigger] roots(parents@)[k],
            roots(parents@)[k],
        ) by {
            lemma_loads_to_refl(roots(parents@)[k]);
        }
    }
    while i < n
        invariant
            store.written@ == old(store).written@,
            i <= n,
            n == parents@.len(),
            n == old(parents)@.len(),
            trees_wf(parents@),
            all_load_to(roots(old(parents)@), roots(parents@)),
            extends(old(store).reads@, store.reads@),
            all_load_by(roots(old(parents)@), roots(parents@), store.reads@),
            forall|k: int| 0 <= k < i ==> !(lookup(#[trigger] roots(parents@)[k], path@) is Unloaded),
        decreases n - i,
    {
        let ghost before = parents@;
        let ghost ri = store.reads@;
        let tree = &mut parents[i];
        assert(tree.wf());
        load_along(&mut tree.root, store, path, 0, false);
        proof {
            let now = parents@;
            assert(path@.subrange(0, 0) =~= Seq::<Seq<u8>>::empty());
            lemma_extends_trans(old(store).reads@, ri, store.reads@);
            assert forall|k: int| 0 <= k < n implies loads_by(
                #[trigger] roots(old(parents)@)[k],
                roots(now)[k],
                Seq::empty(),
                store.reads@,
            ) by {
                assert(loads_by(roots(old(parents)@)[k], roots(before)[k], Seq::empty(), ri));
                lemma_loads_by_more(roots(old(parents)@)[k], roots(before)[k], Seq::empty(), ri, store.reads@);
                if k == i {
                    lemma_loads_by_trans(
                        roots(old(parents)@)[k],
                        roots(before)[k],
                        roots(now)[k],
                        Seq::empty(),
                        store.reads@,
                    );
                } else {
                    assert(now[k] == before[k]);
                }
            }
            assert forall|k: int| 0 <= k < n implies (#[trigger] now[k]).wf() by {
                if k != i {
                    assert(now[k] == before[k]);
                    assert(before[k].wf());
                }
            }
            assert forall|k: int| 0 <= k < n implies loads_to(
                #[trigger] roots(old(parents)@)[k],
                roots(now)[k],
            ) by {
                assert(loads_to(roots(old(parents)@)[k], roots(before)[k]));
                if k == i {
                    lemma_loads_to_trans(roots(old(parents)@)[k], roots(before)[k], roots(now)[k]);
                } else {
                    assert(now[k] == before[k]);
                }
            }
            assert forall|k: int| 0 <= k < i + 1 implies !(lookup(#[trigger] roots(now)[k], path@) is Unloaded) by {
                if k < i {
                    assert(now[k] == before[k]);
                    assert(!(lookup(roots(before)[k], path@) is Unloaded));
                }
            }
        }
        i += 1;
    }
}

/// Loads what finalizing the link at the path looks at: the parents on the
/// way to the path, and below every directory that is not unchanged. Tells
/// whether all of it could be loaded; it could not where the tree is deeper
/// than a path can be long.
fn prepare<S: TreeStore>(link: &mut Link, store: &mut InnerStore<S>, parents: &mut Vec<Tree>, path: &mut RepoPath) -> (complete:
    bool)
    requires
        old(link)@.wf(),
        trees_wf(old(parents)@),
    ensures
        final(store).written@ == old(store).written@,
        final(path)@ == old(path)@,
        final(link)@.wf(),
        loads_to(old(link)@, final(link)@),
        trees_wf(final(parents)@),
        all_load_to(roots(old(parents)@), roots(final(parents)@)),
        extends(old(store).reads@, final(store).reads@),
        loads_by(old(link)@, final(link)@, old(path)@, final(store).reads@),
        all_load_by(roots(old(parents)@), roots(final(parents)@), final(store).reads@),
        complete ==> ready(final(link)@, roots(final(parents)@), old(path)@),
        !complete ==> too_deep(final(link)@, roots(final(parents)@), old(path)@),
    decreases usize::MAX - old(path)@.len(), 1int,
{
    let ghost r0 = store.reads@;
    load_parents(parents, store, path);
    let ghost mid = roots(parents@);
    let ghost r1 = store.reads@;
    proof {
        lemma_loads_to_refl(link@);
        lemma_loads_by_refl(link@, path@, r1);
        lemma_all_load_by_refl(mid, r1);
        lemma_extends_refl(r1);
    }
    let nodes = match parent_nodes(parents, path) {
        Ok(nodes) => nodes,
        Err(_) => {
            return true;
        },
    };
    let ghost nv = hashes(nodes@);
    proof {
        assert forall|k: int| 0 <= k < mid.len() implies loads_to(#[trigger] mid[k], mid[k]) by {
            lemma_loads_to_refl(mid[k]);
        }
    }
    let complete = match link {
        Link::Leaf(_) => true,
        Link::Ephemeral(cs) => {
            let c = prepare_kids(cs, store, parents, path);
            c
        },
        Link::Durable(entry) => {
            if contains_node(&nodes, &entry.node) {
                proof {
                    let i = choose|i: int| 0 <= i < nodes@.len() && #[trigger] nodes@[i]@ == entry.node@;
                    assert(nv[i] == entry.node@);
                    match old(link)@ {
                        LinkView::Durable(_, LazyView::Loaded(ca)) => {
                            lemma_kids_load_to_refl(ca);
                        },
                        _ => {},
                    }
                }
                true
            } else {
                load_entry(entry, store, path);
                let ghost r2 = store.reads@;
                let ghost at = LinkView::Durable(entry.node@, entry.links@);
                proof {
                    if old(link)@->Durable_1 is Unloaded {
                        lemma_extends_one(r1, r2);
                        lemma_loaded_by_last(entry.node@, path@, r2);
                    } else {
                        lemma_loads_by_refl(at, path@, r2);
                    }
                    lemma_all_load_by_refl(mid, r2);
                }
                match &mut entry.links {
                    Lazy::Loaded(cs) => {
                        let ghost loaded = children_view(cs@);
                        let c = prepare_kids(cs, store, parents, path);
                        proof {
                            match old(link)@ {
                                LinkView::Durable(_, LazyView::Loaded(ca)) => {
                                    assert(ca == loaded);
                                },
                                _ => {},
                            }
                            lemma_extends_trans(r1, r2, store.reads@);
                            lemma_loads_by_more(old(link)@, at, path@, r2, store.reads@);
                            lemma_loads_by_trans(old(link)@, at, link@, path@, store.reads@);
                        }
                        c
                    },
                    _ => true,
                }
            }
        },
    };
    proof {
        lemma_all_load_to_trans(roots(old(parents)@), mid, roots(parents@));
        lemma_parents_stable(mid, roots(parents@), path@, 0);
        lemma_extends_trans(r0, r1, store.reads@);
        lemma_all_load_by_trans(roots(old(parents)@), mid, roots(parents@), r1, store.reads@);
    }
    complete
}

/// Loads what finalizing the children of a directory looks at.
fn prepare_kids<S: TreeStore>(
    cs: &mut Vec<Child>,
    store: &mut InnerStore<S>,
    parents: &mut Vec<Tree>,
    path: &mut RepoPath,
) -> (complete: bool)
    requires
        wf_children(children_view(old(cs)@)),
        trees_wf(old(parents)@),
    ensures
        final(store).written@ == old(store).written@,
        final(path)@ == old(path)@,
        wf_children(children_view(final(cs)@)),
        kids_load_to(children_view(old(cs)@), children_view(final(cs)@)),
        trees_wf(final(parents)@),
        all_load_to(roots(old(parents)@), roots(final(parents)@)),
        extends(old(store).reads@, final(store).reads@),
        kids_load_by(children_view(old(cs)@), children_view(final(cs)@), old(path)@, final(store).reads@),
        all_load_by(roots(old(parents)@), roots(final(parents)@), final(store).reads@),
        complete ==> kids_ready(children_view(final(cs)@), roots(final(parents)@), old(path)@),
        !complete ==> kids_too_deep(children_view(final(cs)@), roots(final(parents)@), old(path)@),
    decreases usize::MAX - old(path)@.len(), 0int,
{
    let ghost before = children_view(cs@);
    let n = cs.len();
    let mut i: usize = 0;
    proof {
        lemma_kids_load_to_refl(before);
        assert forall|k: int| 0 <= k < parents@.len() implies loads_to(
            #[trigger] roots(parents@)[k],
            roots(parents@)[k],
        ) by {
            lemma_loads_to_refl(roots(parents@)[k]);
        }
        lemma_kids_load_by_refl(before, path@, store.reads@);
        lemma_all_load_by_refl(roots(parents@), store.reads@);
        lemma_extends_refl(store.reads@);
    }
    while i < n
        invariant
            store.written@ == old(store).written@,
            extends(old(store).reads@, store.reads@),
            kids_load_by(before, children_view(cs@), old(path)@, store.reads@),
            all_load_by(roots(old(parents)@), roots(parents@), store.reads@),
            n == cs@.len(),
            i <= n,
            before == children_view(old(cs)@),
            path@ == old(path)@,
            wf_children(children_view(cs@)),
            kids_load_to(before, children_view(cs@)),
            trees_wf(parents@),
            all_load_to(roots(old(parents)@), roots(parents@)),
            forall|k: int|
                0 <= k < i ==> ready(
                    (#[trigger] children_view(cs@)[k]).link,
                    roots(parents@),
                    old(path)@.push(children_view(cs@)[k].name),
                ),
        decreases n - i,
    {
        if path.len() == usize::MAX {
            return false;
        }
        let ghost cur = children_view(cs@);
        let ghost ps0 = roots(parents@);
        let ghost ri = store.reads@;
        let child = &mut cs[i];
        assert(child@ == cur[i as int]);
        assert(cur[i as int].link.wf());
        path.push(child.name.clone());
        let c = prepare(&mut child.link, store, parents, path);
        path.pop();
        proof {
            assert(path@ =~= old(path)@);
            let ch = cs@[i as int]@;
            let now = children_view(cs@);
            assert(now =~= cur.update(i as int, ch));
            lemma_kids_update(cur, i as int, ch);
            lemma_kids_load_to_trans(before, cur, now);
            lemma_all_load_to_trans(roots(old(parents)@), ps0, roots(parents@));
            lemma_extends_trans(old(store).reads@, ri, store.reads@);
            lemma_kids_load_by_step(before, cur, i as int, ch, old(path)@, ri, store.reads@);
            lemma_all_load_by_trans(roots(old(parents)@), ps0, roots(parents@), ri, store.reads@);
            assert forall|k: int| 0 <= k < i implies ready(
                (#[trigger] now[k]).link,
                roots(parents@),
                old(path)@.push(now[k].name),
            ) by {
                assert(now[k] == cur[k]);
                lemma_ready_stable(cur[k].link, ps0, roots(parents@), old(path)@.push(cur[k].name));
            }
        }
        if !c {
            proof {
                let now = children_view(cs@);
                assert(too_deep(now[i as int].link, roots(parents@), old(path)@.push(now[i as int].name)));
            }
            return false;
        }
        i += 1;
    }
    true
}

/// The result of a finalize with what it returns replaced by its view.
pub open spec fn made_result(r: Result<Vec<Finalized>, Error>) -> Result<Seq<FinalizedView>, ErrorView> {
    match r {
        Ok(v) => Ok(made_view(v@)),
        Err(e) => Err(e@),
    }
}

/// The error is that of the store refusing the directory.
pub open spec fn refusal(e: ErrorView, t: FinalizedView) -> bool {
    e == write_error(t.path, t.node, StoreFault::NotFound) || e == write_error(
        t.path,
        t.node,
        StoreFault::Io,
    )
}

/// What `finalize` leaves behind. The tree `h` is the tree before with what
/// the finalize looked at loaded, each directory with what the store
/// answered according to the record `reads`; `ps` are the parents as they
/// stand afterwards; `log0` and `log1` are the blobs written before and
/// after.
///
/// - Where finalizing would have to look into a directory that lies as
///   many components deep as a path can be long (`too_deep`), the finalize
///   fails with `PathTooLong`, the tree stays `h` and nothing is written.
///   No tree of fewer levels is too deep: see `lemma_too_deep_is_high`.
/// - Where finalizing `h` fails, the finalize fails in the same way and
///   nothing is written.
/// - Otherwise the tree becomes what finalizing `h` gives, and the
///   directories that were made are written in order. The finalize returns
///   them; or, where the store refuses one of them, it fails with the error
///   of that refusal, and those before it are written.
pub open spec fn finalize_post(
    before: LinkView,
    ps: Seq<LinkView>,
    r: Result<Seq<FinalizedView>, ErrorView>,
    after: LinkView,
    log0: Seq<Blob>,
    log1: Seq<Blob>,
    reads: Seq<Read>,
) -> bool {
    exists|h: LinkView|
        {
            &&& #[trigger] loads_to(before, h)
            &&& loads_by(before, h, Seq::empty(), reads)
            &&& h.wf()
            &&& {
                ||| {
                    &&& r == Err::<Seq<FinalizedView>, ErrorView>(
                        ErrorView::InvariantViolated(Violation::PathTooLong),
                    )
                    &&& after == h
                    &&& log1 == log0
                    &&& too_deep(h, ps, Seq::empty())
                }
                ||| ready(h, ps, Seq::empty()) && match finalize_link(h, ps, Seq::empty()) {
                    Err(e) => r == Err::<Seq<FinalizedView>, ErrorView>(e) && log1 == log0,
                    Ok((l, made)) => after == l && {
                        ||| r == Ok::<Seq<FinalizedView>, ErrorView>(made) && log1 == log0 + blobs_of(made)
                        ||| exists|k: int|
                            {
                                &&& 0 <= k < made.len()
                                &&& r is Err
                                &&& refusal(r->Err_0, made[k])
                                &&& log1 == log0 + #[trigger] blobs_of(made).subrange(0, k)
                            }
                    },
                }
            }
        }
}

impl Tree {
    /// Gives the tree the hashes of a commit with the given parent trees,
    /// writes every directory that was made to the store, and returns those
    /// directories, children before parents and the root last; see
    /// `finalize_link` for what is made, and `finalize_post` for all that
    /// holds afterwards.
    ///
    /// The parents have to be stored trees: a parent with a directory that
    /// was never hashed at a path that is looked at fails the finalize with
    /// `EphemeralParent`. More than two parents fail it with
    /// `TooManyParents` before anything is done.
    pub fn finalize<S: TreeStore>(&mut self, store: &mut InnerStore<S>, parents: &mut Vec<Tree>) -> (r:
        Result<Vec<Finalized>, Error>)
        requires
            old(self).wf(),
            trees_wf(old(parents)@),
        ensures
            final(self).wf(),
            trees_wf(final(parents)@),
            all_load_to(roots(old(parents)@), roots(final(parents)@)),
            old(parents)@.len() > 2 ==> r is Err && r.unwrap_err()@ == ErrorView::InvariantViolated(
                Violation::TooManyParents,
            ) && final(self).root@ == old(self).root@ && final(store).written@ == old(store).written@,
            old(parents)@.len() <= 2 ==> finalize_post(
                old(self).root@,
                roots(final(parents)@),
                made_result(r),
                final(self).root@,
                old(store).written@,
                final(store).written@,
                final(store).reads@,
            ),
            extends(old(store).reads@, final(store).reads@),
            all_load_by(roots(old(parents)@), roots(final(parents)@), final(store).reads@),
    {
        if parents.len() > 2 {
            proof {
                assert forall|k: int| 0 <= k < parents@.len() implies loads_to(
                    #[trigger] roots(parents@)[k],
                    roots(parents@)[k],
                ) by {
                    lemma_loads_to_refl(roots(parents@)[k]);
                }
                lemma_all_load_by_refl(roots(parents@), store.reads@);
                lemma_extends_refl(store.reads@);
            }
            return Err(Error::InvariantViolated(Violation::TooManyParents));
        }
        let mut path = RepoPath::new();
        let complete = prepare(&mut self.root, store, parents, &mut path);
        let ghost h = self.root@;
        let ghost ps = roots(parents@);
        assert(loads_to(old(self).root@, h));
        if !complete {
            return Err(Error::InvariantViolated(Violation::PathTooLong));
        }
        let mut made: Vec<Finalized> = Vec::new();
        assert(made_view(made@) =~= Seq::<FinalizedView>::empty());
        match finalize_below(&mut self.root, parents, &mut path, &mut made) {
            Err(e) => {
                return Err(e);
            },
            Ok(()) => {},
        }
        let ghost mv = made_view(made@);
        assert(Seq::<FinalizedView>::empty() + mv =~= mv);
        let ghost log0 = store.written@;
        let ghost after = self.root@;
        let mut i: usize = 0;
        assert(log0 + blobs_of(mv).subrange(0, 0) =~= log0);
        while i < made.len()
            invariant
                i <= made@.len(),
                mv == made_view(made@),
                store.written@ == log0 + blobs_of(mv).subrange(0, i as int),
                log0 == old(store).written@,
                self.root@ == after,
                self.wf(),
                trees_wf(parents@),
                roots(parents@) == ps,
                old(parents)@.len() <= 2,
                all_load_to(roots(old(parents)@), ps),
                extends(old(store).reads@, store.reads@),
                all_load_by(roots(old(parents)@), ps, store.reads@),
                loads_by(old(self).root@, h, Seq::empty(), store.reads@),
                loads_to(old(self).root@, h),
                h.wf(),
                ready(h, ps, Seq::empty()),
                finalize_link(h, ps, Seq::empty()) == Ok::<(LinkView, Seq<FinalizedView>), ErrorView>(
                    (after, mv),
                ),
            decreases made@.len() - i,
        {
            let t = &made[i];
            let ghost log = store.written@;
            let data = crate::path::copy_bytes(t.2.as_slice());
            match store.insert(&t.0, &t.1, data) {
                Ok(()) => {},
                Err(StoreFault::NotFound) => {
                    let e = Error::BlobNotFound { path: t.0.clone(), node: t.1 };
                    assert(refusal(e@, mv[i as int]));
                    return Err(e);
                },
                Err(StoreFault::Io) => {
                    assert(refusal(ErrorView::StorageIo, mv[i as int]));
                    return Err(Error::StorageIo);
                },
            }
            proof {
                assert(blobs_of(mv).subrange(0, i + 1) =~= blobs_of(mv).subrange(0, i as int).push(
                    blobs_of(mv)[i as int],
                ));
                assert(log0 + blobs_of(mv).subrange(0, i + 1) =~= log.push(blobs_of(mv)[i as int]));
            }
            i += 1;
        }
        assert(blobs_of(mv).subrange(0, mv.len() as int) =~= blobs_of(mv));
        Ok(made)
    }
}

/// Two lists of made directories agree in paths, hashes and stored forms,
/// and each directory has the same two parent hashes in one order or the
/// other.
pub open spec fn same_made(a: Seq<FinalizedView>, b: Seq<FinalizedView>) -> bool {
    &&& a.len() == b.len()
    &&& forall|i: int|
        0 <= i < a.len() ==> {
            &&& (#[trigger] a[i]).path == b[i].path
            &&& a[i].node == b[i].node
            &&& a[i].data == b[i].data
            &&& (a[i].first == b[i].first && a[i].second == b[i].second) || (a[i].first == b[i].second && a[i].second == b[i].first)
        }
}

/// Two results of a finalize agree: both fail, or both give the same tree
/// and the same directories.
pub open spec fn same_outcome(
    x: Result<(LinkView, Seq<FinalizedView>), ErrorView>,
    y: Result<(LinkView, Seq<FinalizedView>), ErrorView>,
) -> bool {
    match (x, y) {
        (Ok((l1, m1)), Ok((l2, m2))) => l1 == l2 && same_made(m1, m2),
        (Err(_), Err(_)) => true,
        _ => false,
    }
}

/// `same_outcome` for the children of a directory.
pub open spec fn same_kids_outcome(
    x: Result<(Seq<ChildView>, Seq<FinalizedView>), ErrorView>,
    y: Result<(Seq<ChildView>, Seq<FinalizedView>), ErrorView>,
) -> bool {
    match (x, y) {
        (Ok((c1, m1)), Ok((c2, m2))) => c1 == c2 && same_made(m1, m2),
        (Err(_), Err(_)) => true,
        _ => false,
    }
}

proof fn lemma_two_parents(a: LinkView, b: LinkView, path: Seq<Seq<u8>>)
    ensures
        parents_fault(seq![a, b], path, 0) is Some <==> parents_fault(seq![b, a], path, 0) is Some,
        ({
            let x = active_nodes(seq![a, b], path, 0);
            let y = active_nodes(seq![b, a], path, 0);
            &&& x.len() == y.len()
            &&& x.len() <= 2
            &&& forall|n: Seq<u8>| x.contains(n) <==> y.contains(n)
            &&& nth_or_null(x, 0) == nth_or_null(y, 1) && nth_or_null(x, 1) == nth_or_null(y, 0)
                || x =~= y
        }),
{
    reveal_with_fuel(parents_fault, 3);
    reveal_with_fuel(active_nodes, 3);
    let ab = seq![a, b];
    let ba = seq![b, a];
    let x = active_nodes(ab, path, 0);
    let y = active_nodes(ba, path, 0);
    assert(ab[0] == a && ab[1] == b && ba[0] == b && ba[1] == a);
    let e = Seq::<Seq<u8>>::empty();
    match (parent_at(a, path), parent_at(b, path)) {
        (ParentAt::Active(na), ParentAt::Active(nb)) => {
            assert(x =~= seq![na] + (seq![nb] + e));
            assert(y =~= seq![nb] + (seq![na] + e));
            assert forall|n: Seq<u8>| x.contains(n) <==> y.contains(n) by {
                if x.contains(n) {
                    let i = choose|i: int| 0 <= i < x.len() && x[i] == n;
                    assert(y[1 - i] == n);
                }
                if y.contains(n) {
                    let i = choose|i: int| 0 <= i < y.len() && y[i] == n;
                    assert(x[1 - i] == n);
                }
            }
        },
        (ParentAt::Active(na), _) => {
            assert(x =~= seq![na] + e);
            assert(y =~= seq![na] + e);
        },
        (_, ParentAt::Active(nb)) => {
            assert(x =~= seq![nb] + e);
            assert(y =~= seq![nb] + e);
        },
        _ => {
            assert(x =~= e);
            assert(y =~= e);
        },
    }
}

/// The order of two parents changes no hash: finalizing a link against the
/// parents in either order fails in both cases, or gives the same tree and
/// the same directories with the same hashes and stored forms.
pub proof fn lemma_finalize_parent_order(l: LinkView, a: LinkView, b: LinkView, path: Seq<Seq<u8>>)
    ensures
        same_outcome(finalize_link(l, seq![a, b], path), finalize_link(l, seq![b, a], path)),
    decreases l, 0int,
{
    lemma_two_parents(a, b, path);
    let ab = seq![a, b];
    let ba = seq![b, a];
    if parents_fault(ab, path, 0) is None {
        let x = active_nodes(ab, path, 0);
        let y = active_nodes(ba, path, 0);
        match l {
            LinkView::Leaf(_) => {},
            LinkView::Durable(n, lazy) => {
                if !x.contains(n) {
                    match lazy {
                        LazyView::Loaded(cs) => {
                            lemma_finalize_dir_order(cs, a, b, path);
                        },
                        _ => {},
                    }
                }
            },
            LinkView::Ephemeral(cs) => {
                lemma_finalize_dir_order(cs, a, b, path);
            },
        }
    }
}

proof fn lemma_finalize_dir_order(cs: Seq<ChildView>, a: LinkView, b: LinkView, path: Seq<Seq<u8>>)
    ensures
        same_outcome(
            finalize_dir(cs, seq![a, b], path, active_nodes(seq![a, b], path, 0)),
            finalize_dir(cs, seq![b, a], path, active_nodes(seq![b, a], path, 0)),
        ),
    decreases cs, cs.len() + 1,
{
    lemma_two_parents(a, b, path);
    lemma_finalize_kids_order(cs, a, b, path, cs.len() as int);
    let ab = seq![a, b];
    let ba = seq![b, a];
    let x = active_nodes(ab, path, 0);
    let y = active_nodes(ba, path, 0);
    match finalize_children(cs, ab, path, cs.len() as int) {
        Ok((fcs, made)) => {
            let made2 = finalize_children(cs, ba, path, cs.len() as int)->Ok_0.1;
            let data = dir_bytes(fcs);
            lemma_mix_symmetric(nth_or_null(x, 0), nth_or_null(x, 1), data);
            if mix_input(nth_or_null(x, 0), nth_or_null(x, 1), data).len() < SHA1_LIMIT {
                let r1 = finalize_dir(cs, ab, path, x)->Ok_0.1;
                let r2 = finalize_dir(cs, ba, path, y)->Ok_0.1;
                assert forall|i: int| 0 <= i < r1.len() implies {
                    &&& (#[trigger] r1[i]).path == r2[i].path
                    &&& r1[i].node == r2[i].node
                    &&& r1[i].data == r2[i].data
                    &&& (r1[i].first == r2[i].first && r1[i].second == r2[i].second) || (r1[i].first == r2[i].second
                        && r1[i].second == r2[i].first)
                } by {
                    if i < made.len() {
                        assert(r1[i] == made[i]);
                        assert(r2[i] == made2[i]);
                    }
                }
            }
        },
        Err(_) => {},
    }
}

proof fn lemma_finalize_kids_order(
    cs: Seq<ChildView>,
    a: LinkView,
    b: LinkView,
    path: Seq<Seq<u8>>,
    k: int,
)
    requires
        0 <= k <= cs.len(),
    ensures
        same_kids_outcome(
            finalize_children(cs, seq![a, b], path, k),
            finalize_children(cs, seq![b, a], path, k),
        ),
    decreases cs, k,
{
    if k > 0 {
        let ab = seq![a, b];
        let ba = seq![b, a];
        lemma_finalize_kids_order(cs, a, b, path, k - 1);
        lemma_finalize_parent_order(cs[k - 1].link, a, b, path.push(cs[k - 1].name));
        match (finalize_children(cs, ab, path, k - 1), finalize_children(cs, ba, path, k - 1)) {
            (Ok((c1, m1)), Ok((c2, m2))) => {
                let sub1 = finalize_link(cs[k - 1].link, ab, path.push(cs[k - 1].name));
                let sub2 = finalize_link(cs[k - 1].link, ba, path.push(cs[k - 1].name));
                match (sub1, sub2) {
                    (Ok((l1, n1)), Ok((l2, n2))) => {
                        let r1 = m1 + n1;
                        let r2 = m2 + n2;
                        assert forall|i: int| 0 <= i < r1.len() implies {
                            &&& (#[trigger] r1[i]).path == r2[i].path
                            &&& r1[i].node == r2[i].node
                            &&& r1[i].data == r2[i].data
                            &&& (r1[i].first == r2[i].first && r1[i].second == r2[i].second) || (r1[i].first
                                == r2[i].second && r1[i].second == r2[i].first)
                        } by {
                            if i < m1.len() {
                                assert(r1[i] == m1[i] && r2[i] == m2[i]);
                            } else {
                                assert(r1[i] == n1[i - m1.len()] && r2[i] == n2[i - m1.len()]);
                            }
                        }
                    },
                    _ => {},
                }
            },
            _ => {},
        }
    }
}

/// Two finalizes of one tree against the same two parents, in the one
/// order and in the other, make the same directories with the same hashes
/// and leave the same tree, where tree and parents are in memory and both
/// finalizes succeed: `r1` and `r2` are what they returned, `after1` and
/// `after2` the trees that they left, `ps1` and `ps2` the parents as they
/// left them.
pub proof fn lemma_finalize_twice(
    before: LinkView,
    a: LinkView,
    b: LinkView,
    ps1: Seq<LinkView>,
    ps2: Seq<LinkView>,
    made1: Seq<FinalizedView>,
    made2: Seq<FinalizedView>,
    after1: LinkView,
    after2: LinkView,
    logs: (Seq<Blob>, Seq<Blob>, Seq<Blob>, Seq<Blob>),
    reads: (Seq<Read>, Seq<Read>),
)
    requires
        in_memory(before),
        in_memory(a),
        in_memory(b),
        all_load_to(seq![a, b], ps1),
        all_load_to(seq![b, a], ps2),
        finalize_post(before, ps1, Ok(made1), after1, logs.0, logs.1, reads.0),
        finalize_post(before, ps2, Ok(made2), after2, logs.2, logs.3, reads.1),
    ensures
        after1 == after2,
        same_made(made1, made2),
{
    let ab = seq![a, b];
    let ba = seq![b, a];
    assert(ps1 =~= ab) by {
        assert(loads_to(ab[0], ps1[0]));
        assert(loads_to(ab[1], ps1[1]));
        lemma_in_memory_stays(a, ps1[0]);
        lemma_in_memory_stays(b, ps1[1]);
    }
    assert(ps2 =~= ba) by {
        assert(loads_to(ba[0], ps2[0]));
        assert(loads_to(ba[1], ps2[1]));
        lemma_in_memory_stays(b, ps2[0]);
        lemma_in_memory_stays(a, ps2[1]);
    }
    let h1 = choose|h: LinkView|
        {
            &&& #[trigger] loads_to(before, h)
            &&& loads_by(before, h, Seq::empty(), reads.0)
            &&& h.wf()
            &&& ready(h, ps1, Seq::empty())
            &&& finalize_link(h, ps1, Seq::empty()) matches Ok((l, made)) && after1 == l && made1 == made
        };
    let h2 = choose|h: LinkView|
        {
            &&& #[trigger] loads_to(before, h)
            &&& loads_by(before, h, Seq::empty(), reads.1)
            &&& h.wf()
            &&& ready(h, ps2, Seq::empty())
            &&& finalize_link(h, ps2, Seq::empty()) matches Ok((l, made)) && after2 == l && made2 == made
        };
    lemma_in_memory_stays(before, h1);
    lemma_in_memory_stays(before, h2);
    lemma_finalize_parent_order(before, a, b, Seq::empty());
}

} // verus!
