use crate::entry::{elements_view, parse, parse_entry, Element, ElementView, Flag};
use crate::error::{Error, ErrorView, Violation};
use crate::node::{contains_node, Node};
use crate::path::{PathComponent, RepoPath};
use crate::store::{extends, InnerStore, Read, StoreFault, TreeStore};
use vstd::prelude::*;

verus! {

/// The hashes that one stored directory of the peer holds under the name:
/// one, or none.
pub open spec fn named_in(es: Seq<ElementView>, name: Seq<u8>, i: int) -> Seq<Seq<u8>>
    decreases es.len() - i,
{
    if i < 0 || i >= es.len() {
        Seq::empty()
    } else if es[i].name == name {
        seq![es[i].node] + named_in(es, name, i + 1)
    } else {
        named_in(es, name, i + 1)
    }
}

/// The hashes that the peer holds under the name, over its first `n` stored
/// directories in order.
pub open spec fn peer_nodes(others: Seq<Seq<ElementView>>, name: Seq<u8>, n: int) -> Seq<Seq<u8>>
    decreases n,
{
    if n <= 0 || n > others.len() {
        Seq::empty()
    } else {
        peer_nodes(others, name, n - 1) + named_in(others[n - 1], name, 0)
    }
}

/// The first `n` hashes with every hash left out that repeats the hash
/// before it.
pub open spec fn dedup(s: Seq<Seq<u8>>, n: int) -> Seq<Seq<u8>>
    decreases n,
{
    if n <= 0 || n > s.len() {
        Seq::empty()
    } else if n >= 2 && s[n - 1] == s[n - 2] {
        dedup(s, n - 1)
    } else {
        dedup(s, n - 1).push(s[n - 1])
    }
}

/// A directory of the subtree that the peer may lack: its name, its hash,
/// and the hashes that the peer holds under the name.
pub ghost struct PendingView {
    pub name: Seq<u8>,
    pub node: Seq<u8>,
    pub others: Seq<Seq<u8>>,
}

/// The directories among the first `n` children that the peer may lack: each
/// child directory whose hash is none of those that the peer holds under its
/// name.
pub open spec fn pending(es: Seq<ElementView>, others: Seq<Seq<ElementView>>, n: int) -> Seq<PendingView>
    decreases n,
{
    if n <= 0 || n > es.len() {
        Seq::empty()
    } else {
        let e = es[n - 1];
        let peers = peer_nodes(others, e.name, others.len() as int);
        if e.flag == Flag::Directory && !peers.contains(e.node) {
            pending(es, others, n - 1).push(
                PendingView { name: e.name, node: e.node, others: dedup(peers, peers.len() as int) },
            )
        } else {
            pending(es, others, n - 1)
        }
    }
}

/// A directory that the peer may lack, as `pending_children` returns it.
pub struct Pending {
    pub name: PathComponent,
    pub node: Node,
    pub others: Vec<Node>,
}

impl View for Pending {
    type V = PendingView;

    open spec fn view(&self) -> PendingView {
        PendingView {
            name: self.name@,
            node: self.node@,
            others: Seq::new(self.others@.len(), |i: int| self.others@[i]@),
        }
    }
}

/// The views of a list of stored directories.
pub open spec fn entries_view(others: Seq<Vec<Element>>) -> Seq<Seq<ElementView>> {
    Seq::new(others.len(), |i: int| elements_view(others[i]@))
}

/// The views of a list of nodes.
pub open spec fn nodes_seq(v: Seq<Node>) -> Seq<Seq<u8>> {
    Seq::new(v.len(), |i: int| v[i]@)
}

/// The views of a list of pending directories.
pub open spec fn pending_view(v: Seq<Pending>) -> Seq<PendingView> {
    Seq::new(v.len(), |i: int| v[i]@)
}

/// Leaves out every node that repeats the node before it.
pub fn dedup_nodes(v: &Vec<Node>) -> (r: Vec<Node>)
    ensures
        nodes_seq(r@) == dedup(nodes_seq(v@), v@.len() as int),
{
    let mut out: Vec<Node> = Vec::new();
    let mut i: usize = 0;
    assert(nodes_seq(out@) =~= dedup(nodes_seq(v@), 0));
    while i < v.len()
        invariant
            i <= v@.len(),
            nodes_seq(out@) == dedup(nodes_seq(v@), i as int),
        decreases v@.len() - i,
    {
        let ghost before = nodes_seq(out@);
        if i == 0 || !v[i].same(&v[i - 1]) {
            out.push(v[i]);
            assert(nodes_seq(out@) =~= before.push(v@[i as int]@));
        }
        i += 1;
    }
    out
}

/// The hashes that the peer holds under the name.
pub fn peers_of(others: &Vec<Vec<Element>>, name: &PathComponent) -> (r: Vec<Node>)
    ensures
        nodes_seq(r@) == peer_nodes(entries_view(others@), name@, others@.len() as int),
{
    let mut out: Vec<Node> = Vec::new();
    let ghost ov = entries_view(others@);
    let mut k: usize = 0;
    assert(nodes_seq(out@) =~= peer_nodes(ov, name@, 0));
    while k < others.len()
        invariant
            k <= others@.len(),
            ov == entries_view(others@),
            nodes_seq(out@) == peer_nodes(ov, name@, k as int),
        decreases others@.len() - k,
    {
        let es = &others[k];
        let ghost ev = elements_view(es@);
        let ghost base = nodes_seq(out@);
        assert(ov[k as int] == ev);
        let mut found: Vec<Node> = Vec::new();
        let mut i: usize = es.len();
        assert(nodes_seq(found@) =~= named_in(ev, name@, i as int));
        while i > 0
            invariant
                i <= es@.len(),
                ev == elements_view(es@),
                nodes_seq(found@) == named_in(ev, name@, i as int),
            decreases i,
        {
            i -= 1;
            if es[i].component.same(name) {
                let ghost before = nodes_seq(found@);
                found.insert(0, es[i].node);
                assert(nodes_seq(found@) =~= seq![es@[i as int].node@] + before);
            }
        }
        let mut j: usize = 0;
        assert(base + nodes_seq(found@).subrange(0, 0) =~= base);
        while j < found.len()
            invariant
                j <= found@.len(),
                nodes_seq(out@) == base + nodes_seq(found@).subrange(0, j as int),
            decreases found@.len() - j,
        {
            let ghost cur = nodes_seq(out@);
            out.push(found[j]);
            assert(nodes_seq(out@) =~= cur.push(found@[j as int]@));
            assert(base + nodes_seq(found@).subrange(0, j + 1) =~= (base + nodes_seq(found@).subrange(
                0,
                j as int,
            )).push(found@[j as int]@));
            j += 1;
        }
        assert(nodes_seq(found@).subrange(0, found@.len() as int) =~= nodes_seq(found@));
        k += 1;
    }
    out
}

/// The child directories of a stored directory that the peer may lack, given
/// the stored directories that the peer holds at the same path.
pub fn pending_children(elements: &Vec<Element>, others: &Vec<Vec<Element>>) -> (r: Vec<Pending>)
    ensures
        pending_view(r@) == pending(
            elements_view(elements@),
            entries_view(others@),
            elements@.len() as int,
        ),
{
    let mut out: Vec<Pending> = Vec::new();
    let ghost ev = elements_view(elements@);
    let ghost ov = entries_view(others@);
    let mut i: usize = 0;
    assert(pending_view(out@) =~= pending(ev, ov, 0));
    while i < elements.len()
        invariant
            i <= elements@.len(),
            ev == elements_view(elements@),
            ov == entries_view(others@),
            pending_view(out@) == pending(ev, ov, i as int),
        decreases elements@.len() - i,
    {
        let e = &elements[i];
        assert(ev[i as int] == e@);
        let ghost before = pending_view(out@);
        if e.flag == Flag::Directory {
            let peers = peers_of(others, &e.component);
            let ghost pv = nodes_seq(peers@);
            let known = contains_node(&peers, &e.node);
            proof {
                if known {
                    let k = choose|k: int| 0 <= k < peers@.len() && #[trigger] peers@[k]@ == e.node@;
                    assert(pv[k] == e.node@);
                }
                if pv.contains(e.node@) {
                    let k = choose|k: int| 0 <= k < pv.len() && pv[k] == e.node@;
                    assert(peers@[k]@ == e.node@);
                }
            }
            if !known {
                let item = Pending { name: e.component.clone(), node: e.node, others: dedup_nodes(&peers) };
                assert(item@.others =~= dedup(pv, pv.len() as int));
                let ghost iv = item@;
                out.push(item);
                assert(pending_view(out@) =~= before.push(iv));
            }
        }
        i += 1;
    }
    out
}

/// One stored directory to send to the peer: its path, its hash and its
/// stored form.
pub type SubtreeEntry = (RepoPath, Node, Vec<u8>);

/// Asks the store for a stored directory.
fn fetch<S: TreeStore>(store: &mut InnerStore<S>, path: &RepoPath, node: &Node) -> (r: Result<Vec<u8>, Error>)
    ensures
        final(store).written@ == old(store).written@,
        final(store).reads@.len() == old(store).reads@.len() + 1,
        final(store).reads@.drop_last() == old(store).reads@,
        read_at(final(store).reads@, old(store).reads@.len() as int, path@, node@).1,
        match read_at(final(store).reads@, old(store).reads@.len() as int, path@, node@).0 {
            Ok(bytes) => r is Ok && r.unwrap()@ == bytes,
            Err(e) => r is Err && r.unwrap_err()@ == e,
        },
        r matches Err(e) ==> e@ == (ErrorView::BlobNotFound { path: path@, node: node@ }) || e@
            == ErrorView::StorageIo,
{
    let answer = store.get(path, node);
    proof {
        assert(store.reads@.drop_last() =~= old(store).reads@);
    }
    fetched(answer, path, node)
}

/// The error that a refusal of the store to give the stored directory at
/// the path with the hash stands for.
pub open spec fn store_error(path: Seq<Seq<u8>>, node: Seq<u8>, fault: StoreFault) -> ErrorView {
    match fault {
        StoreFault::NotFound => ErrorView::BlobNotFound { path, node },
        StoreFault::Io => ErrorView::StorageIo,
    }
}

/// What the answer of the store to a request for the stored directory at
/// the path with the hash comes to: the bytes as the store gave them, or
/// the error that its refusal stands for.
pub fn fetched(answer: Result<Vec<u8>, StoreFault>, path: &RepoPath, node: &Node) -> (r: Result<
    Vec<u8>,
    Error,
>)
    ensures
        match answer {
            Ok(bytes) => r == Ok::<Vec<u8>, Error>(bytes),
            Err(fault) => r is Err && r.unwrap_err()@ == store_error(path@, node@, fault),
        },
{
    match answer {
        Ok(bytes) => Ok(bytes),
        Err(StoreFault::NotFound) => Err(Error::BlobNotFound { path: path.clone(), node: *node }),
        Err(StoreFault::Io) => Err(Error::StorageIo),
    }
}

/// What request `at` of the record comes to when the stored directory at
/// the path with the hash is asked for there: the bytes that the store
/// gave, or the error of its refusal; and whether the request is there and
/// is for that directory.
pub open spec fn read_at(rs: Seq<Read>, at: int, path: Seq<Seq<u8>>, node: Seq<u8>) -> (
    Result<Seq<u8>, ErrorView>,
    bool,
) {
    if 0 <= at < rs.len() && rs[at].path == path && rs[at].node == node {
        (
            match rs[at].answer {
                Ok(bytes) => Ok(bytes),
                Err(fault) => Err(store_error(path, node, fault)),
            },
            true,
        )
    } else {
        (Err(ErrorView::StorageIo), false)
    }
}

/// One stored directory that is sent to the peer.
pub ghost struct Sent {
    pub path: Seq<Seq<u8>>,
    pub node: Seq<u8>,
    pub data: Seq<u8>,
}

/// The views of a list of entries.
pub open spec fn sent_view(out: Seq<SubtreeEntry>) -> Seq<Sent> {
    Seq::new(out.len(), |i: int| Sent { path: out[i].0@, node: out[i].1@, data: out[i].2@ })
}

/// What reading the peer's directories comes to: the directories read, or
/// the first error; the request that comes next in the record; and whether
/// every request made is in the record, for the directory asked for.
pub ghost struct PeerRead {
    pub result: Result<Seq<Seq<ElementView>>, ErrorView>,
    pub next: int,
    pub asked: bool,
}

/// What listing a subtree comes to: the directories to send, or the first
/// error; the request that comes next in the record; and whether every
/// request made is in the record, for the directory asked for.
pub ghost struct Listing {
    pub result: Result<Seq<Sent>, ErrorView>,
    pub next: int,
    pub asked: bool,
}

/// Reads the first `k` of the peer's directories at the path, the requests
/// taken from the record from `at` on. Stops at the first directory that
/// the store does not give or that cannot be read.
pub open spec fn peers_read(rs: Seq<Read>, at: int, path: Seq<Seq<u8>>, others: Seq<Seq<u8>>, k: int) -> PeerRead
    decreases k,
{
    if k <= 0 || k > others.len() {
        PeerRead { result: Ok(Seq::empty()), next: at, asked: true }
    } else {
        let before = peers_read(rs, at, path, others, k - 1);
        match before.result {
            Err(_) => before,
            Ok(read) => {
                let (answer, asked) = read_at(rs, before.next, path, others[k - 1]);
                PeerRead {
                    result: match answer {
                        Err(e) => Err(e),
                        Ok(bytes) => match parse_entry(bytes) {
                            Err(f) => Err(ErrorView::InvariantViolated(Violation::MalformedEntry(f))),
                            Ok(es) => Ok(read.push(es)),
                        },
                    },
                    next: before.next + 1,
                    asked: before.asked && asked,
                }
            },
        }
    }
}

/// Lists the stored directory at the path with the hash and, `levels`
/// levels deep, the stored directories below it that a peer with the
/// directories `others` at the same path may lack, the requests taken from
/// the record from `at` on.
///
/// - The directory is asked for first. With no level left it is all that
///   is listed.
/// - Else the peer's directories are asked for, in order, and each child
///   directory that `pending` names is listed in the same way, one level
///   less deep, in the order of the names.
/// - The directory itself comes last, with the bytes that the store gave.
/// - The first refusal of the store, the first stored directory that cannot
///   be read, or a path that cannot be longer ends the listing.
pub open spec fn listed(
    rs: Seq<Read>,
    at: int,
    path: Seq<Seq<u8>>,
    node: Seq<u8>,
    others: Seq<Seq<u8>>,
    levels: int,
) -> Listing
    decreases (if levels > 0 { levels } else { 0 }), 1int, 0int,
{
    let (answer, asked) = read_at(rs, at, path, node);
    match answer {
        Err(e) => Listing { result: Err(e), next: at + 1, asked },
        Ok(bytes) => {
            let own = Sent { path, node, data: bytes };
            if levels <= 0 {
                Listing { result: Ok(seq![own]), next: at + 1, asked }
            } else {
                match parse_entry(bytes) {
                    Err(f) => Listing {
                        result: Err(ErrorView::InvariantViolated(Violation::MalformedEntry(f))),
                        next: at + 1,
                        asked,
                    },
                    Ok(es) => {
                        let p = peers_read(rs, at + 1, path, others, others.len() as int);
                        match p.result {
                            Err(e) => Listing { result: Err(e), next: p.next, asked: asked && p.asked },
                            Ok(os) => {
                                let w = pending(es, os, es.len() as int);
                                let l = listed_items(rs, p.next, path, w, levels, w.len() as int);
                                Listing {
                                    result: match l.result {
                                        Err(e) => Err(e),
                                        Ok(sent) => Ok(sent.push(own)),
                                    },
                                    next: l.next,
                                    asked: asked && p.asked && l.asked,
                                }
                            },
                        }
                    },
                }
            }
        },
    }
}

/// `listed` for the first `k` of the child directories `w` of the directory
/// at the path, each one level less deep.
pub open spec fn listed_items(
    rs: Seq<Read>,
    at: int,
    path: Seq<Seq<u8>>,
    w: Seq<PendingView>,
    levels: int,
    k: int,
) -> Listing
    decreases (if levels > 0 { levels } else { 0 }), 0int, k,
{
    if k <= 0 || k > w.len() || levels <= 0 {
        Listing { result: Ok(Seq::empty()), next: at, asked: true }
    } else {
        let before = listed_items(rs, at, path, w, levels, k - 1);
        match before.result {
            Err(_) => before,
            Ok(sent) => if path.len() >= usize::MAX {
                Listing {
                    result: Err(ErrorView::InvariantViolated(Violation::PathTooLong)),
                    next: before.next,
                    asked: before.asked,
                }
            } else {
                let sub = listed(
                    rs,
                    before.next,
                    path.push(w[k - 1].name),
                    w[k - 1].node,
                    w[k - 1].others,
                    levels - 1,
                );
                Listing {
                    result: match sub.result {
                        Err(e) => Err(e),
                        Ok(more) => Ok(sent + more),
                    },
                    next: sub.next,
                    asked: before.asked && sub.asked,
                }
            },
        }
    }
}

/// Reading the peer's directories looks only at requests that are in the
/// record: more requests behind them change nothing.
pub proof fn lemma_peers_read_stable(
    a: Seq<Read>,
    b: Seq<Read>,
    at: int,
    path: Seq<Seq<u8>>,
    others: Seq<Seq<u8>>,
    k: int,
)
    requires
        extends(a, b),
        peers_read(a, at, path, others, k).asked,
    ensures
        peers_read(b, at, path, others, k) == peers_read(a, at, path, others, k),
    decreases k,
{
    if 0 < k <= others.len() {
        lemma_peers_read_stable(a, b, at, path, others, k - 1);
        let before = peers_read(a, at, path, others, k - 1);
        if before.result is Ok {
            assert(b.subrange(0, a.len() as int)[before.next] == a[before.next]);
        }
    }
}

/// An error among the first `k` of the peer's directories is the error of
/// all of them.
pub proof fn lemma_peers_read_error(
    rs: Seq<Read>,
    at: int,
    path: Seq<Seq<u8>>,
    others: Seq<Seq<u8>>,
    k: int,
    n: int,
)
    requires
        0 <= k <= n <= others.len(),
        peers_read(rs, at, path, others, k).result is Err,
    ensures
        peers_read(rs, at, path, others, n) == peers_read(rs, at, path, others, k),
    decreases n - k,
{
    if k < n {
        lemma_peers_read_error(rs, at, path, others, k, n - 1);
    }
}

/// A listing looks only at requests that are in the record: more requests
/// behind them change nothing.
pub proof fn lemma_listed_stable(
    a: Seq<Read>,
    b: Seq<Read>,
    at: int,
    path: Seq<Seq<u8>>,
    node: Seq<u8>,
    others: Seq<Seq<u8>>,
    levels: int,
)
    requires
        extends(a, b),
        listed(a, at, path, node, others, levels).asked,
    ensures
        listed(b, at, path, node, others, levels) == listed(a, at, path, node, others, levels),
    decreases (if levels > 0 { levels } else { 0 }), 1int, 0int,
{
    let (answer, asked) = read_at(a, at, path, node);
    assert(asked);
    assert(b.subrange(0, a.len() as int)[at] == a[at]);
    match answer {
        Err(e) => {},
        Ok(bytes) => {
            if levels > 0 {
                match parse_entry(bytes) {
                    Err(f) => {},
                    Ok(es) => {
                        lemma_peers_read_stable(a, b, at + 1, path, others, others.len() as int);
                        let p = peers_read(a, at + 1, path, others, others.len() as int);
                        match p.result {
                            Err(e) => {},
                            Ok(os) => {
                                let w = pending(es, os, es.len() as int);
                                lemma_listed_items_stable(a, b, p.next, path, w, levels, w.len() as int);
                            },
                        }
                    },
                }
            }
        },
    }
}

/// `lemma_listed_stable` for the child directories.
pub proof fn lemma_listed_items_stable(
    a: Seq<Read>,
    b: Seq<Read>,
    at: int,
    path: Seq<Seq<u8>>,
    w: Seq<PendingView>,
    levels: int,
    k: int,
)
    requires
        extends(a, b),
        listed_items(a, at, path, w, levels, k).asked,
    ensures
        listed_items(b, at, path, w, levels, k) == listed_items(a, at, path, w, levels, k),
    decreases (if levels > 0 { levels } else { 0 }), 0int, k,
{
    if 0 < k <= w.len() && levels > 0 {
        lemma_listed_items_stable(a, b, at, path, w, levels, k - 1);
        let before = listed_items(a, at, path, w, levels, k - 1);
        if before.result is Ok && path.len() < usize::MAX {
            lemma_listed_stable(
                a,
                b,
                before.next,
                path.push(w[k - 1].name),
                w[k - 1].node,
                w[k - 1].others,
                levels - 1,
            );
        }
    }
}

/// An error among the first `k` child directories is the error of all of
/// them.
pub proof fn lemma_listed_items_error(
    rs: Seq<Read>,
    at: int,
    path: Seq<Seq<u8>>,
    w: Seq<PendingView>,
    levels: int,
    k: int,
    n: int,
)
    requires
        0 <= k <= n <= w.len(),
        listed_items(rs, at, path, w, levels, k).result is Err,
    ensures
        listed_items(rs, at, path, w, levels, n) == listed_items(rs, at, path, w, levels, k),
    decreases n - k,
{
    if k < n {
        lemma_listed_items_error(rs, at, path, w, levels, k, n - 1);
    }
}

/// Reads the directories that the peer holds at the path; see `peers_read`.
fn read_peers<S: TreeStore>(store: &mut InnerStore<S>, path: &RepoPath, other_nodes: &Vec<Node>) -> (r:
    Result<Vec<Vec<Element>>, Error>)
    ensures
        final(store).written@ == old(store).written@,
        extends(old(store).reads@, final(store).reads@),
        ({
            let p = peers_read(
                final(store).reads@,
                old(store).reads@.len() as int,
                path@,
                nodes_seq(other_nodes@),
                other_nodes@.len() as int,
            );
            &&& p.asked
            &&& p.next == final(store).reads@.len()
            &&& match p.result {
                Ok(os) => r is Ok && entries_view(r.unwrap()@) == os,
                Err(e) => r is Err && r.unwrap_err()@ == e,
            }
        }),
{
    let ghost r0 = store.reads@;
    let ghost at = r0.len() as int;
    let ghost ons = nodes_seq(other_nodes@);
    let mut others: Vec<Vec<Element>> = Vec::with_capacity(other_nodes.len());
    let mut k: usize = 0;
    proof {
        assert(entries_view(others@) =~= Seq::<Seq<ElementView>>::empty());
        assert(r0.subrange(0, r0.len() as int) =~= r0);
    }
    while k < other_nodes.len()
        invariant
            store.written@ == old(store).written@,
            k <= other_nodes@.len(),
            ons == nodes_seq(other_nodes@),
            r0 == old(store).reads@,
            at == r0.len(),
            extends(r0, store.reads@),
            store.reads@.len() == at + k,
            peers_read(store.reads@, at, path@, ons, k as int) == (PeerRead {
                result: Ok(entries_view(others@)),
                next: at + k,
                asked: true,
            }),
        decreases other_nodes@.len() - k,
    {
        let ghost rk = store.reads@;
        let ghost ov = entries_view(others@);
        let fetched_bytes = fetch(store, path, &other_nodes[k]);
        proof {
            let rn = store.reads@;
            assert(rn.subrange(0, rk.len() as int) =~= rn.drop_last());
            assert(extends(rk, rn));
            assert(rn.subrange(0, at) =~= rk.subrange(0, at));
            lemma_peers_read_stable(rk, rn, at, path@, ons, k as int);
            assert(ons[k as int] == other_nodes@[k as int]@);
        }
        let other_bytes = match fetched_bytes {
            Ok(b) => b,
            Err(e) => {
                proof {
                    lemma_peers_read_error(store.reads@, at, path@, ons, k + 1, ons.len() as int);
                }
                return Err(e);
            },
        };
        match parse(other_bytes.as_slice()) {
            Ok(oes) => {
                others.push(oes);
                proof {
                    assert(entries_view(others@) =~= ov.push(elements_view(oes@)));
                }
            },
            Err(f) => {
                proof {
                    lemma_peers_read_error(store.reads@, at, path@, ons, k + 1, ons.len() as int);
                }
                return Err(Error::InvariantViolated(Violation::MalformedEntry(f)));
            },
        }
        k += 1;
    }
    Ok(others)
}

/// Lists the child directories that the peer may lack, each one level less
/// deep; see `listed_items`.
fn list_items<S: TreeStore>(
    store: &mut InnerStore<S>,
    path: &mut RepoPath,
    waiting: &Vec<Pending>,
    levels: i32,
    out: &mut Vec<SubtreeEntry>,
) -> (r: Result<(), Error>)
    requires
        levels > 0,
    ensures
        final(store).written@ == old(store).written@,
        final(path)@ == old(path)@,
        extends(old(store).reads@, final(store).reads@),
        ({
            let l = listed_items(
                final(store).reads@,
                old(store).reads@.len() as int,
                old(path)@,
                pending_view(waiting@),
                levels as int,
                waiting@.len() as int,
            );
            &&& l.asked
            &&& l.next == final(store).reads@.len()
            &&& match l.result {
                Ok(sent) => r is Ok && sent_view(final(out)@) == sent_view(old(out)@) + sent,
                Err(e) => r is Err && r.unwrap_err()@ == e,
            }
        }),
    decreases levels, 0int,
{
    let ghost out0 = sent_view(out@);
    let ghost r0 = store.reads@;
    let ghost base = r0.len() as int;
    let ghost wv = pending_view(waiting@);
    let mut i: usize = 0;
    proof {
        assert(out0 + Seq::<Sent>::empty() =~= out0);
        assert(r0.subrange(0, r0.len() as int) =~= r0);
    }
    while i < waiting.len()
        invariant
            store.written@ == old(store).written@,
            i <= waiting@.len(),
            levels > 0,
            path@ == old(path)@,
            wv == pending_view(waiting@),
            out0 == sent_view(old(out)@),
            r0 == old(store).reads@,
            base == r0.len(),
            extends(r0, store.reads@),
            listed_items(store.reads@, base, path@, wv, levels as int, i as int).asked,
            listed_items(store.reads@, base, path@, wv, levels as int, i as int).next == store.reads@.len(),
            listed_items(store.reads@, base, path@, wv, levels as int, i as int).result is Ok,
            sent_view(out@) == out0 + listed_items(
                store.reads@,
                base,
                path@,
                wv,
                levels as int,
                i as int,
            ).result->Ok_0,
        decreases waiting@.len() - i,
    {
        let item = &waiting[i];
        let ghost ri = store.reads@;
        let ghost done = listed_items(ri, base, path@, wv, levels as int, i as int);
        assert(wv[i as int] == item@);
        assert(item@.others =~= nodes_seq(item.others@));
        if path.len() == usize::MAX {
            proof {
                lemma_listed_items_error(ri, base, path@, wv, levels as int, i + 1, wv.len() as int);
            }
            return Err(Error::InvariantViolated(Violation::PathTooLong));
        }
        let ghost cur = sent_view(out@);
        path.push(item.name.clone());
        let r = subtree_below(store, path, &item.node, &item.others, levels - 1, out);
        path.pop();
        assert(path@ =~= old(path)@);
        proof {
            let rn = store.reads@;
            assert(rn.subrange(0, r0.len() as int) =~= ri.subrange(0, r0.len() as int));
            lemma_listed_items_stable(ri, rn, base, path@, wv, levels as int, i as int);
            let sub = listed(
                rn,
                ri.len() as int,
                path@.push(wv[i as int].name),
                wv[i as int].node,
                wv[i as int].others,
                levels - 1,
            );
            let now = listed_items(rn, base, path@, wv, levels as int, i + 1);
            assert(now.asked && now.next == rn.len());
            if sub.result is Ok {
                assert(out0 + (done.result->Ok_0 + sub.result->Ok_0) =~= cur + sub.result->Ok_0);
            }
        }
        match r {
            Err(e) => {
                proof {
                    lemma_listed_items_error(
                        store.reads@,
                        base,
                        path@,
                        wv,
                        levels as int,
                        i + 1,
                        wv.len() as int,
                    );
                }
                return Err(e);
            },
            Ok(()) => {},
        }
        i += 1;
    }
    Ok(())
}

/// Lists the stored directory at the path and, `levels` levels deep, the
/// stored directories below it that the peer may lack, children first; see
/// `listed`.
fn subtree_below<S: TreeStore>(
    store: &mut InnerStore<S>,
    path: &mut RepoPath,
    node: &Node,
    other_nodes: &Vec<Node>,
    levels: i32,
    out: &mut Vec<SubtreeEntry>,
) -> (r: Result<(), Error>)
    ensures
        final(store).written@ == old(store).written@,
        final(path)@ == old(path)@,
        extends(old(store).reads@, final(store).reads@),
        ({
            let l = listed(
                final(store).reads@,
                old(store).reads@.len() as int,
                old(path)@,
                node@,
                nodes_seq(other_nodes@),
                levels as int,
            );
            &&& l.asked
            &&& l.next == final(store).reads@.len()
            &&& match l.result {
                Ok(sent) => r is Ok && sent_view(final(out)@) == sent_view(old(out)@) + sent,
                Err(e) => r is Err && r.unwrap_err()@ == e,
            }
        }),
    decreases (if levels > 0 { levels as int } else { 0 }), 1int,
{
    let ghost out0 = sent_view(out@);
    let ghost r0 = store.reads@;
    let ghost at = r0.len() as int;
    let ghost ons = nodes_seq(other_nodes@);
    let bytes = match fetch(store, path, node) {
        Ok(b) => b,
        Err(e) => {
            proof {
                assert(store.reads@.subrange(0, at) =~= store.reads@.drop_last());
            }
            return Err(e);
        },
    };
    let ghost r1 = store.reads@;
    let ghost own = Sent { path: path@, node: node@, data: bytes@ };
    proof {
        assert(r1.subrange(0, at) =~= r1.drop_last());
    }
    if levels > 0 {
        let elements = match parse(bytes.as_slice()) {
            Ok(es) => es,
            Err(f) => {
                return Err(Error::InvariantViolated(Violation::MalformedEntry(f)));
            },
        };
        let ghost es = elements_view(elements@);
        let peers = read_peers(store, path, other_nodes);
        let ghost r2 = store.reads@;
        proof {
            assert(r2[at] == r1[at]) by {
                assert(r2.subrange(0, r1.len() as int)[at] == r1[at]);
            }
            assert(r2.subrange(0, at) =~= r2.subrange(0, r1.len() as int).subrange(0, at));
        }
        let others = match peers {
            Ok(os) => os,
            Err(e) => {
                return Err(e);
            },
        };
        let ghost ov = entries_view(others@);
        let waiting = pending_children(&elements, &others);
        let ghost wv = pending_view(waiting@);
        let r = list_items(store, path, &waiting, levels, out);
        proof {
            let r3 = store.reads@;
            assert(r3[at] == r2[at]) by {
                assert(r3.subrange(0, r2.len() as int)[at] == r2[at]);
            }
            assert(r3.subrange(0, at) =~= r3.subrange(0, r2.len() as int).subrange(0, at));
            lemma_peers_read_stable(r2, r3, at + 1, path@, ons, ons.len() as int);
        }
        match r {
            Err(e) => {
                return Err(e);
            },
            Ok(()) => {},
        }
    }
    let ghost cur = sent_view(out@);
    let entry: SubtreeEntry = (path.clone(), *node, bytes);
    out.push(entry);
    proof {
        assert(sent_view(out@) =~= cur.push(own));
        let l = listed(store.reads@, at, path@, node@, ons, levels as int);
        assert(l.result is Ok);
        assert(out0 + l.result->Ok_0 =~= cur.push(own));
    }
    Ok(())
}

/// Lists the stored directories that a peer needs to have the subtree at
/// `path` with hash `node`, `depth` levels deep, given that the peer has
/// the subtrees `other_nodes` at the same path. Children stand before their
/// parents; the directory at `path` comes last.
///
/// - Where the peer has `node` itself, nothing is listed, and the store is
///   not asked.
/// - Else the directory at `path` is listed whatever `depth` is. With a
///   `depth` above one, the child directories whose hashes the peer holds
///   under none of their names are listed in the same way, one level less
///   deep: see `pending_children`.
///
/// What is listed is fixed by what the store answers: see `listed`, which
/// reads the answers off the record of the store. Every request that is
/// made is recorded, and no other.
pub fn compat_subtree_diff<S: TreeStore>(
    store: &mut InnerStore<S>,
    path: &RepoPath,
    node: Node,
    other_nodes: Vec<Node>,
    depth: i32,
) -> (r: Result<Vec<SubtreeEntry>, Error>)
    ensures
        final(store).written@ == old(store).written@,
        extends(old(store).reads@, final(store).reads@),
        (exists|i: int| 0 <= i < other_nodes@.len() && #[trigger] other_nodes@[i]@ == node@) ==> r is Ok
            && r.unwrap()@.len() == 0 && final(store).reads@ == old(store).reads@,
        !(exists|i: int| 0 <= i < other_nodes@.len() && #[trigger] other_nodes@[i]@ == node@) ==> {
            let l = listed(
                final(store).reads@,
                old(store).reads@.len() as int,
                path@,
                node@,
                nodes_seq(other_nodes@),
                if depth > 1 {
                    depth - 1
                } else {
                    0
                },
            );
            &&& l.asked
            &&& l.next == final(store).reads@.len()
            &&& match l.result {
                Ok(sent) => r is Ok && sent_view(r.unwrap()@) == sent,
                Err(e) => r is Err && r.unwrap_err()@ == e,
            }
        },
{
    let mut out: Vec<SubtreeEntry> = Vec::new();
    if contains_node(&other_nodes, &node) {
        proof {
            assert(store.reads@.subrange(0, store.reads@.len() as int) =~= store.reads@);
        }
        return Ok(out);
    }
    proof {
        assert(sent_view(out@) =~= Seq::<Sent>::empty());
    }
    let levels: i32 = if depth > 1 {
        depth - 1
    } else {
        0
    };
    let mut at = path.clone();
    let r = subtree_below(store, &mut at, &node, &other_nodes, levels, &mut out);
    proof {
        let l = listed(
            store.reads@,
            old(store).reads@.len() as int,
            path@,
            node@,
            nodes_seq(other_nodes@),
            levels as int,
        );
        if l.result is Ok {
            assert(Seq::<Sent>::empty() + l.result->Ok_0 =~= l.result->Ok_0);
        }
    }
    match r {
        Ok(()) => Ok(out),
        Err(e) => Err(e),
    }
}

} // verus!
