use crate::node::Node;
use crate::path::{copy_bytes, RepoPath};
use vstd::prelude::*;

verus! {

/// Why the blob store did not do what was asked.
#[derive(Clone, Copy, Debug, PartialEq, Eq, Structural)]
pub enum StoreFault {
    NotFound,
    Io,
}

/// One blob as it is handed to the store: the path and the node that it is
/// kept under, and its bytes.
pub ghost struct Blob {
    pub path: Seq<Seq<u8>>,
    pub node: Seq<u8>,
    pub data: Seq<u8>,
}

/// Storage of serialized directories, keyed by path and node.
///
/// Nothing is promised of an implementation: the store may be remote and may
/// fail at any time.
pub trait TreeStore {
    fn get(&self, path: &RepoPath, node: &Node) -> (r: Result<Vec<u8>, StoreFault>);

    fn insert(&mut self, path: &RepoPath, node: &Node, data: Vec<u8>) -> (r: Result<(), StoreFault>);
}

/// One request for a blob, with what the store answered.
pub ghost struct Read {
    pub path: Seq<Seq<u8>>,
    pub node: Seq<u8>,
    pub answer: Result<Seq<u8>, StoreFault>,
}

/// The record `b` is the record `a` with more requests behind it.
pub open spec fn extends(a: Seq<Read>, b: Seq<Read>) -> bool {
    a.len() <= b.len() && b.subrange(0, a.len() as int) == a
}

/// Every record extends itself.
pub proof fn lemma_extends_refl(a: Seq<Read>)
    ensures
        extends(a, a),
{
    assert(a.subrange(0, a.len() as int) =~= a);
}

/// A record that extends an extension extends the record.
pub proof fn lemma_extends_trans(a: Seq<Read>, b: Seq<Read>, c: Seq<Read>)
    requires
        extends(a, b),
        extends(b, c),
    ensures
        extends(a, c),
        forall|i: int| 0 <= i < b.len() ==> c[i] == b[i],
{
    assert(c.subrange(0, a.len() as int) =~= c.subrange(0, b.len() as int).subrange(0, a.len() as int));
    assert forall|i: int| 0 <= i < b.len() implies c[i] == b[i] by {
        assert(c.subrange(0, b.len() as int)[i] == b[i]);
    }
}

/// A record with one more request extends the record.
pub proof fn lemma_extends_one(a: Seq<Read>, b: Seq<Read>)
    requires
        b.len() == a.len() + 1,
        b.drop_last() == a,
    ensures
        extends(a, b),
{
    assert(b.subrange(0, a.len() as int) =~= b.drop_last());
}

/// The answer of a store with the bytes replaced by their view.
pub open spec fn answer_view(answer: Result<Vec<u8>, StoreFault>) -> Result<Seq<u8>, StoreFault> {
    match answer {
        Ok(bytes) => Ok(bytes@),
        Err(fault) => Err(fault),
    }
}

/// A store together with the record of what passed through this value:
/// `written` holds the blobs that the store accepted, oldest first, and
/// `reads` the requests for blobs with the store's answers, oldest first.
pub struct InnerStore<S: TreeStore> {
    pub store: S,
    pub written: Ghost<Seq<Blob>>,
    pub reads: Ghost<Seq<Read>>,
}

impl<S: TreeStore> InnerStore<S> {
    /// Wraps a store; nothing has been written through the new value yet.
    pub fn new(store: S) -> (r: InnerStore<S>)
        ensures
            r.written@ == Seq::<Blob>::empty(),
            r.reads@ == Seq::<Read>::empty(),
            r.store == store,
    {
        InnerStore { store, written: Ghost(Seq::empty()), reads: Ghost(Seq::empty()) }
    }

    /// Asks the store for the blob under the path and node, and records
    /// the request with the answer.
    pub fn get(&mut self, path: &RepoPath, node: &Node) -> (r: Result<Vec<u8>, StoreFault>)
        ensures
            final(self).reads@ == old(self).reads@.push(
                Read { path: path@, node: node@, answer: answer_view(r) },
            ),
            final(self).written@ == old(self).written@,
    {
        let r = self.store.get(path, node);
        proof {
            self.reads@ = self.reads@.push(Read { path: path@, node: node@, answer: answer_view(r) });
        }
        r
    }

    /// Hands a blob to the store; the record grows by it exactly when the
    /// store accepts it.
    pub fn insert(&mut self, path: &RepoPath, node: &Node, data: Vec<u8>) -> (r: Result<
        (),
        StoreFault,
    >)
        ensures
            r is Ok ==> final(self).written@ == old(self).written@.push(
                Blob { path: path@, node: node@, data: data@ },
            ),
            r is Err ==> final(self).written@ == old(self).written@,
            final(self).reads@ == old(self).reads@,
    {
        let ghost blob = Blob { path: path@, node: node@, data: data@ };
        let r = self.store.insert(path, node, data);
        if r.is_ok() {
            proof {
                self.written@ = self.written@.push(blob);
            }
        }
        r
    }

    /// Gives the store back.
    pub fn into_inner(self) -> (r: S)
        ensures
            r == self.store,
    {
        self.store
    }
}

/// One blob of a `MemStore`.
pub struct StoredBlob {
    pub path: RepoPath,
    pub node: Node,
    pub data: Vec<u8>,
}

impl View for StoredBlob {
    type V = Blob;

    open spec fn view(&self) -> Blob {
        Blob { path: self.path@, node: self.node@, data: self.data@ }
    }
}

/// A store that keeps every blob in memory, in the order of arrival.
pub struct MemStore {
    pub blobs: Vec<StoredBlob>,
}

/// The data of the newest of the first `n` blobs kept under the path and node.
pub open spec fn newest(blobs: Seq<Blob>, n: int, path: Seq<Seq<u8>>, node: Seq<u8>) -> Option<Seq<u8>>
    decreases n,
{
    if n <= 0 || n > blobs.len() {
        None
    } else if blobs[n - 1].path == path && blobs[n - 1].node == node {
        Some(blobs[n - 1].data)
    } else {
        newest(blobs, n - 1, path, node)
    }
}

impl MemStore {
    /// The blobs that were inserted, oldest first.
    pub open spec fn written(&self) -> Seq<Blob> {
        Seq::new(self.blobs@.len(), |i: int| self.blobs@[i]@)
    }

    /// A store without blobs.
    pub fn new() -> (r: MemStore)
        ensures
            r.written() == Seq::<Blob>::empty(),
    {
        let r = MemStore { blobs: Vec::new() };
        assert(r.written() =~= Seq::<Blob>::empty());
        r
    }

    /// Number of blobs that were inserted.
    pub fn len(&self) -> (r: usize)
        ensures
            r == self.written().len(),
    {
        self.blobs.len()
    }
}

impl TreeStore for MemStore {
    /// The newest blob kept under the path and node, `NotFound` if there is none.
    fn get(&self, path: &RepoPath, node: &Node) -> (r: Result<Vec<u8>, StoreFault>)
        ensures
            match newest(self.written(), self.written().len() as int, path@, node@) {
                Some(data) => r is Ok && r.unwrap()@ == data,
                None => r == Err::<Vec<u8>, StoreFault>(StoreFault::NotFound),
            },
    {
        let mut i: usize = self.blobs.len();
        while i > 0
            invariant
                i <= self.blobs@.len(),
                newest(self.written(), self.written().len() as int, path@, node@) == newest(
                    self.written(),
                    i as int,
                    path@,
                    node@,
                ),
            decreases i,
        {
            let b = &self.blobs[i - 1];
            if b.path.same(path) && b.node.same(node) {
                return Ok(copy_bytes(b.data.as_slice()));
            }
            i -= 1;
        }
        Err(StoreFault::NotFound)
    }

    fn insert(&mut self, path: &RepoPath, node: &Node, data: Vec<u8>) -> (r: Result<(), StoreFault>)
        ensures
            r is Ok,
            final(self).written() == old(self).written().push(
                Blob { path: path@, node: node@, data: data@ },
            ),
    {
        let ghost before = self.written();
        let ghost blob = Blob { path: path@, node: node@, data: data@ };
        self.blobs.push(StoredBlob { path: path.clone(), node: *node, data });
        assert(self.written() =~= before.push(blob));
        Ok(())
    }
}

} // verus!
