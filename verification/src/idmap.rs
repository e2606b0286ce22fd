use crate::error::{Error, ErrorView};
use crate::node::Node;
use crate::nodemap::NodeMap;
use std::collections::HashMap;
use vstd::prelude::*;

verus! {

broadcast use vstd::std_specs::hash::group_hash_axioms;

/// The identifier of a commit.
pub type ChangesetId = Node;

/// The dense number of a commit.
pub type Vertex = u64;

/// A one-to-one map between commits and vertices, kept in memory.
pub struct MemIdMap {
    pub vertex_of: NodeMap<u64>,
    pub changeset_of: HashMap<u64, Node>,
}

impl View for MemIdMap {
    type V = Map<Seq<u8>, u64>;

    /// The vertex of each commit in the map.
    open spec fn view(&self) -> Map<Seq<u8>, u64> {
        self.vertex_of@
    }
}

/// No two commits of the map have the same vertex.
pub open spec fn one_to_one(m: Map<Seq<u8>, u64>) -> bool {
    forall|a: Seq<u8>, b: Seq<u8>|
        m.contains_key(a) && m.contains_key(b) && #[trigger] m[a] == #[trigger] m[b] ==> a == b
}

/// Some commit of the map has the vertex.
pub open spec fn has_vertex(m: Map<Seq<u8>, u64>, v: u64) -> bool {
    exists|c: Seq<u8>| m.contains_key(c) && #[trigger] m[c] == v
}

impl MemIdMap {
    /// The two directions of the map agree.
    pub open spec fn wf(&self) -> bool {
        &&& self.vertex_of.wf()
        &&& forall|c: Seq<u8>| #[trigger]
            self.vertex_of@.contains_key(c) ==> self.changeset_of@.contains_key(self.vertex_of@[c])
                && self.changeset_of@[self.vertex_of@[c]]@ == c
        &&& forall|v: u64| #[trigger]
            self.changeset_of@.contains_key(v) ==> self.vertex_of@.contains_key(
                self.changeset_of@[v]@,
            ) && self.vertex_of@[self.changeset_of@[v]@] == v
    }

    /// A valid map is one-to-one.
    pub proof fn lemma_one_to_one(&self)
        requires
            self.wf(),
        ensures
            one_to_one(self@),
            forall|v: u64| has_vertex(self@, v) <==> self.changeset_of@.contains_key(v),
    {
        assert forall|a: Seq<u8>, b: Seq<u8>|
            self@.contains_key(a) && self@.contains_key(b) && #[trigger] self@[a]
                == #[trigger] self@[b] implies a == b by {
            assert(self.vertex_of@.contains_key(a));
            assert(self.vertex_of@.contains_key(b));
        }
        assert forall|v: u64| has_vertex(self@, v) <==> self.changeset_of@.contains_key(v) by {
            if has_vertex(self@, v) {
                let c = choose|c: Seq<u8>| self@.contains_key(c) && #[trigger] self@[c] == v;
                assert(self.vertex_of@.contains_key(c));
            }
            if self.changeset_of@.contains_key(v) {
                let c = self.changeset_of@[v]@;
                assert(self@.contains_key(c) && self@[c] == v);
            }
        }
    }

    /// A map without entries.
    pub fn new() -> (r: MemIdMap)
        ensures
            r.wf(),
            r@ == Map::<Seq<u8>, u64>::empty(),
            r.vertex_of.slots@.len() == 0,
    {
        MemIdMap { vertex_of: NodeMap::new(), changeset_of: HashMap::new() }
    }

    /// Number of commits in the map.
    pub fn len(&self) -> (r: usize)
        ensures
            r == self.vertex_of.slots@.len(),
    {
        self.vertex_of.len()
    }

    /// The vertex of the commit, if it has one.
    pub fn find_vertex(&self, cs_id: &Node) -> (r: Option<u64>)
        requires
            self.wf(),
        ensures
            r == (if self@.contains_key(cs_id@) {
                Some(self@[cs_id@])
            } else {
                None
            }),
    {
        match self.vertex_of.get(cs_id) {
            Some(v) => Some(*v),
            None => None,
        }
    }

    /// The vertex of the commit; `NotFound` if it has none.
    pub fn get_vertex(&self, cs_id: &Node) -> (r: Result<u64, Error>)
        requires
            self.wf(),
        ensures
            self@.contains_key(cs_id@) ==> r == Ok::<u64, Error>(self@[cs_id@]),
            !self@.contains_key(cs_id@) ==> r is Err && r.unwrap_err()@ == ErrorView::NotFound,
    {
        match self.find_vertex(cs_id) {
            Some(v) => Ok(v),
            None => Err(Error::NotFound),
        }
    }

    /// The commit of the vertex, if there is one.
    pub fn find_changeset_id(&self, vertex: u64) -> (r: Option<Node>)
        requires
            self.wf(),
        ensures
            r is Some <==> has_vertex(self@, vertex),
            r is Some ==> self@.contains_key(r.unwrap()@) && self@[r.unwrap()@] == vertex,
    {
        proof {
            self.lemma_one_to_one();
        }
        match self.changeset_of.get(&vertex) {
            Some(c) => Some(*c),
            None => None,
        }
    }

    /// The commit of the vertex; `NotFound` if there is none.
    pub fn get_changeset_id(&self, vertex: u64) -> (r: Result<Node, Error>)
        requires
            self.wf(),
        ensures
            r is Ok <==> has_vertex(self@, vertex),
            r is Ok ==> self@.contains_key(r.unwrap()@) && self@[r.unwrap()@] == vertex,
            r is Err ==> r.unwrap_err()@ == ErrorView::NotFound,
    {
        match self.find_changeset_id(vertex) {
            Some(c) => Ok(c),
            None => Err(Error::NotFound),
        }
    }

    /// Maps the commit and the vertex to each other. Nothing changes where
    /// they are mapped to each other already. Fails with `IdMapCollision`,
    /// and changes nothing, where either is mapped to something else.
    pub fn insert(&mut self, vertex: u64, cs_id: Node) -> (r: Result<(), Error>)
        requires
            old(self).wf(),
        ensures
            final(self).wf(),
            r is Ok <==> (old(self)@.contains_key(cs_id@) ==> old(self)@[cs_id@] == vertex) && (
            has_vertex(old(self)@, vertex) ==> old(self)@.contains_key(cs_id@)),
            r is Ok ==> final(self)@ == old(self)@.insert(cs_id@, vertex),
            r is Ok && !old(self)@.contains_key(cs_id@) ==> final(self).vertex_of.slots@.len() == old(
                self,
            ).vertex_of.slots@.len() + 1,
            r is Err ==> r.unwrap_err()@ == ErrorView::IdMapCollision && final(self)@ == old(self)@
                && final(self).vertex_of.slots@.len() == old(self).vertex_of.slots@.len(),
    {
        proof {
            self.lemma_one_to_one();
        }
        let known_vertex = self.find_vertex(&cs_id);
        let known_cs = self.find_changeset_id(vertex);
        match (known_vertex, known_cs) {
            (None, None) => {
                self.vertex_of.insert(cs_id, vertex);
                self.changeset_of.insert(vertex, cs_id);
                proof {
                    assert forall|c: Seq<u8>| #[trigger]
                        self.vertex_of@.contains_key(c) implies self.changeset_of@.contains_key(
                        self.vertex_of@[c],
                    ) && self.changeset_of@[self.vertex_of@[c]]@ == c by {
                        if c != cs_id@ {
                            assert(old(self).vertex_of@.contains_key(c));
                        }
                    }
                    assert forall|v: u64| #[trigger]
                        self.changeset_of@.contains_key(v) implies self.vertex_of@.contains_key(
                        self.changeset_of@[v]@,
                    ) && self.vertex_of@[self.changeset_of@[v]@] == v by {
                        if v != vertex {
                            assert(old(self).changeset_of@.contains_key(v));
                        }
                    }
                }
                Ok(())
            },
            (Some(v), Some(c)) => {
                if v == vertex {
                    assert(self@ =~= old(self)@.insert(cs_id@, vertex));
                    Ok(())
                } else {
                    Err(Error::IdMapCollision)
                }
            },
            _ => Err(Error::IdMapCollision),
        }
    }

    /// The pairs of the map, each once, in the byte order of the commits.
    pub fn entries(&self) -> (r: Vec<(u64, Node)>)
        requires
            self.wf(),
        ensures
            r@.len() == self.vertex_of.slots@.len(),
            forall|i: int, j: int|
                0 <= i < j < r@.len() ==> crate::order::lex_lt((#[trigger] r@[i]).1@, (#[trigger] r@[j]).1@),
            forall|i: int| 0 <= i < r@.len() ==> self@.contains_key(#[trigger] r@[i].1@) && self@[r@[i].1@]
                == r@[i].0,
            forall|c: Seq<u8>|
                self@.contains_key(c) ==> exists|i: int| 0 <= i < r@.len() && #[trigger] r@[i].1@ == c,
    {
        let mut out: Vec<(u64, Node)> = Vec::with_capacity(self.vertex_of.len());
        let ghost ks = crate::nodemap::keys_of(self.vertex_of.slots@);
        let mut i: usize = 0;
        while i < self.vertex_of.slots.len()
            invariant
                i <= self.vertex_of.slots@.len(),
                self.wf(),
                ks == crate::nodemap::keys_of(self.vertex_of.slots@),
                out@.len() == i,
                forall|k: int|
                    0 <= k < i ==> (#[trigger] out@[k]).1@ == self.vertex_of.slots@[k].key@ && out@[k].0
                        == self.vertex_of.slots@[k].value,
            decreases self.vertex_of.slots@.len() - i,
        {
            let slot = &self.vertex_of.slots[i];
            out.push((slot.value, slot.key));
            i += 1;
        }
        proof {
            assert forall|i: int, j: int| 0 <= i < j < out@.len() implies crate::order::lex_lt(
                (#[trigger] out@[i]).1@,
                (#[trigger] out@[j]).1@,
            ) by {
                assert(ks[i] == self.vertex_of.slots@[i].key@);
                assert(ks[j] == self.vertex_of.slots@[j].key@);
            }
            assert forall|k: int| 0 <= k < out@.len() implies self@.contains_key(
                #[trigger] out@[k].1@,
            ) && self@[out@[k].1@] == out@[k].0 by {
                assert(ks[k] == self.vertex_of.slots@[k].key@);
                crate::nodemap::lemma_key_find_is(ks, ks[k], k);
            }
            assert forall|c: Seq<u8>| self@.contains_key(c) implies exists|k: int|
                0 <= k < out@.len() && #[trigger] out@[k].1@ == c by {
                crate::nodemap::lemma_key_find(ks, c);
                let k = crate::nodemap::key_find(ks, c).unwrap();
                assert(out@[k].1@ == c);
            }
        }
        out
    }
}

} // verus!
