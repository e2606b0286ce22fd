use crate::node::Node;
use crate::order::{lemma_lex_irreflexive, lemma_lex_transitive, lex_lt, order_bytes, Order};
use vstd::prelude::*;

verus! {

/// The keys stand in strictly increasing byte order.
pub open spec fn sorted_keys(ks: Seq<Seq<u8>>) -> bool {
    forall|i: int, j: int| 0 <= i < j < ks.len() ==> lex_lt(#[trigger] ks[i], #[trigger] ks[j])
}

/// Index of the key `k`, searched from `i` on.
pub open spec fn key_find_from(ks: Seq<Seq<u8>>, k: Seq<u8>, i: int) -> Option<int>
    decreases ks.len() - i,
{
    if i < 0 || i >= ks.len() {
        None
    } else if ks[i] == k {
        Some(i)
    } else {
        key_find_from(ks, k, i + 1)
    }
}

/// Index of the key `k`.
pub open spec fn key_find(ks: Seq<Seq<u8>>, k: Seq<u8>) -> Option<int> {
    key_find_from(ks, k, 0)
}

pub proof fn lemma_key_find_from(ks: Seq<Seq<u8>>, k: Seq<u8>, i: int)
    requires
        0 <= i,
    ensures
        match key_find_from(ks, k, i) {
            Some(j) => i <= j < ks.len() && ks[j] == k,
            None => forall|j: int| i <= j < ks.len() ==> #[trigger] ks[j] != k,
        },
    decreases ks.len() - i,
{
    if i < ks.len() && ks[i] != k {
        lemma_key_find_from(ks, k, i + 1);
    }
}

/// What `key_find` returns: a place that holds the key, if there is one.
pub proof fn lemma_key_find(ks: Seq<Seq<u8>>, k: Seq<u8>)
    ensures
        match key_find(ks, k) {
            Some(j) => 0 <= j < ks.len() && ks[j] == k,
            None => forall|j: int| 0 <= j < ks.len() ==> #[trigger] ks[j] != k,
        },
{
    lemma_key_find_from(ks, k, 0);
}

/// Among sorted keys a key stands at one place at most.
pub proof fn lemma_key_find_is(ks: Seq<Seq<u8>>, k: Seq<u8>, j: int)
    requires
        sorted_keys(ks),
        0 <= j < ks.len(),
        ks[j] == k,
    ensures
        key_find(ks, k) == Some(j),
{
    lemma_key_find(ks, k);
    let r = key_find(ks, k).unwrap();
    lemma_lex_irreflexive(k);
    if r < j {
        assert(lex_lt(ks[r], ks[j]));
    } else if r > j {
        assert(lex_lt(ks[j], ks[r]));
    }
}

/// One key with its value.
pub struct Slot<V> {
    pub key: Node,
    pub value: V,
}

/// A map from nodes to values, kept as a list sorted by key.
pub struct NodeMap<V> {
    pub slots: Vec<Slot<V>>,
}

/// The keys of the slots, in order.
pub open spec fn keys_of<V>(slots: Seq<Slot<V>>) -> Seq<Seq<u8>> {
    Seq::new(slots.len(), |i: int| slots[i].key@)
}

impl<V> View for NodeMap<V> {
    type V = Map<Seq<u8>, V>;

    open spec fn view(&self) -> Map<Seq<u8>, V> {
        Map::new(
            |k: Seq<u8>| key_find(keys_of(self.slots@), k) is Some,
            |k: Seq<u8>| self.slots@[key_find(keys_of(self.slots@), k).unwrap()].value,
        )
    }
}

impl<V> NodeMap<V> {
    /// The keys are sorted, so no key occurs twice.
    pub open spec fn wf(&self) -> bool {
        sorted_keys(keys_of(self.slots@))
    }

    /// A map without keys.
    pub fn new() -> (r: NodeMap<V>)
        ensures
            r.wf(),
            r@ == Map::<Seq<u8>, V>::empty(),
            r.slots@.len() == 0,
    {
        let r = NodeMap { slots: Vec::new() };
        assert(r@ =~= Map::<Seq<u8>, V>::empty());
        r
    }

    /// Number of keys.
    pub fn len(&self) -> (r: usize)
        ensures
            r == self.slots@.len(),
    {
        self.slots.len()
    }

    /// Looks a key up: whether it is there, and its index, or else the index
    /// at which it belongs.
    pub fn search(&self, key: &Node) -> (r: (bool, usize))
        requires
            self.wf(),
        ensures
            r.0 == self@.contains_key(key@),
            r.0 ==> r.1 < self.slots@.len() && self.slots@[r.1 as int].key@ == key@ && self@[key@]
                == self.slots@[r.1 as int].value,
            r.1 <= self.slots@.len(),
            forall|j: int| 0 <= j < r.1 ==> lex_lt(#[trigger] keys_of(self.slots@)[j], key@),
            !r.0 ==> forall|j: int|
                r.1 <= j < self.slots@.len() ==> lex_lt(key@, #[trigger] keys_of(self.slots@)[j]),
    {
        let ghost ks = keys_of(self.slots@);
        let mut lo: usize = 0;
        let mut hi: usize = self.slots.len();
        while lo < hi
            invariant
                lo <= hi <= self.slots@.len(),
                ks == keys_of(self.slots@),
                sorted_keys(ks),
                forall|j: int| 0 <= j < lo ==> lex_lt(#[trigger] ks[j], key@),
                forall|j: int| hi <= j < ks.len() ==> lex_lt(key@, #[trigger] ks[j]),
            decreases hi - lo,
        {
            let mid = lo + (hi - lo) / 2;
            let slot = &self.slots[mid];
            assert(ks[mid as int] == slot.key@);
            match order_bytes(slot.key.bytes.as_slice(), key.bytes.as_slice()) {
                Order::Equal => {
                    proof {
                        assert forall|j: int| 0 <= j < mid implies lex_lt(#[trigger] ks[j], key@) by {
                            assert(lex_lt(ks[j], ks[mid as int]));
                        }
                        lemma_key_find_is(ks, key@, mid as int);
                    }
                    return (true, mid);
                },
                Order::Less => {
                    proof {
                        assert forall|j: int| 0 <= j < mid + 1 implies lex_lt(#[trigger] ks[j], key@) by {
                            if j < mid {
                                assert(lex_lt(ks[j], ks[mid as int]));
                                lemma_lex_transitive(ks[j], ks[mid as int], key@);
                            }
                        }
                    }
                    lo = mid + 1;
                },
                Order::Greater => {
                    proof {
                        assert forall|j: int| mid <= j < ks.len() implies lex_lt(key@, #[trigger] ks[j]) by {
                            if j > mid {
                                assert(lex_lt(ks[mid as int], ks[j]));
                                lemma_lex_transitive(key@, ks[mid as int], ks[j]);
                            }
                        }
                    }
                    hi = mid;
                },
            }
        }
        proof {
            lemma_key_find(ks, key@);
            if key_find(ks, key@) is Some {
                let j = key_find(ks, key@).unwrap();
                lemma_lex_irreflexive(key@);
                if j < lo {
                    assert(lex_lt(ks[j], key@));
                } else {
                    assert(lex_lt(key@, ks[j]));
                }
            }
        }
        (false, lo)
    }

    /// Tells whether the key is in the map.
    pub fn contains(&self, key: &Node) -> (r: bool)
        requires
            self.wf(),
        ensures
            r == self@.contains_key(key@),
    {
        self.search(key).0
    }

    /// The value of the key, if it has one.
    pub fn get(&self, key: &Node) -> (r: Option<&V>)
        requires
            self.wf(),
        ensures
            r is Some <==> self@.contains_key(key@),
            r is Some ==> *r.unwrap() == self@[key@],
    {
        let (found, k) = self.search(key);
        if found {
            Some(&self.slots[k].value)
        } else {
            None
        }
    }

    /// Gives the key the value. Returns the value that the key had before.
    pub fn insert(&mut self, key: Node, value: V) -> (r: Option<V>)
        requires
            old(self).wf(),
        ensures
            final(self).wf(),
            final(self)@ == old(self)@.insert(key@, value),
            r is Some <==> old(self)@.contains_key(key@),
            r is Some ==> r.unwrap() == old(self)@[key@],
            r is Some ==> final(self).slots@.len() == old(self).slots@.len(),
            r is None ==> final(self).slots@.len() == old(self).slots@.len() + 1,
    {
        let ghost before = self.slots@;
        let ghost ks = keys_of(before);
        let (found, k) = self.search(&key);
        if found {
            let mut slot = Slot { key, value };
            core::mem::swap(&mut self.slots[k], &mut slot);
            proof {
                let ks2 = keys_of(self.slots@);
                assert(ks2 =~= ks);
                assert forall|q: Seq<u8>| #[trigger]
                    self@.contains_key(q) == old(self)@.insert(key@, value).contains_key(q) by {
                    lemma_key_find(ks, q);
                    lemma_key_find_is(ks, key@, k as int);
                }
                assert forall|q: Seq<u8>| self@.contains_key(q) implies #[trigger] self@[q] == old(
                    self,
                )@.insert(key@, value)[q] by {
                    lemma_key_find(ks, q);
                    lemma_key_find_is(ks, key@, k as int);
                }
                assert(self@ =~= old(self)@.insert(key@, value));
            }
            Some(slot.value)
        } else {
            self.slots.insert(k, Slot { key, value });
            proof {
                let ks2 = keys_of(self.slots@);
                assert(ks2 =~= ks.insert(k as int, key@));
                assert forall|i: int, j: int| 0 <= i < j < ks2.len() implies lex_lt(
                    #[trigger] ks2[i],
                    #[trigger] ks2[j],
                ) by {
                    if j < k {
                        assert(ks2[i] == ks[i] && ks2[j] == ks[j]);
                    } else if j == k {
                        assert(ks2[i] == ks[i]);
                    } else if i < k {
                        assert(ks2[i] == ks[i] && ks2[j] == ks[j - 1]);
                    } else if i == k {
                        assert(ks2[j] == ks[j - 1]);
                    } else {
                        assert(ks2[i] == ks[i - 1] && ks2[j] == ks[j - 1]);
                    }
                }
                lemma_key_find_is(ks2, key@, k as int);
                assert forall|q: Seq<u8>| #[trigger]
                    self@.contains_key(q) == old(self)@.insert(key@, value).contains_key(q) by {
                    lemma_key_find(ks, q);
                    lemma_key_find(ks2, q);
                    if key_find(ks, q) is Some {
                        let j = key_find(ks, q).unwrap();
                        let j2 = if j < k { j } else { j + 1 };
                        assert(ks2[j2] == ks[j]);
                        lemma_key_find_is(ks2, q, j2);
                    } else if key_find(ks2, q) is Some {
                        let j2 = key_find(ks2, q).unwrap();
                        if j2 != k {
                            let j = if j2 < k { j2 } else { j2 - 1 };
                            assert(ks2[j2] == ks[j]);
                        }
                    }
                }
                assert forall|q: Seq<u8>| self@.contains_key(q) implies #[trigger] self@[q] == old(
                    self,
                )@.insert(key@, value)[q] by {
                    lemma_key_find(ks, q);
                    lemma_key_find(ks2, q);
                    if q != key@ {
                        let j2 = key_find(ks2, q).unwrap();
                        let j = if j2 < k { j2 } else { j2 - 1 };
                        assert(ks2[j2] == ks[j]);
                        lemma_key_find_is(ks, q, j);
                        assert(self.slots@[j2] == before[j]);
                    }
                }
                assert(self@ =~= old(self)@.insert(key@, value));
            }
            None
        }
    }
}

} // verus!
