use crate::error::LoadFault;
use crate::file::FileMetadata;
use crate::node::Node;
use crate::order::{
    lemma_lex_asymmetric, lemma_lex_irreflexive, lemma_lex_total, lemma_lex_transitive, lex_lt,
    order_bytes, Order,
};
use crate::path::{valid_component, PathComponent};
use vstd::prelude::*;

verus! {

/// A node of the tree: a file, a directory that exists in memory only, or a
/// directory whose hash is known.
#[derive(Debug)]
pub enum Link {
    /// A file.
    Leaf(FileMetadata),
    /// A directory that was changed in memory and has no hash yet.
    Ephemeral(Vec<Child>),
    /// A directory that is stored under its hash.
    Durable(DurableEntry),
}

/// A stored directory: its hash, and its children once they were asked for.
#[derive(Debug)]
pub struct DurableEntry {
    pub node: Node,
    pub links: Lazy,
}

/// The children of a stored directory: not asked for yet, loaded, or failed
/// to load. A failure is kept and never tried again.
#[derive(Debug)]
pub enum Lazy {
    Unloaded,
    Loaded(Vec<Child>),
    Failed(LoadFault),
}

/// A name in a directory and what stands under it.
#[derive(Debug)]
pub struct Child {
    pub name: PathComponent,
    pub link: Link,
}

/// The mathematical content of a `Link`.
pub ghost enum LinkView {
    Leaf(FileMetadata),
    Ephemeral(Seq<ChildView>),
    Durable(Seq<u8>, LazyView),
}

/// The mathematical content of a `Lazy`.
pub ghost enum LazyView {
    Unloaded,
    Loaded(Seq<ChildView>),
    Failed(LoadFault),
}

/// The mathematical content of a `Child`.
pub ghost struct ChildView {
    pub name: Seq<u8>,
    pub link: LinkView,
}

/// The views of the children of a directory, in order.
pub open spec fn children_view(cs: Seq<Child>) -> Seq<ChildView>
    decreases cs,
{
    Seq::new(
        cs.len(),
        |i: int|
            if 0 <= i < cs.len() {
                ChildView { name: cs[i].name@, link: cs[i].link.view() }
            } else {
                ChildView { name: Seq::empty(), link: LinkView::Ephemeral(Seq::empty()) }
            },
    )
}

impl View for Link {
    type V = LinkView;

    open spec fn view(&self) -> LinkView
        decreases self,
    {
        match self {
            Link::Leaf(m) => LinkView::Leaf(*m),
            Link::Ephemeral(cs) => LinkView::Ephemeral(children_view(cs@)),
            Link::Durable(d) => LinkView::Durable(d.node@, d.links.view()),
        }
    }
}

impl View for Lazy {
    type V = LazyView;

    open spec fn view(&self) -> LazyView
        decreases self,
    {
        match self {
            Lazy::Unloaded => LazyView::Unloaded,
            Lazy::Loaded(cs) => LazyView::Loaded(children_view(cs@)),
            Lazy::Failed(f) => LazyView::Failed(*f),
        }
    }
}

impl View for Child {
    type V = ChildView;

    open spec fn view(&self) -> ChildView {
        ChildView { name: self.name@, link: self.link@ }
    }
}

/// The names stand in strictly increasing byte order.
pub open spec fn sorted_children(cs: Seq<ChildView>) -> bool {
    forall|i: int, j: int| 0 <= i < j < cs.len() ==> lex_lt(#[trigger] cs[i].name, #[trigger] cs[j].name)
}

/// Index of the child with the given name, searched from `i` on.
pub open spec fn find_from(cs: Seq<ChildView>, name: Seq<u8>, i: int) -> Option<int>
    decreases cs.len() - i,
{
    if i < 0 || i >= cs.len() {
        None
    } else if cs[i].name == name {
        Some(i)
    } else {
        find_from(cs, name, i + 1)
    }
}

/// Index of the child with the given name.
pub open spec fn find(cs: Seq<ChildView>, name: Seq<u8>) -> Option<int> {
    find_from(cs, name, 0)
}

/// Number of children from `i` on, counted from the front, whose names sort
/// before `name`: with sorted children, the place where `name` belongs.
pub open spec fn rank_from(cs: Seq<ChildView>, name: Seq<u8>, i: int) -> int
    decreases cs.len() - i,
{
    if i < 0 || i >= cs.len() || !lex_lt(cs[i].name, name) {
        i
    } else {
        rank_from(cs, name, i + 1)
    }
}

/// The place where `name` belongs among sorted children.
pub open spec fn rank(cs: Seq<ChildView>, name: Seq<u8>) -> int {
    rank_from(cs, name, 0)
}

impl LinkView {
    /// The children of a directory as far as they are in memory; none for a
    /// file and for a stored directory that is not loaded.
    pub open spec fn children(self) -> Seq<ChildView> {
        match self {
            LinkView::Leaf(_) => Seq::empty(),
            LinkView::Ephemeral(cs) => cs,
            LinkView::Durable(_, LazyView::Loaded(cs)) => cs,
            LinkView::Durable(_, _) => Seq::empty(),
        }
    }

    /// The link is a directory whose children are in memory.
    pub open spec fn is_loaded_dir(self) -> bool {
        match self {
            LinkView::Ephemeral(_) => true,
            LinkView::Durable(_, LazyView::Loaded(_)) => true,
            _ => false,
        }
    }

    /// The link is a directory, loaded or not.
    pub open spec fn is_dir(self) -> bool {
        !(self is Leaf)
    }

    /// Validity of a tree: hashes have twenty bytes, and every directory in
    /// memory lists valid names in strictly increasing order.
    pub open spec fn wf(self) -> bool
        decreases self,
    {
        match self {
            LinkView::Leaf(_) => true,
            LinkView::Ephemeral(cs) => wf_children(cs),
            LinkView::Durable(node, lazy) => node.len() == 20 && match lazy {
                LazyView::Loaded(cs) => wf_children(cs),
                _ => true,
            },
        }
    }
}

/// Validity of the children of one directory.
pub open spec fn wf_children(cs: Seq<ChildView>) -> bool
    decreases cs,
{
    &&& sorted_children(cs)
    &&& forall|i: int| 0 <= i < cs.len() ==> valid_component(#[trigger] cs[i].name)
    &&& forall|i: int|
        if 0 <= i < cs.len() {
            (#[trigger] cs[i]).link.wf()
        } else {
            true
        }
}

pub proof fn lemma_find_from(cs: Seq<ChildView>, name: Seq<u8>, i: int)
    requires
        0 <= i,
    ensures
        match find_from(cs, name, i) {
            Some(k) => i <= k < cs.len() && cs[k].name == name && forall|j: int|
                i <= j < k ==> (#[trigger] cs[j]).name != name,
            None => forall|j: int| i <= j < cs.len() ==> (#[trigger] cs[j]).name != name,
        },
    decreases cs.len() - i,
{
    if i < cs.len() && cs[i].name != name {
        lemma_find_from(cs, name, i + 1);
    }
}

/// What `find` returns: the one child with the name, if there is one.
pub proof fn lemma_find(cs: Seq<ChildView>, name: Seq<u8>)
    ensures
        match find(cs, name) {
            Some(k) => 0 <= k < cs.len() && cs[k].name == name,
            None => forall|j: int| 0 <= j < cs.len() ==> (#[trigger] cs[j]).name != name,
        },
{
    lemma_find_from(cs, name, 0);
}

/// Among sorted children a name stands at one place at most.
pub proof fn lemma_find_is(cs: Seq<ChildView>, name: Seq<u8>, k: int)
    requires
        sorted_children(cs),
        0 <= k < cs.len(),
        cs[k].name == name,
    ensures
        find(cs, name) == Some(k),
{
    lemma_find_from(cs, name, 0);
    let r = find(cs, name);
    if r != Some(k) {
        let j = r.unwrap();
        if j < k {
            assert(lex_lt(cs[j].name, cs[k].name));
        } else {
            assert(lex_lt(cs[k].name, cs[j].name));
        }
        lemma_lex_irreflexive(name);
    }
}

pub proof fn lemma_rank_from(cs: Seq<ChildView>, name: Seq<u8>, i: int)
    requires
        0 <= i <= cs.len(),
    ensures
        i <= rank_from(cs, name, i) <= cs.len(),
        forall|j: int| i <= j < rank_from(cs, name, i) ==> lex_lt((#[trigger] cs[j]).name, name),
        rank_from(cs, name, i) < cs.len() ==> !lex_lt(cs[rank_from(cs, name, i)].name, name),
    decreases cs.len() - i,
{
    if i < cs.len() && lex_lt(cs[i].name, name) {
        lemma_rank_from(cs, name, i + 1);
    }
}

/// Where a name belongs among sorted children: after all smaller names and
/// before all others.
pub proof fn lemma_rank(cs: Seq<ChildView>, name: Seq<u8>)
    requires
        sorted_children(cs),
    ensures
        0 <= rank(cs, name) <= cs.len(),
        forall|j: int| 0 <= j < rank(cs, name) ==> lex_lt((#[trigger] cs[j]).name, name),
        forall|j: int|
            rank(cs, name) <= j < cs.len() ==> !lex_lt((#[trigger] cs[j]).name, name),
        find(cs, name) is Some ==> find(cs, name) == Some(rank(cs, name)),
        find(cs, name) is None ==> forall|j: int|
            rank(cs, name) <= j < cs.len() ==> lex_lt(name, (#[trigger] cs[j]).name),
{
    lemma_rank_from(cs, name, 0);
    let r = rank(cs, name);
    assert forall|j: int| r <= j < cs.len() implies !lex_lt((#[trigger] cs[j]).name, name) by {
        if j > r && lex_lt(cs[j].name, name) {
            assert(lex_lt(cs[r].name, cs[j].name));
            lemma_lex_transitive(cs[r].name, cs[j].name, name);
        }
    }
    lemma_find(cs, name);
    if find(cs, name) is Some {
        let k = find(cs, name).unwrap();
        lemma_lex_irreflexive(name);
        if k > r {
            assert(lex_lt(cs[r].name, cs[k].name));
        }
    } else {
        assert forall|j: int| r <= j < cs.len() implies lex_lt(name, (#[trigger] cs[j]).name) by {
            lemma_lex_total(name, cs[j].name);
        }
    }
}

/// The place that a position with the given neighbours is: the rank of the
/// name.
pub proof fn lemma_rank_is(cs: Seq<ChildView>, name: Seq<u8>, k: int)
    requires
        0 <= k <= cs.len(),
        forall|j: int| 0 <= j < k ==> lex_lt((#[trigger] cs[j]).name, name),
        k < cs.len() ==> !lex_lt(cs[k].name, name),
    ensures
        rank(cs, name) == k,
{
    lemma_rank_from(cs, name, 0);
    let r = rank(cs, name);
    if r < k {
        assert(lex_lt(cs[r].name, name));
    } else if r > k {
        assert(lex_lt(cs[k].name, name));
    }
}

/// Looks a name up among the sorted children of a directory. Returns whether
/// it is there, and its index, or else the index at which it belongs.
pub fn search(cs: &Vec<Child>, name: &[u8]) -> (r: (bool, usize))
    requires
        sorted_children(children_view(cs@)),
    ensures
        r.1 == rank(children_view(cs@), name@),
        r.0 == (find(children_view(cs@), name@) is Some),
        r.0 ==> r.1 < cs@.len() && cs@[r.1 as int].name@ == name@,
        r.0 ==> find(children_view(cs@), name@) == Some(r.1 as int),
        r.1 <= cs@.len(),
{
    let ghost v = children_view(cs@);
    let mut lo: usize = 0;
    let mut hi: usize = cs.len();
    while lo < hi
        invariant
            lo <= hi <= cs@.len(),
            v == children_view(cs@),
            sorted_children(v),
            forall|j: int| 0 <= j < lo ==> lex_lt((#[trigger] v[j]).name, name@),
            forall|j: int| hi <= j < v.len() ==> lex_lt(name@, (#[trigger] v[j]).name),
        decreases hi - lo,
    {
        let mid = lo + (hi - lo) / 2;
        let c = &cs[mid];
        assert(v[mid as int].name == c.name@);
        match order_bytes(c.name.as_bytes(), name) {
            Order::Equal => {
                proof {
                    lemma_lex_irreflexive(name@);
                    assert forall|j: int| 0 <= j < mid implies lex_lt((#[trigger] v[j]).name, name@) by {
                        assert(lex_lt(v[j].name, v[mid as int].name));
                    }
                    lemma_rank_is(v, name@, mid as int);
                    lemma_find_is(v, name@, mid as int);
                }
                return (true, mid);
            },
            Order::Less => {
                proof {
                    assert forall|j: int| 0 <= j < mid + 1 implies lex_lt(
                        (#[trigger] v[j]).name,
                        name@,
                    ) by {
                        if j < mid {
                            assert(lex_lt(v[j].name, v[mid as int].name));
                            lemma_lex_transitive(v[j].name, v[mid as int].name, name@);
                        }
                    }
                }
                lo = mid + 1;
            },
            Order::Greater => {
                proof {
                    assert forall|j: int| mid <= j < v.len() implies lex_lt(
                        name@,
                        (#[trigger] v[j]).name,
                    ) by {
                        if j > mid {
                            assert(lex_lt(v[mid as int].name, v[j].name));
                            lemma_lex_transitive(name@, v[mid as int].name, v[j].name);
                        }
                    }
                }
                hi = mid;
            },
        }
    }
    proof {
        if lo < v.len() {
            lemma_lex_asymmetric(name@, v[lo as int].name);
        }
        lemma_rank_is(v, name@, lo as int);
        lemma_find(v, name@);
        if find(v, name@) is Some {
            let k = find(v, name@).unwrap();
            lemma_lex_irreflexive(name@);
            if k < lo {
                assert(lex_lt(v[k].name, name@));
            } else {
                assert(lex_lt(name@, v[k].name));
            }
        }
    }
    (false, lo)
}

/// Copies a link with all that is below it.
pub fn clone_link(l: &Link) -> (r: Link)
    ensures
        r@ == l@,
    decreases l, 0int,
{
    match l {
        Link::Leaf(m) => Link::Leaf(*m),
        Link::Ephemeral(cs) => Link::Ephemeral(clone_children(cs)),
        Link::Durable(entry) => {
            let links = match &entry.links {
                Lazy::Unloaded => Lazy::Unloaded,
                Lazy::Loaded(cs) => Lazy::Loaded(clone_children(cs)),
                Lazy::Failed(f) => Lazy::Failed(*f),
            };
            Link::Durable(DurableEntry { node: entry.node, links })
        },
    }
}

/// Copies the children of a directory.
pub fn clone_children(cs: &Vec<Child>) -> (r: Vec<Child>)
    ensures
        children_view(r@) == children_view(cs@),
    decreases cs, 1int,
{
    let mut out: Vec<Child> = Vec::with_capacity(cs.len());
    let mut i: usize = 0;
    while i < cs.len()
        invariant
            i <= cs@.len(),
            out@.len() == i,
            forall|k: int| 0 <= k < i ==> (#[trigger] out@[k])@ == cs@[k]@,
        decreases cs@.len() - i,
    {
        let c = &cs[i];
        out.push(Child { name: c.name.clone(), link: clone_link(&c.link) });
        i += 1;
    }
    proof {
        let a = children_view(out@);
        let b = children_view(cs@);
        assert forall|k: int| 0 <= k < a.len() implies a[k] == b[k] by {
            assert(out@[k]@ == cs@[k]@);
        }
        assert(a =~= b);
    }
    out
}

impl Clone for Link {
    fn clone(&self) -> (r: Self)
        ensures
            r@ == self@,
    {
        clone_link(self)
    }
}

} // verus!
