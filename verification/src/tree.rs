use crate::edit::{
    chain, insert_outcome, insert_post, inserted, lemma_chain, lemma_insert_wf, lemma_remove_wf,
    lemma_update_wf, remove_outcome, remove_post, removed,
};
use crate::entry::{elements_view, parse, parse_entry, wf_elements, Element, ElementView, Flag};
use crate::error::{load_error, ConflictKind, Error, ErrorView, LoadFault};
use crate::file::{FileMetadata, FsNode};
use crate::link::{children_view, find, search, wf_children, Child, ChildView, DurableEntry, Lazy, LazyView, Link, LinkView};
use crate::lookup::{
    Found, get_answer, kids_load_by, kids_load_to, lemma_kids_load_by_refl, lemma_kids_load_by_step, lemma_kids_load_to_refl, lemma_kids_update, lemma_loaded_by_last, lemma_loads_by_more, lemma_loads_by_refl, lemma_loads_by_trans, lemma_loads_to_refl, loads_by, loads_to, lookup, lookup_from,
};
use crate::node::{lemma_node_of, node_of, Node};
use crate::path::{valid_path, PathComponent, RepoPath};
use crate::store::{
    answer_view, extends, lemma_extends_one, lemma_extends_refl, lemma_extends_trans, InnerStore, Read,
    StoreFault, TreeStore,
};
use vstd::prelude::*;
use vstd::std_specs::cmp::PartialEqSpecImpl;

verus! {

/// The child that a line of a stored directory stands for: a file, or a
/// stored directory that is not loaded.
pub open spec fn child_of_element(e: ElementView) -> ChildView {
    ChildView {
        name: e.name,
        link: match e.flag {
            Flag::Directory => LinkView::Durable(e.node, LazyView::Unloaded),
            Flag::File(t) => LinkView::Leaf(FileMetadata { node: node_of(e.node), file_type: t }),
        },
    }
}

/// The children that the lines of a stored directory stand for.
pub open spec fn children_of_elements(es: Seq<ElementView>) -> Seq<ChildView> {
    Seq::new(es.len(), |i: int| child_of_element(es[i]))
}

/// What the children of a stored directory become for an answer of the
/// store: loaded if the answer holds a readable directory, failed otherwise.
pub open spec fn cell_of(answer: Result<Seq<u8>, StoreFault>) -> LazyView {
    match answer {
        Err(StoreFault::NotFound) => LazyView::Failed(LoadFault::NotFound),
        Err(StoreFault::Io) => LazyView::Failed(LoadFault::Io),
        Ok(bytes) => match parse_entry(bytes) {
            Err(f) => LazyView::Failed(LoadFault::Malformed(f)),
            Ok(es) => LazyView::Loaded(children_of_elements(es)),
        },
    }
}

/// The error of a result replaced by its view.
pub open spec fn view_err<T>(r: Result<T, Error>) -> Result<T, ErrorView> {
    match r {
        Ok(v) => Ok(v),
        Err(e) => Err(e@),
    }
}

fn children_from_elements(elements: &Vec<Element>) -> (r: Vec<Child>)
    requires
        wf_elements(elements_view(elements@)),
    ensures
        children_view(r@) == children_of_elements(elements_view(elements@)),
        wf_children(children_view(r@)),
{
    let mut out: Vec<Child> = Vec::with_capacity(elements.len());
    let ghost es = elements_view(elements@);
    let mut i: usize = 0;
    while i < elements.len()
        invariant
            i <= elements@.len(),
            es == elements_view(elements@),
            out@.len() == i,
            forall|k: int| 0 <= k < i ==> (#[trigger] out@[k])@ == child_of_element(es[k]),
        decreases elements@.len() - i,
    {
        let e = &elements[i];
        let link = match e.flag {
            Flag::Directory => Link::Durable(DurableEntry { node: e.node, links: Lazy::Unloaded }),
            Flag::File(t) => Link::Leaf(FileMetadata { node: e.node, file_type: t }),
        };
        proof {
            lemma_node_of(e.node);
            assert(es[i as int] == e@);
        }
        out.push(Child { name: e.component.clone(), link });
        i += 1;
    }
    proof {
        let cv = children_view(out@);
        let target = children_of_elements(es);
        assert forall|k: int| 0 <= k < cv.len() implies cv[k] == target[k] by {
            assert(out@[k]@ == child_of_element(es[k]));
        }
        assert(cv =~= target);
        assert forall|a: int, b: int| 0 <= a < b < cv.len() implies crate::order::lex_lt(
            #[trigger] cv[a].name,
            #[trigger] cv[b].name,
        ) by {
            assert(crate::order::lex_lt(es[a].name, es[b].name));
        }
        assert forall|k: int| 0 <= k < cv.len() implies crate::path::valid_component(
            #[trigger] cv[k].name,
        ) by {
            assert(crate::path::valid_component(es[k].name));
        }
        assert forall|k: int| 0 <= k < cv.len() implies (#[trigger] cv[k]).link.wf() by {
            assert(es[k].node.len() == 20);
        }
    }
    out
}

/// Turns an answer of the store into the children of the stored directory
/// that was asked for.
pub fn hydrate(answer: Result<Vec<u8>, StoreFault>) -> (cell: Lazy)
    ensures
        cell@ == cell_of(answer_view(answer)),
        cell@ matches LazyView::Loaded(cs) ==> wf_children(cs),
        !(cell@ is Unloaded),
{
    match answer {
        Err(StoreFault::NotFound) => Lazy::Failed(LoadFault::NotFound),
        Err(StoreFault::Io) => Lazy::Failed(LoadFault::Io),
        Ok(bytes) => match parse(bytes.as_slice()) {
            Err(f) => Lazy::Failed(LoadFault::Malformed(f)),
            Ok(elements) => Lazy::Loaded(children_from_elements(&elements)),
        },
    }
}

/// The store was asked once more, for the directory at the path with the
/// hash, and the cell holds what its answer comes to.
pub open spec fn loaded_now(
    reads0: Seq<Read>,
    reads1: Seq<Read>,
    path: Seq<Seq<u8>>,
    node: Seq<u8>,
    cell: LazyView,
) -> bool {
    &&& reads1.len() == reads0.len() + 1
    &&& reads1.drop_last() == reads0
    &&& reads1.last().path == path
    &&& reads1.last().node == node
    &&& cell == cell_of(reads1.last().answer)
}

/// Asks the store for the children of a stored directory unless they were
/// asked for before.
pub(crate) fn load_entry<S: TreeStore>(entry: &mut DurableEntry, store: &mut InnerStore<S>, dir: &RepoPath)
    requires
        old(entry).node@.len() == 20,
        old(entry).links@ matches LazyView::Loaded(cs) ==> wf_children(cs),
    ensures
        final(store).written@ == old(store).written@,
        final(entry).node == old(entry).node,
        !(old(entry).links@ is Unloaded) ==> final(entry).links@ == old(entry).links@ && final(store).reads@
            == old(store).reads@,
        old(entry).links@ is Unloaded ==> loaded_now(
            old(store).reads@,
            final(store).reads@,
            dir@,
            old(entry).node@,
            final(entry).links@,
        ),
        !(final(entry).links@ is Unloaded),
        final(entry).links@ matches LazyView::Loaded(cs) ==> wf_children(cs),
{
    let unloaded = match &entry.links {
        Lazy::Unloaded => true,
        _ => false,
    };
    if unloaded {
        let answer = store.get(dir, &entry.node);
        entry.links = hydrate(answer);
        proof {
            assert(store.reads@.drop_last() =~= old(store).reads@);
        }
    }
}

/// The cell of a stored directory after it was asked for at request `at`
/// of the record, the request that comes next, and whether the request is
/// in the record and is for that directory. A cell that is loaded or
/// failed stays as it is, and nothing is asked.
pub open spec fn replay_cell(rs: Seq<Read>, at: int, dir: Seq<Seq<u8>>, node: Seq<u8>, lazy: LazyView) -> (
    LazyView,
    int,
    bool,
) {
    match lazy {
        LazyView::Unloaded => if 0 <= at < rs.len() {
            (cell_of(rs[at].answer), at + 1, rs[at].path == dir && rs[at].node == node)
        } else {
            (lazy, at + 1, false)
        },
        _ => (lazy, at, true),
    }
}

/// The link after the stored directories that a walk down the path from
/// component `i` on passes through were loaded, with `inclusive` also the
/// directory that the path names; the answers of the store are taken from
/// the record from request `at` on, one for each directory that was not
/// loaded. With it the request that comes next, and whether every request
/// is in the record and is for the directory at its place.
pub open spec fn replay_along(
    rs: Seq<Read>,
    at: int,
    l: LinkView,
    path: Seq<Seq<u8>>,
    i: int,
    inclusive: bool,
) -> (LinkView, int, bool)
    decreases path.len() - i, 1int,
{
    let here = i >= path.len();
    if i < 0 || (here && !inclusive) {
        (l, at, true)
    } else {
        match l {
            LinkView::Leaf(_) => (l, at, true),
            LinkView::Ephemeral(cs) => if here {
                (l, at, true)
            } else {
                let (cs2, next, asked) = replay_child(rs, at, cs, path, i, inclusive);
                (LinkView::Ephemeral(cs2), next, asked)
            },
            LinkView::Durable(n, lazy) => {
                let (cell, at2, asked) = replay_cell(rs, at, path.subrange(0, i), n, lazy);
                if here {
                    (LinkView::Durable(n, cell), at2, asked)
                } else {
                    match cell {
                        LazyView::Loaded(cs) => {
                            let (cs2, next, asked2) = replay_child(rs, at2, cs, path, i, inclusive);
                            (LinkView::Durable(n, LazyView::Loaded(cs2)), next, asked && asked2)
                        },
                        _ => (LinkView::Durable(n, cell), at2, asked),
                    }
                }
            },
        }
    }
}

/// `replay_along` below the child that component `i` of the path names.
pub open spec fn replay_child(
    rs: Seq<Read>,
    at: int,
    cs: Seq<ChildView>,
    path: Seq<Seq<u8>>,
    i: int,
    inclusive: bool,
) -> (Seq<ChildView>, int, bool)
    decreases path.len() - i, 0int,
{
    if i < 0 || i >= path.len() {
        (cs, at, true)
    } else {
        match find(cs, path[i]) {
            None => (cs, at, true),
            Some(k) => {
                let (l2, next, asked) = replay_along(rs, at, cs[k].link, path, i + 1, inclusive);
                (cs.update(k, ChildView { name: cs[k].name, link: l2 }), next, asked)
            },
        }
    }
}

/// Loading along a path again asks nothing and changes nothing: where `l`
/// is what `replay_along` gave, replaying from `l` gives `l` and takes no
/// request from the record.
pub proof fn lemma_replay_again(
    rs: Seq<Read>,
    at: int,
    l0: LinkView,
    path: Seq<Seq<u8>>,
    i: int,
    inclusive: bool,
    rs2: Seq<Read>,
    at2: int,
)
    requires
        replay_along(rs, at, l0, path, i, inclusive).2,
    ensures
        replay_along(rs2, at2, replay_along(rs, at, l0, path, i, inclusive).0, path, i, inclusive) == (
            replay_along(rs, at, l0, path, i, inclusive).0,
            at2,
            true,
        ),
    decreases path.len() - i, 1int,
{
    let here = i >= path.len();
    if i < 0 || (here && !inclusive) {
    } else {
        match l0 {
            LinkView::Leaf(_) => {},
            LinkView::Ephemeral(cs) => {
                if !here {
                    lemma_replay_child_again(rs, at, cs, path, i, inclusive, rs2, at2);
                }
            },
            LinkView::Durable(n, lazy) => {
                let (cell, at1, asked) = replay_cell(rs, at, path.subrange(0, i), n, lazy);
                if !here {
                    match cell {
                        LazyView::Loaded(cs) => {
                            lemma_replay_child_again(rs, at1, cs, path, i, inclusive, rs2, at2);
                        },
                        _ => {},
                    }
                }
            },
        }
    }
}

/// `lemma_replay_again` for the children of a directory.
pub proof fn lemma_replay_child_again(
    rs: Seq<Read>,
    at: int,
    cs: Seq<ChildView>,
    path: Seq<Seq<u8>>,
    i: int,
    inclusive: bool,
    rs2: Seq<Read>,
    at2: int,
)
    requires
        replay_child(rs, at, cs, path, i, inclusive).2,
    ensures
        replay_child(rs2, at2, replay_child(rs, at, cs, path, i, inclusive).0, path, i, inclusive) == (
            replay_child(rs, at, cs, path, i, inclusive).0,
            at2,
            true,
        ),
    decreases path.len() - i, 0int,
{
    if 0 <= i < path.len() {
        match find(cs, path[i]) {
            None => {},
            Some(k) => {
                crate::link::lemma_find(cs, path[i]);
                let l2 = replay_along(rs, at, cs[k].link, path, i + 1, inclusive).0;
                let c2 = ChildView { name: cs[k].name, link: l2 };
                let cs2 = cs.update(k, c2);
                crate::lookup::lemma_find_from_same_names(cs, cs2, path[i], 0);
                lemma_replay_again(rs, at, cs[k].link, path, i + 1, inclusive, rs2, at2);
                assert(cs2.update(k, c2) =~= cs2);
            },
        }
    }
}

/// Loads the stored directories that a walk down the path passes through;
/// with `inclusive`, also the directory that the path names.
pub(crate) fn load_along<S: TreeStore>(
    link: &mut Link,
    store: &mut InnerStore<S>,
    path: &RepoPath,
    depth: usize,
    inclusive: bool,
)
    requires
        old(link)@.wf(),
        depth <= path@.len(),
    ensures
        final(store).written@ == old(store).written@,
        final(link)@.wf(),
        loads_to(old(link)@, final(link)@),
        extends(old(store).reads@, final(store).reads@),
        loads_by(old(link)@, final(link)@, path@.subrange(0, depth as int), final(store).reads@),
        replay_along(
            final(store).reads@,
            old(store).reads@.len() as int,
            old(link)@,
            path@,
            depth as int,
            inclusive,
        ) == (final(link)@, final(store).reads@.len() as int, true),
        !(lookup_from(final(link)@, path@, depth as int) is Unloaded),
        inclusive ==> !(lookup_from(final(link)@, path@, depth as int) matches Found::Dir(
            LinkView::Durable(_, LazyView::Unloaded),
        )),
    decreases path@.len() - depth, 1int,
{
    let ghost r0 = store.reads@;
    let ghost at = path@.subrange(0, depth as int);
    proof {
        lemma_extends_refl(r0);
        lemma_loads_by_refl(link@, at, r0);
    }
    let here = depth >= path.len();
    if here && !inclusive {
        proof {
            lemma_loads_to_refl(link@);
        }
        return ;
    }
    match link {
        Link::Leaf(_) => {
            proof {
                lemma_loads_to_refl(old(link)@);
            }
        },
        Link::Ephemeral(cs) => {
            if !here {
                load_child(cs, store, path, depth, inclusive);
            } else {
                proof {
                    lemma_loads_to_refl(old(link)@);
                }
            }
        },
        Link::Durable(entry) => {
            let dir = path.prefix(depth);
            load_entry(entry, store, &dir);
            let ghost r1 = store.reads@;
            let ghost mid = LinkView::Durable(entry.node@, entry.links@);
            proof {
                if old(link)@->Durable_1 is Unloaded {
                    lemma_extends_one(r0, r1);
                    lemma_loaded_by_last(entry.node@, at, r1);
                } else {
                    lemma_loads_by_refl(mid, at, r1);
                }
            }
            if !here {
                match &mut entry.links {
                    Lazy::Loaded(cs) => {
                        load_child(cs, store, path, depth, inclusive);
                        proof {
                            lemma_extends_trans(r0, r1, store.reads@);
                            lemma_loads_by_more(old(link)@, mid, at, r1, store.reads@);
                            lemma_loads_by_trans(old(link)@, mid, link@, at, store.reads@);
                        }
                    },
                    _ => {},
                }
            } else {
                proof {
                    match old(link)@ {
                        LinkView::Durable(_, LazyView::Loaded(ca)) => {
                            lemma_kids_load_to_refl(ca);
                        },
                        _ => {},
                    }
                }
            }
        },
    }
}

/// Goes on loading below the child that the next component names.
fn load_child<S: TreeStore>(
    cs: &mut Vec<Child>,
    store: &mut InnerStore<S>,
    path: &RepoPath,
    depth: usize,
    inclusive: bool,
)
    requires
        wf_children(children_view(old(cs)@)),
        depth < path@.len(),
    ensures
        final(store).written@ == old(store).written@,
        wf_children(children_view(final(cs)@)),
        kids_load_to(children_view(old(cs)@), children_view(final(cs)@)),
        extends(old(store).reads@, final(store).reads@),
        kids_load_by(
            children_view(old(cs)@),
            children_view(final(cs)@),
            path@.subrange(0, depth as int),
            final(store).reads@,
        ),
        replay_child(
            final(store).reads@,
            old(store).reads@.len() as int,
            children_view(old(cs)@),
            path@,
            depth as int,
            inclusive,
        ) == (children_view(final(cs)@), final(store).reads@.len() as int, true),
        match find(children_view(final(cs)@), path@[depth as int]) {
            None => true,
            Some(k) => {
                let f = lookup_from(children_view(final(cs)@)[k].link, path@, depth + 1);
                &&& !(f is Unloaded)
                &&& inclusive ==> !(f matches Found::Dir(LinkView::Durable(_, LazyView::Unloaded)))
            },
        },
    decreases path@.len() - depth, 0int,
{
    let ghost before = children_view(cs@);
    let ghost r0 = store.reads@;
    let ghost at = path@.subrange(0, depth as int);
    proof {
        lemma_extends_refl(r0);
        lemma_kids_load_by_refl(before, at, r0);
    }
    let n = path.len();
    let (found, k) = search(cs, path.component(depth).as_bytes());
    if found {
        let child = &mut cs[k];
        assert(child@ == before[k as int]);
        load_along(&mut child.link, store, path, depth + 1, inclusive);
        proof {
            let after = children_view(cs@);
            let c = cs@[k as int]@;
            assert(after =~= before.update(k as int, c));
            lemma_kids_update(before, k as int, c);
            assert(at.push(c.name) =~= path@.subrange(0, depth + 1));
            lemma_kids_load_by_step(before, before, k as int, c, at, r0, store.reads@);
        }
    } else {
        proof {
            lemma_kids_load_to_refl(before);
        }
    }
}

/// Where a walk through the directories in memory ended.
#[derive(Debug)]
pub enum Walked<'a> {
    /// A component names nothing in its directory.
    Missing,
    /// A file stands at the given number of components, and the path goes on.
    Blocked(usize),
    /// The path names this link.
    At(&'a Link),
}

/// Walks down the path through directories that are in memory.
pub(crate) fn walk<'a>(link: &'a Link, path: &RepoPath, depth: usize) -> (r: Result<Walked<'a>, Error>)
    requires
        link@.wf(),
        depth <= path@.len(),
        !(lookup_from(link@, path@, depth as int) is Unloaded),
    ensures
        match lookup_from(link@, path@, depth as int) {
            Found::File(m) => r matches Ok(Walked::At(l)) && l@ == LinkView::Leaf(m),
            Found::Dir(d) => r matches Ok(Walked::At(l)) && l@ == d && d.is_dir(),
            Found::Failed { at, node, fault } => r is Err && r.unwrap_err()@ == load_error(
                path@.subrange(0, at),
                node,
                fault,
            ) && depth <= at < path@.len(),
            Found::Blocked { at } => r matches Ok(Walked::Blocked(n)) && n == at && depth <= at
                < path@.len(),
            Found::Missing => r matches Ok(Walked::Missing),
            Found::Unloaded { .. } => false,
        },
    decreases path@.len() - depth,
{
    let n = path.len();
    if depth >= n {
        return Ok(Walked::At(link));
    }
    let cs = match link {
        Link::Leaf(_) => {
            return Ok(Walked::Blocked(depth));
        },
        Link::Ephemeral(cs) => cs,
        Link::Durable(entry) => match &entry.links {
            Lazy::Loaded(cs) => cs,
            Lazy::Failed(f) => {
                let dir = path.prefix(depth);
                return Err(Error::from_load(&dir, &entry.node, *f));
            },
            Lazy::Unloaded => {
                return Ok(Walked::Missing);
            },
        },
    };
    assert(children_view(cs@) == link@.children());
    let (found, k) = search(cs, path.component(depth).as_bytes());
    if found {
        proof {
            let cv = children_view(cs@);
            assert(cv[k as int].link.wf());
            assert(cv[k as int].link == cs@[k as int].link@);
        }
        walk(&cs[k].link, path, depth + 1)
    } else {
        Ok(Walked::Missing)
    }
}

/// A tree of files and directories: the state of the files of one commit.
#[derive(Debug)]
pub struct Tree {
    pub root: Link,
}

impl Clone for Tree {
    fn clone(&self) -> (r: Self)
        ensures
            r.root@ == self.root@,
    {
        Tree { root: crate::link::clone_link(&self.root) }
    }
}

/// What `list` answers for a path.
#[derive(Debug)]
pub enum List {
    NotFound,
    File,
    Directory(Vec<PathComponent>),
}

/// The mathematical content of a `List`.
pub ghost enum ListView {
    NotFound,
    File,
    Directory(Seq<Seq<u8>>),
}

impl View for List {
    type V = ListView;

    open spec fn view(&self) -> ListView {
        match self {
            List::NotFound => ListView::NotFound,
            List::File => ListView::File,
            List::Directory(names) => ListView::Directory(Seq::new(names@.len(), |i: int| names@[i]@)),
        }
    }
}

impl List {
    /// Tells whether two answers are the same.
    pub fn same(&self, other: &List) -> (r: bool)
        ensures
            r == (self@ == other@),
    {
        match self {
            List::NotFound => match other {
                List::NotFound => true,
                _ => false,
            },
            List::File => match other {
                List::File => true,
                _ => false,
            },
            List::Directory(a) => match other {
                List::Directory(b) => {
                    let ghost sa = self@->Directory_0;
                    let ghost sb = other@->Directory_0;
                    if a.len() != b.len() {
                        assert(sa.len() != sb.len());
                        return false;
                    }
                    let mut i: usize = 0;
                    while i < a.len()
                        invariant
                            i <= a@.len(),
                            a@.len() == b@.len(),
                            forall|k: int| 0 <= k < i ==> a@[k]@ == b@[k]@,
                            sa == Seq::new(a@.len(), |k: int| a@[k]@),
                            sb == Seq::new(b@.len(), |k: int| b@[k]@),
                            sa == self@->Directory_0,
                            sb == other@->Directory_0,
                            self@ is Directory,
                            other@ is Directory,
                        decreases a@.len() - i,
                    {
                        if !a[i].same(&b[i]) {
                            assert(sa[i as int] != sb[i as int]);
                            return false;
                        }
                        i += 1;
                    }
                    assert(sa =~= sb);
                    true
                },
                _ => false,
            },
        }
    }
}

impl PartialEq for List {
    fn eq(&self, other: &List) -> (r: bool) {
        self.same(other)
    }
}

impl PartialEqSpecImpl for List {
    open spec fn obeys_eq_spec() -> bool {
        true
    }

    open spec fn eq_spec(&self, other: &List) -> bool {
        self@ == other@
    }
}

/// The names of the children of a directory, in order.
pub open spec fn names_of(cs: Seq<ChildView>) -> Seq<Seq<u8>> {
    Seq::new(cs.len(), |i: int| cs[i].name)
}

/// What `list` answers for the outcome of a walk.
pub open spec fn list_answer(f: Found, path: Seq<Seq<u8>>) -> Result<ListView, ErrorView> {
    match f {
        Found::File(_) => Ok(ListView::File),
        Found::Dir(LinkView::Durable(node, LazyView::Failed(fault))) => Err(
            load_error(path, node, fault),
        ),
        Found::Dir(d) => Ok(ListView::Directory(names_of(d.children()))),
        Found::Failed { at, node, fault } => Err(load_error(path.subrange(0, at), node, fault)),
        _ => Ok(ListView::NotFound),
    }
}

/// What `get_file` answers for the outcome of a walk.
pub open spec fn file_answer(f: Found, path: Seq<Seq<u8>>) -> Result<Option<FileMetadata>, ErrorView> {
    match f {
        Found::File(m) => Ok(Some(m)),
        Found::Failed { at, node, fault } => Err(load_error(path.subrange(0, at), node, fault)),
        _ => Ok(None),
    }
}

impl Tree {
    /// Validity of a tree: the root is a directory, and all that is in
    /// memory is valid.
    pub open spec fn wf(&self) -> bool {
        self.root@.wf() && self.root@.is_dir()
    }

    /// A tree without files that has no hash yet.
    pub fn ephemeral() -> (r: Tree)
        ensures
            r.root@ == LinkView::Ephemeral(Seq::empty()),
            r.wf(),
    {
        let r = Tree { root: Link::Ephemeral(Vec::new()) };
        assert(r.root@->Ephemeral_0 =~= Seq::empty());
        r
    }

    /// The tree that is stored under the given hash. Nothing of it is loaded.
    pub fn durable(node: Node) -> (r: Tree)
        ensures
            r.root@ == LinkView::Durable(node@, LazyView::Unloaded),
            r.wf(),
    {
        Tree { root: Link::Durable(DurableEntry { node, links: Lazy::Unloaded }) }
    }

    /// Tells what stands at the path: a file, a directory, or nothing. A
    /// path that runs through a file names nothing.
    ///
    /// Stored directories on the way are loaded first, each at most once in
    /// the life of the tree: the store is asked once for each that was not
    /// asked for before, in the order of the walk, and the tree holds what
    /// its answers come to; see `replay_along`. The answer is read off the
    /// tree as it stands after that. A directory that failed to load fails
    /// every walk through it, and is not asked for again.
    pub fn get<S: TreeStore>(&mut self, store: &mut InnerStore<S>, path: &RepoPath) -> (r: Result<
        Option<FsNode>,
        Error,
    >)
        requires
            old(self).wf(),
        ensures
            extends(old(store).reads@, final(store).reads@),
            loads_by(old(self).root@, final(self).root@, Seq::empty(), final(store).reads@),
            replay_along(final(store).reads@, old(store).reads@.len() as int, old(self).root@, path@, 0, false)
                == (final(self).root@, final(store).reads@.len() as int, true),
            final(store).written@ == old(store).written@,
            final(self).wf(),
            loads_to(old(self).root@, final(self).root@),
            !(lookup(final(self).root@, path@) is Unloaded),
            view_err(r) == get_answer(lookup(final(self).root@, path@), path@),
    {
        load_along(&mut self.root, store, path, 0, false);
        assert(path@.subrange(0, 0) =~= Seq::<Seq<u8>>::empty());
        match walk(&self.root, path, 0) {
            Err(e) => Err(e),
            Ok(Walked::At(link)) => match link {
                Link::Leaf(m) => Ok(Some(FsNode::File(*m))),
                _ => Ok(Some(FsNode::Directory)),
            },
            Ok(_) => Ok(None),
        }
    }

    /// The record of the file at the path; `None` where the path names a
    /// directory or nothing.
    pub fn get_file<S: TreeStore>(&mut self, store: &mut InnerStore<S>, path: &RepoPath) -> (r: Result<
        Option<FileMetadata>,
        Error,
    >)
        requires
            old(self).wf(),
        ensures
            extends(old(store).reads@, final(store).reads@),
            loads_by(old(self).root@, final(self).root@, Seq::empty(), final(store).reads@),
            replay_along(final(store).reads@, old(store).reads@.len() as int, old(self).root@, path@, 0, false)
                == (final(self).root@, final(store).reads@.len() as int, true),
            final(store).written@ == old(store).written@,
            final(self).wf(),
            loads_to(old(self).root@, final(self).root@),
            !(lookup(final(self).root@, path@) is Unloaded),
            view_err(r) == file_answer(lookup(final(self).root@, path@), path@),
    {
        load_along(&mut self.root, store, path, 0, false);
        assert(path@.subrange(0, 0) =~= Seq::<Seq<u8>>::empty());
        match walk(&self.root, path, 0) {
            Err(e) => Err(e),
            Ok(Walked::At(link)) => match link {
                Link::Leaf(m) => Ok(Some(*m)),
                _ => Ok(None),
            },
            Ok(_) => Ok(None),
        }
    }

    /// The names in the directory at the path, in byte order; or that the
    /// path names a file, or nothing.
    pub fn list<S: TreeStore>(&mut self, store: &mut InnerStore<S>, path: &RepoPath) -> (r: Result<
        List,
        Error,
    >)
        requires
            old(self).wf(),
        ensures
            extends(old(store).reads@, final(store).reads@),
            loads_by(old(self).root@, final(self).root@, Seq::empty(), final(store).reads@),
            replay_along(final(store).reads@, old(store).reads@.len() as int, old(self).root@, path@, 0, true)
                == (final(self).root@, final(store).reads@.len() as int, true),
            final(store).written@ == old(store).written@,
            final(self).wf(),
            loads_to(old(self).root@, final(self).root@),
            !(lookup(final(self).root@, path@) is Unloaded),
            !(lookup(final(self).root@, path@) matches Found::Dir(
                LinkView::Durable(_, LazyView::Unloaded),
            )),
            match list_answer(lookup(final(self).root@, path@), path@) {
                Ok(l) => r is Ok && r.unwrap()@ == l,
                Err(e) => r is Err && r.unwrap_err()@ == e,
            },
    {
        load_along(&mut self.root, store, path, 0, true);
        assert(path@.subrange(0, 0) =~= Seq::<Seq<u8>>::empty());
        let link = match walk(&self.root, path, 0) {
            Err(e) => {
                return Err(e);
            },
            Ok(Walked::At(link)) => link,
            Ok(_) => {
                return Ok(List::NotFound);
            },
        };
        let cs = match link {
            Link::Leaf(_) => {
                return Ok(List::File);
            },
            Link::Ephemeral(cs) => cs,
            Link::Durable(entry) => match &entry.links {
                Lazy::Loaded(cs) => cs,
                Lazy::Failed(f) => {
                    return Err(Error::from_load(path, &entry.node, *f));
                },
                Lazy::Unloaded => {
                    return Ok(List::NotFound);
                },
            },
        };
        let mut names: Vec<PathComponent> = Vec::with_capacity(cs.len());
        let mut i: usize = 0;
        while i < cs.len()
            invariant
                store.written@ == old(store).written@,
                i <= cs@.len(),
                names@.len() == i,
                forall|k: int| 0 <= k < i ==> names@[k]@ == cs@[k].name@,
            decreases cs@.len() - i,
        {
            names.push(cs[i].name.clone());
            i += 1;
        }
        let r = List::Directory(names);
        assert(r@->Directory_0 =~= names_of(children_view(cs@)));
        Ok(r)
    }
}

/// Turns a stored directory whose children are in memory into a directory
/// without a hash; any other link stays as it is.
fn make_ephemeral(link: &mut Link)
    ensures
        old(link)@.is_loaded_dir() ==> final(link)@ == LinkView::Ephemeral(old(link)@.children()),
        !old(link)@.is_loaded_dir() ==> final(link)@ == old(link)@,
{
    let mut taken = Link::Ephemeral(Vec::new());
    core::mem::swap(link, &mut taken);
    match taken {
        Link::Durable(entry) => {
            let DurableEntry { node, links } = entry;
            match links {
                Lazy::Loaded(cs) => {
                    *link = Link::Ephemeral(cs);
                },
                other => {
                    *link = Link::Durable(DurableEntry { node, links: other });
                },
            }
        },
        other => {
            *link = other;
        },
    }
}

/// Builds the chain of directories that holds one file at the rest of the
/// path.
fn build_chain(path: &RepoPath, depth: usize, meta: FileMetadata) -> (r: Link)
    requires
        depth <= path@.len(),
    ensures
        r@ == chain(path@, depth as int, meta),
{
    let mut link = Link::Leaf(meta);
    let mut i: usize = path.len();
    while i > depth
        invariant
            depth <= i <= path@.len(),
            link@ == chain(path@, i as int, meta),
        decreases i,
    {
        i -= 1;
        let child = Child { name: path.component(i).clone(), link };
        let mut cs: Vec<Child> = Vec::with_capacity(1);
        cs.push(child);
        link = Link::Ephemeral(cs);
        proof {
            let c = ChildView { name: path@[i as int], link: chain(path@, i + 1, meta) };
            assert(link@->Ephemeral_0 =~= seq![c]);
        }
    }
    link
}

/// Puts the file at the rest of the path below `link`.
fn insert_below(link: &mut Link, path: &RepoPath, depth: usize, meta: FileMetadata)
    requires
        old(link)@.wf(),
        valid_path(path@),
        depth <= path@.len(),
        lookup_from(old(link)@, path@, depth as int) is Missing || lookup_from(
            old(link)@,
            path@,
            depth as int,
        ) is File,
    ensures
        final(link)@ == inserted(old(link)@, path@, depth as int, meta),
        final(link)@.wf(),
    decreases path@.len() - depth,
{
    let n = path.len();
    if depth >= n {
        *link = Link::Leaf(meta);
        return ;
    }
    let ghost before = old(link)@.children();
    assert(old(link)@.is_loaded_dir());
    make_ephemeral(link);
    match link {
        Link::Ephemeral(cs) => {
            assert(children_view(cs@) == before);
            let name = path.component(depth);
            let (found, k) = search(cs, name.as_bytes());
            if found {
                let child = &mut cs[k];
                assert(child@ == before[k as int]);
                assert(before[k as int].link.wf());
                insert_below(&mut child.link, path, depth + 1, meta);
                proof {
                    let c = cs@[k as int]@;
                    assert(children_view(cs@) =~= before.update(k as int, c));
                    lemma_update_wf(before, k as int, c);
                }
            } else {
                let sub = build_chain(path, depth + 1, meta);
                let child = Child { name: name.clone(), link: sub };
                proof {
                    lemma_chain(path@, depth + 1, meta, path@);
                    lemma_insert_wf(before, child@);
                }
                let ghost c = child@;
                cs.insert(k, child);
                assert(children_view(cs@) =~= before.insert(k as int, c));
            }
        },
        _ => {},
    }
}

impl Tree {
    /// Puts a file at the path. Directories on the way are made as needed,
    /// and every directory on the way loses its hash. Nothing changes where
    /// the same file stands there already.
    ///
    /// Fails with `PathConflict` of kind `File` where a component before the
    /// last names a file, and of kind `Dir` where the whole path names a
    /// directory; the root path always does.
    pub fn insert<S: TreeStore>(
        &mut self,
        store: &mut InnerStore<S>,
        path: RepoPath,
        meta: FileMetadata,
    ) -> (r: Result<(), Error>)
        requires
            old(self).wf(),
            path.wf(),
        ensures
            final(store).written@ == old(store).written@,
            final(self).wf(),
            insert_post(old(self).root@, path@, meta, view_err(r), final(self).root@),
            extends(old(store).reads@, final(store).reads@),
            ({
                let h = replay_along(
                    final(store).reads@,
                    old(store).reads@.len() as int,
                    old(self).root@,
                    path@,
                    0,
                    false,
                );
                &&& h.1 == final(store).reads@.len()
                &&& h.2
                &&& match insert_outcome(h.0, path@, meta) {
                    Ok(t) => r is Ok && final(self).root@ == t,
                    Err(e) => view_err(r) == Err::<(), ErrorView>(e) && final(self).root@ == h.0,
                }
            }),
    {
        load_along(&mut self.root, store, &path, 0, false);
        assert(path@.subrange(0, 0) =~= Seq::<Seq<u8>>::empty());
        let ghost h = self.root@;
        let replace = match walk(&self.root, &path, 0) {
            Err(e) => {
                assert(loads_to(old(self).root@, h));
                return Err(e);
            },
            Ok(Walked::Blocked(at)) => {
                let e = Error::PathConflict {
                    kind: ConflictKind::File,
                    at: path.prefix(at),
                    path,
                };
                assert(loads_to(old(self).root@, h));
                return Err(e);
            },
            Ok(Walked::Missing) => true,
            Ok(Walked::At(link)) => match link {
                Link::Leaf(m) => !m.same(&meta),
                _ => {
                    let e = Error::PathConflict { kind: ConflictKind::Dir, at: path.clone(), path };
                    assert(loads_to(old(self).root@, h));
                    return Err(e);
                },
            },
        };
        if replace {
            insert_below(&mut self.root, &path, 0, meta);
        }
        assert(loads_to(old(self).root@, h));
        Ok(())
    }
}

/// Takes the file at the rest of the path out of the directory `link`, and
/// with it every directory below that is left without children. Tells
/// whether `link` itself is left without children.
fn remove_below(link: &mut Link, path: &RepoPath, depth: usize) -> (empty: bool)
    requires
        old(link)@.wf(),
        depth < path@.len(),
        lookup_from(old(link)@, path@, depth as int) is File,
    ensures
        final(link)@ == removed(old(link)@, path@, depth as int),
        final(link)@.wf(),
        final(link)@ is Ephemeral,
        empty == (final(link)@.children().len() == 0),
    decreases path@.len() - depth,
{
    let n = path.len();
    let ghost before = old(link)@.children();
    assert(old(link)@.is_loaded_dir());
    make_ephemeral(link);
    match link {
        Link::Ephemeral(cs) => {
            assert(children_view(cs@) == before);
            let (found, k) = search(cs, path.component(depth).as_bytes());
            if found {
                let ghost gone = before.remove(k as int);
                proof {
                    lemma_remove_wf(before, k as int);
                }
                if depth + 1 >= n {
                    cs.remove(k);
                    assert(children_view(cs@) =~= gone);
                } else {
                    let child = &mut cs[k];
                    assert(child@ == before[k as int]);
                    assert(before[k as int].link.wf());
                    let sub_empty = remove_below(&mut child.link, path, depth + 1);
                    let ghost c = cs@[k as int]@;
                    assert(children_view(cs@) =~= before.update(k as int, c));
                    if sub_empty {
                        cs.remove(k);
                        assert(children_view(cs@) =~= gone);
                    } else {
                        proof {
                            lemma_update_wf(before, k as int, c);
                        }
                    }
                }
            }
            cs.len() == 0
        },
        _ => false,
    }
}

impl Tree {
    /// Takes the file at the path out of the tree and returns its record.
    /// Every directory on the way loses its hash, and a directory that is
    /// left without children is taken out as well; the root always stays.
    /// Where the path names a directory or nothing, nothing changes and the
    /// answer is `None`.
    pub fn remove<S: TreeStore>(&mut self, store: &mut InnerStore<S>, path: &RepoPath) -> (r: Result<
        Option<FileMetadata>,
        Error,
    >)
        requires
            old(self).wf(),
        ensures
            final(store).written@ == old(store).written@,
            final(self).wf(),
            remove_post(old(self).root@, path@, view_err(r), final(self).root@),
            extends(old(store).reads@, final(store).reads@),
            ({
                let h = replay_along(
                    final(store).reads@,
                    old(store).reads@.len() as int,
                    old(self).root@,
                    path@,
                    0,
                    false,
                );
                &&& h.1 == final(store).reads@.len()
                &&& h.2
                &&& match remove_outcome(h.0, path@) {
                    Ok((taken, t)) => view_err(r) == Ok::<Option<FileMetadata>, ErrorView>(taken)
                        && final(self).root@ == t,
                    Err(e) => view_err(r) == Err::<Option<FileMetadata>, ErrorView>(e) && final(self).root@
                        == h.0,
                }
            }),
    {
        load_along(&mut self.root, store, path, 0, false);
        assert(path@.subrange(0, 0) =~= Seq::<Seq<u8>>::empty());
        let ghost h = self.root@;
        assert(loads_to(old(self).root@, h));
        let meta = match walk(&self.root, path, 0) {
            Err(e) => {
                return Err(e);
            },
            Ok(Walked::At(link)) => match link {
                Link::Leaf(m) => *m,
                _ => {
                    return Ok(None);
                },
            },
            Ok(_) => {
                return Ok(None);
            },
        };
        remove_below(&mut self.root, path, 0);
        Ok(Some(meta))
    }
}

} // verus!
