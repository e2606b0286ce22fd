use crate::error::{load_error, Error, ErrorView, Violation};
use crate::link::{children_view, rank, search, ChildView, Lazy, LazyView, Link, LinkView};
use crate::lookup::{loads_to, lookup, Found};
use crate::path::RepoPath;
use crate::store::{extends, InnerStore, TreeStore};
use crate::tree::{load_along, replay_along, walk, Tree, Walked};
use vstd::prelude::*;

verus! {

/// What a cursor does at its next step.
#[derive(Clone, Copy, Debug, PartialEq, Eq, Structural)]
pub enum Mode {
    /// It was not moved yet: the first step goes to the root.
    Init,
    /// It stands at a directory and goes into it.
    Descend,
    /// It goes on past what it stands at.
    Advance,
    /// It reached the end, or an error.
    Done,
}

/// A place in the walk through a tree that goes through every directory
/// before its children, and through the children in the order of their
/// names.
#[derive(Debug)]
pub struct Cursor {
    pub path: RepoPath,
    pub mode: Mode,
}

/// What a step of a cursor came to.
#[derive(Debug)]
pub enum Step {
    /// The cursor stands at the next link.
    Success,
    /// The walk is over.
    End,
    /// A directory could not be loaded; the walk is over.
    Failed(Error),
}

/// The mathematical content of a `Step`.
pub ghost enum StepView {
    Success,
    End,
    Failed(ErrorView),
}

impl View for Step {
    type V = StepView;

    open spec fn view(&self) -> StepView {
        match self {
            Step::Success => StepView::Success,
            Step::End => StepView::End,
            Step::Failed(e) => StepView::Failed(e@),
        }
    }
}

/// The mathematical content of a `Cursor`.
pub ghost struct CursorView {
    pub path: Seq<Seq<u8>>,
    pub mode: Mode,
}

impl View for Cursor {
    type V = CursorView;

    open spec fn view(&self) -> CursorView {
        CursorView { path: self.path@, mode: self.mode }
    }
}

/// The children of the directory at the path, as far as it is a directory in
/// memory.
pub open spec fn children_at(root: LinkView, path: Seq<Seq<u8>>) -> Seq<ChildView> {
    match lookup(root, path) {
        Found::Dir(d) => d.children(),
        _ => Seq::empty(),
    }
}

/// The name that follows `name` in the directory at `parent`.
pub open spec fn next_sibling(root: LinkView, parent: Seq<Seq<u8>>, name: Seq<u8>) -> Option<Seq<u8>> {
    let cs = children_at(root, parent);
    let k = rank(cs, name);
    let k2 = if 0 <= k < cs.len() && cs[k].name == name {
        k + 1
    } else {
        k
    };
    if 0 <= k2 < cs.len() {
        Some(cs[k2].name)
    } else {
        None
    }
}

/// The path that follows the first `n` components of `path` in the walk,
/// and all below them: the next name in the nearest directory above that has
/// one.
pub open spec fn advance(root: LinkView, path: Seq<Seq<u8>>, n: int) -> Option<Seq<Seq<u8>>>
    decreases n,
{
    if n <= 0 || n > path.len() {
        None
    } else {
        match next_sibling(root, path.subrange(0, n - 1), path[n - 1]) {
            Some(name) => Some(path.subrange(0, n - 1).push(name)),
            None => advance(root, path, n - 1),
        }
    }
}

/// What a cursor does next when it stands at the path: it goes into a
/// directory, and past anything else.
pub open spec fn mode_at(root: LinkView, path: Seq<Seq<u8>>) -> Mode {
    match lookup(root, path) {
        Found::Dir(_) => Mode::Descend,
        _ => Mode::Advance,
    }
}

/// Where a cursor that goes on past the path stands next.
pub open spec fn moved_on(root: LinkView, path: Seq<Seq<u8>>) -> (CursorView, StepView) {
    match advance(root, path, path.len() as int) {
        Some(p) => (CursorView { path: p, mode: mode_at(root, p) }, StepView::Success),
        None => (CursorView { path, mode: Mode::Done }, StepView::End),
    }
}

/// One step of a cursor in the tree.
///
/// - The first step goes to the root.
/// - From a directory the cursor goes to its first child; past the
///   directory where it has none. A directory that failed to load ends the
///   walk with its error.
/// - Past a link the cursor goes to the next name in the same directory, or
///   in the nearest directory above that has one; the walk ends where there
///   is none.
pub open spec fn cursor_step(root: LinkView, c: CursorView) -> (CursorView, StepView) {
    match c.mode {
        Mode::Done => (c, StepView::End),
        Mode::Init => (CursorView { path: Seq::empty(), mode: Mode::Descend }, StepView::Success),
        Mode::Advance => moved_on(root, c.path),
        Mode::Descend => match lookup(root, c.path) {
            Found::Failed { at, node, fault } => (
                CursorView { path: c.path, mode: Mode::Done },
                StepView::Failed(load_error(c.path.subrange(0, at), node, fault)),
            ),
            Found::Dir(LinkView::Durable(node, LazyView::Failed(fault))) => (
                CursorView { path: c.path, mode: Mode::Done },
                StepView::Failed(load_error(c.path, node, fault)),
            ),
            Found::Dir(d) => if d.children().len() > 0 {
                if c.path.len() >= usize::MAX {
                    (
                        CursorView { path: c.path, mode: Mode::Done },
                        StepView::Failed(ErrorView::InvariantViolated(Violation::PathTooLong)),
                    )
                } else {
                    let p = c.path.push(d.children()[0].name);
                    (CursorView { path: p, mode: mode_at(root, p) }, StepView::Success)
                }
            } else {
                moved_on(root, c.path)
            },
            _ => moved_on(root, c.path),
        },
    }
}

/// The children of a link as far as it is a directory in memory.
fn loaded_children(link: &Link) -> (r: Option<&Vec<crate::link::Child>>)
    ensures
        match r {
            Some(cs) => link@.is_loaded_dir() && children_view(cs@) == link@.children(),
            None => !link@.is_loaded_dir(),
        },
{
    match link {
        Link::Ephemeral(cs) => Some(cs),
        Link::Durable(entry) => match &entry.links {
            Lazy::Loaded(cs) => Some(cs),
            _ => None,
        },
        Link::Leaf(_) => None,
    }
}

impl Cursor {
    /// A cursor before its first step.
    pub fn new() -> (r: Cursor)
        ensures
            r@ == (CursorView { path: Seq::empty(), mode: Mode::Init }),
    {
        Cursor { path: RepoPath::new(), mode: Mode::Init }
    }

    /// The path that the cursor stands at.
    pub fn path(&self) -> (r: &RepoPath)
        ensures
            r@ == self@.path,
    {
        &self.path
    }

    /// Tells whether the walk is over.
    pub fn finished(&self) -> (r: bool)
        ensures
            r == (self@.mode == Mode::Done),
    {
        self.mode == Mode::Done
    }

    /// Makes the next step go past what the cursor stands at, and all below
    /// it. Before the first step this ends the walk.
    pub fn skip_subtree(&mut self)
        ensures
            final(self)@.path == old(self)@.path,
            final(self)@.mode == (match old(self)@.mode {
                Mode::Init => Mode::Done,
                Mode::Descend => Mode::Advance,
                other => other,
            }),
    {
        match self.mode {
            Mode::Init => {
                self.mode = Mode::Done;
            },
            Mode::Descend => {
                self.mode = Mode::Advance;
            },
            _ => {},
        }
    }

    /// Goes on past the path that the cursor stands at.
    fn move_on(&mut self, root: &Link) -> (r: Step)
        requires
            root@.wf(),
            forall|n: int|
                0 <= n < old(self)@.path.len() ==> !(lookup(root@, #[trigger] old(self)@.path.subrange(0, n)) is Unloaded),
        ensures
            (final(self)@, r@) == moved_on(root@, old(self)@.path),
    {
        let ghost path0 = self.path@;
        let mut n = self.path.len();
        while n > 0
            invariant
                n <= path0.len(),
                root@.wf(),
                path0 == old(self)@.path,
                self.path@ == path0,
                forall|k: int| 0 <= k < path0.len() ==> !(lookup(root@, #[trigger] path0.subrange(0, k)) is Unloaded),
                advance(root@, path0, path0.len() as int) == advance(root@, path0, n as int),
            decreases n,
        {
            let parent = self.path.prefix(n - 1);
            let name = self.path.component(n - 1);
            assert(parent@ == path0.subrange(0, n - 1));
            assert(!(lookup(root@, path0.subrange(0, n - 1)) is Unloaded));
            let next: Option<crate::path::PathComponent> = match walk(root, &parent, 0) {
                Ok(Walked::At(link)) => match loaded_children(link) {
                    Some(cs) => {
                        proof {
                            let d = lookup(root@, parent@)->Dir_0;
                            assert(d.wf()) by {
                                crate::cursor::lemma_found_wf(root@, parent@, 0);
                            }
                        }
                        let (found, k) = search(cs, name.as_bytes());
                        let count = cs.len();
                        assert(found ==> k < count);
                        let k2 = if found {
                            k + 1
                        } else {
                            k
                        };
                        proof {
                            let cv = children_view(cs@);
                            if (k as int) < cv.len() && cv[k as int].name == name@ {
                                crate::link::lemma_find_is(cv, name@, k as int);
                            }
                        }
                        if k2 < cs.len() {
                            Some(cs[k2].name.clone())
                        } else {
                            None
                        }
                    },
                    None => None,
                },
                _ => None,
            };
            match next {
                Some(c) => {
                    let mut p = parent;
                    proof {
                        lemma_lookup_child(root@, p@, 0, c@);
                    }
                    p.push(c);
                    self.mode = match walk(root, &p, 0) {
                        Ok(Walked::At(link)) => match link {
                            Link::Leaf(_) => Mode::Advance,
                            _ => Mode::Descend,
                        },
                        _ => Mode::Advance,
                    };
                    self.path = p;
                    return Step::Success;
                },
                None => {},
            }
            n -= 1;
        }
        self.mode = Mode::Done;
        Step::End
    }
}

/// What stands at the end of a walk: the link itself.
pub open spec fn found_at(l: LinkView) -> Found {
    match l {
        LinkView::Leaf(m) => Found::File(m),
        _ => Found::Dir(l),
    }
}

/// A walk that ends in a directory in memory goes on, by one more name, to
/// the child of that name.
pub proof fn lemma_lookup_child(l: LinkView, path: Seq<Seq<u8>>, i: int, name: Seq<u8>)
    requires
        0 <= i <= path.len(),
        crate::lookup::lookup_from(l, path, i) is Dir,
        crate::lookup::lookup_from(l, path, i)->Dir_0.is_loaded_dir(),
    ensures
        crate::lookup::lookup_from(l, path.push(name), i) == (match crate::link::find(
            crate::lookup::lookup_from(l, path, i)->Dir_0.children(),
            name,
        ) {
            Some(k) => found_at(crate::lookup::lookup_from(l, path, i)->Dir_0.children()[k].link),
            None => Found::Missing,
        }),
    decreases path.len() - i,
{
    let longer = path.push(name);
    if i < path.len() {
        assert(longer[i] == path[i]);
        let cs = l.children();
        crate::link::lemma_find(cs, path[i]);
        let k = crate::link::find(cs, path[i]).unwrap();
        lemma_lookup_child(cs[k].link, path, i + 1, name);
    } else {
        assert(longer[i] == name);
        let cs = l.children();
        crate::link::lemma_find(cs, name);
        assert(crate::lookup::lookup_from(l, path, i) == Found::Dir(l));
        match crate::link::find(cs, name) {
            Some(k) => {
                assert(crate::lookup::lookup_from(cs[k].link, longer, i + 1) == found_at(cs[k].link));
            },
            None => {},
        }
    }
}

/// What a walk finds in a valid tree is valid.
pub proof fn lemma_found_wf(l: LinkView, path: Seq<Seq<u8>>, i: int)
    requires
        l.wf(),
        0 <= i,
        crate::lookup::lookup_from(l, path, i) is Dir,
    ensures
        crate::lookup::lookup_from(l, path, i)->Dir_0.wf(),
    decreases path.len() - i,
{
    if i < path.len() {
        let cs = l.children();
        crate::link::lemma_find(cs, path[i]);
        let k = crate::link::find(cs, path[i]).unwrap();
        assert(cs[k].link.wf());
        lemma_found_wf(cs[k].link, path, i + 1);
    }
}

/// A walk that meets no directory that is not loaded meets none on a
/// shorter way either.
pub proof fn lemma_prefix_walkable(l: LinkView, path: Seq<Seq<u8>>, i: int, n: int)
    requires
        0 <= i <= n <= path.len(),
        !(crate::lookup::lookup_from(l, path, i) is Unloaded),
    ensures
        !(crate::lookup::lookup_from(l, path.subrange(0, n), i) is Unloaded),
    decreases path.len() - i,
{
    let q = path.subrange(0, n);
    if i < n {
        assert(q[i] == path[i]);
        match l {
            LinkView::Leaf(_) => {},
            LinkView::Durable(_, LazyView::Unloaded) => {},
            LinkView::Durable(_, LazyView::Failed(_)) => {},
            _ => {
                let cs = l.children();
                match crate::link::find(cs, path[i]) {
                    Some(k) => {
                        lemma_prefix_walkable(cs[k].link, path, i + 1, n);
                    },
                    None => {},
                }
            },
        }
    }
}

impl Cursor {
    /// Moves the cursor to the next link of the walk; see `cursor_step`.
    ///
    /// Stored directories on the way are loaded first, and so is the
    /// directory that the cursor goes into: the store is asked once for each
    /// that was not asked for before, and the tree holds what its answers
    /// come to; see `replay_along`. The step is read off the tree as it
    /// stands after that.
    pub fn step<S: TreeStore>(&mut self, tree: &mut Tree, store: &mut InnerStore<S>) -> (r: Step)
        requires
            old(tree).wf(),
        ensures
            final(store).written@ == old(store).written@,
            final(tree).wf(),
            loads_to(old(tree).root@, final(tree).root@),
            (final(self)@, r@) == cursor_step(final(tree).root@, old(self)@),
            extends(old(store).reads@, final(store).reads@),
            match old(self).mode {
                Mode::Done | Mode::Init => final(store).reads@ == old(store).reads@ && final(tree).root@ == old(
                    tree,
                ).root@,
                Mode::Advance => replay_along(
                    final(store).reads@,
                    old(store).reads@.len() as int,
                    old(tree).root@,
                    old(self)@.path,
                    0,
                    false,
                ) == (final(tree).root@, final(store).reads@.len() as int, true),
                Mode::Descend => replay_along(
                    final(store).reads@,
                    old(store).reads@.len() as int,
                    old(tree).root@,
                    old(self)@.path,
                    0,
                    true,
                ) == (final(tree).root@, final(store).reads@.len() as int, true),
            },
    {
        proof {
            crate::lookup::lemma_loads_to_refl(tree.root@);
            crate::store::lemma_extends_refl(store.reads@);
        }
        match self.mode {
            Mode::Done => Step::End,
            Mode::Init => {
                self.path = RepoPath::new();
                self.mode = Mode::Descend;
                Step::Success
            },
            Mode::Advance => {
                load_along(&mut tree.root, store, &self.path, 0, false);
                proof {
                    assert forall|n: int| 0 <= n < self@.path.len() implies !(lookup(
                        tree.root@,
                        #[trigger] self@.path.subrange(0, n),
                    ) is Unloaded) by {
                        lemma_prefix_walkable(tree.root@, self@.path, 0, n);
                    }
                }
                self.move_on(&tree.root)
            },
            Mode::Descend => {
                load_along(&mut tree.root, store, &self.path, 0, true);
                proof {
                    assert forall|n: int| 0 <= n < self@.path.len() implies !(lookup(
                        tree.root@,
                        #[trigger] self@.path.subrange(0, n),
                    ) is Unloaded) by {
                        lemma_prefix_walkable(tree.root@, self@.path, 0, n);
                    }
                }
                let first: Option<(crate::path::PathComponent, bool)> = match walk(&tree.root, &self.path, 0) {
                    Err(e) => {
                        self.mode = Mode::Done;
                        return Step::Failed(e);
                    },
                    Ok(Walked::At(link)) => match link {
                        Link::Leaf(_) => None,
                        Link::Ephemeral(cs) => {
                            if cs.len() > 0 {
                                assert(children_view(cs@)[0] == cs@[0]@);
                                Some((cs[0].name.clone(), is_leaf(&cs[0].link)))
                            } else {
                                None
                            }
                        },
                        Link::Durable(entry) => match &entry.links {
                            Lazy::Loaded(cs) => {
                                if cs.len() > 0 {
                                    assert(children_view(cs@)[0] == cs@[0]@);
                                    Some((cs[0].name.clone(), is_leaf(&cs[0].link)))
                                } else {
                                    None
                                }
                            },
                            Lazy::Failed(f) => {
                                let e = Error::from_load(&self.path, &entry.node, *f);
                                self.mode = Mode::Done;
                                return Step::Failed(e);
                            },
                            Lazy::Unloaded => None,
                        },
                    },
                    Ok(_) => None,
                };
                let ghost found = lookup(tree.root@, self.path@);
                assert(first matches Some(pair) ==> found is Dir && found->Dir_0.is_loaded_dir()
                    && found->Dir_0.children().len() > 0 && pair.0@ == found->Dir_0.children()[0].name
                    && pair.1 == (found->Dir_0.children()[0].link is Leaf));
                assert(first is None ==> !(found is Failed) && !(found matches Found::Dir(
                    LinkView::Durable(_, LazyView::Failed(_)),
                )) && (found is Dir ==> found->Dir_0.children().len() == 0));
                match first {
                    Some((name, leaf)) => {
                        if self.path.len() == usize::MAX {
                            self.mode = Mode::Done;
                            return Step::Failed(Error::InvariantViolated(Violation::PathTooLong));
                        }
                        proof {
                            let d = lookup(tree.root@, self.path@)->Dir_0;
                            lemma_found_wf(tree.root@, self.path@, 0);
                            crate::link::lemma_find_is(d.children(), name@, 0);
                            lemma_lookup_child(tree.root@, self.path@, 0, name@);
                        }
                        self.path.push(name);
                        self.mode = if leaf {
                            Mode::Advance
                        } else {
                            Mode::Descend
                        };
                        Step::Success
                    },
                    None => self.move_on(&tree.root),
                }
            },
        }
    }

    /// The link that the cursor stands at, as far as it is in memory.
    pub fn link<'a>(&self, tree: &'a Tree) -> (r: Option<&'a Link>)
        requires
            tree.wf(),
        ensures
            match lookup(tree.root@, self@.path) {
                Found::File(m) => r is Some && r.unwrap()@ == LinkView::Leaf(m),
                Found::Dir(d) => r is Some && r.unwrap()@ == d,
                _ => r is None,
            },
    {
        peek(&tree.root, &self.path, 0)
    }
}

/// Tells whether the link is a file.
fn is_leaf(link: &Link) -> (r: bool)
    ensures
        r == (link@ is Leaf),
{
    match link {
        Link::Leaf(_) => true,
        _ => false,
    }
}

/// Walks down the path through directories that are in memory, and gives up
/// at any other.
fn peek<'a>(link: &'a Link, path: &RepoPath, depth: usize) -> (r: Option<&'a Link>)
    requires
        link@.wf(),
        depth <= path@.len(),
    ensures
        match crate::lookup::lookup_from(link@, path@, depth as int) {
            Found::File(m) => r is Some && r.unwrap()@ == LinkView::Leaf(m),
            Found::Dir(d) => r is Some && r.unwrap()@ == d,
            _ => r is None,
        },
    decreases path@.len() - depth,
{
    let n = path.len();
    if depth >= n {
        return Some(link);
    }
    match loaded_children(link) {
        None => None,
        Some(cs) => {
            let (found, k) = search(cs, path.component(depth).as_bytes());
            if found {
                proof {
                    let cv = children_view(cs@);
                    assert(cv[k as int].link.wf());
                    assert(cv[k as int].link == cs@[k as int].link@);
                }
                peek(&cs[k].link, path, depth + 1)
            } else {
                None
            }
        },
    }
}

impl Tree {
    /// A cursor for a walk through the tree, before its first step.
    pub fn root_cursor(&self) -> (r: Cursor)
        ensures
            r@ == (CursorView { path: Seq::empty(), mode: Mode::Init }),
    {
        Cursor::new()
    }
}

} // verus!
