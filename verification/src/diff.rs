use crate::error::{load_error, Error, ErrorView, Violation};
use crate::file::FileMetadata;
use crate::link::{children_view, Child, ChildView, Lazy, LazyView, Link, LinkView};
use crate::order::{order_bytes, Order};
use crate::path::PathComponent;
use crate::link::wf_children;
use crate::loaded::{
    child_names, dir_loaded, halves_loaded, increasing, is_not_loaded, job_loaded, jobs_loaded, kids_loaded, lemma_apart_both, lemma_apart_left, lemma_apart_right, lemma_bfs_loaded, lemma_child_names, lemma_dfs_loaded, lemma_halves_names, lemma_kept_both, lemma_kept_left, lemma_kept_right, lemma_kids_loaded_at_limit, lemma_kids_loaded_prefix, lemma_solo_loaded, names_apart, names_loaded, sub_loaded,
};
use crate::lookup::{
    kids_load_by, kids_load_to, lemma_kids_load_by_more, lemma_kids_load_by_refl, lemma_kids_load_by_step, lemma_kids_load_to_refl, lemma_kids_load_to_trans, lemma_kids_update, lemma_loaded_by_last, lemma_loads_by_more, lemma_loads_by_refl, lemma_loads_by_trans, lemma_loads_to_refl, loads_by, loads_to,
};
use crate::matcher::{DirectoryMatch, Matcher};
use crate::store::{
    extends, lemma_extends_one, lemma_extends_refl, lemma_extends_trans, InnerStore, TreeStore,
};
use crate::tree::{load_entry, Tree};
use crate::order::lex_lt;
use crate::path::RepoPath;
use vstd::prelude::*;
use vstd::std_specs::cmp::PartialEqSpecImpl;

verus! {

/// How a file differs between two trees.
#[derive(Clone, Copy, Debug)]
pub enum DiffType {
    /// The file is in the left tree only.
    LeftOnly(FileMetadata),
    /// The file is in the right tree only.
    RightOnly(FileMetadata),
    /// The file is in both trees, with different records.
    Changed(FileMetadata, FileMetadata),
}

/// One difference between two trees: the path of a file and how it differs.
#[derive(Debug)]
pub struct DiffEntry {
    pub path: RepoPath,
    pub diff_type: DiffType,
}

/// The mathematical content of a `DiffEntry`.
pub ghost struct DiffView {
    pub path: Seq<Seq<u8>>,
    pub diff_type: DiffType,
}

impl View for DiffEntry {
    type V = DiffView;

    open spec fn view(&self) -> DiffView {
        DiffView { path: self.path@, diff_type: self.diff_type }
    }
}

impl DiffType {
    /// Tells whether two differences are the same.
    pub fn same(&self, other: &DiffType) -> (r: bool)
        ensures
            r == (*self == *other),
    {
        match (self, other) {
            (DiffType::LeftOnly(a), DiffType::LeftOnly(b)) => a.same(b),
            (DiffType::RightOnly(a), DiffType::RightOnly(b)) => a.same(b),
            (DiffType::Changed(a, c), DiffType::Changed(b, d)) => a.same(b) && c.same(d),
            _ => false,
        }
    }
}

impl PartialEq for DiffType {
    fn eq(&self, other: &DiffType) -> (r: bool) {
        self.same(other)
    }
}

impl PartialEqSpecImpl for DiffType {
    open spec fn obeys_eq_spec() -> bool {
        true
    }

    open spec fn eq_spec(&self, other: &DiffType) -> bool {
        *self == *other
    }
}

impl DiffEntry {
    pub fn new(path: RepoPath, diff_type: DiffType) -> (r: DiffEntry)
        ensures
            r@ == (DiffView { path: path@, diff_type }),
    {
        DiffEntry { path, diff_type }
    }

    /// Tells whether two entries are the same.
    pub fn same(&self, other: &DiffEntry) -> (r: bool)
        ensures
            r == (self@ == other@),
    {
        self.path.same(&other.path) && self.diff_type.same(&other.diff_type)
    }
}

impl PartialEq for DiffEntry {
    fn eq(&self, other: &DiffEntry) -> (r: bool) {
        self.same(other)
    }
}

impl PartialEqSpecImpl for DiffEntry {
    open spec fn obeys_eq_spec() -> bool {
        true
    }

    open spec fn eq_spec(&self, other: &DiffEntry) -> bool {
        self@ == other@
    }
}

/// What a diff came to: the differences it found, in order, and the error
/// that ended it, if one did.
pub ghost struct DiffWalk {
    pub entries: Seq<DiffView>,
    pub error: Option<ErrorView>,
}

/// A pair of directories at one path that are to be held against each
/// other; a side is `None` where that tree has no directory at the path.
pub ghost struct Job {
    pub path: Seq<Seq<u8>>,
    pub left: Option<LinkView>,
    pub right: Option<LinkView>,
}

/// A name that occurs in a pair of directories, with what stands under it on
/// each side.
pub ghost struct Named {
    pub name: Seq<u8>,
    pub left: Option<LinkView>,
    pub right: Option<LinkView>,
}

/// The names of two directories merged in byte order, from child `i` of the
/// left and child `j` of the right on.
pub open spec fn merge_names(lcs: Seq<ChildView>, rcs: Seq<ChildView>, i: int, j: int) -> Seq<Named>
    decreases lcs.len() - i + rcs.len() - j,
{
    if i < 0 || j < 0 || i > lcs.len() || j > rcs.len() || (i == lcs.len() && j == rcs.len()) {
        Seq::empty()
    } else if j >= rcs.len() || (i < lcs.len() && lex_lt(lcs[i].name, rcs[j].name)) {
        seq![Named { name: lcs[i].name, left: Some(lcs[i].link), right: None }] + merge_names(
            lcs,
            rcs,
            i + 1,
            j,
        )
    } else if i >= lcs.len() || lex_lt(rcs[j].name, lcs[i].name) {
        seq![Named { name: rcs[j].name, left: None, right: Some(rcs[j].link) }] + merge_names(
            lcs,
            rcs,
            i,
            j + 1,
        )
    } else {
        seq![Named { name: lcs[i].name, left: Some(lcs[i].link), right: Some(rcs[j].link) }]
            + merge_names(lcs, rcs, i + 1, j + 1)
    }
}

/// The record of the file that the link is, if it is one.
pub open spec fn file_of(l: Option<LinkView>) -> Option<FileMetadata> {
    match l {
        Some(LinkView::Leaf(m)) => Some(m),
        _ => None,
    }
}

/// The link if it is a directory.
pub open spec fn dir_of(l: Option<LinkView>) -> Option<LinkView> {
    match l {
        Some(LinkView::Leaf(_)) => None,
        other => other,
    }
}

/// The difference between the files that stand at the path on the two
/// sides, if there is one and the matcher takes the path.
pub open spec fn file_entry<M: Matcher>(
    left: Option<LinkView>,
    right: Option<LinkView>,
    path: Seq<Seq<u8>>,
    m: M,
) -> Seq<DiffView> {
    if !m.file_spec(path) {
        Seq::empty()
    } else {
        match (file_of(left), file_of(right)) {
            (Some(a), Some(b)) => if a == b {
                Seq::empty()
            } else {
                seq![DiffView { path, diff_type: DiffType::Changed(a, b) }]
            },
            (Some(a), None) => seq![DiffView { path, diff_type: DiffType::LeftOnly(a) }],
            (None, Some(b)) => seq![DiffView { path, diff_type: DiffType::RightOnly(b) }],
            (None, None) => Seq::empty(),
        }
    }
}

/// The pair of directories that stand at the path on the two sides, if
/// either side has one.
pub open spec fn sub_job(left: Option<LinkView>, right: Option<LinkView>, path: Seq<Seq<u8>>) -> Option<
    Job,
> {
    if dir_of(left) is None && dir_of(right) is None {
        None
    } else {
        Some(Job { path, left: dir_of(left), right: dir_of(right) })
    }
}

/// The children of a directory of one side, or the error that stands in
/// the way; no children for a side without a directory.
pub open spec fn side_children(l: Option<LinkView>, path: Seq<Seq<u8>>) -> Result<Seq<ChildView>, ErrorView> {
    match l {
        None => Ok(Seq::empty()),
        Some(LinkView::Durable(n, LazyView::Failed(fault))) => Err(load_error(path, n, fault)),
        Some(LinkView::Durable(n, LazyView::Unloaded)) => Err(
            ErrorView::InvariantViolated(Violation::NotLoaded),
        ),
        Some(d) => Ok(d.children()),
    }
}

/// Both sides are stored directories with the same hash.
pub open spec fn same_stored(left: Option<LinkView>, right: Option<LinkView>) -> bool {
    match (left, right) {
        (Some(LinkView::Durable(a, _)), Some(LinkView::Durable(b, _))) => a == b,
        _ => false,
    }
}

/// The names to look at in a pair of directories: none where the matcher
/// takes nothing below the path, and none where both sides are stored under
/// the same hash; else the names of both sides merged, or the error of a
/// side that is not in memory.
pub open spec fn job_names<M: Matcher>(job: Job, m: M) -> Result<Seq<Named>, ErrorView> {
    if m.dir_spec(job.path) == DirectoryMatch::Nothing || same_stored(job.left, job.right) {
        Ok(Seq::empty())
    } else {
        match side_children(job.left, job.path) {
            Err(e) => Err(e),
            Ok(lcs) => match side_children(job.right, job.path) {
                Err(e) => Err(e),
                Ok(rcs) => Ok(merge_names(lcs, rcs, 0, 0)),
            },
        }
    }
}

/// The differences below a pair of directories in depth-first order: name by
/// name, the difference between the files under the name, then all that
/// lies below the directories under the name.
pub open spec fn dfs_job<M: Matcher>(job: Job, m: M) -> DiffWalk
    decreases usize::MAX - job.path.len(), 1int, 0int,
{
    match job_names(job, m) {
        Err(e) => DiffWalk { entries: Seq::empty(), error: Some(e) },
        Ok(names) => dfs_names(names, job.path, m, names.len() as int),
    }
}

/// The depth-first differences under the first `k` names of a directory.
pub open spec fn dfs_names<M: Matcher>(names: Seq<Named>, path: Seq<Seq<u8>>, m: M, k: int) -> DiffWalk
    decreases usize::MAX - path.len(), 0int, k,
{
    if k <= 0 || k > names.len() {
        DiffWalk { entries: Seq::empty(), error: None }
    } else {
        let before = dfs_names(names, path, m, k - 1);
        if before.error is Some {
            before
        } else if path.len() >= usize::MAX {
            DiffWalk {
                entries: before.entries,
                error: Some(ErrorView::InvariantViolated(Violation::PathTooLong)),
            }
        } else {
            let t = names[k - 1];
            let p = path.push(t.name);
            let here = before.entries + file_entry(t.left, t.right, p, m);
            match sub_job(t.left, t.right, p) {
                None => DiffWalk { entries: here, error: None },
                Some(j) => {
                    let sub = dfs_job(j, m);
                    DiffWalk { entries: here + sub.entries, error: sub.error }
                },
            }
        }
    }
}

/// What one round of the breadth-first diff came to: the differences of the
/// files that stand directly in the directories of the round, the pairs of
/// directories for the next round, and the error that ended it, if one did.
pub ghost struct Round {
    pub entries: Seq<DiffView>,
    pub next: Seq<Job>,
    pub error: Option<ErrorView>,
}

/// The round over the first `k` names of one pair of directories.
pub open spec fn names_round<M: Matcher>(names: Seq<Named>, path: Seq<Seq<u8>>, m: M, k: int) -> Round
    decreases k,
{
    if k <= 0 || k > names.len() {
        Round { entries: Seq::empty(), next: Seq::empty(), error: None }
    } else {
        let before = names_round(names, path, m, k - 1);
        if before.error is Some {
            before
        } else if path.len() >= usize::MAX {
            Round {
                entries: before.entries,
                next: before.next,
                error: Some(ErrorView::InvariantViolated(Violation::PathTooLong)),
            }
        } else {
            let t = names[k - 1];
            let p = path.push(t.name);
            Round {
                entries: before.entries + file_entry(t.left, t.right, p, m),
                next: match sub_job(t.left, t.right, p) {
                    None => before.next,
                    Some(j) => before.next.push(j),
                },
                error: None,
            }
        }
    }
}

/// The round over the first `k` pairs of directories of one depth.
pub open spec fn jobs_round<M: Matcher>(jobs: Seq<Job>, m: M, k: int) -> Round
    decreases k,
{
    if k <= 0 || k > jobs.len() {
        Round { entries: Seq::empty(), next: Seq::empty(), error: None }
    } else {
        let before = jobs_round(jobs, m, k - 1);
        if before.error is Some {
            before
        } else {
            match job_names(jobs[k - 1], m) {
                Err(e) => Round { entries: before.entries, next: before.next, error: Some(e) },
                Ok(names) => {
                    let r = names_round(names, jobs[k - 1].path, m, names.len() as int);
                    Round {
                        entries: before.entries + r.entries,
                        next: before.next + r.next,
                        error: r.error,
                    }
                },
            }
        }
    }
}

/// The differences below the pairs of directories of one depth in
/// breadth-first order: round by round, first what stands directly in these
/// directories, then the same for the directories below them.
pub open spec fn bfs_jobs<M: Matcher>(jobs: Seq<Job>, m: M, depth: int) -> DiffWalk
    decreases usize::MAX - depth,
{
    let round = jobs_round(jobs, m, jobs.len() as int);
    if round.error is Some {
        DiffWalk { entries: round.entries, error: round.error }
    } else if round.next.len() == 0 || depth < 0 || depth >= usize::MAX {
        DiffWalk { entries: round.entries, error: None }
    } else {
        let rest = bfs_jobs(round.next, m, depth + 1);
        DiffWalk { entries: round.entries + rest.entries, error: rest.error }
    }
}

/// The pair of directories to start from: the two roots.
pub open spec fn root_job(left: LinkView, right: LinkView) -> Job {
    Job { path: Seq::empty(), left: Some(left), right: Some(right) }
}

/// The differences between two trees, depth first or breadth first.
pub open spec fn diff_walk<M: Matcher>(left: LinkView, right: LinkView, m: M, bfs: bool) -> DiffWalk {
    if bfs {
        bfs_jobs(seq![root_job(left, right)], m, 0)
    } else {
        dfs_job(root_job(left, right), m)
    }
}

/// A name that occurs in a pair of directories, with references to what
/// stands under it on each side.
#[derive(Debug)]
pub struct NamedRef<'a> {
    pub name: &'a PathComponent,
    pub left: Option<&'a Link>,
    pub right: Option<&'a Link>,
}

/// The view of an optional link.
pub open spec fn opt_view(l: Option<&Link>) -> Option<LinkView> {
    match l {
        Some(x) => Some(x@),
        None => None,
    }
}

impl<'a> View for NamedRef<'a> {
    type V = Named;

    open spec fn view(&self) -> Named {
        Named { name: self.name@, left: opt_view(self.left), right: opt_view(self.right) }
    }
}

/// The views of a list of names.
pub open spec fn names_view(v: Seq<NamedRef>) -> Seq<Named> {
    Seq::new(v.len(), |i: int| v[i]@)
}

/// Merges the names of two directories in byte order.
pub fn merged<'a>(lcs: &'a Vec<Child>, rcs: &'a Vec<Child>) -> (r: Vec<NamedRef<'a>>)
    ensures
        names_view(r@) == merge_names(children_view(lcs@), children_view(rcs@), 0, 0),
{
    let ghost lv = children_view(lcs@);
    let ghost rv = children_view(rcs@);
    let mut out: Vec<NamedRef<'a>> = Vec::new();
    let mut i: usize = 0;
    let mut j: usize = 0;
    assert(names_view(out@) + merge_names(lv, rv, 0, 0) =~= merge_names(lv, rv, 0, 0));
    while i < lcs.len() || j < rcs.len()
        invariant
            i <= lcs@.len(),
            j <= rcs@.len(),
            lv == children_view(lcs@),
            rv == children_view(rcs@),
            names_view(out@) + merge_names(lv, rv, i as int, j as int) == merge_names(lv, rv, 0, 0),
        decreases lcs@.len() - i + rcs@.len() - j,
    {
        let ghost before = names_view(out@);
        let ghost rest = merge_names(lv, rv, i as int, j as int);
        let side = if j >= rcs.len() {
            Order::Less
        } else if i >= lcs.len() {
            Order::Greater
        } else {
            assert(lv[i as int].name == lcs@[i as int].name@);
            assert(rv[j as int].name == rcs@[j as int].name@);
            order_bytes(lcs[i].name.as_bytes(), rcs[j].name.as_bytes())
        };
        let item = match side {
            Order::Less => {
                let c = &lcs[i];
                assert(lv[i as int] == c@);
                i += 1;
                NamedRef { name: &c.name, left: Some(&c.link), right: None }
            },
            Order::Greater => {
                let c = &rcs[j];
                assert(rv[j as int] == c@);
                proof {
                    if (i as int) < lv.len() {
                        crate::order::lemma_lex_asymmetric(rv[j as int].name, lv[i as int].name);
                    }
                }
                j += 1;
                NamedRef { name: &c.name, left: None, right: Some(&c.link) }
            },
            Order::Equal => {
                let c = &lcs[i];
                let d = &rcs[j];
                assert(lv[i as int] == c@);
                assert(rv[j as int] == d@);
                proof {
                    crate::order::lemma_lex_irreflexive(lv[i as int].name);
                }
                i += 1;
                j += 1;
                NamedRef { name: &c.name, left: Some(&c.link), right: Some(&d.link) }
            },
        };
        proof {
            let next = merge_names(lv, rv, i as int, j as int);
            assert(rest == seq![item@] + next);
            assert(names_view(out@.push(item)) =~= before.push(item@));
            assert(before.push(item@) + next =~= before + (seq![item@] + next));
        }
        out.push(item);
    }
    proof {
        assert(names_view(out@) + Seq::<Named>::empty() =~= names_view(out@));
    }
    out
}

/// The difference between the files that stand at the path on the two
/// sides, if there is one and the matcher takes the path.
pub fn file_diff<M: Matcher>(left: Option<&Link>, right: Option<&Link>, path: &RepoPath, matcher: &M) -> (r:
    Option<DiffEntry>)
    ensures
        match r {
            Some(e) => file_entry(opt_view(left), opt_view(right), path@, *matcher) == seq![e@],
            None => file_entry(opt_view(left), opt_view(right), path@, *matcher) == Seq::<DiffView>::empty(),
        },
{
    let lf = match left {
        Some(Link::Leaf(m)) => Some(*m),
        _ => None,
    };
    let rf = match right {
        Some(Link::Leaf(m)) => Some(*m),
        _ => None,
    };
    let diff_type = match (lf, rf) {
        (Some(a), Some(b)) => {
            if a.same(&b) {
                return None;
            }
            DiffType::Changed(a, b)
        },
        (Some(a), None) => DiffType::LeftOnly(a),
        (None, Some(b)) => DiffType::RightOnly(b),
        (None, None) => {
            return None;
        },
    };
    if !matcher.matches_file(path) {
        return None;
    }
    Some(DiffEntry { path: path.clone(), diff_type })
}

/// The link if it is a directory.
pub fn as_dir<'a>(l: Option<&'a Link>) -> (r: Option<&'a Link>)
    ensures
        opt_view(r) == dir_of(opt_view(l)),
{
    match l {
        Some(Link::Leaf(_)) => None,
        other => other,
    }
}

/// The children of a directory of one side, or the error that stands in the
/// way; `empty` for a side without a directory.
fn children_of_side<'a>(l: Option<&'a Link>, path: &RepoPath, empty: &'a Vec<Child>) -> (r: Result<
    &'a Vec<Child>,
    Error,
>)
    requires
        empty@.len() == 0,
        dir_of(opt_view(l)) == opt_view(l),
    ensures
        match side_children(opt_view(l), path@) {
            Ok(cs) => r is Ok && children_view(r.unwrap()@) == cs,
            Err(e) => r is Err && r.unwrap_err()@ == e,
        },
{
    match l {
        None => {
            assert(children_view(empty@) =~= Seq::<ChildView>::empty());
            Ok(empty)
        },
        Some(link) => match link {
            Link::Ephemeral(cs) => Ok(cs),
            Link::Durable(entry) => match &entry.links {
                Lazy::Loaded(cs) => Ok(cs),
                Lazy::Failed(f) => Err(Error::from_load(path, &entry.node, *f)),
                Lazy::Unloaded => Err(Error::InvariantViolated(Violation::NotLoaded)),
            },
            Link::Leaf(_) => {
                assert(children_view(empty@) =~= Seq::<ChildView>::empty());
                Ok(empty)
            },
        },
    }
}

/// Tells whether both sides are stored directories with the same hash.
fn is_same_stored(left: Option<&Link>, right: Option<&Link>) -> (r: bool)
    ensures
        r == same_stored(opt_view(left), opt_view(right)),
{
    match (left, right) {
        (Some(Link::Durable(a)), Some(Link::Durable(b))) => a.node.same(&b.node),
        _ => false,
    }
}

/// The names to look at in a pair of directories; see `job_names`.
fn names_of_job<'a, M: Matcher>(
    left: Option<&'a Link>,
    right: Option<&'a Link>,
    path: &RepoPath,
    matcher: &M,
    empty: &'a Vec<Child>,
) -> (r: Result<Vec<NamedRef<'a>>, Error>)
    requires
        empty@.len() == 0,
        dir_of(opt_view(left)) == opt_view(left),
        dir_of(opt_view(right)) == opt_view(right),
    ensures
        match job_names(Job { path: path@, left: opt_view(left), right: opt_view(right) }, *matcher) {
            Ok(names) => r is Ok && names_view(r.unwrap()@) == names,
            Err(e) => r is Err && r.unwrap_err()@ == e,
        },
{
    if matcher.matches_directory(path) == DirectoryMatch::Nothing || is_same_stored(left, right) {
        let out: Vec<NamedRef<'a>> = Vec::new();
        assert(names_view(out@) =~= Seq::<Named>::empty());
        return Ok(out);
    }
    let lcs = match children_of_side(left, path, empty) {
        Ok(cs) => cs,
        Err(e) => {
            return Err(e);
        },
    };
    let rcs = match children_of_side(right, path, empty) {
        Ok(cs) => cs,
        Err(e) => {
            return Err(e);
        },
    };
    Ok(merged(lcs, rcs))
}

/// The views of a list of differences.
pub open spec fn entries_view(v: Seq<DiffEntry>) -> Seq<DiffView> {
    Seq::new(v.len(), |i: int| v[i]@)
}

/// An error under the first `k` names ends the walk of the directory.
proof fn lemma_dfs_names_error<M: Matcher>(names: Seq<Named>, path: Seq<Seq<u8>>, m: M, k: int, n: int)
    requires
        0 <= k <= n <= names.len(),
        dfs_names(names, path, m, k).error is Some,
    ensures
        dfs_names(names, path, m, n) == dfs_names(names, path, m, k),
    decreases n - k,
{
    if k < n {
        lemma_dfs_names_error(names, path, m, k, n - 1);
    }
}

/// Walks a pair of directories depth first; see `dfs_job`.
fn dfs_walk<'a, M: Matcher>(
    left: Option<&'a Link>,
    right: Option<&'a Link>,
    matcher: &M,
    path: &mut RepoPath,
    empty: &'a Vec<Child>,
    out: &mut Vec<DiffEntry>,
) -> (r: Option<Error>)
    requires
        empty@.len() == 0,
        dir_of(opt_view(left)) == opt_view(left),
        dir_of(opt_view(right)) == opt_view(right),
    ensures
        final(path)@ == old(path)@,
        ({
            let w = dfs_job(
                Job { path: old(path)@, left: opt_view(left), right: opt_view(right) },
                *matcher,
            );
            &&& entries_view(final(out)@) == entries_view(old(out)@) + w.entries
            &&& match w.error {
                Some(e) => r is Some && r.unwrap()@ == e,
                None => r is None,
            }
        }),
    decreases usize::MAX - old(path)@.len(),
{
    let ghost out0 = entries_view(out@);
    let ghost job = Job { path: path@, left: opt_view(left), right: opt_view(right) };
    proof {
        assert(out0 + Seq::<DiffView>::empty() =~= out0);
    }
    let names = match names_of_job(left, right, path, matcher, empty) {
        Ok(names) => names,
        Err(e) => {
            return Some(e);
        },
    };
    let ghost nv = names_view(names@);
    let n = names.len();
    let mut k: usize = 0;
    while k < n
        invariant
            k <= n,
            n == names@.len(),
            nv == names_view(names@),
            empty@.len() == 0,
            out0 == entries_view(old(out)@),
            path@ == old(path)@,
            job_names(
                Job { path: old(path)@, left: opt_view(left), right: opt_view(right) },
                *matcher,
            ) == Ok::<Seq<Named>, ErrorView>(nv),
            dfs_names(nv, old(path)@, *matcher, k as int).error is None,
            entries_view(out@) == out0 + dfs_names(nv, old(path)@, *matcher, k as int).entries,
        decreases n - k,
    {
        let ghost sofar = dfs_names(nv, old(path)@, *matcher, k as int);
        let ghost out1 = entries_view(out@);
        if path.len() == usize::MAX {
            proof {
                let w = dfs_names(nv, old(path)@, *matcher, k + 1);
                assert(w.entries == sofar.entries);
                lemma_dfs_names_error(nv, old(path)@, *matcher, k + 1, n as int);
            }
            return Some(Error::InvariantViolated(Violation::PathTooLong));
        }
        let t = &names[k];
        assert(nv[k as int] == t@);
        path.push(t.name.clone());
        let ghost p = path@;
        let ghost here = file_entry(t@.left, t@.right, p, *matcher);
        match file_diff(t.left, t.right, path, matcher) {
            Some(e) => {
                let ghost ev = e@;
                out.push(e);
                assert(entries_view(out@) =~= out1 + seq![ev]);
            },
            None => {
                assert(out1 + Seq::<DiffView>::empty() =~= out1);
            },
        }
        assert(entries_view(out@) == out1 + here);
        let ld = as_dir(t.left);
        let rd = as_dir(t.right);
        let ghost out2 = entries_view(out@);
        let r = if ld.is_some() || rd.is_some() {
            dfs_walk(ld, rd, matcher, path, empty, out)
        } else {
            assert(out2 + Seq::<DiffView>::empty() =~= out2);
            None
        };
        path.pop();
        proof {
            assert(path@ =~= old(path)@);
            let w = dfs_names(nv, old(path)@, *matcher, k + 1);
            match sub_job(t@.left, t@.right, p) {
                None => {
                    assert(w.entries == sofar.entries + here);
                    assert(out0 + (sofar.entries + here) =~= out1 + here);
                },
                Some(j) => {
                    let sub = dfs_job(j, *matcher);
                    assert(w.entries == sofar.entries + here + sub.entries);
                    assert(out0 + (sofar.entries + here + sub.entries) =~= (out1 + here) + sub.entries);
                },
            }
        }
        match r {
            Some(e) => {
                proof {
                    lemma_dfs_names_error(nv, old(path)@, *matcher, k + 1, n as int);
                }
                return Some(e);
            },
            None => {},
        }
        k += 1;
    }
    None
}

/// A pair of directories at one path, with references to the directories.
#[derive(Debug)]
pub struct JobRef<'a> {
    pub path: RepoPath,
    pub left: Option<&'a Link>,
    pub right: Option<&'a Link>,
}

impl<'a> View for JobRef<'a> {
    type V = Job;

    open spec fn view(&self) -> Job {
        Job { path: self.path@, left: opt_view(self.left), right: opt_view(self.right) }
    }
}

/// The views of a list of pairs of directories.
pub open spec fn jobs_view(v: Seq<JobRef>) -> Seq<Job> {
    Seq::new(v.len(), |i: int| v[i]@)
}

/// Both sides of every pair are directories where they are there.
pub open spec fn jobs_are_dirs(jobs: Seq<Job>) -> bool {
    forall|i: int|
        0 <= i < jobs.len() ==> dir_of((#[trigger] jobs[i]).left) == jobs[i].left && dir_of(jobs[i].right)
            == jobs[i].right
}

proof fn lemma_names_round_error<M: Matcher>(names: Seq<Named>, path: Seq<Seq<u8>>, m: M, k: int, n: int)
    requires
        0 <= k <= n <= names.len(),
        names_round(names, path, m, k).error is Some,
    ensures
        names_round(names, path, m, n) == names_round(names, path, m, k),
    decreases n - k,
{
    if k < n {
        lemma_names_round_error(names, path, m, k, n - 1);
    }
}

proof fn lemma_jobs_round_error<M: Matcher>(jobs: Seq<Job>, m: M, k: int, n: int)
    requires
        0 <= k <= n <= jobs.len(),
        jobs_round(jobs, m, k).error is Some,
    ensures
        jobs_round(jobs, m, n) == jobs_round(jobs, m, k),
    decreases n - k,
{
    if k < n {
        lemma_jobs_round_error(jobs, m, k, n - 1);
    }
}

/// Walks one pair of directories for the breadth-first diff: collects the
/// differences of the files that stand directly in them, and the pairs of
/// directories below them.
fn round_of_job<'a, M: Matcher>(
    job: &JobRef<'a>,
    matcher: &M,
    empty: &'a Vec<Child>,
    out: &mut Vec<DiffEntry>,
    next: &mut Vec<JobRef<'a>>,
) -> (r: Option<Error>)
    requires
        empty@.len() == 0,
        dir_of(job@.left) == job@.left,
        dir_of(job@.right) == job@.right,
        jobs_are_dirs(jobs_view(old(next)@)),
    ensures
        jobs_are_dirs(jobs_view(final(next)@)),
        match job_names(job@, *matcher) {
            Err(e) => r is Some && r.unwrap()@ == e && entries_view(final(out)@) == entries_view(
                old(out)@,
            ) && jobs_view(final(next)@) == jobs_view(old(next)@),
            Ok(names) => {
                let round = names_round(names, job@.path, *matcher, names.len() as int);
                &&& entries_view(final(out)@) == entries_view(old(out)@) + round.entries
                &&& jobs_view(final(next)@) == jobs_view(old(next)@) + round.next
                &&& match round.error {
                    Some(e) => r is Some && r.unwrap()@ == e,
                    None => r is None,
                }
            },
        },
{
    let ghost out0 = entries_view(out@);
    let ghost next0 = jobs_view(next@);
    let names = match names_of_job(job.left, job.right, &job.path, matcher, empty) {
        Ok(names) => names,
        Err(e) => {
            return Some(e);
        },
    };
    let ghost nv = names_view(names@);
    let ghost path = job@.path;
    let n = names.len();
    let mut k: usize = 0;
    proof {
        assert(out0 + Seq::<DiffView>::empty() =~= out0);
        assert(next0 + Seq::<Job>::empty() =~= next0);
    }
    while k < n
        invariant
            k <= n,
            n == names@.len(),
            nv == names_view(names@),
            path == job@.path,
            job_names(job@, *matcher) == Ok::<Seq<Named>, ErrorView>(nv),
            out0 == entries_view(old(out)@),
            next0 == jobs_view(old(next)@),
            jobs_are_dirs(jobs_view(next@)),
            names_round(nv, path, *matcher, k as int).error is None,
            entries_view(out@) == out0 + names_round(nv, path, *matcher, k as int).entries,
            jobs_view(next@) == next0 + names_round(nv, path, *matcher, k as int).next,
        decreases n - k,
    {
        let ghost sofar = names_round(nv, path, *matcher, k as int);
        let ghost out1 = entries_view(out@);
        let ghost next1 = jobs_view(next@);
        if job.path.len() == usize::MAX {
            proof {
                let w = names_round(nv, path, *matcher, k + 1);
                assert(w.entries == sofar.entries && w.next == sofar.next);
                lemma_names_round_error(nv, path, *matcher, k + 1, n as int);
            }
            return Some(Error::InvariantViolated(Violation::PathTooLong));
        }
        let t = &names[k];
        assert(nv[k as int] == t@);
        let mut p = job.path.clone();
        p.push(t.name.clone());
        let ghost here = file_entry(t@.left, t@.right, p@, *matcher);
        match file_diff(t.left, t.right, &p, matcher) {
            Some(e) => {
                let ghost ev = e@;
                out.push(e);
                assert(entries_view(out@) =~= out1 + seq![ev]);
            },
            None => {
                assert(out1 + Seq::<DiffView>::empty() =~= out1);
            },
        }
        let ld = as_dir(t.left);
        let rd = as_dir(t.right);
        if ld.is_some() || rd.is_some() {
            let j = JobRef { path: p, left: ld, right: rd };
            let ghost jv = j@;
            next.push(j);
            proof {
                assert(jobs_view(next@) =~= next1.push(jv));
                assert forall|i: int| 0 <= i < jobs_view(next@).len() implies dir_of(
                    (#[trigger] jobs_view(next@)[i]).left,
                ) == jobs_view(next@)[i].left && dir_of(jobs_view(next@)[i].right) == jobs_view(
                    next@,
                )[i].right by {
                    if i < next1.len() {
                        assert(jobs_view(next@)[i] == next1[i]);
                    }
                }
            }
        }
        proof {
            let w = names_round(nv, path, *matcher, k + 1);
            assert(w.entries == sofar.entries + here);
            assert(out0 + (sofar.entries + here) =~= out1 + here);
            match sub_job(t@.left, t@.right, path.push(t@.name)) {
                None => {
                    assert(w.next == sofar.next);
                },
                Some(j) => {
                    assert(next0 + sofar.next.push(j) =~= next1.push(j));
                },
            }
        }
        k += 1;
    }
    None
}

/// Walks the pairs of directories of one depth breadth first; see
/// `bfs_jobs`.
fn bfs_walk<'a, M: Matcher>(
    jobs: Vec<JobRef<'a>>,
    matcher: &M,
    depth: usize,
    empty: &'a Vec<Child>,
    out: &mut Vec<DiffEntry>,
) -> (r: Option<Error>)
    requires
        empty@.len() == 0,
        jobs_are_dirs(jobs_view(jobs@)),
    ensures
        ({
            let w = bfs_jobs(jobs_view(jobs@), *matcher, depth as int);
            &&& entries_view(final(out)@) == entries_view(old(out)@) + w.entries
            &&& match w.error {
                Some(e) => r is Some && r.unwrap()@ == e,
                None => r is None,
            }
        }),
    decreases usize::MAX - depth,
{
    let ghost out0 = entries_view(out@);
    let ghost jv = jobs_view(jobs@);
    let mut next: Vec<JobRef<'a>> = Vec::new();
    let n = jobs.len();
    let mut k: usize = 0;
    proof {
        assert(out0 + Seq::<DiffView>::empty() =~= out0);
        assert(jobs_view(next@) =~= Seq::<Job>::empty());
    }
    while k < n
        invariant
            k <= n,
            n == jobs@.len(),
            jv == jobs_view(jobs@),
            jobs_are_dirs(jv),
            empty@.len() == 0,
            out0 == entries_view(old(out)@),
            jobs_are_dirs(jobs_view(next@)),
            jobs_round(jv, *matcher, k as int).error is None,
            entries_view(out@) == out0 + jobs_round(jv, *matcher, k as int).entries,
            jobs_view(next@) == jobs_round(jv, *matcher, k as int).next,
        decreases n - k,
    {
        let ghost sofar = jobs_round(jv, *matcher, k as int);
        let ghost out1 = entries_view(out@);
        let job = &jobs[k];
        assert(jv[k as int] == job@);
        let r = round_of_job(job, matcher, empty, out, &mut next);
        proof {
            let w = jobs_round(jv, *matcher, k + 1);
            match job_names(job@, *matcher) {
                Err(e) => {
                    assert(out0 + sofar.entries =~= out1);
                },
                Ok(names) => {
                    let round = names_round(names, job@.path, *matcher, names.len() as int);
                    assert(out0 + (sofar.entries + round.entries) =~= out1 + round.entries);
                },
            }
        }
        match r {
            Some(e) => {
                proof {
                    lemma_jobs_round_error(jv, *matcher, k + 1, n as int);
                }
                return Some(e);
            },
            None => {},
        }
        k += 1;
    }
    if next.len() == 0 || depth == usize::MAX {
        proof {
            let round = jobs_round(jv, *matcher, n as int);
            assert(out0 + round.entries == entries_view(out@));
        }
        return None;
    }
    let ghost out2 = entries_view(out@);
    let r = bfs_walk(next, matcher, depth + 1, empty, out);
    proof {
        let round = jobs_round(jv, *matcher, n as int);
        let rest = bfs_jobs(round.next, *matcher, depth + 1);
        assert(out0 + (round.entries + rest.entries) =~= out2 + rest.entries);
    }
    r
}

/// Loads all that the matcher takes at or below the link. A directory that
/// fails to load is left as failed, and loading goes on beside it.
fn load_all<S: TreeStore, M: Matcher>(link: &mut Link, store: &mut InnerStore<S>, matcher: &M, path: &mut RepoPath)
    requires
        old(link)@.wf(),
    ensures
        final(store).written@ == old(store).written@,
        final(path)@ == old(path)@,
        final(link)@.wf(),
        loads_to(old(link)@, final(link)@),
        extends(old(store).reads@, final(store).reads@),
        loads_by(old(link)@, final(link)@, old(path)@, final(store).reads@),
        dir_loaded(final(link)@, old(path)@, *matcher),
    decreases usize::MAX - old(path)@.len(), 1int,
{
    let ghost r0 = store.reads@;
    proof {
        lemma_loads_to_refl(link@);
        lemma_loads_by_refl(link@, path@, r0);
        lemma_extends_refl(r0);
    }
    match link {
        Link::Leaf(_) => {},
        Link::Ephemeral(cs) => {
            if matcher.matches_directory(path) == DirectoryMatch::Nothing {
                return ;
            }
            load_all_kids(cs, store, matcher, path);
        },
        Link::Durable(entry) => {
            if matcher.matches_directory(path) == DirectoryMatch::Nothing {
                return ;
            }
            load_entry(entry, store, path);
            let ghost r1 = store.reads@;
            let ghost mid = LinkView::Durable(entry.node@, entry.links@);
            proof {
                if old(link)@->Durable_1 is Unloaded {
                    lemma_extends_one(r0, r1);
                    lemma_loaded_by_last(entry.node@, path@, r1);
                } else {
                    lemma_loads_by_refl(mid, path@, r1);
                }
            }
            match &mut entry.links {
                Lazy::Loaded(cs) => {
                    let ghost loaded = children_view(cs@);
                    load_all_kids(cs, store, matcher, path);
                    proof {
                        match old(link)@ {
                            LinkView::Durable(_, LazyView::Loaded(ca)) => {
                                assert(ca == loaded);
                            },
                            _ => {},
                        }
                        lemma_extends_trans(r0, r1, store.reads@);
                        lemma_loads_by_more(old(link)@, mid, path@, r1, store.reads@);
                        lemma_loads_by_trans(old(link)@, mid, link@, path@, store.reads@);
                    }
                },
                _ => {},
            }
        },
    }
}

/// Loads all that the matcher takes below the children of the directory at
/// the path.
fn load_all_kids<S: TreeStore, M: Matcher>(
    cs: &mut Vec<Child>,
    store: &mut InnerStore<S>,
    matcher: &M,
    path: &mut RepoPath,
)
    requires
        wf_children(children_view(old(cs)@)),
    ensures
        final(store).written@ == old(store).written@,
        final(path)@ == old(path)@,
        wf_children(children_view(final(cs)@)),
        kids_load_to(children_view(old(cs)@), children_view(final(cs)@)),
        extends(old(store).reads@, final(store).reads@),
        kids_load_by(children_view(old(cs)@), children_view(final(cs)@), old(path)@, final(store).reads@),
        kids_loaded(children_view(final(cs)@), old(path)@, *matcher, final(cs)@.len() as int),
    decreases usize::MAX - old(path)@.len(), 0int,
{
    let ghost before = children_view(cs@);
    let n = cs.len();
    let mut i: usize = 0;
    proof {
        lemma_kids_load_to_refl(before);
        lemma_kids_load_by_refl(before, path@, store.reads@);
        lemma_extends_refl(store.reads@);
    }
    if path.len() == usize::MAX {
        proof {
            lemma_kids_loaded_at_limit(before, path@, *matcher, n as int);
        }
        return ;
    }
    while i < n
        invariant
            store.written@ == old(store).written@,
            extends(old(store).reads@, store.reads@),
            kids_load_by(before, children_view(cs@), old(path)@, store.reads@),
            n == cs@.len(),
            i <= n,
            before == children_view(old(cs)@),
            path@ == old(path)@,
            path@.len() < usize::MAX,
            wf_children(children_view(cs@)),
            kids_load_to(before, children_view(cs@)),
            kids_loaded(children_view(cs@), old(path)@, *matcher, i as int),
        decreases n - i,
    {
        let ghost cur = children_view(cs@);
        let ghost ri = store.reads@;
        let child = &mut cs[i];
        assert(child@ == cur[i as int]);
        assert(cur[i as int].link.wf());
        path.push(child.name.clone());
        load_all(&mut child.link, store, matcher, path);
        path.pop();
        proof {
            assert(path@ =~= old(path)@);
            let ch = cs@[i as int]@;
            let now = children_view(cs@);
            assert(now =~= cur.update(i as int, ch));
            lemma_kids_update(cur, i as int, ch);
            lemma_kids_load_to_trans(before, cur, now);
            lemma_extends_trans(old(store).reads@, ri, store.reads@);
            lemma_kids_load_by_step(before, cur, i as int, ch, old(path)@, ri, store.reads@);
            lemma_kids_loaded_prefix(now, cur, old(path)@, *matcher, i as int);
            assert(now[i as int] == ch);
        }
        i += 1;
    }
}

/// Loads what a diff of the two links at the path looks at: below a pair of
/// directories, the stored directories of both sides unless the matcher
/// takes nothing there or both are stored under one hash; and all that the
/// matcher takes below a directory that has no directory against it. A
/// directory that fails to load is left as failed, and loading goes on
/// beside it.
fn load_pair<S: TreeStore, M: Matcher>(
    l: &mut Link,
    r: &mut Link,
    store: &mut InnerStore<S>,
    matcher: &M,
    path: &mut RepoPath,
)
    requires
        old(l)@.wf(),
        old(r)@.wf(),
    ensures
        final(store).written@ == old(store).written@,
        final(path)@ == old(path)@,
        final(l)@.wf(),
        final(r)@.wf(),
        loads_to(old(l)@, final(l)@),
        loads_to(old(r)@, final(r)@),
        extends(old(store).reads@, final(store).reads@),
        loads_by(old(l)@, final(l)@, old(path)@, final(store).reads@),
        loads_by(old(r)@, final(r)@, old(path)@, final(store).reads@),
        sub_loaded(Some(final(l)@), Some(final(r)@), old(path)@, *matcher),
    decreases usize::MAX - old(path)@.len(), 2int,
{
    let ghost r0 = store.reads@;
    proof {
        lemma_loads_to_refl(l@);
        lemma_loads_to_refl(r@);
        lemma_loads_by_refl(l@, path@, r0);
        lemma_loads_by_refl(r@, path@, r0);
        lemma_extends_refl(r0);
    }
    let l_is_file = match l {
        Link::Leaf(_) => true,
        _ => false,
    };
    let r_is_file = match r {
        Link::Leaf(_) => true,
        _ => false,
    };
    if l_is_file && r_is_file {
        return ;
    }
    if l_is_file {
        load_all(r, store, matcher, path);
        proof {
            lemma_solo_loaded(r@, path@, *matcher);
            lemma_loads_by_refl(l@, path@, store.reads@);
        }
        return ;
    }
    if r_is_file {
        load_all(l, store, matcher, path);
        proof {
            lemma_solo_loaded(l@, path@, *matcher);
            lemma_loads_by_refl(r@, path@, store.reads@);
        }
        return ;
    }
    if matcher.matches_directory(path) == DirectoryMatch::Nothing || is_same_stored(Some(&*l), Some(&*r)) {
        return ;
    }
    match l {
        Link::Ephemeral(lcs) => {
            load_against(lcs, r, store, matcher, path);
        },
        Link::Durable(entry) => {
            load_entry(entry, store, path);
            let ghost r1 = store.reads@;
            let ghost mid = LinkView::Durable(entry.node@, entry.links@);
            proof {
                if old(l)@->Durable_1 is Unloaded {
                    lemma_extends_one(r0, r1);
                    lemma_loaded_by_last(entry.node@, path@, r1);
                } else {
                    lemma_loads_by_refl(mid, path@, r1);
                }
            }
            match &mut entry.links {
                Lazy::Loaded(lcs) => {
                    let ghost loaded = children_view(lcs@);
                    load_against(lcs, r, store, matcher, path);
                    proof {
                        match old(l)@ {
                            LinkView::Durable(_, LazyView::Loaded(ca)) => {
                                assert(ca == loaded);
                            },
                            _ => {},
                        }
                        lemma_extends_trans(r0, r1, store.reads@);
                        lemma_loads_by_more(old(l)@, mid, path@, r1, store.reads@);
                        lemma_loads_by_trans(old(l)@, mid, l@, path@, store.reads@);
                    }
                },
                _ => {
                    proof {
                        lemma_loads_by_refl(r@, path@, store.reads@);
                    }
                },
            }
        },
        _ => {},
    }
    proof {
        assert(!same_stored(Some(l@), Some(r@)));
    }
}

/// Goes on loading for the children of a left directory against a right
/// directory.
fn load_against<S: TreeStore, M: Matcher>(
    lcs: &mut Vec<Child>,
    r: &mut Link,
    store: &mut InnerStore<S>,
    matcher: &M,
    path: &mut RepoPath,
)
    requires
        wf_children(children_view(old(lcs)@)),
        old(r)@.wf(),
        old(r)@.is_dir(),
    ensures
        final(store).written@ == old(store).written@,
        final(path)@ == old(path)@,
        wf_children(children_view(final(lcs)@)),
        kids_load_to(children_view(old(lcs)@), children_view(final(lcs)@)),
        final(r)@.wf(),
        loads_to(old(r)@, final(r)@),
        extends(old(store).reads@, final(store).reads@),
        kids_load_by(children_view(old(lcs)@), children_view(final(lcs)@), old(path)@, final(store).reads@),
        loads_by(old(r)@, final(r)@, old(path)@, final(store).reads@),
        match side_children(Some(final(r)@), old(path)@) {
            Err(e) => e != ErrorView::InvariantViolated(Violation::NotLoaded),
            Ok(rcs) => names_loaded(
                merge_names(children_view(final(lcs)@), rcs, 0, 0),
                old(path)@,
                *matcher,
                merge_names(children_view(final(lcs)@), rcs, 0, 0).len() as int,
            ),
        },
    decreases usize::MAX - old(path)@.len(), 1int,
{
    let ghost r0 = store.reads@;
    proof {
        lemma_loads_to_refl(r@);
        lemma_kids_load_to_refl(children_view(lcs@));
        lemma_extends_refl(r0);
    }
    match r {
        Link::Ephemeral(rcs) => {
            load_kids(lcs, rcs, store, matcher, path);
            proof {
                lemma_halves_names(children_view(lcs@), children_view(rcs@), path@, *matcher);
            }
        },
        Link::Durable(entry) => {
            load_entry(entry, store, path);
            let ghost r1 = store.reads@;
            let ghost mid = LinkView::Durable(entry.node@, entry.links@);
            proof {
                if old(r)@->Durable_1 is Unloaded {
                    lemma_extends_one(r0, r1);
                    lemma_loaded_by_last(entry.node@, path@, r1);
                } else {
                    lemma_loads_by_refl(mid, path@, r1);
                }
            }
            match &mut entry.links {
                Lazy::Loaded(rcs) => {
                    let ghost loaded = children_view(rcs@);
                    load_kids(lcs, rcs, store, matcher, path);
                    proof {
                        lemma_halves_names(children_view(lcs@), children_view(rcs@), path@, *matcher);
                        match old(r)@ {
                            LinkView::Durable(_, LazyView::Loaded(ca)) => {
                                assert(ca == loaded);
                            },
                            _ => {},
                        }
                        lemma_extends_trans(r0, r1, store.reads@);
                        lemma_loads_by_more(old(r)@, mid, path@, r1, store.reads@);
                        lemma_loads_by_trans(old(r)@, mid, r@, path@, store.reads@);
                    }
                },
                _ => {
                    proof {
                        lemma_kids_load_by_refl(children_view(lcs@), path@, store.reads@);
                    }
                },
            }
        },
        _ => {},
    }
}

/// Goes on loading name by name through the children of two directories.
fn load_kids<S: TreeStore, M: Matcher>(
    lcs: &mut Vec<Child>,
    rcs: &mut Vec<Child>,
    store: &mut InnerStore<S>,
    matcher: &M,
    path: &mut RepoPath,
)
    requires
        wf_children(children_view(old(lcs)@)),
        wf_children(children_view(old(rcs)@)),
    ensures
        final(store).written@ == old(store).written@,
        final(path)@ == old(path)@,
        wf_children(children_view(final(lcs)@)),
        wf_children(children_view(final(rcs)@)),
        kids_load_to(children_view(old(lcs)@), children_view(final(lcs)@)),
        kids_load_to(children_view(old(rcs)@), children_view(final(rcs)@)),
        extends(old(store).reads@, final(store).reads@),
        kids_load_by(children_view(old(lcs)@), children_view(final(lcs)@), old(path)@, final(store).reads@),
        kids_load_by(children_view(old(rcs)@), children_view(final(rcs)@), old(path)@, final(store).reads@),
        old(path)@.len() < usize::MAX ==> halves_loaded(
            children_view(final(lcs)@),
            children_view(final(rcs)@),
            old(path)@,
            *matcher,
            final(lcs)@.len() as int,
            final(rcs)@.len() as int,
        ),
    decreases usize::MAX - old(path)@.len(), 0int,
{
    let ghost l0 = children_view(lcs@);
    let ghost r0 = children_view(rcs@);
    let ghost lnames = child_names(l0);
    let ghost rnames = child_names(r0);
    let ln = lcs.len();
    let rn = rcs.len();
    let mut i: usize = 0;
    let mut j: usize = 0;
    proof {
        lemma_kids_load_to_refl(l0);
        lemma_kids_load_to_refl(r0);
        lemma_child_names(l0);
        lemma_child_names(r0);
        lemma_kids_load_by_refl(l0, path@, store.reads@);
        lemma_kids_load_by_refl(r0, path@, store.reads@);
        lemma_extends_refl(store.reads@);
    }
    if path.len() == usize::MAX {
        return ;
    }
    while i < ln || j < rn
        invariant
            store.written@ == old(store).written@,
            extends(old(store).reads@, store.reads@),
            kids_load_by(l0, children_view(lcs@), old(path)@, store.reads@),
            kids_load_by(r0, children_view(rcs@), old(path)@, store.reads@),
            i <= ln,
            j <= rn,
            ln == lcs@.len(),
            rn == rcs@.len(),
            l0 == children_view(old(lcs)@),
            r0 == children_view(old(rcs)@),
            lnames == child_names(l0),
            rnames == child_names(r0),
            child_names(children_view(lcs@)) == lnames,
            child_names(children_view(rcs@)) == rnames,
            increasing(lnames),
            increasing(rnames),
            path@ == old(path)@,
            path@.len() < usize::MAX,
            wf_children(children_view(lcs@)),
            wf_children(children_view(rcs@)),
            kids_load_to(l0, children_view(lcs@)),
            kids_load_to(r0, children_view(rcs@)),
            names_apart(lnames, rnames, i as int, j as int),
            halves_loaded(
                children_view(lcs@),
                children_view(rcs@),
                old(path)@,
                *matcher,
                i as int,
                j as int,
            ),
        decreases ln - i + rn - j,
    {
        let ghost lcur = children_view(lcs@);
        let ghost rcur = children_view(rcs@);
        let ghost ri = store.reads@;
        let side = if j >= rn {
            Order::Less
        } else if i >= ln {
            Order::Greater
        } else {
            order_bytes(lcs[i].name.as_bytes(), rcs[j].name.as_bytes())
        };
        proof {
            if i < ln {
                assert(lnames[i as int] == lcur[i as int].name);
            }
            if j < rn {
                assert(rnames[j as int] == rcur[j as int].name);
            }
        }
        match side {
            Order::Less => {
                let child = &mut lcs[i];
                assert(child@ == lcur[i as int]);
                assert(lcur[i as int].link.wf());
                path.push(child.name.clone());
                load_all(&mut child.link, store, matcher, path);
                path.pop();
                proof {
                    let ch = lcs@[i as int]@;
                    let lnow = children_view(lcs@);
                    assert(lnow =~= lcur.update(i as int, ch));
                    lemma_kids_update(lcur, i as int, ch);
                    lemma_kids_load_to_trans(l0, lcur, lnow);
                    assert(child_names(lnow) =~= lnames);
                    lemma_extends_trans(old(store).reads@, ri, store.reads@);
                    lemma_kids_load_by_step(l0, lcur, i as int, ch, old(path)@, ri, store.reads@);
                    lemma_kids_load_by_more(r0, rcur, old(path)@, ri, store.reads@);
                    lemma_apart_left(lnames, rnames, i as int, j as int);
                    lemma_solo_loaded(ch.link, old(path)@.push(ch.name), *matcher);
                    lemma_kept_left(lcur, lnow, rcur, old(path)@, *matcher, i as int, j as int);
                }
                i += 1;
            },
            Order::Greater => {
                let child = &mut rcs[j];
                assert(child@ == rcur[j as int]);
                assert(rcur[j as int].link.wf());
                path.push(child.name.clone());
                load_all(&mut child.link, store, matcher, path);
                path.pop();
                proof {
                    let ch = rcs@[j as int]@;
                    let rnow = children_view(rcs@);
                    assert(rnow =~= rcur.update(j as int, ch));
                    lemma_kids_update(rcur, j as int, ch);
                    lemma_kids_load_to_trans(r0, rcur, rnow);
                    assert(child_names(rnow) =~= rnames);
                    lemma_extends_trans(old(store).reads@, ri, store.reads@);
                    lemma_kids_load_by_step(r0, rcur, j as int, ch, old(path)@, ri, store.reads@);
                    lemma_kids_load_by_more(l0, lcur, old(path)@, ri, store.reads@);
                    lemma_apart_right(lnames, rnames, i as int, j as int);
                    lemma_solo_loaded(ch.link, old(path)@.push(ch.name), *matcher);
                    lemma_kept_right(lcur, rcur, rnow, old(path)@, *matcher, i as int, j as int);
                }
                j += 1;
            },
            Order::Equal => {
                let lc = &mut lcs[i];
                let rc = &mut rcs[j];
                assert(lc@ == lcur[i as int]);
                assert(rc@ == rcur[j as int]);
                assert(lcur[i as int].link.wf());
                assert(rcur[j as int].link.wf());
                path.push(lc.name.clone());
                load_pair(&mut lc.link, &mut rc.link, store, matcher, path);
                path.pop();
                proof {
                    let lch = lcs@[i as int]@;
                    let lnow = children_view(lcs@);
                    assert(lnow =~= lcur.update(i as int, lch));
                    lemma_kids_update(lcur, i as int, lch);
                    lemma_kids_load_to_trans(l0, lcur, lnow);
                    let rch = rcs@[j as int]@;
                    let rnow = children_view(rcs@);
                    assert(rnow =~= rcur.update(j as int, rch));
                    lemma_kids_update(rcur, j as int, rch);
                    lemma_kids_load_to_trans(r0, rcur, rnow);
                    assert(child_names(lnow) =~= lnames);
                    assert(child_names(rnow) =~= rnames);
                    lemma_extends_trans(old(store).reads@, ri, store.reads@);
                    lemma_kids_load_by_step(l0, lcur, i as int, lch, old(path)@, ri, store.reads@);
                    lemma_kids_load_by_step(r0, rcur, j as int, rch, old(path)@, ri, store.reads@);
                    lemma_apart_both(lnames, rnames, i as int, j as int);
                    lemma_kept_both(lcur, lnow, rcur, rnow, old(path)@, *matcher, i as int, j as int);
                }
                i += 1;
                j += 1;
            },
        }
        assert(path@ =~= old(path)@);
    }
}

/// The result of a diff with its error replaced by the view of the error.
pub open spec fn diff_view(entries: Seq<DiffEntry>, error: Option<Error>) -> DiffWalk {
    DiffWalk {
        entries: entries_view(entries),
        error: match error {
            Some(e) => Some(e@),
            None => None,
        },
    }
}

/// Lists the files that differ between two trees: the files that only one
/// tree has, and the files that both have with different records, as far as
/// the matcher takes them. With `bfs_diff` the differences come breadth
/// first, else depth first; an error ends the list.
///
/// Directories of which the matcher takes nothing are not looked into, nor
/// are two directories that are stored under the same hash. Each stored
/// directory that is looked into is loaded first, so the diff never ends
/// for want of a directory that is not loaded; what fails to load ends it
/// when its turn comes. Each directory that is loaded holds what the store
/// answered when it was asked for it: see `loads_by`. What is listed is
/// read off the trees as they stand afterwards: see `dfs_job` and
/// `bfs_jobs`.
pub fn diff<S: TreeStore, M: Matcher>(
    left: &mut Tree,
    right: &mut Tree,
    store: &mut InnerStore<S>,
    matcher: &M,
    bfs_diff: bool,
) -> (r: (Vec<DiffEntry>, Option<Error>))
    requires
        old(left).wf(),
        old(right).wf(),
    ensures
        final(store).written@ == old(store).written@,
        final(left).wf(),
        final(right).wf(),
        loads_to(old(left).root@, final(left).root@),
        loads_to(old(right).root@, final(right).root@),
        extends(old(store).reads@, final(store).reads@),
        loads_by(old(left).root@, final(left).root@, Seq::empty(), final(store).reads@),
        loads_by(old(right).root@, final(right).root@, Seq::empty(), final(store).reads@),
        diff_view(r.0@, r.1) == diff_walk(final(left).root@, final(right).root@, *matcher, bfs_diff),
        !is_not_loaded(diff_walk(final(left).root@, final(right).root@, *matcher, bfs_diff).error),
        job_loaded(root_job(final(left).root@, final(right).root@), *matcher),
{
    let mut path = RepoPath::new();
    load_pair(&mut left.root, &mut right.root, store, matcher, &mut path);
    let empty: Vec<Child> = Vec::new();
    let mut out: Vec<DiffEntry> = Vec::new();
    let ghost job = root_job(left.root@, right.root@);
    assert(entries_view(out@) =~= Seq::<DiffView>::empty());
    proof {
        assert(job_loaded(job, *matcher));
        lemma_dfs_loaded(job, *matcher);
        assert(jobs_loaded(seq![job], *matcher));
        lemma_bfs_loaded(seq![job], *matcher, 0);
    }
    let error = if bfs_diff {
        let mut jobs: Vec<JobRef> = Vec::new();
        jobs.push(JobRef { path: RepoPath::new(), left: Some(&left.root), right: Some(&right.root) });
        proof {
            assert(jobs_view(jobs@) =~= seq![job]);
            let w = bfs_jobs(seq![job], *matcher, 0);
            assert(Seq::<DiffView>::empty() + w.entries =~= w.entries);
        }
        bfs_walk(jobs, matcher, 0, &empty, &mut out)
    } else {
        proof {
            let w = dfs_job(job, *matcher);
            assert(Seq::<DiffView>::empty() + w.entries =~= w.entries);
        }
        dfs_walk(Some(&left.root), Some(&right.root), matcher, &mut path, &empty, &mut out)
    };
    (out, error)
}

} // verus!
