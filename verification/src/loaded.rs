use crate::diff::{
    bfs_jobs, dfs_job, dfs_names, job_names, jobs_round, merge_names, names_round, side_children,
    sub_job, Job, Named,
};
use crate::error::{ErrorView, Violation};
use crate::link::{sorted_children, ChildView, LazyView, LinkView};
use crate::order::{lemma_lex_asymmetric, lemma_lex_total, lemma_lex_transitive, lex_lt};
use crate::matcher::{DirectoryMatch, Matcher};
use vstd::prelude::*;

verus! {

/// All that the matcher takes at or below the link is in memory, as far as
/// it could be loaded: no stored directory there is left unasked, except
/// below a directory that failed to load and below a directory of which the
/// matcher takes nothing.
pub open spec fn dir_loaded<M: Matcher>(l: LinkView, path: Seq<Seq<u8>>, m: M) -> bool
    decreases usize::MAX - path.len(), 1int, 0int,
{
    if m.dir_spec(path) == DirectoryMatch::Nothing {
        true
    } else {
        match l {
            LinkView::Leaf(_) => true,
            LinkView::Durable(_, LazyView::Unloaded) => false,
            LinkView::Durable(_, LazyView::Failed(_)) => true,
            d => kids_loaded(d.children(), path, m, d.children().len() as int),
        }
    }
}

/// `dir_loaded` of the first `k` children of the directory at the path.
pub open spec fn kids_loaded<M: Matcher>(cs: Seq<ChildView>, path: Seq<Seq<u8>>, m: M, k: int) -> bool
    decreases usize::MAX - path.len(), 0int, k,
{
    if k <= 0 || k > cs.len() {
        true
    } else if path.len() >= usize::MAX {
        kids_loaded(cs, path, m, k - 1)
    } else {
        kids_loaded(cs, path, m, k - 1) && dir_loaded(cs[k - 1].link, path.push(cs[k - 1].name), m)
    }
}

/// `kids_loaded` of the first `k` children looks at these children only.
pub proof fn lemma_kids_loaded_prefix<M: Matcher>(
    a: Seq<ChildView>,
    b: Seq<ChildView>,
    path: Seq<Seq<u8>>,
    m: M,
    k: int,
)
    requires
        0 <= k <= a.len(),
        k <= b.len(),
        forall|j: int| 0 <= j < k ==> a[j] == b[j],
    ensures
        kids_loaded(a, path, m, k) == kids_loaded(b, path, m, k),
    decreases k,
{
    if k > 0 {
        lemma_kids_loaded_prefix(a, b, path, m, k - 1);
    }
}

/// At the greatest length of a path no child is looked at.
pub proof fn lemma_kids_loaded_at_limit<M: Matcher>(cs: Seq<ChildView>, path: Seq<Seq<u8>>, m: M, k: int)
    requires
        path.len() >= usize::MAX,
    ensures
        kids_loaded(cs, path, m, k),
    decreases k,
{
    if 0 < k <= cs.len() {
        lemma_kids_loaded_at_limit(cs, path, m, k - 1);
    }
}

/// Each of the first `k` children is loaded where all of them are.
pub proof fn lemma_kids_loaded_each<M: Matcher>(cs: Seq<ChildView>, path: Seq<Seq<u8>>, m: M, k: int, a: int)
    requires
        kids_loaded(cs, path, m, k),
        0 <= a < k <= cs.len(),
        path.len() < usize::MAX,
    ensures
        dir_loaded(cs[a].link, path.push(cs[a].name), m),
    decreases k,
{
    if a < k - 1 {
        lemma_kids_loaded_each(cs, path, m, k - 1, a);
    }
}

/// All that a diff looks at in and below a pair of directories is in
/// memory, as far as it could be loaded: the diff does not come to a stored
/// directory that was not asked for.
pub open spec fn job_loaded<M: Matcher>(job: Job, m: M) -> bool
    decreases usize::MAX - job.path.len(), 1int, 0int,
{
    match job_names(job, m) {
        Err(e) => e != ErrorView::InvariantViolated(Violation::NotLoaded),
        Ok(names) => names_loaded(names, job.path, m, names.len() as int),
    }
}

/// `job_loaded` of the pairs of directories under the first `k` names of a
/// pair of directories.
pub open spec fn names_loaded<M: Matcher>(names: Seq<Named>, path: Seq<Seq<u8>>, m: M, k: int) -> bool
    decreases usize::MAX - path.len(), 0int, k,
{
    if k <= 0 || k > names.len() {
        true
    } else if path.len() >= usize::MAX {
        names_loaded(names, path, m, k - 1)
    } else {
        names_loaded(names, path, m, k - 1) && match sub_job(
            names[k - 1].left,
            names[k - 1].right,
            path.push(names[k - 1].name),
        ) {
            None => true,
            Some(j) => job_loaded(j, m),
        }
    }
}

/// `job_loaded` of the pair of directories that stand at the path on the
/// two sides, if there is one.
pub open spec fn sub_loaded<M: Matcher>(
    left: Option<LinkView>,
    right: Option<LinkView>,
    path: Seq<Seq<u8>>,
    m: M,
) -> bool {
    match sub_job(left, right, path) {
        None => true,
        Some(j) => job_loaded(j, m),
    }
}

/// Every pair of directories of the list is loaded.
pub open spec fn jobs_loaded<M: Matcher>(jobs: Seq<Job>, m: M) -> bool {
    forall|k: int| 0 <= k < jobs.len() ==> job_loaded(#[trigger] jobs[k], m)
}

/// The names are loaded exactly where what stands under each is.
pub proof fn lemma_names_loaded_all<M: Matcher>(names: Seq<Named>, path: Seq<Seq<u8>>, m: M, k: int)
    requires
        0 <= k <= names.len(),
        path.len() < usize::MAX,
    ensures
        names_loaded(names, path, m, k) <==> (forall|t: int|
            0 <= t < k ==> sub_loaded(
                (#[trigger] names[t]).left,
                names[t].right,
                path.push(names[t].name),
                m,
            )),
    decreases k,
{
    if k > 0 {
        lemma_names_loaded_all(names, path, m, k - 1);
        if names_loaded(names, path, m, k) {
            assert forall|t: int| 0 <= t < k implies sub_loaded(
                (#[trigger] names[t]).left,
                names[t].right,
                path.push(names[t].name),
                m,
            ) by {
                if t < k - 1 {
                }
            }
        }
    }
}

/// At the greatest length of a path no name is looked at.
pub proof fn lemma_names_loaded_at_limit<M: Matcher>(names: Seq<Named>, path: Seq<Seq<u8>>, m: M, k: int)
    requires
        path.len() >= usize::MAX,
    ensures
        names_loaded(names, path, m, k),
    decreases k,
{
    if 0 < k <= names.len() {
        lemma_names_loaded_at_limit(names, path, m, k - 1);
    }
}

/// An error of a diff is that of a stored directory that was not loaded.
pub open spec fn is_not_loaded(e: Option<ErrorView>) -> bool {
    e == Some(ErrorView::InvariantViolated(Violation::NotLoaded))
}

/// The depth-first diff of a loaded pair of directories does not end for
/// want of a directory that was not loaded.
pub proof fn lemma_dfs_loaded<M: Matcher>(job: Job, m: M)
    requires
        job_loaded(job, m),
    ensures
        !is_not_loaded(dfs_job(job, m).error),
    decreases usize::MAX - job.path.len(), 1int, 0int,
{
    match job_names(job, m) {
        Err(e) => {},
        Ok(names) => {
            lemma_dfs_names_loaded(names, job.path, m, names.len() as int);
        },
    }
}

/// `lemma_dfs_loaded` for the first `k` names of a pair of directories.
pub proof fn lemma_dfs_names_loaded<M: Matcher>(names: Seq<Named>, path: Seq<Seq<u8>>, m: M, k: int)
    requires
        names_loaded(names, path, m, k),
        k <= names.len(),
    ensures
        !is_not_loaded(dfs_names(names, path, m, k).error),
    decreases usize::MAX - path.len(), 0int, k,
{
    if 0 < k {
        lemma_dfs_names_loaded(names, path, m, k - 1);
        let before = dfs_names(names, path, m, k - 1);
        if before.error is None && path.len() < usize::MAX {
            let t = names[k - 1];
            match sub_job(t.left, t.right, path.push(t.name)) {
                None => {},
                Some(j) => {
                    lemma_dfs_loaded(j, m);
                },
            }
        }
    }
}

/// A round over loaded names does not end for want of a directory that
/// was not loaded, and the pairs that it leaves for the next round are
/// loaded.
pub proof fn lemma_names_round_loaded<M: Matcher>(names: Seq<Named>, path: Seq<Seq<u8>>, m: M, k: int)
    requires
        names_loaded(names, path, m, k),
        k <= names.len(),
    ensures
        !is_not_loaded(names_round(names, path, m, k).error),
        jobs_loaded(names_round(names, path, m, k).next, m),
    decreases k,
{
    if 0 < k {
        lemma_names_round_loaded(names, path, m, k - 1);
    }
}

/// A round over loaded pairs of directories does not end for want of a
/// directory that was not loaded, and the pairs that it leaves for the
/// next round are loaded.
pub proof fn lemma_jobs_round_loaded<M: Matcher>(jobs: Seq<Job>, m: M, k: int)
    requires
        jobs_loaded(jobs, m),
        k <= jobs.len(),
    ensures
        !is_not_loaded(jobs_round(jobs, m, k).error),
        jobs_loaded(jobs_round(jobs, m, k).next, m),
    decreases k,
{
    if 0 < k {
        lemma_jobs_round_loaded(jobs, m, k - 1);
        let before = jobs_round(jobs, m, k - 1);
        if before.error is None {
            assert(job_loaded(jobs[k - 1], m));
            match job_names(jobs[k - 1], m) {
                Err(e) => {},
                Ok(names) => {
                    lemma_names_round_loaded(names, jobs[k - 1].path, m, names.len() as int);
                },
            }
        }
    }
}

/// The breadth-first diff of loaded pairs of directories does not end for
/// want of a directory that was not loaded.
pub proof fn lemma_bfs_loaded<M: Matcher>(jobs: Seq<Job>, m: M, depth: int)
    requires
        jobs_loaded(jobs, m),
    ensures
        !is_not_loaded(bfs_jobs(jobs, m, depth).error),
    decreases usize::MAX - depth,
{
    lemma_jobs_round_loaded(jobs, m, jobs.len() as int);
    let round = jobs_round(jobs, m, jobs.len() as int);
    if round.error is None && round.next.len() != 0 && 0 <= depth < usize::MAX {
        lemma_bfs_loaded(round.next, m, depth + 1);
    }
}

/// The names of the children of a directory, in their order.
pub open spec fn child_names(cs: Seq<ChildView>) -> Seq<Seq<u8>> {
    Seq::new(cs.len(), |k: int| cs[k].name)
}

/// Where merging two directories by name stands at child `i` of the left
/// and child `j` of the right: the names that the right is past come before
/// all that the left still has, and the other way round.
pub open spec fn names_apart(ln: Seq<Seq<u8>>, rn: Seq<Seq<u8>>, i: int, j: int) -> bool {
    &&& forall|a: int, b: int| 0 <= b < j && i <= a < ln.len() ==> lex_lt(#[trigger] rn[b], #[trigger] ln[a])
    &&& forall|a: int, b: int| 0 <= a < i && j <= b < rn.len() ==> lex_lt(#[trigger] ln[a], #[trigger] rn[b])
}

/// The names stand in strictly increasing byte order.
pub open spec fn increasing(ns: Seq<Seq<u8>>) -> bool {
    forall|a: int, b: int| 0 <= a < b < ns.len() ==> lex_lt(#[trigger] ns[a], #[trigger] ns[b])
}

/// The names of sorted children are increasing.
pub proof fn lemma_child_names(cs: Seq<ChildView>)
    requires
        sorted_children(cs),
    ensures
        increasing(child_names(cs)),
{
    let ns = child_names(cs);
    assert forall|a: int, b: int| 0 <= a < b < ns.len() implies lex_lt(#[trigger] ns[a], #[trigger] ns[b]) by {
        assert(lex_lt(cs[a].name, cs[b].name));
    }
}

/// A name of the left that comes before the next name of the right, or
/// after the last, is no name of the right; the merge goes on behind it.
pub proof fn lemma_apart_left(ln: Seq<Seq<u8>>, rn: Seq<Seq<u8>>, i: int, j: int)
    requires
        increasing(ln),
        increasing(rn),
        names_apart(ln, rn, i, j),
        0 <= i < ln.len(),
        0 <= j <= rn.len(),
        j >= rn.len() || lex_lt(ln[i], rn[j]),
    ensures
        names_apart(ln, rn, i + 1, j),
        !rn.contains(ln[i]),
{
    assert forall|b: int| j <= b < rn.len() implies lex_lt(ln[i], #[trigger] rn[b]) by {
        if b > j {
            assert(lex_lt(rn[j], rn[b]));
            lemma_lex_transitive(ln[i], rn[j], rn[b]);
        }
    }
    assert forall|b: int| 0 <= b < rn.len() implies #[trigger] rn[b] != ln[i] by {
        if b < j {
            assert(lex_lt(rn[b], ln[i]));
            lemma_lex_asymmetric(rn[b], ln[i]);
        } else {
            lemma_lex_asymmetric(ln[i], rn[b]);
        }
    }
}

/// `lemma_apart_left` with the sides exchanged.
pub proof fn lemma_apart_right(ln: Seq<Seq<u8>>, rn: Seq<Seq<u8>>, i: int, j: int)
    requires
        increasing(ln),
        increasing(rn),
        names_apart(ln, rn, i, j),
        0 <= i <= ln.len(),
        0 <= j < rn.len(),
        i >= ln.len() || lex_lt(rn[j], ln[i]),
    ensures
        names_apart(ln, rn, i, j + 1),
        !ln.contains(rn[j]),
{
    assert forall|a: int| i <= a < ln.len() implies lex_lt(rn[j], #[trigger] ln[a]) by {
        if a > i {
            assert(lex_lt(ln[i], ln[a]));
            lemma_lex_transitive(rn[j], ln[i], ln[a]);
        }
    }
    assert forall|a: int| 0 <= a < ln.len() implies #[trigger] ln[a] != rn[j] by {
        if a < i {
            assert(lex_lt(ln[a], rn[j]));
            lemma_lex_asymmetric(ln[a], rn[j]);
        } else {
            lemma_lex_asymmetric(rn[j], ln[a]);
        }
    }
}

/// Behind a name that both sides have the merge goes on on both sides.
pub proof fn lemma_apart_both(ln: Seq<Seq<u8>>, rn: Seq<Seq<u8>>, i: int, j: int)
    requires
        increasing(ln),
        increasing(rn),
        names_apart(ln, rn, i, j),
        0 <= i < ln.len(),
        0 <= j < rn.len(),
        ln[i] == rn[j],
    ensures
        names_apart(ln, rn, i + 1, j + 1),
{
    assert forall|a: int, b: int| 0 <= b < j + 1 && i + 1 <= a < ln.len() implies lex_lt(
        #[trigger] rn[b],
        #[trigger] ln[a],
    ) by {
        if b == j {
            assert(lex_lt(ln[i], ln[a]));
        }
    }
    assert forall|a: int, b: int| 0 <= a < i + 1 && j + 1 <= b < rn.len() implies lex_lt(
        #[trigger] ln[a],
        #[trigger] rn[b],
    ) by {
        if a == i {
            assert(lex_lt(rn[j], rn[b]));
        }
    }
}

/// What stands under the names of two directories is loaded, for the first
/// `i` children of the left and the first `j` of the right: a child whose
/// name the other side lacks by itself, and two children of one name as a
/// pair.
pub open spec fn halves_loaded<M: Matcher>(
    lcs: Seq<ChildView>,
    rcs: Seq<ChildView>,
    path: Seq<Seq<u8>>,
    m: M,
    i: int,
    j: int,
) -> bool {
    &&& forall|a: int|
        0 <= a < i && a < lcs.len() && !child_names(rcs).contains((#[trigger] lcs[a]).name) ==> sub_loaded(
            Some(lcs[a].link),
            None,
            path.push(lcs[a].name),
            m,
        )
    &&& forall|b: int|
        0 <= b < j && b < rcs.len() && !child_names(lcs).contains((#[trigger] rcs[b]).name) ==> sub_loaded(
            None,
            Some(rcs[b].link),
            path.push(rcs[b].name),
            m,
        )
    &&& forall|a: int, b: int|
        0 <= a < i && a < lcs.len() && 0 <= b < j && b < rcs.len() && (#[trigger] lcs[a]).name == (
        #[trigger] rcs[b]).name ==> sub_loaded(
            Some(lcs[a].link),
            Some(rcs[b].link),
            path.push(lcs[a].name),
            m,
        )
}

/// Where all that stands under the names of two directories is loaded,
/// so is what stands under each name of their merge.
pub proof fn lemma_merge_loaded<M: Matcher>(
    lcs: Seq<ChildView>,
    rcs: Seq<ChildView>,
    i: int,
    j: int,
    path: Seq<Seq<u8>>,
    m: M,
)
    requires
        sorted_children(lcs),
        sorted_children(rcs),
        0 <= i <= lcs.len(),
        0 <= j <= rcs.len(),
        names_apart(child_names(lcs), child_names(rcs), i, j),
        halves_loaded(lcs, rcs, path, m, lcs.len() as int, rcs.len() as int),
    ensures
        forall|t: int|
            0 <= t < merge_names(lcs, rcs, i, j).len() ==> sub_loaded(
                (#[trigger] merge_names(lcs, rcs, i, j)[t]).left,
                merge_names(lcs, rcs, i, j)[t].right,
                path.push(merge_names(lcs, rcs, i, j)[t].name),
                m,
            ),
    decreases lcs.len() - i + rcs.len() - j,
{
    let ln = child_names(lcs);
    let rn = child_names(rcs);
    lemma_child_names(lcs);
    lemma_child_names(rcs);
    let all = merge_names(lcs, rcs, i, j);
    if i == lcs.len() && j == rcs.len() {
    } else if j >= rcs.len() || (i < lcs.len() && lex_lt(lcs[i].name, rcs[j].name)) {
        assert(ln[i] == lcs[i].name);
        if j < rcs.len() {
            assert(rn[j] == rcs[j].name);
        }
        lemma_apart_left(ln, rn, i, j);
        lemma_merge_loaded(lcs, rcs, i + 1, j, path, m);
        let rest = merge_names(lcs, rcs, i + 1, j);
        let head = Named { name: lcs[i].name, left: Some(lcs[i].link), right: None };
        assert(all == seq![head] + rest);
        assert forall|t: int| 0 <= t < all.len() implies sub_loaded(
            (#[trigger] all[t]).left,
            all[t].right,
            path.push(all[t].name),
            m,
        ) by {
            if t == 0 {
                assert(all[0] == head);
                assert(!child_names(rcs).contains(lcs[i].name));
            } else {
                assert(all[t] == rest[t - 1]);
            }
        }
    } else if i >= lcs.len() || lex_lt(rcs[j].name, lcs[i].name) {
        assert(rn[j] == rcs[j].name);
        if i < lcs.len() {
            assert(ln[i] == lcs[i].name);
        }
        lemma_apart_right(ln, rn, i, j);
        lemma_merge_loaded(lcs, rcs, i, j + 1, path, m);
        let rest = merge_names(lcs, rcs, i, j + 1);
        let head = Named { name: rcs[j].name, left: None, right: Some(rcs[j].link) };
        assert(all == seq![head] + rest);
        assert forall|t: int| 0 <= t < all.len() implies sub_loaded(
            (#[trigger] all[t]).left,
            all[t].right,
            path.push(all[t].name),
            m,
        ) by {
            if t == 0 {
                assert(all[0] == head);
                assert(!child_names(lcs).contains(rcs[j].name));
            } else {
                assert(all[t] == rest[t - 1]);
            }
        }
    } else {
        lemma_lex_total(lcs[i].name, rcs[j].name);
        assert(ln[i] == lcs[i].name);
        assert(rn[j] == rcs[j].name);
        lemma_apart_both(ln, rn, i, j);
        lemma_merge_loaded(lcs, rcs, i + 1, j + 1, path, m);
        let rest = merge_names(lcs, rcs, i + 1, j + 1);
        let head = Named { name: lcs[i].name, left: Some(lcs[i].link), right: Some(rcs[j].link) };
        assert(all == seq![head] + rest);
        assert forall|t: int| 0 <= t < all.len() implies sub_loaded(
            (#[trigger] all[t]).left,
            all[t].right,
            path.push(all[t].name),
            m,
        ) by {
            if t == 0 {
                assert(all[0] == head);
            } else {
                assert(all[t] == rest[t - 1]);
            }
        }
    }
}

/// Where all that stands under the names of two directories is loaded,
/// the names of their merge are loaded.
pub proof fn lemma_halves_names<M: Matcher>(
    lcs: Seq<ChildView>,
    rcs: Seq<ChildView>,
    path: Seq<Seq<u8>>,
    m: M,
)
    requires
        sorted_children(lcs),
        sorted_children(rcs),
        path.len() < usize::MAX ==> halves_loaded(lcs, rcs, path, m, lcs.len() as int, rcs.len() as int),
    ensures
        names_loaded(
            merge_names(lcs, rcs, 0, 0),
            path,
            m,
            merge_names(lcs, rcs, 0, 0).len() as int,
        ),
{
    let names = merge_names(lcs, rcs, 0, 0);
    if path.len() >= usize::MAX {
        lemma_names_loaded_at_limit(names, path, m, names.len() as int);
    } else {
        lemma_merge_loaded(lcs, rcs, 0, 0, path, m);
        lemma_names_loaded_all(names, path, m, names.len() as int);
    }
}

/// A link that is loaded by itself is loaded as a side of a diff that has
/// no directory against it.
pub proof fn lemma_solo_loaded<M: Matcher>(l: LinkView, path: Seq<Seq<u8>>, m: M)
    requires
        dir_loaded(l, path, m),
        l.wf(),
    ensures
        sub_loaded(Some(l), None, path, m),
        sub_loaded(None, Some(l), path, m),
    decreases usize::MAX - path.len(),
{
    if l.is_dir() && m.dir_spec(path) != DirectoryMatch::Nothing {
        match l {
            LinkView::Durable(_, LazyView::Failed(_)) => {},
            LinkView::Durable(_, LazyView::Unloaded) => {},
            _ => {
                let cs = l.children();
                let none = Seq::<ChildView>::empty();
                assert(side_children(Some(l), path) == Ok::<Seq<ChildView>, ErrorView>(cs));
                if path.len() < usize::MAX {
                    assert forall|a: int| 0 <= a < cs.len() implies sub_loaded(
                        Some((#[trigger] cs[a]).link),
                        None,
                        path.push(cs[a].name),
                        m,
                    ) && sub_loaded(None, Some(cs[a].link), path.push(cs[a].name), m) by {
                        lemma_kids_loaded_each(cs, path, m, cs.len() as int, a);
                        assert(cs[a].link.wf());
                        lemma_solo_loaded(cs[a].link, path.push(cs[a].name), m);
                    }
                }
                lemma_halves_names(cs, none, path, m);
                lemma_halves_names(none, cs, path, m);
            },
        }
    }
}

/// What was loaded stays loaded when the merge goes on behind a child that
/// only the left has: `now` is `lcs` with child `i` replaced by a child of
/// the same name that is loaded by itself.
pub proof fn lemma_kept_left<M: Matcher>(
    lcs: Seq<ChildView>,
    now: Seq<ChildView>,
    rcs: Seq<ChildView>,
    path: Seq<Seq<u8>>,
    m: M,
    i: int,
    j: int,
)
    requires
        0 <= i < lcs.len(),
        0 <= j <= rcs.len(),
        now.len() == lcs.len(),
        forall|a: int| 0 <= a < lcs.len() && a != i ==> now[a] == lcs[a],
        now[i].name == lcs[i].name,
        child_names(now) == child_names(lcs),
        halves_loaded(lcs, rcs, path, m, i, j),
        names_apart(child_names(lcs), child_names(rcs), i, j),
        sub_loaded(Some(now[i].link), None, path.push(now[i].name), m),
    ensures
        halves_loaded(now, rcs, path, m, i + 1, j),
{
    let ln = child_names(lcs);
    let rn = child_names(rcs);
    assert forall|a: int, b: int|
        0 <= a < i + 1 && a < now.len() && 0 <= b < j && b < rcs.len() && (#[trigger] now[a]).name == (
        #[trigger] rcs[b]).name implies sub_loaded(
        Some(now[a].link),
        Some(rcs[b].link),
        path.push(now[a].name),
        m,
    ) by {
        if a == i {
            assert(ln[i] == lcs[i].name);
            assert(rn[b] == rcs[b].name);
            assert(lex_lt(rn[b], ln[i]));
            lemma_lex_asymmetric(rn[b], ln[i]);
        } else {
            assert(now[a] == lcs[a]);
        }
    }
    assert forall|a: int|
        0 <= a < i + 1 && a < now.len() && !child_names(rcs).contains((#[trigger] now[a]).name) implies sub_loaded(
        Some(now[a].link),
        None,
        path.push(now[a].name),
        m,
    ) by {
        if a < i {
            assert(now[a] == lcs[a]);
        }
    }
}

/// `lemma_kept_left` with the sides exchanged.
pub proof fn lemma_kept_right<M: Matcher>(
    lcs: Seq<ChildView>,
    rcs: Seq<ChildView>,
    now: Seq<ChildView>,
    path: Seq<Seq<u8>>,
    m: M,
    i: int,
    j: int,
)
    requires
        0 <= i <= lcs.len(),
        0 <= j < rcs.len(),
        now.len() == rcs.len(),
        forall|b: int| 0 <= b < rcs.len() && b != j ==> now[b] == rcs[b],
        now[j].name == rcs[j].name,
        child_names(now) == child_names(rcs),
        halves_loaded(lcs, rcs, path, m, i, j),
        names_apart(child_names(lcs), child_names(rcs), i, j),
        sub_loaded(None, Some(now[j].link), path.push(now[j].name), m),
    ensures
        halves_loaded(lcs, now, path, m, i, j + 1),
{
    let ln = child_names(lcs);
    let rn = child_names(rcs);
    assert forall|a: int, b: int|
        0 <= a < i && a < lcs.len() && 0 <= b < j + 1 && b < now.len() && (#[trigger] lcs[a]).name == (
        #[trigger] now[b]).name implies sub_loaded(
        Some(lcs[a].link),
        Some(now[b].link),
        path.push(lcs[a].name),
        m,
    ) by {
        if b == j {
            assert(ln[a] == lcs[a].name);
            assert(rn[j] == rcs[j].name);
            assert(lex_lt(ln[a], rn[j]));
            lemma_lex_asymmetric(ln[a], rn[j]);
        } else {
            assert(now[b] == rcs[b]);
        }
    }
    assert forall|b: int|
        0 <= b < j + 1 && b < now.len() && !child_names(lcs).contains((#[trigger] now[b]).name) implies sub_loaded(
        None,
        Some(now[b].link),
        path.push(now[b].name),
        m,
    ) by {
        if b < j {
            assert(now[b] == rcs[b]);
        }
    }
}

/// What was loaded stays loaded when the merge goes on behind two children
/// of one name: `lnow` and `rnow` are `lcs` and `rcs` with these children
/// replaced by children of the same name that are loaded as a pair.
pub proof fn lemma_kept_both<M: Matcher>(
    lcs: Seq<ChildView>,
    lnow: Seq<ChildView>,
    rcs: Seq<ChildView>,
    rnow: Seq<ChildView>,
    path: Seq<Seq<u8>>,
    m: M,
    i: int,
    j: int,
)
    requires
        0 <= i < lcs.len(),
        0 <= j < rcs.len(),
        lnow.len() == lcs.len(),
        rnow.len() == rcs.len(),
        forall|a: int| 0 <= a < lcs.len() && a != i ==> lnow[a] == lcs[a],
        forall|b: int| 0 <= b < rcs.len() && b != j ==> rnow[b] == rcs[b],
        lnow[i].name == lcs[i].name,
        rnow[j].name == rcs[j].name,
        lcs[i].name == rcs[j].name,
        child_names(lnow) == child_names(lcs),
        child_names(rnow) == child_names(rcs),
        halves_loaded(lcs, rcs, path, m, i, j),
        names_apart(child_names(lcs), child_names(rcs), i, j),
        sub_loaded(Some(lnow[i].link), Some(rnow[j].link), path.push(lnow[i].name), m),
    ensures
        halves_loaded(lnow, rnow, path, m, i + 1, j + 1),
{
    let ln = child_names(lcs);
    let rn = child_names(rcs);
    assert(ln[i] == lcs[i].name);
    assert(rn[j] == rcs[j].name);
    assert forall|a: int, b: int|
        0 <= a < i + 1 && a < lnow.len() && 0 <= b < j + 1 && b < rnow.len() && (#[trigger] lnow[a]).name == (
        #[trigger] rnow[b]).name implies sub_loaded(
        Some(lnow[a].link),
        Some(rnow[b].link),
        path.push(lnow[a].name),
        m,
    ) by {
        if a == i && b == j {
        } else if a == i {
            assert(rnow[b] == rcs[b]);
            assert(rn[b] == rcs[b].name);
            assert(lex_lt(rn[b], ln[i]));
            lemma_lex_asymmetric(rn[b], ln[i]);
        } else if b == j {
            assert(lnow[a] == lcs[a]);
            assert(ln[a] == lcs[a].name);
            assert(lex_lt(ln[a], rn[j]));
            lemma_lex_asymmetric(ln[a], rn[j]);
        } else {
            assert(lnow[a] == lcs[a]);
            assert(rnow[b] == rcs[b]);
        }
    }
    assert forall|a: int|
        0 <= a < i + 1 && a < lnow.len() && !child_names(rnow).contains((#[trigger] lnow[a]).name) implies sub_loaded(
        Some(lnow[a].link),
        None,
        path.push(lnow[a].name),
        m,
    ) by {
        if a == i {
            assert(child_names(rnow)[j] == lnow[i].name);
        } else {
            assert(lnow[a] == lcs[a]);
        }
    }
    assert forall|b: int|
        0 <= b < j + 1 && b < rnow.len() && !child_names(lnow).contains((#[trigger] rnow[b]).name) implies sub_loaded(
        None,
        Some(rnow[b].link),
        path.push(rnow[b].name),
        m,
    ) by {
        if b == j {
            assert(child_names(lnow)[i] == rnow[j].name);
        } else {
            assert(rnow[b] == rcs[b]);
        }
    }
}

} // verus!
