use crate::diff::{
    bfs_jobs, dfs_job, dfs_names, diff_walk, dir_of, file_entry, file_of, job_names, jobs_round, merge_names,
    names_round, root_job, same_stored, side_children, sub_job, Job, Named,
};
use crate::difflaw::lemma_diff_orders_agree;
use crate::link::{ChildView, LazyView, LinkView};
use crate::loaded::{job_loaded, jobs_loaded, lemma_jobs_round_loaded, names_loaded};
use crate::lookup::{kids_load_to, loads_to};
use crate::matcher::Matcher;
use vstd::prelude::*;

verus! {

/// The link `b`, if there is one, is the link `a` after more was loaded.
pub open spec fn opt_loads(a: Option<LinkView>, b: Option<LinkView>) -> bool {
    match (a, b) {
        (None, None) => true,
        (Some(x), Some(y)) => loads_to(x, y),
        _ => false,
    }
}

/// The pair of directories `b` is the pair `a` after more was loaded.
pub open spec fn job_loads(a: Job, b: Job) -> bool {
    a.path == b.path && opt_loads(a.left, b.left) && opt_loads(a.right, b.right)
}

/// The name `b` is the name `a` with what stands under it loaded further.
pub open spec fn named_loads(a: Named, b: Named) -> bool {
    a.name == b.name && opt_loads(a.left, b.left) && opt_loads(a.right, b.right)
}

/// The names `b` are the names `a`, each with what stands under it loaded
/// further.
pub open spec fn names_load(a: Seq<Named>, b: Seq<Named>) -> bool {
    a.len() == b.len() && forall|t: int| 0 <= t < a.len() ==> named_loads(#[trigger] a[t], b[t])
}

/// The pairs `b` are the pairs `a`, each loaded further.
pub open spec fn jobs_load(a: Seq<Job>, b: Seq<Job>) -> bool {
    a.len() == b.len() && forall|t: int| 0 <= t < a.len() ==> job_loads(#[trigger] a[t], b[t])
}

/// Merging the names of two directories that were loaded further gives the
/// same names, with what stands under them loaded further.
pub proof fn lemma_merge_loads(
    lcs: Seq<ChildView>,
    rcs: Seq<ChildView>,
    lcs2: Seq<ChildView>,
    rcs2: Seq<ChildView>,
    i: int,
    j: int,
)
    requires
        kids_load_to(lcs, lcs2),
        kids_load_to(rcs, rcs2),
        0 <= i <= lcs.len(),
        0 <= j <= rcs.len(),
    ensures
        names_load(merge_names(lcs, rcs, i, j), merge_names(lcs2, rcs2, i, j)),
    decreases lcs.len() - i + rcs.len() - j,
{
    let a = merge_names(lcs, rcs, i, j);
    let b = merge_names(lcs2, rcs2, i, j);
    if i < lcs.len() {
        assert(lcs[i].name == lcs2[i].name && loads_to(lcs[i].link, lcs2[i].link));
    }
    if j < rcs.len() {
        assert(rcs[j].name == rcs2[j].name && loads_to(rcs[j].link, rcs2[j].link));
    }
    if i == lcs.len() && j == rcs.len() {
    } else if j >= rcs.len() || (i < lcs.len() && crate::order::lex_lt(lcs[i].name, rcs[j].name)) {
        lemma_merge_loads(lcs, rcs, lcs2, rcs2, i + 1, j);
        let ra = merge_names(lcs, rcs, i + 1, j);
        let rb = merge_names(lcs2, rcs2, i + 1, j);
        assert forall|t: int| 0 <= t < a.len() implies named_loads(#[trigger] a[t], b[t]) by {
            if t > 0 {
                assert(a[t] == ra[t - 1]);
                assert(b[t] == rb[t - 1]);
            }
        }
    } else if i >= lcs.len() || crate::order::lex_lt(rcs[j].name, lcs[i].name) {
        lemma_merge_loads(lcs, rcs, lcs2, rcs2, i, j + 1);
        let ra = merge_names(lcs, rcs, i, j + 1);
        let rb = merge_names(lcs2, rcs2, i, j + 1);
        assert forall|t: int| 0 <= t < a.len() implies named_loads(#[trigger] a[t], b[t]) by {
            if t > 0 {
                assert(a[t] == ra[t - 1]);
                assert(b[t] == rb[t - 1]);
            }
        }
    } else {
        lemma_merge_loads(lcs, rcs, lcs2, rcs2, i + 1, j + 1);
        let ra = merge_names(lcs, rcs, i + 1, j + 1);
        let rb = merge_names(lcs2, rcs2, i + 1, j + 1);
        assert forall|t: int| 0 <= t < a.len() implies named_loads(#[trigger] a[t], b[t]) by {
            if t > 0 {
                assert(a[t] == ra[t - 1]);
                assert(b[t] == rb[t - 1]);
            }
        }
    }
}

/// The children of a side that is in memory stay its children, loaded
/// further, when the side is loaded further; a failed side stays failed.
pub proof fn lemma_side_loads(a: Option<LinkView>, b: Option<LinkView>, path: Seq<Seq<u8>>)
    requires
        opt_loads(a, b),
        dir_of(a) == a,
        !(a matches Some(LinkView::Durable(_, LazyView::Unloaded))),
    ensures
        match side_children(a, path) {
            Err(e) => side_children(b, path) == Err::<Seq<ChildView>, crate::error::ErrorView>(e),
            Ok(cs) => side_children(b, path) is Ok && kids_load_to(cs, side_children(b, path)->Ok_0),
        },
{
    match a {
        None => {
            crate::lookup::lemma_kids_load_to_refl(Seq::<ChildView>::empty());
        },
        Some(l) => {},
    }
}

/// The names of a pair of directories that is loaded stay the names, with
/// what stands under them loaded further, when the pair is loaded further.
pub proof fn lemma_job_names_load<M: Matcher>(a: Job, b: Job, m: M)
    requires
        job_loads(a, b),
        dir_of(a.left) == a.left,
        dir_of(a.right) == a.right,
        job_names(a, m) != Err::<Seq<Named>, crate::error::ErrorView>(
            crate::error::ErrorView::InvariantViolated(crate::error::Violation::NotLoaded),
        ),
    ensures
        match job_names(a, m) {
            Err(e) => job_names(b, m) == Err::<Seq<Named>, crate::error::ErrorView>(e),
            Ok(names) => job_names(b, m) is Ok && names_load(names, job_names(b, m)->Ok_0),
        },
{
    assert(same_stored(a.left, a.right) == same_stored(b.left, b.right));
    if m.dir_spec(a.path) == crate::matcher::DirectoryMatch::Nothing || same_stored(a.left, a.right) {
    } else {
        lemma_side_loads(a.left, b.left, a.path);
        match side_children(a.left, a.path) {
            Err(e) => {},
            Ok(lcs) => {
                lemma_side_loads(a.right, b.right, a.path);
                match side_children(a.right, a.path) {
                    Err(e) => {},
                    Ok(rcs) => {
                        lemma_merge_loads(
                            lcs,
                            rcs,
                            side_children(b.left, a.path)->Ok_0,
                            side_children(b.right, a.path)->Ok_0,
                            0,
                            0,
                        );
                    },
                }
            },
        }
    }
}

/// What stands under a name gives the same difference of files, and the
/// same pair of directories loaded further, when it is loaded further.
pub proof fn lemma_named_loads<M: Matcher>(a: Named, b: Named, p: Seq<Seq<u8>>, m: M)
    requires
        named_loads(a, b),
    ensures
        file_entry(b.left, b.right, p, m) == file_entry(a.left, a.right, p, m),
        match sub_job(a.left, a.right, p) {
            None => sub_job(b.left, b.right, p) is None,
            Some(j) => sub_job(b.left, b.right, p) is Some && job_loads(j, sub_job(b.left, b.right, p)->Some_0)
                && dir_of(j.left) == j.left && dir_of(j.right) == j.right,
        },
{
    assert(file_of(a.left) == file_of(b.left));
    assert(file_of(a.right) == file_of(b.right));
}

/// The depth-first diff of a pair of directories that is loaded stays the
/// same when the pair is loaded further.
pub proof fn lemma_dfs_again<M: Matcher>(a: Job, b: Job, m: M)
    requires
        job_loaded(a, m),
        job_loads(a, b),
        dir_of(a.left) == a.left,
        dir_of(a.right) == a.right,
    ensures
        dfs_job(b, m) == dfs_job(a, m),
    decreases usize::MAX - a.path.len(), 1int, 0int,
{
    lemma_job_names_load(a, b, m);
    match job_names(a, m) {
        Err(e) => {},
        Ok(names) => {
            lemma_dfs_names_again(names, job_names(b, m)->Ok_0, a.path, m, names.len() as int);
        },
    }
}

/// `lemma_dfs_again` for the first `k` names of a pair of directories.
pub proof fn lemma_dfs_names_again<M: Matcher>(a: Seq<Named>, b: Seq<Named>, path: Seq<Seq<u8>>, m: M, k: int)
    requires
        names_loaded(a, path, m, k),
        names_load(a, b),
        k <= a.len(),
    ensures
        dfs_names(b, path, m, k) == dfs_names(a, path, m, k),
    decreases usize::MAX - path.len(), 0int, k,
{
    if 0 < k {
        lemma_dfs_names_again(a, b, path, m, k - 1);
        let before = dfs_names(a, path, m, k - 1);
        if before.error is None && path.len() < usize::MAX {
            let p = path.push(a[k - 1].name);
            assert(named_loads(a[k - 1], b[k - 1]));
            lemma_named_loads(a[k - 1], b[k - 1], p, m);
            match sub_job(a[k - 1].left, a[k - 1].right, p) {
                None => {},
                Some(j) => {
                    lemma_dfs_again(j, sub_job(b[k - 1].left, b[k - 1].right, p)->Some_0, m);
                },
            }
        }
    }
}

/// Every pair of the list has directories only.
pub open spec fn jobs_dirs(jobs: Seq<Job>) -> bool {
    forall|t: int|
        0 <= t < jobs.len() ==> dir_of((#[trigger] jobs[t]).left) == jobs[t].left && dir_of(jobs[t].right)
            == jobs[t].right
}

/// A round over the names of a loaded pair stays the same when what stands
/// under the names is loaded further, but for the pairs that it leaves for
/// the next round, which are loaded further.
pub proof fn lemma_names_round_again<M: Matcher>(a: Seq<Named>, b: Seq<Named>, path: Seq<Seq<u8>>, m: M, k: int)
    requires
        names_load(a, b),
        k <= a.len(),
    ensures
        names_round(b, path, m, k).entries == names_round(a, path, m, k).entries,
        names_round(b, path, m, k).error == names_round(a, path, m, k).error,
        jobs_load(names_round(a, path, m, k).next, names_round(b, path, m, k).next),
        jobs_dirs(names_round(a, path, m, k).next),
    decreases k,
{
    if 0 < k {
        lemma_names_round_again(a, b, path, m, k - 1);
        let before = names_round(a, path, m, k - 1);
        if before.error is None && path.len() < usize::MAX {
            let p = path.push(a[k - 1].name);
            assert(named_loads(a[k - 1], b[k - 1]));
            lemma_named_loads(a[k - 1], b[k - 1], p, m);
        }
    }
}

/// A round over loaded pairs of directories stays the same when the pairs
/// are loaded further, but for the pairs that it leaves for the next round,
/// which are loaded further.
pub proof fn lemma_jobs_round_again<M: Matcher>(a: Seq<Job>, b: Seq<Job>, m: M, k: int)
    requires
        jobs_loaded(a, m),
        jobs_load(a, b),
        jobs_dirs(a),
        k <= a.len(),
    ensures
        jobs_round(b, m, k).entries == jobs_round(a, m, k).entries,
        jobs_round(b, m, k).error == jobs_round(a, m, k).error,
        jobs_load(jobs_round(a, m, k).next, jobs_round(b, m, k).next),
        jobs_dirs(jobs_round(a, m, k).next),
    decreases k,
{
    if 0 < k {
        lemma_jobs_round_again(a, b, m, k - 1);
        let before = jobs_round(a, m, k - 1);
        if before.error is None {
            assert(job_loaded(a[k - 1], m));
            assert(job_loads(a[k - 1], b[k - 1]));
            lemma_job_names_load(a[k - 1], b[k - 1], m);
            match job_names(a[k - 1], m) {
                Err(e) => {},
                Ok(names) => {
                    lemma_names_round_again(
                        names,
                        job_names(b[k - 1], m)->Ok_0,
                        a[k - 1].path,
                        m,
                        names.len() as int,
                    );
                },
            }
        }
    }
}

/// The breadth-first diff of loaded pairs of directories stays the same
/// when the pairs are loaded further.
pub proof fn lemma_bfs_again<M: Matcher>(a: Seq<Job>, b: Seq<Job>, m: M, depth: int)
    requires
        jobs_loaded(a, m),
        jobs_load(a, b),
        jobs_dirs(a),
    ensures
        bfs_jobs(b, m, depth) == bfs_jobs(a, m, depth),
    decreases usize::MAX - depth,
{
    lemma_jobs_round_again(a, b, m, a.len() as int);
    lemma_jobs_round_loaded(a, m, a.len() as int);
    let round = jobs_round(a, m, a.len() as int);
    if round.error is None && round.next.len() != 0 && 0 <= depth < usize::MAX {
        lemma_bfs_again(round.next, jobs_round(b, m, b.len() as int).next, m, depth + 1);
    }
}

/// A diff of two trees that are loaded for it stays the same when the trees
/// are loaded further: what a diff loaded, a later diff of the same trees
/// finds again, in either order.
pub proof fn lemma_diff_again<M: Matcher>(
    left: LinkView,
    right: LinkView,
    left2: LinkView,
    right2: LinkView,
    m: M,
    bfs: bool,
)
    requires
        left.is_dir(),
        right.is_dir(),
        job_loaded(root_job(left, right), m),
        loads_to(left, left2),
        loads_to(right, right2),
    ensures
        diff_walk(left2, right2, m, bfs) == diff_walk(left, right, m, bfs),
{
    let a = root_job(left, right);
    let b = root_job(left2, right2);
    if bfs {
        assert(seq![a][0] == a);
        assert(seq![b][0] == b);
        lemma_bfs_again(seq![a], seq![b], m, 0);
    } else {
        lemma_dfs_again(a, b, m);
    }
}

/// A diff of two trees and a later diff of the same trees in the other
/// order find the same differences the same number of times, where the
/// depth-first diff ends without an error: `left` and `right` are the
/// trees as the first diff left them, `left2` and `right2` as the second
/// did.
pub proof fn lemma_diffs_agree<M: Matcher>(
    left: LinkView,
    right: LinkView,
    left2: LinkView,
    right2: LinkView,
    m: M,
    bfs: bool,
)
    requires
        left.is_dir(),
        right.is_dir(),
        job_loaded(root_job(left, right), m),
        loads_to(left, left2),
        loads_to(right, right2),
        diff_walk(left, right, m, false).error is None,
    ensures
        diff_walk(left2, right2, m, !bfs).error is None,
        diff_walk(left2, right2, m, !bfs).entries.to_multiset() == diff_walk(
            left,
            right,
            m,
            bfs,
        ).entries.to_multiset(),
{
    lemma_diff_again(left, right, left2, right2, m, !bfs);
    lemma_diff_orders_agree(left, right, m);
}

} // verus!
