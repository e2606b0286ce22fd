use crate::diff::{
    bfs_jobs, dfs_job, dfs_names, diff_walk, job_names, jobs_round, names_round, root_job, sub_job,
    file_entry, DiffView, Job, Named,
};
use crate::link::LinkView;
use crate::matcher::Matcher;
use vstd::multiset::Multiset;
use vstd::prelude::*;
use vstd::seq_lib::lemma_multiset_commutative;

verus! {

/// The differences below the first `k` pairs of directories, each pair
/// walked depth first, as a multiset.
pub open spec fn sum_dfs<M: Matcher>(jobs: Seq<Job>, m: M, k: int) -> Multiset<DiffView>
    decreases k,
{
    if k <= 0 || k > jobs.len() {
        Multiset::empty()
    } else {
        sum_dfs(jobs, m, k - 1).add(dfs_job(jobs[k - 1], m).entries.to_multiset())
    }
}

/// The depth-first walk of each of the first `k` pairs ends without an error.
pub open spec fn all_ok<M: Matcher>(jobs: Seq<Job>, m: M, k: int) -> bool {
    forall|i: int| 0 <= i < k && i < jobs.len() ==> dfs_job(#[trigger] jobs[i], m).error is None
}

/// Every pair of the list stands at a path of the given length.
pub open spec fn at_depth(jobs: Seq<Job>, depth: int) -> bool {
    forall|i: int| 0 <= i < jobs.len() ==> (#[trigger] jobs[i]).path.len() == depth
}

proof fn lemma_empty_multiset()
    ensures
        Seq::<DiffView>::empty().to_multiset() == Multiset::<DiffView>::empty(),
{
    broadcast use vstd::seq_lib::group_to_multiset_ensures;

    let ms = Seq::<DiffView>::empty().to_multiset();
    assert forall|x: DiffView| ms.count(x) == 0 by {
        if ms.count(x) > 0 {
            assert(Seq::<DiffView>::empty().contains(x));
        }
    }
    assert(ms =~= Multiset::<DiffView>::empty());
}

proof fn lemma_sum_prefix<M: Matcher>(a: Seq<Job>, b: Seq<Job>, m: M, k: int)
    requires
        0 <= k <= a.len(),
        k <= b.len(),
        forall|i: int| 0 <= i < k ==> a[i] == b[i],
    ensures
        sum_dfs(a, m, k) == sum_dfs(b, m, k),
    decreases k,
{
    if k > 0 {
        lemma_sum_prefix(a, b, m, k - 1);
    }
}

/// The sum over two lists of pairs one after the other is the sum of the
/// sums.
proof fn lemma_sum_concat<M: Matcher>(a: Seq<Job>, b: Seq<Job>, m: M, k: int)
    requires
        0 <= k <= b.len(),
    ensures
        sum_dfs(a + b, m, a.len() + k) == sum_dfs(a, m, a.len() as int).add(sum_dfs(b, m, k)),
    decreases k,
{
    if k == 0 {
        lemma_sum_prefix(a + b, a, m, a.len() as int);
        assert(sum_dfs(a, m, a.len() as int).add(Multiset::empty()) =~= sum_dfs(a, m, a.len() as int));
    } else {
        lemma_sum_concat(a, b, m, k - 1);
        assert((a + b)[a.len() + k - 1] == b[k - 1]);
        let x = sum_dfs(a, m, a.len() as int);
        let y = sum_dfs(b, m, k - 1);
        let z = dfs_job(b[k - 1], m).entries.to_multiset();
        assert(x.add(y).add(z) =~= x.add(y.add(z)));
    }
}

/// Below the first `k` names of a directory, a depth-first walk that ends
/// without an error finds what the round finds and what the depth-first
/// walks of the round's pairs find.
proof fn lemma_names<M: Matcher>(names: Seq<Named>, path: Seq<Seq<u8>>, m: M, k: int)
    requires
        0 <= k <= names.len(),
        dfs_names(names, path, m, k).error is None,
    ensures
        names_round(names, path, m, k).error is None,
        all_ok(names_round(names, path, m, k).next, m, names_round(names, path, m, k).next.len() as int),
        at_depth(names_round(names, path, m, k).next, (path.len() + 1) as int),
        dfs_names(names, path, m, k).entries.to_multiset() == names_round(
            names,
            path,
            m,
            k,
        ).entries.to_multiset().add(
            sum_dfs(
                names_round(names, path, m, k).next,
                m,
                names_round(names, path, m, k).next.len() as int,
            ),
        ),
    decreases k,
{
    lemma_empty_multiset();
    if k == 0 {
        assert(Multiset::<DiffView>::empty().add(Multiset::empty()) =~= Multiset::<DiffView>::empty());
    } else {
        let before = dfs_names(names, path, m, k - 1);
        assert(before.error is None);
        lemma_names(names, path, m, k - 1);
        let rb = names_round(names, path, m, k - 1);
        let r = names_round(names, path, m, k);
        let t = names[k - 1];
        let p = path.push(t.name);
        let here = file_entry(t.left, t.right, p, m);
        let nb = rb.next;
        lemma_multiset_commutative(before.entries, here);
        lemma_multiset_commutative(rb.entries, here);
        let mb = before.entries.to_multiset();
        let mh = here.to_multiset();
        let mr = rb.entries.to_multiset();
        let sb = sum_dfs(nb, m, nb.len() as int);
        match sub_job(t.left, t.right, p) {
            None => {
                assert(mr.add(sb).add(mh) =~= mr.add(mh).add(sb));
            },
            Some(j) => {
                let sub = dfs_job(j, m);
                lemma_multiset_commutative(before.entries + here, sub.entries);
                let ms = sub.entries.to_multiset();
                let next = nb.push(j);
                assert(next =~= nb + seq![j]);
                lemma_sum_prefix(next, nb, m, nb.len() as int);
                assert(sum_dfs(next, m, next.len() as int) == sb.add(ms));
                assert(mr.add(sb).add(mh).add(ms) =~= mr.add(mh).add(sb.add(ms)));
                assert forall|i: int| 0 <= i < next.len() implies dfs_job(#[trigger] next[i], m).error is None by {
                    if i < nb.len() {
                        assert(next[i] == nb[i]);
                    }
                }
                assert forall|i: int| 0 <= i < next.len() implies (#[trigger] next[i]).path.len()
                    == path.len() + 1 by {
                    if i < nb.len() {
                        assert(next[i] == nb[i]);
                    }
                }
            },
        }
    }
}

/// Over the first `k` pairs of one depth, depth-first walks that end
/// without an error find what the round finds and what the depth-first
/// walks of the round's pairs find.
proof fn lemma_jobs<M: Matcher>(jobs: Seq<Job>, m: M, k: int, depth: int)
    requires
        0 <= k <= jobs.len(),
        all_ok(jobs, m, k),
        at_depth(jobs, depth),
    ensures
        jobs_round(jobs, m, k).error is None,
        all_ok(jobs_round(jobs, m, k).next, m, jobs_round(jobs, m, k).next.len() as int),
        at_depth(jobs_round(jobs, m, k).next, depth + 1),
        sum_dfs(jobs, m, k) == jobs_round(jobs, m, k).entries.to_multiset().add(
            sum_dfs(jobs_round(jobs, m, k).next, m, jobs_round(jobs, m, k).next.len() as int),
        ),
    decreases k,
{
    lemma_empty_multiset();
    if k == 0 {
        assert(Multiset::<DiffView>::empty().add(Multiset::empty()) =~= Multiset::<DiffView>::empty());
    } else {
        lemma_jobs(jobs, m, k - 1, depth);
        let job = jobs[k - 1];
        assert(dfs_job(job, m).error is None);
        let names = job_names(job, m)->Ok_0;
        lemma_names(names, job.path, m, names.len() as int);
        let rb = jobs_round(jobs, m, k - 1);
        let r = names_round(names, job.path, m, names.len() as int);
        lemma_multiset_commutative(rb.entries, r.entries);
        lemma_sum_concat(rb.next, r.next, m, r.next.len() as int);
        let a = rb.entries.to_multiset();
        let b = sum_dfs(rb.next, m, rb.next.len() as int);
        let c = r.entries.to_multiset();
        let d = sum_dfs(r.next, m, r.next.len() as int);
        assert(a.add(b).add(c.add(d)) =~= a.add(c).add(b.add(d)));
        let next = rb.next + r.next;
        assert forall|i: int| 0 <= i < next.len() implies dfs_job(#[trigger] next[i], m).error is None by {
            if i < rb.next.len() {
                assert(next[i] == rb.next[i]);
            } else {
                assert(next[i] == r.next[i - rb.next.len()]);
            }
        }
        assert forall|i: int| 0 <= i < next.len() implies (#[trigger] next[i]).path.len() == depth
            + 1 by {
            if i < rb.next.len() {
                assert(next[i] == rb.next[i]);
            } else {
                assert(next[i] == r.next[i - rb.next.len()]);
            }
        }
    }
}

/// A round over pairs at the greatest depth finds no pairs below them.
proof fn lemma_names_at_limit<M: Matcher>(names: Seq<Named>, path: Seq<Seq<u8>>, m: M, k: int)
    requires
        0 <= k <= names.len(),
        path.len() >= usize::MAX,
    ensures
        names_round(names, path, m, k).next.len() == 0,
    decreases k,
{
    if k > 0 {
        lemma_names_at_limit(names, path, m, k - 1);
    }
}

proof fn lemma_jobs_at_limit<M: Matcher>(jobs: Seq<Job>, m: M, k: int, depth: int)
    requires
        0 <= k <= jobs.len(),
        at_depth(jobs, depth),
        depth >= usize::MAX,
    ensures
        jobs_round(jobs, m, k).next.len() == 0,
    decreases k,
{
    if k > 0 {
        lemma_jobs_at_limit(jobs, m, k - 1, depth);
        let job = jobs[k - 1];
        match job_names(job, m) {
            Ok(names) => {
                lemma_names_at_limit(names, job.path, m, names.len() as int);
            },
            Err(_) => {},
        }
    }
}

/// Over pairs of one depth whose depth-first walks end without an error, the
/// breadth-first walk ends without an error and finds the same differences
/// the same number of times.
proof fn lemma_bfs<M: Matcher>(jobs: Seq<Job>, m: M, depth: int)
    requires
        0 <= depth,
        all_ok(jobs, m, jobs.len() as int),
        at_depth(jobs, depth),
    ensures
        bfs_jobs(jobs, m, depth).error is None,
        bfs_jobs(jobs, m, depth).entries.to_multiset() == sum_dfs(jobs, m, jobs.len() as int),
    decreases usize::MAX - depth,
{
    lemma_empty_multiset();
    lemma_jobs(jobs, m, jobs.len() as int, depth);
    let round = jobs_round(jobs, m, jobs.len() as int);
    if depth >= usize::MAX {
        lemma_jobs_at_limit(jobs, m, jobs.len() as int, depth);
    }
    if round.next.len() == 0 {
        assert(round.entries.to_multiset().add(Multiset::empty()) =~= round.entries.to_multiset());
    } else {
        lemma_bfs(round.next, m, depth + 1);
        let rest = bfs_jobs(round.next, m, depth + 1);
        lemma_multiset_commutative(round.entries, rest.entries);
    }
}

/// The depth-first diff and the breadth-first diff of two trees find the
/// same differences the same number of times, in whatever order: where the
/// depth-first diff ends without an error, so does the breadth-first diff,
/// and the two lists hold the same entries.
pub proof fn lemma_diff_orders_agree<M: Matcher>(left: LinkView, right: LinkView, m: M)
    requires
        diff_walk(left, right, m, false).error is None,
    ensures
        diff_walk(left, right, m, true).error is None,
        diff_walk(left, right, m, true).entries.to_multiset() == diff_walk(
            left,
            right,
            m,
            false,
        ).entries.to_multiset(),
{
    let job = root_job(left, right);
    let jobs = seq![job];
    assert(jobs[0] == job);
    lemma_bfs(jobs, m, 0);
    reveal_with_fuel(sum_dfs, 2);
    assert(sum_dfs(jobs, m, 1) =~= dfs_job(job, m).entries.to_multiset());
}

} // verus!
