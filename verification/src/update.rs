use crate::assign::{assign_ids, assigns, nodes_view, run, start, StartState};
use crate::error::{Error, ErrorView, Violation};
use crate::iddag::{iddag_ids, IdDag};
use crate::idmap::{has_vertex, MemIdMap};
use crate::node::Node;
use crate::nodemap::NodeMap;
use vstd::prelude::*;

verus! {

/// The first vertex that does not belong to the master group: the master
/// group holds the vertices below 2^56.
pub const MASTER_LIMIT: u64 = 0x0100_0000_0000_0000;

/// The first vertex of the master group.
pub const MASTER_MIN: u64 = 0;

/// The vertex of a commit, taken from the new assignments first and from
/// those known before second.
pub open spec fn vertex_in(mem: Map<Seq<u8>, u64>, known: Map<Seq<u8>, u64>, c: Seq<u8>) -> Option<
    u64,
> {
    if mem.contains_key(c) {
        Some(mem[c])
    } else if known.contains_key(c) {
        Some(known[c])
    } else {
        None
    }
}

/// The commit `c` is the one that the vertex is resolved to: by the new
/// assignments first, by those known before second.
pub open spec fn resolves_to(mem: Map<Seq<u8>, u64>, known: Map<Seq<u8>, u64>, v: u64, c: Seq<u8>) -> bool {
    ||| mem.contains_key(c) && mem[c] == v
    ||| !has_vertex(mem, v) && known.contains_key(c) && known[c] == v
}

/// The vertices `vs` are those of the parents `ps`, in order; all of them
/// lie in the master group below the vertex `v`.
pub open spec fn parents_resolved(
    mem: Map<Seq<u8>, u64>,
    known: Map<Seq<u8>, u64>,
    ps: Seq<Seq<u8>>,
    v: u64,
    vs: Seq<u64>,
) -> bool {
    &&& vs.len() == ps.len()
    &&& forall|i: int|
        0 <= i < ps.len() ==> vertex_in(mem, known, #[trigger] ps[i]) == Some(vs[i]) && vs[i] < v
}

/// The commit that the vertex is resolved to, if any: by the new assignments
/// first, by those known before second.
pub open spec fn commit_of(mem: Map<Seq<u8>, u64>, known: Map<Seq<u8>, u64>, v: u64) -> Option<Seq<u8>> {
    if has_vertex(mem, v) {
        Some(choose|c: Seq<u8>| mem.contains_key(c) && #[trigger] mem[c] == v)
    } else if has_vertex(known, v) {
        Some(choose|c: Seq<u8>| known.contains_key(c) && #[trigger] known[c] == v)
    } else {
        None
    }
}

/// The vertices of the first `k` of the parents `ps` of the commit with the
/// vertex `v`, in order; `NotFound` for the first parent without a vertex,
/// `UnknownVertex` for the first whose vertex does not lie below `v`.
pub open spec fn resolve_upto(
    mem: Map<Seq<u8>, u64>,
    known: Map<Seq<u8>, u64>,
    ps: Seq<Seq<u8>>,
    v: u64,
    k: int,
) -> Result<Seq<u64>, ErrorView>
    decreases k,
{
    if k <= 0 || k > ps.len() {
        Ok(Seq::empty())
    } else {
        match resolve_upto(mem, known, ps, v, k - 1) {
            Err(e) => Err(e),
            Ok(vs) => match vertex_in(mem, known, ps[k - 1]) {
                None => Err(ErrorView::NotFound),
                Some(pv) => if pv >= v {
                    Err(ErrorView::InvariantViolated(Violation::UnknownVertex))
                } else {
                    Ok(vs.push(pv))
                },
            },
        }
    }
}

/// What the segment builder is answered when it asks for the parents of a
/// vertex: `UnknownVertex` outside the master group, `NotFound` for a
/// vertex of no commit, `UnknownParents` for a commit whose parents are not
/// recorded, and else what `resolve_upto` gives for all of its parents.
pub open spec fn parents_answer(
    mem: Map<Seq<u8>, u64>,
    known: Map<Seq<u8>, u64>,
    parents: Map<Seq<u8>, Seq<Seq<u8>>>,
    v: u64,
) -> Result<Seq<u64>, ErrorView> {
    if v >= MASTER_LIMIT {
        Err(ErrorView::InvariantViolated(Violation::UnknownVertex))
    } else {
        match commit_of(mem, known, v) {
            None => Err(ErrorView::NotFound),
            Some(c) => if parents.contains_key(c) {
                resolve_upto(mem, known, parents[c], v, parents[c].len() as int)
            } else {
                Err(ErrorView::InvariantViolated(Violation::UnknownParents))
            },
        }
    }
}

/// An error among the first `k` parents is the error of all of them.
proof fn lemma_resolve_error(
    mem: Map<Seq<u8>, u64>,
    known: Map<Seq<u8>, u64>,
    ps: Seq<Seq<u8>>,
    v: u64,
    k: int,
    n: int,
)
    requires
        0 <= k <= n <= ps.len(),
        resolve_upto(mem, known, ps, v, k) is Err,
    ensures
        resolve_upto(mem, known, ps, v, n) == resolve_upto(mem, known, ps, v, k),
    decreases n - k,
{
    if k < n {
        lemma_resolve_error(mem, known, ps, v, k, n - 1);
    }
}

/// The vertices of the parents of the commit that has the given vertex, for
/// the segment builder.
///
/// The commit of the vertex and the vertices of its parents are looked up in
/// the new assignments first and in those known before second. Fails with
/// `NotFound` where the vertex or a parent cannot be resolved, with
/// `UnknownParents` where the parents of the commit are not recorded, and
/// with `UnknownVertex` where the vertex lies outside the master group or a
/// parent does not lie below its child.
pub fn vertex_parents(start_state: &StartState, mem_idmap: &MemIdMap, vertex: u64) -> (r: Result<
    Vec<u64>,
    Error,
>)
    requires
        start_state.wf(),
        mem_idmap.wf(),
    ensures
        match parents_answer(mem_idmap@, start_state.assignments@, start_state.parents_view(), vertex) {
            Ok(vs) => r is Ok && r.unwrap()@ == vs,
            Err(e) => r is Err && r.unwrap_err()@ == e,
        },
        r is Ok ==> vertex < MASTER_LIMIT && exists|c: Seq<u8>|
            {
                &&& #[trigger] resolves_to(mem_idmap@, start_state.assignments@, vertex, c)
                &&& start_state.parents_view().contains_key(c)
                &&& parents_resolved(
                    mem_idmap@,
                    start_state.assignments@,
                    start_state.parents_view()[c],
                    vertex,
                    r.unwrap()@,
                )
            },
        r is Err ==> {
            ||| r.unwrap_err()@ == ErrorView::NotFound
            ||| r.unwrap_err()@ == ErrorView::InvariantViolated(Violation::UnknownParents)
            ||| r.unwrap_err()@ == ErrorView::InvariantViolated(Violation::UnknownVertex)
        },
        vertex >= MASTER_LIMIT ==> r is Err,
        !has_vertex(mem_idmap@, vertex) && !has_vertex(start_state.assignments@, vertex) ==> r is Err,
{
    if vertex >= MASTER_LIMIT {
        return Err(Error::InvariantViolated(Violation::UnknownVertex));
    }
    let ghost mem = mem_idmap@;
    let ghost known = start_state.assignments@;
    proof {
        mem_idmap.lemma_one_to_one();
        start_state.assignments.lemma_one_to_one();
    }
    let cs_id = match mem_idmap.find_changeset_id(vertex) {
        Some(c) => c,
        None => match start_state.assignments.get_changeset_id(vertex) {
            Ok(c) => c,
            Err(e) => {
                return Err(e);
            },
        },
    };
    assert(commit_of(mem, known, vertex) == Some(cs_id@));
    let parents = match start_state.parents.get(&cs_id) {
        Some(ps) => ps,
        None => {
            return Err(Error::InvariantViolated(Violation::UnknownParents));
        },
    };
    let ghost ps = start_state.parents_view()[cs_id@];
    assert(ps == nodes_view(parents@));
    let mut response: Vec<u64> = Vec::with_capacity(parents.len());
    let mut i: usize = 0;
    while i < parents.len()
        invariant
            i <= parents@.len(),
            start_state.wf(),
            mem_idmap.wf(),
            ps == nodes_view(parents@),
            response@.len() == i,
            forall|k: int|
                0 <= k < i ==> vertex_in(mem_idmap@, start_state.assignments@, #[trigger] ps[k])
                    == Some(response@[k]) && response@[k] < vertex,
            mem == mem_idmap@,
            known == start_state.assignments@,
            vertex < MASTER_LIMIT,
            commit_of(mem, known, vertex) == Some(cs_id@),
            start_state.parents_view().contains_key(cs_id@),
            ps == start_state.parents_view()[cs_id@],
            resolve_upto(mem, known, ps, vertex, i as int) == Ok::<Seq<u64>, ErrorView>(response@),
        decreases parents@.len() - i,
    {
        let parent = &parents[i];
        assert(ps[i as int] == parent@);
        let v = match mem_idmap.find_vertex(parent) {
            Some(v) => v,
            None => match start_state.assignments.get_vertex(parent) {
                Ok(v) => v,
                Err(e) => {
                    proof {
                        lemma_resolve_error(mem, known, ps, vertex, i + 1, ps.len() as int);
                    }
                    return Err(e);
                },
            },
        };
        if v >= vertex {
            proof {
                lemma_resolve_error(mem, known, ps, vertex, i + 1, ps.len() as int);
            }
            return Err(Error::InvariantViolated(Violation::UnknownVertex));
        }
        response.push(v);
        i += 1;
    }
    assert(resolves_to(mem_idmap@, start_state.assignments@, vertex, cs_id@));
    Ok(response)
}

/// The vertex that follows the last entry of the id map: the first vertex
/// of the master group for an empty map.
pub fn next_vertex_after(last: Option<u64>) -> (r: Result<u64, Error>)
    ensures
        match last {
            None => r == Ok::<u64, Error>(MASTER_MIN),
            Some(v) => if v < u64::MAX {
                r == Ok::<u64, Error>((v + 1) as u64)
            } else {
                r is Err && r.unwrap_err()@ == ErrorView::InvariantViolated(
                    Violation::VertexSpaceExhausted,
                )
            },
        },
{
    match last {
        None => Ok(MASTER_MIN),
        Some(v) => if v < u64::MAX {
            Ok(v + 1)
        } else {
            Err(Error::InvariantViolated(Violation::VertexSpaceExhausted))
        },
    }
}

/// How the next free vertex of the segments and that of the id map stand to
/// each other.
#[derive(Clone, Copy, Debug, PartialEq, Eq, Structural)]
pub enum NextIds {
    /// Both are the same: the segments cover the id map.
    Level,
    /// The id map is ahead: an earlier build did not get to the segments.
    /// The build goes on, and the caller logs a warning.
    IdMapAhead,
}

/// Holds the next free vertex of the segments against that of the id map.
/// Fails with `IdDagAhead` where the segments are ahead of the id map: the
/// repository has to be seeded again.
pub fn check_next_ids(id_dag_next_id: u64, id_map_next_id: u64) -> (r: Result<NextIds, Error>)
    ensures
        id_dag_next_id > id_map_next_id ==> r is Err && r.unwrap_err()@
            == ErrorView::InvariantViolated(Violation::IdDagAhead),
        id_dag_next_id == id_map_next_id ==> r == Ok::<NextIds, Error>(NextIds::Level),
        id_dag_next_id < id_map_next_id ==> r == Ok::<NextIds, Error>(NextIds::IdMapAhead),
{
    if id_dag_next_id > id_map_next_id {
        Err(Error::InvariantViolated(Violation::IdDagAhead))
    } else if id_dag_next_id < id_map_next_id {
        Ok(NextIds::IdMapAhead)
    } else {
        Ok(NextIds::Level)
    }
}

/// The assignment for a head that has a vertex, or whose parents are not
/// known, does nothing: after the first step the stack is empty, and no
/// commit got a vertex.
pub proof fn lemma_assigned_head(
    parents: Map<Seq<u8>, Seq<Seq<u8>>>,
    assigned: Set<Seq<u8>>,
    head: Seq<u8>,
)
    requires
        assigned.contains(head) || !parents.contains_key(head),
    ensures
        forall|n: nat|
            n >= 1 ==> (#[trigger] run(parents, assigned, start(head), n)).stack.len() == 0 && run(
                parents,
                assigned,
                start(head),
                n,
            ).order.len() == 0,
        forall|n: nat| (#[trigger] run(parents, assigned, start(head), n)).order.len() == 0,
{
    assert forall|n: nat|
        n >= 1 implies (#[trigger] run(parents, assigned, start(head), n)).stack.len() == 0 && run(
        parents,
        assigned,
        start(head),
        n,
    ).order.len() == 0 by {
        lemma_assigned_head_at(parents, assigned, head, n);
    }
    assert forall|n: nat| (#[trigger] run(parents, assigned, start(head), n)).order.len() == 0 by {
        if n >= 1 {
            lemma_assigned_head_at(parents, assigned, head, n);
        }
    }
}

proof fn lemma_assigned_head_at(
    parents: Map<Seq<u8>, Seq<Seq<u8>>>,
    assigned: Set<Seq<u8>>,
    head: Seq<u8>,
    n: nat,
)
    requires
        assigned.contains(head) || !parents.contains_key(head),
        n >= 1,
    ensures
        run(parents, assigned, start(head), n).stack.len() == 0,
        run(parents, assigned, start(head), n).order.len() == 0,
    decreases n,
{
    let m0 = start(head);
    assert(m0.stack.last() == crate::assign::TaskView::Visit(head));
    assert(m0.stack.drop_last().len() == 0);
    if n == 1 {
        assert(run(parents, assigned, m0, 0) == m0);
    } else {
        lemma_assigned_head_at(parents, assigned, head, (n - 1) as nat);
    }
}

/// The head has no vertex and its parents are not known: no build can give
/// it a vertex.
pub open spec fn headless(parents: Map<Seq<u8>, Seq<Seq<u8>>>, assigned: Set<Seq<u8>>, head: Seq<u8>) -> bool {
    !assigned.contains(head) && !parents.contains_key(head)
}

/// The vertices from `low` on do not suffice for the commits that the head
/// leads to: at some step of the assignment more commits have a vertex than
/// there are vertices left.
pub open spec fn exhausted(
    parents: Map<Seq<u8>, Seq<Seq<u8>>>,
    assigned: Set<Seq<u8>>,
    head: Seq<u8>,
    low: u64,
) -> bool {
    exists|n: nat| low + (#[trigger] run(parents, assigned, start(head), n)).order.len() > u64::MAX + 1
}

/// Plans a build from the commits of `start_state`: the commits without a
/// vertex that the head leads to get the vertices from `low_vertex` on, as
/// `assign_ids` gives them. Gives the vertex of the head, new or known, and
/// the new assignments.
///
/// Fails with `HeadUnassigned` exactly where the head has no vertex and its
/// parents are not known, and else with `VertexSpaceExhausted`, which comes
/// only where the vertices run out: see `exhausted`.
pub fn plan_build(start_state: &StartState, head: Node, low_vertex: u64) -> (r: Result<(u64, MemIdMap), Error>)
    requires
        start_state.wf(),
    ensures
        match r {
            Ok((head_vertex, mem)) => mem.wf() && (exists|n: nat|
                {
                    let m = #[trigger] run(
                        start_state.parents_view(),
                        start_state.assigned(),
                        start(head@),
                        n,
                    );
                    m.stack.len() == 0 && assigns(mem@, m.order, low_vertex)
                }) && vertex_in(mem@, start_state.assignments@, head@) == Some(head_vertex),
            Err(e) => if headless(start_state.parents_view(), start_state.assigned(), head@) {
                e@ == ErrorView::InvariantViolated(Violation::HeadUnassigned)
            } else {
                e@ == ErrorView::InvariantViolated(Violation::VertexSpaceExhausted) && exhausted(
                    start_state.parents_view(),
                    start_state.assigned(),
                    head@,
                    low_vertex,
                )
            },
        },
        headless(start_state.parents_view(), start_state.assigned(), head@) ==> r is Err,
        start_state.assigned().contains(head@) ==> r is Ok && r.unwrap().0 == start_state.assignments@[head@]
            && r.unwrap().1@ == Map::<Seq<u8>, u64>::empty(),
{
    let ghost pv = start_state.parents_view();
    let ghost asg = start_state.assigned();
    proof {
        if asg.contains(head@) || !pv.contains_key(head@) {
            lemma_assigned_head(pv, asg, head@);
        }
    }
    let mem_idmap = match assign_ids(start_state, head, low_vertex) {
        Ok(m) => m,
        Err(e) => {
            return Err(e);
        },
    };
    proof {
        let n = choose|n: nat|
            {
                let m = #[trigger] run(pv, asg, start(head@), n);
                m.stack.len() == 0 && assigns(mem_idmap@, m.order, low_vertex)
            };
        let m = run(pv, asg, start(head@), n);
        if headless(pv, asg, head@) {
            assert(m.order.len() == 0);
            assert(!mem_idmap@.contains_key(head@)) by {
                if mem_idmap@.contains_key(head@) {
                    assert(m.order.contains(head@));
                }
            }
        } else if !asg.contains(head@) {
            assert(n >= 1) by {
                if n == 0 {
                    assert(m == start(head@));
                }
            }
            crate::assignlaw::lemma_head_assigned(pv, asg, head@, n);
            if crate::assignlaw::has_assign(m.stack, head@) {
                let i = choose|i: int|
                    0 <= i < m.stack.len() && #[trigger] m.stack[i] == crate::assign::TaskView::Assign(head@);
            }
            assert(m.order.contains(head@));
            assert(mem_idmap@.contains_key(head@));
        }
    }
    proof {
        if start_state.assigned().contains(head@) {
            assert(mem_idmap@ =~= Map::<Seq<u8>, u64>::empty());
        }
    }
    let head_vertex = match mem_idmap.find_vertex(&head) {
        Some(v) => v,
        None => match start_state.assignments.find_vertex(&head) {
            Some(v) => v,
            None => {
                return Err(Error::InvariantViolated(Violation::HeadUnassigned));
            },
        },
    };
    Ok((head_vertex, mem_idmap))
}

/// What an incremental build has to write.
pub struct Plan {
    /// The vertex of the head.
    pub head_vertex: u64,
    /// The new assignments, for the id map and for the segments; `None`
    /// where nothing is to be done.
    pub update: Option<MemIdMap>,
}

/// Decides what an incremental build has to write, once the ancestors of the
/// head are fetched.
///
/// Where the segments cover the id map and the head has a vertex, nothing is
/// to be done. Otherwise the commits without a vertex get the vertices from
/// `id_map_next_id` on; the head then has a vertex, new or known, or the
/// build fails with `HeadUnassigned`.
pub fn plan_update(start_state: &StartState, head: Node, next: NextIds, id_map_next_id: u64) -> (r:
    Result<Plan, Error>)
    requires
        start_state.wf(),
    ensures
        next == NextIds::Level && start_state.assigned().contains(head@) ==> r is Ok && r.unwrap().update is None
            && r.unwrap().head_vertex == start_state.assignments@[head@],
        start_state.assigned().contains(head@) ==> r is Ok && r.unwrap().head_vertex
            == start_state.assignments@[head@] && (r.unwrap().update matches Some(mem) ==> mem@
            == Map::<Seq<u8>, u64>::empty()),
        !(next == NextIds::Level && start_state.assigned().contains(head@)) ==> match r {
            Ok(plan) => plan.update is Some && plan.update.unwrap().wf() && (exists|n: nat|
                {
                    let m = #[trigger] run(
                        start_state.parents_view(),
                        start_state.assigned(),
                        start(head@),
                        n,
                    );
                    m.stack.len() == 0 && assigns(plan.update.unwrap()@, m.order, id_map_next_id)
                }) && vertex_in(plan.update.unwrap()@, start_state.assignments@, head@) == Some(
                plan.head_vertex,
            ),
            Err(e) => if headless(start_state.parents_view(), start_state.assigned(), head@) {
                e@ == ErrorView::InvariantViolated(Violation::HeadUnassigned)
            } else {
                e@ == ErrorView::InvariantViolated(Violation::VertexSpaceExhausted) && exhausted(
                    start_state.parents_view(),
                    start_state.assigned(),
                    head@,
                    id_map_next_id,
                )
            },
        },
        headless(start_state.parents_view(), start_state.assigned(), head@) ==> r is Err,
{
    if next == NextIds::Level {
        match start_state.assignments.find_vertex(&head) {
            Some(v) => {
                return Ok(Plan { head_vertex: v, update: None });
            },
            None => {},
        }
    }
    match plan_build(start_state, head, id_map_next_id) {
        Ok((head_vertex, mem_idmap)) => Ok(Plan { head_vertex, update: Some(mem_idmap) }),
        Err(e) => Err(e),
    }
}

/// The commits among `ps` from index `i` on that are to be fetched next: each
/// one that was not put in line before, once, in order.
pub open spec fn fresh(ps: Seq<Seq<u8>>, visited: Set<Seq<u8>>, i: int) -> Seq<Seq<u8>>
    decreases ps.len() - i,
{
    if i < 0 || i >= ps.len() {
        Seq::empty()
    } else if visited.contains(ps[i]) {
        fresh(ps, visited, i + 1)
    } else {
        seq![ps[i]] + fresh(ps, visited.insert(ps[i]), i + 1)
    }
}

/// The commits that were put in line once the parents from index `i` on are
/// looked at.
pub open spec fn visited_after(ps: Seq<Seq<u8>>, visited: Set<Seq<u8>>, i: int) -> Set<Seq<u8>>
    decreases ps.len() - i,
{
    if i < 0 || i >= ps.len() {
        visited
    } else {
        visited_after(ps, visited.insert(ps[i]), i + 1)
    }
}

/// The commits to fetch after a commit was fetched: none where the segments
/// cover its vertex, else those of its parents that were not put in line
/// before.
pub open spec fn fetch_next(ps: Seq<Seq<u8>>, visited: Set<Seq<u8>>, covered: bool) -> Seq<Seq<u8>> {
    if covered {
        Seq::empty()
    } else {
        fresh(ps, visited, 0)
    }
}

/// Other parents are recorded for the commit than those that were fetched.
pub open spec fn contradicts(parents: Map<Seq<u8>, Seq<Seq<u8>>>, c: Seq<u8>, ps: Seq<Seq<u8>>) -> bool {
    parents.contains_key(c) && parents[c] != ps
}

/// The vertex that the id map gave for the commit cannot be recorded: the
/// commit is recorded with another vertex, or the vertex with another
/// commit.
pub open spec fn collides(known: Map<Seq<u8>, u64>, c: Seq<u8>, vertex: Option<u64>) -> bool {
    match vertex {
        None => false,
        Some(v) => (known.contains_key(c) && known[c] != v) || (has_vertex(known, v) && !known.contains_key(
            c,
        )),
    }
}

/// The walk from a head back through its ancestors: what was learned so
/// far, and which commits were put in line to be fetched.
pub struct Traversal {
    pub start_state: StartState,
    pub visited: NodeMap<()>,
}

impl Traversal {
    pub open spec fn wf(&self) -> bool {
        self.start_state.wf() && self.visited.wf()
    }

    /// A walk that has learned nothing yet.
    pub fn new() -> (r: Traversal)
        ensures
            r.wf(),
            r.start_state.parents@ == Map::<Seq<u8>, Vec<Node>>::empty(),
            r.start_state.assignments@ == Map::<Seq<u8>, u64>::empty(),
            r.visited@.dom() == Set::<Seq<u8>>::empty(),
    {
        let r = Traversal { start_state: StartState::new(), visited: NodeMap::new() };
        assert(r.visited@.dom() =~= Set::<Seq<u8>>::empty());
        r
    }

    /// Takes in what was fetched for one commit, its parents and its vertex
    /// in the id map, and tells which commits to fetch next, in order.
    ///
    /// The parents and the vertex are recorded. The walk stops at a commit
    /// whose vertex the segments cover; past any other commit it goes on to
    /// the parents that were not put in line before.
    ///
    /// Fails with `ParentsContradict`, and changes nothing, exactly where
    /// other parents are recorded for the commit; else with
    /// `IdMapCollision`, the parents recorded and nothing else changed,
    /// exactly where the commit or the vertex is recorded with something
    /// else; and succeeds on every other input.
    pub fn on_fetched(&mut self, iddag: &IdDag, cs_id: Node, parents: Vec<Node>, vertex: Option<u64>) -> (r:
        Result<Vec<Node>, Error>)
        requires
            old(self).wf(),
        ensures
            final(self).wf(),
            old(self).start_state.parents@.contains_key(cs_id@) && nodes_view(
                old(self).start_state.parents@[cs_id@]@,
            ) != nodes_view(parents@) ==> r is Err && r.unwrap_err()@ == ErrorView::InvariantViolated(
                Violation::ParentsContradict,
            ) && final(self).start_state.parents@ == old(self).start_state.parents@ && final(self).start_state.assignments@ == old(self).start_state.assignments@ && final(self).visited@
                == old(self).visited@,
            r matches Ok(next) ==> {
                &&& final(self).start_state.parents_view() == old(self).start_state.parents_view().insert(cs_id@, nodes_view(parents@))
                &&& match vertex {
                    Some(v) => final(self).start_state.assignments@ == old(self).start_state.assignments@.insert(cs_id@, v),
                    None => final(self).start_state.assignments@ == old(self).start_state.assignments@,
                }
                &&& nodes_view(next@) == fetch_next(
                    nodes_view(parents@),
                    old(self).visited@.dom(),
                    vertex is Some && iddag_ids(*iddag).contains(vertex.unwrap()),
                )
                &&& final(self).visited@.dom() == (if vertex is Some && iddag_ids(*iddag).contains(
                    vertex.unwrap(),
                ) {
                    old(self).visited@.dom()
                } else {
                    visited_after(nodes_view(parents@), old(self).visited@.dom(), 0)
                })
            },
            r matches Err(e) ==> e@ == ErrorView::InvariantViolated(Violation::ParentsContradict)
                || e@ == ErrorView::IdMapCollision,
            r is Ok <==> !contradicts(old(self).start_state.parents_view(), cs_id@, nodes_view(parents@))
                && !collides(old(self).start_state.assignments@, cs_id@, vertex),
            !contradicts(old(self).start_state.parents_view(), cs_id@, nodes_view(parents@)) && collides(
                old(self).start_state.assignments@,
                cs_id@,
                vertex,
            ) ==> r is Err && r.unwrap_err()@ == ErrorView::IdMapCollision
                && final(self).start_state.parents_view() == old(self).start_state.parents_view().insert(
                cs_id@,
                nodes_view(parents@),
            ) && final(self).start_state.assignments@ == old(self).start_state.assignments@
                && final(self).visited@ == old(self).visited@,
    {
        let ghost psv = nodes_view(parents@);
        match self.start_state.parents.get(&cs_id) {
            Some(known) => {
                if !same_nodes(known, &parents) {
                    return Err(Error::InvariantViolated(Violation::ParentsContradict));
                }
            },
            None => {},
        }
        let mut copy: Vec<Node> = Vec::with_capacity(parents.len());
        let mut k: usize = 0;
        while k < parents.len()
            invariant
                k <= parents@.len(),
                copy@.len() == k,
                forall|j: int| 0 <= j < k ==> copy@[j] == parents@[j],
            decreases parents@.len() - k,
        {
            copy.push(parents[k]);
            k += 1;
        }
        assert(nodes_view(copy@) =~= psv);
        let ghost pv0 = self.start_state.parents_view();
        self.start_state.insert_parents(cs_id, copy);
        assert(self.start_state.parents_view() =~= pv0.insert(cs_id@, psv));
        let covered = match vertex {
            Some(v) => {
                match self.start_state.insert_vertex_assignment(cs_id, v) {
                    Ok(()) => {},
                    Err(e) => {
                        return Err(e);
                    },
                }
                match iddag.contains_id(v) {
                    Ok(b) => b,
                    Err(e) => {
                        return Err(e);
                    },
                }
            },
            None => false,
        };
        let mut next: Vec<Node> = Vec::new();
        if !covered {
            let ghost v0 = self.visited@.dom();
            let ghost st = self.start_state;
            let mut i: usize = 0;
            assert(Seq::<Seq<u8>>::empty() + fresh(psv, v0, 0) =~= fresh(psv, v0, 0));
            while i < parents.len()
                invariant
                    i <= parents@.len(),
                    psv == nodes_view(parents@),
                    self.visited.wf(),
                    self.start_state == st,
                    nodes_view(next@) + fresh(psv, self.visited@.dom(), i as int) == fresh(psv, v0, 0),
                    visited_after(psv, self.visited@.dom(), i as int) == visited_after(psv, v0, 0),
                decreases parents@.len() - i,
            {
                let p = parents[i];
                let ghost vd = self.visited@.dom();
                let ghost nv = nodes_view(next@);
                if !self.visited.contains(&p) {
                    self.visited.insert(p, ());
                    next.push(p);
                    proof {
                        assert(self.visited@.dom() =~= vd.insert(p@));
                        assert(nodes_view(next@) =~= nv.push(p@));
                        assert(nv.push(p@) + fresh(psv, vd.insert(p@), i + 1) =~= nv + (seq![p@] + fresh(
                            psv,
                            vd.insert(p@),
                            i + 1,
                        )));
                    }
                } else {
                    proof {
                        assert(vd.insert(p@) =~= vd);
                    }
                }
                i += 1;
            }
            assert(nodes_view(next@) + Seq::<Seq<u8>>::empty() =~= nodes_view(next@));
        } else {
            assert(nodes_view(next@) =~= Seq::<Seq<u8>>::empty());
        }
        Ok(next)
    }
}

/// Tells whether two lists hold the same nodes in the same order.
pub fn same_nodes(a: &Vec<Node>, b: &Vec<Node>) -> (r: bool)
    ensures
        r == (nodes_view(a@) == nodes_view(b@)),
{
    if a.len() != b.len() {
        assert(nodes_view(a@).len() != nodes_view(b@).len());
        return false;
    }
    let mut i: usize = 0;
    while i < a.len()
        invariant
            i <= a@.len(),
            a@.len() == b@.len(),
            forall|k: int| 0 <= k < i ==> a@[k]@ == b@[k]@,
        decreases a@.len() - i,
    {
        if !a[i].same(&b[i]) {
            assert(nodes_view(a@)[i as int] != nodes_view(b@)[i as int]);
            return false;
        }
        i += 1;
    }
    assert(nodes_view(a@) =~= nodes_view(b@));
    true
}

/// Building again for a head that was built before does nothing. Where the
/// head has a vertex in the id map and the segments cover that vertex:
///
/// - the walk fetches the head and nothing else, whatever its parents are
///   and whatever was put in line before;
/// - the assignment gives no commit a vertex, so the plan holds nothing to
///   write, and it answers with the vertex that the head has.
pub proof fn lemma_rebuild_is_noop(
    ids: Set<u64>,
    parents: Map<Seq<u8>, Seq<Seq<u8>>>,
    known: Map<Seq<u8>, u64>,
    head: Seq<u8>,
    visited: Set<Seq<u8>>,
    n: nat,
    map: Map<Seq<u8>, u64>,
    low: u64,
)
    requires
        known.contains_key(head),
        ids.contains(known[head]),
        parents.contains_key(head),
        run(parents, known.dom(), start(head), n).stack.len() == 0,
        assigns(map, run(parents, known.dom(), start(head), n).order, low),
    ensures
        fetch_next(parents[head], visited, ids.contains(known[head])) == Seq::<Seq<u8>>::empty(),
        map == Map::<Seq<u8>, u64>::empty(),
        vertex_in(map, known, head) == Some(known[head]),
{
    lemma_assigned_head(parents, known.dom(), head);
    assert(map =~= Map::<Seq<u8>, u64>::empty());
}

} // verus!
