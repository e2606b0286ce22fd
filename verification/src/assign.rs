use crate::error::{Error, ErrorView, Violation};
use crate::idmap::MemIdMap;
use crate::node::Node;
use crate::nodemap::{key_find, keys_of, lemma_key_find, NodeMap, Slot};
use vstd::prelude::*;

verus! {

/// One piece of pending work of the assignment.
#[derive(Clone, Copy, Debug)]
pub enum Task {
    /// Look at the commit: unless it has a vertex, its parents come first.
    Visit(Node),
    /// Give the commit the next vertex.
    Assign(Node),
}

/// The mathematical content of a `Task`.
pub ghost enum TaskView {
    Visit(Seq<u8>),
    Assign(Seq<u8>),
}

impl View for Task {
    type V = TaskView;

    open spec fn view(&self) -> TaskView {
        match self {
            Task::Visit(c) => TaskView::Visit(c@),
            Task::Assign(c) => TaskView::Assign(c@),
        }
    }
}

impl TaskView {
    /// The commit that the work is about.
    pub open spec fn commit(self) -> Seq<u8> {
        match self {
            TaskView::Visit(c) => c,
            TaskView::Assign(c) => c,
        }
    }
}

/// The views of a stack of pending work, bottom first.
pub open spec fn stack_view(s: Seq<Task>) -> Seq<TaskView> {
    Seq::new(s.len(), |i: int| s[i]@)
}

/// The views of a list of nodes.
pub open spec fn nodes_view(v: Seq<Node>) -> Seq<Seq<u8>> {
    Seq::new(v.len(), |i: int| v[i]@)
}

/// The state of the assignment: the stack of pending work with its top at
/// the end, the commits that were put on the stack so far, and the commits
/// that got a vertex, in the order of their vertices.
pub ghost struct Machine {
    pub stack: Seq<TaskView>,
    pub seen: Set<Seq<u8>>,
    pub order: Seq<Seq<u8>>,
}

/// Puts the parents from index `i` on onto the stack, first to last, each
/// unless it was put there before. The last parent ends up on top, so the
/// first parent is worked on last.
pub open spec fn push_parents(
    stack: Seq<TaskView>,
    seen: Set<Seq<u8>>,
    ps: Seq<Seq<u8>>,
    i: int,
) -> (Seq<TaskView>, Set<Seq<u8>>)
    decreases ps.len() - i,
{
    if i < 0 || i >= ps.len() {
        (stack, seen)
    } else if seen.contains(ps[i]) {
        push_parents(stack, seen, ps, i + 1)
    } else {
        push_parents(stack.push(TaskView::Visit(ps[i])), seen.insert(ps[i]), ps, i + 1)
    }
}

/// One step of the assignment: takes the top of the stack off and works on it.
///
/// - `Visit` of a commit that has a vertex already, or whose parents are not
///   known, does nothing.
/// - `Visit` of any other commit puts `Assign` of it on the stack, and on top
///   of that `Visit` of its parents.
/// - `Assign` gives the commit the next vertex.
pub open spec fn step(
    parents: Map<Seq<u8>, Seq<Seq<u8>>>,
    assigned: Set<Seq<u8>>,
    m: Machine,
) -> Machine {
    if m.stack.len() == 0 {
        m
    } else {
        let rest = m.stack.drop_last();
        match m.stack.last() {
            TaskView::Assign(c) => Machine { stack: rest, seen: m.seen, order: m.order.push(c) },
            TaskView::Visit(c) => if assigned.contains(c) || !parents.contains_key(c) {
                Machine { stack: rest, seen: m.seen, order: m.order }
            } else {
                let (stack, seen) = push_parents(rest.push(TaskView::Assign(c)), m.seen, parents[c], 0);
                Machine { stack, seen, order: m.order }
            },
        }
    }
}

/// The state after `n` steps.
pub open spec fn run(
    parents: Map<Seq<u8>, Seq<Seq<u8>>>,
    assigned: Set<Seq<u8>>,
    m: Machine,
    n: nat,
) -> Machine
    decreases n,
{
    if n == 0 {
        m
    } else {
        step(parents, assigned, run(parents, assigned, m, (n - 1) as nat))
    }
}

/// The state in which the assignment starts: the head is to be visited.
pub open spec fn start(head: Seq<u8>) -> Machine {
    Machine { stack: seq![TaskView::Visit(head)], seen: set![head], order: Seq::empty() }
}

/// The map gives the commits of `order` the vertices from `low` on, in
/// order, and holds nothing else.
pub open spec fn assigns(map: Map<Seq<u8>, u64>, order: Seq<Seq<u8>>, low: u64) -> bool {
    &&& order.no_duplicates()
    &&& forall|c: Seq<u8>|
        #![trigger map.contains_key(c)]
        #![trigger order.contains(c)]
        map.contains_key(c) <==> order.contains(c)
    &&& forall|i: int| 0 <= i < order.len() ==> (#[trigger] map[order[i]]) == low + i
}

/// No commit stands on the stack twice, every commit on the stack or with a
/// vertex was put on the stack before, and no commit on the stack has a
/// vertex yet.
pub open spec fn discipline(m: Machine) -> bool {
    &&& forall|i: int, j: int|
        0 <= i < j < m.stack.len() ==> (#[trigger] m.stack[i]).commit() != (#[trigger] m.stack[j]).commit()
    &&& forall|i: int|
        0 <= i < m.stack.len() ==> m.seen.contains((#[trigger] m.stack[i]).commit())
            && !m.order.contains(m.stack[i].commit())
    &&& forall|i: int| 0 <= i < m.order.len() ==> m.seen.contains(#[trigger] m.order[i])
    &&& m.order.no_duplicates()
}

/// Number of `Visit` entries on a stack.
pub open spec fn visits(s: Seq<TaskView>) -> nat
    decreases s.len(),
{
    if s.len() == 0 {
        0
    } else {
        visits(s.drop_last()) + (if s.last() is Visit {
            1nat
        } else {
            0nat
        })
    }
}

/// What bounds the number of steps that are left: it falls with every step.
pub open spec fn measure(m: Machine, universe: Set<Seq<u8>>) -> int {
    3 * (universe.len() - m.seen.len()) + m.stack.len() + visits(m.stack)
}

/// Every parent that the map names belongs to the universe.
pub open spec fn covers(universe: Set<Seq<u8>>, parents: Map<Seq<u8>, Seq<Seq<u8>>>) -> bool {
    forall|c: Seq<u8>, j: int|
        parents.contains_key(c) && 0 <= j < parents[c].len() ==> universe.contains(
            #[trigger] parents[c][j],
        )
}

proof fn lemma_visits_push(s: Seq<TaskView>, t: TaskView)
    ensures
        visits(s.push(t)) == visits(s) + (if t is Visit {
            1nat
        } else {
            0nat
        }),
{
    assert(s.push(t).drop_last() =~= s);
}

/// What pushing the parents keeps and how it moves the measure.
proof fn lemma_push_parents(
    stack: Seq<TaskView>,
    seen: Set<Seq<u8>>,
    order: Seq<Seq<u8>>,
    ps: Seq<Seq<u8>>,
    i: int,
    universe: Set<Seq<u8>>,
)
    requires
        0 <= i <= ps.len(),
        discipline(Machine { stack, seen, order }),
        universe.finite(),
        seen.subset_of(universe),
        forall|j: int| 0 <= j < ps.len() ==> universe.contains(#[trigger] ps[j]),
    ensures
        ({
            let (s2, seen2) = push_parents(stack, seen, ps, i);
            &&& discipline(Machine { stack: s2, seen: seen2, order })
            &&& seen2.subset_of(universe)
            &&& seen.subset_of(seen2)
            &&& measure(Machine { stack: s2, seen: seen2, order }, universe) <= measure(
                Machine { stack, seen, order },
                universe,
            )
            &&& s2.len() >= stack.len()
            &&& s2.subrange(0, stack.len() as int) == stack
        }),
    decreases ps.len() - i,
{
    vstd::set_lib::lemma_len_subset(seen, universe);
    if i < ps.len() {
        if seen.contains(ps[i]) {
            lemma_push_parents(stack, seen, order, ps, i + 1, universe);
        } else {
            let s1 = stack.push(TaskView::Visit(ps[i]));
            let seen1 = seen.insert(ps[i]);
            let m0 = Machine { stack, seen, order };
            let m1 = Machine { stack: s1, seen: seen1, order };
            assert(discipline(m1)) by {
                assert forall|a: int, b: int| 0 <= a < b < m1.stack.len() implies (
                #[trigger] m1.stack[a]).commit() != (#[trigger] m1.stack[b]).commit() by {
                    if b == stack.len() {
                        assert(m0.seen.contains(m0.stack[a].commit()));
                    } else {
                        assert(m0.stack[a].commit() != m0.stack[b].commit());
                    }
                }
                assert forall|a: int| 0 <= a < m1.stack.len() implies m1.seen.contains(
                    (#[trigger] m1.stack[a]).commit(),
                ) && !m1.order.contains(m1.stack[a].commit()) by {
                    if a == stack.len() {
                        if order.contains(ps[i]) {
                            let k = choose|k: int| 0 <= k < order.len() && order[k] == ps[i];
                            assert(m0.seen.contains(m0.order[k]));
                        }
                    } else {
                        assert(m0.seen.contains(m0.stack[a].commit()));
                    }
                }
                assert forall|a: int| 0 <= a < m1.order.len() implies m1.seen.contains(
                    #[trigger] m1.order[a],
                ) by {
                    assert(m0.seen.contains(m0.order[a]));
                }
            }
            lemma_visits_push(stack, TaskView::Visit(ps[i]));
            lemma_push_parents(s1, seen1, order, ps, i + 1, universe);
            vstd::set_lib::lemma_len_subset(seen1, universe);
            let (s2, seen2) = push_parents(s1, seen1, ps, i + 1);
            assert(s2.subrange(0, stack.len() as int) =~= s2.subrange(0, s1.len() as int).subrange(
                0,
                stack.len() as int,
            ));
            assert(s1.subrange(0, stack.len() as int) =~= stack);
        }
    } else {
        assert(stack.subrange(0, stack.len() as int) =~= stack);
    }
}

/// A step keeps the discipline of the stack and lowers the measure.
pub proof fn lemma_step(
    parents: Map<Seq<u8>, Seq<Seq<u8>>>,
    assigned: Set<Seq<u8>>,
    m: Machine,
    universe: Set<Seq<u8>>,
)
    requires
        discipline(m),
        universe.finite(),
        m.seen.subset_of(universe),
        covers(universe, parents),
        m.stack.len() > 0,
    ensures
        discipline(step(parents, assigned, m)),
        step(parents, assigned, m).seen.subset_of(universe),
        0 <= measure(step(parents, assigned, m), universe) < measure(m, universe),
        m.order.len() <= step(parents, assigned, m).order.len() <= m.order.len() + 1,
{
    let rest = m.stack.drop_last();
    let top = m.stack.last();
    let m2 = step(parents, assigned, m);
    vstd::set_lib::lemma_len_subset(m.seen, universe);
    assert(m.stack =~= rest.push(top));
    lemma_visits_push(rest, top);
    let base = Machine { stack: rest, seen: m.seen, order: m.order };
    assert(discipline(base)) by {
        assert forall|a: int| 0 <= a < rest.len() implies m.seen.contains(
            (#[trigger] rest[a]).commit(),
        ) && !m.order.contains(rest[a].commit()) by {
            assert(rest[a] == m.stack[a]);
        }
        assert forall|a: int, b: int| 0 <= a < b < rest.len() implies (#[trigger] rest[a]).commit()
            != (#[trigger] rest[b]).commit() by {
            assert(rest[a] == m.stack[a] && rest[b] == m.stack[b]);
        }
    }
    match top {
        TaskView::Assign(c) => {
            let order2 = m.order.push(c);
            assert(!m.order.contains(m.stack[m.stack.len() - 1].commit()));
            assert(discipline(m2)) by {
                assert forall|a: int| 0 <= a < rest.len() implies m.seen.contains(
                    (#[trigger] rest[a]).commit(),
                ) && !order2.contains(rest[a].commit()) by {
                    assert(rest[a] == m.stack[a]);
                    assert(m.stack[a].commit() != m.stack[m.stack.len() - 1].commit());
                    if order2.contains(rest[a].commit()) {
                        let k = choose|k: int| 0 <= k < order2.len() && order2[k] == rest[a].commit();
                        if k < m.order.len() {
                            assert(m.order[k] == rest[a].commit());
                        }
                    }
                }
                assert forall|a: int| 0 <= a < order2.len() implies m.seen.contains(
                    #[trigger] order2[a],
                ) by {
                    if a < m.order.len() {
                        assert(order2[a] == m.order[a]);
                    } else {
                        assert(m.seen.contains(m.stack[m.stack.len() - 1].commit()));
                    }
                }
                assert forall|a: int, b: int| 0 <= a < order2.len() && 0 <= b < order2.len() && a
                    != b implies order2[a] != order2[b] by {
                    if a < m.order.len() && b < m.order.len() {
                        assert(m.order[a] != m.order[b]);
                    } else if a < m.order.len() {
                        assert(m.order[a] == order2[a]);
                    } else {
                        assert(m.order[b] == order2[b]);
                    }
                }
            }
        },
        TaskView::Visit(c) => {
            if assigned.contains(c) || !parents.contains_key(c) {
            } else {
                let s1 = rest.push(TaskView::Assign(c));
                let m1 = Machine { stack: s1, seen: m.seen, order: m.order };
                lemma_visits_push(rest, TaskView::Assign(c));
                assert(discipline(m1)) by {
                    assert forall|a: int| 0 <= a < s1.len() implies m.seen.contains(
                        (#[trigger] s1[a]).commit(),
                    ) && !m.order.contains(s1[a].commit()) by {
                        assert(s1[a].commit() == m.stack[a].commit());
                    }
                    assert forall|a: int, b: int| 0 <= a < b < s1.len() implies (
                    #[trigger] s1[a]).commit() != (#[trigger] s1[b]).commit() by {
                        assert(s1[a].commit() == m.stack[a].commit());
                        assert(s1[b].commit() == m.stack[b].commit());
                    }
                }
                assert forall|j: int| 0 <= j < parents[c].len() implies universe.contains(
                    #[trigger] parents[c][j],
                ) by {}
                lemma_push_parents(s1, m.seen, m.order, parents[c], 0, universe);
                let (s2, seen2) = push_parents(s1, m.seen, parents[c], 0);
                vstd::set_lib::lemma_len_subset(seen2, universe);
            }
        },
    }
    vstd::set_lib::lemma_len_subset(m2.seen, universe);
}

/// What is known before an assignment: the parents of the commits that
/// were looked at, and the vertices of those that have one.
pub struct StartState {
    pub parents: NodeMap<Vec<Node>>,
    pub assignments: MemIdMap,
}

/// All parents that the slots name, one list after the other.
pub open spec fn all_parents(slots: Seq<Slot<Vec<Node>>>) -> Seq<Seq<u8>>
    decreases slots.len(),
{
    if slots.len() == 0 {
        Seq::empty()
    } else {
        all_parents(slots.drop_last()) + nodes_view(slots.last().value@)
    }
}

proof fn lemma_all_parents(slots: Seq<Slot<Vec<Node>>>, i: int, j: int)
    requires
        0 <= i < slots.len(),
        0 <= j < slots[i].value@.len(),
    ensures
        all_parents(slots).contains(slots[i].value@[j]@),
    decreases slots.len(),
{
    let front = all_parents(slots.drop_last());
    let back = nodes_view(slots.last().value@);
    if i == slots.len() - 1 {
        assert((front + back)[front.len() + j] == back[j]);
    } else {
        lemma_all_parents(slots.drop_last(), i, j);
        let k = choose|k: int| 0 <= k < front.len() && front[k] == slots[i].value@[j]@;
        assert((front + back)[k] == front[k]);
    }
}

impl StartState {
    /// Both maps are valid.
    pub open spec fn wf(&self) -> bool {
        self.parents.wf() && self.assignments.wf()
    }

    /// The parents of each commit whose parents are known.
    pub open spec fn parents_view(&self) -> Map<Seq<u8>, Seq<Seq<u8>>> {
        Map::new(
            |c: Seq<u8>| self.parents@.contains_key(c),
            |c: Seq<u8>| nodes_view(self.parents@[c]@),
        )
    }

    /// The commits that have a vertex.
    pub open spec fn assigned(&self) -> Set<Seq<u8>> {
        self.assignments@.dom()
    }

    /// Nothing is known.
    pub fn new() -> (r: StartState)
        ensures
            r.wf(),
            r.parents@ == Map::<Seq<u8>, Vec<Node>>::empty(),
            r.assignments@ == Map::<Seq<u8>, u64>::empty(),
    {
        StartState { parents: NodeMap::new(), assignments: MemIdMap::new() }
    }

    /// Records the parents of a commit. Returns the parents that were
    /// recorded for it before.
    pub fn insert_parents(&mut self, cs_id: Node, parents: Vec<Node>) -> (r: Option<Vec<Node>>)
        requires
            old(self).wf(),
        ensures
            final(self).wf(),
            final(self).parents@ == old(self).parents@.insert(cs_id@, parents),
            final(self).assignments == old(self).assignments,
            r is Some <==> old(self).parents@.contains_key(cs_id@),
            r is Some ==> r.unwrap() == old(self).parents@[cs_id@],
    {
        self.parents.insert(cs_id, parents)
    }

    /// Records the vertex of a commit. Fails with `IdMapCollision`, and
    /// changes nothing, where the commit or the vertex is recorded with
    /// something else.
    pub fn insert_vertex_assignment(&mut self, cs_id: Node, vertex: u64) -> (r: Result<(), Error>)
        requires
            old(self).wf(),
        ensures
            final(self).wf(),
            final(self).parents == old(self).parents,
            r is Ok <==> (old(self).assignments@.contains_key(cs_id@) ==> old(self).assignments@[cs_id@]
                == vertex) && (crate::idmap::has_vertex(old(self).assignments@, vertex) ==> old(
                self,
            ).assignments@.contains_key(cs_id@)),
            r is Ok ==> final(self).assignments@ == old(self).assignments@.insert(cs_id@, vertex),
            r is Err ==> r.unwrap_err()@ == ErrorView::IdMapCollision && final(self).assignments@
                == old(self).assignments@,
    {
        self.assignments.insert(vertex, cs_id)
    }

    /// The parents of a commit that has no vertex; `None` for a commit that
    /// has a vertex, and for one whose parents are not known.
    pub fn get_parents_if_not_assigned(&self, cs_id: &Node) -> (r: Option<Vec<Node>>)
        requires
            self.wf(),
        ensures
            r is Some <==> !self.assigned().contains(cs_id@) && self.parents_view().contains_key(
                cs_id@,
            ),
            r is Some ==> nodes_view(r.unwrap()@) == self.parents_view()[cs_id@],
    {
        if self.assignments.find_vertex(cs_id).is_some() {
            return None;
        }
        match self.parents.get(cs_id) {
            None => None,
            Some(ps) => {
                let mut out: Vec<Node> = Vec::with_capacity(ps.len());
                let mut i: usize = 0;
                while i < ps.len()
                    invariant
                        i <= ps@.len(),
                        out@.len() == i,
                        forall|k: int| 0 <= k < i ==> out@[k] == ps@[k],
                    decreases ps@.len() - i,
                {
                    out.push(ps[i]);
                    i += 1;
                }
                assert(nodes_view(out@) =~= nodes_view(ps@));
                Some(out)
            },
        }
    }
}

/// Gives a vertex to the head and to every ancestor of it that has none,
/// as far as the parents are known: the vertices from `low_vertex` on, in
/// the order in which the stack of pending work gets to them.
///
/// The work starts with a visit of the head and goes on, step by step, until
/// the stack is empty; see `step`. A commit gets its vertex after all that
/// was put on the stack above it is done, and of the parents of a commit
/// the first is worked on last.
///
/// Fails with `VertexSpaceExhausted` where the vertices run out.
pub fn assign_ids(start_state: &StartState, head: Node, low_vertex: u64) -> (r: Result<
    MemIdMap,
    Error,
>)
    requires
        start_state.wf(),
    ensures
        match r {
            Ok(map) => map.wf() && exists|n: nat|
                {
                    let m = #[trigger] run(
                        start_state.parents_view(),
                        start_state.assigned(),
                        start(head@),
                        n,
                    );
                    m.stack.len() == 0 && assigns(map@, m.order, low_vertex)
                },
            Err(e) => e@ == ErrorView::InvariantViolated(Violation::VertexSpaceExhausted)
                && exists|n: nat|
                low_vertex + (#[trigger] run(
                    start_state.parents_view(),
                    start_state.assigned(),
                    start(head@),
                    n,
                )).order.len() > u64::MAX + 1,
        },
{
    let ghost pv = start_state.parents_view();
    let ghost asg = start_state.assigned();
    let ghost slots = start_state.parents.slots@;
    let ghost universe = all_parents(slots).to_set().insert(head@);
    proof {
        vstd::seq_lib::seq_to_set_is_finite(all_parents(slots));
        assert forall|c: Seq<u8>, j: int|
            pv.contains_key(c) && 0 <= j < pv[c].len() implies universe.contains(
            #[trigger] pv[c][j],
        ) by {
            let ks = keys_of(slots);
            lemma_key_find(ks, c);
            let k = key_find(ks, c).unwrap();
            lemma_all_parents(slots, k, j);
        }
    }
    let mut stack: Vec<Task> = Vec::new();
    stack.push(Task::Visit(head));
    let mut result = MemIdMap::new();
    let mut seen: NodeMap<()> = NodeMap::new();
    seen.insert(head, ());
    let ghost mut m = start(head@);
    let ghost mut n: nat = 0;
    proof {
        assert(stack_view(stack@) =~= m.stack);
        assert(seen@.dom() =~= m.seen);
        assert(discipline(m));
    }
    while stack.len() > 0
        invariant
            start_state.wf(),
            pv == start_state.parents_view(),
            asg == start_state.assigned(),
            universe.finite(),
            covers(universe, pv),
            m == run(pv, asg, start(head@), n),
            stack_view(stack@) == m.stack,
            seen.wf(),
            seen@.dom() =~= m.seen,
            m.seen.subset_of(universe),
            discipline(m),
            result.wf(),
            assigns(result@, m.order, low_vertex),
            result.vertex_of.slots@.len() == m.order.len(),
        decreases measure(m, universe),
    {
        let ghost m_before = m;
        let ghost stack_before = stack@;
        proof {
            lemma_step(pv, asg, m, universe);
        }
        let top = stack.pop().unwrap();
        assert(top@ == m.stack.last());
        assert(stack_view(stack@) =~= m.stack.drop_last());
        match top {
            Task::Visit(c) => {
                let has_vertex = start_state.assignments.find_vertex(&c).is_some();
                if !has_vertex {
                    match start_state.parents.get(&c) {
                        None => {},
                        Some(ps) => {
                            stack.push(Task::Assign(c));
                            let ghost s1 = stack_view(stack@);
                            let ghost seen1 = seen@.dom();
                            let ghost psv = nodes_view(ps@);
                            assert(s1 =~= m.stack.drop_last().push(TaskView::Assign(c@)));
                            assert(psv == pv[c@]);
                            let mut j: usize = 0;
                            while j < ps.len()
                                invariant
                                    j <= ps@.len(),
                                    psv == nodes_view(ps@),
                                    seen.wf(),
                                    push_parents(stack_view(stack@), seen@.dom(), psv, j as int)
                                        == push_parents(s1, seen1, psv, 0),
                                decreases ps@.len() - j,
                            {
                                let p = ps[j];
                                let ghost sv = stack_view(stack@);
                                let ghost sd = seen@.dom();
                                if !seen.contains(&p) {
                                    seen.insert(p, ());
                                    stack.push(Task::Visit(p));
                                    proof {
                                        assert(stack_view(stack@) =~= sv.push(TaskView::Visit(p@)));
                                        assert(seen@.dom() =~= sd.insert(p@));
                                    }
                                }
                                j += 1;
                            }
                        },
                    }
                }
            },
            Task::Assign(c) => {
                let k = result.len();
                if k as u64 > u64::MAX - low_vertex {
                    proof {
                        let m2 = step(pv, asg, m);
                        assert(m2 == run(pv, asg, start(head@), n + 1));
                        assert(low_vertex + m2.order.len() > u64::MAX + 1);
                    }
                    return Err(Error::InvariantViolated(Violation::VertexSpaceExhausted));
                }
                let vertex = low_vertex + k as u64;
                proof {
                    assert(!m.order.contains(m.stack[m.stack.len() - 1].commit()));
                    if crate::idmap::has_vertex(result@, vertex) {
                        let c2 = choose|c2: Seq<u8>| result@.contains_key(c2) && #[trigger] result@[c2]
                            == vertex;
                        let i = choose|i: int| 0 <= i < m.order.len() && m.order[i] == c2;
                        assert(result@[m.order[i]] == low_vertex + i);
                    }
                }
                let ghost old_map = result@;
                let inserted = result.insert(vertex, c);
                proof {
                    let order2 = m.order.push(c@);
                    assert(step(pv, asg, m).order == order2);
                    assert forall|q: Seq<u8>| result@.contains_key(q) <==> order2.contains(q) by {
                        if order2.contains(q) {
                            let i = choose|i: int| 0 <= i < order2.len() && order2[i] == q;
                            if i < m.order.len() {
                                assert(m.order[i] == q);
                            }
                        }
                        if old_map.contains_key(q) {
                            let i = choose|i: int| 0 <= i < m.order.len() && m.order[i] == q;
                            assert(order2[i] == q);
                        }
                        if q == c@ {
                            assert(order2[m.order.len() as int] == q);
                        }
                    }
                    assert forall|i: int| 0 <= i < order2.len() implies (#[trigger] result@[order2[i]])
                        == low_vertex + i by {
                        if i < m.order.len() {
                            assert(order2[i] == m.order[i]);
                            assert(old_map[m.order[i]] == low_vertex + i);
                        }
                    }
                }
            },
        }
        proof {
            m = step(pv, asg, m);
            n = n + 1;
        }
    }
    Ok(result)
}

} // verus!
