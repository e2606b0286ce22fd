use crate::assign::{assigns, discipline, push_parents, run, start, step, Machine, TaskView};
use vstd::prelude::*;

verus! {

/// Of all commits only `c` names `p` as a parent.
pub open spec fn only_child(parents: Map<Seq<u8>, Seq<Seq<u8>>>, p: Seq<u8>, c: Seq<u8>) -> bool {
    forall|x: Seq<u8>, j: int|
        parents.contains_key(x) && 0 <= j < parents[x].len() && #[trigger] parents[x][j] == p ==> x == c
}

/// No commit but `a` and `b` names `p` as a parent.
pub open spec fn child_of_either(
    parents: Map<Seq<u8>, Seq<Seq<u8>>>,
    p: Seq<u8>,
    a: Seq<u8>,
    b: Seq<u8>,
) -> bool {
    forall|x: Seq<u8>, j: int|
        parents.contains_key(x) && 0 <= j < parents[x].len() && #[trigger] parents[x][j] == p ==> x == a || x
            == b
}

/// What is asked of a commit `c` with the two parents `first` and `second`
/// for their vertices to come out in order: the two are different commits
/// without a vertex whose parents are known, neither is `c` or the head, no
/// commit but `c` names the first as a parent, and no commit but `c` and the
/// first names the second.
pub open spec fn family(
    parents: Map<Seq<u8>, Seq<Seq<u8>>>,
    assigned: Set<Seq<u8>>,
    head: Seq<u8>,
    c: Seq<u8>,
    first: Seq<u8>,
    second: Seq<u8>,
) -> bool {
    &&& parents.contains_key(c)
    &&& parents[c] == seq![first, second]
    &&& first != second
    &&& c != first
    &&& c != second
    &&& head != first
    &&& head != second
    &&& !assigned.contains(first)
    &&& !assigned.contains(second)
    &&& parents.contains_key(first)
    &&& parents.contains_key(second)
    &&& only_child(parents, first, c)
    &&& child_of_either(parents, second, c, first)
}

/// The stack holds `Assign` of the commit.
pub open spec fn has_assign(stack: Seq<TaskView>, c: Seq<u8>) -> bool {
    exists|i: int| 0 <= i < stack.len() && #[trigger] stack[i] == TaskView::Assign(c)
}

/// How the work on `c`, `first` and `second` stands in a state of the assignment:
/// the parents stand on the stack right above `Assign` of `c`, the first
/// below the second, until they get their vertices; the second parent gets
/// its vertex before the first, and both before `c`.
pub open spec fn in_order(m: Machine, c: Seq<u8>, first: Seq<u8>, second: Seq<u8>) -> bool {
    &&& forall|j: int|
        0 <= j < m.stack.len() && (#[trigger] m.stack[j]).commit() == first ==> j >= 1 && m.stack[j - 1]
            == TaskView::Assign(c)
    &&& forall|j: int|
        0 <= j < m.stack.len() && (#[trigger] m.stack[j]).commit() == second ==> j >= 2 && m.stack[j - 2]
            == TaskView::Assign(c) && m.stack[j - 1].commit() == first
    &&& forall|i: int|
        0 <= i < m.stack.len() && #[trigger] m.stack[i] == TaskView::Assign(c) ==> (m.order.contains(first)
            || (i + 1 < m.stack.len() && m.stack[i + 1].commit() == first)) && (m.order.contains(second) || (i
            + 2 < m.stack.len() && m.stack[i + 2].commit() == second))
    &&& (m.seen.contains(first) || m.seen.contains(second)) ==> has_assign(m.stack, c) || m.order.contains(c)
    &&& forall|k: int|
        0 <= k < m.order.len() && #[trigger] m.order[k] == c ==> exists|k1: int|
            0 <= k1 < k && #[trigger] m.order[k1] == first
    &&& forall|k: int|
        0 <= k < m.order.len() && #[trigger] m.order[k] == first ==> exists|k2: int|
            0 <= k2 < k && #[trigger] m.order[k2] == second
}

/// What pushing parents adds to the stack: visits of parents, on top of what
/// was there, and nothing else is seen.
proof fn lemma_pushed(stack: Seq<TaskView>, seen: Set<Seq<u8>>, ps: Seq<Seq<u8>>, i: int)
    requires
        0 <= i <= ps.len(),
    ensures
        ({
            let (s2, seen2) = push_parents(stack, seen, ps, i);
            &&& s2.len() >= stack.len()
            &&& s2.subrange(0, stack.len() as int) == stack
            &&& forall|k: int|
                stack.len() <= k < s2.len() ==> exists|j: int|
                    i <= j < ps.len() && #[trigger] s2[k] == TaskView::Visit(#[trigger] ps[j])
            &&& forall|q: Seq<u8>|
                seen2.contains(q) ==> seen.contains(q) || exists|j: int| i <= j < ps.len() && #[trigger] ps[j] == q
            &&& forall|q: Seq<u8>| seen.contains(q) ==> seen2.contains(q)
            &&& forall|k: int| stack.len() <= k < s2.len() ==> !seen.contains((#[trigger] s2[k]).commit())
        }),
    decreases ps.len() - i,
{
    if i < ps.len() {
        if seen.contains(ps[i]) {
            lemma_pushed(stack, seen, ps, i + 1);
        } else {
            let s1 = stack.push(TaskView::Visit(ps[i]));
            let seen1 = seen.insert(ps[i]);
            lemma_pushed(s1, seen1, ps, i + 1);
            let (s2, seen2) = push_parents(s1, seen1, ps, i + 1);
            assert forall|k: int| stack.len() <= k < s2.len() implies !seen.contains(
                (#[trigger] s2[k]).commit(),
            ) by {
                if k == stack.len() {
                    assert(s2.subrange(0, s1.len() as int)[k] == s1[k]);
                }
            }
            assert(s2.subrange(0, stack.len() as int) =~= s2.subrange(0, s1.len() as int).subrange(
                0,
                stack.len() as int,
            ));
            assert(s1.subrange(0, stack.len() as int) =~= stack);
            assert forall|k: int| stack.len() <= k < s2.len() implies exists|j: int|
                i <= j < ps.len() && #[trigger] s2[k] == TaskView::Visit(#[trigger] ps[j]) by {
                if k == stack.len() {
                    assert(s2.subrange(0, s1.len() as int)[k] == s1[k]);
                    assert(s2[k] == TaskView::Visit(ps[i]));
                } else {
                    let j = choose|j: int|
                        i + 1 <= j < ps.len() && #[trigger] s2[k] == TaskView::Visit(#[trigger] ps[j]);
                    assert(s2[k] == TaskView::Visit(ps[j]));
                }
            }
            assert forall|q: Seq<u8>| seen2.contains(q) implies seen.contains(q) || exists|j: int|
                i <= j < ps.len() && #[trigger] ps[j] == q by {
                if !seen.contains(q) {
                    if q == ps[i] {
                    } else {
                        assert(!seen1.contains(q) || seen.contains(q));
                        let j = choose|j: int| i + 1 <= j < ps.len() && #[trigger] ps[j] == q;
                        assert(ps[j] == q);
                    }
                }
            }
        }
    } else {
        assert(stack.subrange(0, stack.len() as int) =~= stack);
    }
}

/// Pushing parents keeps the discipline of the stack.
proof fn lemma_push_discipline(
    stack: Seq<TaskView>,
    seen: Set<Seq<u8>>,
    order: Seq<Seq<u8>>,
    ps: Seq<Seq<u8>>,
    i: int,
)
    requires
        0 <= i <= ps.len(),
        discipline(Machine { stack, seen, order }),
    ensures
        discipline(
            Machine {
                stack: push_parents(stack, seen, ps, i).0,
                seen: push_parents(stack, seen, ps, i).1,
                order,
            },
        ),
    decreases ps.len() - i,
{
    if i < ps.len() {
        if seen.contains(ps[i]) {
            lemma_push_discipline(stack, seen, order, ps, i + 1);
        } else {
            let s1 = stack.push(TaskView::Visit(ps[i]));
            let seen1 = seen.insert(ps[i]);
            let m0 = Machine { stack, seen, order };
            let m1 = Machine { stack: s1, seen: seen1, order };
            assert(discipline(m1)) by {
                assert forall|a: int, b: int| 0 <= a < b < m1.stack.len() implies (
                #[trigger] m1.stack[a]).commit() != (#[trigger] m1.stack[b]).commit() by {
                    if b == stack.len() {
                        assert(m0.seen.contains(m0.stack[a].commit()));
                    } else {
                        assert(m0.stack[a].commit() != m0.stack[b].commit());
                    }
                }
                assert forall|a: int| 0 <= a < m1.stack.len() implies m1.seen.contains(
                    (#[trigger] m1.stack[a]).commit(),
                ) && !m1.order.contains(m1.stack[a].commit()) by {
                    if a == stack.len() {
                        if order.contains(ps[i]) {
                            let k = choose|k: int| 0 <= k < order.len() && order[k] == ps[i];
                            assert(m0.seen.contains(m0.order[k]));
                        }
                    } else {
                        assert(m0.seen.contains(m0.stack[a].commit()));
                    }
                }
                assert forall|a: int| 0 <= a < m1.order.len() implies m1.seen.contains(
                    #[trigger] m1.order[a],
                ) by {
                    assert(m0.seen.contains(m0.order[a]));
                }
            }
            lemma_push_discipline(s1, seen1, order, ps, i + 1);
        }
    }
}

/// A step keeps the discipline of the stack.
pub proof fn lemma_step_discipline(
    parents: Map<Seq<u8>, Seq<Seq<u8>>>,
    assigned: Set<Seq<u8>>,
    m: Machine,
)
    requires
        discipline(m),
    ensures
        discipline(step(parents, assigned, m)),
{
    if m.stack.len() > 0 {
        let rest = m.stack.drop_last();
        let top = m.stack.last();
        let m2 = step(parents, assigned, m);
        let base = Machine { stack: rest, seen: m.seen, order: m.order };
        assert(discipline(base)) by {
            assert forall|a: int| 0 <= a < base.stack.len() implies base.seen.contains(
                (#[trigger] base.stack[a]).commit(),
            ) && !base.order.contains(base.stack[a].commit()) by {
                assert(rest[a] == m.stack[a]);
            }
            assert forall|a: int, b: int| 0 <= a < b < base.stack.len() implies (
            #[trigger] base.stack[a]).commit() != (#[trigger] base.stack[b]).commit() by {
                assert(rest[a] == m.stack[a] && rest[b] == m.stack[b]);
            }
        }
        match top {
            TaskView::Assign(c) => {
                let order2 = m.order.push(c);
                assert(!m.order.contains(m.stack[m.stack.len() - 1].commit()));
                assert(discipline(m2)) by {
                    assert forall|a: int| 0 <= a < m2.stack.len() implies m2.seen.contains(
                        (#[trigger] m2.stack[a]).commit(),
                    ) && !m2.order.contains(m2.stack[a].commit()) by {
                        assert(rest[a] == m.stack[a]);
                        assert(m.stack[a].commit() != m.stack[m.stack.len() - 1].commit());
                        if order2.contains(rest[a].commit()) {
                            let k = choose|k: int| 0 <= k < order2.len() && order2[k] == rest[a].commit();
                            if k < m.order.len() {
                                assert(m.order[k] == rest[a].commit());
                            }
                        }
                    }
                    assert forall|a: int| 0 <= a < m2.order.len() implies m2.seen.contains(
                        #[trigger] m2.order[a],
                    ) by {
                        if a < m.order.len() {
                            assert(order2[a] == m.order[a]);
                        } else {
                            assert(m.seen.contains(m.stack[m.stack.len() - 1].commit()));
                        }
                    }
                    assert forall|a: int, b: int|
                        0 <= a < order2.len() && 0 <= b < order2.len() && a != b implies order2[a]
                        != order2[b] by {
                        if a < m.order.len() && b < m.order.len() {
                            assert(m.order[a] != m.order[b]);
                        } else if a < m.order.len() {
                            assert(m.order[a] == order2[a]);
                        } else {
                            assert(m.order[b] == order2[b]);
                        }
                    }
                    assert forall|a: int, b: int| 0 <= a < b < m2.stack.len() implies (
                    #[trigger] m2.stack[a]).commit() != (#[trigger] m2.stack[b]).commit() by {
                        assert(base.stack[a].commit() != base.stack[b].commit());
                    }
                }
            },
            TaskView::Visit(c) => {
                if assigned.contains(c) || !parents.contains_key(c) {
                } else {
                    let s1 = rest.push(TaskView::Assign(c));
                    let m1 = Machine { stack: s1, seen: m.seen, order: m.order };
                    assert(discipline(m1)) by {
                        assert forall|a: int| 0 <= a < m1.stack.len() implies m1.seen.contains(
                            (#[trigger] m1.stack[a]).commit(),
                        ) && !m1.order.contains(m1.stack[a].commit()) by {
                            assert(s1[a].commit() == m.stack[a].commit());
                        }
                        assert forall|a: int, b: int| 0 <= a < b < m1.stack.len() implies (
                        #[trigger] m1.stack[a]).commit() != (#[trigger] m1.stack[b]).commit() by {
                            assert(s1[a].commit() == m.stack[a].commit());
                            assert(s1[b].commit() == m.stack[b].commit());
                        }
                    }
                    lemma_push_discipline(s1, m.seen, m.order, parents[c], 0);
                }
            },
        }
    }
}

/// Taking `Assign` off the stack keeps the order of the family.
proof fn lemma_assign_in_order(m: Machine, x: Seq<u8>, c: Seq<u8>, first: Seq<u8>, second: Seq<u8>)
    requires
        discipline(m),
        in_order(m, c, first, second),
        m.stack.len() > 0,
        m.stack.last() == TaskView::Assign(x),
        first != second,
        c != first,
        c != second,
    ensures
        in_order(Machine { stack: m.stack.drop_last(), seen: m.seen, order: m.order.push(x) }, c, first, second),
{
    let n = m.stack.len() as int;
    let rest = m.stack.drop_last();
    let order2 = m.order.push(x);
    let m2 = Machine { stack: rest, seen: m.seen, order: order2 };
    assert forall|q: Seq<u8>| m.order.contains(q) implies order2.contains(q) by {
        let k = choose|k: int| 0 <= k < m.order.len() && m.order[k] == q;
        assert(order2[k] == q);
    }
    assert(order2[m.order.len() as int] == x);
    assert forall|j: int| 0 <= j < m2.stack.len() && (#[trigger] m2.stack[j]).commit() == first implies j
        >= 1 && m2.stack[j - 1] == TaskView::Assign(c) by {
        assert(m.stack[j].commit() == first);
    }
    assert forall|j: int| 0 <= j < m2.stack.len() && (#[trigger] m2.stack[j]).commit() == second implies j
        >= 2 && m2.stack[j - 2] == TaskView::Assign(c) && m2.stack[j - 1].commit() == first by {
        assert(m.stack[j].commit() == second);
    }
    assert forall|i: int| 0 <= i < m2.stack.len() && #[trigger] m2.stack[i] == TaskView::Assign(c) implies (
    m2.order.contains(first) || (i + 1 < m2.stack.len() && m2.stack[i + 1].commit() == first)) && (
    m2.order.contains(second) || (i + 2 < m2.stack.len() && m2.stack[i + 2].commit() == second)) by {
        assert(m.stack[i] == TaskView::Assign(c));
        if !m.order.contains(first) && i + 1 == n - 1 {
            assert(m.stack[i + 1].commit() == first);
            assert(x == first);
        }
        if !m.order.contains(second) && i + 2 == n - 1 {
            assert(m.stack[i + 2].commit() == second);
            assert(x == second);
        }
    }
    if m2.seen.contains(first) || m2.seen.contains(second) {
        if has_assign(m.stack, c) {
            let i = choose|i: int| 0 <= i < m.stack.len() && #[trigger] m.stack[i] == TaskView::Assign(c);
            if i == n - 1 {
                assert(x == c);
            } else {
                assert(m2.stack[i] == TaskView::Assign(c));
            }
        }
    }
    assert forall|k: int| 0 <= k < m2.order.len() && #[trigger] m2.order[k] == c implies exists|k1: int|
        0 <= k1 < k && #[trigger] m2.order[k1] == first by {
        if k < m.order.len() {
            assert(m.order[k] == c);
            let k1 = choose|k1: int| 0 <= k1 < k && #[trigger] m.order[k1] == first;
            assert(m2.order[k1] == first);
        } else {
            assert(x == c);
            assert(m.stack[n - 1] == TaskView::Assign(c));
            assert(m.order.contains(first));
            let k1 = choose|k1: int| 0 <= k1 < m.order.len() && m.order[k1] == first;
            assert(m2.order[k1] == first);
        }
    }
    assert forall|k: int| 0 <= k < m2.order.len() && #[trigger] m2.order[k] == first implies exists|k2: int|
        0 <= k2 < k && #[trigger] m2.order[k2] == second by {
        if k < m.order.len() {
            assert(m.order[k] == first);
            let k2 = choose|k2: int| 0 <= k2 < k && #[trigger] m.order[k2] == second;
            assert(m2.order[k2] == second);
        } else {
            assert(x == first);
            assert(m.stack[n - 1].commit() == first);
            assert(m.stack[n - 2] == TaskView::Assign(c));
            assert(m.order.contains(second));
            let k2 = choose|k2: int| 0 <= k2 < m.order.len() && m.order[k2] == second;
            assert(m2.order[k2] == second);
        }
    }
}

/// Taking a `Visit` off the stack that does nothing keeps the order of the
/// family.
proof fn lemma_skip_in_order(m: Machine, x: Seq<u8>, c: Seq<u8>, first: Seq<u8>, second: Seq<u8>)
    requires
        discipline(m),
        in_order(m, c, first, second),
        m.stack.len() > 0,
        m.stack.last() == TaskView::Visit(x),
        x != first,
        x != second,
    ensures
        in_order(Machine { stack: m.stack.drop_last(), seen: m.seen, order: m.order }, c, first, second),
{
    let n = m.stack.len() as int;
    let rest = m.stack.drop_last();
    let m2 = Machine { stack: rest, seen: m.seen, order: m.order };
    assert forall|j: int| 0 <= j < m2.stack.len() && (#[trigger] m2.stack[j]).commit() == first implies j
        >= 1 && m2.stack[j - 1] == TaskView::Assign(c) by {
        assert(m.stack[j].commit() == first);
    }
    assert forall|j: int| 0 <= j < m2.stack.len() && (#[trigger] m2.stack[j]).commit() == second implies j
        >= 2 && m2.stack[j - 2] == TaskView::Assign(c) && m2.stack[j - 1].commit() == first by {
        assert(m.stack[j].commit() == second);
    }
    assert forall|i: int| 0 <= i < m2.stack.len() && #[trigger] m2.stack[i] == TaskView::Assign(c) implies (
    m2.order.contains(first) || (i + 1 < m2.stack.len() && m2.stack[i + 1].commit() == first)) && (
    m2.order.contains(second) || (i + 2 < m2.stack.len() && m2.stack[i + 2].commit() == second)) by {
        assert(m.stack[i] == TaskView::Assign(c));
    }
    if m2.seen.contains(first) || m2.seen.contains(second) {
        if has_assign(m.stack, c) {
            let i = choose|i: int| 0 <= i < m.stack.len() && #[trigger] m.stack[i] == TaskView::Assign(c);
            assert(m2.stack[i] == TaskView::Assign(c));
        }
    }
}

/// Putting the work for a visited commit on the stack keeps the order of the
/// family.
proof fn lemma_expand_in_order(
    parents: Map<Seq<u8>, Seq<Seq<u8>>>,
    assigned: Set<Seq<u8>>,
    head: Seq<u8>,
    m: Machine,
    x: Seq<u8>,
    c: Seq<u8>,
    first: Seq<u8>,
    second: Seq<u8>,
)
    requires
        family(parents, assigned, head, c, first, second),
        discipline(m),
        in_order(m, c, first, second),
        m.stack.len() > 0,
        m.stack.last() == TaskView::Visit(x),
        parents.contains_key(x),
    ensures
        in_order(
            Machine {
                stack: push_parents(
                    m.stack.drop_last().push(TaskView::Assign(x)),
                    m.seen,
                    parents[x],
                    0,
                ).0,
                seen: push_parents(m.stack.drop_last().push(TaskView::Assign(x)), m.seen, parents[x], 0).1,
                order: m.order,
            },
            c,
            first,
            second,
        ),
{
    let n = m.stack.len() as int;
    let rest = m.stack.drop_last();
    let s1 = rest.push(TaskView::Assign(x));
    let ps = parents[x];
    let (s2, seen2) = push_parents(s1, m.seen, ps, 0);
    let m2 = Machine { stack: s2, seen: seen2, order: m.order };
    lemma_pushed(s1, m.seen, ps, 0);
    assert(s1.len() == n);
    assert forall|k: int| 0 <= k < n implies s2[k] == s1[k] by {
        assert(s2.subrange(0, n)[k] == s1[k]);
    }
    assert forall|k: int| 0 <= k < n implies (#[trigger] s2[k]).commit() == m.stack[k].commit() by {
        assert(s2[k] == s1[k]);
    }
    assert forall|k: int| 0 <= k < n - 1 implies #[trigger] s2[k] == m.stack[k] by {
        assert(s2[k] == s1[k]);
    }
    if x == c {
        // the two parents were never on the stack: they go there now
        assert(!has_assign(m.stack, c)) by {
            if has_assign(m.stack, c) {
                let i = choose|i: int| 0 <= i < m.stack.len() && #[trigger] m.stack[i] == TaskView::Assign(c);
                assert(m.stack[i].commit() == m.stack[n - 1].commit());
            }
        }
        assert(!m.order.contains(m.stack[n - 1].commit()));
        assert(!m.seen.contains(first) && !m.seen.contains(second));
        reveal_with_fuel(push_parents, 3);
        assert(ps[0] == first && ps[1] == second && ps.len() == 2);
        assert(s2 == s1.push(TaskView::Visit(first)).push(TaskView::Visit(second)));
        assert(s2.len() == n + 2);
        assert(s2[n - 1] == TaskView::Assign(c));
        assert(s2[n] == TaskView::Visit(first));
        assert(s2[n + 1] == TaskView::Visit(second));
        assert forall|j: int| 0 <= j < m2.stack.len() && (#[trigger] m2.stack[j]).commit() == first implies j
            >= 1 && m2.stack[j - 1] == TaskView::Assign(c) by {
            if j < n {
                assert(m.seen.contains(m.stack[j].commit()));
            }
        }
        assert forall|j: int| 0 <= j < m2.stack.len() && (#[trigger] m2.stack[j]).commit() == second implies j
            >= 2 && m2.stack[j - 2] == TaskView::Assign(c) && m2.stack[j - 1].commit() == first by {
            if j < n {
                assert(m.seen.contains(m.stack[j].commit()));
            }
        }
        assert forall|i: int| 0 <= i < m2.stack.len() && #[trigger] m2.stack[i] == TaskView::Assign(c) implies (
        m2.order.contains(first) || (i + 1 < m2.stack.len() && m2.stack[i + 1].commit() == first)) && (
        m2.order.contains(second) || (i + 2 < m2.stack.len() && m2.stack[i + 2].commit() == second)) by {
            if i < n - 1 {
                assert(m.stack[i] == TaskView::Assign(c));
            }
        }
        assert(has_assign(m2.stack, c)) by {
            assert(m2.stack[n - 1] == TaskView::Assign(c));
        }
    } else {
        // the first parent names the second only after the second got its vertex
        if x == first {
            assert(m.stack[n - 1].commit() == first);
            assert(m.stack[n - 2] == TaskView::Assign(c));
            assert(m.order.contains(second));
            assert(m.seen.contains(second));
        }
        // none of the commits that go on the stack is one of the two parents
        assert forall|k: int| n <= k < s2.len() implies (#[trigger] s2[k]).commit() != first && s2[k].commit()
            != second by {
            let j = choose|j: int| 0 <= j < ps.len() && #[trigger] s2[k] == TaskView::Visit(#[trigger] ps[j]);
            assert(parents[x][j] == ps[j]);
            assert(!m.seen.contains(s2[k].commit()));
        }
        assert forall|q: Seq<u8>| (q == first || q == second) && seen2.contains(q) implies m.seen.contains(q) by {
            if !m.seen.contains(q) {
                let j = choose|j: int| 0 <= j < ps.len() && #[trigger] ps[j] == q;
                assert(parents[x][j] == q);
            }
        }
        assert forall|j: int| 0 <= j < m2.stack.len() && (#[trigger] m2.stack[j]).commit() == first implies j
            >= 1 && m2.stack[j - 1] == TaskView::Assign(c) by {
            assert(j < n);
            assert(m.stack[j].commit() == first);
            assert(s2[j - 1] == m.stack[j - 1]);
        }
        assert forall|j: int| 0 <= j < m2.stack.len() && (#[trigger] m2.stack[j]).commit() == second implies j
            >= 2 && m2.stack[j - 2] == TaskView::Assign(c) && m2.stack[j - 1].commit() == first by {
            assert(j < n);
            assert(m.stack[j].commit() == second);
            assert(s2[j - 2] == m.stack[j - 2]);
            assert(s2[j - 1].commit() == m.stack[j - 1].commit());
        }
        assert forall|i: int| 0 <= i < m2.stack.len() && #[trigger] m2.stack[i] == TaskView::Assign(c) implies (
        m2.order.contains(first) || (i + 1 < m2.stack.len() && m2.stack[i + 1].commit() == first)) && (
        m2.order.contains(second) || (i + 2 < m2.stack.len() && m2.stack[i + 2].commit() == second)) by {
            if i >= n {
                let j = choose|j: int| 0 <= j < ps.len() && #[trigger] s2[i] == TaskView::Visit(#[trigger] ps[j]);
            } else if i == n - 1 {
                assert(s2[i] == s1[i]);
            } else {
                assert(m.stack[i] == TaskView::Assign(c));
                if !m.order.contains(first) {
                    assert(s2[i + 1].commit() == m.stack[i + 1].commit());
                }
                if !m.order.contains(second) {
                    assert(s2[i + 2].commit() == m.stack[i + 2].commit());
                }
            }
        }
        if m2.seen.contains(first) || m2.seen.contains(second) {
            assert(m.seen.contains(first) || m.seen.contains(second));
            if has_assign(m.stack, c) {
                let i = choose|i: int| 0 <= i < m.stack.len() && #[trigger] m.stack[i] == TaskView::Assign(c);
                assert(i < n - 1);
                assert(m2.stack[i] == TaskView::Assign(c));
            }
        }
    }
}

/// A step keeps the order of the family.
pub proof fn lemma_step_in_order(
    parents: Map<Seq<u8>, Seq<Seq<u8>>>,
    assigned: Set<Seq<u8>>,
    head: Seq<u8>,
    m: Machine,
    c: Seq<u8>,
    first: Seq<u8>,
    second: Seq<u8>,
)
    requires
        family(parents, assigned, head, c, first, second),
        discipline(m),
        in_order(m, c, first, second),
    ensures
        in_order(step(parents, assigned, m), c, first, second),
{
    if m.stack.len() > 0 {
        match m.stack.last() {
            TaskView::Assign(x) => {
                lemma_assign_in_order(m, x, c, first, second);
            },
            TaskView::Visit(x) => {
                if assigned.contains(x) || !parents.contains_key(x) {
                    lemma_skip_in_order(m, x, c, first, second);
                } else {
                    lemma_expand_in_order(parents, assigned, head, m, x, c, first, second);
                }
            },
        }
    }
}

/// Every state of the assignment keeps the discipline of the stack and the
/// order of the family.
pub proof fn lemma_run_in_order(
    parents: Map<Seq<u8>, Seq<Seq<u8>>>,
    assigned: Set<Seq<u8>>,
    head: Seq<u8>,
    n: nat,
    c: Seq<u8>,
    first: Seq<u8>,
    second: Seq<u8>,
)
    requires
        family(parents, assigned, head, c, first, second),
    ensures
        discipline(run(parents, assigned, start(head), n)),
        in_order(run(parents, assigned, start(head), n), c, first, second),
    decreases n,
{
    if n == 0 {
        let m = start(head);
        assert(m.stack.len() == 1 && m.stack[0] == TaskView::Visit(head));
        assert(!has_assign(m.stack, c));
    } else {
        lemma_run_in_order(parents, assigned, head, (n - 1) as nat, c, first, second);
        let m = run(parents, assigned, start(head), (n - 1) as nat);
        lemma_step_discipline(parents, assigned, m);
        lemma_step_in_order(parents, assigned, head, m, c, first, second);
    }
}

/// Of a commit with two parents that got a vertex, the first parent has a
/// greater vertex than the second, and the commit a greater one than both,
/// where the two parents had no vertex before, their parents are known, the
/// first is a parent of no other commit, and the second of no other commit
/// but the first: see `family`.
pub proof fn lemma_first_parent_last(
    parents: Map<Seq<u8>, Seq<Seq<u8>>>,
    assigned: Set<Seq<u8>>,
    head: Seq<u8>,
    n: nat,
    map: Map<Seq<u8>, u64>,
    low: u64,
    c: Seq<u8>,
    first: Seq<u8>,
    second: Seq<u8>,
)
    requires
        family(parents, assigned, head, c, first, second),
        run(parents, assigned, start(head), n).stack.len() == 0,
        assigns(map, run(parents, assigned, start(head), n).order, low),
        map.contains_key(c),
    ensures
        map.contains_key(first),
        map.contains_key(second),
        map[second] < map[first] < map[c],
{
    lemma_run_in_order(parents, assigned, head, n, c, first, second);
    let m = run(parents, assigned, start(head), n);
    assert(m.order.contains(c));
    let kc = choose|k: int| 0 <= k < m.order.len() && m.order[k] == c;
    let k1 = choose|k1: int| 0 <= k1 < kc && #[trigger] m.order[k1] == first;
    let k2 = choose|k2: int| 0 <= k2 < k1 && #[trigger] m.order[k2] == second;
    assert(map[m.order[kc]] == low + kc);
    assert(map[m.order[k1]] == low + k1);
    assert(map[m.order[k2]] == low + k2);
    assert(m.order.contains(m.order[k1]));
    assert(m.order.contains(m.order[k2]));
}

/// A head without a vertex whose parents are known is given one: from the
/// first step on it waits on the stack to be assigned, or it has its vertex.
pub proof fn lemma_head_assigned(
    parents: Map<Seq<u8>, Seq<Seq<u8>>>,
    assigned: Set<Seq<u8>>,
    head: Seq<u8>,
    n: nat,
)
    requires
        !assigned.contains(head),
        parents.contains_key(head),
        n >= 1,
    ensures
        has_assign(run(parents, assigned, start(head), n).stack, head) || run(
            parents,
            assigned,
            start(head),
            n,
        ).order.contains(head),
    decreases n,
{
    let m = run(parents, assigned, start(head), (n - 1) as nat);
    let m2 = run(parents, assigned, start(head), n);
    assert(m2 == step(parents, assigned, m));
    if n == 1 {
        assert(m == start(head));
        assert(m.stack.last() == TaskView::Visit(head));
        let s1 = m.stack.drop_last().push(TaskView::Assign(head));
        lemma_pushed(s1, m.seen, parents[head], 0);
        assert(m2.stack.subrange(0, 1)[0] == s1[0]);
        assert(m2.stack[0] == TaskView::Assign(head));
    } else {
        lemma_head_assigned(parents, assigned, head, (n - 1) as nat);
        if m.order.contains(head) {
            let k = choose|k: int| 0 <= k < m.order.len() && m.order[k] == head;
            if m.stack.len() > 0 {
                match m.stack.last() {
                    TaskView::Assign(x) => {
                        assert(m2.order[k] == head);
                    },
                    TaskView::Visit(x) => {},
                }
            }
        } else {
            let i = choose|i: int| 0 <= i < m.stack.len() && #[trigger] m.stack[i] == TaskView::Assign(head);
            let rest = m.stack.drop_last();
            if i == m.stack.len() - 1 {
                assert(m2.order[m.order.len() as int] == head);
            } else {
                assert(rest[i] == TaskView::Assign(head));
                match m.stack.last() {
                    TaskView::Assign(x) => {
                        assert(m2.stack[i] == TaskView::Assign(head));
                    },
                    TaskView::Visit(x) => {
                        if assigned.contains(x) || !parents.contains_key(x) {
                            assert(m2.stack[i] == TaskView::Assign(head));
                        } else {
                            let s1 = rest.push(TaskView::Assign(x));
                            lemma_pushed(s1, m.seen, parents[x], 0);
                            assert(m2.stack.subrange(0, s1.len() as int)[i] == s1[i]);
                            assert(m2.stack[i] == TaskView::Assign(head));
                        }
                    },
                }
            }
        }
    }
}

/// Putting the work for a visited commit other than `c` on the stack keeps
/// the order of `c` and its two parents, once both parents were put on the
/// stack: nothing puts them there again.
proof fn lemma_expand_seen(
    parents: Map<Seq<u8>, Seq<Seq<u8>>>,
    m: Machine,
    x: Seq<u8>,
    c: Seq<u8>,
    first: Seq<u8>,
    second: Seq<u8>,
)
    requires
        discipline(m),
        in_order(m, c, first, second),
        m.seen.contains(first),
        m.seen.contains(second),
        m.stack.len() > 0,
        m.stack.last() == TaskView::Visit(x),
        parents.contains_key(x),
    ensures
        in_order(
            Machine {
                stack: push_parents(
                    m.stack.drop_last().push(TaskView::Assign(x)),
                    m.seen,
                    parents[x],
                    0,
                ).0,
                seen: push_parents(m.stack.drop_last().push(TaskView::Assign(x)), m.seen, parents[x], 0).1,
                order: m.order,
            },
            c,
            first,
            second,
        ),
        push_parents(m.stack.drop_last().push(TaskView::Assign(x)), m.seen, parents[x], 0).1.contains(first),
        push_parents(m.stack.drop_last().push(TaskView::Assign(x)), m.seen, parents[x], 0).1.contains(second),
{
    let n = m.stack.len() as int;
    let rest = m.stack.drop_last();
    let s1 = rest.push(TaskView::Assign(x));
    let ps = parents[x];
    let (s2, seen2) = push_parents(s1, m.seen, ps, 0);
    let m2 = Machine { stack: s2, seen: seen2, order: m.order };
    lemma_pushed(s1, m.seen, ps, 0);
    assert(s1.len() == n);
    assert forall|k: int| 0 <= k < n implies s2[k] == s1[k] by {
        assert(s2.subrange(0, n)[k] == s1[k]);
    }
    assert forall|k: int| 0 <= k < n implies (#[trigger] s2[k]).commit() == m.stack[k].commit() by {
        assert(s2[k] == s1[k]);
    }
    assert forall|k: int| 0 <= k < n - 1 implies #[trigger] s2[k] == m.stack[k] by {
        assert(s2[k] == s1[k]);
    }
    // `c` waits to be assigned or has its vertex: it is not the commit that is visited
    assert(x != c) by {
        if x == c {
            if has_assign(m.stack, c) {
                let i = choose|i: int| 0 <= i < m.stack.len() && #[trigger] m.stack[i] == TaskView::Assign(c);
                assert(m.stack[i].commit() == m.stack[n - 1].commit());
            } else {
                assert(!m.order.contains(m.stack[n - 1].commit()));
            }
        }
    }
    assert forall|k: int| n <= k < s2.len() implies (#[trigger] s2[k]).commit() != first && s2[k].commit()
        != second by {
        assert(!m.seen.contains(s2[k].commit()));
    }
    assert forall|j: int| 0 <= j < m2.stack.len() && (#[trigger] m2.stack[j]).commit() == first implies j
        >= 1 && m2.stack[j - 1] == TaskView::Assign(c) by {
        assert(j < n);
        assert(m.stack[j].commit() == first);
        assert(s2[j - 1] == m.stack[j - 1]);
    }
    assert forall|j: int| 0 <= j < m2.stack.len() && (#[trigger] m2.stack[j]).commit() == second implies j
        >= 2 && m2.stack[j - 2] == TaskView::Assign(c) && m2.stack[j - 1].commit() == first by {
        assert(j < n);
        assert(m.stack[j].commit() == second);
        assert(s2[j - 2] == m.stack[j - 2]);
        assert(s2[j - 1].commit() == m.stack[j - 1].commit());
    }
    assert forall|i: int| 0 <= i < m2.stack.len() && #[trigger] m2.stack[i] == TaskView::Assign(c) implies (
    m2.order.contains(first) || (i + 1 < m2.stack.len() && m2.stack[i + 1].commit() == first)) && (
    m2.order.contains(second) || (i + 2 < m2.stack.len() && m2.stack[i + 2].commit() == second)) by {
        if i >= n {
            let j = choose|j: int| 0 <= j < ps.len() && #[trigger] s2[i] == TaskView::Visit(#[trigger] ps[j]);
        } else if i == n - 1 {
            assert(s2[i] == s1[i]);
        } else {
            assert(m.stack[i] == TaskView::Assign(c));
            if !m.order.contains(first) {
                assert(s2[i + 1].commit() == m.stack[i + 1].commit());
            }
            if !m.order.contains(second) {
                assert(s2[i + 2].commit() == m.stack[i + 2].commit());
            }
        }
    }
    if has_assign(m.stack, c) {
        let i = choose|i: int| 0 <= i < m.stack.len() && #[trigger] m.stack[i] == TaskView::Assign(c);
        assert(i < n - 1);
        assert(m2.stack[i] == TaskView::Assign(c));
    }
}

/// Visiting a commit `c` without a vertex puts its two parents on the stack
/// above it in their order, where the first parent was never on the stack
/// and the second was never there or has its vertex.
proof fn lemma_visit_parents(
    parents: Map<Seq<u8>, Seq<Seq<u8>>>,
    assigned: Set<Seq<u8>>,
    m: Machine,
    c: Seq<u8>,
    first: Seq<u8>,
    second: Seq<u8>,
)
    requires
        discipline(m),
        m.stack.len() > 0,
        m.stack.last() == TaskView::Visit(c),
        !assigned.contains(c),
        parents.contains_key(c),
        parents[c] == seq![first, second],
        first != second,
        c != first,
        c != second,
        !m.seen.contains(first),
        !m.seen.contains(second) || m.order.contains(second),
    ensures
        in_order(step(parents, assigned, m), c, first, second),
        step(parents, assigned, m).seen.contains(first),
        step(parents, assigned, m).seen.contains(second),
{
    let n = m.stack.len() as int;
    let rest = m.stack.drop_last();
    let s1 = rest.push(TaskView::Assign(c));
    let ps = parents[c];
    let m2 = step(parents, assigned, m);
    let s2 = m2.stack;
    reveal_with_fuel(push_parents, 3);
    assert(ps[0] == first && ps[1] == second && ps.len() == 2);
    assert(s1[n - 1] == TaskView::Assign(c));
    assert forall|j: int| 0 <= j < n - 1 implies (#[trigger] m.stack[j]).commit() != first && m.stack[j].commit()
        != second && m.stack[j].commit() != c by {
        assert(m.seen.contains(m.stack[j].commit()));
        assert(!m.order.contains(m.stack[j].commit()));
        assert(m.stack[j].commit() != m.stack[n - 1].commit());
    }
    assert(!m.order.contains(m.stack[n - 1].commit()));
    assert(!m.order.contains(first)) by {
        if m.order.contains(first) {
            let k = choose|k: int| 0 <= k < m.order.len() && m.order[k] == first;
            assert(m.seen.contains(m.order[k]));
        }
    }
    if m.seen.contains(second) {
        assert(s2 == s1.push(TaskView::Visit(first)));
        assert(s2.len() == n + 1);
        assert(s2[n - 1] == TaskView::Assign(c));
        assert(s2[n] == TaskView::Visit(first));
    } else {
        assert(s2 == s1.push(TaskView::Visit(first)).push(TaskView::Visit(second)));
        assert(s2.len() == n + 2);
        assert(s2[n - 1] == TaskView::Assign(c));
        assert(s2[n] == TaskView::Visit(first));
        assert(s2[n + 1] == TaskView::Visit(second));
    }
    assert forall|j: int| 0 <= j < n - 1 implies #[trigger] s2[j] == m.stack[j] by {
        assert(s1[j] == m.stack[j]);
    }
    assert forall|j: int| 0 <= j < m2.stack.len() && (#[trigger] m2.stack[j]).commit() == first implies j
        >= 1 && m2.stack[j - 1] == TaskView::Assign(c) by {
        if j < n - 1 {
            assert(m.stack[j].commit() != first);
        }
    }
    assert forall|j: int| 0 <= j < m2.stack.len() && (#[trigger] m2.stack[j]).commit() == second implies j
        >= 2 && m2.stack[j - 2] == TaskView::Assign(c) && m2.stack[j - 1].commit() == first by {
        if j < n - 1 {
            assert(m.stack[j].commit() != second);
        }
    }
    assert forall|i: int| 0 <= i < m2.stack.len() && #[trigger] m2.stack[i] == TaskView::Assign(c) implies (
    m2.order.contains(first) || (i + 1 < m2.stack.len() && m2.stack[i + 1].commit() == first)) && (
    m2.order.contains(second) || (i + 2 < m2.stack.len() && m2.stack[i + 2].commit() == second)) by {
        if i < n - 1 {
            assert(m.stack[i].commit() != c);
        }
    }
    assert(has_assign(m2.stack, c)) by {
        assert(m2.stack[n - 1] == TaskView::Assign(c));
    }
    assert forall|k: int| 0 <= k < m2.order.len() && #[trigger] m2.order[k] == c implies exists|k1: int|
        0 <= k1 < k && #[trigger] m2.order[k1] == first by {
        assert(m.order.contains(c));
    }
    assert forall|k: int| 0 <= k < m2.order.len() && #[trigger] m2.order[k] == first implies exists|k2: int|
        0 <= k2 < k && #[trigger] m2.order[k2] == second by {
        assert(m.order.contains(first));
    }
}

/// A step keeps the order of `c` and its two parents, once both parents
/// were put on the stack.
proof fn lemma_step_seen(
    parents: Map<Seq<u8>, Seq<Seq<u8>>>,
    assigned: Set<Seq<u8>>,
    m: Machine,
    c: Seq<u8>,
    first: Seq<u8>,
    second: Seq<u8>,
)
    requires
        discipline(m),
        in_order(m, c, first, second),
        m.seen.contains(first),
        m.seen.contains(second),
        !assigned.contains(first),
        !assigned.contains(second),
        parents.contains_key(first),
        parents.contains_key(second),
    ensures
        in_order(step(parents, assigned, m), c, first, second),
        step(parents, assigned, m).seen.contains(first),
        step(parents, assigned, m).seen.contains(second),
{
    if m.stack.len() > 0 {
        match m.stack.last() {
            TaskView::Assign(x) => {
                lemma_assign_in_order(m, x, c, first, second);
            },
            TaskView::Visit(x) => {
                if assigned.contains(x) || !parents.contains_key(x) {
                    lemma_skip_in_order(m, x, c, first, second);
                } else {
                    lemma_expand_seen(parents, m, x, c, first, second);
                }
            },
        }
    }
}

/// The assignment stands still once the stack is empty.
pub proof fn lemma_run_done(
    parents: Map<Seq<u8>, Seq<Seq<u8>>>,
    assigned: Set<Seq<u8>>,
    m: Machine,
    n: nat,
    k: nat,
)
    requires
        run(parents, assigned, m, n).stack.len() == 0,
        n <= k,
    ensures
        run(parents, assigned, m, k) == run(parents, assigned, m, n),
    decreases k - n,
{
    if n < k {
        lemma_run_done(parents, assigned, m, n, (k - 1) as nat);
    }
}

/// From the visit of `c` on, every state keeps the discipline of the stack
/// and the order of `c` and its two parents.
proof fn lemma_run_seen(
    parents: Map<Seq<u8>, Seq<Seq<u8>>>,
    assigned: Set<Seq<u8>>,
    head: Seq<u8>,
    k: nat,
    n: nat,
    c: Seq<u8>,
    first: Seq<u8>,
    second: Seq<u8>,
)
    requires
        visits_parents(parents, assigned, run(parents, assigned, start(head), k), c, first, second),
        n > k,
    ensures
        discipline(run(parents, assigned, start(head), n)),
        in_order(run(parents, assigned, start(head), n), c, first, second),
        run(parents, assigned, start(head), n).seen.contains(first),
        run(parents, assigned, start(head), n).seen.contains(second),
    decreases n,
{
    lemma_run_discipline(parents, assigned, head, (n - 1) as nat);
    let m = run(parents, assigned, start(head), (n - 1) as nat);
    lemma_step_discipline(parents, assigned, m);
    if n == k + 1 {
        lemma_visit_parents(parents, assigned, m, c, first, second);
    } else {
        lemma_run_seen(parents, assigned, head, k, (n - 1) as nat, c, first, second);
        lemma_step_seen(parents, assigned, m, c, first, second);
    }
}

/// Every state of the assignment keeps the discipline of the stack.
pub proof fn lemma_run_discipline(
    parents: Map<Seq<u8>, Seq<Seq<u8>>>,
    assigned: Set<Seq<u8>>,
    head: Seq<u8>,
    n: nat,
)
    ensures
        discipline(run(parents, assigned, start(head), n)),
    decreases n,
{
    if n == 0 {
        let m = start(head);
        assert(m.stack.len() == 1 && m.stack[0] == TaskView::Visit(head));
    } else {
        lemma_run_discipline(parents, assigned, head, (n - 1) as nat);
        lemma_step_discipline(parents, assigned, run(parents, assigned, start(head), (n - 1) as nat));
    }
}

/// The commit `c` is about to be visited in the state `m`, it has no vertex
/// and the two parents `first` and `second`, which had no vertex when the
/// assignment began and whose parents are known; the first parent was never
/// on the stack, and the second was never there or has its vertex by now.
pub open spec fn visits_parents(
    parents: Map<Seq<u8>, Seq<Seq<u8>>>,
    assigned: Set<Seq<u8>>,
    m: Machine,
    c: Seq<u8>,
    first: Seq<u8>,
    second: Seq<u8>,
) -> bool {
    &&& m.stack.len() > 0
    &&& m.stack.last() == TaskView::Visit(c)
    &&& !assigned.contains(c)
    &&& parents.contains_key(c)
    &&& parents[c] == seq![first, second]
    &&& first != second
    &&& c != first
    &&& c != second
    &&& !assigned.contains(first)
    &&& !assigned.contains(second)
    &&& parents.contains_key(first)
    &&& parents.contains_key(second)
    &&& !m.seen.contains(first)
    &&& !m.seen.contains(second) || m.order.contains(second)
}

/// Of a commit with two parents that had no vertex, the first parent gets a
/// greater vertex than the second, and the commit a greater one than both,
/// in every assignment in which, when the commit is visited, the first
/// parent was never on the stack and the second was never there or has its
/// vertex: see `visits_parents`. `k` is the step at which the commit is
/// visited.
pub proof fn lemma_first_parent_above(
    parents: Map<Seq<u8>, Seq<Seq<u8>>>,
    assigned: Set<Seq<u8>>,
    head: Seq<u8>,
    k: nat,
    n: nat,
    map: Map<Seq<u8>, u64>,
    low: u64,
    c: Seq<u8>,
    first: Seq<u8>,
    second: Seq<u8>,
)
    requires
        visits_parents(parents, assigned, run(parents, assigned, start(head), k), c, first, second),
        run(parents, assigned, start(head), n).stack.len() == 0,
        assigns(map, run(parents, assigned, start(head), n).order, low),
    ensures
        map.contains_key(c),
        map.contains_key(first),
        map.contains_key(second),
        map[second] < map[first] < map[c],
{
    if n <= k {
        lemma_run_done(parents, assigned, start(head), n, k);
    }
    lemma_run_seen(parents, assigned, head, k, n, c, first, second);
    let m = run(parents, assigned, start(head), n);
    assert(!has_assign(m.stack, c));
    assert(m.order.contains(c));
    let kc = choose|j: int| 0 <= j < m.order.len() && m.order[j] == c;
    let k1 = choose|k1: int| 0 <= k1 < kc && #[trigger] m.order[k1] == first;
    let k2 = choose|k2: int| 0 <= k2 < k1 && #[trigger] m.order[k2] == second;
    assert(map[m.order[kc]] == low + kc);
    assert(map[m.order[k1]] == low + k1);
    assert(map[m.order[k2]] == low + k2);
    assert(m.order.contains(m.order[k1]));
    assert(m.order.contains(m.order[k2]));
}

} // verus!
