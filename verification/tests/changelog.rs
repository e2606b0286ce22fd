use std::collections::{HashMap, VecDeque};

use scm_core::assign::{assign_ids, StartState};
use scm_core::error::{Error, Violation};
use scm_core::iddag::{update_iddag, IdDag};
use scm_core::idmap::MemIdMap;
use scm_core::node::Node;
use scm_core::update::{
    check_next_ids, next_vertex_after, plan_build, plan_update, vertex_parents, NextIds, Traversal,
};

fn cs(n: u8) -> Node {
    let mut bytes = [0u8; 20];
    bytes[19] = n;
    Node { bytes }
}

struct Repo {
    graph: HashMap<[u8; 20], Vec<Node>>,
    idmap: MemIdMap,
    iddag: IdDag,
    idmap_writes: usize,
}

impl Repo {
    fn new(commits: &[(Node, Vec<Node>)]) -> Repo {
        let mut graph = HashMap::new();
        for (c, ps) in commits {
            graph.insert(c.bytes, ps.clone());
        }
        Repo { graph, idmap: MemIdMap::new(), iddag: IdDag::new_in_process(), idmap_writes: 0 }
    }

    fn build_incremental(&mut self, head: Node) -> Result<u64, Error> {
        let dag_next = self.iddag.next_free_id()?;
        let last = self.idmap.entries().iter().map(|e| e.0).max();
        let map_next = next_vertex_after(last)?;
        let next = check_next_ids(dag_next, map_next)?;
        let mut walk = Traversal::new();
        let mut queue = VecDeque::new();
        queue.push_back(head);
        while let Some(c) = queue.pop_front() {
            let parents = self.graph[&c.bytes].clone();
            let vertex = self.idmap.find_vertex(&c);
            for n in walk.on_fetched(&self.iddag, c, parents, vertex)? {
                queue.push_back(n);
            }
        }
        let plan = plan_update(&walk.start_state, head, next, map_next)?;
        if let Some(mem) = &plan.update {
            for (v, c) in mem.entries() {
                self.idmap.insert(v, c)?;
                self.idmap_writes += 1;
            }
            update_iddag(&mut self.iddag, &walk.start_state, mem, plan.head_vertex)?;
        }
        Ok(plan.head_vertex)
    }
}

#[test]
fn incremental_assignment_ordering() {
    let (a, b, c) = (cs(1), cs(2), cs(3));
    let mut repo = Repo::new(&[(a, vec![]), (b, vec![a]), (c, vec![b, a])]);
    assert_eq!(repo.build_incremental(c).unwrap(), 2);
    assert_eq!(repo.idmap.find_vertex(&a), Some(0));
    assert_eq!(repo.idmap.find_vertex(&b), Some(1));
    assert_eq!(repo.idmap.find_vertex(&c), Some(2));
    assert_eq!(repo.iddag.next_free_id().unwrap(), 3);
    assert_eq!(repo.iddag.contains_id(0).unwrap(), true);
    assert_eq!(repo.iddag.contains_id(2).unwrap(), true);
    assert_eq!(repo.iddag.contains_id(3).unwrap(), false);
}

#[test]
fn incremental_noop() {
    let (a, b, c) = (cs(1), cs(2), cs(3));
    let mut repo = Repo::new(&[(a, vec![]), (b, vec![a]), (c, vec![b, a])]);
    assert_eq!(repo.build_incremental(c).unwrap(), 2);
    let writes = repo.idmap_writes;
    assert_eq!(writes, 3);
    assert_eq!(repo.build_incremental(c).unwrap(), 2);
    assert_eq!(repo.idmap_writes, writes);
    assert_eq!(repo.iddag.next_free_id().unwrap(), 3);
}

#[test]
fn incremental_extends_existing() {
    let (a, b, c, d) = (cs(1), cs(2), cs(3), cs(4));
    let mut repo = Repo::new(&[(a, vec![]), (b, vec![a]), (c, vec![b]), (d, vec![c, a])]);
    assert_eq!(repo.build_incremental(b).unwrap(), 1);
    assert_eq!(repo.build_incremental(d).unwrap(), 3);
    assert_eq!(repo.idmap.find_vertex(&c), Some(2));
    assert_eq!(repo.iddag.next_free_id().unwrap(), 4);
}

#[test]
fn first_parent_gets_highest_vertex_among_siblings() {
    let (first, second, c) = (cs(1), cs(2), cs(3));
    let mut state = StartState::new();
    state.insert_parents(c, vec![first, second]);
    state.insert_parents(first, vec![]);
    state.insert_parents(second, vec![]);
    let map = assign_ids(&state, c, 10).unwrap();
    assert_eq!(map.find_vertex(&second), Some(10));
    assert_eq!(map.find_vertex(&first), Some(11));
    assert_eq!(map.find_vertex(&c), Some(12));
    assert_eq!(map.len(), 3);
}

#[test]
fn assign_skips_assigned_and_unknown() {
    let (a, b, c, d) = (cs(1), cs(2), cs(3), cs(4));
    let mut state = StartState::new();
    state.insert_parents(d, vec![c, b]);
    state.insert_parents(c, vec![a]);
    state.insert_parents(a, vec![]);
    state.insert_vertex_assignment(a, 0).unwrap();
    // the parents of b are not known: it gets no vertex
    let map = assign_ids(&state, d, 1).unwrap();
    assert_eq!(map.find_vertex(&a), None);
    assert_eq!(map.find_vertex(&b), None);
    assert_eq!(map.find_vertex(&c), Some(1));
    assert_eq!(map.find_vertex(&d), Some(2));
}

#[test]
fn assign_fails_when_vertices_run_out() {
    let (a, b) = (cs(1), cs(2));
    let mut state = StartState::new();
    state.insert_parents(b, vec![a]);
    state.insert_parents(a, vec![]);
    match assign_ids(&state, b, u64::MAX) {
        Err(Error::InvariantViolated(Violation::VertexSpaceExhausted)) => {}
        other => panic!("unexpected result {:?}", other.map(|m| m.len())),
    }
}

#[test]
fn next_ids_are_checked() {
    assert_eq!(check_next_ids(3, 3).unwrap(), NextIds::Level);
    assert_eq!(check_next_ids(2, 3).unwrap(), NextIds::IdMapAhead);
    match check_next_ids(4, 3) {
        Err(Error::InvariantViolated(Violation::IdDagAhead)) => {}
        other => panic!("unexpected result {:?}", other),
    }
    assert_eq!(next_vertex_after(None).unwrap(), 0);
    assert_eq!(next_vertex_after(Some(7)).unwrap(), 8);
    assert!(next_vertex_after(Some(u64::MAX)).is_err());
}

#[test]
fn vertex_parents_resolves_new_before_known() {
    let (a, b, c) = (cs(1), cs(2), cs(3));
    let mut state = StartState::new();
    state.insert_parents(c, vec![b, a]);
    state.insert_parents(b, vec![a]);
    state.insert_parents(a, vec![]);
    state.insert_vertex_assignment(a, 0).unwrap();
    let mut mem = MemIdMap::new();
    mem.insert(1, b).unwrap();
    mem.insert(2, c).unwrap();
    assert_eq!(vertex_parents(&state, &mem, 2).unwrap(), vec![1, 0]);
    assert_eq!(vertex_parents(&state, &mem, 1).unwrap(), vec![0]);
    assert_eq!(vertex_parents(&state, &mem, 0).unwrap(), Vec::<u64>::new());
    assert!(vertex_parents(&state, &mem, 5).is_err());
}

#[test]
fn idmap_rejects_collisions() {
    let (a, b) = (cs(1), cs(2));
    let mut map = MemIdMap::new();
    map.insert(0, a).unwrap();
    map.insert(0, a).unwrap();
    assert!(matches!(map.insert(0, b), Err(Error::IdMapCollision)));
    assert!(matches!(map.insert(1, a), Err(Error::IdMapCollision)));
    assert_eq!(map.len(), 1);
    assert_eq!(map.find_changeset_id(0), Some(a));
    assert!(matches!(map.get_vertex(&b), Err(Error::NotFound)));
}

#[test]
fn full_build_is_planned_from_the_low_vertex() {
    let (a, b, c) = (cs(1), cs(2), cs(3));
    let mut state = StartState::new();
    state.insert_parents(a, vec![]);
    state.insert_parents(b, vec![a]);
    state.insert_parents(c, vec![b, a]);
    let (head_vertex, mem) = plan_build(&state, c, 5).unwrap();
    assert_eq!(head_vertex, 7);
    assert_eq!(mem.find_vertex(&a), Some(5));
    assert_eq!(mem.find_vertex(&b), Some(6));
    assert_eq!(mem.len(), 3);

    // a head with a vertex needs nothing new
    state.insert_vertex_assignment(c, 2).unwrap();
    let (head_vertex, mem) = plan_build(&state, c, 5).unwrap();
    assert_eq!((head_vertex, mem.len()), (2, 0));

    // a head whose parents are not known gets no vertex
    let unknown = cs(9);
    assert!(matches!(
        plan_build(&state, unknown, 5),
        Err(Error::InvariantViolated(Violation::HeadUnassigned))
    ));
    assert!(matches!(
        plan_build(&StartState::new(), a, u64::MAX),
        Err(Error::InvariantViolated(Violation::HeadUnassigned))
    ));
}
