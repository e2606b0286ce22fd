use crate::assign::StartState;
use crate::error::{Error, ErrorView, Violation};
use crate::idmap::MemIdMap;
use crate::update::{vertex_parents, MASTER_LIMIT, MASTER_MIN};
use vstd::prelude::*;

verus! {

#[verifier::external_type_specification]
#[verifier::external_body]
pub struct ExDagError(dag::errors::DagError);

/// The segment structure over the vertices, kept in memory: holds a
/// `dag::InProcessIdDag`. Its store type cannot be named outside its crate,
/// so the value is kept behind this struct.
#[verifier::external_body]
pub struct IdDag {
    inner: dag::InProcessIdDag,
}

/// The vertices that the segments cover.
pub uninterp spec fn iddag_ids(d: IdDag) -> Set<u64>;

/// Calls `dag::IdDag::new_in_process`. The new segment structure covers no
/// vertex.
#[verifier::external_body]
fn iddag_new() -> (r: IdDag)
    ensures
        iddag_ids(r) == Set::<u64>::empty(),
{
    IdDag { inner: dag::IdDag::new_in_process() }
}

/// Calls `dag::IdDag::contains_id`: whether the set of all covered vertices
/// holds the vertex. The structure in memory reads its set of vertices
/// without fail.
#[verifier::external_body]
fn iddag_contains(d: &IdDag, vertex: u64) -> (r: Result<bool, dag::errors::DagError>)
    ensures
        r is Ok,
        r matches Ok(b) ==> b == iddag_ids(*d).contains(vertex),
{
    d.inner.contains_id(dag::Id(vertex))
}

/// Calls `dag::IdDagAlgorithm::master_group` and `max` on the set it
/// returns: the greatest covered vertex of the master group, if there is
/// one. The structure in memory reads its set of vertices without fail.
#[verifier::external_body]
fn iddag_master_max(d: &IdDag) -> (r: Result<Option<u64>, dag::errors::DagError>)
    ensures
        r is Ok,
        r matches Ok(Some(m)) ==> m < MASTER_LIMIT && iddag_ids(*d).contains(m) && forall|v: u64|
            iddag_ids(*d).contains(v) && v < MASTER_LIMIT ==> v <= m,
        r matches Ok(None) ==> forall|v: u64| iddag_ids(*d).contains(v) ==> v >= MASTER_LIMIT,
{
    Ok(d.inner.master_group()?.max().map(|id| id.0))
}

/// What `dag::IdDag::build_segments` comes to on segments that cover the
/// vertices `ids`, for the head, where the parents of a vertex are answered
/// as `parents_answer` gives them from the three maps: the vertices that
/// the segments cover afterwards, or `None` where the builder fails. The
/// builder walks from the head to the vertices that are covered and adds
/// what it passes.
pub uninterp spec fn iddag_built(
    ids: Set<u64>,
    head: u64,
    parents: Map<Seq<u8>, Seq<Seq<u8>>>,
    known: Map<Seq<u8>, u64>,
    mem: Map<Seq<u8>, u64>,
) -> Option<Set<u64>>;

/// Calls `dag::IdDag::build_segments` with the head and with
/// `vertex_parents` as the function that gives the parents of a vertex. That
/// function only answers for vertices of the master group, with parents
/// below their child. Where the call succeeds the segments cover the head
/// and all that they covered before; whether it succeeds, and what is
/// covered then, is named by `iddag_built`.
#[verifier::external_body]
fn iddag_build(d: &mut IdDag, head: u64, start_state: &StartState, mem_idmap: &MemIdMap) -> (r:
    Result<usize, dag::errors::DagError>)
    requires
        head < MASTER_LIMIT,
        start_state.wf(),
        mem_idmap.wf(),
    ensures
        r is Ok ==> iddag_ids(*final(d)).contains(head) && iddag_ids(*old(d)).subset_of(
            iddag_ids(*final(d)),
        ),
        match iddag_built(
            iddag_ids(*old(d)),
            head,
            start_state.parents_view(),
            start_state.assignments@,
            mem_idmap@,
        ) {
            Some(ids) => r is Ok && iddag_ids(*final(d)) == ids,
            None => r is Err,
        },
{
    let parents = |id: dag::Id| match vertex_parents(start_state, mem_idmap, id.0) {
        Ok(vs) => Ok(vs.into_iter().map(dag::Id).collect()),
        Err(e) => Err(dag::errors::BackendError::Generic(format!("{:?}", e)).into()),
    };
    d.inner.build_segments(dag::Id(head), &parents)
}

impl IdDag {
    /// A segment structure that covers no vertex.
    pub fn new_in_process() -> (r: IdDag)
        ensures
            iddag_ids(r) == Set::<u64>::empty(),
    {
        iddag_new()
    }

    /// Tells whether the segments cover the vertex. The structure in memory
    /// always answers.
    pub fn contains_id(&self, vertex: u64) -> (r: Result<bool, Error>)
        ensures
            r == Ok::<bool, Error>(iddag_ids(*self).contains(vertex)),
    {
        match iddag_contains(self, vertex) {
            Ok(b) => Ok(b),
            Err(_) => Err(Error::DagBackend),
        }
    }

    /// The first vertex of the master group above all that the segments
    /// cover there. The structure in memory always answers.
    pub fn next_free_id(&self) -> (r: Result<u64, Error>)
        ensures
            r is Ok,
            r matches Ok(next) ==> next <= MASTER_LIMIT && (forall|v: u64|
                iddag_ids(*self).contains(v) && v < MASTER_LIMIT ==> v < next) && (next == MASTER_MIN
                || iddag_ids(*self).contains((next - 1) as u64)),
            r matches Err(e) ==> e@ == ErrorView::DagBackend,
    {
        match iddag_master_max(self) {
            Ok(None) => Ok(MASTER_MIN),
            Ok(Some(m)) => Ok(m + 1),
            Err(_) => Err(Error::DagBackend),
        }
    }
}

/// Makes the segments cover the head and its ancestors. The parents of a
/// vertex are resolved by `vertex_parents`.
///
/// Fails with `UnknownVertex`, before anything is done, where the head lies
/// outside the master group, and with `DagBackend` exactly where the
/// segment builder fails: see `iddag_built`. The builder is answered as
/// `parents_answer` says.
pub fn update_iddag(
    iddag: &mut IdDag,
    start_state: &StartState,
    mem_idmap: &MemIdMap,
    head_vertex: u64,
) -> (r: Result<(), Error>)
    requires
        start_state.wf(),
        mem_idmap.wf(),
    ensures
        r is Ok ==> head_vertex < MASTER_LIMIT && iddag_ids(*final(iddag)).contains(head_vertex)
            && iddag_ids(*old(iddag)).subset_of(iddag_ids(*final(iddag))),
        head_vertex >= MASTER_LIMIT ==> r is Err && r.unwrap_err()@ == ErrorView::InvariantViolated(
            Violation::UnknownVertex,
        ) && *final(iddag) == *old(iddag),
        head_vertex < MASTER_LIMIT && r is Err ==> r.unwrap_err()@ == ErrorView::DagBackend,
        head_vertex < MASTER_LIMIT ==> match iddag_built(
            iddag_ids(*old(iddag)),
            head_vertex,
            start_state.parents_view(),
            start_state.assignments@,
            mem_idmap@,
        ) {
            Some(ids) => r is Ok && iddag_ids(*final(iddag)) == ids,
            None => r is Err,
        },
{
    if head_vertex >= MASTER_LIMIT {
        return Err(Error::InvariantViolated(Violation::UnknownVertex));
    }
    match iddag_build(iddag, head_vertex, start_state, mem_idmap) {
        Ok(_) => Ok(()),
        Err(_) => Err(Error::DagBackend),
    }
}

} // verus!
