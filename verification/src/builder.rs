use crate::iddag::{iddag_ids, IdDag};
use crate::idmap::MemIdMap;
use crate::sql::SqlConnections;
use vstd::prelude::*;

verus! {

/// A part that a segmented changelog cannot be built without.
#[derive(Clone, Copy, Debug, PartialEq, Eq, Structural)]
pub enum Part {
    RepositoryId,
    ChangesetFetcher,
    ChangesetBulkFetch,
    SqlConnections,
    Blobstore,
    Bookmarks,
    BookmarkName,
}

/// Why a segmented changelog could not be built.
#[derive(Clone, Copy, Debug, PartialEq, Eq, Structural)]
pub enum BuildError {
    /// The part was not given to the builder.
    Missing(Part),
    /// No version of the id map is left.
    VersionsExhausted,
}

/// Collects the parts of a segmented changelog and hands them out to what
/// is built of them. The parts are the handles of outside services; the
/// builder only carries them.
///
/// `C` is a database connection, `L` a monitor of replication lag, `F` a
/// fetcher of commits, `B` a bulk fetcher of commits, `S` a blob store, `K`
/// the bookmarks, `N` the name of a bookmark, `H` the handlers of a cache.
pub struct SegmentedChangelogBuilder<C, L, F, B, S, K, N, H> {
    pub connections: Option<SqlConnections<C>>,
    pub repo_id: Option<i32>,
    pub idmap_version: Option<u64>,
    pub replica_lag_monitor: Option<L>,
    pub changeset_fetcher: Option<F>,
    pub changeset_bulk_fetch: Option<B>,
    pub blobstore: Option<S>,
    pub bookmarks: Option<K>,
    pub bookmark_name: Option<N>,
    pub cache_handlers: Option<H>,
    pub with_in_memory_write_idmap: bool,
}

/// The parts of a manager of segmented changelogs.
pub struct ManagerParts<C, L, S, H> {
    pub repo_id: i32,
    pub bundle_store_connections: SqlConnections<C>,
    pub blobstore: S,
    pub idmap_connections: SqlConnections<C>,
    /// The monitor that was given; the caller takes one that sees no lag
    /// where none was.
    pub replica_lag_monitor: Option<L>,
    pub cache_handlers: Option<H>,
    pub with_in_memory_write_idmap: bool,
}

/// The parts of a seeder.
pub struct SeederParts<C, L, B, S, H> {
    pub idmap_version: u64,
    pub version_store_connections: SqlConnections<C>,
    pub version_store_repo_id: i32,
    pub changeset_bulk_fetch: B,
    pub manager: ManagerParts<C, L, S, H>,
}

/// The parts of a tailer.
pub struct TailerParts<C, L, F, S, K, N, H> {
    pub repo_id: i32,
    pub changeset_fetcher: F,
    pub bookmarks: K,
    pub bookmark_name: N,
    pub manager: ManagerParts<C, L, S, H>,
}

/// The version of the id map that a seeder writes, given the newest version
/// that is stored: the one after it, and the first version where none is
/// stored. `None` where the versions are used up.
pub open spec fn seed_version_of(stored: Option<u64>) -> Option<u64> {
    match stored {
        None => Some(1u64),
        Some(v) => if v < u64::MAX {
            Some((v + 1) as u64)
        } else {
            None
        },
    }
}

/// The version of the id map that a seeder writes; see `seed_version_of`.
pub fn seed_version(stored: Option<u64>) -> (r: Option<u64>)
    ensures
        r == seed_version_of(stored),
{
    match stored {
        None => Some(1),
        Some(v) => if v < u64::MAX {
            Some(v + 1)
        } else {
            None
        },
    }
}

/// Clones the three connections.
pub fn clone_connections<C: Clone>(c: &SqlConnections<C>) -> (r: SqlConnections<C>)
    ensures
        cloned(c.write_connection, r.write_connection),
        cloned(c.read_connection, r.read_connection),
        cloned(c.read_master_connection, r.read_master_connection),
{
    SqlConnections {
        write_connection: c.write_connection.clone(),
        read_connection: c.read_connection.clone(),
        read_master_connection: c.read_master_connection.clone(),
    }
}

impl<C: Clone, L, F, B, S, K, N, H> SegmentedChangelogBuilder<C, L, F, B, S, K, N, H> {
    /// A builder that holds no part.
    pub fn new() -> (r: Self)
        ensures
            r.connections is None,
            r.repo_id is None,
            r.idmap_version is None,
            r.replica_lag_monitor is None,
            r.changeset_fetcher is None,
            r.changeset_bulk_fetch is None,
            r.blobstore is None,
            r.bookmarks is None,
            r.bookmark_name is None,
            r.cache_handlers is None,
            !r.with_in_memory_write_idmap,
    {
        SegmentedChangelogBuilder {
            connections: None,
            repo_id: None,
            idmap_version: None,
            replica_lag_monitor: None,
            changeset_fetcher: None,
            changeset_bulk_fetch: None,
            blobstore: None,
            bookmarks: None,
            bookmark_name: None,
            cache_handlers: None,
            with_in_memory_write_idmap: false,
        }
    }

    /// A builder that holds the connections and no other part.
    pub fn from_sql_connections(connections: SqlConnections<C>) -> (r: Self)
        ensures
            r.connections == Some(connections),
            r.repo_id is None,
            r.idmap_version is None,
            r.blobstore is None,
            r.changeset_fetcher is None,
            !r.with_in_memory_write_idmap,
    {
        let mut r = Self::new();
        r.connections = Some(connections);
        r
    }

    pub fn with_sql_connections(self, connections: SqlConnections<C>) -> (r: Self)
        ensures
            r == (SegmentedChangelogBuilder { connections: Some(connections), ..self }),
    {
        let mut r = self;
        r.connections = Some(connections);
        r
    }

    pub fn with_repo_id(self, repo_id: i32) -> (r: Self)
        ensures
            r == (SegmentedChangelogBuilder { repo_id: Some(repo_id), ..self }),
    {
        let mut r = self;
        r.repo_id = Some(repo_id);
        r
    }

    pub fn with_idmap_version(self, version: u64) -> (r: Self)
        ensures
            r == (SegmentedChangelogBuilder { idmap_version: Some(version), ..self }),
    {
        let mut r = self;
        r.idmap_version = Some(version);
        r
    }

    pub fn with_replica_lag_monitor(self, replica_lag_monitor: L) -> (r: Self)
        ensures
            r == (SegmentedChangelogBuilder { replica_lag_monitor: Some(replica_lag_monitor), ..self }),
    {
        let mut r = self;
        r.replica_lag_monitor = Some(replica_lag_monitor);
        r
    }

    pub fn with_changeset_fetcher(self, changeset_fetcher: F) -> (r: Self)
        ensures
            r == (SegmentedChangelogBuilder { changeset_fetcher: Some(changeset_fetcher), ..self }),
    {
        let mut r = self;
        r.changeset_fetcher = Some(changeset_fetcher);
        r
    }

    pub fn with_changeset_bulk_fetch(self, changeset_bulk_fetch: B) -> (r: Self)
        ensures
            r == (SegmentedChangelogBuilder { changeset_bulk_fetch: Some(changeset_bulk_fetch), ..self }),
    {
        let mut r = self;
        r.changeset_bulk_fetch = Some(changeset_bulk_fetch);
        r
    }

    pub fn with_blobstore(self, blobstore: S) -> (r: Self)
        ensures
            r == (SegmentedChangelogBuilder { blobstore: Some(blobstore), ..self }),
    {
        let mut r = self;
        r.blobstore = Some(blobstore);
        r
    }

    pub fn with_bookmarks(self, bookmarks: K) -> (r: Self)
        ensures
            r == (SegmentedChangelogBuilder { bookmarks: Some(bookmarks), ..self }),
    {
        let mut r = self;
        r.bookmarks = Some(bookmarks);
        r
    }

    pub fn with_bookmark_name(self, bookmark_name: N) -> (r: Self)
        ensures
            r == (SegmentedChangelogBuilder { bookmark_name: Some(bookmark_name), ..self }),
    {
        let mut r = self;
        r.bookmark_name = Some(bookmark_name);
        r
    }

    pub fn with_cache_handlers(self, cache_handlers: H) -> (r: Self)
        ensures
            r == (SegmentedChangelogBuilder { cache_handlers: Some(cache_handlers), ..self }),
    {
        let mut r = self;
        r.cache_handlers = Some(cache_handlers);
        r
    }

    /// The repository; fails where none was given.
    pub fn repo_id(&self) -> (r: Result<i32, BuildError>)
        ensures
            r == (match self.repo_id {
                Some(id) => Ok::<i32, BuildError>(id),
                None => Err::<i32, BuildError>(BuildError::Missing(Part::RepositoryId)),
            }),
    {
        match self.repo_id {
            Some(id) => Ok(id),
            None => Err(BuildError::Missing(Part::RepositoryId)),
        }
    }

    /// The version of the id map: the one that was given, else the version
    /// zero.
    pub fn idmap_version(&self) -> (r: u64)
        ensures
            r == (match self.idmap_version {
                Some(v) => v,
                None => 0u64,
            }),
    {
        match self.idmap_version {
            Some(v) => v,
            None => 0,
        }
    }

    /// A clone of the connections; fails where none were given.
    pub fn connections_clone(&self) -> (r: Result<SqlConnections<C>, BuildError>)
        ensures
            self.connections is None ==> r == Err::<SqlConnections<C>, BuildError>(
                BuildError::Missing(Part::SqlConnections),
            ),
            self.connections is Some ==> r is Ok && cloned(
                self.connections.unwrap().write_connection,
                r.unwrap().write_connection,
            ) && cloned(self.connections.unwrap().read_connection, r.unwrap().read_connection)
                && cloned(
                self.connections.unwrap().read_master_connection,
                r.unwrap().read_master_connection,
            ),
    {
        match &self.connections {
            Some(c) => Ok(clone_connections(c)),
            None => Err(BuildError::Missing(Part::SqlConnections)),
        }
    }

    /// Takes the fetcher of commits out of the builder; fails where none
    /// was given.
    pub fn changeset_fetcher(&mut self) -> (r: Result<F, BuildError>)
        ensures
            *final(self) == (SegmentedChangelogBuilder { changeset_fetcher: None, ..*old(self) }),
            r == (match old(self).changeset_fetcher {
                Some(f) => Ok::<F, BuildError>(f),
                None => Err::<F, BuildError>(BuildError::Missing(Part::ChangesetFetcher)),
            }),
    {
        match self.changeset_fetcher.take() {
            Some(f) => Ok(f),
            None => Err(BuildError::Missing(Part::ChangesetFetcher)),
        }
    }

    /// Takes the bulk fetcher of commits out of the builder; fails where
    /// none was given.
    pub fn changeset_bulk_fetch(&mut self) -> (r: Result<B, BuildError>)
        ensures
            *final(self) == (SegmentedChangelogBuilder { changeset_bulk_fetch: None, ..*old(self) }),
            r == (match old(self).changeset_bulk_fetch {
                Some(f) => Ok::<B, BuildError>(f),
                None => Err::<B, BuildError>(BuildError::Missing(Part::ChangesetBulkFetch)),
            }),
    {
        match self.changeset_bulk_fetch.take() {
            Some(f) => Ok(f),
            None => Err(BuildError::Missing(Part::ChangesetBulkFetch)),
        }
    }

    /// Takes the blob store out of the builder; fails where none was given.
    pub fn blobstore(&mut self) -> (r: Result<S, BuildError>)
        ensures
            *final(self) == (SegmentedChangelogBuilder { blobstore: None, ..*old(self) }),
            r == (match old(self).blobstore {
                Some(f) => Ok::<S, BuildError>(f),
                None => Err::<S, BuildError>(BuildError::Missing(Part::Blobstore)),
            }),
    {
        match self.blobstore.take() {
            Some(f) => Ok(f),
            None => Err(BuildError::Missing(Part::Blobstore)),
        }
    }

    /// Takes the bookmarks out of the builder; fails where none were given.
    pub fn bookmarks(&mut self) -> (r: Result<K, BuildError>)
        ensures
            *final(self) == (SegmentedChangelogBuilder { bookmarks: None, ..*old(self) }),
            r == (match old(self).bookmarks {
                Some(f) => Ok::<K, BuildError>(f),
                None => Err::<K, BuildError>(BuildError::Missing(Part::Bookmarks)),
            }),
    {
        match self.bookmarks.take() {
            Some(f) => Ok(f),
            None => Err(BuildError::Missing(Part::Bookmarks)),
        }
    }

    /// Takes the name of the bookmark out of the builder; fails where none
    /// was given.
    pub fn bookmark_name(&mut self) -> (r: Result<N, BuildError>)
        ensures
            *final(self) == (SegmentedChangelogBuilder { bookmark_name: None, ..*old(self) }),
            r == (match old(self).bookmark_name {
                Some(f) => Ok::<N, BuildError>(f),
                None => Err::<N, BuildError>(BuildError::Missing(Part::BookmarkName)),
            }),
    {
        match self.bookmark_name.take() {
            Some(f) => Ok(f),
            None => Err(BuildError::Missing(Part::BookmarkName)),
        }
    }

    /// The first part that a manager cannot be built without and that the
    /// builder lacks, in the order in which the parts are asked for.
    pub open spec fn manager_lacks(&self) -> Option<Part> {
        if self.repo_id is None {
            Some(Part::RepositoryId)
        } else if self.connections is None {
            Some(Part::SqlConnections)
        } else if self.blobstore is None {
            Some(Part::Blobstore)
        } else {
            None
        }
    }

    /// Hands out the parts of a manager: the repository, connections for the
    /// store of bundles and for the id maps, the blob store, and what was
    /// given of the monitor and the cache handlers. Fails where a part is
    /// lacking: see `manager_lacks`.
    pub fn build_manager(self) -> (r: Result<ManagerParts<C, L, S, H>, BuildError>)
        ensures
            match self.manager_lacks() {
                Some(part) => r == Err::<ManagerParts<C, L, S, H>, BuildError>(BuildError::Missing(part)),
                None => r is Ok && r.unwrap().repo_id == self.repo_id.unwrap() && r.unwrap().blobstore
                    == self.blobstore.unwrap() && r.unwrap().replica_lag_monitor
                    == self.replica_lag_monitor && r.unwrap().cache_handlers == self.cache_handlers
                    && r.unwrap().with_in_memory_write_idmap == self.with_in_memory_write_idmap,
            },
    {
        let mut b = self;
        let repo_id = match b.repo_id() {
            Ok(id) => id,
            Err(e) => {
                return Err(e);
            },
        };
        let bundle_store_connections = match b.connections_clone() {
            Ok(c) => c,
            Err(e) => {
                return Err(e);
            },
        };
        let blobstore = match b.blobstore() {
            Ok(s) => s,
            Err(e) => {
                return Err(e);
            },
        };
        let idmap_connections = match b.connections_clone() {
            Ok(c) => c,
            Err(e) => {
                return Err(e);
            },
        };
        Ok(
            ManagerParts {
                repo_id,
                bundle_store_connections,
                blobstore,
                idmap_connections,
                replica_lag_monitor: b.replica_lag_monitor,
                cache_handlers: b.cache_handlers,
                with_in_memory_write_idmap: b.with_in_memory_write_idmap,
            },
        )
    }

    /// Tells whether the seeder has to look up the newest stored version of
    /// the id map: it has to unless a version was given.
    pub fn needs_stored_version(&self) -> (r: bool)
        ensures
            r == (self.idmap_version is None),
    {
        self.idmap_version.is_none()
    }

    /// Hands out the parts of a seeder. The seeder writes the version of the
    /// id map that was given, else the version after `stored`, the newest
    /// version that is stored.
    pub fn build_seeder(self, stored: Option<u64>) -> (r: Result<SeederParts<C, L, B, S, H>, BuildError>)
        ensures
            r is Ok ==> r.unwrap().idmap_version == (match self.idmap_version {
                Some(v) => v,
                None => seed_version_of(stored).unwrap(),
            }) && r.unwrap().changeset_bulk_fetch == self.changeset_bulk_fetch.unwrap()
                && r.unwrap().version_store_repo_id == self.repo_id.unwrap(),
            r is Err <==> self.connections is None || self.repo_id is None || self.changeset_bulk_fetch is None
                || self.blobstore is None || (self.idmap_version is None && seed_version_of(stored) is None),
    {
        let mut b = self;
        let version_store_connections = match b.connections_clone() {
            Ok(c) => c,
            Err(e) => {
                return Err(e);
            },
        };
        let version_store_repo_id = match b.repo_id() {
            Ok(id) => id,
            Err(e) => {
                return Err(e);
            },
        };
        let idmap_version = match b.idmap_version {
            Some(v) => v,
            None => match seed_version(stored) {
                Some(v) => v,
                None => {
                    return Err(BuildError::VersionsExhausted);
                },
            },
        };
        let changeset_bulk_fetch = match b.changeset_bulk_fetch() {
            Ok(f) => f,
            Err(e) => {
                return Err(e);
            },
        };
        let manager = match b.build_manager() {
            Ok(m) => m,
            Err(e) => {
                return Err(e);
            },
        };
        Ok(
            SeederParts {
                idmap_version,
                version_store_connections,
                version_store_repo_id,
                changeset_bulk_fetch,
                manager,
            },
        )
    }

    /// Hands out the parts of a tailer.
    pub fn build_tailer(self) -> (r: Result<TailerParts<C, L, F, S, K, N, H>, BuildError>)
        ensures
            r is Ok ==> r.unwrap().repo_id == self.repo_id.unwrap() && r.unwrap().changeset_fetcher
                == self.changeset_fetcher.unwrap() && r.unwrap().bookmarks == self.bookmarks.unwrap()
                && r.unwrap().bookmark_name == self.bookmark_name.unwrap(),
            r is Err <==> self.repo_id is None || self.changeset_fetcher is None || self.bookmarks is None
                || self.bookmark_name is None || self.connections is None || self.blobstore is None,
    {
        let mut b = self;
        let repo_id = match b.repo_id() {
            Ok(id) => id,
            Err(e) => {
                return Err(e);
            },
        };
        let changeset_fetcher = match b.changeset_fetcher() {
            Ok(f) => f,
            Err(e) => {
                return Err(e);
            },
        };
        let bookmarks = match b.bookmarks() {
            Ok(f) => f,
            Err(e) => {
                return Err(e);
            },
        };
        let bookmark_name = match b.bookmark_name() {
            Ok(f) => f,
            Err(e) => {
                return Err(e);
            },
        };
        let manager = match b.build_manager() {
            Ok(m) => m,
            Err(e) => {
                return Err(e);
            },
        };
        Ok(TailerParts { repo_id, changeset_fetcher, bookmarks, bookmark_name, manager })
    }

    /// Hands out what a changelog that is built on demand starts from:
    /// segments that cover nothing, an empty id map, and the fetcher of
    /// commits. Fails where no fetcher was given.
    pub fn build_on_demand_update(self) -> (r: Result<(IdDag, MemIdMap, F), BuildError>)
        ensures
            r == (match self.changeset_fetcher {
                Some(f) => r,
                None => Err::<(IdDag, MemIdMap, F), BuildError>(
                    BuildError::Missing(Part::ChangesetFetcher),
                ),
            }),
            r is Ok ==> iddag_ids(r.unwrap().0) == Set::<u64>::empty() && r.unwrap().1.wf()
                && r.unwrap().1@ == Map::<Seq<u8>, u64>::empty() && r.unwrap().2
                == self.changeset_fetcher.unwrap(),
            r is Ok <==> self.changeset_fetcher is Some,
    {
        let mut b = self;
        let iddag = IdDag::new_in_process();
        let idmap = MemIdMap::new();
        match b.changeset_fetcher() {
            Ok(f) => Ok((iddag, idmap, f)),
            Err(e) => Err(e),
        }
    }

    /// Hands out what an update on demand that starts from the saved
    /// segments is made of: the parts of a manager whose id map is written
    /// in memory, and the fetcher of commits. Fails where the fetcher is
    /// lacking, and then where a part of the manager is: see `manager_lacks`.
    pub fn build_on_demand_update_start_from_save(self) -> (r: Result<
        (ManagerParts<C, L, S, H>, F),
        BuildError,
    >)
        ensures
            match (self.changeset_fetcher, self.manager_lacks()) {
                (None, _) => r == Err::<(ManagerParts<C, L, S, H>, F), BuildError>(
                    BuildError::Missing(Part::ChangesetFetcher),
                ),
                (Some(_), Some(part)) => r == Err::<(ManagerParts<C, L, S, H>, F), BuildError>(
                    BuildError::Missing(part),
                ),
                (Some(f), None) => r is Ok && r.unwrap().1 == f && r.unwrap().0.with_in_memory_write_idmap
                    && r.unwrap().0.repo_id == self.repo_id.unwrap() && r.unwrap().0.blobstore
                    == self.blobstore.unwrap() && r.unwrap().0.replica_lag_monitor
                    == self.replica_lag_monitor && r.unwrap().0.cache_handlers == self.cache_handlers,
            },
    {
        let mut b = self;
        let changeset_fetcher = match b.changeset_fetcher() {
            Ok(f) => f,
            Err(e) => {
                return Err(e);
            },
        };
        b.with_in_memory_write_idmap = true;
        match b.build_manager() {
            Ok(manager) => Ok((manager, changeset_fetcher)),
            Err(e) => Err(e),
        }
    }
}

} // verus!
