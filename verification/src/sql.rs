use vstd::prelude::*;

verus! {

/// Which kind of database host serves reads.
#[derive(Clone, Copy, Debug, PartialEq, Eq, Structural)]
pub enum ReadConnectionType {
    Replica,
    Master,
}

/// Sizes of the three connection pools of one database.
#[derive(Clone, Copy, Debug)]
pub struct PoolSizeConfig {
    pub write_pool_size: usize,
    pub read_pool_size: usize,
    pub read_master_pool_size: usize,
}

/// How the database is reached.
#[derive(Clone, Copy, Debug, PartialEq, Eq, Structural)]
pub enum MysqlConnectionType {
    /// Through a router that listens at the port.
    Myrouter(u16),
    /// Directly.
    RawXDB,
    /// Through the shared pool of the client library.
    Mysql,
}

impl MysqlConnectionType {
    /// The greatest number of connections for one key; no way of reaching
    /// the database has such a limit in this build.
    pub fn per_key_limit(&self) -> (r: Option<usize>)
        ensures
            r is None,
    {
        None
    }
}

/// How the database is reached and where reads go.
#[derive(Clone, Copy, Debug)]
pub struct MysqlOptions {
    pub connection_type: MysqlConnectionType,
    pub master_only: bool,
}

impl MysqlOptions {
    /// Reads go to the master exactly when `master_only` is set.
    pub fn read_connection_type(&self) -> (r: ReadConnectionType)
        ensures
            r == (if self.master_only {
                ReadConnectionType::Master
            } else {
                ReadConnectionType::Replica
            }),
    {
        if self.master_only {
            ReadConnectionType::Master
        } else {
            ReadConnectionType::Replica
        }
    }
}

/// The three connections to one database: for writes, for reads, and for
/// reads that have to see the latest writes.
pub struct SqlConnections<C> {
    pub write_connection: C,
    pub read_connection: C,
    pub read_master_connection: C,
}

impl<C: Clone> SqlConnections<C> {
    /// The three connections made of one: each is a clone of it, or the
    /// connection itself.
    pub fn new_single(connection: C) -> (r: SqlConnections<C>)
        ensures
            cloned(connection, r.write_connection),
            cloned(connection, r.read_connection),
            r.read_master_connection == connection,
    {
        SqlConnections {
            write_connection: connection.clone(),
            read_connection: connection.clone(),
            read_master_connection: connection,
        }
    }
}

/// The connections to the shards of one database, shard by shard.
pub struct SqlShardedConnections<C> {
    pub write_connections: Vec<C>,
    pub read_connections: Vec<C>,
    pub read_master_connections: Vec<C>,
}

impl<C> SqlShardedConnections<C> {
    /// Tells whether there is no shard.
    pub fn is_empty(&self) -> (r: bool)
        ensures
            r == (self.write_connections@.len() == 0),
    {
        self.write_connections.len() == 0
    }

    /// The connections of the shards, sorted by what they are for: the
    /// write connections of all shards in order, and so on.
    pub fn from_shards(shard_connections: Vec<SqlConnections<C>>) -> (r: SqlShardedConnections<C>)
        ensures
            r.write_connections@.len() == shard_connections@.len(),
            r.read_connections@.len() == shard_connections@.len(),
            r.read_master_connections@.len() == shard_connections@.len(),
            forall|i: int|
                0 <= i < shard_connections@.len() ==> r.write_connections@[i]
                    == (#[trigger] shard_connections@[i]).write_connection && r.read_connections@[i]
                    == shard_connections@[i].read_connection && r.read_master_connections@[i]
                    == shard_connections@[i].read_master_connection,
    {
        let ghost input = shard_connections@;
        let n = shard_connections.len();
        let mut rest = shard_connections;
        let mut write_connections: Vec<C> = Vec::with_capacity(n);
        let mut read_connections: Vec<C> = Vec::with_capacity(n);
        let mut read_master_connections: Vec<C> = Vec::with_capacity(n);
        // taken from the end, so the lists are built back to front
        while rest.len() > 0
            invariant
                input == shard_connections@,
                rest@.len() <= input.len(),
                rest@ == input.subrange(0, rest@.len() as int),
                write_connections@.len() == input.len() - rest@.len(),
                read_connections@.len() == input.len() - rest@.len(),
                read_master_connections@.len() == input.len() - rest@.len(),
                forall|k: int|
                    0 <= k < write_connections@.len() ==> (#[trigger] write_connections@[k]) == input[
                        input.len() - 1 - k].write_connection && read_connections@[k] == input[input.len()
                        - 1 - k].read_connection && read_master_connections@[k] == input[input.len() - 1
                        - k].read_master_connection,
            decreases rest@.len(),
        {
            let ghost m = rest@.len() - 1;
            let c = rest.pop().unwrap();
            assert(c == input[m]) by {
                assert(input.subrange(0, m + 1)[m] == input[m]);
            }
            assert(rest@ =~= input.subrange(0, m));
            write_connections.push(c.write_connection);
            read_connections.push(c.read_connection);
            read_master_connections.push(c.read_master_connection);
        }
        let ghost w = write_connections@;
        let ghost rd = read_connections@;
        let ghost rm = read_master_connections@;
        let write_connections = reversed(write_connections);
        let read_connections = reversed(read_connections);
        let read_master_connections = reversed(read_master_connections);
        proof {
            assert forall|i: int| 0 <= i < input.len() implies write_connections@[i]
                == (#[trigger] input[i]).write_connection && read_connections@[i] == input[i].read_connection
                && read_master_connections@[i] == input[i].read_master_connection by {
                let k = input.len() - 1 - i;
                assert(w[k] == input[input.len() - 1 - k].write_connection);
            }
        }
        SqlShardedConnections { write_connections, read_connections, read_master_connections }
    }
}

/// The list in the opposite order.
pub fn reversed<T>(v: Vec<T>) -> (r: Vec<T>)
    ensures
        r@.len() == v@.len(),
        forall|i: int| 0 <= i < v@.len() ==> r@[i] == v@[v@.len() - 1 - i],
{
    let ghost input = v@;
    let mut rest = v;
    let mut out: Vec<T> = Vec::with_capacity(rest.len());
    while rest.len() > 0
        invariant
            input == v@,
            rest@.len() <= input.len(),
            rest@ == input.subrange(0, rest@.len() as int),
            out@.len() == input.len() - rest@.len(),
            forall|k: int| 0 <= k < out@.len() ==> out@[k] == input[input.len() - 1 - k],
        decreases rest@.len(),
    {
        let ghost m = rest@.len() - 1;
        let x = rest.pop().unwrap();
        assert(x == input[m]) by {
            assert(input.subrange(0, m + 1)[m] == input[m]);
        }
        assert(rest@ =~= input.subrange(0, m));
        out.push(x);
    }
    out
}

} // verus!
