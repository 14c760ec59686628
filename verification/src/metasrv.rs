//! The meta server's options and the context that its heartbeat handlers
//! share during one request.

use vstd::prelude::*;
use vstd::string::*;

verus! {

/// Name of the sequence that table ids are drawn from.
pub const TABLE_ID_SEQ: &'static str = "table_id";

/// How the meta server picks datanodes for a new table.
#[derive(Clone, Copy, Debug, PartialEq, Eq, Structural)]
pub enum SelectorType {
    /// By the load that the datanodes report.
    LoadBased,
    /// Among the datanodes that hold a lease.
    LeaseBased,
}

impl Default for SelectorType {
    fn default() -> (r: SelectorType)
        ensures
            r == SelectorType::LeaseBased,
    {
        SelectorType::LeaseBased
    }
}

/// The meta server's options.
#[derive(Clone, Debug, PartialEq, Eq)]
pub struct MetaSrvOptions {
    pub bind_addr: String,
    pub server_addr: String,
    pub store_addr: String,
    pub datanode_lease_secs: i64,
    pub selector: SelectorType,
    pub use_memory_store: bool,
}

impl Default for MetaSrvOptions {
    fn default() -> (r: MetaSrvOptions)
        ensures
            r.bind_addr@ == "127.0.0.1:3002"@,
            r.server_addr@ == "127.0.0.1:3002"@,
            r.store_addr@ == "127.0.0.1:2379"@,
            r.datanode_lease_secs == 15,
            r.selector == SelectorType::LeaseBased,
            !r.use_memory_store,
    {
        MetaSrvOptions {
            bind_addr: String::from_str("127.0.0.1:3002"),
            server_addr: String::from_str("127.0.0.1:3002"),
            store_addr: String::from_str("127.0.0.1:2379"),
            datanode_lease_secs: 15,
            selector: SelectorType::default(),
            use_memory_store: false,
        }
    }
}

/// What the elected leader publishes of itself.
#[derive(Clone, Debug, PartialEq, Eq)]
pub struct LeaderValue(pub String);

/// The leader's store for data that is never persisted.
#[derive(Clone, Debug, PartialEq, Eq)]
pub struct MemStore {
    pub entries: Vec<(Vec<u8>, Vec<u8>)>,
}

impl MemStore {
    /// An empty store.
    pub fn new() -> (r: MemStore)
        ensures
            r.entries@.len() == 0,
    {
        MemStore { entries: Vec::new() }
    }

    /// Forgets every entry.
    pub fn reset(&mut self)
        ensures
            final(self).entries@.len() == 0,
    {
        self.entries = Vec::new();
    }
}

/// What the handlers of one heartbeat share.
#[derive(Clone, Debug)]
pub struct Context {
    pub datanode_lease_secs: i64,
    pub server_addr: String,
    pub in_memory: MemStore,
    pub skip_all: bool,
    pub catalog: Option<String>,
    pub schema: Option<String>,
    pub table: Option<String>,
}

impl Context {
    /// The context of a new request: the lease time and address of the
    /// options, nothing skipped, no table named.
    pub fn new(options: &MetaSrvOptions, in_memory: MemStore) -> (r: Context)
        ensures
            r.datanode_lease_secs == options.datanode_lease_secs,
            r.server_addr@ == options.server_addr@,
            r.in_memory == in_memory,
            !r.skip_all,
            r.catalog is None,
            r.schema is None,
            r.table is None,
    {
        Context {
            datanode_lease_secs: options.datanode_lease_secs,
            server_addr: options.server_addr.clone(),
            in_memory,
            skip_all: false,
            catalog: None,
            schema: None,
            table: None,
        }
    }

    /// Whether the handlers that follow are to be skipped.
    pub fn is_skip_all(&self) -> (r: bool)
        ensures
            r == self.skip_all,
    {
        self.skip_all
    }

    /// Has every handler that follows skipped.
    pub fn set_skip_all(&mut self)
        ensures
            final(self).skip_all,
            final(self).datanode_lease_secs == old(self).datanode_lease_secs,
            final(self).server_addr == old(self).server_addr,
            final(self).in_memory == old(self).in_memory,
            final(self).catalog == old(self).catalog,
            final(self).schema == old(self).schema,
            final(self).table == old(self).table,
    {
        self.skip_all = true;
    }

    /// Empties the in-memory store.
    pub fn reset_in_memory(&mut self)
        ensures
            final(self).in_memory.entries@.len() == 0,
            final(self).skip_all == old(self).skip_all,
            final(self).datanode_lease_secs == old(self).datanode_lease_secs,
            final(self).server_addr == old(self).server_addr,
            final(self).catalog == old(self).catalog,
            final(self).schema == old(self).schema,
            final(self).table == old(self).table,
    {
        self.in_memory.reset();
    }
}

} // verus!
