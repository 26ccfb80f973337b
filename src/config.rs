//! Engine configuration with its defaults and a builder.
use vstd::prelude::*;

verus! {

/// How often the write-ahead log forces its writes to stable storage.
#[derive(Debug, Clone, Copy, PartialEq, Eq, Structural)]
pub enum WalSyncStrategy {
    /// A durable flush after every append.
    EveryWrite,
    /// A durable flush once `count` appends are not yet flushed.
    EveryNEntries { count: usize },
}

/// Configuration of an AtlasKV instance.
#[derive(Debug, Clone)]
pub struct Config {
    /// Root directory of the data files (`wal.log` and `sstables/`).
    pub data_dir: String,
    /// When the write-ahead log is synced.
    pub wal_sync_strategy: WalSyncStrategy,
    /// Memtable size, in bytes, at which it is flushed.
    pub memtable_size_limit: usize,
    /// TCP listen address.
    pub listen_addr: String,
    /// Maximum number of concurrent client connections.
    pub max_connections: usize,
    /// Connection read timeout in milliseconds.
    pub read_timeout_ms: u64,
    /// Connection write timeout in milliseconds.
    pub write_timeout_ms: u64,
}

/// Default memtable budget: 64 MiB.
pub const DEFAULT_MEMTABLE_SIZE_LIMIT: usize = 67108864;

/// Default number of appends between two syncs of the log.
pub const DEFAULT_SYNC_EVERY: usize = 100;

impl Config {
    /// The defaults: `./atlaskv_data`, a sync every 100 appends, 64 MiB,
    /// `127.0.0.1:6379`, 1024 connections, 5000 ms timeouts.
    pub open spec fn is_default(&self) -> bool {
        &&& self.data_dir@ == "./atlaskv_data"@
        &&& self.wal_sync_strategy == WalSyncStrategy::EveryNEntries { count: DEFAULT_SYNC_EVERY }
        &&& self.memtable_size_limit == DEFAULT_MEMTABLE_SIZE_LIMIT
        &&& self.listen_addr@ == "127.0.0.1:6379"@
        &&& self.max_connections == 1024
        &&& self.read_timeout_ms == 5000
        &&& self.write_timeout_ms == 5000
    }

    /// A builder that starts from the defaults.
    pub fn builder() -> (r: ConfigBuilder)
        ensures
            r.config.is_default(),
    {
        ConfigBuilder::default()
    }
}

impl Default for Config {
    fn default() -> (r: Self)
        ensures
            r.is_default(),
    {
        Config {
            data_dir: "./atlaskv_data".to_owned(),
            wal_sync_strategy: WalSyncStrategy::EveryNEntries { count: DEFAULT_SYNC_EVERY },
            memtable_size_limit: DEFAULT_MEMTABLE_SIZE_LIMIT,
            listen_addr: "127.0.0.1:6379".to_owned(),
            max_connections: 1024,
            read_timeout_ms: 5000,
            write_timeout_ms: 5000,
        }
    }
}

/// Builder for `Config`.
pub struct ConfigBuilder {
    pub config: Config,
}

impl Default for ConfigBuilder {
    fn default() -> (r: Self)
        ensures
            r.config.is_default(),
    {
        ConfigBuilder { config: Config::default() }
    }
}

impl ConfigBuilder {
    /// Sets the data directory.
    pub fn data_dir(self, path: &str) -> (r: Self)
        ensures
            r.config == (Config { data_dir: r.config.data_dir, ..self.config }),
            r.config.data_dir@ == path@,
    {
        let mut b = self;
        b.config.data_dir = path.to_owned();
        b
    }

    /// Sets the sync strategy of the log.
    pub fn wal_sync_strategy(self, strategy: WalSyncStrategy) -> (r: Self)
        ensures
            r.config == (Config { wal_sync_strategy: strategy, ..self.config }),
    {
        let mut b = self;
        b.config.wal_sync_strategy = strategy;
        b
    }

    /// Sets the memtable size limit in bytes.
    pub fn memtable_size_limit(self, size: usize) -> (r: Self)
        ensures
            r.config == (Config { memtable_size_limit: size, ..self.config }),
    {
        let mut b = self;
        b.config.memtable_size_limit = size;
        b
    }

    /// Sets the TCP listen address.
    pub fn listen_addr(self, addr: &str) -> (r: Self)
        ensures
            r.config == (Config { listen_addr: r.config.listen_addr, ..self.config }),
            r.config.listen_addr@ == addr@,
    {
        let mut b = self;
        b.config.listen_addr = addr.to_owned();
        b
    }

    /// Sets the maximum number of concurrent connections.
    pub fn max_connections(self, count: usize) -> (r: Self)
        ensures
            r.config == (Config { max_connections: count, ..self.config }),
    {
        let mut b = self;
        b.config.max_connections = count;
        b
    }

    /// Sets the read timeout in milliseconds.
    pub fn read_timeout_ms(self, ms: u64) -> (r: Self)
        ensures
            r.config == (Config { read_timeout_ms: ms, ..self.config }),
    {
        let mut b = self;
        b.config.read_timeout_ms = ms;
        b
    }

    /// Sets the write timeout in milliseconds.
    pub fn write_timeout_ms(self, ms: u64) -> (r: Self)
        ensures
            r.config == (Config { write_timeout_ms: ms, ..self.config }),
    {
        let mut b = self;
        b.config.write_timeout_ms = ms;
        b
    }

    /// The configuration built so far.
    pub fn build(self) -> (r: Config)
        ensures
            r == self.config,
    {
        self.config
    }
}

} // verus!
