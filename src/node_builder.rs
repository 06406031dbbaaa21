//! Configuration of a local node for tests.
use std::path::PathBuf;
use std::time::Duration;

use vstd::prelude::*;

verus! {

/// Milliseconds between two blocks, by default.
pub const DEFAULT_BLOCK_INTERVAL: u64 = 5_000;

/// Milliseconds between two batches, by default.
pub const DEFAULT_BATCH_INTERVAL: u64 = 2_000;

/// Port of the RPC endpoint, by default.
pub const DEFAULT_RPC_PORT: u16 = 57_291;

/// Relies on `Duration::from_millis`: a duration of `ms` milliseconds.
#[verifier::external_body]
fn millis(ms: u64) -> (r: Duration) {
    Duration::from_millis(ms)
}

/// Settings of a node with all its components.
pub struct NodeBuilder {
    pub data_directory: PathBuf,
    pub block_interval: Duration,
    pub batch_interval: Duration,
    pub rpc_port: u16,
}

impl NodeBuilder {
    /// Settings with the given data directory, the default intervals and the default port.
    pub fn new(data_directory: PathBuf) -> (r: NodeBuilder)
        ensures
            r.data_directory == data_directory,
            r.rpc_port == DEFAULT_RPC_PORT,
    {
        NodeBuilder {
            data_directory,
            block_interval: millis(DEFAULT_BLOCK_INTERVAL),
            batch_interval: millis(DEFAULT_BATCH_INTERVAL),
            rpc_port: DEFAULT_RPC_PORT,
        }
    }

    /// Sets the block production interval.
    pub fn with_block_interval(self, interval: Duration) -> (r: NodeBuilder)
        ensures
            r.block_interval == interval,
            r.data_directory == self.data_directory,
            r.batch_interval == self.batch_interval,
            r.rpc_port == self.rpc_port,
    {
        let mut b = self;
        b.block_interval = interval;
        b
    }

    /// Sets the batch production interval.
    pub fn with_batch_interval(self, interval: Duration) -> (r: NodeBuilder)
        ensures
            r.batch_interval == interval,
            r.data_directory == self.data_directory,
            r.block_interval == self.block_interval,
            r.rpc_port == self.rpc_port,
    {
        let mut b = self;
        b.batch_interval = interval;
        b
    }

    /// Sets the RPC port.
    pub fn with_rpc_port(self, port: u16) -> (r: NodeBuilder)
        ensures
            r.rpc_port == port,
            r.data_directory == self.data_directory,
            r.block_interval == self.block_interval,
            r.batch_interval == self.batch_interval,
    {
        let mut b = self;
        b.rpc_port = port;
        b
    }
}

} // verus!
