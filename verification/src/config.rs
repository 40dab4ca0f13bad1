//! Configuration types of the engine and of the message-bus WAL backend.

use vstd::prelude::*;

verus! {

/// Client settings of the message-bus backend.
#[derive(Debug, Clone, PartialEq, Eq)]
pub struct ClientConfig {
    /// The endpoint of the boost broker; must be set before use.
    pub boost_broker: Option<Vec<u8>>,
    /// Maximum message size in bytes, if capped.
    pub max_message_size: Option<usize>,
    /// Optional SOCKS5 proxy for broker connections.
    pub socks5_proxy: Option<Vec<u8>>,
}

impl Default for ClientConfig {
    fn default() -> (r: Self)
        ensures
            r.boost_broker is None,
            r.max_message_size is None,
            r.socks5_proxy is None,
    {
        ClientConfig { boost_broker: None, max_message_size: None, socks5_proxy: None }
    }
}

/// Settings of topic creation and deletion.
#[derive(Debug, Clone, Copy, PartialEq, Eq, Structural)]
pub struct TopicManagementConfig {
    /// Replication factor of created topics.
    pub create_replication_factor: i16,
    /// Longest wait for topic creation, in milliseconds.
    pub create_max_wait_ms: i32,
    /// Longest wait for record deletion, in milliseconds.
    pub delete_max_wait_ms: i32,
}

impl Default for TopicManagementConfig {
    fn default() -> (r: Self)
        ensures
            r.create_replication_factor == 1,
            r.create_max_wait_ms == 5000,
            r.delete_max_wait_ms == 5000,
    {
        TopicManagementConfig {
            create_replication_factor: 1,
            create_max_wait_ms: 5000,
            delete_max_wait_ms: 5000,
        }
    }
}

/// Settings of consumers.
#[derive(Debug, Clone, Copy, PartialEq, Eq, Structural)]
pub struct ConsumerConfig {
    /// Longest wait for data before a fetch returns, in milliseconds.
    pub max_wait_ms: Option<i32>,
    /// Least bytes a fetch waits for.
    pub min_batch_size: Option<i32>,
    /// Most bytes one fetch hands back.
    pub max_batch_size: Option<i32>,
}

impl Default for ConsumerConfig {
    fn default() -> (r: Self)
        ensures
            r.max_wait_ms is None,
            r.min_batch_size is None,
            r.max_batch_size is None,
    {
        ConsumerConfig { max_wait_ms: None, min_batch_size: None, max_batch_size: None }
    }
}

/// Metric reporting options of the engine.
#[derive(Debug, Clone, Copy, PartialEq, Eq, Structural, Default)]
pub struct MetricsOptions {
    pub enable_table_level_metrics: bool,
}

/// How the tables of a shard are recovered at open.
#[derive(Debug, Clone, Copy, PartialEq, Eq, Structural)]
pub enum RecoverMode {
    /// Tables of one shard recover one by one.
    TableBased,
    /// Tables of one shard recover together, sharing one region scan.
    ShardBased,
}

/// The layout log payloads are encoded in.
#[derive(Debug, Clone, Copy, PartialEq, Eq, Structural)]
pub enum WalEncodeFormat {
    RowWise,
    Columnar,
}

/// Settings of the WAL payload encoding.
#[derive(Debug, Clone, Copy, PartialEq, Eq, Structural)]
pub struct WalEncodeConfig {
    /// Columnar payloads beyond this many bytes are compressed.
    pub num_bytes_compress_threshold: usize,
    /// The payload layout to write.
    pub format: WalEncodeFormat,
}

impl Default for WalEncodeConfig {
    fn default() -> (r: Self)
        ensures
            r.num_bytes_compress_threshold == 1024,
            r.format == WalEncodeFormat::RowWise,
    {
        WalEncodeConfig { num_bytes_compress_threshold: 1024, format: WalEncodeFormat::RowWise }
    }
}

} // verus!
