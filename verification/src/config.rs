use vstd::prelude::*;

verus! {

/// Settings of the master role: where it logs, how often its failure
/// detector runs, and when a silent chunkserver is declared dead.
#[derive(Clone, Debug)]
pub struct MasterConfig {
    pub log_path: String,
    /// Period of the failure-detection / re-replication task, in seconds.
    pub cron_interval: u64,
    /// A chunkserver is declared dead after this many missed heartbeat
    /// intervals.
    pub heartbeat_failure_threshold: u64,
    pub authentication_file_path: String,
}

/// Settings of the chunkserver role.
#[derive(Clone, Debug)]
pub struct ChunkServerConfig {
    pub data_path: String,
    pub log_path: String,
}

/// Settings of the client role.
#[derive(Clone, Debug)]
pub struct ClientConfig {
    pub log_path: String,
}

/// Settings shared by every role.
#[derive(Clone, Debug)]
pub struct CommonConfig {
    /// Every master address, leader and shadows, in configured order.
    pub master_addrs: Vec<String>,
    /// Chunkserver heartbeat period, in seconds.
    pub heartbeat_interval: u64,
    /// Shadow-master leader-ping period, in seconds.
    pub shadow_master_ping_interval: u64,
    /// Size of one chunk, in bytes.
    pub chunk_size: u64,
    /// Upper bound on the chunks one chunkserver may be assigned.
    pub max_allowed_chunks: usize,
    /// Target number of replicas per chunk.
    pub replication_factor: usize,
    pub log_level: String,
    pub log_output: String,
    /// Lifetime of a one-time password, in seconds.
    pub otp_valid_duration: u64,
    /// Whether chunkservers demand a valid OTP from clients.
    pub use_authentication: bool,
}

/// The whole configuration file: one section per role plus the shared one.
#[derive(Clone, Debug)]
pub struct Config {
    pub master: MasterConfig,
    pub chunkserver: ChunkServerConfig,
    pub client: ClientConfig,
    pub common: CommonConfig,
}

impl CommonConfig {
    /// The limits under which the master's planners stay free of overflow:
    /// a positive chunk size and a liveness window that fits in 64 bits.
    pub open spec fn wf(self, master: MasterConfig) -> bool {
        &&& self.chunk_size >= 1
        &&& master.heartbeat_failure_threshold * self.heartbeat_interval <= u64::MAX
    }
}

} // verus!
