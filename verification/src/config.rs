//! Node configuration: settings, their validation, and protocol constants.
use vstd::prelude::*;

verus! {

#[verifier::external_type_specification]
#[verifier::external_body]
pub struct ExConfigError(::config::ConfigError);

/// The configuration error carrying a message.
pub uninterp spec fn config_message(msg: Seq<char>) -> ::config::ConfigError;

/// Wraps a message in `config::ConfigError::Message`; the result is that
/// variant holding the message, a function of the message alone.
#[verifier::external_body]
fn message_error(msg: &str) -> (r: ::config::ConfigError)
    ensures
        r == config_message(msg@),
{
    ::config::ConfigError::Message(msg.to_string())
}

/// Node settings.
#[derive(Debug, Clone)]
pub struct AimpConfig {
    pub port: u16,
    pub network_log_capacity: usize,
    pub max_visible_logs: usize,
    pub dag_history_depth: u32,
    pub node_name: Option<String>,
    pub metrics_port: u16,
    pub quorum_threshold: usize,
    pub gc_mutation_threshold: u64,
    pub noise_required: bool,
    pub peer_rate_limit: u64,
    pub peer_rate_burst: u64,
}

impl AimpConfig {
    /// The default settings: port 1337, a network log of 500 entries, 20
    /// visible log lines, a history depth of 100, no node name, metrics on
    /// port 9090, a quorum of 2, compaction every 1000 mutations, Noise
    /// required, 50 packets per second per peer with bursts of 100.
    pub fn defaults() -> (r: Self)
        ensures
            r.port == 1337,
            r.network_log_capacity == 500,
            r.max_visible_logs == 20,
            r.dag_history_depth == 100,
            r.node_name is None,
            r.metrics_port == 9090,
            r.quorum_threshold == 2,
            r.gc_mutation_threshold == 1000,
            r.noise_required,
            r.peer_rate_limit == 50,
            r.peer_rate_burst == 100,
    {
        AimpConfig {
            port: 1337,
            network_log_capacity: 500,
            max_visible_logs: 20,
            dag_history_depth: 100,
            node_name: None,
            metrics_port: 9090,
            quorum_threshold: 2,
            gc_mutation_threshold: 1000,
            noise_required: true,
            peer_rate_limit: 50,
            peer_rate_burst: 100,
        }
    }

    /// The first setting that must be positive and is zero, if any, in the
    /// order: quorum threshold, history depth, GC threshold, rate limit,
    /// rate burst.
    pub open spec fn first_invalid(&self) -> Option<Seq<char>> {
        if self.quorum_threshold == 0 {
            Some("quorum_threshold must be > 0"@)
        } else if self.dag_history_depth == 0 {
            Some("dag_history_depth must be > 0"@)
        } else if self.gc_mutation_threshold == 0 {
            Some("gc_mutation_threshold must be > 0"@)
        } else if self.peer_rate_limit == 0 {
            Some("peer_rate_limit must be > 0"@)
        } else if self.peer_rate_burst == 0 {
            Some("peer_rate_burst must be > 0"@)
        } else {
            None
        }
    }

    /// Settings that must be positive are checked in order; the first that
    /// is zero is reported.
    pub fn validate(&self) -> (r: Result<(), ::config::ConfigError>)
        ensures
            match self.first_invalid() {
                None => r is Ok,
                Some(msg) => r == Err::<(), ::config::ConfigError>(config_message(msg)),
            },
    {
        if self.quorum_threshold == 0 {
            return Err(message_error("quorum_threshold must be > 0"));
        }
        if self.dag_history_depth == 0 {
            return Err(message_error("dag_history_depth must be > 0"));
        }
        if self.gc_mutation_threshold == 0 {
            return Err(message_error("gc_mutation_threshold must be > 0"));
        }
        if self.peer_rate_limit == 0 {
            return Err(message_error("peer_rate_limit must be > 0"));
        }
        if self.peer_rate_burst == 0 {
            return Err(message_error("peer_rate_burst must be > 0"));
        }
        Ok(())
    }
}

/// Current protocol version.
pub const PROTOCOL_VERSION: u8 = 1;

/// Oldest protocol version accepted.
pub const MIN_PROTOCOL_VERSION: u8 = 1;

/// Mutations between history compactions.
pub const GC_MUTATION_THRESHOLD: u64 = 1000;

/// Capacity of the gossip deduplication filter.
pub const GOSSIP_LRU_SIZE: usize = 1000;

/// Concurrent packets processed before backpressure applies.
pub const NETWORK_BACKPRESSURE_LIMIT: usize = 100;

/// Largest UDP payload.
pub const NETWORK_BUFFER_SIZE: usize = 65507;

/// Failures before a peer's circuit opens.
pub const PEER_FAILURE_THRESHOLD: u32 = 5;

/// Most concurrent secure sessions.
pub const SESSION_MAX_COUNT: usize = 256;

/// Lifetime of an idle secure session, in seconds.
pub const SESSION_TTL_SECS: u64 = 300;

pub const DEFAULT_PORT: u16 = 1337;

pub const NETWORK_LOG_CAPACITY: usize = 500;

pub const MAX_VISIBLE_LOGS: usize = 20;

/// Depth of DAG history kept by compaction and served by sync.
pub const DAG_HISTORY_DEPTH: u32 = 100;

} // verus!
