use vstd::prelude::*;

verus! {

/// Size of all channel buffers
pub const CHANNEL_BUFFER_SIZE: usize = 1_000_000;

/// Character used as the multi-character wildcard in subscription patterns
pub const WILDCARD: char = '*';

/// Character used as the single-character wildcard in glob patterns
pub const SINGLE_WILDCARD: char = '?';

/// System published topics use this prefix
pub const SYSTEM_TOPIC_PREFIX: &'static str = "!system";

/// The first character of every system topic
pub const SYSTEM_TOPIC_MARKER: char = '!';

/// Metric reporting interval of the command throughput, in seconds
pub const M_COMMANDS_INTERVAL_S: u64 = 10;

/// Metric reporting interval of the connection count, in seconds
pub const M_CONNECTIONS_INTERVAL_S: u64 = 10;

/// Metric reporting interval of the sent-messages throughput, in seconds
pub const M_MESSAGES_SENT_INTERVAL_S: u64 = 10;

} // verus!
