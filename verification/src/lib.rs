//! A publish/subscribe broker: glob-pattern subscription trees, message framing
//! decisions, metric state and the connection state machines of the broker.

pub mod broker;
pub mod broker_glob_tree;
pub mod buffer_config;
pub mod config;
pub mod datagram;
pub mod glob_tree;
pub mod metrics;
pub mod pattern_counts;
pub mod processor;
pub mod subscription_tree;
