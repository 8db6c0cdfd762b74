//! RMemQueue — a Kafka-like in-memory message queue for inter-thread communication.
//!
//! Topics are split into partitions, each an append-only log with offsets that
//! grow by one per message; consumers read by offset, may form groups that share
//! the partitions of their topics, and commit the offsets they have consumed.
pub mod error;
pub mod topic_partition;
pub mod bytes;
pub mod headers;
pub mod keys;
pub mod numparse;
pub mod config;
pub mod clock;
pub mod record;
pub mod message;
pub mod partition;
pub mod topic;
pub mod metadata;
pub mod broker_backend;
pub mod partitioner;
pub mod offset_store;
pub mod order;
pub mod partition_assignor;
pub mod consumer_group;
pub mod broker;
pub mod context;
pub mod consumer;
pub mod partition_table;
pub mod base_consumer;
pub mod future_producer;
pub mod base_producer;
pub mod stream_producer;
pub mod typed;
pub mod laws;
pub mod runs;
