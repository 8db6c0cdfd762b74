use vstd::prelude::*;
use crate::consumer_group::copy_strings;
use crate::partition_assignor::strings_view;
use crate::topic_partition::copy_string;

verus! {

/// Error type for RMemQueue operations.
///
/// Covers all error conditions that can occur during message production, consumption,
/// configuration parsing, and broker operations.
#[derive(Clone, Debug)]
pub enum RmqError {
    /// The requested topic does not exist.
    TopicNotFound(String),
    /// The requested partition index is out of the valid range.
    PartitionOutOfRange { topic: String, partition: i32 },
    /// The requested message offset is out of the valid range.
    OffsetOutOfRange { topic: String, partition: i32, offset: i64 },
    /// The requested consumer group does not exist.
    GroupNotFound(String),
    /// The consumer is already subscribed to the given topics.
    AlreadySubscribed(Vec<String>),
    /// The consumer is not subscribed to any topic.
    NotSubscribed,
    /// The broker has been shut down and refuses new operations.
    BrokerShutdown,
    /// The partition buffer is full; no more messages can be written.
    BufferFull { topic: String, partition: i32 },
    /// A configuration value is missing or invalid.
    InvalidConfig(String),
    /// A custom, user-defined error.
    Custom(String),
}

/// Common result type for RMemQueue operations.
///
/// On success contains `T`; on failure contains [`RmqError`].
pub type RmqResult<T> = Result<T, RmqError>;

/// `e` is the offset-out-of-range error for `topic`/`partition` at `offset`.
pub open spec fn is_offset_out_of_range(e: RmqError, topic: Seq<char>, partition: i32, offset: i64) -> bool {
    e matches RmqError::OffsetOutOfRange { topic: t, partition: p, offset: o }
        && t@ == topic && p == partition && o == offset
}

/// `e` is the partition-out-of-range error for `topic`/`partition`.
pub open spec fn is_partition_out_of_range(e: RmqError, topic: Seq<char>, partition: i32) -> bool {
    e matches RmqError::PartitionOutOfRange { topic: t, partition: p } && t@ == topic && p == partition
}

/// `e` is the topic-not-found error for `topic`.
pub open spec fn is_topic_not_found(e: RmqError, topic: Seq<char>) -> bool {
    e matches RmqError::TopicNotFound(t) && t@ == topic
}

/// `e` is the buffer-full error for `topic`/`partition`.
pub open spec fn is_buffer_full(e: RmqError, topic: Seq<char>, partition: i32) -> bool {
    e matches RmqError::BufferFull { topic: t, partition: p } && t@ == topic && p == partition
}

/// `e` is the group-not-found error for `group`.
pub open spec fn is_group_not_found(e: RmqError, group: Seq<char>) -> bool {
    e matches RmqError::GroupNotFound(g) && g@ == group
}


/// Whether two errors are the same variant with the same contents.
pub open spec fn same_error(a: RmqError, b: RmqError) -> bool {
    match (a, b) {
        (RmqError::TopicNotFound(x), RmqError::TopicNotFound(y)) => x@ == y@,
        (
            RmqError::PartitionOutOfRange { topic: t1, partition: p1 },
            RmqError::PartitionOutOfRange { topic: t2, partition: p2 },
        ) => t1@ == t2@ && p1 == p2,
        (
            RmqError::OffsetOutOfRange { topic: t1, partition: p1, offset: o1 },
            RmqError::OffsetOutOfRange { topic: t2, partition: p2, offset: o2 },
        ) => t1@ == t2@ && p1 == p2 && o1 == o2,
        (RmqError::GroupNotFound(x), RmqError::GroupNotFound(y)) => x@ == y@,
        (RmqError::AlreadySubscribed(x), RmqError::AlreadySubscribed(y)) => strings_view(x@) == strings_view(y@),
        (RmqError::NotSubscribed, RmqError::NotSubscribed) => true,
        (RmqError::BrokerShutdown, RmqError::BrokerShutdown) => true,
        (
            RmqError::BufferFull { topic: t1, partition: p1 },
            RmqError::BufferFull { topic: t2, partition: p2 },
        ) => t1@ == t2@ && p1 == p2,
        (RmqError::InvalidConfig(x), RmqError::InvalidConfig(y)) => x@ == y@,
        (RmqError::Custom(x), RmqError::Custom(y)) => x@ == y@,
        _ => false,
    }
}

/// A copy of an error: the same variant with the same contents.
pub fn copy_error(e: &RmqError) -> (r: RmqError)
    ensures
        same_error(r, *e),
{
    match e {
        RmqError::TopicNotFound(t) => RmqError::TopicNotFound(copy_string(t)),
        RmqError::PartitionOutOfRange { topic, partition } => RmqError::PartitionOutOfRange { topic: copy_string(topic), partition: *partition },
        RmqError::OffsetOutOfRange { topic, partition, offset } => RmqError::OffsetOutOfRange {
            topic: copy_string(topic),
            partition: *partition,
            offset: *offset,
        },
        RmqError::GroupNotFound(g) => RmqError::GroupNotFound(copy_string(g)),
        RmqError::AlreadySubscribed(v) => RmqError::AlreadySubscribed(copy_strings(v.as_slice())),
        RmqError::NotSubscribed => RmqError::NotSubscribed,
        RmqError::BrokerShutdown => RmqError::BrokerShutdown,
        RmqError::BufferFull { topic, partition } => RmqError::BufferFull { topic: copy_string(topic), partition: *partition },
        RmqError::InvalidConfig(t) => RmqError::InvalidConfig(copy_string(t)),
        RmqError::Custom(t) => RmqError::Custom(copy_string(t)),
    }
}

} // verus!
