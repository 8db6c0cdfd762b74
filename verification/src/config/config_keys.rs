//! Predefined configuration key constants, for use with `RmqClientConfig::set`.
use vstd::prelude::*;

verus! {

/// Unique identifier for the broker. **Required.**
pub const BROKER_ID: &'static str = "broker.id";

/// Default number of partitions per topic. Defaults to `1`.
pub const NUM_PARTITIONS: &'static str = "default.num.partitions";

/// Buffer capacity (in messages) per partition. Defaults to `10000`.
pub const BUFFER_CAPACITY: &'static str = "partition.buffer.capacity";

/// Data retention policy. Accepted values: `"none"`, `"time"`, `"capacity"`. Defaults to `"none"`.
pub const RETENTION_POLICY: &'static str = "retention.policy";

/// Capacity-based retention limit (message count).
pub const RETENTION_CAPACITY: &'static str = "retention.capacity";

/// Time-based retention duration in milliseconds.
pub const RETENTION_MS: &'static str = "retention.ms";

/// Consumer group session timeout in milliseconds. Defaults to `30000`.
pub const GROUP_SESSION_TIMEOUT: &'static str = "group.session.timeout.ms";

/// Consumer group identifier. Used when a consumer joins a group.
pub const GROUP_ID: &'static str = "group.id";

} // verus!
