use vstd::prelude::*;
use std::collections::VecDeque;
use std::sync::Arc;
use crate::bytes::opt_bytes;
use crate::clock::{elapsed_millis, instant_now, unix_millis_now, epoch_millis};
use crate::error::{RmqError, RmqResult, is_offset_out_of_range, is_buffer_full};
use crate::headers::{OwnedHeaders, opt_headers};
use crate::message::{StoredMessage, MessageView};
use crate::topic_partition::copy_string;

verus! {

/// Eviction policy trait for the partition buffer, determining when to remove the oldest message.
pub trait EvictionPolicy {
    /// Returns `true` if the front (oldest) message in the buffer should be evicted.
    /// `buffer_len` is the current number of messages in the buffer.
    /// `front_msg` is the oldest message in the buffer.
    fn should_evict<T>(&self, buffer_len: usize, front_msg: &StoredMessage<T>) -> bool;
}

/// Whether a message `age_ms` milliseconds old is past a retention of `retention_ms`.
pub open spec fn older_than(age_ms: u64, retention_ms: u64) -> bool {
    age_ms > retention_ms
}

/// Whether a message `age_ms` milliseconds old is past a retention of `retention_ms`
/// milliseconds: its age exceeds the retention.
pub fn past_retention(age_ms: u64, retention_ms: u64) -> (r: bool)
    ensures
        r == older_than(age_ms, retention_ms),
{
    age_ms > retention_ms
}

/// Time-based eviction policy that evicts messages whose age exceeds the configured threshold.
#[derive(Clone, Copy, Debug)]
pub struct TimeEviction {
    /// Message retention time in milliseconds.
    pub retention_ms: u64,
}

impl EvictionPolicy for TimeEviction {
    /// Whether the front message is older than the retention time: its age in whole
    /// milliseconds, read from the clock, exceeds `retention_ms`. The age itself is the
    /// clock's, so the answer is stated as that comparison for some age; in particular a
    /// retention of `u64::MAX` milliseconds never evicts.
    fn should_evict<T>(&self, _buffer_len: usize, front_msg: &StoredMessage<T>) -> (r: bool)
        ensures
            exists|age_ms: u64| r == #[trigger] older_than(age_ms, self.retention_ms),
    {
        let age_ms = elapsed_millis(&front_msg.created_at());
        past_retention(age_ms, self.retention_ms)
    }
}

/// Capacity-based eviction policy that evicts messages when the buffer count exceeds the threshold.
#[derive(Clone, Copy, Debug)]
pub struct CapacityEviction {
    /// Maximum number of messages to retain.
    pub retention_capacity: usize,
}

impl EvictionPolicy for CapacityEviction {
    fn should_evict<T>(&self, buffer_len: usize, _front_msg: &StoredMessage<T>) -> (r: bool)
        ensures
            r == (buffer_len > self.retention_capacity),
    {
        buffer_len > self.retention_capacity
    }
}

/// The settings of a partition buffer.
#[derive(Clone, Copy, Debug)]
pub struct PartitionConfig {
    /// Capacity of the buffer in messages; `0` means unbounded.
    pub max_capacity: usize,
    /// Time-based retention in milliseconds, if any.
    pub retention_ms: Option<u64>,
    /// Capacity-based retention (message count), if any.
    pub retention_capacity: Option<usize>,
}

/// The eviction policies a partition applies after each append.
#[derive(Clone, Copy, Debug)]
pub struct EvictionPolicies {
    /// The time-based policy, if configured.
    pub time: Option<TimeEviction>,
    /// The capacity-based policy, if configured.
    pub capacity: Option<CapacityEviction>,
}

impl PartitionConfig {
    /// The eviction policies these settings call for: one per configured retention limit.
    pub fn build_policies(&self) -> (r: EvictionPolicies)
        ensures
            r.time == match self.retention_ms {
                Some(ms) => Some(TimeEviction { retention_ms: ms }),
                None => None::<TimeEviction>,
            },
            r.capacity == match self.retention_capacity {
                Some(c) => Some(CapacityEviction { retention_capacity: c }),
                None => None::<CapacityEviction>,
            },
    {
        let time = match self.retention_ms {
            Some(retention_ms) => Some(TimeEviction { retention_ms }),
            None => None,
        };
        let capacity = match self.retention_capacity {
            Some(retention_capacity) => Some(CapacityEviction { retention_capacity }),
            None => None,
        };
        EvictionPolicies { time, capacity }
    }
}

/// The abstract content of a partition.
pub struct PartitionView<T> {
    /// The topic the partition belongs to.
    pub topic: Seq<char>,
    /// The partition's index within its topic.
    pub id: i32,
    /// The offset the next appended message receives.
    pub next_offset: int,
    /// The retained messages, oldest first.
    pub log: Seq<MessageView<T>>,
    /// Buffer capacity in messages (`0`: unbounded).
    pub max_capacity: nat,
    /// Time-based retention, if any.
    pub retention_ms: Option<u64>,
    /// Capacity-based retention, if any.
    pub retention_capacity: Option<usize>,
}

impl<T> PartitionView<T> {
    /// The offset of the oldest retained message (the next offset when none is retained).
    pub open spec fn oldest(self) -> int {
        self.next_offset - self.log.len()
    }

    /// The partition invariant: retained messages carry consecutive offsets ending just
    /// before the next offset, and the buffer respects its capacity limits.
    pub open spec fn valid(self) -> bool {
        &&& 0 <= self.log.len() <= self.next_offset <= i64::MAX
        &&& forall|i: int| 0 <= i < self.log.len() ==> {
            &&& #[trigger] self.log[i].offset == self.oldest() + i
            &&& self.log[i].partition == self.id
            &&& self.log[i].topic == self.topic
        }
        &&& self.max_capacity > 0 ==> self.log.len() <= self.max_capacity
        &&& (self.retention_capacity matches Some(c) ==> self.log.len() <= c)
    }

    /// The watermarks `(oldest, newest)`: `newest` is the offset of the last message ever
    /// appended (`-1` before the first); `oldest` is the offset of the oldest retained
    /// message, or `0` when none is retained.
    pub open spec fn watermarks(self) -> (int, int) {
        (if self.log.len() == 0 { 0 } else { self.oldest() }, self.next_offset - 1)
    }

    /// Where a read at `offset` lands: `None` when the offset is out of range,
    /// `Some(None)` when it is the next offset (nothing to read yet), and `Some(Some(i))`
    /// for the retained message at position `i`.
    pub open spec fn locate(self, offset: int) -> Option<Option<int>> {
        if self.log.len() == 0 {
            if offset == 0 || offset == self.next_offset { Some(None) } else { None }
        } else if offset < self.oldest() || offset > self.next_offset {
            None
        } else if offset == self.next_offset {
            Some(None)
        } else {
            Some(Some(offset - self.oldest()))
        }
    }
}

/// The number of messages a buffer of `n` keeps under the capacity-based retention `cap`.
pub open spec fn retained_len(n: int, cap: Option<usize>) -> int {
    match cap {
        Some(c) => if n <= c { n } else { c as int },
        None => n,
    }
}

/// The log after appending `m` to `log` in a buffer of capacity `max_capacity`: when the
/// buffer would hold more than its capacity, the oldest message is dropped.
pub open spec fn pushed_log<T>(log: Seq<MessageView<T>>, m: MessageView<T>, max_capacity: nat) -> Seq<MessageView<T>> {
    let p = log.push(m);
    if max_capacity > 0 && p.len() > max_capacity { p.drop_first() } else { p }
}

/// Whether time-based retention can evict anything: it is configured, and with a limit
/// that a message's age can exceed.
pub open spec fn time_can_evict(retention_ms: Option<u64>) -> bool {
    retention_ms matches Some(ms) && ms < u64::MAX
}

/// `b` is what eviction may leave of `a`: a suffix that respects the capacity-based
/// retention, exactly as long as that retention allows when time-based retention cannot
/// evict (time-based eviction removes from the front the messages the clock finds older
/// than the limit as well).
pub open spec fn evicted<T>(a: Seq<MessageView<T>>, b: Seq<MessageView<T>>, retention_ms: Option<u64>, retention_capacity: Option<usize>) -> bool {
    &&& b.len() <= retained_len(a.len() as int, retention_capacity)
    &&& b == a.skip(a.len() - b.len())
    &&& !time_can_evict(retention_ms) ==> b.len() == retained_len(a.len() as int, retention_capacity)
}

/// The view of a shared stored message.
pub open spec fn arc_view<T>(a: Arc<StoredMessage<T>>) -> MessageView<T> {
    (*a)@
}

/// The views of a sequence of shared stored messages.
pub open spec fn log_view<T>(s: Seq<Arc<StoredMessage<T>>>) -> Seq<MessageView<T>> {
    s.map_values(|a: Arc<StoredMessage<T>>| arc_view(a))
}

struct PartitionBuffer<T> {
    log: VecDeque<Arc<StoredMessage<T>>>,
    next_offset: i64,
    max_capacity: usize,
    policies: EvictionPolicies,
}

/// One partition of a topic: an append-only log of messages with consecutive offsets,
/// of which the oldest are evicted by capacity and retention.
pub struct Partition<T> {
    topic_name: String,
    partition_id: i32,
    retention_ms: Option<u64>,
    retention_capacity: Option<usize>,
    buffer: PartitionBuffer<T>,
}

impl<T> View for Partition<T> {
    type V = PartitionView<T>;

    closed spec fn view(&self) -> PartitionView<T> {
        PartitionView {
            topic: self.topic_name@,
            id: self.partition_id,
            next_offset: self.buffer.next_offset as int,
            log: log_view(self.buffer.log@),
            max_capacity: self.buffer.max_capacity as nat,
            retention_ms: self.retention_ms,
            retention_capacity: self.retention_capacity,
        }
    }
}

impl<T> Partition<T> {
    /// The partition invariant, including that the eviction policies match the retention settings.
    pub closed spec fn wf(&self) -> bool {
        &&& self@.valid()
        &&& self.buffer.policies.time == match self.retention_ms {
            Some(ms) => Some(TimeEviction { retention_ms: ms }),
            None => None::<TimeEviction>,
        }
        &&& self.buffer.policies.capacity == match self.retention_capacity {
            Some(c) => Some(CapacityEviction { retention_capacity: c }),
            None => None::<CapacityEviction>,
        }
    }

    /// A well-formed partition's view is valid.
    pub proof fn lemma_wf_valid(&self)
        requires
            self.wf(),
        ensures
            self@.valid(),
    {
    }

    /// An empty partition of `topic_name` with the given index and settings.
    pub fn new(topic_name: String, partition_id: i32, config: PartitionConfig) -> (r: Self)
        ensures
            r.wf(),
            r@.topic == topic_name@,
            r@.id == partition_id,
            r@.next_offset == 0,
            r@.log == Seq::<MessageView<T>>::empty(),
            r@.max_capacity == config.max_capacity,
            r@.retention_ms == config.retention_ms,
            r@.retention_capacity == config.retention_capacity,
    {
        let policies = config.build_policies();
        let r = Self {
            topic_name,
            partition_id,
            retention_ms: config.retention_ms,
            retention_capacity: config.retention_capacity,
            buffer: PartitionBuffer { log: VecDeque::new(), next_offset: 0, max_capacity: config.max_capacity, policies },
        };
        assert(r@.log =~= Seq::<MessageView<T>>::empty());
        r
    }

    /// Removes expired messages from the front while any policy calls for it.
    #[verifier::spinoff_prover]
    fn evict_buffer(&mut self)
        requires
            old(self).wf() || ({
                let v = old(self)@;
                &&& 0 <= v.log.len() <= v.next_offset <= i64::MAX
                &&& forall|i: int| 0 <= i < v.log.len() ==> {
                    &&& #[trigger] v.log[i].offset == v.oldest() + i
                    &&& v.log[i].partition == v.id
                    &&& v.log[i].topic == v.topic
                }
                &&& v.max_capacity > 0 ==> v.log.len() <= v.max_capacity
            }),
            old(self).buffer.policies.time == match old(self).retention_ms {
                Some(ms) => Some(TimeEviction { retention_ms: ms }),
                None => None::<TimeEviction>,
            },
            old(self).buffer.policies.capacity == match old(self).retention_capacity {
                Some(c) => Some(CapacityEviction { retention_capacity: c }),
                None => None::<CapacityEviction>,
            },
        ensures
            final(self).wf(),
            final(self)@ == (PartitionView::<T> { log: final(self)@.log, ..old(self)@ }),
            evicted(old(self)@.log, final(self)@.log, old(self)@.retention_ms, old(self)@.retention_capacity),
    {
        let ghost a = self@.log;
        let ghost v0 = self@;
        loop
            invariant
                self@ == (PartitionView::<T> { log: self@.log, ..v0 }),
                self.buffer.policies == old(self).buffer.policies,
                self.retention_ms == old(self).retention_ms,
                self.retention_capacity == old(self).retention_capacity,
                self.buffer.policies.time == match self.retention_ms {
                    Some(ms) => Some(TimeEviction { retention_ms: ms }),
                    None => None::<TimeEviction>,
                },
                self.buffer.policies.capacity == match self.retention_capacity {
                    Some(c) => Some(CapacityEviction { retention_capacity: c }),
                    None => None::<CapacityEviction>,
                },
                a == v0.log,
                0 <= v0.log.len() <= v0.next_offset <= i64::MAX,
                forall|i: int| 0 <= i < v0.log.len() ==> {
                    &&& #[trigger] v0.log[i].offset == v0.oldest() + i
                    &&& v0.log[i].partition == v0.id
                    &&& v0.log[i].topic == v0.topic
                },
                v0.max_capacity > 0 ==> v0.log.len() <= v0.max_capacity,
                self@.log.len() <= a.len(),
                self@.log == a.skip(a.len() - self@.log.len()),
                !time_can_evict(self.retention_ms) ==> self@.log.len() >= retained_len(a.len() as int, self.retention_capacity),
                self@.log.len() == self.buffer.log@.len(),
            ensures
                self@ == (PartitionView::<T> { log: self@.log, ..v0 }),
                self.buffer.policies == old(self).buffer.policies,
                self.retention_ms == old(self).retention_ms,
                self.retention_capacity == old(self).retention_capacity,
                self@.log.len() <= a.len(),
                self@.log == a.skip(a.len() - self@.log.len()),
                !time_can_evict(self.retention_ms) ==> self@.log.len() >= retained_len(a.len() as int, self.retention_capacity),
                self.retention_capacity matches Some(c) ==> self@.log.len() <= c,
            decreases self.buffer.log@.len(),
        {
            let len = self.buffer.log.len();
            if len == 0 {
                break;
            }
            let front = &self.buffer.log[0];
            let by_time = match &self.buffer.policies.time {
                Some(p) => p.should_evict(len, &**front),
                None => false,
            };
            let by_capacity = match &self.buffer.policies.capacity {
                Some(p) => p.should_evict(len, &**front),
                None => false,
            };
            if by_time || by_capacity {
                let ghost before = self@.log;
                self.buffer.log.pop_front();
                proof {
                    assert(self@.log =~= before.drop_first());
                    assert(self@.log =~= a.skip(a.len() - self@.log.len()));
                }
            } else {
                break;
            }
        }
        proof {
            let v = self@;
            assert forall|i: int| 0 <= i < v.log.len() implies {
                &&& #[trigger] v.log[i].offset == v.oldest() + i
                &&& v.log[i].partition == v.id
                &&& v.log[i].topic == v.topic
            } by {
                assert(v.log[i] == a[a.len() - v.log.len() + i]);
            }
        }
    }

    /// Appends a message with the given key, payload, headers and timestamp (the current
    /// time when `None`), returning `(partition, offset)`; the message receives the next
    /// offset. Afterwards the oldest message is dropped if the buffer holds more than its
    /// capacity, and expired messages are evicted. A partition whose offsets are exhausted
    /// refuses the message with [`RmqError::BufferFull`].
    pub fn append(
        &mut self,
        key: Option<Vec<u8>>,
        payload: Option<Vec<u8>>,
        headers: Option<OwnedHeaders>,
        timestamp: Option<i64>,
    ) -> (r: RmqResult<(i32, i64)>)
        requires
            old(self).wf(),
        ensures
            final(self).wf(),
            old(self)@.next_offset == i64::MAX ==> (r matches Err(e) && is_buffer_full(e, old(self)@.topic, old(self)@.id)
                && final(self)@ == old(self)@),
            old(self)@.next_offset < i64::MAX ==> r == Ok::<(i32, i64), RmqError>((old(self)@.id, old(self)@.next_offset as i64))
                && exists|m: MessageView<T>| appended(old(self)@, final(self)@, m)
                && m.key == opt_bytes(key) && m.payload == opt_bytes(payload)
                && m.typed_payload is None && m.typed_key is None
                && m.headers == opt_headers(headers)
                && (timestamp matches Some(ts) ==> m.timestamp == ts)
                && (timestamp is None ==> exists|ms: Option<u128>| m.timestamp == #[trigger] epoch_millis(ms)),
    {
        let ts = match timestamp {
            Some(ts) => ts,
            None => unix_millis_now(),
        };
        if self.buffer.next_offset == i64::MAX {
            return Err(RmqError::BufferFull { topic: copy_string(&self.topic_name), partition: self.partition_id });
        }
        let offset = self.buffer.next_offset;
        let msg = StoredMessage::new(key, payload, copy_string(&self.topic_name), self.partition_id, offset, ts, headers, instant_now());
        let ghost m = msg@;
        self.push_message(Arc::new(msg));
        proof {
            assert(appended(old(self)@, self@, m));
        }
        Ok((self.partition_id, offset))
    }

    /// Appends a message with a typed payload and optional typed key, as [`append`](Partition::append) does.
    pub fn append_typed(
        &mut self,
        typed_payload: T,
        typed_key: Option<T>,
        headers: Option<OwnedHeaders>,
        timestamp: Option<i64>,
    ) -> (r: RmqResult<(i32, i64)>)
        requires
            old(self).wf(),
        ensures
            final(self).wf(),
            old(self)@.next_offset == i64::MAX ==> (r matches Err(e) && is_buffer_full(e, old(self)@.topic, old(self)@.id)
                && final(self)@ == old(self)@),
            old(self)@.next_offset < i64::MAX ==> r == Ok::<(i32, i64), RmqError>((old(self)@.id, old(self)@.next_offset as i64))
                && exists|m: MessageView<T>| appended(old(self)@, final(self)@, m)
                && m.key is None && m.payload is None
                && m.typed_payload == Some(typed_payload) && m.typed_key == typed_key
                && m.headers == opt_headers(headers)
                && (timestamp matches Some(ts) ==> m.timestamp == ts)
                && (timestamp is None ==> exists|ms: Option<u128>| m.timestamp == #[trigger] epoch_millis(ms)),
    {
        let ts = match timestamp {
            Some(ts) => ts,
            None => unix_millis_now(),
        };
        if self.buffer.next_offset == i64::MAX {
            return Err(RmqError::BufferFull { topic: copy_string(&self.topic_name), partition: self.partition_id });
        }
        let offset = self.buffer.next_offset;
        let msg = StoredMessage::new_typed(typed_payload, typed_key, copy_string(&self.topic_name), self.partition_id, offset, ts, headers, instant_now());
        let ghost m = msg@;
        self.push_message(Arc::new(msg));
        proof {
            assert(appended(old(self)@, self@, m));
        }
        Ok((self.partition_id, offset))
    }

    /// Pushes a message that carries the next offset, then applies capacity and eviction.
    fn push_message(&mut self, msg: Arc<StoredMessage<T>>)
        requires
            old(self).wf(),
            old(self)@.next_offset < i64::MAX,
            (*msg)@.offset == old(self)@.next_offset,
            (*msg)@.partition == old(self)@.id,
            (*msg)@.topic == old(self)@.topic,
        ensures
            final(self).wf(),
            appended(old(self)@, final(self)@, (*msg)@),
    {
        let ghost m = (*msg)@;
        let ghost v0 = self@;
        self.buffer.next_offset = self.buffer.next_offset + 1;
        self.buffer.log.push_back(msg);
        proof {
            assert(log_view(self.buffer.log@) =~= v0.log.push(m));
        }
        if self.buffer.max_capacity > 0 && self.buffer.log.len() > self.buffer.max_capacity {
            self.buffer.log.pop_front();
            proof {
                assert(log_view(self.buffer.log@) =~= v0.log.push(m).drop_first());
            }
        }
        proof {
            let v = self@;
            assert(v.log =~= pushed_log(v0.log, m, v0.max_capacity));
            let p = v0.log.push(m);
            assert forall|i: int| 0 <= i < v.log.len() implies {
                &&& #[trigger] v.log[i].offset == v.oldest() + i
                &&& v.log[i].partition == v.id
                &&& v.log[i].topic == v.topic
            } by {
                if v.log.len() < p.len() {
                    assert(v.log[i] == p[i + 1]);
                } else {
                    assert(v.log[i] == p[i]);
                }
            }
        }
        self.evict_buffer();
    }

    /// Reads the message at `offset`: `None` when the offset is the next one to be written
    /// (or `0` on an empty buffer), and [`RmqError::OffsetOutOfRange`] when it lies outside
    /// the retained range.
    pub fn read_one(&self, offset: i64) -> (r: RmqResult<Option<Arc<StoredMessage<T>>>>)
        requires
            self.wf(),
        ensures
            match self@.locate(offset as int) {
                None => r matches Err(e) && is_offset_out_of_range(e, self@.topic, self@.id, offset),
                Some(None) => r matches Ok(None),
                Some(Some(i)) => r matches Ok(Some(m)) && (*m)@ == self@.log[i] && (*m)@.offset == offset,
            },
    {
        let len = self.buffer.log.len();
        let next = self.buffer.next_offset;
        if len == 0 {
            if offset == 0 || offset == next {
                return Ok(None);
            }
            return Err(RmqError::OffsetOutOfRange { topic: copy_string(&self.topic_name), partition: self.partition_id, offset });
        }
        let oldest = next - len as i64;
        if offset < oldest || offset > next {
            return Err(RmqError::OffsetOutOfRange { topic: copy_string(&self.topic_name), partition: self.partition_id, offset });
        }
        if offset == next {
            return Ok(None);
        }
        let idx = (offset - oldest) as usize;
        Ok(Some(self.buffer.log[idx].clone()))
    }

    /// Reads up to `max_count` messages starting at `offset`, with the same range rules as
    /// [`read_one`](Partition::read_one).
    pub fn read(&self, offset: i64, max_count: usize) -> (r: RmqResult<Vec<Arc<StoredMessage<T>>>>)
        requires
            self.wf(),
        ensures
            match self@.locate(offset as int) {
                None => r matches Err(e) && is_offset_out_of_range(e, self@.topic, self@.id, offset),
                Some(None) => r matches Ok(v) && v@.len() == 0,
                Some(Some(i)) => r matches Ok(v) && log_view(v@) == self@.log.subrange(
                    i,
                    if i + max_count <= self@.log.len() { i + max_count } else { self@.log.len() as int },
                ),
            },
    {
        let len = self.buffer.log.len();
        let next = self.buffer.next_offset;
        if len == 0 {
            if offset == 0 || offset == next {
                return Ok(Vec::new());
            }
            return Err(RmqError::OffsetOutOfRange { topic: copy_string(&self.topic_name), partition: self.partition_id, offset });
        }
        let oldest = next - len as i64;
        if offset < oldest || offset > next {
            return Err(RmqError::OffsetOutOfRange { topic: copy_string(&self.topic_name), partition: self.partition_id, offset });
        }
        if offset == next {
            return Ok(Vec::new());
        }
        let start = (offset - oldest) as usize;
        let end = if max_count <= len - start { start + max_count } else { len };
        let mut out: Vec<Arc<StoredMessage<T>>> = Vec::new();
        let mut i = start;
        while i < end
            invariant
                start <= i <= end <= len,
                len == self.buffer.log@.len(),
                out@.len() == i - start,
                log_view(out@) == self@.log.subrange(start as int, i as int),
            decreases end - i,
        {
            let ghost old_out = out@;
            out.push(self.buffer.log[i].clone());
            proof {
                assert forall|j: int| 0 <= j < out@.len() implies log_view(out@)[j] == self@.log.subrange(start as int, i + 1)[j] by {
                    if j < old_out.len() {
                        assert(out@[j] == old_out[j]);
                        assert(log_view(old_out)[j] == arc_view(old_out[j]));
                    }
                }
                assert(log_view(out@) =~= self@.log.subrange(start as int, i + 1));
            }
            i += 1;
        }
        Ok(out)
    }

    /// Returns the watermarks `(oldest, newest)` of this partition.
    pub fn watermarks(&self) -> (r: (i64, i64))
        requires
            self.wf(),
        ensures
            r.0 == self@.watermarks().0,
            r.1 == self@.watermarks().1,
    {
        let newest = self.buffer.next_offset - 1;
        let oldest = if self.buffer.log.len() == 0 { 0 } else { self.buffer.next_offset - self.buffer.log.len() as i64 };
        (oldest, newest)
    }

    /// Returns the number of messages currently retained.
    pub fn message_count(&self) -> (r: i64)
        requires
            self.wf(),
        ensures
            r == self@.log.len(),
    {
        self.buffer.log.len() as i64
    }

    /// Applies the eviction policies to the retained messages.
    pub fn evict(&mut self)
        requires
            old(self).wf(),
        ensures
            final(self).wf(),
            final(self)@ == (PartitionView::<T> { log: final(self)@.log, ..old(self)@ }),
            evicted(old(self)@.log, final(self)@.log, old(self)@.retention_ms, old(self)@.retention_capacity),
    {
        self.evict_buffer();
    }
}

/// `b` is `a` after appending the message `m`: `m` carries `a`'s next offset, the next
/// offset grows by one, and the log is what capacity and eviction leave of the old log
/// with `m` appended.
pub open spec fn appended<T>(a: PartitionView<T>, b: PartitionView<T>, m: MessageView<T>) -> bool {
    &&& m.offset == a.next_offset
    &&& m.partition == a.id
    &&& m.topic == a.topic
    &&& b == (PartitionView::<T> { next_offset: a.next_offset + 1, log: b.log, ..a })
    &&& evicted(pushed_log(a.log, m, a.max_capacity), b.log, a.retention_ms, a.retention_capacity)
}

} // verus!
