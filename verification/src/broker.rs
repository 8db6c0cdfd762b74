use vstd::prelude::*;
use std::sync::Arc;
use crate::broker_backend::{
    InMemoryBackend, BackendView, backend_produced, backend_fetched, backend_watermarks, metadata_outcome,
    opt_text, with_topic, with_topics, topic_counts, all_counts, lemma_with_topic, lemma_with_topics, describes,
};
use crate::bytes::opt_bytes;
use crate::message::opt_slice;
use crate::config::{BrokerConfig, BrokerConfigView, FromRmqConfig, RmqClientConfig, broker_config_spec};
use crate::consumer_group::{ConsumerGroup, GroupView, joined, left, empty_group, assignment_of};
use crate::error::{RmqError, RmqResult, is_topic_not_found, is_partition_out_of_range, is_offset_out_of_range, is_group_not_found};
use crate::headers::{OwnedHeaders, opt_headers};
use crate::keys::{index_of, distinct, lemma_index_of, lemma_index_of_at, lemma_index_of_distinct};
use crate::message::{StoredMessage, MessageView};
use crate::metadata::Metadata;
use crate::offset_store::{InMemoryOffsetStore, OffsetKey};
use crate::partition::PartitionConfig;
use crate::partition_assignor::{strings_view, counts_view};
use crate::partitioner::{Partitioner, RoundRobinPartitioner};
use crate::topic_partition::{TopicPartitionList, ElemView, copy_string};
use crate::broker_backend::same_text_str;

verus! {

/// Metadata returned after a record is successfully produced.
///
/// Contains the topic, partition, offset, and timestamp of the stored message.
#[derive(Debug)]
pub struct RecordMetadata {
    /// The topic the message was written to.
    pub topic: String,
    /// The partition the message was written to.
    pub partition: i32,
    /// The offset of the message within the partition.
    pub offset: i64,
    /// The timestamp of the message (Unix milliseconds).
    pub timestamp: i64,
}

/// A copy of a record's metadata.
pub fn copy_record_metadata(m: &RecordMetadata) -> (r: RecordMetadata)
    ensures
        r.topic@ == m.topic@,
        r.partition == m.partition,
        r.offset == m.offset,
        r.timestamp == m.timestamp,
{
    RecordMetadata { topic: copy_string(&m.topic), partition: m.partition, offset: m.offset, timestamp: m.timestamp }
}

/// The abstract content of a broker.
pub struct BrokerView<T> {
    /// The stored topics and whether the broker has been shut down.
    pub backend: BackendView<T>,
    /// The consumer groups, in creation order.
    pub groups: Seq<GroupView>,
    /// The committed offsets of all groups.
    pub offsets: Map<OffsetKey, i64>,
    /// The broker settings.
    pub settings: BrokerConfigView,
    /// The client configuration the broker was created from.
    pub client: Map<Seq<char>, Seq<char>>,
}

/// The ids of a sequence of groups.
pub open spec fn group_ids(g: Seq<GroupView>) -> Seq<Seq<char>> {
    g.map_values(|x: GroupView| x.id)
}

impl<T> BrokerView<T> {
    /// The position of the group with id `id`, if it exists.
    pub open spec fn find_group(self, id: Seq<char>) -> Option<int> {
        index_of(group_ids(self.groups), id)
    }

    /// The number of partitions given to a topic created on first use.
    pub open spec fn default_partitions(self) -> i32 {
        self.settings.default_num_partitions as i32
    }

    /// The offset committed by group `group` on `topic`/`partition`, where the group
    /// exists and has committed one.
    pub open spec fn committed(self, group: Seq<char>, topic: Seq<char>, partition: i32) -> Option<i64> {
        if self.find_group(group) is Some && self.offsets.contains_key((group, topic, partition)) {
            Some(self.offsets[(group, topic, partition)])
        } else {
            None
        }
    }
}

/// Whether the partition settings `pc` are those that the broker settings `s` give.
pub open spec fn partition_settings(pc: PartitionConfig, s: BrokerConfigView) -> bool {
    &&& pc.max_capacity as int == s.buffer_capacity
    &&& match (pc.retention_ms, s.retention_ms) {
        (Some(a), Some(b)) => a as int == b,
        (None, None) => true,
        _ => false,
    }
    &&& match (pc.retention_capacity, s.retention_capacity) {
        (Some(a), Some(b)) => a as int == b,
        (None, None) => true,
        _ => false,
    }
}

/// A produce outcome as `(partition, offset, timestamp)`.
pub open spec fn record_outcome(r: RmqResult<RecordMetadata>) -> RmqResult<(i32, i64, i64)> {
    match r {
        Ok(m) => Ok((m.partition, m.offset, m.timestamp)),
        Err(e) => Err(e),
    }
}

/// The number of partitions the partitioner is asked to choose among when producing to
/// `topic`: those of the topic, created with the default count on first use.
pub open spec fn produce_width<T>(s: BrokerView<T>, topic: Seq<char>) -> i32 {
    with_topic(s.backend, topic, s.default_partitions()).topic(topic).partitions.len() as i32
}

/// What is known of the partitioner's choice: the partition `p` names, when `p` keeps to
/// its description; nothing otherwise.
pub open spec fn known_choice<P: Partitioner>(p: P, topic: Seq<char>, key: Option<Seq<u8>>, n: i32) -> Option<i32> {
    if P::obeys_choice_spec() { Some(p.chosen(topic, key, n)) } else { None }
}

/// The partitioner's state after a produce to `topic` from broker `s`: advanced past
/// its choice when it was asked for one (the broker is running and no partition was
/// requested), unchanged otherwise.
pub open spec fn partitioner_after<T, P: Partitioner>(p: P, s: BrokerView<T>, topic: Seq<char>, partition: Option<i32>, key: Option<Seq<u8>>) -> P {
    if !s.backend.shutdown && partition is None {
        p.advanced(topic, key, produce_width(s, topic))
    } else {
        p
    }
}

/// Whether the partitioner's state after a produce is known: always when it was not
/// asked for a choice, and otherwise when it keeps to its description.
pub open spec fn partitioner_known<T, P: Partitioner>(s: BrokerView<T>, partition: Option<i32>) -> bool {
    P::obeys_choice_spec() || s.backend.shutdown || partition is Some
}

/// `t` is broker `s` after producing to `topic` (created with the default partition
/// count on first use) with outcome `r`: refused when shut down; otherwise the message,
/// meeting `content`, goes to the requested partition or, without one, to the
/// partitioner's choice, which is `choice` where that is known and some partition
/// otherwise (a partition out of range is refused); only the storage changes.
pub open spec fn broker_produced<T>(
    s: BrokerView<T>,
    t: BrokerView<T>,
    topic: Seq<char>,
    partition: Option<i32>,
    choice: Option<i32>,
    timestamp: Option<i64>,
    r: RmqResult<(i32, i64, i64)>,
    content: spec_fn(MessageView<T>) -> bool,
) -> bool {
    &&& t == (BrokerView::<T> { backend: t.backend, ..s })
    &&& s.backend.shutdown ==> (r matches Err(RmqError::BrokerShutdown) && t == s)
    &&& !s.backend.shutdown ==> {
        let b1 = with_topic(s.backend, topic, s.default_partitions());
        match (partition, choice) {
            (Some(p), _) => backend_produced(b1, t.backend, topic, p, timestamp, r, content),
            (None, Some(q)) => backend_produced(b1, t.backend, topic, q, timestamp, r, content),
            (None, None) => exists|q: i32| #[trigger] backend_produced(b1, t.backend, topic, q, timestamp, r, content),
        }
    }
}

/// The message broker at the heart of RMemQueue: topic storage, consumer groups and
/// their committed offsets.
///
/// The broker stores messages in an [`InMemoryBackend`] and chooses partitions with the
/// partitioner `P` (round-robin by default). Typed payloads and keys are of type `T`.
pub struct Broker<T, P = RoundRobinPartitioner> {
    backend: InMemoryBackend<T>,
    groups: Vec<ConsumerGroup>,
    config: BrokerConfig,
    client_config: RmqClientConfig,
    partitioner: P,
    offset_store: InMemoryOffsetStore,
}

impl<T, P> View for Broker<T, P> {
    type V = BrokerView<T>;

    closed spec fn view(&self) -> BrokerView<T> {
        BrokerView {
            backend: self.backend@,
            groups: self.groups@.map_values(|g: ConsumerGroup| g@),
            offsets: self.offset_store@,
            settings: self.config.spec_view(),
            client: self.client_config@,
        }
    }
}

/// A copy of broker settings.
fn copy_broker_config(c: &BrokerConfig) -> (r: BrokerConfig)
    ensures
        r.spec_view() == c.spec_view(),
        r.buffer_capacity == c.buffer_capacity,
        r.retention_ms == c.retention_ms,
        r.retention_capacity == c.retention_capacity,
{
    BrokerConfig {
        broker_id: copy_string(&c.broker_id),
        default_num_partitions: c.default_num_partitions,
        buffer_capacity: c.buffer_capacity,
        retention_policy: copy_string(&c.retention_policy),
        retention_ms: c.retention_ms,
        retention_capacity: c.retention_capacity,
        group_session_timeout_ms: c.group_session_timeout_ms,
    }
}

impl<T> Broker<T, RoundRobinPartitioner> {
    /// Creates a new broker with the round-robin partitioner.
    ///
    /// Fails with [`RmqError::InvalidConfig`] if `broker.id` is missing or a value is invalid.
    pub fn new(config: RmqClientConfig) -> (r: RmqResult<Self>)
        ensures
            match broker_config_spec(config@) {
                Err(m) => r matches Err(RmqError::InvalidConfig(t)) && t@ == m,
                Ok(v) => r matches Ok(b) && b.wf() && b@.settings == v && b@.client == config@
                    && b@.backend.topics.len() == 0 && !b@.backend.shutdown
                    && partition_settings(b@.backend.partition_config, v)
                    && b@.groups.len() == 0 && b@.offsets == Map::<OffsetKey, i64>::empty(),
            },
    {
        Self::with_partitioner(config, RoundRobinPartitioner::new())
    }
}

impl<T, P: Partitioner> Broker<T, P> {
    /// The partitioner, in its present state.
    pub closed spec fn partitioner_state(&self) -> P {
        self.partitioner
    }

    /// The broker invariant: a well-formed backend and groups with distinct ids.
    pub closed spec fn wf(&self) -> bool {
        &&& self.backend.wf()
        &&& forall|i: int| 0 <= i < self.groups@.len() ==> (#[trigger] self.groups@[i]).wf()
        &&& distinct(group_ids(self@.groups))
        &&& partition_settings(self@.backend.partition_config, self@.settings)
        &&& self@.settings.default_num_partitions == self.config.default_num_partitions as int
    }

    /// Creates a new broker that chooses partitions with `partitioner`.
    ///
    /// Fails with [`RmqError::InvalidConfig`] if `broker.id` is missing or a value is invalid.
    pub fn with_partitioner(config: RmqClientConfig, partitioner: P) -> (r: RmqResult<Self>)
        ensures
            match broker_config_spec(config@) {
                Err(m) => r matches Err(RmqError::InvalidConfig(t)) && t@ == m,
                Ok(v) => r matches Ok(b) && b.wf() && b@.settings == v && b@.client == config@
                    && b@.backend.topics.len() == 0 && !b@.backend.shutdown
                    && partition_settings(b@.backend.partition_config, v)
                    && b@.groups.len() == 0 && b@.offsets == Map::<OffsetKey, i64>::empty(),
            },
    {
        let broker_config = match BrokerConfig::from_config(&config) {
            Ok(c) => c,
            Err(e) => return Err(e),
        };
        let backend = InMemoryBackend::new(copy_broker_config(&broker_config));
        let b = Self {
            backend,
            groups: Vec::new(),
            config: broker_config,
            client_config: config,
            partitioner,
            offset_store: InMemoryOffsetStore::new(),
        };
        proof {
            assert(b@.groups =~= Seq::<GroupView>::empty());
            assert(group_ids(b@.groups) =~= Seq::<Seq<char>>::empty());
        }
        Ok(b)
    }

    /// The broker settings.
    pub fn config(&self) -> (r: &BrokerConfig)
        ensures
            r.spec_view() == self@.settings,
    {
        &self.config
    }

    /// The client configuration the broker was created from.
    pub fn client_config(&self) -> (r: &RmqClientConfig)
        ensures
            r@ == self@.client,
    {
        &self.client_config
    }

    /// Fails with [`RmqError::BrokerShutdown`] once the broker has been shut down.
    pub fn check_shutdown(&self) -> (r: RmqResult<()>)
        ensures
            self@.backend.shutdown ==> r matches Err(RmqError::BrokerShutdown),
            !self@.backend.shutdown ==> r is Ok,
    {
        self.backend.check_shutdown()
    }

    /// Creates topic `topic` with `num_partitions` partitions unless it already exists.
    pub fn ensure_topic(&mut self, topic: &str, num_partitions: i32) -> (r: RmqResult<()>)
        requires
            old(self).wf(),
        ensures
            final(self).wf(),
            old(self)@.backend.shutdown ==> (r matches Err(RmqError::BrokerShutdown) && final(self)@ == old(self)@),
            !old(self)@.backend.shutdown ==> r is Ok && final(self)@ == (BrokerView::<T> {
                backend: with_topic(old(self)@.backend, topic@, num_partitions),
                ..old(self)@
            }),
            final(self).partitioner_state() == old(self).partitioner_state(),
    {
        let r = self.backend.ensure_topic(topic, num_partitions);
        proof {
            assert(self@.groups == old(self)@.groups);
        }
        r
    }

    /// The partition count of `topic`, which exists in a broker that is not shut down.
    fn partition_count_of(&self, topic: &str) -> (r: i32)
        requires
            self.wf(),
            !self@.backend.shutdown,
            self@.backend.find(topic@) is Some,
        ensures
            r == self@.backend.topic(topic@).partitions.len() as i32,
    {
        match self.backend.partition_total(topic) {
            Ok(n) => n,
            Err(_) => 0,
        }
    }

    /// Produces a raw message to `topic`, creating the topic with the default partition
    /// count on first use. Without a partition, the partitioner chooses one.
    pub fn produce(
        &mut self,
        topic: &str,
        partition: Option<i32>,
        key: Option<Vec<u8>>,
        payload: Option<Vec<u8>>,
        headers: Option<OwnedHeaders>,
        timestamp: Option<i64>,
    ) -> (r: RmqResult<RecordMetadata>)
        requires
            old(self).wf(),
        ensures
            final(self).wf(),
            broker_produced(old(self)@, final(self)@, topic@, partition,
                known_choice(old(self).partitioner_state(), topic@, opt_bytes(key), produce_width(old(self)@, topic@)),
                timestamp, record_outcome(r), |m: MessageView<T>|
                m.key == opt_bytes(key) && m.payload == opt_bytes(payload)
                && m.typed_payload is None && m.typed_key is None
                && m.headers == opt_headers(headers)),
            r matches Ok(m) ==> m.topic@ == topic@,
            partitioner_known::<T, P>(old(self)@, partition)
                ==> final(self).partitioner_state() == partitioner_after(old(self).partitioner_state(), old(self)@, topic@, partition, opt_bytes(key)),
    {
        self.check_shutdown()?;
        let n = self.config.default_num_partitions;
        let _ = self.ensure_topic(topic, n);
        proof {
            lemma_with_topic(old(self)@.backend, topic@, n);
        }
        let num_p = self.partition_count_of(topic);
        let p = match partition {
            Some(p) => p,
            None => {
                let k: Option<&[u8]> = match &key {
                    Some(k) => Some(k.as_slice()),
                    None => None,
                };
                proof {
                    assert(opt_slice(k) == opt_bytes(key));
                    assert(num_p == produce_width(old(self)@, topic@));
                }
                self.partitioner.partition(topic, k, num_p)
            },
        };
        proof {
            self.backend.lemma_wf_valid(topic@);
        }
        let ghost b1 = self@.backend;
        let r = self.backend.produce(topic, p, key, payload, headers, timestamp);
        proof {
            assert(self@.groups == old(self)@.groups);
        }
        match r {
            Ok((pid, offset, ts)) => Ok(RecordMetadata { topic: topic.to_owned(), partition: pid, offset, timestamp: ts }),
            Err(e) => Err(e),
        }
    }

    /// Produces a typed message to `topic`, creating the topic with the default partition
    /// count on first use. Without a partition, the partitioner chooses one (with no key).
    pub fn produce_typed(
        &mut self,
        topic: &str,
        partition: Option<i32>,
        typed_payload: T,
        typed_key: Option<T>,
        headers: Option<OwnedHeaders>,
        timestamp: Option<i64>,
    ) -> (r: RmqResult<RecordMetadata>)
        requires
            old(self).wf(),
        ensures
            final(self).wf(),
            broker_produced(old(self)@, final(self)@, topic@, partition,
                known_choice(old(self).partitioner_state(), topic@, None, produce_width(old(self)@, topic@)),
                timestamp, record_outcome(r), |m: MessageView<T>|
                m.key is None && m.payload is None
                && m.typed_payload == Some(typed_payload) && m.typed_key == typed_key
                && m.headers == opt_headers(headers)),
            r matches Ok(m) ==> m.topic@ == topic@,
            partitioner_known::<T, P>(old(self)@, partition)
                ==> final(self).partitioner_state() == partitioner_after(old(self).partitioner_state(), old(self)@, topic@, partition, None),
    {
        self.check_shutdown()?;
        let n = self.config.default_num_partitions;
        let _ = self.ensure_topic(topic, n);
        proof {
            lemma_with_topic(old(self)@.backend, topic@, n);
        }
        let num_p = self.partition_count_of(topic);
        let p = match partition {
            Some(p) => p,
            None => {
                proof {
                    assert(num_p == produce_width(old(self)@, topic@));
                }
                self.partitioner.partition(topic, None, num_p)
            },
        };
        proof {
            self.backend.lemma_wf_valid(topic@);
        }
        let r = self.backend.produce_typed(topic, p, typed_payload, typed_key, headers, timestamp);
        proof {
            assert(self@.groups == old(self)@.groups);
        }
        match r {
            Ok((pid, offset, ts)) => Ok(RecordMetadata { topic: topic.to_owned(), partition: pid, offset, timestamp: ts }),
            Err(e) => Err(e),
        }
    }
}


/// Where a read resumes when no position is given: at the offset the group committed
/// (the next offset to read), otherwise at the oldest retained offset.
pub open spec fn start_offset<T>(s: BrokerView<T>, topic: Seq<char>, partition: i32, position: Option<i64>, group: Option<Seq<char>>) -> i64 {
    let committed = match group {
        Some(g) => s.committed(g, topic, partition),
        None => None,
    };
    match position {
        Some(o) => o,
        None => match committed {
            Some(c) => c,
            None => if s.backend.find(topic) is Some && s.backend.topic(topic).has_partition(partition) {
                s.backend.topic(topic).partitions[partition as int].watermarks().0 as i64
            } else {
                0
            },
        },
    }
}

/// The outcome of reading `topic`/`partition` at `offset` from backend `b`, where an
/// offset out of range is reported with the oldest retained offset, at which the reader
/// can resume.
pub open spec fn fetched_from<T>(b: BackendView<T>, topic: Seq<char>, partition: i32, offset: i64, r: RmqResult<Option<Arc<StoredMessage<T>>>>) -> bool {
    if b.shutdown {
        r matches Err(RmqError::BrokerShutdown)
    } else if b.find(topic) is None {
        r matches Err(e) && is_topic_not_found(e, topic)
    } else {
        let t = b.topic(topic);
        &&& !t.has_partition(partition) ==> (r matches Err(e) && is_partition_out_of_range(e, topic, partition))
        &&& t.has_partition(partition) ==> match t.partitions[partition as int].locate(offset as int) {
            None => r matches Err(e) && is_offset_out_of_range(e, topic, partition, t.partitions[partition as int].watermarks().0 as i64),
            Some(None) => r matches Ok(None),
            Some(Some(i)) => r matches Ok(Some(m)) && (*m)@ == t.partitions[partition as int].log[i] && (*m)@.offset == offset,
        }
    }
}

/// The groups after member `member` of group `gid` (re)joins with `topics` and
/// partition counts `c`: the group is created first when it does not exist.
pub open spec fn groups_joined(g: Seq<GroupView>, gid: Seq<char>, member: Seq<char>, topics: Seq<Seq<char>>, c: Seq<(Seq<char>, i32)>) -> Seq<GroupView> {
    match index_of(group_ids(g), gid) {
        Some(i) => g.update(i, joined(g[i], member, topics, c)),
        None => g.push(joined(empty_group(gid), member, topics, c)),
    }
}

/// Group `gid` after member `member` (re)joins it.
pub open spec fn group_joined(g: Seq<GroupView>, gid: Seq<char>, member: Seq<char>, topics: Seq<Seq<char>>, c: Seq<(Seq<char>, i32)>) -> GroupView {
    match index_of(group_ids(g), gid) {
        Some(i) => joined(g[i], member, topics, c),
        None => joined(empty_group(gid), member, topics, c),
    }
}

/// Broker `s` after member `member` of group `gid` (re)joins with `ts`: the topics are
/// created on first use, then the group (created on first use) is rebalanced.
pub open spec fn broker_joined<T>(s: BrokerView<T>, gid: Seq<char>, member: Seq<char>, ts: Seq<Seq<char>>) -> BrokerView<T> {
    let b1 = with_topics(s.backend, ts, s.default_partitions());
    BrokerView { backend: b1, groups: groups_joined(s.groups, gid, member, ts, topic_counts(b1, ts)), ..s }
}

/// The assignment member `member` receives on (re)joining group `gid` with `ts`.
pub open spec fn joined_assignment<T>(s: BrokerView<T>, gid: Seq<char>, member: Seq<char>, ts: Seq<Seq<char>>) -> Option<Seq<ElemView>> {
    let b1 = with_topics(s.backend, ts, s.default_partitions());
    assignment_of(group_joined(s.groups, gid, member, ts, topic_counts(b1, ts)).assignments, member)
}

/// Broker `s` after member `member` leaves the existing group `gid`, which is rebalanced
/// over the partition counts of all topics.
pub open spec fn broker_left<T>(s: BrokerView<T>, gid: Seq<char>, member: Seq<char>) -> BrokerView<T> {
    let i = s.find_group(gid)->0;
    BrokerView { groups: s.groups.update(i, left(s.groups[i], member, all_counts(s.backend))), ..s }
}

impl<T, P: Partitioner> Broker<T, P> {
    /// A well-formed broker's backend is valid, and an existing topic is valid, has the
    /// name it is found by, and holds at most `i32::MAX` partitions.
    pub proof fn lemma_wf_valid(&self, name: Seq<char>)
        requires
            self.wf(),
        ensures
            self@.backend.valid(),
            self@.backend.find(name) is Some ==> {
                &&& 0 <= self@.backend.find(name)->0 < self@.backend.topics.len()
                &&& self@.backend.topic(name).valid()
                &&& self@.backend.topic(name).name == name
                &&& self@.backend.topic(name).partitions.len() <= i32::MAX
            },
    {
        self.backend.lemma_wf_valid(name);
    }

    /// The position of the group with id `group_id`, if it exists.
    fn group_position(&self, group_id: &str) -> (r: Option<usize>)
        ensures
            match r {
                Some(i) => self@.find_group(group_id@) == Some(i as int) && i < self.groups@.len(),
                None => self@.find_group(group_id@) is None,
            },
    {
        let ghost ids = group_ids(self@.groups);
        proof {
            lemma_index_of(ids, group_id@);
        }
        let mut i: usize = 0;
        while i < self.groups.len()
            invariant
                0 <= i <= self.groups@.len(),
                ids == group_ids(self@.groups),
                self@.groups.len() == self.groups@.len(),
                forall|j: int| 0 <= j < i ==> ids[j] != group_id@,
            decreases self.groups@.len() - i,
        {
            proof {
                assert(ids[i as int] == self.groups@[i as int]@.id);
            }
            if same_text_str(self.groups[i].group_id(), group_id) {
                proof {
                    lemma_index_of_at(ids, group_id@, i as int);
                }
                return Some(i);
            }
            i += 1;
        }
        None
    }

    /// Reads up to `max_count` messages of `topic`/`partition` from `offset`.
    pub fn fetch(&self, topic: &str, partition: i32, offset: i64, max_count: usize) -> (r: RmqResult<Vec<Arc<StoredMessage<T>>>>)
        requires
            self.wf(),
        ensures
            backend_fetched(self@.backend, topic@, partition, offset, max_count, r),
    {
        self.backend.fetch(topic, partition, offset, max_count)
    }

    /// Reads one message of `topic`/`partition`: at `position` when given, otherwise at
    /// the offset committed by group `group_id` (the next offset to read), otherwise at the oldest retained
    /// offset. An offset out of range is reported with the oldest retained offset.
    pub fn fetch_one_from_position(
        &self,
        topic: &str,
        partition: i32,
        position: Option<i64>,
        group_id: Option<&str>,
    ) -> (r: RmqResult<Option<Arc<StoredMessage<T>>>>)
        requires
            self.wf(),
        ensures
            fetched_from(self@.backend, topic@, partition, start_offset(self@, topic@, partition, position, opt_text(group_id)), r),
    {
        self.check_shutdown()?;
        proof {
            self.backend.lemma_wf_valid(topic@);
        }
        let offset = match position {
            Some(o) => o,
            None => {
                let committed = match group_id {
                    Some(gid) => match self.group_position(gid) {
                        Some(i) => match self.groups[i].committed_offset(&self.offset_store, topic, partition) {
                            Ok(Some(c)) => Some(c),
                            _ => None,
                        },
                        None => None,
                    },
                    None => None,
                };
                proof {
                    if let Some(gid) = group_id {
                        if self@.find_group(gid@) is Some {
                            lemma_index_of(group_ids(self@.groups), gid@);
                            let i = self@.find_group(gid@)->0;
                            assert(group_ids(self@.groups)[i] == self.groups@[i]@.id);
                        }
                    }
                }
                assert(committed == match opt_text(group_id) {
                    Some(g) => self@.committed(g, topic@, partition),
                    None => None,
                });
                match committed {
                    Some(c) => c,
                    None => match self.backend.watermarks(topic, partition) {
                        Ok((oldest, _)) => oldest,
                        Err(e) => return Err(e),
                    },
                }
            },
        };
        match self.backend.fetch_one(topic, partition, offset) {
            Ok(m) => Ok(m),
            Err(RmqError::OffsetOutOfRange { .. }) => match self.backend.watermarks(topic, partition) {
                Ok((oldest, _)) => Err(RmqError::OffsetOutOfRange { topic: topic.to_owned(), partition, offset: oldest }),
                Err(e) => Err(e),
            },
            Err(e) => Err(e),
        }
    }

    /// Returns metadata for `topic` when given, otherwise for every topic.
    pub fn metadata(&self, topic: Option<&str>) -> (r: RmqResult<Metadata>)
        requires
            self.wf(),
        ensures
            metadata_outcome(self@.backend, self@.settings.broker_id, opt_text(topic), r),
    {
        self.check_shutdown()?;
        self.backend.metadata(self.config.broker_id.as_str(), topic)
    }

    /// Returns the watermarks `(oldest, newest)` of `topic`/`partition`.
    pub fn watermarks(&self, topic: &str, partition: i32) -> (r: RmqResult<(i64, i64)>)
        requires
            self.wf(),
        ensures
            backend_watermarks(self@.backend, topic@, partition, r),
    {
        self.backend.watermarks(topic, partition)
    }

    /// Shuts the broker down: every later operation is refused with
    /// [`RmqError::BrokerShutdown`].
    pub fn shutdown(&mut self) -> (r: RmqResult<()>)
        requires
            old(self).wf(),
        ensures
            final(self).wf(),
            r is Ok,
            final(self)@ == (BrokerView::<T> { backend: BackendView { shutdown: true, ..old(self)@.backend }, ..old(self)@ }),
    {
        let r = self.backend.shutdown();
        proof {
            assert(self@.groups == old(self)@.groups);
        }
        r
    }
}


impl<T, P: Partitioner> Broker<T, P> {
    /// Adds member `member_id` with subscription `topics` to group `group_id` (creating
    /// the group, and each topic with the default partition count, on first use),
    /// rebalances the group, and returns the member's new assignment.
    pub fn join_group(&mut self, group_id: &str, member_id: &str, topics: &[String]) -> (r: RmqResult<TopicPartitionList>)
        requires
            old(self).wf(),
        ensures
            final(self).wf(),
            old(self)@.backend.shutdown ==> (r matches Err(RmqError::BrokerShutdown) && final(self)@ == old(self)@),
            !old(self)@.backend.shutdown ==> {
                &&& final(self)@ == broker_joined(old(self)@, group_id@, member_id@, strings_view(topics@))
                &&& r matches Ok(l) && joined_assignment(old(self)@, group_id@, member_id@, strings_view(topics@)) == Some(l@)
            },
    {
        self.check_shutdown()?;
        let n = self.config.default_num_partitions;
        let ghost ts = strings_view(topics@);
        let mut i: usize = 0;
        proof {
            assert(ts.take(0) =~= Seq::<Seq<char>>::empty());
        }
        while i < topics.len()
            invariant
                0 <= i <= topics@.len(),
                ts == strings_view(topics@),
                n == old(self)@.default_partitions(),
                self.wf(),
                !self@.backend.shutdown,
                self@ == (BrokerView::<T> { backend: with_topics(old(self)@.backend, ts.take(i as int), n), ..old(self)@ }),
            decreases topics@.len() - i,
        {
            let _ = self.ensure_topic(topics[i].as_str(), n);
            proof {
                assert(ts.take(i + 1).drop_last() =~= ts.take(i as int));
                assert(ts.take(i + 1).last() == topics@[i as int]@);
            }
            i += 1;
        }
        proof {
            assert(ts.take(i as int) =~= ts);
            lemma_with_topics(old(self)@.backend, ts, n);
        }
        let ghost b1 = self@.backend;
        let mut counts: Vec<(String, i32)> = Vec::new();
        let mut j: usize = 0;
        while j < topics.len()
            invariant
                0 <= j <= topics@.len(),
                ts == strings_view(topics@),
                self.wf(),
                !self@.backend.shutdown,
                self@.backend == b1,
                forall|k: int| 0 <= k < ts.len() ==> #[trigger] b1.find(ts[k]) is Some,
                counts_view(counts@) == topic_counts(b1, ts).take(j as int),
            decreases topics@.len() - j,
        {
            proof {
                assert(ts[j as int] == topics@[j as int]@);
            }
            let c = self.partition_count_of(topics[j].as_str());
            let ghost before = counts@;
            counts.push((copy_string(&topics[j]), c));
            proof {
                assert(counts_view(counts@) =~= counts_view(before).push((ts[j as int], c)));
                assert(topic_counts(b1, ts).take(j + 1) =~= topic_counts(b1, ts).take(j as int).push((ts[j as int], c)));
            }
            j += 1;
        }
        proof {
            assert(topic_counts(b1, ts).take(j as int) =~= topic_counts(b1, ts));
        }
        let ghost gs = self@.groups;
        let ghost ids = group_ids(gs);
        match self.group_position(group_id) {
            Some(gi) => {
                let ghost old_groups = self.groups@;
                let mut g = self.groups.remove(gi);
                proof {
                    assert(g == old_groups[gi as int]);
                }
                let r = g.join(member_id, topics, &counts);
                self.groups.insert(gi, g);
                proof {
                    assert(self.groups@ =~= old_groups.update(gi as int, g));
                    assert(self@.groups =~= gs.update(gi as int, g@));
                    assert(group_ids(self@.groups) =~= ids);
                    assert forall|k: int| 0 <= k < self.groups@.len() implies (#[trigger] self.groups@[k]).wf() by {
                        if k != gi {
                            assert(self.groups@[k] == old_groups[k]);
                        }
                    }
                }
                r
            },
            None => {
                let mut g = ConsumerGroup::new(group_id.to_owned());
                let r = g.join(member_id, topics, &counts);
                let ghost old_groups = self.groups@;
                self.groups.push(g);
                proof {
                    assert(self@.groups =~= gs.push(g@));
                    lemma_index_of(ids, group_id@);
                    let nids = group_ids(self@.groups);
                    assert(nids =~= ids.push(group_id@));
                    assert forall|a: int, b: int| 0 <= a < nids.len() && 0 <= b < nids.len() && a != b implies nids[a] != nids[b] by {
                        if a < ids.len() && b < ids.len() {
                            assert(nids[a] == ids[a] && nids[b] == ids[b]);
                        }
                    }
                    assert forall|k: int| 0 <= k < self.groups@.len() implies (#[trigger] self.groups@[k]).wf() by {
                        if k < old_groups.len() {
                            assert(self.groups@[k] == old_groups[k]);
                        }
                    }
                }
                r
            },
        }
    }

    /// Removes member `member_id` from group `group_id` and rebalances the group over
    /// the partition counts of all topics.
    pub fn leave_group(&mut self, group_id: &str, member_id: &str) -> (r: RmqResult<()>)
        requires
            old(self).wf(),
        ensures
            final(self).wf(),
            old(self)@.backend.shutdown ==> (r matches Err(RmqError::BrokerShutdown) && final(self)@ == old(self)@),
            !old(self)@.backend.shutdown && old(self)@.find_group(group_id@) is None ==> (r matches Err(e)
                && is_group_not_found(e, group_id@) && final(self)@ == old(self)@),
            !old(self)@.backend.shutdown && old(self)@.find_group(group_id@) is Some ==> (r is Ok
                && final(self)@ == broker_left(old(self)@, group_id@, member_id@)),
    {
        self.check_shutdown()?;
        let gi = match self.group_position(group_id) {
            Some(gi) => gi,
            None => return Err(RmqError::GroupNotFound(group_id.to_owned())),
        };
        let meta = match self.backend.metadata(self.config.broker_id.as_str(), None) {
            Ok(m) => m,
            Err(e) => return Err(e),
        };
        proof {
            self.backend.lemma_wf_valid(group_id@);
        }
        let ghost b = self@.backend;
        let mut counts: Vec<(String, i32)> = Vec::new();
        let mut j: usize = 0;
        while j < meta.topics.len()
            invariant
                0 <= j <= meta.topics@.len(),
                meta.topics@.len() == b.topics.len(),
                b.valid(),
                forall|i: int| 0 <= i < b.topics.len() ==> describes(#[trigger] meta.topics@[i], b.topics[i]),
                counts_view(counts@) == all_counts(b).take(j as int),
            decreases meta.topics@.len() - j,
        {
            let tm = &meta.topics[j];
            proof {
                assert(describes(meta.topics@[j as int], b.topics[j as int]));
                assert(b.topics[j as int].valid());
            }
            let c = tm.partitions.len() as i32;
            let ghost before = counts@;
            counts.push((copy_string(&tm.name), c));
            proof {
                assert(counts_view(counts@) =~= counts_view(before).push((b.topics[j as int].name, c)));
                assert(all_counts(b).take(j + 1) =~= all_counts(b).take(j as int).push(all_counts(b)[j as int]));
            }
            j += 1;
        }
        proof {
            assert(all_counts(b).take(j as int) =~= all_counts(b));
        }
        let ghost gs = self@.groups;
        let ghost ids = group_ids(gs);
        let ghost old_groups = self.groups@;
        let mut g = self.groups.remove(gi);
        proof {
            assert(g == old_groups[gi as int]);
        }
        let r = g.leave(member_id, &counts);
        self.groups.insert(gi, g);
        proof {
            assert(self.groups@ =~= old_groups.update(gi as int, g));
            assert(self@.groups =~= gs.update(gi as int, g@));
            assert(group_ids(self@.groups) =~= ids);
            assert forall|k: int| 0 <= k < self.groups@.len() implies (#[trigger] self.groups@[k]).wf() by {
                if k != gi {
                    assert(self.groups@[k] == old_groups[k]);
                }
            }
        }
        r
    }

    /// Commits `offset` for group `group_id` on `topic`/`partition`.
    pub fn commit_offset(&mut self, group_id: &str, topic: &str, partition: i32, offset: i64) -> (r: RmqResult<()>)
        requires
            old(self).wf(),
        ensures
            final(self).wf(),
            old(self)@.backend.shutdown ==> (r matches Err(RmqError::BrokerShutdown) && final(self)@ == old(self)@),
            !old(self)@.backend.shutdown && old(self)@.find_group(group_id@) is None ==> (r matches Err(e)
                && is_group_not_found(e, group_id@) && final(self)@ == old(self)@),
            !old(self)@.backend.shutdown && old(self)@.find_group(group_id@) is Some ==> r is Ok
                && final(self)@ == (BrokerView::<T> {
                    offsets: old(self)@.offsets.insert((group_id@, topic@, partition), offset),
                    ..old(self)@
                }),
    {
        self.check_shutdown()?;
        let gi = match self.group_position(group_id) {
            Some(gi) => gi,
            None => return Err(RmqError::GroupNotFound(group_id.to_owned())),
        };
        proof {
            lemma_index_of(group_ids(self@.groups), group_id@);
            assert(group_ids(self@.groups)[gi as int] == self.groups@[gi as int]@.id);
        }
        let r = self.groups[gi].commit_offset(&mut self.offset_store, topic, partition, offset);
        proof {
            assert(self@.groups == old(self)@.groups);
        }
        r
    }

    /// The offset committed by group `group_id` on `topic`/`partition`, if any.
    pub fn committed_offset(&self, group_id: &str, topic: &str, partition: i32) -> (r: RmqResult<Option<i64>>)
        requires
            self.wf(),
        ensures
            self@.backend.shutdown ==> r matches Err(RmqError::BrokerShutdown),
            !self@.backend.shutdown && self@.find_group(group_id@) is None ==> (r matches Err(e) && is_group_not_found(e, group_id@)),
            !self@.backend.shutdown && self@.find_group(group_id@) is Some ==> r == Ok::<Option<i64>, RmqError>(
                self@.committed(group_id@, topic@, partition),
            ),
    {
        self.check_shutdown()?;
        let gi = match self.group_position(group_id) {
            Some(gi) => gi,
            None => return Err(RmqError::GroupNotFound(group_id.to_owned())),
        };
        proof {
            lemma_index_of(group_ids(self@.groups), group_id@);
            assert(group_ids(self@.groups)[gi as int] == self.groups@[gi as int]@.id);
        }
        self.groups[gi].committed_offset(&self.offset_store, topic, partition)
    }
}


impl<T> FromRmqConfig for Broker<T, RoundRobinPartitioner> {
    /// A broker created from a copy of `config`, as [`Broker::new`] creates it.
    fn from_config(config: &RmqClientConfig) -> (r: RmqResult<Self>)
        ensures
            match broker_config_spec(config@) {
                Err(m) => r matches Err(RmqError::InvalidConfig(t)) && t@ == m,
                Ok(v) => r matches Ok(b) && b.wf() && b@.settings == v && b@.client == config@
                    && b@.backend.topics.len() == 0 && !b@.backend.shutdown
                    && b@.groups.len() == 0 && b@.offsets == Map::<OffsetKey, i64>::empty(),
            },
    {
        Broker::new(config.copy_config())
    }
}

} // verus!
