use vstd::prelude::*;
use std::sync::Arc;
use crate::bytes::opt_bytes;
use crate::clock::unix_millis_now;
use crate::config::BrokerConfig;
use crate::error::{RmqError, RmqResult, is_topic_not_found, is_partition_out_of_range, is_offset_out_of_range};
use crate::headers::{OwnedHeaders, opt_headers};
use crate::keys::{index_of, distinct, lemma_index_of, lemma_index_of_at, lemma_index_of_distinct};
use crate::message::{StoredMessage, MessageView};
use crate::metadata::{Metadata, PartitionMetadata, TopicMetadata};
use crate::partition::{PartitionConfig, log_view};
use crate::topic::{Topic, TopicView, created_count, fresh_partition, produced, fetched_one};
use crate::topic_partition::{copy_string, same_text};

verus! {

/// The abstract content of the in-memory backend.
pub struct BackendView<T> {
    /// The topics, in creation order.
    pub topics: Seq<TopicView<T>>,
    /// Whether the backend has been shut down.
    pub shutdown: bool,
    /// The settings given to the partitions of newly created topics.
    pub partition_config: PartitionConfig,
}

/// The names of a sequence of topics.
pub open spec fn topic_names<T>(topics: Seq<TopicView<T>>) -> Seq<Seq<char>> {
    topics.map_values(|t: TopicView<T>| t.name)
}

impl<T> BackendView<T> {
    /// The position of the topic named `name`, if it exists.
    pub open spec fn find(self, name: Seq<char>) -> Option<int> {
        index_of(topic_names(self.topics), name)
    }

    /// The backend invariant: valid topics with distinct names.
    pub open spec fn valid(self) -> bool {
        &&& distinct(topic_names(self.topics))
        &&& forall|i: int| 0 <= i < self.topics.len() ==> (#[trigger] self.topics[i]).valid()
    }

    /// The topic named `name` (meaningful where it exists).
    pub open spec fn topic(self, name: Seq<char>) -> TopicView<T> {
        self.topics[self.find(name)->0]
    }
}

/// A new topic named `name` with `n` fresh partitions configured by `config`.
pub open spec fn fresh_topic<T>(name: Seq<char>, n: i32, config: PartitionConfig) -> TopicView<T> {
    TopicView {
        name,
        partition_count: n,
        partitions: Seq::new(created_count(n) as nat, |i: int| fresh_partition::<T>(name, i, config)),
    }
}

/// Whether the topic metadata `md` describes topic `t`: its name, no error, and for each
/// partition its index, watermarks and number of retained messages.
pub open spec fn describes<T>(md: TopicMetadata, t: TopicView<T>) -> bool {
    &&& md.name@ == t.name
    &&& md.error is None
    &&& md.partitions@.len() == t.partitions.len()
    &&& forall|i: int| 0 <= i < t.partitions.len() ==> {
        &&& (#[trigger] md.partitions@[i]).id == i
        &&& md.partitions@[i].oldest_offset == t.partitions[i].watermarks().0
        &&& md.partitions@[i].newest_offset == t.partitions[i].watermarks().1
        &&& md.partitions@[i].message_count == t.partitions[i].log.len()
    }
}

/// The timestamp a produce call records: the one returned on success, otherwise the one
/// requested (or `0`).
pub open spec fn produced_ts(r: RmqResult<(i32, i64, i64)>, timestamp: Option<i64>) -> i64 {
    match r {
        Ok(x) => x.2,
        Err(_) => match timestamp {
            Some(t) => t,
            None => 0,
        },
    }
}

/// The `(partition, offset)` part of a produce outcome.
pub open spec fn without_ts(r: RmqResult<(i32, i64, i64)>) -> RmqResult<(i32, i64)> {
    match r {
        Ok(x) => Ok((x.0, x.1)),
        Err(e) => Err(e),
    }
}

/// `b` is backend `a` after producing to `topic`/`partition` with outcome `r`: refused
/// when shut down or when the topic does not exist, otherwise as the topic produces, with
/// every other topic unchanged; the message meets `content` and carries the timestamp of
/// the outcome, which is the requested one when given.
pub open spec fn backend_produced<T>(
    a: BackendView<T>,
    b: BackendView<T>,
    topic: Seq<char>,
    partition: i32,
    timestamp: Option<i64>,
    r: RmqResult<(i32, i64, i64)>,
    content: spec_fn(MessageView<T>) -> bool,
) -> bool {
    if a.shutdown {
        r matches Err(RmqError::BrokerShutdown) && b == a
    } else if a.find(topic) is None {
        r matches Err(e) && is_topic_not_found(e, topic) && b == a
    } else {
        let i = a.find(topic)->0;
        let ts = produced_ts(r, timestamp);
        &&& timestamp matches Some(t) ==> ts == t
        &&& b.shutdown == a.shutdown
        &&& b.partition_config == a.partition_config
        &&& b.topics.len() == a.topics.len()
        &&& forall|j: int| 0 <= j < a.topics.len() && j != i ==> b.topics[j] == a.topics[j]
        &&& produced(a.topics[i], b.topics[i], partition, without_ts(r), |m: MessageView<T>| content(m) && m.timestamp == ts)
    }
}

/// The in-memory broker backend storing all data on the heap.
pub struct InMemoryBackend<T> {
    topics: Vec<Topic<T>>,
    shutdown: bool,
    config: BrokerConfig,
}

impl<T> View for InMemoryBackend<T> {
    type V = BackendView<T>;

    closed spec fn view(&self) -> BackendView<T> {
        BackendView {
            topics: self.topics@.map_values(|t: Topic<T>| t@),
            shutdown: self.shutdown,
            partition_config: PartitionConfig {
                max_capacity: self.config.buffer_capacity,
                retention_ms: self.config.retention_ms,
                retention_capacity: self.config.retention_capacity,
            },
        }
    }
}

impl<T> InMemoryBackend<T> {
    /// The backend invariant: valid topics with distinct names.
    pub closed spec fn wf(&self) -> bool {
        &&& self@.valid()
        &&& forall|i: int| 0 <= i < self.topics@.len() ==> (#[trigger] self.topics@[i]).wf()
    }

    /// A well-formed backend's view is valid, and each existing topic holds at most
    /// `i32::MAX` partitions.
    pub proof fn lemma_wf_valid(&self, name: Seq<char>)
        requires
            self.wf(),
        ensures
            self@.valid(),
            self@.find(name) is Some ==> {
                &&& 0 <= self@.find(name)->0 < self@.topics.len()
                &&& self@.topic(name).valid()
                &&& self@.topic(name).name == name
                &&& self@.topic(name).partitions.len() <= i32::MAX
            },
    {
        lemma_index_of(topic_names(self@.topics), name);
        if self@.find(name) is Some {
            let i = self@.find(name)->0;
            assert(self@.topics[i].valid());
            assert(topic_names(self@.topics)[i] == self@.topics[i].name);
        }
    }

    /// An empty backend whose topics take their partition settings from `config`.
    pub fn new(config: BrokerConfig) -> (r: Self)
        ensures
            r.wf(),
            r@.topics == Seq::<TopicView<T>>::empty(),
            !r@.shutdown,
            r@.partition_config == (PartitionConfig {
                max_capacity: config.buffer_capacity,
                retention_ms: config.retention_ms,
                retention_capacity: config.retention_capacity,
            }),
    {
        let r = Self { topics: Vec::new(), shutdown: false, config };
        assert(r@.topics =~= Seq::<TopicView<T>>::empty());
        assert(topic_names(r@.topics) =~= Seq::<Seq<char>>::empty());
        r
    }

    /// Fails with [`RmqError::BrokerShutdown`] once the backend has been shut down.
    pub fn check_shutdown(&self) -> (r: RmqResult<()>)
        ensures
            self@.shutdown ==> r matches Err(RmqError::BrokerShutdown),
            !self@.shutdown ==> r is Ok,
    {
        if self.shutdown {
            Err(RmqError::BrokerShutdown)
        } else {
            Ok(())
        }
    }

    /// The settings given to the partitions of newly created topics.
    pub fn make_partition_config(&self) -> (r: PartitionConfig)
        ensures
            r == self@.partition_config,
    {
        PartitionConfig {
            max_capacity: self.config.buffer_capacity,
            retention_ms: self.config.retention_ms,
            retention_capacity: self.config.retention_capacity,
        }
    }

    /// The position of the topic named `topic`, if it exists.
    fn position(&self, topic: &str) -> (r: Option<usize>)
        ensures
            match r {
                Some(i) => self@.find(topic@) == Some(i as int) && i < self.topics@.len(),
                None => self@.find(topic@) is None,
            },
    {
        let ghost names = topic_names(self@.topics);
        proof {
            lemma_index_of(names, topic@);
        }
        let mut i: usize = 0;
        while i < self.topics.len()
            invariant
                0 <= i <= self.topics@.len(),
                names == topic_names(self@.topics),
                self@.topics.len() == self.topics@.len(),
                forall|j: int| 0 <= j < i ==> names[j] != topic@,
            decreases self.topics.len() - i,
        {
            proof {
                assert(names[i as int] == self.topics@[i as int]@.name);
            }
            if same_text_str(self.topics[i].name(), topic) {
                proof {
                    lemma_index_of_at(names, topic@, i as int);
                }
                return Some(i);
            }
            i += 1;
        }
        None
    }

    /// Returns the topic named `topic`, or [`RmqError::TopicNotFound`].
    pub fn get_topic(&self, topic: &str) -> (r: RmqResult<&Topic<T>>)
        requires
            self.wf(),
        ensures
            match self@.find(topic@) {
                Some(i) => r matches Ok(t) && t@ == self@.topics[i] && t.wf(),
                None => r matches Err(e) && is_topic_not_found(e, topic@),
            },
    {
        match self.position(topic) {
            Some(i) => Ok(&self.topics[i]),
            None => Err(RmqError::TopicNotFound(topic.to_owned())),
        }
    }

    /// The metadata of `topic`: for each partition, its watermarks and message count.
    pub fn topic_metadata(&self, topic: &Topic<T>) -> (r: TopicMetadata)
        requires
            topic.wf(),
        ensures
            describes(r, topic@),
    {
        let num_partitions = topic.partition_count();
        proof {
            topic.lemma_wf_valid();
        }
        let mut partitions: Vec<PartitionMetadata> = Vec::new();
        let mut i: i32 = 0;
        while i < num_partitions
            invariant
                topic.wf(),
                num_partitions == topic@.partition_count,
                topic@.partitions.len() == created_count(num_partitions),
                topic@.valid(),
                0 <= i,
                num_partitions >= 0 ==> i <= num_partitions,
                num_partitions < 0 ==> i == 0,
                partitions@.len() == i,
                forall|j: int| 0 <= j < i ==> {
                    &&& (#[trigger] partitions@[j]).id == j
                    &&& partitions@[j].oldest_offset == topic@.partitions[j].watermarks().0
                    &&& partitions@[j].newest_offset == topic@.partitions[j].watermarks().1
                    &&& partitions@[j].message_count == topic@.partitions[j].log.len()
                },
            decreases num_partitions - i,
        {
            let (oldest, newest) = match topic.watermarks(i) {
                Ok(w) => w,
                Err(_) => (0, -1),
            };
            let count = match topic.message_count(i) {
                Ok(c) => c,
                Err(_) => 0,
            };
            proof {
                assert(topic@.partitions[i as int].valid());
            }
            let ghost old_parts = partitions@;
            partitions.push(PartitionMetadata { id: i, oldest_offset: oldest, newest_offset: newest, message_count: count });
            proof {
                assert forall|j: int| 0 <= j < i + 1 implies {
                    &&& (#[trigger] partitions@[j]).id == j
                    &&& partitions@[j].oldest_offset == topic@.partitions[j].watermarks().0
                    &&& partitions@[j].newest_offset == topic@.partitions[j].watermarks().1
                    &&& partitions@[j].message_count == topic@.partitions[j].log.len()
                } by {
                    if j < i {
                        assert(partitions@[j] == old_parts[j]);
                    }
                }
            }
            i += 1;
        }
        TopicMetadata { name: topic.name().to_owned(), partitions, error: None }
    }

    /// Creates topic `topic` with `num_partitions` partitions unless it already exists.
    pub fn ensure_topic(&mut self, topic: &str, num_partitions: i32) -> (r: RmqResult<()>)
        requires
            old(self).wf(),
        ensures
            final(self).wf(),
            old(self)@.shutdown ==> (r matches Err(RmqError::BrokerShutdown) && final(self)@ == old(self)@),
            !old(self)@.shutdown && old(self)@.find(topic@) is Some ==> r is Ok && final(self)@ == old(self)@,
            !old(self)@.shutdown && old(self)@.find(topic@) is None ==> r is Ok && final(self)@ == (BackendView::<T> {
                topics: old(self)@.topics.push(fresh_topic(topic@, num_partitions, old(self)@.partition_config)),
                ..old(self)@
            }),
    {
        self.check_shutdown()?;
        if self.position(topic).is_some() {
            return Ok(());
        }
        let config = self.make_partition_config();
        let t = Topic::new(topic.to_owned(), num_partitions, config);
        let ghost old_topics = self.topics@;
        proof {
            assert(t@.partitions =~= fresh_topic::<T>(topic@, num_partitions, config).partitions);
        }
        self.topics.push(t);
        proof {
            let names = topic_names(self@.topics);
            assert(self@.topics =~= old(self)@.topics.push(t@));
            assert(names =~= topic_names(old(self)@.topics).push(topic@));
            lemma_index_of(topic_names(old(self)@.topics), topic@);
            assert forall|a: int, b: int| 0 <= a < names.len() && 0 <= b < names.len() && a != b
                implies names[a] != names[b] by {
                if a < old_topics.len() && b < old_topics.len() {
                    assert(names[a] == topic_names(old(self)@.topics)[a]);
                    assert(names[b] == topic_names(old(self)@.topics)[b]);
                }
            }
            assert forall|i: int| 0 <= i < self.topics@.len() implies (#[trigger] self.topics@[i]).wf() by {
                if i < old_topics.len() {
                    assert(self.topics@[i] == old_topics[i]);
                }
            }
            assert forall|i: int| 0 <= i < self@.topics.len() implies (#[trigger] self@.topics[i]).valid() by {
                assert(self@.topics[i] == self.topics@[i]@);
                self.topics@[i].lemma_wf_valid();
            }
        }
        Ok(())
    }

    /// After the topic at `i` was replaced by a well-formed topic of the same name, the
    /// backend invariant holds and only that topic's view changed.
    proof fn lemma_topic_replaced(&self, old_view: BackendView<T>, old_topics: Seq<Topic<T>>, i: int)
        requires
            old_view.valid(),
            old_view.topics == old_topics.map_values(|t: Topic<T>| t@),
            old_view.shutdown == self.shutdown,
            old_view.partition_config == self@.partition_config,
            0 <= i < old_topics.len(),
            self.topics@.len() == old_topics.len(),
            forall|j: int| 0 <= j < old_topics.len() && j != i ==> self.topics@[j] == old_topics[j],
            forall|j: int| 0 <= j < old_topics.len() ==> (#[trigger] old_topics[j]).wf(),
            self.topics@[i].wf(),
            self.topics@[i]@.name == old_topics[i]@.name,
        ensures
            self.wf(),
            self@ == (BackendView::<T> { topics: old_view.topics.update(i, self.topics@[i]@), ..old_view }),
    {
        assert(old_view.topics[i] == old_topics[i]@);
        assert(self@.topics =~= old_view.topics.update(i, self.topics@[i]@)) by {
            assert forall|j: int| 0 <= j < old_topics.len() && j != i implies self@.topics[j] == old_view.topics[j] by {
                assert(self@.topics[j] == self.topics@[j]@);
                assert(old_view.topics[j] == old_topics[j]@);
            }
        }
        assert(topic_names(self@.topics) =~= topic_names(old_view.topics));
        assert forall|j: int| 0 <= j < self.topics@.len() implies (#[trigger] self.topics@[j]).wf() by {
            if j != i {
                assert(self.topics@[j] == old_topics[j]);
            }
        }
        assert forall|j: int| 0 <= j < self@.topics.len() implies (#[trigger] self@.topics[j]).valid() by {
            assert(self@.topics[j] == self.topics@[j]@);
            self.topics@[j].lemma_wf_valid();
        }
    }

    /// Produces a raw message to `topic`/`partition`, returning `(partition, offset, timestamp)`;
    /// the timestamp is the requested one, or the current time.
    pub fn produce(
        &mut self,
        topic: &str,
        partition: i32,
        key: Option<Vec<u8>>,
        payload: Option<Vec<u8>>,
        headers: Option<OwnedHeaders>,
        timestamp: Option<i64>,
    ) -> (r: RmqResult<(i32, i64, i64)>)
        requires
            old(self).wf(),
        ensures
            final(self).wf(),
            backend_produced(old(self)@, final(self)@, topic@, partition, timestamp, r, |m: MessageView<T>|
                m.key == opt_bytes(key) && m.payload == opt_bytes(payload)
                && m.typed_payload is None && m.typed_key is None
                && m.headers == opt_headers(headers)),
    {
        self.check_shutdown()?;
        let ts = match timestamp {
            Some(t) => t,
            None => unix_millis_now(),
        };
        let i = match self.position(topic) {
            Some(i) => i,
            None => return Err(RmqError::TopicNotFound(topic.to_owned())),
        };
        let ghost old_topics = self.topics@;
        let mut t = self.topics.remove(i);
        proof {
            assert(old(self)@.topics[i as int] == t@);
        }
        let r = t.produce(partition, key, payload, headers, Some(ts));
        self.topics.insert(i, t);
        proof {
            self.lemma_topic_replaced(old(self)@, old_topics, i as int);
        }
        match r {
            Ok((p, o)) => Ok((p, o, ts)),
            Err(e) => Err(e),
        }
    }

    /// Produces a typed message to `topic`/`partition`, returning `(partition, offset, timestamp)`.
    pub fn produce_typed(
        &mut self,
        topic: &str,
        partition: i32,
        typed_payload: T,
        typed_key: Option<T>,
        headers: Option<OwnedHeaders>,
        timestamp: Option<i64>,
    ) -> (r: RmqResult<(i32, i64, i64)>)
        requires
            old(self).wf(),
        ensures
            final(self).wf(),
            backend_produced(old(self)@, final(self)@, topic@, partition, timestamp, r, |m: MessageView<T>|
                m.key is None && m.payload is None
                && m.typed_payload == Some(typed_payload) && m.typed_key == typed_key
                && m.headers == opt_headers(headers)),
    {
        self.check_shutdown()?;
        let ts = match timestamp {
            Some(t) => t,
            None => unix_millis_now(),
        };
        let i = match self.position(topic) {
            Some(i) => i,
            None => return Err(RmqError::TopicNotFound(topic.to_owned())),
        };
        let ghost old_topics = self.topics@;
        let mut t = self.topics.remove(i);
        proof {
            assert(old(self)@.topics[i as int] == t@);
        }
        let r = t.produce_typed(partition, typed_payload, typed_key, headers, Some(ts));
        self.topics.insert(i, t);
        proof {
            self.lemma_topic_replaced(old(self)@, old_topics, i as int);
        }
        match r {
            Ok((p, o)) => Ok((p, o, ts)),
            Err(e) => Err(e),
        }
    }

    /// Reads up to `max_count` messages of `topic`/`partition` from `offset`.
    pub fn fetch(&self, topic: &str, partition: i32, offset: i64, max_count: usize) -> (r: RmqResult<Vec<Arc<StoredMessage<T>>>>)
        requires
            self.wf(),
        ensures
            backend_fetched(self@, topic@, partition, offset, max_count, r),
    {
        self.check_shutdown()?;
        let t = self.get_topic(topic)?;
        proof {
            lemma_index_of(topic_names(self@.topics), topic@);
            assert(topic_names(self@.topics)[self@.find(topic@)->0] == t@.name);
        }
        t.fetch(partition, offset, max_count)
    }

    /// Reads the message of `topic`/`partition` at `offset`.
    pub fn fetch_one(&self, topic: &str, partition: i32, offset: i64) -> (r: RmqResult<Option<Arc<StoredMessage<T>>>>)
        requires
            self.wf(),
        ensures
            backend_fetched_one(self@, topic@, partition, offset, r),
    {
        self.check_shutdown()?;
        let t = self.get_topic(topic)?;
        proof {
            lemma_index_of(topic_names(self@.topics), topic@);
            assert(topic_names(self@.topics)[self@.find(topic@)->0] == t@.name);
        }
        t.fetch_one(partition, offset)
    }

    /// Returns the watermarks `(oldest, newest)` of `topic`/`partition`.
    pub fn watermarks(&self, topic: &str, partition: i32) -> (r: RmqResult<(i64, i64)>)
        requires
            self.wf(),
        ensures
            backend_watermarks(self@, topic@, partition, r),
    {
        self.check_shutdown()?;
        let t = self.get_topic(topic)?;
        proof {
            lemma_index_of(topic_names(self@.topics), topic@);
            assert(topic_names(self@.topics)[self@.find(topic@)->0] == t@.name);
        }
        t.watermarks(partition)
    }

    /// The number of partitions `topic` holds.
    pub fn partition_total(&self, topic: &str) -> (r: RmqResult<i32>)
        requires
            self.wf(),
        ensures
            self@.shutdown ==> r matches Err(RmqError::BrokerShutdown),
            !self@.shutdown && self@.find(topic@) is None ==> (r matches Err(e) && is_topic_not_found(e, topic@)),
            !self@.shutdown && self@.find(topic@) is Some ==> r == Ok::<i32, RmqError>(self@.topic(topic@).partitions.len() as i32),
    {
        self.check_shutdown()?;
        let t = self.get_topic(topic)?;
        proof {
            t.lemma_wf_valid();
        }
        let n = t.partition_count();
        if n < 0 { Ok(0) } else { Ok(n) }
    }

    /// Returns metadata for topic `topic` when given (or [`RmqError::TopicNotFound`]),
    /// otherwise for every topic in creation order.
    pub fn metadata(&self, broker_id: &str, topic: Option<&str>) -> (r: RmqResult<Metadata>)
        requires
            self.wf(),
        ensures
            metadata_outcome(self@, broker_id@, opt_text(topic), r),
    {
        self.check_shutdown()?;
        let topics = match topic {
            Some(name) => {
                let t = self.get_topic(name)?;
                let mut v: Vec<TopicMetadata> = Vec::new();
                v.push(self.topic_metadata(t));
                v
            },
            None => {
                let mut v: Vec<TopicMetadata> = Vec::new();
                let mut i: usize = 0;
                while i < self.topics.len()
                    invariant
                        self.wf(),
                        0 <= i <= self.topics@.len(),
                        v@.len() == i,
                        forall|j: int| 0 <= j < i ==> describes(#[trigger] v@[j], self@.topics[j]),
                    decreases self.topics@.len() - i,
                {
                    proof {
                        assert(self.topics@[i as int].wf());
                        assert(self@.topics[i as int] == self.topics@[i as int]@);
                    }
                    let md = self.topic_metadata(&self.topics[i]);
                    let ghost old_v = v@;
                    v.push(md);
                    proof {
                        assert forall|j: int| 0 <= j < i + 1 implies describes(#[trigger] v@[j], self@.topics[j]) by {
                            if j < i {
                                assert(v@[j] == old_v[j]);
                            }
                        }
                    }
                    i += 1;
                }
                v
            },
        };
        Ok(Metadata { broker_id: broker_id.to_owned(), topics })
    }

    /// Shuts the backend down: every later operation is refused.
    pub fn shutdown(&mut self) -> (r: RmqResult<()>)
        requires
            old(self).wf(),
        ensures
            final(self).wf(),
            r is Ok,
            final(self)@ == (BackendView::<T> { shutdown: true, ..old(self)@ }),
    {
        self.shutdown = true;
        Ok(())
    }
}

/// An optional text as an optional character sequence.
pub open spec fn opt_text(o: Option<&str>) -> Option<Seq<char>> {
    match o {
        Some(s) => Some(s@),
        None => None,
    }
}

/// The outcome of a metadata request to backend `b` for broker `broker_id`: for topic
/// `topic` when given (refused when it does not exist), otherwise for every topic in
/// creation order.
pub open spec fn metadata_outcome<T>(b: BackendView<T>, broker_id: Seq<char>, topic: Option<Seq<char>>, r: RmqResult<Metadata>) -> bool {
    if b.shutdown {
        r matches Err(RmqError::BrokerShutdown)
    } else {
        match topic {
            Some(name) => match b.find(name) {
                None => r matches Err(e) && is_topic_not_found(e, name),
                Some(i) => r matches Ok(md) && md.broker_id@ == broker_id && md.topics@.len() == 1
                    && describes(md.topics@[0], b.topics[i]),
            },
            None => r matches Ok(md) && md.broker_id@ == broker_id && md.topics@.len() == b.topics.len()
                && forall|i: int| 0 <= i < b.topics.len() ==> describes(#[trigger] md.topics@[i], b.topics[i]),
        }
    }
}

/// The outcome of reading up to `max_count` messages of `topic`/`partition` from `offset`
/// in backend `b`.
pub open spec fn backend_fetched<T>(b: BackendView<T>, topic: Seq<char>, partition: i32, offset: i64, max_count: usize, r: RmqResult<Vec<Arc<StoredMessage<T>>>>) -> bool {
    if b.shutdown {
        r matches Err(RmqError::BrokerShutdown)
    } else if b.find(topic) is None {
        r matches Err(e) && is_topic_not_found(e, topic)
    } else {
        let t = b.topic(topic);
        &&& !t.has_partition(partition) ==> (r matches Err(e) && is_partition_out_of_range(e, topic, partition))
        &&& t.has_partition(partition) ==> match t.partitions[partition as int].locate(offset as int) {
            None => r matches Err(e) && is_offset_out_of_range(e, topic, partition, offset),
            Some(None) => r matches Ok(v) && v@.len() == 0,
            Some(Some(i)) => r matches Ok(v) && log_view(v@) == t.partitions[partition as int].log.subrange(
                i,
                if i + max_count <= t.partitions[partition as int].log.len() {
                    i + max_count
                } else {
                    t.partitions[partition as int].log.len() as int
                },
            ),
        }
    }
}

/// Backend `b` after making sure topic `t` exists, created with `n` partitions if new.
pub open spec fn with_topic<T>(b: BackendView<T>, t: Seq<char>, n: i32) -> BackendView<T> {
    if b.find(t) is Some {
        b
    } else {
        BackendView { topics: b.topics.push(fresh_topic(t, n, b.partition_config)), ..b }
    }
}

/// Backend `b` after making sure each of `ts` exists, in order.
pub open spec fn with_topics<T>(b: BackendView<T>, ts: Seq<Seq<char>>, n: i32) -> BackendView<T>
    decreases ts.len(),
{
    if ts.len() == 0 {
        b
    } else {
        with_topic(with_topics(b, ts.drop_last(), n), ts.last(), n)
    }
}

/// The partition count of each of `ts` in backend `b`.
pub open spec fn topic_counts<T>(b: BackendView<T>, ts: Seq<Seq<char>>) -> Seq<(Seq<char>, i32)> {
    ts.map_values(|t: Seq<char>| (t, b.topic(t).partitions.len() as i32))
}

/// The name and partition count of every topic of backend `b`, in creation order.
pub open spec fn all_counts<T>(b: BackendView<T>) -> Seq<(Seq<char>, i32)> {
    b.topics.map_values(|t: TopicView<T>| (t.name, t.partitions.len() as i32))
}

/// Making sure a topic exists keeps every existing topic where it is, and the topic
/// exists afterwards.
pub proof fn lemma_with_topic<T>(b: BackendView<T>, t: Seq<char>, n: i32)
    ensures
        with_topic(b, t, n).find(t) is Some,
        forall|u: Seq<char>| #[trigger] b.find(u) is Some ==> with_topic(b, t, n).find(u) == b.find(u),
        with_topic(b, t, n).topics.len() >= b.topics.len(),
        forall|i: int| 0 <= i < b.topics.len() ==> #[trigger] with_topic(b, t, n).topics[i] == b.topics[i],
        with_topic(b, t, n).shutdown == b.shutdown,
        with_topic(b, t, n).partition_config == b.partition_config,
{
    lemma_index_of(topic_names(b.topics), t);
    if b.find(t) is None {
        let c = with_topic(b, t, n);
        assert(topic_names(c.topics) =~= topic_names(b.topics).push(t));
        crate::keys::lemma_index_of_push(topic_names(b.topics), t, t);
        assert forall|u: Seq<char>| #[trigger] b.find(u) is Some implies c.find(u) == b.find(u) by {
            crate::keys::lemma_index_of_push(topic_names(b.topics), t, u);
        }
    }
}

/// After making sure each of `ts` exists, each of them does, and earlier topics stay.
pub proof fn lemma_with_topics<T>(b: BackendView<T>, ts: Seq<Seq<char>>, n: i32)
    ensures
        forall|k: int| 0 <= k < ts.len() ==> #[trigger] with_topics(b, ts, n).find(ts[k]) is Some,
        forall|u: Seq<char>| #[trigger] b.find(u) is Some ==> with_topics(b, ts, n).find(u) == b.find(u),
        with_topics(b, ts, n).shutdown == b.shutdown,
        with_topics(b, ts, n).partition_config == b.partition_config,
    decreases ts.len(),
{
    if ts.len() > 0 {
        let init = ts.drop_last();
        lemma_with_topics(b, init, n);
        let c = with_topics(b, init, n);
        lemma_with_topic(c, ts.last(), n);
        assert forall|k: int| 0 <= k < ts.len() implies #[trigger] with_topics(b, ts, n).find(ts[k]) is Some by {
            if k < ts.len() - 1 {
                assert(ts[k] == init[k]);
                assert(c.find(init[k]) is Some);
            }
        }
    }
}

/// The outcome of reading `topic`/`partition` at `offset` from backend `b`.
pub open spec fn backend_fetched_one<T>(b: BackendView<T>, topic: Seq<char>, partition: i32, offset: i64, r: RmqResult<Option<Arc<StoredMessage<T>>>>) -> bool {
    if b.shutdown {
        r matches Err(RmqError::BrokerShutdown)
    } else if b.find(topic) is None {
        r matches Err(e) && is_topic_not_found(e, topic)
    } else {
        fetched_one(b.topic(topic), partition, offset, r)
    }
}

/// The outcome of reading the watermarks of `topic`/`partition` from backend `b`.
pub open spec fn backend_watermarks<T>(b: BackendView<T>, topic: Seq<char>, partition: i32, r: RmqResult<(i64, i64)>) -> bool {
    if b.shutdown {
        r matches Err(RmqError::BrokerShutdown)
    } else if b.find(topic) is None {
        r matches Err(e) && is_topic_not_found(e, topic)
    } else if !b.topic(topic).has_partition(partition) {
        r matches Err(e) && is_partition_out_of_range(e, topic, partition)
    } else {
        r matches Ok(w) && w.0 == b.topic(topic).partitions[partition as int].watermarks().0
            && w.1 == b.topic(topic).partitions[partition as int].watermarks().1
    }
}


/// Whether two strings hold the same characters.
pub fn same_text_str(a: &str, b: &str) -> (r: bool)
    ensures
        r == (a@ == b@),
{
    a.to_owned() == b.to_owned()
}


} // verus!
