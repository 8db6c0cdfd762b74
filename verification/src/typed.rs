use vstd::prelude::*;
use std::sync::Arc;
use crate::base_consumer::{
    BaseConsumer, ConsumerView, PollOutcome, polled, fresh_consumer, configured_group, texts,
    subscribe_outcome, unsubscribe_outcome, seek_outcome, consumer_commit_outcome,
};
use crate::broker::{Broker, RecordMetadata, broker_produced, record_outcome, produce_width, partitioner_after, known_choice, partitioner_known};
use crate::config::RmqClientConfig;
use crate::consumer::CommitMode;
use crate::context::{ConsumerContext, DefaultConsumerContext};
use crate::error::{RmqError, RmqResult};
use crate::headers::{OwnedHeaders, opt_headers};
use crate::message::{StoredMessage, MessageView};
use crate::partitioner::Partitioner;
use crate::topic_partition::{TopicPartitionList, Offset};

verus! {

/// A borrowed message with a typed payload and key, shared with the storage.
pub struct TypedBorrowedMessage<'a, T> {
    inner: Arc<StoredMessage<T>>,
    _marker: std::marker::PhantomData<&'a ()>,
}

impl<'a, T> View for TypedBorrowedMessage<'a, T> {
    type V = MessageView<T>;

    closed spec fn view(&self) -> MessageView<T> {
        (*self.inner)@
    }
}

impl<'a, T> TypedBorrowedMessage<'a, T> {
    /// A typed message sharing the stored message `inner`.
    pub fn new(inner: Arc<StoredMessage<T>>) -> (r: Self)
        ensures
            r@ == (*inner)@,
    {
        Self { inner, _marker: std::marker::PhantomData }
    }

    /// The shared stored message behind this typed message.
    pub fn inner_arc(&self) -> (r: &Arc<StoredMessage<T>>)
        ensures
            (**r)@ == self@,
    {
        &self.inner
    }

    /// Returns the typed payload, which a typed message always carries.
    pub fn payload(&self) -> (r: &T)
        requires
            self@.typed_payload is Some,
        ensures
            *r == self@.typed_payload->0,
    {
        self.inner.typed_payload_ref().unwrap()
    }

    /// Returns the typed key, or `None` if no key was set.
    pub fn key(&self) -> (r: Option<&T>)
        ensures
            r == match self@.typed_key {
                Some(k) => Some(&k),
                None => None::<&T>,
            },
    {
        self.inner.typed_key_ref()
    }

    /// Returns the topic name.
    pub fn topic(&self) -> (r: &str)
        ensures
            r@ == self@.topic,
    {
        self.inner.topic()
    }

    /// Returns the partition id.
    pub fn partition(&self) -> (r: i32)
        ensures
            r == self@.partition,
    {
        self.inner.partition()
    }

    /// Returns the message offset within its partition.
    pub fn offset(&self) -> (r: i64)
        ensures
            r == self@.offset,
    {
        self.inner.offset()
    }

    /// Returns the message timestamp (milliseconds since the Unix epoch).
    pub fn timestamp(&self) -> (r: i64)
        ensures
            r == self@.timestamp,
    {
        self.inner.timestamp()
    }

    /// Returns the message headers, if any were set.
    pub fn headers(&self) -> (r: Option<&OwnedHeaders>)
        ensures
            match r {
                Some(h) => self@.headers == Some(h@),
                None => self@.headers is None,
            },
    {
        self.inner.headers()
    }
}

/// A producer of typed messages: payloads and keys are stored as they are, with no
/// serialization.
#[derive(Clone, Copy, Debug)]
pub struct TypedProducer {
    _private: (),
}

impl TypedProducer {
    /// Creates a typed producer.
    pub fn new() -> (r: Self) {
        Self { _private: () }
    }

    /// Sends a typed message to `topic`, at a partition the broker's partitioner chooses.
    pub fn send<T, B: Partitioner>(&self, broker: &mut Broker<T, B>, topic: &str, payload: T, key: Option<T>) -> (r: RmqResult<RecordMetadata>)
        requires
            old(broker).wf(),
        ensures
            final(broker).wf(),
            broker_produced(old(broker)@, final(broker)@, topic@, None,
                known_choice(old(broker).partitioner_state(), topic@, None, produce_width(old(broker)@, topic@)),
                None, record_outcome(r), |m: MessageView<T>|
                m.key is None && m.payload is None && m.typed_payload == Some(payload) && m.typed_key == key
                && m.headers is None),
            r matches Ok(m) ==> m.topic@ == topic@,
            partitioner_known::<T, B>(old(broker)@, None)
                ==> final(broker).partitioner_state() == partitioner_after(old(broker).partitioner_state(), old(broker)@, topic@, None, None),
    {
        let ghost gp = payload;
        let ghost gk = key;
        let r = broker.produce_typed(topic, None, payload, key, None, None);
        proof {
            let given = |m: MessageView<T>| m.key is None && m.payload is None
                && m.typed_payload == Some(gp) && m.typed_key == gk && m.headers == opt_headers(None);
            let stated = |m: MessageView<T>| m.key is None && m.payload is None
                && m.typed_payload == Some(gp) && m.typed_key == gk && m.headers is None;
            assert(given =~= stated);
        }
        r
    }

    /// Sends a typed message to `topic`/`partition`.
    pub fn send_with_partition<T, B: Partitioner>(&self, broker: &mut Broker<T, B>, topic: &str, partition: i32, payload: T, key: Option<T>) -> (r: RmqResult<RecordMetadata>)
        requires
            old(broker).wf(),
        ensures
            final(broker).wf(),
            broker_produced(old(broker)@, final(broker)@, topic@, Some(partition),
                known_choice(old(broker).partitioner_state(), topic@, None, produce_width(old(broker)@, topic@)),
                None, record_outcome(r), |m: MessageView<T>|
                m.key is None && m.payload is None && m.typed_payload == Some(payload) && m.typed_key == key
                && m.headers is None),
            r matches Ok(m) ==> m.topic@ == topic@,
            partitioner_known::<T, B>(old(broker)@, Some(partition))
                ==> final(broker).partitioner_state() == partitioner_after(old(broker).partitioner_state(), old(broker)@, topic@, Some(partition), None),
    {
        broker.produce_typed(topic, Some(partition), payload, key, None, None)
    }

    /// Sends a typed message with headers to `topic`, at a partition the broker's
    /// partitioner chooses.
    pub fn send_with_headers<T, B: Partitioner>(
        &self,
        broker: &mut Broker<T, B>,
        topic: &str,
        payload: T,
        key: Option<T>,
        headers: OwnedHeaders,
    ) -> (r: RmqResult<RecordMetadata>)
        requires
            old(broker).wf(),
        ensures
            final(broker).wf(),
            broker_produced(old(broker)@, final(broker)@, topic@, None,
                known_choice(old(broker).partitioner_state(), topic@, None, produce_width(old(broker)@, topic@)),
                None, record_outcome(r), |m: MessageView<T>|
                m.key is None && m.payload is None && m.typed_payload == Some(payload) && m.typed_key == key
                && m.headers == Some(headers@)),
            r matches Ok(m) ==> m.topic@ == topic@,
            partitioner_known::<T, B>(old(broker)@, None)
                ==> final(broker).partitioner_state() == partitioner_after(old(broker).partitioner_state(), old(broker)@, topic@, None, None),
    {
        broker.produce_typed(topic, None, payload, key, Some(headers), None)
    }
}

/// The text of the error for a message that carries raw bytes rather than a typed payload.
pub open spec fn untyped_text() -> Seq<char> {
    "message has raw bytes payload, not typed"@
}

/// A consumer of typed messages, on top of a [`BaseConsumer`].
pub struct TypedConsumer<C = DefaultConsumerContext> {
    inner: BaseConsumer<C>,
}

impl<C> View for TypedConsumer<C> {
    type V = ConsumerView;

    closed spec fn view(&self) -> ConsumerView {
        self.inner@
    }
}

impl TypedConsumer<DefaultConsumerContext> {
    /// Creates a typed consumer with member id `member_id`, in the group that `config`
    /// names, if any.
    pub fn new(config: &RmqClientConfig, member_id: String) -> (r: Self)
        ensures
            r@ == fresh_consumer(configured_group(config@), member_id@),
    {
        Self { inner: BaseConsumer::new(config, member_id) }
    }
}

impl<C: ConsumerContext> TypedConsumer<C> {
    /// A new typed consumer sharing this consumer's context, with member id `member_id`
    /// and no group.
    pub fn fresh_copy(&self, member_id: String) -> (r: Self)
        ensures
            r@ == fresh_consumer(None, member_id@),
    {
        Self { inner: self.inner.fresh_copy(member_id) }
    }

    /// A copy of the subscribed topics.
    pub fn subscribed_topics(&self) -> (r: Vec<String>)
        ensures
            crate::partition_assignor::strings_view(r@) == self@.subscribed,
    {
        self.inner.subscribed_topics()
    }

    /// Reads at most one message as [`BaseConsumer::poll_once`] does; a message that
    /// carries no typed payload is reported as an error.
    pub fn poll_once<'b, T, P: Partitioner>(&mut self, broker: &'b Broker<T, P>) -> (r: Option<RmqResult<TypedBorrowedMessage<'b, T>>>)
        requires
            broker.wf(),
        ensures
            final(self)@ == polled(old(self)@, broker@).0,
            match polled(old(self)@, broker@).1 {
                PollOutcome::Idle => r is None,
                PollOutcome::Refused => r matches Some(Err(RmqError::BrokerShutdown)),
                PollOutcome::Delivered(m) => if m.typed_payload is Some {
                    r matches Some(Ok(t)) && t@ == m
                } else {
                    r matches Some(Err(RmqError::Custom(t))) && t@ == untyped_text()
                },
            },
    {
        match self.inner.poll_once(broker) {
            Some(Ok(msg)) => {
                let stored = msg.inner_arc().clone();
                if stored.has_typed_payload() {
                    Some(Ok(TypedBorrowedMessage { inner: stored, _marker: std::marker::PhantomData }))
                } else {
                    proof {
                        reveal_strlit("message has raw bytes payload, not typed");
                    }
                    Some(Err(RmqError::Custom("message has raw bytes payload, not typed".to_owned())))
                }
            },
            Some(Err(e)) => Some(Err(e)),
            None => None,
        }
    }

    /// Subscribes to `topics`, as [`BaseConsumer::subscribe`] does.
    pub fn subscribe<T, P: Partitioner>(&mut self, broker: &mut Broker<T, P>, topics: &[&str]) -> (r: RmqResult<()>)
        requires
            old(broker).wf(),
        ensures
            final(broker).wf(),
            subscribe_outcome(old(self)@, final(self)@, old(broker)@, final(broker)@, texts(topics@), r),
    {
        self.inner.subscribe(broker, topics)
    }

    /// Unsubscribes, as [`BaseConsumer::unsubscribe`] does.
    pub fn unsubscribe<T, P: Partitioner>(&mut self, broker: &mut Broker<T, P>) -> (r: RmqResult<()>)
        requires
            old(broker).wf(),
        ensures
            final(broker).wf(),
            unsubscribe_outcome(old(self)@, final(self)@, old(broker)@, final(broker)@, r),
    {
        self.inner.unsubscribe(broker)
    }

    /// Assigns `partitions` and forgets all positions.
    pub fn assign(&mut self, partitions: &TopicPartitionList) -> (r: RmqResult<()>)
        ensures
            r is Ok,
            final(self)@ == (ConsumerView { assigned: partitions@, positions: Map::empty(), ..old(self)@ }),
    {
        self.inner.assign(partitions)
    }

    /// A copy of the assigned partitions.
    pub fn assignment(&self) -> (r: RmqResult<TopicPartitionList>)
        ensures
            r matches Ok(l) && l@ == self@.assigned,
    {
        self.inner.assignment()
    }

    /// Moves the position of `topic`/`partition` to `offset`, as [`BaseConsumer::seek`] does.
    pub fn seek<T, P: Partitioner>(&mut self, broker: &Broker<T, P>, topic: &str, partition: i32, offset: Offset) -> (r: RmqResult<()>)
        requires
            broker.wf(),
            (offset matches Offset::OffsetTail(t) && crate::base_consumer::readable(broker@.backend, topic@, partition))
                ==> crate::base_consumer::watermarks_of(broker@.backend, topic@, partition).1 + 1 - offset->OffsetTail_0 <= i64::MAX,
        ensures
            seek_outcome(old(self)@, final(self)@, broker@, topic@, partition, offset, r),
    {
        self.inner.seek(broker, topic, partition, offset)
    }

    /// Commits the offsets of `tpl`, as [`BaseConsumer::commit`] does.
    pub fn commit<T, P: Partitioner>(&mut self, broker: &mut Broker<T, P>, tpl: &TopicPartitionList, mode: CommitMode) -> (r: RmqResult<()>)
        requires
            old(broker).wf(),
        ensures
            final(broker).wf(),
            final(self)@ == old(self)@,
            consumer_commit_outcome(old(self)@, old(broker)@, final(broker)@, tpl@, r),
    {
        self.inner.commit(broker, tpl, mode)
    }
}

} // verus!
