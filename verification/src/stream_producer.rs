use vstd::prelude::*;
use crate::base_producer::{BaseProducer, send_outcome};
use crate::broker::{Broker, RecordMetadata, broker_produced, produce_width, partitioner_after, known_choice, partitioner_known};
use crate::bytes::{opt_bytes, copy_opt_bytes};
use crate::context::{DefaultProducerContext, ProducerContext};
use crate::error::RmqError;
use crate::headers::{OwnedHeaders, copy_opt_headers, opt_headers, HeaderView};
use crate::message::MessageView;
use crate::partitioner::Partitioner;
use crate::record::{BaseRecord, ToBytes, opt_to_vec, opt_view};

verus! {

/// An owned record that stores its own key and payload buffers (unlike the borrowed
/// [`BaseRecord`]). Built with [`to`](OwnedRecord::to) and chained field setters.
#[derive(Clone, Debug)]
pub struct OwnedRecord {
    /// Target topic name.
    pub topic: String,
    /// Target partition number. `None` lets the broker choose automatically.
    pub partition: Option<i32>,
    /// Message payload bytes.
    pub payload: Option<Vec<u8>>,
    /// Message key bytes.
    pub key: Option<Vec<u8>>,
    /// Message timestamp (Unix milliseconds).
    pub timestamp: Option<i64>,
    /// Message headers.
    pub headers: Option<OwnedHeaders>,
}

/// The abstract content of an [`OwnedRecord`].
pub struct OwnedRecordView {
    pub topic: Seq<char>,
    pub partition: Option<i32>,
    pub payload: Option<Seq<u8>>,
    pub key: Option<Seq<u8>>,
    pub timestamp: Option<i64>,
    pub headers: Option<Seq<HeaderView>>,
}

impl View for OwnedRecord {
    type V = OwnedRecordView;

    open spec fn view(&self) -> OwnedRecordView {
        OwnedRecordView {
            topic: self.topic@,
            partition: self.partition,
            payload: opt_bytes(self.payload),
            key: opt_bytes(self.key),
            timestamp: self.timestamp,
            headers: opt_headers(self.headers),
        }
    }
}

impl OwnedRecord {
    /// A record for `topic` with every other field unset.
    pub fn to(topic: &str) -> (r: Self)
        ensures
            r@ == (OwnedRecordView { topic: topic@, partition: None, payload: None, key: None, timestamp: None, headers: None }),
    {
        Self { topic: topic.to_owned(), partition: None, payload: None, key: None, timestamp: None, headers: None }
    }

    /// Sets the target partition.
    pub fn partition(self, p: i32) -> (r: Self)
        ensures
            r == (Self { partition: Some(p), ..self }),
    {
        Self { partition: Some(p), ..self }
    }

    /// Sets the message payload.
    pub fn payload(self, p: Vec<u8>) -> (r: Self)
        ensures
            r == (Self { payload: Some(p), ..self }),
    {
        Self { payload: Some(p), ..self }
    }

    /// Sets the message key.
    pub fn key(self, k: Vec<u8>) -> (r: Self)
        ensures
            r == (Self { key: Some(k), ..self }),
    {
        Self { key: Some(k), ..self }
    }

    /// Sets the message timestamp (Unix milliseconds).
    pub fn timestamp(self, ts: i64) -> (r: Self)
        ensures
            r == (Self { timestamp: Some(ts), ..self }),
    {
        Self { timestamp: Some(ts), ..self }
    }

    /// Sets the message headers.
    pub fn headers(self, h: OwnedHeaders) -> (r: Self)
        ensures
            r == (Self { headers: Some(h), ..self }),
    {
        Self { headers: Some(h), ..self }
    }

    /// The owned record holding a copy of what `record` holds.
    pub fn from_record<'a, K: ToBytes + ?Sized, P: ToBytes + ?Sized>(record: BaseRecord<'a, K, P>) -> (r: Self)
        ensures
            r@ == (OwnedRecordView {
                topic: record.topic@,
                partition: record.partition,
                payload: opt_view(record.payload),
                key: opt_view(record.key),
                timestamp: record.timestamp,
                headers: opt_headers(record.headers),
            }),
    {
        Self {
            topic: record.topic.to_owned(),
            partition: record.partition,
            payload: opt_to_vec(record.payload),
            key: opt_to_vec(record.key),
            timestamp: record.timestamp,
            headers: record.headers,
        }
    }
}

impl<'a, K: ToBytes + ?Sized, P: ToBytes + ?Sized> From<BaseRecord<'a, K, P>> for OwnedRecord {
    /// The owned record holding a copy of what `record` holds.
    fn from(record: BaseRecord<'a, K, P>) -> (r: Self)
        ensures
            r@ == (OwnedRecordView {
                topic: record.topic@,
                partition: record.partition,
                payload: opt_view(record.payload),
                key: opt_view(record.key),
                timestamp: record.timestamp,
                headers: opt_headers(record.headers),
            }),
    {
        OwnedRecord::from_record(record)
    }
}

/// The conversion's result is stated over the record's view (in the `ensures` of
/// [`from`](OwnedRecord::from)): an owned record cannot be written down as a spec value,
/// so no spec function names it.
impl<'a, K: ToBytes + ?Sized, P: ToBytes + ?Sized> vstd::std_specs::convert::FromSpecImpl<BaseRecord<'a, K, P>> for OwnedRecord {
    open spec fn obeys_from_spec() -> bool {
        false
    }

    open spec fn from_spec(v: BaseRecord<'a, K, P>) -> OwnedRecord {
        arbitrary()
    }
}

/// The producer of owned records: sends them to a [`Broker`] through a [`BaseProducer`].
pub struct StreamProducer<C = DefaultProducerContext> {
    inner: BaseProducer<C>,
}

impl StreamProducer<DefaultProducerContext> {
    /// Creates a stream producer with the default context.
    pub fn new() -> (r: Self) {
        Self { inner: BaseProducer::new() }
    }
}

impl<C: ProducerContext> StreamProducer<C> {
    /// Sends a borrowed record, returning its metadata or the error with the record.
    pub fn send_record<'a, K: ToBytes + ?Sized, P: ToBytes + ?Sized, T, B: Partitioner>(
        &self,
        broker: &mut Broker<T, B>,
        record: BaseRecord<'a, K, P>,
    ) -> (r: Result<RecordMetadata, (RmqError, BaseRecord<'a, K, P>)>)
        requires
            old(broker).wf(),
        ensures
            final(broker).wf(),
            broker_produced(old(broker)@, final(broker)@, record.topic@, record.partition,
                known_choice(old(broker).partitioner_state(), record.topic@, opt_view(record.key), produce_width(old(broker)@, record.topic@)),
                record.timestamp, send_outcome(r),
                |m: MessageView<T>| m.key == opt_view(record.key) && m.payload == opt_view(record.payload)
                && m.typed_payload is None && m.typed_key is None
                && m.headers == opt_headers(record.headers)),
            r matches Ok(m) ==> m.topic@ == record.topic@,
            r matches Err(x) ==> x.1 == record,
            partitioner_known::<T, B>(old(broker)@, record.partition)
                ==> final(broker).partitioner_state() == partitioner_after(old(broker).partitioner_state(), old(broker)@, record.topic@, record.partition, opt_view(record.key)),
    {
        self.inner.send(broker, record)
    }

    /// Sends an owned record, returning its metadata or the error with the record.
    pub fn send<T, B: Partitioner>(&self, broker: &mut Broker<T, B>, record: OwnedRecord) -> (r: Result<RecordMetadata, (RmqError, OwnedRecord)>)
        requires
            old(broker).wf(),
        ensures
            final(broker).wf(),
            broker_produced(old(broker)@, final(broker)@, record@.topic, record@.partition,
                known_choice(old(broker).partitioner_state(), record@.topic, record@.key, produce_width(old(broker)@, record@.topic)),
                record@.timestamp, send_outcome(r),
                |m: MessageView<T>| m.key == record@.key && m.payload == record@.payload
                && m.typed_payload is None && m.typed_key is None
                && m.headers == record@.headers),
            r matches Ok(m) ==> m.topic@ == record@.topic,
            r matches Err(x) ==> x.1 == record,
            partitioner_known::<T, B>(old(broker)@, record@.partition)
                ==> final(broker).partitioner_state() == partitioner_after(old(broker).partitioner_state(), old(broker)@, record@.topic, record@.partition, record@.key),
    {
        let result = {
            let mut base: BaseRecord<'_, [u8], [u8]> = BaseRecord::to(record.topic.as_str());
            match &record.payload {
                Some(p) => {
                    base = base.payload(p.as_slice());
                },
                None => {},
            }
            match &record.key {
                Some(k) => {
                    base = base.key(k.as_slice());
                },
                None => {},
            }
            match record.partition {
                Some(p) => {
                    base = base.partition(p);
                },
                None => {},
            }
            match record.timestamp {
                Some(ts) => {
                    base = base.timestamp(ts);
                },
                None => {},
            }
            match &record.headers {
                Some(h) => {
                    base = base.headers(h.copy_headers());
                },
                None => {},
            }
            proof {
                assert(opt_view(base.payload) == record@.payload);
                assert(opt_view(base.key) == record@.key);
                assert(opt_headers(base.headers) == record@.headers);
            }
            match self.inner.send(broker, base) {
                Ok(m) => Ok(m),
                Err((e, _)) => Err(e),
            }
        };
        match result {
            Ok(m) => Ok(m),
            Err(e) => Err((e, record)),
        }
    }
}

} // verus!
