use vstd::prelude::*;
use std::sync::Arc;
use crate::broker::{Broker, BrokerView, RecordMetadata, broker_produced, copy_record_metadata, produce_width, partitioner_after, known_choice, partitioner_known};
use crate::context::{DefaultProducerContext, DeliveryResult, ProducerContext};
use crate::error::{RmqError, RmqResult};
use crate::config::{BrokerConfig, FromRmqConfig, RmqClientConfig, broker_config_spec};
use crate::future_producer::to_delivery_error;
use crate::headers::{copy_opt_headers, opt_headers};
use crate::message::MessageView;
use crate::partitioner::Partitioner;
use crate::record::{BaseRecord, ToBytes, opt_to_vec, opt_view};

verus! {

/// A send outcome as `(partition, offset, timestamp)`.
pub open spec fn send_outcome<R>(r: Result<RecordMetadata, (RmqError, R)>) -> Result<(i32, i64, i64), RmqError> {
    match r {
        Ok(m) => Ok((m.partition, m.offset, m.timestamp)),
        Err(x) => Err(x.0),
    }
}

/// The metadata reported to the delivery callback for a record that could not be sent:
/// its topic, its requested partition or `-1`, offset `-1`, and its timestamp or `0`.
pub fn failed_delivery_meta(topic: &str, partition: Option<i32>, timestamp: Option<i64>) -> (r: RecordMetadata)
    ensures
        r.topic@ == topic@,
        r.partition == match partition {
            Some(p) => p,
            None => -1i32,
        },
        r.offset == -1,
        r.timestamp == match timestamp {
            Some(t) => t,
            None => 0i64,
        },
{
    RecordMetadata {
        topic: topic.to_owned(),
        partition: match partition {
            Some(p) => p,
            None => -1,
        },
        offset: -1,
        timestamp: match timestamp {
            Some(t) => t,
            None => 0,
        },
    }
}

/// The synchronous producer: sends records to a [`Broker`] and reports each delivery to
/// its context.
pub struct BaseProducer<C = DefaultProducerContext> {
    context: Arc<C>,
}

impl<C> BaseProducer<C> {
    /// The context that this producer tells of its deliveries.
    pub closed spec fn context_of(&self) -> C {
        *self.context
    }
}

impl BaseProducer<DefaultProducerContext> {
    /// Creates a producer with the default context.
    pub fn new() -> (r: Self)
        ensures
            r.context_of() == DefaultProducerContext,
    {
        Self::with_context(DefaultProducerContext)
    }
}

impl<C: ProducerContext> BaseProducer<C> {
    /// Creates a producer with a custom context, which is told of every delivery.
    pub fn with_context(context: C) -> (r: Self)
        ensures
            r.context_of() == context,
    {
        Self { context: Arc::new(context) }
    }

    /// A producer sharing this producer's context.
    pub fn copy_producer(&self) -> (r: Self)
        ensures
            r.context_of() == self.context_of(),
    {
        Self { context: self.context.clone() }
    }

    /// Flushes pending records: nothing is ever pending, as every send completes at once.
    pub fn flush(&self) -> (r: RmqResult<()>)
        ensures
            r is Ok,
    {
        Ok(())
    }

    /// The number of records in flight: always `0`, as every send completes at once.
    pub fn in_flight_count(&self) -> (r: i32)
        ensures
            r == 0,
    {
        0
    }

    /// Sends `record`: its key and payload bytes, headers and timestamp go to its topic,
    /// at its partition or one the broker's partitioner chooses. Returns the record's
    /// metadata, or the error together with the record; either way the context is told.
    pub fn send<'a, K: ToBytes + ?Sized, P: ToBytes + ?Sized, T, B: Partitioner>(
        &self,
        broker: &mut Broker<T, B>,
        record: BaseRecord<'a, K, P>,
    ) -> (r: Result<RecordMetadata, (RmqError, BaseRecord<'a, K, P>)>)
        requires
            old(broker).wf(),
        ensures
            final(broker).wf(),
            broker_produced(old(broker)@, final(broker)@, record.topic@, record.partition,
                known_choice(old(broker).partitioner_state(), record.topic@, opt_view(record.key), produce_width(old(broker)@, record.topic@)),
                record.timestamp, send_outcome(r),
                |m: MessageView<T>| m.key == opt_view(record.key) && m.payload == opt_view(record.payload)
                && m.typed_payload is None && m.typed_key is None
                && m.headers == opt_headers(record.headers)),
            r matches Ok(m) ==> m.topic@ == record.topic@,
            r matches Err(x) ==> x.1 == record,
            partitioner_known::<T, B>(old(broker)@, record.partition)
                ==> final(broker).partitioner_state() == partitioner_after(old(broker).partitioner_state(), old(broker)@, record.topic@, record.partition, opt_view(record.key)),
    {
        let key_bytes = opt_to_vec(record.key);
        let payload_bytes = opt_to_vec(record.payload);
        let headers_for_produce = copy_opt_headers(&record.headers);
        match broker.produce(record.topic, record.partition, key_bytes, payload_bytes, headers_for_produce, record.timestamp) {
            Ok(meta) => {
                let cb_result: DeliveryResult = Ok(copy_record_metadata(&meta));
                self.context.delivery(&cb_result, copy_record_metadata(&meta));
                Ok(meta)
            },
            Err(e) => {
                let delivery_meta = failed_delivery_meta(record.topic, record.partition, record.timestamp);
                let failed: DeliveryResult = Err(to_delivery_error(&e, &record));
                self.context.delivery(&failed, delivery_meta);
                Err((e, record))
            },
        }
    }
}


impl FromRmqConfig for BaseProducer<DefaultProducerContext> {
    /// A producer with the default context, for a configuration from which a broker can
    /// be created; otherwise the configuration error.
    fn from_config(config: &RmqClientConfig) -> (r: RmqResult<Self>)
        ensures
            match broker_config_spec(config@) {
                Ok(_) => r is Ok,
                Err(m) => r matches Err(RmqError::InvalidConfig(t)) && t@ == m,
            },
    {
        match BrokerConfig::from_config(config) {
            Ok(_) => Ok(BaseProducer::new()),
            Err(e) => Err(e),
        }
    }
}

} // verus!
