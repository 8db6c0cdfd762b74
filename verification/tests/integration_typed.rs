use std::any::Any;
use std::sync::Arc;

use rmemqueue::broker::Broker;
use rmemqueue::config::RmqClientConfig;
use rmemqueue::error::RmqResult;
use rmemqueue::partitioner::RoundRobinPartitioner;
use rmemqueue::topic_partition::{Offset, TopicPartitionList};
use rmemqueue::typed::{TypedBorrowedMessage, TypedConsumer, TypedProducer};

type Payload = Arc<dyn Any + Send + Sync>;
type TypedBroker = Broker<Payload, RoundRobinPartitioner>;

#[derive(Debug, PartialEq, Clone)]
struct OrderCreated {
    order_id: u64,
    product: String,
    quantity: u32,
}

fn make_config(id: &str) -> RmqClientConfig {
    let mut config = RmqClientConfig::new();
    config.set("broker.id", id);
    config.set("default.num.partitions", "1");
    config
}

fn poll_typed<'b>(
    consumer: &mut TypedConsumer,
    broker: &'b TypedBroker,
) -> Option<RmqResult<TypedBorrowedMessage<'b, Payload>>> {
    for _ in 0..3 {
        if let Some(r) = consumer.poll_once(broker) {
            return Some(r);
        }
    }
    None
}

#[test]
fn test_typed_produce_and_consume() {
    let config = make_config("typed-basic-broker");
    let mut broker: TypedBroker = Broker::new(config.copy_config()).expect("broker");
    let producer = TypedProducer::new();
    let mut consumer = TypedConsumer::new(&config, "consumer-1".to_owned());

    let order: Payload = Arc::new(OrderCreated {
        order_id: 1,
        product: "widget".to_owned(),
        quantity: 5,
    });
    let meta = producer.send(&mut broker, "orders", order.clone(), None).expect("send");
    assert_eq!(meta.topic, "orders");
    assert_eq!(meta.offset, 0);

    let mut tpl = TopicPartitionList::new();
    tpl.add_partition("orders", 0);
    consumer.assign(&tpl).expect("assign");
    consumer.seek(&broker, "orders", 0, Offset::Beginning).expect("seek");

    let result = poll_typed(&mut consumer, &broker);
    assert!(result.is_some(), "should receive typed message");
    let msg = result.unwrap().expect("msg ok");
    let payload = msg.payload().downcast_ref::<OrderCreated>().expect("order payload");
    assert_eq!(payload.order_id, 1);
    assert_eq!(payload.product, "widget");
    assert_eq!(payload.quantity, 5);
    assert!(msg.key().is_none());
}

#[test]
fn test_typed_with_key() {
    let config = make_config("typed-key-broker");
    let mut broker: TypedBroker = Broker::new(config.copy_config()).expect("broker");

    type MyKey = String;

    let producer = TypedProducer::new();
    let mut consumer = TypedConsumer::new(&config, "consumer-1".to_owned());

    let order: Payload = Arc::new(OrderCreated {
        order_id: 2,
        product: "gadget".to_owned(),
        quantity: 10,
    });
    let key: Payload = Arc::new("order-2".to_owned() as MyKey);
    producer.send(&mut broker, "keyed-orders", order, Some(key)).expect("send");

    let mut tpl = TopicPartitionList::new();
    tpl.add_partition("keyed-orders", 0);
    consumer.assign(&tpl).expect("assign");
    consumer.seek(&broker, "keyed-orders", 0, Offset::Beginning).expect("seek");

    let result = poll_typed(&mut consumer, &broker);
    assert!(result.is_some());
    let msg = result.unwrap().expect("msg ok");
    assert_eq!(msg.payload().downcast_ref::<OrderCreated>().expect("order").order_id, 2);
    let key = msg.key().expect("should have key");
    assert_eq!(key.downcast_ref::<MyKey>().expect("string key"), "order-2");
}

#[test]
fn test_typed_multiple_messages() {
    let config = make_config("typed-multi-broker");
    let mut broker: TypedBroker = Broker::new(config.copy_config()).expect("broker");

    let producer = TypedProducer::new();
    let mut consumer = TypedConsumer::new(&config, "consumer-1".to_owned());

    for i in 0..5 {
        let msg: Payload = Arc::new(format!("msg-{}", i));
        producer.send(&mut broker, "multi-topic", msg, None).expect("send");
    }

    let mut tpl = TopicPartitionList::new();
    tpl.add_partition("multi-topic", 0);
    consumer.assign(&tpl).expect("assign");
    consumer.seek(&broker, "multi-topic", 0, Offset::Beginning).expect("seek");

    for i in 0..5 {
        let result = poll_typed(&mut consumer, &broker);
        assert!(result.is_some(), "should receive message {}", i);
        let msg = result.unwrap().expect("msg ok");
        assert_eq!(*msg.payload().downcast_ref::<String>().expect("string"), format!("msg-{}", i));
    }
}

#[test]
fn test_typed_with_group() {
    let mut config = make_config("typed-group-broker");
    config.set("group.id", "typed-test-group");
    let mut broker: TypedBroker = Broker::new(config.copy_config()).expect("broker");

    let producer = TypedProducer::new();
    let mut consumer = TypedConsumer::new(&config, "consumer-1".to_owned());

    let order: Payload = Arc::new(OrderCreated {
        order_id: 99,
        product: "bolt".to_owned(),
        quantity: 50,
    });
    producer.send(&mut broker, "group-topic", order, None).expect("send");

    consumer.subscribe(&mut broker, &["group-topic"]).expect("subscribe");

    let result = poll_typed(&mut consumer, &broker);
    assert!(result.is_some());
    let msg = result.unwrap().expect("msg ok");
    assert_eq!(msg.payload().downcast_ref::<OrderCreated>().expect("order").order_id, 99);
}

#[test]
fn test_typed_producer_and_consumer_on_one_broker() {
    let config = make_config("typed-arc-broker");
    let mut broker: TypedBroker = Broker::new(config.copy_config()).expect("broker");
    let producer = TypedProducer::new();
    let mut consumer = TypedConsumer::new(&config, "consumer-1".to_owned());

    let msg: Payload = Arc::new("shared".to_owned());
    producer.send_with_partition(&mut broker, "shared-typed", 0, msg, None).expect("send");
    let mut tpl = TopicPartitionList::new();
    tpl.add_partition("shared-typed", 0);
    consumer.assign(&tpl).expect("assign");
    let result = poll_typed(&mut consumer, &broker);
    assert!(result.is_some(), "typed producer and consumer should share the same broker");
}

#[test]
fn test_typed_clone() {
    let config = make_config("typed-clone-broker");
    let mut broker: TypedBroker = Broker::new(config.copy_config()).expect("broker");
    let producer = TypedProducer::new();
    let cloned = producer.clone();

    let msg: Payload = Arc::new("cloned".to_owned());
    let meta = cloned.send(&mut broker, "clone-topic", msg, None).expect("send");
    assert_eq!(meta.topic, "clone-topic");
}
