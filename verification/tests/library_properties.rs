use std::any::Any;
use std::sync::Arc;

use rmemqueue::base_consumer::{member_id_for, poll_wait, BaseConsumer, PollWait};
use rmemqueue::base_producer::{failed_delivery_meta, BaseProducer};
use rmemqueue::clock::{millis_since_epoch, seed_from};
use rmemqueue::partition::past_retention;
use rmemqueue::broker::Broker;
use rmemqueue::config::{BrokerConfig, RmqClientConfig};
use rmemqueue::consumer::CommitMode;
use rmemqueue::error::RmqError;
use rmemqueue::future_producer::to_delivery_error;
use rmemqueue::message::{Message, StoredMessage, Timestamp};
use rmemqueue::numparse::decimal_string;
use rmemqueue::partition_assignor::{PartitionAssignor, RoundRobinAssignor};
use rmemqueue::partitioner::{fnv1a_32, ConsistentPartitioner, Partitioner, RandomPartitioner, RoundRobinPartitioner};
use rmemqueue::record::{BaseRecord, FromBytes};
use rmemqueue::stream_producer::{OwnedRecord, StreamProducer};
use rmemqueue::topic_partition::{Offset, TopicPartitionList};
use rmemqueue::typed::{TypedConsumer, TypedProducer};

type RawBroker = Broker<(), RoundRobinPartitioner>;

fn config(id: &str, partitions: &str) -> RmqClientConfig {
    let mut c = RmqClientConfig::new();
    c.set("broker.id", id);
    c.set("default.num.partitions", partitions);
    c
}

fn raw_broker(id: &str, partitions: &str) -> RawBroker {
    Broker::new(config(id, partitions)).expect("broker")
}

fn send_to(broker: &mut RawBroker, topic: &str, partition: i32, payload: &[u8]) -> i64 {
    let record: BaseRecord<[u8], [u8]> = BaseRecord::to(topic).payload(payload).partition(partition);
    BaseProducer::new().send(broker, record).expect("send").offset
}

#[test]
fn config_defaults_are_read() {
    let mut c = RmqClientConfig::new();
    c.set("broker.id", "b1");
    let bc = BrokerConfig::from_config(&c).expect("config");
    assert_eq!(bc.broker_id, "b1");
    assert_eq!(bc.default_num_partitions, 1);
    assert_eq!(bc.buffer_capacity, 10000);
    assert_eq!(bc.retention_policy, "none");
    assert_eq!(bc.retention_ms, None);
    assert_eq!(bc.retention_capacity, None);
    assert_eq!(bc.group_session_timeout_ms, 30000);
}

#[test]
fn config_missing_broker_id_is_invalid() {
    let c = RmqClientConfig::new();
    match BrokerConfig::from_config(&c) {
        Err(RmqError::InvalidConfig(t)) => assert_eq!(t, "broker.id is required"),
        other => panic!("unexpected: {:?}", other),
    }
    match Broker::<()>::new(RmqClientConfig::new()) {
        Err(RmqError::InvalidConfig(t)) => assert_eq!(t, "broker.id is required"),
        _ => panic!("broker without id"),
    }
}

#[test]
fn config_bad_number_is_invalid() {
    let c = config("b1", "three");
    match BrokerConfig::from_config(&c) {
        Err(RmqError::InvalidConfig(t)) => assert_eq!(t, "Invalid default.num.partitions: invalid digit found in string"),
        other => panic!("unexpected: {:?}", other),
    }
    let mut c2 = config("b1", "2");
    c2.set("partition.buffer.capacity", "-1");
    match BrokerConfig::from_config(&c2) {
        Err(RmqError::InvalidConfig(t)) => assert_eq!(t, "Invalid partition.buffer.capacity: invalid digit found in string"),
        other => panic!("unexpected: {:?}", other),
    }
}

#[test]
fn config_set_overwrites_and_remove_forgets() {
    let mut c = RmqClientConfig::new();
    c.set("k", "v1").set("k", "v2").set("other", "x");
    assert_eq!(c.get("k"), Some("v2"));
    c.remove("k");
    assert_eq!(c.get("k"), None);
    assert_eq!(c.get("other"), Some("x"));
    let copy = c.copy_config();
    assert_eq!(copy.get("other"), Some("x"));
}

#[test]
fn offsets_are_consecutive_per_partition() {
    let mut broker = raw_broker("law-offsets", "2");
    assert_eq!(send_to(&mut broker, "t", 1, b"a"), 0);
    assert_eq!(send_to(&mut broker, "t", 1, b"b"), 1);
    assert_eq!(send_to(&mut broker, "t", 0, b"c"), 0);
    assert_eq!(send_to(&mut broker, "t", 1, b"d"), 2);
    assert_eq!(broker.watermarks("t", 1).expect("wm"), (0, 2));
}

#[test]
fn read_after_write_gives_the_message() {
    let mut broker = raw_broker("law-read", "1");
    let producer = BaseProducer::new();
    let record = BaseRecord::to("t").payload(b"payload").key(b"key").timestamp(77);
    let meta = producer.send(&mut broker, record).expect("send");
    assert_eq!(meta.timestamp, 77);
    let m = broker
        .fetch_one_from_position("t", meta.partition, Some(meta.offset), None)
        .expect("fetch")
        .expect("message");
    assert_eq!(m.payload(), Some(&b"payload"[..]));
    assert_eq!(m.key(), Some(&b"key"[..]));
    assert_eq!(m.offset(), meta.offset);
    assert_eq!(m.timestamp(), 77);
    assert_eq!(m.topic(), "t");
}

#[test]
fn fetch_reads_a_range() {
    let mut broker = raw_broker("law-fetch", "1");
    for p in [b"a", b"b", b"c"] {
        send_to(&mut broker, "t", 0, p);
    }
    let v = broker.fetch("t", 0, 1, 5).expect("fetch");
    assert_eq!(v.len(), 2);
    assert_eq!(v[0].payload(), Some(&b"b"[..]));
    assert_eq!(v[1].offset(), 2);
    assert_eq!(broker.fetch("t", 0, 3, 5).expect("fetch at end").len(), 0);
}

#[test]
fn errors_partition_and_offset_out_of_range() {
    let mut broker = raw_broker("law-errors", "2");
    let record: BaseRecord<[u8], [u8]> = BaseRecord::to("t").payload(b"x" as &[u8]).partition(5);
    match BaseProducer::new().send(&mut broker, record) {
        Err((RmqError::PartitionOutOfRange { topic, partition }, rec)) => {
            assert_eq!(topic, "t");
            assert_eq!(partition, 5);
            assert_eq!(rec.partition, Some(5));
        }
        _ => panic!("expected partition out of range"),
    }
    send_to(&mut broker, "t", 0, b"a");
    match broker.fetch_one_from_position("t", 0, Some(9), None) {
        Err(RmqError::OffsetOutOfRange { topic, partition, offset }) => {
            assert_eq!((topic.as_str(), partition, offset), ("t", 0, 0));
        }
        _ => panic!("expected offset out of range"),
    }
    match broker.watermarks("missing", 0) {
        Err(RmqError::TopicNotFound(t)) => assert_eq!(t, "missing"),
        _ => panic!("expected topic not found"),
    }
}

#[test]
fn errors_group_not_found() {
    let mut broker = raw_broker("law-group-missing", "1");
    match broker.commit_offset("nobody", "t", 0, 1) {
        Err(RmqError::GroupNotFound(g)) => assert_eq!(g, "nobody"),
        _ => panic!("expected group not found"),
    }
    match broker.committed_offset("nobody", "t", 0) {
        Err(RmqError::GroupNotFound(g)) => assert_eq!(g, "nobody"),
        _ => panic!("expected group not found"),
    }
    match broker.leave_group("nobody", "m") {
        Err(RmqError::GroupNotFound(g)) => assert_eq!(g, "nobody"),
        _ => panic!("expected group not found"),
    }
}

#[test]
fn shutdown_refuses_everything() {
    let mut broker = raw_broker("law-shutdown", "1");
    send_to(&mut broker, "t", 0, b"a");
    broker.shutdown().expect("shutdown");
    let record: BaseRecord<[u8], [u8]> = BaseRecord::to("t").payload(b"x" as &[u8]);
    assert!(matches!(BaseProducer::new().send(&mut broker, record), Err((RmqError::BrokerShutdown, _))));
    assert!(matches!(broker.fetch_one_from_position("t", 0, Some(0), None), Err(RmqError::BrokerShutdown)));
    assert!(matches!(broker.watermarks("t", 0), Err(RmqError::BrokerShutdown)));
    assert!(matches!(broker.metadata(None), Err(RmqError::BrokerShutdown)));
    assert!(matches!(broker.join_group("g", "m", &["t".to_owned()]), Err(RmqError::BrokerShutdown)));
}

#[test]
fn commit_then_committed_reads_it_back() {
    let mut broker = raw_broker("law-commit", "2");
    broker.join_group("g", "m1", &["t".to_owned()]).expect("join");
    assert_eq!(broker.committed_offset("g", "t", 1).expect("committed"), None);
    broker.commit_offset("g", "t", 1, 41).expect("commit");
    assert_eq!(broker.committed_offset("g", "t", 1).expect("committed"), Some(41));
    assert_eq!(broker.committed_offset("g", "t", 0).expect("committed"), None);
}

#[test]
fn group_members_share_partitions_exactly_once() {
    let mut broker = raw_broker("law-assign", "5");
    let a = broker.join_group("g", "member-b", &["t".to_owned()]).expect("join b");
    assert_eq!(a.count(), 5);
    let first = broker.join_group("g", "member-a", &["t".to_owned()]).expect("join a");
    let mut c = BaseConsumer::new(&{
        let mut cfg = config("law-assign", "5");
        cfg.set("group.id", "g");
        cfg
    }, "member-c".to_owned());
    c.subscribe(&mut broker, &["t"]).expect("subscribe c");
    let third = c.assignment().expect("assignment");
    // With members a and b, a takes partitions 0, 2 and 4; with a, b and c, c takes 2.
    let parts_a: Vec<i32> = first.elements().iter().map(|e| e.partition).collect();
    assert_eq!(parts_a, vec![0, 2, 4]);
    let parts_c: Vec<i32> = third.elements().iter().map(|e| e.partition).collect();
    assert_eq!(parts_c, vec![2]);
}

#[test]
fn round_robin_assignor_covers_every_partition_once() {
    let members = vec![
        ("m2".to_owned(), vec!["t".to_owned(), "u".to_owned()]),
        ("m1".to_owned(), vec!["t".to_owned()]),
    ];
    let counts = vec![("t".to_owned(), 3), ("u".to_owned(), 2)];
    let result = RoundRobinAssignor.assign(&members, &counts).expect("assign");
    assert_eq!(RoundRobinAssignor.name(), "roundrobin");
    assert_eq!(result.len(), 2);
    assert_eq!(result[0].0, "m1");
    assert_eq!(result[1].0, "m2");
    let m1: Vec<(String, i32)> = result[0].1.elements().iter().map(|e| (e.topic.clone(), e.partition)).collect();
    let m2: Vec<(String, i32)> = result[1].1.elements().iter().map(|e| (e.topic.clone(), e.partition)).collect();
    assert_eq!(m1, vec![("t".to_owned(), 0), ("t".to_owned(), 2)]);
    assert_eq!(m2, vec![("t".to_owned(), 1), ("u".to_owned(), 0), ("u".to_owned(), 1)]);
}

#[test]
fn leave_rebalances_the_rest() {
    let mut broker = raw_broker("law-leave", "4");
    broker.join_group("g", "a", &["t".to_owned()]).expect("join a");
    broker.join_group("g", "b", &["t".to_owned()]).expect("join b");
    broker.leave_group("g", "a").expect("leave a");
    let again = broker.join_group("g", "b", &["t".to_owned()]).expect("rejoin b");
    assert_eq!(again.count(), 4);
}

#[test]
fn poll_reads_in_offset_order_and_resumes_at_oldest() {
    let mut broker = raw_broker("law-poll", "1");
    for p in [b"a", b"b", b"c"] {
        send_to(&mut broker, "t", 0, p);
    }
    let cfg = config("law-poll", "1");
    let mut consumer = BaseConsumer::new(&cfg, "c1".to_owned());
    let mut tpl = TopicPartitionList::new();
    tpl.add_partition("t", 0);
    consumer.assign(&tpl).expect("assign");
    consumer.seek(&broker, "t", 0, Offset::Offset(100)).expect("seek");
    assert!(consumer.poll_once(&broker).is_none());
    let pos = consumer.position().expect("position");
    assert_eq!(pos.find_partition("t", 0).expect("elem").offset, Offset::Offset(0));
    for expected in 0..3 {
        let m = consumer.poll_once(&broker).expect("some").expect("ok");
        assert_eq!(m.offset(), expected);
    }
    assert!(consumer.poll_once(&broker).is_none());
}

#[test]
fn poll_moves_on_to_the_next_partition() {
    let mut broker = raw_broker("law-rotate", "3");
    for p in 0..3 {
        send_to(&mut broker, "t", p, b"x");
        send_to(&mut broker, "t", p, b"y");
    }
    let cfg = config("law-rotate", "3");
    let mut consumer = BaseConsumer::new(&cfg, "c1".to_owned());
    let mut tpl = TopicPartitionList::new();
    for p in 0..3 {
        tpl.add_partition("t", p);
    }
    consumer.assign(&tpl).expect("assign");
    let mut seen = Vec::new();
    for _ in 0..6 {
        let m = consumer.poll_once(&broker).expect("some").expect("ok");
        seen.push((m.partition(), m.offset()));
    }
    assert_eq!(seen, vec![(0, 0), (1, 0), (2, 0), (0, 1), (1, 1), (2, 1)]);
    assert!(consumer.poll_once(&broker).is_none());
}

#[test]
fn paused_partitions_are_skipped() {
    let mut broker = raw_broker("law-pause", "2");
    send_to(&mut broker, "t", 0, b"p0");
    send_to(&mut broker, "t", 1, b"p1");
    let cfg = config("law-pause", "2");
    let mut consumer = BaseConsumer::new(&cfg, "c1".to_owned());
    let mut tpl = TopicPartitionList::new();
    tpl.add_partition("t", 0);
    tpl.add_partition("t", 1);
    consumer.assign(&tpl).expect("assign");
    let mut paused = TopicPartitionList::new();
    paused.add_partition("t", 0);
    consumer.pause(&paused).expect("pause");
    let m = consumer.poll_once(&broker).expect("some").expect("ok");
    assert_eq!(m.partition(), 1);
    assert!(consumer.poll_once(&broker).is_none());
    consumer.resume(&paused).expect("resume");
    let m = consumer.poll_once(&broker).expect("some").expect("ok");
    assert_eq!(m.partition(), 0);
}

#[test]
fn seek_variants_resolve_against_the_broker() {
    let mut broker = raw_broker("law-seek", "1");
    for p in [b"a", b"b", b"c", b"d"] {
        send_to(&mut broker, "t", 0, p);
    }
    let mut cfg = config("law-seek", "1");
    cfg.set("group.id", "g");
    let mut consumer = BaseConsumer::new(&cfg, "c1".to_owned());
    consumer.subscribe(&mut broker, &["t"]).expect("subscribe");
    let pos_of = |c: &BaseConsumer| c.position().expect("pos").find_partition("t", 0).expect("elem").offset;
    consumer.seek(&broker, "t", 0, Offset::End).expect("end");
    assert_eq!(pos_of(&consumer), Offset::Offset(4));
    consumer.seek(&broker, "t", 0, Offset::OffsetTail(3)).expect("tail");
    assert_eq!(pos_of(&consumer), Offset::Offset(1));
    consumer.seek(&broker, "t", 0, Offset::OffsetTail(9)).expect("tail");
    assert_eq!(pos_of(&consumer), Offset::Offset(0));
    consumer.seek(&broker, "t", 0, Offset::Stored).expect("stored");
    assert_eq!(pos_of(&consumer), Offset::Offset(0));
    let mut commit = TopicPartitionList::new();
    commit.add_partition_offset("t", 0, Offset::Offset(2));
    consumer.commit(&mut broker, &commit, CommitMode::Async).expect("commit");
    consumer.seek(&broker, "t", 0, Offset::Stored).expect("stored");
    assert_eq!(pos_of(&consumer), Offset::Offset(2));
    let committed = consumer.committed(&broker).expect("committed");
    assert_eq!(committed.find_partition("t", 0).expect("elem").offset, Offset::Offset(2));
    assert!(matches!(consumer.seek(&broker, "missing", 0, Offset::Beginning), Err(RmqError::TopicNotFound(_))));
}

#[test]
fn commit_message_commits_the_next_offset() {
    let mut broker = raw_broker("law-commit-msg", "1");
    send_to(&mut broker, "t", 0, b"a");
    let mut cfg = config("law-commit-msg", "1");
    cfg.set("group.id", "g");
    let mut consumer = BaseConsumer::new(&cfg, "c1".to_owned());
    consumer.subscribe(&mut broker, &["t"]).expect("subscribe");
    let stored = {
        let m = consumer.poll_once(&broker).expect("some").expect("ok");
        Arc::clone(m.inner_arc())
    };
    let m = rmemqueue::message::BorrowedMessage::new(stored);
    consumer.commit_message(&mut broker, &m, CommitMode::Sync).expect("commit");
    assert_eq!(broker.committed_offset("g", "t", 0).expect("committed"), Some(1));
}

#[test]
fn capacity_bounds_the_partition() {
    let mut c = config("law-capacity", "1");
    c.set("partition.buffer.capacity", "3");
    let mut broker: RawBroker = Broker::new(c).expect("broker");
    for p in [b"a", b"b", b"c", b"d", b"e"] {
        send_to(&mut broker, "t", 0, p);
    }
    let md = broker.metadata(Some("t")).expect("metadata");
    let pm = &md.topics[0].partitions[0];
    assert_eq!(pm.message_count, 3);
    assert_eq!((pm.oldest_offset, pm.newest_offset), (2, 4));
}

#[test]
fn retention_capacity_keeps_the_newest() {
    let mut c = config("law-retention", "1");
    c.set("retention.capacity", "2");
    let mut broker: RawBroker = Broker::new(c).expect("broker");
    for p in [b"a", b"b", b"c", b"d"] {
        send_to(&mut broker, "t", 0, p);
    }
    assert_eq!(broker.watermarks("t", 0).expect("wm"), (2, 3));
}

#[test]
fn round_robin_partitioner_takes_turns() {
    let mut p = RoundRobinPartitioner::new();
    let got: Vec<i32> = (0..5).map(|_| p.partition("t", None, 3)).collect();
    assert_eq!(got, vec![0, 1, 2, 0, 1]);
    assert_eq!(p.partition("t", None, 0), 0);
}

#[test]
fn consistent_partitioner_same_key_same_partition() {
    let mut p = ConsistentPartitioner::new();
    let a = p.partition("t", Some(b"user-1"), 7);
    let b = p.partition("t", Some(b"user-1"), 7);
    assert_eq!(a, b);
    assert_eq!(a, (fnv1a_32(b"user-1") % 7) as i32);
    assert_eq!(fnv1a_32(b""), 2166136261);
    assert_eq!(fnv1a_32(b"a"), 0xe40c292c);
    assert_eq!(p.partition("t", None, 4), 0);
    assert_eq!(p.partition("t", None, 4), 1);
}

#[test]
fn random_partitioner_stays_in_range() {
    let mut p = RandomPartitioner::new();
    for _ in 0..50 {
        let r = p.partition("t", None, 4);
        assert!((0..4).contains(&r));
    }
    assert_eq!(p.partition("t", None, 0), 0);
}

#[test]
fn string_decoding_checks_utf8() {
    assert_eq!(String::from_bytes(b"hello"), Some("hello".to_owned()));
    assert_eq!(String::from_bytes(&[0xff, 0xfe]), None);
    assert_eq!(<[u8; 2]>::from_bytes(b"ab"), Some(*b"ab"));
    assert_eq!(<[u8; 2]>::from_bytes(b"abc"), None);
}

#[test]
fn delivery_error_describes_the_record() {
    let record = BaseRecord::to("t").payload(b"p").key(b"k").timestamp(5);
    let (e, m) = to_delivery_error(&RmqError::NotSubscribed, &record);
    assert!(matches!(e, RmqError::NotSubscribed));
    assert_eq!(m.topic, "t");
    assert_eq!(m.partition, -1);
    assert_eq!(m.offset, -1);
    assert_eq!(m.timestamp, Timestamp::CreateTime(5));
    assert_eq!(m.payload, Some(b"p".to_vec()));
    assert_eq!(m.key, Some(b"k".to_vec()));
    let e2 = rmemqueue::error::copy_error(&RmqError::AlreadySubscribed(vec!["x".to_owned()]));
    assert!(matches!(e2, RmqError::AlreadySubscribed(v) if v == vec!["x".to_owned()]));
}

#[test]
fn owned_record_round_trip() {
    let mut broker = raw_broker("law-owned", "2");
    let producer = StreamProducer::new();
    let record = OwnedRecord::to("t").partition(1).payload(vec![1, 2]).key(vec![3]).timestamp(9);
    let meta = producer.send(&mut broker, record).expect("send");
    assert_eq!((meta.partition, meta.offset, meta.timestamp), (1, 0, 9));
    let bad = OwnedRecord::to("t").partition(7);
    match producer.send(&mut broker, bad) {
        Err((RmqError::PartitionOutOfRange { partition, .. }, rec)) => {
            assert_eq!(partition, 7);
            assert_eq!(rec.partition, Some(7));
        }
        _ => panic!("expected partition out of range"),
    }
    let from: OwnedRecord = BaseRecord::to("u").payload(b"z").key(b"y").into();
    assert_eq!(from.topic, "u");
    assert_eq!(from.payload, Some(b"z".to_vec()));
}

#[test]
fn typed_consumer_rejects_raw_messages() {
    let mut broker: Broker<Arc<dyn Any + Send + Sync>> = Broker::new(config("law-typed", "1")).expect("broker");
    let record: BaseRecord<[u8], [u8]> = BaseRecord::to("t").payload(b"raw" as &[u8]).partition(0);
    BaseProducer::new().send(&mut broker, record).expect("send");
    let mut consumer = TypedConsumer::new(&config("law-typed", "1"), "c1".to_owned());
    let mut tpl = TopicPartitionList::new();
    tpl.add_partition("t", 0);
    consumer.assign(&tpl).expect("assign");
    match consumer.poll_once(&broker) {
        Some(Err(RmqError::Custom(t))) => assert_eq!(t, "message has raw bytes payload, not typed"),
        _ => panic!("expected custom error"),
    }
    let typed = TypedProducer::new();
    let payload: Arc<dyn Any + Send + Sync> = Arc::new(5u32);
    let meta = typed.send_with_headers(&mut broker, "t", payload, None, rmemqueue::headers::OwnedHeaders::new()).expect("send");
    assert_eq!(meta.offset, 1);
}

#[test]
fn stored_message_reports_its_fields() {
    let m: StoredMessage<()> = StoredMessage::new(
        Some(b"k".to_vec()),
        Some(b"v".to_vec()),
        "t".to_owned(),
        2,
        7,
        99,
        None,
        std::time::Instant::now(),
    );
    assert_eq!(m.topic(), "t");
    assert_eq!(m.partition(), 2);
    assert_eq!(m.offset(), 7);
    assert_eq!(m.timestamp(), 99);
    assert!(!m.has_typed_payload());
    let owned = m.to_owned_message();
    assert_eq!(owned.timestamp, Timestamp::CreateTime(99));
    assert_eq!(owned.payload, Some(b"v".to_vec()));
}

#[test]
fn member_ids_and_waits() {
    assert_eq!(member_id_for(1234, 7), "consumer-1234-7");
    assert_eq!(member_id_for(0, 0), "consumer-0-0");
    assert_eq!(decimal_string(u128::MAX), u128::MAX.to_string());
    assert_eq!(poll_wait(3, true), PollWait::ForMessages(3));
    assert_eq!(poll_wait(50_000_000, false), PollWait::Sleep(10_000_000));
}

#[test]
fn unsubscribe_without_group_clears_state() {
    let mut broker = raw_broker("law-unsub", "2");
    send_to(&mut broker, "t", 0, b"a");
    let cfg = config("law-unsub", "2");
    let mut consumer = BaseConsumer::new(&cfg, "c1".to_owned());
    consumer.subscribe(&mut broker, &["t", "absent"]).expect("subscribe");
    let a = consumer.subscription().expect("subscription");
    let parts: Vec<(String, i32)> = a.elements().iter().map(|e| (e.topic.clone(), e.partition)).collect();
    assert_eq!(parts, vec![("t".to_owned(), 0), ("t".to_owned(), 1)]);
    assert_eq!(consumer.subscribed_topics(), vec!["t".to_owned(), "absent".to_owned()]);
    consumer.store_offset("t", 0, 5).expect("store");
    consumer.unsubscribe(&mut broker).expect("unsubscribe");
    assert_eq!(consumer.assignment().expect("assignment").count(), 0);
    assert_eq!(consumer.position().expect("position").count(), 0);
    assert!(consumer.subscribed_topics().is_empty());
}

#[test]
fn capacity_one_keeps_the_newest_message() {
    let mut c = config("law-capacity-one", "1");
    c.set("partition.buffer.capacity", "1");
    let mut broker: RawBroker = Broker::new(c).expect("broker");
    for (i, p) in [b"a", b"b", b"c"].iter().enumerate() {
        send_to(&mut broker, "t", 0, *p);
        let md = broker.metadata(Some("t")).expect("metadata");
        let pm = &md.topics[0].partitions[0];
        assert_eq!(pm.message_count, 1);
        assert_eq!((pm.oldest_offset, pm.newest_offset), (i as i64, i as i64));
    }
    let m = broker.fetch_one_from_position("t", 0, Some(2), None).expect("ok").expect("some");
    assert_eq!(m.payload(), Some(&b"c"[..]));
}

#[test]
fn group_member_resumes_at_the_committed_offset() {
    let mut broker = raw_broker("law-resume", "1");
    for p in [b"a", b"b", b"c", b"d"] {
        send_to(&mut broker, "t", 0, p);
    }
    broker.join_group("g", "m1", &["t".to_owned()]).expect("join");
    broker.commit_offset("g", "t", 0, 2).expect("commit");
    let m = broker.fetch_one_from_position("t", 0, None, Some("g")).expect("ok").expect("some");
    assert_eq!(m.offset(), 2);
    assert_eq!(m.payload(), Some(&b"c"[..]));

    let mut cfg = config("law-resume", "1");
    cfg.set("group.id", "g");
    let mut consumer = BaseConsumer::new(&cfg, "c2".to_owned());
    consumer.subscribe(&mut broker, &["t"]).expect("subscribe");
    let first = consumer.poll_once(&broker).expect("some").expect("ok");
    assert_eq!(first.offset(), 2);
}

#[test]
fn broker_routes_keys_through_its_partitioner() {
    let c = config("law-route", "4");
    let mut broker: Broker<(), ConsistentPartitioner> =
        Broker::with_partitioner(c, ConsistentPartitioner::new()).expect("broker");
    let send_key = |broker: &mut Broker<(), ConsistentPartitioner>, key: Option<&[u8]>| -> i32 {
        let mut record: BaseRecord<[u8], [u8]> = BaseRecord::to("t").payload(b"x");
        if let Some(k) = key {
            record = record.key(k);
        }
        BaseProducer::new().send(broker, record).expect("send").partition
    };
    let expected = (fnv1a_32(b"user-1") % 4) as i32;
    for _ in 0..3 {
        assert_eq!(send_key(&mut broker, Some(b"user-1")), expected);
    }
    // Messages without a key take the partitions in turn, from 0, whatever keyed
    // messages came between them.
    assert_eq!(send_key(&mut broker, None), 0);
    assert_eq!(send_key(&mut broker, Some(b"user-1")), expected);
    assert_eq!(send_key(&mut broker, None), 1);
    assert_eq!(send_key(&mut broker, None), 2);
}

#[test]
fn round_robin_broker_spreads_keyless_messages() {
    let mut broker = raw_broker("law-rr-broker", "3");
    let mut parts = Vec::new();
    for _ in 0..4 {
        let record: BaseRecord<[u8], [u8]> = BaseRecord::to("t").payload(b"x");
        parts.push(BaseProducer::new().send(&mut broker, record).expect("send").partition);
    }
    assert_eq!(parts, vec![0, 1, 2, 0]);
}

#[test]
fn paused_partition_stays_silent_until_resumed() {
    let mut broker = raw_broker("law-pause-run", "2");
    for _ in 0..3 {
        send_to(&mut broker, "t", 0, b"p0");
        send_to(&mut broker, "t", 1, b"p1");
    }
    let cfg = config("law-pause-run", "2");
    let mut consumer = BaseConsumer::new(&cfg, "c1".to_owned());
    let mut tpl = TopicPartitionList::new();
    tpl.add_partition("t", 0);
    tpl.add_partition("t", 1);
    consumer.assign(&tpl).expect("assign");
    let mut paused = TopicPartitionList::new();
    paused.add_partition("t", 1);
    consumer.pause(&paused).expect("pause");
    for _ in 0..3 {
        let m = consumer.poll_once(&broker).expect("some").expect("ok");
        assert_eq!(m.partition(), 0);
        send_to(&mut broker, "t", 1, b"more");
    }
    assert!(consumer.poll_once(&broker).is_none());
    consumer.resume(&paused).expect("resume");
    let m = consumer.poll_once(&broker).expect("some").expect("ok");
    assert_eq!((m.partition(), m.offset()), (1, 0));
}

#[test]
fn list_keeps_insertion_order() {
    let mut tpl = TopicPartitionList::new();
    tpl.add_partition("a", 2);
    tpl.add_partition_offset("b", 0, Offset::Offset(7));
    tpl.add_partition("a", 1);
    assert_eq!(tpl.count(), 3);
    let got: Vec<(String, i32, Offset)> =
        tpl.elements().iter().map(|e| (e.topic.clone(), e.partition, e.offset)).collect();
    assert_eq!(
        got,
        vec![
            ("a".to_owned(), 2, Offset::Stored),
            ("b".to_owned(), 0, Offset::Offset(7)),
            ("a".to_owned(), 1, Offset::Stored),
        ]
    );
}

#[test]
fn watermarks_count_the_appends() {
    let mut c = config("law-watermarks", "1");
    c.set("partition.buffer.capacity", "2");
    let mut broker: RawBroker = Broker::new(c).expect("broker");
    broker.ensure_topic("t", 1).expect("topic");
    assert_eq!(broker.watermarks("t", 0).expect("wm"), (0, -1));
    for a in 1..=5i64 {
        send_to(&mut broker, "t", 0, b"x");
        let kept = if a < 2 { a } else { 2 };
        assert_eq!(broker.watermarks("t", 0).expect("wm"), (a - kept, a - 1));
    }
}

#[test]
fn clock_readings_become_milliseconds_and_seeds() {
    assert_eq!(millis_since_epoch(Some(1_700_000_000_123)), 1_700_000_000_123);
    assert_eq!(millis_since_epoch(None), 0);
    assert_eq!(millis_since_epoch(Some((1u128 << 64) + 5)), 5);
    assert_eq!(seed_from(0, Some(5)), 5);
    assert_eq!(seed_from(0, None), 1);
    assert_eq!(seed_from(0, Some(0)), 1);
    assert_eq!(seed_from(1, Some(0)), 1103515245);
    assert_eq!(seed_from(2, Some(7)), 2i32.wrapping_mul(1103515245).wrapping_add(7));
    assert_eq!(seed_from(0, Some((1u128 << 32) + 9)), 9);
}

#[test]
fn retention_compares_milliseconds() {
    assert!(past_retention(1500, 1000));
    assert!(!past_retention(1000, 1000));
    assert!(!past_retention(999, 1000));
    assert!(!past_retention(u64::MAX, u64::MAX));
}

#[test]
fn failed_delivery_metadata() {
    let m = failed_delivery_meta("t", Some(3), Some(42));
    assert_eq!((m.topic.as_str(), m.partition, m.offset, m.timestamp), ("t", 3, -1, 42));
    let m = failed_delivery_meta("u", None, None);
    assert_eq!((m.topic.as_str(), m.partition, m.offset, m.timestamp), ("u", -1, -1, 0));
}

#[test]
fn now_and_default_timestamps_read_the_wall_clock() {
    let t = Timestamp::now().to_millis().expect("create time");
    assert!(t > 1_600_000_000_000);
    let mut broker = raw_broker("law-now", "1");
    send_to(&mut broker, "t", 0, b"x");
    let m = broker.fetch_one_from_position("t", 0, Some(0), None).expect("ok").expect("some");
    assert!(m.timestamp() >= t);
}
