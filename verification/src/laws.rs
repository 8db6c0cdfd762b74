use vstd::prelude::*;
use std::sync::Arc;
use crate::base_consumer::{ConsumerView, PollOutcome, FetchOutcome, polled, poll_scan, scan_index, position_of, fetch_outcome, elem_keys,
    offsets_committed, has_offset_entry, consumer_commit_outcome};
use crate::consumer_group::{with_member, without_member};
use crate::broker::{BrokerView, broker_produced, fetched_from, start_offset};
use crate::broker_backend::{BackendView, backend_produced, backend_watermarks, metadata_outcome, with_topic, topic_names};
use crate::error::RmqError;
use crate::keys::{index_of, distinct, lemma_index_of, lemma_index_of_distinct, lemma_contains_push, lemma_concat_contains};
use crate::partition_assignor::{
    MemberView, member_ids, subscribes, count_of, subscribers, owner, pairs, topic_share, assigned, add_unique,
    collect_topics, topic_order, sorted_members, lemma_sorted_members_exist, round_robin, strictly_sorted,
};
use crate::order::lemma_text_order;
use crate::topic_partition::{ElemView, Offset};
use crate::message::{StoredMessage, MessageView};
use crate::metadata::Metadata;
use crate::offset_store::OffsetKey;
use crate::partition::{PartitionView, appended, pushed_log, evicted};
use crate::partitioner::fnv1a_spec;
use crate::topic::produced;

verus! {

/// Setting a configuration key makes a later read of that key give the value, and
/// leaves every other key as it was.
pub proof fn law_config_set_then_get(before: Map<Seq<char>, Seq<char>>, after: Map<Seq<char>, Seq<char>>, key: Seq<char>, value: Seq<char>)
    requires
        after == before.insert(key, value),
    ensures
        after.contains_key(key) && after[key] == value,
        forall|k: Seq<char>| k != key ==> (after.contains_key(k) == before.contains_key(k)
            && (before.contains_key(k) ==> after[k] == before[k])),
{
}

/// Removing a configuration key makes a later read of that key give nothing, and leaves
/// every other key as it was.
pub proof fn law_config_remove_then_get(before: Map<Seq<char>, Seq<char>>, after: Map<Seq<char>, Seq<char>>, key: Seq<char>)
    requires
        after == before.remove(key),
    ensures
        !after.contains_key(key),
        forall|k: Seq<char>| k != key ==> (after.contains_key(k) == before.contains_key(k)
            && (before.contains_key(k) ==> after[k] == before[k])),
{
}

/// The topic at `find(name)` of a backend is the one with that name.
pub proof fn lemma_found_name<T>(b: BackendView<T>, name: Seq<char>)
    requires
        b.find(name) is Some,
    ensures
        0 <= b.find(name)->0 < b.topics.len(),
        b.topic(name).name == name,
{
    lemma_index_of(topic_names(b.topics), name);
    assert(topic_names(b.topics)[b.find(name)->0] == b.topics[b.find(name)->0].name);
}

/// A successful produce to `topic` leaves a backend in which the topic is found at the
/// same place, holding the topic after the produce.
proof fn lemma_produced_found<T>(
    s: BrokerView<T>,
    t: BrokerView<T>,
    topic: Seq<char>,
    partition: Option<i32>,
    choice: Option<i32>,
    ts: Option<i64>,
    r: (i32, i64, i64),
    content: spec_fn(MessageView<T>) -> bool,
) -> (q: i32)
    requires
        broker_produced(s, t, topic, partition, choice, ts, Ok(r), content),
    ensures
        !s.backend.shutdown,
        with_topic(s.backend, topic, s.default_partitions()).find(topic) is Some,
        t.backend.find(topic) == with_topic(s.backend, topic, s.default_partitions()).find(topic),
        backend_produced(with_topic(s.backend, topic, s.default_partitions()), t.backend, topic, q, ts, Ok(r), content),
        produced(
            with_topic(s.backend, topic, s.default_partitions()).topic(topic),
            t.backend.topic(topic),
            q,
            Ok((r.0, r.1)),
            |m: MessageView<T>| content(m) && m.timestamp == r.2,
        ),
        t.backend.topics.len() == with_topic(s.backend, topic, s.default_partitions()).topics.len(),
{
    let b1 = with_topic(s.backend, topic, s.default_partitions());
    let q = match (partition, choice) {
        (Some(p), _) => p,
        (None, Some(c)) => c,
        (None, None) => choose|q: i32| #[trigger] backend_produced(b1, t.backend, topic, q, ts, Ok(r), content),
    };
    let i = b1.find(topic)->0;
    assert(topic_names(t.backend.topics) =~= topic_names(b1.topics)) by {
        assert forall|j: int| 0 <= j < b1.topics.len() implies topic_names(t.backend.topics)[j] == topic_names(b1.topics)[j] by {
            if j != i {
                assert(t.backend.topics[j] == b1.topics[j]);
            }
        }
    }
    q
}

/// Two successful produces in a row to the same partition of a topic get consecutive
/// offsets.
pub proof fn law_offsets_consecutive<T>(
    s0: BrokerView<T>,
    s1: BrokerView<T>,
    s2: BrokerView<T>,
    topic: Seq<char>,
    partition: i32,
    choice1: Option<i32>,
    choice2: Option<i32>,
    ts1: Option<i64>,
    ts2: Option<i64>,
    r1: (i32, i64, i64),
    r2: (i32, i64, i64),
    c1: spec_fn(MessageView<T>) -> bool,
    c2: spec_fn(MessageView<T>) -> bool,
)
    requires
        broker_produced(s0, s1, topic, Some(partition), choice1, ts1, Ok(r1), c1),
        broker_produced(s1, s2, topic, Some(partition), choice2, ts2, Ok(r2), c2),
    ensures
        r1.0 == partition,
        r2.0 == partition,
        r2.1 == r1.1 + 1,
{
    let q1 = lemma_produced_found(s0, s1, topic, Some(partition), choice1, ts1, r1, c1);
    let q2 = lemma_produced_found(s1, s2, topic, Some(partition), choice2, ts2, r2, c2);
    let b1 = with_topic(s0.backend, topic, s0.default_partitions());
    assert(with_topic(s1.backend, topic, s1.default_partitions()) == s1.backend);
    let a = b1.topic(topic).partitions[partition as int];
    let b = s1.backend.topic(topic).partitions[partition as int];
    let m = choose|m: MessageView<T>| #[trigger] appended(a, b, m) && c1(m) && m.timestamp == r1.2;
    assert(appended(a, b, m));
}

/// A message just produced can be read back at the offset the produce returned, with
/// the content it was produced with, as long as its partition still retains a message.
pub proof fn law_read_after_write<T>(
    s: BrokerView<T>,
    t: BrokerView<T>,
    topic: Seq<char>,
    partition: Option<i32>,
    choice: Option<i32>,
    ts: Option<i64>,
    r: (i32, i64, i64),
    content: spec_fn(MessageView<T>) -> bool,
    read: crate::error::RmqResult<Option<Arc<StoredMessage<T>>>>,
)
    requires
        s.backend.valid(),
        broker_produced(s, t, topic, partition, choice, ts, Ok(r), content),
        t.backend.topic(topic).partitions[r.0 as int].log.len() > 0,
        fetched_from(t.backend, topic, r.0, r.1, read),
    ensures
        read matches Ok(Some(m)) && content((*m)@) && (*m)@.offset == r.1 && (*m)@.timestamp == r.2,
{
    let q = lemma_produced_found(s, t, topic, partition, choice, ts, r, content);
    let b1 = with_topic(s.backend, topic, s.default_partitions());
    let a = b1.topic(topic).partitions[q as int];
    let b = t.backend.topic(topic).partitions[q as int];
    let m = choose|m: MessageView<T>| #[trigger] appended(a, b, m) && content(m) && m.timestamp == r.2;
    assert(appended(a, b, m));
    let p = pushed_log(a.log, m, a.max_capacity);
    assert(p.len() > 0);
    assert(p.last() == m);
    assert(b.log.last() == m) by {
        assert(b.log == p.skip(p.len() - b.log.len()));
        assert(b.log[b.log.len() - 1] == p[p.len() - 1]);
    }
    assert(b.locate(r.1 as int) == Some(Some(b.log.len() - 1)));
}

/// Once the broker is shut down, producing is refused and changes nothing, and reading,
/// watermarks and metadata are refused.
pub proof fn law_shutdown_refuses<T>(
    s: BrokerView<T>,
    t: BrokerView<T>,
    topic: Seq<char>,
    partition: i32,
    produce_partition: Option<i32>,
    choice: Option<i32>,
    ts: Option<i64>,
    produce: crate::error::RmqResult<(i32, i64, i64)>,
    content: spec_fn(MessageView<T>) -> bool,
    offset: i64,
    read: crate::error::RmqResult<Option<Arc<StoredMessage<T>>>>,
    wm: crate::error::RmqResult<(i64, i64)>,
    md: crate::error::RmqResult<Metadata>,
    md_topic: Option<Seq<char>>,
)
    requires
        s.backend.shutdown,
        broker_produced(s, t, topic, produce_partition, choice, ts, produce, content),
        fetched_from(s.backend, topic, partition, offset, read),
        backend_watermarks(s.backend, topic, partition, wm),
        metadata_outcome(s.backend, s.settings.broker_id, md_topic, md),
    ensures
        produce matches Err(RmqError::BrokerShutdown),
        t == s,
        read matches Err(RmqError::BrokerShutdown),
        wm matches Err(RmqError::BrokerShutdown),
        md matches Err(RmqError::BrokerShutdown),
{
}

/// After a group commits an offset for a topic-partition, the offset it has committed
/// there is that offset; other committed offsets are unchanged.
pub proof fn law_commit_then_committed<T>(s: BrokerView<T>, t: BrokerView<T>, group: Seq<char>, topic: Seq<char>, partition: i32, offset: i64)
    requires
        s.find_group(group) is Some,
        t == (BrokerView::<T> { offsets: s.offsets.insert((group, topic, partition), offset), ..s }),
    ensures
        t.committed(group, topic, partition) == Some(offset),
        forall|g: Seq<char>, tp: Seq<char>, p: i32| (g, tp, p) != (group, topic, partition) ==> t.committed(g, tp, p) == s.committed(g, tp, p),
{
}


/// A consumer reads a partition in offset order: when a poll of a consumer assigned a
/// single partition delivers the message at offset `o`, the next poll, with the broker
/// unchanged, delivers the message at offset `o + 1` if the partition retains one.
pub proof fn law_poll_in_order<T>(c: ConsumerView, s: BrokerView<T>, m: MessageView<T>)
    requires
        s.backend.valid(),
        c.assigned.len() == 1,
        polled(c, s).1 == PollOutcome::<T>::Delivered(m),
        ({
            let e = c.assigned[0];
            let pt = s.backend.topic(e.0).partitions[e.1 as int];
            pt.oldest() <= m.offset + 1 < pt.next_offset
        }),
    ensures
        polled(polled(c, s).0, s).1 matches PollOutcome::Delivered(m2) && m2.offset == m.offset + 1,
        polled(c, s).0.positions[(c.assigned[0].0, c.assigned[0].1)] == m.offset + 1,
{
    reveal_with_fuel(crate::base_consumer::poll_scan, 3);
    let e = c.assigned[0];
    let key = (e.0, e.1);
    assert(c.poll_start % (1usize) == 0);
    assert(!c.paused.contains(key));
    let b = s.backend;
    assert(!b.shutdown);
    assert(b.find(e.0) is Some && b.topic(e.0).has_partition(e.1));
    lemma_found_name(b, e.0);
    let pt = b.topic(e.0).partitions[e.1 as int];
    assert(b.topics[b.find(e.0)->0].valid());
    assert(pt.valid());
    let i = pt.locate(start_offset(s, e.0, e.1, position_of(c, key), c.group_id) as int)->0->0;
    assert(pt.log[i].offset == pt.oldest() + i);
    let c2 = polled(c, s).0;
    assert(c2.assigned == c.assigned && c2.paused == c.paused);
    assert(position_of(c2, key) == Some((m.offset + 1) as i64));
    assert(c2.poll_start % (1usize) == 0);
    let j = m.offset + 1 - pt.oldest();
    assert(pt.locate(m.offset + 1) == Some(Some(j)));
    assert(pt.log[j].offset == pt.oldest() + j);
}

/// A consumer whose position is out of range resumes at the oldest retained offset: a
/// poll of a consumer assigned a single partition whose position lies outside what the
/// partition holds moves the position to the oldest retained offset and delivers nothing.
pub proof fn law_out_of_range_resumes_at_oldest<T>(c: ConsumerView, s: BrokerView<T>)
    requires
        c.assigned.len() == 1,
        !c.paused.contains((c.assigned[0].0, c.assigned[0].1)),
        c.positions.contains_key((c.assigned[0].0, c.assigned[0].1)),
        !s.backend.shutdown,
        s.backend.find(c.assigned[0].0) is Some,
        s.backend.topic(c.assigned[0].0).has_partition(c.assigned[0].1),
        s.backend.topic(c.assigned[0].0).partitions[c.assigned[0].1 as int].locate(
            c.positions[(c.assigned[0].0, c.assigned[0].1)] as int,
        ) is None,
    ensures
        polled(c, s).1 == PollOutcome::<T>::Idle,
        polled(c, s).0 == (ConsumerView {
            positions: c.positions.insert(
                (c.assigned[0].0, c.assigned[0].1),
                s.backend.topic(c.assigned[0].0).partitions[c.assigned[0].1 as int].watermarks().0 as i64,
            ),
            ..c
        }),
{
    reveal_with_fuel(crate::base_consumer::poll_scan, 3);
    assert(c.poll_start % (1usize) == 0);
}

/// The round-robin partitioner takes the partitions in turn: the partition it chooses
/// after choosing `counter % n` is the next one, wrapping around at `n`.
pub proof fn law_round_robin_takes_turns(counter: i32, n: i32)
    requires
        n > 0,
        counter < i32::MAX,
    ensures
        counter.wrapping_add(1) % n == (counter % n + 1) % (n as int),
{
    assert(counter.wrapping_add(1) == counter + 1);
    vstd::arithmetic::div_mod::lemma_add_mod_noop(counter as int, 1, n as int);
    if n > 1 {
        vstd::arithmetic::div_mod::lemma_small_mod(1, n as nat);
    }
    if n == 1 {
        assert((counter + 1) % 1 == 0);
        assert((counter % 1 + 1) % 1 == 0);
    }
}

/// The consistent partitioner sends every message with the same key to the same
/// partition, whatever its state: the key's hash modulo the partition count.
pub proof fn law_same_key_same_partition(key: Seq<u8>, n: i32, r1: i32, r2: i32)
    requires
        n > 0,
        r1 == (fnv1a_spec(key) % (n as u32)) as i32,
        r2 == (fnv1a_spec(key) % (n as u32)) as i32,
    ensures
        r1 == r2,
        0 <= r1 < n,
{
}

/// Every partition keeps within its capacity limits: at most a bounded buffer's
/// capacity, at most the capacity-based retention, and consecutive offsets that
/// end just before the next offset.
pub proof fn law_partition_bounds<T>(b: BackendView<T>, i: int, p: int)
    requires
        b.valid(),
        0 <= i < b.topics.len(),
        0 <= p < b.topics[i].partitions.len(),
    ensures
        ({
            let pt = b.topics[i].partitions[p];
            &&& pt.max_capacity > 0 ==> pt.log.len() <= pt.max_capacity
            &&& (pt.retention_capacity matches Some(cap) ==> pt.log.len() <= cap)
            &&& forall|k: int| 0 <= k < pt.log.len() ==> #[trigger] pt.log[k].offset == pt.next_offset - pt.log.len() + k
            &&& pt.watermarks().1 == pt.next_offset - 1
        }),
{
    assert(b.topics[i].valid());
    assert(b.topics[i].partitions[p].valid());
}

/// After a produce to a partition, the partition's newest watermark is the offset the
/// produce returned.
pub proof fn law_newest_after_produce<T>(
    s: BrokerView<T>,
    t: BrokerView<T>,
    topic: Seq<char>,
    partition: Option<i32>,
    choice: Option<i32>,
    ts: Option<i64>,
    r: (i32, i64, i64),
    content: spec_fn(MessageView<T>) -> bool,
)
    requires
        broker_produced(s, t, topic, partition, choice, ts, Ok(r), content),
    ensures
        t.backend.topic(topic).partitions[r.0 as int].watermarks().1 == r.1,
{
    let q = lemma_produced_found(s, t, topic, partition, choice, ts, r, content);
    let b1 = with_topic(s.backend, topic, s.default_partitions());
    let a = b1.topic(topic).partitions[q as int];
    let b = t.backend.topic(topic).partitions[q as int];
    let m = choose|m: MessageView<T>| #[trigger] appended(a, b, m) && content(m) && m.timestamp == r.2;
    assert(appended(a, b, m));
}


/// The entries of `pairs` are the partitions of `t` below `n` that `id` owns.
proof fn lemma_pairs(sorted: Seq<Seq<char>>, m: Seq<MemberView>, t: Seq<char>, n: nat, id: Seq<char>)
    requires
        n <= i32::MAX + 1,
    ensures
        forall|x: ElemView| #[trigger] pairs(sorted, m, t, n, id).contains(x) ==> x.0 == t && 0 <= x.1 < n && x.2 == Offset::Stored,
        forall|q: int| 0 <= q < n ==> (#[trigger] pairs(sorted, m, t, n, id).contains((t, q as i32, Offset::Stored))
            <==> owner(sorted, m, t, q) == id),
    decreases n,
{
    if n > 0 {
        let k = (n - 1) as nat;
        lemma_pairs(sorted, m, t, k, id);
        let rest = pairs(sorted, m, t, k, id);
        let full = pairs(sorted, m, t, n, id);
        let last = (t, k as i32, Offset::Stored);
        assert forall|x: ElemView| #[trigger] full.contains(x) implies x.0 == t && 0 <= x.1 < n && x.2 == Offset::Stored by {
            if owner(sorted, m, t, k as int) == id {
                lemma_contains_push(rest, last, x);
            }
        }
        assert forall|q: int| 0 <= q < n implies (#[trigger] full.contains((t, q as i32, Offset::Stored))
            <==> owner(sorted, m, t, q) == id) by {
            let y = (t, q as i32, Offset::Stored);
            if owner(sorted, m, t, k as int) == id {
                lemma_contains_push(rest, last, y);
            }
            if q == k {
                assert(!rest.contains(y));
            }
        }
    }
}

/// A member's share of topic `t` holds only partitions of `t`.
proof fn lemma_share_topic(sorted: Seq<Seq<char>>, m: Seq<MemberView>, c: Seq<(Seq<char>, i32)>, t: Seq<char>, id: Seq<char>, x: ElemView)
    requires
        topic_share(sorted, m, c, t, id).contains(x),
    ensures
        x.0 == t,
{
    let n = count_of(c, t)->0;
    lemma_pairs(sorted, m, t, n as nat, id);
}

/// A member's assignment over the topics `ts` holds an entry exactly when the entry's
/// topic is among `ts` and the member's share of that topic holds it.
proof fn lemma_assigned(sorted: Seq<Seq<char>>, m: Seq<MemberView>, c: Seq<(Seq<char>, i32)>, ts: Seq<Seq<char>>, id: Seq<char>, x: ElemView)
    ensures
        assigned(sorted, m, c, ts, id).contains(x) == (ts.contains(x.0) && topic_share(sorted, m, c, x.0, id).contains(x)),
    decreases ts.len(),
{
    if ts.len() > 0 {
        let init = ts.drop_last();
        lemma_assigned(sorted, m, c, init, id, x);
        lemma_concat_contains(assigned(sorted, m, c, init, id), topic_share(sorted, m, c, ts.last(), id), x);
        lemma_contains_push(init, ts.last(), x.0);
        assert(ts == init.push(ts.last()));
        if topic_share(sorted, m, c, ts.last(), id).contains(x) {
            lemma_share_topic(sorted, m, c, ts.last(), id, x);
        }
    }
}

/// The topics collected from `ts` into `acc` are those of `acc` and of `ts`.
proof fn lemma_collect_topics(acc: Seq<Seq<char>>, ts: Seq<Seq<char>>, x: Seq<char>)
    ensures
        collect_topics(acc, ts).contains(x) == (acc.contains(x) || ts.contains(x)),
    decreases ts.len(),
{
    if ts.len() > 0 {
        let init = ts.drop_last();
        lemma_collect_topics(acc, init, x);
        let s = collect_topics(acc, init);
        if !s.contains(ts.last()) {
            lemma_contains_push(s, ts.last(), x);
        }
        lemma_contains_push(init, ts.last(), x);
        assert(ts == init.push(ts.last()));
    }
}

/// The topics of the member table are those some member subscribes to.
proof fn lemma_topic_order(m: Seq<MemberView>, t: Seq<char>)
    ensures
        topic_order(m).contains(t) == exists|i: int| 0 <= i < m.len() && (#[trigger] m[i]).1.contains(t),
    decreases m.len(),
{
    if m.len() > 0 {
        let init = m.drop_last();
        lemma_topic_order(init, t);
        lemma_collect_topics(topic_order(init), m.last().1, t);
        if exists|i: int| 0 <= i < m.len() && (#[trigger] m[i]).1.contains(t) {
            let i = choose|i: int| 0 <= i < m.len() && (#[trigger] m[i]).1.contains(t);
            if i < m.len() - 1 {
                assert(init[i] == m[i]);
            }
        }
        if exists|i: int| 0 <= i < init.len() && (#[trigger] init[i]).1.contains(t) {
            let i = choose|i: int| 0 <= i < init.len() && (#[trigger] init[i]).1.contains(t);
            assert(m[i] == init[i]);
        }
    }
}

/// In a member table with distinct ids, member `i` subscribes to exactly its topics.
proof fn lemma_subscribes(m: Seq<MemberView>, i: int, t: Seq<char>)
    requires
        distinct(member_ids(m)),
        0 <= i < m.len(),
    ensures
        subscribes(m, m[i].0, t) == m[i].1.contains(t),
{
    assert(member_ids(m)[i] == m[i].0);
    lemma_index_of_distinct(member_ids(m), m[i].0, i);
}

/// Each partition of a topic that some member subscribes to is assigned to exactly one
/// member of the group, and that member subscribes to the topic.
pub proof fn law_each_partition_has_one_owner(m: Seq<MemberView>, c: Seq<(Seq<char>, i32)>, t: Seq<char>, p: int)
    requires
        distinct(member_ids(m)),
        exists|i: int| 0 <= i < m.len() && (#[trigger] m[i]).1.contains(t),
        count_of(c, t) is Some,
        0 <= p < count_of(c, t)->0,
    ensures
        exists|k: int| 0 <= k < round_robin(m, c).len() && (#[trigger] round_robin(m, c)[k]).1.contains((t, p as i32, Offset::Stored)),
        forall|k1: int, k2: int|
            0 <= k1 < round_robin(m, c).len() && 0 <= k2 < round_robin(m, c).len()
            && (#[trigger] round_robin(m, c)[k1]).1.contains((t, p as i32, Offset::Stored))
            && (#[trigger] round_robin(m, c)[k2]).1.contains((t, p as i32, Offset::Stored)) ==> k1 == k2,
        forall|k: int| 0 <= k < round_robin(m, c).len() && (#[trigger] round_robin(m, c)[k]).1.contains((t, p as i32, Offset::Stored))
            ==> subscribes(m, round_robin(m, c)[k].0, t),
{
    lemma_sorted_members_exist(m);
    let sorted = sorted_members(m);
    let rr = round_robin(m, c);
    let n = count_of(c, t)->0;
    let x = (t, p as i32, Offset::Stored);
    let ts = topic_order(m);
    let i = choose|i: int| 0 <= i < m.len() && (#[trigger] m[i]).1.contains(t);
    lemma_topic_order(m, t);
    assert(ts.contains(t));
    lemma_subscribes(m, i, t);
    let sub_pred = |id: Seq<char>| subscribes(m, id, t);
    assert(member_ids(m)[i] == m[i].0);
    assert(sorted.contains(m[i].0));
    let si = choose|si: int| 0 <= si < sorted.len() && sorted[si] == m[i].0;
    sorted.lemma_filter_contains(sub_pred, si);
    let sub = subscribers(sorted, m, t);
    assert(sub.len() > 0);
    lemma_pairs(sorted, m, t, n as nat, sorted[0]);
    let o = owner(sorted, m, t, p);
    assert(0 <= p % (sub.len() as int) < sub.len());
    assert(sub.contains(o));
    sorted.lemma_filter_contains_rev(sub_pred, o);
    let ko = choose|ko: int| 0 <= ko < sorted.len() && sorted[ko] == o;
    assert forall|k: int| 0 <= k < rr.len() implies (#[trigger] rr[k]).1.contains(x) == (sorted[k] == o) by {
        assert(rr[k] == (sorted[k], assigned(sorted, m, c, ts, sorted[k])));
        lemma_assigned(sorted, m, c, ts, sorted[k], x);
        lemma_pairs(sorted, m, t, n as nat, sorted[k]);
    }
    assert(rr[ko].1.contains(x));
    assert forall|k1: int, k2: int|
        0 <= k1 < rr.len() && 0 <= k2 < rr.len() && (#[trigger] rr[k1]).1.contains(x) && (#[trigger] rr[k2]).1.contains(x) implies k1 == k2 by {
        if k1 < k2 {
            assert(crate::order::text_lt(sorted[k1], sorted[k2]));
            lemma_text_order(sorted[k1], sorted[k2], sorted[k2]);
        } else if k2 < k1 {
            assert(crate::order::text_lt(sorted[k2], sorted[k1]));
            lemma_text_order(sorted[k2], sorted[k1], sorted[k1]);
        }
    }
    let fo = choose|j: int| 0 <= j < sub.len() && sub[j] == o;
    assert(sub_pred(sub[fo]));
}

/// A member is assigned only partitions of topics it subscribes to.
pub proof fn law_assignment_within_subscriptions(m: Seq<MemberView>, c: Seq<(Seq<char>, i32)>, k: int, x: ElemView)
    requires
        distinct(member_ids(m)),
        0 <= k < round_robin(m, c).len(),
        round_robin(m, c)[k].1.contains(x),
    ensures
        subscribes(m, round_robin(m, c)[k].0, x.0),
{
    lemma_sorted_members_exist(m);
    let sorted = sorted_members(m);
    let ts = topic_order(m);
    let id = sorted[k];
    let t = x.0;
    lemma_assigned(sorted, m, c, ts, id, x);
    let n = count_of(c, t)->0;
    lemma_pairs(sorted, m, t, n as nat, id);
    let q = x.1 as int;
    let sub = subscribers(sorted, m, t);
    let sub_pred = |i: Seq<char>| subscribes(m, i, t);
    assert(topic_share(sorted, m, c, t, id).contains(x));
    assert(count_of(c, t) is Some && n > 0 && sub.len() > 0);
    assert(pairs(sorted, m, t, n as nat, id).contains(x));
    assert(x == (t, q as i32, Offset::Stored));
    assert(owner(sorted, m, t, q) == id);
    assert(0 <= q % (sub.len() as int) < sub.len());
    sorted.lemma_filter_pred(sub_pred, q % (sub.len() as int));
    assert(sub_pred(sub[q % (sub.len() as int)]));
}


/// Filtering two sequences of the same length gives the same result when they agree on
/// which positions the predicate keeps and on the kept elements.
proof fn lemma_filter_same<A>(a: Seq<A>, b: Seq<A>, pred: spec_fn(A) -> bool)
    requires
        a.len() == b.len(),
        forall|j: int| 0 <= j < a.len() ==> pred(#[trigger] a[j]) == pred(b[j]),
        forall|j: int| 0 <= j < a.len() && pred(#[trigger] a[j]) ==> a[j] == b[j],
    ensures
        a.filter(pred) == b.filter(pred),
    decreases a.len(),
{
    reveal_with_fuel(Seq::<_>::filter, 1);
    if a.len() > 0 {
        let a1 = a.drop_last();
        let b1 = b.drop_last();
        assert forall|j: int| 0 <= j < a1.len() implies pred(#[trigger] a1[j]) == pred(b1[j]) by {
            assert(a1[j] == a[j] && b1[j] == b[j]);
        }
        assert forall|j: int| 0 <= j < a1.len() && pred(#[trigger] a1[j]) implies a1[j] == b1[j] by {
            assert(a1[j] == a[j] && b1[j] == b[j]);
        }
        lemma_filter_same(a1, b1, pred);
        assert(pred(a[a.len() - 1]) == pred(b[b.len() - 1]));
    }
}

/// A member that joins and then leaves leaves the member table as if it had just left:
/// leaving undoes joining.
pub proof fn law_leave_undoes_join(m: Seq<MemberView>, id: Seq<char>, topics: Seq<Seq<char>>)
    ensures
        without_member(with_member(m, id, topics), id) == without_member(m, id),
{
    lemma_index_of(member_ids(m), id);
    match index_of(member_ids(m), id) {
        Some(i) => {
            assert(member_ids(m)[i] == m[i].0);
            let u = m.update(i, (id, topics));
            lemma_filter_same(u, m, crate::consumer_group::other_than(id));
        },
        None => {
            reveal_with_fuel(Seq::<_>::filter, 1);
            let p = m.push((id, topics));
            assert(p.drop_last() =~= m);
        },
    }
}

/// After a member joins, it is listed in the member table with the topics it joined with.
pub proof fn law_join_lists_member(m: Seq<MemberView>, id: Seq<char>, topics: Seq<Seq<char>>)
    ensures
        index_of(member_ids(with_member(m, id, topics)), id) matches Some(i) && with_member(m, id, topics)[i] == (id, topics),
{
    lemma_index_of(member_ids(m), id);
    let w = with_member(m, id, topics);
    match index_of(member_ids(m), id) {
        Some(i) => {
            assert(member_ids(w) =~= member_ids(m));
            assert(member_ids(m)[i] == m[i].0);
        },
        None => {
            assert(member_ids(w) =~= member_ids(m).push(id));
            crate::keys::lemma_index_of_push(member_ids(m), id, id);
        },
    }
}

/// What a scan from step `k` delivers comes from an assigned partition that is not paused,
/// and the scan leaves the next round to start right after that partition.
proof fn lemma_scan_delivers<T>(c: ConsumerView, s: BrokerView<T>, start: int, k: int)
    requires
        s.backend.valid(),
        0 <= start < c.assigned.len(),
        c.assigned.len() <= usize::MAX,
    ensures
        poll_scan(c, s, start, k).1 matches PollOutcome::Delivered(m) ==> {
            &&& elem_keys(c.assigned).contains((m.topic, m.partition))
            &&& !c.paused.contains((m.topic, m.partition))
            &&& exists|j: int| 0 <= j < c.assigned.len() && #[trigger] c.assigned[j].0 == m.topic
                && c.assigned[j].1 == m.partition && poll_scan(c, s, start, k).0.poll_start == j + 1
        },
    decreases c.assigned.len() - k,
{
    if 0 <= k < c.assigned.len() {
        let idx = scan_index(start, k, c.assigned.len() as int);
        let e = c.assigned[idx];
        let key = (e.0, e.1);
        if c.paused.contains(key) {
            lemma_scan_delivers(c, s, start, k + 1);
        } else {
            match fetch_outcome(s, e.0, e.1, position_of(c, key), c.group_id) {
                FetchOutcome::Message(m) => {
                    let b = s.backend;
                    lemma_found_name(b, e.0);
                    let pt = b.topic(e.0).partitions[e.1 as int];
                    assert(b.topics[b.find(e.0)->0].valid());
                    assert(pt.valid());
                    let i = pt.locate(start_offset(s, e.0, e.1, position_of(c, key), c.group_id) as int)->0->0;
                    assert(pt.log[i].partition == pt.id && pt.log[i].topic == pt.topic);
                    assert(elem_keys(c.assigned)[idx] == key);
                    assert(c.assigned[idx].0 == m.topic);
                    assert(poll_scan(c, s, start, k).0.poll_start == idx + 1);
                },
                FetchOutcome::Resume(o) => {
                    let c2 = ConsumerView { positions: c.positions.insert(key, o), ..c };
                    lemma_scan_delivers(c2, s, start, k + 1);
                },
                _ => {
                    lemma_scan_delivers(c, s, start, k + 1);
                },
            }
        }
    }
}

/// A poll delivers only messages of partitions that the consumer is assigned and has not
/// paused.
pub proof fn law_poll_respects_assignment<T>(c: ConsumerView, s: BrokerView<T>)
    requires
        s.backend.valid(),
        c.assigned.len() <= usize::MAX,
    ensures
        polled(c, s).1 matches PollOutcome::Delivered(m) ==> {
            &&& elem_keys(c.assigned).contains((m.topic, m.partition))
            &&& !c.paused.contains((m.topic, m.partition))
        },
{
    if c.assigned.len() > 0 {
        let n = c.assigned.len() as usize;
        assert(c.poll_start % n < n);
        lemma_scan_delivers(c, s, (c.poll_start % n) as int, 0);
    }
}

/// After a poll that delivers a message, the next poll begins its round at the assigned
/// partition that follows the one the message came from, so that no partition is starved
/// by those before it.
pub proof fn law_poll_moves_on<T>(c: ConsumerView, s: BrokerView<T>)
    requires
        s.backend.valid(),
        c.assigned.len() <= usize::MAX,
    ensures
        polled(c, s).1 matches PollOutcome::Delivered(m) ==> exists|j: int|
            0 <= j < c.assigned.len() && #[trigger] c.assigned[j].0 == m.topic && c.assigned[j].1 == m.partition
            && polled(c, s).0.poll_start == j + 1 && polled(c, s).0.assigned == c.assigned,
{
    if c.assigned.len() > 0 {
        let n = c.assigned.len() as usize;
        assert(c.poll_start % n < n);
        lemma_scan_delivers(c, s, (c.poll_start % n) as int, 0);
        lemma_scan_keeps_assignment(c, s, (c.poll_start % n) as int, 0);
    }
}

/// A scan changes positions and the starting point only.
proof fn lemma_scan_keeps_assignment<T>(c: ConsumerView, s: BrokerView<T>, start: int, k: int)
    ensures
        poll_scan(c, s, start, k).0.assigned == c.assigned,
    decreases c.assigned.len() - k,
{
    if 0 <= k < c.assigned.len() {
        let idx = scan_index(start, k, c.assigned.len() as int);
        let e = c.assigned[idx];
        let key = (e.0, e.1);
        if c.paused.contains(key) {
            lemma_scan_keeps_assignment(c, s, start, k + 1);
        } else {
            match fetch_outcome(s, e.0, e.1, position_of(c, key), c.group_id) {
                FetchOutcome::Resume(o) => {
                    let c2 = ConsumerView { positions: c.positions.insert(key, o), ..c };
                    lemma_scan_keeps_assignment(c2, s, start, k + 1);
                },
                FetchOutcome::Nothing | FetchOutcome::Skip => {
                    lemma_scan_keeps_assignment(c, s, start, k + 1);
                },
                _ => {},
            }
        }
    }
}

/// Whether element `i` of `elems` carries an offset and is the last element for its
/// topic-partition that does.
pub open spec fn last_offset_for(elems: Seq<ElemView>, i: int) -> bool {
    &&& 0 <= i < elems.len()
    &&& elems[i].2 is Offset
    &&& forall|j: int| #![trigger elems[j]]
        i < j < elems.len() && elems[j].0 == elems[i].0 && elems[j].1 == elems[i].1 ==> !(elems[j].2 is Offset)
}

/// Whether committing `elems` for group `g` leaves the committed offset under key `k`
/// alone: `k` is not a key of `g` that some element gives an offset.
pub open spec fn leaves_alone(elems: Seq<ElemView>, g: Seq<char>, k: OffsetKey) -> bool {
    !(k.0 == g && commits_to(elems, k.1, k.2))
}

/// Whether some element of `elems` carries an offset for `topic`/`partition`.
pub open spec fn commits_to(elems: Seq<ElemView>, topic: Seq<char>, partition: i32) -> bool {
    exists|i: int| 0 <= i < elems.len() && #[trigger] elems[i].0 == topic && elems[i].1 == partition && elems[i].2 is Offset
}

proof fn lemma_fold_commits(m: Map<OffsetKey, i64>, g: Seq<char>, elems: Seq<ElemView>)
    ensures
        forall|i: int| #[trigger] last_offset_for(elems, i) ==> {
            &&& offsets_committed(m, g, elems).contains_key((g, elems[i].0, elems[i].1))
            &&& offsets_committed(m, g, elems)[(g, elems[i].0, elems[i].1)] == elems[i].2->Offset_0
        },
        forall|k: OffsetKey| #[trigger] leaves_alone(elems, g, k) ==> {
            &&& offsets_committed(m, g, elems).contains_key(k) == m.contains_key(k)
            &&& m.contains_key(k) ==> offsets_committed(m, g, elems)[k] == m[k]
        },
    decreases elems.len(),
{
    if elems.len() > 0 {
        let init = elems.drop_last();
        let n = elems.len() - 1;
        let e = elems[n];
        lemma_fold_commits(m, g, init);
        let m1 = offsets_committed(m, g, init);
        let f = offsets_committed(m, g, elems);
        assert forall|i: int| #[trigger] last_offset_for(elems, i) implies {
            &&& f.contains_key((g, elems[i].0, elems[i].1))
            &&& f[(g, elems[i].0, elems[i].1)] == elems[i].2->Offset_0
        } by {
            if i < n {
                assert(init[i] == elems[i]);
                assert forall|j: int| #![trigger init[j]]
                    i < j < init.len() && init[j].0 == init[i].0 && init[j].1 == init[i].1 implies !(init[j].2 is Offset) by {
                    assert(init[j] == elems[j]);
                }
                assert(last_offset_for(init, i));
                if e.2 is Offset {
                    assert(elems[n] == e);
                    assert(!(e.0 == elems[i].0 && e.1 == elems[i].1));
                }
            }
        }
        assert forall|k: OffsetKey| #[trigger] leaves_alone(elems, g, k) implies {
            &&& f.contains_key(k) == m.contains_key(k)
            &&& m.contains_key(k) ==> f[k] == m[k]
        } by {
            if k.0 == g && commits_to(init, k.1, k.2) {
                let i = choose|i: int| 0 <= i < init.len() && #[trigger] init[i].0 == k.1 && init[i].1 == k.2 && init[i].2 is Offset;
                assert(elems[i] == init[i]);
                assert(commits_to(elems, k.1, k.2));
            }
            assert(leaves_alone(init, g, k));
            assert(elems.last() == e);
            match e.2 {
                Offset::Offset(o) => {
                    if k == (g, e.0, e.1) {
                        assert(elems[n].0 == k.1);
                        assert(commits_to(elems, k.1, k.2));
                    }
                    assert(f == m1.insert((g, e.0, e.1), o));
                },
                _ => {
                    assert(f == m1);
                },
            }
        }
    }
}

/// Committing a list for a consumer's group sets, for each topic-partition that the list
/// gives an offset, the last offset the list gives it, and leaves every other committed
/// offset as it was: every listed partition gets its own offset.
pub proof fn law_commit_sets_listed_offsets<T>(
    c: ConsumerView,
    s: BrokerView<T>,
    t: BrokerView<T>,
    elems: Seq<ElemView>,
    r: crate::error::RmqResult<()>,
    g: Seq<char>,
)
    requires
        c.group_id == Some(g),
        consumer_commit_outcome(c, s, t, elems, r),
        r is Ok,
    ensures
        forall|i: int| #[trigger] last_offset_for(elems, i) ==> {
            &&& t.offsets.contains_key((g, elems[i].0, elems[i].1))
            &&& t.offsets[(g, elems[i].0, elems[i].1)] == elems[i].2->Offset_0
        },
        forall|k: OffsetKey| #[trigger] leaves_alone(elems, g, k) ==> {
            &&& t.offsets.contains_key(k) == s.offsets.contains_key(k)
            &&& s.offsets.contains_key(k) ==> t.offsets[k] == s.offsets[k]
        },
{
    lemma_fold_commits(s.offsets, g, elems);
    if has_offset_entry(elems) {
        assert(!s.backend.shutdown);
        assert(s.find_group(g) is Some);
    }
    assert(t.offsets == offsets_committed(s.offsets, g, elems));
}

} // verus!
