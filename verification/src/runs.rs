use vstd::prelude::*;
use crate::base_consumer::{ConsumerView, PollOutcome, FetchOutcome, polled, poll_scan, scan_index, position_of, fetch_outcome, elem_keys};
use crate::broker::{BrokerView, start_offset};
use crate::laws::lemma_found_name;
use crate::message::MessageView;
use crate::partition::{PartitionView, appended, pushed_log};
use crate::partitioner::{ConsistentPartitioner, Partitioner};
use crate::topic_partition::ElemView;

verus! {

// Laws over runs of several calls: each stated over the views that the single calls'
// contracts give, one step after another.

/// `views` is the list of views a topic-partition list goes through from empty as the
/// elements `elems` are added one at a time (by `add_partition` or
/// `add_partition_offset`, each of which pushes its element).
pub open spec fn built_by_adds(views: Seq<Seq<ElemView>>, elems: Seq<ElemView>) -> bool {
    &&& views.len() == elems.len() + 1
    &&& views[0] == Seq::<ElemView>::empty()
    &&& forall|i: int| 0 <= i < elems.len() ==> #[trigger] views[i + 1] == views[i].push(elems[i])
}

/// A list built by adding elements one at a time, starting empty, holds exactly those
/// elements, in the order they were added: after `i` adds it is the first `i` of them.
pub proof fn law_list_keeps_insertion_order(views: Seq<Seq<ElemView>>, elems: Seq<ElemView>)
    requires
        built_by_adds(views, elems),
    ensures
        forall|i: int| 0 <= i <= elems.len() ==> #[trigger] views[i] == elems.take(i),
        views[elems.len() as int] == elems,
        views[elems.len() as int].len() == elems.len(),
{
    assert forall|i: int| 0 <= i <= elems.len() implies #[trigger] views[i] == elems.take(i) by {
        lemma_adds_prefix(views, elems, i);
    }
    assert(elems.take(elems.len() as int) =~= elems);
}

proof fn lemma_adds_prefix(views: Seq<Seq<ElemView>>, elems: Seq<ElemView>, i: int)
    requires
        built_by_adds(views, elems),
        0 <= i <= elems.len(),
    ensures
        views[i] == elems.take(i),
    decreases i,
{
    if i == 0 {
        assert(elems.take(0) =~= Seq::<ElemView>::empty());
    } else {
        lemma_adds_prefix(views, elems, i - 1);
        assert(views[i] == views[(i - 1) + 1]);
        assert(elems.take(i) =~= elems.take(i - 1).push(elems[i - 1]));
    }
}

/// The number of calls without a key among the first `j` keys.
pub open spec fn keyless_before(keys: Seq<Option<Seq<u8>>>, j: int) -> nat
    decreases j,
{
    if j <= 0 {
        0
    } else {
        keyless_before(keys, j - 1) + if keys[j - 1] is None { 1nat } else { 0nat }
    }
}

/// `states` and `results` are what a consistent partitioner goes through and returns on
/// the calls with keys `keys` and topics `topics`, all over `n` partitions, starting from
/// `states[0]`.
pub open spec fn consistent_run(
    states: Seq<ConsistentPartitioner>,
    results: Seq<i32>,
    topics: Seq<Seq<char>>,
    keys: Seq<Option<Seq<u8>>>,
    n: i32,
) -> bool {
    &&& states.len() == keys.len() + 1
    &&& results.len() == keys.len()
    &&& topics.len() == keys.len()
    &&& forall|j: int| 0 <= j < keys.len() ==> {
        &&& #[trigger] results[j] == states[j].chosen(topics[j], keys[j], n)
        &&& states[j + 1] == states[j].advanced(topics[j], keys[j], n)
    }
}

/// A new consistent partitioner hands out partitions in turn to messages without a key,
/// starting at partition 0: the call without a key that has `i` such calls before it
/// gets partition `i % n`. Calls with a key do not advance this turn, and get the key's
/// hash modulo `n`.
pub proof fn law_keyless_calls_take_turns(
    states: Seq<ConsistentPartitioner>,
    results: Seq<i32>,
    topics: Seq<Seq<char>>,
    keys: Seq<Option<Seq<u8>>>,
    n: i32,
)
    requires
        n > 0,
        keys.len() <= i32::MAX,
        states[0]@ == 0,
        consistent_run(states, results, topics, keys, n),
    ensures
        forall|j: int| 0 <= j < keys.len() && keys[j] is None ==>
            #[trigger] results[j] == (keyless_before(keys, j) as int) % (n as int),
        forall|j: int| 0 <= j < keys.len() && keys[j] is Some ==>
            #[trigger] results[j] == (crate::partitioner::fnv1a_spec(keys[j]->0) % (n as u32)) as i32,
{
    assert forall|j: int| 0 <= j <= keys.len() implies #[trigger] states[j]@ == keyless_before(keys, j) by {
        lemma_keyless_state(states, results, topics, keys, n, j);
    }
    assert forall|j: int| 0 <= j < keys.len() && keys[j] is None implies
        #[trigger] results[j] == (keyless_before(keys, j) as int) % (n as int) by {
        assert(states[j]@ == keyless_before(keys, j));
        assert(0 <= (keyless_before(keys, j) as int) % (n as int) < n);
    }
}

proof fn lemma_keyless_bound(keys: Seq<Option<Seq<u8>>>, j: int)
    requires
        0 <= j,
    ensures
        keyless_before(keys, j) <= j,
    decreases j,
{
    if j > 0 {
        lemma_keyless_bound(keys, j - 1);
    }
}

proof fn lemma_keyless_state(
    states: Seq<ConsistentPartitioner>,
    results: Seq<i32>,
    topics: Seq<Seq<char>>,
    keys: Seq<Option<Seq<u8>>>,
    n: i32,
    j: int,
)
    requires
        n > 0,
        keys.len() <= i32::MAX,
        states[0]@ == 0,
        consistent_run(states, results, topics, keys, n),
        0 <= j <= keys.len(),
    ensures
        states[j]@ == keyless_before(keys, j),
    decreases j,
{
    if j > 0 {
        lemma_keyless_state(states, results, topics, keys, n, j - 1);
        lemma_keyless_bound(keys, j - 1);
        let k = j - 1;
        assert(results[k] == states[k].chosen(topics[k], keys[k], n));
        assert(states[k + 1] == states[k].advanced(topics[k], keys[k], n));
        states[k].lemma_advanced(topics[k], keys[k], n);
        assert(states[k]@ < i32::MAX);
        assert(states[k]@.wrapping_add(1) == states[k]@ + 1);
    }
}

/// `views` is the list of views a partition goes through from empty as messages are
/// appended to it one at a time (each append as its contract states, evictions
/// included).
pub open spec fn built_by_appends<T>(views: Seq<PartitionView<T>>, msgs: Seq<MessageView<T>>) -> bool {
    &&& views.len() == msgs.len() + 1
    &&& views[0].next_offset == 0
    &&& views[0].log.len() == 0
    &&& forall|i: int| 0 <= i < msgs.len() ==> #[trigger] appended(views[i], views[i + 1], msgs[i])
}

/// After `a` appends to a new partition, its watermarks are `(a - count, a - 1)` where
/// `count` is the number of messages it retains, or `(0, a - 1)` when it retains none: a
/// new partition gives `(0, -1)`, and the newest watermark is the offset of the `a`-th
/// message.
pub proof fn law_watermarks_count_appends<T>(views: Seq<PartitionView<T>>, msgs: Seq<MessageView<T>>)
    requires
        built_by_appends(views, msgs),
    ensures
        forall|a: int| 0 <= a <= msgs.len() ==> (#[trigger] views[a]).watermarks() == (
            if views[a].log.len() > 0 { a - views[a].log.len() } else { 0 },
            a - 1,
        ),
        forall|i: int| 0 <= i < msgs.len() ==> (#[trigger] msgs[i]).offset == i,
{
    assert forall|a: int| 0 <= a <= msgs.len() implies #[trigger] views[a].next_offset == a by {
        lemma_appends_next(views, msgs, a);
    }
    assert forall|i: int| 0 <= i < msgs.len() implies (#[trigger] msgs[i]).offset == i by {
        assert(appended(views[i], views[i + 1], msgs[i]));
        assert(views[i].next_offset == i);
    }
}

proof fn lemma_appends_next<T>(views: Seq<PartitionView<T>>, msgs: Seq<MessageView<T>>, a: int)
    requires
        built_by_appends(views, msgs),
        0 <= a <= msgs.len(),
    ensures
        views[a].next_offset == a,
    decreases a,
{
    if a > 0 {
        lemma_appends_next(views, msgs, a - 1);
        assert(appended(views[a - 1], views[(a - 1) + 1], msgs[a - 1]));
    }
}

/// A partition of a topic found in a valid backend is valid.
proof fn lemma_partition_valid<T>(s: BrokerView<T>, t: Seq<char>, p: i32)
    requires
        s.backend.valid(),
        s.backend.find(t) is Some,
        s.backend.topic(t).has_partition(p),
    ensures
        s.backend.topic(t).partitions[p as int].valid(),
{
    let b = s.backend;
    lemma_found_name(b, t);
    assert(b.topics[b.find(t)->0].valid());
}

/// The consumer after `k` polls of broker `s`, starting from `c`.
pub open spec fn poll_n<T>(c: ConsumerView, s: BrokerView<T>, k: nat) -> ConsumerView
    decreases k,
{
    if k == 0 { c } else { polled(poll_n(c, s, (k - 1) as nat), s).0 }
}

/// One poll of a consumer assigned the single partition `e`, not paused, whose position
/// `o` lies within what the partition retains: it delivers the message at `o` and moves
/// the position to `o + 1`, changing nothing else but where the next round starts.
proof fn lemma_poll_at<T>(c: ConsumerView, s: BrokerView<T>, o: i64)
    requires
        s.backend.valid(),
        !s.backend.shutdown,
        c.assigned.len() == 1,
        !c.paused.contains((c.assigned[0].0, c.assigned[0].1)),
        position_of(c, (c.assigned[0].0, c.assigned[0].1)) == Some(o),
        s.backend.find(c.assigned[0].0) is Some,
        s.backend.topic(c.assigned[0].0).has_partition(c.assigned[0].1),
        ({
            let pt = s.backend.topic(c.assigned[0].0).partitions[c.assigned[0].1 as int];
            pt.oldest() <= o < pt.next_offset
        }),
    ensures
        ({
            let e = c.assigned[0];
            let pt = s.backend.topic(e.0).partitions[e.1 as int];
            &&& polled(c, s).1 == PollOutcome::<T>::Delivered(pt.log[o - pt.oldest()])
            &&& pt.log[o - pt.oldest()].offset == o
            &&& polled(c, s).0 == (ConsumerView {
                positions: c.positions.insert((e.0, e.1), (o + 1) as i64),
                poll_start: 1usize,
                ..c
            })
        }),
{
    reveal_with_fuel(crate::base_consumer::poll_scan, 2);
    let e = c.assigned[0];
    let key = (e.0, e.1);
    assert(c.poll_start % (1usize) == 0);
    assert(scan_index(0, 0, 1) == 0);
    let b = s.backend;
    lemma_found_name(b, e.0);
    let pt = b.topic(e.0).partitions[e.1 as int];
    assert(b.topics[b.find(e.0)->0].valid());
    assert(pt.valid());
    assert(start_offset(s, e.0, e.1, position_of(c, key), c.group_id) == o);
    assert(pt.locate(o as int) == Some(Some(o - pt.oldest())));
    assert(pt.log[o - pt.oldest()].offset == pt.oldest() + (o - pt.oldest()));
}

/// A consumer assigned a single partition, not paused, reads it in produce order: with
/// the broker unchanged, the `i`-th of `k` successive polls from position `o` delivers
/// the message at offset `o + i`, none skipped or repeated, as long as the partition
/// retains offsets `o` to `o + k - 1`.
pub proof fn law_polls_read_in_order<T>(c: ConsumerView, s: BrokerView<T>, o: i64, k: nat)
    requires
        s.backend.valid(),
        !s.backend.shutdown,
        c.assigned.len() == 1,
        !c.paused.contains((c.assigned[0].0, c.assigned[0].1)),
        position_of(c, (c.assigned[0].0, c.assigned[0].1)) == Some(o),
        s.backend.find(c.assigned[0].0) is Some,
        s.backend.topic(c.assigned[0].0).has_partition(c.assigned[0].1),
        ({
            let pt = s.backend.topic(c.assigned[0].0).partitions[c.assigned[0].1 as int];
            pt.oldest() <= o && o + k <= pt.next_offset
        }),
    ensures
        forall|i: int| 0 <= i < k ==> {
            let pt = s.backend.topic(c.assigned[0].0).partitions[c.assigned[0].1 as int];
            &&& #[trigger] polled(poll_n(c, s, i as nat), s).1 == PollOutcome::<T>::Delivered(pt.log[o + i - pt.oldest()])
            &&& pt.log[o + i - pt.oldest()].offset == o + i
        },
        ({
            let pt = s.backend.topic(c.assigned[0].0).partitions[c.assigned[0].1 as int];
            o + k == pt.next_offset ==> polled(poll_n(c, s, k), s).1 is Idle
        }),
{
    let e = c.assigned[0];
    let pt = s.backend.topic(e.0).partitions[e.1 as int];
    lemma_partition_valid(s, e.0, e.1);
    assert forall|i: int| 0 <= i < k implies {
        &&& #[trigger] polled(poll_n(c, s, i as nat), s).1 == PollOutcome::<T>::Delivered(pt.log[o + i - pt.oldest()])
        &&& pt.log[o + i - pt.oldest()].offset == o + i
    } by {
        lemma_poll_n_position(c, s, o, k, i as nat);
        let ci = poll_n(c, s, i as nat);
        lemma_poll_at(ci, s, (o + i) as i64);
    }
    if o + k == pt.next_offset {
        lemma_poll_n_position(c, s, o, k, k);
        let ck = poll_n(c, s, k);
        reveal_with_fuel(crate::base_consumer::poll_scan, 2);
        assert(ck.poll_start % (1usize) == 0);
        assert(scan_index(0, 0, 1) == 0);
        assert(start_offset(s, e.0, e.1, position_of(ck, (e.0, e.1)), ck.group_id) == o + k);
        assert(pt.locate(o + k) == Some(None::<int>));
    }
}

proof fn lemma_poll_n_position<T>(c: ConsumerView, s: BrokerView<T>, o: i64, k: nat, i: nat)
    requires
        s.backend.valid(),
        !s.backend.shutdown,
        c.assigned.len() == 1,
        !c.paused.contains((c.assigned[0].0, c.assigned[0].1)),
        position_of(c, (c.assigned[0].0, c.assigned[0].1)) == Some(o),
        s.backend.find(c.assigned[0].0) is Some,
        s.backend.topic(c.assigned[0].0).has_partition(c.assigned[0].1),
        ({
            let pt = s.backend.topic(c.assigned[0].0).partitions[c.assigned[0].1 as int];
            pt.oldest() <= o && o + k <= pt.next_offset
        }),
        i <= k,
    ensures
        poll_n(c, s, i).assigned == c.assigned,
        poll_n(c, s, i).paused == c.paused,
        position_of(poll_n(c, s, i), (c.assigned[0].0, c.assigned[0].1)) == Some((o + i) as i64),
    decreases i,
{
    lemma_partition_valid(s, c.assigned[0].0, c.assigned[0].1);
    if i > 0 {
        lemma_poll_n_position(c, s, o, k, (i - 1) as nat);
        let cp = poll_n(c, s, (i - 1) as nat);
        assert(cp.assigned[0] == c.assigned[0]);
        lemma_poll_at(cp, s, (o + i - 1) as i64);
        assert(poll_n(c, s, i) == polled(cp, s).0);
    }
}

/// A scan leaves the assignment and the paused set as they were.
proof fn lemma_scan_keeps_pauses<T>(c: ConsumerView, s: BrokerView<T>, start: int, k: int)
    ensures
        poll_scan(c, s, start, k).0.assigned == c.assigned,
        poll_scan(c, s, start, k).0.paused == c.paused,
    decreases c.assigned.len() - k,
{
    if 0 <= k < c.assigned.len() {
        let idx = scan_index(start, k, c.assigned.len() as int);
        let e = c.assigned[idx];
        let key = (e.0, e.1);
        if c.paused.contains(key) {
            lemma_scan_keeps_pauses(c, s, start, k + 1);
        } else {
            match fetch_outcome(s, e.0, e.1, position_of(c, key), c.group_id) {
                FetchOutcome::Resume(o) => {
                    let c2 = ConsumerView { positions: c.positions.insert(key, o), ..c };
                    lemma_scan_keeps_pauses(c2, s, start, k + 1);
                },
                FetchOutcome::Nothing | FetchOutcome::Skip => {
                    lemma_scan_keeps_pauses(c, s, start, k + 1);
                },
                _ => {},
            }
        }
    }
}

/// A scan delivers nothing from a paused partition.
proof fn lemma_scan_skips_paused<T>(c: ConsumerView, s: BrokerView<T>, start: int, k: int)
    requires
        s.backend.valid(),
        0 <= start < c.assigned.len(),
    ensures
        poll_scan(c, s, start, k).1 matches PollOutcome::Delivered(m) ==> !c.paused.contains((m.topic, m.partition)),
    decreases c.assigned.len() - k,
{
    if 0 <= k < c.assigned.len() {
        let idx = scan_index(start, k, c.assigned.len() as int);
        let e = c.assigned[idx];
        let key = (e.0, e.1);
        if c.paused.contains(key) {
            lemma_scan_skips_paused(c, s, start, k + 1);
        } else {
            match fetch_outcome(s, e.0, e.1, position_of(c, key), c.group_id) {
                FetchOutcome::Message(m) => {
                    let b = s.backend;
                    lemma_found_name(b, e.0);
                    let pt = b.topic(e.0).partitions[e.1 as int];
                    assert(b.topics[b.find(e.0)->0].valid());
                    assert(pt.valid());
                    let i = pt.locate(start_offset(s, e.0, e.1, position_of(c, key), c.group_id) as int)->0->0;
                    assert(pt.log[i].partition == pt.id && pt.log[i].topic == pt.topic);
                },
                FetchOutcome::Resume(o) => {
                    let c2 = ConsumerView { positions: c.positions.insert(key, o), ..c };
                    lemma_scan_skips_paused(c2, s, start, k + 1);
                },
                _ => {
                    lemma_scan_skips_paused(c, s, start, k + 1);
                },
            }
        }
    }
}

/// A paused partition stays paused across polls, and no poll delivers a message of it:
/// until the consumer resumes it, however many times it polls (the broker changing
/// between polls or not), nothing of that partition is delivered.
pub proof fn law_paused_partition_stays_silent<T>(
    consumers: Seq<ConsumerView>,
    brokers: Seq<BrokerView<T>>,
    key: (Seq<char>, i32),
)
    requires
        consumers.len() == brokers.len() + 1,
        consumers[0].paused.contains(key),
        consumers[0].assigned.len() <= usize::MAX,
        forall|i: int| 0 <= i < brokers.len() ==> (#[trigger] brokers[i]).backend.valid(),
        forall|i: int| 0 <= i < brokers.len() ==> #[trigger] consumers[i + 1] == polled(consumers[i], brokers[i]).0,
    ensures
        forall|i: int| 0 <= i < consumers.len() ==> (#[trigger] consumers[i]).paused.contains(key),
        forall|i: int| 0 <= i < brokers.len() ==>
            !(#[trigger] polled(consumers[i], brokers[i]).1 matches PollOutcome::Delivered(m) && (m.topic, m.partition) == key),
{
    assert forall|i: int| 0 <= i < consumers.len() implies
        (#[trigger] consumers[i]).paused == consumers[0].paused && consumers[i].assigned == consumers[0].assigned by {
        lemma_polls_keep_pauses(consumers, brokers, i);
    }
    assert forall|i: int| 0 <= i < brokers.len() implies
        !(#[trigger] polled(consumers[i], brokers[i]).1 matches PollOutcome::Delivered(m) && (m.topic, m.partition) == key) by {
        let c = consumers[i];
        assert(c.paused == consumers[0].paused && c.assigned == consumers[0].assigned);
        if c.assigned.len() > 0 {
            let n = c.assigned.len() as usize;
            assert(c.poll_start % n < n);
            lemma_scan_skips_paused(c, brokers[i], (c.poll_start % n) as int, 0);
        }
    }
}

proof fn lemma_polls_keep_pauses<T>(consumers: Seq<ConsumerView>, brokers: Seq<BrokerView<T>>, i: int)
    requires
        consumers.len() == brokers.len() + 1,
        forall|j: int| 0 <= j < brokers.len() ==> #[trigger] consumers[j + 1] == polled(consumers[j], brokers[j]).0,
        0 <= i < consumers.len(),
    ensures
        consumers[i].paused == consumers[0].paused,
        consumers[i].assigned == consumers[0].assigned,
    decreases i,
{
    if i > 0 {
        lemma_polls_keep_pauses(consumers, brokers, i - 1);
        let c = consumers[i - 1];
        assert(consumers[(i - 1) + 1] == polled(c, brokers[i - 1]).0);
        if c.assigned.len() > 0 {
            lemma_scan_keeps_pauses(c, brokers[i - 1], (c.poll_start % (c.assigned.len() as usize)) as int, 0);
        }
    }
}

} // verus!
