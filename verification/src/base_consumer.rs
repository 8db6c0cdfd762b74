use vstd::prelude::*;
use std::sync::Arc;
use crate::broker::{Broker, BrokerView, start_offset, fetched_from, broker_joined, joined_assignment, broker_left};
use crate::broker_backend::{BackendView, describes, metadata_outcome};
use crate::error::{is_group_not_found, is_topic_not_found, is_partition_out_of_range};
use crate::offset_store::OffsetKey;
use crate::consumer::CommitMode;
use crate::config::{RmqClientConfig, config_keys};
use crate::context::{ConsumerContext, DefaultConsumerContext, RebalanceEvent};
use crate::error::{RmqError, RmqResult};
use crate::message::{BorrowedMessage, MessageView};
use crate::partition_table::{PositionTable, PartitionSet, PartitionKey};
use crate::partitioner::Partitioner;
use crate::topic_partition::{TopicPartitionList, Offset, ElemView, copy_string};
use crate::partition_assignor::strings_view;
use crate::keys::lemma_contains_push;
use crate::numparse::{decimal_text, decimal_string};
use vstd::string::StringExecFns;

verus! {

/// The abstract content of a consumer.
pub struct ConsumerView {
    /// The consumer group, if one is configured.
    pub group_id: Option<Seq<char>>,
    /// This consumer's member id.
    pub member_id: Seq<char>,
    /// The subscribed topics.
    pub subscribed: Seq<Seq<char>>,
    /// The assigned partitions, in polling order.
    pub assigned: Seq<ElemView>,
    /// The next offset to read, per topic-partition.
    pub positions: Map<PartitionKey, i64>,
    /// The paused topic-partitions.
    pub paused: Set<PartitionKey>,
    /// Where the next poll starts in the assignment (taken modulo its length).
    pub poll_start: usize,
}

/// What one read of a partition gives.
pub enum FetchOutcome<T> {
    /// The message read.
    Message(MessageView<T>),
    /// No message at the position yet.
    Nothing,
    /// The topic or partition does not exist.
    Skip,
    /// The position is out of range; reading resumes at this offset.
    Resume(i64),
    /// The broker has been shut down.
    Fail,
}

/// The outcome of reading `topic`/`partition` of broker `s`, at `position` or, without
/// one, where group `group` left off.
pub open spec fn fetch_outcome<T>(
    s: BrokerView<T>,
    topic: Seq<char>,
    partition: i32,
    position: Option<i64>,
    group: Option<Seq<char>>,
) -> FetchOutcome<T> {
    let b = s.backend;
    if b.shutdown {
        FetchOutcome::Fail
    } else if b.find(topic) is None || !b.topic(topic).has_partition(partition) {
        FetchOutcome::Skip
    } else {
        let pt = b.topic(topic).partitions[partition as int];
        match pt.locate(start_offset(s, topic, partition, position, group) as int) {
            None => FetchOutcome::Resume(pt.watermarks().0 as i64),
            Some(None) => FetchOutcome::Nothing,
            Some(Some(i)) => FetchOutcome::Message(pt.log[i]),
        }
    }
}

/// What a poll gives.
pub enum PollOutcome<T> {
    /// No message is available.
    Idle,
    /// This message was read.
    Delivered(MessageView<T>),
    /// The broker has been shut down.
    Refused,
}

/// The position of the consumer `c` for `key`, if it has one.
pub open spec fn position_of(c: ConsumerView, key: PartitionKey) -> Option<i64> {
    if c.positions.contains_key(key) { Some(c.positions[key]) } else { None }
}

/// The assignment index visited at step `k` of a scan that starts at `start`.
pub open spec fn scan_index(start: int, k: int, len: int) -> int {
    if start + k < len { start + k } else { start + k - len }
}

/// The scan of the assignment of consumer `c` over broker `s`, from step `k` of a
/// round that starts at index `start`: paused and missing partitions are skipped, a
/// position out of range is moved to where reading resumes, and the first message found
/// is delivered, after which its partition's position moves past it and the next poll
/// starts after its partition.
pub open spec fn poll_scan<T>(c: ConsumerView, s: BrokerView<T>, start: int, k: int) -> (ConsumerView, PollOutcome<T>)
    decreases c.assigned.len() - k,
{
    if k < 0 || k >= c.assigned.len() {
        (c, PollOutcome::Idle)
    } else {
        let idx = scan_index(start, k, c.assigned.len() as int);
        let e = c.assigned[idx];
        let key = (e.0, e.1);
        if c.paused.contains(key) {
            poll_scan(c, s, start, k + 1)
        } else {
            match fetch_outcome(s, e.0, e.1, position_of(c, key), c.group_id) {
                FetchOutcome::Message(m) => (
                    ConsumerView { positions: c.positions.insert(key, (m.offset + 1) as i64), poll_start: (idx + 1) as usize, ..c },
                    PollOutcome::Delivered(m),
                ),
                FetchOutcome::Nothing => poll_scan(c, s, start, k + 1),
                FetchOutcome::Skip => poll_scan(c, s, start, k + 1),
                FetchOutcome::Resume(o) => poll_scan(ConsumerView { positions: c.positions.insert(key, o), ..c }, s, start, k + 1),
                FetchOutcome::Fail => (c, PollOutcome::Refused),
            }
        }
    }
}

/// One poll of consumer `c` over broker `s`: a round over its assignment starting where
/// the last poll left off.
pub open spec fn polled<T>(c: ConsumerView, s: BrokerView<T>) -> (ConsumerView, PollOutcome<T>) {
    if c.assigned.len() == 0 {
        (c, PollOutcome::Idle)
    } else {
        poll_scan(c, s, (c.poll_start % (c.assigned.len() as usize)) as int, 0)
    }
}

/// A synchronous message consumer: subscription, assignment, positions and paused
/// partitions, read from a [`Broker`] one poll at a time.
pub struct BaseConsumer<C = DefaultConsumerContext> {
    group_id: Option<String>,
    member_id: String,
    context: Arc<C>,
    subscribed_topics: Vec<String>,
    assigned_partitions: TopicPartitionList,
    position: PositionTable,
    paused: PartitionSet,
    poll_start: usize,
}

impl<C> View for BaseConsumer<C> {
    type V = ConsumerView;

    closed spec fn view(&self) -> ConsumerView {
        ConsumerView {
            group_id: match self.group_id {
                Some(g) => Some(g@),
                None => None,
            },
            member_id: self.member_id@,
            subscribed: strings_view(self.subscribed_topics@),
            assigned: self.assigned_partitions@,
            positions: self.position@,
            paused: self.paused@,
            poll_start: self.poll_start,
        }
    }
}

/// The group configured in `config`, if any.
pub open spec fn configured_group(config: Map<Seq<char>, Seq<char>>) -> Option<Seq<char>> {
    if config.contains_key(config_keys::GROUP_ID@) { Some(config[config_keys::GROUP_ID@]) } else { None }
}

/// A fresh consumer with member id `member_id` in group `group_id`: nothing subscribed,
/// assigned, positioned or paused.
pub open spec fn fresh_consumer(group_id: Option<Seq<char>>, member_id: Seq<char>) -> ConsumerView {
    ConsumerView {
        group_id,
        member_id,
        subscribed: Seq::empty(),
        assigned: Seq::empty(),
        positions: Map::empty(),
        paused: Set::empty(),
        poll_start: 0,
    }
}

impl BaseConsumer<DefaultConsumerContext> {
    /// Creates a consumer with member id `member_id` and the default context, in the
    /// group that `config` names under `group.id`, if any.
    pub fn new(config: &RmqClientConfig, member_id: String) -> (r: Self)
        ensures
            r@ == fresh_consumer(configured_group(config@), member_id@),
    {
        Self::with_context(config, DefaultConsumerContext, member_id)
    }
}

impl<C: ConsumerContext> BaseConsumer<C> {
    /// A consumer's assignment holds at most `usize::MAX` partitions, as the laws on
    /// polling ask.
    pub proof fn lemma_assignment_fits(&self)
        ensures
            self@.assigned.len() <= usize::MAX,
    {
        self.assigned_partitions.lemma_len_fits();
    }

    /// Creates a consumer with member id `member_id` and a custom context, in the group
    /// that `config` names under `group.id`, if any.
    pub fn with_context(config: &RmqClientConfig, context: C, member_id: String) -> (r: Self)
        ensures
            r@ == fresh_consumer(configured_group(config@), member_id@),
    {
        let group_id = match config.get(config_keys::GROUP_ID) {
            Some(s) => Some(s.to_owned()),
            None => None,
        };
        let r = Self {
            group_id,
            member_id,
            context: Arc::new(context),
            subscribed_topics: Vec::new(),
            assigned_partitions: TopicPartitionList::new(),
            position: PositionTable::new(),
            paused: PartitionSet::new(),
            poll_start: 0,
        };
        assert(r@.subscribed =~= Seq::<Seq<char>>::empty());
        r
    }

    /// A new consumer sharing this consumer's context, with member id `member_id`, no
    /// group, and nothing subscribed, assigned, positioned or paused.
    pub fn fresh_copy(&self, member_id: String) -> (r: Self)
        ensures
            r@ == fresh_consumer(None, member_id@),
    {
        let r = Self {
            group_id: None,
            member_id,
            context: self.context.clone(),
            subscribed_topics: Vec::new(),
            assigned_partitions: TopicPartitionList::new(),
            position: PositionTable::new(),
            paused: PartitionSet::new(),
            poll_start: 0,
        };
        assert(r@.subscribed =~= Seq::<Seq<char>>::empty());
        r
    }

    /// This consumer's member id.
    pub fn member_id(&self) -> (r: &str)
        ensures
            r@ == self@.member_id,
    {
        self.member_id.as_str()
    }

    /// A copy of the subscribed topics.
    pub fn subscribed_topics(&self) -> (r: Vec<String>)
        ensures
            strings_view(r@) == self@.subscribed,
    {
        crate::consumer_group::copy_strings(self.subscribed_topics.as_slice())
    }

    /// Reads at most one message: visits the assigned partitions once, in order, starting
    /// where the last poll left off, and returns the first message found (see
    /// [`polled`]); `None` when no partition has one.
    pub fn poll_once<'b, T, P: Partitioner>(&mut self, broker: &'b Broker<T, P>) -> (r: Option<RmqResult<BorrowedMessage<'b, T>>>)
        requires
            broker.wf(),
        ensures
            final(self)@ == polled(old(self)@, broker@).0,
            match polled(old(self)@, broker@).1 {
                PollOutcome::Idle => r is None,
                PollOutcome::Refused => r matches Some(Err(RmqError::BrokerShutdown)),
                PollOutcome::Delivered(m) => r matches Some(Ok(bm)) && bm@ == m,
            },
    {
        let len = self.assigned_partitions.count();
        if len == 0 {
            return None;
        }
        let start = self.poll_start % len;
        let ghost s = broker@;
        let mut i: usize = 0;
        while i < len
            invariant
                broker.wf(),
                s == broker@,
                0 <= i <= len,
                len == self@.assigned.len(),
                len > 0,
                start == old(self)@.poll_start % len,
                self@ == (ConsumerView { positions: self@.positions, ..old(self)@ }),
                poll_scan(self@, s, start as int, i as int) == polled(old(self)@, s),
            decreases len - i,
        {
            let idx: usize = if i < len - start { start + i } else { i - (len - start) };
            let ghost e = self@.assigned[idx as int];
            let topic: String = copy_string(&self.assigned_partitions.elements()[idx].topic);
            let partition: i32 = self.assigned_partitions.elements()[idx].partition;
            proof {
                assert(idx as int == scan_index(start as int, i as int, len as int));
                assert(e == self@.assigned[idx as int]);
                assert(topic@ == e.0 && partition == e.1);
            }
            if self.paused.contains(topic.as_str(), partition) {
                i += 1;
            } else {
                let position = self.position.get(topic.as_str(), partition);
                let group = match &self.group_id {
                    Some(g) => Some(g.as_str()),
                    None => None,
                };
                proof {
                    broker.lemma_wf_valid(topic@);
                    assert(crate::broker_backend::opt_text(group) == self@.group_id);
                }
                let fetched = broker.fetch_one_from_position(topic.as_str(), partition, position, group);
                match fetched {
                    Ok(Some(msg)) => {
                        let offset = msg.offset();
                        proof {
                            let pt = s.backend.topic(topic@).partitions[partition as int];
                            assert(pt.valid());
                            let j = pt.locate(start_offset(s, topic@, partition, position, self@.group_id) as int)->0->0;
                            assert(pt.log[j].offset == pt.oldest() + j);
                        }
                        self.position.insert(topic.as_str(), partition, offset + 1);
                        self.poll_start = idx + 1;
                        return Some(Ok(BorrowedMessage::new(msg)));
                    },
                    Ok(None) => {
                        i += 1;
                    },
                    Err(RmqError::OffsetOutOfRange { offset, .. }) => {
                        self.position.insert(topic.as_str(), partition, offset);
                        i += 1;
                    },
                    Err(RmqError::TopicNotFound(_)) => {
                        i += 1;
                    },
                    Err(RmqError::PartitionOutOfRange { .. }) => {
                        i += 1;
                    },
                    Err(e) => {
                        return Some(Err(e));
                    },
                }
            }
        }
        None
    }
}


/// The texts of a sequence of string slices.
pub open spec fn texts(v: Seq<&str>) -> Seq<Seq<char>> {
    v.map_values(|s: &str| s@)
}

/// The partitions of topic `t` in backend `b`, each with offset [`Offset::Stored`]; none
/// when the topic does not exist or the backend is shut down.
pub open spec fn topic_partitions<T>(b: BackendView<T>, t: Seq<char>) -> Seq<ElemView> {
    if !b.shutdown && b.find(t) is Some {
        Seq::new(b.topic(t).partitions.len(), |i: int| (t, i as i32, Offset::Stored))
    } else {
        Seq::empty()
    }
}

/// The partitions of each of `ts` in backend `b`, in order: what a consumer without a
/// group is assigned on subscribing.
pub open spec fn direct_assignment<T>(b: BackendView<T>, ts: Seq<Seq<char>>) -> Seq<ElemView>
    decreases ts.len(),
{
    if ts.len() == 0 {
        Seq::empty()
    } else {
        direct_assignment(b, ts.drop_last()) + topic_partitions(b, ts.last())
    }
}

/// Consumer `c` with nothing subscribed, assigned, positioned or paused.
pub open spec fn cleared(c: ConsumerView) -> ConsumerView {
    ConsumerView { subscribed: Seq::empty(), assigned: Seq::empty(), positions: Map::empty(), paused: Set::empty(), ..c }
}

/// The topic-partition keys of a sequence of elements.
pub open spec fn elem_keys(elems: Seq<ElemView>) -> Seq<PartitionKey> {
    elems.map_values(|e: ElemView| (e.0, e.1))
}

/// The set of topic-partition keys of a sequence of elements.
pub open spec fn key_set(elems: Seq<ElemView>) -> Set<PartitionKey> {
    Set::new(|k: PartitionKey| elem_keys(elems).contains(k))
}

/// The assignment with each partition's position as an [`Offset::Offset`], `-1` where
/// the consumer has none.
pub open spec fn positions_list(c: ConsumerView) -> Seq<ElemView> {
    c.assigned.map_values(|e: ElemView| (e.0, e.1, Offset::Offset(match position_of(c, (e.0, e.1)) {
        Some(o) => o,
        None => -1i64,
    })))
}

/// The outcome of consumer `c` (broker `s`) subscribing to `ts`, giving `c2` (`t`).
pub open spec fn subscribe_outcome<T>(c: ConsumerView, c2: ConsumerView, s: BrokerView<T>, t: BrokerView<T>, ts: Seq<Seq<char>>, r: RmqResult<()>) -> bool {
    match c.group_id {
        Some(g) => if s.backend.shutdown {
            r matches Err(RmqError::BrokerShutdown) && t == s && c2 == c
        } else {
            &&& r is Ok
            &&& t == broker_joined(s, g, c.member_id, ts)
            &&& joined_assignment(s, g, c.member_id, ts) == Some(c2.assigned)
            &&& c2 == (ConsumerView { subscribed: ts, assigned: c2.assigned, ..c })
        },
        None => {
            &&& r is Ok
            &&& t == s
            &&& c2 == (ConsumerView { subscribed: ts, assigned: direct_assignment(s.backend, ts), ..c })
        },
    }
}

/// The outcome of consumer `c` (broker `s`) unsubscribing, giving `c2` (`t`).
pub open spec fn unsubscribe_outcome<T>(c: ConsumerView, c2: ConsumerView, s: BrokerView<T>, t: BrokerView<T>, r: RmqResult<()>) -> bool {
    match c.group_id {
        Some(g) => if s.backend.shutdown {
            r matches Err(RmqError::BrokerShutdown) && t == s && c2 == c
        } else if s.find_group(g) is None {
            r matches Err(e) && is_group_not_found(e, g) && t == s && c2 == c
        } else {
            r is Ok && t == broker_left(s, g, c.member_id) && c2 == cleared(c)
        },
        None => r is Ok && t == s && c2 == cleared(c),
    }
}

impl<C: ConsumerContext> BaseConsumer<C> {
    /// Subscribes to `topics`. In a group, joins it through the broker (which creates
    /// missing topics) and takes the group's assignment; otherwise takes every partition
    /// of each existing topic. Reports the assignment to the context.
    pub fn subscribe<T, P: Partitioner>(&mut self, broker: &mut Broker<T, P>, topics: &[&str]) -> (r: RmqResult<()>)
        requires
            old(broker).wf(),
        ensures
            final(broker).wf(),
            subscribe_outcome(old(self)@, final(self)@, old(broker)@, final(broker)@, texts(topics@), r),
    {
        let ghost ts = texts(topics@);
        let mut topic_strings: Vec<String> = Vec::new();
        let mut i: usize = 0;
        while i < topics.len()
            invariant
                0 <= i <= topics@.len(),
                ts == texts(topics@),
                strings_view(topic_strings@) == ts.take(i as int),
            decreases topics@.len() - i,
        {
            let ghost before = topic_strings@;
            topic_strings.push(topics[i].to_owned());
            proof {
                assert(strings_view(topic_strings@) =~= strings_view(before).push(ts[i as int]));
                assert(ts.take(i + 1) =~= ts.take(i as int).push(ts[i as int]));
            }
            i += 1;
        }
        proof {
            assert(ts.take(i as int) =~= ts);
        }
        let assignment = match &self.group_id {
            Some(gid) => {
                match broker.join_group(gid.as_str(), self.member_id.as_str(), topic_strings.as_slice()) {
                    Ok(a) => a,
                    Err(e) => return Err(e),
                }
            },
            None => {
                let ghost b = broker@.backend;
                let mut tpl = TopicPartitionList::new();
                let mut k: usize = 0;
                proof {
                    assert(direct_assignment(b, ts.take(0)) =~= Seq::<ElemView>::empty());
                }
                while k < topic_strings.len()
                    invariant
                        0 <= k <= topic_strings@.len(),
                        strings_view(topic_strings@) == ts,
                        broker.wf(),
                        broker@ == old(broker)@,
                        b == broker@.backend,
                        tpl@ == direct_assignment(b, ts.take(k as int)),
                    decreases topic_strings@.len() - k,
                {
                    let ghost t = ts[k as int];
                    proof {
                        assert(ts.take(k + 1).drop_last() =~= ts.take(k as int));
                        assert(ts.take(k + 1).last() == t);
                        assert(topic_strings@[k as int]@ == t);
                        broker.lemma_wf_valid(t);
                    }
                    let ghost before = tpl@;
                    match broker.metadata(Some(topic_strings[k].as_str())) {
                        Ok(meta) => {
                            let ghost bt = b.topics[b.find(t)->0];
                            let mut a: usize = 0;
                            while a < meta.topics.len()
                                invariant
                                    meta.topics@.len() == 1,
                                    describes(meta.topics@[0], bt),
                                    bt == b.topic(t),
                                    bt.name == t,
                                    !b.shutdown && b.find(t) is Some,
                                    0 <= a <= 1,
                                    tpl@ == before + (if a == 0 { Seq::<ElemView>::empty() } else { topic_partitions(b, t) }),
                                decreases meta.topics@.len() - a,
                            {
                                let tm = &meta.topics[a];
                                let mut c: usize = 0;
                                while c < tm.partitions.len()
                                    invariant
                                        a == 0,
                                        *tm == meta.topics@[0],
                                        describes(*tm, bt),
                                        bt.name == t,
                                        0 <= c <= tm.partitions@.len(),
                                        tpl@ == before + Seq::new(c as nat, |j: int| (t, j as i32, Offset::Stored)),
                                    decreases tm.partitions@.len() - c,
                                {
                                    let ghost pre = tpl@;
                                    proof {
                                        assert(tm.partitions@[c as int].id == c);
                                    }
                                    tpl.add_partition_offset(tm.name.as_str(), tm.partitions[c].id, Offset::Stored);
                                    proof {
                                        assert(tpl@ =~= before + Seq::new((c + 1) as nat, |j: int| (t, j as i32, Offset::Stored)));
                                    }
                                    c += 1;
                                }
                                proof {
                                    assert(Seq::new(c as nat, |j: int| (t, j as i32, Offset::Stored)) =~= topic_partitions(b, t));
                                }
                                a += 1;
                            }
                        },
                        Err(_) => {
                            proof {
                                assert(topic_partitions(b, t) =~= Seq::<ElemView>::empty());
                                assert(tpl@ =~= before + topic_partitions(b, t));
                            }
                        },
                    }
                    k += 1;
                }
                proof {
                    assert(ts.take(k as int) =~= ts);
                }
                tpl
            },
        };
        self.context.rebalance(&RebalanceEvent::Assigned(assignment.copy_list()));
        self.subscribed_topics = topic_strings;
        self.assigned_partitions = assignment;
        Ok(())
    }

    /// Unsubscribes: leaves the group (if any) through the broker, reports the revoked
    /// assignment to the context, and clears subscription, assignment, positions and
    /// paused partitions.
    pub fn unsubscribe<T, P: Partitioner>(&mut self, broker: &mut Broker<T, P>) -> (r: RmqResult<()>)
        requires
            old(broker).wf(),
        ensures
            final(broker).wf(),
            unsubscribe_outcome(old(self)@, final(self)@, old(broker)@, final(broker)@, r),
    {
        let old_assignment = self.assigned_partitions.copy_list();
        match &self.group_id {
            Some(gid) => {
                match broker.leave_group(gid.as_str(), self.member_id.as_str()) {
                    Ok(()) => {},
                    Err(e) => return Err(e),
                }
            },
            None => {},
        }
        self.context.rebalance(&RebalanceEvent::Revoked(old_assignment));
        self.subscribed_topics = Vec::new();
        self.assigned_partitions = TopicPartitionList::new();
        self.position.clear();
        self.paused.clear();
        proof {
            assert(self@.subscribed =~= Seq::<Seq<char>>::empty());
        }
        Ok(())
    }

    /// A copy of the assigned partitions.
    pub fn subscription(&self) -> (r: RmqResult<TopicPartitionList>)
        ensures
            r matches Ok(l) && l@ == self@.assigned,
    {
        Ok(self.assigned_partitions.copy_list())
    }

    /// Assigns `partitions` to this consumer and forgets all positions.
    pub fn assign(&mut self, partitions: &TopicPartitionList) -> (r: RmqResult<()>)
        ensures
            r is Ok,
            final(self)@ == (ConsumerView { assigned: partitions@, positions: Map::empty(), ..old(self)@ }),
    {
        self.assigned_partitions = partitions.copy_list();
        self.position.clear();
        Ok(())
    }

    /// A copy of the assigned partitions.
    pub fn assignment(&self) -> (r: RmqResult<TopicPartitionList>)
        ensures
            r matches Ok(l) && l@ == self@.assigned,
    {
        Ok(self.assigned_partitions.copy_list())
    }

    /// Records `offset` as the position of `topic`/`partition` (locally, not committed).
    pub fn store_offset(&mut self, topic: &str, partition: i32, offset: i64) -> (r: RmqResult<()>)
        ensures
            r is Ok,
            final(self)@ == (ConsumerView { positions: old(self)@.positions.insert((topic@, partition), offset), ..old(self)@ }),
    {
        self.position.insert(topic, partition, offset);
        Ok(())
    }

    /// The position of each assigned partition, `-1` where none is known.
    pub fn position(&self) -> (r: RmqResult<TopicPartitionList>)
        ensures
            r matches Ok(l) && l@ == positions_list(self@),
    {
        let mut tpl = TopicPartitionList::new();
        let elems = self.assigned_partitions.elements();
        let mut i: usize = 0;
        while i < elems.len()
            invariant
                0 <= i <= elems@.len(),
                crate::topic_partition::elems_view(elems@) == self@.assigned,
                tpl@ == positions_list(self@).take(i as int),
            decreases elems@.len() - i,
        {
            let e = &elems[i];
            proof {
                assert(e@ == self@.assigned[i as int]);
            }
            let offset = match self.position.get(e.topic.as_str(), e.partition) {
                Some(o) => o,
                None => -1,
            };
            tpl.add_partition_offset(e.topic.as_str(), e.partition, Offset::Offset(offset));
            proof {
                assert(positions_list(self@).take(i + 1) =~= positions_list(self@).take(i as int).push(positions_list(self@)[i as int]));
            }
            i += 1;
        }
        proof {
            assert(positions_list(self@).take(i as int) =~= positions_list(self@));
        }
        Ok(tpl)
    }

    /// Pauses the given partitions: polling skips them.
    pub fn pause(&mut self, partitions: &TopicPartitionList) -> (r: RmqResult<()>)
        ensures
            r is Ok,
            final(self)@ == (ConsumerView { paused: old(self)@.paused.union(key_set(partitions@)), ..old(self)@ }),
    {
        let elems = partitions.elements();
        let mut i: usize = 0;
        proof {
            assert(key_set(partitions@.take(0)) =~= Set::<PartitionKey>::empty());
            assert(old(self)@.paused.union(key_set(partitions@.take(0))) =~= old(self)@.paused);
        }
        while i < elems.len()
            invariant
                0 <= i <= elems@.len(),
                crate::topic_partition::elems_view(elems@) == partitions@,
                self@ == (ConsumerView { paused: old(self)@.paused.union(key_set(partitions@.take(i as int))), ..old(self)@ }),
            decreases elems@.len() - i,
        {
            let e = &elems[i];
            proof {
                assert(e@ == partitions@[i as int]);
            }
            let ghost before = self@.paused;
            self.paused.insert(e.topic.as_str(), e.partition);
            proof {
                let x = (partitions@[i as int].0, partitions@[i as int].1);
                assert(elem_keys(partitions@.take(i + 1)) =~= elem_keys(partitions@.take(i as int)).push(x));
                assert forall|k: PartitionKey| elem_keys(partitions@.take(i + 1)).contains(k)
                    == (elem_keys(partitions@.take(i as int)).contains(k) || k == x) by {
                    lemma_contains_push(elem_keys(partitions@.take(i as int)), x, k);
                }
                assert(self@.paused == before.insert(x));
                assert forall|k: PartitionKey| #[trigger] self@.paused.contains(k)
                    == old(self)@.paused.union(key_set(partitions@.take(i + 1))).contains(k) by {
                    assert(key_set(partitions@.take(i + 1)).contains(k) == elem_keys(partitions@.take(i + 1)).contains(k));
                    assert(key_set(partitions@.take(i as int)).contains(k) == elem_keys(partitions@.take(i as int)).contains(k));
                }
                assert(self@.paused =~= old(self)@.paused.union(key_set(partitions@.take(i + 1))));
            }
            i += 1;
        }
        proof {
            assert(partitions@.take(i as int) =~= partitions@);
        }
        Ok(())
    }

    /// Resumes the given partitions.
    pub fn resume(&mut self, partitions: &TopicPartitionList) -> (r: RmqResult<()>)
        ensures
            r is Ok,
            final(self)@ == (ConsumerView { paused: old(self)@.paused.difference(key_set(partitions@)), ..old(self)@ }),
    {
        let elems = partitions.elements();
        let mut i: usize = 0;
        proof {
            assert(key_set(partitions@.take(0)) =~= Set::<PartitionKey>::empty());
            assert(old(self)@.paused.difference(key_set(partitions@.take(0))) =~= old(self)@.paused);
        }
        while i < elems.len()
            invariant
                0 <= i <= elems@.len(),
                crate::topic_partition::elems_view(elems@) == partitions@,
                self@ == (ConsumerView { paused: old(self)@.paused.difference(key_set(partitions@.take(i as int))), ..old(self)@ }),
            decreases elems@.len() - i,
        {
            let e = &elems[i];
            proof {
                assert(e@ == partitions@[i as int]);
            }
            self.paused.remove(e.topic.as_str(), e.partition);
            proof {
                let x = (partitions@[i as int].0, partitions@[i as int].1);
                assert(elem_keys(partitions@.take(i + 1)) =~= elem_keys(partitions@.take(i as int)).push(x));
                assert forall|k: PartitionKey| elem_keys(partitions@.take(i + 1)).contains(k)
                    == (elem_keys(partitions@.take(i as int)).contains(k) || k == x) by {
                    lemma_contains_push(elem_keys(partitions@.take(i as int)), x, k);
                }
                assert(self@.paused =~= old(self)@.paused.difference(key_set(partitions@.take(i + 1))));
            }
            i += 1;
        }
        proof {
            assert(partitions@.take(i as int) =~= partitions@);
        }
        Ok(())
    }
}


/// The watermarks of `topic`/`partition` in backend `b`, where it exists.
pub open spec fn watermarks_of<T>(b: BackendView<T>, topic: Seq<char>, partition: i32) -> (int, int) {
    b.topic(topic).partitions[partition as int].watermarks()
}

/// Whether `topic`/`partition` can be looked up in backend `b`.
pub open spec fn readable<T>(b: BackendView<T>, topic: Seq<char>, partition: i32) -> bool {
    !b.shutdown && b.find(topic) is Some && b.topic(topic).has_partition(partition)
}

/// The position a seek to `offset` sets for `topic`/`partition`, or `None` when the
/// lookup it needs fails: the oldest offset for the beginning, one past the newest for the
/// end, the group's committed offset (`0` if none, or without a group) for the stored
/// offset, and `tail` before the end (not below `0`) for a tail offset.
pub open spec fn seek_target<T>(s: BrokerView<T>, group: Option<Seq<char>>, topic: Seq<char>, partition: i32, offset: Offset) -> Option<i64> {
    match offset {
        Offset::Offset(o) => Some(o),
        Offset::Stored => match group {
            None => Some(0),
            Some(g) => if s.backend.shutdown || s.find_group(g) is None {
                None
            } else {
                Some(match s.committed(g, topic, partition) {
                    Some(o) => o,
                    None => 0,
                })
            },
        },
        _ => if !readable(s.backend, topic, partition) {
            None
        } else {
            let w = watermarks_of(s.backend, topic, partition);
            Some(match offset {
                Offset::Beginning => w.0 as i64,
                Offset::End => (w.1 + 1) as i64,
                Offset::OffsetTail(t) => if w.1 + 1 - t > 0 { (w.1 + 1 - t) as i64 } else { 0 },
                _ => 0,
            })
        },
    }
}

/// The error of a failed seek lookup.
pub open spec fn seek_error<T>(s: BrokerView<T>, group: Option<Seq<char>>, topic: Seq<char>, partition: i32, offset: Offset, e: RmqError) -> bool {
    if s.backend.shutdown {
        e matches RmqError::BrokerShutdown
    } else if offset is Stored {
        group matches Some(g) && is_group_not_found(e, g)
    } else if s.backend.find(topic) is None {
        is_topic_not_found(e, topic)
    } else {
        is_partition_out_of_range(e, topic, partition)
    }
}

/// The committed offsets after group `g` commits each element of `elems` that carries an
/// [`Offset::Offset`], in order.
pub open spec fn offsets_committed(m: Map<OffsetKey, i64>, g: Seq<char>, elems: Seq<ElemView>) -> Map<OffsetKey, i64>
    decreases elems.len(),
{
    if elems.len() == 0 {
        m
    } else {
        let m1 = offsets_committed(m, g, elems.drop_last());
        match elems.last().2 {
            Offset::Offset(o) => m1.insert((g, elems.last().0, elems.last().1), o),
            _ => m1,
        }
    }
}

/// Whether some element carries an [`Offset::Offset`].
pub open spec fn has_offset_entry(elems: Seq<ElemView>) -> bool {
    exists|i: int| 0 <= i < elems.len() && #[trigger] elems[i].2 is Offset
}

/// Without offset-carrying elements, committing changes nothing.
proof fn lemma_no_offsets(m: Map<OffsetKey, i64>, g: Seq<char>, elems: Seq<ElemView>)
    requires
        !has_offset_entry(elems),
    ensures
        offsets_committed(m, g, elems) == m,
    decreases elems.len(),
{
    if elems.len() > 0 {
        let init = elems.drop_last();
        assert(!has_offset_entry(init)) by {
            if has_offset_entry(init) {
                let i = choose|i: int| 0 <= i < init.len() && #[trigger] init[i].2 is Offset;
                assert(elems[i].2 is Offset);
            }
        }
        lemma_no_offsets(m, g, init);
        assert(!(elems[elems.len() - 1].2 is Offset));
    }
}

/// Broker `s` after consumer group `g` commits the offsets of `elems`: refused (and
/// unchanged) when some element carries an offset and the broker is shut down or the
/// group does not exist.
pub open spec fn commit_outcome<T>(s: BrokerView<T>, t: BrokerView<T>, g: Seq<char>, elems: Seq<ElemView>, r: RmqResult<()>) -> bool {
    if has_offset_entry(elems) && s.backend.shutdown {
        r matches Err(RmqError::BrokerShutdown) && t == s
    } else if has_offset_entry(elems) && s.find_group(g) is None {
        r matches Err(e) && is_group_not_found(e, g) && t == s
    } else {
        r is Ok && t == (BrokerView::<T> { offsets: offsets_committed(s.offsets, g, elems), ..s })
    }
}

/// The assignment with each partition's offset committed by group `g` as an
/// [`Offset::Offset`], `-1` where none is.
pub open spec fn committed_list<T>(s: BrokerView<T>, g: Seq<char>, elems: Seq<ElemView>) -> Seq<ElemView> {
    elems.map_values(|e: ElemView| (e.0, e.1, Offset::Offset(match s.committed(g, e.0, e.1) {
        Some(o) => o,
        None => -1i64,
    })))
}

/// The outcome of consumer `c` seeking `topic`/`partition` to `offset` in broker `s`,
/// giving `c2`.
pub open spec fn seek_outcome<T>(c: ConsumerView, c2: ConsumerView, s: BrokerView<T>, topic: Seq<char>, partition: i32, offset: Offset, r: RmqResult<()>) -> bool {
    match seek_target(s, c.group_id, topic, partition, offset) {
        Some(o) => r is Ok && c2 == (ConsumerView { positions: c.positions.insert((topic, partition), o), ..c }),
        None => r matches Err(e) && seek_error(s, c.group_id, topic, partition, offset, e) && c2 == c,
    }
}

/// The outcome of consumer `c` committing `elems` to broker `s`, giving `t`: nothing
/// is committed without a group.
pub open spec fn consumer_commit_outcome<T>(c: ConsumerView, s: BrokerView<T>, t: BrokerView<T>, elems: Seq<ElemView>, r: RmqResult<()>) -> bool {
    match c.group_id {
        Some(g) => commit_outcome(s, t, g, elems, r),
        None => r is Ok && t == s,
    }
}

impl<C: ConsumerContext> BaseConsumer<C> {
    /// Moves the position of `topic`/`partition` to `offset`, resolved against the broker
    /// (see [`seek_target`]).
    pub fn seek<T, P: Partitioner>(&mut self, broker: &Broker<T, P>, topic: &str, partition: i32, offset: Offset) -> (r: RmqResult<()>)
        requires
            broker.wf(),
            (offset matches Offset::OffsetTail(t) && readable(broker@.backend, topic@, partition))
                ==> watermarks_of(broker@.backend, topic@, partition).1 + 1 - offset->OffsetTail_0 <= i64::MAX,
        ensures
            seek_outcome(old(self)@, final(self)@, broker@, topic@, partition, offset, r),
    {
        proof {
            broker.lemma_wf_valid(topic@);
            if readable(broker@.backend, topic@, partition) {
                assert(broker@.backend.topic(topic@).partitions[partition as int].valid());
            }
        }
        let offset_val: i64 = match offset {
            Offset::Beginning => match broker.watermarks(topic, partition) {
                Ok((oldest, _)) => oldest,
                Err(e) => return Err(e),
            },
            Offset::End => match broker.watermarks(topic, partition) {
                Ok((_, newest)) => newest + 1,
                Err(e) => return Err(e),
            },
            Offset::Offset(o) => o,
            Offset::Stored => match &self.group_id {
                Some(gid) => match broker.committed_offset(gid.as_str(), topic, partition) {
                    Ok(Some(o)) => o,
                    Ok(None) => 0,
                    Err(e) => return Err(e),
                },
                None => 0,
            },
            Offset::OffsetTail(tail) => match broker.watermarks(topic, partition) {
                Ok((_, newest)) => {
                    let v = newest + 1 - tail;
                    if v > 0 { v } else { 0 }
                },
                Err(e) => return Err(e),
            },
        };
        self.position.insert(topic, partition, offset_val);
        Ok(())
    }

    /// Commits, for the consumer's group, the offset of each element of `tpl` that carries
    /// an [`Offset::Offset`], in order, stopping at the first refusal; then reports the
    /// commit to the context. Without a group nothing is committed.
    pub fn commit<T, P: Partitioner>(&mut self, broker: &mut Broker<T, P>, tpl: &TopicPartitionList, mode: CommitMode) -> (r: RmqResult<()>)
        requires
            old(broker).wf(),
        ensures
            final(broker).wf(),
            final(self)@ == old(self)@,
            consumer_commit_outcome(old(self)@, old(broker)@, final(broker)@, tpl@, r),
    {
        match &self.group_id {
            Some(gid) => {
                let ghost g = gid@;
                let elems = tpl.elements();
                let mut i: usize = 0;
                while i < elems.len()
                    invariant
                        0 <= i <= elems@.len(),
                        crate::topic_partition::elems_view(elems@) == tpl@,
                        g == gid@,
                        old(self)@.group_id == Some(g),
                        broker.wf(),
                        broker@ == (BrokerView::<T> { offsets: offsets_committed(old(broker)@.offsets, g, tpl@.take(i as int)), ..old(broker)@ }),
                        has_offset_entry(tpl@.take(i as int)) ==> !old(broker)@.backend.shutdown && old(broker)@.find_group(g) is Some,
                    decreases elems@.len() - i,
                {
                    let e = &elems[i];
                    proof {
                        assert(e@ == tpl@[i as int]);
                        assert(tpl@.take(i + 1).drop_last() =~= tpl@.take(i as int));
                        assert(tpl@.take(i + 1).last() == tpl@[i as int]);
                        if !has_offset_entry(tpl@.take(i as int)) {
                            lemma_no_offsets(old(broker)@.offsets, g, tpl@.take(i as int));
                        }
                        if has_offset_entry(tpl@.take(i + 1)) && !has_offset_entry(tpl@.take(i as int)) {
                            let j = choose|j: int| 0 <= j < i + 1 && #[trigger] tpl@.take(i + 1)[j].2 is Offset;
                            if j < i {
                                assert(tpl@.take(i as int)[j].2 is Offset);
                            }
                        }
                        if has_offset_entry(tpl@.take(i as int)) {
                            let j = choose|j: int| 0 <= j < i && #[trigger] tpl@.take(i as int)[j].2 is Offset;
                            assert(tpl@.take(i + 1)[j].2 is Offset);
                        }
                    }
                    match e.offset {
                        Offset::Offset(o) => {
                            match broker.commit_offset(gid.as_str(), e.topic.as_str(), e.partition, o) {
                                Ok(()) => {},
                                Err(err) => {
                                    proof {
                                        assert(tpl@[i as int].2 is Offset);
                                        assert(has_offset_entry(tpl@));
                                        assert(broker@ == old(broker)@);
                                    }
                                    return Err(err);
                                },
                            }
                            proof {
                                assert(tpl@.take(i + 1)[i as int].2 is Offset);
                            }
                        },
                        _ => {},
                    }
                    i += 1;
                }
                proof {
                    assert(tpl@.take(i as int) =~= tpl@);
                    if !has_offset_entry(tpl@) {
                        lemma_no_offsets(old(broker)@.offsets, g, tpl@);
                    }
                }
            },
            None => {},
        }
        self.context.commit_callback(Ok(()), tpl);
        Ok(())
    }

    /// Commits the position after message `msg` (its offset plus one) for its partition.
    pub fn commit_message<'m, T, P: Partitioner>(&mut self, broker: &mut Broker<T, P>, msg: &BorrowedMessage<'m, T>, mode: CommitMode) -> (r: RmqResult<()>)
        requires
            old(broker).wf(),
            msg@.offset < i64::MAX,
        ensures
            final(broker).wf(),
            final(self)@ == old(self)@,
            consumer_commit_outcome(old(self)@, old(broker)@, final(broker)@,
                seq![(msg@.topic, msg@.partition, Offset::Offset((msg@.offset + 1) as i64))], r),
    {
        let mut tpl = TopicPartitionList::new();
        tpl.add_partition_offset(crate::message::Message::topic(msg), crate::message::Message::partition(msg), Offset::Offset(crate::message::Message::offset(msg) + 1));
        proof {
            assert(tpl@ =~= seq![(msg@.topic, msg@.partition, Offset::Offset((msg@.offset + 1) as i64))]);
        }
        self.commit(broker, &tpl, mode)
    }

    /// The offset committed by the consumer's group for each assigned partition (`-1`
    /// where none is); empty without a group.
    pub fn committed<T, P: Partitioner>(&self, broker: &Broker<T, P>) -> (r: RmqResult<TopicPartitionList>)
        requires
            broker.wf(),
        ensures
            match self@.group_id {
                None => r matches Ok(l) && l@.len() == 0,
                Some(g) => if self@.assigned.len() > 0 && broker@.backend.shutdown {
                    r matches Err(RmqError::BrokerShutdown)
                } else if self@.assigned.len() > 0 && broker@.find_group(g) is None {
                    r matches Err(e) && is_group_not_found(e, g)
                } else {
                    r matches Ok(l) && l@ == committed_list(broker@, g, self@.assigned)
                },
            },
    {
        let mut tpl = TopicPartitionList::new();
        match &self.group_id {
            Some(gid) => {
                let elems = self.assigned_partitions.elements();
                let mut i: usize = 0;
                while i < elems.len()
                    invariant
                        0 <= i <= elems@.len(),
                        crate::topic_partition::elems_view(elems@) == self@.assigned,
                        self@.group_id == Some(gid@),
                        broker.wf(),
                        tpl@ == committed_list(broker@, gid@, self@.assigned).take(i as int),
                        i > 0 ==> !broker@.backend.shutdown && broker@.find_group(gid@) is Some,
                    decreases elems@.len() - i,
                {
                    let e = &elems[i];
                    proof {
                        assert(e@ == self@.assigned[i as int]);
                    }
                    let offset = match broker.committed_offset(gid.as_str(), e.topic.as_str(), e.partition) {
                        Ok(o) => o,
                        Err(err) => return Err(err),
                    };
                    let v = match offset {
                        Some(o) => o,
                        None => -1,
                    };
                    tpl.add_partition_offset(e.topic.as_str(), e.partition, Offset::Offset(v));
                    proof {
                        let cl = committed_list(broker@, gid@, self@.assigned);
                        assert(cl.take(i + 1) =~= cl.take(i as int).push(cl[i as int]));
                    }
                    i += 1;
                }
                proof {
                    assert(committed_list(broker@, gid@, self@.assigned).take(i as int) =~= committed_list(broker@, gid@, self@.assigned));
                }
            },
            None => {},
        }
        Ok(tpl)
    }
}


/// What a blocking poll does while no message is available: wait at most this many
/// nanoseconds, for new messages on the subscribed topics or, with none, by sleeping.
#[derive(Debug, Clone, Copy, PartialEq, Eq, Structural)]
pub enum PollWait {
    /// Wait for a new message on the subscribed topics.
    ForMessages(u128),
    /// Sleep, as there is no subscribed topic to wait on.
    Sleep(u128),
}

/// The longest single wait of a blocking poll, in nanoseconds (10 ms).
pub const POLL_WAIT_STEP_NANOS: u128 = 10_000_000;

/// The next wait of a blocking poll with `remaining_nanos` left before its deadline: the
/// remaining time, but no more than [`POLL_WAIT_STEP_NANOS`], for messages when the
/// consumer is subscribed to some topic, by sleeping otherwise.
pub fn poll_wait(remaining_nanos: u128, subscribed: bool) -> (r: PollWait)
    ensures
        ({
            let w = if remaining_nanos < POLL_WAIT_STEP_NANOS { remaining_nanos } else { POLL_WAIT_STEP_NANOS };
            r == if subscribed { PollWait::ForMessages(w) } else { PollWait::Sleep(w) }
        }),
{
    let w = if remaining_nanos < POLL_WAIT_STEP_NANOS { remaining_nanos } else { POLL_WAIT_STEP_NANOS };
    if subscribed {
        PollWait::ForMessages(w)
    } else {
        PollWait::Sleep(w)
    }
}


/// The member id of a consumer created at `nanos` (nanoseconds since the Unix epoch) as
/// the `seq`-th consumer of the process: `consumer-{nanos}-{seq}`.
pub fn member_id_for(nanos: u128, seq: u64) -> (r: String)
    ensures
        r@ == "consumer-"@ + decimal_text(nanos as nat) + "-"@ + decimal_text(seq as nat),
{
    let mut s = "consumer-".to_owned();
    s.append(decimal_string(nanos).as_str());
    s.append("-");
    s.append(decimal_string(seq as u128).as_str());
    s
}

} // verus!
