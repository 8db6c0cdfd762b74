use vstd::prelude::*;
use std::sync::Arc;
use crate::bytes::opt_bytes;
use crate::error::{RmqError, RmqResult, is_partition_out_of_range, is_offset_out_of_range, is_buffer_full};
use crate::headers::{OwnedHeaders, opt_headers};
use crate::message::{StoredMessage, MessageView};
use crate::partition::{Partition, PartitionConfig, PartitionView, appended, log_view};
use crate::topic_partition::copy_string;

verus! {

/// The abstract content of a topic.
pub struct TopicView<T> {
    /// The topic name.
    pub name: Seq<char>,
    /// The partition count the topic was created with.
    pub partition_count: i32,
    /// The partitions, in index order.
    pub partitions: Seq<PartitionView<T>>,
}

/// The number of partitions a topic created with `n` partitions holds.
pub open spec fn created_count(n: i32) -> int {
    if n < 0 { 0 } else { n as int }
}

/// A fresh, empty partition of topic `name` with index `id` and settings `config`.
pub open spec fn fresh_partition<T>(name: Seq<char>, id: int, config: PartitionConfig) -> PartitionView<T> {
    PartitionView {
        topic: name,
        id: id as i32,
        next_offset: 0,
        log: Seq::empty(),
        max_capacity: config.max_capacity as nat,
        retention_ms: config.retention_ms,
        retention_capacity: config.retention_capacity,
    }
}

/// A named topic holding a fixed number of partitions.
pub struct Topic<T> {
    name: String,
    partitions: Vec<Partition<T>>,
    partition_count: i32,
    config: PartitionConfig,
}

impl<T> View for Topic<T> {
    type V = TopicView<T>;

    closed spec fn view(&self) -> TopicView<T> {
        TopicView {
            name: self.name@,
            partition_count: self.partition_count,
            partitions: self.partitions@.map_values(|p: Partition<T>| p@),
        }
    }
}

impl<T> TopicView<T> {
    /// Whether `id` names a partition of this topic.
    pub open spec fn has_partition(self, id: i32) -> bool {
        0 <= id < self.partitions.len()
    }

    /// The topic invariant: partition `i` of the topic is a valid partition of this topic
    /// with index `i`, and there are as many partitions as the topic was created with.
    pub open spec fn valid(self) -> bool {
        &&& self.partitions.len() == created_count(self.partition_count)
        &&& forall|i: int| 0 <= i < self.partitions.len() ==> {
            &&& (#[trigger] self.partitions[i]).valid()
            &&& self.partitions[i].id == i
            &&& self.partitions[i].topic == self.name
        }
    }
}

impl<T> Topic<T> {
    /// The topic invariant, including that every partition keeps its own invariant.
    pub closed spec fn wf(&self) -> bool {
        &&& self@.valid()
        &&& forall|i: int| 0 <= i < self.partitions@.len() ==> (#[trigger] self.partitions@[i]).wf()
    }

    /// A well-formed topic's view is valid.
    pub proof fn lemma_wf_valid(&self)
        requires
            self.wf(),
        ensures
            self@.valid(),
    {
    }

    /// A topic `name` with `num_partitions` empty partitions (none when the count is not positive).
    pub fn new(name: String, num_partitions: i32, config: PartitionConfig) -> (r: Self)
        ensures
            r.wf(),
            r@.name == name@,
            r@.partition_count == num_partitions,
            r@.partitions.len() == created_count(num_partitions),
            forall|i: int| 0 <= i < r@.partitions.len() ==> #[trigger] r@.partitions[i] == fresh_partition::<T>(name@, i, config),
    {
        let mut partitions: Vec<Partition<T>> = Vec::new();
        let mut id: i32 = 0;
        while id < num_partitions
            invariant
                0 <= id,
                num_partitions >= 0 ==> id <= num_partitions,
                num_partitions < 0 ==> id == 0,
                partitions@.len() == id,
                forall|i: int| 0 <= i < id ==> #[trigger] partitions@[i]@ == fresh_partition::<T>(name@, i, config),
                forall|i: int| 0 <= i < id ==> (#[trigger] partitions@[i]).wf(),
            decreases num_partitions - id,
        {
            let p = Partition::new(copy_string(&name), id, config);
            proof {
                assert(p@ == fresh_partition::<T>(name@, id as int, config));
            }
            partitions.push(p);
            id += 1;
        }
        let r = Self { name, partitions, partition_count: num_partitions, config };
        proof {
            assert forall|i: int| 0 <= i < r@.partitions.len() implies #[trigger] r@.partitions[i] == fresh_partition::<T>(name@, i, config) by {
                assert(r@.partitions[i] == r.partitions@[i]@);
            }
            assert forall|i: int| 0 <= i < r@.partitions.len() implies {
                &&& (#[trigger] r@.partitions[i]).valid()
                &&& r@.partitions[i].id == i
                &&& r@.partitions[i].topic == r@.name
            } by {
                assert(r@.partitions[i] == r.partitions@[i]@);
                assert(r.partitions@[i].wf());
                r.partitions@[i].lemma_wf_valid();
            }
        }
        r
    }

    /// Returns the topic name.
    pub fn name(&self) -> (r: &str)
        ensures
            r@ == self@.name,
    {
        self.name.as_str()
    }

    /// Returns the partition count the topic was created with.
    pub fn partition_count(&self) -> (r: i32)
        ensures
            r == self@.partition_count,
    {
        self.partition_count
    }

    /// Returns the partition with index `id`, or [`RmqError::PartitionOutOfRange`].
    pub fn get_partition(&self, id: i32) -> (r: RmqResult<&Partition<T>>)
        requires
            self.wf(),
        ensures
            self@.has_partition(id) ==> (r matches Ok(p) && p@ == self@.partitions[id as int] && p.wf()),
            !self@.has_partition(id) ==> (r matches Err(e) && is_partition_out_of_range(e, self@.name, id)),
    {
        if id < 0 || id as usize >= self.partitions.len() {
            return Err(RmqError::PartitionOutOfRange { topic: copy_string(&self.name), partition: id });
        }
        Ok(&self.partitions[id as usize])
    }

    /// Appends a raw message to partition `partition`, returning `(partition, offset)`.
    pub fn produce(
        &mut self,
        partition: i32,
        key: Option<Vec<u8>>,
        payload: Option<Vec<u8>>,
        headers: Option<OwnedHeaders>,
        timestamp: Option<i64>,
    ) -> (r: RmqResult<(i32, i64)>)
        requires
            old(self).wf(),
        ensures
            final(self).wf(),
            produced(old(self)@, final(self)@, partition, r, |m: MessageView<T>|
                m.key == opt_bytes(key) && m.payload == opt_bytes(payload)
                && m.typed_payload is None && m.typed_key is None
                && m.headers == opt_headers(headers)
                && (timestamp matches Some(ts) ==> m.timestamp == ts)),
    {
        if partition < 0 || partition as usize >= self.partitions.len() {
            return Err(RmqError::PartitionOutOfRange { topic: copy_string(&self.name), partition });
        }
        let i = partition as usize;
        let ghost old_parts = self.partitions@;
        let mut p = self.partitions.remove(i);
        proof {
            assert(old(self)@.partitions[i as int] == p@);
        }
        let r = p.append(key, payload, headers, timestamp);
        self.partitions.insert(i, p);
        proof {
            self.lemma_replaced(old(self)@, old_parts, i as int);
            if r is Err {
                assert(self@.partitions =~= old(self)@.partitions);
            }
            assert(self@.partitions[i as int] == p@);
        }
        r
    }

    /// Appends a typed message to partition `partition`, returning `(partition, offset)`.
    pub fn produce_typed(
        &mut self,
        partition: i32,
        typed_payload: T,
        typed_key: Option<T>,
        headers: Option<OwnedHeaders>,
        timestamp: Option<i64>,
    ) -> (r: RmqResult<(i32, i64)>)
        requires
            old(self).wf(),
        ensures
            final(self).wf(),
            produced(old(self)@, final(self)@, partition, r, |m: MessageView<T>|
                m.key is None && m.payload is None
                && m.typed_payload == Some(typed_payload) && m.typed_key == typed_key
                && m.headers == opt_headers(headers)
                && (timestamp matches Some(ts) ==> m.timestamp == ts)),
    {
        if partition < 0 || partition as usize >= self.partitions.len() {
            return Err(RmqError::PartitionOutOfRange { topic: copy_string(&self.name), partition });
        }
        let i = partition as usize;
        let ghost old_parts = self.partitions@;
        let mut p = self.partitions.remove(i);
        proof {
            assert(old(self)@.partitions[i as int] == p@);
        }
        let r = p.append_typed(typed_payload, typed_key, headers, timestamp);
        self.partitions.insert(i, p);
        proof {
            self.lemma_replaced(old(self)@, old_parts, i as int);
            if r is Err {
                assert(self@.partitions =~= old(self)@.partitions);
            }
            assert(self@.partitions[i as int] == p@);
        }
        r
    }

    /// After the partition at `i` was replaced by a valid partition with the same identity,
    /// the topic invariant holds and only that partition's view changed.
    proof fn lemma_replaced(&self, old_view: TopicView<T>, old_parts: Seq<Partition<T>>, i: int)
        requires
            old_view.valid(),
            old_view.partitions == old_parts.map_values(|p: Partition<T>| p@),
            old_view.name == self.name@,
            old_view.partition_count == self.partition_count,
            0 <= i < old_parts.len(),
            self.partitions@.len() == old_parts.len(),
            forall|j: int| 0 <= j < old_parts.len() && j != i ==> self.partitions@[j] == old_parts[j],
            forall|j: int| 0 <= j < old_parts.len() ==> (#[trigger] old_parts[j]).wf(),
            self.partitions@[i].wf(),
            self.partitions@[i]@.id == old_parts[i]@.id,
            self.partitions@[i]@.topic == old_parts[i]@.topic,
        ensures
            self.wf(),
            self@.partitions == old_view.partitions.update(i, self.partitions@[i]@),
            self@.name == old_view.name,
            self@.partition_count == old_view.partition_count,
    {
        assert(old_view.partitions[i] == old_parts[i]@);
        assert(self@.partitions =~= old_view.partitions.update(i, self.partitions@[i]@)) by {
            assert forall|j: int| 0 <= j < old_parts.len() && j != i implies self@.partitions[j] == old_view.partitions[j] by {
                assert(self@.partitions[j] == self.partitions@[j]@);
                assert(old_view.partitions[j] == old_parts[j]@);
            }
        }
        assert forall|j: int| 0 <= j < self.partitions@.len() implies (#[trigger] self.partitions@[j]).wf() by {
            if j != i {
                assert(self.partitions@[j] == old_parts[j]);
            }
        }
        assert forall|j: int| 0 <= j < self@.partitions.len() implies {
            &&& (#[trigger] self@.partitions[j]).valid()
            &&& self@.partitions[j].id == j
            &&& self@.partitions[j].topic == self@.name
        } by {
            assert(self@.partitions[j] == self.partitions@[j]@);
            assert(self.partitions@[j].wf());
            self.partitions@[j].lemma_wf_valid();
            assert(old_view.partitions[j] == old_parts[j]@);
            if j != i {
                assert(self.partitions@[j] == old_parts[j]);
            }
        }
    }

    /// Reads up to `max_count` messages of partition `partition` from `offset`.
    pub fn fetch(&self, partition: i32, offset: i64, max_count: usize) -> (r: RmqResult<Vec<Arc<StoredMessage<T>>>>)
        requires
            self.wf(),
        ensures
            !self@.has_partition(partition) ==> (r matches Err(e) && is_partition_out_of_range(e, self@.name, partition)),
            self@.has_partition(partition) ==> match self@.partitions[partition as int].locate(offset as int) {
                None => r matches Err(e) && is_offset_out_of_range(e, self@.name, partition, offset),
                Some(None) => r matches Ok(v) && v@.len() == 0,
                Some(Some(i)) => r matches Ok(v) && log_view(v@) == self@.partitions[partition as int].log.subrange(
                    i,
                    if i + max_count <= self@.partitions[partition as int].log.len() {
                        i + max_count
                    } else {
                        self@.partitions[partition as int].log.len() as int
                    },
                ),
            },
    {
        let p = self.get_partition(partition)?;
        p.read(offset, max_count)
    }

    /// Reads the message of partition `partition` at `offset`.
    pub fn fetch_one(&self, partition: i32, offset: i64) -> (r: RmqResult<Option<Arc<StoredMessage<T>>>>)
        requires
            self.wf(),
        ensures
            fetched_one(self@, partition, offset, r),
    {
        let p = self.get_partition(partition)?;
        p.read_one(offset)
    }

    /// Returns the watermarks `(oldest, newest)` of partition `partition`.
    pub fn watermarks(&self, partition: i32) -> (r: RmqResult<(i64, i64)>)
        requires
            self.wf(),
        ensures
            !self@.has_partition(partition) ==> (r matches Err(e) && is_partition_out_of_range(e, self@.name, partition)),
            self@.has_partition(partition) ==> (r matches Ok(w) && w.0 == self@.partitions[partition as int].watermarks().0
                && w.1 == self@.partitions[partition as int].watermarks().1),
    {
        let p = self.get_partition(partition)?;
        Ok(p.watermarks())
    }

    /// Returns the number of messages retained by partition `partition`.
    pub fn message_count(&self, partition: i32) -> (r: RmqResult<i64>)
        requires
            self.wf(),
        ensures
            !self@.has_partition(partition) ==> (r matches Err(e) && is_partition_out_of_range(e, self@.name, partition)),
            self@.has_partition(partition) ==> r == Ok::<i64, RmqError>(self@.partitions[partition as int].log.len() as i64),
    {
        let p = self.get_partition(partition)?;
        Ok(p.message_count())
    }
}

/// The outcome of reading partition `partition` of topic `t` at `offset`.
pub open spec fn fetched_one<T>(t: TopicView<T>, partition: i32, offset: i64, r: RmqResult<Option<Arc<StoredMessage<T>>>>) -> bool {
    &&& !t.has_partition(partition) ==> (r matches Err(e) && is_partition_out_of_range(e, t.name, partition))
    &&& t.has_partition(partition) ==> match t.partitions[partition as int].locate(offset as int) {
        None => r matches Err(e) && is_offset_out_of_range(e, t.name, partition, offset),
        Some(None) => r matches Ok(None),
        Some(Some(i)) => r matches Ok(Some(m)) && (*m)@ == t.partitions[partition as int].log[i] && (*m)@.offset == offset,
    }
}

/// `b` is topic `a` after producing to `partition` with outcome `r`, the message meeting
/// `content`: a missing partition is refused; a partition whose offsets are exhausted is
/// refused as full; otherwise the message is appended to that partition alone and its
/// partition and offset are returned.
pub open spec fn produced<T>(
    a: TopicView<T>,
    b: TopicView<T>,
    partition: i32,
    r: RmqResult<(i32, i64)>,
    content: spec_fn(MessageView<T>) -> bool,
) -> bool {
    if !a.has_partition(partition) {
        r matches Err(e) && is_partition_out_of_range(e, a.name, partition) && b == a
    } else if a.partitions[partition as int].next_offset == i64::MAX {
        r matches Err(e) && is_buffer_full(e, a.name, partition) && b == a
    } else {
        &&& r == Ok::<(i32, i64), RmqError>((partition, a.partitions[partition as int].next_offset as i64))
        &&& b.name == a.name
        &&& b.partition_count == a.partition_count
        &&& b.partitions.len() == a.partitions.len()
        &&& forall|j: int| 0 <= j < a.partitions.len() && j != partition ==> b.partitions[j] == a.partitions[j]
        &&& exists|m: MessageView<T>| #[trigger] appended(a.partitions[partition as int], b.partitions[partition as int], m) && content(m)
    }
}

} // verus!
