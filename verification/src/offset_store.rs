use vstd::prelude::*;
use crate::error::{RmqError, RmqResult};
use crate::keys::{index_of, lemma_index_of, lemma_index_of_at, lemma_index_of_push};
use crate::topic_partition::same_text;

verus! {

/// Consumer group offset store trait for persisting committed offsets.
pub trait OffsetStore {
    /// Commit the consumed offset for a consumer group on a specific topic-partition.
    fn commit(&mut self, group_id: &str, topic: &str, partition: i32, offset: i64) -> RmqResult<()>;
    /// Retrieve the last committed offset for a consumer group on a specific topic-partition.
    fn committed(&self, group_id: &str, topic: &str, partition: i32) -> RmqResult<Option<i64>>;
}

/// The key of a committed offset: consumer group, topic, partition.
pub type OffsetKey = (Seq<char>, Seq<char>, i32);

/// One stored entry: group, topic, partition, offset.
pub type OffsetEntry = (String, String, i32, i64);

/// The key of a stored entry.
pub open spec fn entry_key(e: OffsetEntry) -> OffsetKey {
    (e.0@, e.1@, e.2)
}

/// The keys of a sequence of entries.
pub open spec fn offset_keys(s: Seq<OffsetEntry>) -> Seq<OffsetKey> {
    s.map_values(|e: OffsetEntry| entry_key(e))
}

/// The committed offsets that a sequence of entries describes (first entry wins).
pub open spec fn offsets_map(s: Seq<OffsetEntry>) -> Map<OffsetKey, i64> {
    Map::new(
        |k: OffsetKey| index_of(offset_keys(s), k) is Some,
        |k: OffsetKey| s[index_of(offset_keys(s), k)->0].3,
    )
}

/// In-memory offset store implementation.
pub struct InMemoryOffsetStore {
    offsets: Vec<OffsetEntry>,
}

impl View for InMemoryOffsetStore {
    type V = Map<OffsetKey, i64>;

    closed spec fn view(&self) -> Map<OffsetKey, i64> {
        offsets_map(self.offsets@)
    }
}

impl InMemoryOffsetStore {
    /// Create a new in-memory offset store instance.
    pub fn new() -> (r: Self)
        ensures
            r@ == Map::<OffsetKey, i64>::empty(),
    {
        let r = Self { offsets: Vec::new() };
        assert(r@ =~= Map::<OffsetKey, i64>::empty());
        r
    }

    /// The position of the entry for the key, if any.
    fn position(&self, group_id: &str, topic: &str, partition: i32) -> (r: Option<usize>)
        ensures
            match r {
                Some(i) => index_of(offset_keys(self.offsets@), (group_id@, topic@, partition)) == Some(i as int)
                    && i < self.offsets@.len(),
                None => index_of(offset_keys(self.offsets@), (group_id@, topic@, partition)) is None,
            },
    {
        let ghost keys = offset_keys(self.offsets@);
        let ghost k = (group_id@, topic@, partition);
        proof {
            lemma_index_of(keys, k);
        }
        let mut i: usize = 0;
        while i < self.offsets.len()
            invariant
                0 <= i <= self.offsets@.len(),
                keys == offset_keys(self.offsets@),
                k == (group_id@, topic@, partition),
                forall|j: int| 0 <= j < i ==> keys[j] != k,
            decreases self.offsets.len() - i,
        {
            let e = &self.offsets[i];
            if e.2 == partition && same_text(&e.0, group_id) && same_text(&e.1, topic) {
                proof {
                    lemma_index_of_at(keys, k, i as int);
                }
                return Some(i);
            }
            i += 1;
        }
        None
    }
}

impl Default for InMemoryOffsetStore {
    fn default() -> (r: Self)
        ensures
            r@ == Map::<OffsetKey, i64>::empty(),
    {
        Self::new()
    }
}

impl OffsetStore for InMemoryOffsetStore {
    /// Records `offset` as the committed offset of the key, replacing any earlier one.
    fn commit(&mut self, group_id: &str, topic: &str, partition: i32, offset: i64) -> (r: RmqResult<()>)
        ensures
            r is Ok,
            final(self)@ == old(self)@.insert((group_id@, topic@, partition), offset),
    {
        let ghost old_s = self.offsets@;
        let ghost k = (group_id@, topic@, partition);
        let e = (group_id.to_owned(), topic.to_owned(), partition, offset);
        match self.position(group_id, topic, partition) {
            Some(i) => {
                proof {
                    lemma_index_of(offset_keys(old_s), k);
                }
                self.offsets.set(i, e);
                proof {
                    assert(offset_keys(self.offsets@) =~= offset_keys(old_s));
                    assert forall|x: OffsetKey| #[trigger] index_of(offset_keys(old_s), x) is Some && x != k
                        implies self.offsets@[index_of(offset_keys(old_s), x)->0] == old_s[index_of(offset_keys(old_s), x)->0] by {
                        lemma_index_of(offset_keys(old_s), x);
                    }
                    assert(offsets_map(self.offsets@) =~= offsets_map(old_s).insert(k, offset));
                }
            },
            None => {
                self.offsets.push(e);
                proof {
                    let ks = offset_keys(old_s);
                    assert(offset_keys(self.offsets@) =~= ks.push(k));
                    assert forall|x: OffsetKey| #[trigger] index_of(offset_keys(self.offsets@), x) == (if index_of(ks, x) is Some {
                        index_of(ks, x)
                    } else if k == x {
                        Some(ks.len() as int)
                    } else {
                        None::<int>
                    }) by {
                        lemma_index_of_push(ks, k, x);
                        lemma_index_of(ks, x);
                    }
                    assert forall|x: OffsetKey| #[trigger] index_of(ks, x) is Some
                        implies self.offsets@[index_of(ks, x)->0] == old_s[index_of(ks, x)->0] by {
                        lemma_index_of(ks, x);
                    }
                    assert(offsets_map(self.offsets@) =~= offsets_map(old_s).insert(k, offset));
                }
            },
        }
        Ok(())
    }

    /// The committed offset of the key, if any.
    fn committed(&self, group_id: &str, topic: &str, partition: i32) -> (r: RmqResult<Option<i64>>)
        ensures
            r == Ok::<Option<i64>, RmqError>(
                if self@.contains_key((group_id@, topic@, partition)) {
                    Some(self@[(group_id@, topic@, partition)])
                } else {
                    None
                },
            ),
    {
        match self.position(group_id, topic, partition) {
            Some(i) => Ok(Some(self.offsets[i].3)),
            None => Ok(None),
        }
    }
}

} // verus!
