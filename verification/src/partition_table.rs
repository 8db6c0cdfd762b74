use vstd::prelude::*;
use crate::keys::{index_of, lemma_index_of, lemma_index_of_at, lemma_index_of_push};
use crate::topic_partition::{copy_string, same_text};

verus! {

/// A topic-partition key: topic name and partition index.
pub type PartitionKey = (Seq<char>, i32);

/// The keys of a sequence of position entries.
pub open spec fn position_keys(s: Seq<(String, i32, i64)>) -> Seq<PartitionKey> {
    s.map_values(|e: (String, i32, i64)| (e.0@, e.1))
}

/// The offsets that a sequence of position entries describes (first entry wins).
pub open spec fn positions_map(s: Seq<(String, i32, i64)>) -> Map<PartitionKey, i64> {
    Map::new(
        |k: PartitionKey| index_of(position_keys(s), k) is Some,
        |k: PartitionKey| s[index_of(position_keys(s), k)->0].2,
    )
}

/// A table from topic-partition to offset.
pub struct PositionTable {
    entries: Vec<(String, i32, i64)>,
}

impl View for PositionTable {
    type V = Map<PartitionKey, i64>;

    closed spec fn view(&self) -> Map<PartitionKey, i64> {
        positions_map(self.entries@)
    }
}

impl PositionTable {
    /// An empty table.
    pub fn new() -> (r: Self)
        ensures
            r@ == Map::<PartitionKey, i64>::empty(),
    {
        let r = Self { entries: Vec::new() };
        assert(r@ =~= Map::<PartitionKey, i64>::empty());
        r
    }

    /// The position of the entry for the key, if any.
    fn position(&self, topic: &str, partition: i32) -> (r: Option<usize>)
        ensures
            match r {
                Some(i) => index_of(position_keys(self.entries@), (topic@, partition)) == Some(i as int)
                    && i < self.entries@.len(),
                None => index_of(position_keys(self.entries@), (topic@, partition)) is None,
            },
    {
        let ghost keys = position_keys(self.entries@);
        let ghost k = (topic@, partition);
        proof {
            lemma_index_of(keys, k);
        }
        let mut i: usize = 0;
        while i < self.entries.len()
            invariant
                0 <= i <= self.entries@.len(),
                keys == position_keys(self.entries@),
                k == (topic@, partition),
                forall|j: int| 0 <= j < i ==> keys[j] != k,
            decreases self.entries.len() - i,
        {
            let e = &self.entries[i];
            if e.1 == partition && same_text(&e.0, topic) {
                proof {
                    lemma_index_of_at(keys, k, i as int);
                }
                return Some(i);
            }
            i += 1;
        }
        None
    }

    /// Sets the offset of the key, replacing any earlier one.
    pub fn insert(&mut self, topic: &str, partition: i32, offset: i64)
        ensures
            final(self)@ == old(self)@.insert((topic@, partition), offset),
    {
        let ghost old_s = self.entries@;
        let ghost k = (topic@, partition);
        let e = (topic.to_owned(), partition, offset);
        match self.position(topic, partition) {
            Some(i) => {
                proof {
                    lemma_index_of(position_keys(old_s), k);
                }
                self.entries.set(i, e);
                proof {
                    assert(position_keys(self.entries@) =~= position_keys(old_s));
                    assert forall|x: PartitionKey| #[trigger] index_of(position_keys(old_s), x) is Some && x != k
                        implies self.entries@[index_of(position_keys(old_s), x)->0] == old_s[index_of(position_keys(old_s), x)->0] by {
                        lemma_index_of(position_keys(old_s), x);
                    }
                    assert(positions_map(self.entries@) =~= positions_map(old_s).insert(k, offset));
                }
            },
            None => {
                self.entries.push(e);
                proof {
                    let ks = position_keys(old_s);
                    assert(position_keys(self.entries@) =~= ks.push(k));
                    assert forall|x: PartitionKey| #[trigger] index_of(position_keys(self.entries@), x) == (if index_of(ks, x) is Some {
                        index_of(ks, x)
                    } else if k == x {
                        Some(ks.len() as int)
                    } else {
                        None::<int>
                    }) by {
                        lemma_index_of_push(ks, k, x);
                        lemma_index_of(ks, x);
                    }
                    assert forall|x: PartitionKey| #[trigger] index_of(ks, x) is Some
                        implies self.entries@[index_of(ks, x)->0] == old_s[index_of(ks, x)->0] by {
                        lemma_index_of(ks, x);
                    }
                    assert(positions_map(self.entries@) =~= positions_map(old_s).insert(k, offset));
                }
            },
        }
    }

    /// The offset of the key, if any.
    pub fn get(&self, topic: &str, partition: i32) -> (r: Option<i64>)
        ensures
            r == (if self@.contains_key((topic@, partition)) { Some(self@[(topic@, partition)]) } else { None }),
    {
        match self.position(topic, partition) {
            Some(i) => Some(self.entries[i].2),
            None => None,
        }
    }

    /// Removes every entry.
    pub fn clear(&mut self)
        ensures
            final(self)@ == Map::<PartitionKey, i64>::empty(),
    {
        self.entries = Vec::new();
        assert(self@ =~= Map::<PartitionKey, i64>::empty());
    }
}

/// The keys of a sequence of topic-partition entries.
pub open spec fn pair_keys(s: Seq<(String, i32)>) -> Seq<PartitionKey> {
    s.map_values(|e: (String, i32)| (e.0@, e.1))
}

/// A set of topic-partitions.
pub struct PartitionSet {
    entries: Vec<(String, i32)>,
}

impl View for PartitionSet {
    type V = Set<PartitionKey>;

    closed spec fn view(&self) -> Set<PartitionKey> {
        Set::new(|k: PartitionKey| pair_keys(self.entries@).contains(k))
    }
}

impl PartitionSet {
    /// An empty set.
    pub fn new() -> (r: Self)
        ensures
            r@ == Set::<PartitionKey>::empty(),
    {
        let r = Self { entries: Vec::new() };
        assert(r@ =~= Set::<PartitionKey>::empty());
        r
    }

    /// Whether the set holds `topic`/`partition`.
    pub fn contains(&self, topic: &str, partition: i32) -> (r: bool)
        ensures
            r == self@.contains((topic@, partition)),
    {
        let ghost keys = pair_keys(self.entries@);
        let mut i: usize = 0;
        while i < self.entries.len()
            invariant
                0 <= i <= self.entries@.len(),
                keys == pair_keys(self.entries@),
                forall|j: int| 0 <= j < i ==> keys[j] != (topic@, partition),
            decreases self.entries.len() - i,
        {
            if self.entries[i].1 == partition && same_text(&self.entries[i].0, topic) {
                proof {
                    assert(keys[i as int] == (topic@, partition));
                }
                return true;
            }
            i += 1;
        }
        false
    }

    /// Adds `topic`/`partition`.
    pub fn insert(&mut self, topic: &str, partition: i32)
        ensures
            final(self)@ == old(self)@.insert((topic@, partition)),
    {
        let ghost old_keys = pair_keys(self.entries@);
        self.entries.push((topic.to_owned(), partition));
        proof {
            let keys = pair_keys(self.entries@);
            assert(keys =~= old_keys.push((topic@, partition)));
            assert forall|k: PartitionKey| keys.contains(k) == (old_keys.contains(k) || k == (topic@, partition)) by {
                if old_keys.contains(k) {
                    let j = choose|j: int| 0 <= j < old_keys.len() && old_keys[j] == k;
                    assert(keys[j] == k);
                }
                if keys.contains(k) {
                    let j = choose|j: int| 0 <= j < keys.len() && keys[j] == k;
                    if j < old_keys.len() {
                        assert(old_keys[j] == k);
                    }
                }
                if k == (topic@, partition) {
                    assert(keys[old_keys.len() as int] == k);
                }
            }
            assert(self@ =~= old(self)@.insert((topic@, partition)));
        }
    }

    /// Removes `topic`/`partition`.
    pub fn remove(&mut self, topic: &str, partition: i32)
        ensures
            final(self)@ == old(self)@.remove((topic@, partition)),
    {
        let ghost k = (topic@, partition);
        let ghost old_keys = pair_keys(self.entries@);
        let mut kept: Vec<(String, i32)> = Vec::new();
        let mut i: usize = 0;
        while i < self.entries.len()
            invariant
                0 <= i <= self.entries@.len(),
                old_keys == pair_keys(self.entries@),
                k == (topic@, partition),
                forall|x: PartitionKey| #[trigger] pair_keys(kept@).contains(x) <==> (old_keys.take(i as int).contains(x) && x != k),
            decreases self.entries.len() - i,
        {
            let ghost before = pair_keys(kept@);
            proof {
                assert(old_keys.take(i + 1) =~= old_keys.take(i as int).push(old_keys[i as int]));
            }
            if !(self.entries[i].1 == partition && same_text(&self.entries[i].0, topic)) {
                kept.push((copy_string(&self.entries[i].0), self.entries[i].1));
                proof {
                    assert(pair_keys(kept@) =~= before.push(old_keys[i as int]));
                }
            }
            proof {
                assert forall|x: PartitionKey| #[trigger] pair_keys(kept@).contains(x) <==> (old_keys.take(i + 1).contains(x) && x != k) by {
                    let t = old_keys.take(i + 1);
                    let pk = pair_keys(kept@);
                    if pk.contains(x) {
                        let j = choose|j: int| 0 <= j < pk.len() && pk[j] == x;
                        if j < before.len() {
                            assert(before[j] == x);
                            assert(before.contains(x));
                            let j2 = choose|j2: int| 0 <= j2 < i && old_keys.take(i as int)[j2] == x;
                            assert(t[j2] == x);
                        } else {
                            assert(t[i as int] == x);
                        }
                    }
                    if t.contains(x) && x != k {
                        let j = choose|j: int| 0 <= j < t.len() && t[j] == x;
                        if j < i {
                            assert(old_keys.take(i as int)[j] == x);
                            assert(old_keys.take(i as int).contains(x));
                            assert(before.contains(x));
                            let j2 = choose|j2: int| 0 <= j2 < before.len() && before[j2] == x;
                            assert(pk[j2] == x);
                        } else {
                            assert(pk[pk.len() - 1] == x);
                        }
                    }
                }
            }
            i += 1;
        }
        proof {
            assert(old_keys.take(i as int) =~= old_keys);
        }
        self.entries = kept;
        proof {
            assert(self@ =~= old(self)@.remove(k));
        }
    }

    /// Removes every entry.
    pub fn clear(&mut self)
        ensures
            final(self)@ == Set::<PartitionKey>::empty(),
    {
        self.entries = Vec::new();
        assert(self@ =~= Set::<PartitionKey>::empty());
    }
}

} // verus!
