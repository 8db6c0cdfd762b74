use vstd::prelude::*;

verus! {

/// Represents a partition offset, either as a symbolic position or an absolute/relative value.
#[derive(Debug, Clone, Copy, PartialEq, Eq, Structural)]
pub enum Offset {
    /// Start consuming from the beginning of the partition (oldest available message).
    Beginning,
    /// Start consuming from the end of the partition (next produced message).
    End,
    /// Use the last committed (stored) offset for the consumer group.
    Stored,
    /// An absolute offset value within the partition.
    Offset(i64),
    /// A relative offset counted backwards from the current end of the partition.
    OffsetTail(i64),
}

/// A single topic-partition pair with an associated offset.
#[derive(Debug, Clone)]
pub struct TopicPartitionElem {
    /// The topic name.
    pub topic: String,
    /// The partition index within the topic.
    pub partition: i32,
    /// The offset position within the partition.
    pub offset: Offset,
}

/// The abstract content of a [`TopicPartitionElem`]: topic, partition, offset.
pub type ElemView = (Seq<char>, i32, Offset);

impl View for TopicPartitionElem {
    type V = ElemView;

    open spec fn view(&self) -> ElemView {
        (self.topic@, self.partition, self.offset)
    }
}

/// An owned, growable list of [`TopicPartitionElem`] entries.
#[derive(Debug, Clone, Default)]
pub struct TopicPartitionList {
    elements: Vec<TopicPartitionElem>,
}

/// The views of a sequence of elements.
pub open spec fn elems_view(s: Seq<TopicPartitionElem>) -> Seq<ElemView> {
    s.map_values(|e: TopicPartitionElem| e@)
}

/// The index of the first element of `s` with the given topic and partition, if any.
pub open spec fn first_match(s: Seq<ElemView>, topic: Seq<char>, partition: i32) -> Option<int>
    decreases s.len(),
{
    if s.len() == 0 {
        None
    } else if s[0].0 == topic && s[0].1 == partition {
        Some(0)
    } else {
        match first_match(s.drop_first(), topic, partition) {
            Some(i) => Some(i + 1),
            None => None,
        }
    }
}

/// The elements of `s` that belong to `topic`, in order.
pub open spec fn for_topic(s: Seq<ElemView>, topic: Seq<char>) -> Seq<ElemView> {
    s.filter(|e: ElemView| e.0 == topic)
}

/// The first-match index, if any, lies in range and points at a matching element,
/// and no earlier element matches.
pub proof fn lemma_first_match(s: Seq<ElemView>, topic: Seq<char>, partition: i32)
    ensures
        match first_match(s, topic, partition) {
            Some(i) => 0 <= i < s.len() && s[i].0 == topic && s[i].1 == partition
                && forall|j: int| 0 <= j < i ==> !(s[j].0 == topic && s[j].1 == partition),
            None => forall|j: int| 0 <= j < s.len() ==> !(s[j].0 == topic && s[j].1 == partition),
        },
    decreases s.len(),
{
    if s.len() > 0 {
        lemma_first_match(s.drop_first(), topic, partition);
        if !(s[0].0 == topic && s[0].1 == partition) {
            match first_match(s.drop_first(), topic, partition) {
                Some(i) => {
                    assert forall|j: int| 0 <= j < i + 1 implies !(s[j].0 == topic && s[j].1 == partition) by {
                        if j > 0 {
                            assert(s[j] == s.drop_first()[j - 1]);
                        }
                    }
                }
                None => {
                    assert forall|j: int| 0 <= j < s.len() implies !(s[j].0 == topic && s[j].1 == partition) by {
                        if j > 0 {
                            assert(s[j] == s.drop_first()[j - 1]);
                        }
                    }
                }
            }
        }
    }
}

/// Filtering a sequence extended by one element extends the filtered sequence by
/// that element exactly when it satisfies the predicate.
pub proof fn lemma_filter_push<A>(s: Seq<A>, pred: spec_fn(A) -> bool, x: A)
    ensures
        s.push(x).filter(pred) == if pred(x) { s.filter(pred).push(x) } else { s.filter(pred) },
{
    reveal_with_fuel(Seq::<_>::filter, 1);
    assert(s.push(x).drop_last() =~= s);
}

impl View for TopicPartitionList {
    type V = Seq<ElemView>;

    closed spec fn view(&self) -> Seq<ElemView> {
        elems_view(self.elements@)
    }
}

/// A copy of `s` with the same contents.
pub fn copy_string(s: &String) -> (r: String)
    ensures
        r@ == s@,
{
    s.clone()
}

/// Whether the string `a` holds the same characters as `b`.
pub fn same_text(a: &String, b: &str) -> (r: bool)
    ensures
        r == (a@ == b@),
{
    *a == b.to_owned()
}

impl TopicPartitionElem {
    /// A copy of this element with the same topic, partition and offset.
    pub fn copy_elem(&self) -> (r: TopicPartitionElem)
        ensures
            r@ == self@,
    {
        TopicPartitionElem { topic: copy_string(&self.topic), partition: self.partition, offset: self.offset }
    }
}

impl TopicPartitionList {
    /// A list holds at most `usize::MAX` elements.
    pub proof fn lemma_len_fits(&self)
        ensures
            self@.len() <= usize::MAX,
    {
        broadcast use vstd::std_specs::vec::axiom_spec_len;
        assert(self.elements@.len() == self.elements.len());
    }

    /// Creates a new empty `TopicPartitionList`.
    pub fn new() -> (r: Self)
        ensures
            r@ == Seq::<ElemView>::empty(),
    {
        let r = Self { elements: Vec::new() };
        assert(r@ =~= Seq::<ElemView>::empty());
        r
    }

    /// Creates a new empty `TopicPartitionList` with at least the specified capacity.
    pub fn with_capacity(cap: usize) -> (r: Self)
        ensures
            r@ == Seq::<ElemView>::empty(),
    {
        let r = Self { elements: Vec::with_capacity(cap) };
        assert(r@ =~= Seq::<ElemView>::empty());
        r
    }

    /// Adds a topic-partition with a default [`Offset::Stored`] offset.
    ///
    /// Returns a mutable reference to the newly added element.
    pub fn add_partition(&mut self, topic: &str, partition: i32) -> (r: &mut TopicPartitionElem)
        ensures
            *r == (TopicPartitionElem { topic: r.topic, partition, offset: Offset::Stored }),
            r.topic@ == topic@,
            final(self)@ == old(self)@.push((*final(r))@),
    {
        self.elements.push(TopicPartitionElem { topic: topic.to_owned(), partition, offset: Offset::Stored });
        let n = self.elements.len();
        let r = &mut self.elements[n - 1];
        r
    }

    /// Adds a topic-partition with the specified [`Offset`].
    pub fn add_partition_offset(&mut self, topic: &str, partition: i32, offset: Offset)
        ensures
            final(self)@ == old(self)@.push((topic@, partition, offset)),
    {
        self.elements.push(TopicPartitionElem { topic: topic.to_owned(), partition, offset });
        proof {
            assert(final(self)@ =~= old(self)@.push((topic@, partition, offset)));
        }
    }

    /// Finds the element matching the given topic and partition, or `None` if not found.
    pub fn find_partition(&self, topic: &str, partition: i32) -> (r: Option<&TopicPartitionElem>)
        ensures
            match first_match(self@, topic@, partition) {
                Some(i) => r matches Some(e) && e@ == self@[i],
                None => r is None,
            },
    {
        proof {
            lemma_first_match(self@, topic@, partition);
        }
        let mut i: usize = 0;
        while i < self.elements.len()
            invariant
                0 <= i <= self.elements.len(),
                self@ == elems_view(self.elements@),
                forall|j: int| 0 <= j < i ==> !(self@[j].0 == topic@ && self@[j].1 == partition),
            decreases self.elements.len() - i,
        {
            let e = &self.elements[i];
            if e.partition == partition && same_text(&e.topic, topic) {
                proof {
                    lemma_first_match(self@, topic@, partition);
                    assert(self@[i as int] == self.elements@[i as int]@);
                    assert(self@[i as int].0 == topic@ && self@[i as int].1 == partition);
                }
                return Some(e);
            }
            i += 1;
        }
        None
    }

    /// Returns a slice of all [`TopicPartitionElem`] entries.
    pub fn elements(&self) -> (r: &[TopicPartitionElem])
        ensures
            elems_view(r@) == self@,
    {
        self.elements.as_slice()
    }

    /// Returns references to all elements belonging to the specified topic.
    pub fn elements_for_topic(&self, topic: &str) -> (r: Vec<&TopicPartitionElem>)
        ensures
            r@.map_values(|e: &TopicPartitionElem| e@) == for_topic(self@, topic@),
    {
        let mut r: Vec<&TopicPartitionElem> = Vec::new();
        let mut i: usize = 0;
        while i < self.elements.len()
            invariant
                0 <= i <= self.elements.len(),
                self@ == elems_view(self.elements@),
                r@.map_values(|e: &TopicPartitionElem| e@) == for_topic(self@.take(i as int), topic@),
            decreases self.elements.len() - i,
        {
            let e = &self.elements[i];
            proof {
                assert(self@.take(i + 1) =~= self@.take(i as int).push(self@[i as int]));
                lemma_filter_push(self@.take(i as int), |e: ElemView| e.0 == topic@, self@[i as int]);
            }
            if same_text(&e.topic, topic) {
                r.push(e);
                proof {
                    assert(r@.map_values(|e: &TopicPartitionElem| e@) =~= for_topic(self@.take(i as int), topic@).push(self@[i as int]));
                }
            }
            i += 1;
        }
        proof {
            assert(self@.take(i as int) =~= self@);
        }
        r
    }

    /// Returns the total number of elements in the list.
    pub fn count(&self) -> (r: usize)
        ensures
            r == self@.len(),
    {
        self.elements.len()
    }

    /// A copy of this list with the same elements in the same order.
    pub fn copy_list(&self) -> (r: Self)
        ensures
            r@ == self@,
    {
        let mut v: Vec<TopicPartitionElem> = Vec::new();
        let mut i: usize = 0;
        while i < self.elements.len()
            invariant
                0 <= i <= self.elements.len(),
                v@.len() == i,
                elems_view(v@) == elems_view(self.elements@).take(i as int),
            decreases self.elements.len() - i,
        {
            let c = self.elements[i].copy_elem();
            let ghost old_v = v@;
            v.push(c);
            proof {
                assert(v@ == old_v.push(c));
                assert forall|j: int| 0 <= j < i + 1 implies elems_view(v@)[j] == elems_view(self.elements@).take(i + 1)[j] by {
                    if j < i {
                        assert(elems_view(v@)[j] == v@[j]@);
                        assert(v@[j] == old_v[j]);
                        assert(elems_view(old_v)[j] == old_v[j]@);
                    }
                }
                assert(elems_view(v@) =~= elems_view(self.elements@).take(i + 1));
            }
            i += 1;
        }
        proof {
            assert(elems_view(self.elements@).take(i as int) =~= elems_view(self.elements@));
        }
        Self { elements: v }
    }
}

} // verus!
