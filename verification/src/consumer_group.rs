use vstd::prelude::*;
use crate::error::{RmqError, RmqResult};
use crate::keys::{index_of, distinct, lemma_index_of, lemma_index_of_at, lemma_index_of_distinct};
use crate::offset_store::{InMemoryOffsetStore, OffsetStore, OffsetKey};
use crate::partition_assignor::{
    PartitionAssignor, RoundRobinAssignor, MemberView, members_view, counts_view, member_ids, strings_view,
    round_robin, assignment_view, sorted_members, sorted_members_exist,
};
use crate::topic_partition::{TopicPartitionList, ElemView, copy_string, same_text};
use vstd::string::StringExecFns;

verus! {

/// The abstract content of a consumer group.
pub struct GroupView {
    /// The group id.
    pub id: Seq<char>,
    /// Each member's id and subscribed topics, in joining order.
    pub members: Seq<MemberView>,
    /// Each member's current assignment.
    pub assignments: Seq<(Seq<char>, Seq<ElemView>)>,
}

/// The member table after member `id` (re)joins with `topics`: its entry is replaced in
/// place, or appended for a new member.
pub open spec fn with_member(m: Seq<MemberView>, id: Seq<char>, topics: Seq<Seq<char>>) -> Seq<MemberView> {
    match index_of(member_ids(m), id) {
        Some(i) => m.update(i, (id, topics)),
        None => m.push((id, topics)),
    }
}

/// Whether a member table entry belongs to a member other than `id`.
pub open spec fn other_than(id: Seq<char>) -> spec_fn(MemberView) -> bool {
    |e: MemberView| e.0 != id
}

/// The member table without member `id`.
pub open spec fn without_member(m: Seq<MemberView>, id: Seq<char>) -> Seq<MemberView> {
    m.filter(other_than(id))
}

/// The assignment of member `id` in `a`, if it has one.
pub open spec fn assignment_of(a: Seq<(Seq<char>, Seq<ElemView>)>, id: Seq<char>) -> Option<Seq<ElemView>> {
    match index_of(a.map_values(|e: (Seq<char>, Seq<ElemView>)| e.0), id) {
        Some(i) => Some(a[i].1),
        None => None,
    }
}

/// The assignments after a rebalance of member table `m` with partition counts `c`.
pub open spec fn rebalanced(m: Seq<MemberView>, c: Seq<(Seq<char>, i32)>) -> Seq<(Seq<char>, Seq<ElemView>)> {
    if m.len() == 0 { Seq::empty() } else { round_robin(m, c) }
}

/// Group `g` after member `id` (re)joins with `topics`, partition counts `c`.
pub open spec fn joined(g: GroupView, id: Seq<char>, topics: Seq<Seq<char>>, c: Seq<(Seq<char>, i32)>) -> GroupView {
    let m = with_member(g.members, id, topics);
    GroupView { id: g.id, members: m, assignments: rebalanced(m, c) }
}

/// Group `g` after member `id` leaves, partition counts `c`: the remaining members are
/// rebalanced; when none remain, only the member's own assignment is dropped.
pub open spec fn left(g: GroupView, id: Seq<char>, c: Seq<(Seq<char>, i32)>) -> GroupView {
    let m = without_member(g.members, id);
    GroupView {
        id: g.id,
        members: m,
        assignments: if m.len() > 0 {
            rebalanced(m, c)
        } else {
            g.assignments.filter(|e: (Seq<char>, Seq<ElemView>)| e.0 != id)
        },
    }
}

/// A group with id `id` and neither members nor assignments.
pub open spec fn empty_group(id: Seq<char>) -> GroupView {
    GroupView { id, members: Seq::empty(), assignments: Seq::empty() }
}

/// A consumer group: its members with their subscriptions, and the partitions each
/// member is assigned by the round-robin assignor.
pub struct ConsumerGroup {
    group_id: String,
    members: Vec<(String, Vec<String>)>,
    assignments: Vec<(String, TopicPartitionList)>,
    assignor: RoundRobinAssignor,
}

impl View for ConsumerGroup {
    type V = GroupView;

    closed spec fn view(&self) -> GroupView {
        GroupView {
            id: self.group_id@,
            members: members_view(self.members@),
            assignments: assignment_view(self.assignments@),
        }
    }
}

/// A copy of a list of strings.
pub fn copy_strings(v: &[String]) -> (r: Vec<String>)
    ensures
        strings_view(r@) == strings_view(v@),
{
    let mut r: Vec<String> = Vec::new();
    let mut i: usize = 0;
    while i < v.len()
        invariant
            0 <= i <= v@.len(),
            strings_view(r@) == strings_view(v@).take(i as int),
        decreases v@.len() - i,
    {
        let ghost before = r@;
        r.push(copy_string(&v[i]));
        proof {
            assert(strings_view(r@) =~= strings_view(before).push(v@[i as int]@));
            assert(strings_view(v@).take(i + 1) =~= strings_view(v@).take(i as int).push(v@[i as int]@));
        }
        i += 1;
    }
    proof {
        assert(strings_view(v@).take(i as int) =~= strings_view(v@));
    }
    r
}

impl ConsumerGroup {
    /// The group invariant: member ids are distinct.
    pub closed spec fn wf(&self) -> bool {
        distinct(member_ids(self@.members))
    }

    /// An empty group with the given id.
    pub fn new(group_id: String) -> (r: Self)
        ensures
            r.wf(),
            r@ == empty_group(group_id@),
    {
        let r = Self { group_id, members: Vec::new(), assignments: Vec::new(), assignor: RoundRobinAssignor };
        assert(r@.members =~= Seq::<MemberView>::empty());
        assert(r@.assignments =~= Seq::<(Seq<char>, Seq<ElemView>)>::empty());
        assert(member_ids(r@.members) =~= Seq::<Seq<char>>::empty());
        r
    }

    /// Returns the group id.
    pub fn group_id(&self) -> (r: &str)
        ensures
            r@ == self@.id,
    {
        self.group_id.as_str()
    }

    /// Recomputes the assignments of all members: none when the group is empty,
    /// otherwise the round-robin assignment.
    fn rebalance(&mut self, counts: &Vec<(String, i32)>)
        requires
            old(self).wf(),
        ensures
            final(self).wf(),
            final(self)@ == (GroupView { assignments: rebalanced(old(self)@.members, counts_view(counts@)), ..old(self)@ }),
            old(self)@.members.len() > 0 ==> sorted_members_exist(old(self)@.members),
    {
        if self.members.len() == 0 {
            self.assignments = Vec::new();
            proof {
                assert(self@.assignments =~= rebalanced(old(self)@.members, counts_view(counts@)));
            }
            return;
        }
        match self.assignor.assign(&self.members, counts) {
            Ok(a) => {
                self.assignments = a;
            },
            Err(_) => {},
        }
    }

    /// Adds member `member_id` with subscription `topics` (replacing an earlier
    /// subscription of the same member), rebalances, and returns the member's assignment.
    pub fn join(&mut self, member_id: &str, topics: &[String], counts: &Vec<(String, i32)>) -> (r: RmqResult<TopicPartitionList>)
        requires
            old(self).wf(),
        ensures
            final(self).wf(),
            final(self)@.id == old(self)@.id,
            final(self)@.members == with_member(old(self)@.members, member_id@, strings_view(topics@)),
            final(self)@.assignments == rebalanced(final(self)@.members, counts_view(counts@)),
            final(self)@ == joined(old(self)@, member_id@, strings_view(topics@), counts_view(counts@)),
            r matches Ok(l) && assignment_of(final(self)@.assignments, member_id@) == Some(l@),
    {
        let ghost m0 = self@.members;
        let ghost ids0 = member_ids(m0);
        let entry = (member_id.to_owned(), copy_strings(topics));
        let mut i: usize = 0;
        proof {
            lemma_index_of(ids0, member_id@);
        }
        while i < self.members.len()
            invariant
                0 <= i <= self.members@.len(),
                m0 == members_view(self.members@),
                ids0 == member_ids(m0),
                forall|j: int| 0 <= j < i ==> ids0[j] != member_id@,
            ensures
                0 <= i <= self.members@.len(),
                m0 == members_view(self.members@),
                forall|j: int| 0 <= j < i ==> ids0[j] != member_id@,
                i < self.members@.len() ==> ids0[i as int] == member_id@,
            decreases self.members@.len() - i,
        {
            proof {
                assert(ids0[i as int] == self.members@[i as int].0@);
            }
            if same_text(&self.members[i].0, member_id) {
                break;
            }
            i += 1;
        }
        if i < self.members.len() {
            proof {
                lemma_index_of_at(ids0, member_id@, i as int);
            }
            self.members.set(i, entry);
            proof {
                assert(members_view(self.members@) =~= m0.update(i as int, (member_id@, strings_view(topics@))));
                assert(member_ids(self@.members) =~= ids0);
            }
        } else {
            self.members.push(entry);
            proof {
                assert(members_view(self.members@) =~= m0.push((member_id@, strings_view(topics@))));
                let ids = member_ids(self@.members);
                assert(ids =~= ids0.push(member_id@));
                assert forall|a: int, b: int| 0 <= a < ids.len() && 0 <= b < ids.len() && a != b implies ids[a] != ids[b] by {
                    if a < ids0.len() && b < ids0.len() {
                        assert(ids[a] == ids0[a] && ids[b] == ids0[b]);
                    }
                }
            }
        }
        proof {
            assert(self@.members.len() > 0);
            let ids = member_ids(self@.members);
            if i < self.members@.len() {
                assert(ids[i as int] == member_id@);
            } else {
                assert(ids[ids.len() - 1] == member_id@);
            }
        }
        let ghost m1 = self@.members;
        self.rebalance(counts);
        proof {
            lemma_member_assigned(m1, counts_view(counts@), member_id@);
        }
        match self.assignment(member_id) {
            Some(l) => Ok(l),
            None => {
                let mut t = "no assignment for member ".to_owned();
                t.append(member_id);
                Err(RmqError::Custom(t))
            },
        }
    }

    /// Removes member `member_id` and its assignment, then rebalances the remaining members.
    pub fn leave(&mut self, member_id: &str, counts: &Vec<(String, i32)>) -> (r: RmqResult<()>)
        requires
            old(self).wf(),
        ensures
            final(self).wf(),
            r is Ok,
            final(self)@.id == old(self)@.id,
            final(self)@.members == without_member(old(self)@.members, member_id@),
            final(self)@.members.len() > 0 ==> final(self)@.assignments == rebalanced(final(self)@.members, counts_view(counts@)),
            final(self)@.members.len() == 0 ==> final(self)@.assignments == old(self)@.assignments.filter(
                |e: (Seq<char>, Seq<ElemView>)| e.0 != member_id@,
            ),
            final(self)@ == left(old(self)@, member_id@, counts_view(counts@)),
    {
        let ghost m0 = self@.members;
        let ghost a0 = self@.assignments;
        let mut kept: Vec<(String, Vec<String>)> = Vec::new();
        let mut i: usize = 0;
        let ghost pred = other_than(member_id@);
        proof {
            reveal_with_fuel(Seq::<_>::filter, 1);
            assert(members_view(kept@) =~= m0.take(0).filter(pred));
        }
        while i < self.members.len()
            invariant
                0 <= i <= self.members@.len(),
                m0 == members_view(self.members@),
                pred == other_than(member_id@),
                members_view(kept@) == m0.take(i as int).filter(pred),
            decreases self.members@.len() - i,
        {
            proof {
                assert(m0.take(i + 1) =~= m0.take(i as int).push(m0[i as int]));
                crate::topic_partition::lemma_filter_push(m0.take(i as int), pred, m0[i as int]);
                assert(m0[i as int].0 == self.members@[i as int].0@);
            }
            if !same_text(&self.members[i].0, member_id) {
                let e = (copy_string(&self.members[i].0), copy_strings(self.members[i].1.as_slice()));
                let ghost before = kept@;
                kept.push(e);
                proof {
                    assert(members_view(kept@) =~= members_view(before).push(m0[i as int]));
                }
            }
            i += 1;
        }
        proof {
            assert(m0.take(i as int) =~= m0);
            lemma_filter_distinct(m0, pred);
        }
        self.members = kept;
        let mut akept: Vec<(String, TopicPartitionList)> = Vec::new();
        let mut j: usize = 0;
        let ghost apred = |e: (Seq<char>, Seq<ElemView>)| e.0 != member_id@;
        proof {
            reveal_with_fuel(Seq::<_>::filter, 1);
            assert(assignment_view(akept@) =~= a0.take(0).filter(apred));
        }
        while j < self.assignments.len()
            invariant
                0 <= j <= self.assignments@.len(),
                a0 == assignment_view(self.assignments@),
                apred == (|e: (Seq<char>, Seq<ElemView>)| e.0 != member_id@),
                assignment_view(akept@) == a0.take(j as int).filter(apred),
            decreases self.assignments@.len() - j,
        {
            proof {
                assert(a0.take(j + 1) =~= a0.take(j as int).push(a0[j as int]));
                crate::topic_partition::lemma_filter_push(a0.take(j as int), apred, a0[j as int]);
                assert(a0[j as int].0 == self.assignments@[j as int].0@);
            }
            if !same_text(&self.assignments[j].0, member_id) {
                let e = (copy_string(&self.assignments[j].0), self.assignments[j].1.copy_list());
                let ghost before = akept@;
                akept.push(e);
                proof {
                    assert(assignment_view(akept@) =~= assignment_view(before).push(a0[j as int]));
                }
            }
            j += 1;
        }
        proof {
            assert(a0.take(j as int) =~= a0);
        }
        self.assignments = akept;
        if self.members.len() > 0 {
            self.rebalance(counts);
        }
        Ok(())
    }

    /// A copy of the current assignment of member `member_id`, if it has one.
    pub fn assignment(&self, member_id: &str) -> (r: Option<TopicPartitionList>)
        ensures
            match assignment_of(self@.assignments, member_id@) {
                Some(l) => r matches Some(t) && t@ == l,
                None => r is None,
            },
    {
        let ghost a = self@.assignments;
        let ghost names = a.map_values(|e: (Seq<char>, Seq<ElemView>)| e.0);
        proof {
            lemma_index_of(names, member_id@);
        }
        let mut i: usize = 0;
        while i < self.assignments.len()
            invariant
                0 <= i <= self.assignments@.len(),
                a == assignment_view(self.assignments@),
                names == a.map_values(|e: (Seq<char>, Seq<ElemView>)| e.0),
                forall|j: int| 0 <= j < i ==> names[j] != member_id@,
            decreases self.assignments@.len() - i,
        {
            proof {
                assert(names[i as int] == self.assignments@[i as int].0@);
            }
            if same_text(&self.assignments[i].0, member_id) {
                proof {
                    lemma_index_of_at(names, member_id@, i as int);
                }
                return Some(self.assignments[i].1.copy_list());
            }
            i += 1;
        }
        None
    }

    /// Commits `offset` for this group on `topic`/`partition` in `store`.
    pub fn commit_offset(&self, store: &mut InMemoryOffsetStore, topic: &str, partition: i32, offset: i64) -> (r: RmqResult<()>)
        ensures
            r is Ok,
            final(store)@ == old(store)@.insert((self@.id, topic@, partition), offset),
    {
        store.commit(self.group_id.as_str(), topic, partition, offset)
    }

    /// The offset committed for this group on `topic`/`partition` in `store`, if any.
    pub fn committed_offset(&self, store: &InMemoryOffsetStore, topic: &str, partition: i32) -> (r: RmqResult<Option<i64>>)
        ensures
            r == Ok::<Option<i64>, RmqError>(
                if store@.contains_key((self@.id, topic@, partition)) {
                    Some(store@[(self@.id, topic@, partition)])
                } else {
                    None
                },
            ),
    {
        store.committed(self.group_id.as_str(), topic, partition)
    }
}

/// Filtering keeps member ids distinct.
proof fn lemma_filter_distinct(m: Seq<MemberView>, pred: spec_fn(MemberView) -> bool)
    requires
        distinct(member_ids(m)),
    ensures
        distinct(member_ids(m.filter(pred))),
    decreases m.len(),
{
    reveal_with_fuel(Seq::<_>::filter, 1);
    if m.len() > 0 {
        let init = m.drop_last();
        assert(member_ids(init) =~= member_ids(m).drop_last());
        lemma_filter_distinct(init, pred);
        if pred(m.last()) {
            let f = init.filter(pred);
            let ids = member_ids(f.push(m.last()));
            assert(ids =~= member_ids(f).push(m.last().0));
            assert forall|a: int, b: int| 0 <= a < ids.len() && 0 <= b < ids.len() && a != b implies ids[a] != ids[b] by {
                if a == f.len() || b == f.len() {
                    let o = if a == f.len() { b } else { a };
                    init.lemma_filter_contains_rev(pred, f[o]);
                    assert(f.contains(f[o]));
                    let k = choose|k: int| 0 <= k < init.len() && init[k] == f[o];
                    assert(member_ids(m)[k] == f[o].0);
                    assert(member_ids(m)[m.len() - 1] == m.last().0);
                }
            }
        }
    }
}

/// In a non-empty group, every member has an entry in the round-robin assignment.
proof fn lemma_member_assigned(m: Seq<MemberView>, c: Seq<(Seq<char>, i32)>, id: Seq<char>)
    requires
        member_ids(m).contains(id),
        sorted_members_exist(m),
    ensures
        assignment_of(rebalanced(m, c), id) is Some,
{
    let rr = round_robin(m, c);
    let sorted = sorted_members(m);
    assert(m.len() > 0);
    assert(sorted.contains(id));
    let k = choose|k: int| 0 <= k < sorted.len() && sorted[k] == id;
    let names = rr.map_values(|e: (Seq<char>, Seq<ElemView>)| e.0);
    assert(names[k] == id);
    lemma_index_of(names, id);
}

} // verus!
