use vstd::prelude::*;
use crate::error::{RmqError, RmqResult};
use crate::keys::{index_of, distinct, lemma_index_of, lemma_index_of_at, lemma_index_of_distinct};
use crate::order::{text_lt, text_less, lemma_text_order};
use crate::topic_partition::{TopicPartitionList, ElemView, Offset, copy_string, lemma_filter_push};

verus! {

/// A member's id and the topics it subscribes to.
pub type MemberView = (Seq<char>, Seq<Seq<char>>);

/// The characters of each string.
pub open spec fn strings_view(v: Seq<String>) -> Seq<Seq<char>> {
    v.map_values(|s: String| s@)
}

/// The abstract content of a member-to-topics table.
pub open spec fn members_view(v: Seq<(String, Vec<String>)>) -> Seq<MemberView> {
    v.map_values(|e: (String, Vec<String>)| (e.0@, strings_view(e.1@)))
}

/// The abstract content of a topic-to-partition-count table.
pub open spec fn counts_view(v: Seq<(String, i32)>) -> Seq<(Seq<char>, i32)> {
    v.map_values(|e: (String, i32)| (e.0@, e.1))
}

/// The member ids of a member table, in order.
pub open spec fn member_ids(m: Seq<MemberView>) -> Seq<Seq<char>> {
    m.map_values(|e: MemberView| e.0)
}

/// Whether member `id` subscribes to topic `t`.
pub open spec fn subscribes(m: Seq<MemberView>, id: Seq<char>, t: Seq<char>) -> bool {
    match index_of(member_ids(m), id) {
        Some(i) => m[i].1.contains(t),
        None => false,
    }
}

/// The partition count of topic `t`, if known.
pub open spec fn count_of(c: Seq<(Seq<char>, i32)>, t: Seq<char>) -> Option<i32> {
    match index_of(c.map_values(|e: (Seq<char>, i32)| e.0), t) {
        Some(i) => Some(c[i].1),
        None => None,
    }
}

/// Strictly increasing in the order of strings.
pub open spec fn strictly_sorted(s: Seq<Seq<char>>) -> bool {
    forall|i: int, j: int| 0 <= i < j < s.len() ==> text_lt(#[trigger] s[i], #[trigger] s[j])
}

/// The members (in the order of `sorted`) that subscribe to topic `t`.
pub open spec fn subscribers(sorted: Seq<Seq<char>>, m: Seq<MemberView>, t: Seq<char>) -> Seq<Seq<char>> {
    sorted.filter(|id: Seq<char>| subscribes(m, id, t))
}

/// The member that receives partition `p` of topic `t`: the subscribers take the
/// partitions in turn.
pub open spec fn owner(sorted: Seq<Seq<char>>, m: Seq<MemberView>, t: Seq<char>, p: int) -> Seq<char> {
    let sub = subscribers(sorted, m, t);
    sub[p % (sub.len() as int)]
}

/// The partitions among the first `n` of topic `t` that member `id` receives, in order.
pub open spec fn pairs(sorted: Seq<Seq<char>>, m: Seq<MemberView>, t: Seq<char>, n: nat, id: Seq<char>) -> Seq<ElemView>
    decreases n,
{
    if n == 0 {
        Seq::empty()
    } else {
        let rest = pairs(sorted, m, t, (n - 1) as nat, id);
        if owner(sorted, m, t, n - 1) == id {
            rest.push((t, (n - 1) as i32, Offset::Stored))
        } else {
            rest
        }
    }
}

/// The partitions of topic `t` that member `id` receives: none when the topic's partition
/// count is unknown or not positive, or when nobody subscribes.
pub open spec fn topic_share(sorted: Seq<Seq<char>>, m: Seq<MemberView>, c: Seq<(Seq<char>, i32)>, t: Seq<char>, id: Seq<char>) -> Seq<ElemView> {
    match count_of(c, t) {
        Some(n) => if n > 0 && subscribers(sorted, m, t).len() > 0 {
            pairs(sorted, m, t, n as nat, id)
        } else {
            Seq::empty()
        },
        None => Seq::empty(),
    }
}

/// The partitions member `id` receives from the topics `ts`, topic by topic.
pub open spec fn assigned(sorted: Seq<Seq<char>>, m: Seq<MemberView>, c: Seq<(Seq<char>, i32)>, ts: Seq<Seq<char>>, id: Seq<char>) -> Seq<ElemView>
    decreases ts.len(),
{
    if ts.len() == 0 {
        Seq::empty()
    } else {
        assigned(sorted, m, c, ts.drop_last(), id) + topic_share(sorted, m, c, ts.last(), id)
    }
}

/// `s` with `x` appended unless it already occurs.
pub open spec fn add_unique(s: Seq<Seq<char>>, x: Seq<char>) -> Seq<Seq<char>> {
    if s.contains(x) { s } else { s.push(x) }
}

/// `acc` extended by the topics `ts` that do not occur yet, in order.
pub open spec fn collect_topics(acc: Seq<Seq<char>>, ts: Seq<Seq<char>>) -> Seq<Seq<char>>
    decreases ts.len(),
{
    if ts.len() == 0 {
        acc
    } else {
        add_unique(collect_topics(acc, ts.drop_last()), ts.last())
    }
}

/// Every topic some member subscribes to, once each, in order of first mention.
pub open spec fn topic_order(m: Seq<MemberView>) -> Seq<Seq<char>>
    decreases m.len(),
{
    if m.len() == 0 {
        Seq::empty()
    } else {
        collect_topics(topic_order(m.drop_last()), m.last().1)
    }
}

/// Two strictly sorted sequences with the same elements are equal.
pub proof fn lemma_sorted_unique(a: Seq<Seq<char>>, b: Seq<Seq<char>>)
    requires
        strictly_sorted(a),
        strictly_sorted(b),
        a.len() == b.len(),
        forall|x: Seq<char>| a.contains(x) <==> b.contains(x),
    ensures
        a == b,
    decreases a.len(),
{
    if a.len() > 0 {
        assert(a.contains(a[0]));
        assert(b.contains(b[0]));
        if a[0] != b[0] {
            let j = choose|j: int| 0 <= j < b.len() && b[j] == a[0];
            let i = choose|i: int| 0 <= i < a.len() && a[i] == b[0];
            assert(j > 0 && i > 0);
            assert(text_lt(b[0], b[j]));
            assert(text_lt(a[0], a[i]));
            lemma_text_order(a[0], b[0], a[0]);
            assert(false);
        }
        let a1 = a.drop_first();
        let b1 = b.drop_first();
        assert forall|x: Seq<char>| a1.contains(x) <==> b1.contains(x) by {
            if a1.contains(x) {
                let i = choose|i: int| 0 <= i < a1.len() && a1[i] == x;
                assert(a[i + 1] == x);
                assert(text_lt(a[0], a[i + 1]));
                lemma_text_order(a[0], x, x);
                assert(b.contains(x));
                let j = choose|j: int| 0 <= j < b.len() && b[j] == x;
                assert(j != 0);
                assert(b1[j - 1] == x);
            }
            if b1.contains(x) {
                let j = choose|j: int| 0 <= j < b1.len() && b1[j] == x;
                assert(b[j + 1] == x);
                assert(text_lt(b[0], b[j + 1]));
                lemma_text_order(b[0], x, x);
                assert(a.contains(x));
                let i = choose|i: int| 0 <= i < a.len() && a[i] == x;
                assert(i != 0);
                assert(a1[i - 1] == x);
            }
        }
        lemma_sorted_unique(a1, b1);
        assert(a =~= b) by {
            assert forall|k: int| 0 <= k < a.len() implies a[k] == b[k] by {
                if k > 0 {
                    assert(a[k] == a1[k - 1]);
                    assert(b[k] == b1[k - 1]);
                }
            }
        }
    }
}

/// The member ids of `m` sorted in the order of strings.
pub open spec fn sorted_members(m: Seq<MemberView>) -> Seq<Seq<char>> {
    choose|s: Seq<Seq<char>>| strictly_sorted(s) && s.len() == m.len()
        && forall|x: Seq<char>| s.contains(x) <==> member_ids(m).contains(x)
}

/// The sorted member ids exist: they are strictly sorted and hold exactly the member ids.
pub open spec fn sorted_members_exist(m: Seq<MemberView>) -> bool {
    let s = sorted_members(m);
    strictly_sorted(s) && s.len() == m.len() && forall|x: Seq<char>| s.contains(x) <==> member_ids(m).contains(x)
}

/// `s` with `x` inserted before the first element that comes after it.
pub open spec fn insert_sorted(s: Seq<Seq<char>>, x: Seq<char>) -> Seq<Seq<char>>
    decreases s.len(),
{
    if s.len() == 0 {
        seq![x]
    } else if text_lt(x, s[0]) {
        seq![x] + s
    } else {
        seq![s[0]] + insert_sorted(s.drop_first(), x)
    }
}

/// Inserting a new element into a strictly sorted sequence keeps it strictly sorted and
/// adds exactly that element.
proof fn lemma_insert_sorted(s: Seq<Seq<char>>, x: Seq<char>)
    requires
        strictly_sorted(s),
        !s.contains(x),
    ensures
        strictly_sorted(insert_sorted(s, x)),
        insert_sorted(s, x).len() == s.len() + 1,
        forall|y: Seq<char>| insert_sorted(s, x).contains(y) <==> (s.contains(y) || y == x),
    decreases s.len(),
{
    let r = insert_sorted(s, x);
    if s.len() == 0 {
        assert(r[0] == x);
    } else if text_lt(x, s[0]) {
        assert forall|i: int, j: int| 0 <= i < j < r.len() implies text_lt(#[trigger] r[i], #[trigger] r[j]) by {
            if i == 0 {
                assert(r[j] == s[j - 1]);
                if j - 1 > 0 {
                    assert(text_lt(s[0], s[j - 1]));
                    lemma_text_order(x, s[0], s[j - 1]);
                }
            } else {
                assert(r[i] == s[i - 1] && r[j] == s[j - 1]);
            }
        }
        assert forall|y: Seq<char>| r.contains(y) <==> (s.contains(y) || y == x) by {
            if r.contains(y) {
                let k = choose|k: int| 0 <= k < r.len() && r[k] == y;
                if k > 0 {
                    assert(s[k - 1] == y);
                }
            }
            if s.contains(y) {
                let k = choose|k: int| 0 <= k < s.len() && s[k] == y;
                assert(r[k + 1] == y);
            }
            if y == x {
                assert(r[0] == y);
            }
        }
    } else {
        let t = s.drop_first();
        assert(strictly_sorted(t)) by {
            assert forall|i: int, j: int| 0 <= i < j < t.len() implies text_lt(#[trigger] t[i], #[trigger] t[j]) by {
                assert(t[i] == s[i + 1] && t[j] == s[j + 1]);
            }
        }
        assert(!t.contains(x)) by {
            if t.contains(x) {
                let k = choose|k: int| 0 <= k < t.len() && t[k] == x;
                assert(s[k + 1] == x);
            }
        }
        lemma_insert_sorted(t, x);
        let u = insert_sorted(t, x);
        assert(x != s[0]) by {
            assert(s[0] == s[0]);
        }
        lemma_text_order(x, s[0], x);
        assert(text_lt(s[0], x));
        assert forall|k: int| 0 <= k < u.len() implies text_lt(s[0], #[trigger] u[k]) by {
            assert(u.contains(u[k]));
            if u[k] != x {
                assert(t.contains(u[k]));
                let m = choose|m: int| 0 <= m < t.len() && t[m] == u[k];
                assert(s[m + 1] == u[k]);
                assert(text_lt(s[0], s[m + 1]));
            }
        }
        assert forall|i: int, j: int| 0 <= i < j < r.len() implies text_lt(#[trigger] r[i], #[trigger] r[j]) by {
            if i == 0 {
                assert(r[j] == u[j - 1]);
            } else {
                assert(r[i] == u[i - 1] && r[j] == u[j - 1]);
            }
        }
        assert forall|y: Seq<char>| r.contains(y) <==> (s.contains(y) || y == x) by {
            if r.contains(y) {
                let k = choose|k: int| 0 <= k < r.len() && r[k] == y;
                if k > 0 {
                    assert(u[k - 1] == y);
                    assert(u.contains(y));
                    assert(t.contains(y) || y == x);
                    if y != x {
                        assert(t.contains(y));
                        let m = choose|m: int| 0 <= m < t.len() && t[m] == y;
                        assert(s[m + 1] == y);
                    }
                } else {
                    assert(s[0] == y);
                }
            }
            if s.contains(y) {
                let k = choose|k: int| 0 <= k < s.len() && s[k] == y;
                if k == 0 {
                    assert(r[0] == y);
                } else {
                    assert(t[k - 1] == y);
                    assert(t.contains(y));
                    assert(u.contains(y));
                    let m = choose|m: int| 0 <= m < u.len() && u[m] == y;
                    assert(r[m + 1] == y);
                }
            }
            if y == x {
                assert(u.contains(x));
                let m = choose|m: int| 0 <= m < u.len() && u[m] == x;
                assert(r[m + 1] == x);
            }
        }
    }
}

/// The member ids of a table inserted one by one into a sorted sequence.
pub open spec fn sorted_ids_of(m: Seq<MemberView>) -> Seq<Seq<char>>
    decreases m.len(),
{
    if m.len() == 0 {
        Seq::empty()
    } else {
        insert_sorted(sorted_ids_of(m.drop_last()), m.last().0)
    }
}

/// The member ids of a table whose ids are distinct can be sorted: the sorted member ids
/// exist.
pub proof fn lemma_sorted_members_exist(m: Seq<MemberView>)
    requires
        distinct(member_ids(m)),
    ensures
        sorted_members_exist(m),
{
    lemma_sorted_ids_of(m);
    let s = sorted_ids_of(m);
    assert(strictly_sorted(s) && s.len() == m.len() && forall|x: Seq<char>| s.contains(x) <==> member_ids(m).contains(x));
}

/// The ids of a table with distinct ids, inserted one by one, are strictly sorted and are
/// exactly the member ids.
proof fn lemma_sorted_ids_of(m: Seq<MemberView>)
    requires
        distinct(member_ids(m)),
    ensures
        strictly_sorted(sorted_ids_of(m)),
        sorted_ids_of(m).len() == m.len(),
        forall|x: Seq<char>| sorted_ids_of(m).contains(x) <==> member_ids(m).contains(x),
    decreases m.len(),
{
    if m.len() > 0 {
        let init = m.drop_last();
        let ids = member_ids(m);
        assert(member_ids(init) =~= ids.drop_last());
        lemma_sorted_ids_of(init);
        let s0 = sorted_ids_of(init);
        let x = m.last().0;
        assert(ids[ids.len() - 1] == x);
        assert(!s0.contains(x)) by {
            if s0.contains(x) {
                assert(member_ids(init).contains(x));
                let k = choose|k: int| 0 <= k < member_ids(init).len() && member_ids(init)[k] == x;
                assert(ids[k] == x);
            }
        }
        lemma_insert_sorted(s0, x);
        assert forall|y: Seq<char>| sorted_ids_of(m).contains(y) <==> ids.contains(y) by {
            if ids.contains(y) {
                let k = choose|k: int| 0 <= k < ids.len() && ids[k] == y;
                if k < ids.len() - 1 {
                    assert(member_ids(init)[k] == y);
                }
            }
            if member_ids(init).contains(y) {
                let k = choose|k: int| 0 <= k < member_ids(init).len() && member_ids(init)[k] == y;
                assert(ids[k] == y);
            }
        }
    }
}

/// The round-robin assignment of member table `m` with partition counts `c`: for each
/// member, in sorted order, its id and the partitions it receives.
pub open spec fn round_robin(m: Seq<MemberView>, c: Seq<(Seq<char>, i32)>) -> Seq<(Seq<char>, Seq<ElemView>)> {
    let sorted = sorted_members(m);
    sorted.map_values(|id: Seq<char>| (id, assigned(sorted, m, c, topic_order(m), id)))
}

/// The abstract content of an assignment table.
pub open spec fn assignment_view(v: Seq<(String, TopicPartitionList)>) -> Seq<(Seq<char>, Seq<ElemView>)> {
    v.map_values(|e: (String, TopicPartitionList)| (e.0@, e.1@))
}

/// Partition assignment strategy trait defining how partitions are distributed among consumer group members.
pub trait PartitionAssignor {
    /// Returns the name of this assignment strategy.
    fn name(&self) -> &str;

    /// Compute partition assignments for all members.
    /// `member_topics`: member ID → list of subscribed topics.
    /// `partition_counts`: topic name → number of partitions.
    /// Returns: member ID → assigned `TopicPartitionList`.
    /// Each member id occurs once in `member_topics`.
    fn assign(
        &self,
        member_topics: &Vec<(String, Vec<String>)>,
        partition_counts: &Vec<(String, i32)>,
    ) -> RmqResult<Vec<(String, TopicPartitionList)>>
        requires
            distinct(member_ids(members_view(member_topics@))),
    ;
}

/// Round-robin assignor that distributes partitions evenly among members subscribed to each topic.
#[derive(Debug, Clone, Copy)]
pub struct RoundRobinAssignor;

/// The member ids of `member_topics`, sorted in the order of strings.
fn sorted_ids(member_topics: &Vec<(String, Vec<String>)>) -> (r: Vec<String>)
    requires
        distinct(member_ids(members_view(member_topics@))),
    ensures
        strictly_sorted(strings_view(r@)),
        r@.len() == member_topics@.len(),
        forall|x: Seq<char>| strings_view(r@).contains(x) <==> member_ids(members_view(member_topics@)).contains(x),
{
    let ghost ids = member_ids(members_view(member_topics@));
    let mut r: Vec<String> = Vec::new();
    let mut i: usize = 0;
    while i < member_topics.len()
        invariant
            0 <= i <= member_topics@.len(),
            ids == member_ids(members_view(member_topics@)),
            distinct(ids),
            r@.len() == i,
            strictly_sorted(strings_view(r@)),
            forall|x: Seq<char>| strings_view(r@).contains(x) <==> ids.take(i as int).contains(x),
        decreases member_topics@.len() - i,
    {
        let x = copy_string(&member_topics[i].0);
        proof {
            assert(ids[i as int] == x@);
            if strings_view(r@).contains(x@) {
                let j = choose|j: int| 0 <= j < i && ids.take(i as int)[j] == x@;
                assert(ids[j] == ids[i as int]);
            }
        }
        let mut pos: usize = 0;
        while pos < r.len() && text_less(r[pos].as_str(), x.as_str())
            invariant
                0 <= pos <= r@.len(),
                forall|j: int| 0 <= j < pos ==> text_lt(#[trigger] strings_view(r@)[j], x@),
            decreases r@.len() - pos,
        {
            proof {
                assert(strings_view(r@)[pos as int] == r@[pos as int]@);
            }
            pos += 1;
        }
        let ghost before = strings_view(r@);
        r.insert(pos, x);
        proof {
            let after = strings_view(r@);
            assert(after =~= before.insert(pos as int, x@));
            assert forall|a: int, b: int| 0 <= a < b < after.len() implies text_lt(#[trigger] after[a], #[trigger] after[b]) by {
                if pos < before.len() {
                    assert(!text_lt(before[pos as int], x@));
                    assert(before.contains(before[pos as int]));
                    lemma_text_order(before[pos as int], x@, x@);
                    lemma_text_order(x@, before[pos as int], x@);
                }
                if b < pos {
                } else if b == pos {
                } else if a < pos {
                    lemma_text_order(after[a], x@, after[b]);
                    if b - 1 > pos {
                        lemma_text_order(x@, before[pos as int], before[b - 1]);
                    }
                } else if a == pos {
                    if b - 1 > pos {
                        lemma_text_order(x@, before[pos as int], before[b - 1]);
                    }
                } else {
                }
            }
            assert(ids.take(i + 1) =~= ids.take(i as int).push(x@));
            assert forall|y: Seq<char>| after.contains(y) <==> ids.take(i + 1).contains(y) by {
                if after.contains(y) {
                    let j = choose|j: int| 0 <= j < after.len() && after[j] == y;
                    if j < pos {
                        assert(before[j] == y);
                        assert(before.contains(y));
                    } else if j > pos {
                        assert(before[j - 1] == y);
                        assert(before.contains(y));
                    }
                    if j == pos {
                        assert(ids.take(i + 1)[i as int] == y);
                    } else {
                        assert(ids.take(i as int).contains(y));
                        let k = choose|k: int| 0 <= k < i && ids.take(i as int)[k] == y;
                        assert(ids.take(i + 1)[k] == y);
                    }
                }
                if ids.take(i + 1).contains(y) {
                    if y == x@ {
                        assert(after[pos as int] == y);
                    } else {
                        assert(ids.take(i as int).contains(y));
                        assert(before.contains(y));
                        let j = choose|j: int| 0 <= j < before.len() && before[j] == y;
                        if j < pos {
                            assert(after[j] == y);
                        } else {
                            assert(after[j + 1] == y);
                        }
                    }
                }
            }
        }
        i += 1;
    }
    proof {
        assert(ids.take(i as int) =~= ids);
    }
    r
}

/// Whether the strings `v` include one with the characters of `t`.
fn contains_text(v: &Vec<String>, t: &String) -> (r: bool)
    ensures
        r == strings_view(v@).contains(t@),
{
    let mut i: usize = 0;
    while i < v.len()
        invariant
            0 <= i <= v@.len(),
            forall|j: int| 0 <= j < i ==> strings_view(v@)[j] != t@,
        decreases v@.len() - i,
    {
        if v[i] == *t {
            proof {
                assert(strings_view(v@)[i as int] == t@);
            }
            return true;
        }
        i += 1;
    }
    false
}

/// Every topic some member subscribes to, once each, in order of first mention.
fn collect_all_topics(member_topics: &Vec<(String, Vec<String>)>) -> (r: Vec<String>)
    ensures
        strings_view(r@) == topic_order(members_view(member_topics@)),
{
    let ghost m = members_view(member_topics@);
    let mut all: Vec<String> = Vec::new();
    let mut i: usize = 0;
    while i < member_topics.len()
        invariant
            0 <= i <= member_topics@.len(),
            m == members_view(member_topics@),
            strings_view(all@) == topic_order(m.take(i as int)),
        decreases member_topics@.len() - i,
    {
        let ts = &member_topics[i].1;
        let ghost acc0 = strings_view(all@);
        proof {
            assert(m.take(i + 1).drop_last() =~= m.take(i as int));
            assert(m.take(i + 1).last() == m[i as int]);
            assert(m[i as int].1 == strings_view(ts@));
            assert(strings_view(ts@).take(0) =~= Seq::<Seq<char>>::empty());
        }
        let mut j: usize = 0;
        while j < ts.len()
            invariant
                0 <= j <= ts@.len(),
                strings_view(all@) == collect_topics(acc0, strings_view(ts@).take(j as int)),
            decreases ts@.len() - j,
        {
            let t = &ts[j];
            proof {
                assert(strings_view(ts@).take(j + 1).drop_last() =~= strings_view(ts@).take(j as int));
                assert(strings_view(ts@).take(j + 1).last() == t@);
            }
            if !contains_text(&all, t) {
                let ghost before = strings_view(all@);
                all.push(copy_string(t));
                proof {
                    assert(strings_view(all@) =~= before.push(t@));
                }
            }
            j += 1;
        }
        proof {
            assert(strings_view(ts@).take(j as int) =~= strings_view(ts@));
        }
        i += 1;
    }
    proof {
        assert(m.take(i as int) =~= m);
    }
    all
}

/// The partition count of topic `t`, if the table knows it.
fn count_for(partition_counts: &Vec<(String, i32)>, t: &String) -> (r: Option<i32>)
    ensures
        r == count_of(counts_view(partition_counts@), t@),
{
    let ghost c = counts_view(partition_counts@);
    let ghost names = c.map_values(|e: (Seq<char>, i32)| e.0);
    proof {
        lemma_index_of(names, t@);
    }
    let mut i: usize = 0;
    while i < partition_counts.len()
        invariant
            0 <= i <= partition_counts@.len(),
            c == counts_view(partition_counts@),
            names == c.map_values(|e: (Seq<char>, i32)| e.0),
            forall|j: int| 0 <= j < i ==> names[j] != t@,
        decreases partition_counts@.len() - i,
    {
        proof {
            assert(names[i as int] == partition_counts@[i as int].0@);
        }
        if partition_counts[i].0 == *t {
            proof {
                lemma_index_of_at(names, t@, i as int);
            }
            return Some(partition_counts[i].1);
        }
        i += 1;
    }
    None
}

/// Whether member `id` subscribes to topic `t`.
fn member_subscribes(member_topics: &Vec<(String, Vec<String>)>, id: &String, t: &String) -> (r: bool)
    ensures
        r == subscribes(members_view(member_topics@), id@, t@),
{
    let ghost m = members_view(member_topics@);
    let ghost ids = member_ids(m);
    proof {
        lemma_index_of(ids, id@);
    }
    let mut i: usize = 0;
    while i < member_topics.len()
        invariant
            0 <= i <= member_topics@.len(),
            m == members_view(member_topics@),
            ids == member_ids(m),
            forall|j: int| 0 <= j < i ==> ids[j] != id@,
        decreases member_topics@.len() - i,
    {
        proof {
            assert(ids[i as int] == member_topics@[i as int].0@);
        }
        if member_topics[i].0 == *id {
            proof {
                lemma_index_of_at(ids, id@, i as int);
            }
            return contains_text(&member_topics[i].1, t);
        }
        i += 1;
    }
    false
}

/// The positions in `ids` (ascending) of the members that subscribe to topic `t`.
fn subscriber_indices(ids: &Vec<String>, member_topics: &Vec<(String, Vec<String>)>, t: &String) -> (r: Vec<usize>)
    ensures
        forall|j: int| 0 <= j < r@.len() ==> #[trigger] r@[j] < ids@.len(),
        r@.map_values(|k: usize| strings_view(ids@)[k as int]) == subscribers(strings_view(ids@), members_view(member_topics@), t@),
{
    let ghost sv = strings_view(ids@);
    let ghost m = members_view(member_topics@);
    let ghost pred = |id: Seq<char>| subscribes(m, id, t@);
    let mut r: Vec<usize> = Vec::new();
    let mut k: usize = 0;
    proof {
        assert(sv.take(0) =~= Seq::<Seq<char>>::empty());
        reveal_with_fuel(Seq::<_>::filter, 1);
        assert(r@.map_values(|k: usize| sv[k as int]) =~= sv.take(0).filter(pred));
    }
    while k < ids.len()
        invariant
            0 <= k <= ids@.len(),
            sv == strings_view(ids@),
            m == members_view(member_topics@),
            pred == (|id: Seq<char>| subscribes(m, id, t@)),
            forall|j: int| 0 <= j < r@.len() ==> #[trigger] r@[j] < k,
            r@.map_values(|k: usize| sv[k as int]) == sv.take(k as int).filter(pred),
        decreases ids@.len() - k,
    {
        proof {
            assert(sv.take(k + 1) =~= sv.take(k as int).push(sv[k as int]));
            lemma_filter_push(sv.take(k as int), pred, sv[k as int]);
            assert(sv[k as int] == ids@[k as int]@);
        }
        if member_subscribes(member_topics, &ids[k], t) {
            let ghost before = r@;
            r.push(k);
            proof {
                assert(r@.map_values(|k: usize| sv[k as int]) =~= before.map_values(|k: usize| sv[k as int]).push(sv[k as int]));
            }
        }
        k += 1;
    }
    proof {
        assert(sv.take(k as int) =~= sv);
    }
    r
}

/// One more partition extends the share of its owner alone.
proof fn lemma_pairs_step(sorted: Seq<Seq<char>>, m: Seq<MemberView>, t: Seq<char>, p: nat, id: Seq<char>)
    ensures
        pairs(sorted, m, t, p + 1, id) == if owner(sorted, m, t, p as int) == id {
            pairs(sorted, m, t, p, id).push((t, p as i32, Offset::Stored))
        } else {
            pairs(sorted, m, t, p, id)
        },
{
    assert((p + 1 - 1) as nat == p);
}

impl PartitionAssignor for RoundRobinAssignor {
    /// Returns the strategy name "roundrobin".
    fn name(&self) -> (r: &str)
        ensures
            r@ == "roundrobin"@,
    {
        "roundrobin"
    }

    /// Sorts the members by id; then, topic by topic (in order of first mention), deals the
    /// partitions of each topic with a known positive partition count out to the members
    /// subscribed to it, in turn: partition `p` goes to subscriber `p` modulo their number.
    /// Every member receives a (possibly empty) list.
    fn assign(
        &self,
        member_topics: &Vec<(String, Vec<String>)>,
        partition_counts: &Vec<(String, i32)>,
    ) -> (r: RmqResult<Vec<(String, TopicPartitionList)>>)
        ensures
            r matches Ok(v) && assignment_view(v@) == round_robin(members_view(member_topics@), counts_view(partition_counts@)),
            sorted_members_exist(members_view(member_topics@)),
    {
        let ghost m = members_view(member_topics@);
        let ghost c = counts_view(partition_counts@);
        let ids = sorted_ids(member_topics);
        let ghost sv = strings_view(ids@);
        let mut res: Vec<(String, TopicPartitionList)> = Vec::new();
        let mut k: usize = 0;
        while k < ids.len()
            invariant
                0 <= k <= ids@.len(),
                sv == strings_view(ids@),
                res@.len() == k,
                forall|j: int| 0 <= j < k ==> (#[trigger] res@[j]).0@ == sv[j] && res@[j].1@ == Seq::<ElemView>::empty(),
            decreases ids@.len() - k,
        {
            res.push((copy_string(&ids[k]), TopicPartitionList::new()));
            k += 1;
        }
        let all = collect_all_topics(member_topics);
        let ghost order = strings_view(all@);
        let mut ti: usize = 0;
        while ti < all.len()
            invariant
                0 <= ti <= all@.len(),
                sv == strings_view(ids@),
                order == strings_view(all@),
                order == topic_order(m),
                m == members_view(member_topics@),
                c == counts_view(partition_counts@),
                strictly_sorted(sv),
                res@.len() == ids@.len(),
                forall|j: int| 0 <= j < res@.len() ==> (#[trigger] res@[j]).0@ == sv[j]
                    && res@[j].1@ == assigned(sv, m, c, order.take(ti as int), sv[j]),
            decreases all@.len() - ti,
        {
            let t = &all[ti];
            proof {
                assert(order.take(ti + 1).drop_last() =~= order.take(ti as int));
                assert(order.take(ti + 1).last() == t@);
            }
            match count_for(partition_counts, t) {
                None => {},
                Some(n) => {
                    let sub = subscriber_indices(&ids, member_topics, t);
                    proof {
                        assert(sub@.map_values(|k: usize| sv[k as int]).len() == sub@.len());
                    }
                    if sub.len() > 0 && n > 0 {
                        let mut p: i32 = 0;
                        while p < n
                            invariant
                                0 <= p <= n,
                                sub@.len() > 0,
                                forall|j: int| 0 <= j < sub@.len() ==> #[trigger] sub@[j] < ids@.len(),
                                sub@.map_values(|k: usize| sv[k as int]) == subscribers(sv, m, t@),
                                sv == strings_view(ids@),
                                strictly_sorted(sv),
                                res@.len() == ids@.len(),
                                forall|j: int| 0 <= j < res@.len() ==> (#[trigger] res@[j]).0@ == sv[j]
                                    && res@[j].1@ == assigned(sv, m, c, order.take(ti as int), sv[j])
                                        + pairs(sv, m, t@, p as nat, sv[j]),
                            decreases n - p,
                        {
                            let idx = (p as usize) % sub.len();
                            let k0 = sub[idx];
                            let ghost before = res@;
                            let mut entry = res.remove(k0);
                            entry.1.add_partition_offset(t.as_str(), p, Offset::Stored);
                            res.insert(k0, entry);
                            proof {
                                let subs = subscribers(sv, m, t@);
                                assert(subs[idx as int] == sv[k0 as int]);
                                assert(owner(sv, m, t@, p as int) == sv[k0 as int]);
                                assert forall|j: int| 0 <= j < res@.len() implies (#[trigger] res@[j]).0@ == sv[j]
                                    && res@[j].1@ == assigned(sv, m, c, order.take(ti as int), sv[j])
                                        + pairs(sv, m, t@, (p + 1) as nat, sv[j]) by {
                                    lemma_pairs_step(sv, m, t@, p as nat, sv[j]);
                                    if j == k0 {
                                    } else {
                                        assert(res@[j] == before[j]);
                                        lemma_text_order(sv[j], sv[k0 as int], sv[k0 as int]);
                                        if j < k0 {
                                            assert(text_lt(sv[j], sv[k0 as int]));
                                        } else {
                                            assert(text_lt(sv[k0 as int], sv[j]));
                                            lemma_text_order(sv[k0 as int], sv[j], sv[j]);
                                        }
                                    }
                                }
                            }
                            p += 1;
                        }
                    }
                },
            }
            proof {
                assert forall|j: int| 0 <= j < res@.len() implies (#[trigger] res@[j]).0@ == sv[j]
                    && res@[j].1@ == assigned(sv, m, c, order.take(ti + 1), sv[j]) by {
                    assert(assigned(sv, m, c, order.take(ti + 1), sv[j]) == assigned(sv, m, c, order.take(ti as int), sv[j])
                        + topic_share(sv, m, c, t@, sv[j]));
                    if topic_share(sv, m, c, t@, sv[j]).len() == 0 {
                        assert(assigned(sv, m, c, order.take(ti as int), sv[j]) + topic_share(sv, m, c, t@, sv[j])
                            =~= assigned(sv, m, c, order.take(ti as int), sv[j]));
                    }
                }
            }
            ti += 1;
        }
        proof {
            assert(order.take(ti as int) =~= order);
            assert(sv.len() == m.len());
            lemma_sorted_unique(sorted_members(m), sv);
            assert(assignment_view(res@) =~= round_robin(m, c));
        }
        Ok(res)
    }
}

} // verus!
