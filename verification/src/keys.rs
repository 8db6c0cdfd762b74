use vstd::prelude::*;

verus! {

/// The position of the first occurrence of `k` in `keys`, if any.
pub open spec fn index_of<K>(keys: Seq<K>, k: K) -> Option<int>
    decreases keys.len(),
{
    if keys.len() == 0 {
        None
    } else if keys[0] == k {
        Some(0)
    } else {
        match index_of(keys.drop_first(), k) {
            Some(i) => Some(i + 1),
            None => None,
        }
    }
}

/// No key occurs twice.
pub open spec fn distinct<K>(keys: Seq<K>) -> bool {
    forall|i: int, j: int| 0 <= i < keys.len() && 0 <= j < keys.len() && i != j ==> keys[i] != keys[j]
}

/// `index_of` finds the first occurrence, and reports none only when there is none.
pub proof fn lemma_index_of<K>(keys: Seq<K>, k: K)
    ensures
        match index_of(keys, k) {
            Some(i) => 0 <= i < keys.len() && keys[i] == k && forall|j: int| 0 <= j < i ==> keys[j] != k,
            None => forall|j: int| 0 <= j < keys.len() ==> keys[j] != k,
        },
    decreases keys.len(),
{
    if keys.len() > 0 {
        lemma_index_of(keys.drop_first(), k);
        assert forall|j: int| 0 < j < keys.len() implies keys[j] == keys.drop_first()[j - 1] by {}
    }
}

/// Where `keys[i] == k` and no earlier key is `k`, `index_of` finds `i`.
pub proof fn lemma_index_of_at<K>(keys: Seq<K>, k: K, i: int)
    requires
        0 <= i < keys.len(),
        keys[i] == k,
        forall|j: int| 0 <= j < i ==> keys[j] != k,
    ensures
        index_of(keys, k) == Some(i),
{
    lemma_index_of(keys, k);
}

/// In a sequence without repeated keys, `index_of` finds the one position of `k`.
pub proof fn lemma_index_of_distinct<K>(keys: Seq<K>, k: K, i: int)
    requires
        distinct(keys),
        0 <= i < keys.len(),
        keys[i] == k,
    ensures
        index_of(keys, k) == Some(i),
{
    lemma_index_of(keys, k);
}

/// Appending a key that does not occur keeps keys distinct and leaves other lookups alone.
pub proof fn lemma_index_of_push<K>(keys: Seq<K>, k: K, x: K)
    ensures
        index_of(keys.push(k), x) == if index_of(keys, x) is Some { index_of(keys, x) } else if k == x {
            Some(keys.len() as int)
        } else {
            None::<int>
        },
{
    lemma_index_of(keys, x);
    lemma_index_of(keys.push(k), x);
    let p = keys.push(k);
    assert forall|j: int| 0 <= j < keys.len() implies p[j] == keys[j] by {}
    match index_of(keys, x) {
        Some(i) => lemma_index_of_at(p, x, i),
        None => {
            if k == x {
                lemma_index_of_at(p, x, keys.len() as int);
            }
        }
    }
}

/// Containment in a sequence with one more element.
pub proof fn lemma_contains_push<A>(s: Seq<A>, x: A, k: A)
    ensures
        s.push(x).contains(k) == (s.contains(k) || k == x),
{
    let p = s.push(x);
    if s.contains(k) {
        let j = choose|j: int| 0 <= j < s.len() && s[j] == k;
        assert(p[j] == k);
    }
    if p.contains(k) {
        let j = choose|j: int| 0 <= j < p.len() && p[j] == k;
        if j < s.len() {
            assert(s[j] == k);
        }
    }
    if k == x {
        assert(p[s.len() as int] == k);
    }
}

/// Containment in a concatenation.
pub proof fn lemma_concat_contains<A>(a: Seq<A>, b: Seq<A>, k: A)
    ensures
        (a + b).contains(k) == (a.contains(k) || b.contains(k)),
{
    let c = a + b;
    if a.contains(k) {
        let j = choose|j: int| 0 <= j < a.len() && a[j] == k;
        assert(c[j] == k);
    }
    if b.contains(k) {
        let j = choose|j: int| 0 <= j < b.len() && b[j] == k;
        assert(c[a.len() + j] == k);
    }
    if c.contains(k) {
        let j = choose|j: int| 0 <= j < c.len() && c[j] == k;
        if j < a.len() {
            assert(a[j] == k);
        } else {
            assert(b[j - a.len()] == k);
        }
    }
}

} // verus!
