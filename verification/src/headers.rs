use vstd::prelude::*;
use crate::bytes::{opt_bytes, copy_opt_bytes};
use crate::topic_partition::{copy_string, same_text};

verus! {

/// A single header entry consisting of a key string and an optional byte value.
#[derive(Clone, Debug)]
pub struct Header {
    /// The header key name.
    pub key: String,
    /// The header value as raw bytes, or `None` if the header has no value.
    pub value: Option<Vec<u8>>,
}

/// The abstract content of a header: its key and its optional value.
pub type HeaderView = (Seq<char>, Option<Seq<u8>>);

impl View for Header {
    type V = HeaderView;

    open spec fn view(&self) -> HeaderView {
        (self.key@, opt_bytes(self.value))
    }
}

impl Header {
    /// A copy of this header with the same key and value.
    pub fn copy_header(&self) -> (r: Header)
        ensures
            r@ == self@,
    {
        Header { key: copy_string(&self.key), value: copy_opt_bytes(&self.value) }
    }
}

/// An owned, growable collection of message headers.
///
/// Supports builder-pattern chaining via [`OwnedHeaders::insert`].
#[derive(Clone, Debug, Default)]
pub struct OwnedHeaders {
    headers: Vec<Header>,
}

/// The views of a sequence of headers.
pub open spec fn headers_view(s: Seq<Header>) -> Seq<HeaderView> {
    s.map_values(|h: Header| h@)
}

/// The index of the first header of `s` whose key is `key`, if any.
pub open spec fn first_key(s: Seq<HeaderView>, key: Seq<char>) -> Option<int>
    decreases s.len(),
{
    if s.len() == 0 {
        None
    } else if s[0].0 == key {
        Some(0)
    } else {
        match first_key(s.drop_first(), key) {
            Some(i) => Some(i + 1),
            None => None,
        }
    }
}

/// The first-key index, if any, points at the first header with that key.
pub proof fn lemma_first_key(s: Seq<HeaderView>, key: Seq<char>)
    ensures
        match first_key(s, key) {
            Some(i) => 0 <= i < s.len() && s[i].0 == key && forall|j: int| 0 <= j < i ==> s[j].0 != key,
            None => forall|j: int| 0 <= j < s.len() ==> s[j].0 != key,
        },
    decreases s.len(),
{
    if s.len() > 0 {
        lemma_first_key(s.drop_first(), key);
        assert forall|j: int| 0 < j < s.len() implies s[j] == s.drop_first()[j - 1] by {}
    }
}

impl View for OwnedHeaders {
    type V = Seq<HeaderView>;

    closed spec fn view(&self) -> Seq<HeaderView> {
        headers_view(self.headers@)
    }
}

impl OwnedHeaders {
    /// Creates a new empty `OwnedHeaders`.
    pub fn new() -> (r: Self)
        ensures
            r@ == Seq::<HeaderView>::empty(),
    {
        let r = Self { headers: Vec::new() };
        assert(r@ =~= Seq::<HeaderView>::empty());
        r
    }

    /// Creates a new empty `OwnedHeaders` with at least the specified capacity.
    pub fn new_with_capacity(cap: usize) -> (r: Self)
        ensures
            r@ == Seq::<HeaderView>::empty(),
    {
        let r = Self { headers: Vec::with_capacity(cap) };
        assert(r@ =~= Seq::<HeaderView>::empty());
        r
    }

    /// Appends a header, returning `self` for chaining.
    pub fn insert(self, header: Header) -> (r: Self)
        ensures
            r@ == self@.push(header@),
    {
        let mut s = self;
        let ghost old_s = s@;
        s.headers.push(header);
        assert(s@ =~= old_s.push(header@));
        s
    }

    /// Returns the first header matching the given key, or `None` if not found.
    pub fn get(&self, key: &str) -> (r: Option<&Header>)
        ensures
            match first_key(self@, key@) {
                Some(i) => r matches Some(h) && h@ == self@[i],
                None => r is None,
            },
    {
        proof {
            lemma_first_key(self@, key@);
        }
        let mut i: usize = 0;
        while i < self.headers.len()
            invariant
                0 <= i <= self.headers.len(),
                self@ == headers_view(self.headers@),
                forall|j: int| 0 <= j < i ==> self@[j].0 != key@,
            decreases self.headers.len() - i,
        {
            let h = &self.headers[i];
            if same_text(&h.key, key) {
                proof {
                    lemma_first_key(self@, key@);
                    assert(self@[i as int] == self.headers@[i as int]@);
                }
                return Some(h);
            }
            i += 1;
        }
        None
    }

    /// Returns the header at the given index, or `None` if out of bounds.
    pub fn get_at(&self, idx: usize) -> (r: Option<&Header>)
        ensures
            idx < self@.len() ==> (r matches Some(h) && h@ == self@[idx as int]),
            idx >= self@.len() ==> r is None,
    {
        if idx < self.headers.len() {
            Some(&self.headers[idx])
        } else {
            None
        }
    }

    /// Returns an iterator over all headers, in insertion order.
    pub fn iter(&self) -> (r: std::slice::Iter<'_, Header>)
        ensures
            headers_view(vstd::std_specs::slice::into_iter_elts(r)) == self@,
    {
        let s = self.headers.as_slice();
        let r = s.iter();
        proof {
            broadcast use vstd::std_specs::slice::axiom_spec_slice_iter;
            assert(vstd::std_specs::iter::IteratorSpec::remaining(&r) == s@.as_ref());
            assert(s@.as_ref().unref() =~= s@);
        }
        r
    }

    /// Returns the headers as a slice, in insertion order.
    pub fn as_slice(&self) -> (r: &[Header])
        ensures
            headers_view(r@) == self@,
    {
        self.headers.as_slice()
    }

    /// Returns the number of headers.
    pub fn len(&self) -> (r: usize)
        ensures
            r == self@.len(),
    {
        self.headers.len()
    }

    /// Returns `true` if there are no headers.
    pub fn is_empty(&self) -> (r: bool)
        ensures
            r == (self@.len() == 0),
    {
        self.headers.len() == 0
    }

    /// Returns the total number of headers (alias for [`len`](OwnedHeaders::len)).
    pub fn count(&self) -> (r: usize)
        ensures
            r == self@.len(),
    {
        self.headers.len()
    }

    /// A copy of these headers with the same entries in the same order.
    pub fn copy_headers(&self) -> (r: Self)
        ensures
            r@ == self@,
    {
        let mut v: Vec<Header> = Vec::new();
        let mut i: usize = 0;
        while i < self.headers.len()
            invariant
                0 <= i <= self.headers.len(),
                v@.len() == i,
                headers_view(v@) == headers_view(self.headers@).take(i as int),
            decreases self.headers.len() - i,
        {
            let c = self.headers[i].copy_header();
            let ghost old_v = v@;
            v.push(c);
            proof {
                assert forall|j: int| 0 <= j < i + 1 implies headers_view(v@)[j] == headers_view(self.headers@).take(i + 1)[j] by {
                    if j < i {
                        assert(v@[j] == old_v[j]);
                        assert(headers_view(old_v)[j] == old_v[j]@);
                    }
                }
                assert(headers_view(v@) =~= headers_view(self.headers@).take(i + 1));
            }
            i += 1;
        }
        proof {
            assert(headers_view(self.headers@).take(i as int) =~= headers_view(self.headers@));
        }
        Self { headers: v }
    }
}

/// A copy of optional headers with the same entries.
pub fn copy_opt_headers(h: &Option<OwnedHeaders>) -> (r: Option<OwnedHeaders>)
    ensures
        opt_headers(r) == opt_headers(*h),
{
    match h {
        Some(h) => Some(h.copy_headers()),
        None => None,
    }
}

/// The abstract content of optional headers.
pub open spec fn opt_headers(h: Option<OwnedHeaders>) -> Option<Seq<HeaderView>> {
    match h {
        Some(h) => Some(h@),
        None => None,
    }
}

} // verus!
