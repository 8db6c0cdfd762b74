use vstd::prelude::*;
use vstd::utf8::{valid_utf8, decode_utf8};
use vstd::string::StringSliceAdditionalSpecFns;
use crate::bytes::bytes_from_slice;
use crate::headers::OwnedHeaders;

verus! {

/// A trait for converting a type into a byte slice.
///
/// Used to serialize keys and payloads into `&[u8]` for writing to the message queue.
pub trait ToBytes {
    /// The bytes that [`to_bytes`](ToBytes::to_bytes) yields.
    spec fn byte_view(&self) -> Seq<u8>;

    /// Converts `self` into a byte slice reference.
    fn to_bytes(&self) -> (r: &[u8])
        ensures
            r@ == self.byte_view(),
    ;
}

/// A trait for deserializing a type from a byte slice.
///
/// Used to decode `&[u8]` read from the message queue into concrete types.
pub trait FromBytes: Sized {
    /// Attempts to construct `Self` from a byte slice, returning `None` on failure.
    fn from_bytes(data: &[u8]) -> Option<Self>;
}

/// Reads bytes as UTF-8 text (`String::from_utf8`): the text when the bytes are valid
/// UTF-8, `None` otherwise.
#[verifier::external_body]
fn utf8_text(data: Vec<u8>) -> (r: Option<String>)
    ensures
        r is Some <==> valid_utf8(data@),
        r matches Some(s) ==> s@ == decode_utf8(data@),
{
    String::from_utf8(data).ok()
}

impl FromBytes for Vec<u8> {
    fn from_bytes(data: &[u8]) -> (r: Option<Self>)
        ensures
            r matches Some(v) && v@ == data@,
    {
        Some(bytes_from_slice(data))
    }
}

impl FromBytes for String {
    fn from_bytes(data: &[u8]) -> (r: Option<Self>)
        ensures
            r is Some <==> valid_utf8(data@),
            r matches Some(s) ==> s@ == decode_utf8(data@),
    {
        utf8_text(bytes_from_slice(data))
    }
}

impl FromBytes for () {
    fn from_bytes(data: &[u8]) -> (r: Option<Self>)
        ensures
            r == Some(()),
    {
        Some(())
    }
}

impl<const N: usize> FromBytes for [u8; N] {
    fn from_bytes(data: &[u8]) -> (r: Option<Self>)
        ensures
            r is Some <==> data@.len() == N,
            r matches Some(a) ==> a@ == data@,
    {
        if data.len() == N {
            let mut arr = [0u8; N];
            let mut i: usize = 0;
            while i < N
                invariant
                    data@.len() == N,
                    arr@.len() == N,
                    0 <= i <= N,
                    forall|j: int| 0 <= j < i ==> arr@[j] == data@[j],
                decreases N - i,
            {
                arr.set(i, data[i]);
                i += 1;
            }
            assert(arr@ =~= data@);
            Some(arr)
        } else {
            None
        }
    }
}

impl ToBytes for [u8] {
    open spec fn byte_view(&self) -> Seq<u8> {
        self@
    }

    fn to_bytes(&self) -> (r: &[u8]) {
        self
    }
}

impl ToBytes for str {
    open spec fn byte_view(&self) -> Seq<u8> {
        self.spec_bytes()
    }

    fn to_bytes(&self) -> (r: &[u8]) {
        self.as_bytes()
    }
}

impl ToBytes for Vec<u8> {
    open spec fn byte_view(&self) -> Seq<u8> {
        self@
    }

    fn to_bytes(&self) -> (r: &[u8]) {
        self.as_slice()
    }
}

impl ToBytes for String {
    open spec fn byte_view(&self) -> Seq<u8> {
        vstd::utf8::encode_utf8(self@)
    }

    fn to_bytes(&self) -> (r: &[u8]) {
        self.as_str().as_bytes()
    }
}

impl<T: ToBytes + ?Sized> ToBytes for &T {
    open spec fn byte_view(&self) -> Seq<u8> {
        (**self).byte_view()
    }

    fn to_bytes(&self) -> (r: &[u8]) {
        (**self).to_bytes()
    }
}

impl ToBytes for () {
    open spec fn byte_view(&self) -> Seq<u8> {
        Seq::empty()
    }

    fn to_bytes(&self) -> (r: &[u8]) {
        let r: &[u8] = &[];
        assert(r@ =~= Seq::<u8>::empty());
        r
    }
}

impl<const N: usize> ToBytes for [u8; N] {
    open spec fn byte_view(&self) -> Seq<u8> {
        self@
    }

    fn to_bytes(&self) -> (r: &[u8]) {
        self.as_slice()
    }
}

/// The bytes of an optional key or payload.
pub open spec fn opt_view<T: ToBytes + ?Sized>(o: Option<&T>) -> Option<Seq<u8>> {
    match o {
        Some(t) => Some(t.byte_view()),
        None => None,
    }
}

/// A copy of the bytes of an optional key or payload.
pub fn opt_to_vec<T: ToBytes + ?Sized>(o: Option<&T>) -> (r: Option<Vec<u8>>)
    ensures
        crate::bytes::opt_bytes(r) == opt_view(o),
{
    match o {
        Some(t) => Some(bytes_from_slice(t.to_bytes())),
        None => None,
    }
}

/// A base record for constructing messages to be sent to the queue.
///
/// Generic over key type `K` and payload type `P`, both of which must implement [`ToBytes`].
/// Uses a builder pattern with chainable setter methods.
#[derive(Clone, Debug)]
pub struct BaseRecord<'a, K: ToBytes + ?Sized = [u8], P: ToBytes + ?Sized = [u8]> {
    /// The target topic name.
    pub topic: &'a str,
    /// The target partition index; `None` lets the queue choose automatically.
    pub partition: Option<i32>,
    /// The message payload.
    pub payload: Option<&'a P>,
    /// The message key.
    pub key: Option<&'a K>,
    /// The message timestamp in milliseconds; `None` uses the current time.
    pub timestamp: Option<i64>,
    /// The message headers.
    pub headers: Option<OwnedHeaders>,
}

impl<'a, K: ToBytes + ?Sized, P: ToBytes + ?Sized> BaseRecord<'a, K, P> {
    /// Creates a new `BaseRecord` targeting the given topic, with all other fields set to defaults.
    pub fn to(topic: &'a str) -> (r: Self)
        ensures
            r.topic == topic,
            r.partition is None,
            r.payload is None,
            r.key is None,
            r.timestamp is None,
            r.headers is None,
    {
        Self { topic, partition: None, payload: None, key: None, timestamp: None, headers: None }
    }

    /// Sets the target partition.
    pub fn partition(self, p: i32) -> (r: Self)
        ensures
            r == (Self { partition: Some(p), ..self }),
    {
        Self { partition: Some(p), ..self }
    }

    /// Sets the message payload.
    pub fn payload(self, p: &'a P) -> (r: Self)
        ensures
            r == (Self { payload: Some(p), ..self }),
    {
        Self { payload: Some(p), ..self }
    }

    /// Sets the message key.
    pub fn key(self, k: &'a K) -> (r: Self)
        ensures
            r == (Self { key: Some(k), ..self }),
    {
        Self { key: Some(k), ..self }
    }

    /// Sets the message timestamp in milliseconds.
    pub fn timestamp(self, ts: i64) -> (r: Self)
        ensures
            r == (Self { timestamp: Some(ts), ..self }),
    {
        Self { timestamp: Some(ts), ..self }
    }

    /// Sets the message headers.
    pub fn headers(self, h: OwnedHeaders) -> (r: Self)
        ensures
            r == (Self { headers: Some(h), ..self }),
    {
        Self { headers: Some(h), ..self }
    }
}

/// Type alias for backward compatibility — `FutureRecord` is identical to `BaseRecord`.
pub type FutureRecord<'a, K = [u8], P = [u8]> = BaseRecord<'a, K, P>;

} // verus!
