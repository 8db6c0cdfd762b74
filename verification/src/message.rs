use vstd::prelude::*;
use crate::bytes::{opt_bytes, copy_opt_bytes};
use crate::headers::{OwnedHeaders, HeaderView, opt_headers, copy_opt_headers};
use crate::record::FromBytes;
use crate::topic_partition::copy_string;

verus! {

/// Represents the timestamp of a message, indicating when it was created or appended.
#[derive(Debug, Clone, Copy, PartialEq, Eq, Structural)]
pub enum Timestamp {
    /// Timestamp is not available.
    NotAvailable,
    /// Timestamp set by the producer when the message was created (milliseconds).
    CreateTime(i64),
    /// Timestamp set by the broker when the message was appended to the log (milliseconds).
    LogAppendTime(i64),
}

impl Timestamp {
    /// Converts the timestamp to milliseconds; `None` if the timestamp is not available.
    pub fn to_millis(self) -> (r: Option<i64>)
        ensures
            r == match self {
                Timestamp::NotAvailable => None,
                Timestamp::CreateTime(ms) => Some(ms),
                Timestamp::LogAppendTime(ms) => Some(ms),
            },
    {
        match self {
            Timestamp::NotAvailable => None,
            Timestamp::CreateTime(ms) => Some(ms),
            Timestamp::LogAppendTime(ms) => Some(ms),
        }
    }

    /// Returns a `CreateTime` timestamp from the current system time with millisecond
    /// precision: the milliseconds since the Unix epoch of the clock's reading, truncated
    /// to 64 bits, or `0` when the clock reads before the epoch (see
    /// [`millis_since_epoch`](crate::clock::millis_since_epoch)).
    pub fn now() -> (r: Timestamp)
        ensures
            exists|ms: Option<u128>| r == Timestamp::CreateTime(#[trigger] crate::clock::epoch_millis(ms)),
    {
        Timestamp::CreateTime(crate::clock::unix_millis_now())
    }
}

/// A trait defining the common access interface for queue messages.
pub trait Message {
    /// The message key bytes, if any.
    spec fn key_view(&self) -> Option<Seq<u8>>;
    /// The message payload bytes, if any.
    spec fn payload_view(&self) -> Option<Seq<u8>>;
    /// Returns the message key as a byte slice, or `None` if absent.
    fn key(&self) -> (r: Option<&[u8]>)
        ensures
            opt_slice(r) == self.key_view(),
    ;
    /// Returns the message payload as a byte slice, or `None` if absent.
    fn payload(&self) -> (r: Option<&[u8]>)
        ensures
            opt_slice(r) == self.payload_view(),
    ;
    /// The topic name this message belongs to.
    spec fn topic_view(&self) -> Seq<char>;
    /// The partition index this message resides in.
    spec fn partition_view(&self) -> i32;
    /// The offset of this message within its partition.
    spec fn offset_view(&self) -> i64;
    /// The timestamp of this message.
    spec fn timestamp_view(&self) -> Timestamp;
    /// The headers attached to this message, if any.
    spec fn headers_view(&self) -> Option<Seq<HeaderView>>;
    /// Returns the topic name this message belongs to.
    fn topic(&self) -> (r: &str)
        ensures
            r@ == self.topic_view(),
    ;
    /// Returns the partition index this message resides in.
    fn partition(&self) -> (r: i32)
        ensures
            r == self.partition_view(),
    ;
    /// Returns the offset of this message within its partition.
    fn offset(&self) -> (r: i64)
        ensures
            r == self.offset_view(),
    ;
    /// Returns the timestamp of this message.
    fn timestamp(&self) -> (r: Timestamp)
        ensures
            r == self.timestamp_view(),
    ;
    /// Returns the headers attached to this message, or `None` if absent.
    fn headers(&self) -> (r: Option<&OwnedHeaders>)
        ensures
            match r {
                Some(h) => self.headers_view() == Some(h@),
                None => self.headers_view() is None,
            },
    ;

    /// Decodes the payload bytes into type `T`.
    ///
    /// Returns `None` if the payload is absent or deserialization fails.
    fn decode_payload<T: FromBytes>(&self) -> (r: Option<T>)
        ensures
            self.payload_view() is None ==> r is None,
            self.payload_view() matches Some(b) ==> exists|p: &[u8]| p@ == b && call_ensures(T::from_bytes, (p,), r),
    {
        match self.payload() {
            Some(p) => T::from_bytes(p),
            None => None,
        }
    }

    /// Decodes the key bytes into type `T`.
    ///
    /// Returns `None` if the key is absent or deserialization fails.
    fn decode_key<T: FromBytes>(&self) -> (r: Option<T>)
        ensures
            self.key_view() is None ==> r is None,
            self.key_view() matches Some(b) ==> exists|k: &[u8]| k@ == b && call_ensures(T::from_bytes, (k,), r),
    {
        match self.key() {
            Some(k) => T::from_bytes(k),
            None => None,
        }
    }
}

/// The bytes of an optional borrowed byte slice.
pub open spec fn opt_slice(o: Option<&[u8]>) -> Option<Seq<u8>> {
    match o {
        Some(s) => Some(s@),
        None => None,
    }
}

/// Internal storage representation of a message, holding all metadata and content.
///
/// A message carries either raw key/payload bytes or, when produced through the typed
/// interface, an opaque typed payload and key of type `T`.
pub struct StoredMessage<T> {
    key: Option<Vec<u8>>,
    payload: Option<Vec<u8>>,
    typed_payload: Option<T>,
    typed_key: Option<T>,
    topic: String,
    partition: i32,
    offset: i64,
    timestamp: i64,
    headers: Option<OwnedHeaders>,
    created_at: std::time::Instant,
}

/// The abstract content of a stored message.
pub struct MessageView<T> {
    pub key: Option<Seq<u8>>,
    pub payload: Option<Seq<u8>>,
    pub typed_payload: Option<T>,
    pub typed_key: Option<T>,
    pub topic: Seq<char>,
    pub partition: i32,
    pub offset: i64,
    pub timestamp: i64,
    pub headers: Option<Seq<HeaderView>>,
}

impl<T> View for StoredMessage<T> {
    type V = MessageView<T>;

    closed spec fn view(&self) -> MessageView<T> {
        MessageView {
            key: opt_bytes(self.key),
            payload: opt_bytes(self.payload),
            typed_payload: self.typed_payload,
            typed_key: self.typed_key,
            topic: self.topic@,
            partition: self.partition,
            offset: self.offset,
            timestamp: self.timestamp,
            headers: opt_headers(self.headers),
        }
    }
}

impl<T> StoredMessage<T> {
    /// A message with raw key and payload bytes.
    pub fn new(
        key: Option<Vec<u8>>,
        payload: Option<Vec<u8>>,
        topic: String,
        partition: i32,
        offset: i64,
        timestamp: i64,
        headers: Option<OwnedHeaders>,
        created_at: std::time::Instant,
    ) -> (r: Self)
        ensures
            r@ == (MessageView::<T> {
                key: opt_bytes(key),
                payload: opt_bytes(payload),
                typed_payload: None,
                typed_key: None,
                topic: topic@,
                partition,
                offset,
                timestamp,
                headers: opt_headers(headers),
            }),
    {
        Self {
            key,
            payload,
            typed_payload: None,
            typed_key: None,
            topic,
            partition,
            offset,
            timestamp,
            headers,
            created_at,
        }
    }

    /// A message with a typed payload and an optional typed key, and no raw bytes.
    pub fn new_typed(
        typed_payload: T,
        typed_key: Option<T>,
        topic: String,
        partition: i32,
        offset: i64,
        timestamp: i64,
        headers: Option<OwnedHeaders>,
        created_at: std::time::Instant,
    ) -> (r: Self)
        ensures
            r@ == (MessageView::<T> {
                key: None,
                payload: None,
                typed_payload: Some(typed_payload),
                typed_key,
                topic: topic@,
                partition,
                offset,
                timestamp,
                headers: opt_headers(headers),
            }),
    {
        Self {
            key: None,
            payload: None,
            typed_payload: Some(typed_payload),
            typed_key,
            topic,
            partition,
            offset,
            timestamp,
            headers,
            created_at,
        }
    }

    /// Returns the message key as a byte slice.
    pub fn key(&self) -> (r: Option<&[u8]>)
        ensures
            opt_slice(r) == self@.key,
    {
        match &self.key {
            Some(k) => Some(k.as_slice()),
            None => None,
        }
    }

    /// Returns the message payload as a byte slice.
    pub fn payload(&self) -> (r: Option<&[u8]>)
        ensures
            opt_slice(r) == self@.payload,
    {
        match &self.payload {
            Some(p) => Some(p.as_slice()),
            None => None,
        }
    }

    /// Returns the topic name this message belongs to.
    pub fn topic(&self) -> (r: &str)
        ensures
            r@ == self@.topic,
    {
        self.topic.as_str()
    }

    /// Returns the partition index this message resides in.
    pub fn partition(&self) -> (r: i32)
        ensures
            r == self@.partition,
    {
        self.partition
    }

    /// Returns the offset of this message within its partition.
    pub fn offset(&self) -> (r: i64)
        ensures
            r == self@.offset,
    {
        self.offset
    }

    /// Returns the raw timestamp value in milliseconds.
    pub fn timestamp(&self) -> (r: i64)
        ensures
            r == self@.timestamp,
    {
        self.timestamp
    }

    /// Returns a reference to the headers, if any.
    pub fn headers(&self) -> (r: Option<&OwnedHeaders>)
        ensures
            match r {
                Some(h) => self@.headers == Some(h@),
                None => self@.headers is None,
            },
    {
        match &self.headers {
            Some(h) => Some(h),
            None => None,
        }
    }

    /// Returns the `Instant` at which this message was created.
    pub fn created_at(&self) -> (r: std::time::Instant)
        ensures
            r == self.spec_created_at(),
    {
        self.created_at
    }

    /// The clock reading at which this message was created.
    pub closed spec fn spec_created_at(&self) -> std::time::Instant {
        self.created_at
    }

    /// Returns the typed payload, if this message carries one.
    pub fn typed_payload_ref(&self) -> (r: Option<&T>)
        ensures
            r == match self@.typed_payload {
                Some(p) => Some(&p),
                None => None::<&T>,
            },
    {
        self.typed_payload.as_ref()
    }

    /// Returns the typed key, if this message carries one.
    pub fn typed_key_ref(&self) -> (r: Option<&T>)
        ensures
            r == match self@.typed_key {
                Some(k) => Some(&k),
                None => None::<&T>,
            },
    {
        self.typed_key.as_ref()
    }

    /// Returns `true` if this message carries a typed payload.
    pub fn has_typed_payload(&self) -> (r: bool)
        ensures
            r == self@.typed_payload is Some,
    {
        self.typed_payload.is_some()
    }

    /// Copies this message into an independent [`OwnedMessage`] with a `CreateTime` timestamp.
    pub fn to_owned_message(&self) -> (r: OwnedMessage)
        ensures
            r@ == owned_view_of(self@),
    {
        OwnedMessage {
            payload: copy_opt_bytes(&self.payload),
            key: copy_opt_bytes(&self.key),
            topic: copy_string(&self.topic),
            partition: self.partition,
            offset: self.offset,
            timestamp: Timestamp::CreateTime(self.timestamp),
            headers: copy_opt_headers(&self.headers),
        }
    }
}

/// The owned view of a stored message: its raw content, with its timestamp as a
/// `CreateTime`.
pub open spec fn owned_view_of<T>(m: MessageView<T>) -> OwnedMessageView {
    OwnedMessageView {
        payload: m.payload,
        key: m.key,
        topic: m.topic,
        partition: m.partition,
        offset: m.offset,
        timestamp: Timestamp::CreateTime(m.timestamp),
        headers: m.headers,
    }
}

/// An owned message that can be used independently of the storage layer.
#[derive(Clone, Debug)]
pub struct OwnedMessage {
    /// The message payload bytes.
    pub payload: Option<Vec<u8>>,
    /// The message key bytes.
    pub key: Option<Vec<u8>>,
    /// The topic name this message belongs to.
    pub topic: String,
    /// The partition index this message resides in.
    pub partition: i32,
    /// The offset of this message within its partition.
    pub offset: i64,
    /// The timestamp of this message.
    pub timestamp: Timestamp,
    /// The headers attached to this message.
    pub headers: Option<OwnedHeaders>,
}

/// The abstract content of an [`OwnedMessage`].
pub struct OwnedMessageView {
    pub payload: Option<Seq<u8>>,
    pub key: Option<Seq<u8>>,
    pub topic: Seq<char>,
    pub partition: i32,
    pub offset: i64,
    pub timestamp: Timestamp,
    pub headers: Option<Seq<HeaderView>>,
}

impl View for OwnedMessage {
    type V = OwnedMessageView;

    open spec fn view(&self) -> OwnedMessageView {
        OwnedMessageView {
            payload: opt_bytes(self.payload),
            key: opt_bytes(self.key),
            topic: self.topic@,
            partition: self.partition,
            offset: self.offset,
            timestamp: self.timestamp,
            headers: opt_headers(self.headers),
        }
    }
}

impl Message for OwnedMessage {
    open spec fn key_view(&self) -> Option<Seq<u8>> {
        self@.key
    }

    open spec fn topic_view(&self) -> Seq<char> {
        self@.topic
    }

    open spec fn partition_view(&self) -> i32 {
        self@.partition
    }

    open spec fn offset_view(&self) -> i64 {
        self@.offset
    }

    open spec fn timestamp_view(&self) -> Timestamp {
        self@.timestamp
    }

    open spec fn headers_view(&self) -> Option<Seq<HeaderView>> {
        self@.headers
    }

    open spec fn payload_view(&self) -> Option<Seq<u8>> {
        self@.payload
    }

    fn key(&self) -> (r: Option<&[u8]>)
        ensures
            opt_slice(r) == self@.key,
    {
        match &self.key {
            Some(k) => Some(k.as_slice()),
            None => None,
        }
    }

    fn payload(&self) -> (r: Option<&[u8]>)
        ensures
            opt_slice(r) == self@.payload,
    {
        match &self.payload {
            Some(p) => Some(p.as_slice()),
            None => None,
        }
    }

    fn topic(&self) -> (r: &str)
        ensures
            r@ == self@.topic,
    {
        self.topic.as_str()
    }

    fn partition(&self) -> (r: i32)
        ensures
            r == self.partition,
    {
        self.partition
    }

    fn offset(&self) -> (r: i64)
        ensures
            r == self.offset,
    {
        self.offset
    }

    fn timestamp(&self) -> (r: Timestamp)
        ensures
            r == self.timestamp,
    {
        self.timestamp
    }

    fn headers(&self) -> (r: Option<&OwnedHeaders>)
        ensures
            r == match self.headers {
                Some(h) => Some(&h),
                None => None::<&OwnedHeaders>,
            },
    {
        match &self.headers {
            Some(h) => Some(h),
            None => None,
        }
    }
}

/// A borrowed message backed by a shared [`StoredMessage`], sharing the storage lifetime.
pub struct BorrowedMessage<'a, T> {
    inner: std::sync::Arc<StoredMessage<T>>,
    _marker: std::marker::PhantomData<&'a ()>,
}

impl<'a, T> View for BorrowedMessage<'a, T> {
    type V = MessageView<T>;

    closed spec fn view(&self) -> MessageView<T> {
        (*self.inner)@
    }
}

impl<'a, T> BorrowedMessage<'a, T> {
    /// A borrowed message sharing the stored message `inner`.
    pub fn new(inner: std::sync::Arc<StoredMessage<T>>) -> (r: Self)
        ensures
            r@ == (*inner)@,
    {
        Self { inner, _marker: std::marker::PhantomData }
    }

    /// Detaches this borrowed message into an independent [`OwnedMessage`].
    ///
    /// The returned `OwnedMessage` owns its data and can outlive the stored message.
    pub fn detach(&self) -> (r: OwnedMessage)
        ensures
            r@ == owned_view_of(self@),
    {
        self.inner.to_owned_message()
    }

    /// The shared stored message behind this borrowed message.
    pub fn inner_arc(&self) -> (r: &std::sync::Arc<StoredMessage<T>>)
        ensures
            (**r)@ == self@,
    {
        &self.inner
    }
}

impl<'a, T> Message for BorrowedMessage<'a, T> {
    open spec fn key_view(&self) -> Option<Seq<u8>> {
        self@.key
    }

    open spec fn topic_view(&self) -> Seq<char> {
        self@.topic
    }

    open spec fn partition_view(&self) -> i32 {
        self@.partition
    }

    open spec fn offset_view(&self) -> i64 {
        self@.offset
    }

    open spec fn timestamp_view(&self) -> Timestamp {
        Timestamp::CreateTime(self@.timestamp)
    }

    open spec fn headers_view(&self) -> Option<Seq<HeaderView>> {
        self@.headers
    }

    open spec fn payload_view(&self) -> Option<Seq<u8>> {
        self@.payload
    }

    fn key(&self) -> (r: Option<&[u8]>)
        ensures
            opt_slice(r) == self@.key,
    {
        self.inner.key()
    }

    fn payload(&self) -> (r: Option<&[u8]>)
        ensures
            opt_slice(r) == self@.payload,
    {
        self.inner.payload()
    }

    fn topic(&self) -> (r: &str)
        ensures
            r@ == self@.topic,
    {
        self.inner.topic()
    }

    fn partition(&self) -> (r: i32)
        ensures
            r == self@.partition,
    {
        self.inner.partition()
    }

    fn offset(&self) -> (r: i64)
        ensures
            r == self@.offset,
    {
        self.inner.offset()
    }

    fn timestamp(&self) -> (r: Timestamp)
        ensures
            r == Timestamp::CreateTime(self@.timestamp),
    {
        Timestamp::CreateTime(self.inner.timestamp())
    }

    fn headers(&self) -> (r: Option<&OwnedHeaders>)
        ensures
            match r {
                Some(h) => self@.headers == Some(h@),
                None => self@.headers is None,
            },
    {
        self.inner.headers()
    }
}

} // verus!
