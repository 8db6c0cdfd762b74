use vstd::prelude::*;
use crate::error::{RmqError, copy_error, same_error};
use crate::headers::{copy_opt_headers, opt_headers};
use crate::message::{OwnedMessage, OwnedMessageView, Timestamp};
use crate::record::{BaseRecord, ToBytes, opt_to_vec, opt_view};

verus! {

/// The message a record describes when its delivery fails: its payload, key, topic and
/// headers, its partition (`-1` when none was requested), offset `-1`, and its timestamp
/// (`0` when none was given) as a `CreateTime`.
pub open spec fn undelivered_view<'a, K: ToBytes + ?Sized, P: ToBytes + ?Sized>(record: BaseRecord<'a, K, P>) -> OwnedMessageView {
    OwnedMessageView {
        payload: opt_view(record.payload),
        key: opt_view(record.key),
        topic: record.topic@,
        partition: match record.partition {
            Some(p) => p,
            None => -1i32,
        },
        offset: -1i64,
        timestamp: Timestamp::CreateTime(match record.timestamp {
            Some(t) => t,
            None => 0i64,
        }),
        headers: opt_headers(record.headers),
    }
}

/// The delivery error for `record`: a copy of `e` with the message the record describes.
pub fn to_delivery_error<'a, K: ToBytes + ?Sized, P: ToBytes + ?Sized>(e: &RmqError, record: &BaseRecord<'a, K, P>) -> (r: (RmqError, OwnedMessage))
    ensures
        same_error(r.0, *e),
        r.1@ == undelivered_view(*record),
{
    (
        copy_error(e),
        OwnedMessage {
            payload: opt_to_vec(record.payload),
            key: opt_to_vec(record.key),
            topic: record.topic.to_owned(),
            partition: match record.partition {
                Some(p) => p,
                None => -1,
            },
            offset: -1,
            timestamp: Timestamp::CreateTime(match record.timestamp {
                Some(t) => t,
                None => 0,
            }),
            headers: copy_opt_headers(&record.headers),
        },
    )
}

} // verus!
