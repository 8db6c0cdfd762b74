use vstd::prelude::*;
use core::time::Duration;
use std::time::{Instant, SystemTime};

verus! {

/// The standard library's monotonic clock reading, `std::time::Instant`.
#[verifier::external_type_specification]
#[verifier::external_body]
pub struct ExInstant(std::time::Instant);

/// The standard library's wall-clock reading, `std::time::SystemTime`.
#[verifier::external_type_specification]
#[verifier::external_body]
pub struct ExSystemTime(std::time::SystemTime);

/// Reads the system clock (`SystemTime::now`). Nothing is stated of the value: it is the
/// time.
#[verifier::external_body]
fn system_now() -> (r: SystemTime) {
    SystemTime::now()
}

/// The time elapsed from the Unix epoch to `t` (`SystemTime::duration_since` with
/// `UNIX_EPOCH`), or `None` when `t` lies before the epoch. Nothing is stated of which.
#[verifier::external_body]
fn since_epoch(t: &SystemTime) -> (r: Option<Duration>) {
    t.duration_since(std::time::UNIX_EPOCH).ok()
}

/// The whole milliseconds of `d` (`Duration::as_millis`). Nothing is stated of the value.
#[verifier::external_body]
fn duration_millis(d: &Duration) -> (r: u128) {
    d.as_millis()
}

/// The whole nanoseconds of `d` (`Duration::as_nanos`). Nothing is stated of the value.
#[verifier::external_body]
fn duration_nanos(d: &Duration) -> (r: u128) {
    d.as_nanos()
}

/// Reads the monotonic clock (`Instant::now`). Nothing is stated of the value.
#[verifier::external_body]
pub(crate) fn instant_now() -> (r: Instant) {
    Instant::now()
}

/// The time elapsed since `since` (`Instant::elapsed`, which gives zero rather than a
/// negative time). Nothing is stated of the value: it depends on the clock.
#[verifier::external_body]
fn instant_elapsed(since: &Instant) -> (r: Duration) {
    since.elapsed()
}

/// The wall-clock time in milliseconds for a reading of the milliseconds since the Unix
/// epoch: the reading truncated to 64 bits, or `0` for a clock that reads before the
/// epoch.
pub open spec fn epoch_millis(ms: Option<u128>) -> i64 {
    match ms {
        Some(m) => m as i64,
        None => 0,
    }
}

/// The wall-clock time in milliseconds for a clock reading `ms` (the milliseconds since
/// the Unix epoch, `None` before the epoch): the reading truncated to 64 bits, or `0`.
pub fn millis_since_epoch(ms: Option<u128>) -> (r: i64)
    ensures
        r == epoch_millis(ms),
{
    match ms {
        Some(m) => {
            #[verifier::truncate]
            (m as i64)
        },
        None => 0,
    }
}

/// Reads the system clock: the milliseconds since the Unix epoch, or `None` when the
/// clock reads before the epoch.
fn read_epoch_millis() -> (r: Option<u128>) {
    match since_epoch(&system_now()) {
        Some(d) => Some(duration_millis(&d)),
        None => None,
    }
}

/// Reads the system clock: the nanoseconds since the Unix epoch, or `None` when the clock
/// reads before the epoch.
fn read_epoch_nanos() -> (r: Option<u128>) {
    match since_epoch(&system_now()) {
        Some(d) => Some(duration_nanos(&d)),
        None => None,
    }
}

/// The current wall-clock time in milliseconds since the Unix epoch (truncated to 64
/// bits), or `0` when the clock reads before the epoch: `epoch_millis` of some clock
/// reading.
pub(crate) fn unix_millis_now() -> (r: i64)
    ensures
        exists|ms: Option<u128>| r == #[trigger] epoch_millis(ms),
{
    let ms = read_epoch_millis();
    let r = millis_since_epoch(ms);
    assert(r == epoch_millis(ms));
    r
}

/// The whole milliseconds elapsed since `since`, truncated to 64 bits.
pub(crate) fn elapsed_millis(since: &Instant) -> (r: u64) {
    let ms: u128 = duration_millis(&instant_elapsed(since));
    #[verifier::truncate]
    (ms as u64)
}

/// The seed of a generator created with the process-wide creation count `base` at a
/// clock reading `nanos` (the nanoseconds since the Unix epoch, `None` before the epoch):
/// `base * 1103515245 + nanos`, wrapping in 32 bits, with the nanoseconds truncated to 32
/// bits and `1` in their place before the epoch; a seed of `0` becomes `1`.
pub open spec fn seed_spec(base: i32, nanos: Option<u128>) -> i32 {
    let t: i32 = match nanos {
        Some(n) => n as i32,
        None => 1,
    };
    let s = base.wrapping_mul(1103515245).wrapping_add(t);
    if s == 0 { 1 } else { s }
}

/// The seed for a generator from the creation count `base` and the clock reading `nanos`,
/// as [`seed_spec`] states.
pub fn seed_from(base: i32, nanos: Option<u128>) -> (r: i32)
    ensures
        r == seed_spec(base, nanos),
{
    let t: i32 = match nanos {
        Some(n) => {
            #[verifier::truncate]
            (n as i32)
        },
        None => 1,
    };
    let s = base.wrapping_mul(1103515245).wrapping_add(t);
    if s == 0 { 1 } else { s }
}

/// A seed read from the clock for a generator with creation count `base`: `seed_spec` of
/// some clock reading.
pub(crate) fn clock_seed(base: i32) -> (r: i32)
    ensures
        exists|nanos: Option<u128>| r == #[trigger] seed_spec(base, nanos),
{
    let nanos = read_epoch_nanos();
    let r = seed_from(base, nanos);
    assert(r == seed_spec(base, nanos));
    r
}

} // verus!
