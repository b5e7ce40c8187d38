//! The time of day, as milliseconds or seconds since 1970.

use std::time::{Duration, SystemTime};
use vstd::prelude::*;

verus! {

/// A moment of the system's clock.
#[verifier::external_type_specification]
#[verifier::external_body]
pub struct ExSystemTime(std::time::SystemTime);

/// `SystemTime::now` reads the clock. Nothing is claimed of the moment.
pub assume_specification[ std::time::SystemTime::now ]() -> std::time::SystemTime
;

/// `Duration::as_secs` gives the whole seconds. Nothing is claimed of their
/// number: it is what the clock says.
pub assume_specification[ std::time::Duration::as_secs ](d: &std::time::Duration) -> u64
;

/// `Duration::subsec_nanos` gives the rest in nanoseconds, which is less than a
/// second.
pub assume_specification[ std::time::Duration::subsec_nanos ](d: &std::time::Duration) -> (r: u32)
    ensures
        r < 1_000_000_000,
;

/// The time from 1970 to a moment, by `SystemTime::duration_since`; `None` for
/// a moment before 1970. Nothing is claimed of it: it is what the clock says.
#[verifier::external_body]
fn since_epoch(t: SystemTime) -> (r: Option<Duration>) {
    t.duration_since(std::time::UNIX_EPOCH).ok()
}

/// A span of time in milliseconds, cut to 64 bits.
pub fn millis_of(secs: u64, nanos: u32) -> (r: u64)
    ensures
        r == (secs * 1000 + nanos / 1_000_000) % 0x1_0000_0000_0000_0000,
{
    let wide: u128 = secs as u128 * 1000 + (nanos / 1_000_000) as u128;
    let low: u128 = wide % 0x1_0000_0000_0000_0000;
    low as u64
}

/// What the clock says in milliseconds since 1970, where `since` are the seconds
/// and nanoseconds from 1970 to it; 0 where the clock is set before 1970.
pub fn millis_at(since: Option<(u64, u32)>) -> (r: u64)
    ensures
        r == match since {
            Some((secs, nanos)) => (secs * 1000 + nanos / 1_000_000) % 0x1_0000_0000_0000_0000,
            None => 0,
        },
{
    match since {
        Some((secs, nanos)) => millis_of(secs, nanos),
        None => 0,
    }
}

/// What the clock says in seconds since 1970, where `since` are the seconds from
/// 1970 to it; 0 where the clock is set before 1970.
pub fn secs_at(since: Option<u64>) -> (r: u64)
    ensures
        r == match since {
            Some(secs) => secs,
            None => 0,
        },
{
    match since {
        Some(secs) => secs,
        None => 0,
    }
}

/// A moment that [`now_millis`] returned: nothing else makes one, and what it holds is seen in
/// this file alone.
pub struct Moment {
    millis: Ghost<u64>,
}

impl View for Moment {
    type V = u64;

    closed spec fn view(&self) -> u64 {
        self.millis@
    }
}

/// [`now_millis`] returned this number, so that no other can stand for the present.
pub open spec fn is_clock_time(millis: u64) -> bool {
    exists|m: Moment| #[trigger] m@ == millis
}

/// Milliseconds since 1970 by the system's clock; 0 where the clock is set
/// before that. Which number it is, is up to the clock: [`millis_at`] says what
/// is made of every answer of it.
pub fn now_millis() -> (r: u64)
    ensures
        is_clock_time(r),
{
    let r: u64 = millis_at(
        match since_epoch(SystemTime::now()) {
            Some(d) => Some((d.as_secs(), d.subsec_nanos())),
            None => None,
        },
    );
    let ghost read = Moment { millis: Ghost(r) };
    assert(read@ == r);
    r
}

/// Seconds since 1970 by the system's clock; 0 where the clock is set before
/// that. Which number it is, is up to the clock: [`secs_at`] says what is made
/// of every answer of it.
pub fn now_secs() -> u64 {
    secs_at(
        match since_epoch(SystemTime::now()) {
            Some(d) => Some(d.as_secs()),
            None => None,
        },
    )
}

} // verus!
