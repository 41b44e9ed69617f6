//! Time, durations and shared pointers, as the cache needs them.

use std::sync::Arc;
use std::time::Duration;
use vstd::prelude::*;

verus! {

/// A clock of the `quanta` crate.
#[verifier::external_type_specification]
#[verifier::external_body]
pub struct ExClock(quanta::Clock);

/// `quanta::Clock::now`: the time on `clock` in nanoseconds. Nothing is said of
/// the time that it shows.
#[verifier::external_body]
pub(crate) fn clock_now(clock: &quanta::Clock) -> (now: u64) {
    clock.now().as_u64()
}

/// `quanta::Instant::now`: the time on the global clock in nanoseconds. Nothing
/// is said of the time that it shows.
#[verifier::external_body]
pub(crate) fn instant_now() -> (now: u64) {
    quanta::Instant::now().as_u64()
}

/// The time that a reading of `clock` gives.
fn read_clock<F: Fn(&quanta::Clock) -> u64>(reading: F, clock: &quanta::Clock) -> (now: u64)
    requires
        reading.requires((clock,)),
    ensures
        reading.ensures((clock,), now),
{
    reading(clock)
}

/// The time that a reading of the global clock gives.
fn read_global_clock<F: Fn() -> u64>(reading: F) -> (now: u64)
    requires
        reading.requires(()),
    ensures
        reading.ensures((), now),
{
    reading()
}

/// Whether `now` is a time that was read from `clock`, or from the global clock where
/// there is none.
pub closed spec fn read_from(clock: Option<quanta::Clock>, now: u64) -> bool {
    match clock {
        Some(c) => call_ensures(clock_now, (&c,), now),
        None => call_ensures(instant_now, (), now),
    }
}

/// A time that was read from a clock is what `quanta::Clock::now` gave of it; where there
/// is no clock, it is what `quanta::Instant::now` gave.
pub(crate) proof fn law_time_is_read(clock: Option<quanta::Clock>, now: u64)
    requires
        read_from(clock, now),
    ensures
        clock is None ==> call_ensures(instant_now, (), now),
        clock is Some ==> call_ensures(clock_now, (&clock->Some_0,), now),
{
}

/// Reads `clock` with `quanta::Clock::now`, or the global clock with `quanta::Instant::now`
/// where there is none.
pub(crate) fn reading(clock: &Option<quanta::Clock>) -> (now: u64)
    ensures
        *clock is None ==> call_ensures(instant_now, (), now),
        *clock is Some ==> call_ensures(clock_now, (&clock->Some_0,), now),
{
    match clock {
        Some(c) => read_clock(clock_now, c),
        None => read_global_clock(instant_now),
    }
}

/// Reads `clock`, or the global clock where there is none.
pub fn current_time(clock: &Option<quanta::Clock>) -> (now: u64)
    ensures
        read_from(*clock, now),
{
    reading(clock)
}

/// The length of a duration in nanoseconds, as `std::time::Duration::as_nanos`
/// gives it.
pub uninterp spec fn duration_nanos(duration: Duration) -> u128;

/// `std::time::Duration::as_nanos`: the length of `duration` in nanoseconds,
/// which is a function of the duration.
#[verifier::external_body]
pub(crate) fn as_nanos(duration: &Duration) -> (nanos: u128)
    ensures
        nanos == duration_nanos(*duration),
{
    duration.as_nanos()
}

/// Another pointer to the same value.
pub fn share<T>(pointer: &Arc<T>) -> (other: Arc<T>)
    ensures
        other == *pointer,
{
    Arc::clone(pointer)
}

/// Whether something that happened at `since` is at least `duration` nanoseconds old
/// at `now`.
pub open spec fn past_duration(since: u64, duration: nat, now: u64) -> bool {
    since + duration <= now
}

/// Whether a timestamp lies at least `duration` before `now`. An absent timestamp
/// does not, nor does anything without a duration to hold it to.
pub open spec fn expired(timestamp: Option<u64>, duration: Option<nat>, now: u64) -> bool {
    match (timestamp, duration) {
        (Some(since), Some(nanos)) => past_duration(since, nanos, now),
        _ => false,
    }
}

/// Something is past its duration exactly when the time at which it happened and the
/// duration together do not exceed the present; without a timestamp, or without a duration,
/// it never is.
pub proof fn law_expired_by_arithmetic(since: u64, nanos: nat, now: u64)
    ensures
        past_duration(since, nanos, now) <==> since + nanos <= now,
        expired(Some(since), Some(nanos), now) <==> since + nanos <= now,
        !expired(None, Some(nanos), now),
        !expired(Some(since), None, now),
        !expired(None, None, now),
{
}

/// A policy is as long as its duration, and there is none without one.
pub proof fn law_policy_is_its_duration(duration: Duration)
    ensures
        policy_nanos(Some(duration)) == Some(duration_nanos(duration) as nat),
        policy_nanos(None) is None,
{
}

/// The length of an optional duration in nanoseconds.
pub open spec fn policy_nanos(duration: Option<Duration>) -> Option<nat> {
    match duration {
        Some(d) => Some(duration_nanos(d) as nat),
        None => None,
    }
}

/// Whether a timestamp lies at least `duration` before `now`.
pub fn is_expired(timestamp: Option<u64>, duration: &Option<Duration>, now: u64) -> (past: bool)
    ensures
        past == expired(timestamp, policy_nanos(*duration), now),
{
    match (timestamp, duration) {
        (Some(since), Some(d)) => {
            let nanos: u128 = as_nanos(d);
            nanos <= now as u128 && since as u128 <= now as u128 - nanos
        },
        _ => false,
    }
}

} // verus!
