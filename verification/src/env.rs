//! The ranking pipeline's one environmental input, the current time, behind
//! a trait so that ranking can run against a frozen clock.

use vstd::prelude::*;

verus! {

/// A UTC instant: whole seconds since the Unix epoch and the sub-second
/// nanoseconds (`1_000_000_000` and above only inside a leap second).
#[derive(Clone, Copy, Debug, PartialEq, Eq, Structural, PartialOrd, Ord, Hash)]
pub struct Timestamp {
    /// Seconds since 1970-01-01T00:00:00Z.
    pub secs: i64,
    /// Nanoseconds within the second.
    pub nanos: u32,
}

impl Timestamp {
    /// The instant `secs` seconds and `nanos` nanoseconds after the epoch.
    pub fn new(secs: i64, nanos: u32) -> (r: Self)
        ensures
            r.secs == secs,
            r.nanos == nanos,
    {
        Timestamp { secs, nanos }
    }
}

/// An instant, in nanoseconds since the epoch.
pub open spec fn instant_nanos(t: Timestamp) -> int {
    t.secs * 1_000_000_000 + t.nanos
}

/// An instant, in nanoseconds since the epoch.
pub fn total_nanos(t: &Timestamp) -> (r: i128)
    ensures
        r == instant_nanos(*t),
{
    (t.secs as i128) * 1_000_000_000 + (t.nanos as i128)
}

/// Whole seconds in a span of `d` nanoseconds, truncated toward zero.
pub open spec fn spec_whole_seconds(d: int) -> int {
    if d >= 0 {
        d / 1_000_000_000
    } else {
        -((-d) / 1_000_000_000)
    }
}

/// The whole seconds from `then` to `now` (negative when `then` is later),
/// truncated toward zero: how far back a visit lies.
pub fn whole_seconds_between(now: &Timestamp, then: &Timestamp) -> (r: i128)
    ensures
        r == spec_whole_seconds(instant_nanos(*now) - instant_nanos(*then)),
{
    let d = total_nanos(now) - total_nanos(then);
    if d >= 0 {
        d / 1_000_000_000
    } else {
        -((-d) / 1_000_000_000)
    }
}

/// The system clock's instant type, carried through opaquely.
#[verifier::external_type_specification]
#[verifier::external_body]
pub struct ExSystemTime(std::time::SystemTime);

/// Reads the system clock with `SystemTime::now`. Nothing is claimed of the
/// reading, which depends on the machine's clock.
#[verifier::external_body]
fn system_now() -> (r: std::time::SystemTime) {
    std::time::SystemTime::now()
}

/// How far `t` lies from the Unix epoch, by `SystemTime::duration_since`:
/// whether it is at or after the epoch, and the distance's whole seconds and
/// sub-second nanoseconds (which `Duration` documents as below one second).
/// Nothing else is claimed: the distance comes from the clock's reading.
#[verifier::external_body]
fn epoch_offset(t: &std::time::SystemTime) -> (r: (bool, u64, u32))
    ensures
        r.2 < 1_000_000_000,
{
    match t.duration_since(std::time::UNIX_EPOCH) {
        Ok(d) => (true, d.as_secs(), d.subsec_nanos()),
        Err(e) => (false, e.duration().as_secs(), e.duration().subsec_nanos()),
    }
}

/// A signed distance from the epoch, in nanoseconds.
pub open spec fn spec_offset_nanos(after_epoch: bool, secs: int, nanos: int) -> int {
    if after_epoch {
        secs * 1_000_000_000 + nanos
    } else {
        -(secs * 1_000_000_000 + nanos)
    }
}

/// The instant `secs` seconds and `nanos` nanoseconds after the epoch (or
/// before it, when `after_epoch` is clear), with the sub-second part kept
/// below one second; seconds beyond `i64::MAX` saturate there.
pub fn timestamp_from_epoch_offset(after_epoch: bool, secs: u64, nanos: u32) -> (r: Timestamp)
    requires
        nanos < 1_000_000_000,
    ensures
        r.nanos < 1_000_000_000,
        instant_nanos(r) == spec_offset_nanos(after_epoch, if secs > i64::MAX { i64::MAX as int } else { secs as int }, nanos as int),
{
    let s: i64 = if secs > i64::MAX as u64 { i64::MAX } else { secs as i64 };
    if after_epoch {
        Timestamp { secs: s, nanos }
    } else if nanos == 0 {
        Timestamp { secs: -s, nanos: 0 }
    } else {
        Timestamp { secs: -s - 1, nanos: 1_000_000_000 - nanos }
    }
}

/// The wall clock's current instant. Any reading converts, including one
/// before 1970.
fn wall_clock_now() -> (r: Timestamp)
    ensures
        r.nanos < 1_000_000_000,
{
    let t = system_now();
    let (after, secs, nanos) = epoch_offset(&t);
    timestamp_from_epoch_offset(after, secs, nanos)
}

/// The only environmental capability the ranking pipeline needs: the
/// current time, used to compute each visit's age.
pub trait FrecencyEnvironment {
    /// "Now", as a UTC instant.
    fn now(&self) -> Timestamp;
}

/// Production environment: reads the wall clock.
#[derive(Debug, Clone, Copy, Default)]
pub struct RealEnvironment;

impl FrecencyEnvironment for RealEnvironment {
    fn now(&self) -> (r: Timestamp)
        ensures
            r.nanos < 1_000_000_000,
    {
        wall_clock_now()
    }
}

/// Test environment: a frozen clock.
#[derive(Debug, Clone, Copy)]
pub struct MockEnvironment {
    /// The fixed "now" every call returns.
    pub fixed: Timestamp,
}

impl MockEnvironment {
    /// Freeze the clock at `fixed`.
    pub fn at(fixed: Timestamp) -> (r: Self)
        ensures
            r.fixed == fixed,
    {
        MockEnvironment { fixed }
    }
}

impl FrecencyEnvironment for MockEnvironment {
    fn now(&self) -> (r: Timestamp)
        ensures
            r == self.fixed,
    {
        self.fixed
    }
}

} // verus!
