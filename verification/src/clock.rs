use vstd::prelude::*;

verus! {

/// A point in wall-clock time: whole seconds since the Unix epoch and the
/// nanoseconds past that second.
#[derive(Clone, Copy, Debug, PartialEq, Eq, Structural)]
pub struct Timestamp {
    pub secs: i64,
    pub nanos: u32,
}

impl Timestamp {
    /// A timestamp as the clock hands them out: the nanoseconds stay below
    /// one second.
    pub open spec fn wf(self) -> bool {
        self.nanos < 1_000_000_000
    }
}

/// The whole seconds from `then` to `now`, truncated toward zero, as
/// `(now - then).num_seconds()` gives them for two `chrono` times.
pub open spec fn whole_seconds_between(now: Timestamp, then: Timestamp) -> int {
    let d = (now.secs - then.secs) * 1_000_000_000 + (now.nanos - then.nanos);
    if d >= 0 {
        d / 1_000_000_000
    } else {
        -((-d) / 1_000_000_000)
    }
}

/// The time an operation happens at, as the caller read it: the wall clock,
/// which proxies are stamped and scored with, and a monotonic clock in
/// nanoseconds, which cooldowns are measured with.
#[derive(Clone, Copy, Debug, PartialEq, Eq, Structural)]
pub struct Now {
    pub wall: Timestamp,
    pub monotonic_nanos: u64,
}

/// The whole seconds elapsed since the last success, if there was one.
pub open spec fn seconds_since(last: Option<Timestamp>, now: Timestamp) -> Option<int> {
    match last {
        Some(t) => Some(whole_seconds_between(now, t)),
        None => None,
    }
}

/// The whole seconds elapsed from `then` to `now`, truncated toward zero.
pub fn seconds_between(now: Timestamp, then: Timestamp) -> (r: i128)
    ensures
        r == whole_seconds_between(now, then),
{
    let d: i128 = (now.secs as i128 - then.secs as i128) * 1_000_000_000 + (now.nanos as i128
        - then.nanos as i128);
    if d >= 0 {
        let q: u128 = (d as u128) / 1_000_000_000;
        q as i128
    } else {
        let q: u128 = ((-d) as u128) / 1_000_000_000;
        -(q as i128)
    }
}

} // verus!
