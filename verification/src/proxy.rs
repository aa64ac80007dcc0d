use vstd::prelude::*;
use crate::addr::ProxyAddr;
use crate::clock::Timestamp;

verus! {

/// Anonymity level of a proxy server.
#[derive(Clone, Copy, Debug, PartialEq, Eq, Hash, Structural)]
pub enum Anonymity {
    Elite,
    Anonymous,
    Transparent,
    Unknown,
}

/// Supported proxy protocols.
#[derive(Clone, Copy, Debug, PartialEq, Eq, Hash, Structural)]
pub enum Protocol {
    Http,
    Https,
    Socks4,
    Socks5,
}

/// The lower-case name under which a protocol is shown and saved.
pub open spec fn protocol_name_of(p: Protocol) -> Seq<char> {
    match p {
        Protocol::Http => "http"@,
        Protocol::Https => "https"@,
        Protocol::Socks4 => "socks4"@,
        Protocol::Socks5 => "socks5"@,
    }
}

/// The lower-case name under which an anonymity level is shown and saved.
pub open spec fn anonymity_name_of(a: Anonymity) -> Seq<char> {
    match a {
        Anonymity::Elite => "elite"@,
        Anonymity::Anonymous => "anonymous"@,
        Anonymity::Transparent => "transparent"@,
        Anonymity::Unknown => "unknown"@,
    }
}

impl Protocol {
    /// The lower-case name of the protocol (`http`, `https`, `socks4`, `socks5`).
    pub fn name(&self) -> (s: &'static str)
        ensures
            s@ == protocol_name_of(*self),
    {
        match self {
            Protocol::Http => "http",
            Protocol::Https => "https",
            Protocol::Socks4 => "socks4",
            Protocol::Socks5 => "socks5",
        }
    }
}

/// How much an anonymity level is worth in a score, in thousandths: elite
/// 1.0, anonymous 0.7, transparent 0.3, unknown 0.5.
pub open spec fn anonymity_factor(a: Anonymity) -> int {
    match a {
        Anonymity::Elite => 1000,
        Anonymity::Anonymous => 700,
        Anonymity::Transparent => 300,
        Anonymity::Unknown => 500,
    }
}

impl Anonymity {
    /// How much the level is worth in a score, in thousandths (1000 is 1.0).
    pub fn score(&self) -> (f: u64)
        ensures
            f == anonymity_factor(*self),
    {
        match self {
            Anonymity::Elite => 1000,
            Anonymity::Anonymous => 700,
            Anonymity::Transparent => 300,
            Anonymity::Unknown => 500,
        }
    }

    /// The lower-case name of the anonymity level.
    pub fn name(&self) -> (s: &'static str)
        ensures
            s@ == anonymity_name_of(*self),
    {
        match self {
            Anonymity::Elite => "elite",
            Anonymity::Anonymous => "anonymous",
            Anonymity::Transparent => "transparent",
            Anonymity::Unknown => "unknown",
        }
    }
}

/// The score every proxy starts with before it is first scored: 50 points, in
/// hundredths of a point.
pub const INITIAL_SCORE: u64 = 5000;

/// A counter of checks after one more check: it wraps at the end of its range,
/// as an atomic `fetch_add` does.
pub open spec fn bump_u64(x: u64) -> u64 {
    if x == u64::MAX {
        0
    } else {
        (x + 1) as u64
    }
}

/// The same for 32-bit counters.
pub open spec fn bump_u32(x: u32) -> u32 {
    if x == u32::MAX {
        0
    } else {
        (x + 1) as u32
    }
}

/// The smoothed latency, in microseconds, after a check that took
/// `latency_ms` milliseconds: the first measurement is taken as it is, later
/// ones enter with weight 1/8 against 7/8 for the average so far.
pub open spec fn smoothed_latency(old_avg_us: u64, latency_ms: u64) -> int {
    if old_avg_us == 0 {
        latency_ms * 1000
    } else {
        (old_avg_us * 7 + latency_ms * 1000) / 8
    }
}

/// Every measurement after the first enters the smoothed latency with weight
/// 1/8, whether it is faster or slower than the average so far: eight times
/// the new average falls short of seven times the old average plus the new
/// measurement by less than 8 (the rounding down), so the new average lies
/// between the old one and the measurement. The first measurement is taken
/// as it is.
pub proof fn lemma_latency_blends_one_eighth(old_avg_us: u64, latency_ms: u64)
    ensures
        old_avg_us == 0 ==> smoothed_latency(old_avg_us, latency_ms) == latency_ms * 1000,
        old_avg_us != 0 ==> {
            let n = smoothed_latency(old_avg_us, latency_ms);
            &&& n * 8 <= old_avg_us * 7 + latency_ms * 1000 < n * 8 + 8
            &&& (latency_ms * 1000 <= old_avg_us ==> latency_ms * 1000 <= n <= old_avg_us)
            &&& (old_avg_us <= latency_ms * 1000 ==> old_avg_us <= n <= latency_ms * 1000)
        },
{
}

/// A proxy entry in the pool.
#[derive(Debug)]
pub struct Proxy {
    pub addr: ProxyAddr,
    pub protocol: Protocol,
    pub anonymity: Anonymity,
    pub country: String,
    pub total_checks: u64,
    pub success_checks: u64,
    pub consecutive_failures: u32,
    /// Smoothed latency of successful checks, in microseconds.
    pub avg_latency_us: u64,
    /// Score in hundredths of a point: 0 to 10000 stands for 0.0 to 100.0.
    pub score: u64,
    pub first_seen: Timestamp,
    pub last_checked: Timestamp,
    pub last_success: Option<Timestamp>,
    pub in_cooldown: bool,
}

/// A check never makes the successes outrun the checks, as long as the check
/// counter has not reached the end of its range (where it wraps to 0).
pub proof fn lemma_successes_within_checks(total: u64, success: u64)
    requires
        success <= total,
        total < u64::MAX,
    ensures
        bump_u64(success) <= bump_u64(total),
        success <= bump_u64(total),
{
}

/// The check counters (all checks, successful ones) after the outcomes
/// `outcomes` (true: passed) are recorded in turn, starting from
/// `(total, success)`, as `record_success` and `record_failure` count them.
pub open spec fn counts_after(total: u64, success: u64, outcomes: Seq<bool>) -> (u64, u64)
    decreases outcomes.len(),
{
    if outcomes.len() == 0 {
        (total, success)
    } else {
        let (t, s) = counts_after(total, success, outcomes.drop_last());
        if outcomes.last() {
            (bump_u64(t), bump_u64(s))
        } else {
            (bump_u64(t), s)
        }
    }
}

/// A proxy that starts unchecked, as `Proxy::new` makes it, never counts more
/// successes than checks, and counts every check, whatever checks it passes
/// or fails, as long as the check counter has not reached the end of its
/// range (where it wraps to 0).
pub proof fn lemma_successes_never_exceed_checks(outcomes: Seq<bool>)
    requires
        outcomes.len() < u64::MAX,
    ensures
        counts_after(0, 0, outcomes).1 <= counts_after(0, 0, outcomes).0,
        counts_after(0, 0, outcomes).0 == outcomes.len(),
    decreases outcomes.len(),
{
    if outcomes.len() > 0 {
        lemma_successes_never_exceed_checks(outcomes.drop_last());
    }
}

impl Clone for Proxy {
    fn clone(&self) -> (p: Proxy)
        ensures
            p == *self,
    {
        self.clone_proxy()
    }
}

impl Proxy {
    /// A proxy that has not been checked yet, first seen at `now`.
    pub open spec fn is_fresh(self, addr: ProxyAddr, protocol: Protocol, now: Timestamp) -> bool {
        &&& self.addr == addr
        &&& self.protocol == protocol
        &&& self.anonymity == Anonymity::Unknown
        &&& self.country@ == Seq::<char>::empty()
        &&& self.total_checks == 0
        &&& self.success_checks == 0
        &&& self.consecutive_failures == 0
        &&& self.avg_latency_us == 0
        &&& self.score == INITIAL_SCORE
        &&& self.last_success is None
        &&& !self.in_cooldown
        &&& self.first_seen == now
        &&& self.last_checked == now
    }

    /// Everything but the check statistics is the same in `self` and `other`.
    pub open spec fn same_identity(self, other: Proxy) -> bool {
        &&& self.addr == other.addr
        &&& self.protocol == other.protocol
        &&& self.anonymity == other.anonymity
        &&& self.country == other.country
        &&& self.first_seen == other.first_seen
        &&& self.last_checked == other.last_checked
        &&& self.in_cooldown == other.in_cooldown
    }

    /// A new, unchecked proxy, first seen at `now`.
    pub fn new(addr: ProxyAddr, protocol: Protocol, now: Timestamp) -> (p: Proxy)
        ensures
            p.is_fresh(addr, protocol, now),
    {
        let first_seen = now;
        let last_checked = now;
        Proxy {
            addr,
            protocol,
            anonymity: Anonymity::Unknown,
            country: String::new(),
            total_checks: 0,
            success_checks: 0,
            consecutive_failures: 0,
            avg_latency_us: 0,
            score: INITIAL_SCORE,
            first_seen,
            last_checked,
            last_success: None,
            in_cooldown: false,
        }
    }

    /// A copy of the proxy.
    pub fn clone_proxy(&self) -> (p: Proxy)
        ensures
            p == *self,
    {
        Proxy {
            addr: self.addr,
            protocol: self.protocol,
            anonymity: self.anonymity,
            country: self.country.clone(),
            total_checks: self.total_checks,
            success_checks: self.success_checks,
            consecutive_failures: self.consecutive_failures,
            avg_latency_us: self.avg_latency_us,
            score: self.score,
            first_seen: self.first_seen,
            last_checked: self.last_checked,
            last_success: self.last_success,
            in_cooldown: self.in_cooldown,
        }
    }

    /// The number of failed checks since the last successful one.
    pub fn consecutive_failures(&self) -> (n: u32)
        ensures
            n == self.consecutive_failures,
    {
        self.consecutive_failures
    }

    /// Records a successful check that took `latency_ms` milliseconds, made at
    /// `now`: the latency enters the smoothed average, both check counters go
    /// up, the failure streak ends and the last success becomes `now`.
    pub fn record_success(&mut self, latency_ms: u64, now: Timestamp)
        requires
            latency_ms * 1000 <= u64::MAX,
            old(self).avg_latency_us != 0 ==> old(self).avg_latency_us * 7 + latency_ms * 1000
                <= u64::MAX,
        ensures
            final(self).avg_latency_us == smoothed_latency(old(self).avg_latency_us, latency_ms),
            old(self).avg_latency_us == 0 ==> final(self).avg_latency_us == latency_ms * 1000,
            old(self).avg_latency_us != 0 ==> final(self).avg_latency_us * 8 <= old(self).avg_latency_us * 7
                + latency_ms * 1000 < final(self).avg_latency_us * 8 + 8,
            final(self).total_checks == bump_u64(old(self).total_checks),
            final(self).success_checks == bump_u64(old(self).success_checks),
            final(self).consecutive_failures == 0,
            final(self).last_success == Some(now),
            final(self).score == old(self).score,
            final(self).same_identity(*old(self)),
    {
        let old_avg = self.avg_latency_us;
        let new_avg = if old_avg == 0 {
            latency_ms * 1000
        } else {
            (old_avg * 7 + latency_ms * 1000) / 8
        };
        self.avg_latency_us = new_avg;
        self.total_checks = self.total_checks.wrapping_add(1);
        self.success_checks = self.success_checks.wrapping_add(1);
        self.consecutive_failures = 0;
        self.last_success = Some(now);
    }

    /// Records a failed check: the check counter and the failure streak go up.
    pub fn record_failure(&mut self)
        ensures
            final(self).total_checks == bump_u64(old(self).total_checks),
            final(self).consecutive_failures == bump_u32(old(self).consecutive_failures),
            final(self).success_checks == old(self).success_checks,
            final(self).avg_latency_us == old(self).avg_latency_us,
            final(self).last_success == old(self).last_success,
            final(self).score == old(self).score,
            final(self).same_identity(*old(self)),
    {
        self.total_checks = self.total_checks.wrapping_add(1);
        self.consecutive_failures = self.consecutive_failures.wrapping_add(1);
    }
}

} // verus!
