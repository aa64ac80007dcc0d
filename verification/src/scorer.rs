use vstd::prelude::*;
use crate::clock::{Timestamp, seconds_between, seconds_since};
use crate::proxy::{Anonymity, Proxy, anonymity_factor};
use vstd::arithmetic::div_mod::lemma_div_is_ordered;
use vstd::arithmetic::mul::lemma_mul_inequality;

verus! {

// A proxy's score is worth up to 100 points: 40 for its success rate, 15 for
// its anonymity, 25 for its latency and 20 for how recently it last passed a
// check. It is kept in hundredths of a point, so the full score is 10000.
// Every share below is written over the common denominator `SHARE_SCALE`
// hundredths, which lets the score be computed exactly in integers.

/// The common denominator of the score's shares (the least common multiple of
/// the latency share's 1980 and the freshness share's 87).
pub open spec fn share_scale() -> int {
    57420
}

/// The anonymity share in hundredths of a point: 15 points times the level's
/// factor (1.0 elite, 0.7 anonymous, 0.3 transparent, 0.5 unknown).
pub open spec fn anonymity_points(a: Anonymity) -> int {
    match a {
        Anonymity::Elite => 1500,
        Anonymity::Anonymous => 1050,
        Anonymity::Transparent => 450,
        Anonymity::Unknown => 750,
    }
}

/// The anonymity share is 15 points times the level's factor.
pub proof fn lemma_anonymity_points(a: Anonymity)
    ensures
        anonymity_points(a) == anonymity_factor(a) * 15 / 10,
{
}

/// The latency share, scaled by `share_scale()`: 25 points up to 50 ms, none
/// from 5000 ms on, and linear in between (`25 * (1 - (ms - 50) / 4950)`).
pub open spec fn latency_share(avg_latency_us: u64) -> int {
    if avg_latency_us <= 50_000 {
        2500 * share_scale()
    } else if avg_latency_us >= 5_000_000 {
        0
    } else {
        (5_000_000 - avg_latency_us) * 29
    }
}

/// The freshness share, scaled by `share_scale()`: 20 points when the last
/// success is at most 60 s old, none when it is 1800 s old or more or there
/// was none, and linear in between (`20 * (1 - (s - 60) / 1740)`).
pub open spec fn freshness_share(elapsed: Option<int>) -> int {
    match elapsed {
        None => 0,
        Some(e) => if e <= 60 {
            2000 * share_scale()
        } else if e >= 1800 {
            0
        } else {
            (1800 - e) * 66000
        },
    }
}

/// The score in hundredths of a point, rounded down and capped at 10000, of a
/// proxy with these statistics whose last success lies `elapsed` whole
/// seconds back (`None`: it never passed a check). The success rate counts
/// as 0 before the first check.
pub open spec fn score_of(
    total: u64,
    success: u64,
    avg_latency_us: u64,
    anonymity: Anonymity,
    elapsed: Option<int>,
) -> int {
    let t: int = if total == 0 { 1 } else { total as int };
    let success_part: int = if total == 0 { 0 } else { 4000 * share_scale() * success };
    let rest: int = anonymity_points(anonymity) * share_scale() + latency_share(avg_latency_us)
        + freshness_share(elapsed);
    let raw = (success_part + t * rest) / (share_scale() * t);
    if raw > 10000 { 10000 } else { raw }
}

/// Raising either part of the numerator never lowers the rounded-down score.
proof fn lemma_raw_ordered(t: int, a1: int, a2: int, r1: int, r2: int)
    requires
        t >= 1,
        0 <= a1 <= a2,
        0 <= r1 <= r2,
    ensures
        (a1 + t * r1) / (share_scale() * t) <= (a2 + t * r2) / (share_scale() * t),
{
    lemma_mul_inequality(r1, r2, t);
    assert(t * r1 <= t * r2) by (nonlinear_arith)
        requires r1 * t <= r2 * t;
    assert(share_scale() * t > 0) by (nonlinear_arith)
        requires t >= 1;
    lemma_div_is_ordered(a1 + t * r1, a2 + t * r2, share_scale() * t);
}

proof fn lemma_shares_nonneg(avg_latency_us: u64, elapsed: Option<int>, anonymity: Anonymity)
    ensures
        0 <= latency_share(avg_latency_us) <= 2500 * share_scale(),
        0 <= freshness_share(elapsed) <= 2000 * share_scale(),
        450 <= anonymity_points(anonymity) <= 1500,
{
}

/// The score is the documented sum, in hundredths of a point, rounded down
/// and capped at 10000: 4000 times the success rate (0 before the first
/// check); 1500, 1050, 450 or 750 for an elite, anonymous, transparent or
/// unknown proxy; 2500 for a latency up to 50 ms, nothing from 5000 ms on and
/// `2500 * (5000 - ms) / 4950` in between; 2000 for a last success at most
/// 60 s back, nothing from 1800 s back on or without one, and
/// `2000 * (1800 - s) / 1740` in between. Here every share is written over
/// `checks * 4_950_000 * 1740`, with latencies in microseconds.
pub proof fn lemma_score_is_the_documented_sum(
    total: u64,
    success: u64,
    avg_latency_us: u64,
    anonymity: Anonymity,
    elapsed: Option<int>,
)
    ensures
        ({
            let checks: int = if total == 0 { 1 } else { total as int };
            let rate_part: int = if total == 0 { 0 } else { 4000 * success * 4_950_000 * 1740 };
            let anonymity_part: int = match anonymity {
                Anonymity::Elite => 1500,
                Anonymity::Anonymous => 1050,
                Anonymity::Transparent => 450,
                Anonymity::Unknown => 750,
            };
            let latency_part: int = if avg_latency_us <= 50_000 {
                2500int * 4_950_000
            } else if avg_latency_us >= 5_000_000 {
                0
            } else {
                2500 * (5_000_000 - avg_latency_us)
            };
            let fresh_part: int = match elapsed {
                None => 0,
                Some(e) => if e <= 60 {
                    2000int * 1740
                } else if e >= 1800 {
                    0
                } else {
                    2000 * (1800 - e)
                },
            };
            let sum = (rate_part + checks * (anonymity_part * 4_950_000 * 1740 + latency_part * 1740 + fresh_part
                * 4_950_000)) / (checks * 4_950_000 * 1740);
            score_of(total, success, avg_latency_us, anonymity, elapsed) == if sum > 10000 { 10000 } else { sum }
        }),
{
    lemma_shares_nonneg(avg_latency_us, elapsed, anonymity);
    let sc = share_scale();
    let checks: int = if total == 0 { 1 } else { total as int };
    let p: int = if total == 0 { 0 } else { 4000 * sc * success };
    let rest = anonymity_points(anonymity) * sc + latency_share(avg_latency_us) + freshness_share(elapsed);
    let num = p + checks * rest;
    let den = sc * checks;
    let rate_part: int = if total == 0 { 0 } else { 4000 * success * 4_950_000 * 1740 };
    let latency_part: int = if avg_latency_us <= 50_000 {
        2500int * 4_950_000
    } else if avg_latency_us >= 5_000_000 {
        0
    } else {
        2500 * (5_000_000 - avg_latency_us)
    };
    let fresh_part: int = match elapsed {
        None => 0,
        Some(e) => if e <= 60 {
            2000int * 1740
        } else if e >= 1800 {
            0
        } else {
            2000 * (1800 - e)
        },
    };
    assert(latency_part * 1740 == 150_000 * latency_share(avg_latency_us));
    assert(fresh_part * 4_950_000 == 150_000 * freshness_share(elapsed));
    assert(rate_part == 150_000 * p);
    let rest2 = anonymity_points(anonymity) * 4_950_000 * 1740 + latency_part * 1740 + fresh_part * 4_950_000;
    assert(rest2 == 150_000 * rest);
    assert(rate_part + checks * rest2 == 150_000 * num) by (nonlinear_arith)
        requires
            rate_part == 150_000 * p,
            rest2 == 150_000 * rest,
            num == p + checks * rest,
    ;
    assert(checks * 4_950_000 * 1740 == 150_000 * den) by (nonlinear_arith)
        requires
            den == 57420 * checks,
    ;
    assert(p >= 0) by (nonlinear_arith)
        requires
            p == (if total == 0 { 0 } else { 4000 * 57420 * success }),
            success >= 0,
    ;
    assert(checks * rest >= 0) by (nonlinear_arith)
        requires
            checks >= 1,
            rest >= 0,
    ;
    assert(den > 0) by (nonlinear_arith)
        requires
            den == 57420 * checks,
            checks >= 1,
    ;
    vstd::arithmetic::div_mod::lemma_div_multiples_vanish_quotient(150_000, num, den);
}

/// Rounding down keeps the order of two fractions: `a1 / b1 <= a2 / b2`.
proof fn lemma_floor_ordered(a1: int, b1: int, a2: int, b2: int)
    requires
        b1 > 0,
        b2 > 0,
        a1 >= 0,
        a2 >= 0,
        a1 * b2 <= a2 * b1,
    ensures
        a1 / b1 <= a2 / b2,
{
    let q = a1 / b1;
    let r = a2 / b2;
    vstd::arithmetic::div_mod::lemma_fundamental_div_mod(a1, b1);
    vstd::arithmetic::div_mod::lemma_fundamental_div_mod(a2, b2);
    assert(0 <= a1 % b1 < b1 && 0 <= a2 % b2 < b2) by {
        vstd::arithmetic::div_mod::lemma_mod_bound(a1, b1);
        vstd::arithmetic::div_mod::lemma_mod_bound(a2, b2);
    }
    assert(q * b1 <= a1);
    assert(q * b2 <= a2) by (nonlinear_arith)
        requires
            q * b1 <= a1,
            a1 * b2 <= a2 * b1,
            b1 > 0,
            b2 > 0,
    {
        assert(q * b1 * b2 <= a1 * b2);
        assert(q * b2 * b1 <= a2 * b1);
    }
    assert(q <= r) by (nonlinear_arith)
        requires
            q * b2 <= a2,
            a2 == b2 * r + a2 % b2,
            a2 % b2 < b2,
            b2 > 0,
    {
        if q > r {
            assert(q >= r + 1);
            assert(q * b2 >= (r + 1) * b2);
        }
    }
}

/// The success rate `success / total`, compared: rate `(t1, s1)` is at most
/// rate `(t2, s2)`, where a proxy never checked has a rate of 0.
pub open spec fn rate_at_most(t1: u64, s1: u64, t2: u64, s2: u64) -> bool {
    if t1 == 0 {
        true
    } else if t2 == 0 {
        s1 == 0
    } else {
        s1 * t2 <= s2 * t1
    }
}

/// A higher success rate never lowers the score, whatever the numbers of
/// checks behind the two rates, the other inputs being the same.
pub proof fn lemma_score_monotone_in_success_rate(
    t1: u64,
    s1: u64,
    t2: u64,
    s2: u64,
    avg_latency_us: u64,
    anonymity: Anonymity,
    elapsed: Option<int>,
)
    requires
        rate_at_most(t1, s1, t2, s2),
    ensures
        score_of(t1, s1, avg_latency_us, anonymity, elapsed) <= score_of(t2, s2, avg_latency_us, anonymity, elapsed),
{
    lemma_shares_nonneg(avg_latency_us, elapsed, anonymity);
    let sc = share_scale();
    let rest = anonymity_points(anonymity) * sc + latency_share(avg_latency_us) + freshness_share(elapsed);
    let u1: int = if t1 == 0 { 1 } else { t1 as int };
    let u2: int = if t2 == 0 { 1 } else { t2 as int };
    let p1: int = if t1 == 0 { 0 } else { 4000 * sc * s1 };
    let p2: int = if t2 == 0 { 0 } else { 4000 * sc * s2 };
    assert(p1 * u2 <= p2 * u1) by (nonlinear_arith)
        requires
            p1 == (if t1 == 0 { 0 } else { 4000 * 57420 * s1 }),
            p2 == (if t2 == 0 { 0 } else { 4000 * 57420 * s2 }),
            u1 == (if t1 == 0 { 1 } else { t1 as int }),
            u2 == (if t2 == 0 { 1 } else { t2 as int }),
            rate_at_most(t1, s1, t2, s2),
            s1 >= 0,
            s2 >= 0,
    ;
    assert(p1 >= 0 && p2 >= 0) by (nonlinear_arith)
        requires
            p1 == (if t1 == 0 { 0 } else { 4000 * 57420 * s1 }),
            p2 == (if t2 == 0 { 0 } else { 4000 * 57420 * s2 }),
            s1 >= 0,
            s2 >= 0,
    ;
    let a1 = p1 + u1 * rest;
    let a2 = p2 + u2 * rest;
    let b1 = sc * u1;
    let b2 = sc * u2;
    assert(a1 * b2 <= a2 * b1 && a1 >= 0 && a2 >= 0 && b1 > 0 && b2 > 0) by (nonlinear_arith)
        requires
            p1 * u2 <= p2 * u1,
            p1 >= 0,
            p2 >= 0,
            rest >= 0,
            u1 >= 1,
            u2 >= 1,
            sc == 57420,
            a1 == p1 + u1 * rest,
            a2 == p2 + u2 * rest,
            b1 == sc * u1,
            b2 == sc * u2,
    {
        assert(a1 * b2 == sc * (p1 * u2) + sc * (u1 * u2 * rest));
        assert(a2 * b1 == sc * (p2 * u1) + sc * (u1 * u2 * rest));
    }
    lemma_floor_ordered(a1, b1, a2, b2);
}

/// More successes out of the same number of checks never lower the score.
pub proof fn lemma_score_monotone_in_successes(
    total: u64,
    s1: u64,
    s2: u64,
    avg_latency_us: u64,
    anonymity: Anonymity,
    elapsed: Option<int>,
)
    requires
        s1 <= s2,
    ensures
        score_of(total, s1, avg_latency_us, anonymity, elapsed) <= score_of(
            total,
            s2,
            avg_latency_us,
            anonymity,
            elapsed,
        ),
{
    lemma_shares_nonneg(avg_latency_us, elapsed, anonymity);
    if total > 0 {
        let rest = anonymity_points(anonymity) * share_scale() + latency_share(avg_latency_us)
            + freshness_share(elapsed);
        assert(4000 * share_scale() * s1 <= 4000 * share_scale() * s2) by (nonlinear_arith)
            requires s1 <= s2;
        lemma_raw_ordered(total as int, 4000 * share_scale() * s1, 4000 * share_scale() * s2, rest, rest);
    }
}

/// A lower latency never lowers the score.
pub proof fn lemma_score_monotone_in_latency(
    total: u64,
    success: u64,
    faster_us: u64,
    slower_us: u64,
    anonymity: Anonymity,
    elapsed: Option<int>,
)
    requires
        faster_us <= slower_us,
    ensures
        score_of(total, success, slower_us, anonymity, elapsed) <= score_of(
            total,
            success,
            faster_us,
            anonymity,
            elapsed,
        ),
{
    lemma_shares_nonneg(faster_us, elapsed, anonymity);
    lemma_shares_nonneg(slower_us, elapsed, anonymity);
    assert(latency_share(slower_us) <= latency_share(faster_us));
    let t: int = if total == 0 { 1 } else { total as int };
    let a: int = if total == 0 { 0 } else { 4000 * share_scale() * success };
    let base = anonymity_points(anonymity) * share_scale() + freshness_share(elapsed);
    lemma_raw_ordered(t, a, a, base + latency_share(slower_us), base + latency_share(faster_us));
}

/// A more recent last success never lowers the score, and any success scores
/// at least as well as none.
pub proof fn lemma_score_monotone_in_freshness(
    total: u64,
    success: u64,
    avg_latency_us: u64,
    anonymity: Anonymity,
    recent: Option<int>,
    older: Option<int>,
)
    requires
        older is None || (recent is Some && recent->0 <= older->0),
    ensures
        score_of(total, success, avg_latency_us, anonymity, older) <= score_of(
            total,
            success,
            avg_latency_us,
            anonymity,
            recent,
        ),
{
    lemma_shares_nonneg(avg_latency_us, recent, anonymity);
    lemma_shares_nonneg(avg_latency_us, older, anonymity);
    assert(freshness_share(older) <= freshness_share(recent));
    let t: int = if total == 0 { 1 } else { total as int };
    let a: int = if total == 0 { 0 } else { 4000 * share_scale() * success };
    let base = anonymity_points(anonymity) * share_scale() + latency_share(avg_latency_us);
    lemma_raw_ordered(t, a, a, base + freshness_share(older), base + freshness_share(recent));
}

/// The anonymity levels rank elite, anonymous, unknown, transparent: a higher
/// level never lowers the score.
pub proof fn lemma_score_monotone_in_anonymity(
    total: u64,
    success: u64,
    avg_latency_us: u64,
    higher: Anonymity,
    lower: Anonymity,
    elapsed: Option<int>,
)
    requires
        anonymity_points(lower) <= anonymity_points(higher),
    ensures
        score_of(total, success, avg_latency_us, lower, elapsed) <= score_of(
            total,
            success,
            avg_latency_us,
            higher,
            elapsed,
        ),
{
    lemma_shares_nonneg(avg_latency_us, elapsed, lower);
    lemma_shares_nonneg(avg_latency_us, elapsed, higher);
    let t: int = if total == 0 { 1 } else { total as int };
    let a: int = if total == 0 { 0 } else { 4000 * share_scale() * success };
    let base = latency_share(avg_latency_us) + freshness_share(elapsed);
    assert(anonymity_points(lower) * share_scale() <= anonymity_points(higher) * share_scale());
    lemma_raw_ordered(
        t,
        a,
        a,
        anonymity_points(lower) * share_scale() + base,
        anonymity_points(higher) * share_scale() + base,
    );
}

/// An elite proxy that passed every one of its checks, answers within 50 ms
/// and passed a check within the last minute scores the full 100 points: the
/// four shares (40, 15, 25 and 20 points) add up to the whole score.
pub proof fn lemma_perfect_score(total: u64, avg_latency_us: u64, elapsed: int)
    requires
        total > 0,
        avg_latency_us <= 50_000,
        elapsed <= 60,
    ensures
        score_of(total, total, avg_latency_us, Anonymity::Elite, Some(elapsed)) == 10000,
{
    let t = total as int;
    assert(4000 * 57420 * t + t * (1500 * 57420 + 2500 * 57420 + 2000 * 57420) == 10000 * (57420 * t))
        by (nonlinear_arith);
    assert(57420 * t > 0) by (nonlinear_arith)
        requires t >= 1;
    assert((10000 * (57420 * t)) / (57420 * t) == 10000) by (nonlinear_arith)
        requires 57420 * t > 0;
}

/// A proxy that was never checked scores its anonymity and latency shares:
/// 15 points times its anonymity factor plus the full 25 latency points.
pub proof fn lemma_unchecked_score(anonymity: Anonymity)
    ensures
        score_of(0, 0, 0, anonymity, None) == anonymity_points(anonymity) + 2500,
{
    let r = anonymity_points(anonymity) + 2500;
    assert((r * 57420) / 57420 == r) by (nonlinear_arith);
    assert(1 * (anonymity_points(anonymity) * 57420 + 2500 * 57420 + 0) == r * 57420);
}

/// The score of a proxy whose last success lies `elapsed` seconds back.
pub open spec fn proxy_score_at(p: Proxy, elapsed: Option<int>) -> int {
    score_of(p.total_checks, p.success_checks, p.avg_latency_us, p.anonymity, elapsed)
}

/// The score, in hundredths of a point, of a proxy with these statistics whose
/// last success lies `elapsed` whole seconds back (`None`: never).
pub fn score_with(
    total: u64,
    success: u64,
    avg_latency_us: u64,
    anonymity: Anonymity,
    elapsed: Option<i128>,
) -> (r: u64)
    ensures
        r == score_of(
            total,
            success,
            avg_latency_us,
            anonymity,
            match elapsed {
                Some(e) => Some(e as int),
                None => None,
            },
        ),
        r <= 10000,
{
    let scale: u128 = 57420;
    let t: u128 = if total == 0 { 1 } else { total as u128 };
    let success_part: u128 = if total == 0 { 0 } else {
        assert(4000 * 57420 * success <= 4000 * 57420 * u64::MAX) by (nonlinear_arith)
            requires success <= u64::MAX;
        4000 * 57420 * (success as u128)
    };
    let lat: u128 = if avg_latency_us <= 50_000 {
        2500 * scale
    } else if avg_latency_us >= 5_000_000 {
        0
    } else {
        ((5_000_000 - avg_latency_us) as u128) * 29
    };
    let fresh: u128 = match elapsed {
        None => 0,
        Some(e) => if e <= 60 {
            2000 * scale
        } else if e >= 1800 {
            0
        } else {
            ((1800 - e) as u128) * 66000
        },
    };
    let anon: u128 = (anonymity.score() as u128) * 15 / 10;
    proof {
        lemma_anonymity_points(anonymity);
    }
    let rest: u128 = anon * scale + lat + fresh;
    assert(rest <= 6000 * 57420);
    assert(t * rest <= (u64::MAX as int) * (6000 * 57420)) by (nonlinear_arith)
        requires t <= u64::MAX, rest <= 6000 * 57420;
    let num: u128 = success_part + t * rest;
    let den: u128 = scale * t;
    let raw: u128 = num / den;
    let ghost ge = match elapsed { Some(e) => Some(e as int), None => None };
    assert(success_part == (if total == 0 { 0 } else { 4000 * share_scale() * success }));
    assert(rest == anonymity_points(anonymity) * share_scale() + latency_share(avg_latency_us)
        + freshness_share(ge));
    if raw > 10000 {
        10000
    } else {
        raw as u64
    }
}

/// Recomputes a proxy's score from its statistics as of `now`, stores it and
/// returns it; only the score changes.
pub fn recalculate_score(proxy: &mut Proxy, now: Timestamp) -> (r: u64)
    ensures
        r <= 10000,
        r == proxy_score_at(*old(proxy), seconds_since(old(proxy).last_success, now)),
        *final(proxy) == (Proxy { score: r, ..*old(proxy) }),
{
    let elapsed: Option<i128> = match proxy.last_success {
        Some(ls) => Some(seconds_between(now, ls)),
        None => None,
    };
    let s = score_with(
        proxy.total_checks,
        proxy.success_checks,
        proxy.avg_latency_us,
        proxy.anonymity,
        elapsed,
    );
    proxy.score = s;
    s
}

} // verus!
