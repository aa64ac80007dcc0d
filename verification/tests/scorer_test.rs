use proxy_pool::addr::ProxyAddr;
use proxy_pool::clock::{seconds_between, Timestamp};
use proxy_pool::proxy::{Anonymity, Protocol, Proxy};
use proxy_pool::scorer::{recalculate_score, score_with};

#[test]
fn unchecked_proxy_scores_anonymity_and_latency_shares() {
    assert_eq!(score_with(0, 0, 0, Anonymity::Unknown, None), 3250);
    assert_eq!(score_with(0, 0, 0, Anonymity::Elite, None), 4000);
    assert_eq!(score_with(0, 0, 0, Anonymity::Anonymous, None), 3550);
    assert_eq!(score_with(0, 0, 0, Anonymity::Transparent, None), 2950);
}

#[test]
fn perfect_proxy_scores_full_marks() {
    assert_eq!(score_with(7, 7, 30_000, Anonymity::Elite, Some(5)), 10000);
    assert_eq!(score_with(1, 1, 50_000, Anonymity::Elite, Some(60)), 10000);
}

#[test]
fn each_share_scales_linearly_between_its_bounds() {
    // 50% success (20 points), anonymous (10.5), 2525 ms (12.5), 930 s ago (10).
    assert_eq!(score_with(10, 5, 2_525_000, Anonymity::Anonymous, Some(930)), 5300);
}

#[test]
fn slow_and_stale_proxies_lose_those_shares() {
    assert_eq!(score_with(4, 4, 5_000_000, Anonymity::Transparent, Some(1800)), 4000 + 450);
    assert_eq!(score_with(4, 0, 9_000_000, Anonymity::Transparent, None), 450);
}

#[test]
fn score_rounds_down_to_hundredths() {
    // 1 of 3 checks: 13.333... points of success, shown as 1333 hundredths.
    assert_eq!(score_with(3, 1, 0, Anonymity::Transparent, None), 1333 + 450 + 2500);
}

#[test]
fn a_recent_success_counts_fully_and_clock_skew_too() {
    assert_eq!(score_with(2, 1, 0, Anonymity::Unknown, Some(-30)), 2000 + 750 + 2500 + 2000);
}

#[test]
fn seconds_between_truncates_toward_zero() {
    let a = Timestamp { secs: 10, nanos: 500_000_000 };
    let b = Timestamp { secs: 5, nanos: 700_000_000 };
    assert_eq!(seconds_between(a, b), 4);
    assert_eq!(seconds_between(b, a), -4);
    let c = Timestamp { secs: 6, nanos: 500_000_000 };
    let d = Timestamp { secs: 5, nanos: 0 };
    assert_eq!(seconds_between(d, c), -1);
    assert_eq!(seconds_between(c, c), 0);
}

#[test]
fn recalculate_score_stores_the_score() {
    let t0 = Timestamp { secs: 1_700_000_000, nanos: 0 };
    let mut p = Proxy::new(ProxyAddr::V4(1, 1), Protocol::Http, t0);
    assert_eq!(p.score, 5000);
    let s = recalculate_score(&mut p, t0);
    assert_eq!(s, 3250);
    assert_eq!(p.score, 3250);
    p.record_success(20, t0);
    let s = recalculate_score(&mut p, t0);
    // 100% success, unknown anonymity, 20 ms, passed just now.
    assert_eq!(s, 4000 + 750 + 2500 + 2000);
    // 930 s later the freshness share has halved.
    let later = Timestamp { secs: 1_700_000_930, nanos: 0 };
    assert_eq!(recalculate_score(&mut p, later), 4000 + 750 + 2500 + 1000);
    assert_eq!(p.score, 4000 + 750 + 2500 + 1000);
}

#[test]
fn a_higher_success_rate_scores_no_lower() {
    // 2 of 4 (50%) against 6 of 10 (60%), everything else equal.
    let lower = score_with(4, 2, 100_000, Anonymity::Elite, Some(100));
    let higher = score_with(10, 6, 100_000, Anonymity::Elite, Some(100));
    assert!(lower <= higher);
    assert_eq!(score_with(4, 2, 0, Anonymity::Unknown, None), 2000 + 750 + 2500);
    assert_eq!(score_with(10, 6, 0, Anonymity::Unknown, None), 2400 + 750 + 2500);
}
