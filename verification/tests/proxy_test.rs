use proxy_pool::addr::ProxyAddr;
use proxy_pool::clock::Timestamp;
use proxy_pool::proxy::{Anonymity, Protocol, Proxy};

const T0: Timestamp = Timestamp { secs: 1_700_000_000, nanos: 250 };

#[test]
fn a_new_proxy_is_unchecked() {
    let p = Proxy::new(ProxyAddr::V4(0x01020304, 8080), Protocol::Socks5, T0);
    assert_eq!(p.addr, ProxyAddr::V4(0x01020304, 8080));
    assert_eq!(p.protocol, Protocol::Socks5);
    assert_eq!(p.anonymity, Anonymity::Unknown);
    assert!(p.country.is_empty());
    assert_eq!(p.total_checks, 0);
    assert_eq!(p.success_checks, 0);
    assert_eq!(p.consecutive_failures(), 0);
    assert_eq!(p.avg_latency_us, 0);
    assert_eq!(p.score, 5000);
    assert!(p.last_success.is_none());
    assert!(!p.in_cooldown);
    assert_eq!(p.first_seen, T0);
}

#[test]
fn latency_is_smoothed_one_eighth_at_a_time() {
    let mut p = Proxy::new(ProxyAddr::V4(1, 1), Protocol::Http, T0);
    p.record_success(100, T0);
    assert_eq!(p.avg_latency_us, 100_000);
    p.record_success(200, T0);
    assert_eq!(p.avg_latency_us, 112_500);
    assert_eq!(p.total_checks, 2);
    assert_eq!(p.success_checks, 2);
    assert_eq!(p.last_success, Some(T0));
}

#[test]
fn a_success_ends_the_failure_streak() {
    let mut p = Proxy::new(ProxyAddr::V4(1, 1), Protocol::Http, T0);
    p.record_failure();
    p.record_failure();
    assert_eq!(p.consecutive_failures(), 2);
    assert_eq!(p.total_checks, 2);
    assert_eq!(p.success_checks, 0);
    p.record_success(10, T0);
    assert_eq!(p.consecutive_failures(), 0);
    assert_eq!(p.total_checks, 3);
    assert_eq!(p.success_checks, 1);
}

#[test]
fn counters_wrap_like_atomics() {
    let mut p = Proxy::new(ProxyAddr::V4(1, 1), Protocol::Http, T0);
    p.total_checks = u64::MAX;
    p.consecutive_failures = u32::MAX;
    p.record_failure();
    assert_eq!(p.total_checks, 0);
    assert_eq!(p.consecutive_failures, 0);
}

#[test]
fn names_are_lower_case() {
    assert_eq!(Protocol::Http.name(), "http");
    assert_eq!(Protocol::Https.name(), "https");
    assert_eq!(Protocol::Socks4.name(), "socks4");
    assert_eq!(Protocol::Socks5.name(), "socks5");
    assert_eq!(Anonymity::Elite.name(), "elite");
    assert_eq!(Anonymity::Anonymous.name(), "anonymous");
    assert_eq!(Anonymity::Transparent.name(), "transparent");
    assert_eq!(Anonymity::Unknown.name(), "unknown");
}

#[test]
fn a_new_proxy_is_stamped_with_the_given_time() {
    let p = Proxy::new(ProxyAddr::V4(1, 1), Protocol::Http, T0);
    assert_eq!(p.first_seen, T0);
    assert_eq!(p.last_checked, T0);
}

#[test]
fn clone_keeps_every_field() {
    let mut p = Proxy::new(ProxyAddr::V6(1, 2, 3, 4), Protocol::Https, T0);
    p.country = "DE".to_string();
    p.record_success(5, T0);
    let q = p.clone();
    assert_eq!(q.addr, p.addr);
    assert_eq!(q.country, "DE");
    assert_eq!(q.avg_latency_us, p.avg_latency_us);
    assert_eq!(q.last_success, p.last_success);
    assert_eq!(q.first_seen, p.first_seen);
}

#[test]
fn successes_never_outrun_checks() {
    let mut p = Proxy::new(ProxyAddr::V4(1, 1), Protocol::Http, T0);
    for n in 0..50u64 {
        if n % 3 == 0 {
            p.record_success(10, T0);
        } else {
            p.record_failure();
        }
        assert!(p.success_checks <= p.total_checks);
        assert_eq!(p.total_checks, n + 1);
    }
    assert_eq!(p.success_checks, 17);
}
