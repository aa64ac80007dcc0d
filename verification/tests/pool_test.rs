use proxy_pool::addr::ProxyAddr;
use proxy_pool::checker::{record_fail, record_pass, response_passes};
use proxy_pool::clock::{Now, Timestamp};
use proxy_pool::config::Config;
use proxy_pool::cooldown::CooldownPool;
use proxy_pool::pool::ProxyPool;
use proxy_pool::proxy::{Anonymity, Protocol, Proxy};

fn addr(n: u32) -> ProxyAddr {
    ProxyAddr::V4(0x0a000000 + n, 8000)
}

/// The time `s` seconds into a run: the wall clock and the monotonic clock
/// advance together.
fn now(s: u64) -> Now {
    Now { wall: Timestamp { secs: 1_700_000_000 + s as i64, nanos: 0 }, monotonic_nanos: s * 1_000_000_000 }
}

/// Records a failed check of `a`, as the checker finds the proxy: the pool's
/// entry, or an unchecked one.
fn fail(pool: &mut ProxyPool, cfg: &Config, a: ProxyAddr, t: Now) {
    let checked = pool.get(&a).unwrap_or_else(|| Proxy::new(a, Protocol::Http, t.wall));
    record_fail(pool, cfg, a, &checked, t);
}

fn config(max: usize) -> Config {
    let mut c = Config::default();
    c.max_pool_size = max;
    c
}

#[test]
fn default_config_matches_the_documented_settings() {
    let c = Config::default();
    assert_eq!(c.listen_addr, "0.0.0.0:3000");
    assert_eq!(c.max_pool_size, 5000);
    assert_eq!(c.health_check_interval_secs, 60);
    assert_eq!(c.fetch_interval_secs, 300);
    assert_eq!(c.cooldown_ttl_secs, 120);
    assert_eq!(c.validation_concurrency, 256);
    assert_eq!(c.validation_timeout_secs, 8);
    assert_eq!(c.min_success_rate_permille, 300);
    assert_eq!(c.max_consecutive_failures, 3);
    assert_eq!(c.test_urls, vec!["http://api.ipify.org/?format=json", "https://api.ipify.org/?format=json"]);
    assert_eq!(c.test_expected_status, 200);
    assert_eq!(c.test_expected_body, "ip");
    assert!(c.fetch_upstream_proxy.is_empty());
}

#[test]
fn upsert_adds_a_scored_proxy_once() {
    let mut pool = ProxyPool::new(config(10));
    pool.upsert(addr(1), Protocol::Https, Anonymity::Elite, "NL".to_string(), now(0));
    assert_eq!(pool.total_count(), 1);
    let p = pool.get(&addr(1)).unwrap();
    assert_eq!(p.protocol, Protocol::Https);
    assert_eq!(p.anonymity, Anonymity::Elite);
    assert_eq!(p.country, "NL");
    assert_eq!(p.score, 4000);
    // A second upsert of the same address changes nothing.
    pool.upsert(addr(1), Protocol::Http, Anonymity::Transparent, "FR".to_string(), now(0));
    assert_eq!(pool.total_count(), 1);
    assert_eq!(pool.get(&addr(1)).unwrap().country, "NL");
}

#[test]
fn a_full_pool_drops_its_lowest_scored_proxy() {
    let mut pool = ProxyPool::new(config(2));
    pool.upsert(addr(1), Protocol::Http, Anonymity::Elite, String::new(), now(0));
    pool.upsert(addr(2), Protocol::Http, Anonymity::Transparent, String::new(), now(0));
    pool.upsert(addr(3), Protocol::Http, Anonymity::Anonymous, String::new(), now(0));
    assert_eq!(pool.total_count(), 2);
    assert!(pool.get(&addr(1)).is_some());
    assert!(pool.get(&addr(2)).is_none());
    assert!(pool.get(&addr(3)).is_some());
}

#[test]
fn batch_insert_stops_at_the_limit_and_skips_known_addresses() {
    let mut pool = ProxyPool::new(config(3));
    let added = pool.batch_insert(vec![(addr(1), Protocol::Http), (addr(1), Protocol::Socks5), (addr(2), Protocol::Socks4)], now(0));
    assert_eq!(added, 2);
    assert_eq!(pool.get(&addr(1)).unwrap().protocol, Protocol::Http);
    let added = pool.batch_insert(vec![(addr(3), Protocol::Http), (addr(4), Protocol::Http), (addr(5), Protocol::Http)], now(0));
    assert_eq!(added, 1);
    assert_eq!(pool.total_count(), 3);
    assert!(pool.get(&addr(4)).is_none());
    assert_eq!(pool.get(&addr(3)).unwrap().score, 3250);
}

#[test]
fn cooling_addresses_are_not_taken_in() {
    let mut pool = ProxyPool::new(config(10));
    pool.cooldown(&addr(7), now(0));
    assert_eq!(pool.cooldown_count(now(10)), 1);
    assert_eq!(pool.batch_insert(vec![(addr(7), Protocol::Http)], now(10)), 0);
    pool.upsert(addr(7), Protocol::Http, Anonymity::Elite, String::new(), now(119));
    assert_eq!(pool.total_count(), 0);
    // Two minutes on, the cooldown has run out and the address is taken in.
    assert_eq!(pool.cooldown_count(now(120)), 0);
    pool.upsert(addr(7), Protocol::Http, Anonymity::Elite, String::new(), now(120));
    assert_eq!(pool.total_count(), 1);
    assert_eq!(pool.get(&addr(7)).unwrap().first_seen, now(120).wall);
}

#[test]
fn expired_cooldown_lets_an_address_back_in() {
    let mut c = config(10);
    c.cooldown_ttl_secs = 0;
    let mut pool = ProxyPool::new(c);
    pool.cooldown(&addr(7), now(0));
    assert_eq!(pool.batch_insert(vec![(addr(7), Protocol::Http)], now(0)), 1);
    assert_eq!(pool.cooldown_count(now(0)), 0);
}

#[test]
fn cooldown_then_release_restores_the_proxy() {
    let mut pool = ProxyPool::new(config(10));
    pool.upsert(addr(1), Protocol::Http, Anonymity::Unknown, String::new(), now(0));
    pool.upsert(addr(2), Protocol::Http, Anonymity::Unknown, String::new(), now(0));
    pool.cooldown(&addr(1), now(0));
    assert!(pool.get(&addr(1)).unwrap().in_cooldown);
    assert_eq!(pool.active_count(), 1);
    assert_eq!(pool.cooldown_count(now(0)), 1);
    pool.release_cooldown(&addr(1));
    assert!(!pool.get(&addr(1)).unwrap().in_cooldown);
    assert_eq!(pool.active_count(), 2);
    assert_eq!(pool.cooldown_count(now(0)), 0);
}

#[test]
fn remove_drops_the_proxy_and_its_cooldown() {
    let mut pool = ProxyPool::new(config(10));
    pool.upsert(addr(1), Protocol::Http, Anonymity::Unknown, String::new(), now(0));
    pool.cooldown(&addr(1), now(0));
    pool.remove(&addr(1));
    assert_eq!(pool.total_count(), 0);
    assert_eq!(pool.cooldown_count(now(0)), 0);
}

#[test]
fn active_snapshots_are_sorted_and_limited() {
    let mut pool = ProxyPool::new(config(10));
    pool.upsert(addr(1), Protocol::Http, Anonymity::Transparent, String::new(), now(0));
    pool.upsert(addr(2), Protocol::Http, Anonymity::Elite, String::new(), now(0));
    pool.upsert(addr(3), Protocol::Http, Anonymity::Anonymous, String::new(), now(0));
    pool.upsert(addr(4), Protocol::Http, Anonymity::Elite, String::new(), now(0));
    pool.cooldown(&addr(4), now(0));
    let all = pool.active_snapshots(None);
    let order: Vec<ProxyAddr> = all.iter().map(|p| p.addr).collect();
    assert_eq!(order, vec![addr(2), addr(3), addr(1)]);
    let top = pool.active_snapshots(Some(2));
    assert_eq!(top.len(), 2);
    assert_eq!(top[0].addr, addr(2));
    assert_eq!(pool.active_snapshots(Some(0)).len(), 0);
    assert_eq!(pool.active_snapshots(Some(99)).len(), 3);
}

#[test]
fn random_best_picks_an_active_proxy() {
    let mut pool = ProxyPool::new(config(10));
    assert!(pool.random_best(0).is_none());
    pool.upsert(addr(1), Protocol::Http, Anonymity::Unknown, String::new(), now(0));
    pool.upsert(addr(2), Protocol::Http, Anonymity::Unknown, String::new(), now(0));
    pool.cooldown(&addr(1), now(0));
    for d in 0..20 {
        assert_eq!(pool.random_best(d).unwrap().addr, addr(2));
    }
    pool.cooldown(&addr(2), now(0));
    assert!(pool.random_best(7).is_none());
}

#[test]
fn three_failures_in_a_row_send_a_proxy_to_cooldown() {
    let cfg = Config::default();
    let mut pool = ProxyPool::new(config(10));
    pool.upsert(addr(1), Protocol::Http, Anonymity::Unknown, String::new(), now(0));
    fail(&mut pool, &cfg, addr(1), now(0));
    fail(&mut pool, &cfg, addr(1), now(0));
    assert_eq!(pool.cooldown_count(now(0)), 0);
    fail(&mut pool, &cfg, addr(1), now(0));
    assert_eq!(pool.cooldown_count(now(0)), 1);
    let p = pool.get(&addr(1)).unwrap();
    assert!(p.in_cooldown);
    assert_eq!(p.consecutive_failures(), 3);
    assert_eq!(p.total_checks, 3);
    // Never passed: 0% success, unknown anonymity, no latency yet, never fresh.
    assert_eq!(p.score, 750 + 2500);
    // A pass releases it again and rescores it.
    record_pass(&mut pool, addr(1), 40, now(5));
    let p = pool.get(&addr(1)).unwrap();
    assert!(!p.in_cooldown);
    assert_eq!(p.consecutive_failures(), 0);
    assert_eq!(p.success_checks, 1);
    assert_eq!(p.last_success, Some(now(5).wall));
    // 1 of 4 checks (10 points), unknown anonymity (7.5), 40 ms (25), just now (20).
    assert_eq!(p.score, 1000 + 750 + 2500 + 2000);
    assert_eq!(pool.cooldown_count(now(5)), 0);
}

#[test]
fn a_failure_rescores_by_the_time_since_the_last_pass() {
    let cfg = Config::default();
    let mut pool = ProxyPool::new(config(10));
    pool.upsert(addr(1), Protocol::Http, Anonymity::Unknown, String::new(), now(0));
    record_pass(&mut pool, addr(1), 40, now(0));
    fail(&mut pool, &cfg, addr(1), now(930));
    let p = pool.get(&addr(1)).unwrap();
    // 1 of 2 checks (20 points), unknown (7.5), 40 ms (25), 930 s ago (10).
    assert_eq!(p.score, 2000 + 750 + 2500 + 1000);
}

#[test]
fn ten_checks_under_five_percent_evict_a_proxy() {
    let cfg = Config::default();
    let mut pool = ProxyPool::new(config(10));
    pool.upsert(addr(1), Protocol::Http, Anonymity::Unknown, String::new(), now(0));
    for _ in 0..9 {
        fail(&mut pool, &cfg, addr(1), now(0));
    }
    assert_eq!(pool.total_count(), 1);
    fail(&mut pool, &cfg, addr(1), now(0));
    assert_eq!(pool.total_count(), 0);
    assert_eq!(pool.cooldown_count(now(0)), 0);
}

#[test]
fn one_success_in_twenty_checks_is_not_below_five_percent() {
    let cfg = Config::default();
    let mut pool = ProxyPool::new(config(10));
    pool.upsert(addr(1), Protocol::Http, Anonymity::Unknown, String::new(), now(0));
    record_pass(&mut pool, addr(1), 10, now(0));
    for _ in 0..19 {
        fail(&mut pool, &cfg, addr(1), now(0));
    }
    assert_eq!(pool.get(&addr(1)).unwrap().total_checks, 20);
    fail(&mut pool, &cfg, addr(1), now(0));
    assert!(pool.get(&addr(1)).is_none());
}

#[test]
fn checks_of_unknown_addresses_change_nothing() {
    let cfg = Config::default();
    let mut pool = ProxyPool::new(config(10));
    fail(&mut pool, &cfg, addr(9), now(0));
    record_pass(&mut pool, addr(9), 10, now(0));
    assert_eq!(pool.total_count(), 0);
    assert_eq!(pool.cooldown_count(now(0)), 0);
}

#[test]
fn low_quality_proxies_are_evicted() {
    let mut pool = ProxyPool::new(config(10));
    pool.upsert(addr(1), Protocol::Http, Anonymity::Unknown, String::new(), now(0));
    pool.upsert(addr(2), Protocol::Http, Anonymity::Unknown, String::new(), now(0));
    pool.upsert(addr(3), Protocol::Http, Anonymity::Unknown, String::new(), now(0));
    // 1 of 5 (20%) is below 30%; 3 of 10 (30%) is not; 1 of 4 has too few checks.
    let set = |pool: &mut ProxyPool, a: ProxyAddr, total: u64, success: u64| {
        let mut p = pool.get(&a).unwrap();
        p.total_checks = total;
        p.success_checks = success;
        pool.update(p);
    };
    set(&mut pool, addr(1), 5, 1);
    set(&mut pool, addr(2), 10, 3);
    set(&mut pool, addr(3), 4, 1);
    assert_eq!(pool.evict_low_quality(), 1);
    assert!(pool.get(&addr(1)).is_none());
    assert_eq!(pool.total_count(), 2);
}

#[test]
fn iter_all_lists_each_proxy_once() {
    let mut pool = ProxyPool::new(config(10));
    for n in 0..5 {
        pool.upsert(addr(n), Protocol::Http, Anonymity::Unknown, String::new(), now(0));
    }
    let mut keys: Vec<u32> = pool
        .iter_all()
        .iter()
        .map(|(a, p)| {
            assert_eq!(*a, p.addr);
            match a {
                ProxyAddr::V4(ip, _) => *ip,
                ProxyAddr::V6(..) => 0,
            }
        })
        .collect();
    keys.sort();
    assert_eq!(keys, (0..5).map(|n| 0x0a000000 + n).collect::<Vec<u32>>());
}

#[test]
fn responses_pass_on_status_and_body() {
    let cfg = Config::default();
    assert!(response_passes(&cfg, 200, "{\"ip\":\"1.2.3.4\"}"));
    assert!(!response_passes(&cfg, 503, "{\"ip\":\"1.2.3.4\"}"));
    assert!(!response_passes(&cfg, 200, "blocked"));
    let mut any = Config::default();
    any.test_expected_body = String::new();
    assert!(response_passes(&any, 200, ""));
}

#[test]
fn cooldown_entries_expire_after_their_time_to_live() {
    let mut short = CooldownPool::new(0);
    assert!(!short.put(addr(1), 0));
    // With a time to live of zero nothing is ever cooling.
    assert!(!short.put(addr(1), 0));
    assert_eq!(short.len(0), 0);
    assert!(!short.is_cooling(&addr(1), 0));
    short.put(addr(2), 0);
    short.put(addr(3), 0);
    assert_eq!(short.evict_expired(0), 2);

    let mut long = CooldownPool::new(3600);
    assert!(!long.put(addr(1), 0));
    assert!(long.put(addr(1), 5));
    assert!(long.is_cooling(&addr(1), 3_600_000_000_004));
    assert_eq!(long.len(3_600_000_000_004), 1);
    assert_eq!(long.evict_expired(10), 0);
    assert!(!long.is_cooling(&addr(1), 3_600_000_000_005));
    assert_eq!(long.len(0), 0);
    long.put(addr(1), 0);
    assert_eq!(long.evict_expired(3_600_000_000_000), 1);
    long.put(addr(1), 0);
    assert!(long.remove(&addr(1)));
    assert!(!long.remove(&addr(1)));
}

#[test]
fn random_best_draws_each_of_two_equal_proxies() {
    let mut pool = ProxyPool::new(config(10));
    pool.upsert(addr(1), Protocol::Http, Anonymity::Unknown, String::new(), now(0));
    pool.upsert(addr(2), Protocol::Http, Anonymity::Unknown, String::new(), now(0));
    // Both score 3250: draws below 3250 pick the first listed, the next 3250 the other.
    let first = pool.random_best(0).unwrap().addr;
    assert_eq!(pool.random_best(3249).unwrap().addr, first);
    let second = pool.random_best(3250).unwrap().addr;
    assert_ne!(first, second);
    assert_eq!(pool.random_best(6499).unwrap().addr, second);
    assert_eq!(pool.random_best(6500).unwrap().addr, first);
}

#[test]
fn random_best_picks_in_proportion_to_the_scores() {
    let mut pool = ProxyPool::new(config(10));
    pool.upsert(addr(1), Protocol::Http, Anonymity::Unknown, String::new(), now(0));
    pool.upsert(addr(2), Protocol::Http, Anonymity::Unknown, String::new(), now(0));
    let mut p = pool.get(&addr(1)).unwrap();
    p.score = 1000;
    pool.update(p);
    let mut q = pool.get(&addr(2)).unwrap();
    q.score = 3000;
    pool.update(q);
    let picked_first = (0..4000u64).filter(|d| pool.random_best(*d).unwrap().addr == addr(1)).count();
    assert_eq!(picked_first, 1000);
}

#[test]
fn random_best_never_draws_a_zero_score_beside_a_positive_one() {
    let mut pool = ProxyPool::new(config(10));
    pool.upsert(addr(1), Protocol::Http, Anonymity::Unknown, String::new(), now(0));
    pool.upsert(addr(2), Protocol::Http, Anonymity::Unknown, String::new(), now(0));
    let mut p = pool.get(&addr(1)).unwrap();
    p.score = 0;
    pool.update(p);
    for d in 0..100 {
        assert_eq!(pool.random_best(d * 997).unwrap().addr, addr(2));
    }
}

#[test]
fn random_best_draws_evenly_when_every_score_is_zero() {
    let mut pool = ProxyPool::new(config(10));
    for n in 1..4 {
        pool.upsert(addr(n), Protocol::Http, Anonymity::Unknown, String::new(), now(0));
        let mut p = pool.get(&addr(n)).unwrap();
        p.score = 0;
        pool.update(p);
    }
    let a = pool.random_best(0).unwrap().addr;
    let b = pool.random_best(1).unwrap().addr;
    let c = pool.random_best(2).unwrap().addr;
    assert!(a != b && b != c && a != c);
    assert_eq!(pool.random_best(3).unwrap().addr, a);
}

#[test]
fn zero_time_to_live_ends_every_cooldown_at_once() {
    let mut c = config(10);
    c.cooldown_ttl_secs = 0;
    let mut pool = ProxyPool::new(c);
    pool.upsert(addr(1), Protocol::Http, Anonymity::Unknown, String::new(), now(0));
    pool.cooldown(&addr(1), now(0));
    pool.cooldown(&addr(2), now(0));
    assert_eq!(pool.cooldown_count(now(0)), 0);
    assert_eq!(pool.evict_expired_cooldowns(now(0)), 2);
    assert_eq!(pool.total_count(), 0);
}

#[test]
fn a_proxy_whose_cooldown_ran_out_is_evicted() {
    let mut pool = ProxyPool::new(config(10));
    pool.upsert(addr(1), Protocol::Http, Anonymity::Unknown, String::new(), now(0));
    pool.upsert(addr(2), Protocol::Http, Anonymity::Unknown, String::new(), now(0));
    pool.cooldown(&addr(1), now(0));
    assert_eq!(pool.evict_expired_cooldowns(now(119)), 0);
    assert_eq!(pool.total_count(), 2);
    assert_eq!(pool.evict_expired_cooldowns(now(120)), 1);
    assert_eq!(pool.total_count(), 1);
    assert!(pool.get(&addr(1)).is_none());
    assert!(pool.get(&addr(2)).is_some());
    assert_eq!(pool.cooldown_count(now(120)), 0);
}

#[test]
fn batch_insert_takes_pairs_in_order_until_the_pool_is_full() {
    let mut pool = ProxyPool::new(config(2));
    let a = addr(1);
    let b = addr(2);
    let c = addr(3);
    let added = pool.batch_insert(
        vec![(a, Protocol::Http), (a, Protocol::Socks5), (b, Protocol::Https), (c, Protocol::Http)],
        now(0),
    );
    assert_eq!(added, 2);
    assert_eq!(pool.total_count(), 2);
    assert_eq!(pool.get(&a).unwrap().protocol, Protocol::Http);
    assert_eq!(pool.get(&b).unwrap().protocol, Protocol::Https);
    assert!(pool.get(&c).is_none());
}

#[test]
fn a_failing_address_that_left_the_pool_still_cools_down() {
    let cfg = Config::default();
    let mut pool = ProxyPool::new(config(10));
    let mut checked = Proxy::new(addr(5), Protocol::Http, now(0).wall);
    checked.consecutive_failures = 2;
    record_fail(&mut pool, &cfg, addr(5), &checked, now(0));
    assert_eq!(pool.total_count(), 0);
    assert_eq!(pool.cooldown_count(now(0)), 1);
    // While it cools, the address is not taken back in.
    assert_eq!(pool.batch_insert(vec![(addr(5), Protocol::Http)], now(60)), 0);
}
