use proxy_pool::addr::ProxyAddr;
use proxy_pool::clock::{Now, Timestamp};
use proxy_pool::config::Config;
use proxy_pool::pool::ProxyPool;
use proxy_pool::proxy::{Anonymity, Protocol};
use proxy_pool::storage::{anonymity_from_name, protocol_from_name, restore_from_snapshots, SnapshotEntry};

fn start() -> Now {
    Now { wall: Timestamp { secs: 1_700_000_000, nanos: 0 }, monotonic_nanos: 0 }
}

#[test]
fn names_read_back_to_the_same_values() {
    for p in [Protocol::Http, Protocol::Https, Protocol::Socks4, Protocol::Socks5] {
        assert_eq!(protocol_from_name(p.name()), p);
    }
    for a in [Anonymity::Elite, Anonymity::Anonymous, Anonymity::Transparent, Anonymity::Unknown] {
        assert_eq!(anonymity_from_name(a.name()), a);
    }
}

#[test]
fn unknown_names_read_as_defaults() {
    assert_eq!(protocol_from_name("HTTP"), Protocol::Http);
    assert_eq!(protocol_from_name("ftp"), Protocol::Http);
    assert_eq!(anonymity_from_name("Elite"), Anonymity::Unknown);
    assert_eq!(anonymity_from_name(""), Anonymity::Unknown);
}

#[test]
fn restore_offers_every_entry_with_an_address() {
    let mut pool = ProxyPool::new(Config::default());
    let entry = |addr: Option<ProxyAddr>, p: &str, a: &str, c: &str| SnapshotEntry {
        addr,
        protocol: p.to_string(),
        anonymity: a.to_string(),
        country: c.to_string(),
    };
    let snapshots = vec![
        entry(Some(ProxyAddr::V4(1, 80)), "socks5", "elite", "JP"),
        entry(None, "http", "unknown", ""),
        entry(Some(ProxyAddr::V6(1, 443, 0, 0)), "https", "transparent", "US"),
        entry(Some(ProxyAddr::V4(1, 80)), "http", "unknown", ""),
    ];
    assert_eq!(restore_from_snapshots(&mut pool, &snapshots, start()), 3);
    assert_eq!(pool.total_count(), 2);
    let p = pool.get(&ProxyAddr::V4(1, 80)).unwrap();
    assert_eq!(p.protocol, Protocol::Socks5);
    assert_eq!(p.anonymity, Anonymity::Elite);
    assert_eq!(p.country, "JP");
    let q = pool.get(&ProxyAddr::V6(1, 443, 0, 0)).unwrap();
    assert_eq!(q.protocol, Protocol::Https);
    assert_eq!(q.anonymity, Anonymity::Transparent);
}

#[test]
fn restore_falls_back_to_defaults_and_starts_counters_afresh() {
    let mut pool = ProxyPool::new(Config::default());
    let snapshots = vec![
        SnapshotEntry { addr: None, protocol: "http".to_string(), anonymity: "elite".to_string(), country: String::new() },
        SnapshotEntry {
            addr: Some(ProxyAddr::V4(0x01020304, 80)),
            protocol: "SOCKS5".to_string(),
            anonymity: "weird".to_string(),
            country: "BR".to_string(),
        },
    ];
    assert_eq!(restore_from_snapshots(&mut pool, &snapshots, start()), 1);
    assert_eq!(pool.total_count(), 1);
    let p = pool.get(&ProxyAddr::V4(0x01020304, 80)).unwrap();
    assert_eq!(p.protocol, Protocol::Http);
    assert_eq!(p.anonymity, Anonymity::Unknown);
    assert_eq!(p.country, "BR");
    assert_eq!(p.total_checks, 0);
    assert_eq!(p.success_checks, 0);
    assert_eq!(p.first_seen, start().wall);
}
