use proxy_pool::clock::Timestamp;
use proxy_pool::addr::ProxyAddr;
use proxy_pool::proxy::{Protocol, Proxy};
use proxy_pool::pool::pick_from;
use proxy_pool::select::{pick_weighted, sort_by_score_desc};

#[test]
fn pick_weighted_finds_the_share_that_holds_the_draw() {
    let w = vec![0u64, 3, 0, 2];
    assert_eq!(pick_weighted(&w, 0), 1);
    assert_eq!(pick_weighted(&w, 2), 1);
    assert_eq!(pick_weighted(&w, 3), 3);
    assert_eq!(pick_weighted(&w, 4), 3);
}

#[test]
fn sort_keeps_equal_scores_in_order() {
    let mk = |n: u32, score: u64| {
        let mut p = Proxy::new(ProxyAddr::V4(n, 1), Protocol::Http, Timestamp { secs: 0, nanos: 0 });
        p.score = score;
        p
    };
    let s = sort_by_score_desc(vec![mk(1, 10), mk(2, 30), mk(3, 10), mk(4, 20)]);
    let order: Vec<ProxyAddr> = s.iter().map(|p| p.addr).collect();
    assert_eq!(order, vec![ProxyAddr::V4(2, 1), ProxyAddr::V4(4, 1), ProxyAddr::V4(1, 1), ProxyAddr::V4(3, 1)]);
}

fn scored(n: u32, score: u64) -> Proxy {
    let mut p = Proxy::new(ProxyAddr::V4(n, 1), Protocol::Http, Timestamp { secs: 0, nanos: 0 });
    p.score = score;
    p
}

#[test]
fn pick_from_follows_the_scores_in_list_order() {
    let active = vec![scored(1, 1000), scored(2, 0), scored(3, 3000)];
    assert_eq!(pick_from(&active, 0), Some(0));
    assert_eq!(pick_from(&active, 999), Some(0));
    assert_eq!(pick_from(&active, 1000), Some(2));
    assert_eq!(pick_from(&active, 3999), Some(2));
    // The draw is taken modulo the sum of the scores.
    assert_eq!(pick_from(&active, 4000), Some(0));
    let picked_first = (0..4000u64).filter(|d| pick_from(&active, *d) == Some(0)).count();
    assert_eq!(picked_first, 1000);
}

#[test]
fn pick_from_goes_evenly_over_zero_scores_and_none_for_nothing() {
    let zeros = vec![scored(1, 0), scored(2, 0), scored(3, 0)];
    assert_eq!(pick_from(&zeros, 7), Some(1));
    assert_eq!(pick_from(&zeros, 9), Some(0));
    assert_eq!(pick_from(&Vec::new(), 5), None);
}
