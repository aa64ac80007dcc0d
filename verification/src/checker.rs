use vstd::prelude::*;
use crate::addr::ProxyAddr;
use crate::clock::{Now, Timestamp, seconds_since};
use crate::config::Config;
use crate::pool::{ProxyPool, latency_bound};
use crate::proxy::{Proxy, bump_u32, bump_u64, smoothed_latency};
use crate::scorer::{proxy_score_at, recalculate_score};
use crate::text::chars_of;

verus! {

/// `needle` occurs in `haystack` as a run of consecutive characters.
pub open spec fn occurs_in(needle: Seq<char>, haystack: Seq<char>) -> bool {
    exists|i: int| 0 <= i <= haystack.len() - needle.len() && #[trigger] haystack.subrange(i, i + needle.len()) == needle
}

/// Whether `needle` occurs in `haystack` as a run of consecutive characters.
pub fn contains_chars(haystack: &Vec<char>, needle: &Vec<char>) -> (b: bool)
    ensures
        b == occurs_in(needle@, haystack@),
{
    let n = needle.len();
    if n > haystack.len() {
        return false;
    }
    let mut i: usize = 0;
    while i <= haystack.len() - n
        invariant
            n == needle@.len(),
            n <= haystack@.len(),
            0 <= i <= haystack@.len() - n + 1,
            forall|k: int| 0 <= k < i ==> #[trigger] haystack@.subrange(k, k + n as int) != needle@,
        decreases haystack@.len() - n + 1 - i,
    {
        let mut j: usize = 0;
        let mut same = true;
        while j < n
            invariant
                n == needle@.len(),
                i + n <= haystack.len(),
                0 <= j <= n,
                same == forall|l: int| 0 <= l < j ==> haystack@[i + l] == needle@[l],
            decreases n - j,
        {
            if haystack[i + j] != needle[j] {
                same = false;
            }
            j = j + 1;
        }
        if same {
            assert(haystack@.subrange(i as int, i + n as int) =~= needle@);
            return true;
        }
        assert(haystack@.subrange(i as int, i + n as int) != needle@) by {
            let l = choose|l: int| 0 <= l < n && haystack@[i + l] != needle@[l];
            assert(haystack@.subrange(i as int, i + n as int)[l] == haystack@[i + l]);
        }
        i = i + 1;
    }
    assert forall|k: int| 0 <= k <= haystack@.len() - needle@.len() implies #[trigger] haystack@.subrange(k, k
        + needle@.len()) != needle@ by {
        assert(k < i);
    }
    false
}

/// Whether an answer fetched through a proxy shows that the proxy works: the
/// status is the expected one and, unless no word is expected, the body holds
/// the expected word.
pub fn response_passes(config: &Config, status: u16, body: &str) -> (ok: bool)
    ensures
        ok == (status == config.test_expected_status && (config.test_expected_body@.len() == 0
            || occurs_in(config.test_expected_body@, body@))),
{
    if status != config.test_expected_status {
        return false;
    }
    let expected = chars_of(config.test_expected_body.as_str());
    if expected.len() == 0 {
        return true;
    }
    contains_chars(&chars_of(body), &expected)
}

/// `q` is `p` after one more successful check of `latency_ms` milliseconds
/// made at `now`, rescored as of `now` and back from cooldown.
pub open spec fn pass_recorded(p: Proxy, q: Proxy, latency_ms: u64, now: Timestamp) -> bool {
    &&& q.addr == p.addr
    &&& q.protocol == p.protocol
    &&& q.anonymity == p.anonymity
    &&& q.country == p.country
    &&& q.first_seen == p.first_seen
    &&& q.last_checked == p.last_checked
    &&& q.total_checks == bump_u64(p.total_checks)
    &&& q.success_checks == bump_u64(p.success_checks)
    &&& q.consecutive_failures == 0
    &&& q.avg_latency_us == smoothed_latency(p.avg_latency_us, latency_ms)
    &&& q.last_success == Some(now)
    &&& !q.in_cooldown
    &&& q.score == proxy_score_at(q, Some(0))
}

/// `q` is `p` after one more failed check, rescored as of `now`, and marked as
/// cooling when `cool` holds (it stays marked if it already was).
pub open spec fn failure_recorded(p: Proxy, q: Proxy, cool: bool, now: Timestamp) -> bool {
    &&& q.addr == p.addr
    &&& q.protocol == p.protocol
    &&& q.anonymity == p.anonymity
    &&& q.country == p.country
    &&& q.first_seen == p.first_seen
    &&& q.last_checked == p.last_checked
    &&& q.total_checks == bump_u64(p.total_checks)
    &&& q.success_checks == p.success_checks
    &&& q.consecutive_failures == bump_u32(p.consecutive_failures)
    &&& q.avg_latency_us == p.avg_latency_us
    &&& q.last_success == p.last_success
    &&& q.in_cooldown == (p.in_cooldown || cool)
    &&& q.score == proxy_score_at(q, seconds_since(q.last_success, now))
}

/// A proxy with this many checks, these successes, is evicted at once: at
/// least ten checks and a success rate below 5%.
pub open spec fn hopeless(total: u64, success: u64) -> bool {
    total >= 10 && success * 20 < total
}

/// A proxy is hopeless exactly when it has been checked at least ten times
/// and passed fewer than 5% of its checks; one that passed 5% or more is
/// never hopeless, however many checks it failed.
pub proof fn lemma_hopeless_below_five_percent(total: u64, success: u64)
    ensures
        hopeless(total, success) <==> (total >= 10 && 100 * success < 5 * total),
        100 * success >= 5 * total ==> !hopeless(total, success),
{
}

/// Records that a proxy passed a check in `latency_ms` milliseconds at `now`:
/// its statistics are updated, it is rescored and it leaves cooldown.
pub fn record_pass(pool: &mut ProxyPool, addr: ProxyAddr, latency_ms: u64, now: Now)
    requires
        old(pool).wf(),
        latency_ms * 1000 <= latency_bound(),
    ensures
        final(pool).wf(),
        final(pool).config() == old(pool).config(),
        final(pool).cooling_starts() == old(pool).cooling_starts().remove(addr),
        final(pool).proxies().dom() == old(pool).proxies().dom(),
        forall|k: ProxyAddr| #[trigger] final(pool).proxies().contains_key(k) && k != addr
            ==> final(pool).proxies()[k] == old(pool).proxies()[k],
        old(pool).proxies().contains_key(addr) ==> pass_recorded(
            old(pool).proxies()[addr],
            final(pool).proxies()[addr],
            latency_ms,
            now.wall,
        ),
{
    match pool.get(&addr) {
        Some(p) => {
            let mut p = p;
            proof {
                assert(p.avg_latency_us * 7 + latency_ms * 1000 <= u64::MAX);
            }
            p.record_success(latency_ms, now.wall);
            let ghost counted = p;
            recalculate_score(&mut p, now.wall);
            assert(proxy_score_at(counted, Some(0)) == proxy_score_at(p, Some(0)));
            pool.update(p);
        },
        None => {},
    }
    pool.release_cooldown(&addr);
    assert(pool.proxies().dom() =~= old(pool).proxies().dom());
}

/// Records that a proxy failed a check at `now`. `checked` is the proxy as the
/// check found it: the failure is counted on the pool's entry of the address,
/// or on `checked` when the address has left the pool meanwhile. The proxy
/// is rescored; one whose failure streak reaches the limit of the settings
/// goes into cooldown (an address that left the pool is still put aside), and
/// one checked at least ten times that passed fewer than 5% of its checks is
/// evicted along with its cooldown entry.
pub fn record_fail(pool: &mut ProxyPool, config: &Config, addr: ProxyAddr, checked: &Proxy, now: Now)
    requires
        old(pool).wf(),
    ensures
        final(pool).wf(),
        final(pool).config() == old(pool).config(),
        forall|k: ProxyAddr| k != addr ==> (#[trigger] final(pool).proxies().contains_key(k)
            == old(pool).proxies().contains_key(k)),
        forall|k: ProxyAddr| #[trigger] final(pool).proxies().contains_key(k) && k != addr
            ==> final(pool).proxies()[k] == old(pool).proxies()[k],
        // A proxy of the pool is evicted exactly when, this failure counted, it
        // has at least ten checks and passed fewer than 5% of them.
        old(pool).proxies().contains_key(addr) ==> (!final(pool).proxies().contains_key(addr) <==> (bump_u64(
            old(pool).proxies()[addr].total_checks) >= 10 && 100 * old(pool).proxies()[addr].success_checks < 5
            * bump_u64(old(pool).proxies()[addr].total_checks))),
        ({
            let present = old(pool).proxies().contains_key(addr);
            let p = if present { old(pool).proxies()[addr] } else { *checked };
            let cool = bump_u32(p.consecutive_failures) >= config.max_consecutive_failures;
            if hopeless(bump_u64(p.total_checks), p.success_checks) {
                &&& !final(pool).proxies().contains_key(addr)
                &&& final(pool).cooling_starts() == old(pool).cooling_starts().remove(addr)
            } else {
                &&& present ==> final(pool).proxies().contains_key(addr) && failure_recorded(
                    p,
                    final(pool).proxies()[addr],
                    cool,
                    now.wall,
                )
                &&& !present ==> final(pool).proxies() == old(pool).proxies()
                &&& final(pool).cooling_starts() == if cool {
                    old(pool).cooling_starts().insert(addr, now.monotonic_nanos)
                } else {
                    old(pool).cooling_starts()
                }
            }
        }),
{
    let got = pool.get(&addr);
    let was_present = got.is_some();
    let mut p = match got {
        Some(p) => p,
        None => checked.clone_proxy(),
    };
    p.record_failure();
    let ghost counted = p;
    recalculate_score(&mut p, now.wall);
    assert(proxy_score_at(counted, seconds_since(counted.last_success, now.wall)) == proxy_score_at(
        p, seconds_since(p.last_success, now.wall)));
    let fails = p.consecutive_failures();
    let total = p.total_checks;
    let success = p.success_checks;
    if was_present {
        pool.update(p);
    }
    if fails >= config.max_consecutive_failures {
        pool.cooldown(&addr, now);
    }
    if total >= 10 && (success as u128) * 20 < total as u128 {
        let ghost before = pool.cooling_starts();
        pool.remove(&addr);
        assert(pool.cooling_starts() =~= old(pool).cooling_starts().remove(addr)) by {
            if fails >= config.max_consecutive_failures {
                assert(before == old(pool).cooling_starts().insert(addr, now.monotonic_nanos));
            }
        }
    }
    proof {
        if !was_present {
            assert(pool.proxies() =~= old(pool).proxies());
        }
    }
}

} // verus!
