use vstd::prelude::*;
use crate::addr::ProxyAddr;
use crate::clock::{Now, Timestamp};
use crate::pool::{ProxyPool, is_new_entry, upserted};
use crate::proxy::Proxy;
use crate::proxy::{Anonymity, Protocol, anonymity_name_of, protocol_name_of};
use crate::text::chars_of;

verus! {

/// A proxy as a saved snapshot records it: its address, already read back
/// into a socket address (`None` when the saved text is no address), its
/// protocol and anonymity by name, and its country.
pub struct SnapshotEntry {
    pub addr: Option<ProxyAddr>,
    pub protocol: String,
    pub anonymity: String,
    pub country: String,
}

/// The protocol a saved name stands for; an unknown name reads as HTTP.
pub open spec fn protocol_named(s: Seq<char>) -> Protocol {
    if s == "http"@ {
        Protocol::Http
    } else if s == "https"@ {
        Protocol::Https
    } else if s == "socks4"@ {
        Protocol::Socks4
    } else if s == "socks5"@ {
        Protocol::Socks5
    } else {
        Protocol::Http
    }
}

/// The anonymity level a saved name stands for; an unknown name reads as
/// unknown.
pub open spec fn anonymity_named(s: Seq<char>) -> Anonymity {
    if s == "elite"@ {
        Anonymity::Elite
    } else if s == "anonymous"@ {
        Anonymity::Anonymous
    } else if s == "transparent"@ {
        Anonymity::Transparent
    } else {
        Anonymity::Unknown
    }
}

/// Whether the two strings hold the same characters.
fn str_eq(a: &str, b: &str) -> (r: bool)
    ensures
        r == (a@ == b@),
{
    let x = chars_of(a);
    let y = chars_of(b);
    if x.len() != y.len() {
        return false;
    }
    let mut i: usize = 0;
    while i < x.len()
        invariant
            x@ == a@,
            y@ == b@,
            x@.len() == y@.len(),
            0 <= i <= x@.len(),
            forall|j: int| 0 <= j < i ==> x@[j] == y@[j],
        decreases x@.len() - i,
    {
        if x[i] != y[i] {
            return false;
        }
        i = i + 1;
    }
    assert(x@ =~= y@);
    true
}

/// The protocol a saved name stands for.
pub fn protocol_from_name(name: &str) -> (p: Protocol)
    ensures
        p == protocol_named(name@),
{
    if str_eq(name, "http") {
        Protocol::Http
    } else if str_eq(name, "https") {
        Protocol::Https
    } else if str_eq(name, "socks4") {
        Protocol::Socks4
    } else if str_eq(name, "socks5") {
        Protocol::Socks5
    } else {
        Protocol::Http
    }
}

/// The anonymity level a saved name stands for.
pub fn anonymity_from_name(name: &str) -> (a: Anonymity)
    ensures
        a == anonymity_named(name@),
{
    if str_eq(name, "elite") {
        Anonymity::Elite
    } else if str_eq(name, "anonymous") {
        Anonymity::Anonymous
    } else if str_eq(name, "transparent") {
        Anonymity::Transparent
    } else {
        Anonymity::Unknown
    }
}

/// A protocol saved under its name reads back as the same protocol.
pub proof fn lemma_protocol_name_round_trip(p: Protocol)
    ensures
        protocol_named(protocol_name_of(p)) == p,
{
    reveal_strlit("http");
    reveal_strlit("https");
    reveal_strlit("socks4");
    reveal_strlit("socks5");
    assert("http"@.len() == 4 && "https"@.len() == 5);
    assert("socks4"@[5] == '4' && "socks5"@[5] == '5');
    assert("http"@.len() != "socks4"@.len());
    assert("https"@[0] != "socks4"@[0]);
    assert("https"@[0] != "socks5"@[0]);
}

/// An anonymity level saved under its name reads back as the same level.
pub proof fn lemma_anonymity_name_round_trip(a: Anonymity)
    ensures
        anonymity_named(anonymity_name_of(a)) == a,
{
    reveal_strlit("elite");
    reveal_strlit("anonymous");
    reveal_strlit("transparent");
    reveal_strlit("unknown");
    assert("elite"@.len() == 5 && "anonymous"@.len() == 9 && "transparent"@.len() == 11
        && "unknown"@.len() == 7);
}

/// The number of entries that carry an address.
pub open spec fn addressed_count(s: Seq<SnapshotEntry>) -> nat
    decreases s.len(),
{
    if s.len() == 0 {
        0
    } else {
        addressed_count(s.drop_last()) + if s.last().addr is Some { 1nat } else { 0nat }
    }
}

/// Counting the entries of a prefix counts no more than counting them all.
proof fn lemma_addressed_count_prefix(s: Seq<SnapshotEntry>, i: int)
    requires
        0 <= i <= s.len(),
    ensures
        addressed_count(s.take(i)) <= addressed_count(s),
    decreases s.len() - i,
{
    if i < s.len() {
        lemma_addressed_count_prefix(s, i + 1);
        assert(s.take(i + 1).drop_last() =~= s.take(i));
    } else {
        assert(s.take(i) =~= s);
    }
}

/// No entry before the `i`-th carries the address of the `i`-th.
pub open spec fn first_with_its_addr(s: Seq<SnapshotEntry>, i: int) -> bool {
    forall|j: int| 0 <= j < i ==> #[trigger] s[j].addr != s[i].addr
}

/// `after` is what offering the entry `e` to the pool makes of its proxies
/// `before`: an entry without an address changes nothing, any other is
/// offered to `upsert` with its names read and its country.
pub open spec fn restore_step(
    before: Map<ProxyAddr, Proxy>,
    after: Map<ProxyAddr, Proxy>,
    e: SnapshotEntry,
    cooling: Set<ProxyAddr>,
    now: Timestamp,
    max: usize,
) -> bool {
    match e.addr {
        Some(a) => upserted(
            before,
            after,
            a,
            protocol_named(e.protocol@),
            anonymity_named(e.anonymity@),
            e.country@,
            now,
            cooling,
            max,
        ),
        None => after == before,
    }
}

/// `states` are the pool's proxies before each entry of `s` is offered and,
/// last, after all of them, each step as `restore_step` says.
pub open spec fn restore_chain(
    states: Seq<Map<ProxyAddr, Proxy>>,
    s: Seq<SnapshotEntry>,
    cooling: Set<ProxyAddr>,
    now: Timestamp,
    max: usize,
) -> bool {
    &&& states.len() == s.len() + 1
    &&& forall|j: int| 0 <= j < s.len() ==> restore_step(states[j], states[j + 1], #[trigger] s[j], cooling, now, max)
}

/// Restores proxies from a saved snapshot on startup, at `now`: each entry
/// with an address is offered to the pool (`upsert`) with the protocol,
/// anonymity and country it was saved with. Returns how many entries were
/// offered.
pub fn restore_from_snapshots(pool: &mut ProxyPool, snapshots: &Vec<SnapshotEntry>, now: Now) -> (count: usize)
    requires
        old(pool).wf(),
    ensures
        final(pool).wf(),
        final(pool).config() == old(pool).config(),
        count == addressed_count(snapshots@),
        // The pool holds nothing but what it held and what the snapshot offered.
        forall|k: ProxyAddr| #[trigger] final(pool).proxies().contains_key(k) ==> old(pool).proxies().contains_key(k)
            || exists|i: int| 0 <= i < snapshots@.len() && #[trigger] snapshots@[i].addr == Some(k),
        // With room for every entry, nothing is evicted, and each address that
        // is neither present nor cooling enters with the names, country and
        // no checks, as its first entry gives them.
        // The entries are offered one after the other, each as `upsert` says.
        exists|states: Seq<Map<ProxyAddr, Proxy>>| #[trigger] restore_chain(
            states,
            snapshots@,
            old(pool).cooling_at(now.monotonic_nanos),
            now.wall,
            old(pool).config().max_pool_size,
        ) && states[0] == old(pool).proxies() && states[snapshots@.len() as int] == final(pool).proxies(),
        old(pool).proxies().len() + addressed_count(snapshots@) <= old(pool).config().max_pool_size ==> {
            &&& forall|k: ProxyAddr| #[trigger] old(pool).proxies().contains_key(k) ==> final(pool).proxies().contains_key(k)
                && final(pool).proxies()[k] == old(pool).proxies()[k]
            &&& forall|i: int| 0 <= i < snapshots@.len() && (#[trigger] snapshots@[i]).addr is Some
                && first_with_its_addr(snapshots@, i)
                && !old(pool).proxies().contains_key(snapshots@[i].addr->0)
                && !old(pool).cooling_at(now.monotonic_nanos).contains(snapshots@[i].addr->0)
                ==> final(pool).proxies().contains_key(snapshots@[i].addr->0) && is_new_entry(
                    final(pool).proxies()[snapshots@[i].addr->0],
                    snapshots@[i].addr->0,
                    protocol_named(snapshots@[i].protocol@),
                    anonymity_named(snapshots@[i].anonymity@),
                    snapshots@[i].country@,
                    now.wall,
                )
        },
{
    let ghost t = now.monotonic_nanos;
    let ghost roomy = old(pool).proxies().len() + addressed_count(snapshots@) <= old(pool).config().max_pool_size;
    let ghost cool = old(pool).cooling_at(t);
    let ghost max = old(pool).config().max_pool_size;
    let ghost mut states: Seq<Map<ProxyAddr, Proxy>> = seq![old(pool).proxies()];
    let mut count: usize = 0;
    let mut i: usize = 0;
    while i < snapshots.len()
        invariant
            0 <= i <= snapshots@.len(),
            cool == old(pool).cooling_at(t),
            max == old(pool).config().max_pool_size,
            states.len() == i + 1,
            states[0] == old(pool).proxies(),
            states[i as int] == pool.proxies(),
            forall|j: int| 0 <= j < i ==> restore_step(states[j], states[j + 1], #[trigger] snapshots@[j], cool, now.wall, max),
            pool.wf(),
            pool.config() == old(pool).config(),
            t == now.monotonic_nanos,
            roomy == (old(pool).proxies().len() + addressed_count(snapshots@) <= old(pool).config().max_pool_size),
            count == addressed_count(snapshots@.take(i as int)),
            count <= i,
            pool.cooling_at(t) == old(pool).cooling_at(t),
            forall|k: ProxyAddr| #[trigger] pool.proxies().contains_key(k) ==> old(pool).proxies().contains_key(k)
                || exists|j: int| 0 <= j < i && #[trigger] snapshots@[j].addr == Some(k),
            roomy ==> pool.proxies().len() <= old(pool).proxies().len() + count,
            roomy ==> forall|k: ProxyAddr| #[trigger] old(pool).proxies().contains_key(k) ==> pool.proxies().contains_key(k)
                && pool.proxies()[k] == old(pool).proxies()[k],
            roomy ==> forall|j: int| 0 <= j < i && (#[trigger] snapshots@[j]).addr is Some
                && first_with_its_addr(snapshots@, j)
                && !old(pool).proxies().contains_key(snapshots@[j].addr->0)
                && !old(pool).cooling_at(t).contains(snapshots@[j].addr->0)
                ==> pool.proxies().contains_key(snapshots@[j].addr->0) && is_new_entry(
                    pool.proxies()[snapshots@[j].addr->0],
                    snapshots@[j].addr->0,
                    protocol_named(snapshots@[j].protocol@),
                    anonymity_named(snapshots@[j].anonymity@),
                    snapshots@[j].country@,
                    now.wall,
                ),
        decreases snapshots@.len() - i,
    {
        assert(snapshots@.take(i + 1).drop_last() =~= snapshots@.take(i as int));
        proof {
            lemma_addressed_count_prefix(snapshots@, i + 1);
        }
        let s = &snapshots[i];
        let ghost step_before = pool.proxies();
        match s.addr {
            Some(addr) => {
                let protocol = protocol_from_name(s.protocol.as_str());
                let anonymity = anonymity_from_name(s.anonymity.as_str());
                let ghost before = pool.proxies();
                let ghost before_starts = pool.cooling_starts();
                let ghost before_cool = pool.cooling_at(t);
                pool.upsert(addr, protocol, anonymity, s.country.clone(), now);
                assert(pool.cooling_at(t) =~= before_cool);
                assert forall|k: ProxyAddr| #[trigger] pool.proxies().contains_key(k) implies old(pool).proxies().contains_key(k)
                    || exists|j: int| 0 <= j < i + 1 && #[trigger] snapshots@[j].addr == Some(k) by {
                    if k == addr {
                        assert(snapshots@[i as int].addr == Some(k));
                    } else {
                        assert(before.contains_key(k));
                    }
                }
                proof {
                    if roomy {
                        assert(before.len() < old(pool).config().max_pool_size);
                        assert forall|j: int| 0 <= j < i + 1 && (#[trigger] snapshots@[j]).addr is Some
                            && first_with_its_addr(snapshots@, j)
                            && !old(pool).proxies().contains_key(snapshots@[j].addr->0)
                            && !old(pool).cooling_at(t).contains(snapshots@[j].addr->0)
                            implies pool.proxies().contains_key(snapshots@[j].addr->0) && is_new_entry(
                                pool.proxies()[snapshots@[j].addr->0],
                                snapshots@[j].addr->0,
                                protocol_named(snapshots@[j].protocol@),
                                anonymity_named(snapshots@[j].anonymity@),
                                snapshots@[j].country@,
                                now.wall,
                            ) by {
                            if j == i {
                                if before.contains_key(addr) {
                                    let l = choose|l: int| 0 <= l < i && #[trigger] snapshots@[l].addr == Some(addr);
                                    assert(snapshots@[l].addr != snapshots@[j].addr);
                                }
                            } else if snapshots@[j].addr->0 == addr {
                                assert(before.contains_key(addr));
                            }
                        }
                    }
                }
                count = count + 1;
            },
            None => {},
        }
        proof {
            let ghost old_states = states;
            states = states.push(pool.proxies());
            assert(restore_step(states[i as int], states[i + 1], snapshots@[i as int], cool, now.wall, max));
            assert forall|j: int| 0 <= j < i + 1 implies restore_step(states[j], states[j + 1], #[trigger] snapshots@[j], cool, now.wall, max) by {
                if j < i {
                    assert(states[j] == old_states[j] && states[j + 1] == old_states[j + 1]);
                }
            }
        }
        i = i + 1;
    }
    assert(restore_chain(states, snapshots@, cool, now.wall, max));
    assert(snapshots@.take(i as int) =~= snapshots@);
    count
}

} // verus!
