use vstd::prelude::*;
use crate::addr::ProxyAddr;
use crate::clock::{Now, Timestamp};
use crate::config::Config;
use crate::cooldown::{CooldownPool, has_expired};
use crate::proxy::{Anonymity, Protocol, Proxy};
use crate::scorer::{proxy_score_at, recalculate_score};
use crate::select::{lemma_weight_sum_prefix, lemma_weight_sum_take_succ, pick_weighted, sort_by_score_desc, weight_sum};
use crate::table::{
    ProxyTable, proxy_entries, proxy_table_contains, proxy_table_entries, proxy_table_get,
    proxy_table_insert, proxy_table_len, proxy_table_remove, proxy_table_with_capacity,
};

verus! {

/// The size a full pool shrinks to before it takes in one more proxy: a pool
/// below its limit keeps all its proxies, a full one keeps one fewer than the
/// limit.
pub open spec fn kept_size(len: nat, max: usize) -> nat {
    if len < max {
        len
    } else if max == 0 {
        0
    } else {
        (max - 1) as nat
    }
}

/// `p` is the entry that `upsert` makes at `now`: a proxy first seen then and
/// never checked, with the given protocol, anonymity and country, scored as
/// such.
pub open spec fn is_new_entry(
    p: Proxy,
    addr: ProxyAddr,
    protocol: Protocol,
    anonymity: Anonymity,
    country: Seq<char>,
    now: Timestamp,
) -> bool {
    &&& p.addr == addr
    &&& p.protocol == protocol
    &&& p.anonymity == anonymity
    &&& p.country@ == country
    &&& p.total_checks == 0
    &&& p.success_checks == 0
    &&& p.consecutive_failures == 0
    &&& p.avg_latency_us == 0
    &&& p.last_success is None
    &&& !p.in_cooldown
    &&& p.first_seen == now
    &&& p.last_checked == now
    &&& p.score == proxy_score_at(p, None)
}

/// Every entry of `new` but `except` is an entry of `old`.
pub open spec fn entries_kept(old: Map<ProxyAddr, Proxy>, new: Map<ProxyAddr, Proxy>, except: ProxyAddr) -> bool {
    forall|k: ProxyAddr| #[trigger] new.contains_key(k) && k != except ==> old.contains_key(k)
        && new[k] == old[k]
}

/// Every proxy that left `old` on the way to `new` scored no higher than any
/// proxy of `old` that stayed (leaving `except` aside).
pub open spec fn lowest_scored_left(old: Map<ProxyAddr, Proxy>, new: Map<ProxyAddr, Proxy>, except: ProxyAddr) -> bool {
    forall|gone: ProxyAddr, kept: ProxyAddr|
        #![trigger old.contains_key(gone), new.contains_key(kept)]
        old.contains_key(gone) && !new.contains_key(gone) && new.contains_key(kept) && kept != except
            ==> old[gone].score <= old[kept].score
}

/// `after` is what `upsert` makes of the proxies `before` when it offers
/// `addr` with this protocol, anonymity and country at `now`, while the
/// addresses in `cooling` still cool and the pool's limit is `max`: an address
/// present or cooling is skipped; any other is added as a new entry, after
/// the lowest-scored proxies made room.
pub open spec fn upserted(
    before: Map<ProxyAddr, Proxy>,
    after: Map<ProxyAddr, Proxy>,
    addr: ProxyAddr,
    protocol: Protocol,
    anonymity: Anonymity,
    country: Seq<char>,
    now: Timestamp,
    cooling: Set<ProxyAddr>,
    max: usize,
) -> bool {
    if before.contains_key(addr) || cooling.contains(addr) {
        after == before
    } else {
        &&& after.contains_key(addr)
        &&& is_new_entry(after[addr], addr, protocol, anonymity, country, now)
        &&& entries_kept(before, after, addr)
        &&& lowest_scored_left(before, after, addr)
        &&& after.len() == kept_size(before.len(), max) + 1
        &&& before.len() < max ==> after == before.insert(addr, after[addr])
    }
}

/// The addresses of the proxies that are not cooling down.
pub open spec fn active_addrs(m: Map<ProxyAddr, Proxy>) -> Set<ProxyAddr> {
    m.dom().filter(|k: ProxyAddr| !m[k].in_cooldown)
}

/// The proxies after the one at `addr`, if there is one, is marked as cooling
/// down (`cooling` true) or as back from cooldown (`cooling` false).
pub open spec fn with_cooldown_flag(m: Map<ProxyAddr, Proxy>, addr: ProxyAddr, cooling: bool) -> Map<
    ProxyAddr,
    Proxy,
> {
    if m.contains_key(addr) {
        m.insert(addr, Proxy { in_cooldown: cooling, ..m[addr] })
    } else {
        m
    }
}

/// A proxy checked at least five times whose success rate is below the
/// least rate, given in thousandths.
pub open spec fn is_low_quality(p: Proxy, min_rate_permille: u32) -> bool {
    p.total_checks >= 5 && p.success_checks * 1000 < min_rate_permille * p.total_checks
}

/// Whether a proxy counts as low quality depends on its check counters alone,
/// not on whether it cools down: at least five checks and a success rate
/// below the least rate.
pub proof fn lemma_low_quality_by_counters_alone(p: Proxy, q: Proxy, min_rate_permille: u32)
    requires
        p.total_checks == q.total_checks,
        p.success_checks == q.success_checks,
    ensures
        is_low_quality(p, min_rate_permille) == is_low_quality(q, min_rate_permille),
        is_low_quality(p, min_rate_permille) == (p.total_checks >= 5 && 1000 * p.success_checks
            < min_rate_permille * p.total_checks),
{
}

/// Latencies are bounded so that smoothing in one more never overflows.
pub open spec fn latency_bound() -> int {
    (u64::MAX / 8) as int
}

/// Putting a proxy that was not cooling into cooldown and releasing it again
/// leaves the pool's proxies and its cooldown entries as they were.
pub proof fn lemma_release_undoes_cooldown(m: Map<ProxyAddr, Proxy>, cooling: Set<ProxyAddr>, addr: ProxyAddr)
    requires
        !cooling.contains(addr),
        m.contains_key(addr) ==> !m[addr].in_cooldown,
    ensures
        with_cooldown_flag(with_cooldown_flag(m, addr, true), addr, false) == m,
        cooling.insert(addr).remove(addr) == cooling,
{
    if m.contains_key(addr) {
        assert(Proxy { in_cooldown: false, ..Proxy { in_cooldown: true, ..m[addr] } } == m[addr]);
        assert(with_cooldown_flag(with_cooldown_flag(m, addr, true), addr, false) =~= m);
    }
    assert(cooling.insert(addr).remove(addr) =~= cooling);
}

/// No more proxies are active than the pool holds.
pub proof fn lemma_active_at_most_total(m: Map<ProxyAddr, Proxy>)
    requires
        m.dom().finite(),
    ensures
        active_addrs(m).len() <= m.len(),
{
    vstd::set_lib::lemma_len_subset(active_addrs(m), m.dom());
}

/// The pairs that `batch_insert` takes in, in order, walking `entries` from
/// index `i` into a pool that holds the addresses `present`, `count` of them,
/// under a limit of `max`, while the addresses in `cooling` still cool: a
/// pair whose address is present or cooling is passed over, the walk stops at
/// the first other pair that finds the pool full, and every other pair is
/// taken in.
pub open spec fn batch_added(
    entries: Seq<(ProxyAddr, Protocol)>,
    i: int,
    present: Set<ProxyAddr>,
    count: int,
    cooling: Set<ProxyAddr>,
    max: int,
) -> Seq<(ProxyAddr, Protocol)>
    decreases entries.len() - i,
{
    if i < 0 || i >= entries.len() {
        Seq::empty()
    } else if present.contains(entries[i].0) || cooling.contains(entries[i].0) {
        batch_added(entries, i + 1, present, count, cooling, max)
    } else if count >= max {
        Seq::empty()
    } else {
        seq![entries[i]] + batch_added(entries, i + 1, present.insert(entries[i].0), count + 1, cooling, max)
    }
}

/// A pair whose address is present or still cooling is passed over, not a
/// stop: the walk takes in from it what it takes in from the next pair.
pub proof fn lemma_batch_passes_over_known_and_cooling(
    entries: Seq<(ProxyAddr, Protocol)>,
    i: int,
    present: Set<ProxyAddr>,
    count: int,
    cooling: Set<ProxyAddr>,
    max: int,
)
    requires
        0 <= i < entries.len(),
        present.contains(entries[i].0) || cooling.contains(entries[i].0),
    ensures
        batch_added(entries, i, present, count, cooling, max) == batch_added(entries, i + 1, present, count, cooling, max),
{
}

/// With room for every pair, each pair from index `i` on whose address is
/// neither present nor cooling is taken in (its first pair, at least).
pub proof fn lemma_batch_takes_in_all_when_roomy(
    entries: Seq<(ProxyAddr, Protocol)>,
    i: int,
    present: Set<ProxyAddr>,
    count: int,
    cooling: Set<ProxyAddr>,
    max: int,
)
    requires
        0 <= i <= entries.len(),
        count + (entries.len() - i) <= max,
    ensures
        forall|j: int| i <= j < entries.len() && !present.contains(#[trigger] entries[j].0) && !cooling.contains(entries[j].0)
            ==> exists|k: int| 0 <= k < batch_added(entries, i, present, count, cooling, max).len()
            && #[trigger] batch_added(entries, i, present, count, cooling, max)[k].0 == entries[j].0,
    decreases entries.len() - i,
{
    if i < entries.len() {
        let a = entries[i].0;
        let r = batch_added(entries, i, present, count, cooling, max);
        if present.contains(a) || cooling.contains(a) {
            lemma_batch_takes_in_all_when_roomy(entries, i + 1, present, count, cooling, max);
            assert forall|j: int| i <= j < entries.len() && !present.contains(#[trigger] entries[j].0) && !cooling.contains(
                entries[j].0) implies exists|k: int| 0 <= k < r.len() && #[trigger] r[k].0 == entries[j].0 by {
                assert(j != i);
            }
        } else {
            let rest = batch_added(entries, i + 1, present.insert(a), count + 1, cooling, max);
            lemma_batch_takes_in_all_when_roomy(entries, i + 1, present.insert(a), count + 1, cooling, max);
            assert(r == seq![entries[i]] + rest);
            assert forall|j: int| i <= j < entries.len() && !present.contains(#[trigger] entries[j].0) && !cooling.contains(
                entries[j].0) implies exists|k: int| 0 <= k < r.len() && #[trigger] r[k].0 == entries[j].0 by {
                if entries[j].0 == a {
                    assert(r[0].0 == entries[j].0);
                } else {
                    assert(j != i);
                    assert(!present.insert(a).contains(entries[j].0));
                    let k = choose|k: int| 0 <= k < rest.len() && #[trigger] rest[k].0 == entries[j].0;
                    assert(r[k + 1] == rest[k]);
                }
            }
        }
    }
}

/// The scores of the proxies, in order.
pub open spec fn scores_of(v: Seq<Proxy>) -> Seq<u64> {
    v.map_values(|p: Proxy| p.score)
}

/// `v` lists each proxy of `m` that is not cooling down, once.
pub open spec fn lists_active(m: Map<ProxyAddr, Proxy>, v: Seq<Proxy>) -> bool {
    &&& v.len() == active_addrs(m).len()
    &&& forall|i: int| 0 <= i < v.len() ==> #[trigger] m.contains_key(v[i].addr) && m[v[i].addr] == v[i]
        && !v[i].in_cooldown
    &&& forall|i: int, j: int| 0 <= i < j < v.len() ==> #[trigger] v[i].addr != #[trigger] v[j].addr
    &&& forall|a: ProxyAddr| #[trigger] active_addrs(m).contains(a) ==> exists|i: int| 0 <= i < v.len()
        && #[trigger] v[i].addr == a
}

/// Index `i` of the weights `w` is the one a draw picks: laid out weight after
/// weight on the line `0..sum`, the draw taken modulo the sum falls in the
/// share of `i`; when every weight is zero, the draw taken modulo the number
/// of weights is `i`.
pub open spec fn picked_at(w: Seq<u64>, draw: u64, i: int) -> bool {
    &&& 0 <= i < w.len()
    &&& if weight_sum(w) > 0 {
        weight_sum(w.take(i)) <= (draw as int) % weight_sum(w) < weight_sum(w.take(i + 1))
    } else {
        i == (draw as int) % (w.len() as int)
    }
}

/// `v` lists the active proxies of `m`, and the draw picks its `i`-th one by
/// score.
pub open spec fn drawn_from(m: Map<ProxyAddr, Proxy>, v: Seq<Proxy>, draw: u64, i: int) -> bool {
    lists_active(m, v) && picked_at(scores_of(v), draw, i)
}

/// A draw picks a proxy that scores zero only when every proxy that is not
/// cooling down scores zero.
pub proof fn lemma_zero_pick_only_among_zeros(m: Map<ProxyAddr, Proxy>, v: Seq<Proxy>, draw: u64, i: int)
    requires
        drawn_from(m, v, draw, i),
        v[i].score == 0,
    ensures
        forall|k: ProxyAddr| #[trigger] active_addrs(m).contains(k) ==> m[k].score == 0,
{
    let w = scores_of(v);
    if weight_sum(w) > 0 {
        lemma_weight_sum_take_succ(w, i);
    }
    lemma_weight_sum_prefix(w, w.len() as int);
    assert(w.take(w.len() as int) =~= w);
    assert forall|k: ProxyAddr| #[trigger] active_addrs(m).contains(k) implies m[k].score == 0 by {
        let j = choose|j: int| 0 <= j < v.len() && #[trigger] v[j].addr == k;
        assert(m.contains_key(v[j].addr));
        assert(w[j] == v[j].score);
    }
}

/// Picks one of the proxies by `draw`, a number drawn uniformly at random:
/// with odds proportional to the scores, or, when every score is zero, with
/// even odds. The index picked is the one `picked_at` names for these scores
/// and this draw; None for no proxies.
pub fn pick_from(active: &Vec<Proxy>, draw: u64) -> (r: Option<usize>)
    ensures
        r is None <==> active@.len() == 0,
        r matches Some(i) ==> picked_at(scores_of(active@), draw, i as int),
{
    if active.len() == 0 {
        return None;
    }
    let mut weights: Vec<u64> = Vec::new();
    let mut total: u128 = 0;
    let mut i: usize = 0;
    assert(weights@.take(0) =~= Seq::<u64>::empty());
    while i < active.len()
        invariant
            0 <= i <= active@.len(),
            weights@.len() == i,
            forall|j: int| 0 <= j < i ==> #[trigger] weights@[j] == active@[j].score,
            total == weight_sum(weights@),
            total <= i * 18446744073709551615,
        decreases active@.len() - i,
    {
        let ghost before = weights@;
        let w = active[i].score;
        weights.push(w);
        proof {
            assert(weights@.drop_last() =~= before);
            assert(total + w <= (i + 1) * 18446744073709551615);
            assert((i + 1) * 18446744073709551615 <= 18446744073709551616 * 18446744073709551615)
                by (nonlinear_arith)
                requires i + 1 <= 18446744073709551616;
        }
        total = total + w as u128;
        i = i + 1;
    }
    assert(weights@ =~= scores_of(active@));
    if total == 0 {
        Some((draw % (active.len() as u64)) as usize)
    } else {
        let reduced: u128 = (draw as u128) % total;
        Some(pick_weighted(&weights, reduced))
    }
}

/// The pool of proxies, by address, and the addresses that cool down.
pub struct ProxyPool {
    proxies: ProxyTable,
    cooldown: CooldownPool,
    config: Config,
}

impl ProxyPool {
    /// The proxies of the pool, by address.
    pub closed spec fn proxies(&self) -> Map<ProxyAddr, Proxy> {
        proxy_entries(self.proxies)
    }

    /// The cooldown entries: each address put aside, with the reading of the
    /// monotonic clock, in nanoseconds, at which it began to cool. An entry
    /// whose time to live has run out stays until it is looked at or evicted.
    pub closed spec fn cooling_starts(&self) -> Map<ProxyAddr, u64> {
        self.cooldown.starts()
    }

    /// The addresses with a cooldown entry.
    pub open spec fn cooling(&self) -> Set<ProxyAddr> {
        self.cooling_starts().dom()
    }

    /// The addresses still cooling at the clock reading `now`: less than the
    /// cooldown time to live of the settings has passed since they began.
    pub open spec fn cooling_at(&self, now: u64) -> Set<ProxyAddr> {
        self.cooling().filter(
            |a: ProxyAddr| !has_expired(self.cooling_starts()[a], now, self.config().cooldown_ttl_secs),
        )
    }

    /// The settings the pool was made with.
    pub closed spec fn config(&self) -> Config {
        self.config
    }

    /// The pool holds finitely many proxies, each under its own address and
    /// scored between 0 and 10000, and its cooldown entries live as long as
    /// the settings say.
    pub closed spec fn wf(&self) -> bool {
        &&& self.proxies().dom().finite()
        &&& self.cooldown.wf()
        &&& self.cooldown.ttl() == self.config.cooldown_ttl_secs
        &&& forall|k: ProxyAddr| #[trigger] self.proxies().contains_key(k) ==> self.proxies()[k].addr
            == k && self.proxies()[k].score <= 10000 && self.proxies()[k].avg_latency_us
            <= latency_bound()
        &&& self.config.max_pool_size >= 1 ==> self.proxies().len() <= self.config.max_pool_size
    }

    /// A pool holds finitely many proxies and cooldown entries; each proxy is
    /// stored under its own address and scores between 0 and 10000.
    pub proof fn lemma_wf_facts(&self)
        requires
            self.wf(),
        ensures
            self.proxies().dom().finite(),
            self.cooling().finite(),
            forall|k: ProxyAddr| #[trigger] self.proxies().contains_key(k) ==> self.proxies()[k].addr == k
                && self.proxies()[k].score <= 10000,
    {
    }

    /// A pool whose limit is at least one never holds more proxies than its
    /// limit, whatever was done to it.
    pub proof fn lemma_within_capacity(&self)
        requires
            self.wf(),
            self.config().max_pool_size >= 1,
        ensures
            self.proxies().len() <= self.config().max_pool_size,
    {
    }

    /// An empty pool with these settings. Room is reserved up front for as
    /// many proxies as the limit allows, up to 2^20; a larger pool grows as it
    /// fills.
    pub fn new(config: Config) -> (pool: ProxyPool)
        ensures
            pool.wf(),
            pool.proxies().dom() == Set::<ProxyAddr>::empty(),
            pool.cooling() == Set::<ProxyAddr>::empty(),
            pool.config() == config,
    {
        let reserve = if config.max_pool_size <= 1_048_576 { config.max_pool_size } else { 1_048_576 };
        let proxies = proxy_table_with_capacity(reserve);
        let cooldown = CooldownPool::new(config.cooldown_ttl_secs);
        ProxyPool { proxies, cooldown, config }
    }

    /// Adds a proxy with the given protocol, anonymity and country, first seen
    /// at `now`, unless its address is already in the pool or still cooling;
    /// a cooldown entry of the address whose time to live has run out is
    /// dropped on the way. A full pool first drops its lowest-scored proxies
    /// until there is room for one more.
    #[verifier::spinoff_prover]
    pub fn upsert(&mut self, addr: ProxyAddr, protocol: Protocol, anonymity: Anonymity, country: String, now: Now)
        requires
            old(self).wf(),
        ensures
            final(self).wf(),
            final(self).config() == old(self).config(),
            upserted(
                old(self).proxies(),
                final(self).proxies(),
                addr,
                protocol,
                anonymity,
                country@,
                now.wall,
                old(self).cooling_at(now.monotonic_nanos),
                old(self).config().max_pool_size,
            ),
            // The only change to the cooldown entries: one of the address that ran out leaves.
            final(self).cooling_starts() == if old(self).cooling_at(now.monotonic_nanos).contains(addr) {
                old(self).cooling_starts()
            } else {
                old(self).cooling_starts().remove(addr)
            },
    {
        if self.cooldown.is_cooling(&addr, now.monotonic_nanos) || proxy_table_contains(&self.proxies, &addr) {
            return;
        }
        let ghost start = self.proxies();
        let max = self.config.max_pool_size;
        while proxy_table_len(&self.proxies) >= max
            invariant
                self.wf(),
                self.config == old(self).config,
                self.cooling_starts() == old(self).cooling_starts().remove(addr),
                max == self.config.max_pool_size,
                start == old(self).proxies(),
                !start.contains_key(addr),
                forall|k: ProxyAddr| #[trigger] self.proxies().contains_key(k) ==> start.contains_key(k)
                    && self.proxies()[k] == start[k],
                lowest_scored_left(start, self.proxies(), addr),
                self.proxies().len() <= start.len(),
                self.proxies().len() < start.len() ==> start.len() >= max,
                self.proxies().len() < start.len() ==> self.proxies().len() + 1 >= max,
                start.len() < max ==> self.proxies() == start,
            ensures
                self.proxies().len() < max || self.proxies().len() == 0,
            decreases self.proxies().len(),
        {
            match self.find_worst_proxy() {
                Some(worst) => {
                    let ghost before = self.proxies();
                    proxy_table_remove(&mut self.proxies, &worst);
                    assert(self.proxies().len() + 1 == before.len());
                    assert forall|gone: ProxyAddr, kept: ProxyAddr|
                        #![trigger start.contains_key(gone), self.proxies().contains_key(kept)]
                        start.contains_key(gone) && !self.proxies().contains_key(gone)
                            && self.proxies().contains_key(kept) && kept != addr
                        implies start[gone].score <= start[kept].score by {
                        if before.contains_key(gone) {
                            assert(gone == worst);
                            assert(before.contains_key(kept));
                        } else {
                            assert(before.contains_key(kept));
                        }
                    }
                },
                None => {
                    break;
                },
            }
        }
        let ghost kept_map = self.proxies();
        let mut proxy = Proxy::new(addr, protocol, now.wall);
        proxy.anonymity = anonymity;
        proxy.country = country;
        recalculate_score(&mut proxy, now.wall);
        proxy_table_insert(&mut self.proxies, addr, proxy);
        assert(self.proxies().len() == kept_map.len() + 1);
        assert(kept_map.len() == kept_size(start.len(), max));
    }

    /// Adds each (address, protocol) pair in turn as a proxy first seen at
    /// `now`, skipping addresses already present or still cooling, and stops
    /// at the first pair that finds the pool full. Returns how many were added.
    #[verifier::spinoff_prover]
    pub fn batch_insert(&mut self, entries: Vec<(ProxyAddr, Protocol)>, now: Now) -> (added: usize)
        requires
            old(self).wf(),
        ensures
            final(self).wf(),
            final(self).config() == old(self).config(),
            ({
                let acc = batch_added(
                    entries@,
                    0,
                    old(self).proxies().dom(),
                    old(self).proxies().len() as int,
                    old(self).cooling_at(now.monotonic_nanos),
                    old(self).config().max_pool_size as int,
                );
                &&& added == acc.len()
                // The pool holds what it held and the addresses of the pairs taken in.
                &&& forall|k: ProxyAddr| #[trigger] final(self).proxies().contains_key(k) <==> old(self).proxies().contains_key(k)
                    || exists|j: int| 0 <= j < acc.len() && #[trigger] acc[j].0 == k
                // Nothing present is changed.
                &&& forall|k: ProxyAddr| #[trigger] old(self).proxies().contains_key(k) ==> final(self).proxies()[k]
                    == old(self).proxies()[k]
                // Each pair taken in is an unchecked proxy with its protocol.
                &&& forall|j: int| 0 <= j < acc.len() ==> is_new_entry(
                    final(self).proxies()[#[trigger] acc[j].0], acc[j].0, acc[j].1, Anonymity::Unknown, Seq::empty(), now.wall)
            }),
            added == final(self).proxies().len() - old(self).proxies().len(),
            // With room for every pair, every address neither present nor still
            // cooling is taken in; the cooling ones are passed over.
            old(self).proxies().len() + entries@.len() <= old(self).config().max_pool_size ==> forall|j: int|
                0 <= j < entries@.len() && !old(self).proxies().contains_key(#[trigger] entries@[j].0)
                && !old(self).cooling_at(now.monotonic_nanos).contains(entries@[j].0)
                ==> final(self).proxies().contains_key(entries@[j].0),
            // The pool grows no further than its limit.
            old(self).proxies().len() <= old(self).config().max_pool_size ==> final(self).proxies().len()
                <= old(self).config().max_pool_size,
            // Cooldown entries only leave, and none that still cools.
            forall|k: ProxyAddr| #[trigger] final(self).cooling_starts().contains_key(k) ==> old(self).cooling_starts().contains_key(k)
                && final(self).cooling_starts()[k] == old(self).cooling_starts()[k],
            old(self).cooling_at(now.monotonic_nanos).subset_of(final(self).cooling()),
    {
        let ghost start = self.proxies();
        let ghost t = now.monotonic_nanos;
        let ghost cool = old(self).cooling_at(t);
        let ghost max_i = self.config.max_pool_size as int;
        let ghost total = batch_added(entries@, 0, start.dom(), start.len() as int, cool, max_i);
        let ghost mut acc: Seq<(ProxyAddr, Protocol)> = Seq::empty();
        let max = self.config.max_pool_size;
        let mut added: usize = 0;
        let mut i: usize = 0;
        assert(acc + total =~= total);
        while i < entries.len()
            invariant
                0 <= i <= entries@.len(),
                self.wf(),
                self.config == old(self).config,
                max == self.config.max_pool_size,
                max_i == max as int,
                start == old(self).proxies(),
                cool == old(self).cooling_at(t),
                t == now.monotonic_nanos,
                total == batch_added(entries@, 0, start.dom(), start.len() as int, cool, max_i),
                acc + batch_added(entries@, i as int, self.proxies().dom(), self.proxies().len() as int, cool, max_i)
                    == total,
                added == acc.len(),
                added + start.len() == self.proxies().len(),
                forall|k: ProxyAddr| #[trigger] start.contains_key(k) ==> self.proxies().contains_key(k)
                    && self.proxies()[k] == start[k],
                forall|k: ProxyAddr| #[trigger] self.proxies().contains_key(k) <==> start.contains_key(k)
                    || exists|j: int| 0 <= j < acc.len() && #[trigger] acc[j].0 == k,
                forall|j: int| 0 <= j < acc.len() ==> #[trigger] is_new_entry(
                    self.proxies()[acc[j].0], acc[j].0, acc[j].1, Anonymity::Unknown, Seq::empty(), now.wall),
                forall|j: int| 0 <= j < acc.len() ==> !start.contains_key(#[trigger] acc[j].0),
                start.len() <= max ==> self.proxies().len() <= max,
                forall|k: ProxyAddr| #[trigger] self.cooling_starts().contains_key(k) ==> old(self).cooling_starts().contains_key(k)
                    && self.cooling_starts()[k] == old(self).cooling_starts()[k],
                cool.subset_of(self.cooling()),
            ensures
                acc == total,
            decreases entries@.len() - i,
        {
            let addr = entries[i].0;
            let protocol = entries[i].1;
            let ghost present = self.proxies().dom();
            let ghost count = self.proxies().len() as int;
            let ghost rest = batch_added(entries@, i as int, present, count, cool, max_i);
            let cooling = self.cooldown.is_cooling(&addr, now.monotonic_nanos);
            assert(cooling == cool.contains(addr)) by {
                if old(self).cooling_starts().contains_key(addr) && self.cooling_starts().contains_key(addr) {
                    assert(self.cooling_starts()[addr] == old(self).cooling_starts()[addr]);
                }
            }
            if cooling || proxy_table_contains(&self.proxies, &addr) {
                assert(rest == batch_added(entries@, i + 1, present, count, cool, max_i));
                i = i + 1;
                continue;
            }
            if proxy_table_len(&self.proxies) >= max {
                assert(rest =~= Seq::<(ProxyAddr, Protocol)>::empty());
                assert(acc + rest =~= acc);
                break;
            }
            let ghost before = self.proxies();
            let proxy = Proxy::new(addr, protocol, now.wall);
            let mut proxy = proxy;
            recalculate_score(&mut proxy, now.wall);
            proxy_table_insert(&mut self.proxies, addr, proxy);
            let ghost next = batch_added(entries@, i + 1, present.insert(addr), count + 1, cool, max_i);
            assert(rest == seq![entries@[i as int]] + next);
            assert(self.proxies().dom() =~= present.insert(addr));
            assert(self.proxies().len() == count + 1);
            let ghost old_acc = acc;
            proof {
                acc = acc.push(entries@[i as int]);
                assert(acc + next =~= old_acc + rest);
                assert(acc[acc.len() - 1] == entries@[i as int]);
                assert forall|j: int| 0 <= j < acc.len() implies #[trigger] is_new_entry(
                    self.proxies()[acc[j].0], acc[j].0, acc[j].1, Anonymity::Unknown, Seq::empty(), now.wall) by {
                    if j < old_acc.len() {
                        assert(acc[j] == old_acc[j]);
                        assert(before.contains_key(old_acc[j].0));
                    }
                }
                assert forall|k: ProxyAddr| #[trigger] self.proxies().contains_key(k) <==> start.contains_key(k)
                    || exists|j: int| 0 <= j < acc.len() && #[trigger] acc[j].0 == k by {
                    if k == addr {
                        assert(acc[acc.len() - 1].0 == k);
                    } else {
                        if exists|j: int| 0 <= j < acc.len() && #[trigger] acc[j].0 == k {
                            let j = choose|j: int| 0 <= j < acc.len() && #[trigger] acc[j].0 == k;
                            assert(j < old_acc.len());
                            assert(old_acc[j].0 == k);
                        }
                        if before.contains_key(k) && !start.contains_key(k) {
                            let j = choose|j: int| 0 <= j < old_acc.len() && #[trigger] old_acc[j].0 == k;
                            assert(acc[j].0 == k);
                        }
                    }
                }
                assert forall|j: int| 0 <= j < acc.len() implies !start.contains_key(#[trigger] acc[j].0) by {
                    if j < old_acc.len() {
                        assert(acc[j] == old_acc[j]);
                    }
                }
            }
            added = added + 1;
            i = i + 1;
        }
        proof {
            if i == entries.len() {
                assert(batch_added(entries@, i as int, self.proxies().dom(), self.proxies().len() as int, cool, max_i)
                    =~= Seq::<(ProxyAddr, Protocol)>::empty());
                assert(acc + Seq::<(ProxyAddr, Protocol)>::empty() =~= acc);
            }
            if start.len() + entries@.len() <= max {
                lemma_batch_takes_in_all_when_roomy(entries@, 0, start.dom(), start.len() as int, cool, max_i);
                assert forall|j: int| 0 <= j < entries@.len() && !start.contains_key(#[trigger] entries@[j].0)
                    && !cool.contains(entries@[j].0) implies self.proxies().contains_key(entries@[j].0) by {
                    let k = choose|k: int| 0 <= k < total.len() && #[trigger] total[k].0 == entries@[j].0;
                    assert(acc[k].0 == entries@[j].0);
                }
            }
        }
        added
    }

    /// Drops a proxy from the pool and from cooldown.
    pub fn remove(&mut self, addr: &ProxyAddr)
        requires
            old(self).wf(),
        ensures
            final(self).wf(),
            final(self).config() == old(self).config(),
            final(self).proxies() == old(self).proxies().remove(*addr),
            final(self).cooling_starts() == old(self).cooling_starts().remove(*addr),
    {
        proxy_table_remove(&mut self.proxies, addr);
        self.cooldown.remove(addr);
    }

    /// Puts a proxy into cooldown from `now` on: marks it as cooling, if it is
    /// in the pool, and records the address in the cooldown pool.
    pub fn cooldown(&mut self, addr: &ProxyAddr, now: Now)
        requires
            old(self).wf(),
        ensures
            final(self).wf(),
            final(self).config() == old(self).config(),
            final(self).proxies() == with_cooldown_flag(old(self).proxies(), *addr, true),
            final(self).cooling_starts() == old(self).cooling_starts().insert(*addr, now.monotonic_nanos),
    {
        match proxy_table_get(&self.proxies, addr) {
            Some(p) => {
                let marked = Proxy { in_cooldown: true, ..p };
                proxy_table_insert(&mut self.proxies, *addr, marked);
            },
            None => {},
        }
        self.cooldown.put(*addr, now.monotonic_nanos);
    }

    /// Takes a proxy out of cooldown: drops its cooldown entry and, if it is
    /// in the pool, marks it as active again.
    pub fn release_cooldown(&mut self, addr: &ProxyAddr)
        requires
            old(self).wf(),
        ensures
            final(self).wf(),
            final(self).config() == old(self).config(),
            final(self).proxies() == with_cooldown_flag(old(self).proxies(), *addr, false),
            final(self).cooling_starts() == old(self).cooling_starts().remove(*addr),
    {
        self.cooldown.remove(addr);
        match proxy_table_get(&self.proxies, addr) {
            Some(p) => {
                let released = Proxy { in_cooldown: false, ..p };
                proxy_table_insert(&mut self.proxies, *addr, released);
            },
            None => {},
        }
    }

    /// A copy of the proxy stored under the address, if any.
    pub fn get(&self, addr: &ProxyAddr) -> (r: Option<Proxy>)
        ensures
            r is Some <==> self.proxies().contains_key(*addr),
            r matches Some(p) ==> p == self.proxies()[*addr],
            self.wf() ==> (r matches Some(p) ==> p.addr == *addr && p.score <= 10000 && p.avg_latency_us
                <= latency_bound()),
    {
        proxy_table_get(&self.proxies, addr)
    }

    /// Stores new statistics for a proxy of the pool; a proxy that is no
    /// longer in the pool is not added back.
    pub fn update(&mut self, proxy: Proxy)
        requires
            old(self).wf(),
            proxy.score <= 10000,
            proxy.avg_latency_us <= latency_bound(),
        ensures
            final(self).wf(),
            final(self).config() == old(self).config(),
            final(self).cooling_starts() == old(self).cooling_starts(),
            final(self).proxies() == if old(self).proxies().contains_key(proxy.addr) {
                old(self).proxies().insert(proxy.addr, proxy)
            } else {
                old(self).proxies()
            },
    {
        if proxy_table_contains(&self.proxies, &proxy.addr) {
            let addr = proxy.addr;
            proxy_table_insert(&mut self.proxies, addr, proxy);
        }
    }

    /// Every proxy of the pool with its address, each once, in no set order.
    pub fn iter_all(&self) -> (v: Vec<(ProxyAddr, Proxy)>)
        ensures
            v@.len() == self.proxies().len(),
            forall|i: int| 0 <= i < v@.len() ==> #[trigger] self.proxies().contains_key(v@[i].0)
                && self.proxies()[v@[i].0] == v@[i].1,
            forall|i: int, j: int| 0 <= i < j < v@.len() ==> #[trigger] v@[i].0 != #[trigger] v@[j].0,
            forall|a: ProxyAddr| #[trigger] self.proxies().contains_key(a) ==> exists|i: int|
                0 <= i < v@.len() && #[trigger] v@[i].0 == a,
    {
        proxy_table_entries(&self.proxies)
    }

    /// The number of proxies in the pool.
    pub fn total_count(&self) -> (n: usize)
        ensures
            n == self.proxies().len(),
    {
        proxy_table_len(&self.proxies)
    }

    /// The number of proxies that are not cooling down.
    pub fn active_count(&self) -> (n: usize)
        requires
            self.wf(),
        ensures
            n == active_addrs(self.proxies()).len(),
    {
        let active = self.active_proxies();
        active.len()
    }

    /// The number of addresses still cooling at `now`.
    pub fn cooldown_count(&self, now: Now) -> (n: usize)
        requires
            self.wf(),
        ensures
            n == self.cooling_at(now.monotonic_nanos).len(),
    {
        let n = self.cooldown.len(now.monotonic_nanos);
        assert(self.cooling_at(now.monotonic_nanos) =~= self.cooldown.cooling_at(now.monotonic_nanos));
        n
    }

    /// Evicts every proxy checked at least five times whose success rate is
    /// below the least rate of the settings. Returns how many.
    #[verifier::spinoff_prover]
    pub fn evict_low_quality(&mut self) -> (evicted: usize)
        requires
            old(self).wf(),
        ensures
            final(self).wf(),
            final(self).config() == old(self).config(),
            final(self).cooling_starts() == old(self).cooling_starts(),
            forall|k: ProxyAddr| #[trigger] final(self).proxies().contains_key(k) <==> old(self).proxies().contains_key(k)
                && !is_low_quality(old(self).proxies()[k], old(self).config().min_success_rate_permille),
            // Evicted are exactly the proxies checked at least five times whose
            // success rate is below the least rate, cooling down or not.
            forall|k: ProxyAddr| #[trigger] old(self).proxies().contains_key(k) ==> (final(self).proxies().contains_key(k)
                <==> !(old(self).proxies()[k].total_checks >= 5 && 1000 * old(self).proxies()[k].success_checks
                < old(self).config().min_success_rate_permille * old(self).proxies()[k].total_checks)),
            forall|k: ProxyAddr| #[trigger] final(self).proxies().contains_key(k) ==> final(self).proxies()[k]
                == old(self).proxies()[k],
            evicted == old(self).proxies().len() - final(self).proxies().len(),
    {
        let ghost start = self.proxies();
        let rate = self.config.min_success_rate_permille;
        let entries = proxy_table_entries(&self.proxies);
        let mut evicted: usize = 0;
        let mut i: usize = 0;
        while i < entries.len()
            invariant
                0 <= i <= entries@.len(),
                self.wf(),
                self.config == old(self).config,
                self.cooling_starts() == old(self).cooling_starts(),
                rate == self.config.min_success_rate_permille,
                start == old(self).proxies(),
                entries@.len() == start.len(),
                forall|j: int| 0 <= j < entries@.len() ==> #[trigger] start.contains_key(entries@[j].0)
                    && start[entries@[j].0] == entries@[j].1,
                forall|j: int, l: int| 0 <= j < l < entries@.len() ==> #[trigger] entries@[j].0
                    != #[trigger] entries@[l].0,
                forall|k: ProxyAddr| #[trigger] self.proxies().contains_key(k) <==> start.contains_key(k)
                    && !(exists|j: int| 0 <= j < i && #[trigger] entries@[j].0 == k && is_low_quality(
                    entries@[j].1, rate)),
                forall|k: ProxyAddr| #[trigger] self.proxies().contains_key(k) ==> self.proxies()[k] == start[k],
                evicted + self.proxies().len() == start.len(),
            decreases entries@.len() - i,
        {
            let addr = entries[i].0;
            let total = entries[i].1.total_checks;
            let success = entries[i].1.success_checks;
            let ghost before = self.proxies();
            assert((rate as u128) * (total as u128) <= (u32::MAX as u128) * (u64::MAX as u128))
                by (nonlinear_arith)
                requires rate <= u32::MAX, total <= u64::MAX;
            if total >= 5 && (success as u128) * 1000 < (rate as u128) * (total as u128) {
                assert(before.contains_key(addr)) by {
                    assert(start.contains_key(entries@[i as int].0));
                    if exists|j: int| 0 <= j < i && #[trigger] entries@[j].0 == addr && is_low_quality(
                        entries@[j].1, rate) {
                        let j = choose|j: int| 0 <= j < i && #[trigger] entries@[j].0 == addr && is_low_quality(
                            entries@[j].1, rate);
                        assert(entries@[j].0 != entries@[i as int].0);
                    }
                }
                proxy_table_remove(&mut self.proxies, &addr);
                evicted = evicted + 1;
                assert forall|k: ProxyAddr| #[trigger] self.proxies().contains_key(k) <==> start.contains_key(k)
                    && !(exists|j: int| 0 <= j < i + 1 && #[trigger] entries@[j].0 == k && is_low_quality(
                    entries@[j].1, rate)) by {
                    if k == addr {
                        assert(entries@[i as int].0 == k);
                    }
                }
            } else {
                assert forall|k: ProxyAddr| #[trigger] self.proxies().contains_key(k) <==> start.contains_key(k)
                    && !(exists|j: int| 0 <= j < i + 1 && #[trigger] entries@[j].0 == k && is_low_quality(
                    entries@[j].1, rate)) by {
                    if exists|j: int| 0 <= j < i + 1 && #[trigger] entries@[j].0 == k && is_low_quality(
                        entries@[j].1, rate) {
                        let j = choose|j: int| 0 <= j < i + 1 && #[trigger] entries@[j].0 == k && is_low_quality(
                            entries@[j].1, rate);
                        assert(j != i);
                    }
                }
            }
            i = i + 1;
        }
        assert forall|k: ProxyAddr| #[trigger] self.proxies().contains_key(k) <==> start.contains_key(k)
            && !is_low_quality(start[k], rate) by {
            if start.contains_key(k) {
                let j = choose|j: int| 0 <= j < entries@.len() && #[trigger] entries@[j].0 == k;
                assert(start.contains_key(entries@[j].0));
            }
        }
        evicted
    }

    /// Ends the cooldowns whose time to live has run out at `now`: each such
    /// proxy is evicted from the pool, and its cooldown entry dropped. Returns
    /// how many cooldowns ended.
    #[verifier::spinoff_prover]
    pub fn evict_expired_cooldowns(&mut self, now: Now) -> (evicted: usize)
        requires
            old(self).wf(),
        ensures
            final(self).wf(),
            final(self).config() == old(self).config(),
            final(self).cooling_starts() == old(self).cooling_starts().restrict(old(self).cooling_at(now.monotonic_nanos)),
            forall|k: ProxyAddr| #[trigger] final(self).proxies().contains_key(k) <==> old(self).proxies().contains_key(k)
                && !(old(self).cooling().contains(k) && !old(self).cooling_at(now.monotonic_nanos).contains(k)),
            forall|k: ProxyAddr| #[trigger] final(self).proxies().contains_key(k) ==> final(self).proxies()[k]
                == old(self).proxies()[k],
            evicted == old(self).cooling().len() - final(self).cooling().len(),
    {
        let ghost start = self.proxies();
        let ghost cool = old(self).cooling_at(now.monotonic_nanos);
        let gone = self.cooldown.take_expired(now.monotonic_nanos);
        assert(cool =~= old(self).cooldown.cooling_at(now.monotonic_nanos));
        let mut i: usize = 0;
        while i < gone.len()
            invariant
                0 <= i <= gone@.len(),
                self.wf(),
                self.config == old(self).config,
                self.cooling_starts() == old(self).cooling_starts().restrict(cool),
                start == old(self).proxies(),
                cool == old(self).cooling_at(now.monotonic_nanos),
                forall|a: ProxyAddr| #[trigger] gone@.contains(a) <==> old(self).cooling().contains(a) && !cool.contains(a),
                forall|k: ProxyAddr| #[trigger] self.proxies().contains_key(k) <==> start.contains_key(k)
                    && !(exists|j: int| 0 <= j < i && #[trigger] gone@[j] == k),
                forall|k: ProxyAddr| #[trigger] self.proxies().contains_key(k) ==> self.proxies()[k] == start[k],
            decreases gone@.len() - i,
        {
            let addr = gone[i];
            proxy_table_remove(&mut self.proxies, &addr);
            assert forall|k: ProxyAddr| #[trigger] self.proxies().contains_key(k) <==> start.contains_key(k)
                && !(exists|j: int| 0 <= j < i + 1 && #[trigger] gone@[j] == k) by {
                if exists|j: int| 0 <= j < i + 1 && #[trigger] gone@[j] == k {
                    let j = choose|j: int| 0 <= j < i + 1 && #[trigger] gone@[j] == k;
                    if j < i {
                        assert(exists|j: int| 0 <= j < i && #[trigger] gone@[j] == k);
                    }
                }
                if k == addr {
                    assert(gone@[i as int] == k);
                }
            }
            i = i + 1;
        }
        assert forall|k: ProxyAddr| #[trigger] self.proxies().contains_key(k) <==> start.contains_key(k)
            && !(old(self).cooling().contains(k) && !cool.contains(k)) by {
            if gone@.contains(k) {
                let j = choose|j: int| 0 <= j < gone@.len() && gone@[j] == k;
                assert(gone@[j] == k);
            }
            if exists|j: int| 0 <= j < i && #[trigger] gone@[j] == k {
                let j = choose|j: int| 0 <= j < i && #[trigger] gone@[j] == k;
                assert(gone@.contains(gone@[j]));
            }
        }
        gone.len()
    }

    /// The proxies that are not cooling down, highest score first, at most
    /// `limit` of them: a best-scored selection.
    #[verifier::spinoff_prover]
    pub fn active_snapshots(&self, limit: Option<usize>) -> (r: Vec<Proxy>)
        requires
            self.wf(),
        ensures
            r@.len() == match limit {
                Some(n) => if n < active_addrs(self.proxies()).len() { n as nat } else { active_addrs(self.proxies()).len() },
                None => active_addrs(self.proxies()).len(),
            },
            forall|i: int| 0 <= i < r@.len() ==> #[trigger] self.proxies().contains_key(r@[i].addr)
                && self.proxies()[r@[i].addr] == r@[i] && !r@[i].in_cooldown,
            forall|i: int, j: int| 0 <= i < j < r@.len() ==> #[trigger] r@[i].addr != #[trigger] r@[j].addr,
            forall|i: int, j: int| 0 <= i < j < r@.len() ==> #[trigger] r@[i].score >= #[trigger] r@[j].score,
            // Every active proxy left out scores no higher than any that is in.
            forall|k: ProxyAddr, i: int| #[trigger] active_addrs(self.proxies()).contains(k) && 0 <= i < r@.len()
                && (forall|j: int| 0 <= j < r@.len() ==> #[trigger] r@[j].addr != k)
                ==> self.proxies()[k].score <= #[trigger] r@[i].score,
    {
        let active = self.active_proxies();
        let ghost act = active@;
        let mut sorted = sort_by_score_desc(active);
        let ghost full = sorted@;
        match limit {
            Some(n) => sorted.truncate(n),
            None => {},
        }
        assert forall|i: int| 0 <= i < sorted@.len() implies #[trigger] self.proxies().contains_key(sorted@[i].addr)
            && self.proxies()[sorted@[i].addr] == sorted@[i] && !sorted@[i].in_cooldown by {
            assert(full[i] == sorted@[i]);
            assert(act.contains(full[i]));
            let j = choose|j: int| 0 <= j < act.len() && act[j] == full[i];
            assert(self.proxies().contains_key(act[j].addr));
            assert(self.proxies()[act[j].addr] == act[j]);
            assert(!act[j].in_cooldown);
            assert(sorted@[i] == act[j]);
        }
        assert forall|i: int, j: int| 0 <= i < j < sorted@.len() implies #[trigger] sorted@[i].addr
            != #[trigger] sorted@[j].addr by {
            assert(full[i] == sorted@[i] && full[j] == sorted@[j]);
        }
        assert forall|i: int, j: int| 0 <= i < j < sorted@.len() implies #[trigger] sorted@[i].score
            >= #[trigger] sorted@[j].score by {
            assert(full[i] == sorted@[i] && full[j] == sorted@[j]);
        }
        assert forall|k: ProxyAddr, i: int| #[trigger] active_addrs(self.proxies()).contains(k) && 0 <= i < sorted@.len()
            && (forall|j: int| 0 <= j < sorted@.len() ==> #[trigger] sorted@[j].addr != k)
            implies self.proxies()[k].score <= #[trigger] sorted@[i].score by {
            let ja = choose|ja: int| 0 <= ja < act.len() && #[trigger] act[ja].addr == k;
            assert(self.proxies().contains_key(act[ja].addr));
            assert(full.contains(act[ja]));
            let x = choose|x: int| 0 <= x < full.len() && full[x] == act[ja];
            if x < sorted@.len() {
                assert(sorted@[x] == full[x]);
                assert(sorted@[x].addr != k);
            }
            assert(full[i] == sorted@[i]);
            assert(i < x);
            assert(full[i].score >= full[x].score);
        }
        sorted
    }

    /// One proxy that is not cooling down, picked by `draw`, a number drawn
    /// uniformly at random: with odds proportional to its score, or, when every
    /// such proxy scores zero, with even odds. None when every proxy cools
    /// down. The active proxies are listed in the order the pool's map walks
    /// them, and `pick_from` picks among that listing. The draw is taken modulo
    /// the sum of the scores (or the number of proxies), which tilts the odds
    /// by less than that sum over 2^64.
    #[verifier::spinoff_prover]
    pub fn random_best(&self, draw: u64) -> (r: Option<Proxy>)
        requires
            self.wf(),
        ensures
            r is None <==> active_addrs(self.proxies()).len() == 0,
            r matches Some(p) ==> exists|v: Seq<Proxy>, i: int| #[trigger] drawn_from(self.proxies(), v, draw, i)
                && v[i] == p,
    {
        let mut active = self.active_proxies();
        let ghost listing = active@;
        match pick_from(&active, draw) {
            Some(idx) => {
                assert(drawn_from(self.proxies(), listing, draw, idx as int));
                let p = active.swap_remove(idx);
                Some(p)
            },
            None => None,
        }
    }

    /// The proxies that are not cooling down, each once, in no set order.
    #[verifier::spinoff_prover]
    fn active_proxies(&self) -> (v: Vec<Proxy>)
        requires
            self.wf(),
        ensures
            v@.len() == active_addrs(self.proxies()).len(),
            forall|i: int| 0 <= i < v@.len() ==> #[trigger] self.proxies().contains_key(v@[i].addr)
                && self.proxies()[v@[i].addr] == v@[i] && !v@[i].in_cooldown,
            forall|i: int, j: int| 0 <= i < j < v@.len() ==> #[trigger] v@[i].addr != #[trigger] v@[j].addr,
            forall|a: ProxyAddr| #[trigger] active_addrs(self.proxies()).contains(a) ==> exists|i: int|
                0 <= i < v@.len() && #[trigger] v@[i].addr == a,
    {
        let entries = proxy_table_entries(&self.proxies);
        let mut v: Vec<Proxy> = Vec::new();
        let ghost mut seen: Set<ProxyAddr> = Set::empty();
        let mut i: usize = 0;
        while i < entries.len()
            invariant
                0 <= i <= entries@.len(),
                self.wf(),
                entries@.len() == self.proxies().len(),
                forall|j: int| 0 <= j < entries@.len() ==> #[trigger] self.proxies().contains_key(entries@[j].0)
                    && self.proxies()[entries@[j].0] == entries@[j].1,
                forall|j: int, l: int| 0 <= j < l < entries@.len() ==> #[trigger] entries@[j].0
                    != #[trigger] entries@[l].0,
                seen.finite(),
                seen.len() == v@.len(),
                v@.len() <= i,
                forall|k: ProxyAddr| #[trigger] seen.contains(k) <==> exists|j: int| 0 <= j < i
                    && #[trigger] entries@[j].0 == k && !entries@[j].1.in_cooldown,
                forall|l: int| 0 <= l < v@.len() ==> #[trigger] self.proxies().contains_key(v@[l].addr)
                    && self.proxies()[v@[l].addr] == v@[l] && !v@[l].in_cooldown && seen.contains(v@[l].addr),
                forall|l: int, m: int| 0 <= l < m < v@.len() ==> #[trigger] v@[l].addr != #[trigger] v@[m].addr,
                forall|k: ProxyAddr| #[trigger] seen.contains(k) ==> exists|l: int| 0 <= l < v@.len()
                    && #[trigger] v@[l].addr == k,
            decreases entries@.len() - i,
        {
            let ghost key = entries@[i as int].0;
            assert(self.proxies().contains_key(key));
            assert(entries@[i as int].1.addr == key);
            if !entries[i].1.in_cooldown {
                assert(!seen.contains(key)) by {
                    if seen.contains(key) {
                        let j = choose|j: int| 0 <= j < i && #[trigger] entries@[j].0 == key
                            && !entries@[j].1.in_cooldown;
                        assert(entries@[j].0 != entries@[i as int].0);
                    }
                }
                let p = entries[i].1.clone_proxy();
                let ghost old_v = v@;
                let ghost old_seen = seen;
                v.push(p);
                proof {
                    seen = seen.insert(key);
                    assert(v@[v@.len() - 1] == entries@[i as int].1);
                    assert forall|l: int| 0 <= l < v@.len() implies #[trigger] self.proxies().contains_key(v@[l].addr)
                        && self.proxies()[v@[l].addr] == v@[l] && !v@[l].in_cooldown && seen.contains(v@[l].addr) by {
                        if l < old_v.len() {
                            assert(v@[l] == old_v[l]);
                        }
                    }
                    assert forall|k: ProxyAddr| #[trigger] seen.contains(k) implies exists|l: int| 0 <= l < v@.len()
                        && #[trigger] v@[l].addr == k by {
                        if k == key {
                            assert(v@[v@.len() - 1].addr == k);
                        } else {
                            assert(old_seen.contains(k));
                            let l = choose|l: int| 0 <= l < old_v.len() && #[trigger] old_v[l].addr == k;
                            assert(v@[l] == old_v[l]);
                        }
                    }
                }
            }
            assert forall|k: ProxyAddr| #[trigger] seen.contains(k) <==> exists|j: int| 0 <= j < i + 1
                && #[trigger] entries@[j].0 == k && !entries@[j].1.in_cooldown by {
                if exists|j: int| 0 <= j < i + 1 && #[trigger] entries@[j].0 == k && !entries@[j].1.in_cooldown {
                    let j = choose|j: int| 0 <= j < i + 1 && #[trigger] entries@[j].0 == k
                        && !entries@[j].1.in_cooldown;
                    if j < i {
                        assert(exists|j: int| 0 <= j < i && #[trigger] entries@[j].0 == k
                            && !entries@[j].1.in_cooldown);
                    }
                }
            }
            i = i + 1;
        }
        assert(seen =~= active_addrs(self.proxies())) by {
            assert forall|k: ProxyAddr| #[trigger] active_addrs(self.proxies()).contains(k) implies seen.contains(k) by {
                let j = choose|j: int| 0 <= j < entries@.len() && #[trigger] entries@[j].0 == k;
                assert(self.proxies().contains_key(entries@[j].0));
            }
            assert forall|k: ProxyAddr| #[trigger] seen.contains(k) implies active_addrs(self.proxies()).contains(k) by {
                let j = choose|j: int| 0 <= j < i && #[trigger] entries@[j].0 == k && !entries@[j].1.in_cooldown;
                assert(self.proxies().contains_key(entries@[j].0));
            }
        }
        v
    }

    /// The address of a lowest-scored proxy; none for an empty pool.
    #[verifier::spinoff_prover]
    fn find_worst_proxy(&self) -> (r: Option<ProxyAddr>)
        requires
            self.wf(),
        ensures
            r is None <==> self.proxies().len() == 0,
            r matches Some(w) ==> self.proxies().contains_key(w) && forall|k: ProxyAddr|
                #[trigger] self.proxies().contains_key(k) ==> self.proxies()[w].score
                    <= self.proxies()[k].score,
    {
        let entries = proxy_table_entries(&self.proxies);
        if entries.len() == 0 {
            return None;
        }
        let mut best: usize = 0;
        let mut i: usize = 1;
        while i < entries.len()
            invariant
                1 <= i <= entries@.len(),
                best < i,
                entries@.len() == self.proxies().len(),
                forall|j: int| 0 <= j < entries@.len() ==> #[trigger] self.proxies().contains_key(entries@[j].0)
                    && self.proxies()[entries@[j].0] == entries@[j].1,
                forall|j: int| 0 <= j < i ==> entries@[best as int].1.score <= #[trigger] entries@[j].1.score,
            decreases entries@.len() - i,
        {
            if entries[i].1.score < entries[best].1.score {
                best = i;
            }
            i = i + 1;
        }
        let w = entries[best].0;
        assert forall|k: ProxyAddr| #[trigger] self.proxies().contains_key(k) implies self.proxies()[w].score
            <= self.proxies()[k].score by {
            let j = choose|j: int| 0 <= j < entries@.len() && #[trigger] entries@[j].0 == k;
            assert(self.proxies().contains_key(entries@[j].0));
            assert(self.proxies().contains_key(entries@[best as int].0));
            assert(entries@[j].1.score >= entries@[best as int].1.score);
        }
        Some(w)
    }
}

} // verus!
