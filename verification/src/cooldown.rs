use vstd::prelude::*;
use crate::addr::ProxyAddr;
use crate::table::{
    CoolingTable, cooling_starts, cooling_table_entries, cooling_table_get, cooling_table_insert,
    cooling_table_new, cooling_table_remove,
};

verus! {

/// How long an entry that began at `start` has cooled at `now`, in
/// nanoseconds; a reading before the start counts as no time, as
/// `Instant::elapsed` saturates.
pub open spec fn cooled_nanos(start: u64, now: u64) -> int {
    if now >= start {
        now - start
    } else {
        0
    }
}

/// An entry that began at `start` has run out its time to live at `now`.
pub open spec fn has_expired(start: u64, now: u64, ttl_secs: u64) -> bool {
    cooled_nanos(start, now) >= ttl_secs * 1_000_000_000
}

/// Whether an entry that began at `start` is still cooling at `now`: less than
/// its time to live has passed.
pub fn still_cooling(start: u64, now: u64, ttl_secs: u64) -> (b: bool)
    ensures
        b == !has_expired(start, now, ttl_secs),
{
    let cooled: u64 = if now >= start { now - start } else { 0 };
    (cooled as u128) < (ttl_secs as u128) * 1_000_000_000
}

/// Proxies put aside to cool down, each for a time to live from the moment
/// it was put there. Times are readings of a monotonic clock in nanoseconds,
/// handed in by the caller.
pub struct CooldownPool {
    entries: CoolingTable,
    ttl_secs: u64,
}

impl CooldownPool {
    /// Each stored address with the clock reading at which it began to cool;
    /// entries that ran out stay stored until they are looked at or evicted.
    pub closed spec fn starts(&self) -> Map<ProxyAddr, u64> {
        cooling_starts(self.entries)
    }

    /// The stored addresses.
    pub open spec fn addrs(&self) -> Set<ProxyAddr> {
        self.starts().dom()
    }

    /// The time to live of an entry, in seconds.
    pub closed spec fn ttl(&self) -> u64 {
        self.ttl_secs
    }

    /// The addresses still cooling at `now`.
    pub open spec fn cooling_at(&self, now: u64) -> Set<ProxyAddr> {
        self.addrs().filter(|a: ProxyAddr| !has_expired(self.starts()[a], now, self.ttl()))
    }

    /// The pool holds finitely many entries.
    pub open spec fn wf(&self) -> bool {
        self.addrs().finite()
    }

    /// An empty cooldown pool whose entries live `ttl_secs` seconds.
    pub fn new(ttl_secs: u64) -> (c: CooldownPool)
        ensures
            c.wf(),
            c.addrs() == Set::<ProxyAddr>::empty(),
            c.ttl() == ttl_secs,
    {
        CooldownPool { entries: cooling_table_new(), ttl_secs }
    }

    /// Puts a proxy into cooldown from `now` on. Returns true if it was already
    /// cooling.
    pub fn put(&mut self, addr: ProxyAddr, now: u64) -> (was: bool)
        requires
            old(self).wf(),
        ensures
            final(self).wf(),
            final(self).starts() == old(self).starts().insert(addr, now),
            final(self).ttl() == old(self).ttl(),
            was == old(self).cooling_at(now).contains(addr),
    {
        let was = match cooling_table_get(&self.entries, &addr) {
            Some(start) => still_cooling(start, now, self.ttl_secs),
            None => false,
        };
        cooling_table_insert(&mut self.entries, addr, now);
        was
    }

    /// Takes a proxy out of cooldown (e.g. after it passed a check). Returns
    /// true if it had an entry.
    pub fn remove(&mut self, addr: &ProxyAddr) -> (was: bool)
        requires
            old(self).wf(),
        ensures
            final(self).wf(),
            final(self).starts() == old(self).starts().remove(*addr),
            final(self).ttl() == old(self).ttl(),
            was == old(self).addrs().contains(*addr),
    {
        cooling_table_remove(&mut self.entries, addr)
    }

    /// Whether an address is still cooling at `now`; an entry whose time to
    /// live has run out is dropped on the way.
    pub fn is_cooling(&mut self, addr: &ProxyAddr, now: u64) -> (b: bool)
        requires
            old(self).wf(),
        ensures
            final(self).wf(),
            final(self).ttl() == old(self).ttl(),
            b == old(self).cooling_at(now).contains(*addr),
            final(self).starts() == if b {
                old(self).starts()
            } else {
                old(self).starts().remove(*addr)
            },
    {
        match cooling_table_get(&self.entries, addr) {
            Some(start) => {
                if still_cooling(start, now, self.ttl_secs) {
                    return true;
                }
                cooling_table_remove(&mut self.entries, addr);
                false
            },
            None => {
                assert(self.starts().remove(*addr) =~= self.starts());
                false
            },
        }
    }

    /// The number of proxies still cooling at `now`.
    pub fn len(&self, now: u64) -> (n: usize)
        requires
            self.wf(),
        ensures
            n == self.cooling_at(now).len(),
    {
        let entries = cooling_table_entries(&self.entries);
        let ghost mut seen: Set<ProxyAddr> = Set::empty();
        let mut n: usize = 0;
        let mut i: usize = 0;
        while i < entries.len()
            invariant
                0 <= i <= entries@.len(),
                entries@.len() == self.starts().len(),
                forall|j: int| 0 <= j < entries@.len() ==> #[trigger] self.starts().contains_key(entries@[j].0)
                    && self.starts()[entries@[j].0] == entries@[j].1,
                forall|j: int, l: int| 0 <= j < l < entries@.len() ==> #[trigger] entries@[j].0
                    != #[trigger] entries@[l].0,
                seen.finite(),
                seen.len() == n,
                n <= i,
                forall|k: ProxyAddr| #[trigger] seen.contains(k) <==> exists|j: int| 0 <= j < i
                    && #[trigger] entries@[j].0 == k && !has_expired(entries@[j].1, now, self.ttl_secs),
            decreases entries@.len() - i,
        {
            let ghost key = entries@[i as int].0;
            if still_cooling(entries[i].1, now, self.ttl_secs) {
                assert(!seen.contains(key)) by {
                    if seen.contains(key) {
                        let j = choose|j: int| 0 <= j < i && #[trigger] entries@[j].0 == key
                            && !has_expired(entries@[j].1, now, self.ttl_secs);
                        assert(entries@[j].0 != entries@[i as int].0);
                    }
                }
                proof {
                    seen = seen.insert(key);
                }
                n = n + 1;
            }
            assert forall|k: ProxyAddr| #[trigger] seen.contains(k) <==> exists|j: int| 0 <= j < i + 1
                && #[trigger] entries@[j].0 == k && !has_expired(entries@[j].1, now, self.ttl_secs) by {
                if exists|j: int| 0 <= j < i + 1 && #[trigger] entries@[j].0 == k && !has_expired(
                    entries@[j].1, now, self.ttl_secs) {
                    let j = choose|j: int| 0 <= j < i + 1 && #[trigger] entries@[j].0 == k && !has_expired(
                        entries@[j].1, now, self.ttl_secs);
                    if j < i {
                        assert(exists|j: int| 0 <= j < i && #[trigger] entries@[j].0 == k && !has_expired(
                            entries@[j].1, now, self.ttl_secs));
                    }
                }
            }
            i = i + 1;
        }
        assert(seen =~= self.cooling_at(now)) by {
            assert forall|k: ProxyAddr| #[trigger] self.cooling_at(now).contains(k) implies seen.contains(k) by {
                let j = choose|j: int| 0 <= j < entries@.len() && #[trigger] entries@[j].0 == k;
                assert(self.starts().contains_key(entries@[j].0));
            }
            assert forall|k: ProxyAddr| #[trigger] seen.contains(k) implies self.cooling_at(now).contains(k) by {
                let j = choose|j: int| 0 <= j < i && #[trigger] entries@[j].0 == k && !has_expired(
                    entries@[j].1, now, self.ttl_secs);
                assert(self.starts().contains_key(entries@[j].0));
            }
        }
        n
    }

    /// Drops every entry whose time to live has run out at `now` and returns
    /// their addresses, each once.
    pub(crate) fn take_expired(&mut self, now: u64) -> (gone: Vec<ProxyAddr>)
        requires
            old(self).wf(),
        ensures
            final(self).wf(),
            final(self).ttl() == old(self).ttl(),
            final(self).starts() == old(self).starts().restrict(old(self).cooling_at(now)),
            gone@.no_duplicates(),
            forall|a: ProxyAddr| #[trigger] gone@.contains(a) <==> old(self).addrs().contains(a)
                && !old(self).cooling_at(now).contains(a),
            gone@.len() == old(self).addrs().len() - final(self).addrs().len(),
    {
        let ghost start = self.starts();
        let entries = cooling_table_entries(&self.entries);
        let mut gone: Vec<ProxyAddr> = Vec::new();
        let mut i: usize = 0;
        while i < entries.len()
            invariant
                0 <= i <= entries@.len(),
                start == old(self).starts(),
                self.ttl_secs == old(self).ttl_secs,
                entries@.len() == start.len(),
                start.dom().finite(),
                forall|j: int| 0 <= j < entries@.len() ==> #[trigger] start.contains_key(entries@[j].0)
                    && start[entries@[j].0] == entries@[j].1,
                forall|j: int, l: int| 0 <= j < l < entries@.len() ==> #[trigger] entries@[j].0
                    != #[trigger] entries@[l].0,
                self.wf(),
                forall|k: ProxyAddr| #[trigger] self.starts().contains_key(k) ==> start.contains_key(k)
                    && self.starts()[k] == start[k],
                forall|k: ProxyAddr| #[trigger] start.contains_key(k) ==> (self.starts().contains_key(k)
                    <==> !(exists|j: int| 0 <= j < i && #[trigger] entries@[j].0 == k && has_expired(
                    entries@[j].1, now, self.ttl_secs))),
                gone@.no_duplicates(),
                forall|a: ProxyAddr| #[trigger] gone@.contains(a) <==> exists|j: int| 0 <= j < i
                    && #[trigger] entries@[j].0 == a && has_expired(entries@[j].1, now, self.ttl_secs),
                gone@.len() + self.starts().len() == start.len(),
            decreases entries@.len() - i,
        {
            let addr = entries[i].0;
            let ghost before = self.starts();
            if !still_cooling(entries[i].1, now, self.ttl_secs) {
                assert(before.contains_key(addr)) by {
                    assert(start.contains_key(entries@[i as int].0));
                    if exists|j: int| 0 <= j < i && #[trigger] entries@[j].0 == addr && has_expired(
                        entries@[j].1, now, self.ttl_secs) {
                        let j = choose|j: int| 0 <= j < i && #[trigger] entries@[j].0 == addr && has_expired(
                            entries@[j].1, now, self.ttl_secs);
                        assert(entries@[j].0 != entries@[i as int].0);
                    }
                }
                assert(!gone@.contains(addr)) by {
                    if gone@.contains(addr) {
                        let j = choose|j: int| 0 <= j < i && #[trigger] entries@[j].0 == addr && has_expired(
                            entries@[j].1, now, self.ttl_secs);
                        assert(entries@[j].0 != entries@[i as int].0);
                    }
                }
                cooling_table_remove(&mut self.entries, &addr);
                let ghost old_gone = gone@;
                gone.push(addr);
                assert forall|a: ProxyAddr| #[trigger] gone@.contains(a) <==> exists|j: int| 0 <= j < i + 1
                    && #[trigger] entries@[j].0 == a && has_expired(entries@[j].1, now, self.ttl_secs) by {
                    if a == addr {
                        assert(gone@[gone@.len() - 1] == a);
                        assert(entries@[i as int].0 == a);
                    } else {
                        if gone@.contains(a) {
                            let x = choose|x: int| 0 <= x < gone@.len() && gone@[x] == a;
                            assert(old_gone[x] == a);
                            assert(old_gone.contains(a));
                        }
                        if exists|j: int| 0 <= j < i + 1 && #[trigger] entries@[j].0 == a && has_expired(
                            entries@[j].1, now, self.ttl_secs) {
                            let j = choose|j: int| 0 <= j < i + 1 && #[trigger] entries@[j].0 == a && has_expired(
                                entries@[j].1, now, self.ttl_secs);
                            assert(j < i);
                            assert(old_gone.contains(a));
                            let x = choose|x: int| 0 <= x < old_gone.len() && old_gone[x] == a;
                            assert(gone@[x] == a);
                        }
                    }
                }
                assert forall|k: ProxyAddr| #[trigger] start.contains_key(k) implies (self.starts().contains_key(k)
                    <==> !(exists|j: int| 0 <= j < i + 1 && #[trigger] entries@[j].0 == k && has_expired(
                    entries@[j].1, now, self.ttl_secs))) by {
                    if k == addr {
                        assert(entries@[i as int].0 == k);
                    } else if exists|j: int| 0 <= j < i + 1 && #[trigger] entries@[j].0 == k && has_expired(
                        entries@[j].1, now, self.ttl_secs) {
                        let j = choose|j: int| 0 <= j < i + 1 && #[trigger] entries@[j].0 == k && has_expired(
                            entries@[j].1, now, self.ttl_secs);
                        assert(j != i);
                    }
                }
            } else {
                assert forall|a: ProxyAddr| #[trigger] gone@.contains(a) <==> exists|j: int| 0 <= j < i + 1
                    && #[trigger] entries@[j].0 == a && has_expired(entries@[j].1, now, self.ttl_secs) by {
                    if exists|j: int| 0 <= j < i + 1 && #[trigger] entries@[j].0 == a && has_expired(
                        entries@[j].1, now, self.ttl_secs) {
                        let j = choose|j: int| 0 <= j < i + 1 && #[trigger] entries@[j].0 == a && has_expired(
                            entries@[j].1, now, self.ttl_secs);
                        assert(j != i);
                    }
                }
                assert forall|k: ProxyAddr| #[trigger] start.contains_key(k) implies (self.starts().contains_key(k)
                    <==> !(exists|j: int| 0 <= j < i + 1 && #[trigger] entries@[j].0 == k && has_expired(
                    entries@[j].1, now, self.ttl_secs))) by {
                    if exists|j: int| 0 <= j < i + 1 && #[trigger] entries@[j].0 == k && has_expired(
                        entries@[j].1, now, self.ttl_secs) {
                        let j = choose|j: int| 0 <= j < i + 1 && #[trigger] entries@[j].0 == k && has_expired(
                            entries@[j].1, now, self.ttl_secs);
                        assert(j != i);
                    }
                }
            }
            i = i + 1;
        }
        let ghost cool = old(self).cooling_at(now);
        assert forall|k: ProxyAddr| start.contains_key(k) implies (#[trigger] self.starts().contains_key(k)
            <==> cool.contains(k)) by {
            let j = choose|j: int| 0 <= j < entries@.len() && #[trigger] entries@[j].0 == k;
            assert(start.contains_key(entries@[j].0));
            if exists|l: int| 0 <= l < entries@.len() && #[trigger] entries@[l].0 == k && has_expired(
                entries@[l].1, now, self.ttl_secs) {
                let l = choose|l: int| 0 <= l < entries@.len() && #[trigger] entries@[l].0 == k && has_expired(
                    entries@[l].1, now, self.ttl_secs);
                if l != j {
                    if l < j {
                        assert(entries@[l].0 != entries@[j].0);
                    } else {
                        assert(entries@[j].0 != entries@[l].0);
                    }
                }
            }
        }
        assert(self.starts() =~= start.restrict(cool));
        assert forall|a: ProxyAddr| #[trigger] gone@.contains(a) <==> start.dom().contains(a) && !cool.contains(a) by {
            if start.dom().contains(a) && !cool.contains(a) {
                let j = choose|j: int| 0 <= j < entries@.len() && #[trigger] entries@[j].0 == a;
                assert(start.contains_key(entries@[j].0));
            }
            if gone@.contains(a) {
                let j = choose|j: int| 0 <= j < i && #[trigger] entries@[j].0 == a && has_expired(
                    entries@[j].1, now, self.ttl_secs);
                assert(start.contains_key(entries@[j].0));
            }
        }
        gone
    }

    /// Drops every entry whose time to live has run out at `now`; returns how
    /// many.
    pub fn evict_expired(&mut self, now: u64) -> (evicted: usize)
        requires
            old(self).wf(),
        ensures
            final(self).wf(),
            final(self).ttl() == old(self).ttl(),
            final(self).starts() == old(self).starts().restrict(old(self).cooling_at(now)),
            final(self).addrs() == old(self).cooling_at(now),
            evicted == old(self).addrs().len() - final(self).addrs().len(),
    {
        let gone = self.take_expired(now);
        gone.len()
    }
}

} // verus!
