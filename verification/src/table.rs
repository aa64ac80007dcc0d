use vstd::prelude::*;
use dashmap::DashMap;
use crate::addr::ProxyAddr;
use crate::proxy::Proxy;

verus! {

// The pool keeps its proxies, and the addresses that cool down, in
// `dashmap::DashMap`s, as the concurrent server around the library expects.
// The contracts below say what each `DashMap` method that the pool calls does
// to what a map holds, as dashmap's source shows it (every method locks the
// shard of the key and works on the `HashMap` inside). They take the map by
// `&mut` where the method changes it, although dashmap only needs `&`.

/// `dashmap::DashMap`, a concurrent hash map; what a value holds is known
/// to Verus only through the names and wrappers below.
#[verifier::external_type_specification]
#[verifier::external_body]
#[verifier::reject_recursive_types(K)]
#[verifier::reject_recursive_types(V)]
#[verifier::reject_recursive_types(S)]
pub struct ExDashMap<K, V, S>(DashMap<K, V, S>);

/// The map of proxies, by address.
pub type ProxyTable = DashMap<ProxyAddr, Proxy>;

/// The map of cooling addresses, each with the reading of the monotonic
/// clock, in nanoseconds, at which it began to cool.
pub type CoolingTable = DashMap<ProxyAddr, u64>;

/// What a proxy table holds: each address with the proxy stored under it.
pub uninterp spec fn proxy_entries(m: ProxyTable) -> Map<ProxyAddr, Proxy>;

/// What a cooldown table holds: each address with the clock reading at which
/// it began to cool.
pub uninterp spec fn cooling_starts(m: CoolingTable) -> Map<ProxyAddr, u64>;

/// `DashMap::with_capacity`: an empty map with room reserved for `capacity`
/// entries. dashmap spreads the room over its shards, and hashbrown panics
/// ("capacity overflow") when a shard's table would not fit the address
/// space; `requires` keeps the request far below that on 32- and 64-bit
/// machines. Running out of memory is left unsaid.
#[verifier::external_body]
pub(crate) fn proxy_table_with_capacity(capacity: usize) -> (m: ProxyTable)
    requires
        capacity <= 1_048_576,
    ensures
        proxy_entries(m).dom() == Set::<ProxyAddr>::empty(),
{
    DashMap::with_capacity(capacity)
}

/// `DashMap::len`: the number of entries.
#[verifier::external_body]
pub(crate) fn proxy_table_len(m: &ProxyTable) -> (n: usize)
    ensures
        n == proxy_entries(*m).len(),
{
    m.len()
}

/// `DashMap::contains_key`: whether the address has an entry.
#[verifier::external_body]
pub(crate) fn proxy_table_contains(m: &ProxyTable, addr: &ProxyAddr) -> (b: bool)
    ensures
        b == proxy_entries(*m).contains_key(*addr),
{
    m.contains_key(addr)
}

/// `DashMap::get`: a copy of the proxy stored under the address, if any.
#[verifier::external_body]
pub(crate) fn proxy_table_get(m: &ProxyTable, addr: &ProxyAddr) -> (r: Option<Proxy>)
    ensures
        r is Some <==> proxy_entries(*m).contains_key(*addr),
        r matches Some(p) ==> p == proxy_entries(*m)[*addr],
{
    m.get(addr).map(|entry| entry.value().clone())
}

/// `DashMap::insert`: stores the proxy under the address, replacing the entry
/// that was there.
#[verifier::external_body]
pub(crate) fn proxy_table_insert(m: &mut ProxyTable, addr: ProxyAddr, p: Proxy)
    ensures
        proxy_entries(*final(m)) == proxy_entries(*old(m)).insert(addr, p),
{
    m.insert(addr, p);
}

/// `DashMap::remove`: drops the entry of the address; says whether there was one.
#[verifier::external_body]
pub(crate) fn proxy_table_remove(m: &mut ProxyTable, addr: &ProxyAddr) -> (b: bool)
    ensures
        proxy_entries(*final(m)) == proxy_entries(*old(m)).remove(*addr),
        b == proxy_entries(*old(m)).contains_key(*addr),
{
    m.remove(addr).is_some()
}

/// `DashMap::iter`: every entry once, as an address and a copy of its proxy,
/// in the order the shards are walked, which is left unsaid.
#[verifier::external_body]
pub(crate) fn proxy_table_entries(m: &ProxyTable) -> (v: Vec<(ProxyAddr, Proxy)>)
    ensures
        v@.len() == proxy_entries(*m).len(),
        forall|i: int| 0 <= i < v@.len() ==> #[trigger] proxy_entries(*m).contains_key(v@[i].0)
            && proxy_entries(*m)[v@[i].0] == v@[i].1,
        forall|i: int, j: int| 0 <= i < j < v@.len() ==> #[trigger] v@[i].0 != #[trigger] v@[j].0,
        forall|a: ProxyAddr| #[trigger] proxy_entries(*m).contains_key(a) ==> exists|i: int|
            0 <= i < v@.len() && #[trigger] v@[i].0 == a,
{
    m.iter().map(|entry| (*entry.key(), entry.value().clone())).collect()
}

/// `DashMap::new`: an empty map.
#[verifier::external_body]
pub(crate) fn cooling_table_new() -> (m: CoolingTable)
    ensures
        cooling_starts(m).dom() == Set::<ProxyAddr>::empty(),
{
    DashMap::new()
}

/// `DashMap::insert`: records the address with the given start, replacing the
/// entry that was there.
#[verifier::external_body]
pub(crate) fn cooling_table_insert(m: &mut CoolingTable, addr: ProxyAddr, start: u64)
    ensures
        cooling_starts(*final(m)) == cooling_starts(*old(m)).insert(addr, start),
{
    m.insert(addr, start);
}

/// `DashMap::remove`: drops the entry of the address; says whether there was one.
#[verifier::external_body]
pub(crate) fn cooling_table_remove(m: &mut CoolingTable, addr: &ProxyAddr) -> (b: bool)
    ensures
        cooling_starts(*final(m)) == cooling_starts(*old(m)).remove(*addr),
        b == cooling_starts(*old(m)).contains_key(*addr),
{
    m.remove(addr).is_some()
}

/// `DashMap::get`: the start recorded for the address, if it has an entry.
#[verifier::external_body]
pub(crate) fn cooling_table_get(m: &CoolingTable, addr: &ProxyAddr) -> (r: Option<u64>)
    ensures
        r is Some <==> cooling_starts(*m).contains_key(*addr),
        r matches Some(t) ==> t == cooling_starts(*m)[*addr],
{
    m.get(addr).map(|entry| *entry.value())
}

/// `DashMap::iter`: every entry once, as an address and its start, in the
/// order the shards are walked, which is left unsaid.
#[verifier::external_body]
pub(crate) fn cooling_table_entries(m: &CoolingTable) -> (v: Vec<(ProxyAddr, u64)>)
    ensures
        v@.len() == cooling_starts(*m).len(),
        forall|i: int| 0 <= i < v@.len() ==> #[trigger] cooling_starts(*m).contains_key(v@[i].0)
            && cooling_starts(*m)[v@[i].0] == v@[i].1,
        forall|i: int, j: int| 0 <= i < j < v@.len() ==> #[trigger] v@[i].0 != #[trigger] v@[j].0,
        forall|a: ProxyAddr| #[trigger] cooling_starts(*m).contains_key(a) ==> exists|i: int|
            0 <= i < v@.len() && #[trigger] v@[i].0 == a,
{
    m.iter().map(|entry| (*entry.key(), *entry.value())).collect()
}

} // verus!
