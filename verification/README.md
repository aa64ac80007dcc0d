# proxy_pool

A pool of public proxy servers: it reads published proxy lists, keeps each
proxy's check history, scores it (success rate 40 points, anonymity 15,
latency 25, freshness 20), puts failing proxies in cooldown, evicts hopeless
ones and hands out the best ones, at random in proportion to their score.

- `src/` is the library, verified with Verus: the pool (`pool`, `cooldown`,
  `table`), the proxy record and its scoring (`proxy`, `scorer`, `clock`),
  reading proxy lists (`sources`, `text`), judging and recording checks
  (`checker`), restoring a saved snapshot (`storage`), and ranking and
  weighted choice (`select`).
- `app/` is the service around it: the HTTP API, fetching the lists, checking
  proxies over the network, the snapshot file and socket addresses.
- `tests/` runs the library on concrete cases.

The library reads no clock and draws no random numbers: every operation that
depends on the time takes it as an argument (the wall clock and a monotonic
clock in nanoseconds), and the weighted pick takes its random draw.
