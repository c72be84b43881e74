# creators

A donation system for groups of content creators, as three CosmWasm contracts,
with its logic verified by Verus.

* **membership** keeps the group: it instantiates the distribution pool and one
  proxy per initial member, and admits a candidate once enough members accepted it.
* **proxy** belongs to one creator: it takes donations, keeps the creator's direct
  part, passes the rest to the pool, withdraws the creator's share, and lets anyone
  halve the weight of a creator who has been inactive for a while.
* **distribution** is the pool: it spreads what arrives over the members by weight
  (points per unit of weight, with a per-member correction) and pays each member its
  share.

Layout:

* `src/` – the verified library: each contract's state and transitions
  (`distribution.rs`, `points.rs`, `membership.rs`, `proxy.rs`), the shared
  messages (`common.rs`), the keyed tables that stand for storage maps
  (`table.rs`), and the calls into `cosmwasm_std` and `cw_utils` (`cw.rs`).
* `app/` – the contracts' entry points: storage, queries to other contracts,
  address checks, message encoding, and a `cw_multi_test` harness.
* `tests/` – tests of the library.
