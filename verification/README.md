# Proxima

Proxima is a decentralized geographic social network in which physical
location organizes the network: addressing, routing, discovery and content
distribution all follow geography.

This crate is written in Verus. The library under `src/` holds the logic
of the network with specifications and proofs:

- `geo`: the multi-scale layers (hyperlocal to global), geohash addresses
  with one prefix per layer, and the routing table between sectors of a layer.
- `content`: content items and the content store.
- `cache`: the content cache with access counts, expiry, and one bloom
  filter per region and layer recording which content was cached there.
- `routing`: the geographic routing table, with routes grouped by sector,
  the cheapest kept when a sector is full, and an index holding the best
  route to each destination.
- `discovery`: the registry of known nodes by region; when more nodes are
  known than its limit, only the most recently seen stay.
- `governance`: communities, policies, votes, moderation, and the actions
  that policies take on content.
- `privacy`: the location mixing pool, k-anonymity sets, and hashed identifiers.
- `protocol`: validation of protocol messages.
- `utils`, `text`, `keyed`, `clock`, `ident`: helpers shared by the modules.

The program under `app/` runs a node around the library: the command line,
TCP networking and timers, configuration files, and all floating-point
geometry (distances, bearings, sectors, content gravity, obfuscation), which
hands the library geohashes and integer keys.

Tests are under `tests/`.
