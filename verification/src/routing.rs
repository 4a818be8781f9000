//! The geographic routing table: routes grouped by geographic sector, with
//! the cheapest routes kept when a sector is full, and an index by
//! destination.

use vstd::prelude::*;

use crate::clock::{fresh_at, is_fresh, spec_duration_millis};
use crate::geo::{GeographicAddress, GeographicError};
use crate::keyed::{Keyed, find_key, keys_unique, lemma_map_push};
use crate::network::{NetworkError, NodeId};

verus! {

/// Node capabilities.
#[derive(Debug, Clone, Copy, PartialEq, Eq, Structural)]
pub struct NodeCapabilities {
    /// Can store content
    pub can_store: bool,
    /// Can route messages
    pub can_route: bool,
    /// Can bridge geographic regions
    pub can_bridge: bool,
    /// Storage capacity in bytes
    pub storage_capacity: u64,
    /// Bandwidth capacity in bytes per second
    pub bandwidth_capacity: u64,
}

/// A routing table entry. `M` holds the measurements the route's cost was
/// computed from (geographic distance, social affinity, staleness); the table
/// never reads them.
#[derive(Debug, Clone)]
pub struct RoutingEntry<M> {
    /// Destination geographic address
    pub destination: GeographicAddress,
    /// Next hop node ID
    pub next_hop: NodeId,
    /// What the cost was computed from
    pub metrics: M,
    /// Combined routing cost, as an integer in the order of the costs
    pub route_cost: u64,
    /// Last update, in Unix milliseconds
    pub last_updated: i64,
    /// Number of hops to destination
    pub hop_count: u32,
}

impl<M> Keyed for RoutingEntry<M> {
    open spec fn key(&self) -> Seq<char> {
        self.destination@
    }

    fn key_text(&self) -> (k: &str) {
        self.destination.geohash()
    }
}

/// The routes of one geographic sector.
#[derive(Debug)]
pub struct SectorRoutes<M> {
    /// Sector identifier
    pub sector: String,
    /// Routes into the sector
    pub routes: Vec<RoutingEntry<M>>,
}

impl<M> Keyed for SectorRoutes<M> {
    open spec fn key(&self) -> Seq<char> {
        self.sector@
    }

    fn key_text(&self) -> (k: &str) {
        self.sector.as_str()
    }
}

/// A route seen from outside: destination geohash, next hop, metrics, cost,
/// last update and hop count.
pub type RouteState<M> = (Seq<char>, Seq<char>, M, u64, i64, u32);

/// The state of a route.
pub open spec fn route_state<M>(e: RoutingEntry<M>) -> RouteState<M> {
    (e.destination@, e.next_hop.0@, e.metrics, e.route_cost, e.last_updated, e.hop_count)
}

/// The states of a sequence of routes.
pub open spec fn route_states<M>(s: Seq<RoutingEntry<M>>) -> Seq<RouteState<M>> {
    s.map_values(|e: RoutingEntry<M>| route_state(e))
}

/// Insert `x` into routes ordered by cost, after every route that costs no
/// more than it.
pub open spec fn insert_by_cost<M>(s: Seq<RouteState<M>>, x: RouteState<M>) -> Seq<RouteState<M>>
    decreases s.len(),
{
    if s.len() == 0 {
        seq![x]
    } else if x.3 < s[0].3 {
        seq![x] + s
    } else {
        seq![s[0]] + insert_by_cost(s.drop_first(), x)
    }
}

/// Stable sort by increasing cost: routes of equal cost keep their order.
pub open spec fn sort_by_cost<M>(s: Seq<RouteState<M>>) -> Seq<RouteState<M>>
    decreases s.len(),
{
    if s.len() == 0 {
        Seq::empty()
    } else {
        insert_by_cost(sort_by_cost(s.drop_last()), s.last())
    }
}

/// Some route goes to the destination.
pub open spec fn has_route<M>(routes: Seq<RouteState<M>>, destination: Seq<char>) -> bool {
    exists|i: int| 0 <= i < routes.len() && routes[i].0 == destination
}

/// The position of a route to the destination.
pub open spec fn route_index<M>(routes: Seq<RouteState<M>>, destination: Seq<char>) -> int {
    choose|i: int| 0 <= i < routes.len() && routes[i].0 == destination
}

/// No destination has two routes.
pub open spec fn destinations_unique<M>(routes: Seq<RouteState<M>>) -> bool {
    forall|i: int, j: int| 0 <= i < routes.len() && 0 <= j < routes.len() && i != j ==> #[trigger] routes[i].0 != #[trigger] routes[j].0
}

/// The routes of a sector after offering `entry`: a route to the same
/// destination is replaced only by a cheaper one; a new destination is
/// appended, and when the sector then holds more than `max` routes it keeps
/// the `max` cheapest, in order of cost.
pub open spec fn add_to_sector<M>(routes: Seq<RouteState<M>>, entry: RouteState<M>, max: nat) -> Seq<RouteState<M>> {
    if has_route(routes, entry.0) {
        let i = route_index(routes, entry.0);
        if entry.3 < routes[i].3 {
            routes.update(i, entry)
        } else {
            routes
        }
    } else if routes.len() + 1 > max {
        sort_by_cost(routes.push(entry)).take(max as int)
    } else {
        routes.push(entry)
    }
}

/// The routes by destination after offering `entry`: it replaces the route to
/// the same destination only when it is cheaper, and is appended for a new
/// destination.
pub open spec fn store_route<M>(routes: Seq<RouteState<M>>, entry: RouteState<M>) -> Seq<RouteState<M>> {
    if has_route(routes, entry.0) {
        let i = route_index(routes, entry.0);
        if entry.3 < routes[i].3 {
            routes.update(i, entry)
        } else {
            routes
        }
    } else {
        routes.push(entry)
    }
}

/// A sector and its routes, seen from outside.
pub type SectorState<M> = (Seq<char>, Seq<RouteState<M>>);

/// Some sector has the identifier.
pub open spec fn has_sector<M>(v: Seq<SectorState<M>>, sector: Seq<char>) -> bool {
    exists|i: int| 0 <= i < v.len() && v[i].0 == sector
}

/// The position of the sector.
pub open spec fn sector_index<M>(v: Seq<SectorState<M>>, sector: Seq<char>) -> int {
    choose|i: int| 0 <= i < v.len() && v[i].0 == sector
}

/// The sectors after offering `entry` to `sector`; an unknown sector is added
/// at the end.
pub open spec fn add_to_sectors<M>(v: Seq<SectorState<M>>, sector: Seq<char>, entry: RouteState<M>, max: nat) -> Seq<SectorState<M>> {
    if has_sector(v, sector) {
        let i = sector_index(v, sector);
        v.update(i, (sector, add_to_sector(v[i].1, entry, max)))
    } else {
        v.push((sector, add_to_sector(Seq::empty(), entry, max)))
    }
}

/// The states of a sequence of sectors.
pub open spec fn sector_states<M>(s: Seq<SectorRoutes<M>>) -> Seq<SectorState<M>> {
    s.map_values(|r: SectorRoutes<M>| (r.sector@, route_states(r.routes@)))
}

proof fn lemma_insert_by_cost<M>(s: Seq<RouteState<M>>, x: RouteState<M>)
    ensures
        insert_by_cost(s, x).len() == s.len() + 1,
        forall|a: int| 0 <= a < insert_by_cost(s, x).len() ==> #[trigger] insert_by_cost(s, x)[a] == x
            || exists|b: int| 0 <= b < s.len() && insert_by_cost(s, x)[a] == s[b],
        destinations_unique(s) && !has_route(s, x.0) ==> destinations_unique(insert_by_cost(s, x)),
    decreases s.len(),
{
    let r = insert_by_cost(s, x);
    if s.len() == 0 {
    } else if x.3 < s[0].3 {
        assert forall|a: int| 0 <= a < r.len() implies #[trigger] r[a] == x || exists|b: int| 0 <= b < s.len() && r[a] == s[b] by {
            if a > 0 {
                assert(r[a] == s[a - 1]);
            }
        }
        if destinations_unique(s) && !has_route(s, x.0) {
            assert forall|i: int, j: int| 0 <= i < r.len() && 0 <= j < r.len() && i != j implies #[trigger] r[i].0 != #[trigger] r[j].0 by {
                if i > 0 && j > 0 {
                    assert(r[i] == s[i - 1] && r[j] == s[j - 1]);
                } else if i > 0 {
                    assert(r[i] == s[i - 1]);
                } else {
                    assert(r[j] == s[j - 1]);
                }
            }
        }
    } else {
        let t = s.drop_first();
        lemma_insert_by_cost(t, x);
        let u = insert_by_cost(t, x);
        assert forall|a: int| 0 <= a < r.len() implies #[trigger] r[a] == x || exists|b: int| 0 <= b < s.len() && r[a] == s[b] by {
            if a > 0 {
                assert(r[a] == u[a - 1]);
                if u[a - 1] != x {
                    let b = choose|b: int| 0 <= b < t.len() && u[a - 1] == t[b];
                    assert(r[a] == s[b + 1]);
                }
            } else {
                assert(r[a] == s[0]);
            }
        }
        if destinations_unique(s) && !has_route(s, x.0) {
            assert(destinations_unique(t)) by {
                assert forall|i: int, j: int| 0 <= i < t.len() && 0 <= j < t.len() && i != j implies #[trigger] t[i].0 != #[trigger] t[j].0 by {
                    assert(t[i] == s[i + 1] && t[j] == s[j + 1]);
                }
            }
            assert(!has_route(t, x.0)) by {
                if has_route(t, x.0) {
                    let k = choose|k: int| 0 <= k < t.len() && t[k].0 == x.0;
                    assert(s[k + 1] == t[k]);
                }
            }
            assert forall|i: int, j: int| 0 <= i < r.len() && 0 <= j < r.len() && i != j implies #[trigger] r[i].0 != #[trigger] r[j].0 by {
                if i > 0 && j > 0 {
                    assert(r[i] == u[i - 1] && r[j] == u[j - 1]);
                } else {
                    let k = if i > 0 { i } else { j };
                    assert(r[k] == u[k - 1]);
                    if u[k - 1] != x {
                        let b = choose|b: int| 0 <= b < t.len() && u[k - 1] == t[b];
                        assert(t[b] == s[b + 1]);
                    }
                    assert(r[0] == s[0]);
                }
            }
        }
    }
}

proof fn lemma_sort_by_cost<M>(s: Seq<RouteState<M>>)
    ensures
        sort_by_cost(s).len() == s.len(),
        forall|a: int| 0 <= a < sort_by_cost(s).len() ==> exists|b: int| 0 <= b < s.len() && #[trigger] sort_by_cost(s)[a] == s[b],
        destinations_unique(s) ==> destinations_unique(sort_by_cost(s)),
    decreases s.len(),
{
    if s.len() > 0 {
        let init = s.drop_last();
        lemma_sort_by_cost(init);
        let t = sort_by_cost(init);
        lemma_insert_by_cost(t, s.last());
        let r = sort_by_cost(s);
        assert forall|a: int| 0 <= a < r.len() implies exists|b: int| 0 <= b < s.len() && #[trigger] r[a] == s[b] by {
            if r[a] == s.last() {
                assert(r[a] == s[s.len() - 1]);
            } else {
                let c = choose|c: int| 0 <= c < t.len() && r[a] == t[c];
                let b = choose|b: int| 0 <= b < init.len() && #[trigger] t[c] == init[b];
                assert(r[a] == s[b]);
            }
        }
        if destinations_unique(s) {
            assert(destinations_unique(init)) by {
                assert forall|i: int, j: int| 0 <= i < init.len() && 0 <= j < init.len() && i != j implies #[trigger] init[i].0 != #[trigger] init[j].0 by {
                    assert(init[i] == s[i] && init[j] == s[j]);
                }
            }
            assert(!has_route(t, s.last().0)) by {
                if has_route(t, s.last().0) {
                    let k = choose|k: int| 0 <= k < t.len() && t[k].0 == s.last().0;
                    let b = choose|b: int| 0 <= b < init.len() && #[trigger] t[k] == init[b];
                    assert(init[b] == s[b]);
                    assert(s.last() == s[s.len() - 1]);
                }
            }
        }
    }
}

/// Insert `x` into routes sorted by cost, after every route that costs no
/// more than it.
fn insert_by_cost_into<M>(v: &mut Vec<RoutingEntry<M>>, x: RoutingEntry<M>)
    ensures
        route_states(final(v)@) == insert_by_cost(route_states(old(v)@), route_state(x)),
        final(v)@.len() == old(v)@.len() + 1,
        forall|a: int| 0 <= a < final(v)@.len() ==> #[trigger] final(v)@[a] == x || exists|b: int|
            0 <= b < old(v)@.len() && final(v)@[a] == old(v)@[b],
{
    let ghost s = v@;
    let mut k: usize = 0;
    while k < v.len() && v[k].route_cost <= x.route_cost
        invariant
            v@ == s,
            k <= v@.len(),
            forall|m: int| 0 <= m < k ==> #[trigger] v@[m].route_cost <= x.route_cost,
        decreases v@.len() - k,
    {
        k = k + 1;
    }
    proof {
        lemma_insert_at_first_dearer(route_states(s), route_state(x), k as int);
        assert(route_states(s.insert(k as int, x)) =~= route_states(s).insert(k as int, route_state(x)));
    }
    v.insert(k, x);
    proof {
        assert forall|a: int| 0 <= a < v@.len() implies #[trigger] v@[a] == x || exists|b: int| 0 <= b < s.len() && v@[a] == s[b] by {
            if a < k {
                assert(v@[a] == s[a]);
            } else if a > k {
                assert(v@[a] == s[a - 1]);
            }
        }
    }
}

/// Inserting at the first position whose cost is higher than that of `x` is
/// `insert_by_cost`.
proof fn lemma_insert_at_first_dearer<M>(s: Seq<RouteState<M>>, x: RouteState<M>, k: int)
    requires
        0 <= k <= s.len(),
        forall|m: int| 0 <= m < k ==> #[trigger] s[m].3 <= x.3,
        k < s.len() ==> x.3 < s[k].3,
    ensures
        s.insert(k, x) == insert_by_cost(s, x),
    decreases s.len(),
{
    if s.len() == 0 {
        assert(s.insert(k, x) =~= seq![x]);
    } else if k == 0 {
        assert(s.insert(k, x) =~= seq![x] + s);
    } else {
        let t = s.drop_first();
        assert forall|m: int| 0 <= m < k - 1 implies #[trigger] t[m].3 <= x.3 by {
            assert(t[m] == s[m + 1]);
        }
        lemma_insert_at_first_dearer(t, x, k - 1);
        assert(s.insert(k, x) =~= seq![s[0]] + t.insert(k - 1, x));
    }
}

/// The routes sorted by increasing cost, stably.
fn sorted_by_cost<M>(routes: Vec<RoutingEntry<M>>) -> (r: Vec<RoutingEntry<M>>)
    ensures
        route_states(r@) == sort_by_cost(route_states(routes@)),
        r@.len() == routes@.len(),
        forall|a: int| 0 <= a < r@.len() ==> exists|b: int| 0 <= b < routes@.len() && #[trigger] r@[a] == routes@[b],
{
    let ghost whole = routes@;
    let ghost states = route_states(whole);
    let mut rest = routes;
    let mut sorted: Vec<RoutingEntry<M>> = Vec::new();
    let ghost mut done: int = 0;
    while rest.len() > 0
        invariant
            0 <= done <= whole.len(),
            states == route_states(whole),
            rest@ == whole.skip(done),
            route_states(sorted@) == sort_by_cost(states.take(done)),
            sorted@.len() == done,
            forall|a: int| 0 <= a < sorted@.len() ==> exists|b: int| 0 <= b < done && #[trigger] sorted@[a] == whole[b],
        decreases rest@.len(),
    {
        let ghost before = sorted@;
        assert(whole[done] == rest@[0]);
        let x = rest.remove(0);
        insert_by_cost_into(&mut sorted, x);
        proof {
            let t = states.take(done + 1);
            assert(t.drop_last() =~= states.take(done));
            assert(t.last() == route_state(x));
            assert forall|a: int| 0 <= a < sorted@.len() implies exists|b: int| 0 <= b < done + 1 && #[trigger] sorted@[a] == whole[b] by {
                if sorted@[a] == x {
                    assert(sorted@[a] == whole[done]);
                } else {
                    let c = choose|c: int| 0 <= c < before.len() && sorted@[a] == before[c];
                    let b = choose|b: int| 0 <= b < done && #[trigger] before[c] == whole[b];
                }
            }
            assert(rest@ =~= whole.skip(done + 1));
            done = done + 1;
        }
    }
    assert(states.take(done) =~= states);
    sorted
}

proof fn lemma_unique_states<M>(s: Seq<RoutingEntry<M>>)
    ensures
        forall|i: int| 0 <= i < s.len() ==> (#[trigger] route_states(s)[i]).0 == s[i].key(),
        keys_unique(s) <==> destinations_unique(route_states(s)),
{
    let v = route_states(s);
    assert forall|i: int| 0 <= i < s.len() implies (#[trigger] v[i]).0 == s[i].key() by {}
    if keys_unique(s) {
        assert forall|i: int, j: int| 0 <= i < v.len() && 0 <= j < v.len() && i != j implies #[trigger] v[i].0 != #[trigger] v[j].0 by {
            assert(v[i].0 == s[i].key() && v[j].0 == s[j].key());
        }
    }
    if destinations_unique(v) {
        assert forall|i: int, j: int| 0 <= i < s.len() && 0 <= j < s.len() && i != j implies #[trigger] s[i].key() != #[trigger] s[j].key() by {
            assert(v[i].0 == s[i].key() && v[j].0 == s[j].key());
        }
    }
}

impl<M: Copy> RoutingEntry<M> {
    /// A copy of the route.
    pub fn copy_entry(&self) -> (e: RoutingEntry<M>)
        ensures
            route_state(e) == route_state(*self),
    {
        RoutingEntry {
            destination: self.destination.clone(),
            next_hop: self.next_hop.copy(),
            metrics: self.metrics,
            route_cost: self.route_cost,
            last_updated: self.last_updated,
            hop_count: self.hop_count,
        }
    }
}

/// Offer `entry` to the routes of a sector.
fn add_to_sector_routes<M>(routes: Vec<RoutingEntry<M>>, entry: RoutingEntry<M>, max: usize) -> (r: Vec<RoutingEntry<M>>)
    requires
        keys_unique(routes@),
        routes@.len() <= max,
    ensures
        route_states(r@) == add_to_sector(route_states(routes@), route_state(entry), max as nat),
        keys_unique(r@),
        r@.len() <= max,
{
    let ghost s = routes@;
    let ghost v = route_states(s);
    proof {
        lemma_unique_states(s);
    }
    let mut routes = routes;
    match find_key(&routes, entry.destination.geohash()) {
        Some(i) => {
            proof {
                assert(v[i as int].0 == entry.key());
                let j = route_index(v, entry.key());
                assert(v[j].0 == s[j].key());
            }
            if entry.route_cost < routes[i].route_cost {
                routes.set(i, entry);
                proof {
                    assert(route_states(routes@) =~= v.update(i as int, route_state(entry)));
                    assert forall|a: int, b: int| 0 <= a < routes@.len() && 0 <= b < routes@.len() && a != b implies #[trigger] routes@[a].key() != #[trigger] routes@[b].key() by {
                        assert(routes@[a].key() == s[a].key() && routes@[b].key() == s[b].key());
                    }
                }
            }
            routes
        },
        None => {
            proof {
                assert(!has_route(v, entry.key())) by {
                    if has_route(v, entry.key()) {
                        let j = route_index(v, entry.key());
                        assert(v[j].0 == s[j].key());
                    }
                }
            }
            routes.push(entry);
            proof {
                assert(route_states(routes@) =~= v.push(route_state(entry)));
                assert forall|a: int, b: int| 0 <= a < routes@.len() && 0 <= b < routes@.len() && a != b implies #[trigger] routes@[a].key() != #[trigger] routes@[b].key() by {
                    if a < s.len() && b < s.len() {
                        assert(routes@[a] == s[a] && routes@[b] == s[b]);
                    } else if a < s.len() {
                        assert(routes@[a] == s[a] && v[a].0 == s[a].key());
                    } else {
                        assert(routes@[b] == s[b] && v[b].0 == s[b].key());
                    }
                }
            }
            if routes.len() > max {
                let ghost pushed = routes@;
                let mut sorted = sorted_by_cost(routes);
                proof {
                    lemma_unique_states(pushed);
                    lemma_sort_by_cost(route_states(pushed));
                    lemma_unique_states(sorted@);
                }
                sorted.truncate(max);
                proof {
                    assert(route_states(sorted@) =~= sort_by_cost(route_states(pushed)).take(max as int));
                    assert forall|a: int, b: int| 0 <= a < sorted@.len() && 0 <= b < sorted@.len() && a != b implies #[trigger] sorted@[a].key() != #[trigger] sorted@[b].key() by {
                        let w = sort_by_cost(route_states(pushed));
                        assert(route_states(sorted@)[a] == w[a] && route_states(sorted@)[b] == w[b]);
                        assert(route_states(sorted@)[a].0 == sorted@[a].key());
                        assert(route_states(sorted@)[b].0 == sorted@[b].key());
                    }
                }
                sorted
            } else {
                routes
            }
        },
    }
}

/// Routes organized by geographic sector, with an index by destination.
/// Times are Unix milliseconds.
pub struct GeographicRoutingTable<M> {
    entries: Vec<SectorRoutes<M>>,
    by_destination: Vec<RoutingEntry<M>>,
    max_entries_per_sector: usize,
    last_cleanup: i64,
}

impl<M> GeographicRoutingTable<M> {
    #[verifier::type_invariant]
    spec fn well_formed(self) -> bool {
        &&& keys_unique(self.entries@)
        &&& forall|i: int| 0 <= i < self.entries@.len() ==> keys_unique(#[trigger] self.entries@[i].routes@)
        &&& forall|i: int| 0 <= i < self.entries@.len() ==> (#[trigger] self.entries@[i]).routes@.len() <= self.max_entries_per_sector
        &&& keys_unique(self.by_destination@)
    }

    /// The sectors and their routes.
    pub closed spec fn sectors(&self) -> Seq<SectorState<M>> {
        sector_states(self.entries@)
    }

    /// The routes by destination.
    pub closed spec fn destinations(&self) -> Seq<RouteState<M>> {
        route_states(self.by_destination@)
    }

    /// The most routes a sector keeps.
    pub closed spec fn spec_max_entries_per_sector(&self) -> usize {
        self.max_entries_per_sector
    }

    /// When expired routes were last removed.
    pub closed spec fn spec_last_cleanup(&self) -> i64 {
        self.last_cleanup
    }

    /// An empty routing table.
    pub fn new(max_entries_per_sector: usize, now: i64) -> (t: Self)
        ensures
            t.sectors() == Seq::<SectorState<M>>::empty(),
            t.destinations() == Seq::<RouteState<M>>::empty(),
            t.spec_max_entries_per_sector() == max_entries_per_sector,
            t.spec_last_cleanup() == now,
    {
        let t = GeographicRoutingTable { entries: Vec::new(), by_destination: Vec::new(), max_entries_per_sector, last_cleanup: now };
        assert(t.sectors() =~= Seq::<SectorState<M>>::empty());
        assert(t.destinations() =~= Seq::<RouteState<M>>::empty());
        t
    }
}

impl<M: Copy> GeographicRoutingTable<M> {
    /// Add a route into `sector`: a route to the same destination is replaced
    /// only by a cheaper one, both within the sector and in the index by
    /// destination, and a full sector keeps its cheapest routes.
    pub fn add_route(&mut self, sector: String, entry: RoutingEntry<M>) -> (r: Result<(), RoutingError>)
        ensures
            r is Ok,
            final(self).sectors() == add_to_sectors(
                old(self).sectors(),
                sector@,
                route_state(entry),
                old(self).spec_max_entries_per_sector() as nat,
            ),
            final(self).destinations() == store_route(old(self).destinations(), route_state(entry)),
            destinations_unique(final(self).destinations()),
            final(self).spec_max_entries_per_sector() == old(self).spec_max_entries_per_sector(),
            final(self).spec_last_cleanup() == old(self).spec_last_cleanup(),
    {
        proof {
            use_type_invariant(&*self);
        }
        let max = self.max_entries_per_sector;
        let indexed = entry.copy_entry();

        let mut by_destination: Vec<RoutingEntry<M>> = Vec::new();
        std::mem::swap(&mut by_destination, &mut self.by_destination);
        let ghost d = by_destination@;
        proof {
            lemma_unique_states(d);
        }
        match find_key(&by_destination, indexed.destination.geohash()) {
            Some(i) => {
                proof {
                    let v = route_states(d);
                    assert(v[i as int].0 == indexed.key());
                    let j = route_index(v, indexed.key());
                    assert(v[j].0 == d[j].key());
                }
                if indexed.route_cost < by_destination[i].route_cost {
                    by_destination.set(i, indexed);
                    proof {
                        assert(route_states(by_destination@) =~= store_route(route_states(d), route_state(entry)));
                        assert forall|a: int, b: int| 0 <= a < by_destination@.len() && 0 <= b < by_destination@.len() && a != b implies #[trigger] by_destination@[a].key() != #[trigger] by_destination@[b].key() by {
                            assert(by_destination@[a].key() == d[a].key() && by_destination@[b].key() == d[b].key());
                        }
                    }
                }
            },
            None => {
                proof {
                    let v = route_states(d);
                    assert(!has_route(v, indexed.key())) by {
                        if has_route(v, indexed.key()) {
                            let j = route_index(v, indexed.key());
                            assert(v[j].0 == d[j].key());
                        }
                    }
                }
                by_destination.push(indexed);
                proof {
                    assert(route_states(by_destination@) =~= store_route(route_states(d), route_state(entry)));
                    assert forall|a: int, b: int| 0 <= a < by_destination@.len() && 0 <= b < by_destination@.len() && a != b implies #[trigger] by_destination@[a].key() != #[trigger] by_destination@[b].key() by {
                        if a < d.len() && b < d.len() {
                            assert(by_destination@[a] == d[a] && by_destination@[b] == d[b]);
                        } else if a < d.len() {
                            assert(by_destination@[a] == d[a] && route_states(d)[a].0 == d[a].key());
                        } else {
                            assert(by_destination@[b] == d[b] && route_states(d)[b].0 == d[b].key());
                        }
                    }
                }
            },
        }

        let mut sectors: Vec<SectorRoutes<M>> = Vec::new();
        std::mem::swap(&mut sectors, &mut self.entries);
        let ghost e = sectors@;
        let ghost v = sector_states(e);
        match find_key(&sectors, sector.as_str()) {
            Some(i) => {
                let old_sector = sectors.remove(i);
                proof {
                    assert(old_sector == e[i as int]);
                    assert(v[i as int].0 == sector@);
                    let j = sector_index(v, sector@);
                    assert(v[j].0 == e[j].key());
                }
                let routes = add_to_sector_routes(old_sector.routes, entry, max);
                let updated = SectorRoutes { sector: old_sector.sector, routes };
                sectors.insert(i, updated);
                proof {
                    assert(sectors@ =~= e.update(i as int, updated));
                    assert(sector_states(sectors@) =~= add_to_sectors(v, sector@, route_state(entry), max as nat));
                    assert forall|a: int, b: int| 0 <= a < sectors@.len() && 0 <= b < sectors@.len() && a != b implies #[trigger] sectors@[a].key() != #[trigger] sectors@[b].key() by {
                        assert(sectors@[a].key() == e[a].key() && sectors@[b].key() == e[b].key());
                    }
                }
            },
            None => {
                proof {
                    assert(!has_sector(v, sector@)) by {
                        if has_sector(v, sector@) {
                            let j = sector_index(v, sector@);
                            assert(v[j].0 == e[j].key());
                        }
                    }
                    assert(route_states(Seq::<RoutingEntry<M>>::empty()) =~= Seq::<RouteState<M>>::empty());
                }
                let routes = add_to_sector_routes(Vec::new(), entry, max);
                let added = SectorRoutes { sector, routes };
                proof {
                    lemma_map_push(e, added);
                }
                sectors.push(added);
                proof {
                    assert(sector_states(sectors@) =~= add_to_sectors(v, added.sector@, route_state(entry), max as nat));
                }
            },
        }
        proof {
            lemma_unique_states(by_destination@);
        }
        self.entries = sectors;
        self.by_destination = by_destination;
        Ok(())
    }
}

/// The route at position `i` is the first of the cheapest routes.
pub open spec fn first_cheapest<M>(s: Seq<RouteState<M>>, i: int) -> bool {
    &&& 0 <= i < s.len()
    &&& forall|j: int| 0 <= j < s.len() ==> s[i].3 <= #[trigger] s[j].3
    &&& forall|j: int| 0 <= j < i ==> s[i].3 < #[trigger] s[j].3
}

/// The routes that are still fresh at `now` under a time to live of `ttl_ms`
/// milliseconds, in order.
pub open spec fn fresh_routes<M>(s: Seq<RouteState<M>>, now: i64, ttl_ms: int) -> Seq<RouteState<M>> {
    s.filter(|r: RouteState<M>| is_fresh(r.4, now, ttl_ms))
}

/// The sectors with only their fresh routes; every sector stays.
pub open spec fn expire_sectors<M>(v: Seq<SectorState<M>>, now: i64, ttl_ms: int) -> Seq<SectorState<M>> {
    v.map_values(|x: SectorState<M>| (x.0, fresh_routes(x.1, now, ttl_ms)))
}

/// The routes that are still fresh at `now`.
fn keep_fresh_routes<M>(routes: Vec<RoutingEntry<M>>, now: i64, ttl_ms: u128) -> (r: Vec<RoutingEntry<M>>)
    ensures
        route_states(r@) == fresh_routes(route_states(routes@), now, ttl_ms as int),
        keys_unique(routes@) ==> keys_unique(r@),
        r@.len() <= routes@.len(),
{
    let ghost whole = routes@;
    let ghost states = route_states(whole);
    let mut rest = routes;
    let mut kept: Vec<RoutingEntry<M>> = Vec::new();
    let ghost mut done: int = 0;
    while rest.len() > 0
        invariant
            0 <= done <= whole.len(),
            states == route_states(whole),
            rest@ == whole.skip(done),
            route_states(kept@) == fresh_routes(states.take(done), now, ttl_ms as int),
            kept@.len() <= done,
            keys_unique(whole) ==> keys_unique(kept@),
            forall|a: int| 0 <= a < kept@.len() ==> exists|b: int| 0 <= b < done && #[trigger] kept@[a] == whole[b],
        decreases rest@.len(),
    {
        assert(whole[done] == rest@[0]);
        let e = rest.remove(0);
        let fresh = fresh_at(e.last_updated, now, ttl_ms);
        proof {
            reveal(Seq::filter);
            let t = states.take(done + 1);
            assert(t.drop_last() =~= states.take(done));
            assert(t.last() == route_state(e));
        }
        if fresh {
            let ghost before = kept@;
            kept.push(e);
            proof {
                assert(route_states(kept@) =~= route_states(before).push(route_state(e)));
                if keys_unique(whole) {
                    assert forall|a: int, b: int| 0 <= a < kept@.len() && 0 <= b < kept@.len() && a != b implies #[trigger] kept@[a].key() != #[trigger] kept@[b].key() by {
                        if a < before.len() && b < before.len() {
                            assert(kept@[a] == before[a] && kept@[b] == before[b]);
                        } else if a < before.len() {
                            let c = choose|c: int| 0 <= c < done && #[trigger] before[a] == whole[c];
                            assert(kept@[a] == whole[c] && kept@[b] == whole[done]);
                        } else {
                            let c = choose|c: int| 0 <= c < done && #[trigger] before[b] == whole[c];
                            assert(kept@[b] == whole[c] && kept@[a] == whole[done]);
                        }
                    }
                }
                assert forall|a: int| 0 <= a < kept@.len() implies exists|b: int| 0 <= b < done + 1 && #[trigger] kept@[a] == whole[b] by {
                    if a < before.len() {
                        let c = choose|c: int| 0 <= c < done && #[trigger] before[a] == whole[c];
                        assert(kept@[a] == whole[c]);
                    } else {
                        assert(kept@[a] == whole[done]);
                    }
                }
            }
        } else {
            proof {
                assert forall|a: int| 0 <= a < kept@.len() implies exists|b: int| 0 <= b < done + 1 && #[trigger] kept@[a] == whole[b] by {
                    let c = choose|c: int| 0 <= c < done && #[trigger] kept@[a] == whole[c];
                }
            }
        }
        proof {
            assert(rest@ =~= whole.skip(done + 1));
            done = done + 1;
        }
    }
    assert(states.take(done) =~= states);
    kept
}

impl<M> GeographicRoutingTable<M> {
    /// Find the best route to a destination: the route indexed under the
    /// destination when there is one, or else the first of the cheapest
    /// routes of the destination's sector.
    pub fn find_route(&self, destination: &GeographicAddress, sector: &str) -> (r: Option<&RoutingEntry<M>>)
        ensures
            has_route(self.destinations(), destination@) ==> (r matches Some(e) && route_state(*e)
                == self.destinations()[route_index(self.destinations(), destination@)]),
            !has_route(self.destinations(), destination@) ==> (r is Some <==> has_sector(self.sectors(), sector@)
                && self.sectors()[sector_index(self.sectors(), sector@)].1.len() > 0),
            !has_route(self.destinations(), destination@) ==> (r matches Some(e) ==> exists|i: int|
                first_cheapest(self.sectors()[sector_index(self.sectors(), sector@)].1, i)
                && route_state(*e) == #[trigger] self.sectors()[sector_index(self.sectors(), sector@)].1[i]),
    {
        proof {
            use_type_invariant(self);
            lemma_unique_states(self.by_destination@);
        }
        let ghost d = route_states(self.by_destination@);
        match find_key(&self.by_destination, destination.geohash()) {
            Some(i) => {
                proof {
                    assert(d[i as int].0 == destination@);
                    let j = route_index(d, destination@);
                    assert(d[j].0 == self.by_destination@[j].key());
                }
                Some(&self.by_destination[i])
            },
            None => {
                proof {
                    assert(!has_route(d, destination@)) by {
                        if has_route(d, destination@) {
                            let j = route_index(d, destination@);
                            assert(d[j].0 == self.by_destination@[j].key());
                        }
                    }
                }
                let ghost v = self.sectors();
                match find_key(&self.entries, sector) {
                    Some(si) => {
                        proof {
                            assert(v[si as int].0 == sector@);
                            let j = sector_index(v, sector@);
                            assert(v[j].0 == self.entries@[j].key());
                        }
                        let routes = &self.entries[si].routes;
                        let ghost rs = route_states(routes@);
                        assert(rs == v[si as int].1);
                        if routes.len() == 0 {
                            None
                        } else {
                            let mut best: usize = 0;
                            let mut k: usize = 1;
                            while k < routes.len()
                                invariant
                                    rs == route_states(routes@),
                                    0 <= best < k <= routes@.len(),
                                    forall|j: int| 0 <= j < k ==> rs[best as int].3 <= #[trigger] rs[j].3,
                                    forall|j: int| 0 <= j < best ==> rs[best as int].3 < #[trigger] rs[j].3,
                                decreases routes@.len() - k,
                            {
                                if routes[k].route_cost < routes[best].route_cost {
                                    best = k;
                                }
                                k = k + 1;
                            }
                            proof {
                                assert(first_cheapest(rs, best as int));
                            }
                            Some(&routes[best])
                        }
                    },
                    None => {
                        proof {
                            if has_sector(v, sector@) {
                                let j = sector_index(v, sector@);
                                assert(v[j].0 == self.entries@[j].key());
                            }
                        }
                        None
                    },
                }
            },
        }
    }

    /// Remove the routes that have expired at `now` under a time to live of
    /// `route_ttl`, from every sector and from the index by destination.
    pub fn cleanup_expired_at(&mut self, now: i64, route_ttl: core::time::Duration)
        ensures
            final(self).sectors() == expire_sectors(old(self).sectors(), now, spec_duration_millis(route_ttl) as int),
            final(self).destinations() == fresh_routes(old(self).destinations(), now, spec_duration_millis(route_ttl) as int),
            final(self).spec_max_entries_per_sector() == old(self).spec_max_entries_per_sector(),
            final(self).spec_last_cleanup() == now,
    {
        proof {
            use_type_invariant(&*self);
        }
        let ttl: u128 = route_ttl.as_millis();
        let max = self.max_entries_per_sector;

        let mut by_destination: Vec<RoutingEntry<M>> = Vec::new();
        std::mem::swap(&mut by_destination, &mut self.by_destination);
        let by_destination = keep_fresh_routes(by_destination, now, ttl);

        let mut rest: Vec<SectorRoutes<M>> = Vec::new();
        std::mem::swap(&mut rest, &mut self.entries);
        let ghost whole = rest@;
        let ghost v = sector_states(whole);
        let mut kept: Vec<SectorRoutes<M>> = Vec::new();
        let ghost mut done: int = 0;
        while rest.len() > 0
            invariant
                0 <= done <= whole.len(),
                v == sector_states(whole),
                rest@ == whole.skip(done),
                kept@.len() == done,
                sector_states(kept@) == expire_sectors(v.take(done), now, ttl as int),
                keys_unique(whole),
                forall|a: int| 0 <= a < whole.len() ==> keys_unique(#[trigger] whole[a].routes@),
                forall|a: int| 0 <= a < whole.len() ==> (#[trigger] whole[a]).routes@.len() <= max,
                forall|a: int| 0 <= a < kept@.len() ==> (#[trigger] kept@[a]).key() == whole[a].key(),
                forall|a: int| 0 <= a < kept@.len() ==> keys_unique(#[trigger] kept@[a].routes@),
                forall|a: int| 0 <= a < kept@.len() ==> (#[trigger] kept@[a]).routes@.len() <= max,
            decreases rest@.len(),
        {
            assert(whole[done] == rest@[0]);
            let sr = rest.remove(0);
            let routes = keep_fresh_routes(sr.routes, now, ttl);
            let ghost before = kept@;
            kept.push(SectorRoutes { sector: sr.sector, routes });
            proof {
                assert(sr == whole[done]);
                assert(v[done] == (whole[done].sector@, route_states(whole[done].routes@)));
                let w = expire_sectors(v.take(done + 1), now, ttl as int);
                assert(w.len() == done + 1);
                assert forall|a: int| 0 <= a < done + 1 implies #[trigger] sector_states(kept@)[a] == w[a] by {
                    if a < done {
                        assert(kept@[a] == before[a]);
                        assert(sector_states(before)[a] == expire_sectors(v.take(done), now, ttl as int)[a]);
                    }
                }
                assert(sector_states(kept@) =~= w);
                assert(rest@ =~= whole.skip(done + 1));
                done = done + 1;
            }
        }
        proof {
            assert(v.take(done) =~= v);
            assert forall|a: int, b: int| 0 <= a < kept@.len() && 0 <= b < kept@.len() && a != b implies #[trigger] kept@[a].key() != #[trigger] kept@[b].key() by {
                assert(kept@[a].key() == whole[a].key() && kept@[b].key() == whole[b].key());
            }
        }
        self.entries = kept;
        self.by_destination = by_destination;
        self.last_cleanup = now;
    }
}

/// The routes are ordered by increasing cost.
pub open spec fn cost_ascending<M>(s: Seq<RouteState<M>>) -> bool {
    forall|i: int, j: int| 0 <= i < j < s.len() ==> #[trigger] s[i].3 <= #[trigger] s[j].3
}

proof fn lemma_insert_by_cost_ascending<M>(s: Seq<RouteState<M>>, x: RouteState<M>)
    requires
        cost_ascending(s),
    ensures
        cost_ascending(insert_by_cost(s, x)),
    decreases s.len(),
{
    lemma_insert_by_cost(s, x);
    let r = insert_by_cost(s, x);
    if s.len() == 0 {
    } else if x.3 < s[0].3 {
        assert forall|i: int, j: int| 0 <= i < j < r.len() implies #[trigger] r[i].3 <= #[trigger] r[j].3 by {
            assert(r[j] == s[j - 1]);
            if i > 0 {
                assert(r[i] == s[i - 1]);
            } else {
                assert(s[0].3 <= s[j - 1].3);
            }
        }
    } else {
        let t = s.drop_first();
        assert(cost_ascending(t)) by {
            assert forall|i: int, j: int| 0 <= i < j < t.len() implies #[trigger] t[i].3 <= #[trigger] t[j].3 by {
                assert(t[i] == s[i + 1] && t[j] == s[j + 1]);
            }
        }
        lemma_insert_by_cost_ascending(t, x);
        lemma_insert_by_cost(t, x);
        let u = insert_by_cost(t, x);
        assert forall|i: int, j: int| 0 <= i < j < r.len() implies #[trigger] r[i].3 <= #[trigger] r[j].3 by {
            assert(r[j] == u[j - 1]);
            if i > 0 {
                assert(r[i] == u[i - 1]);
            } else {
                if u[j - 1] != x {
                    let b = choose|b: int| 0 <= b < t.len() && u[j - 1] == t[b];
                    assert(t[b] == s[b + 1]);
                }
            }
        }
    }
}

/// Sorting by cost orders the routes by increasing cost, and keeps their
/// number.
pub proof fn lemma_sort_by_cost_ascending<M>(s: Seq<RouteState<M>>)
    ensures
        cost_ascending(sort_by_cost(s)),
        sort_by_cost(s).len() == s.len(),
    decreases s.len(),
{
    lemma_sort_by_cost(s);
    if s.len() > 0 {
        lemma_sort_by_cost_ascending(s.drop_last());
        lemma_insert_by_cost_ascending(sort_by_cost(s.drop_last()), s.last());
    }
}

/// A sector never holds more routes than its limit.
pub proof fn law_sector_stays_within_limit<M>(routes: Seq<RouteState<M>>, entry: RouteState<M>, max: nat)
    requires
        routes.len() <= max,
    ensures
        add_to_sector(routes, entry, max).len() <= max,
{
    lemma_sort_by_cost(routes.push(entry));
}

/// When a full sector drops routes, each route it keeps costs no more than
/// any route it drops.
pub proof fn law_full_sector_keeps_cheapest<M>(routes: Seq<RouteState<M>>, entry: RouteState<M>, max: nat)
    requires
        !has_route(routes, entry.0),
        routes.len() + 1 > max,
    ensures
        forall|i: int, j: int|
            0 <= i < max <= j < routes.len() + 1 ==> #[trigger] sort_by_cost(routes.push(entry))[i].3
                <= #[trigger] sort_by_cost(routes.push(entry))[j].3,
        add_to_sector(routes, entry, max) == sort_by_cost(routes.push(entry)).take(max as int),
{
    lemma_sort_by_cost_ascending(routes.push(entry));
}

/// The route a sector keeps to the destination of an offered route is the
/// cheaper of the two: a route only ever gets cheaper.
pub proof fn law_route_only_gets_cheaper<M>(routes: Seq<RouteState<M>>, entry: RouteState<M>, max: nat)
    requires
        destinations_unique(routes),
        has_route(routes, entry.0),
    ensures
        has_route(add_to_sector(routes, entry, max), entry.0),
        ({
            let after = add_to_sector(routes, entry, max);
            let before = routes[route_index(routes, entry.0)].3;
            after[route_index(after, entry.0)].3 == if entry.3 < before { entry.3 } else { before }
        }),
{
    let i = route_index(routes, entry.0);
    let after = add_to_sector(routes, entry, max);
    assert(after.len() == routes.len());
    assert(after[i].0 == entry.0);
    let j = route_index(after, entry.0);
    if j != i {
        assert(after[j] == routes[j]);
    }
}

/// The index by destination keeps one route per destination, and the route
/// it keeps for the destination of an offered route is the cheaper of the
/// two: what `find_route` returns is the best route offered so far.
pub proof fn law_route_found_after_store<M>(routes: Seq<RouteState<M>>, entry: RouteState<M>)
    requires
        destinations_unique(routes),
    ensures
        destinations_unique(store_route(routes, entry)),
        has_route(store_route(routes, entry), entry.0),
        !has_route(routes, entry.0) ==> store_route(routes, entry)[route_index(store_route(routes, entry), entry.0)]
            == entry,
        has_route(routes, entry.0) ==> ({
            let before = routes[route_index(routes, entry.0)];
            store_route(routes, entry)[route_index(store_route(routes, entry), entry.0)] == if entry.3 < before.3 {
                entry
            } else {
                before
            }
        }),
{
    let r = store_route(routes, entry);
    if has_route(routes, entry.0) {
        let i = route_index(routes, entry.0);
        assert(r.len() == routes.len());
        assert(r[i].0 == entry.0);
        assert forall|a: int, b: int| 0 <= a < r.len() && 0 <= b < r.len() && a != b implies #[trigger] r[a].0 != #[trigger] r[b].0 by {
            assert(r[a].0 == routes[a].0 && r[b].0 == routes[b].0);
        }
        let j = route_index(r, entry.0);
        assert(r[j].0 == entry.0);
        if j != i {
            assert(r[j].0 == routes[j].0);
        }
    } else {
        let n = routes.len() as int;
        assert(r[n] == entry);
        assert forall|a: int, b: int| 0 <= a < r.len() && 0 <= b < r.len() && a != b implies #[trigger] r[a].0 != #[trigger] r[b].0 by {
            if a < n && b < n {
                assert(r[a] == routes[a] && r[b] == routes[b]);
            } else if a < n {
                assert(r[a] == routes[a]);
            } else {
                assert(r[b] == routes[b]);
            }
        }
        let j = route_index(r, entry.0);
        assert(r[j].0 == entry.0);
        if j != n {
            assert(r[j] == routes[j]);
        }
    }
}

/// Removing expired routes keeps every route that is still fresh under the
/// time to live, and nothing that has expired.
pub proof fn law_expiry_keeps_exactly_fresh<M>(routes: Seq<RouteState<M>>, now: i64, ttl_ms: int)
    ensures
        forall|i: int|
            0 <= i < routes.len() && is_fresh(routes[i].4, now, ttl_ms) ==> #[trigger] fresh_routes(routes, now, ttl_ms).contains(
                routes[i],
            ),
        forall|j: int|
            0 <= j < fresh_routes(routes, now, ttl_ms).len() ==> is_fresh(
                (#[trigger] fresh_routes(routes, now, ttl_ms)[j]).4,
                now,
                ttl_ms,
            ),
{
    broadcast use vstd::seq_lib::group_filter_ensures;

    let pred = |r: RouteState<M>| is_fresh(r.4, now, ttl_ms);
    assert forall|i: int| 0 <= i < routes.len() && is_fresh(routes[i].4, now, ttl_ms) implies #[trigger] fresh_routes(
        routes,
        now,
        ttl_ms,
    ).contains(routes[i]) by {
        assert(pred(routes[i]));
        routes.lemma_filter_contains(pred, i);
    }
    assert forall|j: int| 0 <= j < fresh_routes(routes, now, ttl_ms).len() implies is_fresh(
        (#[trigger] fresh_routes(routes, now, ttl_ms)[j]).4,
        now,
        ttl_ms,
    ) by {
        routes.lemma_filter_pred(pred, j);
    }
}

/// Routing errors.
#[derive(Debug)]
pub enum RoutingError {
    /// No route leads to the destination
    NoRouteFound,
    /// A route cost could not be computed
    RouteCalculationFailed(String),
    /// The node is unknown
    NodeNotFound(NodeId),
    /// A geographic operation failed
    GeographicError(GeographicError),
    /// A network operation failed
    NetworkError(NetworkError),
    /// The route entry is invalid
    InvalidRouteEntry,
    /// The routing table is full
    RoutingTableFull,
}

} // verus!
