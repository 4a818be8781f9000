//! Node discovery: the registry of known nodes by geographic region, with
//! its size limit, and the progress of the discovery protocol.

use vstd::prelude::*;

use crate::keyed::{Keyed, find_key, insert_keyed, keyed_insert, keys_unique};
use crate::text::{contains_text, text_seq};
use crate::governance::lemma_multiset_cons;
use crate::network::NodeId;

verus! {

/// Discovery phases.
#[derive(Debug, Clone, Copy, PartialEq, Eq, Structural)]
pub enum DiscoveryPhase {
    /// Initial bootstrap phase
    Bootstrap,
    /// Geographic discovery phase
    Geographic,
    /// Bridge discovery phase
    Bridge,
    /// Maintenance phase
    Maintenance,
}

/// Number of known nodes at which bootstrap discovery gives way to
/// geographic discovery.
pub const BOOTSTRAP_NODE_TARGET: usize = 5;

impl DiscoveryPhase {
    /// The phase after a round of bootstrap discovery, once `discovered_nodes`
    /// nodes are known: bootstrap turns geographic when enough nodes are
    /// known, and every other phase stays as it is.
    pub fn after_bootstrap_round(&self, discovered_nodes: usize) -> (p: DiscoveryPhase)
        ensures
            p == (if *self == DiscoveryPhase::Bootstrap && discovered_nodes >= BOOTSTRAP_NODE_TARGET {
                DiscoveryPhase::Geographic
            } else {
                *self
            }),
    {
        if *self == DiscoveryPhase::Bootstrap && discovered_nodes >= BOOTSTRAP_NODE_TARGET {
            DiscoveryPhase::Geographic
        } else {
            *self
        }
    }
}

/// Discovery query types.
#[derive(Debug, Clone, Copy, PartialEq, Eq, Structural)]
pub enum DiscoveryQueryType {
    /// Find nearby nodes
    FindNearby,
    /// Find nodes in specific region
    FindInRegion,
    /// Find bridge nodes
    FindBridge,
    /// Find anchor nodes
    FindAnchor,
}

/// Types of geographic anchors.
#[derive(Debug, Clone, Copy, PartialEq, Eq, Structural)]
pub enum AnchorType {
    /// Public space (parks, plazas)
    PublicSpace,
    /// Transportation hub
    TransportationHub,
    /// Commercial area
    CommercialArea,
    /// Educational institution
    EducationalInstitution,
    /// Emergency service location
    EmergencyService,
    /// User-defined anchor
    UserDefined,
}

#[verifier::external_type_specification]
#[verifier::external_body]
pub struct ExInstant(std::time::Instant);

/// Discovery statistics.
#[derive(Debug, Clone, Copy)]
pub struct DiscoveryStats {
    /// Total number of known nodes
    pub total_known_nodes: usize,
    /// Number of geographic regions with known nodes
    pub geographic_regions: usize,
    /// Current discovery phase
    pub discovery_phase: DiscoveryPhase,
    /// Number of discovery attempts
    pub discovery_attempts: u32,
    /// Last discovery time
    pub last_discovery: std::time::Instant,
}

} // verus!

verus! {

/// A known node: its id, when it was last seen (Unix milliseconds), and what
/// else is known of it.
#[derive(Debug)]
pub struct KnownNode<N> {
    pub id: NodeId,
    pub last_seen: i64,
    pub info: N,
}

impl<N> Keyed for KnownNode<N> {
    open spec fn key(&self) -> Seq<char> {
        self.id.0@
    }

    fn key_text(&self) -> (k: &str) {
        self.id.0.as_str()
    }
}

/// The known nodes of one geographic region.
#[derive(Debug)]
pub struct RegionNodes<N> {
    /// Geohash of the region
    pub geohash: String,
    /// Nodes seen in the region
    pub nodes: Vec<KnownNode<N>>,
}

impl<N> Keyed for RegionNodes<N> {
    open spec fn key(&self) -> Seq<char> {
        self.geohash@
    }

    fn key_text(&self) -> (k: &str) {
        self.geohash.as_str()
    }
}

/// What a region holds, as plain values: its geohash and its nodes.
pub open spec fn region_view<N>(r: RegionNodes<N>) -> (Seq<char>, Seq<KnownNode<N>>) {
    (r.geohash@, r.nodes@)
}

/// The regions as plain values.
pub open spec fn regions_view<N>(s: Seq<RegionNodes<N>>) -> Seq<(Seq<char>, Seq<KnownNode<N>>)> {
    s.map_values(|r: RegionNodes<N>| region_view(r))
}

/// The id and last-seen time of a node.
pub open spec fn sighting<N>(n: KnownNode<N>) -> (Seq<char>, i64) {
    (n.id.0@, n.last_seen)
}

/// The id and last-seen time of each node of the regions, region by region.
pub open spec fn sightings<N>(v: Seq<(Seq<char>, Seq<KnownNode<N>>)>) -> Seq<(Seq<char>, i64)>
    decreases v.len(),
{
    if v.len() == 0 {
        Seq::empty()
    } else {
        sightings(v.drop_last()) + v.last().1.map_values(|n: KnownNode<N>| sighting(n))
    }
}

/// Insert `x` into a sequence ordered by increasing time, after every element
/// seen no later than `x`.
pub open spec fn insert_by_time(s: Seq<(Seq<char>, i64)>, x: (Seq<char>, i64)) -> Seq<(Seq<char>, i64)>
    decreases s.len(),
{
    if s.len() == 0 {
        seq![x]
    } else if s[0].1 > x.1 {
        seq![x] + s
    } else {
        seq![s[0]] + insert_by_time(s.drop_first(), x)
    }
}

/// Stable sort by increasing time: sightings at the same time keep their order.
pub open spec fn sort_by_time(s: Seq<(Seq<char>, i64)>) -> Seq<(Seq<char>, i64)>
    decreases s.len(),
{
    if s.len() == 0 {
        Seq::empty()
    } else {
        insert_by_time(sort_by_time(s.drop_last()), s.last())
    }
}

/// The ids that the size limit evicts: those of the sightings before the
/// `keep` most recent ones.
pub open spec fn evicted_ids(s: Seq<(Seq<char>, i64)>, keep: int) -> Set<Seq<char>> {
    let sorted = sort_by_time(s);
    if keep >= sorted.len() {
        Set::empty()
    } else {
        sorted.take(sorted.len() - keep).map_values(|p: (Seq<char>, i64)| p.0).to_set()
    }
}

/// The nodes of a region whose ids are not evicted, in order.
pub open spec fn surviving<N>(nodes: Seq<KnownNode<N>>, evicted: Set<Seq<char>>) -> Seq<KnownNode<N>>
    decreases nodes.len(),
{
    if nodes.len() == 0 {
        Seq::empty()
    } else {
        let rest = surviving(nodes.drop_last(), evicted);
        if evicted.contains(nodes.last().id.0@) {
            rest
        } else {
            rest.push(nodes.last())
        }
    }
}

/// Some region has the geohash.
pub open spec fn has_region<N>(v: Seq<(Seq<char>, Seq<KnownNode<N>>)>, geohash: Seq<char>) -> bool {
    exists|i: int| 0 <= i < v.len() && v[i].0 == geohash
}

/// The position of a region with the geohash.
pub open spec fn region_index<N>(v: Seq<(Seq<char>, Seq<KnownNode<N>>)>, geohash: Seq<char>) -> int {
    choose|i: int| 0 <= i < v.len() && v[i].0 == geohash
}

/// The regions after storing a node seen in region `geohash`: the node
/// replaces the node of the same id there, or joins the region; a new region
/// is added at the end.
pub open spec fn store_sighting<N>(
    v: Seq<(Seq<char>, Seq<KnownNode<N>>)>,
    geohash: Seq<char>,
    node: KnownNode<N>,
) -> Seq<(Seq<char>, Seq<KnownNode<N>>)> {
    if has_region(v, geohash) {
        let i = region_index(v, geohash);
        v.update(i, (geohash, keyed_insert(v[i].1, node)))
    } else {
        v.push((geohash, seq![node]))
    }
}

/// The regions after the size limit: when more nodes are known than
/// `max_known_nodes`, only the nodes among the `max_known_nodes / 2` most
/// recent sightings keep their place; every other id is removed from every
/// region. Regions themselves stay, even when emptied.
pub open spec fn enforce_limit<N>(v: Seq<(Seq<char>, Seq<KnownNode<N>>)>, max_known_nodes: nat) -> Seq<(Seq<char>, Seq<KnownNode<N>>)> {
    if node_count(v) > max_known_nodes {
        let evicted = evicted_ids(sightings(v), (max_known_nodes / 2) as int);
        v.map_values(|r: (Seq<char>, Seq<KnownNode<N>>)| (r.0, surviving(r.1, evicted)))
    } else {
        v
    }
}

/// Total number of nodes over the regions.
pub open spec fn node_count<N>(v: Seq<(Seq<char>, Seq<KnownNode<N>>)>) -> nat
    decreases v.len(),
{
    if v.len() == 0 {
        0
    } else {
        node_count(v.drop_last()) + v.last().1.len()
    }
}

/// The sightings whose ids are not evicted.
pub open spec fn not_evicted(evicted: Set<Seq<char>>) -> spec_fn((Seq<char>, i64)) -> bool {
    |q: (Seq<char>, i64)| !evicted.contains(q.0)
}

proof fn lemma_filter_cons_len<A>(a: A, t: Seq<A>, p: spec_fn(A) -> bool)
    ensures
        (seq![a] + t).filter(p).len() == (if p(a) { 1int } else { 0int }) + t.filter(p).len(),
{
    reveal(Seq::filter);
    Seq::filter_distributes_over_add(seq![a], t, p);
    let one = seq![a];
    assert(one.drop_last() =~= Seq::<A>::empty());
    assert(one.drop_last().filter(p).len() == 0);
    assert(one.last() == a);
    assert(one.filter(p).len() == if p(a) { 1int } else { 0int });
}

proof fn lemma_filter_push_len<A>(t: Seq<A>, a: A, p: spec_fn(A) -> bool)
    ensures
        t.push(a).filter(p).len() == t.filter(p).len() + (if p(a) { 1int } else { 0int }),
{
    reveal(Seq::filter);
    assert(t.push(a).drop_last() =~= t);
}

proof fn lemma_filter_none<A>(s: Seq<A>, p: spec_fn(A) -> bool)
    requires
        forall|i: int| 0 <= i < s.len() ==> !p(#[trigger] s[i]),
    ensures
        s.filter(p).len() == 0,
    decreases s.len(),
{
    reveal(Seq::filter);
    if s.len() > 0 {
        let init = s.drop_last();
        assert forall|i: int| 0 <= i < init.len() implies !p(#[trigger] init[i]) by {
            assert(init[i] == s[i]);
        }
        lemma_filter_none(init, p);
        assert(!p(s[s.len() - 1]));
    }
}

proof fn lemma_insert_by_time_filter_len(s: Seq<(Seq<char>, i64)>, x: (Seq<char>, i64), p: spec_fn((Seq<char>, i64)) -> bool)
    ensures
        insert_by_time(s, x).filter(p).len() == s.filter(p).len() + (if p(x) { 1int } else { 0int }),
        insert_by_time(s, x).len() == s.len() + 1,
    decreases s.len(),
{
    if s.len() == 0 {
        lemma_filter_cons_len(x, s, p);
        assert(seq![x] + s =~= seq![x]);
    } else if s[0].1 > x.1 {
        lemma_filter_cons_len(x, s, p);
    } else {
        let t = s.drop_first();
        lemma_insert_by_time_filter_len(t, x, p);
        lemma_filter_cons_len(s[0], insert_by_time(t, x), p);
        lemma_filter_cons_len(s[0], t, p);
        assert(seq![s[0]] + t =~= s);
    }
}

proof fn lemma_sort_by_time_filter_len(s: Seq<(Seq<char>, i64)>, p: spec_fn((Seq<char>, i64)) -> bool)
    ensures
        sort_by_time(s).filter(p).len() == s.filter(p).len(),
        sort_by_time(s).len() == s.len(),
    decreases s.len(),
{
    reveal(Seq::filter);
    if s.len() > 0 {
        lemma_sort_by_time_filter_len(s.drop_last(), p);
        lemma_insert_by_time_filter_len(sort_by_time(s.drop_last()), s.last(), p);
        lemma_filter_push_len(s.drop_last(), s.last(), p);
        assert(s.drop_last().push(s.last()) =~= s);
    }
}

proof fn lemma_surviving_sightings<N>(nodes: Seq<KnownNode<N>>, e: Set<Seq<char>>)
    ensures
        surviving(nodes, e).map_values(|n: KnownNode<N>| sighting(n)) == nodes.map_values(|n: KnownNode<N>| sighting(n)).filter(
            not_evicted(e),
        ),
    decreases nodes.len(),
{
    reveal(Seq::filter);
    let m = nodes.map_values(|n: KnownNode<N>| sighting(n));
    if nodes.len() == 0 {
        assert(surviving(nodes, e).map_values(|n: KnownNode<N>| sighting(n)) =~= m.filter(not_evicted(e)));
    } else {
        let init = nodes.drop_last();
        lemma_surviving_sightings(init, e);
        assert(m.drop_last() =~= init.map_values(|n: KnownNode<N>| sighting(n)));
        assert(m.last() == sighting(nodes.last()));
        let rest = surviving(init, e);
        if !e.contains(nodes.last().id.0@) {
            assert(rest.push(nodes.last()).map_values(|n: KnownNode<N>| sighting(n)) =~= rest.map_values(|n: KnownNode<N>| sighting(n)).push(sighting(nodes.last())));
        }
    }
}

proof fn lemma_sightings_after_eviction<N>(v: Seq<(Seq<char>, Seq<KnownNode<N>>)>, e: Set<Seq<char>>)
    ensures
        sightings(v.map_values(|r: (Seq<char>, Seq<KnownNode<N>>)| (r.0, surviving(r.1, e)))) == sightings(v).filter(not_evicted(e)),
    decreases v.len(),
{
    reveal(Seq::filter);
    let w = v.map_values(|r: (Seq<char>, Seq<KnownNode<N>>)| (r.0, surviving(r.1, e)));
    if v.len() == 0 {
        assert(sightings(w) =~= sightings(v).filter(not_evicted(e)));
    } else {
        let init = v.drop_last();
        lemma_sightings_after_eviction(init, e);
        assert(w.drop_last() =~= init.map_values(|r: (Seq<char>, Seq<KnownNode<N>>)| (r.0, surviving(r.1, e))));
        lemma_surviving_sightings(v.last().1, e);
        Seq::filter_distributes_over_add(sightings(init), v.last().1.map_values(|n: KnownNode<N>| sighting(n)), not_evicted(e));
    }
}

proof fn lemma_node_count_sightings<N>(v: Seq<(Seq<char>, Seq<KnownNode<N>>)>)
    ensures
        node_count(v) == sightings(v).len(),
    decreases v.len(),
{
    if v.len() > 0 {
        lemma_node_count_sightings(v.drop_last());
    }
}

/// The size limit holds: after it is enforced, no more nodes are known than
/// the limit. When it evicts, at most half the limit stay: the nodes of the
/// most recent sightings.
pub proof fn law_limit_bounds_node_count<N>(v: Seq<(Seq<char>, Seq<KnownNode<N>>)>, max_known_nodes: nat)
    ensures
        node_count(enforce_limit(v, max_known_nodes)) <= max_known_nodes,
        node_count(v) > max_known_nodes ==> node_count(enforce_limit(v, max_known_nodes)) <= max_known_nodes / 2,
{
    if node_count(v) > max_known_nodes {
        let keep = (max_known_nodes / 2) as int;
        let s = sightings(v);
        let sorted = sort_by_time(s);
        lemma_node_count_sightings(v);
        let e = evicted_ids(s, keep);
        let p = not_evicted(e);
        lemma_sort_by_time_filter_len(s, p);
        let cut = sorted.len() - keep;
        let a = sorted.take(cut);
        let b = sorted.skip(cut);
        assert(a + b =~= sorted);
        Seq::filter_distributes_over_add(a, b, p);
        assert forall|i: int| 0 <= i < a.len() implies !p(#[trigger] a[i]) by {
            let ids = a.map_values(|q: (Seq<char>, i64)| q.0);
            assert(ids[i] == a[i].0);
            assert(ids.contains(a[i].0));
        }
        lemma_filter_none(a, p);
        b.lemma_filter_len(p);
        lemma_sightings_after_eviction(v, e);
        lemma_node_count_sightings(enforce_limit(v, max_known_nodes));
    }
}

/// Regions are never dropped: adding a node keeps every region, in order,
/// and adds the node's region at the end when it is new.
pub proof fn law_regions_persist<N>(
    v: Seq<(Seq<char>, Seq<KnownNode<N>>)>,
    geohash: Seq<char>,
    node: KnownNode<N>,
    max_known_nodes: nat,
)
    ensures
        ({
            let after = enforce_limit(store_sighting(v, geohash, node), max_known_nodes);
            &&& after.len() == if has_region(v, geohash) { v.len() } else { v.len() + 1 }
            &&& forall|i: int| 0 <= i < v.len() ==> (#[trigger] after[i]).0 == v[i].0
            &&& has_region(after, geohash)
        }),
{
    let stored = store_sighting(v, geohash, node);
    let after = enforce_limit(stored, max_known_nodes);
    if has_region(v, geohash) {
        let i = region_index(v, geohash);
        assert(after[i].0 == geohash);
    } else {
        assert(after[v.len() as int].0 == geohash);
    }
}

/// When the registry stays within its limit, a node just added is found in
/// its region with exactly the sighting it was added with.
pub proof fn law_added_node_is_found<N>(
    v: Seq<(Seq<char>, Seq<KnownNode<N>>)>,
    geohash: Seq<char>,
    node: KnownNode<N>,
    max_known_nodes: nat,
)
    requires
        forall|i: int| 0 <= i < v.len() ==> keys_unique(#[trigger] v[i].1),
        node_count(store_sighting(v, geohash, node)) <= max_known_nodes,
    ensures
        exists|i: int, j: int|
            0 <= i < enforce_limit(store_sighting(v, geohash, node), max_known_nodes).len()
                && 0 <= j < enforce_limit(store_sighting(v, geohash, node), max_known_nodes)[i].1.len()
                && enforce_limit(store_sighting(v, geohash, node), max_known_nodes)[i].0 == geohash
                && #[trigger] enforce_limit(store_sighting(v, geohash, node), max_known_nodes)[i].1[j] == node,
{
    let after = enforce_limit(store_sighting(v, geohash, node), max_known_nodes);
    if has_region(v, geohash) {
        let i = region_index(v, geohash);
        let s = v[i].1;
        if exists|k: int| 0 <= k < s.len() && s[k].key() == node.key() {
            let k = choose|k: int| 0 <= k < s.len() && s[k].key() == node.key();
            assert(after[i].1[k] == node);
        } else {
            assert(after[i].1[s.len() as int] == node);
        }
    } else {
        assert(after[v.len() as int].1[0] == node);
    }
}

/// A node's id and last-seen time.
struct Sighting {
    id: String,
    last_seen: i64,
}

spec fn sighting_views(v: Seq<Sighting>) -> Seq<(Seq<char>, i64)> {
    v.map_values(|s: Sighting| (s.id@, s.last_seen))
}

/// Keys of a subsequence kept by `surviving` are distinct and come from the input.
proof fn lemma_surviving<N>(nodes: Seq<KnownNode<N>>, evicted: Set<Seq<char>>)
    requires
        keys_unique(nodes),
    ensures
        keys_unique(surviving(nodes, evicted)),
        forall|a: int| 0 <= a < surviving(nodes, evicted).len() ==> exists|b: int|
            0 <= b < nodes.len() && #[trigger] surviving(nodes, evicted)[a] == nodes[b],
    decreases nodes.len(),
{
    if nodes.len() > 0 {
        let init = nodes.drop_last();
        assert(keys_unique(init)) by {
            assert forall|a: int, b: int| 0 <= a < init.len() && 0 <= b < init.len() && a != b implies #[trigger] init[a].key() != #[trigger] init[b].key() by {
                assert(init[a] == nodes[a] && init[b] == nodes[b]);
            }
        }
        lemma_surviving(init, evicted);
        let rest = surviving(init, evicted);
        if !evicted.contains(nodes.last().id.0@) {
            let t = rest.push(nodes.last());
            assert forall|a: int, b: int| 0 <= a < t.len() && 0 <= b < t.len() && a != b implies #[trigger] t[a].key() != #[trigger] t[b].key() by {
                if a == rest.len() as int {
                    let c = choose|c: int| 0 <= c < init.len() && rest[b] == init[c];
                    assert(nodes[c] == init[c]);
                    assert(nodes.last() == nodes[nodes.len() - 1]);
                } else if b == rest.len() as int {
                    let c = choose|c: int| 0 <= c < init.len() && rest[a] == init[c];
                    assert(nodes[c] == init[c]);
                    assert(nodes.last() == nodes[nodes.len() - 1]);
                } else {
                    assert(t[a] == rest[a] && t[b] == rest[b]);
                }
            }
            assert forall|a: int| 0 <= a < t.len() implies exists|b: int| 0 <= b < nodes.len() && #[trigger] t[a] == nodes[b] by {
                if a == rest.len() as int {
                    assert(t[a] == nodes[nodes.len() - 1]);
                } else {
                    let c = choose|c: int| 0 <= c < init.len() && rest[a] == init[c];
                    assert(t[a] == nodes[c]);
                }
            }
        } else {
            assert forall|a: int| 0 <= a < rest.len() implies exists|b: int| 0 <= b < nodes.len() && #[trigger] rest[a] == nodes[b] by {
                let c = choose|c: int| 0 <= c < init.len() && rest[a] == init[c];
                assert(rest[a] == nodes[c]);
            }
        }
    }
}

/// Inserting at the first position seen later than `x` is `insert_by_time`.
proof fn lemma_insert_at_first_later(s: Seq<(Seq<char>, i64)>, x: (Seq<char>, i64), k: int)
    requires
        0 <= k <= s.len(),
        forall|m: int| 0 <= m < k ==> (#[trigger] s[m]).1 <= x.1,
        k < s.len() ==> s[k].1 > x.1,
    ensures
        s.insert(k, x) == insert_by_time(s, x),
    decreases s.len(),
{
    if s.len() == 0 {
        assert(s.insert(k, x) =~= seq![x]);
    } else if k == 0 {
        assert(s.insert(k, x) =~= seq![x] + s);
    } else {
        let t = s.drop_first();
        assert forall|m: int| 0 <= m < k - 1 implies (#[trigger] t[m]).1 <= x.1 by {
            assert(t[m] == s[m + 1]);
        }
        lemma_insert_at_first_later(t, x, k - 1);
        assert(s.insert(k, x) =~= seq![s[0]] + t.insert(k - 1, x));
    }
}

/// Sort sightings by increasing time, keeping the order of equal times.
fn sort_sightings(input: Vec<Sighting>) -> (sorted: Vec<Sighting>)
    ensures
        sighting_views(sorted@) == sort_by_time(sighting_views(input@)),
{
    let ghost whole = sighting_views(input@);
    let mut rest = input;
    let mut sorted: Vec<Sighting> = Vec::new();
    let ghost mut done: int = 0;
    while rest.len() > 0
        invariant
            0 <= done <= whole.len(),
            sighting_views(rest@) == whole.skip(done),
            sighting_views(sorted@) == sort_by_time(whole.take(done)),
        decreases rest@.len(),
    {
        assert(sighting_views(rest@).len() == rest@.len());
        assert(done < whole.len());
        assert(sighting_views(rest@)[0] == whole[done]);
        let ghost rest0 = rest@;
        let x = rest.remove(0);
        let ghost xv = (x.id@, x.last_seen);
        assert(whole[done] == xv) by {
            assert(sighting_views(rest0)[0] == (rest0[0].id@, rest0[0].last_seen));
        }
        let mut k: usize = 0;
        while k < sorted.len() && sorted[k].last_seen <= x.last_seen
            invariant
                k <= sorted@.len(),
                forall|m: int| 0 <= m < k ==> (#[trigger] sorted@[m]).last_seen <= x.last_seen,
            decreases sorted@.len() - k,
        {
            k = k + 1;
        }
        proof {
            let sv = sighting_views(sorted@);
            assert forall|m: int| 0 <= m < k implies (#[trigger] sv[m]).1 <= xv.1 by {
                assert(sv[m].1 == sorted@[m].last_seen);
            }
            if k < sorted@.len() {
                assert(sv[k as int].1 == sorted@[k as int].last_seen);
            }
            lemma_insert_at_first_later(sv, xv, k as int);
            assert(whole.take(done + 1).drop_last() =~= whole.take(done));
            assert(whole.take(done + 1).last() == xv);
        }
        let ghost before = sorted@;
        sorted.insert(k, x);
        proof {
            assert(sighting_views(sorted@) =~= sighting_views(before).insert(k as int, xv));
            assert(rest@ =~= rest0.drop_first());
            assert(sighting_views(rest@) =~= sighting_views(rest0).drop_first());
            assert(whole.skip(done).drop_first() =~= whole.skip(done + 1));
            done = done + 1;
        }
    }
    assert(whole.take(done) =~= whole);
    sorted
}

/// The nodes whose ids are not in `evicted`, in order.
fn keep_surviving<N>(nodes: Vec<KnownNode<N>>, evicted: &Vec<String>) -> (kept: Vec<KnownNode<N>>)
    ensures
        kept@ == surviving(nodes@, text_seq(evicted@).to_set()),
{
    let ghost whole = nodes@;
    let ghost e = text_seq(evicted@).to_set();
    let mut rest = nodes;
    let mut kept: Vec<KnownNode<N>> = Vec::new();
    let ghost mut done: int = 0;
    while rest.len() > 0
        invariant
            0 <= done <= whole.len(),
            rest@ == whole.skip(done),
            kept@ == surviving(whole.take(done), e),
            e == text_seq(evicted@).to_set(),
        decreases rest@.len(),
    {
        let ghost rest0 = rest@;
        assert(whole[done] == rest0[0]);
        let n = rest.remove(0);
        proof {
            assert(whole.take(done + 1).drop_last() =~= whole.take(done));
            assert(whole.take(done + 1).last() == n);
        }
        if !contains_text(evicted, n.id.0.as_str()) {
            kept.push(n);
        }
        proof {
            assert(rest@ =~= whole.skip(done + 1));
            done = done + 1;
        }
    }
    assert(whole.take(done) =~= whole);
    kept
}

/// Known nodes organized by geographic region.
pub struct KnownNodeRegistry<N> {
    regions: Vec<RegionNodes<N>>,
    max_known_nodes: usize,
}

impl<N> View for KnownNodeRegistry<N> {
    type V = Seq<(Seq<char>, Seq<KnownNode<N>>)>;

    /// The regions in the order they were first seen, each with its nodes.
    closed spec fn view(&self) -> Seq<(Seq<char>, Seq<KnownNode<N>>)> {
        regions_view(self.regions@)
    }
}

impl<N> KnownNodeRegistry<N> {
    #[verifier::type_invariant]
    spec fn well_formed(self) -> bool {
        &&& keys_unique(self.regions@)
        &&& forall|i: int| 0 <= i < self.regions@.len() ==> keys_unique((#[trigger] self.regions@[i]).nodes@)
    }

    /// The limit above which the registry evicts nodes.
    pub closed spec fn spec_max_known_nodes(&self) -> usize {
        self.max_known_nodes
    }

    /// An empty registry.
    pub fn new(max_known_nodes: usize) -> (r: Self)
        ensures
            r@ == Seq::<(Seq<char>, Seq<KnownNode<N>>)>::empty(),
            r.spec_max_known_nodes() == max_known_nodes,
    {
        let r = KnownNodeRegistry { regions: Vec::new(), max_known_nodes };
        assert(r@ =~= Seq::<(Seq<char>, Seq<KnownNode<N>>)>::empty());
        r
    }

    /// The id and last-seen time of every node, region by region.
    fn collect_sightings(&self) -> (v: Vec<Sighting>)
        ensures
            sighting_views(v@) == sightings(self@),
    {
        let ghost rv = self@;
        let mut v: Vec<Sighting> = Vec::new();
        let mut j: usize = 0;
        while j < self.regions.len()
            invariant
                rv == regions_view(self.regions@),
                j <= self.regions@.len(),
                sighting_views(v@) == sightings(rv.take(j as int)),
            decreases self.regions@.len() - j,
        {
            let nodes = &self.regions[j].nodes;
            let ghost base = sighting_views(v@);
            let mut k: usize = 0;
            while k < nodes.len()
                invariant
                    j < self.regions@.len(),
                    *nodes == self.regions@[j as int].nodes,
                    k <= nodes@.len(),
                    sighting_views(v@) == base + nodes@.take(k as int).map_values(|n: KnownNode<N>| sighting(n)),
                decreases nodes@.len() - k,
            {
                let ghost before = v@;
                v.push(Sighting { id: nodes[k].id.0.clone(), last_seen: nodes[k].last_seen });
                proof {
                    assert(sighting_views(v@) =~= sighting_views(before).push(sighting(nodes@[k as int])));
                    assert(nodes@.take(k + 1).map_values(|n: KnownNode<N>| sighting(n)) =~= nodes@.take(k as int).map_values(|n: KnownNode<N>| sighting(n)).push(sighting(nodes@[k as int])));
                }
                k = k + 1;
            }
            proof {
                assert(nodes@.take(nodes@.len() as int) =~= nodes@);
                assert(rv.take(j + 1).drop_last() =~= rv.take(j as int));
                assert(rv.take(j + 1).last() == region_view(self.regions@[j as int]));
            }
            j = j + 1;
        }
        assert(rv.take(self.regions@.len() as int) =~= rv);
        v
    }

    /// Add a discovered node seen in the region `geohash`: it replaces the
    /// node of the same id in that region, or joins it. When more nodes are
    /// then known than the limit, only the nodes among the `limit / 2` most
    /// recent sightings are kept, and every other id is removed from every
    /// region.
    pub fn add_discovered_node(&mut self, geohash: String, node: KnownNode<N>)
        ensures
            final(self)@ == enforce_limit(
                store_sighting(old(self)@, geohash@, node),
                old(self).spec_max_known_nodes() as nat,
            ),
            node_count(final(self)@) <= final(self).spec_max_known_nodes(),
            final(self).spec_max_known_nodes() == old(self).spec_max_known_nodes(),
    {
        proof {
            use_type_invariant(&*self);
            law_limit_bounds_node_count(
                store_sighting(self@, geohash@, node),
                self.max_known_nodes as nat,
            );
        }
        let ghost g = geohash@;
        let ghost n0 = node;
        let ghost v0 = self@;
        let mut regions: Vec<RegionNodes<N>> = Vec::new();
        std::mem::swap(&mut regions, &mut self.regions);
        let ghost r0 = regions@;
        match find_key(&regions, geohash.as_str()) {
            Some(i) => {
                let mut r = regions.remove(i);
                let ghost nodes0 = r.nodes@;
                insert_keyed(&mut r.nodes, node);
                regions.insert(i, r);
                proof {
                    assert(v0[i as int].0 == g);
                    assert(has_region(v0, g));
                    let j = region_index(v0, g);
                    if j != i {
                        assert(r0[j].key() == r0[i as int].key());
                    }
                    assert(regions_view(regions@) =~= v0.update(i as int, (g, keyed_insert(nodes0, n0))));
                    assert(v0[i as int].1 == nodes0);
                    assert(j == i);
                    assert(v0.update(j, (g, keyed_insert(v0[j].1, n0))) == v0.update(i as int, (g, keyed_insert(nodes0, n0))));
                    assert(store_sighting(v0, g, n0) == v0.update(j, (g, keyed_insert(v0[j].1, n0))));
                    assert(regions_view(regions@) == store_sighting(v0, g, n0));
                    assert forall|a: int, b: int| 0 <= a < regions@.len() && 0 <= b < regions@.len() && a != b implies #[trigger] regions@[a].key() != #[trigger] regions@[b].key() by {
                        assert(regions@[a].key() == r0[a].key());
                        assert(regions@[b].key() == r0[b].key());
                    }
                    assert forall|a: int| 0 <= a < regions@.len() implies keys_unique((#[trigger] regions@[a]).nodes@) by {
                        if a != i {
                            assert(regions@[a] == r0[a]);
                        }
                    }
                }
            },
            None => {
                let region = RegionNodes { geohash, nodes: vec![node] };
                proof {
                    assert(region.nodes@ =~= seq![n0]);
                    assert(!has_region(v0, g)) by {
                        if has_region(v0, g) {
                            let j = region_index(v0, g);
                            assert(r0[j].key() == g);
                        }
                    }
                }
                regions.push(region);
                proof {
                    assert(regions_view(regions@) =~= v0.push((g, seq![n0])));
                    assert(regions_view(regions@) == store_sighting(v0, g, n0));
                    assert forall|a: int, b: int| 0 <= a < regions@.len() && 0 <= b < regions@.len() && a != b implies #[trigger] regions@[a].key() != #[trigger] regions@[b].key() by {
                        if a < r0.len() && b < r0.len() {
                            assert(regions@[a] == r0[a] && regions@[b] == r0[b]);
                        } else if a < r0.len() {
                            assert(regions@[a] == r0[a]);
                        } else {
                            assert(regions@[b] == r0[b]);
                        }
                    }
                    assert forall|a: int| 0 <= a < regions@.len() implies keys_unique((#[trigger] regions@[a]).nodes@) by {
                        if a < r0.len() {
                            assert(regions@[a] == r0[a]);
                        }
                    }
                }
            },
        }
        self.regions = regions;
        if self.exceeds(self.max_known_nodes) {
            self.evict();
        } else {
            assert(self@ == enforce_limit(self@, self.max_known_nodes as nat));
        }
    }

    /// More nodes are known than `limit`.
    fn exceeds(&self, limit: usize) -> (b: bool)
        ensures
            b == (node_count(self@) > limit),
    {
        let ghost v = self@;
        let mut total: usize = 0;
        let mut j: usize = 0;
        while j < self.regions.len()
            invariant
                v == regions_view(self.regions@),
                j <= self.regions@.len(),
                total == node_count(v.take(j as int)),
                total <= limit,
            decreases self.regions@.len() - j,
        {
            let n = self.regions[j].nodes.len();
            proof {
                assert(v.take(j + 1).drop_last() =~= v.take(j as int));
                assert(v.take(j + 1).last() == region_view(self.regions@[j as int]));
            }
            if n > limit - total {
                proof {
                    lemma_node_count_prefix(v, j + 1);
                }
                return true;
            }
            total = total + n;
            j = j + 1;
        }
        assert(v.take(j as int) =~= v);
        false
    }

    /// Keep only the nodes among the `limit / 2` most recent sightings.
    fn evict(&mut self)
        requires
            node_count(old(self)@) > old(self).spec_max_known_nodes(),
        ensures
            final(self)@ == enforce_limit(old(self)@, old(self).spec_max_known_nodes() as nat),
            final(self).spec_max_known_nodes() == old(self).spec_max_known_nodes(),
    {
        proof {
            use_type_invariant(&*self);
        }
        let ghost v0 = self@;
        let keep = self.max_known_nodes / 2;
        let sorted = sort_sightings(self.collect_sightings());
        let ghost sv = sort_by_time(sightings(v0));
        let mut evicted: Vec<String> = Vec::new();
        if keep < sorted.len() {
            let cut = sorted.len() - keep;
            let mut k: usize = 0;
            while k < cut
                invariant
                    sighting_views(sorted@) == sv,
                    cut == sorted@.len() - keep,
                    k <= cut,
                    text_seq(evicted@) == sv.take(k as int).map_values(|p: (Seq<char>, i64)| p.0),
                decreases cut - k,
            {
                let ghost before = evicted@;
                evicted.push(sorted[k].id.clone());
                proof {
                    assert(sv[k as int] == (sorted@[k as int].id@, sorted@[k as int].last_seen));
                    assert(text_seq(evicted@) =~= text_seq(before).push(sorted@[k as int].id@));
                    assert(sv.take(k + 1).map_values(|p: (Seq<char>, i64)| p.0) =~= sv.take(k as int).map_values(|p: (Seq<char>, i64)| p.0).push(sv[k as int].0));
                }
                k = k + 1;
            }
        } else {
            assert(text_seq(evicted@).to_set() =~= Set::<Seq<char>>::empty());
        }
        let ghost e = text_seq(evicted@).to_set();
        assert(e == evicted_ids(sightings(v0), keep as int));
        let mut regions: Vec<RegionNodes<N>> = Vec::new();
        std::mem::swap(&mut regions, &mut self.regions);
        let ghost r0 = regions@;
        let mut j: usize = 0;
        while j < regions.len()
            invariant
                r0.len() == regions@.len(),
                v0 == regions_view(r0),
                keys_unique(r0),
                forall|a: int| 0 <= a < r0.len() ==> keys_unique((#[trigger] r0[a]).nodes@),
                j <= regions@.len(),
                e == text_seq(evicted@).to_set(),
                forall|a: int| 0 <= a < j ==> #[trigger] region_view(regions@[a]) == (v0[a].0, surviving(v0[a].1, e)),
                forall|a: int| j <= a < regions@.len() ==> #[trigger] regions@[a] == r0[a],
                forall|a: int| 0 <= a < regions@.len() ==> (#[trigger] regions@[a]).geohash@ == r0[a].geohash@,
                forall|a: int| 0 <= a < regions@.len() ==> keys_unique((#[trigger] regions@[a]).nodes@),
            decreases regions@.len() - j,
        {
            let ghost before = regions@;
            let r = regions.remove(j);
            let RegionNodes { geohash, nodes } = r;
            let ghost nodes0 = nodes@;
            let kept = keep_surviving(nodes, &evicted);
            proof {
                lemma_surviving(nodes0, e);
            }
            regions.insert(j, RegionNodes { geohash, nodes: kept });
            proof {
                assert forall|a: int| 0 <= a < regions@.len() && a != j implies #[trigger] regions@[a] == before[a] by {}
                assert(v0[j as int] == region_view(r0[j as int]));
            }
            j = j + 1;
        }
        proof {
            assert(regions_view(regions@) =~= v0.map_values(|r: (Seq<char>, Seq<KnownNode<N>>)| (r.0, surviving(r.1, e))));
            assert forall|a: int, b: int| 0 <= a < regions@.len() && 0 <= b < regions@.len() && a != b implies #[trigger] regions@[a].key() != #[trigger] regions@[b].key() by {
                assert(r0[a].key() != r0[b].key());
            }
        }
        self.regions = regions;
    }

    /// Total number of known nodes over all regions.
    pub fn total_known_nodes(&self) -> (n: usize)
        requires
            node_count(self@) <= usize::MAX,
        ensures
            n == node_count(self@),
    {
        let ghost v = self@;
        let mut total: usize = 0;
        let mut j: usize = 0;
        while j < self.regions.len()
            invariant
                v == regions_view(self.regions@),
                node_count(v) <= usize::MAX,
                j <= self.regions@.len(),
                total == node_count(v.take(j as int)),
            decreases self.regions@.len() - j,
        {
            proof {
                assert(v.take(j + 1).drop_last() =~= v.take(j as int));
                assert(v.take(j + 1).last() == region_view(self.regions@[j as int]));
                lemma_node_count_prefix(v, j + 1);
            }
            total = total + self.regions[j].nodes.len();
            j = j + 1;
        }
        assert(v.take(self.regions@.len() as int) =~= v);
        total
    }

    /// The regions and their nodes.
    pub fn regions(&self) -> (r: &Vec<RegionNodes<N>>)
        ensures
            regions_view(r@) == self@,
    {
        &self.regions
    }

    /// The nodes seen in the region with the geohash, if there is one.
    pub fn region_nodes(&self, geohash: &str) -> (r: Option<&Vec<KnownNode<N>>>)
        ensures
            r is Some <==> has_region(self@, geohash@),
            r matches Some(v) ==> v@ == self@[region_index(self@, geohash@)].1,
    {
        proof {
            use_type_invariant(self);
        }
        let ghost v = self@;
        match find_key(&self.regions, geohash) {
            Some(i) => {
                proof {
                    assert(v[i as int].0 == geohash@);
                    let j = region_index(v, geohash@);
                    assert(v[j].0 == self.regions@[j].key());
                }
                Some(&self.regions[i].nodes)
            },
            None => {
                proof {
                    if has_region(v, geohash@) {
                        let j = region_index(v, geohash@);
                        assert(v[j].0 == self.regions@[j].key());
                    }
                }
                None
            },
        }
    }

    /// Number of geographic regions with known nodes.
    pub fn geographic_regions(&self) -> (n: usize)
        ensures
            n == self@.len(),
    {
        self.regions.len()
    }

    /// Discovery statistics of the registry, with the discovery protocol's
    /// phase, attempts and last discovery time.
    pub fn discovery_stats(&self, phase: DiscoveryPhase, attempts: u32, last_discovery: std::time::Instant) -> (s: DiscoveryStats)
        requires
            node_count(self@) <= usize::MAX,
        ensures
            s.total_known_nodes == node_count(self@),
            s.geographic_regions == self@.len(),
            s.discovery_phase == phase,
            s.discovery_attempts == attempts,
            s.last_discovery == last_discovery,
    {
        DiscoveryStats {
            total_known_nodes: self.total_known_nodes(),
            geographic_regions: self.geographic_regions(),
            discovery_phase: phase,
            discovery_attempts: attempts,
            last_discovery,
        }
    }
}

/// The node count of a prefix is at most the node count of the whole.
proof fn lemma_node_count_prefix<N>(v: Seq<(Seq<char>, Seq<KnownNode<N>>)>, j: int)
    requires
        0 <= j <= v.len(),
    ensures
        node_count(v.take(j)) <= node_count(v),
    decreases v.len(),
{
    if j < v.len() {
        assert(v.drop_last().take(j) =~= v.take(j));
        lemma_node_count_prefix(v.drop_last(), j);
    } else {
        assert(v.take(j) =~= v);
    }
}

/// A node that can bridge two regions, with its bridge capacity.
#[derive(Debug)]
pub struct BridgeCandidate<N> {
    /// How much the node can carry between the regions
    pub bridge_capacity: u64,
    /// The node
    pub node: N,
}

/// Insert `x` into candidates ordered by decreasing capacity, after every
/// candidate whose capacity is at least that of `x`.
pub open spec fn insert_by_capacity<N>(s: Seq<BridgeCandidate<N>>, x: BridgeCandidate<N>) -> Seq<BridgeCandidate<N>>
    decreases s.len(),
{
    if s.len() == 0 {
        seq![x]
    } else if s[0].bridge_capacity < x.bridge_capacity {
        seq![x] + s
    } else {
        seq![s[0]] + insert_by_capacity(s.drop_first(), x)
    }
}

/// Stable sort by decreasing capacity: candidates of equal capacity keep
/// their order.
pub open spec fn sort_by_capacity<N>(s: Seq<BridgeCandidate<N>>) -> Seq<BridgeCandidate<N>>
    decreases s.len(),
{
    if s.len() == 0 {
        Seq::empty()
    } else {
        insert_by_capacity(sort_by_capacity(s.drop_last()), s.last())
    }
}

/// The candidates are ordered by decreasing capacity.
pub open spec fn capacity_descending<N>(s: Seq<BridgeCandidate<N>>) -> bool {
    forall|i: int, j: int| 0 <= i < j < s.len() ==> #[trigger] s[i].bridge_capacity >= #[trigger] s[j].bridge_capacity
}

proof fn lemma_insert_by_capacity<N>(s: Seq<BridgeCandidate<N>>, x: BridgeCandidate<N>)
    requires
        capacity_descending(s),
    ensures
        capacity_descending(insert_by_capacity(s, x)),
        insert_by_capacity(s, x).to_multiset() == s.to_multiset().insert(x),
        insert_by_capacity(s, x).len() == s.len() + 1,
    decreases s.len(),
{
    broadcast use vstd::seq_lib::group_to_multiset_ensures;

    if s.len() == 0 {
        assert(seq![x] == Seq::<BridgeCandidate<N>>::empty().push(x));
    } else if s[0].bridge_capacity < x.bridge_capacity {
        let r = seq![x] + s;
        assert forall|i: int, j: int| 0 <= i < j < r.len() implies #[trigger] r[i].bridge_capacity >= #[trigger] r[j].bridge_capacity by {
            assert(r[j] == s[j - 1]);
            if i > 0 {
                assert(r[i] == s[i - 1]);
            } else {
                assert(s[0].bridge_capacity >= s[j - 1].bridge_capacity);
            }
        }
        lemma_multiset_cons(x, s);
    } else {
        let t = s.drop_first();
        assert(capacity_descending(t)) by {
            assert forall|i: int, j: int| 0 <= i < j < t.len() implies #[trigger] t[i].bridge_capacity >= #[trigger] t[j].bridge_capacity by {
                assert(t[i] == s[i + 1] && t[j] == s[j + 1]);
            }
        }
        lemma_insert_by_capacity(t, x);
        let u = insert_by_capacity(t, x);
        let r = seq![s[0]] + u;
        assert forall|i: int, j: int| 0 <= i < j < r.len() implies #[trigger] r[i].bridge_capacity >= #[trigger] r[j].bridge_capacity by {
            assert(r[j] == u[j - 1]);
            if i > 0 {
                assert(r[i] == u[i - 1]);
            } else {
                assert(u.to_multiset().count(u[j - 1]) > 0);
                if u[j - 1] != x {
                    assert(t.to_multiset().count(u[j - 1]) > 0);
                    let k = choose|k: int| 0 <= k < t.len() && t[k] == u[j - 1];
                    assert(s[k + 1] == t[k]);
                }
            }
        }
        lemma_multiset_cons(s[0], u);
        lemma_multiset_cons(s[0], t);
        assert(seq![s[0]] + t =~= s);
    }
}

/// Ordering bridge candidates by capacity yields the same candidates, the
/// largest capacity first.
pub proof fn law_bridge_order<N>(s: Seq<BridgeCandidate<N>>)
    ensures
        capacity_descending(sort_by_capacity(s)),
        sort_by_capacity(s).to_multiset() == s.to_multiset(),
        sort_by_capacity(s).len() == s.len(),
    decreases s.len(),
{
    broadcast use vstd::seq_lib::group_to_multiset_ensures;

    if s.len() > 0 {
        law_bridge_order(s.drop_last());
        lemma_insert_by_capacity(sort_by_capacity(s.drop_last()), s.last());
        assert(s =~= s.drop_last().push(s.last()));
    }
}

/// Inserting at the first position whose capacity is lower than that of `x`
/// is `insert_by_capacity`.
proof fn lemma_insert_at_first_smaller<N>(s: Seq<BridgeCandidate<N>>, x: BridgeCandidate<N>, k: int)
    requires
        0 <= k <= s.len(),
        forall|m: int| 0 <= m < k ==> #[trigger] s[m].bridge_capacity >= x.bridge_capacity,
        k < s.len() ==> s[k].bridge_capacity < x.bridge_capacity,
    ensures
        s.insert(k, x) == insert_by_capacity(s, x),
    decreases s.len(),
{
    if s.len() == 0 {
        assert(s.insert(k, x) =~= seq![x]);
    } else if k == 0 {
        assert(s.insert(k, x) =~= seq![x] + s);
    } else {
        let t = s.drop_first();
        assert forall|m: int| 0 <= m < k - 1 implies #[trigger] t[m].bridge_capacity >= x.bridge_capacity by {
            assert(t[m] == s[m + 1]);
        }
        lemma_insert_at_first_smaller(t, x, k - 1);
        assert(s.insert(k, x) =~= seq![s[0]] + t.insert(k - 1, x));
    }
}

/// Order bridge candidates by decreasing capacity; candidates of equal
/// capacity keep their order.
pub fn order_bridge_nodes<N>(candidates: Vec<BridgeCandidate<N>>) -> (r: Vec<BridgeCandidate<N>>)
    ensures
        r@ == sort_by_capacity(candidates@),
{
    let ghost whole = candidates@;
    let mut rest = candidates;
    let mut sorted: Vec<BridgeCandidate<N>> = Vec::new();
    let ghost mut done: int = 0;
    while rest.len() > 0
        invariant
            0 <= done <= whole.len(),
            rest@ == whole.skip(done),
            sorted@ == sort_by_capacity(whole.take(done)),
        decreases rest@.len(),
    {
        assert(whole[done] == rest@[0]);
        let x = rest.remove(0);
        let mut k: usize = 0;
        while k < sorted.len() && sorted[k].bridge_capacity >= x.bridge_capacity
            invariant
                k <= sorted@.len(),
                forall|m: int| 0 <= m < k ==> #[trigger] sorted@[m].bridge_capacity >= x.bridge_capacity,
            decreases sorted@.len() - k,
        {
            k = k + 1;
        }
        proof {
            lemma_insert_at_first_smaller(sorted@, x, k as int);
            let t = whole.take(done + 1);
            assert(t.drop_last() =~= whole.take(done));
            assert(t.last() == x);
        }
        sorted.insert(k, x);
        proof {
            assert(rest@ =~= whole.skip(done + 1));
            done = done + 1;
        }
    }
    assert(whole.take(done) =~= whole);
    sorted
}

} // verus!
