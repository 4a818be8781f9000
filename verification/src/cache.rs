//! The geographic content cache: content by identifier with its access
//! bookkeeping and expiry, and one bloom filter per geographic region that
//! records which content was cached there.

use vstd::prelude::*;
use vstd::string::*;
use vstd::utf8::*;

use crate::clock::{fresh_at, is_fresh, now_millis, spec_duration_from_secs, spec_duration_millis};
use crate::content::{Content, ContentId};
use crate::geo::{GeographicAddress, GeographicLayer, layer_name, layer_prefix, spec_all_layers, lemma_all_layers_is_parent_chain, law_layer_names};
use crate::keyed::{Keyed, find_key, insert_keyed, keyed_insert, keyed_map, keys_unique, lemma_keyed_insert, lemma_map_index, lemma_map_push, lemma_map_update};

verus! {

/// Cache configuration.
#[derive(Debug, Clone, Copy)]
pub struct CacheConfig {
    pub max_content_per_quadtree: usize,
    pub max_quadtree_depth: usize,
    pub lru_cache_size: usize,
    pub content_ttl: core::time::Duration,
    pub bloom_filter_size: usize,
    pub bloom_filter_hash_count: usize,
}

impl Default for CacheConfig {
    fn default() -> (c: Self)
        ensures
            c.max_content_per_quadtree == 100,
            c.max_quadtree_depth == 10,
            c.lru_cache_size == 10000,
            c.content_ttl == spec_duration_from_secs(3600),
            c.bloom_filter_size == 10000,
            c.bloom_filter_hash_count == 7,
    {
        CacheConfig {
            max_content_per_quadtree: 100,
            max_quadtree_depth: 10,
            lru_cache_size: 10000,
            content_ttl: core::time::Duration::from_secs(3600),
            bloom_filter_size: 10000,
            bloom_filter_hash_count: 7,
        }
    }
}

/// Cache statistics.
#[derive(Debug, Clone, Copy, PartialEq, Eq, Structural)]
pub struct CacheStats {
    pub lru_cache_size: usize,
    pub quadtree_count: usize,
    pub bloom_filter_count: usize,
    pub total_content: usize,
}

impl CacheStats {
    /// Statistics of a cache holding `cached` items, `quadtrees` spatial
    /// indexes and `bloom_filters` region filters; every cached item counts as
    /// content.
    pub fn from_counts(cached: usize, quadtrees: usize, bloom_filters: usize) -> (s: CacheStats)
        ensures
            s == (CacheStats {
                lru_cache_size: cached,
                quadtree_count: quadtrees,
                bloom_filter_count: bloom_filters,
                total_content: cached,
            }),
    {
        CacheStats {
            lru_cache_size: cached,
            quadtree_count: quadtrees,
            bloom_filter_count: bloom_filters,
            total_content: cached,
        }
    }
}

/// Cache errors.
#[derive(Debug)]
pub enum CacheError {
    /// Insertion failed
    InsertionFailed(String),
    /// A spatial index failed
    SpatialIndexError(String),
    /// A bloom filter failed
    BloomFilterError(String),
    /// The configuration is invalid
    ConfigError(String),
}

} // verus!

verus! {

#[verifier::external_type_specification]
#[verifier::external_body]
#[verifier::reject_recursive_types(T)]
pub struct ExBloom<T: ?Sized>(bloomfilter::Bloom<T>);

/// The byte strings that have been recorded in a bloom filter with `set`.
pub uninterp spec fn bloom_items(filter: bloomfilter::Bloom<[u8]>) -> Set<Seq<u8>>;

/// The number of bits in a bloom filter's bitmap, fixed when it was made.
pub uninterp spec fn bloom_bits(filter: bloomfilter::Bloom<[u8]>) -> nat;

/// Calls `bloomfilter::Bloom::new` with a bitmap of `bitmap_size` bytes sized
/// for `items_count` items. The crate asserts that both are positive and
/// that the bitmap's size in bits fits the machine; the seed comes from the
/// operating system's random source (the crate unwraps that read). The
/// contract claims that a new filter has nothing recorded.
#[verifier::external_body]
fn bloom_new(bitmap_size: usize, items_count: usize) -> (f: bloomfilter::Bloom<[u8]>)
    requires
        bitmap_size > 0,
        items_count > 0,
        bitmap_size <= usize::MAX / 8,
    ensures
        bloom_items(f) == Set::<Seq<u8>>::empty(),
        bloom_bits(f) == bitmap_size * 8,
{
    bloomfilter::Bloom::new(bitmap_size, items_count)
}

/// Calls `bloomfilter::Bloom::set`, which records an item in the filter and
/// leaves its bitmap's size as it was. The crate takes each bit position
/// modulo the number of bits, so a filter without bits is excluded.
#[verifier::external_body]
fn bloom_set(filter: &mut bloomfilter::Bloom<[u8]>, item: &[u8])
    requires
        bloom_bits(*old(filter)) > 0,
    ensures
        bloom_items(*final(filter)) == bloom_items(*old(filter)).insert(item@),
        bloom_bits(*final(filter)) == bloom_bits(*old(filter)),
{
    filter.set(item)
}

/// Calls `bloomfilter::Bloom::check`. The crate documents false positives but
/// no false negatives: the contract claims only that a recorded item is
/// reported present. For an item that was never recorded the answer depends
/// on the filter's random keys, and nothing is stated of it. As for `set`, a
/// filter without bits is excluded.
#[verifier::external_body]
fn bloom_check(filter: &bloomfilter::Bloom<[u8]>, item: &[u8]) -> (r: bool)
    requires
        bloom_bits(*filter) > 0,
    ensures
        bloom_items(*filter).contains(item@) ==> r,
{
    filter.check(item)
}

/// The key of the bloom filter of a region: the layer's name, an underscore,
/// and the geohash of the region at that layer.
pub open spec fn region_key(layer: GeographicLayer, geohash: Seq<char>) -> Seq<char> {
    layer_name(layer) + "_"@ + geohash
}

/// Region keys never collide: two regions share a bloom filter key only when
/// they lie at the same layer and have the same geohash.
pub proof fn law_region_keys_distinct(l1: GeographicLayer, g1: Seq<char>, l2: GeographicLayer, g2: Seq<char>)
    ensures
        region_key(l1, g1) == region_key(l2, g2) <==> (l1 == l2 && g1 == g2),
{
    law_layer_names(l1, l2);
    law_layer_names(l2, l1);
    reveal_strlit("_");
    if region_key(l1, g1) == region_key(l2, g2) {
        assert(region_key(l1, g1)[0] == layer_name(l1)[0]);
        assert(region_key(l2, g2)[0] == layer_name(l2)[0]);
        let k: int = layer_name(l1).len() as int + 1;
        assert(region_key(l1, g1).skip(k) =~= g1);
        assert(region_key(l2, g2).skip(k) =~= g2);
    }
}

/// The key of the bloom filter of the region `geohash` at `layer`.
pub fn region_key_text(layer: GeographicLayer, geohash: &str) -> (k: String)
    ensures
        k@ == region_key(layer, geohash@),
{
    let mut k = String::from_str(layer.name());
    k.append("_");
    k.append(geohash);
    k
}

/// The bloom filter of one geographic region, with the number of items
/// recorded in it and the time of the last one, in Unix milliseconds.
#[derive(Debug)]
pub struct GeographicBloomFilter {
    pub region_key: String,
    pub filter: bloomfilter::Bloom<[u8]>,
    pub content_count: usize,
    pub last_updated: i64,
}

impl Keyed for GeographicBloomFilter {
    open spec fn key(&self) -> Seq<char> {
        self.region_key@
    }

    fn key_text(&self) -> (k: &str) {
        self.region_key.as_str()
    }
}

/// What a region filter holds, seen from outside: its key, the items recorded
/// in it, their number and the time of the last one.
pub type FilterState = (Seq<char>, Set<Seq<u8>>, usize, i64);

/// The state of a region filter.
pub open spec fn filter_state(f: GeographicBloomFilter) -> FilterState {
    (f.region_key@, bloom_items(f.filter), f.content_count, f.last_updated)
}

/// The states of a sequence of region filters.
pub open spec fn filter_states(s: Seq<GeographicBloomFilter>) -> Seq<FilterState> {
    s.map_values(|f: GeographicBloomFilter| filter_state(f))
}

/// Every filter has recorded at least one item, and has bits to record in.
pub open spec fn filters_in_use(s: Seq<GeographicBloomFilter>) -> bool {
    forall|i: int| 0 <= i < s.len() ==> #[trigger] s[i].content_count > 0 && bloom_bits(s[i].filter) > 0
}

/// A count that grows by one and stops at the largest `usize`.
pub open spec fn count_up(n: usize) -> usize {
    if n < usize::MAX { (n + 1) as usize } else { n }
}

/// Some filter has the key.
pub open spec fn has_filter(v: Seq<FilterState>, key: Seq<char>) -> bool {
    exists|i: int| 0 <= i < v.len() && v[i].0 == key
}

/// The position of a filter with the key.
pub open spec fn filter_index(v: Seq<FilterState>, key: Seq<char>) -> int {
    choose|i: int| 0 <= i < v.len() && v[i].0 == key
}

/// The filters after recording `item` under `key` at time `now`: the filter
/// with that key records it, or a new filter holding only it is added at the
/// end.
pub open spec fn record_item(v: Seq<FilterState>, key: Seq<char>, item: Seq<u8>, now: i64) -> Seq<FilterState> {
    if has_filter(v, key) {
        let i = filter_index(v, key);
        v.update(i, (key, v[i].1.insert(item), count_up(v[i].2), now))
    } else {
        v.push((key, Set::empty().insert(item), 1usize, now))
    }
}

/// The filters after recording `item` in the region of `geohash` at each of
/// `layers`, in order.
pub open spec fn record_layers(
    v: Seq<FilterState>,
    layers: Seq<GeographicLayer>,
    item: Seq<u8>,
    geohash: Seq<char>,
    now: i64,
) -> Seq<FilterState>
    decreases layers.len(),
{
    if layers.len() == 0 {
        v
    } else {
        let l = layers.last();
        record_item(record_layers(v, layers.drop_last(), item, geohash, now), region_key(l, layer_prefix(geohash, l)), item, now)
    }
}

/// The filter with the key has recorded the item.
pub open spec fn region_holds(v: Seq<FilterState>, key: Seq<char>, item: Seq<u8>) -> bool {
    exists|i: int| 0 <= i < v.len() && v[i].0 == key && #[trigger] v[i].1.contains(item)
}

/// Recording an item never loses an item that a region filter had recorded,
/// and the region it was recorded under holds it afterwards.
pub proof fn law_recording_keeps_items(v: Seq<FilterState>, key: Seq<char>, item: Seq<u8>, now: i64, other_key: Seq<char>, other: Seq<u8>)
    ensures
        region_holds(record_item(v, key, item, now), key, item),
        region_holds(v, other_key, other) ==> region_holds(record_item(v, key, item, now), other_key, other),
{
    let r = record_item(v, key, item, now);
    if has_filter(v, key) {
        let i = filter_index(v, key);
        assert(r[i].0 == key && r[i].1.contains(item));
        if region_holds(v, other_key, other) {
            let j = choose|j: int| 0 <= j < v.len() && v[j].0 == other_key && #[trigger] v[j].1.contains(other);
            assert(r[j].0 == other_key && r[j].1.contains(other));
        }
    } else {
        assert(r[v.len() as int].0 == key && r[v.len() as int].1.contains(item));
        if region_holds(v, other_key, other) {
            let j = choose|j: int| 0 <= j < v.len() && v[j].0 == other_key && #[trigger] v[j].1.contains(other);
            assert(r[j] == v[j]);
        }
    }
}

proof fn lemma_record_layers_holds(v: Seq<FilterState>, layers: Seq<GeographicLayer>, item: Seq<u8>, geohash: Seq<char>, now: i64)
    ensures
        forall|j: int| 0 <= j < layers.len() ==> region_holds(
            record_layers(v, layers, item, geohash, now),
            region_key(#[trigger] layers[j], layer_prefix(geohash, layers[j])),
            item,
        ),
        forall|key: Seq<char>, x: Seq<u8>| region_holds(v, key, x) ==> #[trigger] region_holds(record_layers(v, layers, item, geohash, now), key, x),
    decreases layers.len(),
{
    if layers.len() > 0 {
        let init = layers.drop_last();
        let l = layers.last();
        let k = region_key(l, layer_prefix(geohash, l));
        let before = record_layers(v, init, item, geohash, now);
        lemma_record_layers_holds(v, init, item, geohash, now);
        assert forall|key: Seq<char>, x: Seq<u8>| region_holds(before, key, x) implies #[trigger] region_holds(record_item(before, k, item, now), key, x) by {
            law_recording_keeps_items(before, k, item, now, key, x);
        }
        law_recording_keeps_items(before, k, item, now, k, item);
        assert forall|j: int| 0 <= j < layers.len() implies region_holds(
            record_layers(v, layers, item, geohash, now),
            region_key(#[trigger] layers[j], layer_prefix(geohash, layers[j])),
            item,
        ) by {
            if j < init.len() {
                assert(init[j] == layers[j]);
            }
        }
    }
}

/// Recording a content item for an address leaves it recorded in the region
/// filter of every layer of that address: a bloom filter lookup for it there
/// can never answer no.
pub proof fn law_every_layer_records_item(v: Seq<FilterState>, item: Seq<u8>, geohash: Seq<char>, now: i64, layer: GeographicLayer)
    ensures
        region_holds(
            record_layers(v, spec_all_layers(), item, geohash, now),
            region_key(layer, layer_prefix(geohash, layer)),
            item,
        ),
{
    lemma_all_layers_is_parent_chain();
    lemma_record_layers_holds(v, spec_all_layers(), item, geohash, now);
    assert(spec_all_layers()[layer.rank()] == layer);
}

/// A cached content item with its access bookkeeping; times are Unix
/// milliseconds.
#[derive(Debug)]
pub struct CachedContent<L> {
    pub content: Content<L>,
    pub access_count: u64,
    pub last_accessed: i64,
    pub insertion_time: i64,
}

impl<L> Keyed for CachedContent<L> {
    open spec fn key(&self) -> Seq<char> {
        self.content.id.0@
    }

    fn key_text(&self) -> (k: &str) {
        self.content.id.0.as_str()
    }
}

/// The entry that caches `content` at time `now`.
pub open spec fn new_entry<L>(content: Content<L>, now: i64) -> CachedContent<L> {
    CachedContent { content, access_count: 0, last_accessed: now, insertion_time: now }
}

/// The entry after an access at time `now`: one more access, counted up to
/// the largest `u64`.
pub open spec fn touched<L>(e: CachedContent<L>, now: i64) -> CachedContent<L> {
    CachedContent {
        content: e.content,
        access_count: if e.access_count < u64::MAX { (e.access_count + 1) as u64 } else { e.access_count },
        last_accessed: now,
        insertion_time: e.insertion_time,
    }
}

/// A configuration whose bloom filters the filter crate can build.
pub open spec fn bloom_config_ok(config: CacheConfig) -> bool {
    &&& config.bloom_filter_size > 0
    &&& config.bloom_filter_hash_count > 0
    &&& config.bloom_filter_size <= usize::MAX / 8
}

/// The UTF-8 bytes of a content identifier, as the region filters record it.
pub open spec fn id_bytes(id: ContentId) -> Seq<u8> {
    encode_utf8(id.0@)
}

/// Geographic content cache: content by identifier, and one bloom filter per
/// region that records which content was cached there.
pub struct GeographicContentCache<L> {
    lru_cache: Vec<CachedContent<L>>,
    bloom_filters: Vec<GeographicBloomFilter>,
    config: CacheConfig,
}

impl<L> GeographicContentCache<L> {
    #[verifier::type_invariant]
    spec fn well_formed(self) -> bool {
        &&& keys_unique(self.lru_cache@)
        &&& keys_unique(self.bloom_filters@)
        &&& filters_in_use(self.bloom_filters@)
        &&& bloom_config_ok(self.config)
    }

    /// The cached entries.
    pub closed spec fn cached(&self) -> Seq<CachedContent<L>> {
        self.lru_cache@
    }

    /// The region filters.
    pub closed spec fn filters(&self) -> Seq<FilterState> {
        filter_states(self.bloom_filters@)
    }

    /// The configuration.
    pub closed spec fn spec_config(&self) -> CacheConfig {
        self.config
    }

    /// The cached entries by content identifier.
    pub open spec fn entries(&self) -> Map<Seq<char>, CachedContent<L>> {
        keyed_map(self.cached())
    }

    /// Create a new geographic content cache.
    pub fn new(config: CacheConfig) -> (c: Self)
        requires
            bloom_config_ok(config),
        ensures
            c.cached() == Seq::<CachedContent<L>>::empty(),
            c.filters() == Seq::<FilterState>::empty(),
            c.spec_config() == config,
    {
        let c = GeographicContentCache { lru_cache: Vec::new(), bloom_filters: Vec::new(), config };
        assert(c.filters() =~= Seq::<FilterState>::empty());
        c
    }
}

proof fn lemma_states_unique(s: Seq<GeographicBloomFilter>, key: Seq<char>)
    requires
        keys_unique(s),
    ensures
        forall|i: int| 0 <= i < s.len() ==> (#[trigger] filter_states(s)[i]).0 == s[i].key(),
        forall|i: int| 0 <= i < s.len() && s[i].key() == key ==> filter_index(filter_states(s), key) == i,
{
    let v = filter_states(s);
    assert forall|i: int| 0 <= i < s.len() && s[i].key() == key implies filter_index(v, key) == i by {
        assert(v[i].0 == key);
        let j = filter_index(v, key);
        assert(v[j].0 == s[j].key());
    }
}

/// Record `item` in the filter with key `key`, creating the filter when there
/// is none.
fn record_in_region(filters: &mut Vec<GeographicBloomFilter>, key: String, item: &[u8], now: i64, config: &CacheConfig)
    requires
        keys_unique(old(filters)@),
        filters_in_use(old(filters)@),
        bloom_config_ok(*config),
    ensures
        keys_unique(final(filters)@),
        filters_in_use(final(filters)@),
        filter_states(final(filters)@) == record_item(filter_states(old(filters)@), key@, item@, now),
{
    let ghost s = filters@;
    let ghost v = filter_states(s);
    proof {
        lemma_states_unique(s, key@);
    }
    match find_key(filters, key.as_str()) {
        Some(i) => {
            let mut f = filters.remove(i);
            bloom_set(&mut f.filter, item);
            f.content_count = if f.content_count < usize::MAX { f.content_count + 1 } else { f.content_count };
            f.last_updated = now;
            filters.insert(i, f);
            proof {
                assert(filters@ =~= s.update(i as int, f));
                lemma_map_update(s, i as int, f);
                assert(has_filter(v, key@)) by {
                    assert(v[i as int].0 == key@);
                }
                assert(filter_states(filters@) =~= record_item(v, key@, item@, now));
            }
        },
        None => {
            let mut filter = bloom_new(config.bloom_filter_size, config.bloom_filter_hash_count);
            bloom_set(&mut filter, item);
            let f = GeographicBloomFilter { region_key: key, filter, content_count: 1, last_updated: now };
            proof {
                assert(!has_filter(v, key@)) by {
                    if has_filter(v, key@) {
                        let j = filter_index(v, key@);
                        assert(v[j].0 == s[j].key());
                    }
                }
                lemma_map_push(s, f);
            }
            filters.push(f);
            proof {
                assert(filter_states(filters@) =~= record_item(v, key@, item@, now));
            }
        },
    }
}

impl<L> GeographicContentCache<L> {
    /// Record a content identifier in the region filter of every layer of
    /// `address`, at time `now`.
    fn update_bloom_filters(filters: &mut Vec<GeographicBloomFilter>, content_id: &ContentId, address: &GeographicAddress, now: i64, config: &CacheConfig)
        requires
            keys_unique(old(filters)@),
            filters_in_use(old(filters)@),
            bloom_config_ok(*config),
        ensures
            keys_unique(final(filters)@),
            filters_in_use(final(filters)@),
            filter_states(final(filters)@) == record_layers(
                filter_states(old(filters)@),
                spec_all_layers(),
                id_bytes(*content_id),
                address@,
                now,
            ),
    {
        let layers = GeographicLayer::all_layers();
        let item = content_id.0.as_str().as_bytes();
        let ghost start = filter_states(filters@);
        let mut i: usize = 0;
        while i < layers.len()
            invariant
                layers@ == spec_all_layers(),
                i <= layers@.len(),
                item@ == id_bytes(*content_id),
                keys_unique(filters@),
                filters_in_use(filters@),
                bloom_config_ok(*config),
                filter_states(filters@) == record_layers(start, spec_all_layers().take(i as int), item@, address@, now),
            decreases layers@.len() - i,
        {
            let layer = layers[i];
            let key = region_key_text(layer, address.get_layer_hash(layer));
            record_in_region(filters, key, item, now, config);
            proof {
                let t = spec_all_layers().take(i + 1);
                assert(t.drop_last() =~= spec_all_layers().take(i as int));
                assert(t.last() == layer);
            }
            i = i + 1;
        }
        assert(spec_all_layers().take(6) =~= spec_all_layers());
    }
}

impl<L> GeographicContentCache<L> {
    /// Insert content into the cache at time `now` (Unix milliseconds): it is
    /// stored under its identifier, replacing what was stored there, and
    /// recorded in the region filter of every layer of `address`.
    pub fn insert_at(&mut self, content: Content<L>, address: &GeographicAddress, now: i64) -> (r: Result<(), CacheError>)
        ensures
            r is Ok,
            final(self).cached() == keyed_insert(old(self).cached(), new_entry(content, now)),
            final(self).filters() == record_layers(old(self).filters(), spec_all_layers(), id_bytes(content.id), address@, now),
            final(self).spec_config() == old(self).spec_config(),
    {
        proof {
            use_type_invariant(&*self);
        }
        let id = content.id.copy();
        let ghost id_before = content.id;
        let mut entries: Vec<CachedContent<L>> = Vec::new();
        std::mem::swap(&mut entries, &mut self.lru_cache);
        insert_keyed(&mut entries, CachedContent { content, access_count: 0, last_accessed: now, insertion_time: now });
        let mut filters: Vec<GeographicBloomFilter> = Vec::new();
        std::mem::swap(&mut filters, &mut self.bloom_filters);
        Self::update_bloom_filters(&mut filters, &id, address, now, &self.config);
        assert(id_bytes(id) == id_bytes(id_before));
        self.lru_cache = entries;
        self.bloom_filters = filters;
        Ok(())
    }

    /// Insert content into the cache, stamped with the current time.
    pub fn insert(&mut self, content: Content<L>, address: &GeographicAddress) -> (r: Result<(), CacheError>)
        ensures
            r is Ok,
            exists|now: i64|
                #![trigger new_entry(content, now)]
                final(self).cached() == keyed_insert(old(self).cached(), new_entry(content, now))
                && final(self).filters() == record_layers(old(self).filters(), spec_all_layers(), id_bytes(content.id), address@, now),
            final(self).spec_config() == old(self).spec_config(),
    {
        let now = now_millis();
        self.insert_at(content, address, now)
    }

    /// Get content by ID at time `now`, counting the access.
    pub fn get_at(&mut self, content_id: &ContentId, now: i64) -> (r: Option<&Content<L>>)
        ensures
            r is Some <==> old(self).entries().contains_key(content_id.0@),
            r matches Some(c) ==> *c == old(self).entries()[content_id.0@].content,
            old(self).entries().contains_key(content_id.0@) ==> final(self).entries() == old(self).entries().insert(
                content_id.0@,
                touched(old(self).entries()[content_id.0@], now),
            ),
            !old(self).entries().contains_key(content_id.0@) ==> final(self).cached() == old(self).cached(),
            final(self).filters() == old(self).filters(),
            final(self).spec_config() == old(self).spec_config(),
    {
        proof {
            use_type_invariant(&*self);
        }
        let mut entries: Vec<CachedContent<L>> = Vec::new();
        std::mem::swap(&mut entries, &mut self.lru_cache);
        let ghost s = entries@;
        match find_key(&entries, content_id.0.as_str()) {
            Some(i) => {
                let mut e = entries.remove(i);
                let ghost e0 = e;
                e.access_count = if e.access_count < u64::MAX { e.access_count + 1 } else { e.access_count };
                e.last_accessed = now;
                entries.insert(i, e);
                proof {
                    assert(entries@ =~= s.update(i as int, touched(e0, now)));
                    lemma_map_index(s, i as int);
                    lemma_map_update(s, i as int, touched(e0, now));
                }
                self.lru_cache = entries;
                Some(&self.lru_cache[i].content)
            },
            None => {
                self.lru_cache = entries;
                None
            },
        }
    }

    /// Get content by ID, counting the access at the current time.
    pub fn get(&mut self, content_id: &ContentId) -> (r: Option<&Content<L>>)
        ensures
            r is Some <==> old(self).entries().contains_key(content_id.0@),
            r matches Some(c) ==> *c == old(self).entries()[content_id.0@].content,
            old(self).entries().contains_key(content_id.0@) ==> exists|now: i64| final(self).entries() == old(self).entries().insert(
                content_id.0@,
                #[trigger] touched(old(self).entries()[content_id.0@], now),
            ),
            !old(self).entries().contains_key(content_id.0@) ==> final(self).cached() == old(self).cached(),
            final(self).filters() == old(self).filters(),
            final(self).spec_config() == old(self).spec_config(),
    {
        let now = now_millis();
        self.get_at(content_id, now)
    }

    /// Check if content may have been cached in a region, by the region's
    /// bloom filter: no filter with that key answers no, and content recorded
    /// there is always reported.
    pub fn might_contain_in_region(&self, content_id: &ContentId, region_key: &str) -> (b: bool)
        ensures
            !has_filter(self.filters(), region_key@) ==> !b,
            region_holds(self.filters(), region_key@, id_bytes(*content_id)) ==> b,
    {
        proof {
            use_type_invariant(self);
            lemma_states_unique(self.bloom_filters@, region_key@);
        }
        let ghost v = self.filters();
        match find_key(&self.bloom_filters, region_key) {
            Some(i) => {
                let item = content_id.0.as_str().as_bytes();
                proof {
                    assert(v[i as int].0 == region_key@);
                    if region_holds(v, region_key@, item@) {
                        let j = choose|j: int| 0 <= j < v.len() && v[j].0 == region_key@ && #[trigger] v[j].1.contains(item@);
                        assert(v[j].0 == self.bloom_filters@[j].key());
                        assert(j == i);
                    }
                }
                bloom_check(&self.bloom_filters[i].filter, item)
            },
            None => {
                proof {
                    if has_filter(v, region_key@) {
                        let j = filter_index(v, region_key@);
                        assert(v[j].0 == self.bloom_filters@[j].key());
                    }
                }
                false
            },
        }
    }

    /// Get cache statistics, given the number of spatial indexes kept beside
    /// the cache.
    pub fn stats(&self, quadtree_count: usize) -> (st: CacheStats)
        ensures
            st == (CacheStats {
                lru_cache_size: self.cached().len() as usize,
                quadtree_count,
                bloom_filter_count: self.filters().len() as usize,
                total_content: self.cached().len() as usize,
            }),
    {
        CacheStats::from_counts(self.lru_cache.len(), quadtree_count, self.bloom_filters.len())
    }
}

/// The entries that are still fresh at `now`, in order.
pub open spec fn fresh_entries<L>(s: Seq<CachedContent<L>>, now: i64, ttl_ms: int) -> Seq<CachedContent<L>> {
    s.filter(|e: CachedContent<L>| is_fresh(e.insertion_time, now, ttl_ms))
}

impl<L> GeographicContentCache<L> {
    /// The time to live of cached content, in milliseconds.
    pub open spec fn ttl_ms(&self) -> int {
        spec_duration_millis(self.spec_config().content_ttl) as int
    }

    /// Clean up expired content at time `now`: the entries older than the
    /// time to live leave the cache. Every region filter has recorded at
    /// least one item, so no filter is empty and all of them stay.
    pub fn cleanup_expired_at(&mut self, now: i64)
        ensures
            final(self).cached() == fresh_entries(old(self).cached(), now, old(self).ttl_ms()),
            final(self).filters() == old(self).filters(),
            final(self).spec_config() == old(self).spec_config(),
    {
        proof {
            use_type_invariant(&*self);
        }
        let ttl: u128 = self.config.content_ttl.as_millis();
        let ghost ttl_ms = ttl as int;
        let mut rest: Vec<CachedContent<L>> = Vec::new();
        std::mem::swap(&mut rest, &mut self.lru_cache);
        let ghost whole = rest@;
        let mut kept: Vec<CachedContent<L>> = Vec::new();
        let ghost mut done: int = 0;
        while rest.len() > 0
            invariant
                0 <= done <= whole.len(),
                keys_unique(whole),
                rest@ == whole.skip(done),
                kept@ == fresh_entries(whole.take(done), now, ttl_ms),
                keys_unique(kept@),
                forall|a: int| 0 <= a < kept@.len() ==> exists|b: int| 0 <= b < done && #[trigger] kept@[a] == whole[b],
                ttl_ms == ttl as int,
            decreases rest@.len(),
        {
            let ghost rest0 = rest@;
            assert(whole[done] == rest0[0]);
            let e = rest.remove(0);
            let fresh = fresh_at(e.insertion_time, now, ttl);
            proof {
                reveal(Seq::filter);
                let t = whole.take(done + 1);
                assert(t.drop_last() =~= whole.take(done));
                assert(t.last() == e);
                assert(fresh == is_fresh(e.insertion_time, now, ttl_ms));
            }
            if fresh {
                let ghost before = kept@;
                kept.push(e);
                proof {
                    assert forall|a: int, b: int| 0 <= a < kept@.len() && 0 <= b < kept@.len() && a != b implies #[trigger] kept@[a].key() != #[trigger] kept@[b].key() by {
                        if a < before.len() && b < before.len() {
                            assert(kept@[a] == before[a] && kept@[b] == before[b]);
                        } else if a < before.len() {
                            let c = choose|c: int| 0 <= c < done && #[trigger] before[a] == whole[c];
                            assert(kept@[a] == whole[c] && kept@[b] == whole[done]);
                        } else {
                            let c = choose|c: int| 0 <= c < done && #[trigger] before[b] == whole[c];
                            assert(kept@[b] == whole[c] && kept@[a] == whole[done]);
                        }
                    }
                    assert forall|a: int| 0 <= a < kept@.len() implies exists|b: int| 0 <= b < done + 1 && #[trigger] kept@[a] == whole[b] by {
                        if a < before.len() {
                            let c = choose|c: int| 0 <= c < done && #[trigger] before[a] == whole[c];
                            assert(kept@[a] == whole[c]);
                        } else {
                            assert(kept@[a] == whole[done]);
                        }
                    }
                }
            } else {
                proof {
                    assert forall|a: int| 0 <= a < kept@.len() implies exists|b: int| 0 <= b < done + 1 && #[trigger] kept@[a] == whole[b] by {
                        let c = choose|c: int| 0 <= c < done && #[trigger] kept@[a] == whole[c];
                    }
                }
            }
            proof {
                assert(rest@ =~= whole.skip(done + 1));
                done = done + 1;
            }
        }
        assert(whole.take(done) =~= whole);
        self.lru_cache = kept;
    }

    /// Clean up the content that has expired at the current time.
    pub fn cleanup_expired(&mut self)
        ensures
            exists|now: i64| #[trigger] fresh_entries(old(self).cached(), now, old(self).ttl_ms()) == final(self).cached(),
            final(self).filters() == old(self).filters(),
            final(self).spec_config() == old(self).spec_config(),
    {
        let now = now_millis();
        self.cleanup_expired_at(now);
    }
}

/// Content that was just inserted is what a lookup of its identifier finds,
/// and inserting it leaves every other cached entry as it was.
pub proof fn law_get_after_insert<L>(cached: Seq<CachedContent<L>>, content: Content<L>, now: i64, other: Seq<char>)
    requires
        keys_unique(cached),
    ensures
        keyed_map(keyed_insert(cached, new_entry(content, now))).contains_key(content.id.0@),
        keyed_map(keyed_insert(cached, new_entry(content, now)))[content.id.0@].content == content,
        other != content.id.0@ ==> keyed_map(keyed_insert(cached, new_entry(content, now))).contains_key(other)
            == keyed_map(cached).contains_key(other),
        other != content.id.0@ && keyed_map(cached).contains_key(other) ==> keyed_map(
            keyed_insert(cached, new_entry(content, now)),
        )[other] == keyed_map(cached)[other],
{
    lemma_keyed_insert(cached, new_entry(content, now));
}

/// Cleaning up at `now` keeps every cached entry that is still fresh under
/// the time to live, and nothing that has expired.
pub proof fn law_cleanup_keeps_exactly_fresh<L>(cached: Seq<CachedContent<L>>, now: i64, ttl_ms: int)
    ensures
        forall|i: int|
            0 <= i < cached.len() && is_fresh(cached[i].insertion_time, now, ttl_ms) ==> #[trigger] fresh_entries(
                cached,
                now,
                ttl_ms,
            ).contains(cached[i]),
        forall|j: int|
            0 <= j < fresh_entries(cached, now, ttl_ms).len() ==> is_fresh(
                #[trigger] fresh_entries(cached, now, ttl_ms)[j].insertion_time,
                now,
                ttl_ms,
            ),
{
    broadcast use vstd::seq_lib::group_filter_ensures;

    let pred = |e: CachedContent<L>| is_fresh(e.insertion_time, now, ttl_ms);
    assert forall|i: int| 0 <= i < cached.len() && is_fresh(cached[i].insertion_time, now, ttl_ms) implies #[trigger] fresh_entries(
        cached,
        now,
        ttl_ms,
    ).contains(cached[i]) by {
        assert(pred(cached[i]));
        cached.lemma_filter_contains(pred, i);
    }
    assert forall|j: int| 0 <= j < fresh_entries(cached, now, ttl_ms).len() implies is_fresh(
        #[trigger] fresh_entries(cached, now, ttl_ms)[j].insertion_time,
        now,
        ttl_ms,
    ) by {
        cached.lemma_filter_pred(pred, j);
    }
}

} // verus!
