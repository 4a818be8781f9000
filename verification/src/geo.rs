//! Geographic layers and geohash addressing.

use vstd::prelude::*;
use vstd::string::*;

use crate::keyed::{Keyed, find_key, insert_keyed, keyed_map, keys_unique, lemma_map_index};

verus! {

/// Geographic layer enumeration for multi-scale addressing.
#[derive(Debug, Clone, Copy, PartialEq, Eq, Hash, Structural)]
pub enum GeographicLayer {
    /// Hyperlocal: ~100m radius
    Hyperlocal,
    /// Neighborhood: ~1km radius
    Neighborhood,
    /// District: ~10km radius
    District,
    /// City: ~100km radius
    City,
    /// Region: ~1000km radius
    Region,
    /// Global: worldwide
    Global,
}

impl GeographicLayer {
    /// Position of the layer in the hierarchy, from the finest (0) to the coarsest (5).
    pub open spec fn rank(self) -> int {
        match self {
            GeographicLayer::Hyperlocal => 0,
            GeographicLayer::Neighborhood => 1,
            GeographicLayer::District => 2,
            GeographicLayer::City => 3,
            GeographicLayer::Region => 4,
            GeographicLayer::Global => 5,
        }
    }

    /// Number of geohash characters that address a cell of this layer.
    pub open spec fn spec_precision(self) -> nat {
        match self {
            GeographicLayer::Hyperlocal => 7,
            GeographicLayer::Neighborhood => 6,
            GeographicLayer::District => 5,
            GeographicLayer::City => 4,
            GeographicLayer::Region => 3,
            GeographicLayer::Global => 1,
        }
    }

    /// The next larger layer.
    pub open spec fn spec_parent(self) -> Option<GeographicLayer> {
        match self {
            GeographicLayer::Hyperlocal => Some(GeographicLayer::Neighborhood),
            GeographicLayer::Neighborhood => Some(GeographicLayer::District),
            GeographicLayer::District => Some(GeographicLayer::City),
            GeographicLayer::City => Some(GeographicLayer::Region),
            GeographicLayer::Region => Some(GeographicLayer::Global),
            GeographicLayer::Global => None,
        }
    }

    /// The next smaller layer.
    pub open spec fn spec_child(self) -> Option<GeographicLayer> {
        match self {
            GeographicLayer::Hyperlocal => None,
            GeographicLayer::Neighborhood => Some(GeographicLayer::Hyperlocal),
            GeographicLayer::District => Some(GeographicLayer::Neighborhood),
            GeographicLayer::City => Some(GeographicLayer::District),
            GeographicLayer::Region => Some(GeographicLayer::City),
            GeographicLayer::Global => Some(GeographicLayer::Region),
        }
    }

    /// Get the geohash precision level for each layer.
    pub fn geohash_precision(&self) -> (p: usize)
        ensures
            p == self.spec_precision(),
    {
        match self {
            GeographicLayer::Hyperlocal => 7,
            GeographicLayer::Neighborhood => 6,
            GeographicLayer::District => 5,
            GeographicLayer::City => 4,
            GeographicLayer::Region => 3,
            GeographicLayer::Global => 1,
        }
    }

    /// Get the parent layer (larger scale).
    pub fn parent(&self) -> (p: Option<GeographicLayer>)
        ensures
            p == self.spec_parent(),
    {
        match self {
            GeographicLayer::Hyperlocal => Some(GeographicLayer::Neighborhood),
            GeographicLayer::Neighborhood => Some(GeographicLayer::District),
            GeographicLayer::District => Some(GeographicLayer::City),
            GeographicLayer::City => Some(GeographicLayer::Region),
            GeographicLayer::Region => Some(GeographicLayer::Global),
            GeographicLayer::Global => None,
        }
    }

    /// Get the child layer (smaller scale).
    pub fn child(&self) -> (c: Option<GeographicLayer>)
        ensures
            c == self.spec_child(),
    {
        match self {
            GeographicLayer::Hyperlocal => None,
            GeographicLayer::Neighborhood => Some(GeographicLayer::Hyperlocal),
            GeographicLayer::District => Some(GeographicLayer::Neighborhood),
            GeographicLayer::City => Some(GeographicLayer::District),
            GeographicLayer::Region => Some(GeographicLayer::City),
            GeographicLayer::Global => Some(GeographicLayer::Region),
        }
    }
}

impl GeographicLayer {
    /// Every layer, from the finest to the coarsest.
    pub fn all_layers() -> (layers: Vec<GeographicLayer>)
        ensures
            layers@ == spec_all_layers(),
    {
        vec![
            GeographicLayer::Hyperlocal,
            GeographicLayer::Neighborhood,
            GeographicLayer::District,
            GeographicLayer::City,
            GeographicLayer::Region,
            GeographicLayer::Global,
        ]
    }

    /// Index of this layer in the list returned by `all_layers`.
    fn index(&self) -> (i: usize)
        ensures
            i == self.rank(),
    {
        match self {
            GeographicLayer::Hyperlocal => 0,
            GeographicLayer::Neighborhood => 1,
            GeographicLayer::District => 2,
            GeographicLayer::City => 3,
            GeographicLayer::Region => 4,
            GeographicLayer::Global => 5,
        }
    }
}

/// The name of a layer, as its `Debug` form writes it.
pub open spec fn layer_name(layer: GeographicLayer) -> Seq<char> {
    match layer {
        GeographicLayer::Hyperlocal => "Hyperlocal"@,
        GeographicLayer::Neighborhood => "Neighborhood"@,
        GeographicLayer::District => "District"@,
        GeographicLayer::City => "City"@,
        GeographicLayer::Region => "Region"@,
        GeographicLayer::Global => "Global"@,
    }
}

impl GeographicLayer {
    /// The name of the layer.
    pub fn name(&self) -> (s: &'static str)
        ensures
            s@ == layer_name(*self),
    {
        match self {
            GeographicLayer::Hyperlocal => "Hyperlocal",
            GeographicLayer::Neighborhood => "Neighborhood",
            GeographicLayer::District => "District",
            GeographicLayer::City => "City",
            GeographicLayer::Region => "Region",
            GeographicLayer::Global => "Global",
        }
    }
}

/// Each layer is named as its variant is written, and no two layers share a
/// name: already the first letters of the names tell the layers apart.
pub proof fn law_layer_names(l1: GeographicLayer, l2: GeographicLayer)
    ensures
        layer_name(GeographicLayer::Hyperlocal) == "Hyperlocal"@,
        layer_name(GeographicLayer::Neighborhood) == "Neighborhood"@,
        layer_name(GeographicLayer::District) == "District"@,
        layer_name(GeographicLayer::City) == "City"@,
        layer_name(GeographicLayer::Region) == "Region"@,
        layer_name(GeographicLayer::Global) == "Global"@,
        layer_name(l1).len() > 0,
        layer_name(l1)[0] == layer_name(l2)[0] ==> l1 == l2,
        layer_name(l1) == layer_name(l2) <==> l1 == l2,
{
    reveal_strlit("Hyperlocal");
    reveal_strlit("Neighborhood");
    reveal_strlit("District");
    reveal_strlit("City");
    reveal_strlit("Region");
    reveal_strlit("Global");
    if layer_name(l1) == layer_name(l2) {
        assert(layer_name(l1)[0] == layer_name(l2)[0]);
    }
}

/// The layers from the finest to the coarsest.
pub open spec fn spec_all_layers() -> Seq<GeographicLayer> {
    seq![
        GeographicLayer::Hyperlocal,
        GeographicLayer::Neighborhood,
        GeographicLayer::District,
        GeographicLayer::City,
        GeographicLayer::Region,
        GeographicLayer::Global,
    ]
}

/// Going up one layer and back down returns to the starting layer, and so
/// does going down and back up.
pub proof fn lemma_parent_child_inverse(layer: GeographicLayer)
    ensures
        layer.spec_parent() matches Some(p) ==> p.spec_child() == Some(layer),
        layer.spec_child() matches Some(c) ==> c.spec_parent() == Some(layer),
{
}

/// Each parent layer is addressed by a strictly shorter geohash prefix than its
/// child, so a parent cell always contains its child cells.
pub proof fn lemma_parent_is_coarser(layer: GeographicLayer)
    ensures
        layer.spec_parent() matches Some(p) ==> p.spec_precision() < layer.spec_precision()
            && p.rank() == layer.rank() + 1,
{
}

/// Only the global layer has no parent, and only the hyperlocal layer has no child.
pub proof fn lemma_hierarchy_ends(layer: GeographicLayer)
    ensures
        layer.spec_parent() is None <==> layer == GeographicLayer::Global,
        layer.spec_child() is None <==> layer == GeographicLayer::Hyperlocal,
{
}

/// The list of all layers is the chain of parents starting at the finest layer:
/// every layer occurs once, at the position given by its rank.
pub proof fn lemma_all_layers_is_parent_chain()
    ensures
        spec_all_layers().len() == 6,
        forall|i: int| 0 <= i < 5 ==> (#[trigger] spec_all_layers()[i]).spec_parent() == Some(spec_all_layers()[i + 1]),
        forall|l: GeographicLayer| #[trigger] spec_all_layers()[l.rank()] == l,
        spec_all_layers()[5].spec_parent() is None,
{
    assert forall|l: GeographicLayer| #[trigger] spec_all_layers()[l.rank()] == l by {
        match l {
            GeographicLayer::Hyperlocal => {},
            GeographicLayer::Neighborhood => {},
            GeographicLayer::District => {},
            GeographicLayer::City => {},
            GeographicLayer::Region => {},
            GeographicLayer::Global => {},
        }
    }
}

/// The geohash of a layer: the first `precision` characters of the full geohash,
/// or the whole geohash when it is shorter.
pub open spec fn layer_prefix(geohash: Seq<char>, layer: GeographicLayer) -> Seq<char> {
    if layer.spec_precision() <= geohash.len() {
        geohash.take(layer.spec_precision() as int)
    } else {
        geohash
    }
}

/// Geographic address with one geohash per layer.
#[derive(Debug)]
pub struct GeographicAddress {
    geohash: String,
    layers: Vec<String>,
}

impl View for GeographicAddress {
    type V = Seq<char>;

    /// An address is determined by its full geohash.
    closed spec fn view(&self) -> Seq<char> {
        self.geohash@
    }
}

impl Clone for GeographicAddress {
    /// The same address, rebuilt from its full geohash.
    fn clone(&self) -> (c: Self)
        ensures
            c@ == self@,
    {
        GeographicAddress::from_geohash(self.geohash.clone())
    }
}

impl GeographicAddress {
    #[verifier::type_invariant]
    spec fn well_formed(self) -> bool {
        &&& self.layers.len() == 6
        &&& forall|i: int|
            0 <= i < 6 ==> #[trigger] self.layers@[i]@ == layer_prefix(
                self.geohash@,
                spec_all_layers()[i],
            )
    }

    /// Build the address of a location from its full geohash: each layer gets the
    /// prefix of the geohash at the layer's precision.
    pub fn from_geohash(geohash: String) -> (addr: GeographicAddress)
        ensures
            addr@ == geohash@,
    {
        let all = GeographicLayer::all_layers();
        let n = geohash.as_str().unicode_len();
        let mut layers: Vec<String> = Vec::new();
        let mut i: usize = 0;
        while i < all.len()
            invariant
                all@ == spec_all_layers(),
                n == geohash@.len(),
                i <= all.len(),
                layers.len() == i,
                forall|j: int| 0 <= j < i ==> #[trigger] layers@[j]@ == layer_prefix(geohash@, spec_all_layers()[j]),
            decreases all.len() - i,
        {
            let precision = all[i].geohash_precision();
            let take = if precision <= n { precision } else { n };
            let prefix = geohash.as_str().substring_char(0, take);
            let layer_hash = String::from_str(prefix);
            proof {
                assert(geohash@.subrange(0, geohash@.len() as int) == geohash@);
            }
            layers.push(layer_hash);
            i = i + 1;
        }
        GeographicAddress { geohash, layers }
    }

    /// The full geohash of the address.
    pub fn geohash(&self) -> (h: &str)
        ensures
            h@ == self@,
    {
        self.geohash.as_str()
    }

    /// Get the geohash for a specific layer.
    pub fn get_layer_hash(&self, layer: GeographicLayer) -> (h: &str)
        ensures
            h@ == layer_prefix(self@, layer),
    {
        proof {
            use_type_invariant(self);
            lemma_all_layers_is_parent_chain();
        }
        let i = layer.index();
        self.layers[i].as_str()
    }

    /// Get the neighboring cells of this address at a specific layer, as eight
    /// geohashes in the order south-west, south, south-east, west, east,
    /// north-west, north, north-east.
    pub fn get_neighbors(&self, layer: GeographicLayer) -> (r: Result<Vec<String>, GeographicError>)
        requires
            self@.len() > 0,
        ensures
            r is Ok <==> is_valid_geohash(layer_prefix(self@, layer)),
            r matches Ok(v) ==> v@.map_values(|s: String| s@) == spec_geohash_neighbors(
                layer_prefix(self@, layer),
            ),
            r matches Err(e) ==> e is GeohashError,
    {
        let layer_hash = self.get_layer_hash(layer);
        match geohash_neighbors(layer_hash) {
            Ok(v) => Ok(v),
            Err(e) => Err(GeographicError::GeohashError(geohash_error_message(&e))),
        }
    }
}

/// The characters of the geohash base-32 alphabet.
pub open spec fn is_base32_char(c: char) -> bool {
    ('0' <= c && c <= '9') || ('b' <= c && c <= 'h') || c == 'j' || c == 'k' || c == 'm' || c
        == 'n' || ('p' <= c && c <= 'z')
}

/// A geohash that the geohash crate decodes: one to twelve base-32 characters.
pub open spec fn is_valid_geohash(s: Seq<char>) -> bool {
    &&& 1 <= s.len() <= 12
    &&& forall|i: int| 0 <= i < s.len() ==> is_base32_char(#[trigger] s[i])
}

/// The eight neighbors that `geohash::neighbors` computes for a valid geohash, in
/// the order south-west, south, south-east, west, east, north-west, north, north-east.
pub uninterp spec fn spec_geohash_neighbors(hash: Seq<char>) -> Seq<Seq<char>>;

#[verifier::external_type_specification]
#[verifier::external_body]
pub struct ExGeohashError(geohash::GeohashError);

/// Calls `geohash::neighbors`. The contract claims that the call succeeds exactly
/// on valid geohashes (one to twelve base-32 characters), that the eight returned
/// hashes are those named by `spec_geohash_neighbors`, in the crate's field order,
/// and that each has the input's length. An empty input is excluded: the crate
/// shifts a 64-bit value by 64 on it.
#[verifier::external_body]
fn geohash_neighbors(hash: &str) -> (r: Result<Vec<String>, geohash::GeohashError>)
    requires
        hash@.len() > 0,
    ensures
        r is Ok <==> is_valid_geohash(hash@),
        r matches Ok(v) ==> v@.map_values(|s: String| s@) == spec_geohash_neighbors(hash@),
        r matches Ok(v) ==> v@.len() == 8 && forall|i: int|
            0 <= i < 8 ==> (#[trigger] v@[i]@).len() == hash@.len(),
{
    geohash::neighbors(hash).map(|n| vec![n.sw, n.s, n.se, n.w, n.e, n.nw, n.n, n.ne])
}

/// Calls `Display::to_string` on a `geohash::GeohashError`. Nothing is stated of
/// the message: it is the crate's description of the error.
#[verifier::external_body]
fn geohash_error_message(e: &geohash::GeohashError) -> String {
    e.to_string()
}

/// Geographic errors.
#[derive(Debug)]
pub enum GeographicError {
    /// The geohash crate refused a hash.
    GeohashError(String),
    /// Spatial indexing failed.
    SpatialIndexingError(String),
    /// Routing failed.
    RoutingError(String),
}

/// A route between sectors of one layer. `M` holds the route's measurements
/// (distance and cost), which the table never reads.
#[derive(Debug, Clone)]
pub struct GeographicRoute<M> {
    /// Destination sector
    pub destination: String,
    /// Next hop sector
    pub next_hop: String,
    /// Distance and cost of the route
    pub metrics: M,
    /// Last updated timestamp
    pub last_updated: u64,
}

impl<M> Keyed for GeographicRoute<M> {
    open spec fn key(&self) -> Seq<char> {
        self.destination@
    }

    fn key_text(&self) -> (k: &str) {
        self.destination.as_str()
    }
}

/// Geographic routing table: for each layer that has routes, the route to
/// each destination sector. `S` is the type of the local sector.
pub struct GeographicRoutingTable<S, M> {
    routes: Vec<Option<Vec<GeographicRoute<M>>>>,
    local_sector: S,
}

impl<S, M> GeographicRoutingTable<S, M> {
    #[verifier::type_invariant]
    spec fn well_formed(self) -> bool {
        &&& self.routes@.len() == 6
        &&& forall|i: int| 0 <= i < 6 ==> (#[trigger] self.routes@[i] matches Some(v) ==> keys_unique(v@))
    }

    /// The routes of a layer by destination, or `None` for a layer that never
    /// had a route.
    pub closed spec fn layer_routes(&self, layer: GeographicLayer) -> Option<Map<Seq<char>, GeographicRoute<M>>> {
        match self.routes@[layer.rank()] {
            Some(v) => Some(keyed_map(v@)),
            None => None,
        }
    }

    /// The local sector.
    pub closed spec fn spec_local_sector(&self) -> S {
        self.local_sector
    }

    /// Create a new routing table.
    pub fn new(local_sector: S) -> (t: Self)
        ensures
            forall|l: GeographicLayer| #[trigger] t.layer_routes(l) is None,
            t.spec_local_sector() == local_sector,
    {
        GeographicRoutingTable { routes: Self::no_routes(), local_sector }
    }

    /// One empty slot per layer.
    fn no_routes() -> (routes: Vec<Option<Vec<GeographicRoute<M>>>>)
        ensures
            routes@.len() == 6,
            forall|j: int| 0 <= j < 6 ==> #[trigger] routes@[j] is None,
    {
        let mut routes: Vec<Option<Vec<GeographicRoute<M>>>> = Vec::new();
        let mut i: usize = 0;
        while i < 6
            invariant
                i <= 6,
                routes@.len() == i,
                forall|j: int| 0 <= j < i ==> #[trigger] routes@[j] is None,
            decreases 6 - i,
        {
            routes.push(None);
            i = i + 1;
        }
        routes
    }

    /// The local sector.
    pub fn local_sector(&self) -> (s: &S)
        ensures
            *s == self.spec_local_sector(),
    {
        &self.local_sector
    }

    /// Add or update a route: it becomes the layer's route to its destination.
    pub fn update_route(&mut self, layer: GeographicLayer, route: GeographicRoute<M>)
        ensures
            final(self).layer_routes(layer) == Some(
                match old(self).layer_routes(layer) {
                    Some(m) => m,
                    None => Map::empty(),
                }.insert(route.destination@, route),
            ),
            forall|l: GeographicLayer| l != layer ==> #[trigger] final(self).layer_routes(l) == old(self).layer_routes(l),
            final(self).spec_local_sector() == old(self).spec_local_sector(),
    {
        proof {
            use_type_invariant(&*self);
        }
        let i = layer.index();
        let mut routes = Self::no_routes();
        std::mem::swap(&mut routes, &mut self.routes);
        let ghost before = routes@;
        let slot = routes.remove(i);
        let mut v = match slot {
            Some(v) => v,
            None => Vec::new(),
        };
        proof {
            if slot is None {
                assert(keyed_map(v@) =~= Map::<Seq<char>, GeographicRoute<M>>::empty());
            }
        }
        insert_keyed(&mut v, route);
        routes.insert(i, Some(v));
        proof {
            assert(routes@ =~= before.update(i as int, Some(v)));
            assert forall|l: GeographicLayer| l != layer implies #[trigger] l.rank() != layer.rank() by {}
        }
        self.routes = routes;
    }

    /// Get the route of a layer to a destination.
    pub fn get_route(&self, layer: GeographicLayer, destination: &str) -> (r: Option<&GeographicRoute<M>>)
        ensures
            r is Some <==> (self.layer_routes(layer) matches Some(m) && m.contains_key(destination@)),
            r matches Some(x) ==> *x == self.layer_routes(layer)->0[destination@],
    {
        proof {
            use_type_invariant(self);
        }
        let i = layer.index();
        match &self.routes[i] {
            Some(v) => {
                match find_key(v, destination) {
                    Some(k) => {
                        proof {
                            lemma_map_index(v@, k as int);
                        }
                        Some(&v[k])
                    },
                    None => None,
                }
            },
            None => None,
        }
    }

    /// Get all routes of a layer.
    pub fn get_layer_routes(&self, layer: GeographicLayer) -> (r: Option<&Vec<GeographicRoute<M>>>)
        ensures
            r is Some <==> self.layer_routes(layer) is Some,
            r matches Some(v) ==> keys_unique(v@) && keyed_map(v@) == self.layer_routes(layer)->0,
    {
        proof {
            use_type_invariant(self);
        }
        let i = layer.index();
        match &self.routes[i] {
            Some(v) => Some(v),
            None => None,
        }
    }
}

/// A route just added to a layer is what a lookup of its destination in that
/// layer finds; every other destination and every other layer answer as
/// before.
pub proof fn law_route_read_after_update<M>(
    before: Option<Map<Seq<char>, GeographicRoute<M>>>,
    route: GeographicRoute<M>,
    other: Seq<char>,
)
    ensures
        ({
            let after = match before {
                Some(m) => m,
                None => Map::empty(),
            }.insert(route.destination@, route);
            &&& after.contains_key(route.destination@)
            &&& after[route.destination@] == route
            &&& other != route.destination@ ==> (after.contains_key(other) <==> (before matches Some(m) && m.contains_key(other)))
            &&& other != route.destination@ && (before matches Some(m) && m.contains_key(other)) ==> after[other] == before->0[other]
        }),
{
}

} // verus!
