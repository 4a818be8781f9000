//! Location privacy: k-anonymity bookkeeping, the location mixing pool, and
//! pseudonymous node identifiers.

use vstd::prelude::*;
use vstd::string::*;

use crate::keyed::{Keyed, find_key, insert_keyed, keyed_map, keys_unique, lemma_map_index, lemma_map_update};
use crate::text::{contains_text, text_seq};
use crate::utils::{decimal, format_decimal};

verus! {

/// The SHA-256 digest of a byte sequence.
pub uninterp spec fn spec_sha256(data: Seq<u8>) -> Seq<u8>;

/// Calls `ring::digest::digest` with `SHA256` and copies the digest out. The
/// result is named by `spec_sha256`; the contract also claims that a SHA-256
/// digest is 32 bytes long.
#[verifier::external_body]
fn sha256(data: &[u8]) -> (h: Vec<u8>)
    ensures
        h@ == spec_sha256(data@),
        h@.len() == 32,
{
    ring::digest::digest(&ring::digest::SHA256, data).as_ref().to_vec()
}

/// Encrypt a node ID for privacy: the SHA-256 digest of its UTF-8 bytes.
pub fn encrypt_node_id(node_id: &str) -> (h: Vec<u8>)
    ensures
        h@ == spec_sha256(node_id.spec_bytes()),
        h@.len() == 32,
{
    sha256(node_id.as_bytes())
}

/// The digest under which content is signed: the SHA-256 digest of the
/// content's serialized bytes.
pub fn hash_content_bytes(serialized: &[u8]) -> (h: Vec<u8>)
    ensures
        h@ == spec_sha256(serialized@),
        h@.len() == 32,
{
    sha256(serialized)
}

/// Division that truncates towards zero, as Rust's integer `/` does.
pub open spec fn trunc_div(a: int, b: int) -> int {
    if a >= 0 {
        a / b
    } else {
        -((-a) / b)
    }
}

/// The mixing group of a location: its geohash and the five-minute bucket of
/// the time, separated by an underscore.
pub open spec fn spec_mixing_group_id(geohash: Seq<char>, now_secs: int) -> Seq<char> {
    geohash + seq!['_'] + decimal(trunc_div(now_secs, 300))
}

/// The mixing group of a location at the given Unix time in seconds.
pub fn mixing_group_id_at(geohash: &str, now_secs: i64) -> (id: String)
    ensures
        id@ == spec_mixing_group_id(geohash@, now_secs as int),
{
    let magnitude: u64 = if now_secs < 0 { (-(now_secs as i128)) as u64 } else { now_secs as u64 };
    let quotient: u64 = magnitude / 300;
    let bucket: i64 = if now_secs < 0 { -(quotient as i64) } else { quotient as i64 };
    assert(bucket == trunc_div(now_secs as int, 300));
    let mut id = String::from_str(geohash);
    id.append("_");
    let digits = format_decimal(bucket);
    id.append(digits.as_str());
    proof {
        reveal_strlit("_");
        assert("_"@ =~= seq!['_']);
    }
    id
}

/// Calls `chrono::Utc::now` and reads it with `timestamp`. The result depends
/// on the time of the call; nothing is stated of it.
#[verifier::external_body]
fn now_seconds() -> (t: i64) {
    chrono::Utc::now().timestamp()
}

/// Generate the mixing group ID of a location from the current time.
pub fn generate_mixing_group_id(geohash: &str) -> (id: String)
    ensures
        exists|t: i64| id@ == spec_mixing_group_id(geohash@, t as int),
{
    let now = now_seconds();
    mixing_group_id_at(geohash, now)
}

/// Calls `rand::seq::SliceRandom::shuffle` with the thread's generator. The
/// order that comes out depends on chance; the contract claims only that the
/// same elements come out, as a shuffle of the slice in place.
#[verifier::external_body]
fn shuffle_in_place<T>(v: &mut Vec<T>)
    ensures
        final(v)@.to_multiset() == old(v)@.to_multiset(),
{
    rand::seq::SliceRandom::shuffle(v.as_mut_slice(), &mut rand::thread_rng())
}

/// Location update for mixing. `L` is the type of the (precision-adjusted)
/// location.
#[derive(Debug)]
pub struct LocationUpdate<L> {
    /// Node ID (encrypted)
    pub encrypted_node_id: Vec<u8>,
    /// Location (with precision adjustment)
    pub location: L,
    /// Timestamp, in Unix milliseconds
    pub timestamp: i64,
    /// Mixing group ID
    pub mixing_group_id: String,
}

/// An update has waited out the mixing delay at time `now`: a clock that runs
/// backwards counts as no time elapsed.
pub open spec fn is_ready(timestamp: i64, now: i64, mixing_delay_ms: u64) -> bool {
    let elapsed = now - timestamp;
    (if elapsed < 0 { 0 } else { elapsed }) >= mixing_delay_ms
}

/// Length of the longest prefix of updates that are all ready at `now`.
pub open spec fn ready_prefix_len<L>(s: Seq<LocationUpdate<L>>, now: i64, mixing_delay_ms: u64) -> nat
    decreases s.len(),
{
    if s.len() == 0 {
        0
    } else if is_ready(s[0].timestamp, now, mixing_delay_ms) {
        1 + ready_prefix_len(s.drop_first(), now, mixing_delay_ms)
    } else {
        0
    }
}

proof fn lemma_ready_prefix<L>(s: Seq<LocationUpdate<L>>, now: i64, d: u64, k: int)
    requires
        0 <= k <= s.len(),
        forall|i: int| 0 <= i < k ==> is_ready(#[trigger] s[i].timestamp, now, d),
        k < s.len() ==> !is_ready(s[k].timestamp, now, d),
    ensures
        ready_prefix_len(s, now, d) == k,
    decreases k,
{
    if k > 0 {
        let t = s.drop_first();
        assert forall|i: int| 0 <= i < k - 1 implies is_ready(#[trigger] t[i].timestamp, now, d) by {
            assert(t[i] == s[i + 1]);
        }
        if k - 1 < t.len() {
            assert(t[k - 1] == s[k]);
        }
        lemma_ready_prefix(t, now, d, k - 1);
    }
}

/// Location mixing pool: updates wait out a mixing delay, oldest first, and
/// the pool never holds more than its maximum size.
pub struct LocationMixingPool<L> {
    location_updates: Vec<LocationUpdate<L>>,
    max_pool_size: usize,
    mixing_delay_ms: u64,
}

impl<L> View for LocationMixingPool<L> {
    type V = Seq<LocationUpdate<L>>;

    /// The pooled updates, oldest first.
    closed spec fn view(&self) -> Seq<LocationUpdate<L>> {
        self.location_updates@
    }
}

impl<L> LocationMixingPool<L> {
    #[verifier::type_invariant]
    spec fn well_formed(self) -> bool {
        self.location_updates@.len() <= self.max_pool_size
    }

    /// Maximum pool size.
    pub closed spec fn spec_max_pool_size(&self) -> usize {
        self.max_pool_size
    }

    /// Mixing delay, in milliseconds.
    pub closed spec fn spec_mixing_delay_ms(&self) -> u64 {
        self.mixing_delay_ms
    }

    /// An empty pool.
    pub fn new(max_pool_size: usize, mixing_delay_ms: u64) -> (p: Self)
        ensures
            p@ == Seq::<LocationUpdate<L>>::empty(),
            p.spec_max_pool_size() == max_pool_size,
            p.spec_mixing_delay_ms() == mixing_delay_ms,
    {
        LocationMixingPool { location_updates: Vec::new(), max_pool_size, mixing_delay_ms }
    }

    /// Number of pooled updates.
    pub fn len(&self) -> (n: usize)
        ensures
            n == self@.len(),
    {
        self.location_updates.len()
    }

    /// Add a location update; when the pool grows past its maximum size, the
    /// oldest update is dropped.
    pub fn add_location_update(&mut self, update: LocationUpdate<L>)
        ensures
            final(self).spec_max_pool_size() == old(self).spec_max_pool_size(),
            final(self).spec_mixing_delay_ms() == old(self).spec_mixing_delay_ms(),
            final(self)@ == if old(self)@.len() + 1 > old(self).spec_max_pool_size() {
                old(self)@.push(update).drop_first()
            } else {
                old(self)@.push(update)
            },
            final(self)@.len() <= final(self).spec_max_pool_size(),
    {
        proof {
            use_type_invariant(&*self);
        }
        let mut items: Vec<LocationUpdate<L>> = Vec::new();
        std::mem::swap(&mut items, &mut self.location_updates);
        let ghost pushed = items@.push(update);
        items.push(update);
        if items.len() > self.max_pool_size {
            items.remove(0);
            assert(items@ =~= pushed.drop_first());
        }
        self.location_updates = items;
    }

    /// Release the updates that are ready at time `now` (Unix milliseconds):
    /// the longest run of ready updates at the front of the pool, oldest first.
    pub fn release_ready(&mut self, now: i64) -> (ready: Vec<LocationUpdate<L>>)
        ensures
            ({
                let k = ready_prefix_len(old(self)@, now, old(self).spec_mixing_delay_ms()) as int;
                &&& ready@ == old(self)@.take(k)
                &&& final(self)@ == old(self)@.skip(k)
            }),
            final(self).spec_max_pool_size() == old(self).spec_max_pool_size(),
            final(self).spec_mixing_delay_ms() == old(self).spec_mixing_delay_ms(),
    {
        proof {
            use_type_invariant(&*self);
        }
        let delay = self.mixing_delay_ms;
        let mut items: Vec<LocationUpdate<L>> = Vec::new();
        std::mem::swap(&mut items, &mut self.location_updates);
        let ghost s = items@;
        let mut ready: Vec<LocationUpdate<L>> = Vec::new();
        let mut k: usize = 0;
        loop
            invariant
                s.len() <= usize::MAX,
                k <= s.len(),
                ready@ == s.take(k as int),
                items@ == s.skip(k as int),
                forall|i: int| 0 <= i < k ==> is_ready(#[trigger] s[i].timestamp, now, delay),
            ensures
                k <= s.len(),
                ready@ == s.take(k as int),
                items@ == s.skip(k as int),
                forall|i: int| 0 <= i < k ==> is_ready(#[trigger] s[i].timestamp, now, delay),
                k < s.len() ==> !is_ready(s[k as int].timestamp, now, delay),
            decreases s.len() - k,
        {
            if items.len() == 0 {
                break;
            }
            let ts = items[0].timestamp;
            let elapsed: i128 = now as i128 - ts as i128;
            let waited: i128 = if elapsed < 0 { 0 } else { elapsed };
            assert(s[k as int] == items@[0]);
            if waited < delay as i128 {
                break;
            }
            let u = items.remove(0);
            ready.push(u);
            proof {
                assert(ready@ =~= s.take(k + 1));
                assert(items@ =~= s.skip(k + 1));
            }
            k = k + 1;
        }
        proof {
            lemma_ready_prefix(s, now, delay, k as int);
        }
        self.location_updates = items;
        ready
    }

    /// Process the mixing pool: release the updates that have waited out the
    /// mixing delay at the current time, shuffled.
    pub fn process_mixing_pool(&mut self) -> (ready: Vec<LocationUpdate<L>>)
        ensures
            exists|now: i64|
                #![trigger ready_prefix_len(old(self)@, now, old(self).spec_mixing_delay_ms())]
                {
                let k = ready_prefix_len(old(self)@, now, old(self).spec_mixing_delay_ms()) as int;
                &&& ready@.to_multiset() == old(self)@.take(k).to_multiset()
                &&& final(self)@ == old(self)@.skip(k)
            },
            final(self).spec_max_pool_size() == old(self).spec_max_pool_size(),
            final(self).spec_mixing_delay_ms() == old(self).spec_mixing_delay_ms(),
    {
        let now = crate::clock::now_millis();
        let mut ready = self.release_ready(now);
        shuffle_in_place(&mut ready);
        ready
    }
}

/// The users of a k-anonymity set for one geohash cell.
#[derive(Debug)]
pub struct AnonymitySet {
    /// Geohash of the cell
    pub geohash: String,
    /// Users in this anonymity set
    pub users: Vec<String>,
    /// Last update, in Unix milliseconds
    pub last_update: i64,
}

impl Keyed for AnonymitySet {
    open spec fn key(&self) -> Seq<char> {
        self.geohash@
    }

    fn key_text(&self) -> (k: &str) {
        self.geohash.as_str()
    }
}

/// No text occurs twice.
pub open spec fn texts_distinct(v: Seq<String>) -> bool {
    forall|i: int, j: int| 0 <= i < v.len() && 0 <= j < v.len() && i != j ==> #[trigger] v[i]@ != #[trigger] v[j]@
}

/// Recording a user never makes a cell lose k-anonymity: every cell keeps at
/// least the users it had, and the cell of the update gains the user.
pub proof fn law_k_anonymity_never_decreases(
    sets: Map<Seq<char>, Set<Seq<char>>>,
    geohash: Seq<char>,
    user: Seq<char>,
    cell: Seq<char>,
    k: nat,
)
    requires
        sets_finite(sets),
        sets.contains_key(cell) && sets[cell].len() >= k,
    ensures
        ({
            let after = sets.insert(
                geohash,
                if sets.contains_key(geohash) { sets[geohash] } else { Set::<Seq<char>>::empty() }.insert(user),
            );
            &&& after.contains_key(cell)
            &&& after[cell].len() >= k
            &&& after[geohash].contains(user)
        }),
{
    if cell == geohash {
        let s = sets[cell];
        vstd::set_lib::lemma_len_subset(s, s.insert(user));
    }
}

/// Releasing ready updates loses none and duplicates none: the released ones
/// followed by those left in the pool are the pool before, in order.
pub proof fn law_release_keeps_every_update<L>(pool: Seq<LocationUpdate<L>>, now: i64, mixing_delay_ms: u64)
    ensures
        ready_prefix_len(pool, now, mixing_delay_ms) <= pool.len(),
        pool.take(ready_prefix_len(pool, now, mixing_delay_ms) as int) + pool.skip(
            ready_prefix_len(pool, now, mixing_delay_ms) as int,
        ) == pool,
{
    lemma_ready_prefix_bound(pool, now, mixing_delay_ms);
    let k = ready_prefix_len(pool, now, mixing_delay_ms) as int;
    assert(pool.take(k) + pool.skip(k) =~= pool);
}

proof fn lemma_ready_prefix_bound<L>(s: Seq<LocationUpdate<L>>, now: i64, d: u64)
    ensures
        ready_prefix_len(s, now, d) <= s.len(),
    decreases s.len(),
{
    if s.len() > 0 {
        lemma_ready_prefix_bound(s.drop_first(), now, d);
    }
}

/// The users of each cell held by a sequence of anonymity sets, by geohash.
pub open spec fn sets_view(s: Seq<AnonymitySet>) -> Map<Seq<char>, Set<Seq<char>>> {
    Map::new(
        |g: Seq<char>| keyed_map(s).contains_key(g),
        |g: Seq<char>| text_seq(keyed_map(s)[g].users@).to_set(),
    )
}

/// Every cell holds finitely many users.
pub open spec fn sets_finite(sets: Map<Seq<char>, Set<Seq<char>>>) -> bool {
    forall|g: Seq<char>| #[trigger] sets.contains_key(g) ==> sets[g].finite()
}

proof fn lemma_sets_finite(s: Seq<AnonymitySet>)
    ensures
        sets_finite(sets_view(s)),
{
    broadcast use vstd::seq_lib::seq_to_set_is_finite;
}

proof fn lemma_sets_view_insert(before: Seq<AnonymitySet>, after: Seq<AnonymitySet>, g: Seq<char>, x: AnonymitySet, users: Set<Seq<char>>)
    requires
        keyed_map(after) == keyed_map(before).insert(g, x),
        text_seq(x.users@).to_set() == users,
    ensures
        sets_view(after) == sets_view(before).insert(g, users),
{
    assert(sets_view(after) =~= sets_view(before).insert(g, users));
}

/// Anonymity tracker for k-anonymity: the users seen in each geohash cell.
pub struct AnonymityTracker {
    anonymity_sets: Vec<AnonymitySet>,
    min_anonymity: usize,
}

impl AnonymityTracker {
    #[verifier::type_invariant]
    spec fn well_formed(self) -> bool {
        &&& keys_unique(self.anonymity_sets@)
        &&& forall|i: int| 0 <= i < self.anonymity_sets@.len() ==> texts_distinct((#[trigger] self.anonymity_sets@[i]).users@)
    }

    /// The users of each cell, by geohash.
    pub closed spec fn user_sets(&self) -> Map<Seq<char>, Set<Seq<char>>> {
        sets_view(self.anonymity_sets@)
    }

    /// Minimum anonymity threshold.
    pub closed spec fn spec_min_anonymity(&self) -> usize {
        self.min_anonymity
    }

    /// An empty tracker.
    pub fn new(min_anonymity: usize) -> (t: Self)
        ensures
            t.user_sets() == Map::<Seq<char>, Set<Seq<char>>>::empty(),
            sets_finite(t.user_sets()),
            t.spec_min_anonymity() == min_anonymity,
    {
        let t = AnonymityTracker { anonymity_sets: Vec::new(), min_anonymity };
        assert(t.user_sets() =~= Map::<Seq<char>, Set<Seq<char>>>::empty());
        t
    }

    /// Check k-anonymity for a cell: at least `k` distinct users have been seen
    /// there. A cell never seen does not satisfy it.
    pub fn check_k_anonymity(&self, geohash: &str, k: usize) -> (b: bool)
        ensures
            b == (self.user_sets().contains_key(geohash@) && self.user_sets()[geohash@].len() >= k),
            sets_finite(self.user_sets()),
    {
        proof {
            use_type_invariant(self);
            lemma_sets_finite(self.anonymity_sets@);
        }
        match find_key(&self.anonymity_sets, geohash) {
            Some(i) => {
                proof {
                    lemma_map_index(self.anonymity_sets@, i as int);
                    lemma_distinct_texts_len(self.anonymity_sets@[i as int].users@);
                }
                self.anonymity_sets[i].users.len() >= k
            },
            None => false,
        }
    }

    /// Update the anonymity set of a cell with a user.
    pub fn update_anonymity_set(&mut self, node_id: &str, geohash: &str)
        ensures
            final(self).user_sets() == old(self).user_sets().insert(
                geohash@,
                if old(self).user_sets().contains_key(geohash@) {
                    old(self).user_sets()[geohash@]
                } else {
                    Set::<Seq<char>>::empty()
                }.insert(node_id@),
            ),
            sets_finite(old(self).user_sets()),
            sets_finite(final(self).user_sets()),
            final(self).spec_min_anonymity() == old(self).spec_min_anonymity(),
    {
        proof {
            use_type_invariant(&*self);
            lemma_sets_finite(self.anonymity_sets@);
        }
        let now = crate::clock::now_millis();
        let mut items: Vec<AnonymitySet> = Vec::new();
        std::mem::swap(&mut items, &mut self.anonymity_sets);
        let ghost before = items@;
        let ghost old_sets = self.user_sets();
        match find_key(&items, geohash) {
            Some(i) => {
                let mut set = items.remove(i);
                let ghost s0 = set;
                proof {
                    lemma_map_index(before, i as int);
                }
                if !contains_text(&set.users, node_id) {
                    let user = String::from_str(node_id);
                    proof {
                        lemma_push_text(set.users@, user);
                    }
                    set.users.push(user);
                } else {
                    assert(text_seq(set.users@).to_set().insert(node_id@) =~= text_seq(set.users@).to_set());
                }
                set.last_update = now;
                let ghost s1 = set;
                items.insert(i, set);
                proof {
                    assert(items@ =~= before.update(i as int, s1));
                    lemma_map_update(before, i as int, s1);
                    lemma_sets_view_insert(before, items@, geohash@, s1, text_seq(s0.users@).to_set().insert(node_id@));
                    assert forall|j: int| 0 <= j < items@.len() implies texts_distinct((#[trigger] items@[j]).users@) by {
                        if j != i {
                            assert(items@[j] == before[j]);
                        }
                    }
                }
            },
            None => {
                let user = String::from_str(node_id);
                let set = AnonymitySet { geohash: String::from_str(geohash), users: vec![user], last_update: now };
                proof {
                    assert(set.users@ =~= seq![user]);
                    assert(text_seq(set.users@) =~= seq![node_id@]);
                    assert(text_seq(set.users@).to_set() =~= Set::<Seq<char>>::empty().insert(node_id@)) by {
                        assert forall|x: Seq<char>| text_seq(set.users@).contains(x) <==> x == node_id@ by {
                            if x == node_id@ {
                                assert(text_seq(set.users@)[0] == x);
                            }
                        }
                    }
                }
                let ghost x = set;
                insert_keyed(&mut items, set);
                proof {
                    lemma_sets_view_insert(before, items@, geohash@, x, Set::<Seq<char>>::empty().insert(node_id@));
                }
            },
        }
        self.anonymity_sets = items;
    }
}

/// Adding a text that is not yet present keeps texts distinct and adds it to the set.
proof fn lemma_push_text(v: Seq<String>, t: String)
    requires
        texts_distinct(v),
        !text_seq(v).to_set().contains(t@),
    ensures
        texts_distinct(v.push(t)),
        text_seq(v.push(t)).to_set() == text_seq(v).to_set().insert(t@),
{
    let w = v.push(t);
    assert forall|i: int, j: int| 0 <= i < w.len() && 0 <= j < w.len() && i != j implies #[trigger] w[i]@ != #[trigger] w[j]@ by {
        if i == v.len() as int {
            assert(text_seq(v)[j] == w[j]@);
        } else if j == v.len() as int {
            assert(text_seq(v)[i] == w[i]@);
        }
    }
    let s = text_seq(v);
    assert(text_seq(v.push(t)) =~= s.push(t@));
    assert(s.push(t@).to_set() =~= s.to_set().insert(t@)) by {
        assert forall|k: Seq<char>| s.push(t@).contains(k) <==> s.contains(k) || k == t@ by {
            if s.push(t@).contains(k) && k != t@ {
                let i = choose|i: int| 0 <= i < s.len() + 1 && s.push(t@)[i] == k;
                assert(s[i] == k);
            }
            if s.contains(k) {
                let i = choose|i: int| 0 <= i < s.len() && s[i] == k;
                assert(s.push(t@)[i] == k);
            }
            if k == t@ {
                assert(s.push(t@)[s.len() as int] == k);
            }
        }
    }
}

/// Distinct texts make a set as large as the sequence.
proof fn lemma_distinct_texts_len(v: Seq<String>)
    requires
        texts_distinct(v),
    ensures
        text_seq(v).to_set().len() == v.len(),
{
    let s = text_seq(v);
    assert(s.no_duplicates()) by {
        assert forall|i: int, j: int| 0 <= i < s.len() && 0 <= j < s.len() && i != j implies s[i] != s[j] by {
            assert(v[i]@ != v[j]@);
        }
    }
    s.unique_seq_to_set();
}

} // verus!
