//! Geographic governance and moderation.
//!
//! Communities, policies and moderation actions are kept by a
//! `GovernanceManager`. `R` is the type of a geographic region and `V` the
//! type of a visibility factor; the manager carries both without looking
//! inside them. Whether a content item lies inside a region is decided by the
//! caller and handed in as `PolicyRegionFacts`.

use vstd::prelude::*;

use crate::clock::{now_millis, spec_duration_from_secs};
use crate::content::{Content, ContentId, ContentType};
use crate::geo::GeographicError;
use crate::ident::{fresh_uuid, is_uuid_string};
use crate::keyed::{
    Keyed, find_key, insert_keyed, keyed_insert, keyed_map, keys_unique, lemma_map_index,
    lemma_map_len, lemma_map_update,
};
use crate::network::NodeId;
use crate::text::{chars_of, contains_chars, is_substring, spec_decode_lossy, utf8_lossy};

verus! {

/// The identifiers of a sequence of node ids, in order.
pub open spec fn node_ids(v: Seq<NodeId>) -> Seq<Seq<char>> {
    v.map_values(|n: NodeId| n.0@)
}

/// The identifiers held by a sequence of node ids.
pub open spec fn id_set(v: Seq<NodeId>) -> Set<Seq<char>> {
    node_ids(v).to_set()
}

/// No node id occurs twice.
pub open spec fn ids_distinct(v: Seq<NodeId>) -> bool {
    forall|i: int, j: int|
        0 <= i < v.len() && 0 <= j < v.len() && i != j ==> #[trigger] v[i].0@ != #[trigger] v[j].0@
}

/// Whether `n` is among the ids of `v`.
fn contains_node(v: &Vec<NodeId>, n: &NodeId) -> (b: bool)
    ensures
        b == id_set(v@).contains(n.0@),
{
    let mut i: usize = 0;
    while i < v.len()
        invariant
            i <= v@.len(),
            forall|j: int| 0 <= j < i ==> (#[trigger] v@[j]).0@ != n.0@,
        decreases v@.len() - i,
    {
        if v[i].0 == n.0 {
            assert(node_ids(v@)[i as int] == n.0@);
            return true;
        }
        i = i + 1;
    }
    assert(!node_ids(v@).contains(n.0@)) by {
        if node_ids(v@).contains(n.0@) {
            let j = choose|j: int| 0 <= j < v@.len() && #[trigger] node_ids(v@)[j] == n.0@;
            assert(v@[j].0@ == n.0@);
        }
    }
    false
}

/// Adding an id that is not yet present keeps ids distinct and adds it to the set.
proof fn lemma_push_id(v: Seq<NodeId>, n: NodeId)
    requires
        ids_distinct(v),
        !id_set(v).contains(n.0@),
    ensures
        ids_distinct(v.push(n)),
        id_set(v.push(n)) == id_set(v).insert(n.0@),
{
    let w = v.push(n);
    assert forall|i: int, j: int|
        0 <= i < w.len() && 0 <= j < w.len() && i != j implies #[trigger] w[i].0@ != #[trigger] w[j].0@ by {
        if i == v.len() as int {
            assert(node_ids(v)[j] == w[j].0@);
        } else if j == v.len() as int {
            assert(node_ids(v)[i] == w[i].0@);
        }
    }
    assert(node_ids(v.push(n)) =~= node_ids(v).push(n.0@));
    assert(id_set(v.push(n)) =~= id_set(v).insert(n.0@)) by {
        let s = node_ids(v);
        assert forall|k: Seq<char>| s.push(n.0@).contains(k) <==> s.contains(k) || k == n.0@ by {
            if s.push(n.0@).contains(k) && k != n.0@ {
                let i = choose|i: int| 0 <= i < s.len() + 1 && s.push(n.0@)[i] == k;
                assert(s[i] == k);
            }
            if s.contains(k) {
                let i = choose|i: int| 0 <= i < s.len() && s[i] == k;
                assert(s.push(n.0@)[i] == k);
            }
            if k == n.0@ {
                assert(s.push(n.0@)[s.len() as int] == k);
            }
        }
    }
}

/// A one-element sequence of ids.
proof fn lemma_single_id(n: NodeId)
    ensures
        ids_distinct(seq![n]),
        id_set(seq![n]) == set![n.0@],
{
    let s = node_ids(seq![n]);
    assert(s =~= seq![n.0@]);
    assert(id_set(seq![n]) =~= set![n.0@]) by {
        assert forall|k: Seq<char>| s.contains(k) <==> k == n.0@ by {
            if k == n.0@ {
                assert(s[0] == k);
            }
        }
    }
}

/// Geographic community.
#[derive(Debug)]
pub struct GeographicCommunity<R> {
    /// Community ID
    pub id: String,
    /// Community geographic region
    pub region: R,
    /// Community members
    pub members: Vec<NodeId>,
    /// Community moderators
    pub moderators: Vec<NodeId>,
    /// Community policies (policy IDs)
    pub policies: Vec<String>,
    /// Last activity, in Unix milliseconds
    pub last_activity: i64,
}

impl<R> Keyed for GeographicCommunity<R> {
    open spec fn key(&self) -> Seq<char> {
        self.id@
    }

    fn key_text(&self) -> (k: &str) {
        self.id.as_str()
    }
}

/// Policy types.
#[derive(Debug, Clone, Copy, PartialEq, Eq, Structural)]
pub enum PolicyType {
    /// Content moderation policy
    ContentModeration,
    /// Community standards policy
    CommunityStandards,
    /// Emergency response policy
    EmergencyResponse,
    /// Resource allocation policy
    ResourceAllocation,
    /// Privacy policy
    Privacy,
}

/// Policy status.
#[derive(Debug, Clone, Copy, PartialEq, Eq, Structural)]
pub enum PolicyStatus {
    /// Policy is active
    Active,
    /// Policy is pending approval
    Pending,
    /// Policy is rejected
    Rejected,
    /// Policy is expired
    Expired,
}

/// Rule conditions.
#[derive(Debug)]
pub enum RuleCondition<R> {
    /// Content contains specific keywords
    ContainsKeywords(Vec<String>),
    /// Content is from specific author
    FromAuthor(NodeId),
    /// Content is in specific geographic region
    InGeographicRegion(R),
    /// Content has specific type
    HasContentType(ContentType),
    /// Content violates community standards
    ViolatesCommunityStandards,
    /// Emergency condition
    EmergencyCondition,
}

/// Rule actions.
#[derive(Debug, Clone, Copy)]
pub enum RuleAction<V> {
    /// Allow content
    Allow,
    /// Block content
    Block,
    /// Flag content for review
    FlagForReview,
    /// Reduce content visibility by a visibility factor
    ReduceVisibility(V),
    /// Require additional verification
    RequireVerification,
    /// Emergency broadcast
    EmergencyBroadcast,
}

/// Policy rule.
#[derive(Debug)]
pub struct PolicyRule<R, V> {
    /// Rule ID
    pub id: String,
    /// Rule condition
    pub condition: RuleCondition<R>,
    /// Rule action
    pub action: RuleAction<V>,
    /// Rule priority
    pub priority: u8,
}

/// Governance policy.
#[derive(Debug)]
pub struct GovernancePolicy<R, V> {
    /// Policy ID
    pub id: String,
    /// Policy name
    pub name: String,
    /// Policy description
    pub description: String,
    /// Policy type
    pub policy_type: PolicyType,
    /// Geographic scope
    pub geographic_scope: R,
    /// Policy rules
    pub rules: Vec<PolicyRule<R, V>>,
    /// Policy creator
    pub creator: NodeId,
    /// Policy creation time, in Unix milliseconds
    pub created_at: i64,
    /// Policy status
    pub status: PolicyStatus,
}

impl<R, V> Keyed for GovernancePolicy<R, V> {
    open spec fn key(&self) -> Seq<char> {
        self.id@
    }

    fn key_text(&self) -> (k: &str) {
        self.id.as_str()
    }
}

/// Moderation action types.
#[derive(Debug, Clone, Copy, PartialEq, Eq, Structural)]
pub enum ModerationActionType {
    /// Approve content
    Approve,
    /// Reject content
    Reject,
    /// Flag content
    Flag,
    /// Remove content
    Remove,
    /// Restrict content
    Restrict,
    /// Warn user
    Warn,
}

/// Moderation status.
#[derive(Debug, Clone, Copy, PartialEq, Eq, Structural)]
pub enum ModerationStatus {
    /// Action is pending
    Pending,
    /// Action is approved
    Approved,
    /// Action is rejected
    Rejected,
    /// Action is completed
    Completed,
}

/// Moderation action.
#[derive(Debug)]
pub struct ModerationAction {
    /// Action ID
    pub id: String,
    /// Action type
    pub action_type: ModerationActionType,
    /// Target content
    pub target_content: ContentId,
    /// Moderator
    pub moderator: NodeId,
    /// Geographic community
    pub community: String,
    /// Action reason
    pub reason: String,
    /// Action timestamp, in Unix milliseconds
    pub timestamp: i64,
    /// Action status
    pub status: ModerationStatus,
}

/// Governance configuration.
#[derive(Debug, Clone, Copy)]
pub struct GovernanceConfig {
    /// Minimum community size for governance
    pub min_community_size: usize,
    /// Moderation quorum size
    pub moderation_quorum: usize,
    /// Policy voting period
    pub policy_voting_period: core::time::Duration,
    /// Moderation timeout
    pub moderation_timeout: core::time::Duration,
    /// Enable emergency protocols
    pub enable_emergency_protocols: bool,
    /// Geographic sovereignty enabled
    pub enable_geographic_sovereignty: bool,
}

impl Default for GovernanceConfig {
    fn default() -> (c: Self)
        ensures
            c.min_community_size == 10,
            c.moderation_quorum == 3,
            c.policy_voting_period == spec_duration_from_secs(86400),
            c.moderation_timeout == spec_duration_from_secs(3600),
            c.enable_emergency_protocols,
            c.enable_geographic_sovereignty,
    {
        GovernanceConfig {
            min_community_size: 10,
            moderation_quorum: 3,
            policy_voting_period: core::time::Duration::from_secs(86400),
            moderation_timeout: core::time::Duration::from_secs(3600),
            enable_emergency_protocols: true,
            enable_geographic_sovereignty: true,
        }
    }
}

/// Policy vote.
#[derive(Debug, Clone, Copy, PartialEq, Eq, Structural)]
pub enum PolicyVote {
    /// Approve the policy
    Approve,
    /// Reject the policy
    Reject,
}

/// Policy action.
#[derive(Debug)]
pub struct PolicyAction<V> {
    /// Policy ID
    pub policy_id: String,
    /// Rule ID
    pub rule_id: String,
    /// Action to take
    pub action: RuleAction<V>,
    /// Priority
    pub priority: u8,
}

/// Governance statistics.
#[derive(Debug, Clone, Copy, PartialEq, Eq, Structural)]
pub struct GovernanceStats {
    /// Total number of communities
    pub total_communities: usize,
    /// Total number of policies
    pub total_policies: usize,
    /// Number of active policies
    pub active_policies: usize,
    /// Total moderation actions
    pub total_moderation_actions: usize,
    /// Pending moderation actions
    pub pending_moderation_actions: usize,
}

/// Governance errors.
#[derive(Debug)]
pub enum GovernanceError {
    /// No community has the given ID
    CommunityNotFound(String),
    /// No policy has the given ID
    PolicyNotFound(String),
    /// The voter is outside the policy's geographic scope
    VoterNotInScope,
    /// The moderator may not moderate the community
    InsufficientPermissions,
    /// The policy is invalid
    InvalidPolicy(String),
    /// Moderation failed
    ModerationFailed(String),
    /// A geographic operation failed
    GeographicError(GeographicError),
}

/// Where a content item lies relative to the regions of the stored policies:
/// `policy_in_scope[i]` tells whether it lies in the geographic scope of the
/// `i`-th policy, and `rule_in_region[i][j]` whether it lies in the region
/// named by the `j`-th rule of that policy (read only for region rules).
pub struct PolicyRegionFacts {
    pub policy_in_scope: Vec<bool>,
    pub rule_in_region: Vec<Vec<bool>>,
}

/// The facts cover every policy and every rule.
pub open spec fn facts_fit<R, V>(facts: PolicyRegionFacts, ps: Seq<GovernancePolicy<R, V>>) -> bool {
    &&& facts.policy_in_scope@.len() == ps.len()
    &&& facts.rule_in_region@.len() == ps.len()
    &&& forall|i: int|
        0 <= i < ps.len() ==> (#[trigger] facts.rule_in_region@[i])@.len() == ps[i].rules@.len()
}

/// Some keyword occurs in the text.
pub open spec fn some_keyword_occurs(keywords: Seq<String>, text: Seq<char>) -> bool {
    exists|i: int| 0 <= i < keywords.len() && is_substring(#[trigger] keywords[i]@, text)
}

/// Whether a rule condition holds of a content item; `in_region` tells whether
/// the item lies in the region of a region condition.
pub open spec fn condition_holds<R, L>(cond: RuleCondition<R>, content: Content<L>, in_region: bool) -> bool {
    match cond {
        RuleCondition::ContainsKeywords(keywords) => some_keyword_occurs(keywords@, spec_decode_lossy(content.data@)),
        RuleCondition::FromAuthor(author) => content.author@ == author.0@,
        RuleCondition::InGeographicRegion(_) => in_region,
        RuleCondition::HasContentType(t) => content.content_type == t,
        RuleCondition::ViolatesCommunityStandards => false,
        RuleCondition::EmergencyCondition => false,
    }
}

/// The action that a matching rule of a policy yields.
pub open spec fn rule_action<R, V>(p: GovernancePolicy<R, V>, rule: PolicyRule<R, V>) -> PolicyAction<V> {
    PolicyAction { policy_id: p.id, rule_id: rule.id, action: rule.action, priority: rule.priority }
}

/// The actions of the first `n` rules of `p` whose conditions hold, in rule order.
pub open spec fn matched_rules<R, V, L>(
    p: GovernancePolicy<R, V>,
    content: Content<L>,
    hits: Seq<bool>,
    n: int,
) -> Seq<PolicyAction<V>>
    decreases n,
{
    if n <= 0 {
        Seq::empty()
    } else {
        let before = matched_rules(p, content, hits, n - 1);
        if condition_holds(p.rules@[n - 1].condition, content, hits[n - 1]) {
            before.push(rule_action(p, p.rules@[n - 1]))
        } else {
            before
        }
    }
}

/// The actions of the active policies among the first `n`, whose scope holds
/// the content, in policy order and then rule order.
pub open spec fn matched_actions<R, V, L>(
    ps: Seq<GovernancePolicy<R, V>>,
    content: Content<L>,
    facts: PolicyRegionFacts,
    n: int,
) -> Seq<PolicyAction<V>>
    decreases n,
{
    if n <= 0 {
        Seq::empty()
    } else {
        let before = matched_actions(ps, content, facts, n - 1);
        let p = ps[n - 1];
        if p.status == PolicyStatus::Active && facts.policy_in_scope@[n - 1] {
            before + matched_rules(p, content, facts.rule_in_region@[n - 1]@, p.rules@.len() as int)
        } else {
            before
        }
    }
}

/// Insert `x` into a sequence ordered by decreasing priority, after every
/// element whose priority is at least that of `x`.
pub open spec fn insert_by_priority<V>(s: Seq<PolicyAction<V>>, x: PolicyAction<V>) -> Seq<PolicyAction<V>>
    decreases s.len(),
{
    if s.len() == 0 {
        seq![x]
    } else if s[0].priority < x.priority {
        seq![x] + s
    } else {
        seq![s[0]] + insert_by_priority(s.drop_first(), x)
    }
}

/// Stable sort by decreasing priority: elements of equal priority keep their order.
pub open spec fn sort_by_priority<V>(s: Seq<PolicyAction<V>>) -> Seq<PolicyAction<V>>
    decreases s.len(),
{
    if s.len() == 0 {
        Seq::empty()
    } else {
        insert_by_priority(sort_by_priority(s.drop_last()), s.last())
    }
}

/// The sequence is ordered by decreasing priority.
pub open spec fn priority_descending<V>(s: Seq<PolicyAction<V>>) -> bool {
    forall|i: int, j: int| 0 <= i < j < s.len() ==> #[trigger] s[i].priority >= #[trigger] s[j].priority
}

proof fn lemma_insert_by_priority<V>(s: Seq<PolicyAction<V>>, x: PolicyAction<V>)
    requires
        priority_descending(s),
    ensures
        priority_descending(insert_by_priority(s, x)),
        insert_by_priority(s, x).to_multiset() == s.to_multiset().insert(x),
        insert_by_priority(s, x).len() == s.len() + 1,
    decreases s.len(),
{
    broadcast use vstd::seq_lib::group_to_multiset_ensures;

    if s.len() == 0 {
        assert(seq![x] == Seq::<PolicyAction<V>>::empty().push(x));
    } else if s[0].priority < x.priority {
        let r = seq![x] + s;
        assert forall|i: int, j: int| 0 <= i < j < r.len() implies #[trigger] r[i].priority >= #[trigger] r[j].priority by {
            if i > 0 {
                assert(r[i] == s[i - 1] && r[j] == s[j - 1]);
            } else {
                assert(r[j] == s[j - 1]);
                assert(s[0].priority >= s[j - 1].priority);
            }
        }
        assert(r.drop_first() =~= s);
        lemma_multiset_cons(x, s);
    } else {
        let t = s.drop_first();
        assert(priority_descending(t)) by {
            assert forall|i: int, j: int| 0 <= i < j < t.len() implies #[trigger] t[i].priority >= #[trigger] t[j].priority by {
                assert(t[i] == s[i + 1] && t[j] == s[j + 1]);
            }
        }
        lemma_insert_by_priority(t, x);
        let u = insert_by_priority(t, x);
        let r = seq![s[0]] + u;
        assert forall|i: int, j: int| 0 <= i < j < r.len() implies #[trigger] r[i].priority >= #[trigger] r[j].priority by {
            if i > 0 {
                assert(r[i] == u[i - 1] && r[j] == u[j - 1]);
            } else {
                assert(r[j] == u[j - 1]);
                assert(u.to_multiset().count(u[j - 1]) > 0);
                if u[j - 1] != x {
                    assert(t.to_multiset().count(u[j - 1]) > 0);
                    let k = choose|k: int| 0 <= k < t.len() && t[k] == u[j - 1];
                    assert(s[k + 1] == t[k]);
                }
            }
        }
        lemma_multiset_cons(s[0], u);
        lemma_multiset_cons(s[0], t);
        assert(seq![s[0]] + t =~= s);
    }
}

/// Putting an element in front of a sequence adds it to the sequence's multiset.
pub proof fn lemma_multiset_cons<A>(x: A, s: Seq<A>)
    ensures
        (seq![x] + s).to_multiset() == s.to_multiset().insert(x),
    decreases s.len(),
{
    broadcast use vstd::seq_lib::group_to_multiset_ensures;

    if s.len() == 0 {
        assert(seq![x] + s =~= Seq::<A>::empty().push(x));
    } else {
        let t = s.drop_last();
        lemma_multiset_cons(x, t);
        assert(seq![x] + s =~= (seq![x] + t).push(s.last()));
        assert(s =~= t.push(s.last()));
    }
}

/// Sorting by priority yields a sequence ordered by decreasing priority that
/// holds the same actions as its input.
pub proof fn lemma_sort_by_priority<V>(s: Seq<PolicyAction<V>>)
    ensures
        priority_descending(sort_by_priority(s)),
        sort_by_priority(s).to_multiset() == s.to_multiset(),
        sort_by_priority(s).len() == s.len(),
    decreases s.len(),
{
    broadcast use vstd::seq_lib::group_to_multiset_ensures;

    if s.len() == 0 {
    } else {
        lemma_sort_by_priority(s.drop_last());
        lemma_insert_by_priority(sort_by_priority(s.drop_last()), s.last());
        assert(s =~= s.drop_last().push(s.last()));
    }
}

/// Every action that applying policies yields comes from an active policy
/// whose scope holds the content, and names that policy.
pub proof fn law_actions_come_from_active_policies<R, V, L>(
    ps: Seq<GovernancePolicy<R, V>>,
    content: Content<L>,
    facts: PolicyRegionFacts,
    n: int,
)
    requires
        0 <= n <= ps.len(),
        facts_fit(facts, ps),
    ensures
        forall|a: int|
            0 <= a < matched_actions(ps, content, facts, n).len() ==> exists|j: int|
                0 <= j < n && ps[j].status == PolicyStatus::Active && facts.policy_in_scope@[j]
                    && ps[j].id == (#[trigger] matched_actions(ps, content, facts, n)[a]).policy_id,
    decreases n,
{
    if n > 0 {
        law_actions_come_from_active_policies(ps, content, facts, n - 1);
        let before = matched_actions(ps, content, facts, n - 1);
        let p = ps[n - 1];
        if p.status == PolicyStatus::Active && facts.policy_in_scope@[n - 1] {
            let rules = matched_rules(p, content, facts.rule_in_region@[n - 1]@, p.rules@.len() as int);
            lemma_matched_rules_name_policy(p, content, facts.rule_in_region@[n - 1]@, p.rules@.len() as int);
            let all = matched_actions(ps, content, facts, n);
            assert(all == before + rules);
            assert forall|a: int| 0 <= a < all.len() implies exists|j: int|
                0 <= j < n && ps[j].status == PolicyStatus::Active && facts.policy_in_scope@[j]
                    && ps[j].id == (#[trigger] all[a]).policy_id by {
                if a < before.len() {
                    assert(all[a] == before[a]);
                } else {
                    assert(all[a] == rules[a - before.len()]);
                }
            }
        }
    }
}

proof fn lemma_matched_rules_name_policy<R, V, L>(p: GovernancePolicy<R, V>, content: Content<L>, hits: Seq<bool>, n: int)
    ensures
        forall|a: int| 0 <= a < matched_rules(p, content, hits, n).len() ==> (#[trigger] matched_rules(p, content, hits, n)[a]).policy_id == p.id,
    decreases n,
{
    if n > 0 {
        lemma_matched_rules_name_policy(p, content, hits, n - 1);
    }
}

/// An author condition holds of a content item exactly when the item's author
/// is that author, whatever the region facts say.
pub proof fn law_author_condition<R, L>(author: NodeId, content: Content<L>, in_region: bool)
    ensures
        condition_holds(RuleCondition::<R>::FromAuthor(author), content, in_region) <==> content.author@ == author.0@,
{
}

/// The rule conditions of a policy all name authors other than the author of
/// the content.
pub open spec fn only_other_authors<R, V, L>(p: GovernancePolicy<R, V>, content: Content<L>) -> bool {
    forall|j: int| 0 <= j < p.rules@.len() ==> {
        &&& (#[trigger] p.rules@[j]).condition matches RuleCondition::FromAuthor(a)
        &&& a.0@ != content.author@
    }
}

proof fn lemma_other_authors_match_no_rule<R, V, L>(p: GovernancePolicy<R, V>, content: Content<L>, hits: Seq<bool>, n: int)
    requires
        n <= p.rules@.len(),
        only_other_authors(p, content),
    ensures
        matched_rules(p, content, hits, n) == Seq::<PolicyAction<V>>::empty(),
    decreases n,
{
    if n > 0 {
        lemma_other_authors_match_no_rule(p, content, hits, n - 1);
        let rule = p.rules@[n - 1];
        assert(rule.condition matches RuleCondition::FromAuthor(a) && a.0@ != content.author@);
    }
}

/// Rules for other authors yield no action: when every rule of every policy
/// is an author condition naming someone other than the content's author,
/// applying the policies to that content gives no action at all, whatever
/// the policies' status and scope.
pub proof fn law_other_authors_yield_no_action<R, V, L>(
    ps: Seq<GovernancePolicy<R, V>>,
    content: Content<L>,
    facts: PolicyRegionFacts,
    n: int,
)
    requires
        0 <= n <= ps.len(),
        facts_fit(facts, ps),
        forall|i: int| 0 <= i < ps.len() ==> only_other_authors(#[trigger] ps[i], content),
    ensures
        sort_by_priority(matched_actions(ps, content, facts, n)) == Seq::<PolicyAction<V>>::empty(),
    decreases n,
{
    if n > 0 {
        law_other_authors_yield_no_action(ps, content, facts, n - 1);
        let p = ps[n - 1];
        lemma_other_authors_match_no_rule(p, content, facts.rule_in_region@[n - 1]@, p.rules@.len() as int);
        let before = matched_actions(ps, content, facts, n - 1);
        lemma_sort_by_priority(before);
        assert(before.len() == 0);
        assert(before + Seq::<PolicyAction<V>>::empty() =~= before);
        assert(matched_actions(ps, content, facts, n).len() == 0);
    }
}

/// Geographic governance manager.
pub struct GovernanceManager<R, V> {
    communities: Vec<GeographicCommunity<R>>,
    policies: Vec<GovernancePolicy<R, V>>,
    moderation_actions: Vec<ModerationAction>,
    config: GovernanceConfig,
}

impl<R, V> GovernanceManager<R, V> {
    #[verifier::type_invariant]
    spec fn well_formed(self) -> bool {
        &&& keys_unique(self.communities@)
        &&& keys_unique(self.policies@)
        &&& forall|i: int|
            0 <= i < self.communities@.len() ==> ids_distinct((#[trigger] self.communities@[i]).members@)
                && ids_distinct(self.communities@[i].moderators@)
    }

    /// The communities, by ID.
    pub closed spec fn communities(&self) -> Map<Seq<char>, GeographicCommunity<R>> {
        keyed_map(self.communities@)
    }

    /// The policies, in the order they were first created.
    pub closed spec fn policies(&self) -> Seq<GovernancePolicy<R, V>> {
        self.policies@
    }

    /// The moderation actions, oldest first.
    pub closed spec fn actions(&self) -> Seq<ModerationAction> {
        self.moderation_actions@
    }

    /// The configuration.
    pub closed spec fn spec_config(&self) -> GovernanceConfig {
        self.config
    }

}

impl<R, V: Copy> GovernanceManager<R, V> {
    /// Create a new governance manager.
    pub fn new(config: GovernanceConfig) -> (m: Self)
        ensures
            m.communities() == Map::<Seq<char>, GeographicCommunity<R>>::empty(),
            m.communities().dom().finite(),
            m.policies() == Seq::<GovernancePolicy<R, V>>::empty(),
            m.actions() == Seq::<ModerationAction>::empty(),
            m.spec_config() == config,
    {
        let m = GovernanceManager {
            communities: Vec::new(),
            policies: Vec::new(),
            moderation_actions: Vec::new(),
            config,
        };
        assert(m.communities() =~= Map::<Seq<char>, GeographicCommunity<R>>::empty());
        m
    }

    /// The configuration.
    pub fn config(&self) -> (c: &GovernanceConfig)
        ensures
            *c == self.spec_config(),
    {
        &self.config
    }

    /// The policies, in the order they were first created.
    pub fn policy_list(&self) -> (ps: &Vec<GovernancePolicy<R, V>>)
        ensures
            ps@ == self.policies(),
    {
        &self.policies
    }

    /// Create a new geographic community under the given ID, with the creator as
    /// its only member and moderator. A community stored under the same ID is
    /// replaced.
    pub fn create_community(&mut self, community_id: String, region: R, creator: NodeId) -> (r: Result<String, GovernanceError>)
        ensures
            r matches Ok(id) && id@ == community_id@,
            final(self).communities() == old(self).communities().insert(
                community_id@,
                final(self).communities()[community_id@],
            ),
            final(self).communities()[community_id@].id@ == community_id@,
            final(self).communities()[community_id@].region == region,
            id_set(final(self).communities()[community_id@].members@) == set![creator.0@],
            id_set(final(self).communities()[community_id@].moderators@) == set![creator.0@],
            final(self).communities()[community_id@].policies@.len() == 0,
            old(self).communities().dom().finite(),
            final(self).communities().dom().finite(),
            final(self).communities().len() == old(self).communities().len() + if old(self).communities().contains_key(
                community_id@,
            ) {
                0int
            } else {
                1int
            },
            final(self).policies() == old(self).policies(),
            final(self).actions() == old(self).actions(),
            final(self).spec_config() == old(self).spec_config(),
    {
        proof {
            use_type_invariant(&*self);
            lemma_single_id(creator);
            lemma_map_len(self.communities@);
            let m = keyed_map(self.communities@);
            if m.contains_key(community_id@) {
                assert(m.insert(community_id@, m[community_id@]).dom() =~= m.dom());
            }
        }
        let moderator = creator.copy();
        let community = GeographicCommunity {
            id: community_id.clone(),
            region,
            members: vec![creator],
            moderators: vec![moderator],
            policies: Vec::new(),
            last_activity: now_millis(),
        };
        assert(community.members@ =~= seq![creator]);
        assert(id_set(community.moderators@) =~= id_set(seq![creator])) by {
            assert(node_ids(community.moderators@) =~= node_ids(seq![creator]));
        }
        assert(ids_distinct(community.moderators@));
        let ghost c = community;
        let mut items: Vec<GeographicCommunity<R>> = Vec::new();
        std::mem::swap(&mut items, &mut self.communities);
        let ghost before = items@;
        insert_keyed(&mut items, community);
        proof {
            lemma_keyed_insert_members(before, c);
            assert(keyed_map(items@).contains_key(c.key()));
        }
        self.communities = items;
        Ok(community_id)
    }

    /// Join a geographic community.
    pub fn join_community(&mut self, community_id: &str, node_id: NodeId) -> (r: Result<(), GovernanceError>)
        ensures
            r is Ok <==> old(self).communities().contains_key(community_id@),
            r matches Err(e) ==> e matches GovernanceError::CommunityNotFound(id) && id@ == community_id@,
            r is Err ==> final(self).communities() == old(self).communities(),
            r is Ok ==> {
                let c0 = old(self).communities()[community_id@];
                let c1 = final(self).communities()[community_id@];
                &&& final(self).communities() == old(self).communities().insert(community_id@, c1)
                &&& c1.id == c0.id
                &&& c1.region == c0.region
                &&& id_set(c1.members@) == id_set(c0.members@).insert(node_id.0@)
                &&& c1.moderators == c0.moderators
                &&& c1.policies == c0.policies
            },
            final(self).policies() == old(self).policies(),
            final(self).actions() == old(self).actions(),
            final(self).spec_config() == old(self).spec_config(),
    {
        proof {
            use_type_invariant(&*self);
        }
        let found = find_key(&self.communities, community_id);
        match found {
            None => {
                let id = String::from_str(community_id);
                Err(GovernanceError::CommunityNotFound(id))
            },
            Some(i) => {
                let mut items: Vec<GeographicCommunity<R>> = Vec::new();
                std::mem::swap(&mut items, &mut self.communities);
                let ghost before = items@;
                let mut c = items.remove(i);
                let ghost c0 = c;
                if !contains_node(&c.members, &node_id) {
                    proof {
                        lemma_push_id(c.members@, node_id);
                    }
                    c.members.push(node_id);
                } else {
                    assert(id_set(c.members@).insert(node_id.0@) =~= id_set(c.members@));
                }
                c.last_activity = now_millis();
                let ghost c1 = c;
                items.insert(i, c);
                proof {
                    assert(items@ =~= before.update(i as int, c1));
                    lemma_map_update(before, i as int, c1);
                    lemma_map_index(before, i as int);
                    lemma_map_index(items@, i as int);
                    assert forall|j: int| 0 <= j < items@.len() implies ids_distinct((#[trigger] items@[j]).members@)
                        && ids_distinct(items@[j].moderators@) by {
                        if j != i {
                            assert(items@[j] == before[j]);
                        }
                    }
                }
                self.communities = items;
                Ok(())
            },
        }
    }

    /// Create a new governance policy, pending approval, under a fresh ID.
    pub fn create_policy(
        &mut self,
        name: String,
        description: String,
        policy_type: PolicyType,
        geographic_scope: R,
        rules: Vec<PolicyRule<R, V>>,
        creator: NodeId,
    ) -> (r: Result<String, GovernanceError>)
        ensures
            r matches Ok(id) && is_uuid_string(id@) && ({
                let p = final(self).policies()[final(self).policies().len() - 1];
                &&& final(self).policies().len() > 0
                &&& final(self).policies() == keyed_insert(old(self).policies(), p)
                &&& p.id@ == id@
                &&& p.name == name
                &&& p.description == description
                &&& p.policy_type == policy_type
                &&& p.geographic_scope == geographic_scope
                &&& p.rules == rules
                &&& p.creator == creator
                &&& p.status == PolicyStatus::Pending
            } || exists|j: int|
                0 <= j < old(self).policies().len() && old(self).policies()[j].id@ == id@
                    && final(self).policies() == old(self).policies().update(
                    j,
                    final(self).policies()[j],
                ) && {
                    let p = final(self).policies()[j];
                    &&& p.id@ == id@
                    &&& p.name == name
                    &&& p.description == description
                    &&& p.policy_type == policy_type
                    &&& p.geographic_scope == geographic_scope
                    &&& p.rules == rules
                    &&& p.creator == creator
                    &&& p.status == PolicyStatus::Pending
                }),
            final(self).communities() == old(self).communities(),
            final(self).actions() == old(self).actions(),
            final(self).spec_config() == old(self).spec_config(),
    {
        proof {
            use_type_invariant(&*self);
        }
        let policy_id = fresh_uuid();
        let policy = GovernancePolicy {
            id: policy_id.clone(),
            name,
            description,
            policy_type,
            geographic_scope,
            rules,
            creator,
            created_at: now_millis(),
            status: PolicyStatus::Pending,
        };
        let ghost p = policy;
        let mut items: Vec<GovernancePolicy<R, V>> = Vec::new();
        std::mem::swap(&mut items, &mut self.policies);
        let ghost before = items@;
        insert_keyed(&mut items, policy);
        proof {
            if exists|i: int| 0 <= i < before.len() && before[i].key() == p.key() {
                let j = choose|i: int| 0 <= i < before.len() && before[i].key() == p.key();
                assert(items@[j] == p);
            } else {
                assert(items@[items@.len() - 1] == p);
            }
        }
        self.policies = items;
        Ok(policy_id)
    }

    /// Vote on a policy: approval activates it, rejection rejects it.
    pub fn vote_on_policy(&mut self, policy_id: &str, voter: NodeId, vote: PolicyVote) -> (r: Result<(), GovernanceError>)
        ensures
            r is Ok <==> exists|j: int| 0 <= j < old(self).policies().len() && old(self).policies()[j].id@ == policy_id@,
            r matches Err(e) ==> e matches GovernanceError::PolicyNotFound(id) && id@ == policy_id@,
            r is Err ==> final(self).policies() == old(self).policies(),
            r is Ok ==> exists|j: int|
                0 <= j < old(self).policies().len() && old(self).policies()[j].id@ == policy_id@ && {
                    let p0 = old(self).policies()[j];
                    let p1 = final(self).policies()[j];
                    &&& final(self).policies() == old(self).policies().update(j, p1)
                    &&& p1.status == (if vote == PolicyVote::Approve { PolicyStatus::Active } else { PolicyStatus::Rejected })
                    &&& p1.id == p0.id
                    &&& p1.name == p0.name
                    &&& p1.description == p0.description
                    &&& p1.policy_type == p0.policy_type
                    &&& p1.geographic_scope == p0.geographic_scope
                    &&& p1.rules == p0.rules
                    &&& p1.creator == p0.creator
                    &&& p1.created_at == p0.created_at
                },
            final(self).communities() == old(self).communities(),
            final(self).actions() == old(self).actions(),
            final(self).spec_config() == old(self).spec_config(),
    {
        proof {
            use_type_invariant(&*self);
        }
        let found = find_key(&self.policies, policy_id);
        match found {
            None => {
                let id = String::from_str(policy_id);
                Err(GovernanceError::PolicyNotFound(id))
            },
            Some(j) => {
                if !self.is_node_in_geographic_scope(&voter, j) {
                    return Err(GovernanceError::VoterNotInScope);
                }
                let mut items: Vec<GovernancePolicy<R, V>> = Vec::new();
                std::mem::swap(&mut items, &mut self.policies);
                let ghost before = items@;
                let mut p = items.remove(j);
                let ghost p0 = p;
                match vote {
                    PolicyVote::Approve => {
                        p.status = PolicyStatus::Active;
                    },
                    PolicyVote::Reject => {
                        p.status = PolicyStatus::Rejected;
                    },
                }
                let ghost p1 = p;
                items.insert(j, p);
                proof {
                    assert(items@ =~= before.update(j as int, p1));
                    assert forall|a: int, b: int|
                        0 <= a < items@.len() && 0 <= b < items@.len() && a != b implies #[trigger] items@[a].key()
                            != #[trigger] items@[b].key() by {
                        assert(items@[a].key() == before[a].key());
                        assert(items@[b].key() == before[b].key());
                    }
                }
                self.policies = items;
                Ok(())
            },
        }
    }

    /// Whether a voter lies in the geographic scope of the `j`-th policy. Every
    /// node counts as in scope.
    fn is_node_in_geographic_scope(&self, voter: &NodeId, j: usize) -> (b: bool)
        ensures
            b,
    {
        true
    }

    /// The community that moderates a content item: the default community.
    fn find_community_for_content(&self, content_id: &ContentId) -> (c: String)
        ensures
            c@ == "default_community"@,
    {
        String::from_str("default_community")
    }

    /// Whether `moderator` moderates the community stored under `community_id`.
    fn has_moderation_permission(&self, community_id: &str, moderator: &NodeId) -> (b: bool)
        ensures
            b == (self.communities().contains_key(community_id@) && id_set(
                self.communities()[community_id@].moderators@,
            ).contains(moderator.0@)),
    {
        proof {
            use_type_invariant(self);
        }
        match find_key(&self.communities, community_id) {
            Some(i) => {
                proof {
                    lemma_map_index(self.communities@, i as int);
                }
                contains_node(&self.communities[i].moderators, moderator)
            },
            None => false,
        }
    }

    /// Moderate content: a moderator of the default community records a pending
    /// action against the content under a fresh ID.
    pub fn moderate_content(
        &mut self,
        content_id: ContentId,
        moderator: NodeId,
        action_type: ModerationActionType,
        reason: String,
    ) -> (r: Result<String, GovernanceError>)
        ensures
            r is Ok <==> (old(self).communities().contains_key("default_community"@) && id_set(
                old(self).communities()["default_community"@].moderators@,
            ).contains(moderator.0@)),
            r matches Err(e) ==> e is InsufficientPermissions,
            r is Err ==> final(self).actions() == old(self).actions(),
            r matches Ok(id) ==> {
                let a = final(self).actions()[old(self).actions().len() as int];
                &&& is_uuid_string(id@)
                &&& final(self).actions() == old(self).actions().push(a)
                &&& a.id@ == id@
                &&& a.action_type == action_type
                &&& a.target_content == content_id
                &&& a.moderator == moderator
                &&& a.community@ == "default_community"@
                &&& a.reason == reason
                &&& a.status == ModerationStatus::Pending
            },
            final(self).communities() == old(self).communities(),
            final(self).policies() == old(self).policies(),
            final(self).spec_config() == old(self).spec_config(),
    {
        proof {
            use_type_invariant(&*self);
        }
        let community_id = self.find_community_for_content(&content_id);
        if !self.has_moderation_permission(community_id.as_str(), &moderator) {
            return Err(GovernanceError::InsufficientPermissions);
        }
        let action_id = fresh_uuid();
        let action = ModerationAction {
            id: action_id.clone(),
            action_type,
            target_content: content_id,
            moderator,
            community: community_id,
            reason,
            timestamp: now_millis(),
            status: ModerationStatus::Pending,
        };
        let mut items: Vec<ModerationAction> = Vec::new();
        std::mem::swap(&mut items, &mut self.moderation_actions);
        items.push(action);
        self.moderation_actions = items;
        Ok(action_id)
    }

    /// Evaluate a rule condition against a content item.
    fn evaluate_rule_condition<L>(&self, content: &Content<L>, condition: &RuleCondition<R>, in_region: bool) -> (r: Result<bool, GovernanceError>)
        ensures
            r == Ok::<bool, GovernanceError>(condition_holds(*condition, *content, in_region)),
    {
        match condition {
            RuleCondition::ContainsKeywords(keywords) => {
                let text = utf8_lossy(&content.data);
                let hay = chars_of(text.as_str());
                let mut i: usize = 0;
                while i < keywords.len()
                    invariant
                        *condition == RuleCondition::<R>::ContainsKeywords(*keywords),
                        hay@ == spec_decode_lossy(content.data@),
                        i <= keywords@.len(),
                        forall|j: int| 0 <= j < i ==> !is_substring(#[trigger] keywords@[j]@, hay@),
                    decreases keywords@.len() - i,
                {
                    let needle = chars_of(keywords[i].as_str());
                    if contains_chars(&hay, &needle) {
                        assert(0 <= i < keywords@.len() && is_substring(keywords@[i as int]@, spec_decode_lossy(content.data@)));
                        assert(some_keyword_occurs(keywords@, spec_decode_lossy(content.data@)));
                        return Ok(true);
                    }
                    i = i + 1;
                }
                Ok(false)
            },
            RuleCondition::FromAuthor(author) => Ok(content.author == author.0),
            RuleCondition::InGeographicRegion(_) => Ok(in_region),
            RuleCondition::HasContentType(content_type) => Ok(content.content_type == *content_type),
            RuleCondition::ViolatesCommunityStandards => Ok(false),
            RuleCondition::EmergencyCondition => Ok(false),
        }
    }

    /// Apply governance policies to content: every rule of every active policy
    /// whose scope holds the content yields an action when its condition holds.
    /// The actions come ordered by decreasing priority; actions of equal
    /// priority keep the order of their policies and rules.
    pub fn apply_policies_to_content<L>(&self, content: &Content<L>, facts: &PolicyRegionFacts) -> (r: Result<Vec<PolicyAction<V>>, GovernanceError>)
        requires
            facts_fit(*facts, self.policies()),
        ensures
            r matches Ok(v) && v@ == sort_by_priority(
                matched_actions(self.policies(), *content, *facts, self.policies().len() as int),
            ),
    {
        let ghost ps = self.policies@;
        let mut result: Vec<PolicyAction<V>> = Vec::new();
        let mut i: usize = 0;
        while i < self.policies.len()
            invariant
                ps == self.policies@,
                facts_fit(*facts, ps),
                i <= ps.len(),
                result@ == sort_by_priority(matched_actions(ps, *content, *facts, i as int)),
            decreases ps.len() - i,
        {
            let policy = &self.policies[i];
            if policy.status == PolicyStatus::Active && facts.policy_in_scope[i] {
                let hits = &facts.rule_in_region[i];
                let ghost base = matched_actions(ps, *content, *facts, i as int);
                let mut j: usize = 0;
                while j < policy.rules.len()
                    invariant
                        ps == self.policies@,
                        facts_fit(*facts, ps),
                        i < ps.len(),
                        *policy == ps[i as int],
                        *hits == facts.rule_in_region@[i as int],
                        j <= policy.rules@.len(),
                        result@ == sort_by_priority(base + matched_rules(*policy, *content, hits@, j as int)),
                    decreases policy.rules@.len() - j,
                {
                    let rule = &policy.rules[j];
                    let holds = self.evaluate_rule_condition(content, &rule.condition, hits[j]);
                    match holds {
                        Ok(true) => {
                            let action = PolicyAction {
                                policy_id: policy.id.clone(),
                                rule_id: rule.id.clone(),
                                action: rule.action,
                                priority: rule.priority,
                            };
                            let ghost prev = base + matched_rules(*policy, *content, hits@, j as int);
                            proof {
                                assert(action == rule_action(*policy, *rule));
                                assert(prev.push(action).drop_last() =~= prev);
                                assert(base + matched_rules(*policy, *content, hits@, j + 1) =~= prev.push(action));
                            }
                            insert_sorted(&mut result, action);
                        },
                        Ok(false) => {},
                        Err(e) => {
                            return Err(e);
                        },
                    }
                    j = j + 1;
                }
                proof {
                    assert(matched_actions(ps, *content, *facts, i + 1) == base + matched_rules(
                        *policy,
                        *content,
                        hits@,
                        policy.rules@.len() as int,
                    ));
                }
            }
            i = i + 1;
        }
        Ok(result)
    }

    /// Get governance statistics.
    pub fn get_governance_stats(&self) -> (s: GovernanceStats)
        ensures
            s.total_communities == self.communities().len(),
            s.total_policies == self.policies().len(),
            s.active_policies == self.policies().filter(|p: GovernancePolicy<R, V>| p.status == PolicyStatus::Active).len(),
            s.total_moderation_actions == self.actions().len(),
            s.pending_moderation_actions == self.actions().filter(|a: ModerationAction| a.status == ModerationStatus::Pending).len(),
    {
        proof {
            use_type_invariant(self);
            lemma_map_len(self.communities@);
        }
        let mut active: usize = 0;
        let mut i: usize = 0;
        while i < self.policies.len()
            invariant
                i <= self.policies@.len(),
                active == self.policies@.take(i as int).filter(|p: GovernancePolicy<R, V>| p.status == PolicyStatus::Active).len(),
                active <= i,
            decreases self.policies@.len() - i,
        {
            proof {
                reveal_with_fuel(Seq::filter, 1);
                assert(self.policies@.take(i + 1).drop_last() =~= self.policies@.take(i as int));
            }
            if self.policies[i].status == PolicyStatus::Active {
                active = active + 1;
            }
            i = i + 1;
        }
        assert(self.policies@.take(self.policies@.len() as int) =~= self.policies@);
        let mut pending: usize = 0;
        let mut k: usize = 0;
        while k < self.moderation_actions.len()
            invariant
                k <= self.moderation_actions@.len(),
                pending == self.moderation_actions@.take(k as int).filter(|a: ModerationAction| a.status == ModerationStatus::Pending).len(),
                pending <= k,
            decreases self.moderation_actions@.len() - k,
        {
            proof {
                reveal_with_fuel(Seq::filter, 1);
                assert(self.moderation_actions@.take(k + 1).drop_last() =~= self.moderation_actions@.take(k as int));
            }
            if self.moderation_actions[k].status == ModerationStatus::Pending {
                pending = pending + 1;
            }
            k = k + 1;
        }
        assert(self.moderation_actions@.take(self.moderation_actions@.len() as int) =~= self.moderation_actions@);
        GovernanceStats {
            total_communities: self.communities.len(),
            total_policies: self.policies.len(),
            active_policies: active,
            total_moderation_actions: self.moderation_actions.len(),
            pending_moderation_actions: pending,
        }
    }
}

/// Storing a community with distinct members and moderators keeps every
/// community's members and moderators distinct.
proof fn lemma_keyed_insert_members<R>(s: Seq<GeographicCommunity<R>>, c: GeographicCommunity<R>)
    requires
        forall|i: int| 0 <= i < s.len() ==> ids_distinct((#[trigger] s[i]).members@) && ids_distinct(s[i].moderators@),
        ids_distinct(c.members@),
        ids_distinct(c.moderators@),
    ensures
        forall|i: int|
            0 <= i < keyed_insert(s, c).len() ==> ids_distinct((#[trigger] keyed_insert(s, c)[i]).members@)
                && ids_distinct(keyed_insert(s, c)[i].moderators@),
{
}

/// Insert an action into a result ordered by decreasing priority, after every
/// action whose priority is at least its own.
fn insert_sorted<V>(v: &mut Vec<PolicyAction<V>>, x: PolicyAction<V>)
    ensures
        final(v)@ == insert_by_priority(old(v)@, x),
{
    let mut k: usize = 0;
    while k < v.len() && v[k].priority >= x.priority
        invariant
            k <= v@.len(),
            forall|m: int| 0 <= m < k ==> #[trigger] v@[m].priority >= x.priority,
        decreases v@.len() - k,
    {
        k = k + 1;
    }
    proof {
        lemma_insert_at_first_lower(v@, x, k as int);
    }
    v.insert(k, x);
}

/// Inserting at the first position whose priority is lower than that of `x`
/// is `insert_by_priority`.
proof fn lemma_insert_at_first_lower<V>(s: Seq<PolicyAction<V>>, x: PolicyAction<V>, k: int)
    requires
        0 <= k <= s.len(),
        forall|m: int| 0 <= m < k ==> #[trigger] s[m].priority >= x.priority,
        k < s.len() ==> s[k].priority < x.priority,
    ensures
        s.insert(k, x) == insert_by_priority(s, x),
    decreases s.len(),
{
    if s.len() == 0 {
        assert(s.insert(k, x) =~= seq![x]);
    } else if k == 0 {
        assert(s.insert(k, x) =~= seq![x] + s);
    } else {
        let t = s.drop_first();
        assert forall|m: int| 0 <= m < k - 1 implies #[trigger] t[m].priority >= x.priority by {
            assert(t[m] == s[m + 1]);
        }
        lemma_insert_at_first_lower(t, x, k - 1);
        assert(s.insert(k, x) =~= seq![s[0]] + t.insert(k - 1, x));
    }
}

/// The communities after creating, from none, the community `cs[i]` under
/// the id `ids[i]` for each `i` in turn.
pub open spec fn communities_after<R>(ids: Seq<Seq<char>>, cs: Seq<GeographicCommunity<R>>) -> Map<Seq<char>, GeographicCommunity<R>>
    decreases ids.len(),
{
    if ids.len() == 0 || cs.len() == 0 {
        Map::empty()
    } else {
        communities_after(ids.drop_last(), cs.drop_last()).insert(ids.last(), cs.last())
    }
}

/// Creating communities under `k` distinct ids, starting from a new manager,
/// leaves exactly `k` communities; as creation touches neither policies nor
/// moderation actions, the statistics then count `k` communities and no
/// policies or actions.
pub proof fn law_created_communities_are_counted<R, V>(ids: Seq<Seq<char>>, cs: Seq<GeographicCommunity<R>>)
    requires
        ids.len() == cs.len(),
        ids.no_duplicates(),
    ensures
        communities_after(ids, cs).dom().finite(),
        communities_after(ids, cs).len() == ids.len(),
        Seq::<GovernancePolicy<R, V>>::empty().filter(|p: GovernancePolicy<R, V>| p.status == PolicyStatus::Active).len() == 0,
        Seq::<ModerationAction>::empty().filter(|a: ModerationAction| a.status == ModerationStatus::Pending).len() == 0,
    decreases ids.len(),
{
    reveal(Seq::filter);
    if ids.len() > 0 {
        let init = ids.drop_last();
        assert(init.no_duplicates()) by {
            assert forall|i: int, j: int| 0 <= i < init.len() && 0 <= j < init.len() && i != j implies init[i] != init[j] by {
                assert(init[i] == ids[i] && init[j] == ids[j]);
            }
        }
        law_created_communities_are_counted::<R, V>(init, cs.drop_last());
        let before = communities_after(init, cs.drop_last());
        assert(!before.contains_key(ids.last())) by {
            lemma_communities_after_keys(init, cs.drop_last());
            if before.contains_key(ids.last()) {
                let j = choose|j: int| 0 <= j < init.len() && init[j] == ids.last();
                assert(ids[j] == ids[ids.len() - 1]);
            }
        }
    }
}

proof fn lemma_communities_after_keys<R>(ids: Seq<Seq<char>>, cs: Seq<GeographicCommunity<R>>)
    requires
        ids.len() == cs.len(),
    ensures
        forall|g: Seq<char>| #[trigger] communities_after(ids, cs).contains_key(g) ==> exists|j: int| 0 <= j < ids.len() && ids[j] == g,
    decreases ids.len(),
{
    if ids.len() > 0 {
        lemma_communities_after_keys(ids.drop_last(), cs.drop_last());
        assert forall|g: Seq<char>| #[trigger] communities_after(ids, cs).contains_key(g) implies exists|j: int| 0 <= j < ids.len() && ids[j] == g by {
            if g == ids.last() {
                assert(ids[ids.len() - 1] == g);
            } else {
                assert(communities_after(ids.drop_last(), cs.drop_last()).contains_key(g));
                let j = choose|j: int| 0 <= j < ids.drop_last().len() && ids.drop_last()[j] == g;
                assert(ids[j] == g);
            }
        }
    }
}

} // verus!
