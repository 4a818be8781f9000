use proxima::content::{Content, ContentId, ContentType};
use proxima::governance::{
    GovernanceConfig, GovernanceError, GovernanceManager, ModerationActionType, PolicyRegionFacts,
    PolicyRule, PolicyStatus, PolicyType, PolicyVote, RuleAction, RuleCondition,
};
use proxima::network::NodeId;

type Region = (f64, f64, f64, f64);

fn manager() -> GovernanceManager<Region, f64> {
    GovernanceManager::new(GovernanceConfig::default())
}

fn text_content(author: &str, text: &str) -> Content<(f64, f64)> {
    Content::new(
        author.to_string(),
        ContentType::Text,
        text.as_bytes().to_vec(),
        (37.7749, -122.4194),
        vec![],
    )
}

fn rule(id: &str, condition: RuleCondition<Region>, action: RuleAction<f64>, priority: u8) -> PolicyRule<Region, f64> {
    PolicyRule { id: id.to_string(), condition, action, priority }
}

fn facts_for(m: &GovernanceManager<Region, f64>, in_scope: bool, in_region: bool) -> PolicyRegionFacts {
    let policies = m.policy_list();
    PolicyRegionFacts {
        policy_in_scope: policies.iter().map(|_| in_scope).collect(),
        rule_in_region: policies.iter().map(|p| p.rules.iter().map(|_| in_region).collect()).collect(),
    }
}

#[test]
fn test_governance_config_default() {
    let config = GovernanceConfig::default();
    assert_eq!(config.min_community_size, 10);
    assert_eq!(config.moderation_quorum, 3);
}

#[test]
fn test_governance_manager_creation() {
    let config = GovernanceConfig::default();
    let governance: GovernanceManager<Region, f64> = GovernanceManager::new(config);

    let stats = governance.get_governance_stats();
    assert_eq!(stats.total_communities, 0);
    assert_eq!(stats.total_policies, 0);
}

#[test]
fn test_create_community() {
    let mut governance = manager();
    let region = (37.7749, -122.4194, 37.7849, -122.4094);
    let creator = NodeId::new();
    let community_id = governance
        .create_community("37.774900_-122.419400_37.784900_-122.409400".to_string(), region, creator)
        .unwrap();

    assert!(!community_id.is_empty());

    let stats = governance.get_governance_stats();
    assert_eq!(stats.total_communities, 1);
}

#[test]
fn config_default_durations_and_flags() {
    let config = GovernanceConfig::default();
    assert_eq!(config.policy_voting_period, std::time::Duration::from_secs(86400));
    assert_eq!(config.moderation_timeout, std::time::Duration::from_secs(3600));
    assert!(config.enable_emergency_protocols);
    assert!(config.enable_geographic_sovereignty);
}

#[test]
fn join_unknown_community_is_refused() {
    let mut governance = manager();
    match governance.join_community("nowhere", NodeId::new()) {
        Err(GovernanceError::CommunityNotFound(id)) => assert_eq!(id, "nowhere"),
        other => panic!("unexpected {:?}", other),
    }
}

#[test]
fn join_existing_community_and_rejoin() {
    let mut governance = manager();
    governance
        .create_community("c1".to_string(), (0.0, 0.0, 1.0, 1.0), NodeId::from_string("alice".to_string()))
        .unwrap();
    assert!(governance.join_community("c1", NodeId::from_string("bob".to_string())).is_ok());
    assert!(governance.join_community("c1", NodeId::from_string("bob".to_string())).is_ok());
    assert_eq!(governance.get_governance_stats().total_communities, 1);
}

#[test]
fn vote_on_unknown_policy_is_refused() {
    let mut governance = manager();
    match governance.vote_on_policy("missing", NodeId::new(), PolicyVote::Approve) {
        Err(GovernanceError::PolicyNotFound(id)) => assert_eq!(id, "missing"),
        other => panic!("unexpected {:?}", other),
    }
}

#[test]
fn policies_start_pending_and_votes_set_status() {
    let mut governance = manager();
    let a = governance
        .create_policy("a".to_string(), "first".to_string(), PolicyType::Privacy, (0.0, 0.0, 1.0, 1.0), vec![], NodeId::new())
        .unwrap();
    let b = governance
        .create_policy("b".to_string(), "second".to_string(), PolicyType::Privacy, (0.0, 0.0, 1.0, 1.0), vec![], NodeId::new())
        .unwrap();
    assert_eq!(a.len(), 36);
    assert_ne!(a, b);
    let stats = governance.get_governance_stats();
    assert_eq!(stats.total_policies, 2);
    assert_eq!(stats.active_policies, 0);
    assert!(governance.policy_list().iter().all(|p| p.status == PolicyStatus::Pending));

    governance.vote_on_policy(&a, NodeId::new(), PolicyVote::Approve).unwrap();
    governance.vote_on_policy(&b, NodeId::new(), PolicyVote::Reject).unwrap();
    let stats = governance.get_governance_stats();
    assert_eq!(stats.active_policies, 1);
    let statuses: Vec<PolicyStatus> = governance.policy_list().iter().map(|p| p.status).collect();
    assert_eq!(statuses, vec![PolicyStatus::Active, PolicyStatus::Rejected]);
}

#[test]
fn moderation_needs_a_moderator_of_the_default_community() {
    let mut governance = manager();
    let moderator = NodeId::from_string("mod".to_string());
    let refused = governance.moderate_content(
        ContentId::from_string("c".to_string()),
        moderator.clone(),
        ModerationActionType::Flag,
        "spam".to_string(),
    );
    assert!(matches!(refused, Err(GovernanceError::InsufficientPermissions)));

    governance.create_community("default_community".to_string(), (0.0, 0.0, 1.0, 1.0), moderator.clone()).unwrap();
    governance.join_community("default_community", NodeId::from_string("member".to_string())).unwrap();
    let member_refused = governance.moderate_content(
        ContentId::from_string("c".to_string()),
        NodeId::from_string("member".to_string()),
        ModerationActionType::Flag,
        "spam".to_string(),
    );
    assert!(matches!(member_refused, Err(GovernanceError::InsufficientPermissions)));

    let action_id = governance
        .moderate_content(ContentId::from_string("c".to_string()), moderator, ModerationActionType::Remove, "spam".to_string())
        .unwrap();
    assert_eq!(action_id.len(), 36);
    let stats = governance.get_governance_stats();
    assert_eq!(stats.total_moderation_actions, 1);
    assert_eq!(stats.pending_moderation_actions, 1);
}

#[test]
fn policies_apply_by_priority_to_matching_content() {
    let mut governance = manager();
    let author = NodeId::from_string("alice".to_string());
    let rules = vec![
        rule("low", RuleCondition::HasContentType(ContentType::Text), RuleAction::FlagForReview, 1),
        rule("high", RuleCondition::ContainsKeywords(vec!["world".to_string()]), RuleAction::Block, 9),
        rule("author", RuleCondition::FromAuthor(author.clone()), RuleAction::ReduceVisibility(0.5), 9),
        rule("never", RuleCondition::ViolatesCommunityStandards, RuleAction::Block, 200),
        rule("image", RuleCondition::HasContentType(ContentType::Image), RuleAction::Block, 100),
    ];
    let id = governance
        .create_policy("p".to_string(), "d".to_string(), PolicyType::ContentModeration, (0.0, 0.0, 1.0, 1.0), rules, author)
        .unwrap();

    let content = text_content("alice", "Hello, world!");
    let facts = facts_for(&governance, true, true);
    let pending = governance.apply_policies_to_content(&content, &facts).unwrap();
    assert!(pending.is_empty());

    governance.vote_on_policy(&id, NodeId::new(), PolicyVote::Approve).unwrap();
    let facts = facts_for(&governance, true, true);
    let actions = governance.apply_policies_to_content(&content, &facts).unwrap();
    let rule_ids: Vec<&str> = actions.iter().map(|a| a.rule_id.as_str()).collect();
    assert_eq!(rule_ids, vec!["high", "author", "low"]);
    assert!(actions.iter().all(|a| a.policy_id == id));
    assert!(matches!(actions[1].action, RuleAction::ReduceVisibility(v) if v == 0.5));

    let outside = facts_for(&governance, false, true);
    assert!(governance.apply_policies_to_content(&content, &outside).unwrap().is_empty());
}

#[test]
fn region_rules_follow_the_region_facts() {
    let mut governance = manager();
    let rules = vec![rule("region", RuleCondition::InGeographicRegion((0.0, 0.0, 1.0, 1.0)), RuleAction::EmergencyBroadcast, 5)];
    let id = governance
        .create_policy("p".to_string(), "d".to_string(), PolicyType::EmergencyResponse, (0.0, 0.0, 1.0, 1.0), rules, NodeId::new())
        .unwrap();
    governance.vote_on_policy(&id, NodeId::new(), PolicyVote::Approve).unwrap();
    let content = text_content("bob", "x");
    let inside = facts_for(&governance, true, true);
    assert_eq!(governance.apply_policies_to_content(&content, &inside).unwrap().len(), 1);
    let outside = facts_for(&governance, true, false);
    assert_eq!(governance.apply_policies_to_content(&content, &outside).unwrap().len(), 0);
}

#[test]
fn keywords_are_matched_in_lossily_decoded_text() {
    let mut governance = manager();
    let rules = vec![rule("kw", RuleCondition::ContainsKeywords(vec!["zzz".to_string(), "ab\u{FFFD}".to_string()]), RuleAction::Block, 3)];
    let id = governance
        .create_policy("p".to_string(), "d".to_string(), PolicyType::ContentModeration, (0.0, 0.0, 1.0, 1.0), rules, NodeId::new())
        .unwrap();
    governance.vote_on_policy(&id, NodeId::new(), PolicyVote::Approve).unwrap();
    let mut content = text_content("bob", "");
    content.data = vec![b'a', b'b', 0xff];
    let facts = facts_for(&governance, true, true);
    assert_eq!(governance.apply_policies_to_content(&content, &facts).unwrap().len(), 1);
    content.data = b"abc".to_vec();
    assert_eq!(governance.apply_policies_to_content(&content, &facts).unwrap().len(), 0);
}

#[test]
fn statistics_count_each_created_community_once() {
    let mut governance = manager();
    for (i, id) in ["c1", "c2", "c3"].iter().enumerate() {
        let f = i as f64;
        governance.create_community(id.to_string(), (f, f, f + 1.0, f + 1.0), NodeId::new()).unwrap();
    }
    let stats = governance.get_governance_stats();
    assert_eq!(stats.total_communities, 3);
    assert_eq!(stats.total_policies, 0);
    assert_eq!(stats.active_policies, 0);
    assert_eq!(stats.total_moderation_actions, 0);
    assert_eq!(stats.pending_moderation_actions, 0);

    governance.create_community("c2".to_string(), (9.0, 9.0, 9.5, 9.5), NodeId::new()).unwrap();
    assert_eq!(governance.get_governance_stats().total_communities, 3);
}
