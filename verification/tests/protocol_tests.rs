use proxima::network::NodeId;
use proxima::protocol::{
    ContentMessageType, DiscoveryMessageType, GovernanceMessageType, MessageShape, ProtocolError,
    ProtocolMessageValidator, RoutingMessageType, PROTOCOL_VERSION,
};

#[test]
fn test_protocol_message_validation() {
    let handshake = MessageShape::Handshake { version: PROTOCOL_VERSION, identity_id: NodeId::new() };
    assert!(ProtocolMessageValidator::validate(&handshake).is_ok());
}

#[test]
fn test_protocol_message_validation_error() {
    let handshake = MessageShape::Handshake { version: PROTOCOL_VERSION, identity_id: NodeId::from_string("".to_string()) };
    assert!(ProtocolMessageValidator::validate(&handshake).is_err());
}

#[test]
fn handshake_with_other_version_is_unsupported() {
    let m = MessageShape::Handshake { version: 2, identity_id: NodeId::from_string("".to_string()) };
    assert!(matches!(ProtocolMessageValidator::validate(&m), Err(ProtocolError::UnsupportedVersion(2))));
    let m = MessageShape::Handshake { version: PROTOCOL_VERSION, identity_id: NodeId::from_string("".to_string()) };
    assert!(matches!(ProtocolMessageValidator::validate(&m), Err(ProtocolError::InvalidIdentity)));
}

#[test]
fn keep_alive_needs_a_sender() {
    let m = MessageShape::KeepAlive { sender: NodeId::from_string("".to_string()) };
    assert!(matches!(ProtocolMessageValidator::validate(&m), Err(ProtocolError::InvalidSender)));
    let m = MessageShape::KeepAlive { sender: NodeId::from_string("n".to_string()) };
    assert!(ProtocolMessageValidator::validate(&m).is_ok());
}

#[test]
fn content_messages() {
    let publish = MessageShape::Content { message_type: ContentMessageType::Publish, has_content: false, has_content_id: true };
    assert!(matches!(ProtocolMessageValidator::validate(&publish), Err(ProtocolError::MissingContent)));
    let request = MessageShape::Content { message_type: ContentMessageType::Request, has_content: true, has_content_id: false };
    assert!(matches!(ProtocolMessageValidator::validate(&request), Err(ProtocolError::MissingContentId)));
    let response = MessageShape::Content { message_type: ContentMessageType::Response, has_content: false, has_content_id: false };
    assert!(ProtocolMessageValidator::validate(&response).is_ok());
}

#[test]
fn routing_updates_need_entries() {
    let m = MessageShape::Routing { message_type: RoutingMessageType::Update, entry_count: 0 };
    assert!(matches!(ProtocolMessageValidator::validate(&m), Err(ProtocolError::EmptyRoutingEntries)));
    let m = MessageShape::Routing { message_type: RoutingMessageType::Request, entry_count: 0 };
    assert!(ProtocolMessageValidator::validate(&m).is_ok());
    let m = MessageShape::Routing { message_type: RoutingMessageType::Update, entry_count: 3 };
    assert!(ProtocolMessageValidator::validate(&m).is_ok());
}

#[test]
fn discovery_and_governance_messages() {
    let q = MessageShape::Discovery { message_type: DiscoveryMessageType::Query, has_query: false, has_response: true };
    assert!(matches!(ProtocolMessageValidator::validate(&q), Err(ProtocolError::MissingDiscoveryQuery)));
    let r = MessageShape::Discovery { message_type: DiscoveryMessageType::Response, has_query: true, has_response: false };
    assert!(matches!(ProtocolMessageValidator::validate(&r), Err(ProtocolError::MissingDiscoveryResponse)));
    let a = MessageShape::Discovery { message_type: DiscoveryMessageType::Departure, has_query: false, has_response: false };
    assert!(ProtocolMessageValidator::validate(&a).is_ok());
    let p = MessageShape::Governance { message_type: GovernanceMessageType::PolicyProposal, has_policy: false, has_moderation_action: true };
    assert!(matches!(ProtocolMessageValidator::validate(&p), Err(ProtocolError::MissingPolicy)));
    let m = MessageShape::Governance { message_type: GovernanceMessageType::ModerationAction, has_policy: true, has_moderation_action: false };
    assert!(matches!(ProtocolMessageValidator::validate(&m), Err(ProtocolError::MissingModerationAction)));
    let v = MessageShape::Governance { message_type: GovernanceMessageType::PolicyVote, has_policy: false, has_moderation_action: false };
    assert!(ProtocolMessageValidator::validate(&v).is_ok());
}

#[test]
fn error_messages_need_text() {
    let m = MessageShape::Error { error_message: String::new() };
    assert!(matches!(ProtocolMessageValidator::validate(&m), Err(ProtocolError::EmptyErrorMessage)));
    let m = MessageShape::Error { error_message: "boom".to_string() };
    assert!(ProtocolMessageValidator::validate(&m).is_ok());
}
