//! Protocol vocabulary and message validation.
//!
//! Validation reads only the outline of a message: its kind, its version and
//! sender, and which of its optional parts are present. `MessageShape` holds
//! that outline as plain values.

use vstd::prelude::*;

use crate::network::NodeId;

verus! {

/// Protocol version.
pub const PROTOCOL_VERSION: u32 = 1;

/// Content message types.
#[derive(Debug, Clone, Copy, PartialEq, Eq, Structural)]
pub enum ContentMessageType {
    /// Publish new content
    Publish,
    /// Request content
    Request,
    /// Content response
    Response,
    /// Content propagation
    Propagate,
    /// Content acknowledgment
    Acknowledge,
}

/// Routing message types.
#[derive(Debug, Clone, Copy, PartialEq, Eq, Structural)]
pub enum RoutingMessageType {
    /// Route update
    Update,
    /// Route request
    Request,
    /// Route response
    Response,
    /// Route advertisement
    Advertisement,
}

/// Discovery message types.
#[derive(Debug, Clone, Copy, PartialEq, Eq, Structural)]
pub enum DiscoveryMessageType {
    /// Discovery query
    Query,
    /// Discovery response
    Response,
    /// Node advertisement
    Advertisement,
    /// Node departure
    Departure,
}

/// Governance message types.
#[derive(Debug, Clone, Copy, PartialEq, Eq, Structural)]
pub enum GovernanceMessageType {
    /// Policy proposal
    PolicyProposal,
    /// Policy vote
    PolicyVote,
    /// Moderation action
    ModerationAction,
    /// Community update
    CommunityUpdate,
}

/// The outline of a protocol message that validation reads.
#[derive(Debug)]
pub enum MessageShape {
    /// Handshake: the protocol version and the id of the sending identity
    Handshake { version: u32, identity_id: NodeId },
    /// Keep-alive: the sender
    KeepAlive { sender: NodeId },
    /// Content message: its type and whether it carries content and a content id
    Content { message_type: ContentMessageType, has_content: bool, has_content_id: bool },
    /// Routing message: its type and how many routing entries it carries
    Routing { message_type: RoutingMessageType, entry_count: usize },
    /// Discovery message: its type and whether it carries a query and a response
    Discovery { message_type: DiscoveryMessageType, has_query: bool, has_response: bool },
    /// Governance message: its type and whether it carries a policy and a moderation action
    Governance {
        message_type: GovernanceMessageType,
        has_policy: bool,
        has_moderation_action: bool,
    },
    /// Error message: its text
    Error { error_message: String },
}

#[verifier::external_type_specification]
#[verifier::external_body]
pub struct ExBincodeErrorKind(bincode::ErrorKind);

/// Protocol errors.
#[derive(Debug)]
pub enum ProtocolError {
    /// The handshake names another protocol version
    UnsupportedVersion(u32),
    /// The handshake identity has an empty id
    InvalidIdentity,
    /// The keep-alive sender is empty
    InvalidSender,
    /// A publish message carries no content
    MissingContent,
    /// A request message carries no content id
    MissingContentId,
    /// A routing update carries no entries
    EmptyRoutingEntries,
    /// A discovery query carries no query
    MissingDiscoveryQuery,
    /// A discovery response carries no response
    MissingDiscoveryResponse,
    /// A policy proposal carries no policy
    MissingPolicy,
    /// A moderation message carries no moderation action
    MissingModerationAction,
    /// An error message has empty text
    EmptyErrorMessage,
    /// A message could not be encoded or decoded
    SerializationError(Box<bincode::ErrorKind>),
}

/// The error that validation reports for a message, if any.
pub open spec fn validation_error(m: MessageShape) -> Option<ProtocolError> {
    match m {
        MessageShape::Handshake { version, identity_id } => if version != PROTOCOL_VERSION {
            Some(ProtocolError::UnsupportedVersion(version))
        } else if identity_id.0@.len() == 0 {
            Some(ProtocolError::InvalidIdentity)
        } else {
            None
        },
        MessageShape::KeepAlive { sender } => if sender.0@.len() == 0 {
            Some(ProtocolError::InvalidSender)
        } else {
            None
        },
        MessageShape::Content { message_type, has_content, has_content_id } => match message_type {
            ContentMessageType::Publish => if !has_content {
                Some(ProtocolError::MissingContent)
            } else {
                None
            },
            ContentMessageType::Request => if !has_content_id {
                Some(ProtocolError::MissingContentId)
            } else {
                None
            },
            _ => None,
        },
        MessageShape::Routing { message_type, entry_count } => if entry_count == 0
            && message_type == RoutingMessageType::Update {
            Some(ProtocolError::EmptyRoutingEntries)
        } else {
            None
        },
        MessageShape::Discovery { message_type, has_query, has_response } => match message_type {
            DiscoveryMessageType::Query => if !has_query {
                Some(ProtocolError::MissingDiscoveryQuery)
            } else {
                None
            },
            DiscoveryMessageType::Response => if !has_response {
                Some(ProtocolError::MissingDiscoveryResponse)
            } else {
                None
            },
            _ => None,
        },
        MessageShape::Governance { message_type, has_policy, has_moderation_action } => match message_type {
            GovernanceMessageType::PolicyProposal => if !has_policy {
                Some(ProtocolError::MissingPolicy)
            } else {
                None
            },
            GovernanceMessageType::ModerationAction => if !has_moderation_action {
                Some(ProtocolError::MissingModerationAction)
            } else {
                None
            },
            _ => None,
        },
        MessageShape::Error { error_message } => if error_message@.len() == 0 {
            Some(ProtocolError::EmptyErrorMessage)
        } else {
            None
        },
    }
}

/// A publish message is refused exactly when it carries no content, and then
/// as missing content; whether it carries a content id makes no difference.
pub proof fn law_publish_needs_only_content(has_content: bool, has_content_id: bool)
    ensures
        validation_error(
            MessageShape::Content { message_type: ContentMessageType::Publish, has_content, has_content_id },
        ) == (if has_content { None } else { Some(ProtocolError::MissingContent) }),
        validation_error(
            MessageShape::Content { message_type: ContentMessageType::Publish, has_content, has_content_id: true },
        ) == validation_error(
            MessageShape::Content { message_type: ContentMessageType::Publish, has_content, has_content_id: false },
        ),
{
}

/// A discovery query is refused exactly when it carries no query, and then as
/// a missing query; whether it carries a response makes no difference.
pub proof fn law_query_needs_only_query(has_query: bool, has_response: bool)
    ensures
        validation_error(
            MessageShape::Discovery { message_type: DiscoveryMessageType::Query, has_query, has_response },
        ) == (if has_query { None } else { Some(ProtocolError::MissingDiscoveryQuery) }),
        validation_error(
            MessageShape::Discovery { message_type: DiscoveryMessageType::Query, has_query, has_response: true },
        ) == validation_error(
            MessageShape::Discovery { message_type: DiscoveryMessageType::Query, has_query, has_response: false },
        ),
{
}

/// Protocol message validator.
pub struct ProtocolMessageValidator;

impl ProtocolMessageValidator {
    /// Validate a protocol message: `Ok` exactly when its outline is well
    /// formed, and otherwise the error for the first problem found.
    pub fn validate(message: &MessageShape) -> (r: Result<(), ProtocolError>)
        ensures
            match validation_error(*message) {
                None => r is Ok,
                Some(e) => r matches Err(f) && f == e,
            },
            *message matches MessageShape::Content { message_type: ContentMessageType::Publish, has_content, .. }
                ==> (r is Ok <==> has_content),
            *message matches MessageShape::Content { message_type: ContentMessageType::Request, has_content_id, .. }
                ==> (r is Ok <==> has_content_id),
            *message matches MessageShape::Discovery { message_type: DiscoveryMessageType::Query, has_query, .. }
                ==> (r is Ok <==> has_query),
            *message matches MessageShape::Discovery { message_type: DiscoveryMessageType::Response, has_response, .. }
                ==> (r is Ok <==> has_response),
    {
        match message {
            MessageShape::Handshake { version, identity_id } => {
                if *version != PROTOCOL_VERSION {
                    return Err(ProtocolError::UnsupportedVersion(*version));
                }
                if identity_id.0.as_str().unicode_len() == 0 {
                    return Err(ProtocolError::InvalidIdentity);
                }
            },
            MessageShape::KeepAlive { sender } => {
                if sender.0.as_str().unicode_len() == 0 {
                    return Err(ProtocolError::InvalidSender);
                }
            },
            MessageShape::Content { message_type, has_content, has_content_id } => {
                match message_type {
                    ContentMessageType::Publish => {
                        if !*has_content {
                            return Err(ProtocolError::MissingContent);
                        }
                    },
                    ContentMessageType::Request => {
                        if !*has_content_id {
                            return Err(ProtocolError::MissingContentId);
                        }
                    },
                    _ => {},
                }
            },
            MessageShape::Routing { message_type, entry_count } => {
                if *entry_count == 0 && *message_type == RoutingMessageType::Update {
                    return Err(ProtocolError::EmptyRoutingEntries);
                }
            },
            MessageShape::Discovery { message_type, has_query, has_response } => {
                match message_type {
                    DiscoveryMessageType::Query => {
                        if !*has_query {
                            return Err(ProtocolError::MissingDiscoveryQuery);
                        }
                    },
                    DiscoveryMessageType::Response => {
                        if !*has_response {
                            return Err(ProtocolError::MissingDiscoveryResponse);
                        }
                    },
                    _ => {},
                }
            },
            MessageShape::Governance { message_type, has_policy, has_moderation_action } => {
                match message_type {
                    GovernanceMessageType::PolicyProposal => {
                        if !*has_policy {
                            return Err(ProtocolError::MissingPolicy);
                        }
                    },
                    GovernanceMessageType::ModerationAction => {
                        if !*has_moderation_action {
                            return Err(ProtocolError::MissingModerationAction);
                        }
                    },
                    _ => {},
                }
            },
            MessageShape::Error { error_message } => {
                if error_message.as_str().unicode_len() == 0 {
                    return Err(ProtocolError::EmptyErrorMessage);
                }
            },
        }
        Ok(())
    }
}

} // verus!
