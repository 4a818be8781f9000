//! Node identities and network vocabulary.

use vstd::prelude::*;

use crate::ident::{fresh_uuid, is_uuid_string};

verus! {

/// Unique identifier for a node.
#[derive(Debug, Clone, PartialEq, Eq, Hash)]
pub struct NodeId(pub String);

impl NodeId {
    /// Generate a new node ID.
    pub fn new() -> (id: NodeId)
        ensures
            is_uuid_string(id.0@),
    {
        NodeId(fresh_uuid())
    }

    /// Create from string.
    pub fn from_string(s: String) -> (id: NodeId)
        ensures
            id.0@ == s@,
    {
        NodeId(s)
    }

    /// A copy of this identifier.
    pub fn copy(&self) -> (id: NodeId)
        ensures
            id.0@ == self.0@,
    {
        NodeId(self.0.clone())
    }

    /// The identifier as text.
    pub fn to_string(&self) -> (s: String)
        ensures
            s@ == self.0@,
    {
        self.0.clone()
    }
}

/// Node status.
#[derive(Debug, Clone, Copy, PartialEq, Eq, Structural)]
pub enum NodeStatus {
    /// Node is active and available
    Active,
    /// Node is busy but available
    Busy,
    /// Node is going offline
    GoingOffline,
    /// Node is in emergency mode
    Emergency,
}

/// Types of geographic queries.
#[derive(Debug, Clone, Copy, PartialEq, Eq, Structural)]
pub enum GeographicQueryType {
    /// Find content in region
    FindContent,
    /// Find nodes in region
    FindNodes,
    /// Find services in region
    FindServices,
    /// Emergency query
    Emergency,
}

/// Connection types.
#[derive(Debug, Clone, Copy, PartialEq, Eq, Structural)]
pub enum ConnectionType {
    /// Direct TCP connection
    Tcp,
    /// UDP connection
    Udp,
    /// Bluetooth connection
    Bluetooth,
    /// WiFi Direct connection
    WiFiDirect,
}

/// Connection states.
#[derive(Debug, Clone, Copy, PartialEq, Eq, Structural)]
pub enum ConnectionState {
    /// Connection is being established
    Connecting,
    /// Connection is active
    Connected,
    /// Connection is being closed
    Disconnecting,
    /// Connection is closed
    Disconnected,
    /// Connection failed
    Failed,
}

/// Network errors.
#[derive(Debug)]
pub enum NetworkError {
    /// A connection could not be made
    ConnectionFailed(String),
    /// The node is not connected
    NodeNotConnected(NodeId),
    /// A message could not be serialized
    SerializationFailed(Box<bincode::ErrorKind>),
    /// Input or output failed
    IoError(std::io::Error),
    /// Discovery failed
    DiscoveryFailed(String),
    /// A message could not be processed
    MessageProcessingFailed(String),
    /// A message is invalid
    InvalidMessage(String),
}

} // verus!
