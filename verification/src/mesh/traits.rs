//! Mesh networking errors and network configuration.

use vstd::prelude::*;
use vstd::string::{StrSliceExecFns, StringExecFns};

use crate::mesh::packet::NodeId;

verus! {

/// The lower-case hexadecimal digit of a value below 16.
pub open spec fn hex_digit(n: u8) -> char {
    if n < 10 {
        (48 + n) as char
    } else {
        (87 + n) as char
    }
}

/// A byte as two lower-case hexadecimal digits.
pub open spec fn hex_byte(b: u8) -> Seq<char> {
    seq![hex_digit(b / 16), hex_digit(b % 16)]
}

/// The debug text of a node id's bytes: `NodeId(` and the four bytes in
/// hex, `)`.
pub open spec fn node_id_text(b: Seq<u8>) -> Seq<char> {
    "NodeId("@ + hex_byte(b[0]) + hex_byte(b[1]) + hex_byte(b[2]) + hex_byte(b[3]) + ")"@
}

/// A byte as two lower-case hexadecimal digits.
fn hex_text(b: u8) -> (s: String)
    ensures
        s@ == hex_byte(b),
{
    let digits = "0123456789abcdef";
    proof {
        reveal_strlit("0123456789abcdef");
        assert(digits.is_ascii());
        assert forall|n: u8| n < 16 implies #[trigger] digits@[n as int] == hex_digit(n) by {
            if n < 10 {
                assert(digits@[n as int] == (48 + n) as char);
            } else {
                assert(digits@[n as int] == (87 + n) as char);
            }
        }
    }
    let hi: usize = (b / 16) as usize;
    let lo: usize = (b % 16) as usize;
    let mut s = String::from_str(digits.substring_ascii(hi, hi + 1));
    s.append(digits.substring_ascii(lo, lo + 1));
    proof {
        assert(digits@[hi as int] == hex_digit(b / 16));
        assert(digits@[lo as int] == hex_digit(b % 16));
        assert(s@ =~= hex_byte(b));
    }
    s
}

/// The debug text of a node id: `NodeId(`, its four bytes in hex, `)`.
fn format_node_id(b: &[u8; 4]) -> (s: String)
    ensures
        s@ == node_id_text(b@),
{
    let s0 = join_text("NodeId(", hex_text(b[0]).as_str());
    let s1 = join_text(s0.as_str(), hex_text(b[1]).as_str());
    let s2 = join_text(s1.as_str(), hex_text(b[2]).as_str());
    let s3 = join_text(s2.as_str(), hex_text(b[3]).as_str());
    let s4 = join_text(s3.as_str(), ")");
    proof {
        reveal_strlit("NodeId(");
        reveal_strlit(")");
        assert(s4@ =~= node_id_text(b@));
    }
    s4
}

/// Joins two texts.
fn join_text(a: &str, b: &str) -> (s: String)
    ensures
        s@ == a@ + b@,
{
    let mut s = String::from_str(a);
    s.append(b);
    s
}

/// Errors that can occur in mesh networking operations
#[derive(Debug, Clone, PartialEq)]
pub enum MeshError {
    /// Channel is busy, cannot transmit
    ChannelBusy,
    /// No route to destination
    NoRoute(NodeId),
    /// Packet TTL/hop limit exceeded
    HopLimitExceeded,
    /// Duplicate packet detected
    DuplicatePacket,
    /// Encryption/decryption failed
    CryptoError(String),
    /// Invalid packet format
    InvalidPacket(String),
    /// Physical layer error
    PhyError(String),
    /// Node not found
    NodeNotFound(NodeId),
    /// Queue full, cannot enqueue packet
    QueueFull,
    /// Timeout waiting for acknowledgment
    AckTimeout,
    /// Generic error
    Other(String),
}

/// The message of each error.
pub open spec fn mesh_error_text(e: MeshError) -> Seq<char> {
    match e {
        MeshError::ChannelBusy => "Channel is busy"@,
        MeshError::NoRoute(id) => "No route to node "@ + node_id_text(id.bytes()),
        MeshError::HopLimitExceeded => "Hop limit exceeded"@,
        MeshError::DuplicatePacket => "Duplicate packet detected"@,
        MeshError::CryptoError(s) => "Crypto error: "@ + s@,
        MeshError::InvalidPacket(s) => "Invalid packet: "@ + s@,
        MeshError::PhyError(s) => "PHY error: "@ + s@,
        MeshError::NodeNotFound(id) => "Node not found: "@ + node_id_text(id.bytes()),
        MeshError::QueueFull => "Queue full"@,
        MeshError::AckTimeout => "Acknowledgment timeout"@,
        MeshError::Other(s) => s@,
    }
}

impl MeshError {
    /// The error's message.
    pub fn message(&self) -> (m: String)
        ensures
            m@ == mesh_error_text(*self),
    {
        match self {
            MeshError::ChannelBusy => "Channel is busy".to_owned(),
            MeshError::NoRoute(id) => join_text("No route to node ", format_node_id(id.as_bytes()).as_str()),
            MeshError::HopLimitExceeded => "Hop limit exceeded".to_owned(),
            MeshError::DuplicatePacket => "Duplicate packet detected".to_owned(),
            MeshError::CryptoError(s) => join_text("Crypto error: ", s.as_str()),
            MeshError::InvalidPacket(s) => join_text("Invalid packet: ", s.as_str()),
            MeshError::PhyError(s) => join_text("PHY error: ", s.as_str()),
            MeshError::NodeNotFound(id) => join_text("Node not found: ", format_node_id(id.as_bytes()).as_str()),
            MeshError::QueueFull => "Queue full".to_owned(),
            MeshError::AckTimeout => "Acknowledgment timeout".to_owned(),
            MeshError::Other(s) => s.as_str().to_owned(),
        }
    }
}

/// Result type for mesh operations
pub type MeshResult<T> = Result<T, MeshError>;

/// Configuration for mesh network behavior
#[derive(Debug, Clone)]
pub struct MeshConfig {
    /// This node's ID (random if None)
    pub node_id: Option<NodeId>,
    /// Default hop limit for broadcasts
    pub default_hop_limit: u8,
    /// Maximum packet size in bytes
    pub max_packet_size: usize,
    /// How long to keep packets in duplicate cache (seconds)
    pub duplicate_cache_ttl: u64,
    /// Maximum duplicate cache size
    pub duplicate_cache_size: usize,
    /// How long before a neighbor is considered stale (seconds)
    pub neighbor_timeout: u64,
    /// Enable encryption
    pub encryption_enabled: bool,
    /// Pre-shared key for encryption (32 bytes)
    pub psk: Option<[u8; 32]>,
    /// Enable position sharing
    pub position_enabled: bool,
    /// Position update interval in seconds
    pub position_interval: u64,
    /// Enable acknowledgments for direct messages
    pub ack_enabled: bool,
    /// Acknowledgment timeout in milliseconds
    pub ack_timeout_ms: u64,
    /// Maximum retransmission attempts
    pub max_retries: u8,
}

impl Default for MeshConfig {
    /// Hop limit 3, 256-byte packets, a 256-entry duplicate cache kept 5
    /// minutes, neighbours stale after 2 hours, no encryption, positions
    /// off (every 15 minutes when on), acknowledgments on with a 5 s
    /// timeout and 3 retries.
    fn default() -> (c: Self)
        ensures
            c.node_id.is_none(),
            c.default_hop_limit == 3,
            c.max_packet_size == 256,
            c.duplicate_cache_ttl == 300,
            c.duplicate_cache_size == 256,
            c.neighbor_timeout == 7200,
            !c.encryption_enabled,
            c.psk.is_none(),
            !c.position_enabled,
            c.position_interval == 900,
            c.ack_enabled,
            c.ack_timeout_ms == 5000,
            c.max_retries == 3,
    {
        MeshConfig {
            node_id: None,
            default_hop_limit: 3,
            max_packet_size: 256,
            duplicate_cache_ttl: 300,
            duplicate_cache_size: 256,
            neighbor_timeout: 7200,
            encryption_enabled: false,
            psk: None,
            position_enabled: false,
            position_interval: 900,
            ack_enabled: true,
            ack_timeout_ms: 5000,
            max_retries: 3,
        }
    }
}

} // verus!
