//! Mesh simulation bookkeeping: per-node statistics.

use vstd::prelude::*;

verus! {

/// Per-node statistics
#[derive(Debug, Clone, Copy, PartialEq, Eq, Structural)]
pub struct NodeStats {
    /// The node's id
    pub node_id: u32,
    /// Messages the node sent
    pub messages_sent: u64,
    /// Messages the node received
    pub messages_received: u64,
    /// Packets the node forwarded
    pub packets_forwarded: u64,
    /// Neighbors the node discovered
    pub neighbors_discovered: usize,
}

impl Default for NodeStats {
    /// All counts zero, node id zero.
    fn default() -> (s: Self)
        ensures
            s == (NodeStats {
                node_id: 0,
                messages_sent: 0,
                messages_received: 0,
                packets_forwarded: 0,
                neighbors_discovered: 0,
            }),
    {
        NodeStats { node_id: 0, messages_sent: 0, messages_received: 0, packets_forwarded: 0, neighbors_discovered: 0 }
    }
}

} // verus!
