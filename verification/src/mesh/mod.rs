//! Mesh networking: packet framing, channel encryption, Meshtastic
//! configuration, traceroute, telemetry configuration and the shared
//! error and configuration types, and simulation statistics.

pub mod packet;
pub mod crypto;
pub mod mac;
pub mod telemetry;
pub mod traits;
pub mod traceroute;
pub mod neighbors;
pub mod meshtastic;
pub mod simulation;
