//! Channel coding, framing and mesh networking logic for a software radio
//! stack: DAB/DAB+ channel coding, NB-IoT (LTE Cat-NB2) coding helpers,
//! a dual-polarisation QPSK symbol detector, and the Meshtastic-style mesh
//! packet layer with its channel encryption.

pub mod cli;
pub mod crc;
pub mod dab;
pub mod dpqpsk;
pub mod lte;
pub mod mesh;
