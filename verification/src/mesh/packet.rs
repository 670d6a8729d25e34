//! Mesh packet header types and framing.
//!
//! Header layout (12 bytes): destination (4), source (4), packet id (2,
//! big-endian), hop limit (1), flags (1).

use vstd::prelude::*;

use vstd::string::{StrSliceExecFns, StringSliceAdditionalSpecFns};

use crate::crc::crc16_ccitt_spec;

verus! {

/// The wall-clock time in nanoseconds since the Unix epoch
/// (`SystemTime::now().duration_since(UNIX_EPOCH)`, zero if the clock is
/// before the epoch, `as_nanos`). Nothing is stated of the value: it
/// depends on the clock.
#[verifier::external_body]
fn clock_nanos() -> u128 {
    std::time::SystemTime::now().duration_since(std::time::UNIX_EPOCH).unwrap_or_default().as_nanos()
}

/// The wall-clock time in microseconds since the Unix epoch (zero if the
/// clock is before the epoch, `as_micros`). Nothing is stated of the
/// value: it depends on the clock.
#[verifier::external_body]
fn clock_micros() -> u128 {
    std::time::SystemTime::now().duration_since(std::time::UNIX_EPOCH).unwrap_or_default().as_micros()
}

/// The big-endian value of four bytes.
pub open spec fn be32(b: [u8; 4]) -> u32 {
    ((b[0] as u32) << 24u32) | ((b[1] as u32) << 16u32) | ((b[2] as u32) << 8u32) | (b[3] as u32)
}

/// Node identifier - 4-byte unique ID
#[derive(Debug, Clone, Copy, Eq, Hash)]
pub struct NodeId([u8; 4]);

impl PartialEq for NodeId {
    fn eq(&self, other: &Self) -> (r: bool) {
        let r = self.0[0] == other.0[0] && self.0[1] == other.0[1] && self.0[2] == other.0[2]
            && self.0[3] == other.0[3];
        proof {
            if r {
                assert(self.0@ =~= other.0@);
            }
        }
        r
    }
}

impl vstd::std_specs::cmp::PartialEqSpecImpl for NodeId {
    open spec fn obeys_eq_spec() -> bool {
        true
    }

    open spec fn eq_spec(&self, other: &Self) -> bool {
        self.bytes() == other.bytes()
    }
}

impl NodeId {
    /// Broadcast address (all 0xFF)
    pub fn broadcast() -> (id: NodeId)
        ensures
            id.is_broadcast_spec(),
    {
        let id = NodeId([255u8, 255u8, 255u8, 255u8]);
        proof {
            assert(id.0@ =~= seq![255u8, 255u8, 255u8, 255u8]);
        }
        id
    }

    /// Unknown/unset address (all 0x00)
    pub fn unknown() -> (id: NodeId)
        ensures
            id.is_unknown_spec(),
    {
        let id = NodeId([0u8, 0u8, 0u8, 0u8]);
        proof {
            assert(id.0@ =~= seq![0u8, 0u8, 0u8, 0u8]);
        }
        id
    }

    /// The four bytes of the id.
    pub closed spec fn raw(self) -> [u8; 4] {
        self.0
    }

    /// The four bytes of the id, as a sequence.
    pub open spec fn bytes(self) -> Seq<u8> {
        self.raw()@
    }

    /// The id as a big-endian number.
    pub open spec fn value(self) -> u32 {
        be32(self.raw())
    }

    /// Whether every byte is 0xFF.
    pub open spec fn is_broadcast_spec(self) -> bool {
        self.bytes() == seq![255u8, 255u8, 255u8, 255u8]
    }

    /// Whether every byte is 0.
    pub open spec fn is_unknown_spec(self) -> bool {
        self.bytes() == seq![0u8, 0u8, 0u8, 0u8]
    }

    /// The id made of four bytes.
    pub closed spec fn of_bytes(b: [u8; 4]) -> NodeId {
        NodeId(b)
    }

    /// The id whose big-endian value is `v`.
    pub open spec fn of_value(v: u32) -> NodeId {
        NodeId::of_bytes([(v >> 24u32) as u8, (v >> 16u32) as u8, (v >> 8u32) as u8, v as u8])
    }

    /// An id is the id of its own value.
    pub proof fn lemma_of_value(id: NodeId)
        ensures
            NodeId::of_value(id.value()) == id,
    {
        let b = id.0;
        let b0 = b[0];
        let b1 = b[1];
        let b2 = b[2];
        let b3 = b[3];
        let v = be32(b);
        assert(v == ((b0 as u32) << 24u32) | ((b1 as u32) << 16u32) | ((b2 as u32) << 8u32) | (b3 as u32));
        lemma_be32_bytes(b0, b1, b2, b3, v);
        let c = [(v >> 24u32) as u8, (v >> 16u32) as u8, (v >> 8u32) as u8, v as u8];
        assert(c =~= b);
    }

    /// Two ids with the same bytes are the same id.
    pub proof fn lemma_same_bytes(a: NodeId, b: NodeId)
        requires
            a.bytes() == b.bytes(),
        ensures
            a == b,
    {
        assert(a.0 =~= b.0);
    }

    /// An id equals the id made of its own bytes.
    pub proof fn lemma_eq_from_bytes(id: NodeId, b: [u8; 4])
        requires
            b@ == id.bytes(),
        ensures
            NodeId::of_bytes(b) == id,
    {
        assert(b =~= id.0);
    }

    /// Create a new NodeId from 4 bytes
    pub fn from_bytes(bytes: [u8; 4]) -> (id: Self)
        ensures
            id.raw() == bytes,
            id == NodeId::of_bytes(bytes),
    {
        NodeId(bytes)
    }

    /// Create a NodeId from a u32 (big-endian bytes)
    pub fn from_u32(value: u32) -> (id: Self)
        ensures
            id == NodeId::of_value(value),
            id.value() == value,
            id.bytes() == seq![(value >> 24u32) as u8, (value >> 16u32) as u8, (value >> 8u32) as u8, value as u8],
    {
        let b = [(value >> 24) as u8, (value >> 16) as u8, (value >> 8) as u8, value as u8];
        proof {
            assert(b@ =~= seq![(value >> 24u32) as u8, (value >> 16u32) as u8, (value >> 8u32) as u8, value as u8]);
            assert(((((value >> 24u32) as u8) as u32) << 24u32) | ((((value >> 16u32) as u8) as u32) << 16u32)
                | ((((value >> 8u32) as u8) as u32) << 8u32) | ((value as u8) as u32) == value)
                by (bit_vector);
        }
        NodeId(b)
    }

    /// Convert to u32 (big-endian)
    pub fn to_u32(&self) -> (v: u32)
        ensures
            v == self.value(),
    {
        ((self.0[0] as u32) << 24) | ((self.0[1] as u32) << 16) | ((self.0[2] as u32) << 8) | (
        self.0[3] as u32)
    }

    /// Get the raw bytes
    pub fn as_bytes(&self) -> (b: &[u8; 4])
        ensures
            *b == self.raw(),
    {
        &self.0
    }

    /// Generate a NodeId from the low 32 bits of the clock in nanoseconds.
    pub fn random() -> Self {
        Self::from_clock_nanos(clock_nanos())
    }

    /// The id a clock reading in nanoseconds gives: its low 32 bits,
    /// big-endian.
    pub fn from_clock_nanos(reading: u128) -> (id: Self)
        ensures
            id == NodeId::of_value((reading % 0x1_0000_0000) as u32),
    {
        Self::from_u32((reading % 0x1_0000_0000) as u32)
    }

    /// Check if this is the broadcast address
    pub fn is_broadcast(&self) -> (b: bool)
        ensures
            b == self.is_broadcast_spec(),
    {
        let r = self.0[0] == 255 && self.0[1] == 255 && self.0[2] == 255 && self.0[3] == 255;
        proof {
            if r {
                assert(self.0@ =~= seq![255u8, 255u8, 255u8, 255u8]);
            } else {
                assert(!self.is_broadcast_spec()) by {
                    if self.is_broadcast_spec() {
                        assert(self.0@[0] == 255u8 && self.0@[1] == 255u8 && self.0@[2] == 255u8
                            && self.0@[3] == 255u8);
                    }
                }
            }
        }
        r
    }

    /// Check if this is unknown/unset
    pub fn is_unknown(&self) -> (b: bool)
        ensures
            b == self.is_unknown_spec(),
    {
        let r = self.0[0] == 0 && self.0[1] == 0 && self.0[2] == 0 && self.0[3] == 0;
        proof {
            if r {
                assert(self.0@ =~= seq![0u8, 0u8, 0u8, 0u8]);
            } else {
                assert(!self.is_unknown_spec()) by {
                    if self.is_unknown_spec() {
                        assert(self.0@[0] == 0u8 && self.0@[1] == 0u8 && self.0@[2] == 0u8 && self.0@[3]
                            == 0u8);
                    }
                }
            }
        }
        r
    }
}

/// The bytes of a big-endian value are the bytes it was made of.
proof fn lemma_be32_bytes(b0: u8, b1: u8, b2: u8, b3: u8, v: u32)
    requires
        v == ((b0 as u32) << 24u32) | ((b1 as u32) << 16u32) | ((b2 as u32) << 8u32) | (b3 as u32),
    ensures
        (v >> 24u32) as u8 == b0,
        (v >> 16u32) as u8 == b1,
        (v >> 8u32) as u8 == b2,
        v as u8 == b3,
{
    assert((v >> 24u32) as u8 == b0 && (v >> 16u32) as u8 == b1 && (v >> 8u32) as u8 == b2 && v as u8
        == b3) by (bit_vector)
        requires
            v == ((b0 as u32) << 24u32) | ((b1 as u32) << 16u32) | ((b2 as u32) << 8u32) | (b3 as u32),
    ;
}

/// Converting a number to an id and back gives the number.
pub proof fn lemma_node_id_u32_roundtrip(v: u32)
    ensures
        be32([(v >> 24u32) as u8, (v >> 16u32) as u8, (v >> 8u32) as u8, v as u8]) == v,
{
    assert(((((v >> 24u32) as u8) as u32) << 24u32) | ((((v >> 16u32) as u8) as u32) << 16u32) | ((((v
        >> 8u32) as u8) as u32) << 8u32) | ((v as u8) as u32) == v) by (bit_vector);
}

/// Packet flags indicating packet type and options
#[derive(Debug, Clone, Copy, PartialEq, Eq, Structural)]
pub struct PacketFlags(u8);

impl PacketFlags {
    /// The flag byte.
    pub closed spec fn bits(self) -> u8 {
        self.0
    }

    /// The flags with the given byte.
    pub closed spec fn of_bits(b: u8) -> PacketFlags {
        PacketFlags(b)
    }

    /// Flags equal the flags made of their own byte.
    pub proof fn lemma_of_bits(f: PacketFlags)
        ensures
            PacketFlags::of_bits(f.bits()) == f,
    {
    }

    /// Empty flags
    pub fn none() -> (f: PacketFlags)
        ensures
            f.bits() == 0,
    {
        PacketFlags(0)
    }

    /// Create new flags
    pub fn new() -> (f: Self)
        ensures
            f.bits() == 0,
    {
        PacketFlags(0)
    }

    /// Check if acknowledgment is requested (bit 0)
    pub fn want_ack(&self) -> (b: bool)
        ensures
            b == (self.bits() & 0x01u8 != 0),
    {
        (self.0 & 0x01) != 0
    }

    /// Set want_ack flag (bit 0), leaving the other bits.
    pub fn set_want_ack(&mut self, value: bool)
        ensures
            final(self).bits() == (if value { old(self).bits() | 0x01u8 } else { old(self).bits() & 0xFEu8 }),
            (final(self).bits() & 0x01u8 != 0) == value,
            final(self).bits() & 0xFEu8 == old(self).bits() & 0xFEu8,
    {
        let old_v = self.0;
        if value {
            self.0 = self.0 | 0x01;
        } else {
            self.0 = self.0 & 0xFE;
        }
        proof {
            assert(((old_v | 0x01u8) & 0x01u8 != 0) && ((old_v | 0x01u8) & 0xFEu8 == old_v & 0xFEu8)
                && ((old_v & 0xFEu8) & 0x01u8 == 0) && ((old_v & 0xFEu8) & 0xFEu8 == old_v & 0xFEu8))
                by (bit_vector);
        }
    }

    /// Check if packet is encrypted (bit 5)
    pub fn encrypted(&self) -> (b: bool)
        ensures
            b == (self.bits() & 0x20u8 != 0),
    {
        (self.0 & 0x20) != 0
    }

    /// Set encrypted flag (bit 5), leaving the other bits.
    pub fn set_encrypted(&mut self, value: bool)
        ensures
            final(self).bits() == (if value { old(self).bits() | 0x20u8 } else { old(self).bits() & 0xDFu8 }),
            (final(self).bits() & 0x20u8 != 0) == value,
            final(self).bits() & 0xDFu8 == old(self).bits() & 0xDFu8,
    {
        let old_v = self.0;
        if value {
            self.0 = self.0 | 0x20;
        } else {
            self.0 = self.0 & 0xDF;
        }
        proof {
            assert(((old_v | 0x20u8) & 0x20u8 != 0) && ((old_v | 0x20u8) & 0xDFu8 == old_v & 0xDFu8)
                && ((old_v & 0xDFu8) & 0x20u8 == 0) && ((old_v & 0xDFu8) & 0xDFu8 == old_v & 0xDFu8))
                by (bit_vector);
        }
    }

    /// Check if packet is high priority (bit 6)
    pub fn priority(&self) -> (b: bool)
        ensures
            b == (self.bits() & 0x40u8 != 0),
    {
        (self.0 & 0x40) != 0
    }

    /// Set priority flag (bit 6), leaving the other bits.
    pub fn set_priority(&mut self, value: bool)
        ensures
            final(self).bits() == (if value { old(self).bits() | 0x40u8 } else { old(self).bits() & 0xBFu8 }),
            (final(self).bits() & 0x40u8 != 0) == value,
            final(self).bits() & 0xBFu8 == old(self).bits() & 0xBFu8,
    {
        let old_v = self.0;
        if value {
            self.0 = self.0 | 0x40;
        } else {
            self.0 = self.0 & 0xBF;
        }
        proof {
            assert(((old_v | 0x40u8) & 0x40u8 != 0) && ((old_v | 0x40u8) & 0xBFu8 == old_v & 0xBFu8)
                && ((old_v & 0xBFu8) & 0x40u8 == 0) && ((old_v & 0xBFu8) & 0xBFu8 == old_v & 0xBFu8))
                by (bit_vector);
        }
    }

    /// Check if packet came via MQTT (bit 1)
    pub fn via_mqtt(&self) -> (b: bool)
        ensures
            b == (self.bits() & 0x02u8 != 0),
    {
        (self.0 & 0x02) != 0
    }

    /// Set via_mqtt flag (bit 1), leaving the other bits.
    pub fn set_via_mqtt(&mut self, value: bool)
        ensures
            final(self).bits() == (if value { old(self).bits() | 0x02u8 } else { old(self).bits() & 0xFDu8 }),
            (final(self).bits() & 0x02u8 != 0) == value,
            final(self).bits() & 0xFDu8 == old(self).bits() & 0xFDu8,
    {
        let old_v = self.0;
        if value {
            self.0 = self.0 | 0x02;
        } else {
            self.0 = self.0 & 0xFD;
        }
        proof {
            assert(((old_v | 0x02u8) & 0x02u8 != 0) && ((old_v | 0x02u8) & 0xFDu8 == old_v & 0xFDu8)
                && ((old_v & 0xFDu8) & 0x02u8 == 0) && ((old_v & 0xFDu8) & 0xFDu8 == old_v & 0xFDu8))
                by (bit_vector);
        }
    }

    /// Get the original hop_start (stored in bits 2-4)
    pub fn hop_start(&self) -> (h: u8)
        ensures
            h == (self.bits() >> 2u8) & 0x07u8,
    {
        (self.0 >> 2) & 0x07
    }

    /// Set the original hop_start (bits 2-4 take the low three bits of
    /// `value`; the other bits stay).
    pub fn set_hop_start(&mut self, value: u8)
        ensures
            final(self).bits() == (old(self).bits() & 0xE3u8) | ((value & 0x07u8) << 2u8),
            (final(self).bits() >> 2u8) & 0x07u8 == value & 0x07u8,
            final(self).bits() & 0xE3u8 == old(self).bits() & 0xE3u8,
    {
        let old_v = self.0;
        self.0 = (self.0 & 0xE3) | ((value & 0x07) << 2);
        proof {
            assert(((((old_v & 0xE3u8) | ((value & 0x07u8) << 2u8)) >> 2u8) & 0x07u8 == value & 0x07u8)
                && (((old_v & 0xE3u8) | ((value & 0x07u8) << 2u8)) & 0xE3u8 == old_v & 0xE3u8))
                by (bit_vector);
        }
    }

    /// Get the raw byte value
    pub fn as_byte(&self) -> (b: u8)
        ensures
            b == self.bits(),
    {
        self.0
    }

    /// Create from raw byte
    pub fn from_byte(byte: u8) -> (f: Self)
        ensures
            f.bits() == byte,
    {
        PacketFlags(byte)
    }
}

impl Default for PacketFlags {
    fn default() -> (f: Self)
        ensures
            f.bits() == 0,
    {
        PacketFlags(0)
    }
}

/// Packet header containing routing information
#[derive(Debug, Clone, Copy)]
pub struct PacketHeader {
    /// Destination node ID (BROADCAST for all nodes)
    pub destination: NodeId,
    /// Source node ID
    pub source: NodeId,
    /// Packet ID (for duplicate detection)
    pub packet_id: u16,
    /// Current hop limit (decremented on each hop)
    pub hop_limit: u8,
    /// Packet flags
    pub flags: PacketFlags,
    /// Channel index (for multi-channel support)
    pub channel: u8,
}

/// The serialized header: destination, source, big-endian packet id,
/// hop limit, flags (the channel is not serialized).
pub open spec fn header_bytes(h: PacketHeader) -> Seq<u8> {
    h.destination.bytes() + h.source.bytes() + seq![
        (h.packet_id >> 8u16) as u8,
        h.packet_id as u8,
        h.hop_limit,
        h.flags.bits(),
    ]
}

/// The header read back from bytes (at least 10 of them): hop limit and
/// flags read as 0 when missing, channel 0.
pub open spec fn header_from(bytes: Seq<u8>) -> PacketHeader {
    PacketHeader {
        destination: NodeId::of_bytes([bytes[0], bytes[1], bytes[2], bytes[3]]),
        source: NodeId::of_bytes([bytes[4], bytes[5], bytes[6], bytes[7]]),
        packet_id: ((bytes[8] as u16) << 8u16) | (bytes[9] as u16),
        hop_limit: if bytes.len() > 10 { bytes[10] } else { 0 },
        flags: PacketFlags::of_bits(if bytes.len() > 11 { bytes[11] } else { 0 }),
        channel: 0,
    }
}

impl PacketHeader {
    /// Header size in bytes
    pub const SIZE: usize = 12;

    /// Create a new header for a broadcast packet; the packet id comes
    /// from the clock.
    pub fn broadcast(source: NodeId, hop_limit: u8) -> (h: Self)
        ensures
            h.destination.is_broadcast_spec(),
            h.source == source,
            h.hop_limit == hop_limit,
            h.flags.bits() == 0,
            h.channel == 0,
    {
        PacketHeader {
            destination: NodeId::broadcast(),
            source,
            packet_id: Self::generate_packet_id(),
            hop_limit,
            flags: PacketFlags::new(),
            channel: 0,
        }
    }

    /// Create a new header for a direct (unicast) packet: acknowledgment
    /// requested, hop limit 3; the packet id comes from the clock.
    pub fn direct(source: NodeId, destination: NodeId) -> (h: Self)
        ensures
            h.destination == destination,
            h.source == source,
            h.hop_limit == 3,
            h.flags.bits() == 0x01u8,
            h.channel == 0,
    {
        let mut flags = PacketFlags::new();
        flags.set_want_ack(true);
        proof {
            assert(0u8 | 0x01u8 == 0x01u8) by (bit_vector);
        }
        PacketHeader {
            destination,
            source,
            packet_id: Self::generate_packet_id(),
            hop_limit: 3,
            flags,
            channel: 0,
        }
    }

    /// Generate a packet ID from the low bits of the clock.
    fn generate_packet_id() -> u16 {
        Self::packet_id_from_micros(clock_micros())
    }

    /// The packet id a clock reading in microseconds gives: its low 16
    /// bits.
    pub fn packet_id_from_micros(reading: u128) -> (id: u16)
        ensures
            id == (reading % 0x1_0000) as u16,
    {
        (reading % 0x1_0000) as u16
    }

    /// Check if this is a broadcast packet
    pub fn is_broadcast(&self) -> (b: bool)
        ensures
            b == self.destination.is_broadcast_spec(),
    {
        self.destination.is_broadcast()
    }

    /// Serialize header to bytes
    pub fn to_bytes(&self) -> (bytes: Vec<u8>)
        ensures
            bytes@ == header_bytes(*self),
    {
        let mut bytes: Vec<u8> = Vec::with_capacity(Self::SIZE);
        let d = self.destination.as_bytes();
        bytes.push(d[0]);
        bytes.push(d[1]);
        bytes.push(d[2]);
        bytes.push(d[3]);
        let s = self.source.as_bytes();
        bytes.push(s[0]);
        bytes.push(s[1]);
        bytes.push(s[2]);
        bytes.push(s[3]);
        bytes.push((self.packet_id >> 8) as u8);
        bytes.push(self.packet_id as u8);
        bytes.push(self.hop_limit);
        bytes.push(self.flags.as_byte());
        proof {
            assert(bytes@ =~= header_bytes(*self));
        }
        bytes
    }

    /// Deserialize header from bytes
    pub fn from_bytes(bytes: &[u8]) -> (r: Option<Self>)
        ensures
            bytes.len() < 10 ==> r.is_none(),
            bytes.len() >= 10 ==> r == Some(header_from(bytes@)),
    {
        if bytes.len() < 10 {
            return None;
        }
        Some(
            PacketHeader {
                destination: NodeId::from_bytes([bytes[0], bytes[1], bytes[2], bytes[3]]),
                source: NodeId::from_bytes([bytes[4], bytes[5], bytes[6], bytes[7]]),
                packet_id: ((bytes[8] as u16) << 8) | (bytes[9] as u16),
                hop_limit: if bytes.len() > 10 { bytes[10] } else { 0 },
                flags: PacketFlags::from_byte(if bytes.len() > 11 { bytes[11] } else { 0 }),
                channel: 0,
            },
        )
    }
}

/// Reading back a serialized header gives the header, with channel 0.
pub proof fn lemma_header_roundtrip(h: PacketHeader)
    ensures
        header_from(header_bytes(h)) == (PacketHeader { channel: 0, ..h }),
{
    let b = header_bytes(h);
    let id = h.packet_id;
    assert(((((id >> 8u16) as u8) as u16) << 8u16) | ((id as u8) as u16) == id) by (bit_vector);
    let d = [b[0], b[1], b[2], b[3]];
    let s = [b[4], b[5], b[6], b[7]];
    assert(d@ =~= h.destination.bytes());
    assert(s@ =~= h.source.bytes());
    NodeId::lemma_eq_from_bytes(h.destination, d);
    NodeId::lemma_eq_from_bytes(h.source, s);
    PacketFlags::lemma_of_bits(h.flags);
}


/// Seconds since the Unix epoch (zero if the clock is before it). Nothing
/// is stated of the value: it depends on the clock.
#[verifier::external_body]
fn clock_secs() -> u64 {
    std::time::SystemTime::now().duration_since(std::time::UNIX_EPOCH).unwrap_or_default().as_secs()
}

/// A mesh packet: header, type, payload, an optional message integrity
/// code, and reception metadata (RSSI and SNR as `f32` bit patterns, the
/// time in seconds since the Unix epoch).
#[derive(Debug, Clone)]
pub struct MeshPacket {
    /// Packet header
    pub header: PacketHeader,
    /// Packet type
    pub packet_type: PacketType,
    /// Payload data
    pub payload: Vec<u8>,
    /// Message integrity code (if encrypted)
    pub mic: Option<[u8; 4]>,
    /// Received signal strength, filled on receive
    pub rx_rssi: Option<u32>,
    /// Signal-to-noise ratio, filled on receive
    pub rx_snr: Option<u32>,
    /// Reception time, filled on receive
    pub rx_time: Option<u64>,
}

/// The bytes of a packet: the header, the type byte, the payload and the
/// integrity code when there is one.
pub open spec fn packet_bytes(p: MeshPacket) -> Seq<u8> {
    header_bytes(p.header) + seq![packet_type_byte(p.packet_type)] + p.payload@ + match p.mic {
        Some(m) => m@,
        None => Seq::<u8>::empty(),
    }
}

/// The eight big-endian bytes of a value.
pub open spec fn be8(v: u64) -> Seq<u8> {
    Seq::new(8, |i: int| (v >> ((56 - 8 * i) as u64)) as u8)
}

/// The four big-endian bytes of a value.
pub open spec fn be4(v: u32) -> Seq<u8> {
    Seq::new(4, |i: int| (v >> ((24 - 8 * i) as u32)) as u8)
}

/// At most the first `n` bytes.
pub open spec fn prefix(b: Seq<u8>, n: int) -> Seq<u8> {
    if b.len() <= n {
        b
    } else {
        b.subrange(0, n)
    }
}

/// Whether a packet carries no reception metadata and no integrity code.
pub open spec fn fresh_packet(p: MeshPacket) -> bool {
    p.mic.is_none() && p.rx_rssi.is_none() && p.rx_snr.is_none() && p.rx_time.is_none()
}

/// Push at most the first `n` bytes of `src`, after their count.
fn push_counted_prefix(out: &mut Vec<u8>, src: &Vec<u8>, n: usize)
    requires
        n <= 255,
    ensures
        final(out)@ == old(out)@ + seq![prefix(src@, n as int).len() as u8] + prefix(src@, n as int),
{
    let take = if src.len() < n { src.len() } else { n };
    out.push(take as u8);
    let ghost base = out@;
    let mut i: usize = 0;
    while i < take
        invariant
            take <= src.len(),
            i <= take,
            out@ == base + src@.subrange(0, i as int),
        decreases take - i,
    {
        out.push(src[i]);
        i += 1;
    }
    proof {
        assert(prefix(src@, n as int) =~= src@.subrange(0, take as int));
    }
}

impl MeshPacket {
    /// Maximum payload size in bytes
    pub const MAX_PAYLOAD_SIZE: usize = 237;

    /// Create a new broadcast text packet.
    pub fn broadcast(source: NodeId, payload: &[u8], hop_limit: u8) -> (p: Self)
        ensures
            p.header.destination.is_broadcast_spec(),
            p.header.source == source,
            p.header.hop_limit == hop_limit,
            p.header.flags.bits() == 0,
            p.packet_type == PacketType::Text,
            p.payload@ == payload@,
            fresh_packet(p),
    {
        MeshPacket {
            header: PacketHeader::broadcast(source, hop_limit),
            packet_type: PacketType::Text,
            payload: vstd::slice::slice_to_vec(payload),
            mic: None,
            rx_rssi: None,
            rx_snr: None,
            rx_time: None,
        }
    }

    /// Create a new direct (unicast) text packet, acknowledgment requested.
    pub fn direct(source: NodeId, destination: NodeId, payload: &[u8]) -> (p: Self)
        ensures
            p.header.destination == destination,
            p.header.source == source,
            p.header.hop_limit == 3,
            p.header.flags.bits() == 0x01u8,
            p.packet_type == PacketType::Text,
            p.payload@ == payload@,
            fresh_packet(p),
    {
        MeshPacket {
            header: PacketHeader::direct(source, destination),
            packet_type: PacketType::Text,
            payload: vstd::slice::slice_to_vec(payload),
            mic: None,
            rx_rssi: None,
            rx_snr: None,
            rx_time: None,
        }
    }

    /// Create an acknowledgment packet carrying the acknowledged packet id,
    /// big-endian.
    pub fn ack(source: NodeId, destination: NodeId, acked_packet_id: u16) -> (p: Self)
        ensures
            p.header.destination == destination,
            p.header.source == source,
            p.header.hop_limit == 3,
            p.header.flags.bits() == 0x01u8,
            p.packet_type == PacketType::Ack,
            p.payload@ == seq![(acked_packet_id >> 8u16) as u8, acked_packet_id as u8],
            fresh_packet(p),
    {
        let mut payload: Vec<u8> = Vec::new();
        payload.push((acked_packet_id >> 8) as u8);
        payload.push(acked_packet_id as u8);
        MeshPacket {
            header: PacketHeader::direct(source, destination),
            packet_type: PacketType::Ack,
            payload,
            mic: None,
            rx_rssi: None,
            rx_snr: None,
            rx_time: None,
        }
    }

    /// Create a position packet: latitude and longitude (`f64` bit
    /// patterns) and altitude (an `f32` bit pattern), big-endian, broadcast
    /// with hop limit 3 and hop start 3.
    pub fn position(source: NodeId, lat: u64, lon: u64, alt: u32) -> (p: Self)
        ensures
            p.header.destination.is_broadcast_spec(),
            p.header.source == source,
            p.header.hop_limit == 3,
            p.header.flags.bits() == 0x0Cu8,
            p.packet_type == PacketType::Position,
            p.payload@ == be8(lat) + be8(lon) + be4(alt),
            fresh_packet(p),
    {
        let mut payload: Vec<u8> = Vec::with_capacity(20);
        let mut k: u64 = 0;
        while k < 8
            invariant
                k <= 8,
                payload@ == be8(lat).subrange(0, k as int),
            decreases 8 - k,
        {
            payload.push((lat >> (56 - 8 * k)) as u8);
            k += 1;
        }
        let mut k: u64 = 0;
        while k < 8
            invariant
                k <= 8,
                payload@ == be8(lat) + be8(lon).subrange(0, k as int),
            decreases 8 - k,
        {
            payload.push((lon >> (56 - 8 * k)) as u8);
            k += 1;
        }
        let mut k: u32 = 0;
        while k < 4
            invariant
                k <= 4,
                payload@ == be8(lat) + be8(lon) + be4(alt).subrange(0, k as int),
            decreases 4 - k,
        {
            payload.push((alt >> (24 - 8 * k)) as u8);
            k += 1;
        }
        proof {
            assert(be4(alt).subrange(0, 4) =~= be4(alt));
        }
        let mut header = PacketHeader::broadcast(source, 3);
        header.flags.set_hop_start(3);
        proof {
            let b = header.flags.bits();
            assert(b == (0u8 & 0xE3u8) | ((3u8 & 0x07u8) << 2u8));
            assert((0u8 & 0xE3u8) | ((3u8 & 0x07u8) << 2u8) == 0x0Cu8) by (bit_vector);
        }
        MeshPacket {
            header,
            packet_type: PacketType::Position,
            payload,
            mic: None,
            rx_rssi: None,
            rx_snr: None,
            rx_time: None,
        }
    }

    /// Create a node info packet: the short name's first 4 bytes and the
    /// long name's first 40 (UTF-8), each after its length byte; broadcast
    /// with hop limit 3.
    pub fn node_info(source: NodeId, short_name: &str, long_name: &str) -> (p: Self)
        ensures
            p.header.destination.is_broadcast_spec(),
            p.header.source == source,
            p.header.hop_limit == 3,
            p.header.flags.bits() == 0,
            p.packet_type == PacketType::NodeInfo,
            p.payload@ == seq![prefix(short_name.spec_bytes(), 4).len() as u8] + prefix(
                short_name.spec_bytes(),
                4,
            ) + seq![prefix(long_name.spec_bytes(), 40).len() as u8] + prefix(long_name.spec_bytes(), 40),
            fresh_packet(p),
    {
        let short_bytes = short_name.as_bytes_vec();
        let long_bytes = long_name.as_bytes_vec();
        let mut payload: Vec<u8> = Vec::new();
        push_counted_prefix(&mut payload, &short_bytes, 4);
        push_counted_prefix(&mut payload, &long_bytes, 40);
        MeshPacket {
            header: PacketHeader::broadcast(source, 3),
            packet_type: PacketType::NodeInfo,
            payload,
            mic: None,
            rx_rssi: None,
            rx_snr: None,
            rx_time: None,
        }
    }

    /// Get the unique identifier for duplicate detection: source and
    /// packet id.
    pub fn dedup_key(&self) -> (k: (NodeId, u16))
        ensures
            k == (self.header.source, self.header.packet_id),
    {
        (self.header.source, self.header.packet_id)
    }

    /// Check if this packet is addressed to us or broadcast
    pub fn is_for_node(&self, node_id: NodeId) -> (b: bool)
        ensures
            b == (self.header.destination.is_broadcast_spec() || self.header.destination == node_id),
    {
        let r = self.header.destination.is_broadcast() || self.header.destination == node_id;
        proof {
            if self.header.destination.bytes() == node_id.bytes() {
                NodeId::lemma_same_bytes(self.header.destination, node_id);
            }
        }
        r
    }

    /// Decrement hop limit, returns false if already zero
    pub fn decrement_hop_limit(&mut self) -> (b: bool)
        ensures
            b == (old(self).header.hop_limit > 0),
            final(self).header.hop_limit == (if b {
                (old(self).header.hop_limit - 1) as u8
            } else {
                0u8
            }),
            final(self).header.destination == old(self).header.destination,
            final(self).header.source == old(self).header.source,
            final(self).header.packet_id == old(self).header.packet_id,
            final(self).header.flags == old(self).header.flags,
            final(self).header.channel == old(self).header.channel,
            final(self).packet_type == old(self).packet_type,
            final(self).payload@ == old(self).payload@,
            final(self).mic == old(self).mic,
            final(self).rx_rssi == old(self).rx_rssi,
            final(self).rx_snr == old(self).rx_snr,
            final(self).rx_time == old(self).rx_time,
    {
        if self.header.hop_limit > 0 {
            self.header.hop_limit = self.header.hop_limit - 1;
            true
        } else {
            false
        }
    }

    /// Serialize the entire packet to bytes
    pub fn to_bytes(&self) -> (bytes: Vec<u8>)
        ensures
            bytes@ == packet_bytes(*self),
    {
        let mut bytes = self.header.to_bytes();
        bytes.push(self.packet_type.to_byte());
        let ghost head = bytes@;
        let mut i: usize = 0;
        while i < self.payload.len()
            invariant
                i <= self.payload.len(),
                bytes@ == head + self.payload@.subrange(0, i as int),
            decreases self.payload.len() - i,
        {
            bytes.push(self.payload[i]);
            i += 1;
        }
        proof {
            assert(self.payload@.subrange(0, self.payload.len() as int) =~= self.payload@);
        }
        match &self.mic {
            Some(m) => {
                bytes.push(m[0]);
                bytes.push(m[1]);
                bytes.push(m[2]);
                bytes.push(m[3]);
            },
            None => {},
        }
        proof {
            assert(bytes@ =~= packet_bytes(*self));
        }
        bytes
    }

    /// Deserialize a packet from bytes, the inverse of `to_bytes`: `None`
    /// below 13 bytes. The header comes from the first 12 bytes and the
    /// type from byte 12; the payload runs from byte 13 to the end, or to
    /// four bytes before it when the header says the packet is encrypted
    /// and at least 17 bytes came, in which case those four bytes are the
    /// integrity code.
    pub fn from_bytes(bytes: &[u8]) -> (r: Option<Self>)
        ensures
            r.is_some() <==> bytes.len() >= 13,
            r matches Some(p) ==> {
                let has_mic = packet_has_mic(bytes@);
                let end = packet_payload_end(bytes@);
                &&& p.header == header_from(bytes@)
                &&& p.packet_type == packet_type_of(bytes[12])
                &&& p.payload@ == bytes@.subrange(13, end)
                &&& p.mic == (if has_mic {
                    Some([bytes[end], bytes[end + 1], bytes[end + 2], bytes[end + 3]])
                } else {
                    None
                })
                &&& p.rx_rssi.is_none() && p.rx_snr.is_none() && p.rx_time.is_none()
            },
    {
        if bytes.len() < PacketHeader::SIZE + 1 {
            return None;
        }
        let header = match PacketHeader::from_bytes(bytes) {
            Some(h) => h,
            None => {
                return None;
            },
        };
        let packet_type = PacketType::from_byte(bytes[PacketHeader::SIZE]);
        let payload_start: usize = PacketHeader::SIZE + 1;
        let has_mic = header.flags.encrypted();
        let payload_end = if has_mic && bytes.len() >= payload_start + 4 {
            bytes.len() - 4
        } else {
            bytes.len()
        };
        let mut payload: Vec<u8> = Vec::new();
        if payload_start < payload_end {
            let mut i: usize = payload_start;
            while i < payload_end
                invariant
                    payload_start <= i <= payload_end,
                    payload_end <= bytes.len(),
                    payload@ == bytes@.subrange(payload_start as int, i as int),
                decreases payload_end - i,
            {
                payload.push(bytes[i]);
                i += 1;
            }
        }
        let mic = if has_mic && bytes.len() >= payload_start + 4 {
            let mic_start = bytes.len() - 4;
            Some([bytes[mic_start], bytes[mic_start + 1], bytes[mic_start + 2], bytes[mic_start + 3]])
        } else {
            None
        };
        proof {
            PacketFlags::lemma_of_bits(header.flags);
            assert(payload@ =~= bytes@.subrange(13, payload_end as int));
        }
        Some(
            MeshPacket {
                header,
                packet_type,
                payload,
                mic,
                rx_rssi: None,
                rx_snr: None,
                rx_time: None,
            },
        )
    }

    /// Set reception metadata: RSSI and SNR, and the time now.
    pub fn set_rx_metadata(&mut self, rssi: u32, snr: u32)
        ensures
            final(self).rx_rssi == Some(rssi),
            final(self).rx_snr == Some(snr),
            final(self).rx_time.is_some(),
            final(self).header == old(self).header,
            final(self).packet_type == old(self).packet_type,
            final(self).payload@ == old(self).payload@,
            final(self).mic == old(self).mic,
    {
        self.rx_rssi = Some(rssi);
        self.rx_snr = Some(snr);
        self.rx_time = Some(clock_secs());
    }
}


/// Whether serialized bytes carry an integrity code: the header's
/// encrypted flag is set and there is room for the code after the type.
pub open spec fn packet_has_mic(b: Seq<u8>) -> bool {
    b[11] & 0x20u8 != 0 && b.len() >= 17
}

/// Where the payload of serialized bytes ends.
pub open spec fn packet_payload_end(b: Seq<u8>) -> int {
    if packet_has_mic(b) {
        b.len() - 4
    } else {
        b.len() as int
    }
}

/// The header of a serialized packet reads back as the header, with
/// channel 0.
pub proof fn lemma_packet_header_roundtrip(p: MeshPacket)
    ensures
        packet_bytes(p).len() >= 13,
        header_from(packet_bytes(p)) == (PacketHeader { channel: 0, ..p.header }),
{
    let b = packet_bytes(p);
    let hb = header_bytes(p.header);
    assert(hb.len() == 12);
    assert forall|i: int| 0 <= i < 12 implies b[i] == hb[i] by {}
    assert(header_from(b) == header_from(hb));
    lemma_header_roundtrip(p.header);
}

/// Reading back a serialized packet gives the packet (channel 0, no
/// reception data): header, type, payload and integrity code, whenever the
/// packet carries a code exactly when its header says it is encrypted.
pub proof fn lemma_packet_roundtrip(p: MeshPacket)
    requires
        p.mic.is_some() == (p.header.flags.bits() & 0x20u8 != 0),
    ensures
        ({
            let b = packet_bytes(p);
            &&& b.len() >= 13
            &&& header_from(b) == (PacketHeader { channel: 0, ..p.header })
            &&& packet_type_of(b[12]) == p.packet_type
            &&& b.subrange(13, packet_payload_end(b)) == p.payload@
            &&& packet_has_mic(b) == p.mic.is_some()
            &&& (packet_has_mic(b) ==> Some(
                [b[b.len() - 4], b[b.len() - 3], b[b.len() - 2], b[b.len() - 1]],
            ) == p.mic)
        }),
{
    let b = packet_bytes(p);
    lemma_packet_header_roundtrip(p);
    lemma_packet_type_roundtrip(p.packet_type);
    let hb = header_bytes(p.header);
    assert(b[11] == hb[11]);
    assert(hb[11] == p.header.flags.bits());
    assert(b[12] == packet_type_byte(p.packet_type));
    match p.mic {
        Some(m) => {
            assert(b.len() == 13 + p.payload.len() + 4);
            assert(b.subrange(13, b.len() - 4) =~= p.payload@);
            assert([b[b.len() - 4], b[b.len() - 3], b[b.len() - 2], b[b.len() - 1]] =~= m);
        },
        None => {
            assert(b.subrange(13, b.len() as int) =~= p.payload@);
        },
    }
}

/// Packet types for different message categories
#[derive(Debug, Clone, Copy, PartialEq, Eq, Structural)]
pub enum PacketType {
    /// Text message (0)
    Text,
    /// Position data (1)
    Position,
    /// Node information (2)
    NodeInfo,
    /// Routing control (3)
    Routing,
    /// Acknowledgment (4)
    Ack,
    /// Telemetry data (5)
    Telemetry,
    /// Channel configuration (6)
    Channel,
    /// Administrative control (7)
    Admin,
    /// Custom/user application (255)
    Custom,
}

/// The wire value of each packet type.
pub open spec fn packet_type_byte(t: PacketType) -> u8 {
    match t {
        PacketType::Text => 0,
        PacketType::Position => 1,
        PacketType::NodeInfo => 2,
        PacketType::Routing => 3,
        PacketType::Ack => 4,
        PacketType::Telemetry => 5,
        PacketType::Channel => 6,
        PacketType::Admin => 7,
        PacketType::Custom => 255,
    }
}

/// The packet type of a wire value; unknown values are `Custom`.
pub open spec fn packet_type_of(byte: u8) -> PacketType {
    if byte == 0 {
        PacketType::Text
    } else if byte == 1 {
        PacketType::Position
    } else if byte == 2 {
        PacketType::NodeInfo
    } else if byte == 3 {
        PacketType::Routing
    } else if byte == 4 {
        PacketType::Ack
    } else if byte == 5 {
        PacketType::Telemetry
    } else if byte == 6 {
        PacketType::Channel
    } else if byte == 7 {
        PacketType::Admin
    } else {
        PacketType::Custom
    }
}

impl PacketType {
    /// Create from byte value; unknown values are `Custom`.
    pub fn from_byte(byte: u8) -> (t: Self)
        ensures
            t == packet_type_of(byte),
            byte == 0 ==> t == PacketType::Text,
            byte == 1 ==> t == PacketType::Position,
            byte == 2 ==> t == PacketType::NodeInfo,
            byte == 3 ==> t == PacketType::Routing,
            byte == 4 ==> t == PacketType::Ack,
            byte == 5 ==> t == PacketType::Telemetry,
            byte == 6 ==> t == PacketType::Channel,
            byte == 7 ==> t == PacketType::Admin,
            byte > 7 ==> t == PacketType::Custom,
    {
        match byte {
            0 => PacketType::Text,
            1 => PacketType::Position,
            2 => PacketType::NodeInfo,
            3 => PacketType::Routing,
            4 => PacketType::Ack,
            5 => PacketType::Telemetry,
            6 => PacketType::Channel,
            7 => PacketType::Admin,
            _ => PacketType::Custom,
        }
    }

    /// The wire value of the packet type.
    pub fn to_byte(&self) -> (b: u8)
        ensures
            b == packet_type_byte(*self),
            *self == PacketType::Text ==> b == 0,
            *self == PacketType::Position ==> b == 1,
            *self == PacketType::NodeInfo ==> b == 2,
            *self == PacketType::Routing ==> b == 3,
            *self == PacketType::Ack ==> b == 4,
            *self == PacketType::Telemetry ==> b == 5,
            *self == PacketType::Channel ==> b == 6,
            *self == PacketType::Admin ==> b == 7,
            *self == PacketType::Custom ==> b == 255,
    {
        match self {
            PacketType::Text => 0,
            PacketType::Position => 1,
            PacketType::NodeInfo => 2,
            PacketType::Routing => 3,
            PacketType::Ack => 4,
            PacketType::Telemetry => 5,
            PacketType::Channel => 6,
            PacketType::Admin => 7,
            PacketType::Custom => 255,
        }
    }
}

/// The wire values of the packet types: Text 0, Position 1, NodeInfo 2,
/// Routing 3, Ack 4, Telemetry 5, Channel 6, Admin 7, Custom 255; read back,
/// 0 to 7 give those types and anything else is Custom.
pub proof fn lemma_packet_type_wire_values(byte: u8)
    ensures
        packet_type_byte(PacketType::Text) == 0,
        packet_type_byte(PacketType::Position) == 1,
        packet_type_byte(PacketType::NodeInfo) == 2,
        packet_type_byte(PacketType::Routing) == 3,
        packet_type_byte(PacketType::Ack) == 4,
        packet_type_byte(PacketType::Telemetry) == 5,
        packet_type_byte(PacketType::Channel) == 6,
        packet_type_byte(PacketType::Admin) == 7,
        packet_type_byte(PacketType::Custom) == 255,
        packet_type_of(0) == PacketType::Text,
        packet_type_of(1) == PacketType::Position,
        packet_type_of(2) == PacketType::NodeInfo,
        packet_type_of(3) == PacketType::Routing,
        packet_type_of(4) == PacketType::Ack,
        packet_type_of(5) == PacketType::Telemetry,
        packet_type_of(6) == PacketType::Channel,
        packet_type_of(7) == PacketType::Admin,
        byte > 7 ==> packet_type_of(byte) == PacketType::Custom,
{
}

/// Every packet type survives the trip to its wire value and back.
pub proof fn lemma_packet_type_roundtrip(t: PacketType)
    ensures
        packet_type_of(packet_type_byte(t)) == t,
{
}

/// CRC-16-CCITT for packet integrity
pub fn crc16_ccitt(data: &[u8]) -> (crc: u16)
    ensures
        crc == crc16_ccitt_spec(data@),
{
    crate::crc::crc16_ccitt(data)
}

} // verus!
