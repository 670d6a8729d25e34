//! Meshtastic configuration: modem presets, regional frequency plans and
//! channel settings.

use vstd::prelude::*;
use vstd::utf8::encode_utf8;

use crate::mesh::crypto::{sha256_digest, ChannelKey, CryptoContext, DEFAULT_PSK};
use crate::mesh::packet::NodeId;
use crate::mesh::telemetry::TelemetryConfig;

verus! {

/// Meshtastic modem presets
#[derive(Debug, Clone, Copy, PartialEq, Eq, Structural)]
pub enum ModemPreset {
    /// Long range, fast: SF11, BW250, CR4/5
    LongFast,
    /// Long range, slow (maximum range): SF12, BW125, CR4/8
    LongSlow,
    /// Long range, moderate: SF11, BW125, CR4/8
    LongModerate,
    /// Medium range, fast: SF9, BW250, CR4/5
    MediumFast,
    /// Medium range, slow: SF10, BW250, CR4/5
    MediumSlow,
    /// Short range, fast (highest throughput): SF7, BW250, CR4/5
    ShortFast,
    /// Short range, slow: SF8, BW250, CR4/5
    ShortSlow,
}

/// The LoRa parameters `(spreading factor, bandwidth in Hz, coding rate
/// denominator)` of each preset.
pub open spec fn preset_params(p: ModemPreset) -> (u8, u32, u8) {
    match p {
        ModemPreset::LongFast => (11, 250_000, 5),
        ModemPreset::LongSlow => (12, 125_000, 8),
        ModemPreset::LongModerate => (11, 125_000, 8),
        ModemPreset::MediumFast => (9, 250_000, 5),
        ModemPreset::MediumSlow => (10, 250_000, 5),
        ModemPreset::ShortFast => (7, 250_000, 5),
        ModemPreset::ShortSlow => (8, 250_000, 5),
    }
}

impl ModemPreset {
    /// Get LoRa parameters for this preset
    pub fn lora_params(&self) -> (r: (u8, u32, u8))
        ensures
            r == preset_params(*self),
    {
        match self {
            ModemPreset::LongFast => (11, 250_000, 5),
            ModemPreset::LongSlow => (12, 125_000, 8),
            ModemPreset::LongModerate => (11, 125_000, 8),
            ModemPreset::MediumFast => (9, 250_000, 5),
            ModemPreset::MediumSlow => (10, 250_000, 5),
            ModemPreset::ShortFast => (7, 250_000, 5),
            ModemPreset::ShortSlow => (8, 250_000, 5),
        }
    }

    /// Get the sync word for Meshtastic (0x2B)
    pub fn sync_word() -> (w: u8)
        ensures
            w == 0x2B,
    {
        0x2B
    }

    /// Get preamble length (16 symbols)
    pub fn preamble_length() -> (n: u8)
        ensures
            n == 16,
    {
        16
    }
}

impl Default for ModemPreset {
    fn default() -> (p: Self)
        ensures
            p == ModemPreset::LongFast,
    {
        ModemPreset::LongFast
    }
}

/// Regional frequency configuration
#[derive(Debug, Clone, Copy, PartialEq, Eq, Structural)]
pub enum Region {
    /// US (902-928 MHz)
    US,
    /// EU (863-870 MHz)
    EU,
    /// China (470-510 MHz)
    CN,
    /// Japan (920-925 MHz)
    JP,
    /// Australia/New Zealand (915-928 MHz)
    ANZ,
    /// Korea (920-923 MHz)
    KR,
    /// Taiwan (920-925 MHz)
    TW,
    /// India (865-867 MHz)
    IN,
    /// Unset (use EU defaults)
    Unset,
}

/// The frequency band `(start, end)` in Hz of each region.
pub open spec fn region_band(r: Region) -> (u64, u64) {
    match r {
        Region::US => (902_000_000, 928_000_000),
        Region::EU | Region::Unset => (863_000_000, 870_000_000),
        Region::CN => (470_000_000, 510_000_000),
        Region::JP => (920_000_000, 925_000_000),
        Region::ANZ => (915_000_000, 928_000_000),
        Region::KR => (920_000_000, 923_000_000),
        Region::TW => (920_000_000, 925_000_000),
        Region::IN => (865_000_000, 867_000_000),
    }
}

impl Region {
    /// Get frequency range for region
    pub fn frequency_range(&self) -> (r: (u64, u64))
        ensures
            r == region_band(*self),
    {
        match self {
            Region::US => (902_000_000, 928_000_000),
            Region::EU | Region::Unset => (863_000_000, 870_000_000),
            Region::CN => (470_000_000, 510_000_000),
            Region::JP => (920_000_000, 925_000_000),
            Region::ANZ => (915_000_000, 928_000_000),
            Region::KR => (920_000_000, 923_000_000),
            Region::TW => (920_000_000, 925_000_000),
            Region::IN => (865_000_000, 867_000_000),
        }
    }

    /// Get default primary frequency: the middle of the band.
    pub fn primary_frequency(&self) -> (f: u64)
        ensures
            f == (region_band(*self).0 + region_band(*self).1) / 2,
            region_band(*self).0 <= f <= region_band(*self).1,
    {
        let (start, end) = self.frequency_range();
        (start + end) / 2
    }
}

impl Default for Region {
    fn default() -> (r: Self)
        ensures
            r == Region::US,
    {
        Region::US
    }
}

/// The wrapping sum of a byte string.
pub open spec fn byte_sum(b: Seq<u8>) -> u8
    decreases b.len(),
{
    if b.len() == 0 {
        0
    } else {
        ((byte_sum(b.drop_last()) + b.last()) % 256) as u8
    }
}

/// The default PSK extended with zeros to 32 bytes.
pub open spec fn default_psk_32() -> Seq<u8> {
    DEFAULT_PSK@ + Seq::new(16, |i: int| 0u8)
}

/// Channel configuration
#[derive(Debug, Clone)]
pub struct ChannelConfig {
    /// Channel name
    pub name: String,
    /// Pre-shared key (32 bytes, None for unencrypted)
    pub psk: Option<[u8; 32]>,
    /// Modem preset
    pub preset: ModemPreset,
    /// Uplink enabled (MQTT gateway)
    pub uplink_enabled: bool,
    /// Downlink enabled (receive from MQTT)
    pub downlink_enabled: bool,
}

impl ChannelConfig {
    /// Create a new channel configuration
    pub fn new(name: &str, preset: ModemPreset) -> (c: Self)
        ensures
            c.name@ == name@,
            c.psk.is_none(),
            c.preset == preset,
            !c.uplink_enabled,
            !c.downlink_enabled,
    {
        ChannelConfig {
            name: name.to_owned(),
            psk: None,
            preset,
            uplink_enabled: false,
            downlink_enabled: false,
        }
    }

    /// Create an encrypted channel with the given PSK
    pub fn with_psk(name: &str, psk: [u8; 32], preset: ModemPreset) -> (c: Self)
        ensures
            c.name@ == name@,
            c.psk == Some(psk),
            c.preset == preset,
            !c.uplink_enabled,
            !c.downlink_enabled,
    {
        ChannelConfig {
            name: name.to_owned(),
            psk: Some(psk),
            preset,
            uplink_enabled: false,
            downlink_enabled: false,
        }
    }

    /// Create an encrypted channel using the default Meshtastic PSK
    /// (extended with zeros to 32 bytes)
    pub fn with_default_psk(name: &str, preset: ModemPreset) -> (c: Self)
        ensures
            c.name@ == name@,
            c.psk.is_some() && c.psk.unwrap()@ == default_psk_32(),
            c.preset == preset,
            !c.uplink_enabled,
            !c.downlink_enabled,
    {
        let mut psk: [u8; 32] = [0u8; 32];
        let d = DEFAULT_PSK;
        let mut i: usize = 0;
        while i < 16
            invariant
                i <= 16,
                d@ == DEFAULT_PSK@,
                d@.len() == 16,
                forall|q: int| 0 <= q < i ==> #[trigger] psk@[q] == d@[q],
                forall|q: int| i <= q < 32 ==> #[trigger] psk@[q] == 0u8,
            decreases 16 - i,
        {
            psk.set(i, d[i]);
            i += 1;
        }
        proof {
            assert(psk@ =~= default_psk_32());
        }
        Self::with_psk(name, psk, preset)
    }

    /// Check if this channel uses encryption
    pub fn is_encrypted(&self) -> (b: bool)
        ensures
            b == self.psk.is_some(),
    {
        self.psk.is_some()
    }

    /// Create a CryptoContext for this channel (if encrypted): the PSK is
    /// the raw key.
    pub fn crypto_context(&self) -> (c: Option<CryptoContext>)
        ensures
            c.is_some() == self.psk.is_some(),
            c matches Some(ctx) ==> ctx.key_bytes() == self.psk.unwrap()@ && ctx.name() == self.name@,
    {
        match self.psk {
            Some(psk) => {
                let key = ChannelKey::from_raw(psk, self.name.as_str());
                Some(CryptoContext::from_key(key))
            },
            None => None,
        }
    }

    /// Get channel hash for wire format: the first byte of the SHA-256 of
    /// the name on an encrypted channel, else the wrapping sum of the name's
    /// bytes.
    pub fn channel_hash(&self) -> (h: u8)
        ensures
            self.psk.is_some() ==> h == sha256_digest(encode_utf8(self.name@))[0],
            self.psk.is_none() ==> h == byte_sum(encode_utf8(self.name@)),
    {
        match self.crypto_context() {
            Some(ctx) => ctx.channel_hash(),
            None => {
                let b = self.name.as_str().as_bytes();
                let mut acc: u8 = 0;
                let mut i: usize = 0;
                while i < b.len()
                    invariant
                        i <= b.len(),
                        acc == byte_sum(b@.subrange(0, i as int)),
                    decreases b.len() - i,
                {
                    proof {
                        assert(b@.subrange(0, i + 1).drop_last() =~= b@.subrange(0, i as int));
                    }
                    acc = acc.wrapping_add(b[i]);
                    i += 1;
                }
                proof {
                    assert(b@.subrange(0, b.len() as int) =~= b@);
                }
                acc
            },
        }
    }
}

impl Default for ChannelConfig {
    /// The public "LongFast" channel: no PSK, LongFast preset, no MQTT.
    fn default() -> (c: Self)
        ensures
            c.name@ == "LongFast"@,
            c.psk.is_none(),
            c.preset == ModemPreset::LongFast,
            !c.uplink_enabled,
            !c.downlink_enabled,
    {
        ChannelConfig {
            name: "LongFast".to_owned(),
            psk: None,
            preset: ModemPreset::LongFast,
            uplink_enabled: false,
            downlink_enabled: false,
        }
    }
}

/// Meshtastic node configuration
#[derive(Debug, Clone)]
pub struct MeshtasticConfig {
    /// Node ID (random if None)
    pub node_id: Option<NodeId>,
    /// Short name (up to 4 chars)
    pub short_name: String,
    /// Long name (up to 40 chars)
    pub long_name: String,
    /// Hardware model ID
    pub hardware_model: u8,
    /// Region for frequency selection
    pub region: Region,
    /// Primary channel configuration
    pub primary_channel: ChannelConfig,
    /// Secondary channels (up to 7)
    pub secondary_channels: Vec<ChannelConfig>,
    /// Position sharing enabled
    pub position_enabled: bool,
    /// Position update interval (seconds)
    pub position_interval: u64,
    /// Node is a router (longer range settings)
    pub is_router: bool,
    /// Hop limit for broadcasts
    pub hop_limit: u8,
    /// Telemetry configuration
    pub telemetry: TelemetryConfig,
    /// Enable encryption on primary channel
    pub encryption_enabled: bool,
}

impl Default for MeshtasticConfig {
    /// A node named "NODE" / "R4W Node", custom hardware, US region, the
    /// default channel, positions off (every 15 minutes when on), hop
    /// limit 3, default telemetry, no encryption.
    fn default() -> (c: Self)
        ensures
            c.node_id.is_none(),
            c.short_name@ == "NODE"@,
            c.long_name@ == "R4W Node"@,
            c.hardware_model == 0xFF,
            c.region == Region::US,
            c.primary_channel.name@ == "LongFast"@ && c.primary_channel.psk.is_none()
                && c.primary_channel.preset == ModemPreset::LongFast,
            c.secondary_channels@.len() == 0,
            !c.position_enabled,
            c.position_interval == 900,
            !c.is_router,
            c.hop_limit == 3,
            c.telemetry == (TelemetryConfig {
                device_update_interval: 900,
                environment_update_interval: 900,
                power_update_interval: 0,
            }),
            !c.encryption_enabled,
    {
        MeshtasticConfig {
            node_id: None,
            short_name: "NODE".to_owned(),
            long_name: "R4W Node".to_owned(),
            hardware_model: 0xFF,
            region: Region::default(),
            primary_channel: ChannelConfig::default(),
            secondary_channels: Vec::new(),
            position_enabled: false,
            position_interval: 900,
            is_router: false,
            hop_limit: 3,
            telemetry: TelemetryConfig::default(),
            encryption_enabled: false,
        }
    }
}

/// The LoRa parameters of the Meshtastic presets: spreading factor,
/// bandwidth and coding rate denominator, for every preset.
pub proof fn lemma_preset_values()
    ensures
        preset_params(ModemPreset::LongFast) == (11u8, 250_000u32, 5u8),
        preset_params(ModemPreset::LongSlow) == (12u8, 125_000u32, 8u8),
        preset_params(ModemPreset::LongModerate) == (11u8, 125_000u32, 8u8),
        preset_params(ModemPreset::MediumFast) == (9u8, 250_000u32, 5u8),
        preset_params(ModemPreset::MediumSlow) == (10u8, 250_000u32, 5u8),
        preset_params(ModemPreset::ShortFast) == (7u8, 250_000u32, 5u8),
        preset_params(ModemPreset::ShortSlow) == (8u8, 250_000u32, 5u8),
        forall|p: ModemPreset| 7 <= #[trigger] preset_params(p).0 <= 12 && 5 <= preset_params(p).2 <= 8,
{
}

/// The frequency bands of the regions, in Hz; every band is a proper
/// interval, and an unset region uses the EU band.
pub proof fn lemma_region_bands()
    ensures
        region_band(Region::US) == (902_000_000u64, 928_000_000u64),
        region_band(Region::EU) == (863_000_000u64, 870_000_000u64),
        region_band(Region::CN) == (470_000_000u64, 510_000_000u64),
        region_band(Region::JP) == (920_000_000u64, 925_000_000u64),
        region_band(Region::ANZ) == (915_000_000u64, 928_000_000u64),
        region_band(Region::KR) == (920_000_000u64, 923_000_000u64),
        region_band(Region::TW) == (920_000_000u64, 925_000_000u64),
        region_band(Region::IN) == (865_000_000u64, 867_000_000u64),
        region_band(Region::Unset) == region_band(Region::EU),
        forall|r: Region| (#[trigger] region_band(r)).0 < region_band(r).1,
{
}
} // verus!
