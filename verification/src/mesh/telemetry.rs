//! Meshtastic telemetry: device, environment and power metrics, their
//! byte format, and the reporting configuration.
//!
//! Measurements that are single-precision floats are held as their IEEE 754
//! bit patterns (`f32::to_bits`), so the byte format is handled exactly.

use vstd::prelude::*;

use crate::mesh::traceroute::{le32_at, le4, lemma_le4_roundtrip, push_le32, read_le32};

verus! {


/// Seconds since the Unix epoch, zero if the clock is before the epoch
/// (`SystemTime::now().duration_since(UNIX_EPOCH)`, `as_secs`). Nothing is
/// stated of the value: it depends on the clock.
#[verifier::external_body]
fn clock_unix_secs() -> u64 {
    std::time::SystemTime::now().duration_since(std::time::UNIX_EPOCH).map(|d| d.as_secs()).unwrap_or(0)
}

/// The bit pattern written for an absent measurement: the quiet NaN.
pub const NAN_BITS: u32 = 0x7FC0_0000;

/// Whether a single-precision bit pattern is a NaN: every exponent bit set
/// and a nonzero fraction.
pub open spec fn is_nan_bits(b: u32) -> bool {
    (b & 0x7F80_0000u32) == 0x7F80_0000u32 && (b & 0x007F_FFFFu32) != 0
}

/// Whether a single-precision bit pattern is a NaN.
pub fn f32_bits_is_nan(b: u32) -> (r: bool)
    ensures
        r == is_nan_bits(b),
{
    (b & 0x7F80_0000) == 0x7F80_0000 && (b & 0x007F_FFFF) != 0
}

/// The four bytes written for an optional measurement.
pub open spec fn opt_f32_bytes(v: Option<u32>) -> Seq<u8> {
    le4(
        match v {
            Some(b) => b,
            None => NAN_BITS,
        },
    )
}

/// The optional measurement read from a bit pattern: absent when NaN.
pub open spec fn opt_f32_of(b: u32) -> Option<u32> {
    if is_nan_bits(b) {
        None
    } else {
        Some(b)
    }
}

/// A measurement as it survives the byte format: a NaN reads back absent.
pub open spec fn normal_f32(v: Option<u32>) -> Option<u32> {
    match v {
        Some(b) => opt_f32_of(b),
        None => None,
    }
}

/// Device metrics telemetry
///
/// Reports battery status, radio utilization, and uptime.
/// Sent periodically by nodes to their neighbors. Voltage and the two
/// utilizations are `f32` bit patterns.
#[derive(Debug, Clone, Copy, PartialEq, Eq, Structural)]
pub struct DeviceMetrics {
    /// Battery level (0-100%); None if device is powered externally
    pub battery_level: Option<u8>,
    /// Battery/supply voltage in volts
    pub voltage: Option<u32>,
    /// Channel utilization (0.0-1.0)
    pub channel_utilization: Option<u32>,
    /// TX airtime utilization (0.0-1.0)
    pub air_util_tx: Option<u32>,
    /// Uptime in seconds since boot
    pub uptime_seconds: Option<u32>,
}

impl Default for DeviceMetrics {
    /// No measurement present.
    fn default() -> (m: Self)
        ensures
            m == (DeviceMetrics {
                battery_level: None,
                voltage: None,
                channel_utilization: None,
                air_util_tx: None,
                uptime_seconds: None,
            }),
    {
        DeviceMetrics {
            battery_level: None,
            voltage: None,
            channel_utilization: None,
            air_util_tx: None,
            uptime_seconds: None,
        }
    }
}

impl DeviceMetrics {
    /// Create new device metrics with all fields populated
    pub fn new(
        battery_level: Option<u8>,
        voltage: Option<u32>,
        channel_utilization: Option<u32>,
        air_util_tx: Option<u32>,
        uptime_seconds: Option<u32>,
    ) -> (m: Self)
        ensures
            m == (DeviceMetrics { battery_level, voltage, channel_utilization, air_util_tx, uptime_seconds }),
    {
        DeviceMetrics { battery_level, voltage, channel_utilization, air_util_tx, uptime_seconds }
    }

    /// Check if battery is low (below threshold)
    pub fn is_battery_low(&self, threshold: u8) -> (low: bool)
        ensures
            low == (self.battery_level matches Some(l) && l < threshold),
    {
        match self.battery_level {
            Some(l) => l < threshold,
            None => false,
        }
    }
}

/// Environment sensor metrics
///
/// Data from environmental sensors (BME280, BME680, SHT31, etc.). The
/// measurements other than the air quality index and the wind direction
/// are `f32` bit patterns.
#[derive(Debug, Clone, Copy, PartialEq, Eq, Structural)]
pub struct EnvironmentMetrics {
    /// Temperature in Celsius
    pub temperature: Option<u32>,
    /// Relative humidity (0-100%)
    pub relative_humidity: Option<u32>,
    /// Barometric pressure in hPa (hectopascals)
    pub barometric_pressure: Option<u32>,
    /// Gas resistance in ohms (BME680); higher values indicate cleaner air
    pub gas_resistance: Option<u32>,
    /// Indoor Air Quality index (BME680)
    pub iaq: Option<u16>,
    /// Distance measurement in meters (ultrasonic/lidar sensors)
    pub distance: Option<u32>,
    /// Illuminance in lux
    pub lux: Option<u32>,
    /// UV index
    pub uv_index: Option<u32>,
    /// Wind speed in m/s
    pub wind_speed: Option<u32>,
    /// Wind direction in degrees (0-360)
    pub wind_direction: Option<u16>,
    /// Weight measurement in kg
    pub weight: Option<u32>,
}

/// Environment metrics with the weather readings given and nothing else.
pub open spec fn weather(
    temperature: Option<u32>,
    relative_humidity: Option<u32>,
    barometric_pressure: Option<u32>,
) -> EnvironmentMetrics {
    EnvironmentMetrics {
        temperature,
        relative_humidity,
        barometric_pressure,
        gas_resistance: None,
        iaq: None,
        distance: None,
        lux: None,
        uv_index: None,
        wind_speed: None,
        wind_direction: None,
        weight: None,
    }
}

impl Default for EnvironmentMetrics {
    /// No measurement present.
    fn default() -> (m: Self)
        ensures
            m == weather(None, None, None),
    {
        EnvironmentMetrics {
            temperature: None,
            relative_humidity: None,
            barometric_pressure: None,
            gas_resistance: None,
            iaq: None,
            distance: None,
            lux: None,
            uv_index: None,
            wind_speed: None,
            wind_direction: None,
            weight: None,
        }
    }
}

impl EnvironmentMetrics {
    /// Create new environment metrics
    pub fn new() -> (m: Self)
        ensures
            m == weather(None, None, None),
    {
        Self::default()
    }

    /// Create with temperature only
    pub fn with_temperature(temp: u32) -> (m: Self)
        ensures
            m == weather(Some(temp), None, None),
    {
        let mut m = Self::default();
        m.temperature = Some(temp);
        m
    }

    /// Create with basic weather data (temp, humidity, pressure)
    pub fn with_weather(temp: u32, humidity: u32, pressure: u32) -> (m: Self)
        ensures
            m == weather(Some(temp), Some(humidity), Some(pressure)),
    {
        let mut m = Self::default();
        m.temperature = Some(temp);
        m.relative_humidity = Some(humidity);
        m.barometric_pressure = Some(pressure);
        m
    }
}

/// Power channel measurement
///
/// Single channel measurement from a power monitoring IC (INA219/INA3221);
/// voltage and current are `f32` bit patterns.
#[derive(Debug, Clone, Copy, PartialEq, Eq, Structural)]
pub struct PowerChannel {
    /// Channel number (0-indexed)
    pub channel: u8,
    /// Voltage in volts
    pub voltage: Option<u32>,
    /// Current in milliamps
    pub current: Option<u32>,
}

impl Default for PowerChannel {
    /// Channel zero, no measurement.
    fn default() -> (c: Self)
        ensures
            c == (PowerChannel { channel: 0, voltage: None, current: None }),
    {
        PowerChannel { channel: 0, voltage: None, current: None }
    }
}

impl PowerChannel {
    /// Create a new power channel measurement
    pub fn new(channel: u8, voltage: Option<u32>, current: Option<u32>) -> (c: Self)
        ensures
            c == (PowerChannel { channel, voltage, current }),
    {
        PowerChannel { channel, voltage, current }
    }
}

/// Power metrics telemetry
///
/// Multi-channel power measurements for monitoring battery,
/// solar panels, and other power sources.
#[derive(Debug, Clone, PartialEq)]
pub struct PowerMetrics {
    /// Power channel measurements
    pub channels: Vec<PowerChannel>,
}

impl Default for PowerMetrics {
    /// No channel.
    fn default() -> (m: Self)
        ensures
            m.channels@ == Seq::<PowerChannel>::empty(),
    {
        PowerMetrics { channels: Vec::new() }
    }
}

impl PowerMetrics {
    /// Create new power metrics
    pub fn new() -> (m: Self)
        ensures
            m.channels@ == Seq::<PowerChannel>::empty(),
    {
        PowerMetrics { channels: Vec::new() }
    }

    /// Create with a single channel
    pub fn with_channel(channel: PowerChannel) -> (m: Self)
        ensures
            m.channels@ == seq![channel],
    {
        PowerMetrics { channels: vec![channel] }
    }

    /// Add a channel measurement
    pub fn add_channel(&mut self, channel: PowerChannel)
        ensures
            final(self).channels@ == old(self).channels@.push(channel),
    {
        self.channels.push(channel);
    }
}

/// Telemetry variant
///
/// Enumeration of all supported telemetry message types.
#[derive(Debug, Clone, PartialEq)]
pub enum TelemetryVariant {
    /// Device metrics (battery, utilization, uptime)
    Device(DeviceMetrics),
    /// Environment metrics (temperature, humidity, etc.)
    Environment(EnvironmentMetrics),
    /// Power metrics (voltage, current measurements)
    Power(PowerMetrics),
}

/// Telemetry message
///
/// Container for telemetry data with timestamp.
#[derive(Debug, Clone, PartialEq)]
pub struct Telemetry {
    /// Timestamp (seconds since Unix epoch)
    pub time: u32,
    /// Telemetry data variant
    pub variant: TelemetryVariant,
}


/// The bytes of one power channel: its number, voltage and current.
pub open spec fn channel_bytes(ch: PowerChannel) -> Seq<u8> {
    seq![ch.channel] + opt_f32_bytes(ch.voltage) + opt_f32_bytes(ch.current)
}

/// The bytes of a list of power channels, one after another.
pub open spec fn channels_bytes(chs: Seq<PowerChannel>) -> Seq<u8>
    decreases chs.len(),
{
    if chs.len() == 0 {
        seq![]
    } else {
        channels_bytes(chs.drop_last()) + channel_bytes(chs.last())
    }
}

/// The byte format: a type byte (0 device, 1 environment, 2 power), the
/// timestamp as four little-endian bytes, then the variant's fields.
/// Absent measurements are written as NaN, an absent battery level as
/// 0xFF and an absent uptime as zero; of the environment, only temperature,
/// humidity and pressure are written; power writes its channel count as a
/// byte and nine bytes per channel.
pub open spec fn telemetry_bytes(time: u32, variant: TelemetryVariant) -> Seq<u8> {
    match variant {
        TelemetryVariant::Device(m) => seq![0u8] + le4(time) + seq![
            match m.battery_level {
                Some(l) => l,
                None => 0xFFu8,
            },
        ] + opt_f32_bytes(m.voltage) + opt_f32_bytes(m.channel_utilization) + opt_f32_bytes(
            m.air_util_tx,
        ) + le4(
            match m.uptime_seconds {
                Some(u) => u,
                None => 0u32,
            },
        ),
        TelemetryVariant::Environment(m) => seq![1u8] + le4(time) + opt_f32_bytes(m.temperature)
            + opt_f32_bytes(m.relative_humidity) + opt_f32_bytes(m.barometric_pressure),
        TelemetryVariant::Power(m) => seq![2u8] + le4(time) + seq![m.channels.len() as u8]
            + channels_bytes(m.channels@),
    }
}

/// The power channel read at `off`.
pub open spec fn channel_at(b: Seq<u8>, off: int) -> PowerChannel {
    PowerChannel {
        channel: b[off],
        voltage: opt_f32_of(le32_at(b, off + 1)),
        current: opt_f32_of(le32_at(b, off + 5)),
    }
}

/// How many power channels a message of `len` bytes announcing `n` holds:
/// as many whole nine-byte channels as follow the header, at most `n`.
pub open spec fn channels_read(n: int, len: int) -> int {
    if n < (len - 6) / 9 {
        n
    } else {
        (len - 6) / 9
    }
}

/// Whether `data` is long enough for the variant its type byte names.
pub open spec fn telemetry_parses(data: Seq<u8>) -> bool {
    &&& data.len() >= 5
    &&& (data[0] == 0 && data.len() >= 22 || data[0] == 1 && data.len() >= 17 || data[0] == 2
        && data.len() >= 6)
}

/// Append an optional measurement, NaN when absent.
fn push_opt_f32(bytes: &mut Vec<u8>, v: Option<u32>)
    ensures
        final(bytes)@ == old(bytes)@ + opt_f32_bytes(v),
{
    match v {
        Some(b) => push_le32(bytes, b),
        None => push_le32(bytes, NAN_BITS),
    }
}

/// Read an optional measurement: absent when the bits are a NaN.
fn read_opt_f32(data: &[u8], off: usize) -> (v: Option<u32>)
    requires
        off + 4 <= data.len(),
    ensures
        v == opt_f32_of(le32_at(data@, off as int)),
{
    let b = read_le32(data, off);
    if f32_bits_is_nan(b) {
        None
    } else {
        Some(b)
    }
}

impl Telemetry {
    /// Create a new telemetry message stamped with the current time
    /// (seconds since the Unix epoch, zero if the clock is before it).
    pub fn new(variant: TelemetryVariant) -> (t: Self)
        ensures
            t.variant == variant,
    {
        let time = Self::timestamp_from_secs(clock_unix_secs());
        Telemetry { time, variant }
    }

    /// The timestamp a clock reading in seconds gives: its low 32 bits.
    pub fn timestamp_from_secs(secs: u64) -> (t: u32)
        ensures
            t == (secs % 0x1_0000_0000) as u32,
    {
        (secs % 0x1_0000_0000) as u32
    }

    /// Create a telemetry message with specific timestamp
    pub fn with_time(time: u32, variant: TelemetryVariant) -> (t: Self)
        ensures
            t.time == time,
            t.variant == variant,
    {
        Telemetry { time, variant }
    }

    /// Create device telemetry
    pub fn device(metrics: DeviceMetrics) -> (t: Self)
        ensures
            t.variant == TelemetryVariant::Device(metrics),
    {
        Self::new(TelemetryVariant::Device(metrics))
    }

    /// Create environment telemetry
    pub fn environment(metrics: EnvironmentMetrics) -> (t: Self)
        ensures
            t.variant == TelemetryVariant::Environment(metrics),
    {
        Self::new(TelemetryVariant::Environment(metrics))
    }

    /// Create power telemetry
    pub fn power(metrics: PowerMetrics) -> (t: Self)
        ensures
            t.variant == TelemetryVariant::Power(metrics),
    {
        Self::new(TelemetryVariant::Power(metrics))
    }

    /// Get device metrics if this is a device telemetry message
    pub fn as_device(&self) -> (r: Option<&DeviceMetrics>)
        ensures
            match self.variant {
                TelemetryVariant::Device(m) => r == Some(&m),
                _ => r.is_none(),
            },
    {
        match &self.variant {
            TelemetryVariant::Device(m) => Some(m),
            _ => None,
        }
    }

    /// Get environment metrics if this is an environment telemetry message
    pub fn as_environment(&self) -> (r: Option<&EnvironmentMetrics>)
        ensures
            match self.variant {
                TelemetryVariant::Environment(m) => r == Some(&m),
                _ => r.is_none(),
            },
    {
        match &self.variant {
            TelemetryVariant::Environment(m) => Some(m),
            _ => None,
        }
    }

    /// Get power metrics if this is a power telemetry message
    pub fn as_power(&self) -> (r: Option<&PowerMetrics>)
        ensures
            match self.variant {
                TelemetryVariant::Power(m) => r == Some(&m),
                _ => r.is_none(),
            },
    {
        match &self.variant {
            TelemetryVariant::Power(m) => Some(m),
            _ => None,
        }
    }
}


impl Telemetry {
    /// Serialize telemetry to bytes
    ///
    /// Format:
    /// - Byte 0: Variant type (0=Device, 1=Environment, 2=Power)
    /// - Bytes 1-4: Timestamp (little-endian u32)
    /// - Remaining: Variant-specific data
    pub fn to_bytes(&self) -> (bytes: Vec<u8>)
        ensures
            bytes@ == telemetry_bytes(self.time, self.variant),
    {
        let mut bytes: Vec<u8> = Vec::new();
        match &self.variant {
            TelemetryVariant::Device(m) => {
                bytes.push(0);
                push_le32(&mut bytes, self.time);
                bytes.push(
                    match m.battery_level {
                        Some(l) => l,
                        None => 0xFF,
                    },
                );
                push_opt_f32(&mut bytes, m.voltage);
                push_opt_f32(&mut bytes, m.channel_utilization);
                push_opt_f32(&mut bytes, m.air_util_tx);
                push_le32(
                    &mut bytes,
                    match m.uptime_seconds {
                        Some(u) => u,
                        None => 0,
                    },
                );
                proof {
                    assert(bytes@ =~= telemetry_bytes(self.time, self.variant));
                }
            },
            TelemetryVariant::Environment(m) => {
                bytes.push(1);
                push_le32(&mut bytes, self.time);
                push_opt_f32(&mut bytes, m.temperature);
                push_opt_f32(&mut bytes, m.relative_humidity);
                push_opt_f32(&mut bytes, m.barometric_pressure);
                proof {
                    assert(bytes@ =~= telemetry_bytes(self.time, self.variant));
                }
            },
            TelemetryVariant::Power(m) => {
                bytes.push(2);
                push_le32(&mut bytes, self.time);
                bytes.push(m.channels.len() as u8);
                let ghost head = bytes@;
                let mut i: usize = 0;
                while i < m.channels.len()
                    invariant
                        i <= m.channels.len(),
                        bytes@ == head + channels_bytes(m.channels@.subrange(0, i as int)),
                    decreases m.channels.len() - i,
                {
                    let ch = m.channels[i];
                    bytes.push(ch.channel);
                    push_opt_f32(&mut bytes, ch.voltage);
                    push_opt_f32(&mut bytes, ch.current);
                    proof {
                        let sub = m.channels@.subrange(0, i + 1);
                        assert(sub.drop_last() =~= m.channels@.subrange(0, i as int));
                        assert(bytes@ =~= head + channels_bytes(sub));
                    }
                    i += 1;
                }
                proof {
                    assert(m.channels@.subrange(0, m.channels.len() as int) =~= m.channels@);
                    assert(bytes@ =~= telemetry_bytes(self.time, self.variant));
                }
            },
        }
        bytes
    }

    /// Parse telemetry from bytes: `None` when the data is shorter than the
    /// header, than its variant's fields, or names no variant. A battery
    /// byte of 0xFF, a zero uptime and NaN measurements read as absent; the
    /// environment's other fields are absent; power reads the announced
    /// channels as far as whole channels follow.
    pub fn from_bytes(data: &[u8]) -> (r: Option<Self>)
        ensures
            r.is_some() <==> telemetry_parses(data@),
            r matches Some(t) ==> {
                &&& t.time == le32_at(data@, 1)
                &&& data[0] == 0 ==> t.variant == TelemetryVariant::Device(
                    DeviceMetrics {
                        battery_level: if data[5] == 0xFF {
                            None
                        } else {
                            Some(data[5])
                        },
                        voltage: opt_f32_of(le32_at(data@, 6)),
                        channel_utilization: opt_f32_of(le32_at(data@, 10)),
                        air_util_tx: opt_f32_of(le32_at(data@, 14)),
                        uptime_seconds: if le32_at(data@, 18) == 0 {
                            None
                        } else {
                            Some(le32_at(data@, 18))
                        },
                    },
                )
                &&& data[0] == 1 ==> t.variant == TelemetryVariant::Environment(
                    weather(
                        opt_f32_of(le32_at(data@, 5)),
                        opt_f32_of(le32_at(data@, 9)),
                        opt_f32_of(le32_at(data@, 13)),
                    ),
                )
                &&& data[0] == 2 ==> (t.variant matches TelemetryVariant::Power(m) && m.channels.len()
                    == channels_read(data[5] as int, data.len() as int) && forall|i: int|
                    0 <= i < m.channels.len() ==> #[trigger] m.channels[i] == channel_at(data@, 6 + 9 * i))
            },
    {
        if data.len() < 5 {
            return None;
        }
        let variant_type = data[0];
        let time = read_le32(data, 1);
        let variant = if variant_type == 0 {
            if data.len() < 22 {
                return None;
            }
            let battery = if data[5] == 0xFF {
                None
            } else {
                Some(data[5])
            };
            let voltage = read_opt_f32(data, 6);
            let channel_util = read_opt_f32(data, 10);
            let air_util = read_opt_f32(data, 14);
            let uptime = read_le32(data, 18);
            TelemetryVariant::Device(
                DeviceMetrics {
                    battery_level: battery,
                    voltage,
                    channel_utilization: channel_util,
                    air_util_tx: air_util,
                    uptime_seconds: if uptime == 0 {
                        None
                    } else {
                        Some(uptime)
                    },
                },
            )
        } else if variant_type == 1 {
            if data.len() < 17 {
                return None;
            }
            let temp = read_opt_f32(data, 5);
            let humidity = read_opt_f32(data, 9);
            let pressure = read_opt_f32(data, 13);
            let mut m = EnvironmentMetrics::default();
            m.temperature = temp;
            m.relative_humidity = humidity;
            m.barometric_pressure = pressure;
            TelemetryVariant::Environment(m)
        } else if variant_type == 2 {
            if data.len() < 6 {
                return None;
            }
            let num_channels = data[5] as usize;
            let mut channels: Vec<PowerChannel> = Vec::with_capacity(num_channels);
            let mut offset: usize = 6;
            let mut k: usize = 0;
            while k < num_channels
                invariant
                    data.len() >= 6,
                    num_channels == data[5] as int,
                    k <= num_channels,
                    offset == 6 + 9 * k,
                    offset <= data.len(),
                    channels.len() == k,
                    k == channels_read(k as int, data.len() as int),
                    forall|i: int| 0 <= i < k ==> #[trigger] channels[i] == channel_at(data@, 6 + 9 * i),
                ensures
                    channels.len() == channels_read(num_channels as int, data.len() as int),
                    forall|i: int|
                        0 <= i < channels.len() ==> #[trigger] channels[i] == channel_at(data@, 6 + 9 * i),
                decreases num_channels - k,
            {
                if offset + 9 > data.len() {
                    break;
                }
                let channel = data[offset];
                let voltage = read_opt_f32(data, offset + 1);
                let current = read_opt_f32(data, offset + 5);
                channels.push(PowerChannel { channel, voltage, current });
                offset += 9;
                k += 1;
            }
            TelemetryVariant::Power(PowerMetrics { channels })
        } else {
            return None;
        };
        Some(Telemetry { time, variant })
    }
}


/// A battery level as it survives the byte format: 0xFF reads back absent.
pub open spec fn normal_battery(v: Option<u8>) -> Option<u8> {
    match v {
        Some(l) => if l == 0xFF {
            None
        } else {
            Some(l)
        },
        None => None,
    }
}

/// An uptime as it survives the byte format: zero reads back absent.
pub open spec fn normal_uptime(v: Option<u32>) -> Option<u32> {
    match v {
        Some(u) => if u == 0 {
            None
        } else {
            Some(u)
        },
        None => None,
    }
}

/// A power channel as it survives the byte format.
pub open spec fn normal_channel(ch: PowerChannel) -> PowerChannel {
    PowerChannel { channel: ch.channel, voltage: normal_f32(ch.voltage), current: normal_f32(ch.current) }
}

/// An optional measurement written at `off` reads back as it survives.
proof fn lemma_opt_f32_roundtrip(b: Seq<u8>, off: int, v: Option<u32>)
    requires
        0 <= off,
        off + 4 <= b.len(),
        b.subrange(off, off + 4) == opt_f32_bytes(v),
    ensures
        opt_f32_of(le32_at(b, off)) == normal_f32(v),
{
    let bits = match v {
        Some(x) => x,
        None => NAN_BITS,
    };
    assert(b[off] == b.subrange(off, off + 4)[0]);
    assert(b[off + 1] == b.subrange(off, off + 4)[1]);
    assert(b[off + 2] == b.subrange(off, off + 4)[2]);
    assert(b[off + 3] == b.subrange(off, off + 4)[3]);
    lemma_le4_roundtrip(b, off, bits);
    assert(is_nan_bits(0x7FC0_0000u32)) by (bit_vector);
}

/// Where each channel's bytes lie in the bytes of a list of channels.
proof fn lemma_channels_bytes_layout(chs: Seq<PowerChannel>)
    ensures
        channels_bytes(chs).len() == 9 * chs.len(),
        forall|i: int|
            0 <= i < chs.len() ==> #[trigger] channels_bytes(chs).subrange(9 * i, 9 * i + 9) == channel_bytes(
                chs[i],
            ),
    decreases chs.len(),
{
    if chs.len() > 0 {
        let pre = chs.drop_last();
        lemma_channels_bytes_layout(pre);
        let b = channels_bytes(chs);
        assert forall|i: int| 0 <= i < chs.len() implies #[trigger] channels_bytes(chs).subrange(
            9 * i,
            9 * i + 9,
        ) == channel_bytes(chs[i]) by {
            if i < chs.len() - 1 {
                assert(pre[i] == chs[i]);
                assert(b.subrange(9 * i, 9 * i + 9) =~= channels_bytes(pre).subrange(9 * i, 9 * i + 9));
            } else {
                assert(b.subrange(9 * i, 9 * i + 9) =~= channel_bytes(chs.last()));
            }
        }
    }
}

/// The timestamp written after the type byte reads back.
proof fn lemma_time_roundtrip(b: Seq<u8>, time: u32)
    requires
        b.len() >= 5,
        b.subrange(1, 5) == le4(time),
    ensures
        le32_at(b, 1) == time,
{
    assert(b[1] == b.subrange(1, 5)[0] && b[2] == b.subrange(1, 5)[1] && b[3] == b.subrange(1, 5)[2]
        && b[4] == b.subrange(1, 5)[3]);
    lemma_le4_roundtrip(b, 1, time);
}

/// Serialized device metrics read back as the format keeps them.
proof fn lemma_device_roundtrip(time: u32, m: DeviceMetrics)
    ensures
        ({
            let b = telemetry_bytes(time, TelemetryVariant::Device(m));
            &&& b.len() == 22
            &&& b[0] == 0
            &&& le32_at(b, 1) == time
            &&& (if b[5] == 0xFF {
                None
            } else {
                Some(b[5])
            }) == normal_battery(m.battery_level)
            &&& opt_f32_of(le32_at(b, 6)) == normal_f32(m.voltage)
            &&& opt_f32_of(le32_at(b, 10)) == normal_f32(m.channel_utilization)
            &&& opt_f32_of(le32_at(b, 14)) == normal_f32(m.air_util_tx)
            &&& (if le32_at(b, 18) == 0 {
                None
            } else {
                Some(le32_at(b, 18))
            }) == normal_uptime(m.uptime_seconds)
        }),
{
    let b = telemetry_bytes(time, TelemetryVariant::Device(m));
    assert(b.subrange(1, 5) =~= le4(time));
    lemma_time_roundtrip(b, time);
    assert(b.subrange(6, 10) =~= opt_f32_bytes(m.voltage));
    assert(b.subrange(10, 14) =~= opt_f32_bytes(m.channel_utilization));
    assert(b.subrange(14, 18) =~= opt_f32_bytes(m.air_util_tx));
    lemma_opt_f32_roundtrip(b, 6, m.voltage);
    lemma_opt_f32_roundtrip(b, 10, m.channel_utilization);
    lemma_opt_f32_roundtrip(b, 14, m.air_util_tx);
    let up = match m.uptime_seconds {
        Some(u) => u,
        None => 0u32,
    };
    assert(b.subrange(18, 22) =~= le4(up));
    assert(b[18] == b.subrange(18, 22)[0] && b[19] == b.subrange(18, 22)[1] && b[20] == b.subrange(
        18,
        22,
    )[2] && b[21] == b.subrange(18, 22)[3]);
    lemma_le4_roundtrip(b, 18, up);
}

/// Serialized environment metrics read back as the format keeps them.
proof fn lemma_environment_roundtrip(time: u32, m: EnvironmentMetrics)
    ensures
        ({
            let b = telemetry_bytes(time, TelemetryVariant::Environment(m));
            &&& b.len() == 17
            &&& b[0] == 1
            &&& le32_at(b, 1) == time
            &&& opt_f32_of(le32_at(b, 5)) == normal_f32(m.temperature)
            &&& opt_f32_of(le32_at(b, 9)) == normal_f32(m.relative_humidity)
            &&& opt_f32_of(le32_at(b, 13)) == normal_f32(m.barometric_pressure)
        }),
{
    let b = telemetry_bytes(time, TelemetryVariant::Environment(m));
    assert(b.subrange(1, 5) =~= le4(time));
    lemma_time_roundtrip(b, time);
    assert(b.subrange(5, 9) =~= opt_f32_bytes(m.temperature));
    assert(b.subrange(9, 13) =~= opt_f32_bytes(m.relative_humidity));
    assert(b.subrange(13, 17) =~= opt_f32_bytes(m.barometric_pressure));
    lemma_opt_f32_roundtrip(b, 5, m.temperature);
    lemma_opt_f32_roundtrip(b, 9, m.relative_humidity);
    lemma_opt_f32_roundtrip(b, 13, m.barometric_pressure);
}

/// One serialized power channel reads back as the format keeps it.
proof fn lemma_channel_roundtrip(b: Seq<u8>, off: int, ch: PowerChannel)
    requires
        0 <= off,
        off + 9 <= b.len(),
        b.subrange(off, off + 9) == channel_bytes(ch),
    ensures
        channel_at(b, off) == normal_channel(ch),
{
    let sub = b.subrange(off, off + 9);
    assert(b[off] == sub[0]);
    assert(b.subrange(off + 1, off + 5) =~= sub.subrange(1, 5));
    assert(b.subrange(off + 5, off + 9) =~= sub.subrange(5, 9));
    assert(sub.subrange(1, 5) =~= opt_f32_bytes(ch.voltage));
    assert(sub.subrange(5, 9) =~= opt_f32_bytes(ch.current));
    lemma_opt_f32_roundtrip(b, off + 1, ch.voltage);
    lemma_opt_f32_roundtrip(b, off + 5, ch.current);
}

/// Serialized power metrics read back as the format keeps them.
proof fn lemma_power_roundtrip(time: u32, m: PowerMetrics)
    requires
        m.channels.len() <= 255,
    ensures
        ({
            let b = telemetry_bytes(time, TelemetryVariant::Power(m));
            &&& b.len() >= 6
            &&& b[0] == 2
            &&& le32_at(b, 1) == time
            &&& channels_read(b[5] as int, b.len() as int) == m.channels.len()
            &&& forall|i: int|
                0 <= i < m.channels.len() ==> #[trigger] channel_at(b, 6 + 9 * i) == normal_channel(
                    m.channels[i],
                )
        }),
{
    let b = telemetry_bytes(time, TelemetryVariant::Power(m));
    let chs = m.channels@;
    assert(b.subrange(1, 5) =~= le4(time));
    lemma_time_roundtrip(b, time);
    lemma_channels_bytes_layout(chs);
    let cb = channels_bytes(chs);
    assert(b.len() == 6 + 9 * chs.len());
    assert(b[5] == chs.len() as u8);
    assert((6 + 9 * chs.len() - 6) / 9 == chs.len());
    assert forall|i: int| 0 <= i < m.channels.len() implies #[trigger] channel_at(b, 6 + 9 * i)
        == normal_channel(m.channels[i]) by {
        assert(cb.subrange(9 * i, 9 * i + 9) == channel_bytes(chs[i]));
        assert(b.subrange(6 + 9 * i, 6 + 9 * i + 9) =~= cb.subrange(9 * i, 9 * i + 9));
        lemma_channel_roundtrip(b, 6 + 9 * i, chs[i]);
    }
}

/// Reading back serialized telemetry gives the message as the byte format
/// keeps it: the type and timestamp; NaN measurements, a battery level of
/// 0xFF and a zero uptime come back absent; of the environment, the
/// temperature, humidity and pressure; and every power channel, as long as
/// their count fits in its byte.
pub proof fn lemma_telemetry_roundtrip(time: u32, variant: TelemetryVariant)
    requires
        variant matches TelemetryVariant::Power(m) ==> m.channels.len() <= 255,
    ensures
        ({
            let b = telemetry_bytes(time, variant);
            &&& telemetry_parses(b)
            &&& le32_at(b, 1) == time
            &&& match variant {
                TelemetryVariant::Device(m) => {
                    &&& b[0] == 0
                    &&& (if b[5] == 0xFF {
                        None
                    } else {
                        Some(b[5])
                    }) == normal_battery(m.battery_level)
                    &&& opt_f32_of(le32_at(b, 6)) == normal_f32(m.voltage)
                    &&& opt_f32_of(le32_at(b, 10)) == normal_f32(m.channel_utilization)
                    &&& opt_f32_of(le32_at(b, 14)) == normal_f32(m.air_util_tx)
                    &&& (if le32_at(b, 18) == 0 {
                        None
                    } else {
                        Some(le32_at(b, 18))
                    }) == normal_uptime(m.uptime_seconds)
                },
                TelemetryVariant::Environment(m) => {
                    &&& b[0] == 1
                    &&& opt_f32_of(le32_at(b, 5)) == normal_f32(m.temperature)
                    &&& opt_f32_of(le32_at(b, 9)) == normal_f32(m.relative_humidity)
                    &&& opt_f32_of(le32_at(b, 13)) == normal_f32(m.barometric_pressure)
                },
                TelemetryVariant::Power(m) => {
                    &&& b[0] == 2
                    &&& channels_read(b[5] as int, b.len() as int) == m.channels.len()
                    &&& forall|i: int|
                        0 <= i < m.channels.len() ==> #[trigger] channel_at(b, 6 + 9 * i) == normal_channel(
                            m.channels[i],
                        )
                },
            }
        }),
{
    match variant {
        TelemetryVariant::Device(m) => lemma_device_roundtrip(time, m),
        TelemetryVariant::Environment(m) => lemma_environment_roundtrip(time, m),
        TelemetryVariant::Power(m) => lemma_power_roundtrip(time, m),
    }
}

/// Telemetry configuration
///
/// Controls how often different telemetry types are sent.
#[derive(Debug, Clone, Copy, PartialEq, Eq, Structural)]
pub struct TelemetryConfig {
    /// Send device metrics every N seconds (0 = disabled)
    pub device_update_interval: u32,
    /// Send environment metrics every N seconds (0 = disabled)
    pub environment_update_interval: u32,
    /// Send power metrics every N seconds (0 = disabled)
    pub power_update_interval: u32,
}

impl Default for TelemetryConfig {
    /// Device and environment metrics every 15 minutes, power metrics off.
    fn default() -> (c: Self)
        ensures
            c == (TelemetryConfig {
                device_update_interval: 900,
                environment_update_interval: 900,
                power_update_interval: 0,
            }),
    {
        TelemetryConfig {
            device_update_interval: 900,
            environment_update_interval: 900,
            power_update_interval: 0,
        }
    }
}

impl TelemetryConfig {
    /// Create a config with all telemetry enabled at specified interval
    pub fn all_enabled(interval_secs: u32) -> (c: Self)
        ensures
            c == (TelemetryConfig {
                device_update_interval: interval_secs,
                environment_update_interval: interval_secs,
                power_update_interval: interval_secs,
            }),
    {
        TelemetryConfig {
            device_update_interval: interval_secs,
            environment_update_interval: interval_secs,
            power_update_interval: interval_secs,
        }
    }

    /// Create a config with only device telemetry enabled
    pub fn device_only(interval_secs: u32) -> (c: Self)
        ensures
            c == (TelemetryConfig {
                device_update_interval: interval_secs,
                environment_update_interval: 0,
                power_update_interval: 0,
            }),
    {
        TelemetryConfig {
            device_update_interval: interval_secs,
            environment_update_interval: 0,
            power_update_interval: 0,
        }
    }
}

} // verus!
