use r4w_core::mesh::neighbors::{expired_prefix, oldest_entry, stale_entries};
use r4w_core::mesh::simulation::NodeStats;
use r4w_core::mesh::crypto::{ChannelKey, CryptoContext, CryptoError, PacketCrypto, DEFAULT_PSK};
use r4w_core::mesh::mac::{BackoffState, ChannelState, CsmaConfig, MacError, MacLayer, TransmitDecision};
use r4w_core::mesh::meshtastic::{ChannelConfig, MeshtasticConfig, ModemPreset, Region};
use r4w_core::mesh::packet::{crc16_ccitt, MeshPacket, NodeId, PacketFlags, PacketHeader, PacketType};
use r4w_core::mesh::telemetry::{
    f32_bits_is_nan, DeviceMetrics, EnvironmentMetrics, PowerChannel, PowerMetrics, Telemetry, TelemetryConfig,
    TelemetryVariant,
};
use r4w_core::mesh::traceroute::{
    RouteReply, RouteRequest, RouteRequestResponse, Traceroute, TracerouteConfig,
};
use r4w_core::mesh::traits::{MeshConfig, MeshError};

#[test]
fn test_channel_key_creation() {
    let key = ChannelKey::new("LongFast", DEFAULT_PSK);
    assert_eq!(key.channel_name(), "LongFast");
    assert_ne!(key.as_bytes(), &[0u8; 32]);
}

#[test]
fn test_channel_hash() {
    let key = ChannelKey::new("LongFast", DEFAULT_PSK);
    let hash = key.channel_hash();
    assert_eq!(hash, key.channel_hash());
}

#[test]
fn test_crypto_context_creation() {
    let ctx = CryptoContext::with_default_psk("LongFast");
    let hash = ctx.channel_hash();
    let key = ChannelKey::with_default_psk("LongFast");
    assert_eq!(hash, key.channel_hash());
}

#[test]
fn test_encrypt_decrypt_roundtrip() {
    let ctx = CryptoContext::with_default_psk("TestChannel");
    let source = NodeId::from_bytes([0x11, 0x22, 0x33, 0x44]);
    let packet_id = 12345u32;
    let header_bytes = [0u8; 16];
    let plaintext = b"Hello, Meshtastic!";
    let (ciphertext, mic) = ctx.encrypt(plaintext, source, packet_id, &header_bytes).expect("Encryption failed");
    assert_ne!(ciphertext, plaintext);
    assert_eq!(ciphertext.len(), plaintext.len());
    let decrypted = ctx
        .decrypt(&ciphertext, source, packet_id, &header_bytes, &mic)
        .expect("Decryption failed");
    assert_eq!(decrypted, plaintext);
}

#[test]
fn test_mic_verification_fails_on_tamper() {
    let ctx = CryptoContext::with_default_psk("TestChannel");
    let source = NodeId::from_bytes([0x11, 0x22, 0x33, 0x44]);
    let packet_id = 12345u32;
    let header_bytes = [0u8; 16];
    let plaintext = b"Secret message";
    let (mut ciphertext, mic) =
        ctx.encrypt(plaintext, source, packet_id, &header_bytes).expect("Encryption failed");
    ciphertext[0] ^= 0xFF;
    let result = ctx.decrypt(&ciphertext, source, packet_id, &header_bytes, &mic);
    assert!(matches!(result, Err(CryptoError::MicMismatch)));
}

#[test]
fn test_different_keys_produce_different_ciphertext() {
    let ctx1 = CryptoContext::with_default_psk("Channel1");
    let ctx2 = CryptoContext::with_default_psk("Channel2");
    let source = NodeId::from_bytes([0x11, 0x22, 0x33, 0x44]);
    let packet_id = 100u32;
    let header_bytes = [0u8; 16];
    let plaintext = b"Same message";
    let (ciphertext1, _) = ctx1.encrypt(plaintext, source, packet_id, &header_bytes).unwrap();
    let (ciphertext2, _) = ctx2.encrypt(plaintext, source, packet_id, &header_bytes).unwrap();
    assert_ne!(ciphertext1, ciphertext2);
}

#[test]
fn test_nonce_uniqueness() {
    let nonce1 = CryptoContext::make_nonce(NodeId::from_bytes([1, 2, 3, 4]), 100);
    let nonce2 = CryptoContext::make_nonce(NodeId::from_bytes([1, 2, 3, 4]), 101);
    let nonce3 = CryptoContext::make_nonce(NodeId::from_bytes([5, 6, 7, 8]), 100);
    assert_ne!(nonce1, nonce2);
    assert_ne!(nonce1, nonce3);
    assert_ne!(nonce2, nonce3);
}

#[test]
fn test_modem_presets() {
    let (sf, bw, _cr) = ModemPreset::LongFast.lora_params();
    assert_eq!(sf, 11);
    assert_eq!(bw, 250_000);
    let (sf, bw, _cr) = ModemPreset::LongSlow.lora_params();
    assert_eq!(sf, 12);
    assert_eq!(bw, 125_000);
}

#[test]
fn test_region_frequencies() {
    let (start, end) = Region::US.frequency_range();
    assert!(start < end);
    assert!(start >= 902_000_000);
    let freq = Region::EU.primary_frequency();
    assert!(freq >= 863_000_000 && freq <= 870_000_000);
}

#[test]
fn test_node_id() {
    let id = NodeId::from_bytes([0x12, 0x34, 0x56, 0x78]);
    assert_eq!(id.to_u32(), 0x12345678);
    assert!(!id.is_broadcast());
    assert!(NodeId::broadcast().is_broadcast());
}

#[test]
fn test_packet_flags() {
    let mut flags = PacketFlags::new();
    assert!(!flags.want_ack());
    assert!(!flags.encrypted());
    flags.set_want_ack(true);
    assert!(flags.want_ack());
    flags.set_encrypted(true);
    assert!(flags.encrypted());
    flags.set_hop_start(5);
    assert_eq!(flags.hop_start(), 5);
}

#[test]
fn test_packet_header_roundtrip() {
    let source = NodeId::from_bytes([0x11, 0x22, 0x33, 0x44]);
    let header = PacketHeader::broadcast(source, 3);
    let bytes = header.to_bytes();
    let recovered = PacketHeader::from_bytes(&bytes).unwrap();
    assert_eq!(recovered.source, source);
    assert_eq!(recovered.hop_limit, 3);
    assert!(recovered.destination.is_broadcast());
}

#[test]
fn test_crc16() {
    let data = b"123456789";
    let crc = crc16_ccitt(data);
    assert_eq!(crc, 0x29B1);
}

#[test]
fn test_telemetry_config() {
    let config = TelemetryConfig::default();
    assert_eq!(config.device_update_interval, 900);
    let fast = TelemetryConfig::all_enabled(60);
    assert_eq!(fast.device_update_interval, 60);
    assert_eq!(fast.environment_update_interval, 60);
    assert_eq!(fast.power_update_interval, 60);
}

#[test]
fn test_route_request_serialization() {
    let request = RouteRequest::new(1234, NodeId::from_u32(1), NodeId::from_u32(10), 5);
    let bytes = request.to_bytes();
    let decoded = RouteRequest::from_bytes(&bytes).unwrap();
    assert_eq!(decoded.request_id, 1234);
    assert_eq!(decoded.source.to_u32(), 1);
    assert_eq!(decoded.destination.to_u32(), 10);
    assert_eq!(decoded.max_hops, 5);
    assert_eq!(decoded.route.len(), 1);
}

#[test]
fn test_mesh_error_display() {
    let err = MeshError::NoRoute(NodeId::from_bytes([1, 2, 3, 4]));
    assert!(err.message().contains("No route"));
}

#[test]
fn test_mesh_config_default() {
    let config = MeshConfig::default();
    assert_eq!(config.default_hop_limit, 3);
    assert_eq!(config.duplicate_cache_size, 256);
}

// ---------------------------------------------------------------------------
// Further checks of the library on concrete values
// ---------------------------------------------------------------------------

#[test]
fn node_id_conversions() {
    let id = NodeId::from_u32(0xDEADBEEF);
    assert_eq!(id.as_bytes(), &[0xDE, 0xAD, 0xBE, 0xEF]);
    assert_eq!(id.to_u32(), 0xDEADBEEF);
    assert!(NodeId::unknown().is_unknown());
    assert!(!id.is_unknown());
    assert!(NodeId::from_bytes([0xFF, 0xFF, 0xFF, 0xFF]).is_broadcast());
    let r = NodeId::random();
    assert_eq!(NodeId::from_u32(r.to_u32()), r);
}

#[test]
fn flags_bits_are_independent() {
    let mut f = PacketFlags::from_byte(0xFF);
    f.set_priority(false);
    assert_eq!(f.as_byte(), 0xBF);
    f.set_via_mqtt(false);
    assert_eq!(f.as_byte(), 0xBD);
    assert!(!f.via_mqtt() && !f.priority() && f.want_ack() && f.encrypted());
    f.set_hop_start(0);
    assert_eq!(f.as_byte(), 0xA1);
    f.set_priority(true);
    assert!(f.priority());
    assert_eq!(PacketFlags::none().as_byte(), 0);
    assert_eq!(PacketFlags::default().as_byte(), 0);
}

#[test]
fn header_bytes_layout() {
    let mut h = PacketHeader::direct(NodeId::from_u32(0x01020304), NodeId::from_u32(0x0A0B0C0D));
    h.packet_id = 0xBEEF;
    h.channel = 9;
    assert!(!h.is_broadcast());
    assert!(h.flags.want_ack());
    assert_eq!(h.hop_limit, 3);
    let b = h.to_bytes();
    assert_eq!(b, vec![0x0A, 0x0B, 0x0C, 0x0D, 1, 2, 3, 4, 0xBE, 0xEF, 3, 0x01]);
    let back = PacketHeader::from_bytes(&b).unwrap();
    assert_eq!(back.packet_id, 0xBEEF);
    assert_eq!(back.channel, 0);
    let short = PacketHeader::from_bytes(&b[..10]).unwrap();
    assert_eq!(short.hop_limit, 0);
    assert_eq!(short.flags.as_byte(), 0);
    assert!(PacketHeader::from_bytes(&b[..9]).is_none());
}

#[test]
fn packet_type_bytes() {
    assert_eq!(PacketType::from_byte(4), PacketType::Ack);
    assert_eq!(PacketType::from_byte(200), PacketType::Custom);
    assert_eq!(PacketType::Custom.to_byte(), 255);
    assert_eq!(PacketType::from_byte(PacketType::Telemetry.to_byte()), PacketType::Telemetry);
}

#[test]
fn channel_hash_value() {
    let key = ChannelKey::from_raw([7u8; 32], "LongFast");
    // First byte of SHA-256("LongFast").
    assert_eq!(key.channel_hash(), 0x79);
    assert_eq!(key.as_bytes(), &[7u8; 32]);
}

#[test]
fn decrypt_rejects_wrong_mic() {
    let ctx = CryptoContext::new("X", &[1, 2, 3]);
    let source = NodeId::from_u32(5);
    let (ct, mut mic) = ctx.encrypt(b"abc", source, 1, b"hdr").unwrap();
    mic[3] ^= 1;
    assert_eq!(ctx.decrypt(&ct, source, 1, b"hdr", &mic), Err(CryptoError::MicMismatch));
    assert_eq!(CryptoError::MicMismatch.message(), "MIC verification failed");
}

#[test]
fn nonce_layout() {
    let n = CryptoContext::make_nonce(NodeId::from_bytes([1, 2, 3, 4]), 0x0A0B0C0D);
    assert_eq!(n, [4, 3, 2, 1, 0x0D, 0x0C, 0x0B, 0x0A, 0, 0, 0, 0, 0, 0, 0, 0]);
}

#[test]
fn channel_config_behaviour() {
    let plain = ChannelConfig::new("LongFast", ModemPreset::ShortFast);
    assert!(!plain.is_encrypted());
    assert!(plain.crypto_context().is_none());
    assert_eq!(plain.channel_hash(), (b"LongFast".iter().fold(0u8, |a, b| a.wrapping_add(*b))));
    let enc = ChannelConfig::with_default_psk("LongFast", ModemPreset::LongFast);
    assert!(enc.is_encrypted());
    let psk = enc.psk.unwrap();
    assert_eq!(&psk[..16], DEFAULT_PSK);
    assert_eq!(&psk[16..], &[0u8; 16]);
    assert_eq!(enc.channel_hash(), 0x79);
    let ctx = enc.crypto_context().unwrap();
    assert_eq!(ctx.channel_hash(), 0x79);
    let d = ChannelConfig::default();
    assert_eq!(d.name, "LongFast");
    assert_eq!(d.preset, ModemPreset::LongFast);
}

#[test]
fn meshtastic_defaults() {
    let c = MeshtasticConfig::default();
    assert_eq!(c.short_name, "NODE");
    assert_eq!(c.long_name, "R4W Node");
    assert_eq!(c.region, Region::US);
    assert_eq!(c.hop_limit, 3);
    assert_eq!(c.telemetry.power_update_interval, 0);
    assert_eq!(ModemPreset::sync_word(), 0x2B);
    assert_eq!(ModemPreset::preamble_length(), 16);
    assert_eq!(Region::Unset.primary_frequency(), 866_500_000);
    assert_eq!(ModemPreset::ShortSlow.lora_params(), (8, 250_000, 5));
}

#[test]
fn telemetry_device_only() {
    let c = TelemetryConfig::device_only(120);
    assert_eq!(c.device_update_interval, 120);
    assert_eq!(c.environment_update_interval, 0);
    assert_eq!(c.power_update_interval, 0);
}

#[test]
fn route_request_hops_and_bytes() {
    let mut r = RouteRequest::new(7, NodeId::from_u32(1), NodeId::from_u32(2), 2);
    assert!(!r.max_hops_reached());
    r.add_hop(NodeId::from_u32(0x01020304));
    r.add_hop(NodeId::from_u32(9));
    assert!(r.max_hops_reached());
    let b = r.to_bytes();
    assert_eq!(b.len(), 16 + 3 * 4);
    assert_eq!(&b[0..4], &[7, 0, 0, 0]);
    assert_eq!(&b[12..16], &[2, 2, 1, 3]);
    assert_eq!(&b[20..24], &[4, 3, 2, 1]);
    let back = RouteRequest::from_bytes(&b).unwrap();
    assert_eq!(back.route, r.route);
    assert!(RouteRequest::from_bytes(&b[..20]).is_none());
    assert!(RouteRequest::from_bytes(&b[..15]).is_none());
    let cfg = TracerouteConfig::default();
    assert_eq!(cfg.max_hops, 10);
    assert_eq!(cfg.timeout, 30);
}

#[test]
fn mesh_error_messages() {
    assert_eq!(MeshError::NoRoute(NodeId::from_bytes([1, 2, 3, 0xAB])).message(), "No route to node NodeId(010203ab)");
    assert_eq!(MeshError::CryptoError("bad".to_string()).message(), "Crypto error: bad");
    assert_eq!(MeshError::Other("x".to_string()).message(), "x");
    assert_eq!(MeshError::QueueFull.message(), "Queue full");
    assert_eq!(MacError::Collision.message(), "Collision detected");
}

#[test]
fn backoff_window() {
    let mut b = BackoffState::new(16);
    b.double_window(1024);
    assert_eq!(b.contention_window, 32);
    b.double_window(40);
    assert_eq!(b.contention_window, 40);
    b.reset(8);
    assert_eq!(b.contention_window, 8);
    assert_eq!(b.attempts, 0);
}

fn bits(v: f32) -> u32 {
    v.to_bits()
}

#[test]
fn test_device_metrics() {
    let metrics = DeviceMetrics::new(Some(85), Some(bits(4.1)), Some(bits(0.05)), Some(bits(0.02)), Some(3600));

    assert_eq!(metrics.battery_level, Some(85));
    assert!(!metrics.is_battery_low(20));
    // Channel congestion is judged on the float value the bits hold.
    let congested = metrics.channel_utilization.map(|u| f32::from_bits(u) > 0.1).unwrap_or(false);
    assert!(!congested);
}

#[test]
fn test_power_metrics() {
    let mut power = PowerMetrics::new();
    power.add_channel(PowerChannel::new(0, Some(bits(5.0)), Some(bits(100.0))));
    power.add_channel(PowerChannel::new(1, Some(bits(3.3)), Some(bits(50.0))));

    assert_eq!(power.channels.len(), 2);
    // Total power is the float sum of voltage times current.
    let total: f32 = power
        .channels
        .iter()
        .filter_map(|c| Some(f32::from_bits(c.voltage?) * f32::from_bits(c.current?)))
        .sum();
    assert_eq!(total, 665.0);
}

#[test]
fn test_device_metrics_low_battery() {
    let metrics = DeviceMetrics::new(Some(15), None, None, None, None);
    assert!(metrics.is_battery_low(20));
}

#[test]
fn test_environment_metrics() {
    let metrics = EnvironmentMetrics::with_weather(bits(25.0), bits(60.0), bits(1013.25));
    assert_eq!(metrics.temperature, Some(bits(25.0)));
    assert_eq!(metrics.relative_humidity, Some(bits(60.0)));
    assert_eq!(metrics.barometric_pressure, Some(bits(1013.25)));
}

#[test]
fn test_telemetry_creation() {
    let device = DeviceMetrics::new(Some(90), Some(bits(4.2)), None, None, Some(1000));
    let telemetry = Telemetry::device(device.clone());
    assert!(telemetry.time > 0);
    assert_eq!(telemetry.as_device(), Some(&device));
    assert!(telemetry.as_environment().is_none());
}

#[test]
fn test_telemetry_variants() {
    let env = Telemetry::environment(EnvironmentMetrics::with_temperature(bits(22.5)));
    assert!(env.as_environment().is_some());
    let power = Telemetry::power(PowerMetrics::with_channel(PowerChannel::new(0, Some(bits(12.0)), Some(bits(200.0)))));
    assert!(power.as_power().is_some());
}

#[test]
fn test_telemetry_device_roundtrip() {
    let metrics = DeviceMetrics::new(Some(85), Some(bits(4.1)), Some(bits(0.05)), Some(bits(0.02)), Some(3600));
    let telemetry = Telemetry::with_time(12345, TelemetryVariant::Device(metrics.clone()));
    let bytes = telemetry.to_bytes();
    let recovered = Telemetry::from_bytes(&bytes).expect("Should parse");
    assert_eq!(recovered.time, 12345);
    let recovered_metrics = recovered.as_device().expect("Should be device metrics");
    assert_eq!(recovered_metrics.battery_level, Some(85));
    assert_eq!(recovered_metrics.uptime_seconds, Some(3600));
}

#[test]
fn test_telemetry_environment_roundtrip() {
    let metrics = EnvironmentMetrics::with_weather(bits(25.5), bits(60.0), bits(1013.25));
    let telemetry = Telemetry::with_time(99999, TelemetryVariant::Environment(metrics));
    let bytes = telemetry.to_bytes();
    let recovered = Telemetry::from_bytes(&bytes).expect("Should parse");
    assert_eq!(recovered.time, 99999);
    let recovered_metrics = recovered.as_environment().expect("Should be environment");
    assert_eq!(recovered_metrics.temperature, Some(bits(25.5)));
    assert_eq!(recovered_metrics.relative_humidity, Some(bits(60.0)));
}

#[test]
fn test_telemetry_power_roundtrip() {
    let mut power = PowerMetrics::new();
    power.add_channel(PowerChannel::new(0, Some(bits(5.0)), Some(bits(100.0))));
    power.add_channel(PowerChannel::new(1, Some(bits(3.3)), Some(bits(50.0))));
    let telemetry = Telemetry::with_time(11111, TelemetryVariant::Power(power));
    let bytes = telemetry.to_bytes();
    let recovered = Telemetry::from_bytes(&bytes).expect("Should parse");
    assert_eq!(recovered.time, 11111);
    let recovered_power = recovered.as_power().expect("Should be power");
    assert_eq!(recovered_power.channels.len(), 2);
    assert_eq!(recovered_power.channels[0].channel, 0);
    assert_eq!(recovered_power.channels[1].voltage, Some(bits(3.3)));
}

#[test]
fn telemetry_device_bytes_layout() {
    let m = DeviceMetrics::new(None, Some(bits(1.0)), None, None, None);
    let bytes = Telemetry::with_time(0x01020304, TelemetryVariant::Device(m)).to_bytes();
    assert_eq!(
        bytes,
        vec![0, 4, 3, 2, 1, 0xFF, 0, 0, 0x80, 0x3F, 0, 0, 0xC0, 0x7F, 0, 0, 0xC0, 0x7F, 0, 0, 0, 0]
    );
    // Absent values read back absent; a battery of 0xFF and zero uptime too.
    let back = Telemetry::from_bytes(&bytes).unwrap();
    assert_eq!(back.as_device(), Some(&m));
    let odd = DeviceMetrics::new(Some(0xFF), Some(bits(f32::NAN)), None, None, Some(0));
    let back = Telemetry::from_bytes(&Telemetry::with_time(7, TelemetryVariant::Device(odd)).to_bytes()).unwrap();
    assert_eq!(back.as_device(), Some(&DeviceMetrics::new(None, None, None, None, None)));
}

#[test]
fn telemetry_from_bytes_rejects() {
    assert!(Telemetry::from_bytes(&[0, 1, 2, 3]).is_none());
    assert!(Telemetry::from_bytes(&[0, 1, 2, 3, 4, 5]).is_none());
    assert!(Telemetry::from_bytes(&[1; 16]).is_none());
    assert!(Telemetry::from_bytes(&[3, 0, 0, 0, 0, 0, 0]).is_none());
    // Power: three channels announced, one whole channel present.
    let mut data = vec![2, 0, 0, 0, 0, 3];
    data.extend_from_slice(&[9, 0, 0, 0x80, 0x3F, 0, 0, 0xC0, 0x7F, 1, 2]);
    let t = Telemetry::from_bytes(&data).unwrap();
    let p = t.as_power().unwrap();
    assert_eq!(p.channels, vec![PowerChannel::new(9, Some(bits(1.0)), None)]);
}

#[test]
fn nan_bit_patterns() {
    assert!(f32_bits_is_nan(f32::NAN.to_bits()));
    assert!(f32_bits_is_nan(0xFFC0_0001));
    assert!(!f32_bits_is_nan(f32::INFINITY.to_bits()));
    assert!(!f32_bits_is_nan(bits(1.5)));
}

fn node(n: u32) -> NodeId {
    NodeId::from_u32(n)
}

#[test]
fn test_route_reply_serialization() {
    let request = RouteRequest::new(5678, node(1), node(5), 10);
    let mut reply = RouteReply::from_request(&request, true);
    reply.add_signal_quality(bits(-80.0), bits(10.5));
    reply.add_signal_quality(bits(-75.0), bits(12.0));
    let bytes = reply.to_bytes();
    let decoded = RouteReply::from_bytes(&bytes).unwrap();
    assert_eq!(decoded.request_id, 5678);
    assert!(decoded.reached);
    assert_eq!(decoded.signal_quality.len(), 2);
    assert_eq!(f32::from_bits(decoded.signal_quality[0].0), -80.0);
    assert_eq!(f32::from_bits(decoded.signal_quality[1].1), 12.0);
}

#[test]
fn test_traceroute_start() {
    let mut tr = Traceroute::with_defaults(node(1));
    let request = tr.start_trace(node(10));
    assert_eq!(request.request_id, 1);
    assert_eq!(request.source.to_u32(), 1);
    assert_eq!(request.destination.to_u32(), 10);
    assert_eq!(tr.pending_count(), 1);
}

#[test]
fn test_traceroute_intermediate_hop() {
    let tr = Traceroute::with_defaults(node(5));
    let request = RouteRequest::new(1, node(1), node(10), 10);
    match tr.handle_request(request, bits(-80.0), bits(10.0)) {
        RouteRequestResponse::Forward(req) => {
            assert_eq!(req.hop_count, 1);
            assert_eq!(req.route.len(), 2);
            assert_eq!(req.route[1].to_u32(), 5);
        }
        _ => panic!("Expected forward"),
    }
}

#[test]
fn test_traceroute_destination() {
    let tr = Traceroute::with_defaults(node(10));
    let request = RouteRequest::new(1, node(1), node(10), 10);
    match tr.handle_request(request, bits(-75.0), bits(15.0)) {
        RouteRequestResponse::Reply(reply) => {
            assert!(reply.reached);
            assert_eq!(reply.signal_quality.len(), 1);
            assert_eq!(f32::from_bits(reply.signal_quality[0].0), -75.0);
        }
        _ => panic!("Expected reply"),
    }
}

#[test]
fn test_traceroute_complete_flow() {
    let mut tr1 = Traceroute::with_defaults(node(1));
    let request = tr1.start_trace(node(10));
    let tr5 = Traceroute::with_defaults(node(5));
    let request = match tr5.handle_request(request, bits(-80.0), bits(10.0)) {
        RouteRequestResponse::Forward(req) => req,
        _ => panic!("Expected forward"),
    };
    let tr10 = Traceroute::with_defaults(node(10));
    let reply = match tr10.handle_request(request, bits(-75.0), bits(12.0)) {
        RouteRequestResponse::Reply(reply) => reply,
        _ => panic!("Expected reply"),
    };
    let result = tr1.handle_reply(reply).unwrap();
    assert!(result.reached);
    assert_eq!(result.hop_count(), 3);
    assert_eq!(tr1.pending_count(), 0);
}

#[test]
fn traceroute_hop_limit_and_unknown_reply() {
    // The hop limit turns the request into a reply that did not reach.
    let tr = Traceroute::with_defaults(node(5));
    let request = RouteRequest::new(9, node(1), node(10), 1);
    match tr.handle_request(request, 0, 0) {
        RouteRequestResponse::Reply(reply) => {
            assert!(!reply.reached);
            assert!(reply.signal_quality.is_empty());
            assert_eq!(reply.route.iter().map(|n| n.to_u32()).collect::<Vec<_>>(), vec![1, 5]);
        }
        _ => panic!("Expected reply"),
    }
    // A reply nobody waits for is ignored.
    let mut tr1 = Traceroute::with_defaults(node(1));
    let stray = RouteReply::from_request(&RouteRequest::new(77, node(1), node(2), 3), true);
    assert!(tr1.handle_reply(stray).is_none());
    assert!(tr1.completed_traces().is_empty());
    // Hops are numbered along the route, with the recorded signal quality.
    let req = tr1.start_trace(node(2));
    let mut reply = RouteReply::from_request(&req, true);
    reply.route.push(node(2));
    reply.add_signal_quality(bits(-90.0), bits(3.0));
    let result = tr1.handle_reply(reply).unwrap();
    assert_eq!(result.hops.len(), 2);
    assert_eq!(result.hops[1].hop_number, 2);
    assert_eq!(result.hops[1].node_id.to_u32(), 2);
    assert_eq!(result.hops[0].rssi, Some(bits(-90.0)));
    assert_eq!(result.hops[1].rssi, None);
    assert!(result.total_rtt.is_some());
    assert_eq!(tr1.completed_traces().len(), 1);
    // Nothing times out right away.
    assert!(tr1.check_timeouts().is_empty());
}

#[test]
fn route_reply_rejects_short_data() {
    assert!(RouteReply::from_bytes(&[0u8; 15]).is_none());
    let mut b = vec![0u8; 16];
    b[13] = 1;
    assert!(RouteReply::from_bytes(&b).is_none());
    b.extend_from_slice(&[1, 0, 0, 0]);
    assert!(RouteReply::from_bytes(&b).is_some());
    b[14] = 1;
    assert!(RouteReply::from_bytes(&b).is_none());
}

#[test]
fn test_mac_busy_channel() {
    let mut mac = MacLayer::default();
    mac.queue_tx(vec![1, 2, 3]).unwrap();
    // Channel is busy
    let decision = mac.can_transmit(true, false, 16);
    match decision {
        TransmitDecision::Backoff(_) => {}
        _ => panic!("Expected backoff"),
    }
}

#[test]
fn test_mac_queue_full() {
    let mut mac = MacLayer::default();
    mac.max_queue_size = 2;
    mac.queue_tx(vec![1]).unwrap();
    mac.queue_tx(vec![2]).unwrap();
    let result = mac.queue_tx(vec![3]);
    assert!(matches!(result, Err(MacError::QueueFull)));
}

#[test]
fn test_csma_config() {
    let config = CsmaConfig::default();
    assert!(config.cw_min < config.cw_max);
    let target = f32::from_bits(config.target_utilization);
    assert!(target > 0.0 && target < 1.0);
    assert_eq!(f32::from_bits(config.cad_threshold), -115.0);
}

#[test]
fn mac_state_machine() {
    let mut mac = MacLayer::default();
    // Nothing queued: at the duty cycle limit the answer is no.
    assert_eq!(mac.can_transmit(false, true, 16), TransmitDecision::DutyCycleLimit);
    assert_eq!(mac.state(), ChannelState::Idle);
    mac.queue_tx(vec![1]).unwrap();
    mac.queue_tx(vec![2]).unwrap();
    assert_eq!(mac.queue_depth(), 2);
    // A busy channel starts a backoff within the window.
    match mac.can_transmit(true, false, 1000) {
        TransmitDecision::Backoff(n) => assert!(n < 16),
        d => panic!("unexpected {:?}", d),
    }
    assert_eq!(mac.state(), ChannelState::Backoff);
    // Packets leave in the order they were queued.
    assert_eq!(mac.start_tx(), Some(vec![1]));
    assert_eq!(mac.state(), ChannelState::Transmitting);
    assert_eq!(mac.can_transmit(true, false, 16), TransmitDecision::AlreadyTransmitting);
    mac.tx_complete();
    assert_eq!(mac.state(), ChannelState::Idle);
    mac.rx_start();
    assert_eq!(mac.state(), ChannelState::Receiving);
    mac.rx_complete();
    mac.collision();
    assert_eq!(mac.state(), ChannelState::Backoff);
    assert_eq!(mac.start_tx(), Some(vec![2]));
    assert_eq!(mac.start_tx(), None);
    mac.queue_tx(vec![3]).unwrap();
    mac.clear_queue();
    assert_eq!(mac.queue_depth(), 0);
}

#[test]
fn test_mesh_packet_broadcast() {
    let source = NodeId::random();
    let packet = MeshPacket::broadcast(source, b"Hello mesh!", 3);
    assert!(packet.header.is_broadcast());
    assert_eq!(packet.header.hop_limit, 3);
    assert_eq!(packet.payload, b"Hello mesh!");
}

#[test]
fn test_mesh_packet_direct() {
    let source = NodeId::random();
    let dest = NodeId::random();
    let packet = MeshPacket::direct(source, dest, b"Direct message");
    assert!(!packet.header.is_broadcast());
    assert!(packet.header.flags.want_ack());
    assert_eq!(packet.header.destination, dest);
}

#[test]
fn test_dedup_key() {
    let source = NodeId::from_bytes([0x11, 0x22, 0x33, 0x44]);
    let packet1 = MeshPacket::broadcast(source, b"Test", 3);
    let key1 = packet1.dedup_key();
    let packet2 = MeshPacket::broadcast(source, b"Test", 3);
    let key2 = packet2.dedup_key();
    assert_eq!(key1.0, key2.0);
}

#[test]
fn mesh_packet_wire_format() {
    let src = NodeId::from_bytes([1, 2, 3, 4]);
    let dst = NodeId::from_bytes([5, 6, 7, 8]);
    let mut p = MeshPacket::ack(src, dst, 0xABCD);
    assert_eq!(p.payload, vec![0xAB, 0xCD]);
    p.header.packet_id = 0x1234;
    let bytes = p.to_bytes();
    assert_eq!(bytes, vec![5, 6, 7, 8, 1, 2, 3, 4, 0x12, 0x34, 3, 0x01, 4, 0xAB, 0xCD]);
    // Reading back gives the packet.
    let q = MeshPacket::from_bytes(&bytes).unwrap();
    assert_eq!(q.header.source, src);
    assert_eq!(q.header.destination, dst);
    assert_eq!(q.header.packet_id, 0x1234);
    assert_eq!(q.header.hop_limit, 3);
    assert_eq!(q.packet_type, PacketType::Ack);
    assert_eq!(q.payload, vec![0xAB, 0xCD]);
    assert_eq!(q.mic, None);
    assert!(MeshPacket::from_bytes(&bytes[..12]).is_none());
    // An encrypted packet carries its integrity code at the end.
    let mut e = MeshPacket::broadcast(src, &[9, 9, 9], 2);
    e.header.flags.set_encrypted(true);
    e.mic = Some([0xDE, 0xAD, 0xBE, 0xEF]);
    let eb = e.to_bytes();
    let back = MeshPacket::from_bytes(&eb).unwrap();
    assert_eq!(back.mic, Some([0xDE, 0xAD, 0xBE, 0xEF]));
    assert_eq!(back.payload, vec![9, 9, 9]);
    assert_eq!(back.packet_type, PacketType::Text);
}

#[test]
fn mesh_packet_builders() {
    let src = NodeId::from_bytes([1, 2, 3, 4]);
    let pos = MeshPacket::position(src, 1.5f64.to_bits(), (-2.0f64).to_bits(), 10.0f32.to_bits());
    assert_eq!(pos.packet_type, PacketType::Position);
    assert_eq!(pos.header.flags.hop_start(), 3);
    let mut expected = 1.5f64.to_be_bytes().to_vec();
    expected.extend_from_slice(&(-2.0f64).to_be_bytes());
    expected.extend_from_slice(&10.0f32.to_be_bytes());
    assert_eq!(pos.payload, expected);
    let info = MeshPacket::node_info(src, "ABCDEF", "Node");
    assert_eq!(info.payload, vec![4, b'A', b'B', b'C', b'D', 4, b'N', b'o', b'd', b'e']);
    assert!(info.is_for_node(NodeId::from_bytes([9, 9, 9, 9])));
    let mut d = MeshPacket::direct(src, NodeId::from_bytes([7, 7, 7, 7]), b"x");
    assert!(d.is_for_node(NodeId::from_bytes([7, 7, 7, 7])));
    assert!(!d.is_for_node(src));
    assert!(d.decrement_hop_limit());
    assert_eq!(d.header.hop_limit, 2);
    d.header.hop_limit = 0;
    assert!(!d.decrement_hop_limit());
    assert_eq!(d.header.hop_limit, 0);
    d.set_rx_metadata((-90.0f32).to_bits(), 5.5f32.to_bits());
    assert_eq!(d.rx_rssi.map(f32::from_bits), Some(-90.0));
    assert!(d.rx_time.is_some());
}

#[test]
fn test_packet_encrypt_decrypt() {
    let ctx = CryptoContext::with_default_psk("TestChannel");
    let source = NodeId::from_bytes([0xAA, 0xBB, 0xCC, 0xDD]);
    let mut packet = MeshPacket::broadcast(source, b"Test payload", 3);
    packet.packet_type = PacketType::Text;
    assert!(!packet.header.flags.encrypted());
    assert!(packet.mic.is_none());
    packet.encrypt(&ctx).expect("Encryption failed");
    assert!(packet.header.flags.encrypted());
    assert!(packet.mic.is_some());
    assert_ne!(packet.payload, b"Test payload");
    packet.decrypt(&ctx).expect("Decryption failed");
    assert!(!packet.header.flags.encrypted());
    assert!(packet.mic.is_none());
    assert_eq!(packet.payload, b"Test payload");
}

#[test]
fn packet_decrypt_rejects_tampering() {
    let ctx = CryptoContext::with_default_psk("TestChannel");
    let source = NodeId::from_bytes([1, 2, 3, 4]);
    let mut packet = MeshPacket::broadcast(source, b"abc", 3);
    packet.encrypt(&ctx).unwrap();
    // Encrypting twice changes nothing.
    let once = packet.payload.clone();
    packet.encrypt(&ctx).unwrap();
    assert_eq!(packet.payload, once);
    packet.payload[0] ^= 1;
    assert!(matches!(packet.decrypt(&ctx), Err(CryptoError::MicMismatch)));
    assert!(packet.header.flags.encrypted());
    packet.mic = None;
    assert!(matches!(packet.decrypt(&ctx), Err(CryptoError::MicMismatch)));
    // An unencrypted packet decrypts to itself.
    let mut plain = MeshPacket::broadcast(source, b"xyz", 3);
    plain.decrypt(&ctx).unwrap();
    assert_eq!(plain.payload, b"xyz");
}

#[test]
fn node_stats_default() {
    let s = NodeStats::default();
    assert_eq!(s.messages_sent + s.messages_received + s.packets_forwarded, 0);
    assert_eq!(s.neighbors_discovered, 0);
}

#[test]
fn expire_traces_removes_listed_pending_traces() {
    let mut tr = Traceroute::with_defaults(node(1));
    let r1 = tr.start_trace(node(7));
    let r2 = tr.start_trace(node(8));
    assert_eq!(tr.pending_count(), 2);
    let out = tr.expire_traces(&[r1.request_id, 999, r1.request_id]);
    assert_eq!(out.len(), 1);
    assert_eq!(out[0].request_id, r1.request_id);
    assert!(!out[0].reached);
    assert!(out[0].completed_at.is_some());
    assert_eq!(tr.pending_count(), 1);
    assert_eq!(tr.completed_traces().len(), 1);
    let out = tr.expire_traces(&[r2.request_id]);
    assert_eq!(out.len(), 1);
    assert_eq!(out[0].destination, node(8));
    assert_eq!(tr.pending_count(), 0);
    assert_eq!(tr.completed_traces().len(), 2);
}

#[test]
fn check_timeouts_keeps_fresh_traces() {
    let mut tr = Traceroute::with_defaults(node(1));
    tr.start_trace(node(7));
    assert!(tr.check_timeouts().is_empty());
    assert_eq!(tr.pending_count(), 1);
}

#[test]
fn mac_step_timing_decisions() {
    // Idle: a DIFS of 50 ms must pass before transmitting.
    let mut mac = MacLayer::new(CsmaConfig::default());
    assert_eq!(mac.mac_step(false, false, 16, 49, 0), TransmitDecision::WaitDifs);
    assert_eq!(mac.mac_step(false, false, 16, 50, 0), TransmitDecision::NothingToSend);
    mac.queue_tx(vec![1, 2, 3]).unwrap();
    assert_eq!(mac.mac_step(false, false, 16, 50, 0), TransmitDecision::TransmitNow);
    assert_eq!(mac.mac_step(false, true, 16, 50, 0), TransmitDecision::DutyCycleLimit);
    // Busy: a backoff of jitter mod window slots starts.
    assert_eq!(mac.mac_step(true, false, 16, 0, 37), TransmitDecision::Backoff(5));
    assert_eq!(mac.state(), ChannelState::Backoff);
    // Backoff: 20 ms of 10 ms slots count two slots down.
    assert_eq!(mac.mac_step(false, false, 16, 20, 0), TransmitDecision::Backoff(3));
    // Once the slots have passed, transmit.
    assert_eq!(mac.mac_step(false, false, 16, 30, 0), TransmitDecision::TransmitNow);
    assert_eq!(mac.state(), ChannelState::Idle);
}

#[test]
fn timeout_and_clock_readings() {
    assert!(!r4w_core::mesh::traceroute::is_timed_out(30_000_000_000, 30));
    assert!(r4w_core::mesh::traceroute::is_timed_out(30_000_000_001, 30));
    assert_eq!(PacketHeader::packet_id_from_micros(0x1_2345_6789), 0x6789);
    assert_eq!(NodeId::from_clock_nanos(0xAB_0102_0304), NodeId::from_bytes([1, 2, 3, 4]));
    assert_eq!(Telemetry::timestamp_from_secs(0x1_0000_0005), 5);
}

#[test]
fn expire_timed_out_removes_exactly_the_traces_past_the_timeout() {
    let mut tr = Traceroute::with_defaults(node(1));
    let r1 = tr.start_trace(node(7));
    let r2 = tr.start_trace(node(8));
    let r3 = tr.start_trace(node(9));
    // The default timeout is 30 s: exactly 30 s is not past it.
    let readings = [
        (r1.request_id, 30_000_000_001u128),
        (r2.request_id, 30_000_000_000u128),
        (r3.request_id, 5u128),
        (12345, 99_000_000_000u128),
    ];
    let out = tr.expire_timed_out(&readings);
    assert_eq!(out.len(), 1);
    assert_eq!(out[0].request_id, r1.request_id);
    assert!(!out[0].reached);
    assert_eq!(tr.pending_count(), 2);
    let out = tr.expire_timed_out(&[(r3.request_id, 31_000_000_000), (r2.request_id, 0)]);
    assert_eq!(out.len(), 1);
    assert_eq!(out[0].destination, node(9));
    assert_eq!(tr.pending_count(), 1);
    assert_eq!(tr.completed_traces().len(), 2);
}

#[test]
fn neighbor_bookkeeping_decisions() {
    assert_eq!(oldest_entry(&[]), None);
    assert_eq!(oldest_entry(&[(1, 5), (2, 9), (3, 9), (4, 1)]), Some(3));
    let ages = [(1u32, 7_200_000_000_001u128), (2, 7_200_000_000_000), (3, 0), (4, 9_000_000_000_000)];
    assert_eq!(stale_entries(&ages, 7200), vec![1, 4]);
    assert_eq!(expired_prefix(&[61_000_000_000, 60_000_000_001, 60_000_000_000, 99_000_000_000], 60), 2);
    assert_eq!(expired_prefix(&[], 60), 0);
    assert_eq!(expired_prefix(&[61_000_000_000], 60), 1);
}
