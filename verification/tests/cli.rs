use r4w_core::cli::{
    parse_node_id, parse_preset, parse_region, preset_from_name, region_from_name, validate_bw, validate_cr,
    validate_sf, CliError,
};
use r4w_core::mesh::meshtastic::{ModemPreset, Region};
use r4w_core::mesh::packet::NodeId;

#[test]
fn spreading_factor_range() {
    assert_eq!(validate_sf(5), Ok(5));
    assert_eq!(validate_sf(12), Ok(12));
    assert_eq!(validate_sf(4), Err(CliError::InvalidSpreadingFactor(4)));
    assert_eq!(validate_sf(13), Err(CliError::InvalidSpreadingFactor(13)));
}

#[test]
fn bandwidth_in_hz() {
    assert_eq!(validate_bw(125), Ok(125_000));
    assert_eq!(validate_bw(250), Ok(250_000));
    assert_eq!(validate_bw(500), Ok(500_000));
    assert_eq!(validate_bw(200), Err(CliError::InvalidBandwidth(200)));
}

#[test]
fn coding_rate_range() {
    assert_eq!(validate_cr(5), Ok(5));
    assert_eq!(validate_cr(8), Ok(8));
    assert_eq!(validate_cr(9), Err(CliError::InvalidCodingRate(9)));
}

#[test]
fn preset_names() {
    assert_eq!(parse_preset("LongFast"), Ok(ModemPreset::LongFast));
    assert_eq!(parse_preset("MEDIUM_SLOW"), Ok(ModemPreset::MediumSlow));
    assert_eq!(parse_preset("medfast"), Ok(ModemPreset::MediumFast));
    assert_eq!(parse_preset("Fastest"), Err(CliError::UnknownPreset("Fastest".to_string())));
    assert_eq!(preset_from_name("short_slow"), Some(ModemPreset::ShortSlow));
    assert_eq!(preset_from_name("ShortSlow"), None);
}

#[test]
fn region_names() {
    assert_eq!(parse_region("eu868"), Ok(Region::EU));
    assert_eq!(parse_region("Australia"), Ok(Region::ANZ));
    assert_eq!(parse_region("mars"), Err(CliError::UnknownRegion("mars".to_string())));
    assert_eq!(region_from_name("IN"), Some(Region::IN));
    assert_eq!(region_from_name("in"), None);
}

#[test]
fn node_id_hex() {
    assert_eq!(parse_node_id(&None), Ok(None));
    assert_eq!(parse_node_id(&Some("0x1a2B3c4D".to_string())), Ok(Some(NodeId::from_u32(0x1A2B3C4D))));
    assert_eq!(parse_node_id(&Some("0x0xff".to_string())), Ok(Some(NodeId::from_u32(0xFF))));
    assert_eq!(parse_node_id(&Some("+10".to_string())), Ok(Some(NodeId::from_u32(16))));
    assert_eq!(parse_node_id(&Some("123456789".to_string())), Err(CliError::InvalidNodeId("123456789".to_string())));
    assert_eq!(parse_node_id(&Some("0x".to_string())), Err(CliError::InvalidNodeId("0x".to_string())));
    assert_eq!(parse_node_id(&Some("12g4".to_string())), Err(CliError::InvalidNodeId("12g4".to_string())));
    assert_eq!(parse_node_id(&Some("+".to_string())), Err(CliError::InvalidNodeId("+".to_string())));
}
