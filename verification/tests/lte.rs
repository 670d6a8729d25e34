use r4w_core::lte::{
    attach_crc16_rnti, attach_crc24a, crc16_ccitt, crc24a, default_reps, pack_dci, qpp_interleave_idx,
    qpp_params, rate_match, tbs_dl, tbs_ul_multi_tone, tbs_ul_single_tone, turbo_encode,
    CatNb2CarrierManager, CoverageLevel, DciFormat, DeploymentMode, LteCatNb2Processor, NbCarrier,
    NbScrambler, NpbchEncoder, NpdcchEncoder, NpdschEncoder, NprachConfig, NprachCoverageLevel,
    NpuschEncoder, NpuschFormat, TbccEncoder,
    UlSubcarrierMode,
};

#[test]
fn test_tbs_dl_basic() {
    let tbs = tbs_dl(0, 1).unwrap();
    assert_eq!(tbs, 16);
}

#[test]
fn test_tbs_dl_max() {
    let tbs = tbs_dl(13, 10).unwrap();
    assert_eq!(tbs, 2536);
}

#[test]
fn test_tbs_dl_out_of_range() {
    assert!(tbs_dl(14, 1).is_none());
    assert!(tbs_dl(0, 7).is_none());
}

#[test]
fn test_tbs_ul_single_tone() {
    let tbs = tbs_ul_single_tone(0, 1).unwrap();
    assert_eq!(tbs, 16);
    let tbs2 = tbs_ul_single_tone(7, 10).unwrap();
    assert_eq!(tbs2, 536);
}

#[test]
fn test_tbs_ul_single_tone_out_of_range() {
    assert!(tbs_ul_single_tone(8, 1).is_none());
    assert!(tbs_ul_single_tone(0, 0).is_none());
    assert!(tbs_ul_single_tone(0, 11).is_none());
}

#[test]
fn test_tbs_ul_multi_tone_3sc() {
    let tbs = tbs_ul_multi_tone(0, 3, 1).unwrap();
    assert_eq!(tbs, 32);
}

#[test]
fn test_tbs_ul_multi_tone_6sc() {
    let tbs = tbs_ul_multi_tone(0, 6, 1).unwrap();
    assert_eq!(tbs, 56);
}

#[test]
fn test_tbs_ul_multi_tone_12sc_max() {
    let tbs = tbs_ul_multi_tone(13, 12, 8).unwrap();
    assert_eq!(tbs, 8504);
    let tbs2 = tbs_ul_multi_tone(13, 12, 6).unwrap();
    assert_eq!(tbs2, 6968);
}

#[test]
fn test_tbs_ul_invalid_sc() {
    assert!(tbs_ul_multi_tone(0, 4, 1).is_none());
    assert!(tbs_ul_multi_tone(0, 12, 9).is_none());
}

#[test]
fn test_scrambler_deterministic() {
    let mut s1 = NbScrambler::new(0x1234);
    let mut s2 = NbScrambler::new(0x1234);
    let b1: Vec<u8> = (0..100).map(|_| s1.next_bit()).collect();
    let b2: Vec<u8> = (0..100).map(|_| s2.next_bit()).collect();
    assert_eq!(b1, b2);
}

#[test]
fn test_scrambler_different_seeds() {
    let mut s1 = NbScrambler::new(0x0001);
    let mut s2 = NbScrambler::new(0x0002);
    let b1: Vec<u8> = (0..50).map(|_| s1.next_bit()).collect();
    let b2: Vec<u8> = (0..50).map(|_| s2.next_bit()).collect();
    assert_ne!(b1, b2);
}

#[test]
fn test_scrambler_self_inverse() {
    let data = vec![1u8, 0, 1, 1, 0, 0, 1, 0, 1, 1];
    let mut s1 = NbScrambler::new(42);
    let mut scrambled = data.clone();
    s1.scramble(&mut scrambled);
    let mut s2 = NbScrambler::new(42);
    let mut recovered = scrambled.clone();
    s2.scramble(&mut recovered);
    assert_eq!(data, recovered);
}

#[test]
fn test_crc24a_known() {
    let bits = vec![1u8, 0, 1, 0, 1, 0, 1, 0];
    let crc = crc24a(&bits);
    assert!(crc <= 0xFFFFFF);
}

#[test]
fn test_crc24a_zero_input() {
    let bits = vec![0u8; 32];
    let crc = crc24a(&bits);
    assert_eq!(crc, 0);
}

#[test]
fn test_attach_crc24a_length() {
    let data = vec![1u8; 40];
    let with_crc = attach_crc24a(&data);
    assert_eq!(with_crc.len(), 64);
}

#[test]
fn test_tbcc_rate() {
    let bits = vec![1u8, 0, 1, 0, 1, 0, 1, 0];
    let mut enc = TbccEncoder::new();
    let coded = enc.encode_tail_biting(&bits);
    assert_eq!(coded.len(), bits.len() * 3);
}

#[test]
fn test_tbcc_all_zeros() {
    let bits = vec![0u8; 16];
    let mut enc = TbccEncoder::new();
    let coded = enc.encode_tail_biting(&bits);
    assert_eq!(coded.len(), 48);
    assert!(coded.iter().all(|&b| b == 0 || b == 1));
}

#[test]
fn test_tbcc_reproducible() {
    let bits = vec![1u8, 0, 1, 1, 0, 0, 1, 0, 1, 1, 0, 1];
    let mut enc1 = TbccEncoder::new();
    let mut enc2 = TbccEncoder::new();
    let c1 = enc1.encode_tail_biting(&bits);
    let c2 = enc2.encode_tail_biting(&bits);
    assert_eq!(c1, c2);
}

#[test]
fn test_rate_match_expand() {
    let coded = vec![1u8, 0, 1];
    let rm = rate_match(&coded, 9);
    assert_eq!(rm, vec![1, 0, 1, 1, 0, 1, 1, 0, 1]);
}

#[test]
fn test_rate_match_truncate() {
    let coded: Vec<u8> = (0..20).map(|i| (i % 2) as u8).collect();
    let rm = rate_match(&coded, 5);
    assert_eq!(rm.len(), 5);
}

#[test]
fn test_turbo_rate() {
    let bits = vec![
        1u8, 0, 1, 0, 1, 0, 1, 0, 1, 0, 0, 0, 1, 1, 1, 0, 1, 0, 1, 0, 1, 0, 1, 0, 1, 0, 0, 0, 1, 1, 1,
        0, 1, 0, 1, 0, 1, 0, 1, 0,
    ];
    let coded = turbo_encode(&bits);
    assert_eq!(coded.len(), bits.len() * 3);
}

#[test]
fn test_turbo_bits_valid() {
    let bits = vec![0u8; 64];
    let coded = turbo_encode(&bits);
    assert!(coded.iter().all(|&b| b == 0 || b == 1));
}

#[test]
fn test_npusch_nsc_single_tone() {
    let enc = NpuschEncoder::new(0, 1, NpuschFormat::Format1, UlSubcarrierMode::SingleTone15k);
    assert_eq!(enc.n_sc(), 1);
}

#[test]
fn test_npusch_nsc_multi_tone_6() {
    let enc = NpuschEncoder::new(0, 1, NpuschFormat::Format1, UlSubcarrierMode::MultiTone6);
    assert_eq!(enc.n_sc(), 6);
}

#[test]
fn test_carrier_manager_anchor() {
    let anchor = NbCarrier::anchor(869_000, 42, DeploymentMode::Standalone);
    let mgr = CatNb2CarrierManager::new(anchor);
    assert!(mgr.active_carrier().is_anchor);
    assert_eq!(mgr.active_carrier().center_freq_khz, 869_000);
}

#[test]
fn test_carrier_switch() {
    let anchor = NbCarrier::anchor(869_000, 42, DeploymentMode::Standalone);
    let mut mgr = CatNb2CarrierManager::new(anchor);
    let na = NbCarrier::non_anchor(1, 870_000, 42, DeploymentMode::Standalone);
    mgr.add_non_anchor(na);
    let ok = mgr.switch_carrier(1);
    assert!(ok);
    assert!(!mgr.active_carrier().is_anchor);
    assert_eq!(mgr.active_carrier().center_freq_khz, 870_000);
}

#[test]
fn test_carrier_switch_back_to_anchor() {
    let anchor = NbCarrier::anchor(869_000, 42, DeploymentMode::Standalone);
    let mut mgr = CatNb2CarrierManager::new(anchor);
    let na = NbCarrier::non_anchor(1, 870_000, 42, DeploymentMode::Standalone);
    mgr.add_non_anchor(na);
    mgr.switch_carrier(1);
    mgr.switch_carrier(0);
    assert!(mgr.active_carrier().is_anchor);
}

#[test]
fn test_default_reps_coverage_levels() {
    let (d0, s0, u0) = default_reps(CoverageLevel::CE0);
    assert_eq!((d0, s0, u0), (1, 1, 1));
    let (d2, s2, u2) = default_reps(CoverageLevel::CE2);
    assert_eq!((d2, s2, u2), (2048, 2048, 128));
}

#[test]
fn test_processor_new() {
    let proc = LteCatNb2Processor::new(100, DeploymentMode::Standalone, CoverageLevel::CE0, 869_000);
    assert_eq!(proc.cell_id, 100);
    assert_eq!(proc.deployment, DeploymentMode::Standalone);
}

#[test]
fn test_dci_n2_pack() {
    let dci = DciFormat::N2 { direct_indication: 0x42 };
    let bits = pack_dci(&dci);
    assert_eq!(bits.len(), 8);
}

#[test]
fn test_crc16_ccitt_known() {
    let data: Vec<u8> = b"123456789".to_vec();
    let crc = crc16_ccitt(&data);
    assert_eq!(crc, 0x29B1);
}

#[test]
fn test_qpp_params_coverage() {
    let known_sizes = [40, 48, 64, 96, 128, 160, 192, 256, 320, 384, 512];
    for &k in &known_sizes {
        let (f1, f2) = qpp_params(k);
        assert!(f1 > 0 && f2 > 0, "k={} f1={} f2={}", k, f1, f2);
    }
}

// ---------------------------------------------------------------------------
// Further checks of the library on concrete values
// ---------------------------------------------------------------------------

#[test]
fn scrambler_sequence_values() {
    let mut s = NbScrambler::new(42);
    let bits: Vec<u8> = (0..10).map(|_| s.next_bit()).collect();
    assert_eq!(bits, vec![0, 1, 0, 1, 1, 0, 1, 0, 1, 0]);
    let mut data = vec![1u8, 1, 1];
    NbScrambler::new(42).scramble(&mut data);
    assert_eq!(data, vec![1, 0, 1]);
}

#[test]
fn crc24a_values() {
    assert_eq!(crc24a(&[1, 0, 1, 0, 1, 0, 1, 0]), 0x14C279);
    assert_eq!(crc24a(&[1]), 0x864CFB);
    let with = attach_crc24a(&[1]);
    assert_eq!(with.len(), 25);
    assert_eq!(&with[1..5], &[1, 0, 0, 0]);
}

#[test]
fn tbcc_tail_biting_values() {
    let mut enc = TbccEncoder::new();
    assert_eq!(enc.encode_tail_biting(&[1, 0, 1, 1]), vec![1, 0, 1, 0, 1, 0, 0, 0, 1, 0, 0, 0]);
    // The register starts from the last six bits: the trailing 1 is in it.
    assert_eq!(&enc.encode_tail_biting(&[1, 0, 0, 0, 0, 0, 0])[..3], &[1, 1, 1]);
}

#[test]
fn turbo_values() {
    assert_eq!(
        turbo_encode(&[1, 0, 0, 0, 0, 0, 0, 0]),
        vec![1, 0, 0, 0, 0, 0, 0, 1, 1, 0, 0, 0, 0, 0, 0, 0, 1, 1, 0, 1, 1, 0, 1, 0]
    );
    assert_eq!(qpp_interleave_idx(3, 40, 3, 10), (9 + 90) % 40);
    assert_eq!(qpp_params(1000), (3, 125));
    assert_eq!(qpp_params(2560), (51, 20));
}

#[test]
fn dci_bit_layouts() {
    let n0 = DciFormat::N0 {
        subcarrier_indication: 0x3F,
        resource_assignment: 5,
        mcs: 9,
        scheduling_delay: 2,
        rep_num: 7,
        new_data_indicator: true,
    };
    assert_eq!(
        pack_dci(&n0),
        vec![0, 1, 1, 1, 1, 1, 1, 1, 0, 1, 1, 0, 0, 1, 1, 0, 1, 1, 1, 1]
    );
    let n1 = DciFormat::N1 {
        npdcch_order: true,
        scheduling_delay: 1,
        resource_assignment: 2,
        mcs: 3,
        rep_num: 4,
        new_data_indicator: false,
        harq_ack_resource: 15,
    };
    assert_eq!(
        pack_dci(&n1),
        vec![1, 0, 0, 1, 0, 1, 0, 0, 0, 1, 1, 0, 1, 0, 0, 0, 1, 1, 1, 1]
    );
    assert_eq!(pack_dci(&DciFormat::N2 { direct_indication: 0x42 }), vec![0, 1, 0, 0, 0, 0, 1, 0]);
}

#[test]
fn crc16_rnti_masking() {
    let out = attach_crc16_rnti(&[1, 0, 1], 0x1234);
    assert_eq!(out.len(), 19);
    let mut v: u16 = 0;
    for &b in &out[3..] {
        v = (v << 1) | b as u16;
    }
    assert_eq!(v, 0xF9B9);
}

#[test]
fn carrier_switch_unknown_id_keeps_active() {
    let anchor = NbCarrier::anchor(869_000, 1, DeploymentMode::GuardBand);
    let mut mgr = CatNb2CarrierManager::new(anchor);
    mgr.add_non_anchor(NbCarrier::non_anchor(2, 871_000, 1, DeploymentMode::GuardBand));
    assert!(!mgr.switch_carrier(3));
    assert_eq!(mgr.active_carrier_id, 0);
    assert!(mgr.switch_carrier(2));
    assert_eq!(mgr.active_carrier().carrier_id, 2);
}

#[test]
fn processor_uses_coverage_repetitions() {
    let p = LteCatNb2Processor::new(7, DeploymentMode::InBand, CoverageLevel::CE1, 900_000);
    assert_eq!(p.npdcch.n_rep, 16);
    assert_eq!(p.npdsch.n_rep, 16);
    assert_eq!(p.npusch.n_rep, 8);
    assert_eq!(p.npusch.n_sc(), 12);
    assert_eq!(p.carrier_manager.active_carrier().center_freq_khz, 900_000);
}

#[test]
fn nprach_config_defaults() {
    let c = NprachConfig::new(NprachCoverageLevel::Level2, 64);
    assert_eq!(c.n_rep, 64);
    assert_eq!(c.subcarrier_start, 0);
    assert_eq!(c.n_sc_ra, 12);
}

fn pack_bits(bits: &[u8]) -> Vec<u8> {
    bits.chunks(8).filter(|c| c.len() == 8).map(|c| c.iter().fold(0u8, |a, &b| (a << 1) | b)).collect()
}

fn ones(bits: &[u8]) -> usize {
    bits.iter().filter(|&&b| b == 1).count()
}

#[test]
fn npbch_encode_bits_values() {
    let mut payload = [0u8; 34];
    for (i, p) in payload.iter_mut().enumerate() {
        *p = i as u8;
    }
    let enc = NpbchEncoder::new(1, DeploymentMode::Standalone);
    let bits = enc.encode_bits(&payload);
    assert_eq!(bits.len(), 1600);
    assert_eq!(ones(&bits), 815);
    assert_eq!(pack_bits(&bits[..32]), vec![83, 205, 126, 241]);
    let other = NpbchEncoder::new(2, DeploymentMode::Standalone).encode_bits(&payload);
    assert_ne!(bits, other);
}

#[test]
fn npdcch_encode_bits_values() {
    let enc = NpdcchEncoder::new(7, 1);
    let bits = enc.encode_bits(&DciFormat::N2 { direct_indication: 0xA5 }, 0x1234);
    assert_eq!(bits.len(), 288);
    assert_eq!(ones(&bits), 126);
    assert_eq!(pack_bits(&bits[..32]), vec![74, 42, 48, 5]);
}

#[test]
fn npdsch_encode_bits_values() {
    let enc = NpdschEncoder::new(7, 1);
    let bits = enc.encode_bits(&[1, 2, 3, 4], 0x1234);
    // 56 bits with CRC, turbo coded to 168.
    assert_eq!(bits.len(), 168);
    assert_eq!(ones(&bits), 76);
    assert_eq!(pack_bits(&bits[..32]), vec![242, 32, 88, 154]);
}

#[test]
fn npusch_encode_bits_values() {
    let single = NpuschEncoder::new(7, 1, NpuschFormat::Format1, UlSubcarrierMode::SingleTone15k);
    let bits = single.encode_format1_bits(&[1, 2, 3, 4], 0x1234);
    assert_eq!(bits.len(), 24);
    assert_eq!(ones(&bits), 9);
    assert_eq!(pack_bits(&bits), vec![242, 32, 88]);
    let multi = NpuschEncoder::new(7, 1, NpuschFormat::Format1, UlSubcarrierMode::MultiTone12);
    let bits12 = multi.encode_format1_bits(&[1, 2, 3, 4], 0x1234);
    assert_eq!(bits12.len(), 168);
    assert_eq!(&bits12[..24], &bits[..]);
    let ack = single.encode_format2_bits(true, 0x1234);
    assert_eq!(ack, vec![0, 1, 1, 0, 1, 1, 1, 0, 1, 0, 1, 1, 1, 1, 0, 0]);
    let nack = single.encode_format2_bits(false, 0x1234);
    assert_eq!(nack, vec![1, 0, 0, 1, 0, 0, 0, 1, 0, 1, 0, 0, 0, 0, 1, 1]);
}

#[test]
fn scrambler_seeds_differ_within_31_bits() {
    for (c1, c2) in [(1u32, 2u32), (0x1234_5678, 0x1234_5679), (0, 0x4000_0000)] {
        let mut s1 = NbScrambler::new(c1);
        let mut s2 = NbScrambler::new(c2);
        let b1: Vec<u8> = (0..31).map(|_| s1.next_bit()).collect();
        let b2: Vec<u8> = (0..31).map(|_| s2.next_bit()).collect();
        assert_ne!(b1, b2, "seeds {:#x} and {:#x}", c1, c2);
    }
}

#[test]
fn scrambler_ignores_seed_bit_31() {
    let mut s1 = NbScrambler::new(1);
    let mut s2 = NbScrambler::new(0x8000_0001);
    let b1: Vec<u8> = (0..64).map(|_| s1.next_bit()).collect();
    let b2: Vec<u8> = (0..64).map(|_| s2.next_bit()).collect();
    assert_eq!(b1, b2);
}

#[test]
fn npbch_bits_differ_between_cells() {
    let payload = [1u8; 34];
    let b0 = NpbchEncoder::new(0, DeploymentMode::Standalone).encode_bits(&payload);
    let b1 = NpbchEncoder::new(100, DeploymentMode::Standalone).encode_bits(&payload);
    assert_eq!(b0.len(), 1600);
    assert_ne!(b0, b1);
}

#[test]
fn crc24a_is_linear_and_leaves_zero_remainder() {
    let a = vec![1u8, 0, 1, 1, 0, 0, 1, 0, 1, 1, 1, 0, 0, 0, 1];
    let b = vec![0u8, 1, 1, 0, 1, 0, 0, 1, 1, 0, 0, 0, 1, 1, 1];
    let x: Vec<u8> = a.iter().zip(b.iter()).map(|(p, q)| p ^ q).collect();
    assert_eq!(crc24a(&x), crc24a(&a) ^ crc24a(&b));
    for n in [0usize, 1, 7, 24, 100] {
        assert_eq!(crc24a(&vec![0u8; n]), 0);
    }
    assert_eq!(crc24a(&attach_crc24a(&a)), 0);
    assert_eq!(crc24a(&attach_crc24a(&b)), 0);
}
