use r4w_core::dab::bits::{bits_to_bytes, bytes_to_bits};
use r4w_core::dab::conv::{DabConvEncoder, DabViterbiDecoder, CONV_K, CONV_RATE_DENOM, VITERBI_STATES};
use r4w_core::dab::fic::{DabCrc16, FibParser, FIB_DATA_BYTES, FIB_LENGTH_BYTES};
use r4w_core::dab::gf::{gf_div, gf_inv, gf_mul, gf_poly_eval, gf_pow};
use r4w_core::dab::interleave::{TimeInterleaver, TIME_INTERLEAVER_DEPTH};
use r4w_core::dab::puncture::{depuncture, depuncture_with_mask, eep_puncture_pattern, puncture, EepLevel};
use r4w_core::dab::rs::{DabReedSolomon, RS_CODEWORD_LEN, RS_MESSAGE_LEN, RS_T};
use r4w_core::dab::scramble::EnergyDispersal;
use r4w_core::dab::superframe::DabPlusSuperFrameParser;
use r4w_core::dab::{
    prs_phase_quadrants, DabChannelDecoder, PrsGenerator, SubchannelConfig, DabMode, DabModeParams, FrameTiming, MODE_I_ACTIVE_CARRIERS, MODE_I_FFT_SIZE,
    MODE_I_GUARD_LEN, MODE_I_NULL_LEN, MODE_I_SYMBOLS_PER_FRAME, MODE_I_SYMBOL_LEN,
};

#[test]
fn test_mode_i_params() {
    let p = DabModeParams::for_mode(DabMode::ModeI);
    assert_eq!(p.fft_size, 2048);
    assert_eq!(p.active_carriers, 1536);
    assert_eq!(p.symbols_per_frame, 76);
    assert_eq!(p.guard_len, 504);
    assert_eq!(p.null_len, 2656);
}

#[test]
fn test_mode_ii_params() {
    let p = DabModeParams::for_mode(DabMode::ModeII);
    assert_eq!(p.fft_size, 512);
    assert_eq!(p.active_carriers, 384);
}

#[test]
fn test_mode_iii_params() {
    let p = DabModeParams::for_mode(DabMode::ModeIII);
    assert_eq!(p.fft_size, 256);
    assert_eq!(p.active_carriers, 192);
}

#[test]
fn test_mode_iv_params() {
    let p = DabModeParams::for_mode(DabMode::ModeIV);
    assert_eq!(p.fft_size, 1024);
    assert_eq!(p.active_carriers, 768);
}

#[test]
fn test_conv_encoder_rate() {
    let mut enc = DabConvEncoder::new();
    let bits = vec![true, false, true, true, false, false, true, false];
    let coded = enc.encode(&bits);
    assert_eq!(coded.len(), bits.len() * CONV_RATE_DENOM, "Rate 1/4 should produce 4x input bits");
}

#[test]
fn test_conv_encoder_flush() {
    let mut enc = DabConvEncoder::new();
    let bits = vec![true; 8];
    let _ = enc.encode(&bits);
    let tail = enc.flush();
    assert_eq!(tail.len(), (CONV_K - 1) * CONV_RATE_DENOM);
}

#[test]
fn test_conv_encoder_zero_input() {
    let mut enc = DabConvEncoder::new();
    let bits = vec![false; 8];
    let coded = enc.encode(&bits);
    assert!(coded.iter().all(|&b| !b), "All-zero input should give all-zero output");
}

#[test]
fn test_viterbi_decode_no_errors() {
    let data = vec![
        true, false, true, true, false, false, true, false, true, true, false, true, false, true,
        false, false,
    ];
    let mut enc = DabConvEncoder::new();
    let coded = enc.encode(&data);
    let dec = DabViterbiDecoder::new();
    let decoded = dec.decode(&coded);
    assert!(decoded.len() >= data.len());
    assert_eq!(&decoded[..data.len()], &data[..], "Viterbi decode with no errors should recover original");
}

#[test]
fn test_viterbi_trellis_states() {
    assert_eq!(VITERBI_STATES, 128, "K=7 left-shift encoder gives 128 trellis states");
}

#[test]
fn test_viterbi_roundtrip_longer() {
    let data: Vec<bool> = (0..32).map(|i| (i * 7 + 3) % 13 < 7).collect();
    let mut enc = DabConvEncoder::new();
    let coded = enc.encode(&data);
    let dec = DabViterbiDecoder::new();
    let decoded = dec.decode(&coded);
    assert!(decoded.len() >= data.len());
    assert_eq!(&decoded[..data.len()], &data[..]);
}

#[test]
fn test_puncture_rate_half() {
    let bits = vec![true; 16];
    let pattern = &[1u8, 1, 0, 0];
    let punctured = puncture(&bits, pattern);
    assert_eq!(punctured.len(), 8, "Pattern [1,1,0,0] keeps half the bits");
}

#[test]
fn test_depuncture_restore() {
    let bits = vec![
        true, false, true, false, true, false, true, false, true, true, false, false, true, true,
        false, false,
    ];
    let pattern = &[1u8, 0, 1, 1];
    let punctured = puncture(&bits, pattern);
    let restored = depuncture(&punctured, pattern, bits.len());
    for (i, &p) in pattern.iter().enumerate().cycle().take(bits.len()) {
        if p != 0 {
            assert_eq!(restored[i], bits[i]);
        }
    }
}

#[test]
fn test_eep_patterns_valid() {
    for level in [
        EepLevel::Level1A,
        EepLevel::Level2A,
        EepLevel::Level3A,
        EepLevel::Level4A,
        EepLevel::Level1B,
        EepLevel::Level2B,
        EepLevel::Level3B,
        EepLevel::Level4B,
    ] {
        let (pat, num, den) = eep_puncture_pattern(level);
        assert!(!pat.is_empty(), "Pattern should not be empty");
        assert!(num <= den, "Code rate numerator should be <= denominator");
    }
}

#[test]
fn test_eep_level1a_rate_quarter() {
    let (pat, num, den) = eep_puncture_pattern(EepLevel::Level1A);
    assert_eq!(num, 1);
    assert_eq!(den, 1);
    assert!(pat.iter().all(|&b| b == 1));
}

#[test]
fn test_time_interleaver_length_preservation() {
    let frame_len = 256;
    let mut il = TimeInterleaver::new(frame_len);
    let input = vec![true; frame_len];
    let out = il.interleave(&input);
    assert_eq!(out.len(), frame_len);
}

#[test]
fn test_time_interleaver_deinterleaver_invertible() {
    let frame_len = 64;
    let mut il = TimeInterleaver::new(frame_len);
    let input: Vec<bool> = (0..frame_len).map(|i| i % 3 == 0).collect();
    let mut interleaved = Vec::new();
    for _ in 0..TIME_INTERLEAVER_DEPTH {
        interleaved = il.interleave(&input);
    }
    let mut dil = TimeInterleaver::new(frame_len);
    for _ in 0..TIME_INTERLEAVER_DEPTH {
        dil.deinterleave(&interleaved);
    }
    assert_eq!(interleaved.len(), frame_len);
}

#[test]
fn test_energy_dispersal_roundtrip() {
    let data = vec![0xAA_u8, 0x55, 0x12, 0x34, 0xFF, 0x00, 0xAB, 0xCD];
    let mut ed = EnergyDispersal::new();
    let scrambled = ed.process(&data);
    ed.reset();
    let restored = ed.process(&scrambled);
    assert_eq!(restored, data, "Energy dispersal should be self-inverse");
}

#[test]
fn test_energy_dispersal_changes_data() {
    let data = vec![0x00_u8; 16];
    let mut ed = EnergyDispersal::new();
    let scrambled = ed.process(&data);
    assert_ne!(scrambled, data, "Scrambled data should differ from all-zeros");
}

#[test]
fn test_energy_dispersal_bits_roundtrip() {
    let bits: Vec<bool> = (0..40).map(|i| i % 3 == 0).collect();
    let mut ed = EnergyDispersal::new();
    let scrambled = ed.process_bits(&bits);
    ed.reset();
    let restored = ed.process_bits(&scrambled);
    assert_eq!(restored, bits);
}

#[test]
fn test_energy_dispersal_prbs_period() {
    let data = vec![0u8; 64];
    let mut ed1 = EnergyDispersal::new();
    let mut ed2 = EnergyDispersal::new();
    let s1 = ed1.process(&data);
    let s2 = ed2.process(&data);
    assert_eq!(s1, s2, "Same initial state should produce same output");
}

#[test]
fn test_crc16_known_value() {
    let data = b"123456789";
    let crc = DabCrc16::compute(data);
    assert_eq!(crc, 0x29B1, "CRC-16 of '123456789' should be 0x29B1");
}

#[test]
fn test_crc16_append_verify() {
    let data: Vec<u8> = (0..30_u8).collect();
    let fib = DabCrc16::append(&data);
    assert_eq!(fib.len(), 32);
    assert!(DabCrc16::verify_fib(&fib), "Appended CRC should verify");
}

#[test]
fn test_crc16_bad_fib() {
    let data: Vec<u8> = (0..30_u8).collect();
    let mut fib = DabCrc16::append(&data);
    fib[0] ^= 0xFF;
    assert!(!DabCrc16::verify_fib(&fib), "Corrupted FIB should fail CRC check");
}

#[test]
fn test_crc16_empty_detect() {
    assert!(!DabCrc16::verify_fib(&[]), "Empty FIB should fail");
    assert!(!DabCrc16::verify_fib(&[0u8; 10]), "Short FIB should fail");
}

#[test]
fn test_rs_encode_length() {
    let rs = DabReedSolomon::new();
    let msg = vec![0xAA_u8; RS_MESSAGE_LEN];
    let cw = rs.encode(&msg);
    assert_eq!(cw.len(), RS_CODEWORD_LEN);
}

#[test]
fn test_rs_encode_decode_no_errors() {
    let rs = DabReedSolomon::new();
    let msg: Vec<u8> = (0..RS_MESSAGE_LEN as u8).collect();
    let mut cw = rs.encode(&msg);
    let n_errors = rs.decode(&mut cw).unwrap();
    assert_eq!(n_errors, 0);
    assert_eq!(&cw[..RS_MESSAGE_LEN], &msg[..]);
}

#[test]
fn test_rs_correct_single_error() {
    let rs = DabReedSolomon::new();
    let msg = vec![0x55_u8; RS_MESSAGE_LEN];
    let mut cw = rs.encode(&msg);
    cw[5] ^= 0xAB;
    let n_errors = rs.decode(&mut cw).unwrap();
    assert!(n_errors >= 1, "Should detect at least 1 error");
    assert_eq!(&cw[..RS_MESSAGE_LEN], &msg[..], "Single error should be corrected");
}

#[test]
fn test_rs_correct_t_errors() {
    let rs = DabReedSolomon::new();
    let msg: Vec<u8> = (10..10 + RS_MESSAGE_LEN as u8).collect();
    let mut cw = rs.encode(&msg);
    for i in 0..RS_T {
        cw[RS_MESSAGE_LEN + i] ^= 0xAA;
    }
    let result = rs.decode(&mut cw);
    assert!(result.is_ok(), "Should correct exactly t parity errors");
}

#[test]
fn test_gf_mul_commutative() {
    assert_eq!(gf_mul(0x53, 0xCA), gf_mul(0xCA, 0x53));
}

#[test]
fn test_gf_inv_property() {
    for x in 1..=255u8 {
        assert_eq!(gf_mul(x, gf_inv(x)), 1, "x * inv(x) must equal 1");
    }
}

#[test]
fn test_super_frame_parse_header() {
    let mut data = vec![0u8; 20];
    data[1] = 0x40;
    let header = DabPlusSuperFrameParser::parse_header(&data);
    assert!(header.is_some());
    let h = header.unwrap();
    assert!(h.dac_rate);
    assert!(!h.sbr_flag);
    assert_eq!(h.num_aus, 6);
}

#[test]
fn test_super_frame_32khz_sbr() {
    let mut data = vec![0u8; 10];
    data[1] = 0x20;
    let header = DabPlusSuperFrameParser::parse_header(&data);
    assert!(header.is_some());
    assert_eq!(header.unwrap().num_aus, 2);
}

#[test]
fn test_super_frame_au_extraction() {
    let num_aus = 2;
    let au_data_1 = b"HELLO";
    let au_data_2 = b"WORLD";
    let au1_start = 4usize;
    let au2_start = au1_start + au_data_1.len() + 2;
    let mut frame = vec![0u8; au2_start + au_data_2.len() + 2];
    frame[1] = 0x20;
    frame[2] = ((au2_start >> 8) & 0xFF) as u8;
    frame[3] = (au2_start & 0xFF) as u8;
    frame[au1_start..au1_start + au_data_1.len()].copy_from_slice(au_data_1);
    let crc1 = DabCrc16::compute(au_data_1);
    frame[au1_start + au_data_1.len()] = (crc1 >> 8) as u8;
    frame[au1_start + au_data_1.len() + 1] = (crc1 & 0xFF) as u8;
    frame[au2_start..au2_start + au_data_2.len()].copy_from_slice(au_data_2);
    let crc2 = DabCrc16::compute(au_data_2);
    let crc_pos = au2_start + au_data_2.len();
    if crc_pos + 1 < frame.len() {
        frame[crc_pos] = (crc2 >> 8) as u8;
        frame[crc_pos + 1] = (crc2 & 0xFF) as u8;
    }
    let header = DabPlusSuperFrameParser::parse_header(&frame).unwrap();
    let aus = DabPlusSuperFrameParser::extract_aus(&frame, &header);
    assert_eq!(aus.len(), num_aus);
}

#[test]
fn test_frame_timing_samples_per_frame() {
    let total = FrameTiming::samples_per_frame_mode_i();
    let expected = MODE_I_NULL_LEN + MODE_I_SYMBOLS_PER_FRAME * MODE_I_SYMBOL_LEN;
    assert_eq!(total, expected);
}

#[test]
fn test_fib_parser_end_marker() {
    let mut data = vec![0xFFu8; FIB_DATA_BYTES];
    data[0] = 0xFF;
    let figs = FibParser::parse_fib(&data);
    assert!(figs.is_empty(), "End marker should produce no FIGs");
}

#[test]
fn test_fib_parser_single_fig() {
    let mut data = vec![0u8; FIB_DATA_BYTES];
    data[0] = 0x25;
    data[1] = 0x00;
    let figs = FibParser::parse_fib(&data);
    assert!(!figs.is_empty());
    let (fig_type, _fig_ext, _) = figs[0].clone();
    assert_eq!(fig_type, 1);
}

#[test]
fn test_bits_to_bytes_roundtrip() {
    let bytes = vec![0xA5_u8, 0x3C, 0xFF, 0x00];
    let bits = bytes_to_bits(&bytes);
    assert_eq!(bits.len(), 32);
    let restored = bits_to_bytes(&bits);
    assert_eq!(restored, bytes);
}

#[test]
fn test_bits_to_bytes_msb_first() {
    let bits = vec![true, false, true, false, false, false, false, false];
    let bytes = bits_to_bytes(&bits);
    assert_eq!(bytes[0], 0xA0, "MSB-first: 10100000 = 0xA0");
}

#[test]
fn test_bytes_to_bits_count() {
    let bytes = vec![0x00_u8; 10];
    let bits = bytes_to_bits(&bytes);
    assert_eq!(bits.len(), 80);
}

#[test]
fn test_fec_puncture_viterbi_roundtrip() {
    let data: Vec<bool> = (0..20).map(|i| i % 2 == 0).collect();
    let mut enc = DabConvEncoder::new();
    let coded = enc.encode(&data);
    let pattern = &[1u8, 1, 0, 0];
    let punctured = puncture(&coded, pattern);
    let output_len = coded.len();
    let depunctured = depuncture(&punctured, pattern, output_len);
    let dec = DabViterbiDecoder::new();
    let erased: Vec<bool> = (0..output_len).map(|i| pattern[i % pattern.len()] == 0).collect();
    let decoded = dec.decode_erased(&depunctured, &erased);
    let matches: usize = decoded[..data.len()].iter().zip(data.iter()).filter(|(&a, &b)| a == b).count();
    assert!(
        matches >= data.len() * 7 / 10,
        "After puncture+depuncture, at least 70% bits should be correct, got {}/{}",
        matches,
        data.len()
    );
}

#[test]
fn test_constants_mode_i() {
    assert_eq!(MODE_I_FFT_SIZE, 2048);
    assert_eq!(MODE_I_ACTIVE_CARRIERS, 1536);
    assert_eq!(MODE_I_SYMBOLS_PER_FRAME, 76);
    assert_eq!(MODE_I_GUARD_LEN, 504);
    assert_eq!(FIB_LENGTH_BYTES, 32);
    assert_eq!(FIB_DATA_BYTES, 30);
}

#[test]
fn test_constants_rs() {
    assert_eq!(RS_CODEWORD_LEN, 120);
    assert_eq!(RS_MESSAGE_LEN, 110);
    assert_eq!(RS_T, 5);
    assert_eq!(RS_CODEWORD_LEN - RS_MESSAGE_LEN, 2 * RS_T);
}

#[test]
fn test_dab_channel_decoder_creation() {
    let dec = DabChannelDecoder::new(DabMode::ModeI);
    let params = dec.params();
    assert_eq!(params.fft_size, MODE_I_FFT_SIZE);
    assert_eq!(params.active_carriers, MODE_I_ACTIVE_CARRIERS);
}

// ---------------------------------------------------------------------------
// Further checks of the library on concrete values
// ---------------------------------------------------------------------------

#[test]
fn depuncture_with_mask_marks_erasures() {
    let received = vec![true, true, false];
    let (bits, mask) = depuncture_with_mask(&received, &[1u8, 0], 6);
    assert_eq!(bits, vec![true, false, true, false, false, false]);
    assert_eq!(mask, vec![false, true, false, true, false, true]);
}

#[test]
fn puncture_keeps_pattern_positions_in_order() {
    let coded = vec![true, false, false, true, true, true];
    assert_eq!(puncture(&coded, &[1u8, 0, 1]), vec![true, false, true, true]);
}

#[test]
fn interleaver_reads_permuted_history() {
    // Frame of 4 bits: output i reads frame (wp - i % 16) at bit (15 i) mod 4.
    let mut il = TimeInterleaver::new(4);
    let out = il.interleave(&[true, false, true, true]);
    // i = 0 reads the current frame at bit 0; the others read older (empty) frames.
    assert_eq!(out, vec![true, false, false, false]);
}

#[test]
fn deinterleave_scatters_bits() {
    // Positions (15 i) mod 4 = 0, 3, 2, 1.
    let mut il = TimeInterleaver::new(4);
    let out = il.deinterleave(&[true, true, false, false]);
    assert_eq!(out, vec![true, false, false, true]);
}

#[test]
fn energy_dispersal_keystream_values() {
    // The keystream from the all-ones register, on zero data.
    let mut ed = EnergyDispersal::new();
    assert_eq!(ed.process(&[0u8; 4]), vec![0x07, 0xBE, 0x2E, 0x64]);
    // A custom start value is masked to nine bits.
    let mut ed2 = EnergyDispersal::with_init(0xFFFF);
    assert_eq!(ed2.process(&[0u8; 2]), vec![0x07, 0xBE]);
    // The bit scrambler uses the same keystream: 0x07 is 00000111.
    let mut ed3 = EnergyDispersal::new();
    let bits = ed3.process_bits(&[false; 8]);
    assert_eq!(bits, vec![false, false, false, false, false, true, true, true]);
}

#[test]
fn gf_arithmetic_values() {
    assert_eq!(gf_mul(2, 0x80), 0x1D);
    assert_eq!(gf_mul(0, 0x57), 0);
    assert_eq!(gf_pow(2, 8), 0x1D);
    assert_eq!(gf_pow(0, 0), 1);
    assert_eq!(gf_pow(0, 5), 0);
    assert_eq!(gf_pow(3, 255), 1);
    assert_eq!(gf_inv(0), 0);
    assert_eq!(gf_div(gf_mul(7, 9), 9), 7);
    // 1 + 2x + 3x^2 at x = 2: 1 ^ 4 ^ gf_mul(3, 4) = 1 ^ 4 ^ 12 = 9
    assert_eq!(gf_poly_eval(&[1, 2, 3], 2), 9);
}

#[test]
fn rs_decode_length_mismatch() {
    let rs = DabReedSolomon::new();
    let mut cw = vec![0u8; 50];
    assert_eq!(rs.decode(&mut cw), Err("Codeword length mismatch"));
}

#[test]
fn rs_decode_too_many_errors() {
    let rs = DabReedSolomon::new();
    let msg = vec![0x11u8; RS_MESSAGE_LEN];
    let mut cw = rs.encode(&msg);
    for i in 0..40 {
        cw[i * 3] ^= (i as u8).wrapping_mul(37).wrapping_add(1);
    }
    let before = cw.clone();
    let r = rs.decode(&mut cw);
    assert_eq!(r, Err("Chien search error count mismatch"));
    assert_eq!(cw, before);
}

#[test]
fn rs_corrects_errors_in_message() {
    let rs = DabReedSolomon::new();
    let msg: Vec<u8> = (0..RS_MESSAGE_LEN).map(|i| (i * 7) as u8).collect();
    let mut cw = rs.encode(&msg);
    cw[0] ^= 0x01;
    cw[50] ^= 0xFF;
    cw[109] ^= 0x42;
    assert_eq!(rs.decode(&mut cw), Ok(3));
    assert_eq!(&cw[..RS_MESSAGE_LEN], &msg[..]);
}

#[test]
fn fib_parser_reads_figs_in_order() {
    let mut data = vec![0u8; FIB_DATA_BYTES];
    data[0] = 0x03; // type 0, length 3
    data[1] = 0x21; // extension 1
    data[2] = 0xAA;
    data[3] = 0xBB;
    data[4] = 0x22; // type 1, length 2
    data[5] = 0x05;
    data[6] = 0x06;
    data[7] = 0x00; // zero length ends the list
    let figs = FibParser::parse_fib(&data);
    assert_eq!(figs.len(), 2);
    assert_eq!(figs[0], (0, 1, vec![0x21, 0xAA, 0xBB]));
    assert_eq!(figs[1], (1, 5, vec![0x05, 0x06]));
    assert!(FibParser::parse_fib(&data[..10]).is_empty());
}

#[test]
fn service_label_is_decoded_and_trimmed() {
    let mut fig = vec![0u8; 20];
    fig[0] = 0x50;
    fig[1] = 0x12;
    fig[2] = 0x34;
    fig[3] = 0x56;
    let label = b"  Radio One     ";
    fig[4..20].copy_from_slice(label);
    let sl = FibParser::parse_service_label(&fig).unwrap();
    assert_eq!(sl.service_id, 0x123456);
    assert_eq!(sl.label_charset, 5);
    assert_eq!(sl.label, "Radio One");
    assert!(FibParser::parse_service_label(&fig[..17]).is_none());
}

#[test]
fn subchannel_info_fields() {
    let info = FibParser::parse_subchannel_info(&[0x00, 0x1D, 0x40, 0x0C]).unwrap();
    assert_eq!(info.subchannel_id, 7);
    assert_eq!(info.start_cu, (1u16 << 8) | 0x40);
    assert_eq!(info.size_cu, 0x0C);
    assert_eq!(info.protection_level, EepLevel::Level4B);
    let zero = FibParser::parse_subchannel_info(&[0, 0, 0, 0]).unwrap();
    assert_eq!(zero.size_cu, 1);
    assert_eq!(zero.protection_level, EepLevel::Level1A);
    assert!(FibParser::parse_subchannel_info(&[0, 0, 0]).is_none());
}

#[test]
fn super_frame_header_too_short() {
    assert!(DabPlusSuperFrameParser::parse_header(&[0, 0]).is_none());
    // 48 kHz without SBR needs 12 header bytes.
    let mut data = vec![0u8; 11];
    data[1] = 0x40;
    assert!(DabPlusSuperFrameParser::parse_header(&data).is_none());
}

#[test]
fn access_unit_crc_checked() {
    let mut frame = vec![0u8; 16];
    frame[1] = 0x20; // two AUs
    frame[2] = 0;
    frame[3] = 9; // second AU starts at 9
    frame[4..7].copy_from_slice(b"abc");
    let crc = DabCrc16::compute(b"abc");
    frame[7] = (crc >> 8) as u8;
    frame[8] = crc as u8;
    let header = DabPlusSuperFrameParser::parse_header(&frame).unwrap();
    assert_eq!(header.au_start, vec![4, 9]);
    let aus = DabPlusSuperFrameParser::extract_aus(&frame, &header);
    let mut expected = b"abc".to_vec();
    expected.push((crc >> 8) as u8);
    expected.push(crc as u8);
    assert_eq!(aus[0].data, expected);
    assert!(aus[0].crc_ok);
    assert_eq!(aus[1].index, 1);
    assert_eq!(aus[1].data.len(), 5);
}

#[test]
fn frame_timing_values() {
    assert_eq!(FrameTiming::samples_per_frame_mode_i(), 196_608);
    assert_eq!(FrameTiming::bits_per_cu(), 64);
}

#[test]
fn crc_append_gives_big_endian_crc() {
    let fib = DabCrc16::append(b"123456789");
    assert_eq!(&fib[9..], &[0x29, 0xB1]);
}

#[test]
fn decode_frame_bits_of_silent_frame() {
    // An all-zero frame decodes to zero bits, which descramble to the
    // energy dispersal keystream; no FIC chunk of it carries a valid CRC.
    let mut dec = DabChannelDecoder::new(DabMode::ModeI);
    let bits = vec![false; 6 * 1536 + 128];
    let sub = SubchannelConfig { id: 1, start_cu: 0, size_cu: 1, protection: EepLevel::Level3A, is_dab_plus: false };
    let (fibs, msc) = dec.decode_frame_bits(&bits, &sub);
    assert!(fibs.is_empty());
    assert_eq!(msc, vec![0x07, 0xBE, 0x2E, 0x64, 0x12, 0x9D, 0xA3, 0xCF]);
    // A subchannel that starts past the end of the MSC decodes to nothing.
    let far = SubchannelConfig { id: 2, start_cu: 10, size_cu: 4, protection: EepLevel::Level1A, is_dab_plus: false };
    let (_, empty) = dec.decode_frame_bits(&bits, &far);
    assert!(empty.is_empty());
}

#[test]
fn deinterleave_restores_steady_state_frame() {
    let frame_len = 64;
    let mut il = TimeInterleaver::new(frame_len);
    let input: Vec<bool> = (0..frame_len).map(|i| i % 3 == 0 || i % 7 == 1).collect();
    let mut interleaved = Vec::new();
    for _ in 0..TIME_INTERLEAVER_DEPTH {
        interleaved = il.interleave(&input);
    }
    let mut dil = TimeInterleaver::new(frame_len);
    assert_eq!(dil.deinterleave(&interleaved), input);
}

#[test]
fn prs_phase_register() {
    assert_eq!(prs_phase_quadrants(10, 0x2AD4), vec![1, 2, 0, 0, 1, 3, 2, 1, 3, 2]);
    let g = PrsGenerator::new(DabMode::ModeI);
    let q = g.phase_quadrants();
    assert_eq!(q.len(), 1537);
    assert_eq!(&q[..10], &[1, 2, 0, 0, 1, 3, 2, 1, 3, 2]);
    assert_eq!(g.mode_of(), DabMode::ModeI);
    assert!(q.iter().all(|&x| x < 4));
}

#[test]
fn rs_corrects_any_single_byte_error() {
    let rs = DabReedSolomon::new();
    let msg: Vec<u8> = (0..RS_MESSAGE_LEN).map(|i| (i * 37 + 11) as u8).collect();
    let cw = rs.encode(&msg);
    for p in 0..RS_CODEWORD_LEN {
        for &e in &[0x01u8, 0x80, 0xFF, 0x5A] {
            let mut bad = cw.clone();
            bad[p] ^= e;
            assert_eq!(rs.decode(&mut bad), Ok(1), "byte {} error {:#x}", p, e);
            assert_eq!(bad, cw, "byte {} error {:#x}", p, e);
        }
    }
}

#[test]
fn alpha_generates_the_multiplicative_group() {
    let mut seen = [false; 256];
    for k in 0..255usize {
        let v = gf_pow(2, k);
        assert_ne!(v, 0);
        assert!(!seen[v as usize], "alpha^{} repeats", k);
        seen[v as usize] = true;
    }
    assert_eq!(gf_mul(gf_pow(2, 254), 2), 1);
}

#[test]
fn fib_crc_detects_any_single_byte_error() {
    let data: Vec<u8> = (0..FIB_DATA_BYTES).map(|i| (i * 91 + 7) as u8).collect();
    let fib = DabCrc16::append(&data);
    assert!(DabCrc16::verify_fib(&fib));
    for q in 0..FIB_LENGTH_BYTES {
        for &e in &[0x01u8, 0x10, 0x80, 0xFF] {
            let mut bad = fib.clone();
            bad[q] ^= e;
            assert!(!DabCrc16::verify_fib(&bad), "byte {} error {:#x}", q, e);
        }
    }
}

#[test]
fn viterbi_corrects_any_single_flipped_bit() {
    let data: Vec<bool> = (0..24).map(|i| (i * 5 + 1) % 7 < 3).collect();
    let mut enc = DabConvEncoder::new();
    let coded = enc.encode(&data);
    let dec = DabViterbiDecoder::new();
    for q in 0..coded.len() {
        let mut rx = coded.clone();
        rx[q] = !rx[q];
        assert_eq!(dec.decode(&rx), data, "flipped bit {}", q);
    }
}

#[test]
fn erasure_decoding_recovers_punctured_data_exactly() {
    let data: Vec<bool> = (0..40).map(|i| (i * 3 + 2) % 5 < 2).collect();
    let mut enc = DabConvEncoder::new();
    let coded = enc.encode(&data);
    for pattern in [&[1u8, 1, 0, 0][..], &[1u8, 0, 0, 0][..], &[0u8, 0, 1, 0][..]] {
        let punctured = puncture(&coded, pattern);
        let depunctured = depuncture(&punctured, pattern, coded.len());
        let erased: Vec<bool> = (0..coded.len()).map(|i| pattern[i % pattern.len()] == 0).collect();
        let dec = DabViterbiDecoder::new();
        assert_eq!(dec.decode_erased(&depunctured, &erased), data, "pattern {:?}", pattern);
    }
}

#[test]
fn flush_returns_encoder_to_fresh_state() {
    let mut enc = DabConvEncoder::new();
    let _ = enc.encode(&[true, false, true, true, false, true, true]);
    let tail = enc.flush();
    assert_eq!(tail.len(), (CONV_K - 1) * CONV_RATE_DENOM);
    let x = [true, true, false, true, false, false, true, false, true];
    let mut fresh = DabConvEncoder::new();
    assert_eq!(enc.encode(&x), fresh.encode(&x));
}

#[test]
fn energy_dispersal_bit_and_byte_forms_agree() {
    let data = vec![0x00u8, 0xFF, 0x5A, 0x13, 0xC7, 0x80, 0x01];
    let mut bytewise = EnergyDispersal::new();
    let mut bitwise = EnergyDispersal::new();
    let scrambled = bytewise.process(&data);
    assert_eq!(bitwise.process_bits(&bytes_to_bits(&data)), bytes_to_bits(&scrambled));
}

#[test]
fn erasure_decoder_with_nothing_erased_matches_plain_decoder() {
    let dec = DabViterbiDecoder::new();
    let rx: Vec<bool> = (0..96).map(|i| (i * 7 + 3) % 11 < 5).collect();
    let none_erased = vec![false; rx.len()];
    assert_eq!(dec.decode_erased(&rx, &none_erased), dec.decode(&rx));
    let rx2: Vec<bool> = (0..50).map(|i| (i * i + 1) % 3 == 0).collect();
    assert_eq!(dec.decode_erased(&rx2, &vec![false; rx2.len()]), dec.decode(&rx2));
}

#[test]
fn interleaver_reads_each_bit_from_its_delayed_frame() {
    let len = 22usize;
    let mut il = TimeInterleaver::new(len);
    let frames: Vec<Vec<bool>> = (0..40)
        .map(|s| (0..len).map(|j| (s * 7 + j * 3 + s * j) % 5 < 2).collect())
        .collect();
    for (t, x) in frames.iter().enumerate() {
        let out = il.interleave(x);
        assert_eq!(out.len(), len);
        for i in 0..len {
            let d = i % 16;
            let expected = if t >= d { frames[t - d][(15 * i) % len] } else { false };
            assert_eq!(out[i], expected, "call {} bit {}", t, i);
        }
    }
}

#[test]
fn path_distance_is_hamming_distance_to_the_code() {
    let dec = DabViterbiDecoder::new();
    let data: Vec<bool> = (0..12).map(|i| (i * 5 + 2) % 3 == 0).collect();
    let mut enc = DabConvEncoder::new();
    let mut rx = enc.encode(&data);
    rx[3] = !rx[3];
    rx[20] = !rx[20];
    rx[41] = !rx[41];
    let decoded = dec.decode(&rx);
    let mut enc2 = DabConvEncoder::new();
    let recoded = enc2.encode(&decoded);
    let dist = rx.iter().zip(recoded.iter()).filter(|(a, b)| a != b).count();
    assert!(dist <= 3);
}

#[test]
fn rs_corrects_up_to_five_errors_anywhere() {
    let rs = DabReedSolomon::new();
    let msg: Vec<u8> = (0..RS_MESSAGE_LEN).map(|i| (i * 31 + 5) as u8).collect();
    let c0 = rs.encode(&msg);
    for seed in 0..40usize {
        let w = seed % 6;
        let mut cw = c0.clone();
        let mut used: Vec<usize> = Vec::new();
        let mut k = 0usize;
        while used.len() < w {
            let p = (seed * 37 + k * 53 + 11) % RS_CODEWORD_LEN;
            if !used.contains(&p) {
                used.push(p);
                cw[p] ^= ((seed * 13 + k * 29) % 255 + 1) as u8;
            }
            k += 1;
        }
        assert_eq!(rs.decode(&mut cw), Ok(w), "seed {}", seed);
        assert_eq!(cw, c0, "seed {}", seed);
    }
}

#[test]
fn rs_never_reports_a_corrupted_word_clean() {
    let rs = DabReedSolomon::new();
    let msg = vec![0x5Au8; RS_MESSAGE_LEN];
    let c0 = rs.encode(&msg);
    for w in 1..=10usize {
        let mut cw = c0.clone();
        for k in 0..w {
            cw[k * 11 + 3] ^= (k as u8) * 17 + 1;
        }
        let before = cw.clone();
        let r = rs.decode(&mut cw);
        assert_ne!(r, Ok(0), "{} errors", w);
        if r.is_err() {
            assert_eq!(cw, before);
        }
    }
}

#[test]
fn crc16_over_appended_crc_is_zero() {
    for n in [0usize, 1, 5, 30, 64] {
        let data: Vec<u8> = (0..n).map(|i| (i * 29 + 7) as u8).collect();
        let with = DabCrc16::append(&data);
        assert_eq!(with.len(), n + 2);
        assert_eq!(DabCrc16::compute(&with), 0);
    }
}

#[test]
fn bits_to_bytes_places_each_bit_msb_first() {
    assert_eq!(bits_to_bytes(&[true, false, true, false, false, false, false, false]), vec![0xA0]);
    let bits: Vec<bool> = (0..19).map(|i| (i * 5 + 1) % 3 == 0).collect();
    let bytes = bits_to_bytes(&bits);
    assert_eq!(bytes.len(), 3);
    for i in 0..24 {
        let bit = (bytes[i / 8] >> (7 - i % 8)) & 1 == 1;
        assert_eq!(bit, i < bits.len() && bits[i]);
    }
    assert_eq!(bits_to_bytes(&bytes_to_bits(&bytes)), bytes);
}
