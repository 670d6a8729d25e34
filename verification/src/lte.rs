//! NB-IoT (LTE Cat-NB2, Release 14) channel coding and configuration:
//! transport block size tables, the Gold-sequence scrambler, CRC-24A,
//! tail-biting convolutional and turbo coding, rate matching, DCI packing,
//! and the multi-carrier manager (3GPP TS 36.211 / 36.212 / 36.213).

use vstd::prelude::*;
use vstd::slice::SliceAdditionalExecFns;

use crate::crc::{crc16_ccitt_spec, hi_byte, lo_byte, with_crc};
use crate::dab::gf::{lemma_xor_cancel, lemma_xor_commutes};
use crate::dab::conv::{parity, parity_spec};

verus! {

/// Number of downlink subcarriers per NB-IoT carrier (12 × 15 kHz = 180 kHz)
pub const NB_NUM_SUBCARRIERS: usize = 12;

/// Number of OFDM symbols per subframe for normal CP
pub const NB_SYMBOLS_PER_SUBFRAME: usize = 14;

/// Number of OFDM symbols per slot (0.5 ms)
pub const NB_SYMBOLS_PER_SLOT: usize = 7;

/// NPBCH TTI: 640 ms = 640 subframes
pub const NPBCH_TTI_SUBFRAMES: usize = 640;

/// NPBCH block size in bits
pub const NPBCH_PAYLOAD_BITS: usize = 34;

/// NPDCCH DCI maximum repetitions
pub const NPDCCH_MAX_REPS: u32 = 2048;

/// NPDSCH maximum repetitions
pub const NPDSCH_MAX_REPS: u32 = 2048;

/// NPUSCH maximum repetitions
pub const NPUSCH_MAX_REPS: u32 = 128;

/// NRS RE per slot per port (ports 0/1 each contribute 2 RE per slot)
pub const NRS_RE_PER_SLOT: usize = 2;

/// Normal CP length for the first symbol (samples at 1.92 MHz)
pub const CP_NORMAL_FIRST_SAMPLES: usize = 10;

/// Normal CP length for the other symbols (samples at 1.92 MHz)
pub const CP_NORMAL_OTHER_SAMPLES: usize = 9;

/// FFT size for 15 kHz subcarrier spacing at 1.92 MHz sample rate
pub const FFT_SIZE_15K: usize = 128;

/// FFT size for 3.75 kHz subcarrier spacing (single-tone SC-FDMA) = 512
pub const FFT_SIZE_375: usize = 512;

/// NB-IoT deployment mode per 3GPP TS 36.211 §10.2
#[derive(Debug, Clone, Copy, PartialEq, Eq, Structural)]
pub enum DeploymentMode {
    /// Dedicated NB-IoT carrier (e.g., refarmed GSM spectrum)
    Standalone,
    /// Located within an LTE carrier guard band
    GuardBand,
    /// Uses an LTE PRB within the LTE carrier
    InBand,
}

/// Coverage Enhancement level
#[derive(Debug, Clone, Copy, PartialEq, Eq, Structural)]
pub enum CoverageLevel {
    /// CE Level 0 – normal coverage
    CE0,
    /// CE Level 1 – enhanced coverage
    CE1,
    /// CE Level 2 – extreme coverage
    CE2,
}

/// NPUSCH format
#[derive(Debug, Clone, Copy, PartialEq, Eq, Structural)]
pub enum NpuschFormat {
    /// Format 1: data (UL-SCH)
    Format1,
    /// Format 2: HARQ-ACK feedback
    Format2,
}

/// Uplink subcarrier allocation type
#[derive(Debug, Clone, Copy, PartialEq, Eq, Structural)]
pub enum UlSubcarrierMode {
    /// Single-tone with 3.75 kHz spacing
    SingleTone3750,
    /// Single-tone with 15 kHz spacing (one of 12 subcarriers)
    SingleTone15k,
    /// Multi-tone 3 subcarriers × 15 kHz
    MultiTone3,
    /// Multi-tone 6 subcarriers × 15 kHz
    MultiTone6,
    /// Multi-tone 12 subcarriers × 15 kHz (full bandwidth)
    MultiTone12,
}

/// NRS antenna port
#[derive(Debug, Clone, Copy, PartialEq, Eq, Structural)]
pub enum NrsPort {
    Port0,
    Port1,
}

/// Modulation order
#[derive(Debug, Clone, Copy, PartialEq, Eq, Structural)]
pub enum Modulation {
    Bpsk,
    Qpsk,
    /// Used in NPUSCH Format 1 multi-tone with high TBS
    Qam16,
}

/// NPRACH coverage level (maps to CE level 0..3)
#[derive(Debug, Clone, Copy, PartialEq, Eq, Structural)]
pub enum NprachCoverageLevel {
    Level0,
    Level1,
    Level2,
    Level3,
}

// ---------------------------------------------------------------------------
// TBS tables (3GPP TS 36.213 Table 16.4.1.5.1-1 and 16.5.1.2-1/-2)
// ---------------------------------------------------------------------------

/// Downlink TBS table, indexed by `[I_TBS][N_sf index]`.
pub open spec fn tbs_dl_table() -> Seq<Seq<usize>> {
    seq![
        seq![16usize, 32, 56, 88, 120, 152, 208, 256],
        seq![24usize, 56, 88, 144, 176, 208, 256, 344],
        seq![32usize, 72, 120, 176, 208, 256, 328, 424],
        seq![40usize, 104, 160, 216, 256, 328, 440, 568],
        seq![56usize, 120, 192, 256, 320, 408, 552, 680],
        seq![72usize, 144, 224, 328, 424, 504, 680, 872],
        seq![88usize, 176, 256, 392, 504, 600, 808, 1000],
        seq![104usize, 224, 328, 472, 584, 712, 1000, 1224],
        seq![120usize, 256, 392, 536, 680, 808, 1096, 1384],
        seq![136usize, 296, 456, 616, 776, 936, 1256, 1544],
        seq![144usize, 328, 504, 680, 872, 1000, 1384, 1736],
        seq![176usize, 376, 584, 776, 1000, 1192, 1608, 2024],
        seq![208usize, 440, 680, 1000, 1192, 1480, 1992, 2536],
        seq![224usize, 488, 744, 1000, 1256, 1544, 2088, 2536],
    ]
}

/// Uplink single-tone TBS table, indexed by `[I_TBS][N_ru - 1]`.
pub open spec fn tbs_ul_st_table() -> Seq<Seq<usize>> {
    seq![
        seq![16usize, 24, 32, 40, 56, 72, 88, 104, 120, 136],
        seq![24usize, 32, 40, 56, 72, 88, 104, 120, 144, 176],
        seq![32usize, 40, 56, 72, 88, 104, 120, 144, 176, 208],
        seq![40usize, 56, 72, 88, 120, 144, 176, 208, 224, 256],
        seq![56usize, 72, 88, 120, 144, 176, 208, 224, 256, 296],
        seq![72usize, 88, 120, 144, 176, 224, 256, 296, 328, 376],
        seq![88usize, 104, 120, 144, 176, 224, 256, 296, 376, 440],
        seq![104usize, 120, 144, 176, 208, 256, 328, 392, 472, 536],
    ]
}

/// Uplink multi-tone TBS table for 3 subcarriers, `[I_TBS][N_ru index]`.
pub open spec fn tbs_mt3_table() -> Seq<Seq<usize>> {
    seq![
        seq![32usize, 56, 88, 120, 152, 176, 208, 256],
        seq![56usize, 88, 144, 176, 208, 224, 256, 328],
        seq![72usize, 120, 176, 224, 256, 296, 376, 440],
        seq![88usize, 144, 208, 256, 328, 376, 472, 568],
        seq![104usize, 176, 256, 328, 408, 472, 600, 712],
        seq![120usize, 208, 296, 392, 488, 568, 712, 872],
        seq![144usize, 240, 360, 472, 584, 680, 872, 1000],
        seq![176usize, 296, 440, 568, 680, 808, 1000, 1224],
        seq![208usize, 344, 504, 648, 808, 936, 1192, 1480],
        seq![224usize, 384, 568, 744, 936, 1096, 1384, 1736],
        seq![256usize, 424, 632, 840, 1000, 1192, 1544, 1928],
        seq![296usize, 488, 728, 1000, 1192, 1416, 1800, 2216],
        seq![328usize, 552, 824, 1096, 1352, 1608, 2024, 2536],
        seq![376usize, 616, 920, 1224, 1544, 1800, 2280, 2536],
    ]
}

/// Uplink multi-tone TBS table for 6 subcarriers, `[I_TBS][N_ru index]`.
pub open spec fn tbs_mt6_table() -> Seq<Seq<usize>> {
    seq![
        seq![56usize, 120, 176, 224, 256, 296, 376, 440],
        seq![88usize, 176, 256, 328, 408, 472, 600, 712],
        seq![120usize, 240, 360, 472, 584, 680, 872, 1000],
        seq![152usize, 296, 440, 568, 680, 808, 1000, 1224],
        seq![176usize, 360, 536, 696, 872, 1000, 1256, 1544],
        seq![208usize, 424, 632, 840, 1000, 1192, 1544, 1928],
        seq![256usize, 504, 760, 1000, 1256, 1480, 1864, 2344],
        seq![296usize, 584, 888, 1192, 1480, 1736, 2216, 2728],
        seq![328usize, 648, 1000, 1320, 1672, 1992, 2536, 3112],
        seq![376usize, 744, 1128, 1480, 1864, 2216, 2792, 3496],
        seq![424usize, 840, 1256, 1672, 2088, 2472, 3112, 3880],
        seq![472usize, 936, 1416, 1864, 2344, 2792, 3496, 4392],
        seq![536usize, 1064, 1608, 2088, 2600, 3112, 3880, 4968],
        seq![600usize, 1192, 1800, 2344, 2984, 3496, 4392, 5544],
    ]
}

/// Uplink multi-tone TBS table for 12 subcarriers, `[I_TBS][N_ru index]`.
pub open spec fn tbs_mt12_table() -> Seq<Seq<usize>> {
    seq![
        seq![88usize, 224, 328, 440, 536, 632, 808, 1000],
        seq![144usize, 344, 504, 680, 872, 1000, 1256, 1544],
        seq![176usize, 424, 632, 840, 1000, 1256, 1608, 1992],
        seq![208usize, 504, 744, 1000, 1256, 1480, 1864, 2344],
        seq![256usize, 616, 904, 1224, 1544, 1800, 2280, 2856],
        seq![296usize, 712, 1064, 1416, 1800, 2088, 2664, 3368],
        seq![376usize, 872, 1288, 1736, 2152, 2536, 3240, 4008],
        seq![440usize, 1000, 1480, 1992, 2472, 2984, 3752, 4648],
        seq![520usize, 1192, 1736, 2344, 2984, 3496, 4392, 5544],
        seq![600usize, 1384, 2024, 2728, 3368, 4008, 5160, 6456],
        seq![680usize, 1544, 2280, 3112, 3880, 4648, 5992, 7480],
        seq![776usize, 1800, 2600, 3496, 4392, 5160, 6712, 8248],
        seq![872usize, 2024, 2984, 4008, 5160, 5992, 7736, 9528],
        seq![1000usize, 2280, 3368, 4648, 5992, 6968, 8504, 10296],
    ]
}

/// The column of a subframe / resource unit count in the 8-column tables
/// (counts 1, 2, 3, 4, 5, 6, 8, 10); `None` for any other count.
pub open spec fn count_column(n: usize) -> Option<int> {
    if 1 <= n <= 6 {
        Some(n - 1)
    } else if n == 8 {
        Some(6)
    } else if n == 10 {
        Some(7)
    } else {
        None
    }
}

/// The column of a count in the 8-column tables.
fn count_index(n: usize) -> (r: Option<usize>)
    ensures
        r matches Some(c) ==> count_column(n) == Some(c as int),
        r is None ==> count_column(n) is None,
{
    if 1 <= n && n <= 6 {
        Some(n - 1)
    } else if n == 8 {
        Some(6)
    } else if n == 10 {
        Some(7)
    } else {
        None
    }
}

/// Row `i` of [`tbs_dl_table`].
fn tbs_dl_row(i: usize) -> (row: [usize; 8])
    requires
        i < 14,
    ensures
        row@ == tbs_dl_table()[i as int],
{
    let row: [usize; 8] = match i {
        0 => [16, 32, 56, 88, 120, 152, 208, 256],
        1 => [24, 56, 88, 144, 176, 208, 256, 344],
        2 => [32, 72, 120, 176, 208, 256, 328, 424],
        3 => [40, 104, 160, 216, 256, 328, 440, 568],
        4 => [56, 120, 192, 256, 320, 408, 552, 680],
        5 => [72, 144, 224, 328, 424, 504, 680, 872],
        6 => [88, 176, 256, 392, 504, 600, 808, 1000],
        7 => [104, 224, 328, 472, 584, 712, 1000, 1224],
        8 => [120, 256, 392, 536, 680, 808, 1096, 1384],
        9 => [136, 296, 456, 616, 776, 936, 1256, 1544],
        10 => [144, 328, 504, 680, 872, 1000, 1384, 1736],
        11 => [176, 376, 584, 776, 1000, 1192, 1608, 2024],
        12 => [208, 440, 680, 1000, 1192, 1480, 1992, 2536],
        _ => [224, 488, 744, 1000, 1256, 1544, 2088, 2536],
    };
    proof {
        assert(row@ =~= tbs_dl_table()[i as int]);
    }
    row
}

/// Row `i` of [`tbs_ul_st_table`].
fn tbs_ul_st_row(i: usize) -> (row: [usize; 10])
    requires
        i < 8,
    ensures
        row@ == tbs_ul_st_table()[i as int],
{
    let row: [usize; 10] = match i {
        0 => [16, 24, 32, 40, 56, 72, 88, 104, 120, 136],
        1 => [24, 32, 40, 56, 72, 88, 104, 120, 144, 176],
        2 => [32, 40, 56, 72, 88, 104, 120, 144, 176, 208],
        3 => [40, 56, 72, 88, 120, 144, 176, 208, 224, 256],
        4 => [56, 72, 88, 120, 144, 176, 208, 224, 256, 296],
        5 => [72, 88, 120, 144, 176, 224, 256, 296, 328, 376],
        6 => [88, 104, 120, 144, 176, 224, 256, 296, 376, 440],
        _ => [104, 120, 144, 176, 208, 256, 328, 392, 472, 536],
    };
    proof {
        assert(row@ =~= tbs_ul_st_table()[i as int]);
    }
    row
}

/// Row `i` of [`tbs_mt3_table`].
fn tbs_mt3_row(i: usize) -> (row: [usize; 8])
    requires
        i < 14,
    ensures
        row@ == tbs_mt3_table()[i as int],
{
    let row: [usize; 8] = match i {
        0 => [32, 56, 88, 120, 152, 176, 208, 256],
        1 => [56, 88, 144, 176, 208, 224, 256, 328],
        2 => [72, 120, 176, 224, 256, 296, 376, 440],
        3 => [88, 144, 208, 256, 328, 376, 472, 568],
        4 => [104, 176, 256, 328, 408, 472, 600, 712],
        5 => [120, 208, 296, 392, 488, 568, 712, 872],
        6 => [144, 240, 360, 472, 584, 680, 872, 1000],
        7 => [176, 296, 440, 568, 680, 808, 1000, 1224],
        8 => [208, 344, 504, 648, 808, 936, 1192, 1480],
        9 => [224, 384, 568, 744, 936, 1096, 1384, 1736],
        10 => [256, 424, 632, 840, 1000, 1192, 1544, 1928],
        11 => [296, 488, 728, 1000, 1192, 1416, 1800, 2216],
        12 => [328, 552, 824, 1096, 1352, 1608, 2024, 2536],
        _ => [376, 616, 920, 1224, 1544, 1800, 2280, 2536],
    };
    proof {
        assert(row@ =~= tbs_mt3_table()[i as int]);
    }
    row
}

/// Row `i` of [`tbs_mt6_table`].
fn tbs_mt6_row(i: usize) -> (row: [usize; 8])
    requires
        i < 14,
    ensures
        row@ == tbs_mt6_table()[i as int],
{
    let row: [usize; 8] = match i {
        0 => [56, 120, 176, 224, 256, 296, 376, 440],
        1 => [88, 176, 256, 328, 408, 472, 600, 712],
        2 => [120, 240, 360, 472, 584, 680, 872, 1000],
        3 => [152, 296, 440, 568, 680, 808, 1000, 1224],
        4 => [176, 360, 536, 696, 872, 1000, 1256, 1544],
        5 => [208, 424, 632, 840, 1000, 1192, 1544, 1928],
        6 => [256, 504, 760, 1000, 1256, 1480, 1864, 2344],
        7 => [296, 584, 888, 1192, 1480, 1736, 2216, 2728],
        8 => [328, 648, 1000, 1320, 1672, 1992, 2536, 3112],
        9 => [376, 744, 1128, 1480, 1864, 2216, 2792, 3496],
        10 => [424, 840, 1256, 1672, 2088, 2472, 3112, 3880],
        11 => [472, 936, 1416, 1864, 2344, 2792, 3496, 4392],
        12 => [536, 1064, 1608, 2088, 2600, 3112, 3880, 4968],
        _ => [600, 1192, 1800, 2344, 2984, 3496, 4392, 5544],
    };
    proof {
        assert(row@ =~= tbs_mt6_table()[i as int]);
    }
    row
}

/// Row `i` of [`tbs_mt12_table`].
fn tbs_mt12_row(i: usize) -> (row: [usize; 8])
    requires
        i < 14,
    ensures
        row@ == tbs_mt12_table()[i as int],
{
    let row: [usize; 8] = match i {
        0 => [88, 224, 328, 440, 536, 632, 808, 1000],
        1 => [144, 344, 504, 680, 872, 1000, 1256, 1544],
        2 => [176, 424, 632, 840, 1000, 1256, 1608, 1992],
        3 => [208, 504, 744, 1000, 1256, 1480, 1864, 2344],
        4 => [256, 616, 904, 1224, 1544, 1800, 2280, 2856],
        5 => [296, 712, 1064, 1416, 1800, 2088, 2664, 3368],
        6 => [376, 872, 1288, 1736, 2152, 2536, 3240, 4008],
        7 => [440, 1000, 1480, 1992, 2472, 2984, 3752, 4648],
        8 => [520, 1192, 1736, 2344, 2984, 3496, 4392, 5544],
        9 => [600, 1384, 2024, 2728, 3368, 4008, 5160, 6456],
        10 => [680, 1544, 2280, 3112, 3880, 4648, 5992, 7480],
        11 => [776, 1800, 2600, 3496, 4392, 5160, 6712, 8248],
        12 => [872, 2024, 2984, 4008, 5160, 5992, 7736, 9528],
        _ => [1000, 2280, 3368, 4648, 5992, 6968, 8504, 10296],
    };
    proof {
        assert(row@ =~= tbs_mt12_table()[i as int]);
    }
    row
}

/// NB-IoT downlink TBS for `(I_TBS, N_sf)`; `None` outside the table.
pub fn tbs_dl(itbs: usize, n_sf: usize) -> (r: Option<usize>)
    ensures
        r == (if itbs < 14 && count_column(n_sf) is Some {
            Some(tbs_dl_table()[itbs as int][count_column(n_sf)->0])
        } else {
            None
        }),
{
    if itbs >= 14 {
        return None;
    }
    match count_index(n_sf) {
        Some(c) => {
            let row = tbs_dl_row(itbs);
            Some(row[c])
        },
        None => None,
    }
}

/// NB-IoT uplink TBS for single-tone, `(I_TBS, N_ru)` with `N_ru` in 1..=10.
pub fn tbs_ul_single_tone(itbs: usize, n_ru: usize) -> (r: Option<usize>)
    ensures
        r == (if itbs < 8 && 1 <= n_ru <= 10 {
            Some(tbs_ul_st_table()[itbs as int][n_ru - 1])
        } else {
            None
        }),
{
    if itbs >= 8 || n_ru == 0 || n_ru > 10 {
        return None;
    }
    let row = tbs_ul_st_row(itbs);
    Some(row[n_ru - 1])
}

/// NB-IoT uplink TBS for multi-tone (3/6/12 subcarriers); resource unit
/// counts above 8 are refused.
pub fn tbs_ul_multi_tone(itbs: usize, n_sc: usize, n_ru: usize) -> (r: Option<usize>)
    ensures
        r == (if itbs < 14 && 1 <= n_ru <= 8 && count_column(n_ru) is Some {
            if n_sc == 3 {
                Some(tbs_mt3_table()[itbs as int][count_column(n_ru)->0])
            } else if n_sc == 6 {
                Some(tbs_mt6_table()[itbs as int][count_column(n_ru)->0])
            } else if n_sc == 12 {
                Some(tbs_mt12_table()[itbs as int][count_column(n_ru)->0])
            } else {
                None
            }
        } else {
            None
        }),
{
    if itbs >= 14 || n_ru == 0 || n_ru > 8 {
        return None;
    }
    let c = match count_index(n_ru) {
        Some(c) => c,
        None => {
            return None;
        },
    };
    if n_sc == 3 {
        let row = tbs_mt3_row(itbs);
        Some(row[c])
    } else if n_sc == 6 {
        let row = tbs_mt6_row(itbs);
        Some(row[c])
    } else if n_sc == 12 {
        let row = tbs_mt12_row(itbs);
        Some(row[c])
    } else {
        None
    }
}

// ---------------------------------------------------------------------------
// Gold-sequence scrambler (TS 36.211 §7.2)
// ---------------------------------------------------------------------------

/// The feedback bit of the first m-sequence register (x^31 + x^3 + 1).
pub open spec fn x1_feedback(x1: u32) -> u32 {
    ((x1 >> 3u32) ^ x1) & 1u32
}

/// The feedback bit of the second register (x^31 + x^3 + x^2 + x + 1).
pub open spec fn x2_feedback(x2: u32) -> u32 {
    ((x2 >> 3u32) ^ (x2 >> 2u32) ^ (x2 >> 1u32) ^ x2) & 1u32
}

/// One step of the register pair.
pub open spec fn gold_step(st: (u32, u32)) -> (u32, u32) {
    ((st.0 >> 1u32) | (x1_feedback(st.0) << 30u32), (st.1 >> 1u32) | (x2_feedback(st.1) << 30u32))
}

/// The register pair after `k` steps.
pub open spec fn gold_state(st: (u32, u32), k: nat) -> (u32, u32)
    decreases k,
{
    if k == 0 {
        st
    } else {
        gold_step(gold_state(st, (k - 1) as nat))
    }
}

/// The output bit of a register pair.
pub open spec fn gold_bit(st: (u32, u32)) -> u8 {
    (x1_feedback(st.0) ^ x2_feedback(st.1)) as u8
}

/// The scrambling sequence bit `k` from register pair `st`.
pub open spec fn gold_seq(st: (u32, u32), k: nat) -> u8 {
    gold_bit(gold_state(st, k))
}

/// The register pair for an initial value: `x1 = 1`, `x2 = c_init`,
/// advanced 1600 steps.
pub open spec fn gold_init(c_init: u32) -> (u32, u32) {
    gold_state((1u32, c_init), 1600)
}

/// Stepping `a` then `b` times is stepping `a + b` times.
pub proof fn lemma_gold_state_add(st: (u32, u32), a: nat, b: nat)
    ensures
        gold_state(gold_state(st, a), b) == gold_state(st, a + b),
    decreases b,
{
    if b > 0 {
        lemma_gold_state_add(st, a, (b - 1) as nat);
    }
}

/// One step of the second register alone.
pub open spec fn x2_step(s: u32) -> u32 {
    (s >> 1u32) | (x2_feedback(s) << 30u32)
}

/// The second register after `k` steps.
pub open spec fn x2_iter(s: u32, k: nat) -> u32
    decreases k,
{
    if k == 0 {
        s
    } else {
        x2_step(x2_iter(s, (k - 1) as nat))
    }
}

/// The bit-level facts about the second register: a 31-bit register stays
/// 31 bits and its step is one-to-one; two registers with equal feedback
/// shift their difference right; shifts compose; feedback bits are bits;
/// XORing different bits into one bit gives different bits.
proof fn lemma_x2_facts(s: u32, t: u32, d: u32, k: u32, g1: u32, g2: u32, h: u32)
    by (bit_vector)
    ensures
        s < 0x8000_0000u32 ==> x2_step(s) < 0x8000_0000u32,
        s < 0x8000_0000u32 && t < 0x8000_0000u32 && s != t ==> x2_step(s) != x2_step(t),
        s < 0x8000_0000u32 && t < 0x8000_0000u32 && x2_feedback(s) == x2_feedback(t) ==> x2_step(s)
            ^ x2_step(t) == (s ^ t) >> 1u32,
        s < 0x8000_0000u32 && t < 0x8000_0000u32 ==> (s ^ t) < 0x8000_0000u32,
        (s ^ t == 0u32) == (s == t),
        d >> 0u32 == d,
        k < 31u32 ==> (d >> k) >> 1u32 == d >> ((k + 1) as u32),
        d < 0x8000_0000u32 ==> d >> 31u32 == 0u32,
        x1_feedback(s) <= 1u32,
        x2_feedback(s) <= 1u32,
        g1 <= 1u32 && g2 <= 1u32 && h <= 1u32 && g1 != g2 ==> ((h ^ g1) as u8) != ((h ^ g2) as u8),
{
}

/// Stepping `a` then `b` times is stepping `a + b` times.
proof fn lemma_x2_iter_add(s: u32, a: nat, b: nat)
    ensures
        x2_iter(x2_iter(s, a), b) == x2_iter(s, a + b),
    decreases b,
{
    if b > 0 {
        lemma_x2_iter_add(s, a, (b - 1) as nat);
    }
}

/// The register pair's parts step on their own: the second part is the
/// second register's steps, and the first part does not depend on the
/// second.
proof fn lemma_gold_parts(a: u32, b1: u32, b2: u32, k: nat)
    ensures
        gold_state((a, b1), k).1 == x2_iter(b1, k),
        gold_state((a, b1), k).0 == gold_state((a, b2), k).0,
    decreases k,
{
    if k > 0 {
        lemma_gold_parts(a, b1, b2, (k - 1) as nat);
    }
}

/// A 31-bit register stays 31 bits, and distinct 31-bit registers stay
/// distinct.
proof fn lemma_x2_iter_injective(s: u32, t: u32, k: nat)
    requires
        s < 0x8000_0000u32,
        t < 0x8000_0000u32,
    ensures
        x2_iter(s, k) < 0x8000_0000u32,
        x2_iter(t, k) < 0x8000_0000u32,
        s != t ==> x2_iter(s, k) != x2_iter(t, k),
    decreases k,
{
    if k > 0 {
        let k1 = (k - 1) as nat;
        lemma_x2_iter_injective(s, t, k1);
        lemma_x2_facts(x2_iter(s, k1), x2_iter(t, k1), 0, 0, 0, 0, 0);
        lemma_x2_facts(x2_iter(t, k1), x2_iter(s, k1), 0, 0, 0, 0, 0);
    }
}

/// While the two registers feed back the same bits, their difference
/// shifts out one bit per step.
proof fn lemma_x2_same_feedback(s: u32, t: u32, k: nat)
    requires
        s < 0x8000_0000u32,
        t < 0x8000_0000u32,
        k <= 31,
        forall|j: nat| j < k ==> x2_feedback(#[trigger] x2_iter(s, j)) == x2_feedback(x2_iter(t, j)),
    ensures
        x2_iter(s, k) ^ x2_iter(t, k) == (s ^ t) >> (k as u32),
    decreases k,
{
    if k == 0 {
        lemma_x2_facts(s, t, s ^ t, 0, 0, 0, 0);
        assert(k as u32 == 0u32);
    } else {
        let k1 = (k - 1) as nat;
        lemma_x2_same_feedback(s, t, k1);
        lemma_x2_iter_injective(s, t, k1);
        let a = x2_iter(s, k1);
        let b = x2_iter(t, k1);
        assert(x2_feedback(a) == x2_feedback(b));
        lemma_x2_facts(a, b, s ^ t, k1 as u32, 0, 0, 0);
        assert(((k1 as u32) + 1) as u32 == k as u32);
        assert(x2_iter(s, k) == x2_step(a));
        assert(x2_iter(t, k) == x2_step(b));
    }
}

/// Distinct 31-bit registers feed back different bits within 31 steps.
proof fn lemma_x2_feedback_differs(s: u32, t: u32) -> (j: nat)
    requires
        s < 0x8000_0000u32,
        t < 0x8000_0000u32,
        s != t,
    ensures
        j < 31,
        x2_feedback(x2_iter(s, j)) != x2_feedback(x2_iter(t, j)),
{
    if exists|j: nat| j < 31 && x2_feedback(#[trigger] x2_iter(s, j)) != x2_feedback(x2_iter(t, j)) {
        choose|j: nat| j < 31 && x2_feedback(#[trigger] x2_iter(s, j)) != x2_feedback(x2_iter(t, j))
    } else {
        lemma_x2_same_feedback(s, t, 31);
        lemma_x2_facts(s, t, s ^ t, 0, 0, 0, 0);
        lemma_x2_facts(x2_iter(s, 31), x2_iter(t, 31), 0, 0, 0, 0, 0);
        lemma_x2_iter_injective(s, t, 31);
        0
    }
}

/// Scrambling sequences from different initial values below 2^31 differ
/// within their first 31 bits.
pub proof fn lemma_gold_sequences_differ(c1: u32, c2: u32)
    requires
        c1 < 0x8000_0000u32,
        c2 < 0x8000_0000u32,
        c1 != c2,
    ensures
        exists|k: nat| k < 31 && #[trigger] gold_seq(gold_init(c1), k) != gold_seq(gold_init(c2), k),
{
    lemma_x2_iter_injective(c1, c2, 1600);
    let s = x2_iter(c1, 1600);
    let t = x2_iter(c2, 1600);
    let j = lemma_x2_feedback_differs(s, t);
    lemma_gold_state_add((1u32, c1), 1600, j);
    lemma_gold_state_add((1u32, c2), 1600, j);
    lemma_gold_parts(1u32, c1, c2, 1600 + j);
    lemma_gold_parts(1u32, c2, c1, 1600 + j);
    lemma_x2_iter_add(c1, 1600, j);
    lemma_x2_iter_add(c2, 1600, j);
    let st1 = gold_state((1u32, c1), 1600 + j);
    let st2 = gold_state((1u32, c2), 1600 + j);
    lemma_x2_facts(0, 0, 0, 0, x2_feedback(st1.1), x2_feedback(st2.1), x1_feedback(st1.0));
    lemma_x2_facts(st1.1, st2.1, 0, 0, 0, 0, 0);
    lemma_x2_facts(st2.1, st1.1, 0, 0, 0, 0, 0);
    lemma_x2_facts(st1.0, 0, 0, 0, 0, 0, 0);
    assert(st1.0 == st2.0);
    assert(st1.1 == x2_iter(s, j));
    assert(st2.1 == x2_iter(t, j));
    assert(gold_seq(gold_init(c1), j) == gold_bit(st1));
    assert(gold_seq(gold_init(c2), j) == gold_bit(st2));
    assert(gold_seq(gold_init(c1), j) != gold_seq(gold_init(c2), j));
}

/// LFSR-based NB-IoT scrambling sequence (polynomial x^31 + x^3 + 1)
pub struct NbScrambler {
    x1: u32,
    x2: u32,
}

impl NbScrambler {
    /// The register pair now.
    pub closed spec fn registers(&self) -> (u32, u32) {
        (self.x1, self.x2)
    }

    fn step(&mut self)
        ensures
            final(self).registers() == gold_step(old(self).registers()),
    {
        let b1 = ((self.x1 >> 3) ^ self.x1) & 1;
        self.x1 = (self.x1 >> 1) | (b1 << 30);
        let b2 = ((self.x2 >> 3) ^ (self.x2 >> 2) ^ (self.x2 >> 1) ^ self.x2) & 1;
        self.x2 = (self.x2 >> 1) | (b2 << 30);
    }

    /// Initialize with cell-specific c_init value (see TS 36.211 §7.2)
    pub fn new(c_init: u32) -> (s: Self)
        ensures
            s.registers() == gold_init(c_init),
    {
        let mut s = NbScrambler { x1: 1, x2: c_init };
        let mut i: usize = 0;
        while i < 1600
            invariant
                i <= 1600,
                s.registers() == gold_state((1u32, c_init), i as nat),
            decreases 1600 - i,
        {
            s.step();
            i += 1;
        }
        s
    }

    /// Produce next scrambling bit
    pub fn next_bit(&mut self) -> (c: u8)
        ensures
            c == gold_bit(old(self).registers()),
            final(self).registers() == gold_step(old(self).registers()),
    {
        let c = (((self.x1 >> 3) ^ self.x1) & 1) ^ (((self.x2 >> 3) ^ (self.x2 >> 2) ^ (self.x2 >> 1)
            ^ self.x2) & 1);
        self.step();
        c as u8
    }

    /// Scramble a bit vector in place
    pub fn scramble(&mut self, bits: &mut [u8])
        ensures
            final(bits)@.len() == old(bits)@.len(),
            forall|i: int|
                0 <= i < old(bits)@.len() ==> #[trigger] final(bits)@[i] == old(bits)@[i] ^ gold_seq(
                    old(self).registers(),
                    i as nat,
                ),
            final(self).registers() == gold_state(old(self).registers(), old(bits)@.len() as nat),
    {
        let ghost st0 = self.registers();
        let ghost b0 = bits@;
        let mut i: usize = 0;
        while i < bits.len()
            invariant
                i <= bits.len(),
                bits@.len() == b0.len(),
                b0 == old(bits)@,
                st0 == old(self).registers(),
                self.registers() == gold_state(st0, i as nat),
                forall|q: int| 0 <= q < i ==> #[trigger] bits@[q] == b0[q] ^ gold_seq(st0, q as nat),
                forall|q: int| i <= q < bits@.len() ==> #[trigger] bits@[q] == b0[q],
            decreases bits.len() - i,
        {
            let k = self.next_bit();
            let v = bits[i] ^ k;
            bits.set(i, v);
            i += 1;
        }
    }
}

/// Scrambling twice with the same sequence gives the input back: from
/// scramblers made with the same initial value, the second undoes the
/// first.
pub proof fn lemma_scramble_self_inverse(st: (u32, u32), data: Seq<u8>, once: Seq<u8>, twice: Seq<u8>)
    requires
        once.len() == data.len(),
        forall|i: int| 0 <= i < data.len() ==> #[trigger] once[i] == data[i] ^ gold_seq(st, i as nat),
        twice.len() == once.len(),
        forall|i: int| 0 <= i < once.len() ==> #[trigger] twice[i] == once[i] ^ gold_seq(st, i as nat),
    ensures
        twice == data,
{
    assert forall|i: int| 0 <= i < data.len() implies twice[i] == data[i] by {
        let d = data[i];
        let k = gold_seq(st, i as nat);
        assert(once[i] == d ^ k);
        assert((d ^ k) ^ k == d) by (bit_vector);
    }
    assert(twice =~= data);
}

// ---------------------------------------------------------------------------
// CRC-24A (polynomial 0x864CFB)
// ---------------------------------------------------------------------------

/// The CRC-24A register after one input bit value `b`: the value is XORed
/// in at bit 23, then the register shifts once, folding in the polynomial
/// when bit 23 was set, and keeps 24 bits.
pub open spec fn crc24_step(crc: u32, b: u8) -> u32 {
    let c = crc ^ ((b as u32) << 23u32);
    if c & 0x800000u32 != 0 {
        ((c << 1u32) ^ 0x864CFBu32) & 0xFFFFFFu32
    } else {
        (c << 1u32) & 0xFFFFFFu32
    }
}

/// The CRC-24A register after feeding `bits` from zero.
pub open spec fn crc24a_spec(bits: Seq<u8>) -> u32
    decreases bits.len(),
{
    if bits.len() == 0 {
        0
    } else {
        crc24_step(crc24a_spec(bits.drop_last()), bits.last())
    }
}

/// Compute 24-bit CRC-24A (polynomial 0x864CFB) over bit slice
pub fn crc24a(bits: &[u8]) -> (crc: u32)
    ensures
        crc == crc24a_spec(bits@),
        crc <= 0xFF_FFFF,
{
    proof {
        lemma_crc24a_linear(bits@, bits@);
    }
    let mut crc: u32 = 0;
    let mut i: usize = 0;
    while i < bits.len()
        invariant
            i <= bits.len(),
            crc == crc24a_spec(bits@.subrange(0, i as int)),
        decreases bits.len() - i,
    {
        proof {
            assert(bits@.subrange(0, i + 1).drop_last() =~= bits@.subrange(0, i as int));
        }
        let b = bits[i];
        crc = crc ^ ((b as u32) << 23);
        if crc & 0x80_0000 != 0 {
            crc = ((crc << 1) ^ 0x864CFB) & 0xFF_FFFF;
        } else {
            crc = (crc << 1) & 0xFF_FFFF;
        }
        i += 1;
    }
    proof {
        assert(bits@.subrange(0, bits.len() as int) =~= bits@);
    }
    crc
}

/// The CRC-24A register after feeding `bits` from register `c`.
pub open spec fn crc24_feed(c: u32, bits: Seq<u8>) -> u32
    decreases bits.len(),
{
    if bits.len() == 0 {
        c
    } else {
        crc24_step(crc24_feed(c, bits.drop_last()), bits.last())
    }
}

/// Bitwise XOR of two bit sequences of one length.
pub open spec fn xor_bits(a: Seq<u8>, b: Seq<u8>) -> Seq<u8> {
    Seq::new(a.len(), |i: int| a[i] ^ b[i])
}

/// The register step facts: a step is linear over XOR and keeps 24 bits;
/// feeding the register's own top bit clears it and shifts the rest up.
proof fn lemma_crc24_step_facts(x: u32, y: u32, a: u8, b: u8, c: u32, k: u32)
    by (bit_vector)
    ensures
        crc24_step(x ^ y, a ^ b) == crc24_step(x, a) ^ crc24_step(y, b),
        crc24_step(x, a) <= 0xFFFFFFu32,
        0u32 ^ 0u32 == 0u32,
        x ^ x == 0u32,
        c <= 0xFFFFFFu32 && k < 24 ==> crc24_step((c << k) & 0xFFFFFFu32, ((c >> ((23 - k) as u32)) & 1u32) as u8)
            == (c << ((k + 1) as u32)) & 0xFFFFFFu32,
        c <= 0xFFFFFFu32 ==> (c << 0u32) & 0xFFFFFFu32 == c,
        (c << 24u32) & 0xFFFFFFu32 == 0u32,
{
}

/// The CRC is linear: the CRC of the XOR of two bit sequences of one
/// length is the XOR of their CRCs, and it has 24 bits.
proof fn lemma_crc24_linear_prefix(a: Seq<u8>, b: Seq<u8>)
    requires
        a.len() == b.len(),
    ensures
        crc24a_spec(xor_bits(a, b)) == crc24a_spec(a) ^ crc24a_spec(b),
        crc24a_spec(a) <= 0xFFFFFFu32,
    decreases a.len(),
{
    if a.len() == 0 {
        lemma_crc24_step_facts(0, 0, 0, 0, 0, 0);
    } else {
        assert(xor_bits(a, b).drop_last() =~= xor_bits(a.drop_last(), b.drop_last()));
        lemma_crc24_linear_prefix(a.drop_last(), b.drop_last());
        lemma_crc24_step_facts(crc24a_spec(a.drop_last()), crc24a_spec(b.drop_last()), a.last(), b.last(), 0, 0);
    }
}

/// CRC-24A is linear over GF(2): for bit sequences of one length the CRC
/// of their XOR is the XOR of their CRCs; every CRC has 24 bits, and an
/// all-zero input has CRC zero.
pub proof fn lemma_crc24a_linear(a: Seq<u8>, b: Seq<u8>)
    requires
        a.len() == b.len(),
    ensures
        crc24a_spec(xor_bits(a, b)) == crc24a_spec(a) ^ crc24a_spec(b),
        crc24a_spec(a) <= 0xFFFFFFu32,
        crc24a_spec(Seq::new(a.len(), |i: int| 0u8)) == 0,
{
    lemma_crc24_linear_prefix(a, b);
    let z = Seq::new(a.len(), |i: int| 0u8);
    lemma_crc24_linear_prefix(z, z);
    assert(xor_bits(z, z) =~= z) by {
        assert forall|i: int| 0 <= i < z.len() implies xor_bits(z, z)[i] == z[i] by {
            lemma_xor_cancel(0u8, 0u8);
        }
    }
    lemma_crc24_step_facts(crc24a_spec(z), 0, 0, 0, 0, 0);
}

/// Feeding bits after a prefix continues from the prefix's register.
proof fn lemma_crc24_append(a: Seq<u8>, t: Seq<u8>)
    ensures
        crc24a_spec(a + t) == crc24_feed(crc24a_spec(a), t),
    decreases t.len(),
{
    if t.len() == 0 {
        assert(a + t =~= a);
    } else {
        assert((a + t).drop_last() =~= a + t.drop_last());
        lemma_crc24_append(a, t.drop_last());
    }
}

/// Feeding a register its own first `k` bits, most significant first,
/// shifts them out.
proof fn lemma_crc24_feed_own(c: u32, k: int)
    requires
        c <= 0xFFFFFFu32,
        0 <= k <= 24,
    ensures
        crc24_feed(c, msb_bits(c, 24).subrange(0, k)) == (c << (k as u32)) & 0xFFFFFFu32,
    decreases k,
{
    if k == 0 {
        lemma_crc24_step_facts(0, 0, 0, 0, c, 0);
    } else {
        let t = msb_bits(c, 24).subrange(0, k);
        assert(t.drop_last() =~= msb_bits(c, 24).subrange(0, k - 1));
        lemma_crc24_feed_own(c, k - 1);
        lemma_crc24_step_facts(0, 0, 0, 0, c, (k - 1) as u32);
        assert(t.last() == ((c >> ((23 - (k - 1)) as u32)) & 1u32) as u8);
        assert(((k - 1) as u32 + 1) as u32 == k as u32);
    }
}

/// Attaching the CRC leaves a zero remainder: the CRC of a block followed
/// by its CRC bits, most significant first, is zero.
pub proof fn lemma_crc24a_attached_zero(data: Seq<u8>)
    ensures
        crc24a_spec(data + msb_bits(crc24a_spec(data), 24)) == 0,
{
    let c = crc24a_spec(data);
    lemma_crc24a_linear(data, data);
    lemma_crc24_append(data, msb_bits(c, 24));
    lemma_crc24_feed_own(c, 24);
    assert(msb_bits(c, 24).subrange(0, 24) =~= msb_bits(c, 24));
    lemma_crc24_step_facts(0, 0, 0, 0, c, 0);
}

/// The `n` low bits of `val`, most significant first, as 0/1 values.
pub open spec fn msb_bits(val: u32, n: nat) -> Seq<u8> {
    Seq::new(n, |i: int| ((val >> ((n - 1 - i) as u32)) & 1u32) as u8)
}

/// Append CRC-24A bits to data; the result has CRC zero.
pub fn attach_crc24a(data: &[u8]) -> (out: Vec<u8>)
    ensures
        out@ == data@ + msb_bits(crc24a_spec(data@), 24),
        crc24a_spec(out@) == 0,
{
    proof {
        lemma_crc24a_attached_zero(data@);
    }
    let crc = crc24a(data);
    let mut out = vstd::slice::slice_to_vec(data);
    push_bits(&mut out, crc, 24);
    out
}

/// Append the `n_bits` low bits of `val`, most significant first.
fn push_bits(v: &mut Vec<u8>, val: u32, n_bits: usize)
    requires
        n_bits <= 32,
    ensures
        final(v)@ == old(v)@ + msb_bits(val, n_bits as nat),
{
    let ghost v0 = v@;
    let mut k: usize = 0;
    while k < n_bits
        invariant
            n_bits <= 32,
            k <= n_bits,
            v@ == v0 + msb_bits(val, n_bits as nat).subrange(0, k as int),
        decreases n_bits - k,
    {
        let i = n_bits - 1 - k;
        v.push(((val >> i as u32) & 1) as u8);
        proof {
            assert(v@ =~= v0 + msb_bits(val, n_bits as nat).subrange(0, k + 1));
        }
        k += 1;
    }
    proof {
        assert(msb_bits(val, n_bits as nat).subrange(0, n_bits as int) =~= msb_bits(val, n_bits as nat));
    }
}

// ---------------------------------------------------------------------------
// Tail-biting convolutional code (rate 1/3, K=7, TS 36.212 §5.1.3.1)
// ---------------------------------------------------------------------------

/// The generator masks (octal 133, 171, 165).
pub open spec fn tbcc_generator(j: int) -> u8 {
    if j == 0 {
        0x5Bu8
    } else if j == 1 {
        0x79u8
    } else {
        0x75u8
    }
}

/// The encoder state before input bit `i`, starting from `init`.
pub open spec fn tbcc_state(bits: Seq<u8>, init: u8, i: int) -> u8
    decreases i,
{
    if i <= 0 {
        init
    } else {
        let st = tbcc_state(bits, init, i - 1);
        ((st >> 1u8) | (bits[i - 1] << 5u8)) & 0x3Fu8
    }
}

/// Coded bit `j` (of 3) for input bit `i`.
pub open spec fn tbcc_out(bits: Seq<u8>, init: u8, i: int, j: int) -> u8 {
    let s = (tbcc_state(bits, init, i) << 1u8) | bits[i];
    if parity_spec(s & tbcc_generator(j)) {
        1
    } else {
        0
    }
}

/// The tail-biting start state: the last six input bits, the newest in
/// the top register bit, as encoding the whole block from an empty
/// register leaves them.
pub open spec fn tbcc_init(bits: Seq<u8>) -> u8 {
    tbcc_state(bits, 0, bits.len() as int)
}

/// The top `j` bits of the six-bit register.
pub open spec fn tbcc_top(j: u8) -> u8 {
    if j == 0 {
        0x00u8
    } else if j == 1 {
        0x20u8
    } else if j == 2 {
        0x30u8
    } else if j == 3 {
        0x38u8
    } else if j == 4 {
        0x3Cu8
    } else if j == 5 {
        0x3Eu8
    } else {
        0x3Fu8
    }
}

/// The register bit facts: one step keeps agreement on the top bits and
/// adds one more; six-bit registers that agree on all six bits are equal;
/// any two agree on none; masking to six bits twice is masking once.
proof fn lemma_tbcc_bits(x: u8, y: u8, b: u8, j: u8)
    by (bit_vector)
    ensures
        (j < 6 && x & 0x3Fu8 == x && y & 0x3Fu8 == y && x & tbcc_top(j) == y & tbcc_top(j)) ==> (((x >> 1u8) | (b
            << 5u8)) & 0x3Fu8) & tbcc_top((j + 1) as u8) == (((y >> 1u8) | (b << 5u8)) & 0x3Fu8) & tbcc_top(
            (j + 1) as u8),
        x & tbcc_top(0) == y & tbcc_top(0),
        (x & 0x3Fu8 == x && y & 0x3Fu8 == y && x & tbcc_top(6) == y & tbcc_top(6)) ==> x == y,
        (x & 0x3Fu8) & 0x3Fu8 == x & 0x3Fu8,
        0u8 & 0x3Fu8 == 0u8,
{
}

/// The register is six bits wide after any step.
proof fn lemma_tbcc_state_width(bits: Seq<u8>, a: u8, i: int)
    requires
        i >= 1,
    ensures
        tbcc_state(bits, a, i) & 0x3Fu8 == tbcc_state(bits, a, i),
{
    let st = tbcc_state(bits, a, i - 1);
    let b = bits[i - 1];
    lemma_tbcc_bits((st >> 1u8) | (b << 5u8), 0, 0, 0);
}

/// After `j` steps the register's top `j` bits no longer depend on where
/// it started.
proof fn lemma_tbcc_forgets(bits: Seq<u8>, a: u8, c: u8, i: int, j: int)
    requires
        0 <= j <= 6,
        j <= i,
        a & 0x3Fu8 == a,
        c & 0x3Fu8 == c,
    ensures
        tbcc_state(bits, a, i) & tbcc_top(j as u8) == tbcc_state(bits, c, i) & tbcc_top(j as u8),
    decreases j,
{
    if j == 0 {
        lemma_tbcc_bits(tbcc_state(bits, a, i), tbcc_state(bits, c, i), 0, 0);
    } else {
        lemma_tbcc_forgets(bits, a, c, i - 1, j - 1);
        if i - 1 >= 1 {
            lemma_tbcc_state_width(bits, a, i - 1);
            lemma_tbcc_state_width(bits, c, i - 1);
        }
        lemma_tbcc_bits(
            tbcc_state(bits, a, i - 1),
            tbcc_state(bits, c, i - 1),
            bits[i - 1],
            (j - 1) as u8,
        );
        assert(((j - 1) as u8 + 1) as u8 == j as u8);
    }
}

/// Tail-biting: encoding a block of at least six bits from its start
/// state ends in that start state.
pub proof fn lemma_tbcc_tail_biting(bits: Seq<u8>)
    requires
        bits.len() >= 6,
    ensures
        tbcc_state(bits, tbcc_init(bits), bits.len() as int) == tbcc_init(bits),
{
    let n = bits.len() as int;
    lemma_tbcc_state_width(bits, 0, n);
    lemma_tbcc_bits(0, 0, 0, 0);
    lemma_tbcc_forgets(bits, tbcc_init(bits), 0, n, 6);
    lemma_tbcc_state_width(bits, tbcc_init(bits), n);
    lemma_tbcc_state_width(bits, 0, n);
    lemma_tbcc_bits(tbcc_state(bits, tbcc_init(bits), n), tbcc_state(bits, 0, n), 0, 0);
}

/// Convolutional encoder: rate 1/3, K=7, generators (133, 171, 165) octal
pub struct TbccEncoder {
    state: u8,
}

impl TbccEncoder {
    /// The encoder register.
    pub closed spec fn register(&self) -> u8 {
        self.state
    }

    /// A fresh encoder.
    pub fn new() -> (e: Self)
        ensures
            e.register() == 0,
    {
        TbccEncoder { state: 0 }
    }

    /// Encode with tail-biting: initialize state from last 6 bits, then
    /// encode; for blocks of at least six bits the register ends where it
    /// started.
    pub fn encode_tail_biting(&mut self, bits: &[u8]) -> (out: Vec<u8>)
        requires
            bits.len() * 3 <= usize::MAX,
        ensures
            out.len() == 3 * bits.len(),
            forall|q: int|
                0 <= q < out.len() ==> #[trigger] out[q] == tbcc_out(bits@, tbcc_init(bits@), q / 3, q % 3),
            final(self).register() == tbcc_state(bits@, tbcc_init(bits@), bits.len() as int),
            bits.len() >= 6 ==> final(self).register() == tbcc_init(bits@),
    {
        let k = bits.len();
        let mut start: u8 = 0;
        let mut j: usize = 0;
        while j < k
            invariant
                j <= k,
                k == bits.len(),
                start == tbcc_state(bits@, 0, j as int),
            decreases k - j,
        {
            start = ((start >> 1) | (bits[j] << 5)) & 0x3F;
            j += 1;
        }
        self.state = start;
        let ghost init = self.state;
        let mut out: Vec<u8> = Vec::with_capacity(3 * k);
        let mut i: usize = 0;
        while i < k
            invariant
                k == bits.len(),
                k * 3 <= usize::MAX,
                init == tbcc_init(bits@),
                i <= k,
                out.len() == 3 * i,
                self.state == tbcc_state(bits@, init, i as int),
                forall|q: int| 0 <= q < out.len() ==> #[trigger] out[q] == tbcc_out(bits@, init, q / 3, q % 3),
            decreases k - i,
        {
            let bit = bits[i];
            let s = (self.state << 1) | bit;
            let g0: u8 = if parity(s & 0x5B) { 1 } else { 0 };
            let g1: u8 = if parity(s & 0x79) { 1 } else { 0 };
            let g2: u8 = if parity(s & 0x75) { 1 } else { 0 };
            out.push(g0);
            out.push(g1);
            out.push(g2);
            proof {
                assert forall|q: int| 0 <= q < out.len() implies #[trigger] out[q] == tbcc_out(
                    bits@,
                    init,
                    q / 3,
                    q % 3,
                ) by {
                    if q >= 3 * i {
                        assert(q / 3 == i as int) by (nonlinear_arith)
                            requires 3 * i <= q < 3 * i + 3;
                        assert(q % 3 == q - 3 * i) by (nonlinear_arith)
                            requires 3 * i <= q < 3 * i + 3;
                    }
                }
            }
            self.state = ((self.state >> 1) | (bit << 5)) & 0x3F;
            i += 1;
        }
        proof {
            if k >= 6 {
                lemma_tbcc_tail_biting(bits@);
            }
        }
        out
    }
}

impl Default for TbccEncoder {
    fn default() -> (e: Self)
        ensures
            e.register() == 0,
    {
        Self::new()
    }
}

// ---------------------------------------------------------------------------
// Rate matching (circular buffer, TS 36.212 §5.1.4.1)
// ---------------------------------------------------------------------------

/// Rate-match TBCC output to target_bits length using circular buffer
pub fn rate_match(coded: &[u8], target_bits: usize) -> (out: Vec<u8>)
    requires
        target_bits == 0 || coded.len() > 0,
    ensures
        out.len() == target_bits,
        forall|i: int| 0 <= i < target_bits ==> #[trigger] out[i] == coded[i % (coded.len() as int)],
{
    let mut out: Vec<u8> = Vec::with_capacity(target_bits);
    let len = coded.len();
    let mut i: usize = 0;
    while i < target_bits
        invariant
            len == coded.len(),
            target_bits == 0 || len > 0,
            i <= target_bits,
            out.len() == i,
            forall|q: int| 0 <= q < i ==> #[trigger] out[q] == coded[q % (len as int)],
        decreases target_bits - i,
    {
        out.push(coded[i % len]);
        i += 1;
    }
    out
}

// ---------------------------------------------------------------------------
// Turbo encoder (QPP interleaver, constituent RSC, TS 36.212 §5.1.3.2)
// ---------------------------------------------------------------------------

/// The feedback bit of the constituent encoder for input `b` in state `s`.
pub open spec fn rsc_feedback(s: u8, b: u8) -> u8 {
    b ^ ((s >> 2u8) & 1u8) ^ (s & 1u8)
}

/// The constituent encoder state before input `i`.
pub open spec fn rsc_state(bits: Seq<u8>, s0: u8, i: int) -> u8
    decreases i,
{
    if i <= 0 {
        s0 & 0x07u8
    } else {
        let s = rsc_state(bits, s0, i - 1);
        ((s << 1u8) | rsc_feedback(s, bits[i - 1])) & 0x07u8
    }
}

/// The parity bit for input `i`.
pub open spec fn rsc_parity(bits: Seq<u8>, s0: u8, i: int) -> u8 {
    let s = rsc_state(bits, s0, i);
    rsc_feedback(s, bits[i]) ^ ((s >> 1u8) & 1u8) ^ (s & 1u8) ^ bits[i]
}

/// Simple RSC constituent encoder (rate 1/2, K=4, g=[1+D^2+D^3, 1+D+D^2+D^3])
fn rsc_encode(bits: &[u8], initial_state: u8) -> (r: (Vec<u8>, u8))
    ensures
        r.0.len() == bits.len(),
        forall|i: int| 0 <= i < bits.len() ==> #[trigger] r.0[i] == rsc_parity(bits@, initial_state, i),
        r.1 == rsc_state(bits@, initial_state, bits.len() as int),
{
    let mut state: u8 = initial_state & 0x07;
    let mut parity_bits: Vec<u8> = Vec::with_capacity(bits.len());
    let mut i: usize = 0;
    while i < bits.len()
        invariant
            i <= bits.len(),
            parity_bits.len() == i,
            state == rsc_state(bits@, initial_state, i as int),
            forall|q: int| 0 <= q < i ==> #[trigger] parity_bits[q] == rsc_parity(bits@, initial_state, q),
        decreases bits.len() - i,
    {
        let b = bits[i];
        let s = state;
        let feedback = b ^ ((s >> 2) & 1) ^ (s & 1);
        let p = feedback ^ ((s >> 1) & 1) ^ (s & 1) ^ b;
        parity_bits.push(p);
        state = ((state << 1) | feedback) & 0x07;
        i += 1;
    }
    (parity_bits, state)
}

/// The QPP interleaver index `(f1 * i + f2 * i^2) mod k`.
pub open spec fn qpp_index(i: int, k: int, f1: int, f2: int) -> int {
    (f1 * i + f2 * i * i) % k
}

/// QPP turbo interleaver index (simplified linear-quadratic per TS 36.212)
pub fn qpp_interleave_idx(i: usize, k: usize, f1: usize, f2: usize) -> (r: usize)
    requires
        k > 0,
        f1 * i + f2 * i * i <= usize::MAX,
    ensures
        r == qpp_index(i as int, k as int, f1 as int, f2 as int),
{
    proof {
        assert(f2 * i * i >= 0 && f1 * i >= 0) by (nonlinear_arith);
        assert(f2 * i <= usize::MAX) by (nonlinear_arith)
            requires f2 * i * i <= usize::MAX, f2 >= 0, i >= 0;
    }
    let a = f1 * i;
    let b = f2 * i * i;
    (a + b) % k
}

/// The QPP parameters `(f1, f2)` for block size `k` (a subset of TS 36.212
/// Table 5.1.3-3; other sizes use `(3, k / 8)`).
pub open spec fn qpp_table(k: usize) -> (usize, usize) {
    if k == 40 {
        (3, 10)
    } else if k == 48 {
        (7, 12)
    } else if k == 64 {
        (19, 16)
    } else if k == 96 {
        (7, 24)
    } else if k == 128 {
        (7, 16)
    } else if k == 160 {
        (19, 20)
    } else if k == 192 {
        (7, 16)
    } else if k == 256 {
        (7, 16)
    } else if k == 320 {
        (11, 20)
    } else if k == 384 {
        (11, 24)
    } else if k == 512 {
        (7, 32)
    } else if k == 640 {
        (19, 20)
    } else if k == 768 {
        (11, 24)
    } else if k == 1024 {
        (7, 32)
    } else if k == 1280 {
        (11, 20)
    } else if k == 1536 {
        (11, 48)
    } else if k == 2048 {
        (13, 64)
    } else if k == 2560 {
        (51, 20)
    } else {
        (3, k / 8)
    }
}

/// Get QPP parameters for block size K (TS 36.212 Table 5.1.3-3, subset)
pub fn qpp_params(k: usize) -> (r: (usize, usize))
    ensures
        r == qpp_table(k),
{
    match k {
        40 => (3, 10),
        48 => (7, 12),
        64 => (19, 16),
        96 => (7, 24),
        128 => (7, 16),
        160 => (19, 20),
        192 => (7, 16),
        256 => (7, 16),
        320 => (11, 20),
        384 => (11, 24),
        512 => (7, 32),
        640 => (19, 20),
        768 => (11, 24),
        1024 => (7, 32),
        1280 => (11, 20),
        1536 => (11, 48),
        2048 => (13, 64),
        2560 => (51, 20),
        _ => (3, k / 8),
    }
}

/// Whether the interleaver arithmetic for block size `k` fits in a `usize`.
pub open spec fn turbo_fits(k: usize) -> bool {
    let (f1, f2) = qpp_table(k);
    3 * k <= usize::MAX && (k == 0 || f1 * (k - 1) + f2 * (k - 1) * (k - 1) <= usize::MAX)
}

/// The QPP-interleaved input.
pub open spec fn turbo_interleaved(bits: Seq<u8>) -> Seq<u8> {
    let k = bits.len() as usize;
    let (f1, f2) = qpp_table(k);
    Seq::new(bits.len(), |i: int| bits[qpp_index(i, k as int, f1 as int, f2 as int)])
}

/// Output bit `q` of the turbo code: systematic, parity 1, parity 2 in turn.
pub open spec fn turbo_bit(bits: Seq<u8>, q: int) -> u8 {
    let i = q / 3;
    if q % 3 == 0 {
        bits[i]
    } else if q % 3 == 1 {
        rsc_parity(bits, 0, i)
    } else {
        rsc_parity(turbo_interleaved(bits), 0, i)
    }
}

/// Turbo encoder: rate 1/3 output [d0, d1, d2] per input bit
pub fn turbo_encode(bits: &[u8]) -> (out: Vec<u8>)
    requires
        turbo_fits(bits.len()),
    ensures
        out.len() == 3 * bits.len(),
        forall|q: int| 0 <= q < out.len() ==> #[trigger] out[q] == turbo_bit(bits@, q),
{
    let k = bits.len();
    let (f1, f2) = qpp_params(k);
    let mut interleaved: Vec<u8> = Vec::with_capacity(k);
    let mut i: usize = 0;
    while i < k
        invariant
            k == bits.len(),
            (f1, f2) == qpp_table(k),
            turbo_fits(k),
            i <= k,
            interleaved.len() == i,
            forall|q: int| 0 <= q < i ==> #[trigger] interleaved[q] == turbo_interleaved(bits@)[q],
        decreases k - i,
    {
        proof {
            assert(f1 * i + f2 * i * i <= f1 * (k - 1) + f2 * (k - 1) * (k - 1)) by (nonlinear_arith)
                requires i <= k - 1, f1 >= 0, f2 >= 0;
        }
        let idx = qpp_interleave_idx(i, k, f1, f2);
        interleaved.push(bits[idx]);
        i += 1;
    }
    proof {
        assert(interleaved@ =~= turbo_interleaved(bits@));
    }
    let (parity1, _s1) = rsc_encode(bits, 0);
    let (parity2, _s2) = rsc_encode(interleaved.as_slice(), 0);
    let mut out: Vec<u8> = Vec::with_capacity(3 * k);
    let mut j: usize = 0;
    while j < k
        invariant
            k == bits.len(),
            3 * k <= usize::MAX,
            parity1.len() == k,
            parity2.len() == k,
            interleaved@ == turbo_interleaved(bits@),
            forall|q: int| 0 <= q < k ==> #[trigger] parity1[q] == rsc_parity(bits@, 0, q),
            forall|q: int| 0 <= q < k ==> #[trigger] parity2[q] == rsc_parity(interleaved@, 0, q),
            j <= k,
            out.len() == 3 * j,
            forall|q: int| 0 <= q < out.len() ==> #[trigger] out[q] == turbo_bit(bits@, q),
        decreases k - j,
    {
        out.push(bits[j]);
        out.push(parity1[j]);
        out.push(parity2[j]);
        proof {
            assert forall|q: int| 0 <= q < out.len() implies #[trigger] out[q] == turbo_bit(bits@, q) by {
                if q >= 3 * j {
                    assert(q / 3 == j as int) by (nonlinear_arith)
                        requires 3 * j <= q < 3 * j + 3;
                    assert(q % 3 == q - 3 * j) by (nonlinear_arith)
                        requires 3 * j <= q < 3 * j + 3;
                }
            }
        }
        j += 1;
    }
    out
}

// ---------------------------------------------------------------------------
// DCI packing and CRC attachment
// ---------------------------------------------------------------------------

/// CRC-16 CCITT (polynomial 0x1021), over bytes.
pub fn crc16_ccitt(data: &[u8]) -> (crc: u16)
    ensures
        crc == crc16_ccitt_spec(data@),
{
    crate::crc::crc16_ccitt(data)
}

/// DCI format for NB-IoT
#[derive(Debug, Clone)]
pub enum DciFormat {
    /// DCI N0: uplink scheduling grant
    N0 {
        subcarrier_indication: u8,
        resource_assignment: u8,
        mcs: u8,
        scheduling_delay: u8,
        rep_num: u8,
        new_data_indicator: bool,
    },
    /// DCI N1: downlink scheduling assignment
    N1 {
        npdcch_order: bool,
        scheduling_delay: u8,
        resource_assignment: u8,
        mcs: u8,
        rep_num: u8,
        new_data_indicator: bool,
        harq_ack_resource: u8,
    },
    /// DCI N2: paging / direct indication
    N2 { direct_indication: u8 },
}

/// A flag as a single bit.
pub open spec fn flag_bit(b: bool) -> Seq<u8> {
    seq![if b { 1u8 } else { 0u8 }]
}

/// The DCI fields, most significant bit first, each with its width.
pub open spec fn dci_bits(dci: DciFormat) -> Seq<u8> {
    match dci {
        DciFormat::N0 {
            subcarrier_indication,
            resource_assignment,
            mcs,
            scheduling_delay,
            rep_num,
            new_data_indicator,
        } => seq![0u8] + msb_bits(subcarrier_indication as u32, 6) + msb_bits(
            resource_assignment as u32,
            3,
        ) + msb_bits(mcs as u32, 4) + msb_bits(scheduling_delay as u32, 2) + msb_bits(rep_num as u32, 3)
            + flag_bit(new_data_indicator),
        DciFormat::N1 {
            npdcch_order,
            scheduling_delay,
            resource_assignment,
            mcs,
            rep_num,
            new_data_indicator,
            harq_ack_resource,
        } => flag_bit(npdcch_order) + msb_bits(scheduling_delay as u32, 3) + msb_bits(
            resource_assignment as u32,
            3,
        ) + msb_bits(mcs as u32, 4) + msb_bits(rep_num as u32, 4) + flag_bit(new_data_indicator)
            + msb_bits(harq_ack_resource as u32, 4),
        DciFormat::N2 { direct_indication } => msb_bits(direct_indication as u32, 8),
    }
}

/// Pack DCI format into bits
pub fn pack_dci(dci: &DciFormat) -> (bits: Vec<u8>)
    ensures
        bits@ == dci_bits(*dci),
{
    match dci {
        DciFormat::N0 {
            subcarrier_indication,
            resource_assignment,
            mcs,
            scheduling_delay,
            rep_num,
            new_data_indicator,
        } => {
            let mut bits: Vec<u8> = Vec::new();
            bits.push(0u8);
            push_bits(&mut bits, *subcarrier_indication as u32, 6);
            push_bits(&mut bits, *resource_assignment as u32, 3);
            push_bits(&mut bits, *mcs as u32, 4);
            push_bits(&mut bits, *scheduling_delay as u32, 2);
            push_bits(&mut bits, *rep_num as u32, 3);
            bits.push(if *new_data_indicator { 1u8 } else { 0u8 });
            proof {
                assert(bits@ =~= dci_bits(*dci));
            }
            bits
        },
        DciFormat::N1 {
            npdcch_order,
            scheduling_delay,
            resource_assignment,
            mcs,
            rep_num,
            new_data_indicator,
            harq_ack_resource,
        } => {
            let mut bits: Vec<u8> = Vec::new();
            bits.push(if *npdcch_order { 1u8 } else { 0u8 });
            push_bits(&mut bits, *scheduling_delay as u32, 3);
            push_bits(&mut bits, *resource_assignment as u32, 3);
            push_bits(&mut bits, *mcs as u32, 4);
            push_bits(&mut bits, *rep_num as u32, 4);
            bits.push(if *new_data_indicator { 1u8 } else { 0u8 });
            push_bits(&mut bits, *harq_ack_resource as u32, 4);
            proof {
                assert(bits@ =~= dci_bits(*dci));
            }
            bits
        },
        DciFormat::N2 { direct_indication } => {
            let mut bits: Vec<u8> = Vec::new();
            push_bits(&mut bits, *direct_indication as u32, 8);
            proof {
                assert(bits@ =~= dci_bits(*dci));
            }
            bits
        },
    }
}

/// Append the CRC-16 of `bits` (taken as bytes), masked by the RNTI, as 16
/// bits most significant first.
pub fn attach_crc16_rnti(bits: &[u8], rnti: u16) -> (out: Vec<u8>)
    ensures
        out@ == bits@ + msb_bits((crc16_ccitt_spec(bits@) ^ rnti) as u32, 16),
{
    let crc = crc16_ccitt(bits);
    let masked = crc ^ rnti;
    let mut out = vstd::slice::slice_to_vec(bits);
    push_bits(&mut out, masked as u32, 16);
    out
}

/// The bits of `bytes`, most significant first, as 0/1 values.
pub open spec fn byte_bits(bytes: Seq<u8>) -> Seq<u8> {
    Seq::new(8 * bytes.len(), |i: int| (bytes[i / 8] >> ((7 - i % 8) as u8)) & 1u8)
}

/// The tail-biting convolutional code of `bits`.
pub open spec fn tbcc_coded(bits: Seq<u8>) -> Seq<u8> {
    Seq::new(3 * bits.len(), |q: int| tbcc_out(bits, tbcc_init(bits), q / 3, q % 3))
}

/// The turbo code of `bits`.
pub open spec fn turbo_coded(bits: Seq<u8>) -> Seq<u8> {
    Seq::new(3 * bits.len(), |q: int| turbo_bit(bits, q))
}

/// `n` bits read from `coded` as a circular buffer.
pub open spec fn circular(coded: Seq<u8>, n: nat) -> Seq<u8> {
    Seq::new(n, |i: int| coded[i % (coded.len() as int)])
}

/// `bits` XORed with the Gold sequence started from `c_init`.
pub open spec fn gold_scrambled(bits: Seq<u8>, c_init: u32) -> Seq<u8> {
    Seq::new(bits.len(), |i: int| bits[i] ^ gold_seq(gold_init(c_init), i as nat))
}

/// Scrambling one bit sequence, of at least 31 bits, from two different
/// initial values below 2^31 gives two different sequences.
pub proof fn lemma_scrambled_differ(bits: Seq<u8>, c1: u32, c2: u32)
    requires
        bits.len() >= 31,
        c1 < 0x8000_0000u32,
        c2 < 0x8000_0000u32,
        c1 != c2,
    ensures
        gold_scrambled(bits, c1) != gold_scrambled(bits, c2),
{
    lemma_gold_sequences_differ(c1, c2);
    let k = choose|k: nat| k < 31 && #[trigger] gold_seq(gold_init(c1), k) != gold_seq(gold_init(c2), k);
    let g1 = gold_seq(gold_init(c1), k);
    let g2 = gold_seq(gold_init(c2), k);
    let x = bits[k as int];
    lemma_xor_commutes(x, g1);
    lemma_xor_commutes(x, g2);
    lemma_xor_cancel(x, g1);
    lemma_xor_cancel(x, g2);
    assert(gold_scrambled(bits, c1)[k as int] != gold_scrambled(bits, c2)[k as int]);
}

/// The NPBCH bits of one payload differ from cell to cell.
pub proof fn lemma_npbch_bits_differ_between_cells(payload: Seq<u8>, cell1: u16, cell2: u16)
    requires
        cell1 != cell2,
    ensures
        gold_scrambled(circular(tbcc_coded(byte_bits(with_crc(payload))), NPBCH_CODED_BITS as nat), cell1 as u32)
            != gold_scrambled(
            circular(tbcc_coded(byte_bits(with_crc(payload))), NPBCH_CODED_BITS as nat),
            cell2 as u32,
        ),
{
    lemma_scrambled_differ(
        circular(tbcc_coded(byte_bits(with_crc(payload))), NPBCH_CODED_BITS as nat),
        cell1 as u32,
        cell2 as u32,
    );
}

/// Unpack bytes into bits, most significant first.
fn unpack_bits(bytes: &[u8]) -> (out: Vec<u8>)
    requires
        8 * bytes.len() <= usize::MAX,
    ensures
        out@ == byte_bits(bytes@),
{
    let mut out: Vec<u8> = Vec::new();
    let mut k: usize = 0;
    while k < bytes.len()
        invariant
            k <= bytes.len(),
            8 * bytes.len() <= usize::MAX,
            out.len() == 8 * k,
            forall|i: int| 0 <= i < 8 * k ==> #[trigger] out@[i] == byte_bits(bytes@)[i],
        decreases bytes.len() - k,
    {
        let b = bytes[k];
        let mut j: u8 = 0;
        while j < 8
            invariant
                k < bytes.len(),
                8 * bytes.len() <= usize::MAX,
                b == bytes@[k as int],
                j <= 8,
                out.len() == 8 * k + j,
                forall|i: int| 0 <= i < 8 * k + j ==> #[trigger] out@[i] == byte_bits(bytes@)[i],
            decreases 8 - j,
        {
            proof {
                let i = 8 * k + j;
                assert(i / 8 == k && i % 8 == j) by (nonlinear_arith)
                    requires i == 8 * k + j, 0 <= j < 8, k >= 0;
            }
            out.push((b >> (7 - j)) & 1);
            j += 1;
        }
        k += 1;
    }
    proof {
        assert(out@ =~= byte_bits(bytes@));
    }
    out
}

/// Scramble bits with a fresh Gold sequence generator.
fn scramble_with(bits: Vec<u8>, c_init: u32) -> (out: Vec<u8>)
    ensures
        out@ == gold_scrambled(bits@, c_init),
{
    let mut scrambler = NbScrambler::new(c_init);
    let mut out = bits;
    scrambler.scramble(out.as_mut_slice());
    proof {
        assert(out@ =~= gold_scrambled(bits@, c_init));
    }
    out
}

/// Whether `n` is a power of two.
pub open spec fn is_power_of_two(n: u32) -> bool {
    n != 0 && n & ((n - 1) as u32) == 0
}

// ---------------------------------------------------------------------------
// Channel encoder configurations
// ---------------------------------------------------------------------------

/// NPBCH transport channel encoding
pub struct NpbchEncoder {
    pub cell_id: u16,
    pub deployment: DeploymentMode,
}

impl NpbchEncoder {
    /// An NPBCH encoder for a cell.
    pub fn new(cell_id: u16, deployment: DeploymentMode) -> (e: Self)
        ensures
            e.cell_id == cell_id,
            e.deployment == deployment,
    {
        NpbchEncoder { cell_id, deployment }
    }
}

/// NPDCCH encoder with repetition coding
pub struct NpdcchEncoder {
    pub cell_id: u16,
    pub n_rep: u32,
}

impl NpdcchEncoder {
    /// An NPDCCH encoder; the repetitions are a power of two up to 2048.
    pub fn new(cell_id: u16, n_rep: u32) -> (e: Self)
        requires
            n_rep <= NPDCCH_MAX_REPS,
            is_power_of_two(n_rep),
        ensures
            e.cell_id == cell_id,
            e.n_rep == n_rep,
    {
        NpdcchEncoder { cell_id, n_rep }
    }
}

/// NPDSCH processor: encode transport block with turbo coding and repetitions
pub struct NpdschEncoder {
    pub cell_id: u16,
    pub n_rep: u32,
}

impl NpdschEncoder {
    /// An NPDSCH encoder; the repetitions are a power of two up to 2048.
    pub fn new(cell_id: u16, n_rep: u32) -> (e: Self)
        requires
            n_rep <= NPDSCH_MAX_REPS,
            is_power_of_two(n_rep),
        ensures
            e.cell_id == cell_id,
            e.n_rep == n_rep,
    {
        NpdschEncoder { cell_id, n_rep }
    }
}

/// The number of subcarriers of an uplink allocation.
pub open spec fn sc_count(mode: UlSubcarrierMode) -> usize {
    match mode {
        UlSubcarrierMode::SingleTone3750 | UlSubcarrierMode::SingleTone15k => 1,
        UlSubcarrierMode::MultiTone3 => 3,
        UlSubcarrierMode::MultiTone6 => 6,
        UlSubcarrierMode::MultiTone12 => 12,
    }
}

/// NPUSCH encoder (Format 1 data, Format 2 HARQ-ACK)
pub struct NpuschEncoder {
    pub cell_id: u16,
    pub n_rep: u32,
    pub format: NpuschFormat,
    pub sc_mode: UlSubcarrierMode,
}

impl NpuschEncoder {
    /// An NPUSCH encoder; the repetitions are a power of two up to 128.
    pub fn new(cell_id: u16, n_rep: u32, format: NpuschFormat, sc_mode: UlSubcarrierMode) -> (e: Self)
        requires
            n_rep <= NPUSCH_MAX_REPS,
            is_power_of_two(n_rep),
        ensures
            e.cell_id == cell_id,
            e.n_rep == n_rep,
            e.format == format,
            e.sc_mode == sc_mode,
    {
        NpuschEncoder { cell_id, n_rep, format, sc_mode }
    }

    /// Number of subcarriers
    pub fn n_sc(&self) -> (n: usize)
        ensures
            n == sc_count(self.sc_mode),
            (self.sc_mode == UlSubcarrierMode::SingleTone3750 || self.sc_mode == UlSubcarrierMode::SingleTone15k)
                ==> n == 1,
            self.sc_mode == UlSubcarrierMode::MultiTone3 ==> n == 3,
            self.sc_mode == UlSubcarrierMode::MultiTone6 ==> n == 6,
            self.sc_mode == UlSubcarrierMode::MultiTone12 ==> n == 12,
    {
        match self.sc_mode {
            UlSubcarrierMode::SingleTone3750 | UlSubcarrierMode::SingleTone15k => 1,
            UlSubcarrierMode::MultiTone3 => 3,
            UlSubcarrierMode::MultiTone6 => 6,
            UlSubcarrierMode::MultiTone12 => 12,
        }
    }
}

/// Whether `n` is an allowed NPRACH repetition count.
pub open spec fn valid_nprach_reps(n: u32) -> bool {
    n == 1 || n == 2 || n == 4 || n == 8 || n == 16 || n == 32 || n == 64 || n == 128
}

/// NPRACH configuration
#[derive(Debug, Clone)]
pub struct NprachConfig {
    /// Coverage level (0–3)
    pub coverage_level: NprachCoverageLevel,
    /// Number of preamble repetitions: 1,2,4,8,16,32,64,128
    pub n_rep: u32,
    /// Starting subcarrier index (0–47 for 3.75 kHz grid)
    pub subcarrier_start: usize,
    /// Number of subcarriers reserved for NPRACH (12, 24, 36, or 48)
    pub n_sc_ra: usize,
}

impl NprachConfig {
    /// An NPRACH configuration starting at subcarrier 0 with 12 subcarriers.
    pub fn new(coverage_level: NprachCoverageLevel, n_rep: u32) -> (c: Self)
        requires
            valid_nprach_reps(n_rep),
        ensures
            c.coverage_level == coverage_level,
            c.n_rep == n_rep,
            c.subcarrier_start == 0,
            c.n_sc_ra == 12,
    {
        NprachConfig { coverage_level, n_rep, subcarrier_start: 0, n_sc_ra: 12 }
    }
}

// ---------------------------------------------------------------------------
// Multi-carrier Cat-NB2 carrier manager
// ---------------------------------------------------------------------------

/// NB-IoT carrier (anchor or non-anchor)
#[derive(Debug, Clone)]
pub struct NbCarrier {
    pub carrier_id: u8,
    pub center_freq_khz: u32,
    pub is_anchor: bool,
    pub deployment: DeploymentMode,
    pub cell_id: u16,
}

impl NbCarrier {
    /// The anchor carrier (id 0).
    pub fn anchor(center_freq_khz: u32, cell_id: u16, deployment: DeploymentMode) -> (c: Self)
        ensures
            c == (NbCarrier { carrier_id: 0, center_freq_khz, is_anchor: true, deployment, cell_id }),
    {
        NbCarrier { carrier_id: 0, center_freq_khz, is_anchor: true, deployment, cell_id }
    }

    /// A non-anchor carrier.
    pub fn non_anchor(carrier_id: u8, center_freq_khz: u32, cell_id: u16, deployment: DeploymentMode) -> (c:
        Self)
        ensures
            c == (NbCarrier { carrier_id, center_freq_khz, is_anchor: false, deployment, cell_id }),
    {
        NbCarrier { carrier_id, center_freq_khz, is_anchor: false, deployment, cell_id }
    }
}

/// The index of the first carrier from index `k` on with the given id.
pub open spec fn find_carrier_from(cs: Seq<NbCarrier>, id: u8, k: int) -> Option<int>
    decreases cs.len() - k,
{
    if k < 0 || k >= cs.len() {
        None
    } else if cs[k].carrier_id == id {
        Some(k)
    } else {
        find_carrier_from(cs, id, k + 1)
    }
}

/// The index of the first carrier with the given id.
pub open spec fn find_carrier(cs: Seq<NbCarrier>, id: u8) -> Option<int> {
    find_carrier_from(cs, id, 0)
}

/// Cat-NB2 multi-carrier manager (up to 2 carriers per device)
pub struct CatNb2CarrierManager {
    pub anchor: NbCarrier,
    pub non_anchor: Vec<NbCarrier>,
    pub active_carrier_id: u8,
}

/// Searching from `k`, the first match lies at or after `k` and before the
/// end, and has the id.
proof fn lemma_find_carrier_from(cs: Seq<NbCarrier>, id: u8, k: int)
    requires
        0 <= k,
    ensures
        find_carrier_from(cs, id, k) matches Some(i) ==> k <= i < cs.len() && cs[i].carrier_id == id,
        find_carrier_from(cs, id, k) is None ==> forall|i: int| k <= i < cs.len() ==> cs[i].carrier_id != id,
    decreases cs.len() - k,
{
    if k < cs.len() && cs[k].carrier_id != id {
        lemma_find_carrier_from(cs, id, k + 1);
    }
}

impl CatNb2CarrierManager {
    /// A manager with only the anchor carrier, which is active.
    pub fn new(anchor: NbCarrier) -> (m: Self)
        ensures
            m.anchor == anchor,
            m.non_anchor@ == Seq::<NbCarrier>::empty(),
            m.active_carrier_id == 0,
    {
        CatNb2CarrierManager { anchor, non_anchor: Vec::new(), active_carrier_id: 0 }
    }

    /// Add a non-anchor carrier (Cat-NB2 supports additional carriers)
    pub fn add_non_anchor(&mut self, carrier: NbCarrier)
        requires
            !carrier.is_anchor,
        ensures
            final(self).anchor == old(self).anchor,
            final(self).non_anchor@ == old(self).non_anchor@.push(carrier),
            final(self).active_carrier_id == old(self).active_carrier_id,
    {
        self.non_anchor.push(carrier);
    }

    /// The index of the first non-anchor carrier with the id, if any.
    fn position(&self, carrier_id: u8) -> (r: Option<usize>)
        ensures
            r matches Some(i) ==> find_carrier(self.non_anchor@, carrier_id) == Some(i as int),
            r is None ==> find_carrier(self.non_anchor@, carrier_id) is None,
    {
        let mut i: usize = 0;
        while i < self.non_anchor.len()
            invariant
                i <= self.non_anchor.len(),
                find_carrier(self.non_anchor@, carrier_id) == find_carrier_from(
                    self.non_anchor@,
                    carrier_id,
                    i as int,
                ),
            decreases self.non_anchor.len() - i,
        {
            if self.non_anchor[i].carrier_id == carrier_id {
                return Some(i);
            }
            i += 1;
        }
        None
    }

    /// Switch to a non-anchor carrier by ID; id 0 is the anchor. Returns
    /// whether the carrier exists.
    pub fn switch_carrier(&mut self, carrier_id: u8) -> (found: bool)
        ensures
            found == (carrier_id == 0 || find_carrier(old(self).non_anchor@, carrier_id) is Some),
            final(self).active_carrier_id == (if found {
                carrier_id
            } else {
                old(self).active_carrier_id
            }),
            final(self).anchor == old(self).anchor,
            final(self).non_anchor@ == old(self).non_anchor@,
    {
        if carrier_id == 0 {
            self.active_carrier_id = 0;
            return true;
        }
        let found = self.position(carrier_id).is_some();
        if found {
            self.active_carrier_id = carrier_id;
        }
        found
    }

    /// Get active carrier reference: the anchor for id 0, else the first
    /// non-anchor carrier with the active id, else the anchor.
    pub fn active_carrier(&self) -> (c: &NbCarrier)
        ensures
            *c == (if self.active_carrier_id == 0 {
                self.anchor
            } else {
                match find_carrier(self.non_anchor@, self.active_carrier_id) {
                    Some(i) => self.non_anchor@[i],
                    None => self.anchor,
                }
            }),
    {
        if self.active_carrier_id == 0 {
            &self.anchor
        } else {
            match self.position(self.active_carrier_id) {
                Some(i) => {
                    proof {
                        lemma_find_carrier_from(self.non_anchor@, self.active_carrier_id, 0);
                    }
                    &self.non_anchor[i]
                },
                None => &self.anchor,
            }
        }
    }
}

/// The default repetition counts `(npdcch, npdsch, npusch)` of a coverage level.
pub open spec fn default_reps_spec(level: CoverageLevel) -> (u32, u32, u32) {
    match level {
        CoverageLevel::CE0 => (1, 1, 1),
        CoverageLevel::CE1 => (16, 16, 8),
        CoverageLevel::CE2 => (2048, 2048, 128),
    }
}

/// Map coverage level to default repetition counts
pub fn default_reps(level: CoverageLevel) -> (r: (u32, u32, u32))
    ensures
        r == default_reps_spec(level),
{
    match level {
        CoverageLevel::CE0 => (1, 1, 1),
        CoverageLevel::CE1 => (16, 16, 8),
        CoverageLevel::CE2 => (2048, 2048, 128),
    }
}

/// Top-level NB-IoT processor (Rel-14, Cat-NB2)
pub struct LteCatNb2Processor {
    pub cell_id: u16,
    pub deployment: DeploymentMode,
    pub coverage_level: CoverageLevel,
    pub carrier_manager: CatNb2CarrierManager,
    pub npbch: NpbchEncoder,
    pub npdcch: NpdcchEncoder,
    pub npdsch: NpdschEncoder,
    pub npusch: NpuschEncoder,
}

impl LteCatNb2Processor {
    /// Create a new Cat-NB2 processor for the given cell: the anchor carrier
    /// at the given frequency, and the coverage level's default repetitions.
    pub fn new(cell_id: u16, deployment: DeploymentMode, coverage_level: CoverageLevel, anchor_freq_khz: u32) -> (p:
        Self)
        ensures
            p.cell_id == cell_id,
            p.deployment == deployment,
            p.coverage_level == coverage_level,
            p.carrier_manager.anchor == (NbCarrier {
                carrier_id: 0,
                center_freq_khz: anchor_freq_khz,
                is_anchor: true,
                deployment,
                cell_id,
            }),
            p.carrier_manager.non_anchor@ == Seq::<NbCarrier>::empty(),
            p.carrier_manager.active_carrier_id == 0,
            p.npbch.cell_id == cell_id && p.npbch.deployment == deployment,
            p.npdcch.cell_id == cell_id && p.npdcch.n_rep == default_reps_spec(coverage_level).0,
            p.npdsch.cell_id == cell_id && p.npdsch.n_rep == default_reps_spec(coverage_level).1,
            p.npusch.cell_id == cell_id && p.npusch.n_rep == default_reps_spec(coverage_level).2,
            p.npusch.format == NpuschFormat::Format1,
            p.npusch.sc_mode == UlSubcarrierMode::MultiTone12,
    {
        let (dcch_reps, dsch_reps, usch_reps) = default_reps(coverage_level);
        proof {
            assert(is_power_of_two(1u32) && is_power_of_two(16u32) && is_power_of_two(8u32)
                && is_power_of_two(2048u32) && is_power_of_two(128u32)) by (bit_vector);
        }
        let anchor = NbCarrier::anchor(anchor_freq_khz, cell_id, deployment);
        LteCatNb2Processor {
            cell_id,
            deployment,
            coverage_level,
            carrier_manager: CatNb2CarrierManager::new(anchor),
            npbch: NpbchEncoder::new(cell_id, deployment),
            npdcch: NpdcchEncoder::new(cell_id, dcch_reps),
            npdsch: NpdschEncoder::new(cell_id, dsch_reps),
            npusch: NpuschEncoder::new(
                cell_id,
                usch_reps,
                NpuschFormat::Format1,
                UlSubcarrierMode::MultiTone12,
            ),
        }
    }
}


/// A transport block as bits with its CRC-24A attached.
pub open spec fn crc24_block(tb: Seq<u8>) -> Seq<u8> {
    byte_bits(tb) + msb_bits(crc24a_spec(byte_bits(tb)), 24)
}

/// The NPBCH rate-matched length.
pub const NPBCH_CODED_BITS: usize = 1600;

impl NpbchEncoder {
    /// The scrambled NPBCH bits of a payload, ready for QPSK: the payload
    /// bytes with their CRC-16 (high byte first), unpacked most significant
    /// bit first, tail-biting coded, read circularly to 1600 bits and
    /// scrambled from the cell id.
    pub fn encode_bits(&self, payload: &[u8; 34]) -> (bits: Vec<u8>)
        ensures
            bits@ == gold_scrambled(
                circular(tbcc_coded(byte_bits(with_crc(payload@))), NPBCH_CODED_BITS as nat),
                self.cell_id as u32,
            ),
    {
        let mut with_crc16 = vstd::slice::slice_to_vec(payload.as_slice());
        let crc = crc16_ccitt(with_crc16.as_slice());
        with_crc16.push((crc >> 8) as u8);
        with_crc16.push((crc & 0xFF) as u8);
        proof {
            assert(with_crc16@ =~= with_crc(payload@));
        }
        let bits = unpack_bits(with_crc16.as_slice());
        let mut encoder = TbccEncoder::new();
        let coded = encoder.encode_tail_biting(bits.as_slice());
        let rm = rate_match(coded.as_slice(), NPBCH_CODED_BITS);
        proof {
            assert(coded@ =~= tbcc_coded(bits@));
            assert(rm@ =~= circular(coded@, NPBCH_CODED_BITS as nat));
        }
        scramble_with(rm, self.cell_id as u32)
    }
}


/// The NPDCCH rate-matched length: two NCCEs of 144 coded bits.
pub const NPDCCH_CODED_BITS: usize = 288;

/// The scrambling seed of a downlink channel for an RNTI and a cell.
pub open spec fn rnti_seed(rnti: u16, cell_id: u16) -> u32 {
    (rnti as int * 65536 + cell_id as int) as u32
}

impl NpdcchEncoder {
    /// The scrambled NPDCCH bits of a DCI, ready for QPSK and repetition: the
    /// DCI bits with their RNTI-masked CRC-16, tail-biting coded, read
    /// circularly to 288 bits and scrambled from the RNTI and cell id.
    pub fn encode_bits(&self, dci: &DciFormat, rnti: u16) -> (bits: Vec<u8>)
        ensures
            bits@ == gold_scrambled(
                circular(
                    tbcc_coded(
                        dci_bits(*dci) + msb_bits((crc16_ccitt_spec(dci_bits(*dci)) ^ rnti) as u32, 16),
                    ),
                    NPDCCH_CODED_BITS as nat,
                ),
                rnti_seed(rnti, self.cell_id),
            ),
    {
        let dci_bits = pack_dci(dci);
        let with_crc16 = attach_crc16_rnti(dci_bits.as_slice(), rnti);
        let mut encoder = TbccEncoder::new();
        let coded = encoder.encode_tail_biting(with_crc16.as_slice());
        let rm = rate_match(coded.as_slice(), NPDCCH_CODED_BITS);
        proof {
            assert(coded@ =~= tbcc_coded(with_crc16@));
            assert(rm@ =~= circular(coded@, NPDCCH_CODED_BITS as nat));
        }
        let c_init = (rnti as u32) * 65536 + self.cell_id as u32;
        scramble_with(rm, c_init)
    }
}


/// The NPDSCH rate-matched length cap: one subframe of 132 coded bits per
/// symbol pair, over eight.
pub const NPDSCH_MAX_CODED_BITS: usize = 1056;

/// The smaller of two integers.
pub open spec fn min_int(a: int, b: int) -> int {
    if a < b { a } else { b }
}

/// Turbo-code a transport block with its CRC-24A attached.
fn turbo_block(tb: &[u8]) -> (coded: Vec<u8>)
    requires
        8 * tb.len() + 24 <= usize::MAX,
        turbo_fits((8 * tb.len() + 24) as usize),
    ensures
        coded@ == turbo_coded(crc24_block(tb@)),
        coded.len() == 3 * (8 * tb.len() + 24),
{
    let tb_bits = unpack_bits(tb);
    let with_crc24 = attach_crc24a(tb_bits.as_slice());
    assert(with_crc24.len() == 8 * tb.len() + 24);
    let coded = turbo_encode(with_crc24.as_slice());
    proof {
        assert(with_crc24@ =~= crc24_block(tb@));
        assert(coded@ =~= turbo_coded(crc24_block(tb@)));
    }
    coded
}

impl NpdschEncoder {
    /// The scrambled NPDSCH bits of a transport block, ready for QPSK and
    /// repetition: the block's bits with CRC-24A, turbo coded, read
    /// circularly to three bits per input bit but at most 1056, and scrambled
    /// from the RNTI and cell id.
    pub fn encode_bits(&self, tb: &[u8], rnti: u16) -> (bits: Vec<u8>)
        requires
            8 * tb.len() + 24 <= usize::MAX,
            turbo_fits((8 * tb.len() + 24) as usize),
        ensures
            bits@ == gold_scrambled(
                circular(
                    turbo_coded(crc24_block(tb@)),
                    min_int(3 * (8 * tb.len() + 24), NPDSCH_MAX_CODED_BITS as int) as nat,
                ),
                rnti_seed(rnti, self.cell_id),
            ),
    {
        let coded = turbo_block(tb);
        let g = if coded.len() < NPDSCH_MAX_CODED_BITS { coded.len() } else { NPDSCH_MAX_CODED_BITS };
        let rm = rate_match(coded.as_slice(), g);
        proof {
            assert(rm@ =~= circular(coded@, g as nat));
        }
        let c_init = (rnti as u32) * 65536 + self.cell_id as u32;
        scramble_with(rm, c_init)
    }
}

/// The NPUSCH format 1 rate-matched length: three bits per input bit, at
/// most 24 per subcarrier, and at least 8.
pub open spec fn npusch_coded_len(k: int, n_sc: int) -> int {
    let g = min_int(3 * k, 24 * n_sc);
    if g < 8 { 8 } else { g }
}

impl NpuschEncoder {
    /// The scrambled NPUSCH format 1 bits of a transport block, ready for
    /// BPSK (single tone) or QPSK and repetition: the block's bits with
    /// CRC-24A, turbo coded, read circularly to the allocation's length and
    /// scrambled from the RNTI and cell id.
    pub fn encode_format1_bits(&self, tb: &[u8], rnti: u16) -> (bits: Vec<u8>)
        requires
            8 * tb.len() + 24 <= usize::MAX,
            turbo_fits((8 * tb.len() + 24) as usize),
        ensures
            bits@ == gold_scrambled(
                circular(
                    turbo_coded(crc24_block(tb@)),
                    npusch_coded_len(8 * tb.len() + 24, sc_count(self.sc_mode) as int) as nat,
                ),
                rnti_seed(rnti, self.cell_id),
            ),
            ({
                let n_sc: int = match self.sc_mode {
                    UlSubcarrierMode::SingleTone3750 | UlSubcarrierMode::SingleTone15k => 1,
                    UlSubcarrierMode::MultiTone3 => 3,
                    UlSubcarrierMode::MultiTone6 => 6,
                    UlSubcarrierMode::MultiTone12 => 12,
                };
                let full = 3 * (8 * tb.len() + 24);
                let g = if full < 24 * n_sc { full } else { 24 * n_sc };
                bits.len() == if g < 8 { 8 } else { g }
            }),
    {
        let coded = turbo_block(tb);
        let cap = self.n_sc() * 12 * 2;
        let g0 = if coded.len() < cap { coded.len() } else { cap };
        let g = if g0 < 8 { 8 } else { g0 };
        let rm = rate_match(coded.as_slice(), g);
        proof {
            assert(rm@ =~= circular(coded@, g as nat));
        }
        let c_init = (rnti as u32) * 65536 + self.cell_id as u32;
        scramble_with(rm, c_init)
    }

    /// The scrambled NPUSCH format 2 bits of a HARQ-ACK, ready for BPSK and
    /// repetition: the ACK bit sixteen times, scrambled from one past the
    /// RNTI and cell id seed.
    pub fn encode_format2_bits(&self, ack: bool, rnti: u16) -> (bits: Vec<u8>)
        requires
            rnti as int * 65536 + self.cell_id as int + 1 <= u32::MAX,
        ensures
            bits@ == gold_scrambled(
                Seq::new(16, |i: int| if ack { 1u8 } else { 0u8 }),
                (rnti as int * 65536 + self.cell_id as int + 1) as u32,
            ),
    {
        let bits: Vec<u8> = vec![if ack { 1u8 } else { 0u8 }; 16];
        let c_init = (rnti as u32) * 65536 + self.cell_id as u32 + 1;
        proof {
            assert(bits@ =~= Seq::new(16, |i: int| if ack { 1u8 } else { 0u8 }));
        }
        scramble_with(bits, c_init)
    }
}

/// The NPUSCH format 1 rate-matched length over all inputs: three coded
/// bits per input bit, capped at 24 bits (12 symbols of two bits) per
/// allocated subcarrier, and never below 8.
pub proof fn lemma_npusch_coded_len(k: int, n_sc: int)
    requires
        k >= 0,
        n_sc >= 1,
    ensures
        npusch_coded_len(k, n_sc) == if 3 * k < 24 * n_sc {
            if 3 * k < 8 { 8 } else { 3 * k }
        } else {
            24 * n_sc
        },
        npusch_coded_len(k, n_sc) <= 24 * n_sc,
        npusch_coded_len(k, n_sc) >= 8,
        3 * k >= 8 ==> npusch_coded_len(k, n_sc) <= 3 * k,
{
}

} // verus!
