//! DAB+ super frame header parsing and access unit extraction.

use vstd::prelude::*;

use crate::crc::{be16, crc16_ccitt_spec};
use crate::dab::fic::DabCrc16;

verus! {

/// DAB+ HE-AAC v2 super frame header.
#[derive(Debug, Clone)]
pub struct DabPlusSuperFrame {
    /// AAC decoder configuration element bytes.
    pub dac_rate: bool,
    pub sbr_flag: bool,
    pub aac_channel_mode: u8,
    pub ps_flag: bool,
    pub mpeg_surround_config: u8,
    /// Number of Access Units (AUs) per super frame.
    pub num_aus: usize,
    /// AU boundaries within the super frame.
    pub au_start: Vec<usize>,
}

/// Access Unit extracted from a DAB+ super frame.
#[derive(Debug, Clone)]
pub struct AccessUnit {
    pub index: usize,
    pub data: Vec<u8>,
    pub crc_ok: bool,
}

/// The number of access units per super frame for a DAC rate and SBR flag.
pub open spec fn au_count(dac_rate: bool, sbr_flag: bool) -> usize {
    if !dac_rate && !sbr_flag {
        4
    } else if !dac_rate && sbr_flag {
        2
    } else if dac_rate && !sbr_flag {
        6
    } else {
        3
    }
}

/// The header size in bytes: two fixed bytes and one 16-bit start address
/// for each access unit after the first.
pub open spec fn header_size(num_aus: usize) -> int {
    2 + (num_aus - 1) * 2
}

/// Where access unit `i` ends: where the next one starts, and for the last
/// one two bytes before the end of the frame (saturating at zero).
pub open spec fn au_end(starts: Seq<usize>, frame_len: int, i: int) -> int {
    if i + 1 < starts.len() {
        starts[i + 1] as int
    } else if frame_len >= 2 {
        frame_len - 2
    } else {
        0
    }
}

/// Whether a byte string ends with the big-endian CRC of the rest.
pub open spec fn au_crc_ok(au: Seq<u8>) -> bool {
    au.len() >= 2 && crc16_ccitt_spec(au.subrange(0, au.len() - 2)) == be16(
        au[au.len() - 2],
        au[au.len() - 1],
    )
}

/// Whether access unit `i` lies within the frame: its start is inside the
/// frame, its end is not past it, and it is not empty.
pub open spec fn au_in_frame(starts: Seq<usize>, frame_len: int, i: int) -> bool {
    let start = starts[i] as int;
    let end = au_end(starts, frame_len, i);
    start < frame_len && end <= frame_len && start < end
}

/// DAB+ super frame parser.
pub struct DabPlusSuperFrameParser;

impl DabPlusSuperFrameParser {
    /// Parse the header of a DAB+ super frame (ETSI EN 302 563 §6.1).
    ///
    /// The super frame consists of:
    /// - 1 byte: Firecode (FEC over first 9 bytes)
    /// - 1 byte: RFA + DAC rate + SBR + channel mode + PS + surround config
    /// - num_aus * 2 bytes: AU start addresses
    /// - audio data
    pub fn parse_header(data: &[u8]) -> (r: Option<DabPlusSuperFrame>)
        ensures
            r.is_some() <==> (data.len() >= 3 && data.len() >= header_size(
                au_count((data[1] & 0x40u8) != 0, (data[1] & 0x20u8) != 0),
            )),
            r.is_some() ==> {
                let h = r.unwrap();
                let b = data[1];
                &&& h.dac_rate == ((b & 0x40u8) != 0)
                &&& h.sbr_flag == ((b & 0x20u8) != 0)
                &&& h.aac_channel_mode == (b & 0x10u8) >> 4u8
                &&& h.ps_flag == ((b & 0x08u8) != 0)
                &&& h.mpeg_surround_config == b & 0x07u8
                &&& h.num_aus == au_count(h.dac_rate, h.sbr_flag)
                &&& (!h.dac_rate && !h.sbr_flag ==> h.num_aus == 4 && h.au_start[0] == 8)
                &&& (!h.dac_rate && h.sbr_flag ==> h.num_aus == 2 && h.au_start[0] == 4)
                &&& (h.dac_rate && !h.sbr_flag ==> h.num_aus == 6 && h.au_start[0] == 12)
                &&& (h.dac_rate && h.sbr_flag ==> h.num_aus == 3 && h.au_start[0] == 6)
                &&& h.au_start.len() == h.num_aus
                &&& h.au_start[0] == header_size(h.num_aus)
                &&& forall|i: int|
                    0 <= i < h.num_aus - 1 ==> #[trigger] h.au_start[i + 1] == be16(
                        data[2 + 2 * i],
                        data[3 + 2 * i],
                    ) as usize
            },
    {
        if data.len() < 3 {
            return None;
        }
        let header1 = data[1];
        let dac_rate = (header1 & 0x40) != 0;
        let sbr_flag = (header1 & 0x20) != 0;
        let aac_channel_mode = (header1 & 0x10) >> 4;
        let ps_flag = (header1 & 0x08) != 0;
        let mpeg_surround_config = header1 & 0x07;

        let num_aus: usize = if !dac_rate && !sbr_flag {
            4
        } else if !dac_rate && sbr_flag {
            2
        } else if dac_rate && !sbr_flag {
            6
        } else {
            3
        };

        let header_size: usize = 2 + (num_aus - 1) * 2;
        if data.len() < header_size {
            return None;
        }
        let mut au_start: Vec<usize> = Vec::with_capacity(num_aus);
        au_start.push(header_size);
        let mut i: usize = 0;
        while i < num_aus - 1
            invariant
                2 <= num_aus <= 6,
                header_size == 2 + (num_aus - 1) * 2,
                data.len() >= header_size,
                i <= num_aus - 1,
                au_start.len() == i + 1,
                au_start[0] == header_size,
                forall|q: int|
                    0 <= q < i ==> #[trigger] au_start[q + 1] == be16(data[2 + 2 * q], data[3 + 2 * q])
                        as usize,
            decreases num_aus - 1 - i,
        {
            let offset = 2 + i * 2;
            let start: usize = ((data[offset] as usize) << 8) | data[offset + 1] as usize;
            proof {
                let hi = data[offset as int];
                let lo = data[offset + 1];
                assert(((hi as usize) << 8usize) | (lo as usize) == (((hi as u16) << 8u16) | (
                lo as u16)) as usize) by (bit_vector);
            }
            au_start.push(start);
            i += 1;
        }
        Some(
            DabPlusSuperFrame {
                dac_rate,
                sbr_flag,
                aac_channel_mode,
                ps_flag,
                mpeg_surround_config,
                num_aus,
                au_start,
            },
        )
    }

    /// Extract all Access Units from a super frame.
    pub fn extract_aus(data: &[u8], header: &DabPlusSuperFrame) -> (aus: Vec<AccessUnit>)
        ensures
            aus.len() == header.au_start.len(),
            forall|i: int|
                0 <= i < aus.len() ==> {
                    let au = #[trigger] aus[i];
                    &&& au.index == i
                    &&& au_in_frame(header.au_start@, data.len() as int, i) ==> au.data@
                        == data@.subrange(
                        header.au_start[i] as int,
                        au_end(header.au_start@, data.len() as int, i),
                    ) && au.crc_ok == au_crc_ok(au.data@)
                    &&& !au_in_frame(header.au_start@, data.len() as int, i) ==> au.data@.len() == 0
                        && !au.crc_ok
                },
    {
        let mut aus: Vec<AccessUnit> = Vec::new();
        let n = header.au_start.len();
        let mut i: usize = 0;
        while i < n
            invariant
                n == header.au_start.len(),
                i <= n,
                aus.len() == i,
                forall|q: int|
                    0 <= q < i ==> {
                        let au = #[trigger] aus[q];
                        &&& au.index == q
                        &&& au_in_frame(header.au_start@, data.len() as int, q) ==> au.data@
                            == data@.subrange(
                            header.au_start[q] as int,
                            au_end(header.au_start@, data.len() as int, q),
                        ) && au.crc_ok == au_crc_ok(au.data@)
                        &&& !au_in_frame(header.au_start@, data.len() as int, q) ==> au.data@.len()
                            == 0 && !au.crc_ok
                    },
            decreases n - i,
        {
            let start = header.au_start[i];
            let end: usize = if i + 1 < n {
                header.au_start[i + 1]
            } else if data.len() >= 2 {
                data.len() - 2
            } else {
                0
            };
            if start >= data.len() || end > data.len() || start >= end {
                aus.push(AccessUnit { index: i, data: Vec::new(), crc_ok: false });
            } else {
                let au_data = vstd::slice::slice_to_vec(&data[start..end]);
                let crc_ok = if au_data.len() >= 2 {
                    let m = au_data.len();
                    let computed = DabCrc16::compute(&au_data.as_slice()[0..m - 2]);
                    let stored: u16 = ((au_data[m - 2] as u16) << 8) | au_data[m - 1] as u16;
                    computed == stored
                } else {
                    false
                };
                aus.push(AccessUnit { index: i, data: au_data, crc_ok });
            }
            i += 1;
        }
        aus
    }
}

/// The access unit counts of ETSI TS 102 563 for each DAC rate and SBR
/// setting: 4 AUs at 32 kHz without SBR, 2 with SBR, 6 at 48 kHz without
/// SBR, 3 with SBR; the header holds one 16-bit start address for every
/// AU after the first, after two fixed bytes.
pub proof fn lemma_au_counts()
    ensures
        au_count(false, false) == 4,
        au_count(false, true) == 2,
        au_count(true, false) == 6,
        au_count(true, true) == 3,
        header_size(4) == 8,
        header_size(2) == 4,
        header_size(6) == 12,
        header_size(3) == 6,
{
}

} // verus!
