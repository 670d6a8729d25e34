//! Fast Information Channel: FIB integrity check and FIG parsing.

use vstd::prelude::*;
use vstd::string::StrSliceExecFns;
use vstd::utf8::{decode_utf8, valid_utf8};

use crate::crc::{
    be16, crc16_ccitt, crc16_ccitt_spec, hi_byte, lemma_be16_injective, lemma_be16_split,
    lemma_crc16_detects_byte_error, lemma_crc16_with_crc_zero, lemma_xor_nonzero_changes, lo_byte, with_crc,
};
use crate::dab::puncture::EepLevel;

verus! {

/// FIB length in bytes (30 data + 2 CRC).
pub const FIB_LENGTH_BYTES: usize = 32;

/// FIB data bytes (excluding CRC).
pub const FIB_DATA_BYTES: usize = 30;

/// Number of FIBs per CIF (Common Interleaved Frame).
pub const FIBS_PER_CIF: usize = 12;

/// Whether a FIB carries a correct CRC: at least 32 bytes, and the CRC of
/// the first 30 equals the big-endian value of bytes 30 and 31.
pub open spec fn fib_crc_ok(fib: Seq<u8>) -> bool {
    fib.len() >= 32 && crc16_ccitt_spec(fib.subrange(0, 30)) == be16(fib[30], fib[31])
}


/// CRC-16/CCITT implementation for DAB FIB integrity checking.
///
/// Polynomial: x^16 + x^12 + x^5 + 1 (0x1021), initial value 0xFFFF,
/// no input/output reflection, no final XOR.
pub struct DabCrc16;

impl DabCrc16 {
    /// Compute CRC-16 over data bytes.
    pub fn compute(data: &[u8]) -> (crc: u16)
        ensures
            crc == crc16_ccitt_spec(data@),
    {
        crc16_ccitt(data)
    }

    /// Verify a FIB: compute CRC over first 30 bytes, compare to bytes 30-31.
    pub fn verify_fib(fib: &[u8]) -> (ok: bool)
        ensures
            ok == fib_crc_ok(fib@),
    {
        if fib.len() < FIB_LENGTH_BYTES {
            return false;
        }
        let computed = Self::compute(&fib[0..FIB_DATA_BYTES]);
        let stored: u16 = ((fib[FIB_DATA_BYTES] as u16) << 8) | fib[FIB_DATA_BYTES + 1] as u16;
        computed == stored
    }

    /// Append CRC to data bytes, returning the complete FIB.
    pub fn append(data: &[u8]) -> (out: Vec<u8>)
        ensures
            out@ == with_crc(data@),
            crc16_ccitt_spec(out@) == 0,
    {
        proof {
            lemma_crc16_with_crc_zero(data@);
        }
        let crc = Self::compute(data);
        let mut out = vstd::slice::slice_to_vec(data);
        out.push((crc >> 8) as u8);
        out.push((crc & 0xFF) as u8);
        out
    }
}

/// A FIB built by appending the CRC to 30 data bytes passes the check.
pub proof fn lemma_appended_fib_verifies(data: Seq<u8>)
    requires
        data.len() == 30,
    ensures
        fib_crc_ok(with_crc(data)),
{
    let fib = with_crc(data);
    assert(fib.subrange(0, 30) =~= data);
    lemma_be16_split(crc16_ccitt_spec(data));
}

/// A FIB with any one byte corrupted, data or CRC, fails the check.
pub proof fn lemma_corrupted_fib_fails(data: Seq<u8>, q: int, e: u8)
    requires
        data.len() == 30,
        0 <= q < 32,
        e != 0,
    ensures
        !fib_crc_ok(with_crc(data).update(q, with_crc(data)[q] ^ e)),
{
    let fib = with_crc(data);
    let bad = fib.update(q, fib[q] ^ e);
    let crc = crc16_ccitt_spec(data);
    lemma_be16_split(crc);
    lemma_xor_nonzero_changes(fib[q], e);
    if q < 30 {
        assert(bad.subrange(0, 30) =~= data.update(q, data[q] ^ e));
        lemma_crc16_detects_byte_error(data, q, e);
    } else {
        assert(bad.subrange(0, 30) =~= data);
        lemma_be16_injective(bad[30], bad[31], hi_byte(crc), lo_byte(crc));
    }
}

/// The FIGs of a FIB data field from byte `pos` on, as
/// `(fig_type, fig_ext, data)`: each FIG starts with a header byte whose
/// top 3 bits are its type and low 5 bits its length; the list ends at an
/// end marker (0xFF), at a zero length, or at a FIG that would run past the
/// 30 data bytes.
pub open spec fn fig_list(data: Seq<u8>, pos: int) -> Seq<(u8, u8, Seq<u8>)>
    decreases 30 - pos,
{
    if pos < 0 || pos >= 30 {
        seq![]
    } else {
        let header = data[pos];
        let len = (header & 0x1Fu8) as int;
        if len == 0 || pos + 1 + len > 30 || header == 0xFFu8 {
            seq![]
        } else {
            seq![(header >> 5u8, data[pos + 1] & 0x1Fu8, data.subrange(pos + 1, pos + 1 + len))]
                + fig_list(data, pos + 1 + len)
        }
    }
}

/// A parsed FIG with its data taken by view.
pub open spec fn fig_view(f: (u8, u8, Vec<u8>)) -> (u8, u8, Seq<u8>) {
    (f.0, f.1, f.2@)
}

/// The Unicode `White_Space` characters.
pub open spec fn is_white_space(c: char) -> bool {
    ||| ('\u{9}' <= c && c <= '\u{d}')
    ||| c == ' '
    ||| c == '\u{85}'
    ||| c == '\u{a0}'
    ||| c == '\u{1680}'
    ||| ('\u{2000}' <= c && c <= '\u{200a}')
    ||| c == '\u{2028}'
    ||| c == '\u{2029}'
    ||| c == '\u{202f}'
    ||| c == '\u{205f}'
    ||| c == '\u{3000}'
}

/// `s` without its leading white space.
pub open spec fn trim_start_chars(s: Seq<char>) -> Seq<char>
    decreases s.len(),
{
    if s.len() > 0 && is_white_space(s[0]) {
        trim_start_chars(s.drop_first())
    } else {
        s
    }
}

/// `s` without its trailing white space.
pub open spec fn trim_end_chars(s: Seq<char>) -> Seq<char>
    decreases s.len(),
{
    if s.len() > 0 && is_white_space(s.last()) {
        trim_end_chars(s.drop_last())
    } else {
        s
    }
}

/// `s` without leading and trailing white space.
pub open spec fn trimmed(s: Seq<char>) -> Seq<char> {
    trim_end_chars(trim_start_chars(s))
}

/// The text that `String::from_utf8_lossy` decodes from `bytes`.
pub uninterp spec fn utf8_lossy_decode(bytes: Seq<u8>) -> Seq<char>;

/// Decodes bytes as UTF-8 with `String::from_utf8_lossy`. Trusted: the text
/// is the one named by `utf8_lossy_decode` for these bytes, and, as its
/// documentation says, valid UTF-8 is decoded as such. How invalid
/// sequences are replaced by U+FFFD is left unsaid.
#[verifier::external_body]
fn decode_utf8_lossy(bytes: &[u8]) -> (s: String)
    ensures
        s@ == utf8_lossy_decode(bytes@),
        valid_utf8(bytes@) ==> s@ == decode_utf8(bytes@),
{
    String::from_utf8_lossy(bytes).into_owned()
}

/// Whether `c` is a Unicode `White_Space` character.
fn is_white_space_char(c: char) -> (b: bool)
    ensures
        b == is_white_space(c),
{
    ('\u{9}' <= c && c <= '\u{d}') || c == ' ' || c == '\u{85}' || c == '\u{a0}' || c == '\u{1680}'
        || ('\u{2000}' <= c && c <= '\u{200a}') || c == '\u{2028}' || c == '\u{2029}' || c
        == '\u{202f}' || c == '\u{205f}' || c == '\u{3000}'
}

/// Stripping leading white space from a suffix that starts past some
/// white space gives the same as stripping it from the whole.
proof fn lemma_trim_start_skip(s: Seq<char>, a: int)
    requires
        0 <= a <= s.len(),
        forall|i: int| 0 <= i < a ==> is_white_space(#[trigger] s[i]),
    ensures
        trim_start_chars(s) == trim_start_chars(s.subrange(a, s.len() as int)),
    decreases a,
{
    if a > 0 {
        assert(s.drop_first().subrange(a - 1, s.drop_first().len() as int) =~= s.subrange(
            a,
            s.len() as int,
        ));
        lemma_trim_start_skip(s.drop_first(), a - 1);
    } else {
        assert(s.subrange(0, s.len() as int) =~= s);
    }
}

/// Stripping trailing white space from a prefix that ends before some
/// white space gives the same as stripping it from the whole.
proof fn lemma_trim_end_skip(s: Seq<char>, b: int)
    requires
        0 <= b <= s.len(),
        forall|i: int| b <= i < s.len() ==> is_white_space(#[trigger] s[i]),
    ensures
        trim_end_chars(s) == trim_end_chars(s.subrange(0, b)),
    decreases s.len() - b,
{
    if b < s.len() {
        assert(s.drop_last().subrange(0, b) =~= s.subrange(0, b));
        lemma_trim_end_skip(s.drop_last(), b);
    } else {
        assert(s.subrange(0, b) =~= s);
    }
}

/// Trim leading and trailing white space from a string.
fn trim_string(s: &String) -> (t: String)
    ensures
        t@ == trimmed(s@),
{
    let st: &str = s.as_str();
    let n = st.unicode_len();
    let mut a: usize = 0;
    while a < n && is_white_space_char(st.get_char(a))
        invariant
            n == st@.len(),
            st@ == s@,
            a <= n,
            forall|i: int| 0 <= i < a ==> is_white_space(#[trigger] st@[i]),
        decreases n - a,
    {
        a += 1;
    }
    let ghost rest = st@.subrange(a as int, n as int);
    proof {
        lemma_trim_start_skip(st@, a as int);
        if a < n {
            assert(rest[0] == st@[a as int]);
        }
        assert(trim_start_chars(st@) == rest);
    }
    let mut b: usize = n;
    while b > a && is_white_space_char(st.get_char(b - 1))
        invariant
            n == st@.len(),
            a <= b <= n,
            rest == st@.subrange(a as int, n as int),
            forall|i: int| b <= i < n ==> is_white_space(#[trigger] st@[i]),
        decreases b - a,
    {
        b -= 1;
    }
    proof {
        assert forall|i: int| b - a <= i < rest.len() implies is_white_space(#[trigger] rest[i]) by {
            assert(rest[i] == st@[a + i]);
        }
        lemma_trim_end_skip(rest, b - a);
        let core = rest.subrange(0, b - a);
        assert(core =~= st@.subrange(a as int, b as int));
        if b > a {
            assert(core.last() == st@[b - 1]);
        }
        assert(trim_end_chars(core) == core);
    }
    st.substring_char(a, b).to_owned()
}

/// DAB service information extracted from FIG type 1.
#[derive(Debug, Clone)]
pub struct ServiceLabel {
    pub service_id: u32,
    pub label: String,
    pub label_charset: u8,
}

/// DAB subchannel assignment from FIG type 0 extension 1.
#[derive(Debug, Clone)]
pub struct SubchannelInfo {
    pub subchannel_id: u8,
    pub start_cu: u16,
    pub size_cu: u16,
    pub protection_level: EepLevel,
}

/// The protection level coded by the long-form flag and the two level bits.
pub open spec fn protection_of(long_form: bool, bits: u8) -> EepLevel {
    if !long_form {
        if bits == 0 {
            EepLevel::Level1A
        } else if bits == 1 {
            EepLevel::Level2A
        } else if bits == 2 {
            EepLevel::Level3A
        } else if bits == 3 {
            EepLevel::Level4A
        } else {
            EepLevel::Level4B
        }
    } else {
        if bits == 0 {
            EepLevel::Level1B
        } else if bits == 1 {
            EepLevel::Level2B
        } else if bits == 2 {
            EepLevel::Level3B
        } else {
            EepLevel::Level4B
        }
    }
}

/// FIB (Fast Information Block) parser.
///
/// Parses Fast Information Groups (FIGs) from a 30-byte FIB data field.
pub struct FibParser;

impl FibParser {
    /// Parse a FIB data field (30 bytes) and extract FIGs.
    ///
    /// Returns a list of `(fig_type, fig_ext, data)` tuples.
    pub fn parse_fib(data: &[u8]) -> (figs: Vec<(u8, u8, Vec<u8>)>)
        ensures
            data.len() < 30 ==> figs.len() == 0,
            data.len() >= 30 ==> figs@.map_values(|f: (u8, u8, Vec<u8>)| fig_view(f)) == fig_list(
                data@,
                0,
            ),
    {
        let mut figs: Vec<(u8, u8, Vec<u8>)> = Vec::new();
        if data.len() < FIB_DATA_BYTES {
            return figs;
        }
        let mut pos: usize = 0;
        while pos < FIB_DATA_BYTES
            invariant
                data.len() >= 30,
                pos <= 30,
                figs@.map_values(|f: (u8, u8, Vec<u8>)| fig_view(f)) + fig_list(data@, pos as int)
                    == fig_list(data@, 0),
            ensures
                figs@.map_values(|f: (u8, u8, Vec<u8>)| fig_view(f)) == fig_list(data@, 0),
            decreases 30 - pos,
        {
            let header = data[pos];
            let fig_type = header >> 5;
            let length = (header & 0x1F) as usize;
            if length == 0 || pos + 1 + length > FIB_DATA_BYTES {
                proof {
                    assert(fig_list(data@, pos as int) =~= seq![]);
                    assert(figs@.map_values(|f: (u8, u8, Vec<u8>)| fig_view(f)) + seq![]
                        =~= figs@.map_values(|f: (u8, u8, Vec<u8>)| fig_view(f)));
                }
                break;
            }
            if header == 0xFF {
                proof {
                    assert(fig_list(data@, pos as int) =~= seq![]);
                    assert(figs@.map_values(|f: (u8, u8, Vec<u8>)| fig_view(f)) + seq![]
                        =~= figs@.map_values(|f: (u8, u8, Vec<u8>)| fig_view(f)));
                }
                break;
            }
            let ext_byte = data[pos + 1];
            let fig_ext = ext_byte & 0x1F;
            let fig_data = vstd::slice::slice_to_vec(&data[pos + 1..pos + 1 + length]);
            let ghost old_figs = figs@;
            figs.push((fig_type, fig_ext, fig_data));
            proof {
                let f = |f: (u8, u8, Vec<u8>)| fig_view(f);
                assert(figs@.map_values(f) =~= old_figs.map_values(f).push(
                    (fig_type, fig_ext, fig_data@),
                ));
                assert(fig_list(data@, pos as int) == seq![
                    (fig_type, fig_ext, fig_data@),
                ] + fig_list(data@, pos + 1 + length));
                assert(old_figs.map_values(f).push((fig_type, fig_ext, fig_data@)) + fig_list(
                    data@,
                    pos + 1 + length,
                ) =~= old_figs.map_values(f) + fig_list(data@, pos as int));
            }
            pos += 1 + length;
            proof {
                if pos >= 30 {
                    assert(fig_list(data@, pos as int) =~= seq![]);
                    assert(figs@.map_values(|f: (u8, u8, Vec<u8>)| fig_view(f)) + seq![]
                        =~= figs@.map_values(|f: (u8, u8, Vec<u8>)| fig_view(f)));
                }
            }
        }
        figs
    }

    /// Parse service label from FIG type 1.
    pub fn parse_service_label(fig_data: &[u8]) -> (r: Option<ServiceLabel>)
        ensures
            fig_data.len() < 18 ==> r.is_none(),
            fig_data.len() >= 18 ==> r.is_some() && r.unwrap().label_charset == fig_data[0] >> 4u8
                && r.unwrap().service_id == ((fig_data[1] as u32) << 16u32 | (fig_data[2] as u32)
                << 8u32 | (fig_data[3] as u32)) && r.unwrap().label@ == trimmed(
                utf8_lossy_decode(
                    fig_data@.subrange(4, if fig_data.len() < 20 { fig_data.len() as int } else { 20 }),
                ),
            ),
    {
        if fig_data.len() < 18 {
            return None;
        }
        let charset = fig_data[0] >> 4;
        let service_id: u32 = ((fig_data[1] as u32) << 16) | ((fig_data[2] as u32) << 8)
            | (fig_data[3] as u32);
        let end: usize = if fig_data.len() < 20 { fig_data.len() } else { 20 };
        let decoded = decode_utf8_lossy(&fig_data[4..end]);
        let label = trim_string(&decoded);
        Some(ServiceLabel { service_id, label, label_charset: charset })
    }

    /// Parse subchannel info from FIG type 0 extension 1.
    pub fn parse_subchannel_info(fig_data: &[u8]) -> (r: Option<SubchannelInfo>)
        ensures
            fig_data.len() < 4 ==> r.is_none(),
            fig_data.len() >= 4 ==> r.is_some() && r.unwrap().subchannel_id == (fig_data[1] >> 2u8)
                & 0x3Fu8 && r.unwrap().start_cu == (((fig_data[1] & 0x03u8) as u16) << 8u16) | (
            fig_data[2] as u16) && r.unwrap().size_cu == (if fig_data[3] == 0 {
                1
            } else {
                fig_data[3] as u16
            }) && r.unwrap().protection_level == protection_of(
                (fig_data[3] & 0x08u8) != 0,
                (fig_data[3] >> 2u8) & 0x3u8,
            ),
            fig_data.len() >= 4 ==> ({
                let long_form = (fig_data[3] & 0x08u8) != 0;
                let bits = (fig_data[3] >> 2u8) & 0x3u8;
                let p = r.unwrap().protection_level;
                &&& (!long_form && bits == 0 ==> p == EepLevel::Level1A)
                &&& (!long_form && bits == 1 ==> p == EepLevel::Level2A)
                &&& (!long_form && bits == 2 ==> p == EepLevel::Level3A)
                &&& (!long_form && bits == 3 ==> p == EepLevel::Level4A)
                &&& (long_form && bits == 0 ==> p == EepLevel::Level1B)
                &&& (long_form && bits == 1 ==> p == EepLevel::Level2B)
                &&& (long_form && bits == 2 ==> p == EepLevel::Level3B)
                &&& (long_form && bits == 3 ==> p == EepLevel::Level4B)
            }),
    {
        if fig_data.len() < 4 {
            return None;
        }
        let subchannel_id = (fig_data[1] >> 2) & 0x3F;
        let start_cu: u16 = (((fig_data[1] & 0x03) as u16) << 8) | fig_data[2] as u16;
        let raw_size: u16 = (fig_data[3] as u16) & 0x3FF;
        let size_cu: u16 = if raw_size < 1 { 1 } else { raw_size };
        let prot_level_bits = (fig_data[3] >> 2) & 0x3;
        let long_form = (fig_data[3] & 0x08) != 0;
        proof {
            let b = fig_data[3];
            assert((b as u16) & 0x3FFu16 == b as u16) by (bit_vector);
        }
        let protection_level = if !long_form {
            if prot_level_bits == 0 {
                EepLevel::Level1A
            } else if prot_level_bits == 1 {
                EepLevel::Level2A
            } else if prot_level_bits == 2 {
                EepLevel::Level3A
            } else if prot_level_bits == 3 {
                EepLevel::Level4A
            } else {
                EepLevel::Level4B
            }
        } else {
            if prot_level_bits == 0 {
                EepLevel::Level1B
            } else if prot_level_bits == 1 {
                EepLevel::Level2B
            } else if prot_level_bits == 2 {
                EepLevel::Level3B
            } else {
                EepLevel::Level4B
            }
        };
        Some(SubchannelInfo { subchannel_id, start_cu, size_cu, protection_level })
    }
}

/// The protection levels of FIG 0/1: the short form codes levels 1A to 4A
/// by the level bits 0 to 3, the long form levels 1B to 4B.
pub proof fn lemma_protection_levels()
    ensures
        protection_of(false, 0) == EepLevel::Level1A,
        protection_of(false, 1) == EepLevel::Level2A,
        protection_of(false, 2) == EepLevel::Level3A,
        protection_of(false, 3) == EepLevel::Level4A,
        protection_of(true, 0) == EepLevel::Level1B,
        protection_of(true, 1) == EepLevel::Level2B,
        protection_of(true, 2) == EepLevel::Level3B,
        protection_of(true, 3) == EepLevel::Level4B,
{
}

} // verus!
