//! Validation and parsing of command-line radio and mesh settings.

use vstd::prelude::*;
use vstd::string::StrSliceExecFns;

use crate::mesh::meshtastic::{ModemPreset, Region};
use crate::mesh::packet::NodeId;

verus! {

/// Why a command-line setting was refused.
#[derive(Debug, Clone, PartialEq)]
pub enum CliError {
    /// Spreading factor outside 5..=12.
    InvalidSpreadingFactor(u8),
    /// Bandwidth (kHz) other than 125, 250 or 500.
    InvalidBandwidth(u32),
    /// Coding rate denominator outside 5..=8.
    InvalidCodingRate(u8),
    /// Preset name not known.
    UnknownPreset(String),
    /// Region name not known.
    UnknownRegion(String),
    /// Node id that is not a hexadecimal 32-bit number.
    InvalidNodeId(String),
}

/// Validate a LoRa spreading factor (5..=12).
pub fn validate_sf(sf: u8) -> (r: Result<u8, CliError>)
    ensures
        5 <= sf <= 12 ==> r == Ok::<u8, CliError>(sf),
        !(5 <= sf <= 12) ==> r == Err::<u8, CliError>(CliError::InvalidSpreadingFactor(sf)),
{
    if 5 <= sf && sf <= 12 {
        Ok(sf)
    } else {
        Err(CliError::InvalidSpreadingFactor(sf))
    }
}

/// Validate a bandwidth in kHz and convert it to Hz (125, 250 or 500 kHz).
pub fn validate_bw(bw: u32) -> (r: Result<u32, CliError>)
    ensures
        (bw == 125 || bw == 250 || bw == 500) ==> r == Ok::<u32, CliError>((bw * 1000) as u32),
        !(bw == 125 || bw == 250 || bw == 500) ==> r == Err::<u32, CliError>(
            CliError::InvalidBandwidth(bw),
        ),
{
    if bw == 125 {
        Ok(125_000)
    } else if bw == 250 {
        Ok(250_000)
    } else if bw == 500 {
        Ok(500_000)
    } else {
        Err(CliError::InvalidBandwidth(bw))
    }
}

/// Validate a coding rate denominator (4/5 to 4/8).
pub fn validate_cr(cr: u8) -> (r: Result<u8, CliError>)
    ensures
        5 <= cr <= 8 ==> r == Ok::<u8, CliError>(cr),
        !(5 <= cr <= 8) ==> r == Err::<u8, CliError>(CliError::InvalidCodingRate(cr)),
{
    if 5 <= cr && cr <= 8 {
        Ok(cr)
    } else {
        Err(CliError::InvalidCodingRate(cr))
    }
}

/// The Unicode lower-case form of a text.
pub uninterp spec fn lowercase(s: Seq<char>) -> Seq<char>;

/// The Unicode upper-case form of a text.
pub uninterp spec fn uppercase(s: Seq<char>) -> Seq<char>;

/// `str::to_lowercase`. Trusted: the text is the one named by `lowercase`
/// for the input.
#[verifier::external_body]
fn to_lower(s: &str) -> (r: String)
    ensures
        r@ == lowercase(s@),
{
    s.to_lowercase()
}

/// `str::to_uppercase`. Trusted: the text is the one named by `uppercase`
/// for the input.
#[verifier::external_body]
fn to_upper(s: &str) -> (r: String)
    ensures
        r@ == uppercase(s@),
{
    s.to_uppercase()
}

/// Whether two texts are equal, character by character.
fn text_eq(a: &str, b: &str) -> (r: bool)
    ensures
        r == (a@ == b@),
{
    let n = a.unicode_len();
    if n != b.unicode_len() {
        return false;
    }
    let mut i: usize = 0;
    while i < n
        invariant
            n == a@.len(),
            n == b@.len(),
            i <= n,
            forall|k: int| 0 <= k < i ==> a@[k] == b@[k],
        decreases n - i,
    {
        if a.get_char(i) != b.get_char(i) {
            return false;
        }
        i += 1;
    }
    proof {
        assert(a@ =~= b@);
    }
    true
}

/// The preset a lower-case name stands for.
pub open spec fn preset_named(s: Seq<char>) -> Option<ModemPreset> {
    if s == "longfast"@ || s == "long_fast"@ {
        Some(ModemPreset::LongFast)
    } else if s == "longslow"@ || s == "long_slow"@ {
        Some(ModemPreset::LongSlow)
    } else if s == "longmoderate"@ || s == "long_moderate"@ {
        Some(ModemPreset::LongModerate)
    } else if s == "medfast"@ || s == "med_fast"@ || s == "mediumfast"@ || s == "medium_fast"@ {
        Some(ModemPreset::MediumFast)
    } else if s == "medslow"@ || s == "med_slow"@ || s == "mediumslow"@ || s == "medium_slow"@ {
        Some(ModemPreset::MediumSlow)
    } else if s == "shortfast"@ || s == "short_fast"@ {
        Some(ModemPreset::ShortFast)
    } else if s == "shortslow"@ || s == "short_slow"@ {
        Some(ModemPreset::ShortSlow)
    } else {
        None
    }
}

/// The preset a lower-case name stands for.
pub fn preset_from_name(s: &str) -> (r: Option<ModemPreset>)
    ensures
        r == preset_named(s@),
{
    if text_eq(s, "longfast") || text_eq(s, "long_fast") {
        Some(ModemPreset::LongFast)
    } else if text_eq(s, "longslow") || text_eq(s, "long_slow") {
        Some(ModemPreset::LongSlow)
    } else if text_eq(s, "longmoderate") || text_eq(s, "long_moderate") {
        Some(ModemPreset::LongModerate)
    } else if text_eq(s, "medfast") || text_eq(s, "med_fast") || text_eq(s, "mediumfast") || text_eq(
        s,
        "medium_fast",
    ) {
        Some(ModemPreset::MediumFast)
    } else if text_eq(s, "medslow") || text_eq(s, "med_slow") || text_eq(s, "mediumslow") || text_eq(
        s,
        "medium_slow",
    ) {
        Some(ModemPreset::MediumSlow)
    } else if text_eq(s, "shortfast") || text_eq(s, "short_fast") {
        Some(ModemPreset::ShortFast)
    } else if text_eq(s, "shortslow") || text_eq(s, "short_slow") {
        Some(ModemPreset::ShortSlow)
    } else {
        None
    }
}

/// Parse a modem preset name, in any case.
pub fn parse_preset(preset: &str) -> (r: Result<ModemPreset, CliError>)
    ensures
        preset_named(lowercase(preset@)) matches Some(p) ==> r == Ok::<ModemPreset, CliError>(p),
        preset_named(lowercase(preset@)) is None ==> (r matches Err(CliError::UnknownPreset(s))
            && s@ == preset@),
{
    let lower = to_lower(preset);
    match preset_from_name(lower.as_str()) {
        Some(p) => Ok(p),
        None => Err(CliError::UnknownPreset(preset.to_owned())),
    }
}

/// The region an upper-case name stands for.
pub open spec fn region_named(s: Seq<char>) -> Option<Region> {
    if s == "US"@ {
        Some(Region::US)
    } else if s == "EU868"@ || s == "EU"@ {
        Some(Region::EU)
    } else if s == "CN"@ || s == "CHINA"@ {
        Some(Region::CN)
    } else if s == "JP"@ || s == "JAPAN"@ {
        Some(Region::JP)
    } else if s == "ANZ"@ || s == "AU"@ || s == "NZ"@ || s == "AUSTRALIA"@ {
        Some(Region::ANZ)
    } else if s == "KR"@ || s == "KOREA"@ {
        Some(Region::KR)
    } else if s == "TW"@ || s == "TAIWAN"@ {
        Some(Region::TW)
    } else if s == "IN"@ || s == "INDIA"@ {
        Some(Region::IN)
    } else {
        None
    }
}

/// The region an upper-case name stands for.
pub fn region_from_name(s: &str) -> (r: Option<Region>)
    ensures
        r == region_named(s@),
{
    if text_eq(s, "US") {
        Some(Region::US)
    } else if text_eq(s, "EU868") || text_eq(s, "EU") {
        Some(Region::EU)
    } else if text_eq(s, "CN") || text_eq(s, "CHINA") {
        Some(Region::CN)
    } else if text_eq(s, "JP") || text_eq(s, "JAPAN") {
        Some(Region::JP)
    } else if text_eq(s, "ANZ") || text_eq(s, "AU") || text_eq(s, "NZ") || text_eq(s, "AUSTRALIA") {
        Some(Region::ANZ)
    } else if text_eq(s, "KR") || text_eq(s, "KOREA") {
        Some(Region::KR)
    } else if text_eq(s, "TW") || text_eq(s, "TAIWAN") {
        Some(Region::TW)
    } else if text_eq(s, "IN") || text_eq(s, "INDIA") {
        Some(Region::IN)
    } else {
        None
    }
}

/// Parse a region name, in any case.
pub fn parse_region(region: &str) -> (r: Result<Region, CliError>)
    ensures
        region_named(uppercase(region@)) matches Some(g) ==> r == Ok::<Region, CliError>(g),
        region_named(uppercase(region@)) is None ==> (r matches Err(CliError::UnknownRegion(s))
            && s@ == region@),
{
    let upper = to_upper(region);
    match region_from_name(upper.as_str()) {
        Some(g) => Ok(g),
        None => Err(CliError::UnknownRegion(region.to_owned())),
    }
}

/// `s` with every leading "0x" removed.
pub open spec fn strip_hex_prefix(s: Seq<char>) -> Seq<char>
    decreases s.len(),
{
    if s.len() >= 2 && s[0] == '0' && s[1] == 'x' {
        strip_hex_prefix(s.subrange(2, s.len() as int))
    } else {
        s
    }
}

/// The value of a hexadecimal digit (either case).
pub open spec fn hex_digit_value(c: char) -> Option<int> {
    if '0' <= c && c <= '9' {
        Some(c as int - '0' as int)
    } else if 'a' <= c && c <= 'f' {
        Some(c as int - 'a' as int + 10)
    } else if 'A' <= c && c <= 'F' {
        Some(c as int - 'A' as int + 10)
    } else {
        None
    }
}

/// Whether every character is a hexadecimal digit.
pub open spec fn all_hex(d: Seq<char>) -> bool {
    forall|i: int| 0 <= i < d.len() ==> hex_digit_value(#[trigger] d[i]) is Some
}

/// The value of a string of hexadecimal digits.
pub open spec fn hex_value(d: Seq<char>) -> int
    decreases d.len(),
{
    if d.len() == 0 {
        0
    } else {
        hex_value(d.drop_last()) * 16 + hex_digit_value(d.last())->0
    }
}

/// What `u32::from_str_radix(t, 16)` accepts: an optional `+`, then one or
/// more hexadecimal digits whose value fits in 32 bits.
pub open spec fn parse_hex_u32(t: Seq<char>) -> Option<u32> {
    let d = if t.len() > 0 && t[0] == '+' { t.drop_first() } else { t };
    if d.len() > 0 && all_hex(d) && hex_value(d) <= u32::MAX {
        Some(hex_value(d) as u32)
    } else {
        None
    }
}

/// The hexadecimal value of a digit character.
fn hex_digit(c: char) -> (r: Option<u32>)
    ensures
        r matches Some(v) ==> hex_digit_value(c) == Some(v as int) && v < 16,
        r is None ==> hex_digit_value(c) is None,
{
    if '0' <= c && c <= '9' {
        Some((c as u32) - ('0' as u32))
    } else if 'a' <= c && c <= 'f' {
        Some((c as u32) - ('a' as u32) + 10)
    } else if 'A' <= c && c <= 'F' {
        Some((c as u32) - ('A' as u32) + 10)
    } else {
        None
    }
}

/// Hex digit values are at least zero, so longer prefixes are no smaller.
proof fn lemma_hex_value_prefix(d: Seq<char>, i: int)
    requires
        0 <= i <= d.len(),
        all_hex(d),
    ensures
        0 <= hex_value(d.subrange(0, i)) <= hex_value(d),
    decreases d.len() - i,
{
    if i < d.len() {
        lemma_hex_value_prefix(d, i + 1);
        let pre = d.subrange(0, i + 1);
        assert(pre.drop_last() =~= d.subrange(0, i));
        assert(hex_digit_value(d[i]) is Some);
    } else {
        assert(d.subrange(0, i) =~= d);
        lemma_hex_value_nonneg(d);
    }
}

/// Hex values are never negative.
proof fn lemma_hex_value_nonneg(d: Seq<char>)
    requires
        all_hex(d),
    ensures
        hex_value(d) >= 0,
    decreases d.len(),
{
    if d.len() > 0 {
        let pre = d.drop_last();
        assert(all_hex(pre)) by {
            assert forall|i: int| 0 <= i < pre.len() implies hex_digit_value(#[trigger] pre[i]) is Some by {
                assert(pre[i] == d[i]);
            }
        }
        lemma_hex_value_nonneg(pre);
        assert(hex_digit_value(d.last()) is Some);
    }
}

/// `u32::from_str_radix(t, 16)`, written out: an optional `+`, then hex
/// digits, refusing empty digit strings, other characters and overflow.
fn parse_hex(t: &str) -> (r: Option<u32>)
    ensures
        r == parse_hex_u32(t@),
{
    let n = t.unicode_len();
    let mut start: usize = 0;
    if n > 0 && t.get_char(0) == '+' {
        start = 1;
    }
    let ghost d = if t@.len() > 0 && t@[0] == '+' { t@.drop_first() } else { t@ };
    proof {
        assert(d =~= t@.subrange(start as int, n as int));
    }
    if start == n {
        return None;
    }
    let mut acc: u64 = 0;
    let mut i: usize = start;
    while i < n
        invariant
            n == t@.len(),
            start <= i <= n,
            d == t@.subrange(start as int, n as int),
            d == (if t@.len() > 0 && t@[0] == '+' { t@.drop_first() } else { t@ }),
            d.len() > 0,
            forall|k: int| start <= k < i ==> hex_digit_value(#[trigger] t@[k]) is Some,
            acc as int == hex_value(t@.subrange(start as int, i as int)),
            acc <= u32::MAX,
        decreases n - i,
    {
        let c = t.get_char(i);
        let v = match hex_digit(c) {
            Some(v) => v,
            None => {
                proof {
                    assert(d[i - start] == c);
                    assert(hex_digit_value(d[i - start]) is None);
                    assert(!all_hex(d));
                }
                return None;
            },
        };
        proof {
            let pre = t@.subrange(start as int, i + 1);
            assert(pre.drop_last() =~= t@.subrange(start as int, i as int));
            assert(pre.last() == c);
        }
        let next: u64 = acc * 16 + v as u64;
        if next > 0xFFFF_FFFF {
            proof {
                let p = (i + 1 - start) as int;
                let pre = t@.subrange(start as int, i + 1);
                assert(hex_value(pre) == acc * 16 + v);
                if all_hex(d) {
                    assert(d.subrange(0, p) =~= pre);
                    lemma_hex_value_prefix(d, p);
                }
            }
            return None;
        }
        acc = next;
        i += 1;
    }
    proof {
        assert(t@.subrange(start as int, n as int) =~= d);
        assert(all_hex(d)) by {
            assert forall|k: int| 0 <= k < d.len() implies hex_digit_value(#[trigger] d[k]) is Some by {
                assert(d[k] == t@[start + k]);
            }
        }
    }
    Some(acc as u32)
}

/// Remove every leading "0x".
fn strip_prefix_0x(s: &str) -> (t: &str)
    ensures
        t@ == strip_hex_prefix(s@),
    decreases s@.len(),
{
    let n = s.unicode_len();
    if n >= 2 && s.get_char(0) == '0' && s.get_char(1) == 'x' {
        strip_prefix_0x(s.substring_char(2, n))
    } else {
        s
    }
}

/// Parse an optional node id given in hexadecimal (leading "0x" removed).
pub fn parse_node_id(id: &Option<String>) -> (r: Result<Option<NodeId>, CliError>)
    ensures
        id.is_none() ==> r == Ok::<Option<NodeId>, CliError>(None),
        id matches Some(s) ==> match parse_hex_u32(strip_hex_prefix(s@)) {
            Some(v) => r == Ok::<Option<NodeId>, CliError>(Some(NodeId::of_value(v))),
            None => r matches Err(CliError::InvalidNodeId(e)) && e@ == s@,
        },
{
    match id {
        Some(s) => {
            let t = strip_prefix_0x(s.as_str());
            match parse_hex(t) {
                Some(value) => Ok(Some(NodeId::from_u32(value))),
                None => Err(CliError::InvalidNodeId(s.clone())),
            }
        },
        None => Ok(None),
    }
}

} // verus!
