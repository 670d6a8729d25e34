//! Packing of bit streams into bytes and back, most significant bit first.

use vstd::prelude::*;

use crate::dab::scramble::lemma_scramble_bits;

verus! {

/// Bit `k` (0 = most significant) of byte `b`.
pub open spec fn byte_bit(b: u8, k: int) -> bool {
    (b >> ((7 - k) as u8)) & 1u8 == 1u8
}

/// The bit at position `i` of a stream as 0 or 1; positions past the end
/// read as 0.
pub open spec fn bit_or_zero(bits: Seq<bool>, i: int) -> u8 {
    if 0 <= i < bits.len() && bits[i] {
        1
    } else {
        0
    }
}

/// Shift one more bit into an MSB-first accumulator.
pub open spec fn shl_or(acc: u8, bit: u8) -> u8 {
    (acc << 1u8) | bit
}

/// The first `k` bits of the stream from `start` on, shifted in MSB first.
pub open spec fn msb_pack(bits: Seq<bool>, start: int, k: nat) -> u8
    decreases k,
{
    if k == 0 {
        0
    } else {
        shl_or(msb_pack(bits, start, (k - 1) as nat), bit_or_zero(bits, start + k - 1))
    }
}

/// Byte `j` of the packed stream: bits `8j .. 8j+8`, MSB first, zero padded.
pub open spec fn packed_byte(bits: Seq<bool>, j: int) -> u8 {
    msb_pack(bits, 8 * j, 8)
}

/// A byte stream read as bits, most significant bit of each byte first.
pub open spec fn unpack_bits(bytes: Seq<u8>) -> Seq<bool> {
    Seq::new(bytes.len() * 8, |i: int| byte_bit(bytes[i / 8], i % 8))
}

/// Pack a bit slice into bytes (MSB first).
pub fn bits_to_bytes(bits: &[bool]) -> (out: Vec<u8>)
    ensures
        out.len() == (bits.len() + 7) / 8,
        forall|j: int| 0 <= j < out.len() ==> #[trigger] out[j] == packed_byte(bits@, j),
        forall|i: int| 0 <= i < bits.len() ==> #[trigger] byte_bit(out[i / 8], i % 8) == bits[i],
        forall|i: int| bits.len() <= i < 8 * out.len() ==> !#[trigger] byte_bit(out[i / 8], i % 8),
{
    let nbytes: usize = bits.len() / 8 + if bits.len() % 8 == 0 { 0 } else { 1 };
    let mut out: Vec<u8> = Vec::with_capacity(nbytes);
    let mut j: usize = 0;
    while j < nbytes
        invariant
            nbytes == (bits.len() + 7) / 8,
            j <= nbytes,
            out.len() == j,
            forall|q: int| 0 <= q < j ==> #[trigger] out[q] == packed_byte(bits@, q),
        decreases nbytes - j,
    {
        let mut byte: u8 = 0;
        let mut k: usize = 0;
        while k < 8
            invariant
                j < nbytes,
                nbytes == (bits.len() + 7) / 8,
                k <= 8,
                byte == msb_pack(bits@, 8 * j, k as nat),
            decreases 8 - k,
        {
            let idx: usize = 8 * j + k;
            let b: u8 = if idx < bits.len() && bits[idx] { 1 } else { 0 };
            byte = (byte << 1) | b;
            k += 1;
        }
        out.push(byte);
        j += 1;
    }
    proof {
        assert forall|i: int| 0 <= i < 8 * out.len() implies #[trigger] byte_bit(out[i / 8], i % 8) == (i
            < bits.len() && bits[i]) by {
            let j = i / 8;
            let k = i % 8;
            assert(i == 8 * j + k);
            lemma_msb_pack_bit(bits@, 8 * j, 8, k as nat);
            assert(((7 - k) as u8) == ((8 - 1 - k) as u8));
        }
    }
    out
}

/// Bit `q` of the first `t` bits packed MSB first, counted from the most
/// significant of them, is stream bit `start + q` (zero past the end).
pub proof fn lemma_msb_pack_bit(bits: Seq<bool>, start: int, t: nat, q: nat)
    requires
        q < t <= 8,
    ensures
        ((msb_pack(bits, start, t) >> ((t - 1 - q) as u8)) & 1u8 == 1u8) == (bit_or_zero(bits, start + q) == 1),
    decreases t,
{
    let prev = msb_pack(bits, start, (t - 1) as nat);
    let p = bit_or_zero(bits, start + t - 1);
    let m: u8 = (t - 1 - q) as u8;
    lemma_scramble_bits(0, 0, prev, p, m);
    if q < t - 1 {
        lemma_msb_pack_bit(bits, start, (t - 1) as nat, q);
        assert((m - 1) as u8 == (t - 1 - 1 - q) as u8);
    }
}

/// Unpack bytes to bits (MSB first).
pub fn bytes_to_bits(bytes: &[u8]) -> (bits: Vec<bool>)
    requires
        bytes.len() * 8 <= usize::MAX,
    ensures
        bits.len() == bytes.len() * 8,
        forall|i: int| 0 <= i < bits.len() ==> #[trigger] bits[i] == byte_bit(bytes[i / 8], i % 8),
        bits@ == unpack_bits(bytes@),
{
    let mut bits: Vec<bool> = Vec::with_capacity(bytes.len() * 8);
    let mut j: usize = 0;
    while j < bytes.len()
        invariant
            bytes.len() * 8 <= usize::MAX,
            j <= bytes.len(),
            bits.len() == 8 * j,
            forall|i: int| 0 <= i < bits.len() ==> #[trigger] bits[i] == byte_bit(bytes[i / 8], i % 8),
        decreases bytes.len() - j,
    {
        let byte = bytes[j];
        let mut k: usize = 0;
        while k < 8
            invariant
                j < bytes.len(),
                byte == bytes[j as int],
                k <= 8,
                bits.len() == 8 * j + k,
                forall|i: int| 0 <= i < bits.len() ==> #[trigger] bits[i] == byte_bit(bytes[i / 8], i % 8),
            decreases 8 - k,
        {
            let sh: u8 = (7 - k) as u8;
            bits.push((byte >> sh) & 1 == 1);
            proof {
                let i = 8 * j + k;
                assert(i / 8 == j && i % 8 == k) by (nonlinear_arith)
                    requires i == 8 * j + k, k < 8;
            }
            k += 1;
        }
        j += 1;
    }
    assert(bits@ =~= unpack_bits(bytes@));
    bits
}

/// The low bit of a byte is 0 or 1.
proof fn lemma_low_bit(x: u8)
    ensures
        x & 1u8 == 0u8 || x & 1u8 == 1u8,
{
    assert(x & 1u8 == 0u8 || x & 1u8 == 1u8) by (bit_vector);
}

/// Packing the eight MSB-first bits of a byte gives the byte back.
proof fn lemma_msb_pack_byte(bits: Seq<bool>, start: int, b: u8)
    requires
        0 <= start,
        start + 8 <= bits.len(),
        forall|k: int| 0 <= k < 8 ==> #[trigger] bits[start + k] == byte_bit(b, k),
    ensures
        msb_pack(bits, start, 8) == b,
{
    reveal_with_fuel(msb_pack, 9);
    let b0 = bit_or_zero(bits, start);
    let b1 = bit_or_zero(bits, start + 1);
    let b2 = bit_or_zero(bits, start + 2);
    let b3 = bit_or_zero(bits, start + 3);
    let b4 = bit_or_zero(bits, start + 4);
    let b5 = bit_or_zero(bits, start + 5);
    let b6 = bit_or_zero(bits, start + 6);
    let b7 = bit_or_zero(bits, start + 7);
    assert(bits[start + 0] == byte_bit(b, 0));
    assert(bits[start + 1] == byte_bit(b, 1));
    assert(bits[start + 2] == byte_bit(b, 2));
    assert(bits[start + 3] == byte_bit(b, 3));
    assert(bits[start + 4] == byte_bit(b, 4));
    assert(bits[start + 5] == byte_bit(b, 5));
    assert(bits[start + 6] == byte_bit(b, 6));
    assert(bits[start + 7] == byte_bit(b, 7));
    lemma_low_bit(b >> 7u8);
    assert(b0 == (b >> 7u8) & 1u8);
    lemma_low_bit(b >> 6u8);
    assert(b1 == (b >> 6u8) & 1u8);
    lemma_low_bit(b >> 5u8);
    assert(b2 == (b >> 5u8) & 1u8);
    lemma_low_bit(b >> 4u8);
    assert(b3 == (b >> 4u8) & 1u8);
    lemma_low_bit(b >> 3u8);
    assert(b4 == (b >> 3u8) & 1u8);
    lemma_low_bit(b >> 2u8);
    assert(b5 == (b >> 2u8) & 1u8);
    lemma_low_bit(b >> 1u8);
    assert(b6 == (b >> 1u8) & 1u8);
    lemma_low_bit(b >> 0u8);
    assert(b7 == (b >> 0u8) & 1u8);
    assert(shl_or(shl_or(shl_or(shl_or(shl_or(shl_or(shl_or(shl_or(0u8, (b >> 7u8) & 1u8),
        (b >> 6u8) & 1u8), (b >> 5u8) & 1u8), (b >> 4u8) & 1u8), (b >> 3u8) & 1u8), (b >> 2u8) & 1u8),
        (b >> 1u8) & 1u8), (b >> 0u8) & 1u8) == b) by (bit_vector);
}

/// Unpacking bytes to bits and packing the bits again gives the bytes back.
pub proof fn lemma_bytes_bits_roundtrip(bytes: Seq<u8>, bits: Seq<bool>, out: Seq<u8>)
    requires
        bits.len() == bytes.len() * 8,
        forall|i: int| 0 <= i < bits.len() ==> #[trigger] bits[i] == byte_bit(bytes[i / 8], i % 8),
        out.len() == (bits.len() + 7) / 8,
        forall|j: int| 0 <= j < out.len() ==> #[trigger] out[j] == packed_byte(bits, j),
    ensures
        out == bytes,
{
    assert(out.len() == bytes.len());
    assert forall|j: int| 0 <= j < out.len() implies out[j] == bytes[j] by {
        assert forall|k: int| 0 <= k < 8 implies #[trigger] bits[8 * j + k] == byte_bit(bytes[j], k) by {
            let i = 8 * j + k;
            assert(i / 8 == j && i % 8 == k) by (nonlinear_arith)
                requires i == 8 * j + k, 0 <= k < 8;
            assert(0 <= i < bits.len()) by (nonlinear_arith)
                requires i == 8 * j + k, 0 <= k < 8, 0 <= j < out.len(), bits.len() == out.len() * 8;
        }
        assert(8 * j + 8 <= bits.len()) by (nonlinear_arith)
            requires 0 <= j < out.len(), bits.len() == out.len() * 8;
        lemma_msb_pack_byte(bits, 8 * j, bytes[j]);
    }
    assert(out =~= bytes);
}

} // verus!
