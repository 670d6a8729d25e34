//! CRC-16/CCITT (polynomial 0x1021, initial value 0xFFFF, MSB first, no
//! reflection, no final XOR), shared by the DAB FIB check, the NB-IoT
//! DCI check and the mesh packet check.

use vstd::prelude::*;

verus! {

/// One shift of the CRC register: shift left, and fold the polynomial
/// back in when the bit that leaves the register was set.
pub open spec fn crc16_shift(crc: u16) -> u16 {
    if crc & 0x8000u16 != 0 {
        (crc << 1u16) ^ 0x1021u16
    } else {
        crc << 1u16
    }
}

/// `n` register shifts.
pub open spec fn crc16_shift_n(crc: u16, n: nat) -> u16
    decreases n,
{
    if n == 0 {
        crc
    } else {
        crc16_shift(crc16_shift_n(crc, (n - 1) as nat))
    }
}

/// The register after feeding one byte, MSB first.
pub open spec fn crc16_byte(crc: u16, b: u8) -> u16 {
    crc16_shift_n(crc ^ ((b as u16) << 8u16), 8)
}

/// The register after feeding `data`, starting from `init`.
pub open spec fn crc16_from(init: u16, data: Seq<u8>) -> u16
    decreases data.len(),
{
    if data.len() == 0 {
        init
    } else {
        crc16_byte(crc16_from(init, data.drop_last()), data.last())
    }
}

/// CRC-16/CCITT of `data`.
pub open spec fn crc16_ccitt_spec(data: Seq<u8>) -> u16 {
    crc16_from(0xFFFFu16, data)
}

/// High byte of a 16-bit value.
pub open spec fn hi_byte(x: u16) -> u8 {
    (x >> 8u16) as u8
}

/// Low byte of a 16-bit value.
pub open spec fn lo_byte(x: u16) -> u8 {
    (x & 0xFFu16) as u8
}

/// `data` followed by its CRC, high byte first.
pub open spec fn with_crc(data: Seq<u8>) -> Seq<u8> {
    data.push(hi_byte(crc16_ccitt_spec(data))).push(lo_byte(crc16_ccitt_spec(data)))
}

/// A big-endian 16-bit value made of two bytes.
pub open spec fn be16(hi: u8, lo: u8) -> u16 {
    ((hi as u16) << 8u16) | (lo as u16)
}

/// The bit-level facts about a register value `x` that the byte split and
/// the appended CRC rest on: its bytes join back to it; removing its high
/// byte leaves its low byte; the low byte shifted up to seven places keeps
/// the top bit clear and shifts on by one; shifting zero gives zero.
proof fn lemma_register_bits(x: u16, k: u16)
    by (bit_vector)
    requires
        k < 8,
    ensures
        (((x >> 8u16) as u8 as u16) << 8u16) | ((x & 0xFFu16) as u8 as u16) == x,
        x ^ (((x >> 8u16) as u8 as u16) << 8u16) == x & 0xFFu16,
        ((x & 0xFFu16) << k) & 0x8000u16 == 0,
        ((x & 0xFFu16) << k) << 1u16 == (x & 0xFFu16) << ((k + 1) as u16),
        (x & 0xFFu16) << 0u16 == x & 0xFFu16,
        (((x & 0xFFu16) as u8 as u16) << 8u16) == (x & 0xFFu16) << 8u16,
        ((x & 0xFFu16) << 8u16) ^ ((x & 0xFFu16) << 8u16) == 0u16,
        0u16 & 0x8000u16 == 0u16,
        0u16 << 1u16 == 0u16,
{
}

/// Splitting a value into its bytes and joining them again gives it back.
pub proof fn lemma_be16_split(x: u16)
    ensures
        be16(hi_byte(x), lo_byte(x)) == x,
{
    lemma_register_bits(x, 0);
}

/// A register holding only a low byte shifts it up unchanged for up to
/// eight shifts: the leaving bit is clear each time.
proof fn lemma_shift_low_byte(x: u16, k: nat)
    requires
        k <= 8,
    ensures
        crc16_shift_n(x & 0xFFu16, k) == (x & 0xFFu16) << (k as u16),
    decreases k,
{
    if k == 0 {
        lemma_register_bits(x, 0);
    } else {
        lemma_shift_low_byte(x, (k - 1) as nat);
        lemma_register_bits(x, (k - 1) as u16);
        assert(((k - 1) as u16 + 1) as u16 == k as u16);
    }
}

/// Shifting a zero register leaves it zero.
proof fn lemma_shift_zero(k: nat)
    ensures
        crc16_shift_n(0u16, k) == 0u16,
    decreases k,
{
    if k > 0 {
        lemma_shift_zero((k - 1) as nat);
        lemma_register_bits(0, 0);
    }
}

/// Appending its CRC, high byte first, to any data leaves a zero CRC over
/// the whole.
pub proof fn lemma_crc16_with_crc_zero(data: Seq<u8>)
    ensures
        crc16_ccitt_spec(with_crc(data)) == 0,
{
    let c = crc16_ccitt_spec(data);
    let h = hi_byte(c);
    let l = lo_byte(c);
    let w = with_crc(data);
    assert(w.drop_last() =~= data.push(h));
    assert(data.push(h).drop_last() =~= data);
    lemma_register_bits(c, 0);
    lemma_shift_low_byte(c, 8);
    let r = crc16_byte(c, h);
    assert(r == (c & 0xFFu16) << 8u16);
    lemma_shift_zero(8);
    assert(crc16_from(0xFFFFu16, data.push(h)) == r);
    assert(crc16_from(0xFFFFu16, w) == crc16_byte(r, l));
    assert((l as u16) << 8u16 == (c & 0xFFu16) << 8u16);
    assert(r ^ ((l as u16) << 8u16) == 0u16);
    assert(crc16_byte(r, l) == crc16_shift_n(0u16, 8));
}

/// Feed one byte into the register.
pub fn crc16_update(crc: u16, byte: u8) -> (r: u16)
    ensures
        r == crc16_byte(crc, byte),
{
    let mut c: u16 = crc ^ ((byte as u16) << 8);
    let ghost start = c;
    let mut k: usize = 0;
    while k < 8
        invariant
            k <= 8,
            start == crc ^ ((byte as u16) << 8u16),
            c == crc16_shift_n(start, k as nat),
        decreases 8 - k,
    {
        if c & 0x8000 != 0 {
            c = (c << 1) ^ 0x1021;
        } else {
            c = c << 1;
        }
        k += 1;
    }
    c
}

/// CRC-16/CCITT over a byte slice.
pub fn crc16_ccitt(data: &[u8]) -> (crc: u16)
    ensures
        crc == crc16_ccitt_spec(data@),
{
    let mut crc: u16 = 0xFFFF;
    let mut i: usize = 0;
    while i < data.len()
        invariant
            i <= data.len(),
            crc == crc16_from(0xFFFFu16, data@.subrange(0, i as int)),
        decreases data.len() - i,
    {
        proof {
            assert(data@.subrange(0, i + 1).drop_last() =~= data@.subrange(0, i as int));
        }
        crc = crc16_update(crc, data[i]);
        i += 1;
    }
    proof {
        assert(data@.subrange(0, data.len() as int) =~= data@);
    }
    crc
}


/// The register's steps lose nothing: a shift is one-to-one, and XORing a
/// byte in keeps distinct registers distinct and distinct bytes distinct;
/// two bytes name one big-endian value only once; XORing a nonzero byte
/// in changes a byte.
proof fn lemma_crc16_injective_steps(x: u16, y: u16, s: u16, b: u8, c: u8, h: u8, l: u8)
    by (bit_vector)
    ensures
        x != y ==> crc16_shift(x) != crc16_shift(y),
        x != y ==> x ^ ((b as u16) << 8u16) != y ^ ((b as u16) << 8u16),
        b != c ==> s ^ ((b as u16) << 8u16) != s ^ ((c as u16) << 8u16),
        (be16(h, l) == be16(b, c)) == (h == b && l == c),
        (c ^ b == c) == (b == 0),
{
}

/// Distinct registers stay distinct through any number of shifts.
proof fn lemma_crc16_shift_n_injective(x: u16, y: u16, n: nat)
    requires
        x != y,
    ensures
        crc16_shift_n(x, n) != crc16_shift_n(y, n),
    decreases n,
{
    if n > 0 {
        lemma_crc16_shift_n_injective(x, y, (n - 1) as nat);
        lemma_crc16_injective_steps(crc16_shift_n(x, (n - 1) as nat), crc16_shift_n(y, (n - 1) as nat), 0, 0, 0, 0, 0);
    }
}

/// Feeding a byte keeps distinct registers distinct, and feeding distinct
/// bytes into one register gives distinct registers.
proof fn lemma_crc16_byte_injective(s: u16, t: u16, b: u8, c: u8)
    ensures
        s != t ==> crc16_byte(s, b) != crc16_byte(t, b),
        b != c ==> crc16_byte(s, b) != crc16_byte(s, c),
{
    lemma_crc16_injective_steps(s, t, s, b, c, 0, 0);
    if s != t {
        lemma_crc16_shift_n_injective(s ^ ((b as u16) << 8u16), t ^ ((b as u16) << 8u16), 8);
    }
    if b != c {
        lemma_crc16_shift_n_injective(s ^ ((b as u16) << 8u16), s ^ ((c as u16) << 8u16), 8);
    }
}

/// Two words of one length that differ in exactly one byte have different
/// CRC registers after every prefix that reaches past that byte.
proof fn lemma_crc16_prefix_differs(init: u16, d1: Seq<u8>, d2: Seq<u8>, q: int, k: int)
    requires
        d1.len() == d2.len(),
        0 <= q < k <= d1.len(),
        d1[q] != d2[q],
        forall|i: int| 0 <= i < d1.len() && i != q ==> d1[i] == d2[i],
    ensures
        crc16_from(init, d1.subrange(0, k)) != crc16_from(init, d2.subrange(0, k)),
    decreases k,
{
    let j = k - 1;
    assert(d1.subrange(0, k).drop_last() =~= d1.subrange(0, j));
    assert(d2.subrange(0, k).drop_last() =~= d2.subrange(0, j));
    let s1 = crc16_from(init, d1.subrange(0, j));
    let s2 = crc16_from(init, d2.subrange(0, j));
    if j == q {
        assert(d1.subrange(0, j) =~= d2.subrange(0, j));
        lemma_crc16_byte_injective(s1, s1, d1[q], d2[q]);
    } else {
        lemma_crc16_prefix_differs(init, d1, d2, q, j);
        lemma_crc16_byte_injective(s1, s2, d1[j], d1[j]);
    }
}

/// Changing any one byte of a word changes its CRC.
pub proof fn lemma_crc16_detects_byte_error(data: Seq<u8>, q: int, e: u8)
    requires
        0 <= q < data.len(),
        e != 0,
    ensures
        crc16_ccitt_spec(data.update(q, data[q] ^ e)) != crc16_ccitt_spec(data),
{
    let bad = data.update(q, data[q] ^ e);
    lemma_xor_nonzero_changes(data[q], e);
    lemma_crc16_prefix_differs(0xFFFFu16, bad, data, q, data.len() as int);
    assert(bad.subrange(0, data.len() as int) =~= bad);
    assert(data.subrange(0, data.len() as int) =~= data);
}

/// Bytes that differ give different big-endian values.
pub proof fn lemma_be16_injective(h: u8, l: u8, b: u8, c: u8)
    ensures
        (be16(h, l) == be16(b, c)) == (h == b && l == c),
{
    lemma_crc16_injective_steps(0, 0, 0, b, c, h, l);
}


/// XORing a nonzero value into a byte changes it.
pub proof fn lemma_xor_nonzero_changes(b: u8, e: u8)
    requires
        e != 0,
    ensures
        b ^ e != b,
{
    lemma_crc16_injective_steps(0, 0, 0, e, b, 0, 0);
}

} // verus!
