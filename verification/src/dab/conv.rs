//! The DAB mother convolutional code (K = 7, rate 1/4) and its hard-decision
//! Viterbi decoder.

use vstd::prelude::*;

verus! {

/// Convolutional code constraint length K.
pub const CONV_K: usize = 7;
/// Convolutional code rate denominator (rate = 1/4 mother code).
pub const CONV_RATE_DENOM: usize = 4;
/// Number of trellis states of the K = 7 left-shift encoder.
pub const VITERBI_STATES: usize = 128;

// ---------------------------------------------------------------------------
// Specification of the code
// ---------------------------------------------------------------------------

/// Parity of a byte: the XOR of its eight bits.
#[verifier::opaque]
pub open spec fn parity_spec(x: u8) -> bool {
    ((x ^ (x >> 1u8) ^ (x >> 2u8) ^ (x >> 3u8) ^ (x >> 4u8) ^ (x >> 5u8) ^ (x >> 6u8) ^ (x
        >> 7u8)) & 1u8) == 1u8
}

/// Generator polynomial `j` (octal 133, 171, 145, 133), ETSI EN 300 401 Table 8.
pub open spec fn generator(j: int) -> u8 {
    if j == 0 {
        91u8
    } else if j == 1 {
        121u8
    } else if j == 2 {
        101u8
    } else {
        91u8
    }
}

/// Output bit `j` of the encoder once its 7-bit shift register holds `reg`.
pub open spec fn out_bit(reg: u8, j: int) -> bool {
    parity_spec(reg & generator(j))
}

/// Shift register contents after shifting `b` in: `(2 * s + b) mod 128`.
pub open spec fn next_reg(s: u8, b: bool) -> u8 {
    ((2 * s + (if b { 1int } else { 0int })) % 128) as u8
}

/// Register contents after the first `k` bits of `bits` were shifted in,
/// starting from register `s0`.
pub open spec fn reg_after(s0: u8, bits: Seq<bool>, k: int) -> u8
    decreases k,
{
    if k <= 0 {
        s0
    } else {
        next_reg(reg_after(s0, bits, k - 1), bits[k - 1])
    }
}

/// The four coded bits emitted for register contents `reg`.
pub open spec fn out_symbol(reg: u8) -> Seq<bool> {
    seq![out_bit(reg, 0), out_bit(reg, 1), out_bit(reg, 2), out_bit(reg, 3)]
}

/// Rate-1/4 coded output of the encoder for the first `k` bits of `bits`,
/// starting from register `s0`.
pub open spec fn conv_code(s0: u8, bits: Seq<bool>, k: int) -> Seq<bool>
    decreases k,
{
    if k <= 0 {
        Seq::empty()
    } else {
        conv_code(s0, bits, k - 1) + out_symbol(reg_after(s0, bits, k))
    }
}

/// Coded output of a fresh encoder for all of `bits`.
pub open spec fn conv_encode(bits: Seq<bool>) -> Seq<bool> {
    conv_code(0, bits, bits.len() as int)
}

/// Whether received position `idx` takes part in the distance: always
/// without erasure mask, otherwise when the mask says it was not erased.
pub open spec fn counted(erased: Seq<bool>, masked: bool, idx: int) -> bool {
    !masked || (idx < erased.len() && !erased[idx])
}

/// Distance contribution of coded bit `j` of trellis step `k`.
pub open spec fn bit_cost(rx: Seq<bool>, erased: Seq<bool>, masked: bool, k: int, reg: u8, j: int) -> int {
    if rx[4 * k + j] != out_bit(reg, j) && counted(erased, masked, 4 * k + j) {
        1
    } else {
        0
    }
}

/// Hamming distance between received symbol `k` and the symbol emitted for `reg`.
pub open spec fn branch_cost(rx: Seq<bool>, erased: Seq<bool>, masked: bool, k: int, reg: u8) -> int {
    bit_cost(rx, erased, masked, k, reg, 0) + bit_cost(rx, erased, masked, k, reg, 1)
        + bit_cost(rx, erased, masked, k, reg, 2) + bit_cost(rx, erased, masked, k, reg, 3)
}

/// Hamming distance between the first `k` received symbols and the code
/// of the first `k` bits of path `p` (encoder starting from register 0).
pub open spec fn path_cost(rx: Seq<bool>, erased: Seq<bool>, masked: bool, p: Seq<bool>, k: int) -> int
    decreases k,
{
    if k <= 0 {
        0
    } else {
        path_cost(rx, erased, masked, p, k - 1) + branch_cost(
            rx,
            erased,
            masked,
            k - 1,
            reg_after(0, p, k),
        )
    }
}

/// Hard-decision distance of path `p` to all of `rx` (no erasures).
pub open spec fn hard_distance(rx: Seq<bool>, p: Seq<bool>) -> int {
    path_cost(rx, Seq::empty(), false, p, p.len() as int)
}

/// Distance of path `p` to `rx`, skipping positions flagged in `erased`.
pub open spec fn erased_distance(rx: Seq<bool>, erased: Seq<bool>, p: Seq<bool>) -> int {
    path_cost(rx, erased, true, p, p.len() as int)
}

// ---------------------------------------------------------------------------
// Bit-level helpers
// ---------------------------------------------------------------------------

/// Four bits packed into the low nibble of a byte (bit `j` = `bj`).
pub open spec fn pack4(b0: bool, b1: bool, b2: bool, b3: bool) -> u8 {
    ((if b0 { 1u8 } else { 0u8 }) | (if b1 { 2u8 } else { 0u8 }) | (if b2 { 4u8 } else { 0u8 }) | (
    if b3 { 8u8 } else { 0u8 }))
}

/// Packed form of the encoder output for register contents `reg`.
pub open spec fn packed_out(reg: u8) -> u8 {
    pack4(out_bit(reg, 0), out_bit(reg, 1), out_bit(reg, 2), out_bit(reg, 3))
}

pub(crate) fn parity(x: u8) -> (r: bool)
    ensures
        r == parity_spec(x),
{
    reveal(parity_spec);
    ((x ^ (x >> 1u8) ^ (x >> 2u8) ^ (x >> 3u8) ^ (x >> 4u8) ^ (x >> 5u8) ^ (x >> 6u8) ^ (x >> 7u8))
        & 1u8) == 1u8
}

fn pack_bits(b0: bool, b1: bool, b2: bool, b3: bool) -> (r: u8)
    ensures
        r == pack4(b0, b1, b2, b3),
{
    (if b0 { 1u8 } else { 0u8 }) | (if b1 { 2u8 } else { 0u8 }) | (if b2 { 4u8 } else { 0u8 }) | (
    if b3 { 8u8 } else { 0u8 })
}

/// Number of set bits among the low four bits of `x`.
fn popcount4(x: u8) -> (r: u32)
    ensures
        r == (x & 1u8) + ((x >> 1u8) & 1u8) + ((x >> 2u8) & 1u8) + ((x >> 3u8) & 1u8),
{
    let a: u8 = x & 1u8;
    let b: u8 = (x >> 1u8) & 1u8;
    let c: u8 = (x >> 2u8) & 1u8;
    let d: u8 = (x >> 3u8) & 1u8;
    assert(a <= 1 && b <= 1 && c <= 1 && d <= 1) by (bit_vector)
        requires
            a == x & 1u8,
            b == (x >> 1u8) & 1u8,
            c == (x >> 2u8) & 1u8,
            d == (x >> 3u8) & 1u8,
    ;
    (a + b + c + d) as u32
}

proof fn lemma_masked_distance(
    a0: bool,
    a1: bool,
    a2: bool,
    a3: bool,
    b0: bool,
    b1: bool,
    b2: bool,
    b3: bool,
    m0: bool,
    m1: bool,
    m2: bool,
    m3: bool,
)
    ensures
        ({
            let x = (pack4(a0, a1, a2, a3) ^ pack4(b0, b1, b2, b3)) & pack4(m0, m1, m2, m3);
            (x & 1u8) + ((x >> 1u8) & 1u8) + ((x >> 2u8) & 1u8) + ((x >> 3u8) & 1u8) == (if a0
                != b0 && m0 { 1int } else { 0int }) + (if a1 != b1 && m1 { 1int } else { 0int })
                + (if a2 != b2 && m2 { 1int } else { 0int }) + (if a3 != b3 && m3 {
                1int
            } else {
                0int
            })
        }),
{
    let x = (pack4(a0, a1, a2, a3) ^ pack4(b0, b1, b2, b3)) & pack4(m0, m1, m2, m3);
    assert((x & 1u8) == (if a0 != b0 && m0 { 1u8 } else { 0u8 })) by (bit_vector)
        requires
            x == (pack4(a0, a1, a2, a3) ^ pack4(b0, b1, b2, b3)) & pack4(m0, m1, m2, m3),
    ;
    assert(((x >> 1u8) & 1u8) == (if a1 != b1 && m1 { 1u8 } else { 0u8 })) by (bit_vector)
        requires
            x == (pack4(a0, a1, a2, a3) ^ pack4(b0, b1, b2, b3)) & pack4(m0, m1, m2, m3),
    ;
    assert(((x >> 2u8) & 1u8) == (if a2 != b2 && m2 { 1u8 } else { 0u8 })) by (bit_vector)
        requires
            x == (pack4(a0, a1, a2, a3) ^ pack4(b0, b1, b2, b3)) & pack4(m0, m1, m2, m3),
    ;
    assert(((x >> 3u8) & 1u8) == (if a3 != b3 && m3 { 1u8 } else { 0u8 })) by (bit_vector)
        requires
            x == (pack4(a0, a1, a2, a3) ^ pack4(b0, b1, b2, b3)) & pack4(m0, m1, m2, m3),
    ;
}

/// The packed masked XOR computed by the decoder counts exactly the
/// branch distance of the specification.
proof fn lemma_step_distance(
    rx: Seq<bool>,
    er: Seq<bool>,
    masked: bool,
    k: int,
    reg: u8,
    recv: u8,
    mask: u8,
    expected: u8,
    x: u8,
)
    requires
        0 <= k,
        4 * k + 3 < rx.len(),
        recv == pack4(rx[4 * k], rx[4 * k + 1], rx[4 * k + 2], rx[4 * k + 3]),
        mask == pack4(
            counted(er, masked, 4 * k),
            counted(er, masked, 4 * k + 1),
            counted(er, masked, 4 * k + 2),
            counted(er, masked, 4 * k + 3),
        ),
        expected == packed_out(reg),
        x == (recv ^ expected) & mask,
    ensures
        (x & 1u8) + ((x >> 1u8) & 1u8) + ((x >> 2u8) & 1u8) + ((x >> 3u8) & 1u8) == branch_cost(
            rx,
            er,
            masked,
            k,
            reg,
        ),
{
    lemma_masked_distance(
        rx[4 * k],
        rx[4 * k + 1],
        rx[4 * k + 2],
        rx[4 * k + 3],
        out_bit(reg, 0),
        out_bit(reg, 1),
        out_bit(reg, 2),
        out_bit(reg, 3),
        counted(er, masked, 4 * k),
        counted(er, masked, 4 * k + 1),
        counted(er, masked, 4 * k + 2),
        counted(er, masked, 4 * k + 3),
    );
}

proof fn lemma_next_reg_exec(s: u8, b: bool)
    ensures
        (((s << 1u8) | (if b { 1u8 } else { 0u8 })) & 127u8) == next_reg(s, b),
{
    let bb: u8 = if b { 1u8 } else { 0u8 };
    assert((((s << 1u8) | bb) & 127u8) == ((2 * s + bb) % 128) as u8) by (bit_vector)
        requires
            bb <= 1,
    ;
}

// ---------------------------------------------------------------------------
// Encoder
// ---------------------------------------------------------------------------

/// DAB mother convolutional encoder: K = 7, rate 1/4, generator polynomials
/// G1 = 133, G2 = 171, G3 = 145, G4 = 133 (octal), ETSI EN 300 401 §11.1.
pub struct DabConvEncoder {
    state: u8,
}

impl DabConvEncoder {
    /// The shift register contents.
    pub closed spec fn reg(&self) -> u8 {
        self.state
    }

    /// Create a new encoder with zero state.
    pub fn new() -> (e: Self)
        ensures
            e.reg() == 0,
    {
        DabConvEncoder { state: 0 }
    }

    /// Reset shift register state.
    pub fn reset(&mut self)
        ensures
            final(self).reg() == 0,
    {
        self.state = 0;
    }

    /// Encode input bits: each input bit is shifted in and produces four
    /// output bits, one per generator polynomial.
    pub fn encode(&mut self, bits: &[bool]) -> (out: Vec<bool>)
        requires
            bits.len() * 4 <= usize::MAX,
        ensures
            out@ == conv_code(old(self).reg(), bits@, bits@.len() as int),
            final(self).reg() == reg_after(old(self).reg(), bits@, bits@.len() as int),
    {
        let ghost s0 = self.state;
        let mut out: Vec<bool> = Vec::with_capacity(bits.len() * CONV_RATE_DENOM);
        let mut i: usize = 0;
        while i < bits.len()
            invariant
                i <= bits.len(),
                out@ == conv_code(s0, bits@, i as int),
                self.state == reg_after(s0, bits@, i as int),
            decreases bits.len() - i,
        {
            let b = bits[i];
            proof {
                lemma_next_reg_exec(self.state, b);
            }
            self.state = ((self.state << 1u8) | (if b { 1u8 } else { 0u8 })) & 127u8;
            let r = self.state;
            out.push(parity(r & 91u8));
            out.push(parity(r & 121u8));
            out.push(parity(r & 101u8));
            out.push(parity(r & 91u8));
            i = i + 1;
            assert(out@ =~= conv_code(s0, bits@, i as int));
        }
        out
    }

    /// Flush K-1 = 6 zero tail bits to terminate the trellis: afterwards
    /// the encoder codes every input as a fresh encoder does.
    pub fn flush(&mut self) -> (out: Vec<bool>)
        ensures
            out@ == conv_code(old(self).reg(), seq![false, false, false, false, false, false], 6),
            final(self).reg() == reg_after(
                old(self).reg(),
                seq![false, false, false, false, false, false],
                6,
            ),
            forall|x: Seq<bool>, k: int| 0 <= k <= x.len() ==> #[trigger] conv_code(final(self).reg(), x, k) == conv_code(0, x, k),
            forall|x: Seq<bool>, k: int| 1 <= k <= x.len() ==> #[trigger] reg_after(final(self).reg(), x, k) == reg_after(0, x, k),
    {
        let tail: Vec<bool> = vec![false, false, false, false, false, false];
        assert(tail@ =~= seq![false, false, false, false, false, false]);
        let out = self.encode(tail.as_slice());
        proof {
            assert forall|b: bool| #[trigger] next_reg(self.reg(), b) == next_reg(0, b) by {
                lemma_flushed_is_fresh(old(self).reg(), b);
            }
            assert forall|x: Seq<bool>, k: int| 1 <= k <= x.len() implies #[trigger] reg_after(self.reg(), x, k)
                == reg_after(0, x, k) by {
                lemma_same_after_first(self.reg(), x, k);
            }
            assert forall|x: Seq<bool>, k: int| 0 <= k <= x.len() implies #[trigger] conv_code(self.reg(), x, k)
                == conv_code(0, x, k) by {
                lemma_same_code(self.reg(), x, k);
            }
        }
        out
    }
}

/// After six zero bits only the oldest register bit can remain, and the
/// next shift drops it: the register then steps as an empty one does.
proof fn lemma_flushed_is_fresh(s: u8, b: bool)
    ensures
        next_reg(reg_after(s, seq![false, false, false, false, false, false], 6), b) == next_reg(0, b),
{
    let z = seq![false, false, false, false, false, false];
    reveal_with_fuel(reg_after, 7);
    let v1 = next_reg(s, false) as int;
    let v2 = next_reg(v1 as u8, false) as int;
    let v3 = next_reg(v2 as u8, false) as int;
    let v4 = next_reg(v3 as u8, false) as int;
    let v5 = next_reg(v4 as u8, false) as int;
    let v6 = next_reg(v5 as u8, false) as int;
    assert(v1 % 2 == 0) by (nonlinear_arith)
        requires
            v1 == (2 * s) % 128;
    assert(v2 % 4 == 0) by (nonlinear_arith)
        requires
            v2 == (2 * v1) % 128,
            v1 % 2 == 0;
    assert(v3 % 8 == 0) by (nonlinear_arith)
        requires
            v3 == (2 * v2) % 128,
            v2 % 4 == 0;
    assert(v4 % 16 == 0) by (nonlinear_arith)
        requires
            v4 == (2 * v3) % 128,
            v3 % 8 == 0;
    assert(v5 % 32 == 0) by (nonlinear_arith)
        requires
            v5 == (2 * v4) % 128,
            v4 % 16 == 0;
    assert(v6 % 64 == 0) by (nonlinear_arith)
        requires
            v6 == (2 * v5) % 128,
            v5 % 32 == 0;
    assert(reg_after(s, z, 6) as int == v6);
    assert(v6 == 0 || v6 == 64);
}

/// Registers that step alike on their first input agree from then on.
proof fn lemma_same_after_first(r: u8, x: Seq<bool>, k: int)
    requires
        1 <= k,
        forall|b: bool| #[trigger] next_reg(r, b) == next_reg(0, b),
    ensures
        reg_after(r, x, k) == reg_after(0, x, k),
    decreases k,
{
    if k > 1 {
        lemma_same_after_first(r, x, k - 1);
    } else {
        let b = x[0];
        assert(reg_after(r, x, 0) == r);
        assert(reg_after(0u8, x, 0) == 0u8);
        assert(next_reg(r, b) == next_reg(0, b));
        assert(reg_after(r, x, 1) == next_reg(r, b));
        assert(reg_after(0u8, x, 1) == next_reg(0u8, b));
    }
}

/// Registers that step alike on their first input emit the same code.
proof fn lemma_same_code(r: u8, x: Seq<bool>, k: int)
    requires
        0 <= k,
        forall|b: bool| #[trigger] next_reg(r, b) == next_reg(0, b),
    ensures
        conv_code(r, x, k) == conv_code(0, x, k),
    decreases k,
{
    if k > 0 {
        lemma_same_code(r, x, k - 1);
        lemma_same_after_first(r, x, k);
    }
}

impl Default for DabConvEncoder {
    fn default() -> (e: Self)
        ensures
            e.reg() == 0,
    {
        Self::new()
    }
}


// ---------------------------------------------------------------------------
// Lemmas about the code
// ---------------------------------------------------------------------------

proof fn lemma_branch_cost_bounds(rx: Seq<bool>, erased: Seq<bool>, masked: bool, k: int, reg: u8)
    ensures
        0 <= branch_cost(rx, erased, masked, k, reg) <= 4,
{
}

/// The distance of a path prefix is between 0 and 4 per step, and grows with `k`.
proof fn lemma_path_cost_bounds(rx: Seq<bool>, erased: Seq<bool>, masked: bool, p: Seq<bool>, k: int)
    requires
        k >= 0,
    ensures
        0 <= path_cost(rx, erased, masked, p, k) <= 4 * k,
    decreases k,
{
    if k > 0 {
        lemma_path_cost_bounds(rx, erased, masked, p, k - 1);
        lemma_branch_cost_bounds(rx, erased, masked, k - 1, reg_after(0, p, k));
    }
}

/// Register contents and distance only depend on the first `k` bits of a path.
proof fn lemma_prefix_agree(rx: Seq<bool>, erased: Seq<bool>, masked: bool, p1: Seq<bool>, p2: Seq<bool>, k: int)
    requires
        0 <= k,
        forall|j: int| 0 <= j < k ==> p1[j] == p2[j],
    ensures
        reg_after(0, p1, k) == reg_after(0, p2, k),
        path_cost(rx, erased, masked, p1, k) == path_cost(rx, erased, masked, p2, k),
    decreases k,
{
    if k > 0 {
        lemma_prefix_agree(rx, erased, masked, p1, p2, k - 1);
    }
}

/// Layout of the coded stream: symbol `j` holds the four output bits of the
/// register after the `j + 1`-th input bit.
proof fn lemma_conv_code_index(s0: u8, bits: Seq<bool>, k: int)
    requires
        k >= 0,
    ensures
        conv_code(s0, bits, k).len() == 4 * k,
        forall|j: int, i: int|
            0 <= j < k && 0 <= i < 4 ==> #[trigger] conv_code(s0, bits, k)[4 * j + i] == out_bit(
                reg_after(s0, bits, j + 1),
                i,
            ),
    decreases k,
{
    if k > 0 {
        lemma_conv_code_index(s0, bits, k - 1);
        let prev = conv_code(s0, bits, k - 1);
        let cur = conv_code(s0, bits, k);
        assert forall|j: int, i: int| 0 <= j < k && 0 <= i < 4 implies #[trigger] cur[4 * j + i]
            == out_bit(reg_after(s0, bits, j + 1), i) by {
            if j < k - 1 {
                assert(cur[4 * j + i] == prev[4 * j + i]);
            }
        }
    }
}

/// The clean code of `data` is at distance zero from `data`.
proof fn lemma_clean_cost_zero(data: Seq<bool>, k: int)
    requires
        0 <= k <= data.len(),
    ensures
        path_cost(conv_encode(data), Seq::empty(), false, data, k) == 0,
    decreases k,
{
    lemma_conv_code_index(0, data, data.len() as int);
    if k > 0 {
        lemma_clean_cost_zero(data, k - 1);
        let rx = conv_encode(data);
        let r = reg_after(0, data, k);
        assert(rx[4 * (k - 1) + 0] == out_bit(r, 0));
        assert(rx[4 * (k - 1) + 1] == out_bit(r, 1));
        assert(rx[4 * (k - 1) + 2] == out_bit(r, 2));
        assert(rx[4 * (k - 1) + 3] == out_bit(r, 3));
    }
}

/// Every generator taps the newest register bit, so each coded bit of a
/// step flips with the input bit once the previous register is known.
proof fn lemma_input_flips_outputs(s: u8)
    ensures
        forall|i: int| 0 <= i < 4 ==> #[trigger] out_bit(next_reg(s, true), i) != out_bit(next_reg(s, false), i),
        forall|i: int| 0 <= i < 4 ==> !#[trigger] out_bit(0u8, i),
{
    lemma_next_reg_exec(s, true);
    lemma_next_reg_exec(s, false);
    reveal(parity_spec);
    assert(parity_spec(((s << 1u8) | 1u8) & 127u8 & 91u8) != parity_spec(((s << 1u8) | 0u8) & 127u8 & 91u8)
        && parity_spec(((s << 1u8) | 1u8) & 127u8 & 121u8) != parity_spec(((s << 1u8) | 0u8) & 127u8 & 121u8)
        && parity_spec(((s << 1u8) | 1u8) & 127u8 & 101u8) != parity_spec(((s << 1u8) | 0u8) & 127u8
        & 101u8) && !parity_spec(0u8 & 91u8) && !parity_spec(0u8 & 121u8) && !parity_spec(0u8 & 101u8))
        by (bit_vector);
}

/// From the zero register, all-zero input keeps the register at zero.
proof fn lemma_zero_input_register(x: Seq<bool>, k: int)
    requires
        0 <= k <= x.len(),
        forall|i: int| 0 <= i < x.len() ==> !#[trigger] x[i],
    ensures
        reg_after(0, x, k) == 0,
    decreases k,
{
    if k > 0 {
        lemma_zero_input_register(x, k - 1);
        assert(!x[k - 1]);
    }
}

/// A fresh encoder turns all-zero input into all-zero output.
pub proof fn lemma_zero_input_zero_code(x: Seq<bool>)
    requires
        forall|i: int| 0 <= i < x.len() ==> !#[trigger] x[i],
    ensures
        conv_encode(x).len() == 4 * x.len(),
        forall|q: int| 0 <= q < conv_encode(x).len() ==> !#[trigger] conv_encode(x)[q],
{
    lemma_conv_code_index(0, x, x.len() as int);
    lemma_input_flips_outputs(0);
    assert forall|q: int| 0 <= q < conv_encode(x).len() implies !#[trigger] conv_encode(x)[q] by {
        let j = q / 4;
        let i = q % 4;
        assert(q == 4 * j + i);
        lemma_zero_input_register(x, j + 1);
        assert(conv_encode(x)[4 * j + i] == out_bit(reg_after(0, x, j + 1), i));
    }
}

proof fn lemma_zero_cost_prefix(rx: Seq<bool>, p: Seq<bool>, k: int, n: int)
    requires
        0 <= k <= n,
        path_cost(rx, Seq::empty(), false, p, n) == 0,
    ensures
        path_cost(rx, Seq::empty(), false, p, k) == 0,
    decreases n - k,
{
    if k < n {
        lemma_zero_cost_prefix(rx, p, k + 1, n);
        lemma_path_cost_bounds(rx, Seq::empty(), false, p, k);
        lemma_branch_cost_bounds(rx, Seq::empty(), false, k, reg_after(0, p, k + 1));
    }
}

/// A path at distance zero from the clean code of `data` agrees with `data`.
proof fn lemma_zero_cost_path_agrees(data: Seq<bool>, p: Seq<bool>, k: int)
    requires
        0 <= k <= data.len(),
        p.len() == data.len(),
        path_cost(conv_encode(data), Seq::empty(), false, p, data.len() as int) == 0,
    ensures
        forall|j: int| 0 <= j < k ==> p[j] == data[j],
        reg_after(0, p, k) == reg_after(0, data, k),
    decreases k,
{
    if k > 0 {
        lemma_zero_cost_path_agrees(data, p, k - 1);
        let rx = conv_encode(data);
        lemma_zero_cost_prefix(rx, p, k, data.len() as int);
        lemma_path_cost_bounds(rx, Seq::empty(), false, p, k - 1);
        lemma_conv_code_index(0, data, data.len() as int);
        let s = reg_after(0, data, k - 1);
        assert(rx[4 * (k - 1) + 0] == out_bit(reg_after(0, data, k), 0));
        lemma_input_flips_outputs(s);
        assert(out_bit(next_reg(s, true), 0) != out_bit(next_reg(s, false), 0));
        assert(p[k - 1] == data[k - 1]);
    }
}

/// A maximum-likelihood path for the clean code of `data` is `data` itself:
/// every path at least as close to `conv_encode(data)` as `data` equals `data`.
pub proof fn lemma_clean_code_has_unique_nearest_path(data: Seq<bool>, p: Seq<bool>)
    requires
        p.len() == data.len(),
        hard_distance(conv_encode(data), p) <= hard_distance(conv_encode(data), data),
    ensures
        p == data,
{
    lemma_clean_cost_zero(data, data.len() as int);
    lemma_path_cost_bounds(conv_encode(data), Seq::empty(), false, p, data.len() as int);
    lemma_zero_cost_path_agrees(data, p, data.len() as int);
    assert(p =~= data);
}

/// `rx` with bit `q` flipped.
pub open spec fn flipped(rx: Seq<bool>, q: int) -> Seq<bool> {
    rx.update(q, !rx[q])
}

/// A path's distance only grows along the received stream.
proof fn lemma_path_cost_monotone(rx: Seq<bool>, p: Seq<bool>, k: int, n: int)
    requires
        0 <= k <= n,
    ensures
        path_cost(rx, Seq::empty(), false, p, k) <= path_cost(rx, Seq::empty(), false, p, n),
    decreases n - k,
{
    if k < n {
        lemma_path_cost_monotone(rx, p, k, n - 1);
        lemma_branch_cost_bounds(rx, Seq::empty(), false, n - 1, reg_after(0, p, n));
    }
}

/// The first place where two sequences of one length, equal up to `i`,
/// differ, given that they differ somewhere from `i` on.
proof fn lemma_first_difference(a: Seq<bool>, b: Seq<bool>, i: int) -> (j: int)
    requires
        a.len() == b.len(),
        0 <= i <= a.len(),
        forall|t: int| 0 <= t < i ==> a[t] == b[t],
        exists|t: int| i <= t < a.len() && a[t] != b[t],
    ensures
        i <= j < a.len(),
        a[j] != b[j],
        forall|t: int| 0 <= t < j ==> a[t] == b[t],
    decreases a.len() - i,
{
    if a[i] != b[i] {
        i
    } else {
        lemma_first_difference(a, b, i + 1)
    }
}

/// The codes of two different paths of one length are at distance at least
/// four: where the paths first part, all four coded bits differ.
proof fn lemma_distinct_paths_far(data: Seq<bool>, p: Seq<bool>)
    requires
        p.len() == data.len(),
        p != data,
    ensures
        hard_distance(conv_encode(data), p) >= 4,
{
    let n = data.len() as int;
    let rx = conv_encode(data);
    assert(exists|t: int| 0 <= t < n && p[t] != data[t]) by {
        if forall|t: int| 0 <= t < n ==> p[t] == data[t] {
            assert(p =~= data);
        }
    }
    let j = lemma_first_difference(p, data, 0);
    lemma_prefix_agree(rx, Seq::empty(), false, p, data, j);
    lemma_conv_code_index(0, data, n);
    let s = reg_after(0, data, j);
    lemma_input_flips_outputs(s);
    let r = reg_after(0, p, j + 1);
    assert forall|i: int| 0 <= i < 4 implies #[trigger] bit_cost(rx, Seq::empty(), false, j, r, i) == 1 by {
        assert(rx[4 * j + i] == out_bit(reg_after(0, data, j + 1), i));
        assert(out_bit(next_reg(s, true), i) != out_bit(next_reg(s, false), i));
    }
    assert(branch_cost(rx, Seq::empty(), false, j, r) == 4);
    lemma_path_cost_bounds(rx, Seq::empty(), false, p, j);
    lemma_path_cost_monotone(rx, p, j + 1, n);
}

/// Flipping one received bit changes a path's distance by at most one, and
/// not at all before the symbol that holds the bit.
proof fn lemma_flip_cost(rx: Seq<bool>, q: int, p: Seq<bool>, k: int)
    requires
        0 <= q < rx.len(),
        0 <= k,
        4 * k <= rx.len(),
    ensures
        -1 <= path_cost(flipped(rx, q), Seq::empty(), false, p, k) - path_cost(rx, Seq::empty(), false, p, k)
            <= 1,
        4 * k <= q ==> path_cost(flipped(rx, q), Seq::empty(), false, p, k) == path_cost(
            rx,
            Seq::empty(),
            false,
            p,
            k,
        ),
    decreases k,
{
    if k > 0 {
        lemma_flip_cost(rx, q, p, k - 1);
        let rx2 = flipped(rx, q);
        let r = reg_after(0, p, k);
        let m = k - 1;
        assert forall|i: int| 0 <= i < 4 && 4 * m + i != q implies #[trigger] bit_cost(
            rx2,
            Seq::empty(),
            false,
            m,
            r,
            i,
        ) == bit_cost(rx, Seq::empty(), false, m, r, i) by {
            assert(rx2[4 * m + i] == rx[4 * m + i]);
        }
        assert(bit_cost(rx2, Seq::empty(), false, m, r, 0) == bit_cost(rx, Seq::empty(), false, m, r, 0) || 4
            * m == q);
    }
}

/// Decoding tolerates one flipped bit: a path at least as close as `data`
/// to the code of `data` with any one bit flipped is `data` itself.
pub proof fn lemma_single_flip_has_unique_nearest_path(data: Seq<bool>, q: int, p: Seq<bool>)
    requires
        0 <= q < 4 * data.len(),
        p.len() == data.len(),
        hard_distance(flipped(conv_encode(data), q), p) <= hard_distance(flipped(conv_encode(data), q), data),
    ensures
        p == data,
{
    let n = data.len() as int;
    let rx = conv_encode(data);
    lemma_conv_code_index(0, data, n);
    lemma_clean_cost_zero(data, n);
    lemma_flip_cost(rx, q, data, n);
    lemma_flip_cost(rx, q, p, n);
    if p != data {
        lemma_distinct_paths_far(data, p);
    }
}

/// Whether symbol `k` keeps at least one bit that counts under the mask.
pub open spec fn symbol_counted(erased: Seq<bool>, k: int) -> bool {
    counted(erased, true, 4 * k) || counted(erased, true, 4 * k + 1) || counted(erased, true, 4 * k + 2)
        || counted(erased, true, 4 * k + 3)
}

/// Whether `rx` agrees with the code of `d` at every bit that counts.
pub open spec fn agrees_where_counted(rx: Seq<bool>, erased: Seq<bool>, d: Seq<bool>) -> bool {
    forall|i: int| 0 <= i < 4 * d.len() && counted(erased, true, i) ==> #[trigger] rx[i] == conv_encode(d)[i]
}

/// A path whose code agrees with `rx` wherever bits count is at distance
/// zero under the mask.
proof fn lemma_agreeing_cost_zero(rx: Seq<bool>, erased: Seq<bool>, d: Seq<bool>, k: int)
    requires
        0 <= k <= d.len(),
        agrees_where_counted(rx, erased, d),
    ensures
        path_cost(rx, erased, true, d, k) == 0,
    decreases k,
{
    lemma_conv_code_index(0, d, d.len() as int);
    if k > 0 {
        lemma_agreeing_cost_zero(rx, erased, d, k - 1);
        let m = k - 1;
        let r = reg_after(0, d, k);
        assert forall|i: int| 0 <= i < 4 implies #[trigger] bit_cost(rx, erased, true, m, r, i) == 0 by {
            if counted(erased, true, 4 * m + i) {
                assert(rx[4 * m + i] == conv_encode(d)[4 * m + i]);
            }
        }
    }
}

/// Erasure decoding cannot mistake a path: when the received bits agree
/// with the code of `data` wherever they count, and every symbol keeps a
/// bit that counts, a path at least as close as `data` is `data` itself.
pub proof fn lemma_erased_clean_has_unique_nearest_path(rx: Seq<bool>, erased: Seq<bool>, data: Seq<bool>, p: Seq<bool>)
    requires
        p.len() == data.len(),
        agrees_where_counted(rx, erased, data),
        forall|k: int| 0 <= k < data.len() ==> #[trigger] symbol_counted(erased, k),
        erased_distance(rx, erased, p) <= erased_distance(rx, erased, data),
    ensures
        p == data,
{
    let n = data.len() as int;
    lemma_agreeing_cost_zero(rx, erased, data, n);
    if p != data {
        assert(exists|t: int| 0 <= t < n && p[t] != data[t]) by {
            if forall|t: int| 0 <= t < n ==> p[t] == data[t] {
                assert(p =~= data);
            }
        }
        let j = lemma_first_difference(p, data, 0);
        lemma_prefix_agree(rx, erased, true, p, data, j);
        lemma_conv_code_index(0, data, n);
        let s = reg_after(0, data, j);
        lemma_input_flips_outputs(s);
        let r = reg_after(0, p, j + 1);
        assert(symbol_counted(erased, j));
        assert(exists|i: int| 0 <= i < 4 && #[trigger] bit_cost(rx, erased, true, j, r, i) == 1) by {
            let i = if counted(erased, true, 4 * j) {
                0
            } else if counted(erased, true, 4 * j + 1) {
                1
            } else if counted(erased, true, 4 * j + 2) {
                2
            } else {
                3
            };
            assert(rx[4 * j + i] == conv_encode(data)[4 * j + i]);
            assert(out_bit(next_reg(s, true), i) != out_bit(next_reg(s, false), i));
            assert(bit_cost(rx, erased, true, j, r, i) == 1);
        }
        assert(branch_cost(rx, erased, true, j, r) >= 1);
        lemma_path_cost_bounds(rx, erased, true, p, j);
        lemma_masked_cost_monotone(rx, erased, p, j + 1, n);
    }
}

/// A path's masked distance only grows along the received stream.
proof fn lemma_masked_cost_monotone(rx: Seq<bool>, erased: Seq<bool>, p: Seq<bool>, k: int, n: int)
    requires
        0 <= k <= n,
    ensures
        path_cost(rx, erased, true, p, k) <= path_cost(rx, erased, true, p, n),
    decreases n - k,
{
    if k < n {
        lemma_masked_cost_monotone(rx, erased, p, k, n - 1);
        lemma_branch_cost_bounds(rx, erased, true, n - 1, reg_after(0, p, n));
    }
}

// ---------------------------------------------------------------------------
// Viterbi decoder
// ---------------------------------------------------------------------------

/// Path recorded by the traceback tables: the survivor path that ends in
/// state `s` after `k` steps.
pub open spec fn trace(tbi: Seq<Vec<u8>>, tbp: Seq<Vec<u16>>, k: int, s: int) -> Seq<bool>
    decreases k,
{
    if k <= 0 {
        Seq::empty()
    } else {
        trace(tbi, tbp, k - 1, tbp[k - 1]@[s] as int).push(tbi[k - 1]@[s] != 0u8)
    }
}

proof fn lemma_trace_frame(
    tbi1: Seq<Vec<u8>>,
    tbp1: Seq<Vec<u16>>,
    tbi2: Seq<Vec<u8>>,
    tbp2: Seq<Vec<u16>>,
    k: int,
    s: int,
)
    requires
        0 <= k,
        forall|j: int| 0 <= j < k ==> #[trigger] tbi1[j]@ == tbi2[j]@ && tbp1[j]@ == tbp2[j]@,
    ensures
        trace(tbi1, tbp1, k, s) == trace(tbi2, tbp2, k, s),
    decreases k,
{
    if k > 0 {
        assert(tbi1[k - 1]@ == tbi2[k - 1]@ && tbp1[k - 1]@ == tbp2[k - 1]@);
        lemma_trace_frame(tbi1, tbp1, tbi2, tbp2, k - 1, tbp1[k - 1]@[s] as int);
    }
}

proof fn lemma_trace_len(tbi: Seq<Vec<u8>>, tbp: Seq<Vec<u16>>, k: int, s: int)
    requires
        0 <= k,
    ensures
        trace(tbi, tbp, k, s).len() == k,
    decreases k,
{
    if k > 0 {
        lemma_trace_len(tbi, tbp, k - 1, tbp[k - 1]@[s] as int);
    }
}

/// The Viterbi recursion invariant carries over one trellis step: every
/// reachable state's metric is the distance of its survivor path, and no
/// path reaches a state more cheaply.
proof fn lemma_step_invariant(
    rx: Seq<bool>,
    er: Seq<bool>,
    masked: bool,
    k: int,
    old_metric: Seq<u32>,
    metric: Seq<u32>,
    old_tbi: Seq<Vec<u8>>,
    old_tbp: Seq<Vec<u16>>,
    tbi: Seq<Vec<u8>>,
    tbp: Seq<Vec<u16>>,
)
    requires
        0 <= k,
        old_metric.len() == 128,
        metric.len() == 128,
        old_tbi.len() == k,
        old_tbp.len() == k,
        4 * k + 3 < 0x7fff_ffff,
        tbi.len() == k + 1,
        tbp.len() == k + 1,
        tbi == old_tbi.push(tbi[k]),
        tbp == old_tbp.push(tbp[k]),
        tbi[k].len() == 128,
        tbp[k].len() == 128,
        forall|ns: int| 0 <= ns < 128 ==> #[trigger] tbp[k]@[ns] < 128,
        forall|s: int|
            0 <= s < 128 && #[trigger] old_metric[s] != INF ==> ({
                let t = trace(old_tbi, old_tbp, k, s);
                &&& old_metric[s] <= 4 * k
                &&& t.len() == k
                &&& reg_after(0, t, k) == s
                &&& path_cost(rx, er, masked, t, k) == old_metric[s]
            }),
        forall|p: Seq<bool>|
            p.len() >= k ==> old_metric[reg_after(0, p, k) as int] <= #[trigger] path_cost(
                rx,
                er,
                masked,
                p,
                k,
            ),
        forall|ns: int|
            0 <= ns < 128 && #[trigger] metric[ns] != INF ==> {
                let ps = tbp[k]@[ns] as int;
                &&& old_metric[ps] != INF
                &&& ns == next_reg(ps as u8, tbi[k]@[ns] != 0u8)
                &&& metric[ns] == old_metric[ps] + branch_cost(rx, er, masked, k, ns as u8)
            },
        forall|s: int, b: bool|
            0 <= s < 128 && old_metric[s] != INF ==> metric[next_reg(s as u8, b) as int]
                <= old_metric[s] + #[trigger] branch_cost(rx, er, masked, k, next_reg(s as u8, b)),
    ensures
        forall|s: int|
            0 <= s < 128 && #[trigger] metric[s] != INF ==> ({
                let t = trace(tbi, tbp, k + 1, s);
                &&& metric[s] <= 4 * (k + 1)
                &&& t.len() == k + 1
                &&& reg_after(0, t, k + 1) == s
                &&& path_cost(rx, er, masked, t, k + 1) == metric[s]
            }),
        forall|p: Seq<bool>|
            p.len() >= k + 1 ==> metric[reg_after(0, p, k + 1) as int] <= #[trigger] path_cost(
                rx,
                er,
                masked,
                p,
                k + 1,
            ),
{
    assert forall|s: int| 0 <= s < 128 && #[trigger] metric[s] != INF implies ({
        let t = trace(tbi, tbp, k + 1, s);
        &&& metric[s] <= 4 * (k + 1)
        &&& t.len() == k + 1
        &&& reg_after(0, t, k + 1) == s
        &&& path_cost(rx, er, masked, t, k + 1) == metric[s]
    }) by {
        let ps = tbp[k]@[s] as int;
        let b = tbi[k]@[s] != 0u8;
        assert forall|j: int| 0 <= j < k implies #[trigger] tbi[j]@ == old_tbi[j]@ && tbp[j]@
            == old_tbp[j]@ by {
            assert(tbi[j] == old_tbi[j]);
            assert(tbp[j] == old_tbp[j]);
        }
        lemma_trace_frame(tbi, tbp, old_tbi, old_tbp, k, ps);
        let q = trace(old_tbi, old_tbp, k, ps);
        let t = trace(tbi, tbp, k + 1, s);
        assert(t == q.push(b));
        lemma_prefix_agree(rx, er, masked, t, q, k);
        lemma_branch_cost_bounds(rx, er, masked, k, s as u8);
    }
    assert forall|p: Seq<bool>| p.len() >= k + 1 implies metric[reg_after(0, p, k + 1) as int]
        <= #[trigger] path_cost(rx, er, masked, p, k + 1) by {
        let s = reg_after(0, p, k);
        assert(old_metric[s as int] <= path_cost(rx, er, masked, p, k));
        lemma_path_cost_bounds(rx, er, masked, p, k);
        let si: int = s as int;
        assert(si as u8 == s);
        assert(old_metric[si] != INF);
        let ns = next_reg(si as u8, p[k]);
        assert(metric[ns as int] <= old_metric[si] + branch_cost(rx, er, masked, k, ns));
    }
}

/// Metric of a state that no path reaches yet.
pub const INF: u32 = 0x7fff_ffffu32;

/// Number of counted positions `j < n` at which `a` and `b` differ.
pub open spec fn mismatches(a: Seq<bool>, b: Seq<bool>, erased: Seq<bool>, masked: bool, n: int) -> int
    decreases n,
{
    if n <= 0 {
        0
    } else {
        mismatches(a, b, erased, masked, n - 1) + if a[n - 1] != b[n - 1] && counted(erased, masked, n - 1) {
            1int
        } else {
            0int
        }
    }
}

/// The decoder's path distance is a plain count: the number of counted
/// received bits that differ from the path's code, so `hard_distance` is
/// the Hamming distance between `rx` and `conv_encode(p)` over the first
/// `4 * p.len()` bits, and `erased_distance` the same count over the bits
/// that are not erased.
pub proof fn lemma_path_cost_counts_mismatches(rx: Seq<bool>, erased: Seq<bool>, masked: bool, p: Seq<bool>)
    requires
        rx.len() >= 4 * p.len(),
    ensures
        path_cost(rx, erased, masked, p, p.len() as int) == mismatches(
            rx,
            conv_encode(p),
            erased,
            masked,
            4 * p.len() as int,
        ),
{
    lemma_conv_code_index(0, p, p.len() as int);
    lemma_path_cost_prefix_counts(rx, erased, masked, p, p.len() as int);
}

/// The count holds for every prefix of `k` trellis steps.
proof fn lemma_path_cost_prefix_counts(rx: Seq<bool>, erased: Seq<bool>, masked: bool, p: Seq<bool>, k: int)
    requires
        0 <= k <= p.len(),
        rx.len() >= 4 * p.len(),
        conv_encode(p).len() == 4 * p.len(),
        forall|j: int, i: int|
            0 <= j < p.len() && 0 <= i < 4 ==> #[trigger] conv_encode(p)[4 * j + i] == out_bit(
                reg_after(0, p, j + 1),
                i,
            ),
    ensures
        path_cost(rx, erased, masked, p, k) == mismatches(rx, conv_encode(p), erased, masked, 4 * k),
    decreases k,
{
    if k > 0 {
        lemma_path_cost_prefix_counts(rx, erased, masked, p, k - 1);
        let c = conv_encode(p);
        let r = reg_after(0, p, k);
        let b = 4 * (k - 1);
        assert(c[b + 0] == out_bit(r, 0));
        assert(c[b + 1] == out_bit(r, 1));
        assert(c[b + 2] == out_bit(r, 2));
        assert(c[b + 3] == out_bit(r, 3));
        assert(mismatches(rx, c, erased, masked, b + 1) == mismatches(rx, c, erased, masked, b) + bit_cost(
            rx,
            erased,
            masked,
            k - 1,
            r,
            0,
        ));
        assert(mismatches(rx, c, erased, masked, b + 2) == mismatches(rx, c, erased, masked, b + 1)
            + bit_cost(rx, erased, masked, k - 1, r, 1));
        assert(mismatches(rx, c, erased, masked, b + 3) == mismatches(rx, c, erased, masked, b + 2)
            + bit_cost(rx, erased, masked, k - 1, r, 2));
        assert(mismatches(rx, c, erased, masked, b + 4) == mismatches(rx, c, erased, masked, b + 3)
            + bit_cost(rx, erased, masked, k - 1, r, 3));
    }
}

/// Survivor tables of one trellis step: per state, the path metric, the
/// input bit of the survivor's last transition and its previous state.
pub type TrellisStep = (Seq<u32>, Seq<u8>, Seq<u16>);

/// Relaxing the transition out of state `s` on input `b` in trellis step
/// `k`: it replaces the survivor of the state it leads to only when it is
/// strictly cheaper, so on equal metrics the earlier survivor stays.
pub open spec fn relax_step(
    rx: Seq<bool>,
    er: Seq<bool>,
    masked: bool,
    k: int,
    metric: Seq<u32>,
    acc: TrellisStep,
    s: int,
    b: int,
) -> TrellisStep {
    let ns = next_reg(s as u8, b == 1) as int;
    let m = metric[s] + branch_cost(rx, er, masked, k, ns as u8);
    if metric[s] != INF && m < acc.0[ns] {
        (acc.0.update(ns, m as u32), acc.1.update(ns, b as u8), acc.2.update(ns, s as u16))
    } else {
        acc
    }
}

/// Trellis step `k` after its first `t` transitions, taken in the order
/// state 0 input 0, state 0 input 1, state 1 input 0, and so on.
pub open spec fn step_partial(rx: Seq<bool>, er: Seq<bool>, masked: bool, k: int, metric: Seq<u32>, t: nat) -> TrellisStep
    decreases t,
{
    if t == 0 {
        (Seq::new(128, |i: int| INF), Seq::new(128, |i: int| 0u8), Seq::new(128, |i: int| 0u16))
    } else {
        relax_step(
            rx,
            er,
            masked,
            k,
            metric,
            step_partial(rx, er, masked, k, metric, (t - 1) as nat),
            (t - 1) / 2,
            (t - 1) % 2,
        )
    }
}

/// The path metrics after `k` trellis steps (register 0 at the start).
pub open spec fn metrics_after(rx: Seq<bool>, er: Seq<bool>, masked: bool, k: nat) -> Seq<u32>
    decreases k,
{
    if k == 0 {
        Seq::new(128, |i: int| if i == 0 { 0u32 } else { INF })
    } else {
        step_partial(rx, er, masked, k - 1, metrics_after(rx, er, masked, (k - 1) as nat), 256).0
    }
}

/// The survivor tables of trellis step `k`.
pub open spec fn survivors(rx: Seq<bool>, er: Seq<bool>, masked: bool, k: nat) -> TrellisStep {
    step_partial(rx, er, masked, k as int, metrics_after(rx, er, masked, k), 256)
}

/// The survivor path that ends in state `s` after `k` steps.
pub open spec fn survivor_path(rx: Seq<bool>, er: Seq<bool>, masked: bool, k: nat, s: int) -> Seq<bool>
    decreases k,
{
    if k == 0 {
        Seq::empty()
    } else {
        let row = survivors(rx, er, masked, (k - 1) as nat);
        survivor_path(rx, er, masked, (k - 1) as nat, row.2[s] as int).push(row.1[s] != 0u8)
    }
}

/// The first of the states `0 .. n` with the least metric.
pub open spec fn first_least(metric: Seq<u32>, n: nat) -> int
    decreases n,
{
    if n <= 1 {
        0
    } else {
        let b = first_least(metric, (n - 1) as nat);
        if metric[n - 1] < metric[b] {
            n - 1
        } else {
            b
        }
    }
}

/// The path the Viterbi decoder returns: the survivor that ends, after the
/// last full symbol, in the first state of least metric.
pub open spec fn viterbi_path(rx: Seq<bool>, er: Seq<bool>, masked: bool) -> Seq<bool> {
    let n = rx.len() / 4;
    survivor_path(rx, er, masked, n, first_least(metrics_after(rx, er, masked, n), 128))
}

/// The traceback tables hold the survivor tables, so tracing them back
/// follows the survivor path.
proof fn lemma_trace_is_survivor_path(
    rx: Seq<bool>,
    er: Seq<bool>,
    masked: bool,
    tbi: Seq<Vec<u8>>,
    tbp: Seq<Vec<u16>>,
    k: nat,
    s: int,
)
    requires
        forall|j: int|
            0 <= j < k ==> #[trigger] tbi[j]@ == survivors(rx, er, masked, j as nat).1 && tbp[j]@ == survivors(
                rx,
                er,
                masked,
                j as nat,
            ).2,
    ensures
        trace(tbi, tbp, k as int, s) == survivor_path(rx, er, masked, k, s),
    decreases k,
{
    if k > 0 {
        let j = k - 1;
        assert(tbi[j]@ == survivors(rx, er, masked, j as nat).1 && tbp[j]@ == survivors(rx, er, masked, j as nat).2);
        lemma_trace_is_survivor_path(rx, er, masked, tbi, tbp, (k - 1) as nat, tbp[j]@[s] as int);
    }
}

/// The two transitions out of state `s` are relaxed one after the other;
/// out of a state that no path reaches, neither changes anything.
proof fn lemma_step_partial_pair(rx: Seq<bool>, er: Seq<bool>, masked: bool, k: int, metric: Seq<u32>, s: int)
    requires
        0 <= s,
    ensures
        step_partial(rx, er, masked, k, metric, (2 * s + 1) as nat) == relax_step(
            rx,
            er,
            masked,
            k,
            metric,
            step_partial(rx, er, masked, k, metric, (2 * s) as nat),
            s,
            0,
        ),
        step_partial(rx, er, masked, k, metric, (2 * s + 2) as nat) == relax_step(
            rx,
            er,
            masked,
            k,
            metric,
            step_partial(rx, er, masked, k, metric, (2 * s + 1) as nat),
            s,
            1,
        ),
        metric[s] == INF ==> step_partial(rx, er, masked, k, metric, (2 * s + 2) as nat) == step_partial(
            rx,
            er,
            masked,
            k,
            metric,
            (2 * s) as nat,
        ),
{
    assert((2 * s) / 2 == s && (2 * s) % 2 == 0);
    assert((2 * s + 1) / 2 == s && (2 * s + 1) % 2 == 1);
}

/// Masks that count the same received positions give the same trellis.
proof fn lemma_same_counting_steps(rx: Seq<bool>, er1: Seq<bool>, m1: bool, er2: Seq<bool>, m2: bool, k: nat)
    requires
        k <= rx.len() / 4,
        forall|i: int| 0 <= i < rx.len() ==> #[trigger] counted(er1, m1, i) == counted(er2, m2, i),
    ensures
        metrics_after(rx, er1, m1, k) == metrics_after(rx, er2, m2, k),
        k < rx.len() / 4 ==> survivors(rx, er1, m1, k) == survivors(rx, er2, m2, k),
    decreases k,
{
    if k > 0 {
        lemma_same_counting_steps(rx, er1, m1, er2, m2, (k - 1) as nat);
        lemma_same_counting_partial(rx, er1, m1, er2, m2, k - 1, metrics_after(rx, er1, m1, (k - 1) as nat), 256);
    }
    if k < rx.len() / 4 {
        lemma_same_counting_partial(rx, er1, m1, er2, m2, k as int, metrics_after(rx, er1, m1, k), 256);
    }
}

/// One trellis step is the same under masks that count the same positions.
proof fn lemma_same_counting_partial(
    rx: Seq<bool>,
    er1: Seq<bool>,
    m1: bool,
    er2: Seq<bool>,
    m2: bool,
    k: int,
    metric: Seq<u32>,
    t: nat,
)
    requires
        0 <= k < rx.len() / 4,
        forall|i: int| 0 <= i < rx.len() ==> #[trigger] counted(er1, m1, i) == counted(er2, m2, i),
    ensures
        step_partial(rx, er1, m1, k, metric, t) == step_partial(rx, er2, m2, k, metric, t),
    decreases t,
{
    if t > 0 {
        lemma_same_counting_partial(rx, er1, m1, er2, m2, k, metric, (t - 1) as nat);
        let s = (t - 1) / 2;
        let b = (t - 1) % 2;
        let ns = next_reg(s as u8, b == 1);
        assert(4 * k + 3 < rx.len());
        assert(counted(er1, m1, 4 * k) == counted(er2, m2, 4 * k));
        assert(counted(er1, m1, 4 * k + 1) == counted(er2, m2, 4 * k + 1));
        assert(counted(er1, m1, 4 * k + 2) == counted(er2, m2, 4 * k + 2));
        assert(counted(er1, m1, 4 * k + 3) == counted(er2, m2, 4 * k + 3));
        assert(branch_cost(rx, er1, m1, k, ns) == branch_cost(rx, er2, m2, k, ns));
    }
}

/// Masks that count the same received positions give the same decoded path.
pub proof fn lemma_viterbi_path_same_counting(rx: Seq<bool>, er1: Seq<bool>, m1: bool, er2: Seq<bool>, m2: bool)
    requires
        forall|i: int| 0 <= i < rx.len() ==> #[trigger] counted(er1, m1, i) == counted(er2, m2, i),
    ensures
        viterbi_path(rx, er1, m1) == viterbi_path(rx, er2, m2),
{
    let n = rx.len() / 4;
    lemma_same_counting_steps(rx, er1, m1, er2, m2, n);
    let s = first_least(metrics_after(rx, er1, m1, n), 128);
    lemma_same_counting_paths(rx, er1, m1, er2, m2, n, s);
}

/// Survivor paths agree under masks that count the same positions.
proof fn lemma_same_counting_paths(rx: Seq<bool>, er1: Seq<bool>, m1: bool, er2: Seq<bool>, m2: bool, k: nat, s: int)
    requires
        k <= rx.len() / 4,
        forall|i: int| 0 <= i < rx.len() ==> #[trigger] counted(er1, m1, i) == counted(er2, m2, i),
    ensures
        survivor_path(rx, er1, m1, k, s) == survivor_path(rx, er2, m2, k, s),
    decreases k,
{
    if k > 0 {
        lemma_same_counting_steps(rx, er1, m1, er2, m2, (k - 1) as nat);
        let row = survivors(rx, er1, m1, (k - 1) as nat);
        lemma_same_counting_paths(rx, er1, m1, er2, m2, (k - 1) as nat, row.2[s] as int);
    }
}

/// With nothing erased, the erasure-aware decoder returns exactly the path
/// of the plain hard-decision decoder.
pub proof fn lemma_no_erasures_same_path(rx: Seq<bool>, erased: Seq<bool>)
    requires
        erased.len() >= rx.len(),
        forall|i: int| 0 <= i < rx.len() ==> !#[trigger] erased[i],
    ensures
        viterbi_path(rx, erased, true) == viterbi_path(rx, Seq::empty(), false),
{
    assert forall|i: int| 0 <= i < rx.len() implies #[trigger] counted(erased, true, i) == counted(
        Seq::empty(),
        false,
        i,
    ) by {
        assert(!erased[i]);
    }
    lemma_viterbi_path_same_counting(rx, erased, true, Seq::empty(), false);
}


/// DAB Viterbi decoder for the K = 7, rate-1/4 convolutional code.
pub struct DabViterbiDecoder {
    // next_state[2 * s + b]: register after shifting b into register s.
    next_state: Vec<usize>,
    // output[2 * s + b]: packed coded bits emitted on that transition.
    output: Vec<u8>,
}

impl DabViterbiDecoder {
    #[verifier::type_invariant]
    spec fn trellis_ok(self) -> bool {
        &&& self.next_state.len() == 256
        &&& self.output.len() == 256
        &&& forall|i: int|
            0 <= i < 256 ==> #[trigger] self.next_state@[i] == next_reg((i / 2) as u8, i % 2 == 1)
                as usize
        &&& forall|i: int|
            0 <= i < 256 ==> #[trigger] self.output@[i] == packed_out(next_reg((i / 2) as u8, i % 2 == 1))
    }

    /// The register after each transition: entry `2 * s + b` is the
    /// register after shifting `b` into register `s`.
    pub closed spec fn transitions(self) -> Seq<usize> {
        self.next_state@
    }

    /// The packed coded bits emitted on each transition.
    pub closed spec fn transition_outputs(self) -> Seq<u8> {
        self.output@
    }

    /// Create a new decoder, precomputing the trellis structure: for each
    /// register and input bit, the next register and the packed coded bits.
    pub fn new() -> (d: Self)
        ensures
            d.transitions() == Seq::new(256, |i: int| next_reg((i / 2) as u8, i % 2 == 1) as usize),
            d.transition_outputs() == Seq::new(256, |i: int| packed_out(next_reg((i / 2) as u8, i % 2 == 1))),
    {
        let mut next_state: Vec<usize> = Vec::with_capacity(256);
        let mut output: Vec<u8> = Vec::with_capacity(256);
        let mut state: usize = 0;
        while state < VITERBI_STATES
            invariant
                state <= 128,
                next_state.len() == 2 * state,
                output.len() == 2 * state,
                forall|i: int|
                    0 <= i < 2 * state ==> #[trigger] next_state@[i] == next_reg((i / 2) as u8, i % 2 == 1)
                        as usize,
                forall|i: int|
                    0 <= i < 2 * state ==> #[trigger] output@[i] == packed_out(next_reg((i / 2) as u8, i % 2 == 1)),
            decreases 128 - state,
        {
            let mut input: usize = 0;
            while input < 2
                invariant
                    state < 128,
                    input <= 2,
                    next_state.len() == 2 * state + input,
                    output.len() == 2 * state + input,
                    forall|i: int|
                        0 <= i < 2 * state + input ==> #[trigger] next_state@[i] == next_reg((i / 2) as u8, i % 2 == 1)
                            as usize,
                    forall|i: int|
                        0 <= i < 2 * state + input ==> #[trigger] output@[i] == packed_out(next_reg((i / 2) as u8, i % 2 == 1)),
                decreases 2 - input,
            {
                let s8: u8 = state as u8;
                let b: bool = input == 1;
                proof {
                    lemma_next_reg_exec(s8, b);
                }
                let ns: u8 = ((s8 << 1u8) | (if b { 1u8 } else { 0u8 })) & 127u8;
                let bits = pack_bits(
                    parity(ns & 91u8),
                    parity(ns & 121u8),
                    parity(ns & 101u8),
                    parity(ns & 91u8),
                );
                next_state.push(ns as usize);
                output.push(bits);
                proof {
                    let i = 2 * state + input;
                    assert(i / 2 == state && (i % 2 == 1) == b);
                }
                input = input + 1;
            }
            state = state + 1;
        }
        proof {
            assert(next_state@ =~= Seq::new(256, |i: int| next_reg((i / 2) as u8, i % 2 == 1) as usize));
            assert(output@ =~= Seq::new(256, |i: int| packed_out(next_reg((i / 2) as u8, i % 2 == 1))));
        }
        DabViterbiDecoder { next_state, output }
    }

    /// Relax the transition out of `state` on input bit `input`.
    #[verifier::rlimit(40)]
    fn relax(
        &self,
        metric: &Vec<u32>,
        new_metric: &mut Vec<u32>,
        row_i: &mut Vec<u8>,
        row_p: &mut Vec<u16>,
        state: usize,
        input: usize,
        recv: u8,
        mask: u8,
        Ghost(rx): Ghost<Seq<bool>>,
        Ghost(er): Ghost<Seq<bool>>,
        masked: bool,
        step: usize,
    )
        requires
            state < 128,
            input < 2,
            metric.len() == 128,
            old(new_metric).len() == 128,
            old(row_i).len() == 128,
            old(row_p).len() == 128,
            4 * step + 3 < rx.len(),
            rx.len() <= 0x7fff_ffff,
            metric@[state as int] != INF,
            metric@[state as int] <= 4 * step,
            recv == pack4(rx[4 * step], rx[4 * step + 1], rx[4 * step + 2], rx[4 * step + 3]),
            mask == pack4(
                counted(er, masked, 4 * step),
                counted(er, masked, 4 * step + 1),
                counted(er, masked, 4 * step + 2),
                counted(er, masked, 4 * step + 3),
            ),
            forall|ns: int| 0 <= ns < 128 ==> #[trigger] old(row_p)@[ns] < 128,
            forall|ns: int|
                0 <= ns < 128 && #[trigger] old(new_metric)@[ns] != INF ==> {
                    let ps = old(row_p)@[ns] as int;
                    &&& metric@[ps] != INF
                    &&& ns == next_reg(ps as u8, old(row_i)@[ns] != 0u8)
                    &&& old(new_metric)@[ns] == metric@[ps] + branch_cost(
                        rx,
                        er,
                        masked,
                        step as int,
                        ns as u8,
                    )
                },
        ensures
            final(new_metric).len() == 128,
            final(row_i).len() == 128,
            final(row_p).len() == 128,
            forall|ns: int| 0 <= ns < 128 ==> #[trigger] final(row_p)@[ns] < 128,
            forall|ns: int|
                0 <= ns < 128 && #[trigger] final(new_metric)@[ns] != INF ==> {
                    let ps = final(row_p)@[ns] as int;
                    &&& metric@[ps] != INF
                    &&& ns == next_reg(ps as u8, final(row_i)@[ns] != 0u8)
                    &&& final(new_metric)@[ns] == metric@[ps] + branch_cost(
                        rx,
                        er,
                        masked,
                        step as int,
                        ns as u8,
                    )
                },
            forall|ns: int| 0 <= ns < 128 ==> #[trigger] final(new_metric)@[ns] <= old(new_metric)@[ns],
            final(new_metric)@[next_reg(state as u8, input == 1) as int] <= metric@[state as int]
                + branch_cost(rx, er, masked, step as int, next_reg(state as u8, input == 1)),
            (final(new_metric)@, final(row_i)@, final(row_p)@) == relax_step(
                rx,
                er,
                masked,
                step as int,
                metric@,
                (old(new_metric)@, old(row_i)@, old(row_p)@),
                state as int,
                input as int,
            ),
    {
        proof {
            use_type_invariant(self);
        }
        let idx = 2 * state + input;
        let ns = self.next_state[idx];
        let expected = self.output[idx];
        let ghost b: bool = input == 1;
        let ghost nsr: u8 = next_reg(state as u8, b);
        proof {
            assert(idx / 2 == state && (idx % 2 == 1) == b);
            assert(ns == nsr as usize);
            assert(expected == packed_out(nsr));
        }
        let x = (recv ^ expected) & mask;
        let hd = popcount4(x);
        proof {
            lemma_step_distance(rx, er, masked, step as int, nsr, recv, mask, expected, x);
            lemma_branch_cost_bounds(rx, er, masked, step as int, nsr);
        }
        let m = metric[state].saturating_add(hd);
        if m < new_metric[ns] {
            new_metric.set(ns, m);
            row_i.set(ns, input as u8);
            row_p.set(ns, state as u16);
            proof {
                assert((input as u8 != 0u8) == b);
                assert((state as u16) as int == state as int);
            }
        }
    }

    /// One trellis step: relax every transition out of the reachable states.
    #[verifier::loop_isolation(false)]
    #[verifier::rlimit(30)]
    fn step_metrics(
        &self,
        metric: &Vec<u32>,
        recv: u8,
        mask: u8,
        Ghost(rx): Ghost<Seq<bool>>,
        Ghost(er): Ghost<Seq<bool>>,
        masked: bool,
        step: usize,
    ) -> (res: (Vec<u32>, Vec<u8>, Vec<u16>))
        requires
            metric.len() == 128,
            4 * step + 3 < rx.len(),
            rx.len() <= 0x7fff_ffff,
            forall|s: int| 0 <= s < 128 && #[trigger] metric@[s] != INF ==> metric@[s] <= 4 * step,
            recv == pack4(rx[4 * step], rx[4 * step + 1], rx[4 * step + 2], rx[4 * step + 3]),
            mask == pack4(
                counted(er, masked, 4 * step),
                counted(er, masked, 4 * step + 1),
                counted(er, masked, 4 * step + 2),
                counted(er, masked, 4 * step + 3),
            ),
        ensures
            res.0.len() == 128,
            res.1.len() == 128,
            res.2.len() == 128,
            forall|ns: int| 0 <= ns < 128 ==> #[trigger] res.2@[ns] < 128,
            forall|ns: int|
                0 <= ns < 128 && #[trigger] res.0@[ns] != INF ==> {
                    let ps = res.2@[ns] as int;
                    &&& metric@[ps] != INF
                    &&& ns == next_reg(ps as u8, res.1@[ns] != 0u8)
                    &&& res.0@[ns] == metric@[ps] + branch_cost(rx, er, masked, step as int, ns as u8)
                },
            forall|s: int, b: bool|
                0 <= s < 128 && metric@[s] != INF ==> res.0@[next_reg(s as u8, b) as int] <= metric@[s]
                    + #[trigger] branch_cost(rx, er, masked, step as int, next_reg(s as u8, b)),
            (res.0@, res.1@, res.2@) == step_partial(rx, er, masked, step as int, metric@, 256),
    {
        proof {
            use_type_invariant(self);
        }
        let mut new_metric: Vec<u32> = vec![INF; VITERBI_STATES];
        let mut row_i: Vec<u8> = vec![0u8; VITERBI_STATES];
        let mut row_p: Vec<u16> = vec![0u16; VITERBI_STATES];
        proof {
            assert(new_metric@ =~= step_partial(rx, er, masked, step as int, metric@, 0).0);
            assert(row_i@ =~= step_partial(rx, er, masked, step as int, metric@, 0).1);
            assert(row_p@ =~= step_partial(rx, er, masked, step as int, metric@, 0).2);
        }
        let mut state: usize = 0;
        while state < VITERBI_STATES
            invariant
                state <= 128,
                (new_metric@, row_i@, row_p@) == step_partial(rx, er, masked, step as int, metric@, (2 * state) as nat),
                new_metric.len() == 128,
                row_i.len() == 128,
                row_p.len() == 128,
                forall|ns: int| 0 <= ns < 128 ==> #[trigger] row_p@[ns] < 128,
                forall|ns: int|
                    0 <= ns < 128 && #[trigger] new_metric@[ns] != INF ==> {
                        let ps = row_p@[ns] as int;
                        &&& metric@[ps] != INF
                        &&& ns == next_reg(ps as u8, row_i@[ns] != 0u8)
                        &&& new_metric@[ns] == metric@[ps] + branch_cost(
                            rx,
                            er,
                            masked,
                            step as int,
                            ns as u8,
                        )
                    },
                forall|s: int, b: bool|
                    0 <= s < state && metric@[s] != INF ==> new_metric@[next_reg(s as u8, b) as int]
                        <= metric@[s] + #[trigger] branch_cost(
                        rx,
                        er,
                        masked,
                        step as int,
                        next_reg(s as u8, b),
                    ),
            decreases 128 - state,
        {
            if metric[state] != INF {
                self.relax(
                    metric,
                    &mut new_metric,
                    &mut row_i,
                    &mut row_p,
                    state,
                    0,
                    recv,
                    mask,
                    Ghost(rx),
                    Ghost(er),
                    masked,
                    step,
                );
                self.relax(
                    metric,
                    &mut new_metric,
                    &mut row_i,
                    &mut row_p,
                    state,
                    1,
                    recv,
                    mask,
                    Ghost(rx),
                    Ghost(er),
                    masked,
                    step,
                );
                proof {
                    lemma_step_partial_pair(rx, er, masked, step as int, metric@, state as int);
                    assert forall|b: bool| #![trigger next_reg(state as u8, b)] true implies new_metric@[next_reg(state as u8, b) as int]
                        <= metric@[state as int] + branch_cost(rx, er, masked, step as int, next_reg(state as u8, b)) by {
                        if b {
                            assert(((if b { 1int } else { 0int }) == 1));
                        }
                    }
                }
            } else {
                proof {
                    lemma_step_partial_pair(rx, er, masked, step as int, metric@, state as int);
                }
            }
            state = state + 1;
        }
        (new_metric, row_i, row_p)
    }

    /// Index of the first state with the least metric.
    fn best_state(metric: &Vec<u32>) -> (end_state: usize)
        requires
            metric.len() == 128,
        ensures
            end_state < 128,
            forall|t: int| 0 <= t < 128 ==> metric@[end_state as int] <= #[trigger] metric@[t],
            end_state == first_least(metric@, 128),
    {
        let mut end_state: usize = 0;
        let mut s: usize = 1;
        while s < VITERBI_STATES
            invariant
                1 <= s <= 128,
                end_state < 128,
                metric.len() == 128,
                forall|t: int| 0 <= t < s ==> metric@[end_state as int] <= #[trigger] metric@[t],
                end_state == first_least(metric@, s as nat),
            decreases 128 - s,
        {
            if metric[s] < metric[end_state] {
                end_state = s;
            }
            s = s + 1;
        }
        end_state
    }

    /// Follow the survivor pointers back from `end_state`.
    #[verifier::loop_isolation(false)]
    fn traceback(tb_input: &Vec<Vec<u8>>, tb_prev: &Vec<Vec<u16>>, end_state: usize) -> (bits: Vec<bool>)
        requires
            end_state < 128,
            tb_input.len() == tb_prev.len(),
            forall|j: int| 0 <= j < tb_input.len() ==> (#[trigger] tb_input@[j]).len() == 128,
            forall|j: int| 0 <= j < tb_prev.len() ==> (#[trigger] tb_prev@[j]).len() == 128,
            forall|j: int, s: int|
                0 <= j < tb_prev.len() && 0 <= s < 128 ==> #[trigger] tb_prev@[j]@[s] < 128,
        ensures
            bits@ == trace(tb_input@, tb_prev@, tb_input.len() as int, end_state as int),
    {
        let n = tb_input.len();
        let mut bits: Vec<bool> = vec![false; n];
        let mut state: usize = end_state;
        let mut k: usize = n;
        let ghost full = trace(tb_input@, tb_prev@, n as int, end_state as int);
        proof {
            assert(full =~= trace(tb_input@, tb_prev@, k as int, state as int) + bits@.subrange(
                k as int,
                n as int,
            ));
        }
        while k > 0
            invariant
                k <= n,
                n == tb_input.len(),
                state < 128,
                bits.len() == n,
                full == trace(tb_input@, tb_prev@, k as int, state as int) + bits@.subrange(
                    k as int,
                    n as int,
                ),
            decreases k,
        {
            k = k - 1;
            let ghost old_bits = bits@;
            let ghost old_state = state;
            let b = tb_input[k][state] != 0u8;
            bits.set(k, b);
            state = tb_prev[k][state] as usize;
            proof {
                assert(bits@.subrange(k as int, n as int) =~= seq![b] + old_bits.subrange(
                    k + 1,
                    n as int,
                ));
                assert(trace(tb_input@, tb_prev@, k + 1, old_state as int) == trace(
                    tb_input@,
                    tb_prev@,
                    k as int,
                    state as int,
                ).push(b));
                assert(full =~= trace(tb_input@, tb_prev@, k as int, state as int) + bits@.subrange(
                    k as int,
                    n as int,
                ));
            }
        }
        proof {
            assert(full =~= bits@);
        }
        bits
    }

    #[verifier::loop_isolation(false)]
    #[verifier::rlimit(40)]
    fn viterbi(&self, received: &[bool], erased: &[bool], masked: bool) -> (bits: Vec<bool>)
        requires
            received.len() <= 0x7fff_ffff,
        ensures
            bits.len() == received.len() / 4,
            forall|p: Seq<bool>|
                p.len() == bits.len() ==> #[trigger] path_cost(
                    received@,
                    erased@,
                    masked,
                    p,
                    bits.len() as int,
                ) >= path_cost(received@, erased@, masked, bits@, bits.len() as int),
            bits@ == viterbi_path(received@, erased@, masked),
    {
        let ghost rx = received@;
        let ghost er = erased@;
        let num_steps = received.len() / CONV_RATE_DENOM;
        if num_steps == 0 {
            return Vec::new();
        }
        let mut metric: Vec<u32> = vec![INF; VITERBI_STATES];
        metric.set(0, 0);
        let mut tb_input: Vec<Vec<u8>> = Vec::new();
        let mut tb_prev: Vec<Vec<u16>> = Vec::new();
        proof {
            assert(metric@ =~= metrics_after(rx, er, masked, 0));
            assert forall|s: int| 0 <= s < 128 && #[trigger] metric@[s] != INF implies ({
                let t = trace(tb_input@, tb_prev@, 0, s);
                &&& metric@[s] <= 0
                &&& t.len() == 0
                &&& reg_after(0, t, 0) == s
                &&& path_cost(rx, er, masked, t, 0) == metric@[s]
            }) by {
                assert(s == 0);
            }
        }
        let mut step: usize = 0;
        while step < num_steps
            invariant
                num_steps == rx.len() / 4,
                step <= num_steps,
                metric.len() == 128,
                tb_input.len() == step,
                tb_prev.len() == step,
                forall|j: int| 0 <= j < step ==> (#[trigger] tb_input@[j]).len() == 128,
                forall|j: int| 0 <= j < step ==> (#[trigger] tb_prev@[j]).len() == 128,
                forall|j: int, s: int|
                    0 <= j < step && 0 <= s < 128 ==> #[trigger] tb_prev@[j]@[s] < 128,
                forall|s: int|
                    0 <= s < 128 && #[trigger] metric@[s] != INF ==> ({
                        let t = trace(tb_input@, tb_prev@, step as int, s);
                        &&& metric@[s] <= 4 * step
                        &&& t.len() == step
                        &&& reg_after(0, t, step as int) == s
                        &&& path_cost(rx, er, masked, t, step as int) == metric@[s]
                    }),
                metric@ == metrics_after(rx, er, masked, step as nat),
                forall|j: int|
                    0 <= j < step ==> #[trigger] tb_input@[j]@ == survivors(rx, er, masked, j as nat).1
                        && tb_prev@[j]@ == survivors(rx, er, masked, j as nat).2,
                forall|p: Seq<bool>|
                    p.len() >= step ==> metric@[reg_after(0, p, step as int) as int] <= #[trigger] path_cost(
                        rx,
                        er,
                        masked,
                        p,
                        step as int,
                    ),
            decreases num_steps - step,
        {
            let base = step * CONV_RATE_DENOM;
            let recv = pack_bits(
                received[base],
                received[base + 1],
                received[base + 2],
                received[base + 3],
            );
            let mask = if masked {
                pack_bits(
                    base < erased.len() && !erased[base],
                    base + 1 < erased.len() && !erased[base + 1],
                    base + 2 < erased.len() && !erased[base + 2],
                    base + 3 < erased.len() && !erased[base + 3],
                )
            } else {
                pack_bits(true, true, true, true)
            };
            let (new_metric, row_i, row_p) = self.step_metrics(
                &metric,
                recv,
                mask,
                Ghost(rx),
                Ghost(er),
                masked,
                step,
            );
            let ghost old_tbi = tb_input@;
            let ghost old_tbp = tb_prev@;
            let ghost old_metric = metric@;
            let ghost row = survivors(rx, er, masked, step as nat);
            proof {
                assert(row == step_partial(rx, er, masked, step as int, old_metric, 256));
                assert(row_i@ == row.1 && row_p@ == row.2);
                assert(new_metric@ == row.0);
                assert(metrics_after(rx, er, masked, (step + 1) as nat) == row.0);
            }
            tb_input.push(row_i);
            tb_prev.push(row_p);
            metric = new_metric;
            proof {
                assert forall|j: int| 0 <= j < step + 1 implies #[trigger] tb_input@[j]@ == survivors(
                    rx,
                    er,
                    masked,
                    j as nat,
                ).1 && tb_prev@[j]@ == survivors(rx, er, masked, j as nat).2 by {
                    if j < step {
                        assert(tb_input@[j] == old_tbi[j]);
                        assert(tb_prev@[j] == old_tbp[j]);
                    } else {
                        assert(j == step);
                        assert(tb_input@[j]@ == row.1);
                        assert(tb_prev@[j]@ == row.2);
                    }
                }
                lemma_step_invariant(
                    rx,
                    er,
                    masked,
                    step as int,
                    old_metric,
                    metric@,
                    old_tbi,
                    old_tbp,
                    tb_input@,
                    tb_prev@,
                );
            }
            step = step + 1;
        }
        let end_state = Self::best_state(&metric);
        proof {
            let zeros = Seq::new(num_steps as nat, |i: int| false);
            lemma_path_cost_bounds(rx, er, masked, zeros, num_steps as int);
            assert(metric@[reg_after(0, zeros, num_steps as int) as int] <= path_cost(
                rx,
                er,
                masked,
                zeros,
                num_steps as int,
            ));
            assert(metric@[end_state as int] != INF);
        }
        let bits = Self::traceback(&tb_input, &tb_prev, end_state);
        proof {
            assert(step == num_steps);
            assert forall|j: int| 0 <= j < num_steps implies #[trigger] tb_input@[j]@ == survivors(
                rx,
                er,
                masked,
                j as nat,
            ).1 && tb_prev@[j]@ == survivors(rx, er, masked, j as nat).2 by {
                assert(j < step);
            }
            lemma_trace_is_survivor_path(rx, er, masked, tb_input@, tb_prev@, num_steps as nat, end_state as int);
            assert forall|p: Seq<bool>| p.len() == bits.len() implies #[trigger] path_cost(
                rx,
                er,
                masked,
                p,
                bits.len() as int,
            ) >= path_cost(rx, er, masked, bits@, bits.len() as int) by {
                assert(metric@[reg_after(0, p, num_steps as int) as int] <= path_cost(
                    rx,
                    er,
                    masked,
                    p,
                    num_steps as int,
                ));
            }
        }
        bits
    }

    /// Hard-decision Viterbi decode.
    ///
    /// Input is flat hard bits (rate 1/4: 4 bits per source bit); a trailing
    /// incomplete symbol is ignored. Returns a maximum-likelihood path: no
    /// input sequence of the same length has a code closer to `received`;
    /// among equally close paths it is `viterbi_path`, the one the survivor
    /// tie rule keeps. The clean code of a bit sequence decodes to that
    /// sequence, and so does its code with any one bit flipped.
    pub fn decode(&self, received: &[bool]) -> (bits: Vec<bool>)
        requires
            received.len() <= 0x7fff_ffff,
        ensures
            bits.len() == received.len() / 4,
            forall|p: Seq<bool>|
                p.len() == bits.len() ==> #[trigger] hard_distance(received@, p) >= hard_distance(
                    received@,
                    bits@,
                ),
            forall|d: Seq<bool>| #[trigger] conv_encode(d) == received@ ==> bits@ == d,
            forall|d: Seq<bool>, q: int|
                0 <= q < 4 * d.len() && #[trigger] flipped(conv_encode(d), q) == received@ ==> bits@ == d,
            bits@ == viterbi_path(received@, Seq::empty(), false),
    {
        let empty: Vec<bool> = Vec::new();
        let bits = self.viterbi(received, empty.as_slice(), false);
        proof {
            assert(empty@ =~= Seq::<bool>::empty());
            assert forall|d: Seq<bool>| #[trigger] conv_encode(d) == received@ implies bits@ == d by {
                lemma_conv_code_index(0, d, d.len() as int);
                lemma_clean_code_has_unique_nearest_path(d, bits@);
            }
            assert forall|d: Seq<bool>, q: int|
                0 <= q < 4 * d.len() && #[trigger] flipped(conv_encode(d), q) == received@ implies bits@ == d by {
                lemma_conv_code_index(0, d, d.len() as int);
                assert(d.len() == bits.len());
                lemma_single_flip_has_unique_nearest_path(d, q, bits@);
            }
        }
        bits
    }

    /// Hard-decision Viterbi decode with erasure awareness.
    ///
    /// `erased[i] == true` removes received bit `i` from the distance; bits
    /// past the end of `erased` count as erased. Returns a path of least
    /// distance under that mask (by the same tie rule, `viterbi_path`; with
    /// nothing erased it is the plain decoder's path, see
    /// `lemma_no_erasures_same_path`). Data whose code agrees with what was
    /// received wherever bits count decodes to itself when every symbol
    /// keeps a bit that counts.
    pub fn decode_erased(&self, received: &[bool], erased: &[bool]) -> (bits: Vec<bool>)
        requires
            received.len() <= 0x7fff_ffff,
        ensures
            bits.len() == received.len() / 4,
            forall|p: Seq<bool>|
                p.len() == bits.len() ==> #[trigger] erased_distance(received@, erased@, p)
                    >= erased_distance(received@, erased@, bits@),
            forall|d: Seq<bool>|
                d.len() == received.len() / 4 && #[trigger] agrees_where_counted(received@, erased@, d) && (
                forall|k: int| 0 <= k < d.len() ==> #[trigger] symbol_counted(erased@, k)) ==> bits@ == d,
            bits@ == viterbi_path(received@, erased@, true),
    {
        let bits = self.viterbi(received, erased, true);
        proof {
            assert forall|d: Seq<bool>|
                d.len() == received.len() / 4 && #[trigger] agrees_where_counted(received@, erased@, d) && (
                forall|k: int| 0 <= k < d.len() ==> #[trigger] symbol_counted(erased@, k)) implies bits@ == d by {
                lemma_erased_clean_has_unique_nearest_path(received@, erased@, d, bits@);
            }
        }
        bits
    }
}

impl Default for DabViterbiDecoder {
    fn default() -> (d: Self)
        ensures
            d.transitions() == Seq::new(256, |i: int| next_reg((i / 2) as u8, i % 2 == 1) as usize),
            d.transition_outputs() == Seq::new(256, |i: int| packed_out(next_reg((i / 2) as u8, i % 2 == 1))),
    {
        Self::new()
    }
}

} // verus!
