//! Hard-decision QPSK symbol handling for the dual-polarisation receiver:
//! differential decoding and symbol-to-bit mapping.

use vstd::prelude::*;

verus! {

/// The phase step between two 2-bit symbols: `(cur - prev) mod 4`.
pub open spec fn phase_step(cur: u8, prev: u8) -> u8 {
    ((cur as int + 256 - prev as int) % 4) as u8
}

/// Differential decoding of `symbols`, starting from the previous symbol
/// `prev`: each output is the step from the symbol before it.
pub open spec fn diff_decoded(prev: u8, symbols: Seq<u8>, i: int) -> u8 {
    if i == 0 {
        phase_step(symbols[0], prev)
    } else {
        phase_step(symbols[i], symbols[i - 1])
    }
}

/// QPSK symbol decision and Gray decoding.
///
/// Bit mapping (2-bit symbol): MSB = I-negative, LSB = Q-negative.
/// - (+,+) → 00, (+,-) → 01, (-,+) → 10, (-,-) → 11
#[derive(Debug, Clone)]
pub struct QpskDetector {
    /// Previous symbol for differential decoding.
    prev_symbol: u8,
}

impl QpskDetector {
    /// The previous symbol for differential decoding.
    pub closed spec fn previous(&self) -> u8 {
        self.prev_symbol
    }

    /// Create a new QPSK hard-decision detector.
    pub fn new() -> (d: Self)
        ensures
            d.previous() == 0,
    {
        QpskDetector { prev_symbol: 0 }
    }

    /// Differential decode a stream of QPSK symbols: each output is
    /// `(current_symbol - prev_symbol) mod 4`.
    pub fn differential_decode(&mut self, symbols: &[u8]) -> (decoded: Vec<u8>)
        ensures
            decoded.len() == symbols.len(),
            forall|i: int|
                0 <= i < symbols.len() ==> #[trigger] decoded[i] == diff_decoded(
                    old(self).previous(),
                    symbols@,
                    i,
                ),
            final(self).previous() == (if symbols.len() == 0 {
                old(self).previous()
            } else {
                symbols[symbols.len() - 1]
            }),
    {
        let ghost p0 = self.prev_symbol;
        let mut decoded: Vec<u8> = Vec::with_capacity(symbols.len());
        let mut i: usize = 0;
        while i < symbols.len()
            invariant
                i <= symbols.len(),
                decoded.len() == i,
                p0 == old(self).prev_symbol,
                self.prev_symbol == (if i == 0 { p0 } else { symbols[i - 1] }),
                forall|q: int| 0 <= q < i ==> #[trigger] decoded[q] == diff_decoded(p0, symbols@, q),
            decreases symbols.len() - i,
        {
            let sym = symbols[i];
            let w = sym.wrapping_sub(self.prev_symbol);
            let diff = w & 0x03;
            proof {
                let p = self.prev_symbol;
                assert(w & 0x03u8 == w % 4) by (bit_vector);
                if sym >= p {
                    assert(w == sym - p);
                } else {
                    assert(w == sym - p + 256);
                }
                assert(diff == phase_step(sym, p));
            }
            decoded.push(diff);
            self.prev_symbol = sym;
            i += 1;
        }
        decoded
    }

    /// Convert 2-bit QPSK symbols to a flat bit vector (MSB first per symbol).
    ///
    /// MSB = I-negative bit, LSB = Q-negative bit.
    pub fn symbols_to_bits(symbols: &[u8]) -> (bits: Vec<bool>)
        requires
            symbols.len() * 2 <= usize::MAX,
        ensures
            bits.len() == 2 * symbols.len(),
            forall|q: int|
                0 <= q < bits.len() ==> #[trigger] bits[q] == (if q % 2 == 0 {
                    (symbols[q / 2] >> 1u8) & 1u8 != 0
                } else {
                    symbols[q / 2] & 1u8 != 0
                }),
    {
        let mut bits: Vec<bool> = Vec::with_capacity(symbols.len() * 2);
        let mut i: usize = 0;
        while i < symbols.len()
            invariant
                symbols.len() * 2 <= usize::MAX,
                i <= symbols.len(),
                bits.len() == 2 * i,
                forall|q: int|
                    0 <= q < bits.len() ==> #[trigger] bits[q] == (if q % 2 == 0 {
                        (symbols[q / 2] >> 1u8) & 1u8 != 0
                    } else {
                        symbols[q / 2] & 1u8 != 0
                    }),
            decreases symbols.len() - i,
        {
            let sym = symbols[i];
            bits.push((sym >> 1) & 1 != 0);
            bits.push(sym & 1 != 0);
            proof {
                let j = 2 * i;
                assert(j / 2 == i && j % 2 == 0 && (j + 1) / 2 == i && (j + 1) % 2 == 1);
            }
            i += 1;
        }
        bits
    }
}

impl Default for QpskDetector {
    fn default() -> (d: Self)
        ensures
            d.previous() == 0,
    {
        QpskDetector { prev_symbol: 0 }
    }
}

/// Differential decoding is blind to a constant rotation of the
/// constellation: rotating every symbol by the same quarter turns leaves
/// every decoded step after the first unchanged.
pub proof fn lemma_differential_rotation_invariant(p: u8, data: Seq<u8>, r: u8, rotated: Seq<u8>, i: int)
    requires
        rotated.len() == data.len(),
        forall|k: int| 0 <= k < data.len() ==> #[trigger] rotated[k] == ((data[k] + r) % 4) as u8,
        1 <= i < data.len(),
    ensures
        diff_decoded(p, rotated, i) == diff_decoded(p, data, i),
{
    let a = data[i] as int;
    let b = data[i - 1] as int;
    assert(rotated[i] == ((a + r) % 4) as u8);
    assert(rotated[i - 1] == ((b + r) % 4) as u8);
    assert((((a + r) % 4) + 256 - ((b + r) % 4)) % 4 == (a + 256 - b) % 4) by (nonlinear_arith)
        requires 0 <= a < 256, 0 <= b < 256, 0 <= r < 256;
}

} // verus!
