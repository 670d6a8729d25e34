//! DAB energy dispersal: a PRBS from the polynomial x^9 + x^5 + 1, XORed
//! onto the bit stream.

use vstd::prelude::*;

use crate::dab::bits::{shl_or, unpack_bits};

verus! {

/// The register bit that a step feeds back (taps 9 and 5).
pub open spec fn prbs_bit(s: u16) -> u16 {
    ((s >> 8u16) ^ (s >> 4u16)) & 1u16
}

/// The register after one step.
pub open spec fn prbs_next(s: u16) -> u16 {
    ((s << 1u16) | prbs_bit(s)) & 0x1FFu16
}

/// The register after `k` steps from `s`.
pub open spec fn prbs_state(s: u16, k: nat) -> u16
    decreases k,
{
    if k == 0 {
        s
    } else {
        prbs_next(prbs_state(s, (k - 1) as nat))
    }
}

/// Keystream bit `k` from starting state `s`.
pub open spec fn keystream_bit(s: u16, k: nat) -> bool {
    prbs_bit(prbs_state(s, k)) == 1
}

/// The first `t` keystream bits from `s`, shifted in MSB first.
pub open spec fn keystream_acc(s: u16, t: nat) -> u8
    decreases t,
{
    if t == 0 {
        0
    } else {
        shl_or(keystream_acc(s, (t - 1) as nat), if keystream_bit(s, (t - 1) as nat) { 1u8 } else { 0u8 })
    }
}

/// The keystream byte that starts at state `s`.
pub open spec fn keystream_byte(s: u16) -> u8 {
    keystream_acc(s, 8)
}

/// Stepping `a` then `b` times is stepping `a + b` times.
pub proof fn lemma_prbs_state_add(s: u16, a: nat, b: nat)
    ensures
        prbs_state(prbs_state(s, a), b) == prbs_state(s, a + b),
    decreases b,
{
    if b > 0 {
        lemma_prbs_state_add(s, a, (b - 1) as nat);
    }
}

/// The bit-level facts behind the scrambler: one bit of scrambling shifted
/// into a byte commutes with the MSB-first accumulation; a bit of an XOR is
/// the XOR of the bits; shifting one more bit in moves every earlier bit up
/// by one place.
pub(crate) proof fn lemma_scramble_bits(b: u8, t: u8, k: u8, p: u8, m: u8)
    by (bit_vector)
    requires
        t < 8,
        p <= 1,
        m < 8,
    ensures
        (((if t == 0 { 0u8 } else { b >> ((8 - t) as u8) }) ^ k) << 1u8) | (((b >> ((7 - t) as u8)) & 1u8) ^ p) == (
        b >> ((7 - t) as u8)) ^ ((k << 1u8) | p),
        (((b ^ k) >> m) & 1u8 == 1u8) == (((b >> m) & 1u8 == 1u8) != ((k >> m) & 1u8 == 1u8)),
        ((((k << 1u8) | p) >> 0u8) & 1u8 == 1u8) == (p == 1u8),
        1 <= m ==> (((k << 1u8) | p) >> m) & 1u8 == (k >> ((m - 1) as u8)) & 1u8,
{
}

/// Bit `q` of the first `t` keystream bits, counted from the most
/// significant of them, is keystream bit `q`.
proof fn lemma_keystream_acc_bit(s: u16, t: nat, q: nat)
    requires
        q < t <= 8,
    ensures
        ((keystream_acc(s, t) >> ((t - 1 - q) as u8)) & 1u8 == 1u8) == keystream_bit(s, q),
    decreases t,
{
    let prev = keystream_acc(s, (t - 1) as nat);
    let p: u8 = if keystream_bit(s, (t - 1) as nat) { 1u8 } else { 0u8 };
    let m: u8 = (t - 1 - q) as u8;
    lemma_scramble_bits(0, 0, prev, p, m);
    if q < t - 1 {
        lemma_keystream_acc_bit(s, (t - 1) as nat, q);
        assert((m - 1) as u8 == (t - 1 - 1 - q) as u8);
    }
}

/// What the byte scrambler makes of `data` from register `s`.
pub open spec fn scrambled_bytes(s: u16, data: Seq<u8>) -> Seq<u8> {
    Seq::new(data.len(), |j: int| data[j] ^ keystream_byte(prbs_state(s, (8 * j) as nat)))
}

/// What the bit scrambler makes of `bits` from register `s`.
pub open spec fn scrambled_bits(s: u16, bits: Seq<bool>) -> Seq<bool> {
    Seq::new(bits.len(), |i: int| bits[i] != keystream_bit(s, i as nat))
}

/// DAB Energy Dispersal scrambler.
///
/// Uses PRBS based on generator polynomial x^9 + x^5 + 1 as specified in
/// ETSI EN 300 401 §11.4.  Applied bit-by-bit to the raw bit stream before
/// feeding to the FEC encoder (and after at the receiver).
pub struct EnergyDispersal {
    state: u16,
    init_state: u16,
}

impl EnergyDispersal {
    /// The register now.
    pub closed spec fn register(&self) -> u16 {
        self.state
    }

    /// The register that `reset` returns to.
    pub closed spec fn initial(&self) -> u16 {
        self.init_state
    }

    /// Create a new energy dispersal scrambler.
    pub fn new() -> (e: Self)
        ensures
            e.register() == 0x1FF,
            e.initial() == 0x1FF,
    {
        EnergyDispersal { state: 0x1FF, init_state: 0x1FF }
    }

    /// Create with custom initial state.
    pub fn with_init(init: u16) -> (e: Self)
        ensures
            e.register() == init & 0x1FFu16,
            e.initial() == init & 0x1FFu16,
    {
        EnergyDispersal { state: init & 0x1FF, init_state: init & 0x1FF }
    }

    /// Reset LFSR to initial state.
    pub fn reset(&mut self)
        ensures
            final(self).register() == old(self).initial(),
            final(self).initial() == old(self).initial(),
    {
        self.state = self.init_state;
    }

    /// Generate one PRBS bit.
    fn next_bit(&mut self) -> (b: bool)
        ensures
            b == (prbs_bit(old(self).register()) == 1),
            final(self).register() == prbs_next(old(self).register()),
            final(self).initial() == old(self).initial(),
    {
        let bit = ((self.state >> 8) ^ (self.state >> 4)) & 1;
        self.state = ((self.state << 1) | bit) & 0x1FF;
        bit == 1
    }

    /// Scramble/descramble a byte slice (same operation for both).
    pub fn process(&mut self, data: &[u8]) -> (out: Vec<u8>)
        ensures
            out.len() == data.len(),
            forall|j: int|
                0 <= j < data.len() ==> #[trigger] out[j] == data[j] ^ keystream_byte(
                    prbs_state(old(self).register(), (8 * j) as nat),
                ),
            out@ == scrambled_bytes(old(self).register(), data@),
            final(self).register() == prbs_state(old(self).register(), (8 * data.len()) as nat),
            final(self).initial() == old(self).initial(),
    {
        let ghost s0 = self.state;
        let mut out: Vec<u8> = Vec::with_capacity(data.len());
        let mut j: usize = 0;
        while j < data.len()
            invariant
                j <= data.len(),
                out.len() == j,
                self.state == prbs_state(s0, (8 * j) as nat),
                self.init_state == old(self).init_state,
                s0 == old(self).state,
                forall|q: int|
                    0 <= q < j ==> #[trigger] out[q] == data[q] ^ keystream_byte(
                        prbs_state(s0, (8 * q) as nat),
                    ),
            decreases data.len() - j,
        {
            let byte = data[j];
            let ghost sj = self.state;
            let mut scrambled: u8 = 0;
            let mut t: u8 = 0;
            proof {
                assert(0u8 ^ 0u8 == 0u8) by (bit_vector);
            }
            while t < 8
                invariant
                    t <= 8,
                    self.state == prbs_state(sj, t as nat),
                    self.init_state == old(self).init_state,
                    scrambled == (if t == 0 { 0u8 } else { byte >> ((8 - t) as u8) }) ^ keystream_acc(
                        sj,
                        t as nat,
                    ),
                decreases 8 - t,
            {
                let prbs: u8 = if self.next_bit() { 1 } else { 0 };
                let data_bit = (byte >> (7 - t)) & 1;
                proof {
                    lemma_scramble_bits(byte, t, keystream_acc(sj, t as nat), prbs, 0);
                }
                scrambled = (scrambled << 1) | (data_bit ^ prbs);
                t += 1;
            }
            proof {
                assert(byte >> 0u8 == byte) by (bit_vector);
                lemma_prbs_state_add(s0, (8 * j) as nat, 8);
            }
            out.push(scrambled);
            j += 1;
        }
        assert(out@ =~= scrambled_bytes(s0, data@));
        out
    }

    /// Scramble/descramble a bit slice.
    pub fn process_bits(&mut self, bits: &[bool]) -> (out: Vec<bool>)
        ensures
            out.len() == bits.len(),
            forall|i: int|
                0 <= i < bits.len() ==> #[trigger] out[i] == (bits[i] != keystream_bit(
                    old(self).register(),
                    i as nat,
                )),
            out@ == scrambled_bits(old(self).register(), bits@),
            final(self).register() == prbs_state(old(self).register(), bits.len() as nat),
            final(self).initial() == old(self).initial(),
    {
        let ghost s0 = self.state;
        let mut out: Vec<bool> = Vec::with_capacity(bits.len());
        let mut i: usize = 0;
        while i < bits.len()
            invariant
                i <= bits.len(),
                out.len() == i,
                self.state == prbs_state(s0, i as nat),
                self.init_state == old(self).init_state,
                s0 == old(self).state,
                forall|q: int| 0 <= q < i ==> #[trigger] out[q] == (bits[q] != keystream_bit(s0, q as nat)),
            decreases bits.len() - i,
        {
            let k = self.next_bit();
            out.push(bits[i] ^ k);
            i += 1;
        }
        assert(out@ =~= scrambled_bits(s0, bits@));
        out
    }
}

impl Default for EnergyDispersal {
    fn default() -> (e: Self)
        ensures
            e.register() == 0x1FF,
            e.initial() == 0x1FF,
    {
        Self::new()
    }
}

/// Scrambling is its own inverse: from the same starting register, the
/// byte scrambler applied to its own output gives the input back.
pub proof fn lemma_energy_dispersal_involution(s: u16, data: Seq<u8>, scrambled: Seq<u8>, restored: Seq<u8>)
    requires
        scrambled.len() == data.len(),
        forall|j: int|
            0 <= j < data.len() ==> #[trigger] scrambled[j] == data[j] ^ keystream_byte(
                prbs_state(s, (8 * j) as nat),
            ),
        restored.len() == scrambled.len(),
        forall|j: int|
            0 <= j < scrambled.len() ==> #[trigger] restored[j] == scrambled[j] ^ keystream_byte(
                prbs_state(s, (8 * j) as nat),
            ),
    ensures
        restored == data,
{
    assert forall|j: int| 0 <= j < data.len() implies restored[j] == data[j] by {
        let d = data[j];
        let k = keystream_byte(prbs_state(s, (8 * j) as nat));
        assert(scrambled[j] == d ^ k);
        assert((d ^ k) ^ k == d) by (bit_vector);
    }
    assert(restored =~= data);
}

/// The bit scrambler is its own inverse too: from the same starting
/// register, scrambling the scrambled bits gives the input bits back.
pub proof fn lemma_energy_dispersal_bits_involution(
    s: u16,
    bits: Seq<bool>,
    scrambled: Seq<bool>,
    restored: Seq<bool>,
)
    requires
        scrambled.len() == bits.len(),
        forall|i: int| 0 <= i < bits.len() ==> #[trigger] scrambled[i] == (bits[i] != keystream_bit(s, i as nat)),
        restored.len() == scrambled.len(),
        forall|i: int|
            0 <= i < scrambled.len() ==> #[trigger] restored[i] == (scrambled[i] != keystream_bit(s, i as nat)),
    ensures
        restored == bits,
{
    assert forall|i: int| 0 <= i < bits.len() implies restored[i] == bits[i] by {
        assert(scrambled[i] == (bits[i] != keystream_bit(s, i as nat)));
    }
    assert(restored =~= bits);
}

/// The bit and byte forms of the scrambler agree: from the same register,
/// scrambling the bits of a byte stream gives the bits of the scrambled
/// bytes (the keystream is laid onto each byte most significant bit first).
pub proof fn lemma_energy_dispersal_forms_agree(s: u16, data: Seq<u8>)
    ensures
        scrambled_bits(s, unpack_bits(data)) == unpack_bits(scrambled_bytes(s, data)),
{
    let lhs = scrambled_bits(s, unpack_bits(data));
    let rhs = unpack_bits(scrambled_bytes(s, data));
    assert forall|i: int| 0 <= i < lhs.len() implies lhs[i] == rhs[i] by {
        let j = i / 8;
        let q = i % 8;
        assert(i == 8 * j + q && 0 <= j < data.len() && 0 <= q < 8);
        let sj = prbs_state(s, (8 * j) as nat);
        lemma_prbs_state_add(s, (8 * j) as nat, q as nat);
        lemma_keystream_acc_bit(sj, 8, q as nat);
        lemma_scramble_bits(data[j], 0, keystream_byte(sj), 0, (7 - q) as u8);
        assert(keystream_bit(sj, q as nat) == keystream_bit(s, i as nat));
    }
    assert(lhs =~= rhs);
}

} // verus!
