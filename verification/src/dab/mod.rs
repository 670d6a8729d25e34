//! DAB/DAB+ channel coding (ETSI EN 300 401 / EN 302 563).

pub mod bits;
pub mod conv;
pub mod fic;
pub mod gf;
pub mod interleave;
pub mod puncture;
pub mod rs;
pub mod rs_correction;
pub mod rs_locator;
pub mod scramble;
pub mod superframe;

use vstd::prelude::*;

use crate::dab::bits::{bits_to_bytes, packed_byte};
use crate::dab::conv::{hard_distance, viterbi_path, DabViterbiDecoder, CONV_RATE_DENOM};
use crate::dab::fic::{fib_crc_ok, DabCrc16, FIB_LENGTH_BYTES};
use crate::dab::interleave::{scattered, TimeInterleaver};
use crate::dab::puncture::{depunctured_bit, eep_puncture_pattern, eep_table, depuncture, EepLevel};
use crate::dab::rs::DabReedSolomon;
use crate::dab::scramble::{keystream_byte, prbs_state, EnergyDispersal};

verus! {

/// FFT size for DAB Mode I.
pub const MODE_I_FFT_SIZE: usize = 2048;
/// Number of active (data-bearing) carriers in Mode I.
pub const MODE_I_ACTIVE_CARRIERS: usize = 1536;
/// Number of OFDM symbols per transmission frame in Mode I.
pub const MODE_I_SYMBOLS_PER_FRAME: usize = 76;
/// Guard interval length in samples for Mode I.
pub const MODE_I_GUARD_LEN: usize = 504;
/// Total OFDM symbol length (FFT + guard) for Mode I.
pub const MODE_I_SYMBOL_LEN: usize = 2552;
/// Number of null symbol samples (frame guard) for Mode I.
pub const MODE_I_NULL_LEN: usize = 2656;

/// DAB+ AAC super frame AU count.
pub const DAB_PLUS_AU_PER_SUPER_FRAME: usize = 5;

/// DAB transmission mode.
#[derive(Debug, Clone, Copy, PartialEq, Eq, Structural)]
pub enum DabMode {
    /// Mode I: terrestrial, 2048-point FFT.
    ModeI,
    /// Mode II: single-frequency networks, 512-point FFT.
    ModeII,
    /// Mode III: hybrid terrestrial/satellite, 256-point FFT.
    ModeIII,
    /// Mode IV: satellite/complementary terrestrial, 1024-point FFT.
    ModeIV,
}

/// Parameters derived from the transmission mode.
#[derive(Debug, Clone)]
pub struct DabModeParams {
    pub fft_size: usize,
    pub active_carriers: usize,
    pub symbols_per_frame: usize,
    pub guard_len: usize,
    pub null_len: usize,
    pub fics_per_frame: usize,
}

/// The mode parameter table (ETSI EN 300 401 Table 38), as a tuple
/// `(fft_size, active_carriers, symbols_per_frame, guard_len, null_len, fics_per_frame)`.
pub open spec fn mode_table(mode: DabMode) -> (int, int, int, int, int, int) {
    match mode {
        DabMode::ModeI => (2048, 1536, 76, 504, 2656, 12),
        DabMode::ModeII => (512, 384, 76, 126, 664, 3),
        DabMode::ModeIII => (256, 192, 153, 63, 345, 4),
        DabMode::ModeIV => (1024, 768, 76, 252, 1328, 6),
    }
}

impl DabModeParams {
    /// The parameters as a tuple, in the order of [`mode_table`].
    pub open spec fn as_tuple(&self) -> (int, int, int, int, int, int) {
        (
            self.fft_size as int,
            self.active_carriers as int,
            self.symbols_per_frame as int,
            self.guard_len as int,
            self.null_len as int,
            self.fics_per_frame as int,
        )
    }

    /// Return parameters for the given mode (ETSI EN 300 401 Table 38).
    pub fn for_mode(mode: DabMode) -> (p: Self)
        ensures
            p.as_tuple() == mode_table(mode),
    {
        match mode {
            DabMode::ModeI => DabModeParams {
                fft_size: 2048,
                active_carriers: 1536,
                symbols_per_frame: 76,
                guard_len: 504,
                null_len: 2656,
                fics_per_frame: 12,
            },
            DabMode::ModeII => DabModeParams {
                fft_size: 512,
                active_carriers: 384,
                symbols_per_frame: 76,
                guard_len: 126,
                null_len: 664,
                fics_per_frame: 3,
            },
            DabMode::ModeIII => DabModeParams {
                fft_size: 256,
                active_carriers: 192,
                symbols_per_frame: 153,
                guard_len: 63,
                null_len: 345,
                fics_per_frame: 4,
            },
            DabMode::ModeIV => DabModeParams {
                fft_size: 1024,
                active_carriers: 768,
                symbols_per_frame: 76,
                guard_len: 252,
                null_len: 1328,
                fics_per_frame: 6,
            },
        }
    }
}

/// Generates the Phase Reference Symbol (symbol 0 of each frame) used for
/// frame synchronization and coarse frequency offset estimation.
pub struct PrsGenerator {
    mode: DabMode,
    params: DabModeParams,
}

impl PrsGenerator {
    /// The parameters are those of the mode.
    #[verifier::type_invariant]
    spec fn params_match(&self) -> bool {
        self.params.as_tuple() == mode_table(self.mode)
    }

    /// The mode this generator was made for.
    pub closed spec fn mode(&self) -> DabMode {
        self.mode
    }

    /// The mode parameters in use.
    pub closed spec fn params_view(&self) -> (int, int, int, int, int, int) {
        self.params.as_tuple()
    }

    /// Create a PRS generator for the given mode.
    pub fn new(mode: DabMode) -> (g: Self)
        ensures
            g.mode() == mode,
            g.params_view() == mode_table(mode),
    {
        let params = DabModeParams::for_mode(mode);
        PrsGenerator { mode, params }
    }
}

/// One step of the register that draws the PRS carrier phases.
pub open spec fn prs_lfsr_step(l: u32) -> u32 {
    (l << 1u32) | (((l >> 15u32) ^ (l >> 13u32) ^ (l >> 12u32) ^ (l >> 10u32)) & 1u32)
}

/// The phase register after `k` steps from `seed`.
pub open spec fn prs_lfsr(seed: u32, k: nat) -> u32
    decreases k,
{
    if k == 0 {
        seed
    } else {
        prs_lfsr_step(prs_lfsr(seed, (k - 1) as nat))
    }
}

/// The register seed of each mode's phase reference symbol.
pub open spec fn prs_seed(mode: DabMode) -> u32 {
    match mode {
        DabMode::ModeI => 0x2AD4,
        DabMode::ModeII => 0x1234,
        DabMode::ModeIII => 0xABCD,
        DabMode::ModeIV => 0x5678,
    }
}

/// The phases of `count` carriers in quarter turns (0 to 3): the low two
/// bits of the register after each step from `seed`.
pub fn prs_phase_quadrants(count: usize, seed: u32) -> (q: Vec<u8>)
    ensures
        q.len() == count,
        forall|i: int| 0 <= i < count ==> #[trigger] q[i] == (prs_lfsr(seed, (i + 1) as nat) & 3u32) as u8,
{
    let mut q: Vec<u8> = Vec::with_capacity(count);
    let mut lfsr: u32 = seed;
    let mut i: usize = 0;
    while i < count
        invariant
            i <= count,
            q.len() == i,
            lfsr == prs_lfsr(seed, i as nat),
            forall|j: int| 0 <= j < i ==> #[trigger] q[j] == (prs_lfsr(seed, (j + 1) as nat) & 3u32) as u8,
        decreases count - i,
    {
        let bit = ((lfsr >> 15) ^ (lfsr >> 13) ^ (lfsr >> 12) ^ (lfsr >> 10)) & 1;
        lfsr = (lfsr << 1) | bit;
        q.push((lfsr & 3) as u8);
        i += 1;
    }
    q
}

impl PrsGenerator {
    /// The phase of each carrier from `-K` to `K` (K half the active
    /// carriers), in quarter turns, drawn from the mode's register seed.
    pub fn phase_quadrants(&self) -> (q: Vec<u8>)
        ensures
            q.len() == 2 * (mode_table(self.mode()).1 / 2) + 1,
            forall|i: int|
                0 <= i < q.len() ==> #[trigger] q[i] == (prs_lfsr(prs_seed(self.mode()), (i + 1) as nat) & 3u32) as u8,
    {
        proof {
            use_type_invariant(self);
        }
        let k_max = self.params.active_carriers / 2;
        let seed: u32 = match self.mode {
            DabMode::ModeI => 0x2AD4,
            DabMode::ModeII => 0x1234,
            DabMode::ModeIII => 0xABCD,
            DabMode::ModeIV => 0x5678,
        };
        prs_phase_quadrants(2 * k_max + 1, seed)
    }

    /// The mode this generator was made for.
    pub fn mode_of(&self) -> (m: DabMode)
        ensures
            m == self.mode(),
    {
        self.mode
    }
}

/// DAB OFDM Demodulator.
///
/// Removes the cyclic prefix, applies FFT, and extracts the active carrier
/// symbols from each OFDM symbol.
pub struct DabOfdmDemodulator {
    params: DabModeParams,
}

impl DabOfdmDemodulator {
    /// The mode parameters in use.
    pub closed spec fn params_view(&self) -> (int, int, int, int, int, int) {
        self.params.as_tuple()
    }

    /// Create a demodulator for the given DAB mode.
    pub fn new(mode: DabMode) -> (d: Self)
        ensures
            d.params_view() == mode_table(mode),
    {
        DabOfdmDemodulator { params: DabModeParams::for_mode(mode) }
    }
}

/// DAB OFDM Modulator (for testing/simulation).
pub struct DabOfdmModulator {
    params: DabModeParams,
}

impl DabOfdmModulator {
    /// The mode parameters in use.
    pub closed spec fn params_view(&self) -> (int, int, int, int, int, int) {
        self.params.as_tuple()
    }

    /// Create a modulator for the given DAB mode.
    pub fn new(mode: DabMode) -> (m: Self)
        ensures
            m.params_view() == mode_table(mode),
    {
        DabOfdmModulator { params: DabModeParams::for_mode(mode) }
    }
}

/// Differential QPSK decoder for DAB.
pub struct DqpskDecoder;

impl DqpskDecoder {
    /// Create a new DQPSK decoder.
    pub fn new() -> Self {
        DqpskDecoder
    }
}

impl Default for DqpskDecoder {
    fn default() -> Self {
        DqpskDecoder
    }
}

/// DAB frame timing calculations.
pub struct FrameTiming;

impl FrameTiming {
    /// Total samples per Mode I transmission frame: the null symbol and 76
    /// OFDM symbols of guard plus FFT length each.
    pub fn samples_per_frame_mode_i() -> (n: usize)
        ensures
            n == MODE_I_NULL_LEN + MODE_I_SYMBOLS_PER_FRAME * (MODE_I_FFT_SIZE + MODE_I_GUARD_LEN),
    {
        MODE_I_NULL_LEN + MODE_I_SYMBOLS_PER_FRAME * (MODE_I_FFT_SIZE + MODE_I_GUARD_LEN)
    }

    /// Number of bits per CIF (Common Interleaved Frame) per capacity unit.
    pub fn bits_per_cu() -> (n: usize)
        ensures
            n == 64,
    {
        64
    }
}

/// Configuration for a subchannel extraction.
#[derive(Debug, Clone)]
pub struct SubchannelConfig {
    pub id: u8,
    pub start_cu: usize,
    pub size_cu: usize,
    pub protection: EepLevel,
    pub is_dab_plus: bool,
}

/// Full DAB channel decoder combining all processing stages.
pub struct DabChannelDecoder {
    mode: DabMode,
    ofdm_demod: DabOfdmDemodulator,
    dqpsk_dec: DqpskDecoder,
    viterbi_dec: DabViterbiDecoder,
    energy_dispers: EnergyDispersal,
    time_interleaver: TimeInterleaver,
    rs_codec: DabReedSolomon,
    prs_gen: PrsGenerator,
}

/// A maximum-likelihood decoding of `received`: one source bit per four
/// received bits, and no input sequence of that length has a code closer
/// to `received`.
pub open spec fn ml_decoding(received: Seq<bool>, bits: Seq<bool>) -> bool {
    &&& bits.len() == received.len() / 4
    &&& forall|p: Seq<bool>|
        p.len() == bits.len() ==> #[trigger] hard_distance(received, p) >= hard_distance(received, bits)
}

/// The bits packed into bytes, most significant first.
pub open spec fn packed_bytes(bits: Seq<bool>) -> Seq<u8> {
    Seq::new(((bits.len() + 7) / 8) as nat, |j: int| packed_byte(bits, j))
}

/// Bytes descrambled with the energy dispersal keystream from register `s`.
pub open spec fn descrambled(bytes: Seq<u8>, s: u16) -> Seq<u8> {
    Seq::new(bytes.len(), |j: int| bytes[j] ^ keystream_byte(prbs_state(s, (8 * j) as nat)))
}

/// The full-rate stream rebuilt from received bits with a pattern.
pub open spec fn depunctured_stream(received: Seq<bool>, pattern: Seq<u8>, len: nat) -> Seq<bool> {
    Seq::new(len, |i: int| depunctured_bit(received, pattern, i))
}

/// The deinterleaved and depunctured stream of a block of received bits,
/// for a frame length and puncture pattern.
pub open spec fn channel_stream(block: Seq<bool>, frame_len: int, pattern: Seq<u8>) -> Seq<bool> {
    let n = if block.len() < frame_len { block.len() as int } else { frame_len };
    depunctured_stream(scattered(block, n, n), pattern, (n * 4) as nat)
}

/// The 32-byte chunks among the first `k` whole chunks of `bytes` that
/// carry a correct FIB CRC, in order.
pub open spec fn valid_fibs(bytes: Seq<u8>, k: int) -> Seq<Seq<u8>>
    decreases k,
{
    if k <= 0 {
        seq![]
    } else {
        let chunk = bytes.subrange(32 * (k - 1), 32 * k);
        if fib_crc_ok(chunk) {
            valid_fibs(bytes, k - 1).push(chunk)
        } else {
            valid_fibs(bytes, k - 1)
        }
    }
}

/// The MSC subchannel bits: `size_cu` capacity units from `start_cu` on,
/// clipped at the end; empty when the start lies past the end.
pub open spec fn subchannel_bits(msc: Seq<bool>, start_cu: int, size_cu: int) -> Seq<bool> {
    let start = start_cu * 64;
    let len = size_cu * 64;
    if start > msc.len() {
        seq![]
    } else {
        let avail = msc.len() - start;
        msc.subrange(start, start + if len < avail { len } else { avail })
    }
}

impl DabChannelDecoder {
    /// The mode the decoder was made for.
    pub closed spec fn mode(&self) -> DabMode {
        self.mode
    }

    /// The decoder's invariant: an interleaver of 3072-bit frames, and the
    /// scrambler at its all-ones start register.
    pub closed spec fn wf(&self) -> bool {
        &&& self.time_interleaver.wf()
        &&& self.time_interleaver.frame_length() == 3072
        &&& self.energy_dispers.register() == 0x1FF
        &&& self.energy_dispers.initial() == 0x1FF
    }

    /// Create a new DAB channel decoder for the given mode.
    pub fn new(mode: DabMode) -> (d: Self)
        ensures
            d.mode() == mode,
            d.wf(),
    {
        let frame_len = MODE_I_ACTIVE_CARRIERS * 2;
        DabChannelDecoder {
            mode,
            ofdm_demod: DabOfdmDemodulator::new(mode),
            dqpsk_dec: DqpskDecoder::new(),
            viterbi_dec: DabViterbiDecoder::new(),
            energy_dispers: EnergyDispersal::new(),
            time_interleaver: TimeInterleaver::new(frame_len),
            rs_codec: DabReedSolomon::new(),
            prs_gen: PrsGenerator::new(mode),
        }
    }

    /// Get the OFDM parameters for this decoder.
    pub fn params(&self) -> (p: DabModeParams)
        ensures
            p.as_tuple() == mode_table(self.mode()),
    {
        DabModeParams::for_mode(self.mode)
    }

    /// Deinterleave, depuncture, Viterbi-decode, pack and descramble one
    /// block of received bits, leaving the scrambler reset.
    fn decode_block(&mut self, block: &[bool], pattern: &[u8]) -> (out: Vec<u8>)
        requires
            old(self).wf(),
            pattern.len() > 0,
        ensures
            final(self).wf(),
            final(self).mode() == old(self).mode(),
            ml_decoding(
                channel_stream(block@, 3072, pattern@),
                viterbi_path(channel_stream(block@, 3072, pattern@), Seq::empty(), false),
            ),
            out@ == descrambled(
                packed_bytes(viterbi_path(channel_stream(block@, 3072, pattern@), Seq::empty(), false)),
                0x1FF,
            ),
    {
        let deint = self.time_interleaver.deinterleave(block);
        let expected = deint.len() * CONV_RATE_DENOM;
        let depunct = depuncture(deint.as_slice(), pattern, expected);
        proof {
            assert(depunct@ =~= channel_stream(block@, 3072, pattern@));
        }
        let decoded = self.viterbi_dec.decode(depunct.as_slice());
        let bytes = bits_to_bytes(decoded.as_slice());
        let out = self.energy_dispers.process(bytes.as_slice());
        self.energy_dispers.reset();
        proof {
            assert(bytes@ =~= packed_bytes(decoded@));
            assert(out@ =~= descrambled(packed_bytes(decoded@), 0x1FF));
            assert(ml_decoding(channel_stream(block@, 3072, pattern@), decoded@));
            assert(decoded@ == viterbi_path(channel_stream(block@, 3072, pattern@), Seq::empty(), false));
        }
        out
    }

    /// Channel decoding of one frame's DQPSK bits (two per carrier, symbol
    /// after symbol): the FIC (first three symbols) and the subchannel's
    /// share of the MSC each go through time deinterleaving, depuncturing,
    /// Viterbi decoding and energy dispersal; the FIBs of the FIC that pass
    /// their CRC come back with the MSC bytes.
    pub fn decode_frame_bits(&mut self, bits: &[bool], subchannel: &SubchannelConfig) -> (r: (
        Vec<Vec<u8>>,
        Vec<u8>,
    ))
        requires
            old(self).wf(),
            bits.len() >= 6 * mode_table(old(self).mode()).1,
            subchannel.start_cu * 64 <= usize::MAX,
            subchannel.size_cu * 64 <= usize::MAX,
        ensures
            final(self).wf(),
            final(self).mode() == old(self).mode(),
            ({
                let c = mode_table(old(self).mode()).1;
                let fic = bits@.subrange(0, 6 * c);
                let msc = bits@.subrange(6 * c, bits.len() as int);
                let sub = subchannel_bits(msc, subchannel.start_cu as int, subchannel.size_cu as int);
                let fic_rx = channel_stream(fic, 3072, eep_table(EepLevel::Level1A).0);
                let sub_rx = channel_stream(sub, 3072, eep_table(subchannel.protection).0);
                let fic_path = viterbi_path(fic_rx, Seq::empty(), false);
                let sub_path = viterbi_path(sub_rx, Seq::empty(), false);
                &&& ml_decoding(fic_rx, fic_path)
                &&& ml_decoding(sub_rx, sub_path)
                &&& r.0@.map_values(|f: Vec<u8>| f@) == valid_fibs(
                    descrambled(packed_bytes(fic_path), 0x1FF),
                    (descrambled(packed_bytes(fic_path), 0x1FF).len() / 32) as int,
                )
                &&& r.1@ == descrambled(packed_bytes(sub_path), 0x1FF)
            }),
    {
        let params = self.params();
        let carriers_per_sym = params.active_carriers;
        let split = 3 * carriers_per_sym * 2;
        let fic_bits = &bits[0..split];
        let msc_bits = &bits[split..bits.len()];

        let (fic_pattern, _, _) = eep_puncture_pattern(EepLevel::Level1A);
        let fic_descrambled = self.decode_block(fic_bits, fic_pattern);
        let ghost fic_bytes = fic_descrambled@;

        let mut fibs: Vec<Vec<u8>> = Vec::new();
        let nchunks = fic_descrambled.len() / FIB_LENGTH_BYTES;
        let mut k: usize = 0;
        while k < nchunks
            invariant
                nchunks == fic_bytes.len() / 32,
                fic_descrambled@ == fic_bytes,
                k <= nchunks,
                fibs@.map_values(|f: Vec<u8>| f@) == valid_fibs(fic_bytes, k as int),
            decreases nchunks - k,
        {
            proof {
                assert(32 * k + 32 <= fic_bytes.len()) by (nonlinear_arith)
                    requires k < nchunks, nchunks == fic_bytes.len() / 32;
                assert(fic_bytes.len() == fic_descrambled.len());
            }
            let chunk = &fic_descrambled.as_slice()[32 * k..32 * k + 32];
            if DabCrc16::verify_fib(chunk) {
                let ghost before = fibs@;
                fibs.push(vstd::slice::slice_to_vec(chunk));
                proof {
                    assert(fibs@.map_values(|f: Vec<u8>| f@) =~= before.map_values(|f: Vec<u8>| f@).push(
                        fic_bytes.subrange(32 * k, 32 * k + 32),
                    ));
                }
            }
            k += 1;
        }

        let cu_start = subchannel.start_cu * 64;
        let cu_len = subchannel.size_cu * 64;
        let avail: usize = if msc_bits.len() >= cu_start { msc_bits.len() - cu_start } else { 0 };
        let take: usize = if cu_len < avail { cu_len } else { avail };
        let empty: Vec<bool> = Vec::new();
        let msc_subchan: &[bool] = if cu_start <= msc_bits.len() {
            &msc_bits[cu_start..cu_start + take]
        } else {
            empty.as_slice()
        };
        proof {
            let c = mode_table(old(self).mode()).1;
            assert(msc_subchan@ =~= subchannel_bits(
                bits@.subrange(6 * c, bits.len() as int),
                subchannel.start_cu as int,
                subchannel.size_cu as int,
            ));
        }
        let (msc_pattern, _, _) = eep_puncture_pattern(subchannel.protection);
        let msc_descrambled = self.decode_block(msc_subchan, msc_pattern);
        proof {
            let c = mode_table(old(self).mode()).1;
            assert(fic_bits@ =~= bits@.subrange(0, 6 * c));
        }
        (fibs, msc_descrambled)
    }
}

/// The DAB mode parameters (ETSI EN 300 401 Table 38) for every mode; the
/// active carriers are three quarters of the FFT size in each mode.
pub proof fn lemma_mode_values()
    ensures
        mode_table(DabMode::ModeI) == (2048int, 1536int, 76int, 504int, 2656int, 12int),
        mode_table(DabMode::ModeII) == (512int, 384int, 76int, 126int, 664int, 3int),
        mode_table(DabMode::ModeIII) == (256int, 192int, 153int, 63int, 345int, 4int),
        mode_table(DabMode::ModeIV) == (1024int, 768int, 76int, 252int, 1328int, 6int),
        forall|m: DabMode| 4 * (#[trigger] mode_table(m)).1 == 3 * mode_table(m).0,
{
}
} // verus!
