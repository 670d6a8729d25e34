# r4w_core

Channel coding, framing and mesh networking logic for a software radio
stack, written in Verus: every function of the library carries a contract,
and all but a few small trusted wrappers (around the clock, string
formatting and the cryptography crates) are proved against it.

## Layout

- `src/` — the verified library.
  - `crc.rs` — CRC-16/CCITT, with the proof that it catches any single
    corrupted byte.
  - `dab/` — DAB/DAB+ channel coding: bit packing, energy dispersal
    (with the proof that its bit and byte forms agree), convolutional code
    and Viterbi decoder (with the proofs that it corrects any single flipped
    bit and that, with nothing erased, the erasure-aware decoder returns the
    plain decoder's path), puncturing, time interleaving,
    FIB check and FIG parsing, GF(2^8) arithmetic, Reed-Solomon RS(120,110)
    (with the proofs that any one to five corrupted bytes are corrected,
    that one to ten are never reported clean, and that a failed decode
    leaves the word as it was), the DAB+ superframe parser, and the
    frame-level channel decoder.
  - `lte.rs` — NB-IoT coding helpers: transport block sizes, Gold-sequence
    scrambling, CRC-24A, tail-biting convolutional and turbo coding, rate
    matching, DCI packing and the per-channel bit pipelines.
  - `dpqpsk.rs` — differential decoding and bit mapping of QPSK symbols.
  - `mesh/` — mesh packets and their wire format, channel encryption,
    CSMA/CA channel access, Meshtastic presets and regions, telemetry and
    traceroute messages and their managers, and the neighbor-table and
    airtime-window decisions, taken on clock readings the caller makes.
  - `cli.rs` — argument validation for the command line.
- `tests/` — tests of the library, run against the compiled crate.
- `app/` — the `r4w` command line and the floating-point signal
  processing (FFT, OFDM, modulation, optical receiver DSP) around the
  library.

Outside crates: `aes`, `ctr`, `hmac` and `sha2` are called from the
library behind small trusted wrappers whose contracts name what they
compute; `clap`, `serde`, `tracing` and `anyhow` are used by `app/` only.
