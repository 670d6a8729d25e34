//! Puncturing of the rate-1/4 mother code and its inverse.

use vstd::prelude::*;

verus! {

/// EEP (Equal Error Protection) protection level.
#[derive(Debug, Clone, Copy, PartialEq, Eq, Structural)]
pub enum EepLevel {
    /// Protection level 1-A: code rate 1/4.
    Level1A,
    /// Protection level 2-A: code rate 3/8.
    Level2A,
    /// Protection level 3-A: code rate 1/2.
    Level3A,
    /// Protection level 4-A: code rate 3/4.
    Level4A,
    /// Protection level 1-B: code rate 4/9.
    Level1B,
    /// Protection level 2-B: code rate 4/7.
    Level2B,
    /// Protection level 3-B: code rate 4/6.
    Level3B,
    /// Protection level 4-B: code rate 4/5.
    Level4B,
}

/// The puncture pattern (1 = keep, 0 = puncture) and the two rate numbers
/// of each protection level.
pub open spec fn eep_table(level: EepLevel) -> (Seq<u8>, u32, u32) {
    match level {
        EepLevel::Level1A => (seq![1u8, 1, 1, 1], 1, 1),
        EepLevel::Level2A => (seq![1u8, 1, 1, 0, 1, 1, 0, 0], 3, 8),
        EepLevel::Level3A => (seq![1u8, 1, 0, 0, 1, 1, 0, 0], 1, 2),
        EepLevel::Level4A => (seq![1u8, 0, 0, 0, 1, 0, 0, 0, 1, 1, 0, 0], 3, 4),
        EepLevel::Level1B => (seq![1u8, 1, 1, 1, 0, 1, 1, 1, 1], 4, 9),
        EepLevel::Level2B => (seq![1u8, 1, 1, 0, 1, 1, 1, 0, 1, 1, 1, 0, 1], 4, 7),
        EepLevel::Level3B => (seq![1u8, 1, 1, 0, 1, 1, 0, 0], 1, 2),
        EepLevel::Level4B => (seq![1u8, 1, 1, 1, 0], 4, 5),
    }
}

/// Returns the puncture pattern (1=keep, 0=puncture) and code rate numerator.
/// Patterns are repeated cyclically. Denominator is always 4 (rate 1/4 mother).
pub fn eep_puncture_pattern(level: EepLevel) -> (r: (&'static [u8], u32, u32))
    ensures
        r.0@ == eep_table(level).0,
        r.1 == eep_table(level).1,
        r.2 == eep_table(level).2,
{
    match level {
        EepLevel::Level1A => {
            let p: &'static [u8] = &[1, 1, 1, 1];
            assert(p@ =~= seq![1u8, 1, 1, 1]);
            (p, 1, 1)
        },
        EepLevel::Level2A => {
            let p: &'static [u8] = &[1, 1, 1, 0, 1, 1, 0, 0];
            assert(p@ =~= seq![1u8, 1, 1, 0, 1, 1, 0, 0]);
            (p, 3, 8)
        },
        EepLevel::Level3A => {
            let p: &'static [u8] = &[1, 1, 0, 0, 1, 1, 0, 0];
            assert(p@ =~= seq![1u8, 1, 0, 0, 1, 1, 0, 0]);
            (p, 1, 2)
        },
        EepLevel::Level4A => {
            let p: &'static [u8] = &[1, 0, 0, 0, 1, 0, 0, 0, 1, 1, 0, 0];
            assert(p@ =~= seq![1u8, 0, 0, 0, 1, 0, 0, 0, 1, 1, 0, 0]);
            (p, 3, 4)
        },
        EepLevel::Level1B => {
            let p: &'static [u8] = &[1, 1, 1, 1, 0, 1, 1, 1, 1];
            assert(p@ =~= seq![1u8, 1, 1, 1, 0, 1, 1, 1, 1]);
            (p, 4, 9)
        },
        EepLevel::Level2B => {
            let p: &'static [u8] = &[1, 1, 1, 0, 1, 1, 1, 0, 1, 1, 1, 0, 1];
            assert(p@ =~= seq![1u8, 1, 1, 0, 1, 1, 1, 0, 1, 1, 1, 0, 1]);
            (p, 4, 7)
        },
        EepLevel::Level3B => {
            let p: &'static [u8] = &[1, 1, 1, 0, 1, 1, 0, 0];
            assert(p@ =~= seq![1u8, 1, 1, 0, 1, 1, 0, 0]);
            (p, 1, 2)
        },
        EepLevel::Level4B => {
            let p: &'static [u8] = &[1, 1, 1, 1, 0];
            assert(p@ =~= seq![1u8, 1, 1, 1, 0]);
            (p, 4, 5)
        },
    }
}

/// Whether position `i` of the coded stream survives puncturing.
pub open spec fn kept(pattern: Seq<u8>, i: int) -> bool {
    pattern[i % (pattern.len() as int)] != 0
}

/// The number of surviving positions among `0 .. i`.
pub open spec fn kept_count(pattern: Seq<u8>, i: int) -> nat
    decreases i,
{
    if i <= 0 {
        0
    } else if kept(pattern, i - 1) {
        kept_count(pattern, i - 1) + 1
    } else {
        kept_count(pattern, i - 1)
    }
}

/// The bits of the first `k` positions of `coded` that survive puncturing,
/// in order.
pub open spec fn punctured(coded: Seq<bool>, pattern: Seq<u8>, k: int) -> Seq<bool>
    decreases k,
{
    if k <= 0 {
        seq![]
    } else if kept(pattern, k - 1) {
        punctured(coded, pattern, k - 1).push(coded[k - 1])
    } else {
        punctured(coded, pattern, k - 1)
    }
}

/// Bit `i` of the depunctured stream: surviving positions take the received
/// bits in order (false once they run out), punctured positions read false.
pub open spec fn depunctured_bit(received: Seq<bool>, pattern: Seq<u8>, i: int) -> bool {
    kept(pattern, i) && kept_count(pattern, i) < received.len() && received[kept_count(pattern, i) as int]
}

/// Puncture a coded bit stream according to a puncture pattern.
///
/// `coded`: all rate-1/4 coded bits.
/// `pattern`: 1=keep, 0=discard, repeated cyclically.
pub fn puncture(coded: &[bool], pattern: &[u8]) -> (out: Vec<bool>)
    requires
        coded.len() == 0 || pattern.len() > 0,
    ensures
        out@ == punctured(coded@, pattern@, coded.len() as int),
{
    let mut out: Vec<bool> = Vec::new();
    let mut i: usize = 0;
    while i < coded.len()
        invariant
            coded.len() == 0 || pattern.len() > 0,
            i <= coded.len(),
            out@ == punctured(coded@, pattern@, i as int),
        decreases coded.len() - i,
    {
        if pattern[i % pattern.len()] != 0 {
            out.push(coded[i]);
        }
        i += 1;
    }
    out
}

/// Depuncture a received bit stream, inserting neutral values (false = 0) at
/// erased positions so the Viterbi decoder receives full-rate input.
///
/// `received`: punctured bits.
/// `pattern`: same pattern used for puncturing.
/// `output_len`: expected number of full-rate output bits.
pub fn depuncture(received: &[bool], pattern: &[u8], output_len: usize) -> (out: Vec<bool>)
    requires
        output_len == 0 || pattern.len() > 0,
    ensures
        out.len() == output_len,
        forall|i: int| 0 <= i < output_len ==> #[trigger] out[i] == depunctured_bit(received@, pattern@, i),
{
    let (bits, _mask) = depuncture_with_mask(received, pattern, output_len);
    bits
}

/// Like [`depuncture`] but also returns a per-bit erasure mask.
///
/// Returns `(depunctured_bits, erased)` where `erased[i] = true` means
/// position `i` was an erasure (filled with `false`).
pub fn depuncture_with_mask(received: &[bool], pattern: &[u8], output_len: usize) -> (r: (
    Vec<bool>,
    Vec<bool>,
))
    requires
        output_len == 0 || pattern.len() > 0,
    ensures
        r.0.len() == output_len,
        r.1.len() == output_len,
        forall|i: int| 0 <= i < output_len ==> #[trigger] r.0[i] == depunctured_bit(received@, pattern@, i),
        forall|i: int| 0 <= i < output_len ==> #[trigger] r.1[i] == !kept(pattern@, i),
{
    let mut bits: Vec<bool> = Vec::with_capacity(output_len);
    let mut mask: Vec<bool> = Vec::with_capacity(output_len);
    let mut ri: usize = 0;
    let mut pi: usize = 0;
    while bits.len() < output_len
        invariant
            output_len == 0 || pattern.len() > 0,
            pi == bits.len(),
            pi <= output_len,
            mask.len() == pi,
            ri <= received.len(),
            ri < received.len() ==> ri == kept_count(pattern@, pi as int),
            ri == received.len() ==> kept_count(pattern@, pi as int) >= received.len(),
            forall|i: int| 0 <= i < pi ==> #[trigger] bits[i] == depunctured_bit(received@, pattern@, i),
            forall|i: int| 0 <= i < pi ==> #[trigger] mask[i] == !kept(pattern@, i),
        decreases output_len - pi,
    {
        if pattern[pi % pattern.len()] != 0 {
            if ri < received.len() {
                bits.push(received[ri]);
                ri += 1;
            } else {
                bits.push(false);
            }
            mask.push(false);
        } else {
            bits.push(false);
            mask.push(true);
        }
        pi += 1;
    }
    (bits, mask)
}

/// The punctured prefix holds one bit per surviving position, each at the
/// index given by the count of survivors before it.
proof fn lemma_punctured_layout(coded: Seq<bool>, pattern: Seq<u8>, k: int)
    requires
        pattern.len() > 0,
        0 <= k <= coded.len(),
    ensures
        punctured(coded, pattern, k).len() == kept_count(pattern, k),
        forall|i: int|
            0 <= i < k && kept(pattern, i) ==> #[trigger] punctured(coded, pattern, k)[kept_count(
                pattern,
                i,
            ) as int] == coded[i],
    decreases k,
{
    if k > 0 {
        lemma_punctured_layout(coded, pattern, k - 1);
        assert forall|i: int| 0 <= i < k && kept(pattern, i) implies #[trigger] punctured(
            coded,
            pattern,
            k,
        )[kept_count(pattern, i) as int] == coded[i] by {
            if i < k - 1 {
                lemma_kept_count_monotone(pattern, i + 1, k - 1);
            }
        }
    }
}

/// The count of surviving positions never decreases.
proof fn lemma_kept_count_monotone(pattern: Seq<u8>, i: int, j: int)
    requires
        0 <= i <= j,
    ensures
        kept_count(pattern, i) <= kept_count(pattern, j),
    decreases j - i,
{
    if i < j {
        lemma_kept_count_monotone(pattern, i, j - 1);
    }
}

/// Depuncturing the punctured stream with the same pattern, to the full
/// length, puts every surviving bit back at its own position.
pub proof fn lemma_depuncture_restores_kept(coded: Seq<bool>, pattern: Seq<u8>, i: int)
    requires
        pattern.len() > 0,
        0 <= i < coded.len(),
        kept(pattern, i),
    ensures
        depunctured_bit(punctured(coded, pattern, coded.len() as int), pattern, i) == coded[i],
{
    lemma_punctured_layout(coded, pattern, coded.len() as int);
    lemma_kept_count_monotone(pattern, i + 1, coded.len() as int);
    assert(punctured(coded, pattern, coded.len() as int)[kept_count(pattern, i) as int] == coded[i]);
}

/// The puncture patterns and rates of the protection levels: the pattern
/// of each level, and its rate numbers.
pub proof fn lemma_eep_values()
    ensures
        eep_table(EepLevel::Level1A) == (seq![1u8, 1, 1, 1], 1u32, 1u32),
        eep_table(EepLevel::Level2A) == (seq![1u8, 1, 1, 0, 1, 1, 0, 0], 3u32, 8u32),
        eep_table(EepLevel::Level3A) == (seq![1u8, 1, 0, 0, 1, 1, 0, 0], 1u32, 2u32),
        eep_table(EepLevel::Level4A) == (seq![1u8, 0, 0, 0, 1, 0, 0, 0, 1, 1, 0, 0], 3u32, 4u32),
        eep_table(EepLevel::Level1B) == (seq![1u8, 1, 1, 1, 0, 1, 1, 1, 1], 4u32, 9u32),
        eep_table(EepLevel::Level2B) == (seq![1u8, 1, 1, 0, 1, 1, 1, 0, 1, 1, 1, 0, 1], 4u32, 7u32),
        eep_table(EepLevel::Level3B) == (seq![1u8, 1, 1, 0, 1, 1, 0, 0], 1u32, 2u32),
        eep_table(EepLevel::Level4B) == (seq![1u8, 1, 1, 1, 0], 4u32, 5u32),
{
}
} // verus!
