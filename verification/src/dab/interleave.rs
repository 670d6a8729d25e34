//! DAB time interleaver (depth 16).

use vstd::prelude::*;
use vstd::arithmetic::div_mod::{lemma_fundamental_div_mod, lemma_mod_multiples_vanish, lemma_mul_mod_noop};
use vstd::relations::injective_on;
use vstd::set_lib::{lemma_int_range, lemma_map_size, lemma_subset_equality, set_int_range};

verus! {

/// Time interleaver depth.
pub const TIME_INTERLEAVER_DEPTH: usize = 16;

/// The first `n` positions of `row` overwritten by the first `n` input bits.
pub open spec fn row_written(row: Seq<bool>, input: Seq<bool>, n: int) -> Seq<bool> {
    input.subrange(0, n) + row.subrange(n, row.len() as int)
}

/// The source bit of output position `i` in a frame of `n` bits.
pub open spec fn perm_bit(i: int, n: int) -> int {
    (i * 15) % n
}

/// The frame delay of output position `i`.
pub open spec fn perm_delay(i: int) -> int {
    i % 16
}

/// `n` false bits with the first `k` input bits written, in order, at
/// their permuted positions (a later write to a position replaces an
/// earlier one).
pub open spec fn scattered(input: Seq<bool>, n: int, k: int) -> Seq<bool>
    decreases k,
{
    if k <= 0 {
        Seq::new(n as nat, |j: int| false)
    } else {
        scattered(input, n, k - 1).update(perm_bit(k - 1, n), input[k - 1])
    }
}


/// A product `q * n` that is a multiple of the prime `p` (3 or 5), with
/// `n` not one, has `q` a multiple of `p`.
proof fn lemma_prime_factor(q: int, n: int, p: int)
    requires
        p == 3 || p == 5,
        n % p != 0,
        (q * n) % p == 0,
    ensures
        q % p == 0,
{
    lemma_mul_mod_noop(q, n, p);
    let a = q % p;
    let b = n % p;
    assert(0 <= a < p && 0 < b < p);
    if a != 0 {
        assert((a * b) % p != 0) by (nonlinear_arith)
            requires
                p == 3 || p == 5,
                0 < a < p,
                0 < b < p,
        {
            if p == 3 {
                assert(a == 1 || a == 2);
                assert(b == 1 || b == 2);
            } else {
                assert(a == 1 || a == 2 || a == 3 || a == 4);
                assert(b == 1 || b == 2 || b == 3 || b == 4);
            }
        }
    }
}

/// With a frame length prime to 3 and 5, distinct positions of the frame
/// have distinct permuted positions.
proof fn lemma_perm_bit_injective(a: int, b: int, n: int)
    requires
        0 <= a < b < n,
        n % 3 != 0,
        n % 5 != 0,
    ensures
        perm_bit(a, n) != perm_bit(b, n),
{
    if perm_bit(a, n) == perm_bit(b, n) {
        let d = b - a;
        lemma_fundamental_div_mod(a * 15, n);
        lemma_fundamental_div_mod(b * 15, n);
        let q = (b * 15) / n - (a * 15) / n;
        assert(15 * d == q * n) by (nonlinear_arith)
            requires
                a * 15 == n * ((a * 15) / n) + (a * 15) % n,
                b * 15 == n * ((b * 15) / n) + (b * 15) % n,
                (a * 15) % n == (b * 15) % n,
                q == (b * 15) / n - (a * 15) / n,
                d == b - a,
        ;
        assert((q * n) % 3 == 0) by {
            assert(q * n == 3 * (5 * d));
        }
        lemma_prime_factor(q, n, 3);
        let q1 = q / 3;
        assert(5 * d == q1 * n) by (nonlinear_arith)
            requires
                15 * d == q * n,
                q % 3 == 0,
                q1 == q / 3,
        ;
        assert((q1 * n) % 5 == 0) by {
            assert(q1 * n == 5 * d);
        }
        lemma_prime_factor(q1, n, 5);
        let q2 = q1 / 5;
        assert(false) by (nonlinear_arith)
            requires
                5 * d == q1 * n,
                q1 % 5 == 0,
                q2 == q1 / 5,
                0 < d < n,
        ;
    }
}

/// With a frame length prime to 3 and 5, every position of the frame is
/// the permuted position of one below the length.
proof fn lemma_perm_bit_onto(n: int, j: int)
    requires
        0 <= j < n,
        n % 3 != 0,
        n % 5 != 0,
    ensures
        exists|m: int| 0 <= m < n && perm_bit(m, n) == j,
{
    let s = set_int_range(0, n);
    let f = |i: int| perm_bit(i, n);
    lemma_int_range(0, n);
    assert(injective_on(f, s)) by {
        assert forall|x1: int, x2: int| s.contains(x1) && s.contains(x2) && #[trigger] f(x1) == #[trigger] f(x2) implies x1
            == x2 by {
            if x1 < x2 {
                lemma_perm_bit_injective(x1, x2, n);
            } else if x2 < x1 {
                lemma_perm_bit_injective(x2, x1, n);
            }
        }
    }
    lemma_map_size(s, s.map(f), f);
    assert(s.map(f).subset_of(s)) by {
        assert forall|y: int| s.map(f).contains(y) implies s.contains(y) by {
            let i = choose|i: int| s.contains(i) && y == f(i);
            assert(0 <= (i * 15) % n < n);
        }
    }
    lemma_subset_equality(s.map(f), s);
    assert(s.map(f).contains(j));
}


/// Scattering the first `k` bits of an input, for a frame length prime to
/// 3 and 5, leaves each of them at its permuted position.
proof fn lemma_scattered_at(input: Seq<bool>, n: int, k: int, m: int)
    requires
        0 < n,
        n % 3 != 0,
        n % 5 != 0,
        k <= n,
        0 <= m < k,
    ensures
        scattered(input, n, k)[perm_bit(m, n)] == input[m],
    decreases k,
{
    lemma_scattered_len(input, n, k - 1);
    assert(0 <= perm_bit(k - 1, n) < n);
    if m < k - 1 {
        lemma_scattered_at(input, n, k - 1, m);
        lemma_perm_bit_injective(m, k - 1, n);
    }
}

/// Deinterleaving undoes the interleaver in its steady state: when every
/// one of the 16 rows holds the same frame `x`, whose length is prime to 3
/// and 5, the interleaved frame (each output bit read from its delayed row
/// at its permuted position) scatters back to `x`.
pub proof fn lemma_deinterleave_undoes_steady_interleave(rows: Seq<Seq<bool>>, wp: int, x: Seq<bool>, out: Seq<bool>)
    requires
        rows.len() == 16,
        0 <= wp < 16,
        x.len() > 0,
        x.len() % 3 != 0,
        x.len() % 5 != 0,
        forall|r: int| 0 <= r < 16 ==> (#[trigger] rows[r]).len() >= x.len() && rows[r].subrange(0, x.len() as int) == x,
        out.len() == x.len(),
        forall|i: int|
            0 <= i < x.len() ==> #[trigger] out[i] == rows[(wp + 16 - perm_delay(i)) % 16][perm_bit(i, x.len() as int)],
    ensures
        scattered(out, x.len() as int, x.len() as int) == x,
{
    let n = x.len() as int;
    lemma_scattered_len(out, n, n);
    assert forall|j: int| 0 <= j < n implies scattered(out, n, n)[j] == x[j] by {
        lemma_perm_bit_onto(n, j);
        let m = choose|m: int| 0 <= m < n && perm_bit(m, n) == j;
        lemma_scattered_at(out, n, n, m);
        let r = (wp + 16 - perm_delay(m)) % 16;
        assert(0 <= r < 16);
        assert(rows[r].subrange(0, n)[j] == rows[r][j]);
    }
    assert(scattered(out, n, n) =~= x);
}

/// The 16 rows of a fresh interleaver for frames of `len` bits after the
/// full-length frames `frames` were written, one per call, frame `s` into
/// row `s mod 16`.
pub open spec fn rows_after(len: nat, frames: Seq<Seq<bool>>) -> Seq<Seq<bool>>
    decreases frames.len(),
{
    if frames.len() == 0 {
        Seq::new(16, |r: int| Seq::new(len, |j: int| false))
    } else {
        rows_after(len, frames.drop_last()).update((frames.len() - 1) % 16, frames.last())
    }
}

/// The index of the last of the first `k` frames that went into row `r`
/// (negative when none did).
pub open spec fn last_written(k: int, r: int) -> int {
    k - 1 - (k - 1 - r) % 16
}

/// Each row holds the last frame written into it, or zeros.
proof fn lemma_rows_after_row(len: nat, frames: Seq<Seq<bool>>, r: int)
    requires
        0 <= r < 16,
    ensures
        rows_after(len, frames).len() == 16,
        rows_after(len, frames)[r] == if last_written(frames.len() as int, r) >= 0 {
            frames[last_written(frames.len() as int, r)]
        } else {
            Seq::new(len, |j: int| false)
        },
    decreases frames.len(),
{
    let k = frames.len() as int;
    if k > 0 {
        let prev = frames.drop_last();
        lemma_rows_after_row(len, prev, r);
        if r != (k - 1) % 16 {
            assert((k - 1 - r) % 16 == (k - 2 - r) % 16 + 1);
            let l = last_written(k - 1, r);
            if l >= 0 {
                assert(prev[l] == frames[l]);
            }
        } else {
            assert((k - 1 - r) % 16 == 0);
        }
    } else {
        assert((-1 - r) % 16 == 15 - r);
    }
}

/// Rows written by full-length frames, one call after another: writing one
/// more frame at the next write position gives the rows after that frame.
pub proof fn lemma_rows_after_push(len: nat, frames: Seq<Seq<bool>>, x: Seq<bool>)
    requires
        x.len() == len,
        forall|s: int| 0 <= s < frames.len() ==> (#[trigger] frames[s]).len() == len,
    ensures
        rows_after(len, frames.push(x)) == rows_after(len, frames).update(
            frames.len() as int % 16,
            row_written(rows_after(len, frames)[frames.len() as int % 16], x, len as int),
        ),
{
    let r = frames.len() as int % 16;
    lemma_rows_after_row(len, frames, r);
    let row = rows_after(len, frames)[r];
    assert(row.len() == len) by {
        let l = last_written(frames.len() as int, r);
        if l >= 0 {
            assert(frames[l].len() == len);
        }
    }
    assert(row_written(row, x, len as int) =~= x);
    assert(frames.push(x).drop_last() =~= frames);
}

/// Writing one more full-length frame keeps the rows those of the frames
/// written so far.
proof fn lemma_history_step(len: nat, frames: Seq<Seq<bool>>, x: Seq<bool>, rows: Seq<Seq<bool>>)
    requires
        x.len() == len,
        forall|q: int| 0 <= q < frames.len() ==> (#[trigger] frames[q]).len() == len,
        rows == rows_after(len, frames),
    ensures
        rows.update(frames.len() as int % 16, row_written(rows[frames.len() as int % 16], x, len as int))
            == rows_after(len, frames.push(x)),
        forall|q: int| 0 <= q < frames.push(x).len() ==> (#[trigger] frames.push(x)[q]).len() == len,
{
    lemma_rows_after_push(len, frames, x);
    assert forall|q: int| 0 <= q < frames.push(x).len() implies (#[trigger] frames.push(x)[q]).len() == len by {
        if q < frames.len() {
            assert(frames.push(x)[q] == frames[q]);
        }
    }
}

/// What an interleaver fed full-length frames puts out: with frames
/// `X_0 .. X_t` written (the last one by the current call), output bit `i`
/// is bit `15 i mod L` of the frame given `i mod 16` calls earlier, and
/// zero while fewer calls than that were made.
pub proof fn lemma_interleave_reads_history(len: nat, frames: Seq<Seq<bool>>, i: int)
    requires
        frames.len() >= 1,
        0 <= i < len,
    ensures
        ({
            let t = frames.len() - 1;
            let d = perm_delay(i);
            rows_after(len, frames)[(t % 16 + 16 - d) % 16][perm_bit(i, len as int)] == if t >= d {
                frames[t - d][perm_bit(i, len as int)]
            } else {
                false
            }
        }),
{
    let t = frames.len() - 1;
    let d = perm_delay(i);
    let q = t % 16;
    let r = (q + 16 - d) % 16;
    assert(0 <= d < 16);
    lemma_fundamental_div_mod(t, 16);
    if q >= d {
        assert(r == q - d);
        lemma_mod_multiples_vanish(t / 16, d, 16);
        assert(t - r == 16 * (t / 16) + d);
    } else {
        assert(r == q + 16 - d);
        lemma_mod_multiples_vanish(t / 16 - 1, d, 16);
        assert(t - r == 16 * (t / 16 - 1) + d);
    }
    assert((t - r) % 16 == d);
    lemma_rows_after_row(len, frames, r);
    assert(0 <= perm_bit(i, len as int) < len) by {
        assert((i * 15) % (len as int) < len) by (nonlinear_arith)
            requires len > 0;
    }
}

/// DAB time interleaver.
///
/// The DAB time interleaver has depth 16 and uses a scrambled interleaving
/// vector (per ETSI EN 300 401 §12.3).  Each cell is interleaved over 16
/// consecutive CIFs.
pub struct TimeInterleaver {
    depth: usize,
    buf: Vec<Vec<bool>>,
    write_ptr: usize,
    frame_len: usize,
    written: Ghost<Seq<Seq<bool>>>,
    full: Ghost<bool>,
}

impl TimeInterleaver {
    /// 16 rows of `frame_len` bits each and a write position among them.
    spec fn shaped(&self) -> bool {
        &&& self.depth == 16
        &&& self.buf.len() == 16
        &&& self.write_ptr < 16
        &&& self.frame_len * 16 <= usize::MAX
        &&& forall|r: int| 0 <= r < 16 ==> (#[trigger] self.buf[r]).len() == self.frame_len
    }

    /// The interleaver's invariant: its shape, and, while every frame
    /// written so far had the frame length, rows and write position are
    /// those that writing these frames one per call leaves.
    pub closed spec fn wf(&self) -> bool {
        &&& self.shaped()
        &&& self.full@ ==> {
            &&& forall|q: int| 0 <= q < self.written@.len() ==> (#[trigger] self.written@[q]).len() == self.frame_len
            &&& self.rows() == rows_after(self.frame_len as nat, self.written@)
            &&& self.write_ptr == self.written@.len() % 16
        }
    }

    /// The inputs of the calls so far, one frame per call of `interleave`
    /// or `deinterleave`, oldest first.
    pub closed spec fn frames(&self) -> Seq<Seq<bool>> {
        self.written@
    }

    /// Whether every input so far had exactly the frame length.
    pub closed spec fn all_full(&self) -> bool {
        self.full@
    }

    /// The 16 stored frames, oldest write position first.
    pub closed spec fn rows(&self) -> Seq<Seq<bool>> {
        self.buf@.map_values(|r: Vec<bool>| r@)
    }

    /// The row the next frame is written to.
    pub closed spec fn write_pos(&self) -> int {
        self.write_ptr as int
    }

    /// Number of bits per frame.
    pub closed spec fn frame_length(&self) -> int {
        self.frame_len as int
    }

    /// Create a new time interleaver.
    ///
    /// `frame_len`: number of bits per CIF (capacity subchannel length).
    pub fn new(frame_len: usize) -> (il: Self)
        requires
            frame_len * 16 <= usize::MAX,
        ensures
            il.wf(),
            il.frame_length() == frame_len,
            il.write_pos() == 0,
            il.rows() == Seq::new(16, |r: int| Seq::new(frame_len as nat, |j: int| false)),
            il.rows() == rows_after(frame_len as nat, Seq::empty()),
            il.frames() == Seq::<Seq<bool>>::empty(),
            il.all_full(),
    {
        let mut buf: Vec<Vec<bool>> = Vec::new();
        let mut r: usize = 0;
        while r < TIME_INTERLEAVER_DEPTH
            invariant
                r <= 16,
                buf.len() == r,
                forall|q: int| 0 <= q < r ==> (#[trigger] buf[q])@ == Seq::new(frame_len as nat, |j: int| false),
            decreases 16 - r,
        {
            let row: Vec<bool> = vec![false; frame_len];
            proof {
                assert(row@ =~= Seq::new(frame_len as nat, |j: int| false));
            }
            buf.push(row);
            r += 1;
        }
        let il = TimeInterleaver {
            depth: TIME_INTERLEAVER_DEPTH,
            buf,
            write_ptr: 0,
            frame_len,
            written: Ghost(Seq::empty()),
            full: Ghost(true),
        };
        proof {
            assert(il.rows() =~= Seq::new(16, |r: int| Seq::new(frame_len as nat, |j: int| false)));
        }
        il
    }

    /// Write the first `n` input bits into the current row.
    fn write_row(&mut self, input: &[bool], n: usize)
        requires
            old(self).shaped(),
            n <= input.len(),
            n <= old(self).frame_length(),
        ensures
            final(self).shaped(),
            final(self).written == old(self).written,
            final(self).full == old(self).full,
            final(self).frame_length() == old(self).frame_length(),
            final(self).write_pos() == old(self).write_pos(),
            final(self).rows() == old(self).rows().update(
                old(self).write_pos(),
                row_written(old(self).rows()[old(self).write_pos()], input@, n as int),
            ),
    {
        let wp = self.write_ptr;
        let mut row: Vec<bool> = self.buf[wp].clone();
        proof {
            assert(row@ =~= self.buf[wp as int]@);
        }
        let ghost old_row = row@;
        let mut j: usize = 0;
        while j < n
            invariant
                n <= input.len(),
                n <= row.len(),
                row.len() == old_row.len(),
                j <= n,
                forall|q: int| 0 <= q < j ==> #[trigger] row[q] == input[q],
                forall|q: int| j <= q < row.len() ==> #[trigger] row[q] == old_row[q],
            decreases n - j,
        {
            row.set(j, input[j]);
            j += 1;
        }
        proof {
            assert(row@ =~= row_written(old_row, input@, n as int));
        }
        self.buf.set(wp, row);
        proof {
            assert(self.rows() =~= old(self).rows().update(
                old(self).write_pos(),
                row_written(old(self).rows()[old(self).write_pos()], input@, n as int),
            ));
        }
    }

    /// Advance the write position to the next row.
    fn advance(&mut self)
        requires
            old(self).shaped(),
        ensures
            final(self).shaped(),
            final(self).written == old(self).written,
            final(self).full == old(self).full,
            final(self).frame_length() == old(self).frame_length(),
            final(self).rows() == old(self).rows(),
            final(self).write_pos() == (old(self).write_pos() + 1) % 16,
    {
        self.write_ptr = (self.write_ptr + 1) % self.depth;
    }

    /// Process one CIF worth of data bits.
    ///
    /// Returns interleaved output for the current CIF.
    pub fn interleave(&mut self, input: &[bool]) -> (out: Vec<bool>)
        requires
            old(self).wf(),
        ensures
            final(self).wf(),
            ({
                let n = if input.len() < old(self).frame_length() {
                    input.len() as int
                } else {
                    old(self).frame_length()
                };
                let wp = old(self).write_pos();
                let rows = old(self).rows().update(wp, row_written(old(self).rows()[wp], input@, n));
                &&& final(self).frame_length() == old(self).frame_length()
                &&& final(self).write_pos() == (wp + 1) % 16
                &&& final(self).rows() == rows
                &&& out.len() == n
                &&& forall|i: int|
                    0 <= i < n ==> #[trigger] out[i] == rows[(wp + 16 - perm_delay(i)) % 16][perm_bit(
                        i,
                        n,
                    )]
            }),
            final(self).frames() == old(self).frames().push(input@),
            final(self).all_full() == (old(self).all_full() && input.len() == old(self).frame_length()),
            final(self).all_full() ==> forall|i: int|
                0 <= i < input.len() ==> #[trigger] out[i] == (if old(self).frames().len() >= perm_delay(i) {
                    final(self).frames()[old(self).frames().len() - perm_delay(i)][perm_bit(i, input.len() as int)]
                } else {
                    false
                }),
    {
        let ghost w0 = self.written@;
        let ghost f0 = self.full@;
        let ghost rows0 = self.rows();
        let n: usize = if input.len() < self.frame_len { input.len() } else { self.frame_len };
        self.write_row(input, n);
        let perm = interleaver_permutation(n, self.depth);
        let mut out: Vec<bool> = Vec::with_capacity(n);
        let wp = self.write_ptr;
        let mut i: usize = 0;
        while i < n
            invariant
                self.depth == 16,
                self.buf.len() == 16,
                forall|r: int| 0 <= r < 16 ==> (#[trigger] self.buf[r]).len() >= n,
                wp == self.write_ptr,
                wp < 16,
                perm.len() == n,
                forall|q: int|
                    0 <= q < n ==> #[trigger] perm[q] == ((q % 16) as usize, ((q * 15) % (n as int)) as usize),
                i <= n,
                out.len() == i,
                forall|q: int|
                    0 <= q < i ==> #[trigger] out[q] == self.rows()[(wp + 16 - perm_delay(q))
                        % 16][perm_bit(q, n as int)],
            decreases n - i,
        {
            let (frame_offset, bit_offset) = perm[i];
            let frame = (wp + self.depth - frame_offset) % self.depth;
            proof {
                assert(bit_offset < n) by {
                    assert((i * 15) % (n as int) < n) by (nonlinear_arith)
                        requires n > 0;
                }
            }
            out.push(self.buf[frame][bit_offset]);
            i += 1;
        }
        self.advance();
        self.written = Ghost(w0.push(input@));
        let ghost f1: bool = f0 && input.len() == self.frame_len;
        self.full = Ghost(f1);
        proof {
            if self.full@ {
                lemma_history_step(self.frame_len as nat, w0, input@, rows0);
                assert forall|i: int| 0 <= i < input.len() implies #[trigger] out[i] == (if w0.len() >= perm_delay(
                    i,
                ) {
                    self.written@[w0.len() - perm_delay(i)][perm_bit(i, input.len() as int)]
                } else {
                    false
                }) by {
                    lemma_interleave_reads_history(self.frame_len as nat, self.written@, i);
                }
            }
        }
        out
    }

    /// Deinterleave: inverse permutation.
    pub fn deinterleave(&mut self, input: &[bool]) -> (out: Vec<bool>)
        requires
            old(self).wf(),
        ensures
            final(self).wf(),
            ({
                let n = if input.len() < old(self).frame_length() {
                    input.len() as int
                } else {
                    old(self).frame_length()
                };
                let wp = old(self).write_pos();
                &&& final(self).frame_length() == old(self).frame_length()
                &&& final(self).write_pos() == (wp + 1) % 16
                &&& final(self).rows() == old(self).rows().update(
                    wp,
                    row_written(old(self).rows()[wp], input@, n),
                )
                &&& out@ == scattered(input@, n, n)
                &&& out.len() == n
            }),
            final(self).frames() == old(self).frames().push(input@),
            final(self).all_full() == (old(self).all_full() && input.len() == old(self).frame_length()),
    {
        let ghost w0 = self.written@;
        let ghost f0 = self.full@;
        let ghost rows0 = self.rows();
        let n: usize = if input.len() < self.frame_len { input.len() } else { self.frame_len };
        self.write_row(input, n);
        let perm = interleaver_permutation(n, TIME_INTERLEAVER_DEPTH);
        let mut out: Vec<bool> = vec![false; n];
        proof {
            assert(out@ =~= scattered(input@, n as int, 0));
        }
        let mut i: usize = 0;
        while i < n
            invariant
                n <= input.len(),
                perm.len() == n,
                forall|q: int|
                    0 <= q < n ==> #[trigger] perm[q] == ((q % 16) as usize, ((q * 15) % (n as int)) as usize),
                i <= n,
                out.len() == n,
                out@ == scattered(input@, n as int, i as int),
            decreases n - i,
        {
            let (_frame_offset, bit_offset) = perm[i];
            proof {
                assert(bit_offset < n) by {
                    assert((i * 15) % (n as int) < n) by (nonlinear_arith)
                        requires n > 0;
                }
                assert(scattered(input@, n as int, i as int).len() == n) by {
                    lemma_scattered_len(input@, n as int, i as int);
                }
            }
            out.set(bit_offset, input[i]);
            i += 1;
        }
        self.advance();
        self.written = Ghost(w0.push(input@));
        let ghost f1: bool = f0 && input.len() == self.frame_len;
        self.full = Ghost(f1);
        proof {
            if self.full@ {
                lemma_history_step(self.frame_len as nat, w0, input@, rows0);
            }
        }
        out
    }
}

/// Scattering keeps the frame length.
proof fn lemma_scattered_len(input: Seq<bool>, n: int, k: int)
    requires
        0 <= n,
        k <= 0 || n > 0,
    ensures
        scattered(input, n, k).len() == n,
    decreases k,
{
    if k > 0 {
        lemma_scattered_len(input, n, k - 1);
    }
}

/// Compute the interleaving permutation vector for given parameters.
/// Returns `(frame_delay, bit_index)` for each output position.
fn interleaver_permutation(frame_len: usize, depth: usize) -> (perm: Vec<(usize, usize)>)
    requires
        depth >= 1,
        frame_len * depth <= usize::MAX,
    ensures
        perm.len() == frame_len,
        forall|i: int|
            0 <= i < frame_len ==> #[trigger] perm[i] == (
                (i % (depth as int)) as usize,
                ((i * (depth - 1)) % (frame_len as int)) as usize,
            ),
{
    let mut perm: Vec<(usize, usize)> = Vec::with_capacity(frame_len);
    let mut i: usize = 0;
    while i < frame_len
        invariant
            depth >= 1,
            frame_len * depth <= usize::MAX,
            i <= frame_len,
            perm.len() == i,
            forall|q: int|
                0 <= q < i ==> #[trigger] perm[q] == (
                    (q % (depth as int)) as usize,
                    ((q * (depth - 1)) % (frame_len as int)) as usize,
                ),
        decreases frame_len - i,
    {
        let frame_offset = i % depth;
        proof {
            assert(i * (depth - 1) <= frame_len * depth) by (nonlinear_arith)
                requires i < frame_len, depth >= 1;
        }
        let bit_index = (i * (depth - 1)) % frame_len;
        perm.push((frame_offset, bit_index));
        i += 1;
    }
    perm
}

} // verus!
