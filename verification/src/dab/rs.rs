//! Reed-Solomon RS(120, 110, t=5) over GF(2^8) for DAB+.

use vstd::prelude::*;

use crate::dab::rs_correction::{
    lemma_decode_error_leaves_word, lemma_up_to_five_errors_corrected, with_errors,
};
use crate::dab::gf::{
    alpha_pow, gf_div, gf_exp, gf_inv, gf_inv_spec, gf_mul, gf_mul_spec, gf_poly_eval,
    lemma_xor_basics, lemma_xor_commutes, lemma_xor_regroup, lemma_gf_mul_associative, lemma_gf_mul_commutative, lemma_gf_mul_distributive, lemma_gf_mul_one,
    lemma_gf_mul_zero, poly_eval_spec,
};

verus! {

/// Reed-Solomon codeword length for DAB+ RS(120,110,t=5).
pub const RS_CODEWORD_LEN: usize = 120;

/// Reed-Solomon message length.
pub const RS_MESSAGE_LEN: usize = 110;

/// Reed-Solomon error correction capability (t symbols).
pub const RS_T: usize = 5;

/// XOR with zero changes nothing.
pub proof fn lemma_xor_zero(x: u8)
    ensures
        x ^ 0u8 == x,
        0u8 ^ x == x,
{
    lemma_xor_basics(x);
}

// ---------------------------------------------------------------------------
// Generator polynomial
// ---------------------------------------------------------------------------

/// `g(x) * (x + root)`, coefficients highest degree first.
pub open spec fn mul_by_linear(g: Seq<u8>, root: u8) -> Seq<u8> {
    Seq::new(
        g.len() + 1,
        |j: int|
            (if j < g.len() { g[j] } else { 0u8 }) ^ (if j >= 1 { gf_mul_spec(g[j - 1], root) } else { 0u8 }),
    )
}

/// `prod_{i < k} (x + alpha^i)`, coefficients highest degree first.
pub open spec fn generator_poly(k: nat) -> Seq<u8>
    decreases k,
{
    if k == 0 {
        seq![1u8]
    } else {
        mul_by_linear(generator_poly((k - 1) as nat), alpha_pow(k - 1))
    }
}

/// The generator polynomial has one more coefficient than roots.
proof fn lemma_generator_len(k: nat)
    ensures
        generator_poly(k).len() == k + 1,
    decreases k,
{
    if k > 0 {
        lemma_generator_len((k - 1) as nat);
    }
}

// ---------------------------------------------------------------------------
// Systematic encoding by long division
// ---------------------------------------------------------------------------

/// One step of long division by the monic `g` at position `i`: subtract
/// `p[i] * g` aligned at `i` (the leading term cancels and is left as is).
pub open spec fn div_step(p: Seq<u8>, g: Seq<u8>, i: int) -> Seq<u8> {
    Seq::new(
        p.len(),
        |q: int|
            if p[i] != 0 && i < q < i + g.len() {
                p[q] ^ gf_mul_spec(p[i], g[q - i])
            } else {
                p[q]
            },
    )
}

/// The work buffer after the first `i` division steps.
pub open spec fn long_division(p: Seq<u8>, g: Seq<u8>, i: int) -> Seq<u8>
    decreases i,
{
    if i <= 0 {
        p
    } else {
        div_step(long_division(p, g, i - 1), g, i - 1)
    }
}

/// The parity bytes of `msg`: the remainder of `msg(x) * x^(2t)` divided by
/// `g(x)`, highest degree first.
pub open spec fn rs_parity(msg: Seq<u8>, g: Seq<u8>) -> Seq<u8> {
    let p = msg + Seq::new((g.len() - 1) as nat, |q: int| 0u8);
    long_division(p, g, msg.len() as int).subrange(msg.len() as int, p.len() as int)
}

/// Division steps keep the buffer length.
proof fn lemma_long_division_len(p: Seq<u8>, g: Seq<u8>, i: int)
    ensures
        long_division(p, g, i).len() == p.len(),
    decreases i,
{
    if i > 0 {
        lemma_long_division_len(p, g, i - 1);
    }
}

// ---------------------------------------------------------------------------
// Decoding stages
// ---------------------------------------------------------------------------

/// The codeword as a polynomial (first byte = highest degree) evaluated
/// at `x`, by Horner's rule.
pub open spec fn eval_msb(cw: Seq<u8>, x: u8) -> u8
    decreases cw.len(),
{
    if cw.len() == 0 {
        0
    } else {
        gf_mul_spec(eval_msb(cw.drop_last(), x), x) ^ cw.last()
    }
}

/// The syndromes `S_i = C(alpha^i)` for `i < count`.
pub open spec fn syndromes_spec(cw: Seq<u8>, count: nat) -> Seq<u8> {
    Seq::new(count, |i: int| eval_msb(cw, alpha_pow(i)))
}

/// The discrepancy at step `r`, summed over the first `j` locator terms:
/// `S_r + sum_{q=1}^{j} sigma_q * S_{r-q}`.
pub open spec fn discrepancy(synd: Seq<u8>, sigma: Seq<u8>, r: int, j: int) -> u8
    decreases j,
{
    if j <= 0 {
        synd[r]
    } else {
        discrepancy(synd, sigma, r, j - 1) ^ gf_mul_spec(sigma[j], synd[r - j])
    }
}

/// `sigma(x) + scale * x^m * prev(x)`, truncated to the length of `sigma`.
pub open spec fn bm_update(sigma: Seq<u8>, prev: Seq<u8>, scale: u8, m: int) -> Seq<u8> {
    Seq::new(
        sigma.len(),
        |i: int|
            if m <= i {
                sigma[i] ^ gf_mul_spec(scale, prev[i - m])
            } else {
                sigma[i]
            },
    )
}

/// The Berlekamp-Massey state `(sigma, prev, L, m, previous discrepancy)`.
pub type BmState = (Seq<u8>, Seq<u8>, int, int, u8);

/// The state before the first step: `sigma = prev = 1`, `L = 0`, `m = 1`.
pub open spec fn bm_init(two_t: nat) -> BmState {
    let one = Seq::new(two_t + 1, |i: int| if i == 0 { 1u8 } else { 0u8 });
    (one, one, 0, 1, 1u8)
}

/// One Berlekamp-Massey step at syndrome index `r`.
pub open spec fn bm_step(synd: Seq<u8>, st: BmState, r: int) -> BmState {
    let (sigma, prev, l, m, dprev) = st;
    let delta = discrepancy(synd, sigma, r, l);
    if delta == 0 {
        (sigma, prev, l, m + 1, dprev)
    } else if 2 * l <= r {
        let scale = gf_mul_spec(delta, gf_inv_spec(dprev));
        (bm_update(sigma, prev, scale, m), sigma, r + 1 - l, 1, delta)
    } else {
        let scale = gf_mul_spec(delta, gf_inv_spec(dprev));
        (bm_update(sigma, prev, scale, m), prev, l, m + 1, dprev)
    }
}

/// The Berlekamp-Massey state after the first `r` steps.
pub open spec fn bm_run(synd: Seq<u8>, r: int) -> BmState
    decreases r,
{
    if r <= 0 {
        bm_init(synd.len())
    } else {
        bm_step(synd, bm_run(synd, r - 1), r - 1)
    }
}

/// The error locator `sigma[0..=L]` and the number of errors `L` that
/// Berlekamp-Massey finds for the syndromes.
pub open spec fn bm_result(synd: Seq<u8>) -> (Seq<u8>, int) {
    let st = bm_run(synd, synd.len() as int);
    (st.0.subrange(0, st.2 + 1), st.2)
}

/// The point at which the locator is evaluated for byte `idx` (first byte
/// = highest power): `alpha^{-(n-1-idx)}`.
pub open spec fn chien_point(n: int, idx: int) -> u8 {
    alpha_pow((255 - ((n - 1 - idx) % 255)) % 255)
}

/// The byte indices below `k` whose locator point is a root, in order.
pub open spec fn chien_roots(sigma: Seq<u8>, n: int, k: int) -> Seq<usize>
    decreases k,
{
    if k <= 0 {
        seq![]
    } else if poly_eval_spec(sigma, chien_point(n, k - 1)) == 0 {
        chien_roots(sigma, n, k - 1).push((k - 1) as usize)
    } else {
        chien_roots(sigma, n, k - 1)
    }
}

/// Coefficient `i` of `S(x) * sigma(x)`, summed over its first `j` terms.
pub open spec fn omega_acc(synd: Seq<u8>, sigma: Seq<u8>, i: int, j: int) -> u8
    decreases j,
{
    if j <= 0 {
        0
    } else {
        omega_acc(synd, sigma, i, j - 1) ^ gf_mul_spec(synd[i - (j - 1)], sigma[j - 1])
    }
}

/// The error evaluator `omega(x) = S(x) * sigma(x) mod x^{2t}`.
pub open spec fn omega_spec(synd: Seq<u8>, sigma: Seq<u8>) -> Seq<u8> {
    Seq::new(
        synd.len(),
        |i: int| omega_acc(synd, sigma, i, if sigma.len() < i + 1 { sigma.len() as int } else { i + 1 }),
    )
}

/// The formal derivative in characteristic 2: the odd coefficients move
/// down one place, the even ones vanish; at least one coefficient.
pub open spec fn formal_deriv_spec(p: Seq<u8>) -> Seq<u8> {
    Seq::new(
        if p.len() >= 2 { (p.len() - 1) as nat } else { 1 },
        |k: int| if k % 2 == 0 && k + 1 < p.len() { p[k + 1] } else { 0u8 },
    )
}

/// The Forney denominator `sigma'(X^{-1})` for byte `idx` of an `n`-byte word.
pub open spec fn forney_denominator(sigma: Seq<u8>, n: int, idx: int) -> u8 {
    let power = n - 1 - idx;
    poly_eval_spec(formal_deriv_spec(sigma), alpha_pow((255 - power % 255) % 255))
}

/// The Forney error value `X * omega(X^{-1}) / sigma'(X^{-1})` for byte `idx`.
pub open spec fn forney_value(synd: Seq<u8>, sigma: Seq<u8>, n: int, idx: int) -> u8 {
    let power = n - 1 - idx;
    let xi = alpha_pow(power % 255);
    let xi_inv = alpha_pow((255 - power % 255) % 255);
    gf_mul_spec(
        gf_mul_spec(xi, poly_eval_spec(omega_spec(synd, sigma), xi_inv)),
        gf_inv_spec(forney_denominator(sigma, n, idx)),
    )
}

/// `cw` with the error values XORed in at the first `k` located bytes.
pub open spec fn corrected(cw: Seq<u8>, synd: Seq<u8>, sigma: Seq<u8>, roots: Seq<usize>, k: int) -> Seq<
    u8,
> {
    Seq::new(
        cw.len(),
        |i: int|
            if roots.subrange(0, k).contains(i as usize) {
                cw[i] ^ forney_value(synd, sigma, cw.len() as int, i)
            } else {
                cw[i]
            },
    )
}

/// Whether the Forney denominator vanishes at one of the first `k` roots.
pub open spec fn singular_before(sigma: Seq<u8>, roots: Seq<usize>, n: int, k: int) -> bool {
    exists|q: int| 0 <= q < k && #[trigger] forney_denominator(sigma, n, roots[q] as int) == 0
}

/// Reed-Solomon codec for DAB+ RS(120, 110, t=5).
///
/// Parameters per ETSI EN 302 563 §6.3:
/// - n=120 codeword symbols
/// - k=110 message symbols
/// - t=5 symbol error correction capability (2t=10 parity symbols)
/// - Field: GF(2^8) with primitive polynomial 0x11D
/// - Generator polynomial: g(x) = prod_{i=0}^{2t-1} (x - alpha^i)
pub struct DabReedSolomon {
    n: usize,
    k: usize,
    t: usize,
    gen_poly: Vec<u8>,
}

/// Whether all syndromes vanish.
pub open spec fn all_zero(synd: Seq<u8>) -> bool {
    forall|i: int| 0 <= i < synd.len() ==> synd[i] == 0
}

/// What decoding a 120-byte word does, stage by stage: the syndromes, the
/// Berlekamp-Massey locator and error count, the Chien search roots and
/// the Forney corrections; `r` is the result and `out` the word after it.
pub open spec fn rs_decode_outcome(cw: Seq<u8>, r: Result<usize, &'static str>, out: Seq<u8>) -> bool {
    let synd = syndromes_spec(cw, 10);
    let sigma = bm_result(synd).0;
    let l = bm_result(synd).1;
    let roots = chien_roots(sigma, 120, 120);
    if cw.len() != 120 {
        r == Err::<usize, &'static str>("Codeword length mismatch") && out == cw
    } else if all_zero(synd) {
        r == Ok::<usize, &'static str>(0) && out == cw
    } else if l > 5 {
        r == Err::<usize, &'static str>("Too many errors to correct") && out == cw
    } else if roots.len() != l {
        r == Err::<usize, &'static str>("Chien search error count mismatch") && out == cw
    } else if singular_before(sigma, roots, 120, roots.len() as int) {
        &&& r == Err::<usize, &'static str>("Singular Forney denominator")
        &&& exists|k: int|
            0 <= k < roots.len() && #[trigger] forney_denominator(sigma, 120, roots[k] as int) == 0
                && !singular_before(sigma, roots, 120, k) && out == corrected(cw, synd, sigma, roots, k)
    } else {
        r == Ok::<usize, &'static str>(roots.len() as usize) && out == corrected(
            cw,
            synd,
            sigma,
            roots,
            roots.len() as int,
        )
    }
}


// ---------------------------------------------------------------------------
// Evaluation algebra: why a fresh codeword has zero syndromes
// ---------------------------------------------------------------------------

/// Coefficient-wise sum of two polynomials of one length.
pub open spec fn xor_seq(s: Seq<u8>, t: Seq<u8>) -> Seq<u8> {
    Seq::new(s.len(), |i: int| s[i] ^ t[i])
}

/// Every coefficient multiplied by `c`.
pub open spec fn scale_seq(c: u8, s: Seq<u8>) -> Seq<u8> {
    Seq::new(s.len(), |i: int| gf_mul_spec(c, s[i]))
}

/// `n` zero coefficients.
pub open spec fn zeros(n: nat) -> Seq<u8> {
    Seq::new(n, |i: int| 0u8)
}

/// `c * g` placed at offset `i` among `n` zero coefficients.
pub open spec fn placed(g: Seq<u8>, c: u8, i: int, n: nat) -> Seq<u8> {
    Seq::new(n, |q: int| if i <= q < i + g.len() { gf_mul_spec(c, g[q - i]) } else { 0u8 })
}

/// Long division with every step's multiple of `g` subtracted in full,
/// leading term included.
pub open spec fn reduced(p: Seq<u8>, g: Seq<u8>, i: int) -> Seq<u8>
    decreases i,
{
    if i <= 0 {
        p
    } else {
        let d = reduced(p, g, i - 1);
        xor_seq(d, placed(g, d[i - 1], i - 1, p.len()))
    }
}

/// Evaluation is additive.
pub(crate) proof fn lemma_eval_xor(s: Seq<u8>, t: Seq<u8>, x: u8)
    requires
        s.len() == t.len(),
    ensures
        eval_msb(xor_seq(s, t), x) == eval_msb(s, x) ^ eval_msb(t, x),
    decreases s.len(),
{
    if s.len() == 0 {
        lemma_xor_basics(0u8);
    } else {
        let st = xor_seq(s, t);
        assert(st.drop_last() =~= xor_seq(s.drop_last(), t.drop_last()));
        lemma_eval_xor(s.drop_last(), t.drop_last(), x);
        let es = eval_msb(s.drop_last(), x);
        let et = eval_msb(t.drop_last(), x);
        lemma_gf_mul_distributive(es, et, x);
        let a = gf_mul_spec(es, x);
        let b = gf_mul_spec(et, x);
        let sl = s.last();
        let tl = t.last();
        lemma_xor_regroup(a, b, sl, tl);
    }
}

/// Zero coefficients evaluate to zero.
proof fn lemma_eval_zeros(m: nat, x: u8)
    ensures
        eval_msb(zeros(m), x) == 0,
    decreases m,
{
    if m > 0 {
        assert(zeros(m).drop_last() =~= zeros((m - 1) as nat));
        lemma_eval_zeros((m - 1) as nat, x);
        lemma_gf_mul_zero(x);
        lemma_xor_basics(0u8);
    }
}

/// Leading zero coefficients do not change the value.
pub(crate) proof fn lemma_eval_leading_zeros(m: nat, s: Seq<u8>, x: u8)
    ensures
        eval_msb(zeros(m) + s, x) == eval_msb(s, x),
    decreases s.len(),
{
    if s.len() == 0 {
        assert(zeros(m) + s =~= zeros(m));
        lemma_eval_zeros(m, x);
    } else {
        assert((zeros(m) + s).drop_last() =~= zeros(m) + s.drop_last());
        lemma_eval_leading_zeros(m, s.drop_last(), x);
    }
}

/// A polynomial with a root keeps it when multiplied by a power of x.
proof fn lemma_eval_trailing_zeros(s: Seq<u8>, m: nat, x: u8)
    requires
        eval_msb(s, x) == 0,
    ensures
        eval_msb(s + zeros(m), x) == 0,
    decreases m,
{
    if m == 0 {
        assert(s + zeros(m) =~= s);
    } else {
        assert((s + zeros(m)).drop_last() =~= s + zeros((m - 1) as nat));
        lemma_eval_trailing_zeros(s, (m - 1) as nat, x);
        lemma_gf_mul_zero(x);
        lemma_xor_basics(0u8);
    }
}

/// Scaling the coefficients scales the value.
proof fn lemma_eval_scale(c: u8, s: Seq<u8>, x: u8)
    ensures
        eval_msb(scale_seq(c, s), x) == gf_mul_spec(c, eval_msb(s, x)),
    decreases s.len(),
{
    if s.len() == 0 {
        lemma_gf_mul_zero(c);
    } else {
        assert(scale_seq(c, s).drop_last() =~= scale_seq(c, s.drop_last()));
        lemma_eval_scale(c, s.drop_last(), x);
        let e = eval_msb(s.drop_last(), x);
        lemma_gf_mul_associative(c, e, x);
        lemma_gf_mul_distributive(gf_mul_spec(e, x), s.last(), c);
    }
}

/// A multiple of `g` placed anywhere vanishes where `g` does.
proof fn lemma_eval_placed(g: Seq<u8>, c: u8, i: int, n: nat, x: u8)
    requires
        eval_msb(g, x) == 0,
        0 <= i,
        i + g.len() <= n,
    ensures
        eval_msb(placed(g, c, i, n), x) == 0,
{
    let rest = (n - i - g.len()) as nat;
    assert(placed(g, c, i, n) =~= zeros(i as nat) + (scale_seq(c, g) + zeros(rest)));
    lemma_eval_scale(c, g, x);
    lemma_gf_mul_zero(c);
    lemma_eval_trailing_zeros(scale_seq(c, g), rest, x);
    lemma_eval_leading_zeros(i as nat, scale_seq(c, g) + zeros(rest), x);
}

/// The generator polynomial is monic.
proof fn lemma_generator_monic(k: nat)
    ensures
        generator_poly(k)[0] == 1,
    decreases k,
{
    lemma_generator_len(k);
    if k > 0 {
        lemma_generator_monic((k - 1) as nat);
        lemma_xor_basics(1u8);
    }
}

/// `alpha^i` is a root of the generator polynomial for every `i < k`.
proof fn lemma_generator_roots(k: nat, i: int)
    requires
        0 <= i < k,
    ensures
        eval_msb(generator_poly(k), alpha_pow(i)) == 0,
    decreases k,
{
    let g = generator_poly((k - 1) as nat);
    let root = alpha_pow(k - 1);
    let x = alpha_pow(i);
    lemma_generator_len((k - 1) as nat);
    let shifted = g.push(0u8);
    let scaled = zeros(1) + scale_seq(root, g);
    assert forall|j: int| 0 <= j < g.len() + 1 implies #[trigger] mul_by_linear(g, root)[j] == xor_seq(
        shifted,
        scaled,
    )[j] by {
        if j >= 1 {
            lemma_gf_mul_commutative(g[j - 1], root);
        } else {
            assert(g[0] ^ 0u8 == g[0] ^ 0u8);
        }
    }
    assert(mul_by_linear(g, root) =~= xor_seq(shifted, scaled));
    lemma_eval_xor(shifted, scaled, x);
    assert(shifted.drop_last() =~= g);
    let e = eval_msb(g, x);
    lemma_eval_leading_zeros(1, scale_seq(root, g), x);
    lemma_eval_scale(root, g, x);
    assert(gf_mul_spec(e, x) ^ 0u8 == gf_mul_spec(e, x)) by {
        let v = gf_mul_spec(e, x);
        lemma_xor_basics(v);
    }
    if i == k - 1 {
        lemma_gf_mul_commutative(e, x);
        let v = gf_mul_spec(e, x);
        lemma_xor_basics(v);
    } else {
        lemma_generator_roots((k - 1) as nat, i);
        lemma_gf_mul_zero(x);
        lemma_gf_mul_zero(root);
        lemma_xor_basics(0u8);
    }
}

/// Long division step by step: the work buffer agrees with the fully
/// reduced polynomial from step `i` on, the reduced one is zero before
/// `i`, and it keeps the value of `p` at every root of `g`.
proof fn lemma_reduced(p: Seq<u8>, g: Seq<u8>, i: int, x: u8)
    requires
        g.len() >= 1,
        g[0] == 1,
        0 <= i,
        i + g.len() <= p.len() + 1,
        eval_msb(g, x) == 0,
    ensures
        reduced(p, g, i).len() == p.len(),
        long_division(p, g, i).len() == p.len(),
        forall|q: int| i <= q < p.len() ==> #[trigger] long_division(p, g, i)[q] == reduced(p, g, i)[q],
        forall|q: int| 0 <= q < i ==> #[trigger] reduced(p, g, i)[q] == 0,
        eval_msb(reduced(p, g, i), x) == eval_msb(p, x),
    decreases i,
{
    lemma_long_division_len(p, g, i);
    if i > 0 {
        let j = i - 1;
        lemma_reduced(p, g, j, x);
        let d = reduced(p, g, j);
        let w = long_division(p, g, j);
        let c = d[j];
        let pl = placed(g, c, j, p.len());
        assert forall|q: int| i <= q < p.len() implies #[trigger] long_division(p, g, i)[q] == reduced(
            p,
            g,
            i,
        )[q] by {
            if j < q < j + g.len() {
                if c == 0 {
                    lemma_gf_mul_zero(g[q - j]);
                    let v = w[q];
                    lemma_xor_basics(v);
                }
            } else {
                let v = w[q];
                lemma_xor_basics(v);
            }
        }
        assert forall|q: int| 0 <= q < i implies #[trigger] reduced(p, g, i)[q] == 0 by {
            if q < j {
                lemma_xor_basics(0u8);
            } else {
                lemma_gf_mul_one(c);
                lemma_xor_basics(c);
            }
        }
        lemma_eval_placed(g, c, j, p.len(), x);
        lemma_eval_xor(d, pl, x);
        let e = eval_msb(d, x);
        lemma_xor_basics(e);
    }
}

/// A freshly encoded codeword has zero syndromes: `msg` followed by its
/// parity is a multiple of the generator polynomial, so it vanishes at
/// every `alpha^i` with `i < 10`, and decoding it reports no error and
/// leaves it unchanged.
pub proof fn lemma_encoded_codeword_decodes_clean(msg: Seq<u8>)
    requires
        msg.len() == 110,
    ensures
        (msg + rs_parity(msg, generator_poly(10))).len() == 120,
        all_zero(syndromes_spec(msg + rs_parity(msg, generator_poly(10)), 10)),
        forall|r: Result<usize, &'static str>, out: Seq<u8>|
            rs_decode_outcome(msg + rs_parity(msg, generator_poly(10)), r, out) ==> r == Ok::<
                usize,
                &'static str,
            >(0) && out == msg + rs_parity(msg, generator_poly(10)),
{
    let g = generator_poly(10);
    lemma_generator_len(10);
    lemma_generator_monic(10);
    let p = msg + Seq::new((g.len() - 1) as nat, |q: int| 0u8);
    let parity = rs_parity(msg, g);
    let cw = msg + parity;
    lemma_long_division_len(p, g, 110);
    assert forall|i: int| 0 <= i < 10 implies #[trigger] syndromes_spec(cw, 10)[i] == 0 by {
        let x = alpha_pow(i);
        lemma_generator_roots(10, i);
        lemma_reduced(p, g, 110, x);
        let d = reduced(p, g, 110);
        assert(d =~= zeros(110) + parity);
        lemma_eval_leading_zeros(110, parity, x);
        assert(cw =~= xor_seq(p, d)) by {
            assert forall|q: int| 0 <= q < 120 implies #[trigger] cw[q] == xor_seq(p, d)[q] by {
                let a = cw[q];
                lemma_xor_basics(a);
            }
        }
        lemma_eval_xor(p, d, x);
        let e = eval_msb(p, x);
        lemma_xor_basics(e);
    }
}

impl DabReedSolomon {
    #[verifier::type_invariant]
    spec fn well_formed(self) -> bool {
        &&& self.n == 120
        &&& self.k == 110
        &&& self.t == 5
        &&& self.gen_poly@ == generator_poly(10)
    }

    /// The generator polynomial in use.
    pub closed spec fn generator(&self) -> Seq<u8> {
        self.gen_poly@
    }

    /// Create the DAB+ RS(120,110) codec.
    pub fn new() -> (rs: Self)
        ensures
            rs.generator() == generator_poly(10),
    {
        let gen_poly = Self::build_generator(RS_T);
        DabReedSolomon { n: RS_CODEWORD_LEN, k: RS_MESSAGE_LEN, t: RS_T, gen_poly }
    }

    /// Build the generator polynomial g(x) = prod_{i=0}^{2t-1}(x - alpha^i).
    fn build_generator(t: usize) -> (g: Vec<u8>)
        requires
            t <= 127,
        ensures
            g@ == generator_poly((2 * t) as nat),
    {
        let two_t = 2 * t;
        let mut g: Vec<u8> = vec![1u8];
        proof {
            assert(g@ =~= generator_poly(0));
        }
        let mut i: usize = 0;
        while i < two_t
            invariant
                two_t == 2 * t,
                two_t <= 254,
                i <= two_t,
                g@ == generator_poly(i as nat),
            decreases two_t - i,
        {
            proof {
                lemma_generator_len(i as nat);
            }
            let root = gf_exp(i);
            let mut new_g: Vec<u8> = vec![0u8; g.len() + 1];
            let mut j: usize = 0;
            proof {
                lemma_xor_zero(0u8);
            }
            while j < g.len()
                invariant
                    new_g.len() == g.len() + 1,
                    g.len() == i + 1,
                    j <= g.len(),
                    forall|q: int|
                        0 <= q < new_g.len() ==> #[trigger] new_g[q] == (if q < j {
                            g[q]
                        } else {
                            0u8
                        }) ^ (if 1 <= q && q <= j { gf_mul_spec(g[q - 1], root) } else { 0u8 }),
                decreases g.len() - j,
            {
                let ghost before = new_g@;
                let c = g[j];
                let lo = new_g[j] ^ c;
                new_g.set(j, lo);
                let m = gf_mul(c, root);
                let hi = new_g[j + 1] ^ m;
                new_g.set(j + 1, hi);
                proof {
                    lemma_xor_zero(0u8);
                    let x = if j >= 1 { gf_mul_spec(g[j - 1], root) } else { 0u8 };
                    assert(before[j as int] == 0u8 ^ x);
                    lemma_xor_basics(x);
                    lemma_xor_commutes(x, c);
                    assert(before[j + 1] == 0u8 ^ 0u8);
                    assert forall|q: int| 0 <= q < new_g.len() implies #[trigger] new_g[q] == (if q
                        < j + 1 {
                        g[q]
                    } else {
                        0u8
                    }) ^ (if 1 <= q && q <= j + 1 { gf_mul_spec(g[q - 1], root) } else { 0u8 }) by {
                        if q != j && q != j + 1 {
                            assert(new_g[q] == before[q]);
                        }
                    }
                }
                j += 1;
            }
            proof {
                assert(new_g@ =~= mul_by_linear(g@, alpha_pow(i as int)));
            }
            g = new_g;
            i += 1;
        }
        g
    }

    /// Systematic RS encode: append `2t` parity bytes to `k` message bytes.
    ///
    /// Uses polynomial long division: parity = remainder of msg(x)*x^(2t) / g(x).
    /// The codeword polynomial uses MSB-first convention: cw[0] is the highest-degree term.
    pub fn encode(&self, msg: &[u8]) -> (cw: Vec<u8>)
        requires
            msg.len() == 110,
        ensures
            cw@ == msg@ + rs_parity(msg@, self.generator()),
    {
        proof {
            use_type_invariant(self);
            lemma_generator_len(10);
        }
        let mut p: Vec<u8> = vstd::slice::slice_to_vec(msg);
        while p.len() < self.n
            invariant
                self.n == 120,
                110 <= p.len() <= 120,
                p@.subrange(0, 110) == msg@,
                forall|q: int| 110 <= q < p.len() ==> #[trigger] p[q] == 0u8,
            decreases 120 - p.len(),
        {
            p.push(0u8);
        }
        let ghost g = self.gen_poly@;
        let ghost p0 = p@;
        proof {
            assert(p0 =~= msg@ + Seq::new((g.len() - 1) as nat, |q: int| 0u8));
        }
        let mut i: usize = 0;
        while i < self.k
            invariant
                self.k == 110,
                self.n == 120,
                self.gen_poly@ == g,
                g.len() == 11,
                p.len() == 120,
                i <= 110,
                p@ == long_division(p0, g, i as int),
            decreases 110 - i,
        {
            let coef = p[i];
            let ghost before = p@;
            if coef != 0 {
                let mut j: usize = 1;
                while j < self.gen_poly.len()
                    invariant
                        self.gen_poly@ == g,
                        g.len() == 11,
                        p.len() == 120,
                        i < 110,
                        1 <= j <= 11,
                        coef == before[i as int],
                        before.len() == 120,
                        forall|q: int|
                            0 <= q < 120 ==> #[trigger] p[q] == (if i < q < i + j {
                                before[q] ^ gf_mul_spec(coef, g[q - i])
                            } else {
                                before[q]
                            }),
                    decreases 11 - j,
                {
                    let v = p[i + j] ^ gf_mul(coef, self.gen_poly[j]);
                    p.set(i + j, v);
                    j += 1;
                }
            }
            proof {
                assert(p@ =~= div_step(before, g, i as int));
            }
            i += 1;
        }
        let mut codeword: Vec<u8> = vstd::slice::slice_to_vec(msg);
        let mut q: usize = 110;
        while q < 120
            invariant
                110 <= q <= 120,
                p.len() == 120,
                codeword@ == msg@ + p@.subrange(110, q as int),
            decreases 120 - q,
        {
            codeword.push(p[q]);
            proof {
                assert(msg@ + p@.subrange(110, q + 1) =~= (msg@ + p@.subrange(110, q as int)).push(p[q as int]));
            }
            q += 1;
        }
        proof {
            lemma_long_division_len(p0, g, 110);
        }
        codeword
    }

    /// RS decode: correct up to `t` symbol errors.
    ///
    /// Modifies `codeword` in-place and returns the number of errors corrected.
    /// Returns `Err` if more than `t` errors detected (uncorrectable).
    ///
    /// An encoded codeword with nonzero errors added into `w <= 5` distinct
    /// bytes decodes to `Ok(w)` and gives the codeword back; a failed decode
    /// leaves the word as it was.
    pub fn decode(&self, codeword: &mut Vec<u8>) -> (r: Result<usize, &'static str>)
        ensures
            rs_decode_outcome(old(codeword)@, r, final(codeword)@),
            r is Err ==> final(codeword)@ == old(codeword)@,
            forall|msg: Seq<u8>, ps: Seq<int>, es: Seq<u8>, w: int|
                #![trigger with_errors(msg + rs_parity(msg, generator_poly(10)), ps, es, w)]
                msg.len() == 110 && 0 <= w <= 5 && w <= ps.len() && w <= es.len() && (forall|k: int|
                    0 <= k < w ==> 0 <= #[trigger] ps[k] < 120) && (forall|a: int, b: int|
                    0 <= a < b < w ==> #[trigger] ps[a] != #[trigger] ps[b]) && (forall|k: int|
                    0 <= k < w ==> #[trigger] es[k] != 0) && old(codeword)@ == with_errors(
                    msg + rs_parity(msg, generator_poly(10)),
                    ps,
                    es,
                    w,
                ) ==> r == Ok::<usize, &'static str>(w as usize) && final(codeword)@ == msg + rs_parity(
                    msg,
                    generator_poly(10),
                ),
    {
        let ghost before = codeword@;
        let r = self.decode_steps(codeword);
        proof {
            if r is Err {
                lemma_decode_error_leaves_word(before, r, codeword@);
            }
            assert forall|msg: Seq<u8>, ps: Seq<int>, es: Seq<u8>, w: int|
                #![trigger with_errors(msg + rs_parity(msg, generator_poly(10)), ps, es, w)]
                msg.len() == 110 && 0 <= w <= 5 && w <= ps.len() && w <= es.len() && (forall|k: int|
                    0 <= k < w ==> 0 <= #[trigger] ps[k] < 120) && (forall|a: int, b: int|
                    0 <= a < b < w ==> #[trigger] ps[a] != #[trigger] ps[b]) && (forall|k: int|
                    0 <= k < w ==> #[trigger] es[k] != 0) && before == with_errors(
                    msg + rs_parity(msg, generator_poly(10)),
                    ps,
                    es,
                    w,
                ) implies r == Ok::<usize, &'static str>(w as usize) && codeword@ == msg + rs_parity(
                    msg,
                    generator_poly(10),
                ) by {
                lemma_up_to_five_errors_corrected(msg, ps, es, w);
            }
        }
        r
    }

    /// The decoding stages: syndromes, Berlekamp-Massey, Chien search and
    /// Forney corrections.
    fn decode_steps(&self, codeword: &mut Vec<u8>) -> (r: Result<usize, &'static str>)
        ensures
            rs_decode_outcome(old(codeword)@, r, final(codeword)@),
    {
        proof {
            use_type_invariant(self);
        }
        if codeword.len() != self.n {
            return Err("Codeword length mismatch");
        }
        let n_parity = self.n - self.k;
        let syndromes = rs_syndromes(codeword.as_slice(), n_parity);
        let mut zero = true;
        let mut i: usize = 0;
        while i < n_parity
            invariant
                n_parity == 10,
                syndromes.len() == 10,
                i <= 10,
                zero == (forall|q: int| 0 <= q < i ==> syndromes[q] == 0),
            decreases 10 - i,
        {
            if syndromes[i] != 0 {
                zero = false;
            }
            i += 1;
        }
        if zero {
            return Ok(0);
        }
        let (sigma, num_errors) = rs_berlekamp_massey(syndromes.as_slice(), self.t);
        if num_errors > self.t {
            return Err("Too many errors to correct");
        }
        let error_byte_indices = rs_chien_search(sigma.as_slice(), self.n);
        if error_byte_indices.len() != num_errors {
            return Err("Chien search error count mismatch");
        }
        let omega = rs_compute_omega(syndromes.as_slice(), sigma.as_slice());
        let sigma_prime = rs_formal_deriv(sigma.as_slice());
        let ghost cw = old(codeword)@;
        let ghost synd = syndromes@;
        let ghost roots = error_byte_indices@;
        proof {
            lemma_chien_roots_increasing(sigma@, 120, 120);
            assert(codeword@ =~= corrected(cw, synd, sigma@, roots, 0));
        }
        let mut corrections: usize = 0;
        while corrections < error_byte_indices.len()
            invariant
                self.n == 120,
                cw.len() == 120,
                codeword.len() == 120,
                synd == syndromes@,
                synd == syndromes_spec(cw, 10),
                cw == old(codeword)@,
                !all_zero(synd),
                sigma@ == bm_result(synd).0,
                roots.len() == bm_result(synd).1,
                bm_result(synd).1 <= 5,
                roots == error_byte_indices@,
                roots == chien_roots(sigma@, 120, 120),
                omega@ == omega_spec(synd, sigma@),
                sigma_prime@ == formal_deriv_spec(sigma@),
                forall|a: int, b: int| 0 <= a < b < roots.len() ==> roots[a] < roots[b],
                forall|a: int| 0 <= a < roots.len() ==> roots[a] < 120,
                corrections <= roots.len(),
                !singular_before(sigma@, roots, 120, corrections as int),
                codeword@ == corrected(cw, synd, sigma@, roots, corrections as int),
            decreases roots.len() - corrections,
        {
            let byte_idx = error_byte_indices[corrections];
            let power = self.n - 1 - byte_idx;
            let xi = gf_exp(power % 255);
            let xi_inv = gf_exp((255 - power % 255) % 255);
            let denom = gf_poly_eval(sigma_prime.as_slice(), xi_inv);
            if denom == 0 {
                proof {
                    let k = corrections as int;
                    assert(forney_denominator(sigma@, 120, roots[k] as int) == 0);
                    assert(singular_before(sigma@, roots, 120, roots.len() as int));
                    assert(0 <= k < roots.len() && forney_denominator(sigma@, 120, roots[k] as int) == 0
                        && !singular_before(sigma@, roots, 120, k) && codeword@ == corrected(
                        cw,
                        synd,
                        sigma@,
                        roots,
                        k,
                    ));
                }
                return Err("Singular Forney denominator");
            }
            let numer = gf_mul(xi, gf_poly_eval(omega.as_slice(), xi_inv));
            let error_val = gf_div(numer, denom);
            let fixed = codeword[byte_idx] ^ error_val;
            codeword.set(byte_idx, fixed);
            proof {
                let k = corrections as int;
                assert(!roots.subrange(0, k).contains(byte_idx)) by {
                    if roots.subrange(0, k).contains(byte_idx) {
                        let w = choose|w: int| 0 <= w < k && #[trigger] roots.subrange(0, k)[w] == byte_idx;
                        assert(roots[w] < roots[k]);
                    }
                }
                assert forall|x: int| 0 <= x < 120 implies #[trigger] roots.subrange(0, k + 1).contains(x as usize)
                    == (roots.subrange(0, k).contains(x as usize) || x == byte_idx) by {
                    if roots.subrange(0, k + 1).contains(x as usize) {
                        let w = choose|w: int| 0 <= w < k + 1 && #[trigger] roots.subrange(0, k + 1)[w] == x as usize;
                        if w < k {
                            assert(roots.subrange(0, k)[w] == x as usize);
                        }
                    }
                    if roots.subrange(0, k).contains(x as usize) {
                        let w = choose|w: int| 0 <= w < k && #[trigger] roots.subrange(0, k)[w] == x as usize;
                        assert(roots.subrange(0, k + 1)[w] == x as usize);
                    }
                    if x == byte_idx {
                        assert(roots.subrange(0, k + 1)[k] == x as usize);
                    }
                }
                assert(codeword@ =~= corrected(cw, synd, sigma@, roots, k + 1));
                assert(!singular_before(sigma@, roots, 120, k + 1)) by {
                    if singular_before(sigma@, roots, 120, k + 1) {
                        let w = choose|w: int| 0 <= w < k + 1 && #[trigger] forney_denominator(sigma@, 120, roots[w] as int) == 0;
                        if w < k {
                            assert(singular_before(sigma@, roots, 120, k));
                        }
                    }
                }
            }
            corrections += 1;
        }
        Ok(corrections)
    }
}

impl Default for DabReedSolomon {
    fn default() -> (rs: Self)
        ensures
            rs.generator() == generator_poly(10),
    {
        Self::new()
    }
}

/// The syndromes `S_i = C(alpha^i)` for `i < count` (first byte = highest power).
fn rs_syndromes(codeword: &[u8], count: usize) -> (synd: Vec<u8>)
    ensures
        synd@ == syndromes_spec(codeword@, count as nat),
{
    let mut synd: Vec<u8> = Vec::with_capacity(count);
    let mut i: usize = 0;
    while i < count
        invariant
            i <= count,
            synd@ == syndromes_spec(codeword@, i as nat),
        decreases count - i,
    {
        let alpha_i = gf_exp(i);
        let mut acc: u8 = 0;
        let mut j: usize = 0;
        while j < codeword.len()
            invariant
                j <= codeword.len(),
                alpha_i == alpha_pow(i as int),
                acc == eval_msb(codeword@.subrange(0, j as int), alpha_i),
            decreases codeword.len() - j,
        {
            proof {
                assert(codeword@.subrange(0, j + 1).drop_last() =~= codeword@.subrange(0, j as int));
            }
            acc = gf_mul(acc, alpha_i) ^ codeword[j];
            j += 1;
        }
        proof {
            assert(codeword@.subrange(0, codeword.len() as int) =~= codeword@);
        }
        synd.push(acc);
        proof {
            assert(synd@ =~= syndromes_spec(codeword@, (i + 1) as nat));
        }
        i += 1;
    }
    synd
}

/// Berlekamp-Massey algorithm for RS decoding.
///
/// Returns (error locator polynomial sigma, number of errors L).
/// sigma[0] = 1 always (monic convention with constant term = 1).
fn rs_berlekamp_massey(syndromes: &[u8], t: usize) -> (r: (Vec<u8>, usize))
    requires
        syndromes.len() <= 254,
    ensures
        r.0@ == bm_result(syndromes@).0,
        r.1 as int == bm_result(syndromes@).1,
{
    let two_t = syndromes.len();
    let ghost synd = syndromes@;
    let mut sigma: Vec<u8> = vec![0u8; two_t + 1];
    let mut prev: Vec<u8> = vec![0u8; two_t + 1];
    sigma.set(0, 1);
    prev.set(0, 1);
    let mut l: usize = 0;
    let mut m: usize = 1;
    let mut delta_prev: u8 = 1;
    proof {
        assert(sigma@ =~= bm_init(two_t as nat).0);
        assert(prev@ =~= bm_init(two_t as nat).1);
    }
    let mut r: usize = 0;
    while r < two_t
        invariant
            two_t == syndromes.len(),
            two_t <= 254,
            synd == syndromes@,
            r <= two_t,
            sigma.len() == two_t + 1,
            prev.len() == two_t + 1,
            l <= r,
            1 <= m <= r + 1,
            (sigma@, prev@, l as int, m as int, delta_prev) == bm_run(synd, r as int),
        decreases two_t - r,
    {
        let mut delta: u8 = syndromes[r];
        let mut j: usize = 1;
        while j <= l
            invariant
                l <= r < two_t,
                two_t == syndromes.len(),
                sigma.len() == two_t + 1,
                1 <= j <= l + 1,
                delta == discrepancy(synd, sigma@, r as int, j - 1),
                synd == syndromes@,
            decreases l + 1 - j,
        {
            delta = delta ^ gf_mul(sigma[j], syndromes[r - j]);
            j += 1;
        }
        if delta == 0 {
            m += 1;
        } else if 2 * l <= r {
            let temp: Vec<u8> = vstd::slice::slice_to_vec(sigma.as_slice());
            let scale = gf_mul(delta, gf_inv(delta_prev));
            bm_apply(&mut sigma, prev.as_slice(), scale, m);
            l = r + 1 - l;
            prev = temp;
            delta_prev = delta;
            m = 1;
        } else {
            let scale = gf_mul(delta, gf_inv(delta_prev));
            bm_apply(&mut sigma, prev.as_slice(), scale, m);
            m += 1;
        }
        r += 1;
    }
    let out = vstd::slice::slice_to_vec(&sigma.as_slice()[0..l + 1]);
    (out, l)
}

/// `sigma += scale * x^m * prev`, in place, over the length of `sigma`.
fn bm_apply(sigma: &mut Vec<u8>, prev: &[u8], scale: u8, m: usize)
    requires
        old(sigma).len() == prev.len(),
    ensures
        final(sigma)@ == bm_update(old(sigma)@, prev@, scale, m as int),
{
    let ghost s0 = sigma@;
    let mut i: usize = m;
    while i < sigma.len()
        invariant
            sigma.len() == prev.len(),
            s0.len() == sigma.len(),
            m <= i || i == m,
            forall|q: int|
                0 <= q < sigma.len() ==> #[trigger] sigma[q] == (if m <= q < i {
                    s0[q] ^ gf_mul_spec(scale, prev[q - m])
                } else {
                    s0[q]
                }),
        decreases sigma.len() - i,
    {
        let v = sigma[i] ^ gf_mul(scale, prev[i - m]);
        sigma.set(i, v);
        i += 1;
    }
    proof {
        assert(sigma@ =~= bm_update(s0, prev@, scale, m as int));
    }
}

/// Chien search for RS error locator roots.
///
/// Finds byte indices `i` (0-indexed from MSB) where sigma(alpha^{-(n-1-i)}) = 0.
fn rs_chien_search(sigma: &[u8], n: usize) -> (locs: Vec<usize>)
    ensures
        locs@ == chien_roots(sigma@, n as int, n as int),
{
    let mut locs: Vec<usize> = Vec::new();
    let mut byte_idx: usize = 0;
    while byte_idx < n
        invariant
            byte_idx <= n,
            locs@ == chien_roots(sigma@, n as int, byte_idx as int),
        decreases n - byte_idx,
    {
        let power = (n - 1 - byte_idx) % 255;
        let xi_inv = gf_exp((255 - power) % 255);
        if gf_poly_eval(sigma, xi_inv) == 0 {
            locs.push(byte_idx);
        }
        byte_idx += 1;
    }
    locs
}

/// Compute error evaluator polynomial omega(x) = S(x) * sigma(x) mod x^{2t}.
///
/// S(x) = sum_{j=0}^{2t-1} S_j x^j, sigma is the error locator.
fn rs_compute_omega(syndromes: &[u8], sigma: &[u8]) -> (omega: Vec<u8>)
    ensures
        omega@ == omega_spec(syndromes@, sigma@),
{
    let two_t = syndromes.len();
    let mut omega: Vec<u8> = Vec::with_capacity(two_t);
    let mut i: usize = 0;
    while i < two_t
        invariant
            two_t == syndromes.len(),
            i <= two_t,
            omega.len() == i,
            forall|q: int| 0 <= q < i ==> #[trigger] omega[q] == omega_spec(syndromes@, sigma@)[q],
        decreases two_t - i,
    {
        let mut v: u8 = 0;
        let lim: usize = if sigma.len() < i + 1 { sigma.len() } else { i + 1 };
        let mut j: usize = 0;
        while j < lim
            invariant
                i < two_t,
                two_t == syndromes.len(),
                lim <= sigma.len(),
                lim <= i + 1,
                j <= lim,
                v == omega_acc(syndromes@, sigma@, i as int, j as int),
            decreases lim - j,
        {
            v = v ^ gf_mul(syndromes[i - j], sigma[j]);
            j += 1;
        }
        omega.push(v);
        i += 1;
    }
    proof {
        assert(omega@ =~= omega_spec(syndromes@, sigma@));
    }
    omega
}

/// Formal derivative of polynomial over GF(2^8).
///
/// d/dx sum_{i} a_i x^i = sum_{i odd} a_i x^{i-1}  (characteristic 2: even terms vanish).
fn rs_formal_deriv(poly: &[u8]) -> (d: Vec<u8>)
    ensures
        d@ == formal_deriv_spec(poly@),
{
    let len: usize = if poly.len() >= 2 { poly.len() - 1 } else { 1 };
    let mut d: Vec<u8> = vec![0u8; len];
    let mut i: usize = 0;
    while i < poly.len()
        invariant
            len == (if poly.len() >= 2 { poly.len() - 1 } else { 1 }),
            d.len() == len,
            i <= poly.len(),
            forall|k: int|
                0 <= k < len ==> #[trigger] d[k] == (if k % 2 == 0 && k + 1 < i {
                    poly[k + 1]
                } else {
                    0u8
                }),
        decreases poly.len() - i,
    {
        if i % 2 == 1 && i >= 1 {
            d.set(i - 1, poly[i]);
        }
        i += 1;
    }
    proof {
        assert(d@ =~= formal_deriv_spec(poly@));
    }
    d
}

/// Chien roots come in increasing order and lie below the search bound.
pub(crate) proof fn lemma_chien_roots_increasing(sigma: Seq<u8>, n: int, k: int)
    requires
        0 <= k <= usize::MAX,
    ensures
        forall|a: int, b: int|
            0 <= a < b < chien_roots(sigma, n, k).len() ==> chien_roots(sigma, n, k)[a] < chien_roots(
                sigma,
                n,
                k,
            )[b],
        forall|a: int| 0 <= a < chien_roots(sigma, n, k).len() ==> chien_roots(sigma, n, k)[a] < k,
    decreases k,
{
    if k > 0 {
        lemma_chien_roots_increasing(sigma, n, k - 1);
        let prev = chien_roots(sigma, n, k - 1);
        let cur = chien_roots(sigma, n, k);
        if poly_eval_spec(sigma, chien_point(n, k - 1)) == 0 {
            assert(cur == prev.push((k - 1) as usize));
            assert forall|a: int, b: int| 0 <= a < b < cur.len() implies cur[a] < cur[b] by {
                if b < prev.len() {
                    assert(cur[a] == prev[a] && cur[b] == prev[b]);
                } else {
                    assert(cur[a] == prev[a]);
                }
            }
            assert forall|a: int| 0 <= a < cur.len() implies cur[a] < k by {
                if a < prev.len() {
                    assert(cur[a] == prev[a]);
                }
            }
        }
    }
}

} // verus!
