//! Why the Reed-Solomon decoder corrects up to five corrupted bytes: the
//! syndromes of the errors are power sums of their locators, Berlekamp-
//! Massey finds the locator `prod (1 + X_k x)` for them, the Chien search
//! finds exactly the bytes whose points are its roots, and Forney's formula
//! gives back each error value. The single-error case is worked out first
//! on its own.

use vstd::prelude::*;

use crate::dab::gf::{
    alpha_pow, gf_inv_spec, gf_mul_spec, gf_pow_spec, lemma_alpha_order, lemma_gf_inv_is_inverse,
    lemma_gf_mul_associative, lemma_gf_mul_commutative, lemma_gf_mul_distributive, lemma_gf_mul_one,
    lemma_gf_mul_zero, lemma_mul_nonzero, lemma_mul_then_inv, lemma_pow_add, lemma_pow_of_product,
    lemma_pow_one, lemma_xor_basics, lemma_xor_cancel, lemma_xor_commutes, lemma_xor_regroup, poly_eval_spec,
};
use crate::dab::rs::{
    all_zero, bm_init, bm_result, bm_run, bm_step, bm_update, chien_point, chien_roots, corrected,
    discrepancy, eval_msb, forney_denominator, forney_value, formal_deriv_spec, generator_poly,
    lemma_encoded_codeword_decodes_clean, lemma_eval_leading_zeros, lemma_eval_xor, omega_acc,
    omega_spec, rs_decode_outcome, rs_parity, singular_before, syndromes_spec, xor_seq, zeros,
};

use crate::dab::rs_locator::{
    bm_inv, geo, lemma_annihilator_zero, lemma_bm_run_inv, lemma_locator_annihilates,
    lemma_locator_poly_shape, lemma_rec_sum_coeff_xor, lemma_rec_sum_combine, lemma_rec_sum_drop_first,
    lemma_rec_sum_geometric_power, locator_poly, rec_sum, lemma_eval_mul_lin, mul_lin, quot, lemma_quot,
    lemma_eval_xor_poly, lemma_eval_scale_poly, lemma_eval_pad, lemma_eval_as_rec_sum, lemma_deriv_at_root,
};
use crate::dab::rs::lemma_chien_roots_increasing;

verus! {

/// An `n`-byte error word: `e` at byte `p`, zero elsewhere.
pub open spec fn single_error(n: nat, p: int, e: u8) -> Seq<u8> {
    Seq::new(n, |i: int| if i == p { e } else { 0u8 })
}

/// The syndromes of a single error of value `e` at locator `X`:
/// `S_j = e * X^j`.
pub open spec fn geometric(e: u8, x: u8, n: nat) -> Seq<u8> {
    Seq::new(n, |j: int| gf_mul_spec(e, gf_pow_spec(x, j as nat)))
}

/// The locator polynomial `1 + X x` padded with zeros to `n` coefficients.
pub open spec fn linear_locator(x: u8, n: nat) -> Seq<u8> {
    Seq::new(n, |i: int| if i == 0 { 1u8 } else if i == 1 { x } else { 0u8 })
}

/// A single coefficient followed by zeros evaluates to that coefficient
/// times the power of `x` that the zeros make.
proof fn lemma_eval_head(e: u8, m: nat, x: u8)
    ensures
        eval_msb(seq![e] + zeros(m), x) == gf_mul_spec(e, gf_pow_spec(x, m)),
    decreases m,
{
    let s = seq![e] + zeros(m);
    if m == 0 {
        assert(s.drop_last() =~= Seq::<u8>::empty());
        assert(eval_msb(Seq::<u8>::empty(), x) == 0);
        assert(s.last() == e);
        lemma_gf_mul_zero(x);
        lemma_xor_basics(e);
        lemma_gf_mul_one(e);
    } else {
        let m1 = (m - 1) as nat;
        assert(s.drop_last() =~= seq![e] + zeros(m1));
        assert(s.last() == 0u8);
        lemma_eval_head(e, m1, x);
        lemma_gf_mul_associative(e, gf_pow_spec(x, m1), x);
        let v = gf_mul_spec(gf_mul_spec(e, gf_pow_spec(x, m1)), x);
        lemma_xor_basics(v);
    }
}

/// A single error evaluates to its value times `x` to the power of its
/// distance from the last byte.
proof fn lemma_eval_single_error(n: nat, p: int, e: u8, x: u8)
    requires
        0 <= p < n,
    ensures
        eval_msb(single_error(n, p, e), x) == gf_mul_spec(e, gf_pow_spec(x, (n - 1 - p) as nat)),
{
    let m = (n - 1 - p) as nat;
    assert(single_error(n, p, e) =~= zeros(p as nat) + (seq![e] + zeros(m)));
    lemma_eval_leading_zeros(p as nat, seq![e] + zeros(m), x);
    lemma_eval_head(e, m, x);
}

/// `alpha^j` raised to `d` is `alpha^d` raised to `j`.
proof fn lemma_pow_swap(j: nat, d: nat)
    ensures
        gf_pow_spec(gf_pow_spec(2, j), d) == gf_pow_spec(gf_pow_spec(2, d), j),
    decreases j,
{
    if j == 0 {
        lemma_pow_one(d);
    } else {
        let j1 = (j - 1) as nat;
        lemma_pow_swap(j1, d);
        lemma_pow_of_product(gf_pow_spec(2, j1), 2, d);
    }
}

/// A codeword with one byte changed by `e` has the syndromes of that error:
/// `e * X^j` with `X = alpha^(119 - p)`.
proof fn lemma_single_error_syndromes(c: Seq<u8>, p: int, e: u8)
    requires
        c.len() == 120,
        all_zero(syndromes_spec(c, 10)),
        0 <= p < 120,
    ensures
        syndromes_spec(c.update(p, c[p] ^ e), 10) == geometric(e, gf_pow_spec(2, (119 - p) as nat), 10),
{
    let w = c.update(p, c[p] ^ e);
    let err = single_error(120, p, e);
    let d = (119 - p) as nat;
    let x = gf_pow_spec(2, d);
    assert(w =~= xor_seq(c, err)) by {
        assert forall|i: int| 0 <= i < 120 implies #[trigger] w[i] == xor_seq(c, err)[i] by {
            let v = c[i];
            lemma_xor_basics(v);
        }
    }
    assert forall|j: int| 0 <= j < 10 implies #[trigger] syndromes_spec(w, 10)[j] == geometric(e, x, 10)[j] by {
        let y = alpha_pow(j);
        assert(y == gf_pow_spec(2, j as nat));
        assert(syndromes_spec(c, 10)[j] == 0);
        lemma_eval_xor(c, err, y);
        lemma_eval_single_error(120, p, e, y);
        lemma_pow_swap(j as nat, d);
        let v = eval_msb(err, y);
        lemma_xor_basics(v);
    }
    assert(syndromes_spec(w, 10) =~= geometric(e, x, 10));
}

/// Each syndrome of a single error is the one before times `X`.
proof fn lemma_geometric_step(e: u8, x: u8, j: nat)
    requires
        j >= 1,
    ensures
        gf_mul_spec(e, gf_pow_spec(x, j)) == gf_mul_spec(x, gf_mul_spec(e, gf_pow_spec(x, (j - 1) as nat))),
{
    let j1 = (j - 1) as nat;
    lemma_gf_mul_associative(e, gf_pow_spec(x, j1), x);
    lemma_gf_mul_commutative(gf_mul_spec(e, gf_pow_spec(x, j1)), x);
}

/// One is its own inverse.
proof fn lemma_inv_one()
    ensures
        gf_inv_spec(1) == 1,
{
    lemma_gf_inv_is_inverse(1);
    lemma_gf_mul_one(gf_inv_spec(1));
}

/// The first two Berlekamp-Massey steps on `e, e X, ...` reach the locator
/// `1 + X x` with one error.
proof fn lemma_bm_first_steps(e: u8, x: u8)
    requires
        e != 0,
    ensures
        bm_run(geometric(e, x, 10), 2) == (linear_locator(x, 11), linear_locator(0, 11), 1int, 2int, e),
{
    let synd = geometric(e, x, 10);
    let one = linear_locator(0, 11);
    lemma_gf_mul_one(e);
    lemma_gf_mul_one(x);
    assert(synd[0] == e);
    assert(synd[1] == gf_mul_spec(e, x)) by {
        assert(gf_pow_spec(x, 1) == gf_mul_spec(1, x));
        lemma_gf_mul_one(x);
    }
    // The initial state.
    assert(bm_init(10).0 =~= one);
    assert(bm_run(synd, 0) == (one, one, 0int, 1int, 1u8));
    // Step 0: the discrepancy is S_0 = e, and the locator becomes 1 + e x.
    lemma_inv_one();
    let sig_e = linear_locator(e, 11);
    assert(bm_update(one, one, gf_mul_spec(e, gf_inv_spec(1)), 1) =~= sig_e) by {
        lemma_gf_mul_zero(e);
        lemma_xor_basics(0u8);
        lemma_xor_basics(e);
    }
    assert(discrepancy(synd, one, 0, 0) == e);
    assert(bm_run(synd, 1) == (sig_e, one, 1int, 1int, e));
    // Step 1: the discrepancy is e X + e e.
    let delta = gf_mul_spec(e, x) ^ gf_mul_spec(e, e);
    assert(discrepancy(synd, sig_e, 1, 0) == synd[1]);
    assert(discrepancy(synd, sig_e, 1, 1) == delta);
    let sig_x = linear_locator(x, 11);
    if delta == 0 {
        lemma_xor_cancel(gf_mul_spec(e, x), gf_mul_spec(e, e));
        lemma_mul_then_inv(e, x);
        lemma_mul_then_inv(e, e);
        assert(sig_e =~= sig_x);
    } else {
        let scale = gf_mul_spec(delta, gf_inv_spec(e));
        lemma_gf_mul_distributive(gf_mul_spec(e, x), gf_mul_spec(e, e), gf_inv_spec(e));
        lemma_mul_then_inv(e, x);
        lemma_mul_then_inv(e, e);
        assert(scale == x ^ e);
        lemma_gf_mul_one(scale);
        lemma_gf_mul_zero(scale);
        lemma_xor_cancel(e, x);
        lemma_xor_basics(0u8);
        assert(bm_update(sig_e, one, scale, 1) =~= sig_x);
    }
}

/// From the third step on, every discrepancy vanishes: the locator stays.
proof fn lemma_bm_later_steps(e: u8, x: u8, r: int)
    requires
        e != 0,
        2 <= r <= 10,
    ensures
        bm_run(geometric(e, x, 10), r) == (linear_locator(x, 11), linear_locator(0, 11), 1int, r, e),
    decreases r,
{
    if r == 2 {
        lemma_bm_first_steps(e, x);
    } else {
        lemma_bm_later_steps(e, x, r - 1);
        let synd = geometric(e, x, 10);
        let sig_x = linear_locator(x, 11);
        let q = r - 1;
        lemma_geometric_step(e, x, q as nat);
        let prev = synd[q - 1];
        lemma_gf_mul_one(synd[q]);
        lemma_xor_basics(gf_mul_spec(x, prev));
        assert(discrepancy(synd, sig_x, q, 0) == synd[q]);
        assert(discrepancy(synd, sig_x, q, 1) == 0);
    }
}

/// Berlekamp-Massey finds the locator `1 + X x` and one error.
proof fn lemma_bm_single_error(e: u8, x: u8)
    requires
        e != 0,
    ensures
        bm_result(geometric(e, x, 10)).0 == seq![1u8, x],
        bm_result(geometric(e, x, 10)).1 == 1,
{
    lemma_bm_later_steps(e, x, 10);
    assert(linear_locator(x, 11).subrange(0, 2) =~= seq![1u8, x]);
}

/// The locator `1 + X x` evaluates to `X y + 1`.
proof fn lemma_eval_linear(x: u8, y: u8)
    ensures
        poly_eval_spec(seq![1u8, x], y) == gf_mul_spec(x, y) ^ 1u8,
{
    let s = seq![1u8, x];
    assert(s.drop_first() =~= seq![x]);
    assert(seq![x].drop_first() =~= Seq::<u8>::empty());
    assert(poly_eval_spec(Seq::<u8>::empty(), y) == 0);
    lemma_gf_mul_zero(y);
    lemma_xor_basics(x);
    assert(poly_eval_spec(seq![x], y) == x);
}

/// Byte `idx` of a 120-byte word is a root of `1 + alpha^d x` exactly when
/// it is byte `119 - d`.
proof fn lemma_chien_point_root(d: int, idx: int)
    requires
        0 <= d < 120,
        0 <= idx < 120,
    ensures
        (gf_mul_spec(gf_pow_spec(2, d as nat), chien_point(120, idx)) == 1) == (idx == 119 - d),
{
    lemma_alpha_order();
    let d2 = 119 - idx;
    let t = (255 - d2 % 255) % 255;
    assert(d2 % 255 == d2);
    assert(chien_point(120, idx) == gf_pow_spec(2, t as nat));
    lemma_pow_add(2, d as nat, t as nat);
    let k = d + t;
    if d2 == 0 {
        assert(t == 0);
    } else {
        assert(t == 255 - d2);
        if d > d2 {
            lemma_pow_add(2, 255, (k - 255) as nat);
            lemma_gf_mul_one(gf_pow_spec(2, (k - 255) as nat));
            assert(gf_pow_spec(2, (255 + (k - 255)) as nat) == gf_pow_spec(2, k as nat));
            lemma_gf_mul_commutative(1, gf_pow_spec(2, (k - 255) as nat));
        }
    }
}

/// The Chien search over the first `k` bytes finds byte `119 - d` alone,
/// once `k` is past it.
proof fn lemma_chien_single(d: int, k: int)
    requires
        0 <= d < 120,
        0 <= k <= 120,
    ensures
        chien_roots(seq![1u8, gf_pow_spec(2, d as nat)], 120, k) == (if k > 119 - d {
            seq![(119 - d) as usize]
        } else {
            Seq::<usize>::empty()
        }),
    decreases k,
{
    if k > 0 {
        lemma_chien_single(d, k - 1);
        let x = gf_pow_spec(2, d as nat);
        let y = chien_point(120, k - 1);
        lemma_eval_linear(x, y);
        lemma_chien_point_root(d, k - 1);
        lemma_xor_cancel(gf_mul_spec(x, y), 1u8);
        if k - 1 == 119 - d {
            assert(Seq::<usize>::empty().push((k - 1) as usize) =~= seq![(119 - d) as usize]);
        }
    }
}

/// Zero coefficients evaluate to zero.
proof fn lemma_poly_eval_zeros(m: nat, y: u8)
    ensures
        poly_eval_spec(zeros(m), y) == 0,
    decreases m,
{
    if m > 0 {
        assert(zeros(m).drop_first() =~= zeros((m - 1) as nat));
        lemma_poly_eval_zeros((m - 1) as nat, y);
        lemma_gf_mul_zero(y);
        lemma_xor_basics(0u8);
    }
}

/// The error evaluator of a single error is the constant `e`, and the
/// locator's derivative is the constant `X`.
proof fn lemma_forney_single(e: u8, x: u8, y: u8)
    ensures
        poly_eval_spec(omega_spec(geometric(e, x, 10), seq![1u8, x]), y) == e,
        poly_eval_spec(formal_deriv_spec(seq![1u8, x]), y) == x,
{
    let synd = geometric(e, x, 10);
    let sig = seq![1u8, x];
    let omega = omega_spec(synd, sig);
    lemma_gf_mul_one(e);
    lemma_xor_basics(e);
    assert(omega[0] == e) by {
        assert(synd[0] == gf_mul_spec(e, 1));
        lemma_gf_mul_one(synd[0]);
        assert(omega_acc(synd, sig, 0, 0) == 0);
        assert(omega_acc(synd, sig, 0, 1) == 0u8 ^ gf_mul_spec(synd[0], 1u8));
    }
    assert forall|i: int| 1 <= i < 10 implies #[trigger] omega[i] == 0 by {
        lemma_geometric_step(e, x, i as nat);
        let prev = synd[i - 1];
        lemma_gf_mul_one(synd[i]);
        lemma_xor_basics(synd[i]);
        lemma_gf_mul_commutative(prev, x);
        lemma_xor_basics(gf_mul_spec(x, prev));
        assert(omega_acc(synd, sig, i, 0) == 0);
        assert(omega_acc(synd, sig, i, 1) == 0u8 ^ gf_mul_spec(synd[i], 1u8));
        assert(omega_acc(synd, sig, i, 2) == omega_acc(synd, sig, i, 1) ^ gf_mul_spec(synd[i - 1], x));
    }
    assert(omega.drop_first() =~= zeros(9));
    lemma_poly_eval_zeros(9, y);
    lemma_gf_mul_zero(y);
    assert(formal_deriv_spec(sig) =~= seq![x]);
    assert(seq![x].drop_first() =~= Seq::<u8>::empty());
    assert(poly_eval_spec(Seq::<u8>::empty(), y) == 0);
    lemma_xor_basics(x);
    assert(poly_eval_spec(seq![x], y) == x);
}

/// A valid 120-byte codeword with one byte changed by a nonzero `e`
/// decodes to one corrected error and the codeword itself.
proof fn lemma_single_error_corrected_word(c: Seq<u8>, p: int, e: u8)
    requires
        c.len() == 120,
        all_zero(syndromes_spec(c, 10)),
        0 <= p < 120,
        e != 0,
    ensures
        forall|r: Result<usize, &'static str>, out: Seq<u8>|
            rs_decode_outcome(c.update(p, c[p] ^ e), r, out) ==> r == Ok::<usize, &'static str>(1)
                && out == c,
{
    let w = c.update(p, c[p] ^ e);
    let d = 119 - p;
    let x = gf_pow_spec(2, d as nat);
    lemma_alpha_order();
    assert(x != 0);
    lemma_single_error_syndromes(c, p, e);
    let synd = syndromes_spec(w, 10);
    lemma_gf_mul_one(e);
    assert(synd[0] == e);
    assert(!all_zero(synd));
    lemma_bm_single_error(e, x);
    let sigma = bm_result(synd).0;
    lemma_chien_single(d, 120);
    let roots = chien_roots(sigma, 120, 120);
    assert(roots == seq![p as usize]);
    let xi_inv = alpha_pow((255 - d % 255) % 255);
    lemma_forney_single(e, x, xi_inv);
    assert(forney_denominator(sigma, 120, p) == x);
    assert(!singular_before(sigma, roots, 120, 1)) by {
        if singular_before(sigma, roots, 120, 1) {
            let q = choose|q: int| 0 <= q < 1 && #[trigger] forney_denominator(sigma, 120, roots[q] as int) == 0;
            assert(q == 0);
        }
    }
    assert(alpha_pow(d % 255) == x);
    lemma_gf_mul_commutative(x, e);
    lemma_mul_then_inv(x, e);
    assert(forney_value(synd, sigma, 120, p) == e);
    assert(corrected(w, synd, sigma, roots, 1) =~= c) by {
        assert(roots.subrange(0, 1) =~= seq![p as usize]);
        assert forall|i: int| 0 <= i < 120 implies #[trigger] corrected(w, synd, sigma, roots, 1)[i] == c[i] by {
            if i == p {
                assert(seq![p as usize][0] == p as usize);
                lemma_xor_cancel(c[p], e);
            } else {
                assert(!seq![p as usize].contains(i as usize)) by {
                    if seq![p as usize].contains(i as usize) {
                        let k = choose|k: int| 0 <= k < 1 && #[trigger] seq![p as usize][k] == i as usize;
                        assert(k == 0);
                    }
                }
            }
        }
    }
}

/// Reed-Solomon corrects a single corrupted byte: an encoded codeword with
/// any one byte changed by any nonzero value decodes with one error
/// corrected and gives the codeword back.
pub proof fn lemma_single_error_corrected(msg: Seq<u8>, p: int, e: u8)
    requires
        msg.len() == 110,
        0 <= p < 120,
        e != 0,
    ensures
        forall|r: Result<usize, &'static str>, out: Seq<u8>|
            rs_decode_outcome(
                (msg + rs_parity(msg, generator_poly(10))).update(
                    p,
                    (msg + rs_parity(msg, generator_poly(10)))[p] ^ e,
                ),
                r,
                out,
            ) ==> r == Ok::<usize, &'static str>(1) && out == msg + rs_parity(msg, generator_poly(10)),
{
    lemma_encoded_codeword_decodes_clean(msg);
    let cw = msg + rs_parity(msg, generator_poly(10));
    lemma_single_error_corrected_word(cw, p, e);
}

// ---------------------------------------------------------------------------
// Several errors: syndromes as power sums, and distinct locators
// ---------------------------------------------------------------------------

/// The locator of byte `p` of a 120-byte word: `alpha^(119 - p)`.
pub open spec fn byte_locator(p: int) -> u8 {
    gf_pow_spec(2, (119 - p) as nat)
}

/// The locators of the bytes `ps`.
pub open spec fn locators(ps: Seq<int>) -> Seq<u8> {
    Seq::new(ps.len(), |k: int| byte_locator(ps[k]))
}

/// `cw` with the error value `es[k]` added into byte `ps[k]`, for each
/// `k < w` in turn.
pub open spec fn with_errors(cw: Seq<u8>, ps: Seq<int>, es: Seq<u8>, w: int) -> Seq<u8>
    decreases w,
{
    if w <= 0 {
        cw
    } else {
        let v = with_errors(cw, ps, es, w - 1);
        v.update(ps[w - 1], v[ps[w - 1]] ^ es[w - 1])
    }
}

/// The power sum `sum_{k < w} es[k] * xs[k]^j`.
pub open spec fn power_sum(xs: Seq<u8>, es: Seq<u8>, j: nat, w: int) -> u8
    decreases w,
{
    if w <= 0 {
        0
    } else {
        power_sum(xs, es, j, w - 1) ^ gf_mul_spec(es[w - 1], gf_pow_spec(xs[w - 1], j))
    }
}

/// Adding an error of value `e` into byte `p` adds `e * X^j` to syndrome
/// `j`, with `X` the byte's locator.
proof fn lemma_eval_add_error(v: Seq<u8>, p: int, e: u8, j: nat)
    requires
        v.len() == 120,
        0 <= p < 120,
        j < 10,
    ensures
        eval_msb(v.update(p, v[p] ^ e), alpha_pow(j as int)) == eval_msb(v, alpha_pow(j as int)) ^ gf_mul_spec(
            e,
            gf_pow_spec(byte_locator(p), j),
        ),
{
    let w = v.update(p, v[p] ^ e);
    let err = single_error(120, p, e);
    let d = (119 - p) as nat;
    assert(w =~= xor_seq(v, err)) by {
        assert forall|i: int| 0 <= i < 120 implies #[trigger] w[i] == xor_seq(v, err)[i] by {
            let b = v[i];
            lemma_xor_basics(b);
        }
    }
    let y = alpha_pow(j as int);
    assert(y == gf_pow_spec(2, j));
    lemma_eval_xor(v, err, y);
    lemma_eval_single_error(120, p, e, y);
    lemma_pow_swap(j, d);
}

/// The syndromes of a codeword with errors `es[k]` added into bytes
/// `ps[k]` are the power sums of the errors over their locators:
/// `S_j = sum_k es[k] * X_k^j`.
pub proof fn lemma_error_syndromes(c: Seq<u8>, ps: Seq<int>, es: Seq<u8>, w: int)
    requires
        c.len() == 120,
        all_zero(syndromes_spec(c, 10)),
        0 <= w <= ps.len(),
        w <= es.len(),
        forall|k: int| 0 <= k < w ==> 0 <= #[trigger] ps[k] < 120,
    ensures
        with_errors(c, ps, es, w).len() == 120,
        syndromes_spec(with_errors(c, ps, es, w), 10) == Seq::new(
            10,
            |j: int| power_sum(locators(ps), es, j as nat, w),
        ),
    decreases w,
{
    let target = Seq::new(10, |j: int| power_sum(locators(ps), es, j as nat, w));
    if w == 0 {
        assert forall|j: int| 0 <= j < 10 implies #[trigger] syndromes_spec(c, 10)[j] == target[j] by {
            assert(syndromes_spec(c, 10)[j] == 0);
        }
    } else {
        lemma_error_syndromes(c, ps, es, w - 1);
        let v = with_errors(c, ps, es, w - 1);
        let p = ps[w - 1];
        assert(0 <= p < 120);
        assert forall|j: int| 0 <= j < 10 implies #[trigger] syndromes_spec(with_errors(c, ps, es, w), 10)[j]
            == target[j] by {
            lemma_eval_add_error(v, p, es[w - 1], j as nat);
            assert(syndromes_spec(v, 10)[j] == power_sum(locators(ps), es, j as nat, w - 1));
            assert(locators(ps)[w - 1] == byte_locator(p));
        }
    }
    assert(syndromes_spec(with_errors(c, ps, es, w), 10) =~= target);
}

/// Multiplying each weight by `xs[k] + l` turns power sum `s` into power
/// sum `s + 1` plus `l` times power sum `s`.
proof fn lemma_power_sum_shift(xs: Seq<u8>, ys: Seq<u8>, l: u8, s: nat, k: int)
    requires
        0 <= k <= xs.len(),
        k <= ys.len(),
    ensures
        power_sum(xs, Seq::new(ys.len(), |i: int| gf_mul_spec(ys[i], xs[i] ^ l)), s, k) == power_sum(
            xs,
            ys,
            s + 1,
            k,
        ) ^ gf_mul_spec(l, power_sum(xs, ys, s, k)),
    decreases k,
{
    let ysl = Seq::new(ys.len(), |i: int| gf_mul_spec(ys[i], xs[i] ^ l));
    if k == 0 {
        lemma_gf_mul_zero(l);
        lemma_xor_basics(0u8);
    } else {
        lemma_power_sum_shift(xs, ys, l, s, k - 1);
        let x = xs[k - 1];
        let y = ys[k - 1];
        let xs_ = gf_pow_spec(x, s);
        let t = gf_mul_spec(y, xs_);
        // y (x + l) x^s == y x^(s+1) + l (y x^s)
        lemma_gf_mul_associative(y, x ^ l, xs_);
        lemma_gf_mul_commutative(x ^ l, xs_);
        lemma_gf_mul_associative(y, xs_, x ^ l);
        lemma_gf_mul_distributive(x, l, t);
        lemma_gf_mul_commutative(t, x ^ l);
        lemma_gf_mul_commutative(x, t);
        lemma_gf_mul_commutative(l, t);
        lemma_gf_mul_associative(y, xs_, x);
        assert(gf_pow_spec(x, s + 1) == gf_mul_spec(xs_, x));
        assert(ysl[k - 1] == gf_mul_spec(y, x ^ l));
        lemma_gf_mul_distributive(power_sum(xs, ys, s, k - 1), t, l);
        lemma_gf_mul_commutative(l, power_sum(xs, ys, s, k - 1) ^ t);
        lemma_gf_mul_commutative(l, power_sum(xs, ys, s, k - 1));
        lemma_xor_regroup(
            power_sum(xs, ys, s + 1, k - 1),
            gf_mul_spec(y, gf_pow_spec(x, s + 1)),
            gf_mul_spec(l, power_sum(xs, ys, s, k - 1)),
            gf_mul_spec(t, l),
        );
    }
}

/// Power sums over distinct points determine their weights: if
/// `sum_{k < w} ys[k] * xs[k]^s` vanishes for every `s < w` and the points
/// `xs[0..w]` are distinct, every weight is zero (the Vandermonde system
/// of distinct points has only the zero solution).
pub proof fn lemma_power_sums_vanish(xs: Seq<u8>, ys: Seq<u8>, w: int)
    requires
        0 <= w <= xs.len(),
        w <= ys.len(),
        forall|a: int, b: int| 0 <= a < b < w ==> #[trigger] xs[a] != #[trigger] xs[b],
        forall|s: nat| s < w ==> #[trigger] power_sum(xs, ys, s, w) == 0,
    ensures
        forall|k: int| 0 <= k < w ==> #[trigger] ys[k] == 0,
    decreases w,
{
    if w > 0 {
        let l = xs[w - 1];
        let ysl = Seq::new(ys.len(), |i: int| gf_mul_spec(ys[i], xs[i] ^ l));
        assert forall|s: nat| s < w - 1 implies #[trigger] power_sum(xs, ysl, s, w - 1) == 0 by {
            lemma_power_sum_shift(xs, ys, l, s, w);
            assert(power_sum(xs, ys, s + 1, w) == 0);
            assert(power_sum(xs, ys, s, w) == 0);
            lemma_gf_mul_zero(l);
            lemma_xor_basics(0u8);
            lemma_xor_basics(l);
            lemma_gf_mul_zero(ys[w - 1]);
            assert(ysl[w - 1] == 0);
            lemma_gf_mul_zero(gf_pow_spec(xs[w - 1], s));
            lemma_xor_basics(power_sum(xs, ysl, s, w - 1));
        }
        lemma_power_sums_vanish(xs, ysl, w - 1);
        assert forall|k: int| 0 <= k < w - 1 implies #[trigger] ys[k] == 0 by {
            assert(ysl[k] == 0);
            assert(xs[k] != l);
            lemma_xor_cancel(xs[k], l);
            if ys[k] != 0 {
                lemma_mul_nonzero(ys[k], xs[k] ^ l);
            }
        }
        // The sum of the weights: only the last can be nonzero.
        lemma_power_sum_zero_weights(xs, ys, 0, w - 1);
        assert(power_sum(xs, ys, 0, w) == 0);
        lemma_gf_mul_one(ys[w - 1]);
        lemma_xor_basics(ys[w - 1]);
    }
}

/// A power sum whose weights are all zero is zero.
proof fn lemma_power_sum_zero_weights(xs: Seq<u8>, ys: Seq<u8>, s: nat, k: int)
    requires
        forall|i: int| 0 <= i < k ==> #[trigger] ys[i] == 0,
    ensures
        power_sum(xs, ys, s, k) == 0,
    decreases k,
{
    if k > 0 {
        lemma_power_sum_zero_weights(xs, ys, s, k - 1);
        lemma_gf_mul_zero(gf_pow_spec(xs[k - 1], s));
        lemma_xor_basics(0u8);
    }
}

/// Distinct bytes of a 120-byte word have distinct locators.
pub proof fn lemma_locators_distinct(a: int, b: int)
    requires
        0 <= a < b < 120,
    ensures
        byte_locator(a) != byte_locator(b),
{
    let db = (119 - b) as nat;
    let k = (b - a) as nat;
    lemma_alpha_order();
    lemma_pow_add(2, db, k);
    assert(db + k == (119 - a) as nat);
    let y = gf_pow_spec(2, db);
    assert(y != 0);
    if byte_locator(a) == byte_locator(b) {
        assert(gf_mul_spec(y, gf_pow_spec(2, k)) == y);
        lemma_mul_then_inv(y, gf_pow_spec(2, k));
        lemma_mul_then_inv(y, 1u8);
        lemma_gf_mul_one(y);
        assert(gf_pow_spec(2, k) == 1u8);
        assert(false);
    }
}

/// Berlekamp-Massey's length never decreases, and once a nonzero syndrome
/// has been read it is at least one.
proof fn lemma_bm_length_grows(synd: Seq<u8>, r: int)
    requires
        0 <= r <= synd.len(),
    ensures
        bm_run(synd, r).2 >= 0,
        (exists|j: int| 0 <= j < r && synd[j] != 0) ==> bm_run(synd, r).2 >= 1,
    decreases r,
{
    if r > 0 {
        lemma_bm_length_grows(synd, r - 1);
        let st = bm_run(synd, r - 1);
        assert(bm_run(synd, r) == bm_step(synd, st, r - 1));
        if exists|j: int| 0 <= j < r && synd[j] != 0 {
            let j = choose|j: int| 0 <= j < r && synd[j] != 0;
            if st.2 == 0 && j == r - 1 {
                assert(discrepancy(synd, st.0, r - 1, 0) == synd[r - 1]);
            }
        }
    }
}

/// Reed-Solomon detects any one to ten corrupted bytes: an encoded
/// codeword with nonzero error values added into between one and ten
/// distinct bytes never decodes as clean (`Ok(0)`).
pub proof fn lemma_errors_detected(msg: Seq<u8>, ps: Seq<int>, es: Seq<u8>, w: int)
    requires
        msg.len() == 110,
        1 <= w <= 10,
        w <= ps.len(),
        w <= es.len(),
        forall|k: int| 0 <= k < w ==> 0 <= #[trigger] ps[k] < 120,
        forall|a: int, b: int| 0 <= a < b < w ==> #[trigger] ps[a] != #[trigger] ps[b],
        forall|k: int| 0 <= k < w ==> #[trigger] es[k] != 0,
    ensures
        forall|r: Result<usize, &'static str>, out: Seq<u8>|
            rs_decode_outcome(with_errors(msg + rs_parity(msg, generator_poly(10)), ps, es, w), r, out)
                ==> r != Ok::<usize, &'static str>(0),
{
    let c = msg + rs_parity(msg, generator_poly(10));
    lemma_encoded_codeword_decodes_clean(msg);
    lemma_error_syndromes(c, ps, es, w);
    let cw = with_errors(c, ps, es, w);
    let synd = syndromes_spec(cw, 10);
    let xs = locators(ps);
    assert forall|a: int, b: int| 0 <= a < b < w implies #[trigger] xs[a] != #[trigger] xs[b] by {
        if ps[a] < ps[b] {
            lemma_locators_distinct(ps[a], ps[b]);
        } else {
            lemma_locators_distinct(ps[b], ps[a]);
        }
    }
    assert(!all_zero(synd)) by {
        if all_zero(synd) {
            assert forall|s: nat| s < w implies #[trigger] power_sum(xs, es, s, w) == 0 by {
                assert(synd[s as int] == 0);
            }
            lemma_power_sums_vanish(xs, es, w);
            assert(es[0] == 0);
        }
    }
    let j = choose|j: int| 0 <= j < 10 && synd[j] != 0;
    lemma_bm_length_grows(synd, 10);
    let l = bm_result(synd).1;
    assert(l >= 1);
}

/// The ten syndromes of errors `es` at locators `xs`: power sums.
pub open spec fn power_syndromes(xs: Seq<u8>, es: Seq<u8>, w: int) -> Seq<u8> {
    Seq::new(10, |j: int| power_sum(xs, es, j as nat, w))
}

/// The weights through which a recurrence `c` of length `l` sees the power
/// sums: `es[k]` times its recurrence sum on the powers of `xs[k]`.
pub open spec fn seen_weights(xs: Seq<u8>, es: Seq<u8>, c: Seq<u8>, l: int) -> Seq<u8> {
    Seq::new(es.len(), |k: int| gf_mul_spec(es[k], rec_sum(geo(xs[k]), c, l, l + 1)))
}

/// A recurrence sum over power sums, `s` places after index `l`, is the
/// power sum `s` of the seen weights.
proof fn lemma_rec_sum_power_syndromes(xs: Seq<u8>, es: Seq<u8>, w: int, c: Seq<u8>, l: int, s: nat)
    requires
        0 <= w <= xs.len(),
        w <= es.len(),
        0 <= l,
        l + s < 10,
    ensures
        rec_sum(power_syndromes(xs, es, w), c, l + s, l + 1) == power_sum(xs, seen_weights(xs, es, c, l), s, w),
    decreases w,
{
    let ys = seen_weights(xs, es, c, l);
    if w == 0 {
        lemma_gsum_zero_rec(power_syndromes(xs, es, 0), c, l + s, l + 1);
    } else {
        lemma_rec_sum_power_syndromes(xs, es, w - 1, c, l, s);
        let x = xs[w - 1];
        let e = es[w - 1];
        assert forall|q: int| 0 <= q < l + 1 implies #[trigger] power_syndromes(xs, es, w)[(l + s) - q]
            == power_syndromes(xs, es, w - 1)[(l + s) - q] ^ gf_mul_spec(e, geo(x)[(l + s) - q]) by {
        }
        lemma_rec_sum_combine(
            power_syndromes(xs, es, w),
            power_syndromes(xs, es, w - 1),
            geo(x),
            e,
            c,
            l + s,
            l + 1,
        );
        lemma_rec_sum_geometric_power(x, c, l, s);
        let r = rec_sum(geo(x), c, l, l + 1);
        let xp = gf_pow_spec(x, s);
        lemma_gf_mul_associative(e, xp, r);
        lemma_gf_mul_commutative(xp, r);
        lemma_gf_mul_associative(e, r, xp);
        assert(ys[w - 1] == gf_mul_spec(e, r));
    }
}

/// A recurrence sum over the all-zero syndromes (no errors) is zero.
proof fn lemma_gsum_zero_rec(z: Seq<u8>, c: Seq<u8>, j: int, n: int)
    requires
        0 <= n,
        forall|q: int| 0 <= q < n ==> #[trigger] z[j - q] == 0,
    ensures
        rec_sum(z, c, j, n) == 0,
    decreases n,
{
    if n > 0 {
        lemma_gsum_zero_rec(z, c, j, n - 1);
        assert(z[j - (n - 1)] == 0);
        lemma_gf_mul_zero(c[n - 1]);
        lemma_xor_basics(0u8);
    }
}

/// For errors with nonzero values at `w <= 5` distinct locators,
/// Berlekamp-Massey on their syndromes finds the locator
/// `prod_k (1 + X_k x)` and the error count `w`.
pub proof fn lemma_bm_finds_locator(xs: Seq<u8>, es: Seq<u8>, w: int)
    requires
        1 <= w <= 5,
        w <= xs.len(),
        w <= es.len(),
        forall|a: int, b: int| 0 <= a < b < w ==> #[trigger] xs[a] != #[trigger] xs[b],
        forall|k: int| 0 <= k < w ==> #[trigger] es[k] != 0,
    ensures
        bm_result(power_syndromes(xs, es, w)) == (locator_poly(xs, w), w),
{
    let s = power_syndromes(xs, es, w);
    let lam = locator_poly(xs, w);
    lemma_locator_poly_shape(xs, w);
    // The locator produces the syndromes.
    assert forall|j: int| w <= j < 10 implies #[trigger] rec_sum(s, lam, j, w + 1) == 0 by {
        let t = (j - w) as nat;
        lemma_rec_sum_power_syndromes(xs, es, w, lam, w, t);
        let ys = seen_weights(xs, es, lam, w);
        assert forall|k: int| 0 <= k < w implies #[trigger] ys[k] == 0 by {
            lemma_locator_annihilates(xs, w, k, w);
            lemma_gf_mul_zero(es[k]);
        }
        lemma_power_sum_zero_weights(xs, ys, t, w);
    }
    lemma_bm_run_inv(s, 10, w, lam);
    let st = bm_run(s, 10);
    let c = st.0;
    let l = st.2;
    assert(bm_inv(s, st, 10, w));
    // The locator Berlekamp-Massey found annihilates the powers of every point.
    assert forall|k: int| 0 <= k < w implies #[trigger] rec_sum(geo(xs[k]), c, l, l + 1) == 0 by {
        let ys = seen_weights(xs, es, c, l);
        assert forall|t: nat| t < w implies #[trigger] power_sum(xs, ys, t, w) == 0 by {
            lemma_rec_sum_power_syndromes(xs, es, w, c, l, t);
            assert(rec_sum(s, c, l + t, l + 1) == 0);
        }
        lemma_power_sums_vanish(xs, ys, w);
        assert(ys[k] == 0);
        if rec_sum(geo(xs[k]), c, l, l + 1) != 0 {
            lemma_mul_nonzero(es[k], rec_sum(geo(xs[k]), c, l, l + 1));
        }
    }
    if l < w {
        lemma_annihilator_zero(c, l, xs, w);
        assert(c[0] == 0);
    }
    assert(l == w);
    // The difference from the product locator vanishes.
    let d = Seq::new((w + 1) as nat, |i: int| c[i] ^ lam[i]);
    assert(d[0] == 0) by {
        lemma_xor_cancel(1u8, 1u8);
    }
    let e = d.drop_first();
    assert forall|k: int| 0 <= k < w implies #[trigger] rec_sum(geo(xs[k]), e, w - 1, w) == 0 by {
        lemma_locator_annihilates(xs, w, k, w);
        lemma_rec_sum_coeff_xor(geo(xs[k]), c, lam, d, w, w + 1);
        lemma_xor_basics(0u8);
        lemma_rec_sum_drop_first(geo(xs[k]), d, w, w);
    }
    lemma_annihilator_zero(e, w - 1, xs, w);
    assert(c.subrange(0, w + 1) =~= lam) by {
        assert forall|i: int| 0 <= i <= w implies c[i] == lam[i] by {
            if i >= 1 {
                assert(e[i - 1] == 0);
                assert(d[i] == 0);
            }
            lemma_xor_cancel(c[i], lam[i]);
        }
    }
}

/// The product locator vanishes at `y` exactly when one of its factors
/// does: when `xs[k] * y = 1` for some `k < n`.
pub proof fn lemma_locator_eval_zero(xs: Seq<u8>, n: int, y: u8)
    requires
        0 <= n <= xs.len(),
    ensures
        (poly_eval_spec(locator_poly(xs, n), y) == 0) == (exists|k: int|
            0 <= k < n && #[trigger] gf_mul_spec(xs[k], y) == 1),
    decreases n,
{
    if n == 0 {
        assert(seq![1u8].drop_first() =~= Seq::<u8>::empty());
        assert(poly_eval_spec(Seq::<u8>::empty(), y) == 0);
        lemma_gf_mul_zero(y);
        lemma_xor_basics(1u8);
    } else {
        let p = locator_poly(xs, n - 1);
        lemma_locator_eval_zero(xs, n - 1, y);
        let x = xs[n - 1];
        lemma_eval_mul_lin(p, x, y);
        let f = 1u8 ^ gf_mul_spec(x, y);
        let e = poly_eval_spec(p, y);
        lemma_xor_cancel(1u8, gf_mul_spec(x, y));
        lemma_xor_commutes(1u8, gf_mul_spec(x, y));
        lemma_xor_cancel(gf_mul_spec(x, y), 1u8);
        lemma_gf_mul_zero(e);
        lemma_gf_mul_zero(f);
        if f != 0 && e != 0 {
            lemma_mul_nonzero(f, e);
        }
        if exists|k: int| 0 <= k < n && #[trigger] gf_mul_spec(xs[k], y) == 1 {
            let k = choose|k: int| 0 <= k < n && #[trigger] gf_mul_spec(xs[k], y) == 1;
            if k < n - 1 {
                assert(exists|k2: int| 0 <= k2 < n - 1 && #[trigger] gf_mul_spec(xs[k2], y) == 1);
            }
        }
        if e == 0 {
            let k = choose|k: int| 0 <= k < n - 1 && #[trigger] gf_mul_spec(xs[k], y) == 1;
            assert(0 <= k < n);
        }
        if f == 0 {
            assert(gf_mul_spec(xs[n - 1], y) == 1);
        }
    }
}

/// The Chien search over the first `k` bytes holds exactly the bytes below
/// `k` whose point is a root.
proof fn lemma_chien_members(sigma: Seq<u8>, k: int)
    requires
        0 <= k <= 120,
    ensures
        forall|x: usize| #[trigger] chien_roots(sigma, 120, k).contains(x) == ((x as int) < k
            && poly_eval_spec(sigma, chien_point(120, x as int)) == 0),
    decreases k,
{
    if k > 0 {
        lemma_chien_members(sigma, k - 1);
        let prev = chien_roots(sigma, 120, k - 1);
        assert forall|x: usize| #[trigger] chien_roots(sigma, 120, k).contains(x) == ((x as int) < k
            && poly_eval_spec(sigma, chien_point(120, x as int)) == 0) by {
            if poly_eval_spec(sigma, chien_point(120, k - 1)) == 0 {
                let cur = prev.push((k - 1) as usize);
                assert(chien_roots(sigma, 120, k) == cur);
                if cur.contains(x) {
                    let i = choose|i: int| 0 <= i < cur.len() && cur[i] == x;
                    if i < prev.len() {
                        assert(prev.contains(x));
                    }
                }
                if prev.contains(x) {
                    let i = choose|i: int| 0 <= i < prev.len() && prev[i] == x;
                    assert(cur[i] == x);
                }
                if x as int == k - 1 {
                    assert(cur[prev.len() as int] == x);
                }
            }
        }
    }
}

/// The Chien search on the product locator of the bytes `ps[0..w]` finds
/// exactly those bytes, `w` of them.
pub proof fn lemma_chien_finds_errors(ps: Seq<int>, w: int)
    requires
        0 <= w <= ps.len(),
        forall|k: int| 0 <= k < w ==> 0 <= #[trigger] ps[k] < 120,
        forall|a: int, b: int| 0 <= a < b < w ==> #[trigger] ps[a] != #[trigger] ps[b],
    ensures
        ({
            let roots = chien_roots(locator_poly(locators(ps), w), 120, 120);
            &&& roots.len() == w
            &&& forall|x: usize| #[trigger] roots.contains(x) == (exists|k: int| 0 <= k < w && ps[k] == x as int)
            &&& forall|a: int| #![trigger roots[a]] 0 <= a < w ==> (exists|k: int| 0 <= k < w && #[trigger] ps[k] == roots[a] as int)
        }),
{
    let xs = locators(ps);
    let sigma = locator_poly(xs, w);
    let roots = chien_roots(sigma, 120, 120);
    lemma_chien_members(sigma, 120);
    assert forall|x: usize| #[trigger] roots.contains(x) == (exists|k: int| 0 <= k < w && ps[k] == x as int) by {
        if (x as int) < 120 {
            lemma_locator_eval_zero(xs, w, chien_point(120, x as int));
            if exists|k: int| 0 <= k < w && ps[k] == x as int {
                let k = choose|k: int| 0 <= k < w && ps[k] == x as int;
                lemma_chien_point_root(119 - ps[k], x as int);
                assert(gf_mul_spec(xs[k], chien_point(120, x as int)) == 1);
            }
            if exists|k: int| 0 <= k < w && #[trigger] gf_mul_spec(xs[k], chien_point(120, x as int)) == 1 {
                let k = choose|k: int| 0 <= k < w && #[trigger] gf_mul_spec(xs[k], chien_point(120, x as int)) == 1;
                lemma_chien_point_root(119 - ps[k], x as int);
                assert(ps[k] == x as int);
            }
        } else {
            if exists|k: int| 0 <= k < w && ps[k] == x as int {
                let k = choose|k: int| 0 <= k < w && ps[k] == x as int;
                assert(ps[k] < 120);
            }
        }
    }
    // Counting: both lists are free of repeats and hold the same bytes.
    lemma_chien_roots_increasing(sigma, 120, 120);
    let pu = Seq::new(w as nat, |k: int| ps[k] as usize);
    assert(roots.no_duplicates());
    assert(pu.no_duplicates()) by {
        assert forall|a: int, b: int| 0 <= a < pu.len() && 0 <= b < pu.len() && a != b implies pu[a] != pu[b] by {
            if a < b {
                assert(ps[a] != ps[b]);
            } else {
                assert(ps[b] != ps[a]);
            }
        }
    }
    assert(roots.to_set() =~= pu.to_set()) by {
        assert forall|x: usize| roots.to_set().contains(x) == pu.to_set().contains(x) by {
            if roots.contains(x) {
                let k = choose|k: int| 0 <= k < w && ps[k] == x as int;
                assert(pu[k] == x);
            }
            if pu.contains(x) {
                let k = choose|k: int| 0 <= k < pu.len() && pu[k] == x;
                assert(ps[k] == x as int);
            }
        }
    }
    roots.unique_seq_to_set();
    pu.unique_seq_to_set();
    assert(roots.len() == w);
    assert forall|a: int| #![trigger roots[a]] 0 <= a < w implies (exists|k: int| 0 <= k < w && #[trigger] ps[k] == roots[a] as int) by {
        assert(roots.contains(roots[a]));
    }
}

/// The error evaluator's coefficients are recurrence sums of the locator.
proof fn lemma_omega_acc_rec(synd: Seq<u8>, sigma: Seq<u8>, i: int, j: int)
    requires
        0 <= j,
    ensures
        omega_acc(synd, sigma, i, j) == rec_sum(synd, sigma, i, j),
    decreases j,
{
    if j > 0 {
        lemma_omega_acc_rec(synd, sigma, i, j - 1);
        lemma_gf_mul_commutative(synd[i - (j - 1)], sigma[j - 1]);
    }
}

/// The quotient of the product locator by the factor of point `m`.
pub open spec fn cofactor(xs: Seq<u8>, w: int, m: int) -> Seq<u8> {
    quot(locator_poly(xs, w), xs[m], w)
}

/// The product locator is its cofactor at `m` times `1 + xs[m] x`.
proof fn lemma_cofactor(xs: Seq<u8>, w: int, m: int)
    requires
        1 <= w <= 5,
        w <= xs.len(),
        0 <= m < w,
    ensures
        locator_poly(xs, w) == mul_lin(cofactor(xs, w, m), xs[m]),
        cofactor(xs, w, m).len() == w,
{
    lemma_locator_poly_shape(xs, w);
    lemma_locator_annihilates(xs, w, m, w);
    lemma_quot(locator_poly(xs, w), xs[m], w);
    assert(locator_poly(xs, w) =~= mul_lin(cofactor(xs, w, m), xs[m]));
}

/// `sum_{m < wp} es[m] * (cofactor m, coefficient i)`; coefficients from
/// `w` on read as zero.
pub open spec fn omega_sum(xs: Seq<u8>, es: Seq<u8>, w: int, wp: int, i: int) -> u8
    decreases wp,
{
    if wp <= 0 {
        0
    } else {
        omega_sum(xs, es, w, wp - 1, i) ^ gf_mul_spec(
            es[wp - 1],
            if i < w {
                cofactor(xs, w, wp - 1)[i]
            } else {
                0u8
            },
        )
    }
}

/// `sum_{m < wp} es[m] * cofactor_m(y)`.
pub open spec fn value_sum(xs: Seq<u8>, es: Seq<u8>, w: int, wp: int, y: u8) -> u8
    decreases wp,
{
    if wp <= 0 {
        0
    } else {
        value_sum(xs, es, w, wp - 1, y) ^ gf_mul_spec(es[wp - 1], poly_eval_spec(cofactor(xs, w, wp - 1), y))
    }
}

/// Coefficient `i` of the error evaluator of the power syndromes is the
/// weighted sum of the cofactors' coefficients.
proof fn lemma_omega_coef(xs: Seq<u8>, es: Seq<u8>, w: int, wp: int, i: int)
    requires
        1 <= w <= 5,
        w <= xs.len(),
        w <= es.len(),
        0 <= wp <= w,
        0 <= i < 10,
    ensures
        rec_sum(power_syndromes(xs, es, wp), locator_poly(xs, w), i, if i < w { i + 1 } else { w + 1 })
            == omega_sum(xs, es, w, wp, i),
    decreases wp,
{
    let lam = locator_poly(xs, w);
    let n = if i < w { i + 1 } else { w + 1 };
    if wp == 0 {
        lemma_gsum_zero_rec(power_syndromes(xs, es, 0), lam, i, n);
    } else {
        lemma_omega_coef(xs, es, w, wp - 1, i);
        let x = xs[wp - 1];
        let e = es[wp - 1];
        assert forall|q: int| 0 <= q < n implies #[trigger] power_syndromes(xs, es, wp)[i - q]
            == power_syndromes(xs, es, wp - 1)[i - q] ^ gf_mul_spec(e, geo(x)[i - q]) by {
        }
        lemma_rec_sum_combine(power_syndromes(xs, es, wp), power_syndromes(xs, es, wp - 1), geo(x), e, lam, i, n);
        if i >= w {
            lemma_locator_annihilates(xs, w, wp - 1, i);
        }
    }
}

/// The error evaluator's value is the weighted sum of the cofactors' values.
proof fn lemma_omega_value(xs: Seq<u8>, es: Seq<u8>, w: int, wp: int, y: u8)
    requires
        1 <= w <= 5,
        w <= xs.len(),
        w <= es.len(),
        0 <= wp <= w,
    ensures
        poly_eval_spec(Seq::new(10, |i: int| omega_sum(xs, es, w, wp, i)), y) == value_sum(xs, es, w, wp, y),
    decreases wp,
{
    let r = Seq::new(10, |i: int| omega_sum(xs, es, w, wp, i));
    if wp == 0 {
        lemma_eval_pad(Seq::<u8>::empty(), r, y);
    } else {
        lemma_omega_value(xs, es, w, wp - 1, y);
        let e = es[wp - 1];
        let t = cofactor(xs, w, wp - 1);
        lemma_cofactor(xs, w, wp - 1);
        let a = Seq::new(10, |i: int| omega_sum(xs, es, w, wp - 1, i));
        let pad = Seq::new(10, |i: int| if i < w { t[i] } else { 0u8 });
        let b = Seq::new(10, |i: int| gf_mul_spec(e, pad[i]));
        lemma_eval_xor_poly(a, b, r, y);
        lemma_eval_scale_poly(e, pad, b, y);
        lemma_eval_pad(t, pad, y);
    }
}

/// At a root `y` of the factor of point `k`, only the cofactor of `k`
/// contributes to the weighted value sum.
proof fn lemma_value_sum_single(xs: Seq<u8>, es: Seq<u8>, w: int, wp: int, k: int, y: u8)
    requires
        0 <= wp <= w,
        forall|m: int| 0 <= m < wp && m != k ==> #[trigger] poly_eval_spec(cofactor(xs, w, m), y) == 0,
    ensures
        value_sum(xs, es, w, wp, y) == if 0 <= k < wp {
            gf_mul_spec(es[k], poly_eval_spec(cofactor(xs, w, k), y))
        } else {
            0u8
        },
    decreases wp,
{
    if wp > 0 {
        lemma_value_sum_single(xs, es, w, wp - 1, k, y);
        if wp - 1 != k {
            assert(poly_eval_spec(cofactor(xs, w, wp - 1), y) == 0);
            lemma_gf_mul_zero(es[wp - 1]);
            lemma_xor_basics(value_sum(xs, es, w, wp - 1, y));
        } else {
            lemma_xor_basics(gf_mul_spec(es[k], poly_eval_spec(cofactor(xs, w, k), y)));
            lemma_xor_commutes(0u8, gf_mul_spec(es[k], poly_eval_spec(cofactor(xs, w, k), y)));
        }
    } else {
    }
}

/// Two points with a common reciprocal are equal.
proof fn lemma_same_reciprocal(a: u8, b: u8, y: u8)
    requires
        gf_mul_spec(a, y) == 1,
        gf_mul_spec(b, y) == 1,
    ensures
        a == b,
{
    lemma_gf_mul_zero(a);
    assert(y != 0);
    lemma_mul_then_inv(y, a);
    lemma_mul_then_inv(y, b);
    lemma_gf_mul_commutative(a, y);
    lemma_gf_mul_commutative(b, y);
}

/// At a root `y` of the factor of point `k`, the other cofactors vanish
/// and the cofactor of `k` does not.
proof fn lemma_cofactor_values(xs: Seq<u8>, w: int, k: int, y: u8)
    requires
        1 <= w <= 5,
        w <= xs.len(),
        0 <= k < w,
        forall|a: int, b: int| 0 <= a < b < w ==> #[trigger] xs[a] != #[trigger] xs[b],
        forall|m: int| 0 <= m < w ==> #[trigger] xs[m] != 0,
        gf_mul_spec(xs[k], y) == 1,
    ensures
        forall|m: int| 0 <= m < w && m != k ==> #[trigger] poly_eval_spec(cofactor(xs, w, m), y) == 0,
        poly_eval_spec(cofactor(xs, w, k), y) != 0,
{
    let lam = locator_poly(xs, w);
    // A factor other than that of `m` does not vanish at the reciprocal of `xs[m]`.
    assert forall|m: int, yy: u8| 0 <= m < w && gf_mul_spec(xs[m], yy) == 1 implies (forall|j: int|
        0 <= j < w && j != m ==> #[trigger] poly_eval_spec(cofactor(xs, w, j), yy) == 0) by {
        lemma_locator_eval_zero(xs, w, yy);
        assert forall|j: int| 0 <= j < w && j != m implies #[trigger] poly_eval_spec(cofactor(xs, w, j), yy) == 0 by {
            lemma_cofactor(xs, w, j);
            lemma_eval_mul_lin(cofactor(xs, w, j), xs[j], yy);
            let f = 1u8 ^ gf_mul_spec(xs[j], yy);
            if gf_mul_spec(xs[j], yy) == 1 {
                lemma_same_reciprocal(xs[j], xs[m], yy);
                if j < m {
                    assert(xs[j] != xs[m]);
                } else {
                    assert(xs[m] != xs[j]);
                }
            }
            lemma_xor_cancel(1u8, gf_mul_spec(xs[j], yy));
            lemma_xor_commutes(1u8, gf_mul_spec(xs[j], yy));
            lemma_xor_cancel(gf_mul_spec(xs[j], yy), 1u8);
            assert(f != 0);
            let v = poly_eval_spec(cofactor(xs, w, j), yy);
            if v != 0 {
                lemma_mul_nonzero(f, v);
            }
        }
    }
    let t = cofactor(xs, w, k);
    lemma_cofactor(xs, w, k);
    if poly_eval_spec(t, y) == 0 {
        assert forall|m: int| 0 <= m < w implies #[trigger] rec_sum(geo(xs[m]), t, w - 1, w) == 0 by {
            let ym = if m == k { y } else { gf_inv_spec(xs[m]) };
            lemma_gf_inv_is_inverse(xs[m]);
            assert(gf_mul_spec(xs[m], ym) == 1);
            assert(poly_eval_spec(t, ym) == 0);
            lemma_eval_as_rec_sum(t, xs[m], ym, w - 1);
            lemma_gf_mul_zero(gf_pow_spec(xs[m], (w - 1) as nat));
        }
        lemma_annihilator_zero(t, w - 1, xs, w);
        lemma_locator_poly_shape(xs, w);
        assert(lam[0] == t[0] ^ 0u8);
        lemma_xor_basics(0u8);
        assert(false);
    }
}

/// Forney's formula at an error byte: for errors `es` at `w <= 5` distinct
/// nonzero locators, at the reciprocal `y` of locator `k` the derivative
/// of the locator does not vanish and the Forney value is `es[k]`.
pub proof fn lemma_forney_recovers_error(xs: Seq<u8>, es: Seq<u8>, w: int, k: int, y: u8)
    requires
        1 <= w <= 5,
        w <= xs.len(),
        w <= es.len(),
        0 <= k < w,
        forall|a: int, b: int| 0 <= a < b < w ==> #[trigger] xs[a] != #[trigger] xs[b],
        forall|m: int| 0 <= m < w ==> #[trigger] xs[m] != 0,
        gf_mul_spec(xs[k], y) == 1,
    ensures
        poly_eval_spec(formal_deriv_spec(locator_poly(xs, w)), y) != 0,
        gf_mul_spec(
            gf_mul_spec(xs[k], poly_eval_spec(omega_spec(power_syndromes(xs, es, w), locator_poly(xs, w)), y)),
            gf_inv_spec(poly_eval_spec(formal_deriv_spec(locator_poly(xs, w)), y)),
        ) == es[k],
{
    let lam = locator_poly(xs, w);
    let synd = power_syndromes(xs, es, w);
    let x = xs[k];
    let t = cofactor(xs, w, k);
    lemma_cofactor(xs, w, k);
    lemma_locator_poly_shape(xs, w);
    lemma_cofactor_values(xs, w, k, y);
    let tv = poly_eval_spec(t, y);
    // The derivative.
    lemma_deriv_at_root(t, x, y, lam);
    let d = poly_eval_spec(formal_deriv_spec(lam), y);
    lemma_gf_mul_zero(y);
    assert(d != 0);
    lemma_gf_mul_associative(x, d, y);
    lemma_gf_mul_commutative(x, d);
    lemma_gf_mul_associative(d, x, y);
    lemma_gf_mul_one(d);
    assert(d == gf_mul_spec(x, tv));
    // The evaluator.
    let om = omega_spec(synd, lam);
    let r = Seq::new(10, |i: int| omega_sum(xs, es, w, w, i));
    assert forall|i: int| 0 <= i < 10 implies #[trigger] om[i] == r[i] by {
        let n = if lam.len() < i + 1 { lam.len() as int } else { i + 1 };
        lemma_omega_acc_rec(synd, lam, i, n);
        lemma_omega_coef(xs, es, w, w, i);
    }
    assert(om =~= r);
    lemma_omega_value(xs, es, w, w, y);
    lemma_value_sum_single(xs, es, w, w, k, y);
    let e = es[k];
    assert(poly_eval_spec(om, y) == gf_mul_spec(e, tv));
    // Forney: x * (e * tv) / (x * tv) = e.
    lemma_gf_mul_associative(x, e, tv);
    lemma_gf_mul_commutative(x, e);
    lemma_gf_mul_associative(e, x, tv);
    lemma_gf_mul_commutative(e, d);
    lemma_mul_then_inv(d, e);
}

/// Adding errors at distinct bytes changes exactly those bytes, each by
/// its own error value.
proof fn lemma_with_errors_bytes(c: Seq<u8>, ps: Seq<int>, es: Seq<u8>, w: int)
    requires
        c.len() == 120,
        0 <= w <= ps.len(),
        w <= es.len(),
        forall|k: int| 0 <= k < w ==> 0 <= #[trigger] ps[k] < 120,
        forall|a: int, b: int| 0 <= a < b < w ==> #[trigger] ps[a] != #[trigger] ps[b],
    ensures
        with_errors(c, ps, es, w).len() == 120,
        forall|k: int| 0 <= k < w ==> #[trigger] with_errors(c, ps, es, w)[ps[k]] == c[ps[k]] ^ es[k],
        forall|i: int| 0 <= i < 120 && (forall|k: int| 0 <= k < w ==> #[trigger] ps[k] != i) ==> with_errors(
            c,
            ps,
            es,
            w,
        )[i] == c[i],
    decreases w,
{
    if w > 0 {
        lemma_with_errors_bytes(c, ps, es, w - 1);
        let v = with_errors(c, ps, es, w - 1);
        let p = ps[w - 1];
        assert forall|k: int| 0 <= k < w implies #[trigger] with_errors(c, ps, es, w)[ps[k]] == c[ps[k]] ^ es[k] by {
            if k < w - 1 {
                assert(ps[k] != p);
            } else {
                assert(forall|j: int| 0 <= j < w - 1 ==> #[trigger] ps[j] != p);
                assert(v[p] == c[p]);
            }
        }
    }
}

/// Reed-Solomon corrects up to five corrupted bytes: an encoded codeword
/// with nonzero error values added into `w <= 5` distinct bytes decodes
/// with `w` errors corrected and gives the codeword back (with `w = 0`, the
/// clean codeword decodes as itself).
pub proof fn lemma_up_to_five_errors_corrected(msg: Seq<u8>, ps: Seq<int>, es: Seq<u8>, w: int)
    requires
        msg.len() == 110,
        0 <= w <= 5,
        w <= ps.len(),
        w <= es.len(),
        forall|k: int| 0 <= k < w ==> 0 <= #[trigger] ps[k] < 120,
        forall|a: int, b: int| 0 <= a < b < w ==> #[trigger] ps[a] != #[trigger] ps[b],
        forall|k: int| 0 <= k < w ==> #[trigger] es[k] != 0,
    ensures
        forall|r: Result<usize, &'static str>, out: Seq<u8>|
            rs_decode_outcome(with_errors(msg + rs_parity(msg, generator_poly(10)), ps, es, w), r, out)
                ==> r == Ok::<usize, &'static str>(w as usize) && out == msg + rs_parity(msg, generator_poly(10)),
{
    let c = msg + rs_parity(msg, generator_poly(10));
    lemma_encoded_codeword_decodes_clean(msg);
    if w == 0 {
        assert(with_errors(c, ps, es, 0) == c);
    } else {
        lemma_error_syndromes(c, ps, es, w);
        lemma_with_errors_bytes(c, ps, es, w);
        let cw = with_errors(c, ps, es, w);
        let xs = locators(ps);
        let synd = syndromes_spec(cw, 10);
        assert(synd =~= power_syndromes(xs, es, w));
        lemma_alpha_order();
        assert forall|a: int, b: int| 0 <= a < b < w implies #[trigger] xs[a] != #[trigger] xs[b] by {
            if ps[a] < ps[b] {
                lemma_locators_distinct(ps[a], ps[b]);
            } else {
                lemma_locators_distinct(ps[b], ps[a]);
            }
        }
        assert forall|m: int| 0 <= m < w implies #[trigger] xs[m] != 0 by {
            assert(gf_pow_spec(2, (119 - ps[m]) as nat) != 0);
        }
        // The syndromes are not all zero.
        assert(!all_zero(synd)) by {
            if all_zero(synd) {
                assert forall|t: nat| t < w implies #[trigger] power_sum(xs, es, t, w) == 0 by {
                    assert(synd[t as int] == 0);
                }
                lemma_power_sums_vanish(xs, es, w);
                assert(es[0] == 0);
            }
        }
        lemma_bm_finds_locator(xs, es, w);
        let lam = locator_poly(xs, w);
        assert(bm_result(synd).0 == lam);
        assert(bm_result(synd).1 == w);
        lemma_chien_finds_errors(ps, w);
        let roots = chien_roots(lam, 120, 120);
        assert(roots.len() == w);
        // At each error byte, Forney's formula gives back the error value.
        assert forall|k: int| 0 <= k < w implies forney_denominator(lam, 120, #[trigger] ps[k]) != 0
            && forney_value(synd, lam, 120, ps[k]) == es[k] by {
            let idx = ps[k];
            let y = chien_point(120, idx);
            lemma_chien_point_root(119 - idx, idx);
            assert(xs[k] == gf_pow_spec(2, (119 - idx) as nat));
            assert(gf_mul_spec(xs[k], y) == 1);
            lemma_forney_recovers_error(xs, es, w, k, y);
            assert((119 - idx) % 255 == 119 - idx);
            assert(alpha_pow((119 - idx) % 255) == xs[k]);
        }
        assert(!singular_before(lam, roots, 120, roots.len() as int)) by {
            if singular_before(lam, roots, 120, roots.len() as int) {
                let q = choose|q: int| 0 <= q < roots.len() && #[trigger] forney_denominator(lam, 120, roots[q] as int) == 0;
                let k = choose|k: int| 0 <= k < w && #[trigger] ps[k] == roots[q] as int;
                assert(forney_denominator(lam, 120, ps[k]) != 0);
            }
        }
        assert(corrected(cw, synd, lam, roots, roots.len() as int) =~= c) by {
            assert(roots.subrange(0, roots.len() as int) =~= roots);
            assert forall|i: int| 0 <= i < 120 implies #[trigger] corrected(cw, synd, lam, roots, roots.len() as int)[i] == c[i] by {
                if roots.contains(i as usize) {
                    let k = choose|k: int| 0 <= k < w && ps[k] == (i as usize) as int;
                    assert(ps[k] == i);
                    assert(cw[i] == c[i] ^ es[k]);
                    lemma_xor_cancel(c[i], es[k]);
                } else {
                    assert forall|k: int| 0 <= k < w implies #[trigger] ps[k] != i by {
                        if ps[k] == i {
                            assert(roots.contains(i as usize));
                        }
                    }
                }
            }
        }
    }
}

/// A locator with constant coefficient one, `l + 1` coefficients and
/// `l` roots `ys[r]` whose reciprocals `xs[r]` are distinct has simple
/// roots: its formal derivative vanishes at none of them.
pub proof fn lemma_simple_roots(sigma: Seq<u8>, l: int, xs: Seq<u8>, ys: Seq<u8>, q: int)
    requires
        1 <= l < 10,
        sigma.len() == l + 1,
        sigma[0] == 1,
        xs.len() == l,
        ys.len() == l,
        forall|a: int, b: int| 0 <= a < b < l ==> #[trigger] xs[a] != #[trigger] xs[b],
        forall|r: int| 0 <= r < l ==> #[trigger] gf_mul_spec(xs[r], ys[r]) == 1,
        forall|r: int| 0 <= r < l ==> #[trigger] poly_eval_spec(sigma, ys[r]) == 0,
        0 <= q < l,
    ensures
        poly_eval_spec(formal_deriv_spec(sigma), ys[q]) != 0,
{
    let x = xs[q];
    let y = ys[q];
    // sigma annihilates the powers of every point.
    assert forall|r: int| 0 <= r < l implies #[trigger] rec_sum(geo(xs[r]), sigma, l, l + 1) == 0 by {
        lemma_eval_as_rec_sum(sigma, xs[r], ys[r], l);
        lemma_gf_mul_zero(gf_pow_spec(xs[r], l as nat));
    }
    let t = quot(sigma, x, l);
    lemma_quot(sigma, x, l);
    assert(sigma =~= mul_lin(t, x));
    // The quotient vanishes at the other roots.
    assert forall|r: int| 0 <= r < l && r != q implies #[trigger] poly_eval_spec(t, ys[r]) == 0 by {
        let yr = ys[r];
        lemma_eval_mul_lin(t, x, yr);
        if gf_mul_spec(x, yr) == 1 {
            lemma_same_reciprocal(x, xs[r], yr);
            if q < r {
                assert(xs[q] != xs[r]);
            } else {
                assert(xs[r] != xs[q]);
            }
        }
        lemma_xor_cancel(1u8, gf_mul_spec(x, yr));
        lemma_xor_commutes(1u8, gf_mul_spec(x, yr));
        lemma_xor_cancel(gf_mul_spec(x, yr), 1u8);
        let v = poly_eval_spec(t, yr);
        if v != 0 {
            lemma_mul_nonzero(1u8 ^ gf_mul_spec(x, yr), v);
        }
    }
    // ... and not at this one: else it would vanish at `l` points.
    if poly_eval_spec(t, y) == 0 {
        assert forall|r: int| 0 <= r < l implies #[trigger] rec_sum(geo(xs[r]), t, l - 1, l) == 0 by {
            assert(poly_eval_spec(t, ys[r]) == 0);
            lemma_eval_as_rec_sum(t, xs[r], ys[r], l - 1);
            lemma_gf_mul_zero(gf_pow_spec(xs[r], (l - 1) as nat));
        }
        lemma_annihilator_zero(t, l - 1, xs, l);
        lemma_xor_basics(0u8);
        assert(sigma[0] == t[0] ^ 0u8);
        assert(false);
    }
    lemma_deriv_at_root(t, x, y, sigma);
    lemma_gf_mul_zero(y);
}

/// The Berlekamp-Massey locator keeps all its coefficients and a constant
/// coefficient of one, and its shift `m` stays positive.
proof fn lemma_bm_shape(s: Seq<u8>, r: int)
    requires
        s.len() == 10,
        0 <= r <= 10,
    ensures
        bm_run(s, r).0.len() == 11,
        bm_run(s, r).0[0] == 1,
        bm_run(s, r).1.len() == 11,
        bm_run(s, r).3 >= 1,
    decreases r,
{
    if r > 0 {
        lemma_bm_shape(s, r - 1);
    }
}

/// Whenever the Chien search finds as many roots as the locator's degree
/// bound, the Forney denominator vanishes at none of them: the decoder
/// never stops on a singular denominator.
pub proof fn lemma_forney_denominators_nonzero(synd: Seq<u8>)
    requires
        synd.len() == 10,
        0 <= bm_result(synd).1 <= 5,
        chien_roots(bm_result(synd).0, 120, 120).len() == bm_result(synd).1,
    ensures
        !singular_before(
            bm_result(synd).0,
            chien_roots(bm_result(synd).0, 120, 120),
            120,
            bm_result(synd).1,
        ),
{
    let l = bm_result(synd).1;
    let sigma = bm_result(synd).0;
    let roots = chien_roots(sigma, 120, 120);
    if singular_before(sigma, roots, 120, l) {
        let q = choose|q: int| 0 <= q < l && #[trigger] forney_denominator(sigma, 120, roots[q] as int) == 0;
        lemma_bm_shape(synd, 10);
        lemma_chien_roots_increasing(sigma, 120, 120);
        lemma_chien_members(sigma, 120);
        let xs = Seq::new(l as nat, |r: int| byte_locator(roots[r] as int));
        let ys = Seq::new(l as nat, |r: int| chien_point(120, roots[r] as int));
        assert forall|a: int, b: int| 0 <= a < b < l implies #[trigger] xs[a] != #[trigger] xs[b] by {
            lemma_locators_distinct(roots[a] as int, roots[b] as int);
        }
        assert forall|r: int| 0 <= r < l implies #[trigger] gf_mul_spec(xs[r], ys[r]) == 1 by {
            lemma_chien_point_root(119 - roots[r] as int, roots[r] as int);
        }
        assert forall|r: int| 0 <= r < l implies #[trigger] poly_eval_spec(sigma, ys[r]) == 0 by {
            assert(roots.contains(roots[r]));
        }
        lemma_simple_roots(sigma, l, xs, ys, q);
    }
}

/// A failed decode leaves the word as it was.
pub proof fn lemma_decode_error_leaves_word(cw: Seq<u8>, r: Result<usize, &'static str>, out: Seq<u8>)
    requires
        rs_decode_outcome(cw, r, out),
        r is Err,
    ensures
        out == cw,
{
    if cw.len() == 120 {
        let synd = syndromes_spec(cw, 10);
        if !all_zero(synd) && bm_result(synd).1 <= 5 && chien_roots(bm_result(synd).0, 120, 120).len()
            == bm_result(synd).1 {
            lemma_bm_length_grows(synd, 10);
            lemma_forney_denominators_nonzero(synd);
        }
    }
}

} // verus!
