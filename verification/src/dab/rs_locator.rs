//! Berlekamp-Massey on short linear recurrences: finite sums in GF(2^8),
//! the recurrence sums the decoder's discrepancy computes, and Massey's
//! bound on how short a recurrence that the syndromes obey can be.

use vstd::prelude::*;

use crate::dab::gf::{
    gf_inv_spec, gf_mul_spec, gf_pow_spec, poly_eval_spec, lemma_gf_inv_is_inverse, lemma_mul_nonzero, lemma_gf_mul_associative, lemma_gf_mul_commutative,
    lemma_gf_mul_distributive, lemma_gf_mul_one, lemma_gf_mul_zero, lemma_xor_basics, lemma_xor_cancel,
    lemma_xor_commutes, lemma_xor_regroup,
};
use crate::dab::rs::{bm_init, bm_run, bm_step, bm_update, discrepancy, formal_deriv_spec, BmState};

verus! {

/// `f(0) + f(1) + ... + f(n - 1)` in GF(2^8).
pub open spec fn gsum(f: spec_fn(int) -> u8, n: int) -> u8
    decreases n,
{
    if n <= 0 {
        0
    } else {
        gsum(f, n - 1) ^ f(n - 1)
    }
}

/// The recurrence sum `sum_{q < n} c[q] * s[j - q]`: with `n = L + 1` and
/// `c[0] = 1` it is zero exactly when the recurrence of length `L` with
/// coefficients `c` produces `s[j]` from the `L` values before it.
pub open spec fn rec_sum(s: Seq<u8>, c: Seq<u8>, j: int, n: int) -> u8 {
    gsum(rec_term(s, c, j), n)
}

/// The terms `q -> c[q] * s[j - q]` of a recurrence sum.
pub open spec fn rec_term(s: Seq<u8>, c: Seq<u8>, j: int) -> spec_fn(int) -> u8 {
    |q: int| gf_mul_spec(c[q], s[j - q])
}

/// Sums of equal terms are equal.
pub proof fn lemma_gsum_ext(f: spec_fn(int) -> u8, g: spec_fn(int) -> u8, n: int)
    requires
        forall|i: int| 0 <= i < n ==> #[trigger] f(i) == g(i),
    ensures
        gsum(f, n) == gsum(g, n),
    decreases n,
{
    if n > 0 {
        lemma_gsum_ext(f, g, n - 1);
    }
}

/// A sum of zeros is zero.
pub proof fn lemma_gsum_zero(f: spec_fn(int) -> u8, n: int)
    requires
        forall|i: int| 0 <= i < n ==> #[trigger] f(i) == 0,
    ensures
        gsum(f, n) == 0,
    decreases n,
{
    if n > 0 {
        lemma_gsum_zero(f, n - 1);
        lemma_xor_basics(0u8);
    }
}

/// A sum whose terms after the first vanish is its first term.
pub proof fn lemma_gsum_first(f: spec_fn(int) -> u8, n: int)
    requires
        n >= 1,
        forall|i: int| 1 <= i < n ==> #[trigger] f(i) == 0,
    ensures
        gsum(f, n) == f(0),
    decreases n,
{
    assert(gsum(f, 0) == 0);
    if n == 1 {
        lemma_xor_basics(f(0));
    } else {
        lemma_gsum_first(f, n - 1);
        assert(f(n - 1) == 0);
        lemma_xor_basics(f(0));
    }
}

/// The sum of termwise XORs is the XOR of the sums.
pub proof fn lemma_gsum_xor(f: spec_fn(int) -> u8, g: spec_fn(int) -> u8, n: int)
    ensures
        gsum(|i: int| f(i) ^ g(i), n) == gsum(f, n) ^ gsum(g, n),
    decreases n,
{
    if n <= 0 {
        lemma_xor_basics(0u8);
    } else {
        lemma_gsum_xor(f, g, n - 1);
        lemma_xor_regroup(gsum(f, n - 1), gsum(g, n - 1), f(n - 1), g(n - 1));
    }
}

/// A factor comes out of a sum.
pub proof fn lemma_gsum_scale(c: u8, f: spec_fn(int) -> u8, n: int)
    ensures
        gf_mul_spec(c, gsum(f, n)) == gsum(|i: int| gf_mul_spec(c, f(i)), n),
    decreases n,
{
    if n <= 0 {
        lemma_gf_mul_zero(c);
    } else {
        lemma_gsum_scale(c, f, n - 1);
        lemma_gf_mul_distributive(gsum(f, n - 1), f(n - 1), c);
    }
}

/// A double sum can be taken in either order.
pub proof fn lemma_gsum_swap(f: spec_fn(int, int) -> u8, a: int, b: int)
    ensures
        gsum(|q: int| gsum(|p: int| f(q, p), b), a) == gsum(|p: int| gsum(|q: int| f(q, p), a), b),
    decreases a,
{
    if a <= 0 {
        lemma_gsum_zero(|p: int| gsum(|q: int| f(q, p), a), b);
    } else {
        lemma_gsum_swap(f, a - 1, b);
        let g = |p: int| gsum(|q: int| f(q, p), a - 1);
        let h = |p: int| f(a - 1, p);
        lemma_gsum_xor(g, h, b);
        lemma_gsum_ext(|p: int| gsum(|q: int| f(q, p), a), |p: int| g(p) ^ h(p), b);
    }
}

/// Massey's bound: if the recurrence `c` of length `l` produces the
/// sequence from index `l` up to `r - 1`, and a recurrence `lam` of length
/// `w` produces it from index `w` up to `r`, with `l + w <= r`, then `c`
/// produces index `r` too. So when `c` fails at `r`, every recurrence
/// that produces the sequence up to `r` has length at least `r + 1 - l`.
pub proof fn lemma_massey_bound(s: Seq<u8>, c: Seq<u8>, l: int, lam: Seq<u8>, w: int, r: int)
    requires
        0 <= l,
        0 <= w,
        l + w <= r,
        lam[0] == 1,
        forall|j: int| l <= j < r ==> #[trigger] rec_sum(s, c, j, l + 1) == 0,
        forall|j: int| w <= j <= r ==> #[trigger] rec_sum(s, lam, j, w + 1) == 0,
    ensures
        rec_sum(s, c, r, l + 1) == 0,
{
    let f = |q: int, p: int| gf_mul_spec(c[q], gf_mul_spec(lam[p], s[r - q - p]));
    lemma_gsum_swap(f, l + 1, w + 1);
    let inner = |q: int| gsum(|p: int| f(q, p), w + 1);
    let outer = |p: int| gsum(|q: int| f(q, p), l + 1);
    // Summing over p first: each inner sum is c[q] times a recurrence sum of lam.
    assert forall|q: int| 0 <= q < l + 1 implies #[trigger] inner(q) == 0 by {
        let t = rec_term(s, lam, r - q);
        lemma_gsum_scale(c[q], t, w + 1);
        let g = |p: int| gf_mul_spec(c[q], t(p));
        let fq = |p: int| f(q, p);
        assert forall|p: int| 0 <= p < w + 1 implies #[trigger] fq(p) == g(p) by {
            assert(r - q - p == (r - q) - p);
        }
        lemma_gsum_ext(fq, g, w + 1);
        assert(rec_sum(s, lam, r - q, w + 1) == 0);
        lemma_gf_mul_zero(c[q]);
    }
    lemma_gsum_zero(inner, l + 1);
    // Summing over q first: each inner sum is lam[p] times a recurrence sum of c.
    assert forall|p: int| 0 <= p < w + 1 implies #[trigger] outer(p) == gf_mul_spec(
        lam[p],
        rec_sum(s, c, r - p, l + 1),
    ) by {
        let t = rec_term(s, c, r - p);
        lemma_gsum_scale(lam[p], t, l + 1);
        let g = |q: int| gf_mul_spec(lam[p], t(q));
        let fp = |q: int| f(q, p);
        assert forall|q: int| 0 <= q < l + 1 implies #[trigger] fp(q) == g(q) by {
            lemma_gf_mul_associative(c[q], lam[p], s[r - q - p]);
            lemma_gf_mul_commutative(c[q], lam[p]);
            lemma_gf_mul_associative(lam[p], c[q], s[r - q - p]);
            assert(r - q - p == (r - p) - q);
        }
        lemma_gsum_ext(fp, g, l + 1);
    }
    assert forall|p: int| 1 <= p < w + 1 implies #[trigger] outer(p) == 0 by {
        assert(rec_sum(s, c, r - p, l + 1) == 0);
        lemma_gf_mul_zero(lam[p]);
    }
    lemma_gsum_first(outer, w + 1);
    lemma_gf_mul_one(rec_sum(s, c, r, l + 1));
}

/// With a leading coefficient of one, the decoder's discrepancy at `r`
/// over the first `j` coefficients is the recurrence sum of length `j`.
pub proof fn lemma_discrepancy_is_rec_sum(s: Seq<u8>, c: Seq<u8>, r: int, j: int)
    requires
        c[0] == 1,
        0 <= j,
    ensures
        discrepancy(s, c, r, j) == rec_sum(s, c, r, j + 1),
    decreases j,
{
    let t = rec_term(s, c, r);
    if j == 0 {
        assert(gsum(t, 0) == 0);
        lemma_gf_mul_one(s[r]);
        lemma_xor_basics(s[r]);
    } else {
        lemma_discrepancy_is_rec_sum(s, c, r, j - 1);
    }
}

/// Zero coefficients past `n` add nothing to a recurrence sum.
pub proof fn lemma_rec_sum_tail(s: Seq<u8>, c: Seq<u8>, j: int, n: int, n2: int)
    requires
        0 <= n <= n2,
        forall|q: int| n <= q < n2 ==> #[trigger] c[q] == 0,
    ensures
        rec_sum(s, c, j, n2) == rec_sum(s, c, j, n),
    decreases n2 - n,
{
    if n2 > n {
        lemma_rec_sum_tail(s, c, j, n, n2 - 1);
        assert(c[n2 - 1] == 0);
        lemma_gf_mul_zero(s[j - (n2 - 1)]);
        lemma_xor_basics(rec_sum(s, c, j, n2 - 1));
    }
}

/// The Berlekamp-Massey update `c + sc * x^m * b` adds `sc` times the
/// recurrence sum of `b`, `m` places back, to the recurrence sum of `c`.
pub proof fn lemma_rec_sum_update(s: Seq<u8>, c: Seq<u8>, b: Seq<u8>, sc: u8, m: int, j: int, n: int)
    requires
        0 <= m <= n <= c.len(),
    ensures
        rec_sum(s, bm_update(c, b, sc, m), j, n) == rec_sum(s, c, j, n) ^ gf_mul_spec(
            sc,
            rec_sum(s, b, j - m, n - m),
        ),
    decreases n,
{
    let u = bm_update(c, b, sc, m);
    if n == m {
        lemma_gsum_ext(rec_term(s, u, j), rec_term(s, c, j), n);
        assert(gsum(rec_term(s, b, j - m), 0) == 0);
        lemma_gf_mul_zero(sc);
        lemma_xor_basics(rec_sum(s, c, j, n));
    } else {
        lemma_rec_sum_update(s, c, b, sc, m, j, n - 1);
        let q = n - 1;
        let x = s[j - q];
        assert(u[q] == c[q] ^ gf_mul_spec(sc, b[q - m]));
        lemma_gf_mul_distributive(c[q], gf_mul_spec(sc, b[q - m]), x);
        lemma_gf_mul_associative(sc, b[q - m], x);
        assert((j - m) - (q - m) == j - q);
        assert(rec_sum(s, b, j - m, n - m) == rec_sum(s, b, j - m, n - m - 1) ^ gf_mul_spec(b[q - m], x));
        lemma_gf_mul_distributive(rec_sum(s, b, j - m, n - m - 1), gf_mul_spec(b[q - m], x), sc);
        lemma_xor_regroup(
            rec_sum(s, c, j, q),
            gf_mul_spec(sc, rec_sum(s, b, j - m, n - m - 1)),
            gf_mul_spec(c[q], x),
            gf_mul_spec(sc, gf_mul_spec(b[q - m], x)),
        );
    }
}

/// What Berlekamp-Massey keeps after reading `r` syndromes, for syndromes
/// that some recurrence of length `w` produces: the locator `c` has
/// `c[0] = 1`, at most `l + 1` coefficients and produces the syndromes from
/// index `l` on; `l` is at most `w`; and the previous locator `b` failed at
/// index `r - m` with discrepancy `d`, having produced the syndromes before.
pub open spec fn bm_inv(s: Seq<u8>, st: BmState, r: int, w: int) -> bool {
    let (c, b, l, m, d) = st;
    &&& c.len() == 11
    &&& b.len() == 11
    &&& c[0] == 1
    &&& b[0] == 1
    &&& 0 <= l <= w
    &&& l <= r
    &&& forall|i: int| l < i < 11 ==> #[trigger] c[i] == 0
    &&& forall|j: int| l <= j < r ==> #[trigger] rec_sum(s, c, j, l + 1) == 0
    &&& 1 <= m
    &&& if l == 0 {
        &&& m == r + 1
        &&& forall|i: int| 0 < i < 11 ==> #[trigger] b[i] == 0
    } else {
        let t = r - m;
        let lb = t + 1 - l;
        &&& 0 <= t < r
        &&& 0 <= lb
        &&& forall|i: int| lb < i < 11 ==> #[trigger] b[i] == 0
        &&& forall|j: int| lb <= j < t ==> #[trigger] rec_sum(s, b, j, lb + 1) == 0
        &&& rec_sum(s, b, t, lb + 1) == d
        &&& d != 0
    }
}

/// One Berlekamp-Massey step keeps the invariant, when a recurrence `lam`
/// of length `w <= 5` produces all the syndromes.
#[verifier::rlimit(40)]
pub proof fn lemma_bm_step_inv(s: Seq<u8>, st: BmState, r: int, w: int, lam: Seq<u8>)
    requires
        s.len() == 10,
        0 <= r < 10,
        0 <= w <= 5,
        lam[0] == 1,
        forall|j: int| w <= j < 10 ==> #[trigger] rec_sum(s, lam, j, w + 1) == 0,
        bm_inv(s, st, r, w),
    ensures
        bm_inv(s, bm_step(s, st, r), r + 1, w),
{
    let (c, b, l, m, d) = st;
    lemma_discrepancy_is_rec_sum(s, c, r, l);
    let delta = discrepancy(s, c, r, l);
    let sc = gf_mul_spec(delta, gf_inv_spec(d));
    let u = bm_update(c, b, sc, m);
    if delta == 0 {
        assert(bm_step(s, st, r) == (c, b, l, m + 1, d));
    } else if 2 * l <= r {
        let l2 = r + 1 - l;
        assert(bm_step(s, st, r) == (u, c, l2, 1int, delta));
        if l + w <= r {
            lemma_massey_bound(s, c, l, lam, w, r);
            assert(false);
        }
        assert(l2 <= w);
        assert forall|i: int| l2 < i < 11 implies #[trigger] u[i] == 0 by {
            assert(c[i] == 0);
            if m <= i {
                if l == 0 {
                    assert(b[i - m] == 0);
                } else {
                    assert(b[i - m] == 0);
                }
                lemma_gf_mul_zero(sc);
                lemma_xor_basics(0u8);
            }
        }
        if l > 0 {
            let t = r - m;
            let lb = t + 1 - l;
            assert forall|j: int| l2 <= j < r + 1 implies #[trigger] rec_sum(s, u, j, l2 + 1) == 0 by {
                lemma_rec_sum_update(s, c, b, sc, m, j, l2 + 1);
                lemma_rec_sum_tail(s, c, j, l + 1, l2 + 1);
                assert(l2 + 1 - m == lb + 1);
                if j < r {
                    assert(rec_sum(s, c, j, l + 1) == 0);
                    assert(rec_sum(s, b, j - m, lb + 1) == 0);
                    lemma_gf_mul_zero(sc);
                    lemma_xor_basics(0u8);
                } else {
                    lemma_gf_inv_is_inverse(d);
                    lemma_gf_mul_commutative(d, gf_inv_spec(d));
                    lemma_gf_mul_associative(delta, gf_inv_spec(d), d);
                    lemma_gf_mul_one(delta);
                    lemma_xor_cancel(delta, delta);
                    lemma_xor_basics(delta);
                }
            }
        }
    } else {
        assert(bm_step(s, st, r) == (u, b, l, m + 1, d));
        let t = r - m;
        let lb = t + 1 - l;
        assert(l > 0);
        assert forall|i: int| l < i < 11 implies #[trigger] u[i] == 0 by {
            assert(c[i] == 0);
            if m <= i {
                assert(b[i - m] == 0);
                lemma_gf_mul_zero(sc);
                lemma_xor_basics(0u8);
            }
        }
        assert forall|j: int| l <= j < r + 1 implies #[trigger] rec_sum(s, u, j, l + 1) == 0 by {
            lemma_rec_sum_update(s, c, b, sc, m, j, l + 1);
            lemma_rec_sum_tail(s, b, j - m, lb + 1, l + 1 - m);
            if j < r {
                assert(rec_sum(s, c, j, l + 1) == 0);
                assert(rec_sum(s, b, j - m, lb + 1) == 0);
                lemma_gf_mul_zero(sc);
                lemma_xor_basics(0u8);
            } else {
                lemma_gf_inv_is_inverse(d);
                lemma_gf_mul_commutative(d, gf_inv_spec(d));
                lemma_gf_mul_associative(delta, gf_inv_spec(d), d);
                lemma_gf_mul_one(delta);
                lemma_xor_cancel(delta, delta);
                lemma_xor_basics(delta);
            }
        }
    }
}

/// Berlekamp-Massey keeps its invariant over all the syndromes it reads,
/// when a recurrence `lam` of length `w <= 5` produces all of them.
pub proof fn lemma_bm_run_inv(s: Seq<u8>, r: int, w: int, lam: Seq<u8>)
    requires
        s.len() == 10,
        0 <= r <= 10,
        0 <= w <= 5,
        lam[0] == 1,
        forall|j: int| w <= j < 10 ==> #[trigger] rec_sum(s, lam, j, w + 1) == 0,
    ensures
        bm_inv(s, bm_run(s, r), r, w),
    decreases r,
{
    if r == 0 {
        let st = bm_init(10);
        assert(bm_run(s, 0) == st);
    } else {
        lemma_bm_run_inv(s, r - 1, w, lam);
        lemma_bm_step_inv(s, bm_run(s, r - 1), r - 1, w, lam);
    }
}

/// `p(x) * (1 + y x)`: coefficient `i` is `p[i] + y p[i - 1]`, with
/// coefficients past the end of `p` read as zero.
pub open spec fn mul_lin(p: Seq<u8>, y: u8) -> Seq<u8> {
    Seq::new(
        p.len() + 1,
        |i: int|
            (if i < p.len() {
                p[i]
            } else {
                0u8
            }) ^ (if i >= 1 {
                gf_mul_spec(y, p[i - 1])
            } else {
                0u8
            }),
    )
}

/// The locator `prod_{k < n} (1 + xs[k] x)`.
pub open spec fn locator_poly(xs: Seq<u8>, n: int) -> Seq<u8>
    decreases n,
{
    if n <= 0 {
        seq![1u8]
    } else {
        mul_lin(locator_poly(xs, n - 1), xs[n - 1])
    }
}

/// Adding `a` to the constant coefficient adds `a` to the value.
proof fn lemma_eval_add_const(p: Seq<u8>, a: u8, x: u8)
    requires
        p.len() >= 1,
    ensures
        poly_eval_spec(p.update(0, p[0] ^ a), x) == poly_eval_spec(p, x) ^ a,
{
    let q = p.update(0, p[0] ^ a);
    assert(q.drop_first() =~= p.drop_first());
    lemma_xor_regroup(gf_mul_spec(poly_eval_spec(p.drop_first(), x), x), p[0], 0u8, a);
    lemma_xor_basics(gf_mul_spec(poly_eval_spec(p.drop_first(), x), x));
    lemma_xor_basics(a);
    lemma_xor_regroup(gf_mul_spec(poly_eval_spec(p.drop_first(), x), x), 0u8, p[0], a);
}

/// Multiplying by `1 + y x` multiplies the value at `x` by `1 + y x`.
pub proof fn lemma_eval_mul_lin(p: Seq<u8>, y: u8, x: u8)
    ensures
        poly_eval_spec(mul_lin(p, y), x) == gf_mul_spec(1u8 ^ gf_mul_spec(y, x), poly_eval_spec(p, x)),
    decreases p.len(),
{
    let u = mul_lin(p, y);
    let f = 1u8 ^ gf_mul_spec(y, x);
    if p.len() == 0 {
        assert(u.drop_first() =~= Seq::<u8>::empty());
        lemma_xor_basics(0u8);
        assert(u[0] == 0u8);
        assert(poly_eval_spec(u.drop_first(), x) == 0);
        lemma_gf_mul_zero(x);
        lemma_gf_mul_zero(f);
        assert(poly_eval_spec(p, x) == 0);
    } else {
        let p1 = p.drop_first();
        lemma_eval_mul_lin(p1, y, x);
        let v = mul_lin(p1, y);
        assert(v.len() >= 1);
        lemma_xor_basics(p[0]);
        assert(u.drop_first() =~= v.update(0, v[0] ^ gf_mul_spec(y, p[0]))) by {
            assert forall|i: int| 0 <= i < v.len() implies #[trigger] u.drop_first()[i] == v.update(
                0,
                v[0] ^ gf_mul_spec(y, p[0]),
            )[i] by {
                if i == 0 {
                    if p1.len() == 0 {
                        lemma_xor_basics(0u8);
                        lemma_xor_basics(gf_mul_spec(y, p[0]));
                    } else {
                        lemma_xor_basics(p1[0]);
                    }
                }
            }
        }
        lemma_eval_add_const(v, gf_mul_spec(y, p[0]), x);
        let e1 = poly_eval_spec(p1, x);
        let ev = poly_eval_spec(v, x);
        assert(ev == gf_mul_spec(f, e1));
        let pp = p[0];
        let a = gf_mul_spec(e1, x);
        let yy = gf_mul_spec(y, x);
        assert(poly_eval_spec(u, x) == gf_mul_spec(ev ^ gf_mul_spec(y, pp), x) ^ pp);
        lemma_gf_mul_distributive(ev, gf_mul_spec(y, pp), x);
        lemma_gf_mul_associative(f, e1, x);
        assert(gf_mul_spec(ev, x) == gf_mul_spec(f, a));
        lemma_gf_mul_associative(y, pp, x);
        lemma_gf_mul_commutative(pp, x);
        lemma_gf_mul_associative(y, x, pp);
        assert(gf_mul_spec(gf_mul_spec(y, pp), x) == gf_mul_spec(yy, pp));
        assert(poly_eval_spec(u, x) == (gf_mul_spec(f, a) ^ gf_mul_spec(yy, pp)) ^ pp);
        assert(poly_eval_spec(p, x) == a ^ pp);
        lemma_gf_mul_distributive(a, pp, f);
        lemma_gf_mul_distributive(1u8, yy, pp);
        lemma_gf_mul_one(pp);
        assert(gf_mul_spec(f, pp) == pp ^ gf_mul_spec(yy, pp)) by {
            lemma_gf_mul_commutative(f, pp);
            lemma_gf_mul_commutative(pp, yy);
            lemma_gf_mul_distributive(1u8, yy, pp);
        }
        let fa = gf_mul_spec(f, a);
        let yp = gf_mul_spec(yy, pp);
        lemma_xor_regroup(fa, yp, 0u8, pp);
        lemma_xor_basics(fa);
        lemma_xor_basics(pp);
        lemma_xor_commutes(yp, pp);
    }
}

/// The first ten powers of `x`.
pub open spec fn geo(x: u8) -> Seq<u8> {
    Seq::new(10, |j: int| gf_pow_spec(x, j as nat))
}

/// The locator has `n + 1` coefficients and constant coefficient one.
pub proof fn lemma_locator_poly_shape(xs: Seq<u8>, n: int)
    requires
        0 <= n,
    ensures
        locator_poly(xs, n).len() == n + 1,
        locator_poly(xs, n)[0] == 1,
    decreases n,
{
    if n > 0 {
        lemma_locator_poly_shape(xs, n - 1);
        lemma_xor_basics(1u8);
    }
}

/// Multiplying the recurrence by `1 + y x` combines the recurrence sums at
/// `j` and `j - 1`.
proof fn lemma_rec_sum_mul_lin(g: Seq<u8>, p: Seq<u8>, y: u8, j: int, k: int)
    requires
        1 <= k <= p.len(),
    ensures
        rec_sum(g, mul_lin(p, y), j, k) == rec_sum(g, p, j, k) ^ gf_mul_spec(y, rec_sum(g, p, j - 1, k - 1)),
        k == p.len() ==> rec_sum(g, mul_lin(p, y), j, k + 1) == rec_sum(g, p, j, k) ^ gf_mul_spec(
            y,
            rec_sum(g, p, j - 1, k),
        ),
    decreases k,
{
    let u = mul_lin(p, y);
    if k == 1 {
        assert(gsum(rec_term(g, p, j - 1), 0) == 0);
        lemma_gf_mul_zero(y);
        lemma_xor_basics(0u8);
        lemma_xor_basics(p[0]);
        assert(u[0] == p[0]);
        assert(gsum(rec_term(g, u, j), 0) == 0);
        assert(gsum(rec_term(g, p, j), 0) == 0);
        lemma_xor_basics(gf_mul_spec(p[0], g[j]));
    } else {
        lemma_rec_sum_mul_lin(g, p, y, j, k - 1);
        let q = k - 1;
        let gq = g[j - q];
        assert(u[q] == p[q] ^ gf_mul_spec(y, p[q - 1]));
        lemma_gf_mul_distributive(p[q], gf_mul_spec(y, p[q - 1]), gq);
        lemma_gf_mul_associative(y, p[q - 1], gq);
        assert((j - 1) - (q - 1) == j - q);
        lemma_gf_mul_distributive(rec_sum(g, p, j - 1, k - 2), gf_mul_spec(p[q - 1], gq), y);
        lemma_xor_regroup(
            rec_sum(g, p, j, q),
            gf_mul_spec(y, rec_sum(g, p, j - 1, k - 2)),
            gf_mul_spec(p[q], gq),
            gf_mul_spec(y, gf_mul_spec(p[q - 1], gq)),
        );
    }
    assert(rec_sum(g, u, j, k) == rec_sum(g, p, j, k) ^ gf_mul_spec(y, rec_sum(g, p, j - 1, k - 1)));
    if k == p.len() {
        let n = k;
        let gn = g[j - n];
        assert(rec_sum(g, u, j, n + 1) == rec_sum(g, u, j, n) ^ gf_mul_spec(u[n], gn));
        assert(rec_sum(g, p, j - 1, n) == rec_sum(g, p, j - 1, n - 1) ^ gf_mul_spec(p[n - 1], g[(j - 1) - (n - 1)]));
        lemma_xor_basics(gf_mul_spec(y, gf_mul_spec(p[n - 1], gn)));
        assert(u[n] == 0u8 ^ gf_mul_spec(y, p[n - 1]));
        lemma_xor_basics(gf_mul_spec(y, p[n - 1]));
        lemma_gf_mul_associative(y, p[n - 1], gn);
        assert((j - 1) - (n - 1) == j - n);
        lemma_gf_mul_distributive(rec_sum(g, p, j - 1, n - 1), gf_mul_spec(p[n - 1], gn), y);
        lemma_xor_regroup(
            rec_sum(g, p, j, n),
            gf_mul_spec(y, rec_sum(g, p, j - 1, n - 1)),
            0u8,
            gf_mul_spec(y, gf_mul_spec(p[n - 1], gn)),
        );
        lemma_xor_basics(rec_sum(g, p, j, n));
    }
}

/// On a geometric sequence with ratio `x`, each recurrence sum is `x`
/// times the one before.
pub proof fn lemma_rec_sum_geometric(x: u8, p: Seq<u8>, j: int, n: int)
    requires
        0 <= n,
        n <= j < 10,
    ensures
        rec_sum(geo(x), p, j, n) == gf_mul_spec(x, rec_sum(geo(x), p, j - 1, n)),
{
    let g = geo(x);
    let t = rec_term(g, p, j - 1);
    lemma_gsum_scale(x, t, n);
    let h = |q: int| gf_mul_spec(x, t(q));
    assert forall|q: int| 0 <= q < n implies #[trigger] rec_term(g, p, j)(q) == h(q) by {
        let i = j - q;
        assert(1 <= i < 10);
        assert(g[i] == gf_mul_spec(gf_pow_spec(x, (i - 1) as nat), x));
        assert(g[i - 1] == gf_pow_spec(x, (i - 1) as nat));
        lemma_gf_mul_commutative(gf_pow_spec(x, (i - 1) as nat), x);
        lemma_gf_mul_associative(p[q], x, g[i - 1]);
        lemma_gf_mul_commutative(p[q], x);
        lemma_gf_mul_associative(x, p[q], g[i - 1]);
        assert((j - 1) - q == i - 1);
    }
    lemma_gsum_ext(rec_term(g, p, j), h, n);
}

/// The locator `prod_{k < n} (1 + xs[k] x)` annihilates the powers of each
/// of its points: the recurrence it defines produces `xs[m]^j` from the
/// `n` powers before, for every `m < n`.
pub proof fn lemma_locator_annihilates(xs: Seq<u8>, n: int, m: int, j: int)
    requires
        0 <= m < n,
        n <= j < 10,
    ensures
        rec_sum(geo(xs[m]), locator_poly(xs, n), j, n + 1) == 0,
    decreases n,
{
    let p = locator_poly(xs, n - 1);
    lemma_locator_poly_shape(xs, n - 1);
    let y = xs[n - 1];
    let g = geo(xs[m]);
    lemma_rec_sum_mul_lin(g, p, y, j, n);
    if m == n - 1 {
        lemma_rec_sum_geometric(y, p, j, n);
        lemma_xor_cancel(gf_mul_spec(y, rec_sum(g, p, j - 1, n)), gf_mul_spec(y, rec_sum(g, p, j - 1, n)));
    } else {
        lemma_locator_annihilates(xs, n - 1, m, j);
        lemma_locator_annihilates(xs, n - 1, m, j - 1);
        lemma_gf_mul_zero(y);
        lemma_xor_basics(0u8);
    }
}

/// Recurrence sums are linear in the sequence: on a sequence that is
/// `s1 + e * s2` at the indices the sum reads, the sum is the sum over
/// `s1` plus `e` times the sum over `s2`.
pub proof fn lemma_rec_sum_combine(s: Seq<u8>, s1: Seq<u8>, s2: Seq<u8>, e: u8, c: Seq<u8>, j: int, n: int)
    requires
        0 <= n,
        forall|q: int| 0 <= q < n ==> #[trigger] s[j - q] == s1[j - q] ^ gf_mul_spec(e, s2[j - q]),
    ensures
        rec_sum(s, c, j, n) == rec_sum(s1, c, j, n) ^ gf_mul_spec(e, rec_sum(s2, c, j, n)),
    decreases n,
{
    if n == 0 {
        lemma_gf_mul_zero(e);
        lemma_xor_basics(0u8);
    } else {
        lemma_rec_sum_combine(s, s1, s2, e, c, j, n - 1);
        let q = n - 1;
        let a = s1[j - q];
        let b = s2[j - q];
        assert(s[j - q] == a ^ gf_mul_spec(e, b));
        lemma_gf_mul_distributive(a, gf_mul_spec(e, b), c[q]);
        lemma_gf_mul_commutative(a ^ gf_mul_spec(e, b), c[q]);
        lemma_gf_mul_commutative(a, c[q]);
        lemma_gf_mul_commutative(gf_mul_spec(e, b), c[q]);
        lemma_gf_mul_associative(c[q], e, b);
        lemma_gf_mul_commutative(c[q], e);
        lemma_gf_mul_associative(e, c[q], b);
        lemma_gf_mul_distributive(rec_sum(s2, c, j, q), gf_mul_spec(c[q], b), e);
        lemma_xor_regroup(
            rec_sum(s1, c, j, q),
            gf_mul_spec(e, rec_sum(s2, c, j, q)),
            gf_mul_spec(c[q], a),
            gf_mul_spec(e, gf_mul_spec(c[q], b)),
        );
    }
}

/// On the powers of `x`, the recurrence sum `t` places later is `x^t`
/// times the one at `n`.
pub proof fn lemma_rec_sum_geometric_power(x: u8, p: Seq<u8>, n: int, t: nat)
    requires
        0 <= n,
        n + t < 10,
    ensures
        rec_sum(geo(x), p, n + t, n + 1) == gf_mul_spec(gf_pow_spec(x, t), rec_sum(geo(x), p, n, n + 1)),
    decreases t,
{
    let r0 = rec_sum(geo(x), p, n, n + 1);
    if t == 0 {
        lemma_gf_mul_one(r0);
    } else {
        let t1 = (t - 1) as nat;
        lemma_rec_sum_geometric_power(x, p, n, t1);
        lemma_rec_sum_geometric(x, p, n + t, n + 1);
        assert(n + t - 1 == n + t1);
        lemma_gf_mul_associative(x, gf_pow_spec(x, t1), r0);
        lemma_gf_mul_commutative(x, gf_pow_spec(x, t1));
    }
}

/// The quotient of `c` (coefficients `0..=n`) by `1 + x X`, when `c`
/// annihilates the powers of `X`: coefficient `i` is the recurrence sum of
/// the first `i + 1` coefficients at `i`.
pub open spec fn quot(c: Seq<u8>, x: u8, n: int) -> Seq<u8> {
    Seq::new(n as nat, |i: int| rec_sum(geo(x), c, i, i + 1))
}

/// A recurrence sum of one term on the powers of `x`, read at index `i`
/// from the first coefficient on, adds that coefficient to the shorter sum.
proof fn lemma_rec_sum_last(x: u8, c: Seq<u8>, i: int)
    requires
        0 <= i < 10,
    ensures
        rec_sum(geo(x), c, i, i + 1) == rec_sum(geo(x), c, i, i) ^ c[i],
{
    assert(geo(x)[i - i] == gf_pow_spec(x, 0));
    lemma_gf_mul_one(c[i]);
}

/// Division by `1 + x X`: when `c` (coefficients `0..=n`) annihilates the
/// powers of `X` at index `n`, it is `(1 + x X)` times its quotient.
pub proof fn lemma_quot(c: Seq<u8>, x: u8, n: int)
    requires
        1 <= n < 10,
        c.len() > n,
        rec_sum(geo(x), c, n, n + 1) == 0,
    ensures
        forall|i: int| 0 <= i <= n ==> #[trigger] mul_lin(quot(c, x, n), x)[i] == c[i],
        mul_lin(quot(c, x, n), x).len() == n + 1,
{
    let t = quot(c, x, n);
    assert forall|i: int| 0 <= i <= n implies #[trigger] mul_lin(t, x)[i] == c[i] by {
        lemma_rec_sum_last(x, c, i);
        if i == 0 {
            assert(gsum(rec_term(geo(x), c, 0), 0) == 0);
            lemma_xor_basics(c[0]);
            assert(t[0] == c[0]);
            lemma_xor_basics(t[0]);
            assert(mul_lin(t, x)[0] == t[0] ^ 0u8);
        } else {
            lemma_rec_sum_geometric(x, c, i, i);
            let r = rec_sum(geo(x), c, i - 1, i);
            assert(t[i - 1] == r);
            if i < n {
                assert(t[i] == gf_mul_spec(x, r) ^ c[i]);
                assert(mul_lin(t, x)[i] == t[i] ^ gf_mul_spec(x, r));
                lemma_xor_commutes(gf_mul_spec(x, r), c[i]);
                lemma_xor_cancel(c[i], gf_mul_spec(x, r));
            } else {
                assert(mul_lin(t, x)[i] == 0u8 ^ gf_mul_spec(x, r));
                lemma_xor_basics(gf_mul_spec(x, r));
                assert(rec_sum(geo(x), c, n, n) ^ c[n] == 0);
                lemma_xor_cancel(rec_sum(geo(x), c, n, n), c[n]);
            }
        }
    }
}

/// A recurrence with coefficients `0..=n` that annihilates the powers of
/// more than `n` distinct points is zero.
pub proof fn lemma_annihilator_zero(c: Seq<u8>, n: int, xs: Seq<u8>, m: int)
    requires
        0 <= n < m <= xs.len(),
        n < 10,
        c.len() > n,
        forall|a: int, b: int| 0 <= a < b < m ==> #[trigger] xs[a] != #[trigger] xs[b],
        forall|k: int| 0 <= k < m ==> #[trigger] rec_sum(geo(xs[k]), c, n, n + 1) == 0,
    ensures
        forall|i: int| 0 <= i <= n ==> #[trigger] c[i] == 0,
    decreases n,
{
    if n == 0 {
        assert(rec_sum(geo(xs[0]), c, 0, 1) == 0);
        assert(geo(xs[0])[0] == 1);
        lemma_gf_mul_one(c[0]);
        lemma_xor_basics(c[0]);
        assert(gsum(rec_term(geo(xs[0]), c, 0), 0) == 0);
    } else {
        let x = xs[m - 1];
        let t = quot(c, x, n);
        assert(rec_sum(geo(xs[m - 1]), c, n, n + 1) == 0);
        lemma_quot(c, x, n);
        let u = mul_lin(t, x);
        assert forall|k: int| 0 <= k < m - 1 implies #[trigger] rec_sum(geo(xs[k]), t, n - 1, n) == 0 by {
            let g = geo(xs[k]);
            lemma_gsum_ext(rec_term(g, u, n), rec_term(g, c, n), n + 1);
            lemma_rec_sum_mul_lin(g, t, x, n, n);
            lemma_rec_sum_geometric(xs[k], t, n, n);
            let r = rec_sum(g, t, n - 1, n);
            lemma_gf_mul_distributive(xs[k], x, r);
            assert(rec_sum(g, c, n, n + 1) == 0);
            assert(gf_mul_spec(xs[k] ^ x, r) == 0);
            assert(xs[k] != x);
            lemma_xor_cancel(xs[k], x);
            if r != 0 {
                lemma_mul_nonzero(xs[k] ^ x, r);
            }
        }
        lemma_annihilator_zero(t, n - 1, xs, m - 1);
        assert forall|i: int| 0 <= i <= n implies #[trigger] c[i] == 0 by {
            assert(u[i] == c[i]);
            if i < n {
                assert(t[i] == 0);
            }
            if i >= 1 {
                assert(t[i - 1] == 0);
                lemma_gf_mul_zero(x);
            }
            lemma_xor_basics(0u8);
        }
    }
}

/// A sum is its first term plus the sum of the others.
pub proof fn lemma_gsum_split_first(f: spec_fn(int) -> u8, n: int)
    requires
        n >= 0,
    ensures
        gsum(f, n + 1) == f(0) ^ gsum(|i: int| f(i + 1), n),
    decreases n,
{
    let g = |i: int| f(i + 1);
    if n == 0 {
        assert(gsum(f, 0) == 0);
        assert(gsum(g, 0) == 0);
        lemma_xor_basics(f(0));
    } else {
        lemma_gsum_split_first(f, n - 1);
        assert(g(n - 1) == f(n));
        lemma_xor_regroup(f(0), gsum(g, n - 1), 0u8, f(n));
        lemma_xor_basics(f(0));
        lemma_xor_basics(f(n));
        assert(gsum(f, n + 1) == gsum(f, n) ^ f(n));
    }
}

/// A recurrence whose first coefficient is zero sums like the recurrence
/// of its remaining coefficients, one index earlier.
pub proof fn lemma_rec_sum_drop_first(g: Seq<u8>, c: Seq<u8>, j: int, n: int)
    requires
        n >= 0,
        c.len() >= n + 1,
        c[0] == 0,
    ensures
        rec_sum(g, c, j, n + 1) == rec_sum(g, c.drop_first(), j - 1, n),
{
    let f = rec_term(g, c, j);
    let f1 = |i: int| f(i + 1);
    lemma_gsum_split_first(f, n);
    lemma_gf_mul_zero(g[j]);
    lemma_xor_basics(gsum(f1, n));
    let e = c.drop_first();
    assert forall|i: int| 0 <= i < n implies #[trigger] f1(i) == rec_term(g, e, j - 1)(i) by {
        assert(j - (i + 1) == (j - 1) - i);
        assert(e[i] == c[i + 1]);
    }
    lemma_gsum_ext(f1, rec_term(g, e, j - 1), n);
}

/// Recurrence sums are linear in the coefficients.
pub proof fn lemma_rec_sum_coeff_xor(g: Seq<u8>, c1: Seq<u8>, c2: Seq<u8>, c: Seq<u8>, j: int, n: int)
    requires
        0 <= n,
        forall|q: int| 0 <= q < n ==> #[trigger] c[q] == c1[q] ^ c2[q],
    ensures
        rec_sum(g, c, j, n) == rec_sum(g, c1, j, n) ^ rec_sum(g, c2, j, n),
    decreases n,
{
    if n == 0 {
        lemma_xor_basics(0u8);
    } else {
        lemma_rec_sum_coeff_xor(g, c1, c2, c, j, n - 1);
        let q = n - 1;
        lemma_gf_mul_distributive(c1[q], c2[q], g[j - q]);
        lemma_xor_regroup(
            rec_sum(g, c1, j, q),
            rec_sum(g, c2, j, q),
            gf_mul_spec(c1[q], g[j - q]),
            gf_mul_spec(c2[q], g[j - q]),
        );
    }
}

/// The value at `x` of `p + q`, coefficientwise, is the sum of values.
pub proof fn lemma_eval_xor_poly(p: Seq<u8>, q: Seq<u8>, r: Seq<u8>, x: u8)
    requires
        p.len() == q.len(),
        r.len() == p.len(),
        forall|i: int| 0 <= i < r.len() ==> #[trigger] r[i] == p[i] ^ q[i],
    ensures
        poly_eval_spec(r, x) == poly_eval_spec(p, x) ^ poly_eval_spec(q, x),
    decreases r.len(),
{
    if r.len() == 0 {
        lemma_xor_basics(0u8);
    } else {
        lemma_eval_xor_poly(p.drop_first(), q.drop_first(), r.drop_first(), x);
        let a = poly_eval_spec(p.drop_first(), x);
        let b = poly_eval_spec(q.drop_first(), x);
        lemma_gf_mul_distributive(a, b, x);
        lemma_xor_regroup(gf_mul_spec(a, x), gf_mul_spec(b, x), p[0], q[0]);
    }
}

/// The value at `x` of `e * p`, coefficientwise, is `e` times the value.
pub proof fn lemma_eval_scale_poly(e: u8, p: Seq<u8>, r: Seq<u8>, x: u8)
    requires
        r.len() == p.len(),
        forall|i: int| 0 <= i < r.len() ==> #[trigger] r[i] == gf_mul_spec(e, p[i]),
    ensures
        poly_eval_spec(r, x) == gf_mul_spec(e, poly_eval_spec(p, x)),
    decreases r.len(),
{
    if r.len() == 0 {
        lemma_gf_mul_zero(e);
    } else {
        lemma_eval_scale_poly(e, p.drop_first(), r.drop_first(), x);
        let a = poly_eval_spec(p.drop_first(), x);
        lemma_gf_mul_associative(e, a, x);
        lemma_gf_mul_distributive(gf_mul_spec(a, x), p[0], e);
    }
}

/// Coefficients past the end that are zero do not change the value.
pub proof fn lemma_eval_pad(p: Seq<u8>, r: Seq<u8>, x: u8)
    requires
        r.len() >= p.len(),
        forall|i: int| 0 <= i < p.len() ==> #[trigger] r[i] == p[i],
        forall|i: int| p.len() <= i < r.len() ==> #[trigger] r[i] == 0,
    ensures
        poly_eval_spec(r, x) == poly_eval_spec(p, x),
    decreases r.len(),
{
    if r.len() > 0 {
        if p.len() == 0 {
            lemma_eval_pad(p, r.drop_first(), x);
            assert(r[0] == 0);
            lemma_gf_mul_zero(x);
            lemma_xor_basics(0u8);
        } else {
            lemma_eval_pad(p.drop_first(), r.drop_first(), x);
        }
    }
}

/// Shifting up by one place multiplies the value by `x`.
pub proof fn lemma_eval_shift(q: Seq<u8>, x: u8)
    ensures
        poly_eval_spec(seq![0u8] + q, x) == gf_mul_spec(poly_eval_spec(q, x), x),
{
    assert((seq![0u8] + q).drop_first() =~= q);
    lemma_xor_basics(gf_mul_spec(poly_eval_spec(q, x), x));
}

/// At a point `y` with `x y = 1`, `x^n` times the value of `c`
/// (coefficients `0..=n`) is the recurrence sum of `c` on the powers of
/// `x` at `n`.
pub proof fn lemma_eval_as_rec_sum(c: Seq<u8>, x: u8, y: u8, n: int)
    requires
        0 <= n < 10,
        c.len() == n + 1,
        gf_mul_spec(x, y) == 1,
    ensures
        gf_mul_spec(gf_pow_spec(x, n as nat), poly_eval_spec(c, y)) == rec_sum(geo(x), c, n, n + 1),
    decreases n,
{
    let g = geo(x);
    let xn = gf_pow_spec(x, n as nat);
    let c1 = c.drop_first();
    let f = rec_term(g, c, n);
    let f1 = |i: int| f(i + 1);
    lemma_gsum_split_first(f, n);
    assert(g[n] == xn);
    if n == 0 {
        assert(c1 =~= Seq::<u8>::empty());
        assert(poly_eval_spec(c1, y) == 0);
        lemma_gf_mul_zero(y);
        lemma_xor_basics(c[0]);
        assert(xn == 1);
        lemma_gf_mul_one(c[0]);
        assert(gsum(f1, 0) == 0);
        lemma_xor_basics(gf_mul_spec(c[0], g[0]));
        lemma_gf_mul_one(c[0]);
    } else {
        lemma_eval_as_rec_sum(c1, x, y, n - 1);
        let x1 = gf_pow_spec(x, (n - 1) as nat);
        let e1 = poly_eval_spec(c1, y);
        // x^n (e1 y + c0) = x^(n-1) (x y) e1 + c0 x^n
        assert(xn == gf_mul_spec(x1, x));
        lemma_gf_mul_distributive(gf_mul_spec(e1, y), c[0], xn);
        lemma_gf_mul_commutative(xn, gf_mul_spec(e1, y) ^ c[0]);
        lemma_gf_mul_commutative(gf_mul_spec(e1, y), xn);
        lemma_gf_mul_associative(x1, x, gf_mul_spec(e1, y));
        lemma_gf_mul_associative(x, e1, y);
        lemma_gf_mul_commutative(e1, y);
        lemma_gf_mul_associative(x, y, e1);
        lemma_gf_mul_one(e1);
        lemma_gf_mul_commutative(c[0], xn);
        assert forall|i: int| 0 <= i < n implies #[trigger] f1(i) == rec_term(g, c1, n - 1)(i) by {
            assert(n - (i + 1) == (n - 1) - i);
            assert(c1[i] == c[i + 1]);
        }
        lemma_gsum_ext(f1, rec_term(g, c1, n - 1), n);
        assert(gf_mul_spec(xn, gf_mul_spec(e1, y)) == gf_mul_spec(x1, e1));
        lemma_xor_commutes(gf_mul_spec(x1, e1), gf_mul_spec(c[0], xn));
    }
}

/// The odd-degree part of `p`.
pub open spec fn odd_part(p: Seq<u8>) -> Seq<u8> {
    Seq::new(p.len(), |i: int| if i % 2 == 1 { p[i] } else { 0u8 })
}

/// The even-degree part of `p`.
pub open spec fn even_part(p: Seq<u8>) -> Seq<u8> {
    Seq::new(p.len(), |i: int| if i % 2 == 0 { p[i] } else { 0u8 })
}

/// The value of `p` is the value of its odd part plus that of its even part.
pub proof fn lemma_eval_odd_even(p: Seq<u8>, y: u8)
    ensures
        poly_eval_spec(p, y) == poly_eval_spec(odd_part(p), y) ^ poly_eval_spec(even_part(p), y),
{
    assert forall|i: int| 0 <= i < p.len() implies #[trigger] p[i] == odd_part(p)[i] ^ even_part(p)[i] by {
        lemma_xor_basics(p[i]);
        lemma_xor_commutes(p[i], 0u8);
    }
    lemma_eval_xor_poly(odd_part(p), even_part(p), p, y);
}

/// The formal derivative of `tau * (1 + x X)` at a root `y` of the factor
/// (`X y = 1`), times `y`, is the value of `tau` there.
pub proof fn lemma_deriv_at_root(tau: Seq<u8>, x: u8, y: u8, u: Seq<u8>)
    requires
        tau.len() >= 1,
        u == mul_lin(tau, x),
        gf_mul_spec(x, y) == 1,
    ensures
        gf_mul_spec(poly_eval_spec(formal_deriv_spec(u), y), y) == poly_eval_spec(tau, y),
{
    let w = tau.len() as int;
    let fd = formal_deriv_spec(u);
    assert(seq![0u8] + fd =~= odd_part(u));
    lemma_eval_shift(fd, y);
    let a = Seq::new((w + 1) as nat, |i: int| if i < w { odd_part(tau)[i] } else { 0u8 });
    let z = seq![0u8] + even_part(tau);
    let b = Seq::new((w + 1) as nat, |i: int| gf_mul_spec(x, z[i]));
    lemma_gf_mul_zero(x);
    assert forall|i: int| 0 <= i < w + 1 implies #[trigger] odd_part(u)[i] == a[i] ^ b[i] by {
        lemma_xor_basics(0u8);
        if i % 2 == 1 {
            assert(z[i] == even_part(tau)[i - 1]);
            assert(even_part(tau)[i - 1] == tau[i - 1]);
            if i < w {
                assert(a[i] == tau[i]);
            } else {
                assert(a[i] == 0u8);
            }
        } else {
            if i >= 1 {
                assert(z[i] == even_part(tau)[i - 1]);
                assert(even_part(tau)[i - 1] == 0u8);
            }
            assert(b[i] == 0u8);
        }
    }
    lemma_eval_xor_poly(a, b, odd_part(u), y);
    lemma_eval_pad(odd_part(tau), a, y);
    lemma_eval_scale_poly(x, z, b, y);
    lemma_eval_shift(even_part(tau), y);
    let ev = poly_eval_spec(even_part(tau), y);
    lemma_gf_mul_associative(ev, y, x);
    lemma_gf_mul_commutative(gf_mul_spec(ev, y), x);
    lemma_gf_mul_commutative(y, x);
    lemma_gf_mul_one(ev);
    lemma_eval_odd_even(tau, y);
}

} // verus!
