//! Arithmetic in GF(2^8) with the primitive polynomial
//! x^8 + x^4 + x^3 + x^2 + 1 (0x11D), and polynomials over it.

use vstd::prelude::*;

verus! {

/// Multiplication by x: shift left, and reduce by the primitive polynomial
/// when the x^8 term appears.
pub open spec fn xtime(a: u8) -> u8 {
    if a & 0x80u8 != 0 {
        (a << 1u8) ^ 0x1Du8
    } else {
        a << 1u8
    }
}

/// `a * x^n`.
pub open spec fn xtime_n(a: u8, n: nat) -> u8
    decreases n,
{
    if n == 0 {
        a
    } else {
        xtime(xtime_n(a, (n - 1) as nat))
    }
}

/// The product of `a` with the low `k` bits of `b`, each bit `i` of `b`
/// contributing `a * x^i`.
pub open spec fn gf_mul_bits(a: u8, b: u8, k: nat) -> u8
    decreases k,
{
    if k == 0 {
        0
    } else {
        gf_mul_bits(a, b, (k - 1) as nat) ^ (if (b >> ((k - 1) as u8)) & 1u8 == 1u8 {
            xtime_n(a, (k - 1) as nat)
        } else {
            0u8
        })
    }
}

/// The field product `a * b`.
pub open spec fn gf_mul_spec(a: u8, b: u8) -> u8 {
    gf_mul_bits(a, b, 8)
}

/// `base` to the power `n`, by repeated multiplication.
pub open spec fn gf_pow_spec(base: u8, n: nat) -> u8
    decreases n,
{
    if n == 0 {
        1
    } else {
        gf_mul_spec(gf_pow_spec(base, (n - 1) as nat), base)
    }
}

/// The power of the primitive element alpha = x = 2 that the exponent
/// table holds at index `i`: alpha^(i mod 255).
pub open spec fn alpha_pow(i: int) -> u8 {
    gf_pow_spec(2, (i % 255) as nat)
}

/// The multiplicative inverse `a^254`, by repeated squaring
/// (254 = 2 + 4 + 8 + 16 + 32 + 64 + 128); zero maps to zero.
pub open spec fn gf_inv_spec(a: u8) -> u8 {
    if a == 0 {
        0
    } else {
        let a2 = gf_mul_spec(a, a);
        let a4 = gf_mul_spec(a2, a2);
        let a8 = gf_mul_spec(a4, a4);
        let a16 = gf_mul_spec(a8, a8);
        let a32 = gf_mul_spec(a16, a16);
        let a64 = gf_mul_spec(a32, a32);
        let a128 = gf_mul_spec(a64, a64);
        gf_mul_spec(
            gf_mul_spec(gf_mul_spec(gf_mul_spec(gf_mul_spec(gf_mul_spec(a2, a4), a8), a16), a32), a64),
            a128,
        )
    }
}

/// The value of the polynomial with coefficients `p` (index 0 = constant
/// term) at `x`.
pub open spec fn poly_eval_spec(p: Seq<u8>, x: u8) -> u8
    decreases p.len(),
{
    if p.len() == 0 {
        0
    } else {
        gf_mul_spec(poly_eval_spec(p.drop_first(), x), x) ^ p[0]
    }
}


/// The XOR facts the field arithmetic uses, checked at the bit level.
proof fn lemma_xor_facts(a: u8, b: u8, c: u8, d: u8)
    by (bit_vector)
    ensures
        a ^ 0u8 == a,
        0u8 ^ a == a,
        a ^ a == 0u8,
        a ^ b == b ^ a,
        (a ^ b) ^ (c ^ d) == (a ^ c) ^ (b ^ d),
        (a ^ b) ^ b == a,
        a ^ (b ^ a) == b,
        (a ^ b == 0u8) == (a == b),
{
}

/// XOR with zero changes nothing, and a byte XORed with itself is zero.
pub proof fn lemma_xor_basics(a: u8)
    ensures
        a ^ 0u8 == a,
        0u8 ^ a == a,
        a ^ a == 0u8,
{
    lemma_xor_facts(a, 0, 0, 0);
}

/// XOR is commutative.
pub proof fn lemma_xor_commutes(a: u8, b: u8)
    ensures
        a ^ b == b ^ a,
{
    lemma_xor_facts(a, b, 0, 0);
}

/// XOR sums can be regrouped.
pub proof fn lemma_xor_regroup(a: u8, b: u8, c: u8, d: u8)
    ensures
        (a ^ b) ^ (c ^ d) == (a ^ c) ^ (b ^ d),
{
    lemma_xor_facts(a, b, c, d);
}

/// XOR with the same value twice cancels, and two values XOR to zero
/// exactly when they are equal.
pub proof fn lemma_xor_cancel(a: u8, b: u8)
    ensures
        (a ^ b) ^ b == a,
        a ^ (b ^ a) == b,
        (a ^ b == 0u8) == (a == b),
{
    lemma_xor_facts(a, b, 0, 0);
}

/// Multiplication by x in the field.
fn xtime_exec(a: u8) -> (r: u8)
    ensures
        r == xtime(a),
{
    if a & 0x80 != 0 {
        (a << 1) ^ 0x1D
    } else {
        a << 1
    }
}

/// Field multiplication (shift-and-add, reducing by the primitive polynomial).
pub fn gf_mul(a: u8, b: u8) -> (r: u8)
    ensures
        r == gf_mul_spec(a, b),
{
    let mut p: u8 = 0;
    let mut aa: u8 = a;
    let mut k: u8 = 0;
    while k < 8
        invariant
            k <= 8,
            p == gf_mul_bits(a, b, k as nat),
            aa == xtime_n(a, k as nat),
        decreases 8 - k,
    {
        if (b >> k) & 1 == 1 {
            p = p ^ aa;
        } else {
            proof {
                lemma_xor_basics(p);
            }
        }
        aa = xtime_exec(aa);
        k += 1;
    }
    p
}

/// `base` to the power `exp`; alpha^(log(base) * exp mod 255) for nonzero
/// `base`, which is `base^(exp mod 255)` since every nonzero element has
/// an order dividing 255.
pub fn gf_pow(base: u8, exp: usize) -> (r: u8)
    ensures
        r == (if exp == 0 {
            1
        } else if base == 0 {
            0
        } else {
            gf_pow_spec(base, (exp % 255) as nat)
        }),
{
    if exp == 0 {
        return 1;
    }
    if base == 0 {
        return 0;
    }
    let e = exp % 255;
    let mut r: u8 = 1;
    let mut i: usize = 0;
    while i < e
        invariant
            i <= e,
            r == gf_pow_spec(base, i as nat),
        decreases e - i,
    {
        r = gf_mul(r, base);
        i += 1;
    }
    r
}

/// alpha^(i mod 255), the exponent table entry at `i`.
pub fn gf_exp(i: usize) -> (r: u8)
    ensures
        r == alpha_pow(i as int),
{
    let e = i % 255;
    let mut r: u8 = 1;
    let mut k: usize = 0;
    while k < e
        invariant
            k <= e,
            r == gf_pow_spec(2, k as nat),
        decreases e - k,
    {
        r = gf_mul(r, 2);
        k += 1;
    }
    r
}

/// Multiplicative inverse; zero maps to zero.
pub fn gf_inv(a: u8) -> (r: u8)
    ensures
        r == gf_inv_spec(a),
{
    if a == 0 {
        return 0;
    }
    let a2 = gf_mul(a, a);
    let a4 = gf_mul(a2, a2);
    let a8 = gf_mul(a4, a4);
    let a16 = gf_mul(a8, a8);
    let a32 = gf_mul(a16, a16);
    let a64 = gf_mul(a32, a32);
    let a128 = gf_mul(a64, a64);
    let mut r = gf_mul(a2, a4);
    r = gf_mul(r, a8);
    r = gf_mul(r, a16);
    r = gf_mul(r, a32);
    r = gf_mul(r, a64);
    gf_mul(r, a128)
}

/// Field division `a / b`.
pub fn gf_div(a: u8, b: u8) -> (r: u8)
    requires
        b != 0,
    ensures
        r == gf_mul_spec(a, gf_inv_spec(b)),
{
    gf_mul(a, gf_inv(b))
}

/// Evaluate polynomial at x using Horner's method (coefficients from index 0 = constant).
pub fn gf_poly_eval(poly: &[u8], x: u8) -> (v: u8)
    ensures
        v == poly_eval_spec(poly@, x),
{
    let mut v: u8 = 0;
    let mut j: usize = poly.len();
    proof {
        assert(poly@.subrange(j as int, poly.len() as int) =~= seq![]);
    }
    while j > 0
        invariant
            j <= poly.len(),
            v == poly_eval_spec(poly@.subrange(j as int, poly.len() as int), x),
        decreases j,
    {
        j -= 1;
        proof {
            let s = poly@.subrange(j as int, poly.len() as int);
            assert(s.drop_first() =~= poly@.subrange(j + 1, poly.len() as int));
            assert(s[0] == poly[j as int]);
        }
        v = gf_mul(v, x) ^ poly[j];
    }
    proof {
        assert(poly@.subrange(0, poly.len() as int) =~= poly@);
    }
    v
}

/// The product written out: bit `k` of `b` contributes `a * x^k`.
spec fn gf_mul_closed(a: u8, b: u8) -> u8 {
    let a1 = xtime(a);
    let a2 = xtime(a1);
    let a3 = xtime(a2);
    let a4 = xtime(a3);
    let a5 = xtime(a4);
    let a6 = xtime(a5);
    let a7 = xtime(a6);
    (if b & 1u8 == 1u8 { a } else { 0u8 }) ^ (if (b >> 1u8) & 1u8 == 1u8 { a1 } else { 0u8 }) ^ (if (b
        >> 2u8) & 1u8 == 1u8 {
        a2
    } else {
        0u8
    }) ^ (if (b >> 3u8) & 1u8 == 1u8 { a3 } else { 0u8 }) ^ (if (b >> 4u8) & 1u8 == 1u8 {
        a4
    } else {
        0u8
    }) ^ (if (b >> 5u8) & 1u8 == 1u8 { a5 } else { 0u8 }) ^ (if (b >> 6u8) & 1u8 == 1u8 {
        a6
    } else {
        0u8
    }) ^ (if (b >> 7u8) & 1u8 == 1u8 { a7 } else { 0u8 })
}

proof fn lemma_gf_mul_closed(a: u8, b: u8)
    ensures
        gf_mul_spec(a, b) == gf_mul_closed(a, b),
{
    reveal_with_fuel(gf_mul_bits, 9);
    reveal_with_fuel(xtime_n, 8);
    assert(b >> 0u8 == b) by (bit_vector);
    assert(0u8 ^ (if b & 1u8 == 1u8 { a } else { 0u8 }) == (if b & 1u8 == 1u8 { a } else { 0u8 }))
        by (bit_vector);
}

/// The written-out product is symmetric, checked at the bit level.
#[verifier::rlimit(100)]
proof fn lemma_gf_mul_closed_symmetric(a: u8, b: u8)
    by (bit_vector)
    ensures
        gf_mul_closed(a, b) == gf_mul_closed(b, a),
{
}

/// Field multiplication is commutative.
pub proof fn lemma_gf_mul_commutative(a: u8, b: u8)
    ensures
        gf_mul_spec(a, b) == gf_mul_spec(b, a),
{
    lemma_gf_mul_closed(a, b);
    lemma_gf_mul_closed(b, a);
    lemma_gf_mul_closed_symmetric(a, b);
}

/// The inverse chain, checked over all bytes at the bit level.
#[verifier::rlimit(100)]
proof fn lemma_inv_chain_bits(
    a: u8,
    a2: u8,
    a4: u8,
    a8: u8,
    a16: u8,
    a32: u8,
    a64: u8,
    a128: u8,
    p1: u8,
    p2: u8,
    p3: u8,
    p4: u8,
    p5: u8,
    r: u8,
)
    by (bit_vector)
    requires
        a != 0,
        a2 == gf_mul_closed(a, a),
        a4 == gf_mul_closed(a2, a2),
        a8 == gf_mul_closed(a4, a4),
        a16 == gf_mul_closed(a8, a8),
        a32 == gf_mul_closed(a16, a16),
        a64 == gf_mul_closed(a32, a32),
        a128 == gf_mul_closed(a64, a64),
        p1 == gf_mul_closed(a2, a4),
        p2 == gf_mul_closed(p1, a8),
        p3 == gf_mul_closed(p2, a16),
        p4 == gf_mul_closed(p3, a32),
        p5 == gf_mul_closed(p4, a64),
        r == gf_mul_closed(p5, a128),
    ensures
        gf_mul_closed(a, r) == 1,
{
}

/// Every nonzero element times its inverse is one.
pub proof fn lemma_gf_inv_is_inverse(a: u8)
    requires
        a != 0,
    ensures
        gf_mul_spec(a, gf_inv_spec(a)) == 1,
{
    let a2 = gf_mul_spec(a, a);
    let a4 = gf_mul_spec(a2, a2);
    let a8 = gf_mul_spec(a4, a4);
    let a16 = gf_mul_spec(a8, a8);
    let a32 = gf_mul_spec(a16, a16);
    let a64 = gf_mul_spec(a32, a32);
    let a128 = gf_mul_spec(a64, a64);
    let p1 = gf_mul_spec(a2, a4);
    let p2 = gf_mul_spec(p1, a8);
    let p3 = gf_mul_spec(p2, a16);
    let p4 = gf_mul_spec(p3, a32);
    let p5 = gf_mul_spec(p4, a64);
    let r = gf_mul_spec(p5, a128);
    lemma_gf_mul_closed(a, a);
    lemma_gf_mul_closed(a2, a2);
    lemma_gf_mul_closed(a4, a4);
    lemma_gf_mul_closed(a8, a8);
    lemma_gf_mul_closed(a16, a16);
    lemma_gf_mul_closed(a32, a32);
    lemma_gf_mul_closed(a64, a64);
    lemma_gf_mul_closed(a2, a4);
    lemma_gf_mul_closed(p1, a8);
    lemma_gf_mul_closed(p2, a16);
    lemma_gf_mul_closed(p3, a32);
    lemma_gf_mul_closed(p4, a64);
    lemma_gf_mul_closed(p5, a128);
    lemma_gf_mul_closed(a, r);
    lemma_inv_chain_bits(a, a2, a4, a8, a16, a32, a64, a128, p1, p2, p3, p4, p5, r);
}


/// Multiplication by x distributes over addition.
proof fn lemma_xtime_xor(a: u8, b: u8)
    by (bit_vector)
    ensures
        xtime(a ^ b) == xtime(a) ^ xtime(b),
        xtime(0u8) == 0u8,
{
}

/// Multiplication by x^n distributes over addition.
proof fn lemma_xtime_n_xor(a: u8, b: u8, n: nat)
    ensures
        xtime_n(a ^ b, n) == xtime_n(a, n) ^ xtime_n(b, n),
    decreases n,
{
    if n > 0 {
        lemma_xtime_n_xor(a, b, (n - 1) as nat);
        lemma_xtime_xor(xtime_n(a, (n - 1) as nat), xtime_n(b, (n - 1) as nat));
    }
}

/// Multiplying by x before or after x^n is the same.
proof fn lemma_xtime_n_swap(a: u8, n: nat)
    ensures
        xtime(xtime_n(a, n)) == xtime_n(xtime(a), n),
    decreases n,
{
    if n > 0 {
        lemma_xtime_n_swap(a, (n - 1) as nat);
    }
}

/// A selected term: `x` where the bit is set, zero elsewhere.
spec fn pick(bit: bool, x: u8) -> u8 {
    if bit { x } else { 0u8 }
}

/// Partial products distribute over addition of the first factor.
proof fn lemma_mul_bits_xor_left(a: u8, c: u8, b: u8, k: nat)
    ensures
        gf_mul_bits(a ^ c, b, k) == gf_mul_bits(a, b, k) ^ gf_mul_bits(c, b, k),
    decreases k,
{
    if k > 0 {
        let k1 = (k - 1) as nat;
        lemma_mul_bits_xor_left(a, c, b, k1);
        lemma_xtime_n_xor(a, c, k1);
        let bit = (b >> (k1 as u8)) & 1u8 == 1u8;
        let p = gf_mul_bits(a, b, k1);
        let q = gf_mul_bits(c, b, k1);
        let x = xtime_n(a, k1);
        let y = xtime_n(c, k1);
        assert((p ^ q) ^ pick(bit, x ^ y) == (p ^ pick(bit, x)) ^ (q ^ pick(bit, y))) by {
            if bit {
                lemma_xor_regroup(p, q, x, y);
            } else {
                lemma_xor_basics(p);
                lemma_xor_basics(q);
                lemma_xor_basics(p ^ q);
            }
        }
        assert(gf_mul_bits(a ^ c, b, k) == gf_mul_bits(a ^ c, b, k1) ^ pick(bit, xtime_n(a ^ c, k1)));
        assert(gf_mul_bits(a, b, k) == p ^ pick(bit, x));
        assert(gf_mul_bits(c, b, k) == q ^ pick(bit, y));
    } else {
        lemma_xor_basics(0u8);
    }
}

/// Multiplying a partial product by x multiplies its first factor.
proof fn lemma_xtime_mul_bits(a: u8, b: u8, k: nat)
    ensures
        xtime(gf_mul_bits(a, b, k)) == gf_mul_bits(xtime(a), b, k),
    decreases k,
{
    lemma_xtime_xor(0, 0);
    if k > 0 {
        let k1 = (k - 1) as nat;
        lemma_xtime_mul_bits(a, b, k1);
        let bit = (b >> (k1 as u8)) & 1u8 == 1u8;
        lemma_xtime_xor(gf_mul_bits(a, b, k1), pick(bit, xtime_n(a, k1)));
        lemma_xtime_n_swap(a, k1);
    }
}

/// Zero times anything is zero.
pub proof fn lemma_gf_mul_zero(a: u8)
    ensures
        gf_mul_spec(0, a) == 0,
        gf_mul_spec(a, 0) == 0,
{
    lemma_mul_bits_xor_left(0, 0, a, 8);
    lemma_xor_basics(0u8);
    assert(gf_mul_spec(0, a) ^ gf_mul_spec(0, a) == 0) by {
        let z = gf_mul_spec(0, a);
        lemma_xor_basics(z);
    }
    lemma_gf_mul_commutative(a, 0);
}

/// One is the unit of multiplication.
pub proof fn lemma_gf_mul_one(a: u8)
    ensures
        gf_mul_spec(a, 1) == a,
        gf_mul_spec(1, a) == a,
{
    lemma_gf_mul_closed(a, 1);
    assert(gf_mul_closed(a, 1) == a) by (bit_vector);
    lemma_gf_mul_commutative(a, 1);
}

/// Multiplication distributes over addition.
pub proof fn lemma_gf_mul_distributive(a: u8, b: u8, c: u8)
    ensures
        gf_mul_spec(a ^ b, c) == gf_mul_spec(a, c) ^ gf_mul_spec(b, c),
        gf_mul_spec(c, a ^ b) == gf_mul_spec(c, a) ^ gf_mul_spec(c, b),
{
    lemma_mul_bits_xor_left(a, b, c, 8);
    lemma_gf_mul_commutative(c, a ^ b);
    lemma_gf_mul_commutative(c, a);
    lemma_gf_mul_commutative(c, b);
}

/// Multiplying a product by x^n multiplies its first factor.
proof fn lemma_xtime_n_mul(a: u8, b: u8, n: nat)
    ensures
        xtime_n(gf_mul_spec(a, b), n) == gf_mul_spec(xtime_n(a, n), b),
    decreases n,
{
    if n > 0 {
        lemma_xtime_n_mul(a, b, (n - 1) as nat);
        lemma_xtime_mul_bits(xtime_n(a, (n - 1) as nat), b, 8);
    }
}

/// `(a * b)` taken with the low bits of `c` is `a` taken with those bits,
/// times `b`.
proof fn lemma_mul_bits_product(a: u8, b: u8, c: u8, k: nat)
    ensures
        gf_mul_bits(gf_mul_spec(a, b), c, k) == gf_mul_spec(gf_mul_bits(a, c, k), b),
    decreases k,
{
    lemma_gf_mul_zero(b);
    if k > 0 {
        let k1 = (k - 1) as nat;
        lemma_mul_bits_product(a, b, c, k1);
        lemma_xtime_n_mul(a, b, k1);
        let bit = (c >> (k1 as u8)) & 1u8 == 1u8;
        lemma_gf_mul_distributive(gf_mul_bits(a, c, k1), pick(bit, xtime_n(a, k1)), b);
    }
}

/// Multiplication is associative.
pub proof fn lemma_gf_mul_associative(a: u8, b: u8, c: u8)
    ensures
        gf_mul_spec(gf_mul_spec(a, b), c) == gf_mul_spec(a, gf_mul_spec(b, c)),
{
    // (x * y) * z == (x * z) * y, with x, y, z = b, c, a.
    lemma_mul_bits_product(b, c, a, 8);
    lemma_gf_mul_commutative(a, gf_mul_spec(b, c));
    lemma_gf_mul_commutative(b, a);
    lemma_gf_mul_commutative(gf_mul_spec(a, b), c);
    lemma_mul_bits_product(a, b, c, 8);
    lemma_mul_bits_product(b, a, c, 8);
}


// ---------------------------------------------------------------------------
// Powers
// ---------------------------------------------------------------------------

/// The powers of alpha: `alpha^k` for `k < 255`, and one at 255.
pub open spec fn alpha_table(k: u8) -> u8 {
    if k == 0 { 1 } else if k == 1 { 2 } else if k == 2 { 4 } else if k == 3 { 8 } else if k == 4 { 16 } else if k == 5 { 32 } else
    if k == 6 { 64 } else if k == 7 { 128 } else if k == 8 { 29 } else if k == 9 { 58 } else if k == 10 { 116 } else if k == 11 { 232 } else
    if k == 12 { 205 } else if k == 13 { 135 } else if k == 14 { 19 } else if k == 15 { 38 } else if k == 16 { 76 } else if k == 17 { 152 } else
    if k == 18 { 45 } else if k == 19 { 90 } else if k == 20 { 180 } else if k == 21 { 117 } else if k == 22 { 234 } else if k == 23 { 201 } else
    if k == 24 { 143 } else if k == 25 { 3 } else if k == 26 { 6 } else if k == 27 { 12 } else if k == 28 { 24 } else if k == 29 { 48 } else
    if k == 30 { 96 } else if k == 31 { 192 } else if k == 32 { 157 } else if k == 33 { 39 } else if k == 34 { 78 } else if k == 35 { 156 } else
    if k == 36 { 37 } else if k == 37 { 74 } else if k == 38 { 148 } else if k == 39 { 53 } else if k == 40 { 106 } else if k == 41 { 212 } else
    if k == 42 { 181 } else if k == 43 { 119 } else if k == 44 { 238 } else if k == 45 { 193 } else if k == 46 { 159 } else if k == 47 { 35 } else
    if k == 48 { 70 } else if k == 49 { 140 } else if k == 50 { 5 } else if k == 51 { 10 } else if k == 52 { 20 } else if k == 53 { 40 } else
    if k == 54 { 80 } else if k == 55 { 160 } else if k == 56 { 93 } else if k == 57 { 186 } else if k == 58 { 105 } else if k == 59 { 210 } else
    if k == 60 { 185 } else if k == 61 { 111 } else if k == 62 { 222 } else if k == 63 { 161 } else if k == 64 { 95 } else if k == 65 { 190 } else
    if k == 66 { 97 } else if k == 67 { 194 } else if k == 68 { 153 } else if k == 69 { 47 } else if k == 70 { 94 } else if k == 71 { 188 } else
    if k == 72 { 101 } else if k == 73 { 202 } else if k == 74 { 137 } else if k == 75 { 15 } else if k == 76 { 30 } else if k == 77 { 60 } else
    if k == 78 { 120 } else if k == 79 { 240 } else if k == 80 { 253 } else if k == 81 { 231 } else if k == 82 { 211 } else if k == 83 { 187 } else
    if k == 84 { 107 } else if k == 85 { 214 } else if k == 86 { 177 } else if k == 87 { 127 } else if k == 88 { 254 } else if k == 89 { 225 } else
    if k == 90 { 223 } else if k == 91 { 163 } else if k == 92 { 91 } else if k == 93 { 182 } else if k == 94 { 113 } else if k == 95 { 226 } else
    if k == 96 { 217 } else if k == 97 { 175 } else if k == 98 { 67 } else if k == 99 { 134 } else if k == 100 { 17 } else if k == 101 { 34 } else
    if k == 102 { 68 } else if k == 103 { 136 } else if k == 104 { 13 } else if k == 105 { 26 } else if k == 106 { 52 } else if k == 107 { 104 } else
    if k == 108 { 208 } else if k == 109 { 189 } else if k == 110 { 103 } else if k == 111 { 206 } else if k == 112 { 129 } else if k == 113 { 31 } else
    if k == 114 { 62 } else if k == 115 { 124 } else if k == 116 { 248 } else if k == 117 { 237 } else if k == 118 { 199 } else if k == 119 { 147 } else
    if k == 120 { 59 } else if k == 121 { 118 } else if k == 122 { 236 } else if k == 123 { 197 } else if k == 124 { 151 } else if k == 125 { 51 } else
    if k == 126 { 102 } else if k == 127 { 204 } else if k == 128 { 133 } else if k == 129 { 23 } else if k == 130 { 46 } else if k == 131 { 92 } else
    if k == 132 { 184 } else if k == 133 { 109 } else if k == 134 { 218 } else if k == 135 { 169 } else if k == 136 { 79 } else if k == 137 { 158 } else
    if k == 138 { 33 } else if k == 139 { 66 } else if k == 140 { 132 } else if k == 141 { 21 } else if k == 142 { 42 } else if k == 143 { 84 } else
    if k == 144 { 168 } else if k == 145 { 77 } else if k == 146 { 154 } else if k == 147 { 41 } else if k == 148 { 82 } else if k == 149 { 164 } else
    if k == 150 { 85 } else if k == 151 { 170 } else if k == 152 { 73 } else if k == 153 { 146 } else if k == 154 { 57 } else if k == 155 { 114 } else
    if k == 156 { 228 } else if k == 157 { 213 } else if k == 158 { 183 } else if k == 159 { 115 } else if k == 160 { 230 } else if k == 161 { 209 } else
    if k == 162 { 191 } else if k == 163 { 99 } else if k == 164 { 198 } else if k == 165 { 145 } else if k == 166 { 63 } else if k == 167 { 126 } else
    if k == 168 { 252 } else if k == 169 { 229 } else if k == 170 { 215 } else if k == 171 { 179 } else if k == 172 { 123 } else if k == 173 { 246 } else
    if k == 174 { 241 } else if k == 175 { 255 } else if k == 176 { 227 } else if k == 177 { 219 } else if k == 178 { 171 } else if k == 179 { 75 } else
    if k == 180 { 150 } else if k == 181 { 49 } else if k == 182 { 98 } else if k == 183 { 196 } else if k == 184 { 149 } else if k == 185 { 55 } else
    if k == 186 { 110 } else if k == 187 { 220 } else if k == 188 { 165 } else if k == 189 { 87 } else if k == 190 { 174 } else if k == 191 { 65 } else
    if k == 192 { 130 } else if k == 193 { 25 } else if k == 194 { 50 } else if k == 195 { 100 } else if k == 196 { 200 } else if k == 197 { 141 } else
    if k == 198 { 7 } else if k == 199 { 14 } else if k == 200 { 28 } else if k == 201 { 56 } else if k == 202 { 112 } else if k == 203 { 224 } else
    if k == 204 { 221 } else if k == 205 { 167 } else if k == 206 { 83 } else if k == 207 { 166 } else if k == 208 { 81 } else if k == 209 { 162 } else
    if k == 210 { 89 } else if k == 211 { 178 } else if k == 212 { 121 } else if k == 213 { 242 } else if k == 214 { 249 } else if k == 215 { 239 } else
    if k == 216 { 195 } else if k == 217 { 155 } else if k == 218 { 43 } else if k == 219 { 86 } else if k == 220 { 172 } else if k == 221 { 69 } else
    if k == 222 { 138 } else if k == 223 { 9 } else if k == 224 { 18 } else if k == 225 { 36 } else if k == 226 { 72 } else if k == 227 { 144 } else
    if k == 228 { 61 } else if k == 229 { 122 } else if k == 230 { 244 } else if k == 231 { 245 } else if k == 232 { 247 } else if k == 233 { 243 } else
    if k == 234 { 251 } else if k == 235 { 235 } else if k == 236 { 203 } else if k == 237 { 139 } else if k == 238 { 11 } else if k == 239 { 22 } else
    if k == 240 { 44 } else if k == 241 { 88 } else if k == 242 { 176 } else if k == 243 { 125 } else if k == 244 { 250 } else if k == 245 { 233 } else
    if k == 246 { 207 } else if k == 247 { 131 } else if k == 248 { 27 } else if k == 249 { 54 } else if k == 250 { 108 } else if k == 251 { 216 } else
    if k == 252 { 173 } else if k == 253 { 71 } else if k == 254 { 142 } else { 1 }
}

/// The table steps by alpha, holds no zero, and is one only at its ends.
#[verifier::rlimit(100)]
proof fn lemma_alpha_table_steps()
    by (bit_vector)
    ensures
        forall|k: u8| k < 255 ==> #[trigger] xtime(alpha_table(k)) == alpha_table((k + 1) as u8),
        forall|k: u8| 1 <= k < 255 ==> #[trigger] alpha_table(k) != 1,
        forall|k: u8| #[trigger] alpha_table(k) != 0,
        alpha_table(0) == 1,
{
}

/// Multiplying by alpha = 2 is `xtime`.
proof fn lemma_mul_two(a: u8)
    ensures
        gf_mul_spec(a, 2) == xtime(a),
{
    lemma_gf_mul_closed(a, 2);
    assert(gf_mul_closed(a, 2) == xtime(a)) by (bit_vector);
}

/// The powers of alpha up to the 255th are the table's entries.
proof fn lemma_alpha_pow_table(k: nat)
    requires
        k <= 255,
    ensures
        gf_pow_spec(2, k) == alpha_table(k as u8),
    decreases k,
{
    lemma_alpha_table_steps();
    if k > 0 {
        let j = (k - 1) as nat;
        lemma_alpha_pow_table(j);
        lemma_mul_two(gf_pow_spec(2, j));
        assert(xtime(alpha_table(j as u8)) == alpha_table((j as u8 + 1) as u8));
        assert((j as u8 + 1) as u8 == k as u8);
    }
}

/// alpha = 2 generates the multiplicative group: `alpha^1` to `alpha^254`
/// differ from one, `alpha^255` is one, and no power is zero.
pub proof fn lemma_alpha_order()
    ensures
        forall|j: nat| 1 <= j < 255 ==> #[trigger] gf_pow_spec(2, j) != 1,
        gf_pow_spec(2, 255) == 1,
        forall|j: nat| j <= 255 ==> #[trigger] gf_pow_spec(2, j) != 0,
{
    lemma_alpha_table_steps();
    assert forall|j: nat| 1 <= j < 255 implies #[trigger] gf_pow_spec(2, j) != 1 by {
        lemma_alpha_pow_table(j);
    }
    assert forall|j: nat| j <= 255 implies #[trigger] gf_pow_spec(2, j) != 0 by {
        lemma_alpha_pow_table(j);
    }
    lemma_alpha_pow_table(255);
}

/// Powers add their exponents.
pub proof fn lemma_pow_add(a: u8, m: nat, n: nat)
    ensures
        gf_pow_spec(a, m + n) == gf_mul_spec(gf_pow_spec(a, m), gf_pow_spec(a, n)),
    decreases n,
{
    if n == 0 {
        lemma_gf_mul_one(gf_pow_spec(a, m));
    } else {
        let n1 = (n - 1) as nat;
        lemma_pow_add(a, m, n1);
        assert(gf_pow_spec(a, m + n) == gf_mul_spec(gf_pow_spec(a, (m + n1) as nat), a));
        lemma_gf_mul_associative(gf_pow_spec(a, m), gf_pow_spec(a, n1), a);
    }
}

/// Four factors can be regrouped in pairs.
proof fn lemma_mul_swap(w: u8, x: u8, y: u8, z: u8)
    ensures
        gf_mul_spec(gf_mul_spec(w, x), gf_mul_spec(y, z)) == gf_mul_spec(gf_mul_spec(w, y), gf_mul_spec(x, z)),
{
    lemma_gf_mul_associative(w, x, gf_mul_spec(y, z));
    lemma_gf_mul_associative(x, y, z);
    lemma_gf_mul_commutative(x, y);
    lemma_gf_mul_associative(y, x, z);
    lemma_gf_mul_associative(w, y, gf_mul_spec(x, z));
}

/// The power of a product is the product of the powers.
pub proof fn lemma_pow_of_product(a: u8, b: u8, d: nat)
    ensures
        gf_pow_spec(gf_mul_spec(a, b), d) == gf_mul_spec(gf_pow_spec(a, d), gf_pow_spec(b, d)),
    decreases d,
{
    if d == 0 {
        lemma_gf_mul_one(1);
    } else {
        let d1 = (d - 1) as nat;
        lemma_pow_of_product(a, b, d1);
        lemma_mul_swap(gf_pow_spec(a, d1), gf_pow_spec(b, d1), a, b);
    }
}

/// One to any power is one.
pub proof fn lemma_pow_one(d: nat)
    ensures
        gf_pow_spec(1, d) == 1,
    decreases d,
{
    if d > 0 {
        lemma_pow_one((d - 1) as nat);
        lemma_gf_mul_one(1);
    }
}

/// A product of nonzero elements is nonzero.
pub proof fn lemma_mul_nonzero(a: u8, b: u8)
    requires
        a != 0,
        b != 0,
    ensures
        gf_mul_spec(a, b) != 0,
{
    let ia = gf_inv_spec(a);
    lemma_gf_inv_is_inverse(a);
    lemma_gf_mul_commutative(a, ia);
    lemma_gf_mul_associative(ia, a, b);
    lemma_gf_mul_one(b);
    lemma_gf_mul_zero(ia);
}

/// Multiplying by a nonzero element and then by its inverse gives back
/// what was multiplied.
pub proof fn lemma_mul_then_inv(e: u8, y: u8)
    requires
        e != 0,
    ensures
        gf_mul_spec(gf_mul_spec(e, y), gf_inv_spec(e)) == y,
{
    let ie = gf_inv_spec(e);
    lemma_gf_inv_is_inverse(e);
    lemma_gf_mul_commutative(e, y);
    lemma_gf_mul_associative(y, e, ie);
    lemma_gf_mul_one(y);
}

} // verus!
