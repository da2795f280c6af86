//! Arithmetic of the field GF(2^8) with the reduction polynomial
//! x^8 + x^4 + x^3 + x^2 + 1 (0x11D), as a mathematical model, and the laws
//! of a field proved of it.
//!
//! Elements are bytes. Addition and subtraction are both bitwise XOR. This
//! is the field in which the `shamirs` crate computes, so shares made and
//! combined through it are valued in this arithmetic.

use vstd::prelude::*;

verus! {

/// Sum (and difference) of two field elements.
pub open spec fn gf_add(a: u8, b: u8) -> u8 {
    a ^ b
}

/// The element times x: a left shift, reduced by the field polynomial.
pub open spec fn gf_double(a: u8) -> u8 {
    if a & 0x80 == 0 {
        a << 1
    } else {
        (a << 1) ^ 0x1d
    }
}

/// `a` if bit `i` of `b` is set, zero otherwise.
pub open spec fn gf_pick(b: u8, i: u8, a: u8) -> u8 {
    if (b >> i) & 1 == 0 {
        0
    } else {
        a
    }
}

/// The sum of the addends that the bits of `b` select among `a0` to `a7`.
pub open spec fn gf_mul_sum(
    b: u8,
    a0: u8,
    a1: u8,
    a2: u8,
    a3: u8,
    a4: u8,
    a5: u8,
    a6: u8,
    a7: u8,
) -> u8 {
    gf_pick(b, 0, a0) ^ gf_pick(b, 1, a1) ^ gf_pick(b, 2, a2) ^ gf_pick(b, 3, a3) ^ gf_pick(
        b,
        4,
        a4,
    ) ^ gf_pick(b, 5, a5) ^ gf_pick(b, 6, a6) ^ gf_pick(b, 7, a7)
}

/// Product of two field elements: shift-and-add over the eight bits of `b`,
/// with `a` doubled once more for each bit.
#[verifier::opaque]
pub open spec fn gf_mul(a: u8, b: u8) -> u8 {
    let a1: u8 = gf_double(a);
    let a2: u8 = gf_double(a1);
    let a3: u8 = gf_double(a2);
    let a4: u8 = gf_double(a3);
    let a5: u8 = gf_double(a4);
    let a6: u8 = gf_double(a5);
    let a7: u8 = gf_double(a6);
    gf_mul_sum(b, a, a1, a2, a3, a4, a5, a6, a7)
}

/// The 254th power of `b`, which is its inverse when `b` is not zero.
#[verifier::opaque]
pub open spec fn gf_inv(b: u8) -> u8 {
    let b2: u8 = gf_mul(b, b);
    let b4: u8 = gf_mul(b2, b2);
    let b8: u8 = gf_mul(b4, b4);
    let b16: u8 = gf_mul(b8, b8);
    let b32: u8 = gf_mul(b16, b16);
    let b64: u8 = gf_mul(b32, b32);
    let b128: u8 = gf_mul(b64, b64);
    gf_mul(gf_mul(gf_mul(b2, b4), gf_mul(b8, b16)), gf_mul(gf_mul(b32, b64), b128))
}

/// Quotient of two field elements; a zero numerator gives zero.
pub open spec fn gf_div(a: u8, b: u8) -> u8 {
    if a == 0 {
        0
    } else {
        gf_mul(a, gf_inv(b))
    }
}

/// Addition is commutative and associative, zero is neutral, and every
/// element is its own negative.
pub proof fn lemma_add_laws(a: u8, b: u8, c: u8)
    by (bit_vector)
    ensures
        gf_add(a, b) == gf_add(b, a),
        gf_add(gf_add(a, b), c) == gf_add(a, gf_add(b, c)),
        gf_add(a, 0) == a,
        gf_add(0, a) == a,
        gf_add(a, a) == 0,
        gf_add(a, b) == 0 <==> a == b,
{
}

/// Zero annihilates and one is neutral in a product.
pub proof fn lemma_mul_zero_one(a: u8)
    ensures
        gf_mul(a, 0) == 0,
        gf_mul(0, a) == 0,
        gf_mul(a, 1) == a,
        gf_mul(1, a) == a,
{
    reveal(gf_mul);
    let a1: u8 = gf_double(a);
    let a2: u8 = gf_double(a1);
    let a3: u8 = gf_double(a2);
    let a4: u8 = gf_double(a3);
    let a5: u8 = gf_double(a4);
    let a6: u8 = gf_double(a5);
    let a7: u8 = gf_double(a6);
    assert(gf_mul_sum(0, a, a1, a2, a3, a4, a5, a6, a7) == 0 && gf_mul_sum(
        1,
        a,
        a1,
        a2,
        a3,
        a4,
        a5,
        a6,
        a7,
    ) == a) by (bit_vector);
    lemma_mul_commutative(a, 0);
    lemma_mul_commutative(a, 1);
}

/// Multiplication is commutative.
#[verifier::rlimit(100)]
pub proof fn lemma_mul_commutative(a: u8, b: u8)
    ensures
        gf_mul(a, b) == gf_mul(b, a),
{
    reveal(gf_mul);
    let a1: u8 = gf_double(a);
    let a2: u8 = gf_double(a1);
    let a3: u8 = gf_double(a2);
    let a4: u8 = gf_double(a3);
    let a5: u8 = gf_double(a4);
    let a6: u8 = gf_double(a5);
    let a7: u8 = gf_double(a6);
    let b1: u8 = gf_double(b);
    let b2: u8 = gf_double(b1);
    let b3: u8 = gf_double(b2);
    let b4: u8 = gf_double(b3);
    let b5: u8 = gf_double(b4);
    let b6: u8 = gf_double(b5);
    let b7: u8 = gf_double(b6);
    let p: u8 = gf_mul(a, b);
    let q: u8 = gf_mul(b, a);
    assert(p == q) by (bit_vector)
        requires
            a1 == gf_double(a),
            a2 == gf_double(a1),
            a3 == gf_double(a2),
            a4 == gf_double(a3),
            a5 == gf_double(a4),
            a6 == gf_double(a5),
            a7 == gf_double(a6),
            b1 == gf_double(b),
            b2 == gf_double(b1),
            b3 == gf_double(b2),
            b4 == gf_double(b3),
            b5 == gf_double(b4),
            b6 == gf_double(b5),
            b7 == gf_double(b6),
            p == gf_mul_sum(b, a, a1, a2, a3, a4, a5, a6, a7),
            q == gf_mul_sum(a, b, b1, b2, b3, b4, b5, b6, b7),
    ;
}

/// Multiplication distributes over addition in its second argument.
pub proof fn lemma_mul_distributes(a: u8, b: u8, c: u8)
    ensures
        gf_mul(a, gf_add(b, c)) == gf_add(gf_mul(a, b), gf_mul(a, c)),
{
    reveal(gf_mul);
    let a1: u8 = gf_double(a);
    let a2: u8 = gf_double(a1);
    let a3: u8 = gf_double(a2);
    let a4: u8 = gf_double(a3);
    let a5: u8 = gf_double(a4);
    let a6: u8 = gf_double(a5);
    let a7: u8 = gf_double(a6);
    let d: u8 = gf_add(b, c);
    let p: u8 = gf_mul(a, d);
    let q: u8 = gf_mul(a, b);
    let r: u8 = gf_mul(a, c);
    assert(p == q ^ r) by (bit_vector)
        requires
            d == b ^ c,
            p == gf_mul_sum(d, a, a1, a2, a3, a4, a5, a6, a7),
            q == gf_mul_sum(b, a, a1, a2, a3, a4, a5, a6, a7),
            r == gf_mul_sum(c, a, a1, a2, a3, a4, a5, a6, a7),
    ;
}

/// Doubling is linear.
pub proof fn lemma_double_linear(x: u8, y: u8)
    by (bit_vector)
    ensures
        gf_double(x ^ y) == gf_double(x) ^ gf_double(y),
{
}

/// Doubling passes through the selection of an addend.
pub proof fn lemma_double_pick(b: u8, i: u8, x: u8)
    by (bit_vector)
    ensures
        gf_double(gf_pick(b, i, x)) == gf_pick(b, i, gf_double(x)),
{
}

/// Doubling the first factor doubles the product.
pub proof fn lemma_mul_double(a: u8, b: u8)
    ensures
        gf_mul(gf_double(a), b) == gf_double(gf_mul(a, b)),
{
    reveal(gf_mul);
    let a1: u8 = gf_double(a);
    let a2: u8 = gf_double(a1);
    let a3: u8 = gf_double(a2);
    let a4: u8 = gf_double(a3);
    let a5: u8 = gf_double(a4);
    let a6: u8 = gf_double(a5);
    let a7: u8 = gf_double(a6);
    let t0: u8 = gf_pick(b, 0, a);
    let t1: u8 = gf_pick(b, 1, a1);
    let t2: u8 = gf_pick(b, 2, a2);
    let t3: u8 = gf_pick(b, 3, a3);
    let t4: u8 = gf_pick(b, 4, a4);
    let t5: u8 = gf_pick(b, 5, a5);
    let t6: u8 = gf_pick(b, 6, a6);
    let t7: u8 = gf_pick(b, 7, a7);
    lemma_double_pick(b, 0, a);
    lemma_double_pick(b, 1, a1);
    lemma_double_pick(b, 2, a2);
    lemma_double_pick(b, 3, a3);
    lemma_double_pick(b, 4, a4);
    lemma_double_pick(b, 5, a5);
    lemma_double_pick(b, 6, a6);
    lemma_double_pick(b, 7, a7);
    lemma_double_linear(t0, t1);
    lemma_double_linear(t0 ^ t1, t2);
    lemma_double_linear(t0 ^ t1 ^ t2, t3);
    lemma_double_linear(t0 ^ t1 ^ t2 ^ t3, t4);
    lemma_double_linear(t0 ^ t1 ^ t2 ^ t3 ^ t4, t5);
    lemma_double_linear(t0 ^ t1 ^ t2 ^ t3 ^ t4 ^ t5, t6);
    lemma_double_linear(t0 ^ t1 ^ t2 ^ t3 ^ t4 ^ t5 ^ t6, t7);
}

/// `a` doubled `j` times.
pub open spec fn gf_double_times(a: u8, j: nat) -> u8
    decreases j,
{
    if j == 0 {
        a
    } else {
        gf_double(gf_double_times(a, (j - 1) as nat))
    }
}

/// Doubling the second factor `j` times doubles the product `j` times.
pub proof fn lemma_mul_double_times(a: u8, b: u8, j: nat)
    ensures
        gf_mul(a, gf_double_times(b, j)) == gf_double_times(gf_mul(a, b), j),
    decreases j,
{
    if j > 0 {
        let bj: u8 = gf_double_times(b, (j - 1) as nat);
        lemma_mul_double_times(a, b, (j - 1) as nat);
        lemma_mul_commutative(a, gf_double(bj));
        lemma_mul_double(bj, a);
        lemma_mul_commutative(bj, a);
    }
}

/// Selecting an addend passes through a product.
pub proof fn lemma_mul_pick(a: u8, c: u8, j: u8, y: u8)
    ensures
        gf_mul(a, gf_pick(c, j, y)) == gf_pick(c, j, gf_mul(a, y)),
{
    lemma_mul_zero_one(a);
}

/// Multiplication is associative.
pub proof fn lemma_mul_associative(a: u8, b: u8, c: u8)
    ensures
        gf_mul(gf_mul(a, b), c) == gf_mul(a, gf_mul(b, c)),
{
    reveal(gf_mul);
    let m: u8 = gf_mul(a, b);
    reveal_with_fuel(gf_double_times, 8);
    let t0: u8 = gf_pick(c, 0, gf_double_times(b, 0));
    let t1: u8 = gf_pick(c, 1, gf_double_times(b, 1));
    let t2: u8 = gf_pick(c, 2, gf_double_times(b, 2));
    let t3: u8 = gf_pick(c, 3, gf_double_times(b, 3));
    let t4: u8 = gf_pick(c, 4, gf_double_times(b, 4));
    let t5: u8 = gf_pick(c, 5, gf_double_times(b, 5));
    let t6: u8 = gf_pick(c, 6, gf_double_times(b, 6));
    let t7: u8 = gf_pick(c, 7, gf_double_times(b, 7));
    assert(gf_mul(b, c) == t0 ^ t1 ^ t2 ^ t3 ^ t4 ^ t5 ^ t6 ^ t7);
    lemma_mul_distributes(a, t0 ^ t1 ^ t2 ^ t3 ^ t4 ^ t5 ^ t6, t7);
    lemma_mul_distributes(a, t0 ^ t1 ^ t2 ^ t3 ^ t4 ^ t5, t6);
    lemma_mul_distributes(a, t0 ^ t1 ^ t2 ^ t3 ^ t4, t5);
    lemma_mul_distributes(a, t0 ^ t1 ^ t2 ^ t3, t4);
    lemma_mul_distributes(a, t0 ^ t1 ^ t2, t3);
    lemma_mul_distributes(a, t0 ^ t1, t2);
    lemma_mul_distributes(a, t0, t1);
    lemma_mul_pick(a, c, 0, gf_double_times(b, 0));
    lemma_mul_pick(a, c, 1, gf_double_times(b, 1));
    lemma_mul_pick(a, c, 2, gf_double_times(b, 2));
    lemma_mul_pick(a, c, 3, gf_double_times(b, 3));
    lemma_mul_pick(a, c, 4, gf_double_times(b, 4));
    lemma_mul_pick(a, c, 5, gf_double_times(b, 5));
    lemma_mul_pick(a, c, 6, gf_double_times(b, 6));
    lemma_mul_pick(a, c, 7, gf_double_times(b, 7));
    lemma_mul_double_times(a, b, 0);
    lemma_mul_double_times(a, b, 1);
    lemma_mul_double_times(a, b, 2);
    lemma_mul_double_times(a, b, 3);
    lemma_mul_double_times(a, b, 4);
    lemma_mul_double_times(a, b, 5);
    lemma_mul_double_times(a, b, 6);
    lemma_mul_double_times(a, b, 7);
    assert(gf_mul(m, c) == gf_pick(c, 0, gf_double_times(m, 0)) ^ gf_pick(
        c,
        1,
        gf_double_times(m, 1),
    ) ^ gf_pick(c, 2, gf_double_times(m, 2)) ^ gf_pick(c, 3, gf_double_times(m, 3)) ^ gf_pick(
        c,
        4,
        gf_double_times(m, 4),
    ) ^ gf_pick(c, 5, gf_double_times(m, 5)) ^ gf_pick(c, 6, gf_double_times(m, 6)) ^ gf_pick(
        c,
        7,
        gf_double_times(m, 7),
    ));
}

/// A non-zero element times its 254th power is one.
#[verifier::rlimit(100)]
pub proof fn lemma_mul_inverse(a: u8)
    requires
        a != 0,
    ensures
        gf_mul(a, gf_inv(a)) == 1,
{
    reveal(gf_mul);
    reveal(gf_inv);
    let b2_1: u8 = gf_double(a);
    let b2_2: u8 = gf_double(b2_1);
    let b2_3: u8 = gf_double(b2_2);
    let b2_4: u8 = gf_double(b2_3);
    let b2_5: u8 = gf_double(b2_4);
    let b2_6: u8 = gf_double(b2_5);
    let b2_7: u8 = gf_double(b2_6);
    let b2: u8 = gf_mul(a, a);
    let b4_1: u8 = gf_double(b2);
    let b4_2: u8 = gf_double(b4_1);
    let b4_3: u8 = gf_double(b4_2);
    let b4_4: u8 = gf_double(b4_3);
    let b4_5: u8 = gf_double(b4_4);
    let b4_6: u8 = gf_double(b4_5);
    let b4_7: u8 = gf_double(b4_6);
    let b4: u8 = gf_mul(b2, b2);
    let b8_1: u8 = gf_double(b4);
    let b8_2: u8 = gf_double(b8_1);
    let b8_3: u8 = gf_double(b8_2);
    let b8_4: u8 = gf_double(b8_3);
    let b8_5: u8 = gf_double(b8_4);
    let b8_6: u8 = gf_double(b8_5);
    let b8_7: u8 = gf_double(b8_6);
    let b8: u8 = gf_mul(b4, b4);
    let b16_1: u8 = gf_double(b8);
    let b16_2: u8 = gf_double(b16_1);
    let b16_3: u8 = gf_double(b16_2);
    let b16_4: u8 = gf_double(b16_3);
    let b16_5: u8 = gf_double(b16_4);
    let b16_6: u8 = gf_double(b16_5);
    let b16_7: u8 = gf_double(b16_6);
    let b16: u8 = gf_mul(b8, b8);
    let b32_1: u8 = gf_double(b16);
    let b32_2: u8 = gf_double(b32_1);
    let b32_3: u8 = gf_double(b32_2);
    let b32_4: u8 = gf_double(b32_3);
    let b32_5: u8 = gf_double(b32_4);
    let b32_6: u8 = gf_double(b32_5);
    let b32_7: u8 = gf_double(b32_6);
    let b32: u8 = gf_mul(b16, b16);
    let b64_1: u8 = gf_double(b32);
    let b64_2: u8 = gf_double(b64_1);
    let b64_3: u8 = gf_double(b64_2);
    let b64_4: u8 = gf_double(b64_3);
    let b64_5: u8 = gf_double(b64_4);
    let b64_6: u8 = gf_double(b64_5);
    let b64_7: u8 = gf_double(b64_6);
    let b64: u8 = gf_mul(b32, b32);
    let b128_1: u8 = gf_double(b64);
    let b128_2: u8 = gf_double(b128_1);
    let b128_3: u8 = gf_double(b128_2);
    let b128_4: u8 = gf_double(b128_3);
    let b128_5: u8 = gf_double(b128_4);
    let b128_6: u8 = gf_double(b128_5);
    let b128_7: u8 = gf_double(b128_6);
    let b128: u8 = gf_mul(b64, b64);
    let c6_1: u8 = gf_double(b2);
    let c6_2: u8 = gf_double(c6_1);
    let c6_3: u8 = gf_double(c6_2);
    let c6_4: u8 = gf_double(c6_3);
    let c6_5: u8 = gf_double(c6_4);
    let c6_6: u8 = gf_double(c6_5);
    let c6_7: u8 = gf_double(c6_6);
    let c6: u8 = gf_mul(b2, b4);
    let c24_1: u8 = gf_double(b8);
    let c24_2: u8 = gf_double(c24_1);
    let c24_3: u8 = gf_double(c24_2);
    let c24_4: u8 = gf_double(c24_3);
    let c24_5: u8 = gf_double(c24_4);
    let c24_6: u8 = gf_double(c24_5);
    let c24_7: u8 = gf_double(c24_6);
    let c24: u8 = gf_mul(b8, b16);
    let c96_1: u8 = gf_double(b32);
    let c96_2: u8 = gf_double(c96_1);
    let c96_3: u8 = gf_double(c96_2);
    let c96_4: u8 = gf_double(c96_3);
    let c96_5: u8 = gf_double(c96_4);
    let c96_6: u8 = gf_double(c96_5);
    let c96_7: u8 = gf_double(c96_6);
    let c96: u8 = gf_mul(b32, b64);
    let c30_1: u8 = gf_double(c6);
    let c30_2: u8 = gf_double(c30_1);
    let c30_3: u8 = gf_double(c30_2);
    let c30_4: u8 = gf_double(c30_3);
    let c30_5: u8 = gf_double(c30_4);
    let c30_6: u8 = gf_double(c30_5);
    let c30_7: u8 = gf_double(c30_6);
    let c30: u8 = gf_mul(c6, c24);
    let c224_1: u8 = gf_double(c96);
    let c224_2: u8 = gf_double(c224_1);
    let c224_3: u8 = gf_double(c224_2);
    let c224_4: u8 = gf_double(c224_3);
    let c224_5: u8 = gf_double(c224_4);
    let c224_6: u8 = gf_double(c224_5);
    let c224_7: u8 = gf_double(c224_6);
    let c224: u8 = gf_mul(c96, b128);
    let c254_1: u8 = gf_double(c30);
    let c254_2: u8 = gf_double(c254_1);
    let c254_3: u8 = gf_double(c254_2);
    let c254_4: u8 = gf_double(c254_3);
    let c254_5: u8 = gf_double(c254_4);
    let c254_6: u8 = gf_double(c254_5);
    let c254_7: u8 = gf_double(c254_6);
    let c254: u8 = gf_mul(c30, c224);
    let one_1: u8 = gf_double(a);
    let one_2: u8 = gf_double(one_1);
    let one_3: u8 = gf_double(one_2);
    let one_4: u8 = gf_double(one_3);
    let one_5: u8 = gf_double(one_4);
    let one_6: u8 = gf_double(one_5);
    let one_7: u8 = gf_double(one_6);
    let one: u8 = gf_mul(a, c254);
    assert(c254 == gf_inv(a));
    assert(one == 1) by (bit_vector)
        requires
            a != 0,
            b2_1 == gf_double(a),
            b2_2 == gf_double(b2_1),
            b2_3 == gf_double(b2_2),
            b2_4 == gf_double(b2_3),
            b2_5 == gf_double(b2_4),
            b2_6 == gf_double(b2_5),
            b2_7 == gf_double(b2_6),
            b2 == gf_mul_sum(a, a, b2_1, b2_2, b2_3, b2_4, b2_5, b2_6, b2_7),
            b4_1 == gf_double(b2),
            b4_2 == gf_double(b4_1),
            b4_3 == gf_double(b4_2),
            b4_4 == gf_double(b4_3),
            b4_5 == gf_double(b4_4),
            b4_6 == gf_double(b4_5),
            b4_7 == gf_double(b4_6),
            b4 == gf_mul_sum(b2, b2, b4_1, b4_2, b4_3, b4_4, b4_5, b4_6, b4_7),
            b8_1 == gf_double(b4),
            b8_2 == gf_double(b8_1),
            b8_3 == gf_double(b8_2),
            b8_4 == gf_double(b8_3),
            b8_5 == gf_double(b8_4),
            b8_6 == gf_double(b8_5),
            b8_7 == gf_double(b8_6),
            b8 == gf_mul_sum(b4, b4, b8_1, b8_2, b8_3, b8_4, b8_5, b8_6, b8_7),
            b16_1 == gf_double(b8),
            b16_2 == gf_double(b16_1),
            b16_3 == gf_double(b16_2),
            b16_4 == gf_double(b16_3),
            b16_5 == gf_double(b16_4),
            b16_6 == gf_double(b16_5),
            b16_7 == gf_double(b16_6),
            b16 == gf_mul_sum(b8, b8, b16_1, b16_2, b16_3, b16_4, b16_5, b16_6, b16_7),
            b32_1 == gf_double(b16),
            b32_2 == gf_double(b32_1),
            b32_3 == gf_double(b32_2),
            b32_4 == gf_double(b32_3),
            b32_5 == gf_double(b32_4),
            b32_6 == gf_double(b32_5),
            b32_7 == gf_double(b32_6),
            b32 == gf_mul_sum(b16, b16, b32_1, b32_2, b32_3, b32_4, b32_5, b32_6, b32_7),
            b64_1 == gf_double(b32),
            b64_2 == gf_double(b64_1),
            b64_3 == gf_double(b64_2),
            b64_4 == gf_double(b64_3),
            b64_5 == gf_double(b64_4),
            b64_6 == gf_double(b64_5),
            b64_7 == gf_double(b64_6),
            b64 == gf_mul_sum(b32, b32, b64_1, b64_2, b64_3, b64_4, b64_5, b64_6, b64_7),
            b128_1 == gf_double(b64),
            b128_2 == gf_double(b128_1),
            b128_3 == gf_double(b128_2),
            b128_4 == gf_double(b128_3),
            b128_5 == gf_double(b128_4),
            b128_6 == gf_double(b128_5),
            b128_7 == gf_double(b128_6),
            b128 == gf_mul_sum(b64, b64, b128_1, b128_2, b128_3, b128_4, b128_5, b128_6, b128_7),
            c6_1 == gf_double(b2),
            c6_2 == gf_double(c6_1),
            c6_3 == gf_double(c6_2),
            c6_4 == gf_double(c6_3),
            c6_5 == gf_double(c6_4),
            c6_6 == gf_double(c6_5),
            c6_7 == gf_double(c6_6),
            c6 == gf_mul_sum(b4, b2, c6_1, c6_2, c6_3, c6_4, c6_5, c6_6, c6_7),
            c24_1 == gf_double(b8),
            c24_2 == gf_double(c24_1),
            c24_3 == gf_double(c24_2),
            c24_4 == gf_double(c24_3),
            c24_5 == gf_double(c24_4),
            c24_6 == gf_double(c24_5),
            c24_7 == gf_double(c24_6),
            c24 == gf_mul_sum(b16, b8, c24_1, c24_2, c24_3, c24_4, c24_5, c24_6, c24_7),
            c96_1 == gf_double(b32),
            c96_2 == gf_double(c96_1),
            c96_3 == gf_double(c96_2),
            c96_4 == gf_double(c96_3),
            c96_5 == gf_double(c96_4),
            c96_6 == gf_double(c96_5),
            c96_7 == gf_double(c96_6),
            c96 == gf_mul_sum(b64, b32, c96_1, c96_2, c96_3, c96_4, c96_5, c96_6, c96_7),
            c30_1 == gf_double(c6),
            c30_2 == gf_double(c30_1),
            c30_3 == gf_double(c30_2),
            c30_4 == gf_double(c30_3),
            c30_5 == gf_double(c30_4),
            c30_6 == gf_double(c30_5),
            c30_7 == gf_double(c30_6),
            c30 == gf_mul_sum(c24, c6, c30_1, c30_2, c30_3, c30_4, c30_5, c30_6, c30_7),
            c224_1 == gf_double(c96),
            c224_2 == gf_double(c224_1),
            c224_3 == gf_double(c224_2),
            c224_4 == gf_double(c224_3),
            c224_5 == gf_double(c224_4),
            c224_6 == gf_double(c224_5),
            c224_7 == gf_double(c224_6),
            c224 == gf_mul_sum(b128, c96, c224_1, c224_2, c224_3, c224_4, c224_5, c224_6, c224_7),
            c254_1 == gf_double(c30),
            c254_2 == gf_double(c254_1),
            c254_3 == gf_double(c254_2),
            c254_4 == gf_double(c254_3),
            c254_5 == gf_double(c254_4),
            c254_6 == gf_double(c254_5),
            c254_7 == gf_double(c254_6),
            c254 == gf_mul_sum(c224, c30, c254_1, c254_2, c254_3, c254_4, c254_5, c254_6, c254_7),
            one_1 == gf_double(a),
            one_2 == gf_double(one_1),
            one_3 == gf_double(one_2),
            one_4 == gf_double(one_3),
            one_5 == gf_double(one_4),
            one_6 == gf_double(one_5),
            one_7 == gf_double(one_6),
            one == gf_mul_sum(c254, a, one_1, one_2, one_3, one_4, one_5, one_6, one_7),
    ;
}

/// Multiplication distributes over addition in its first argument.
pub proof fn lemma_mul_distributes_left(a: u8, b: u8, c: u8)
    ensures
        gf_mul(gf_add(a, b), c) == gf_add(gf_mul(a, c), gf_mul(b, c)),
{
    lemma_mul_commutative(gf_add(a, b), c);
    lemma_mul_distributes(c, a, b);
    lemma_mul_commutative(c, a);
    lemma_mul_commutative(c, b);
}

/// A quotient times its non-zero denominator is the numerator.
pub proof fn lemma_div_cancel(x: u8, d: u8)
    requires
        d != 0,
    ensures
        gf_mul(d, gf_div(x, d)) == x,
{
    lemma_mul_zero_one(d);
    lemma_mul_zero_one(x);
    if x != 0 {
        lemma_mul_associative(d, x, gf_inv(d));
        lemma_mul_commutative(d, x);
        lemma_mul_associative(x, d, gf_inv(d));
        lemma_mul_inverse(d);
    }
}

/// A non-zero factor can be cancelled from both sides of an equation.
pub proof fn lemma_mul_cancel(d: u8, s: u8, t: u8)
    requires
        d != 0,
        gf_mul(d, s) == gf_mul(d, t),
    ensures
        s == t,
{
    let e: u8 = gf_inv(d);
    lemma_mul_inverse(d);
    lemma_mul_commutative(d, e);
    lemma_mul_associative(e, d, s);
    lemma_mul_associative(e, d, t);
    lemma_mul_zero_one(s);
    lemma_mul_zero_one(t);
}

/// `u * ((b * f) * g) == (u * f) * (b * g)`.
pub proof fn lemma_mul_regroup(u: u8, b: u8, f: u8, g: u8)
    ensures
        gf_mul(u, gf_mul(gf_mul(b, f), g)) == gf_mul(gf_mul(u, f), gf_mul(b, g)),
        gf_mul(u, gf_mul(gf_mul(b, f), g)) == gf_mul(gf_mul(u, g), gf_mul(b, f)),
{
    lemma_mul_commutative(b, f);
    lemma_mul_associative(f, b, g);
    lemma_mul_associative(u, f, gf_mul(b, g));
    lemma_mul_commutative(gf_mul(b, f), g);
    lemma_mul_associative(u, g, gf_mul(b, f));
}

/// `(a*s1 + b*s2) + (a*u1 + b*u2) == a*(s1 + u1) + b*(s2 + u2)`.
pub proof fn lemma_combine(a: u8, b: u8, s1: u8, s2: u8, u1: u8, u2: u8)
    ensures
        gf_add(
            gf_add(gf_mul(a, s1), gf_mul(b, s2)),
            gf_add(gf_mul(a, u1), gf_mul(b, u2)),
        ) == gf_add(gf_mul(a, gf_add(s1, u1)), gf_mul(b, gf_add(s2, u2))),
{
    lemma_mul_distributes(a, s1, u1);
    lemma_mul_distributes(b, s2, u2);
    let w: u8 = gf_mul(a, s1);
    let x: u8 = gf_mul(b, s2);
    let y: u8 = gf_mul(a, u1);
    let z: u8 = gf_mul(b, u2);
    assert((w ^ x) ^ (y ^ z) == (w ^ y) ^ (x ^ z)) by (bit_vector);
}

} // verus!
