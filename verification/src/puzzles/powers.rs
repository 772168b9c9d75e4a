//! Powers modulo a number, by squaring.

use vstd::prelude::*;
use vstd::arithmetic::div_mod::{lemma_mul_mod_noop_left, lemma_mul_mod_noop_right};
use vstd::arithmetic::power::{
    lemma_pow0, lemma_pow1, lemma_pow_adds, lemma_pow_mod_noop, lemma_pow_multiplies,
    lemma_square_is_pow2, pow,
};

verus! {

/// One round of squaring keeps the value of `result * a^b` modulo `m`:
/// the exponent is halved, the base squared, and the result takes one
/// factor of the old base when the exponent was odd.
pub proof fn lemma_square_step(result: int, a: int, b: nat, m: int)
    requires
        m > 0,
        b > 0,
    ensures
        ((if b % 2 == 1 {
            (result * a) % m
        } else {
            result
        }) * pow((a * a) % m, b / 2)) % m == (result * pow(a, b)) % m,
{
    let q = b / 2;
    let a2 = (a * a) % m;
    lemma_pow_mod_noop(a * a, q, m);
    lemma_square_is_pow2(a);
    lemma_pow_multiplies(a, 2, q);
    assert(pow(a * a, q) == pow(a, 2 * q));
    let tail = pow(a, 2 * q);
    assert(pow(a2, q) % m == tail % m);
    if b % 2 == 1 {
        let r2 = (result * a) % m;
        lemma_pow_adds(a, 1, 2 * q);
        lemma_pow1(a);
        assert(pow(a, b) == a * tail);
        lemma_mul_mod_noop_left(result * a, pow(a2, q), m);
        lemma_mul_mod_noop_right(result * a, pow(a2, q), m);
        lemma_mul_mod_noop_right(result * a, tail, m);
        assert((result * a) * tail == result * (a * tail)) by (nonlinear_arith);
    } else {
        assert(pow(a, b) == tail);
        lemma_mul_mod_noop_right(result, pow(a2, q), m);
        lemma_mul_mod_noop_right(result, tail, m);
    }
}

/// The product of `x` and `y` modulo `m`, computed without overflow.
pub fn mul_mod(x: u64, y: u64, m: u64) -> (r: u64)
    requires
        m > 0,
    ensures
        r == (x * y) % (m as int),
        r < m,
{
    assert(x * y <= 0xffff_ffff_ffff_ffff * 0xffff_ffff_ffff_ffff) by (nonlinear_arith)
        requires
            x <= 0xffff_ffff_ffff_ffff,
            y <= 0xffff_ffff_ffff_ffff,
    ;
    (((x as u128) * (y as u128)) % (m as u128)) as u64
}

/// `n` to the power `b` modulo `m`.
pub fn pow_mod(n: u64, b: u64, m: u64) -> (r: u64)
    requires
        m > 0,
    ensures
        r == pow(n as int, b as nat) % (m as int),
{
    if b == 0 {
        proof {
            lemma_pow0(n as int);
        }
        return 1 % m;
    }
    let mut a: u64 = n;
    let mut left: u64 = b;
    let mut result: u64 = 1;
    while left > 0
        invariant
            m > 0,
            (result * pow(a as int, left as nat)) % (m as int) == pow(n as int, b as nat) % (
            m as int),
            result < m || (result == 1 && left > 0) || b == 0,
            b == 0 ==> result == 1,
            left <= b,
        decreases left,
    {
        proof {
            lemma_square_step(result as int, a as int, left as nat, m as int);
        }
        if left & 1 != 0 {
            assert(left & 1 != 0 ==> left % 2 == 1) by (bit_vector);
            result = mul_mod(result, a, m);
        } else {
            assert(left & 1 == 0 ==> left % 2 == 0) by (bit_vector);
        }
        a = mul_mod(a, a, m);
        assert(left >> 1 == left / 2) by (bit_vector);
        assert(left > 0 && left >> 1 == 0 ==> left & 1 != 0) by (bit_vector);
        left = left >> 1;
    }
    proof {
        lemma_pow0(a as int);
        assert(result * pow(a as int, 0) == result) by (nonlinear_arith)
            requires
                pow(a as int, 0) == 1,
        ;
        if b > 0 {
            vstd::arithmetic::div_mod::lemma_small_mod(result as nat, m as nat);
        }
    }
    result
}

} // verus!
