//! Modular arithmetic on machine integers.

use vstd::prelude::*;
use vstd::arithmetic::div_mod::{lemma_mul_mod_noop_general, lemma_small_mod};
use vstd::arithmetic::power::{
    lemma_pow0, lemma_pow_adds, lemma_pow1, lemma_pow_mod_noop, lemma_pow_multiplies,
    lemma_square_is_pow2, pow,
};

verus! {

/// One round of binary exponentiation keeps `res * b^e` unchanged modulo
/// `m`.
proof fn lemma_pow_round(res: int, b: int, e: nat, m: int)
    requires
        m > 0,
        e > 0,
    ensures
        ({
            let r2 = if e % 2 == 1 {
                (res * b) % m
            } else {
                res
            };
            (r2 * pow((b * b) % m, e / 2)) % m == (res * pow(b, e)) % m
        }),
{
    let k = e / 2;
    let b2 = (b * b) % m;
    let sq = pow(b, 2 * k);
    assert(pow(b2, k) % m == sq % m) by {
        lemma_pow_mod_noop(b * b, k, m);
        lemma_square_is_pow2(b);
        lemma_pow_multiplies(b, 2, k);
    }
    if e % 2 == 1 {
        assert(pow(b, e) == b * sq) by {
            lemma_pow_adds(b, 1, 2 * k);
            lemma_pow1(b);
        }
        let r2 = (res * b) % m;
        lemma_mul_mod_noop_general(r2, pow(b2, k), m);
        lemma_mul_mod_noop_general(res * b, sq, m);
        lemma_mul_mod_noop_general(r2, sq, m);
        assert((res * b) * sq == res * (b * sq)) by (nonlinear_arith);
    } else {
        lemma_mul_mod_noop_general(res, pow(b2, k), m);
        lemma_mul_mod_noop_general(res, sq, m);
    }
}

/// Computes `base^exp % modulus` using binary exponentiation.
pub fn pow_mod(base: u64, exp: u64, modulus: u64) -> (res: u64)
    requires
        modulus > 0,
    ensures
        res == pow(base as int, exp as nat) % (modulus as int),
{
    let m: u128 = modulus as u128;
    let mut b: u128 = (base as u128) % m;
    let mut e: u64 = exp;
    let mut res: u128 = 1 % m;
    proof {
        lemma_pow_mod_noop(base as int, exp as nat, m as int);
        lemma_mul_mod_noop_general(1, pow(b as int, e as nat), m as int);
    }
    while e > 0
        invariant
            m == modulus,
            0 < m,
            b < m,
            res < m,
            (res * pow(b as int, e as nat)) % (m as int) == pow(base as int, exp as nat) % (
            m as int),
        decreases e,
    {
        proof {
            lemma_pow_round(res as int, b as int, e as nat, m as int);
            assert(res * b < 0x1_0000_0000_0000_0000 * 0x1_0000_0000_0000_0000)
                by (nonlinear_arith)
                requires
                    res < 0x1_0000_0000_0000_0000,
                    b < 0x1_0000_0000_0000_0000,
            ;
            assert(b * b < 0x1_0000_0000_0000_0000 * 0x1_0000_0000_0000_0000)
                by (nonlinear_arith)
                requires
                    b < 0x1_0000_0000_0000_0000,
            ;
        }
        if e % 2 == 1 {
            res = res * b % m;
        }
        b = b * b % m;
        e = e / 2;
    }
    proof {
        lemma_pow0(b as int);
        lemma_small_mod(res as nat, m as nat);
    }
    res as u64
}

} // verus!
