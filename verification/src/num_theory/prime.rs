//! A primality test for 64-bit numbers.

use vstd::prelude::*;
use vstd::arithmetic::div_mod::lemma_mul_mod_noop_general;
use vstd::arithmetic::power::{lemma_pow_adds, pow};
use vstd::arithmetic::power2::{lemma_pow2_pos, lemma_pow2_unfold, pow2};
use crate::modular::pow_mod;

verus! {

/// The number of times two divides `m`, zero for `m == 0`.
pub open spec fn twos(m: nat) -> nat
    decreases m,
{
    if m == 0 || m % 2 == 1 {
        0
    } else {
        1 + twos(m / 2)
    }
}

/// `m` without its factors two.
pub open spec fn odd_part(m: nat) -> nat
    decreases m,
{
    if m == 0 || m % 2 == 1 {
        m
    } else {
        odd_part(m / 2)
    }
}

/// `n` is a strong probable prime to base `a`: with `n - 1 == d * 2^r` and
/// `d` odd, either `a^d` is `1` modulo `n`, or one of `a^d`, `a^(2d)`,
/// ..., `a^(2^(r - 1) d)` is `-1` modulo `n`.
pub open spec fn strong_probable_prime(n: nat, a: nat) -> bool {
    let d = odd_part((n - 1) as nat);
    let r = twos((n - 1) as nat);
    pow(a as int, d) % (n as int) == 1 || exists|t: nat|
        t < r && #[trigger] pow(a as int, d * pow2(t)) % (n as int) == n - 1
}

/// `n` is a strong probable prime to each of the first bases that are
/// less than `n`.
pub open spec fn passes(n: nat, bases: Seq<u64>) -> bool {
    forall|i: int|
        0 <= i < bases.len() && (forall|j: int| 0 <= j <= i ==> bases[j] < n)
            ==> strong_probable_prime(n, #[trigger] bases[i] as nat)
}

/// The bases that decide primality below `4_759_123_141`.
pub open spec fn small_bases() -> Seq<u64> {
    seq![2u64, 7u64, 61u64]
}

/// The bases that decide primality of every 64-bit number.
pub open spec fn large_bases() -> Seq<u64> {
    seq![2u64, 325u64, 9_375u64, 28_178u64, 450_775u64, 9_780_504u64, 1_795_265_022u64]
}

/// What the test answers: `2` passes, other even numbers and numbers below
/// `2` fail, and an odd number passes if it is a strong probable prime to
/// the bases chosen for its size.  For 64-bit numbers this is known to be
/// primality.
pub open spec fn probable_prime(n: nat) -> bool {
    if n < 2 {
        false
    } else if n == 2 {
        true
    } else if n % 2 == 0 {
        false
    } else if n < 4_759_123_141 {
        passes(n, small_bases())
    } else {
        passes(n, large_bases())
    }
}

/// A number is its odd part times two to the number of its factors two.
pub proof fn lemma_odd_part(m: nat)
    requires
        m >= 1,
    ensures
        m == odd_part(m) * pow2(twos(m)),
        odd_part(m) % 2 == 1,
        1 <= odd_part(m) <= m,
    decreases m,
{
    vstd::arithmetic::power2::lemma2_to64();
    if m % 2 == 0 {
        lemma_odd_part(m / 2);
        lemma_pow2_unfold(twos(m));
        assert(odd_part(m / 2) * (2 * pow2(twos(m / 2))) == 2 * (odd_part(m / 2) * pow2(
            twos(m / 2),
        ))) by (nonlinear_arith);
    } else {
        assert(m * 1 == m) by (nonlinear_arith);
    }
}

/// Squaring modulo `n` doubles the exponent.
pub proof fn lemma_square_step(a: int, e: nat, n: int)
    requires
        n > 0,
    ensures
        ((pow(a, e) % n) * (pow(a, e) % n)) % n == pow(a, 2 * e) % n,
{
    lemma_mul_mod_noop_general(pow(a, e), pow(a, e), n);
    lemma_pow_adds(a, e, e);
}

/// Splits `m >= 1` into its odd part and the number of its factors two.
fn split_twos(m: u64) -> (res: (u64, u32))
    requires
        m >= 1,
    ensures
        res.0 == odd_part(m as nat),
        res.1 == twos(m as nat),
        res.1 < 64,
{
    let mut d = m;
    let mut r: u32 = 0;
    proof {
        vstd::arithmetic::power2::lemma2_to64();
    }
    while d % 2 == 0
        invariant
            d >= 1,
            odd_part(d as nat) == odd_part(m as nat),
            twos(d as nat) + r == twos(m as nat),
            d * pow2(r as nat) == m,
            r < 64,
        decreases d,
    {
        proof {
            lemma_pow2_unfold((r + 1) as nat);
            lemma_pow2_pos(r as nat);
            assert((d as int / 2) * (2 * pow2(r as nat)) == d * pow2(r as nat)) by (nonlinear_arith)
                requires
                    d % 2 == 0,
            ;
            if r >= 63 {
                vstd::arithmetic::power2::lemma2_to64_rest();
                if r > 63 {
                    vstd::arithmetic::power2::lemma_pow2_strictly_increases(63, r as nat);
                }
                assert((d as int / 2) * (2 * pow2(r as nat)) >= 2 * pow2(r as nat))
                    by (nonlinear_arith)
                    requires
                        d as int / 2 >= 1,
                        pow2(r as nat) > 0,
                ;
            }
        }
        d = d / 2;
        r = r + 1;
    }
    (d, r)
}

/// Returns whether `n` is a strong probable prime to base `a`, where
/// `n - 1 == d * 2^r` with `d` odd.
fn strong_test(n: u64, d: u64, r: u32, a: u64) -> (res: bool)
    requires
        n >= 3,
        n % 2 == 1,
        d == odd_part((n - 1) as nat),
        r == twos((n - 1) as nat),
    ensures
        res == strong_probable_prime(n as nat, a as nat),
{
    let mut x = pow_mod(a, d, n);
    proof {
        vstd::arithmetic::power2::lemma2_to64();
        assert(d * 1 == d) by (nonlinear_arith);
    }
    if x == 1 {
        return true;
    }
    if x == n - 1 {
        proof {
            lemma_odd_part((n - 1) as nat);
            assert(r >= 1) by {
                if r == 0 {
                    assert(d * 1 == d) by (nonlinear_arith);
                }
            }
            assert(pow(a as int, d as nat * pow2(0)) % (n as int) == n - 1);
        }
        return true;
    }
    let mut t: u32 = 1;
    while t < r
        invariant
            n >= 3,
            1 <= t,
            d == odd_part((n - 1) as nat),
            r == twos((n - 1) as nat),
            x < n,
            x == pow(a as int, d as nat * pow2((t - 1) as nat)) % (n as int),
            pow(a as int, d as nat) % (n as int) != 1,
            forall|s: nat|
                s < t ==> #[trigger] pow(a as int, d as nat * pow2(s)) % (n as int) != n - 1,
        decreases r - t,
    {
        proof {
            let e = d as nat * pow2((t - 1) as nat);
            lemma_square_step(a as int, e, n as int);
            lemma_pow2_unfold(t as nat);
            assert(2 * (d as nat * pow2((t - 1) as nat)) == d as nat * (2 * pow2((t - 1) as nat)))
                by (nonlinear_arith);
            assert(x * x < 0x1_0000_0000_0000_0000 * 0x1_0000_0000_0000_0000)
                by (nonlinear_arith)
                requires
                    x < 0x1_0000_0000_0000_0000,
            ;
        }
        x = ((x as u128 * x as u128) % (n as u128)) as u64;
        if x == n - 1 {
            proof {
                assert(pow(a as int, d as nat * pow2(t as nat)) % (n as int) == n - 1);
            }
            return true;
        }
        t = t + 1;
    }
    proof {
        assert forall|s: nat| s < r implies #[trigger] pow(a as int, d as nat * pow2(s)) % (
        n as int) != n - 1 by {}
    }
    false
}

/// Returns whether `n` is a strong probable prime to each of the first
/// bases that are less than `n`.
fn miller_rabin(n: u64, d: u64, r: u32, bases: &[u64]) -> (res: bool)
    requires
        n >= 3,
        n % 2 == 1,
        d == odd_part((n - 1) as nat),
        r == twos((n - 1) as nat),
    ensures
        res == passes(n as nat, bases@),
{
    let mut i: usize = 0;
    while i < bases.len()
        invariant
            n >= 3,
            n % 2 == 1,
            d == odd_part((n - 1) as nat),
            r == twos((n - 1) as nat),
            i <= bases@.len(),
            forall|j: int| 0 <= j < i ==> (#[trigger] bases@[j]) < n,
            forall|j: int|
                0 <= j < i ==> strong_probable_prime(n as nat, #[trigger] bases@[j] as nat),
        decreases bases@.len() - i,
    {
        let a = bases[i];
        if a >= n {
            proof {
                assert forall|k: int|
                    0 <= k < bases@.len() && (forall|j: int|
                        0 <= j <= k ==> bases@[j] < n) implies strong_probable_prime(
                    n as nat,
                    #[trigger] bases@[k] as nat,
                ) by {
                    if k >= i {
                        assert(bases@[i as int] < n);
                    }
                }
            }
            return true;
        }
        if !strong_test(n, d, r, a) {
            proof {
                assert(!strong_probable_prime(n as nat, bases@[i as int] as nat));
            }
            return false;
        }
        i += 1;
    }
    true
}

/// Tests whether `n` is prime with the Miller-Rabin test on fixed bases.
pub fn is_prime(n: u64) -> (res: bool)
    ensures
        res == probable_prime(n as nat),
{
    if n == 0 || n == 1 {
        return false;
    } else if n == 2 {
        return true;
    } else if n % 2 == 0 {
        return false;
    }
    let (d, r) = split_twos(n - 1);
    if n < 4_759_123_141 {
        let bases: [u64; 3] = [2, 7, 61];
        proof {
            assert(bases@ =~= small_bases());
        }
        miller_rabin(n, d, r, bases.as_slice())
    } else {
        let bases: [u64; 7] = [2, 325, 9_375, 28_178, 450_775, 9_780_504, 1_795_265_022];
        proof {
            assert(bases@ =~= large_bases());
        }
        miller_rabin(n, d, r, bases.as_slice())
    }
}

} // verus!
