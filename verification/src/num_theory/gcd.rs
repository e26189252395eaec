//! Greatest common divisors.

use vstd::prelude::*;
use vstd::arithmetic::div_mod::{
    lemma_fundamental_div_mod, lemma_mod_multiples_basic, lemma_mul_mod_noop_general,
};
use vstd::arithmetic::power2::{lemma_pow2_pos, lemma_pow2_unfold, pow2};

verus! {

/// `d` is positive and divides both `a` and `b`.
pub open spec fn common_divisor(d: int, a: int, b: int) -> bool {
    d > 0 && a % d == 0 && b % d == 0
}

/// `g` is the greatest common divisor of `a` and `b`: zero when both are
/// zero, and otherwise the largest number that divides both.
pub open spec fn is_gcd(g: int, a: int, b: int) -> bool {
    if a == 0 && b == 0 {
        g == 0
    } else {
        common_divisor(g, a, b) && forall|d: int| #[trigger]
            common_divisor(d, a, b) ==> d <= g
    }
}

/// A number that `d` divides is `d` times the quotient.
pub proof fn lemma_divides_witness(d: int, n: int)
    requires
        d > 0,
        n % d == 0,
    ensures
        n == d * (n / d),
{
    lemma_fundamental_div_mod(n, d);
}

/// `d` divides every multiple of `d`.
pub proof fn lemma_divides_multiple(d: int, k: int)
    requires
        d > 0,
    ensures
        (d * k) % d == 0,
{
    lemma_mod_multiples_basic(k, d);
    assert(d * k == k * d) by (nonlinear_arith);
}

/// A divisor of two numbers divides their sum and their difference.
pub proof fn lemma_divides_combination(d: int, a: int, b: int)
    requires
        d > 0,
        a % d == 0,
        b % d == 0,
    ensures
        (a + b) % d == 0,
        (a - b) % d == 0,
{
    lemma_divides_witness(d, a);
    lemma_divides_witness(d, b);
    let ka = a / d;
    let kb = b / d;
    assert(a + b == d * (ka + kb)) by (nonlinear_arith)
        requires
            a == d * ka,
            b == d * kb,
    ;
    assert(a - b == d * (ka - kb)) by (nonlinear_arith)
        requires
            a == d * ka,
            b == d * kb,
    ;
    lemma_divides_multiple(d, ka + kb);
    lemma_divides_multiple(d, ka - kb);
}

/// A divisor of a positive number is not larger than it.
pub proof fn lemma_divisor_bound(d: int, n: int)
    requires
        d > 0,
        n > 0,
        n % d == 0,
    ensures
        d <= n,
{
    lemma_divides_witness(d, n);
    let k = n / d;
    assert(d <= d * k) by (nonlinear_arith)
        requires
            d > 0,
            d * k > 0,
    ;
}

/// A divisor of an odd number is odd.
pub proof fn lemma_divisor_of_odd(d: int, b: int)
    requires
        d > 0,
        b % 2 == 1,
        b % d == 0,
    ensures
        d % 2 == 1,
{
    lemma_divides_witness(d, b);
    lemma_mul_mod_noop_general(d, b / d, 2);
    if d % 2 == 0 {
        assert(0 * ((b / d) % 2) == 0) by (nonlinear_arith);
    }
}

/// An odd divisor of an even number divides its half.
pub proof fn lemma_odd_divisor_of_even(d: int, a: int)
    requires
        d > 0,
        d % 2 == 1,
        a % 2 == 0,
        a % d == 0,
    ensures
        (a / 2) % d == 0,
{
    lemma_divides_witness(d, a);
    let k = a / d;
    lemma_mul_mod_noop_general(d, k, 2);
    if k % 2 == 1 {
        assert(1 * 1 == 1) by (nonlinear_arith);
    }
    assert(a / 2 == d * (k / 2)) by (nonlinear_arith)
        requires
            a == d * k,
            k % 2 == 0,
            a % 2 == 0,
    ;
    lemma_divides_multiple(d, k / 2);
}

/// A positive number is its own greatest common divisor with itself.
pub proof fn lemma_gcd_self(a: int)
    requires
        a > 0,
    ensures
        is_gcd(a, a, a),
{
    lemma_divides_multiple(a, 1);
    assert(a * 1 == a) by (nonlinear_arith);
    assert forall|d: int| #[trigger] common_divisor(d, a, a) implies d <= a by {
        lemma_divisor_bound(d, a);
    }
}

/// The greatest common divisor of zero and a number is that number.
pub proof fn lemma_gcd_zero(b: int)
    requires
        b >= 0,
    ensures
        is_gcd(b, 0, b),
        is_gcd(b, b, 0),
{
    if b > 0 {
        lemma_gcd_self(b);
        assert(common_divisor(b, b, b));
        assert forall|d: int| #[trigger] common_divisor(d, 0, b) implies d <= b by {
            lemma_divisor_bound(d, b);
        }
        assert forall|d: int| #[trigger] common_divisor(d, b, 0) implies d <= b by {
            lemma_divisor_bound(d, b);
        }
    }
}

/// The greatest common divisor does not depend on the order of its
/// arguments.
pub proof fn lemma_gcd_symmetric(g: int, a: int, b: int)
    requires
        is_gcd(g, a, b),
    ensures
        is_gcd(g, b, a),
{
    if !(a == 0 && b == 0) {
        assert forall|d: int| #[trigger] common_divisor(d, b, a) implies d <= g by {
            assert(common_divisor(d, a, b));
        }
    }
}

/// Subtracting the smaller from the larger number keeps the greatest
/// common divisor.
pub proof fn lemma_gcd_subtract(g: int, a: int, b: int)
    requires
        a > b > 0,
        is_gcd(g, a - b, b),
    ensures
        is_gcd(g, a, b),
{
    lemma_divides_combination(g, a - b, b);
    assert forall|d: int| #[trigger] common_divisor(d, a, b) implies d <= g by {
        lemma_divides_combination(d, a, b);
        assert(common_divisor(d, a - b, b));
    }
}

/// Halving an even number keeps its greatest common divisor with an odd
/// one.
pub proof fn lemma_gcd_halve_one(g: int, a: int, b: int)
    requires
        a > 0,
        b > 0,
        a % 2 == 0,
        b % 2 == 1,
        is_gcd(g, a / 2, b),
    ensures
        is_gcd(g, a, b),
{
    lemma_divides_witness(g, a / 2);
    let k = (a / 2) / g;
    assert(a == g * (2 * k)) by (nonlinear_arith)
        requires
            a / 2 == g * k,
            a % 2 == 0,
    ;
    lemma_divides_multiple(g, 2 * k);
    assert forall|d: int| #[trigger] common_divisor(d, a, b) implies d <= g by {
        lemma_divisor_of_odd(d, b);
        lemma_odd_divisor_of_even(d, a);
        assert(common_divisor(d, a / 2, b));
    }
}

/// Halving two even numbers halves their greatest common divisor.
pub proof fn lemma_gcd_halve_both(g: int, a: int, b: int)
    requires
        a > 0,
        b > 0,
        a % 2 == 0,
        b % 2 == 0,
        is_gcd(g, a / 2, b / 2),
    ensures
        is_gcd(2 * g, a, b),
{
    lemma_divides_witness(g, a / 2);
    lemma_divides_witness(g, b / 2);
    let ka = (a / 2) / g;
    let kb = (b / 2) / g;
    assert(a == (2 * g) * ka) by (nonlinear_arith)
        requires
            a / 2 == g * ka,
            a % 2 == 0,
    ;
    assert(b == (2 * g) * kb) by (nonlinear_arith)
        requires
            b / 2 == g * kb,
            b % 2 == 0,
    ;
    lemma_divides_multiple(2 * g, ka);
    lemma_divides_multiple(2 * g, kb);
    assert forall|d: int| #[trigger] common_divisor(d, a, b) implies d <= 2 * g by {
        if d % 2 == 1 {
            lemma_odd_divisor_of_even(d, a);
            lemma_odd_divisor_of_even(d, b);
            assert(common_divisor(d, a / 2, b / 2));
        } else {
            let e = d / 2;
            lemma_divides_witness(d, a);
            lemma_divides_witness(d, b);
            let qa = a / d;
            let qb = b / d;
            assert(a / 2 == e * qa) by (nonlinear_arith)
                requires
                    a == d * qa,
                    d == 2 * e,
            ;
            assert(b / 2 == e * qb) by (nonlinear_arith)
                requires
                    b == d * qb,
                    d == 2 * e,
            ;
            lemma_divides_multiple(e, qa);
            lemma_divides_multiple(e, qb);
            assert(common_divisor(e, a / 2, b / 2));
        }
    }
}

/// Every greatest common divisor of `a` and `b`, multiplied by `2^s`, is
/// one of `a0` and `b0`.
pub open spec fn reduces_to(a: int, b: int, s: nat, a0: int, b0: int) -> bool {
    forall|g: int| #[trigger] is_gcd(g, a, b) ==> is_gcd(g * pow2(s), a0, b0)
}

/// Removes every factor two from `a`, which an odd `b` accompanies.
fn strip_twos(
    a: u64,
    Ghost(b): Ghost<int>,
    Ghost(s): Ghost<nat>,
    Ghost(a0): Ghost<int>,
    Ghost(b0): Ghost<int>,
) -> (res: u64)
    requires
        a > 0,
        b > 0,
        a % 2 == 1 || b % 2 == 1,
        reduces_to(a as int, b, s, a0, b0),
    ensures
        0 < res <= a,
        res % 2 == 1,
        reduces_to(res as int, b, s, a0, b0),
{
    let ghost given = a;
    let mut a = a;
    while a % 2 == 0
        invariant
            a > 0,
            b > 0,
            a % 2 == 1 || b % 2 == 1,
            a <= given,
            reduces_to(a as int, b, s, a0, b0),
        decreases a,
    {
        proof {
            assert forall|g: int| #[trigger] is_gcd(g, a as int / 2, b) implies is_gcd(
                g * pow2(s),
                a0,
                b0,
            ) by {
                lemma_gcd_halve_one(g, a as int, b);
                assert(is_gcd(g, a as int, b));
            }
        }
        a = a / 2;
    }
    a
}

/// Computes gcd(a, b) using the binary GCD (Stein's) algorithm.
pub fn gcd(a: u64, b: u64) -> (res: u64)
    ensures
        is_gcd(res as int, a as int, b as int),
{
    if a == 0 || b == 0 {
        proof {
            lemma_gcd_zero(a as int);
            lemma_gcd_zero(b as int);
        }
        return a + b;
    }
    let ghost a0 = a as int;
    let ghost b0 = b as int;
    let mut a = a;
    let mut b = b;
    let mut shift: u32 = 0;
    proof {
        vstd::arithmetic::power2::lemma2_to64();
        assert forall|g: int| #[trigger] is_gcd(g, a0, b0) implies is_gcd(g * pow2(0), a0, b0) by {
            assert(g * 1 == g) by (nonlinear_arith);
        }
    }
    while a % 2 == 0 && b % 2 == 0
        invariant
            a > 0,
            b > 0,
            a * pow2(shift as nat) == a0,
            a0 <= u64::MAX,
            shift < 64,
            reduces_to(a as int, b as int, shift as nat, a0, b0),
        decreases a,
    {
        proof {
            let s = shift as nat;
            lemma_pow2_unfold(s + 1);
            lemma_pow2_pos(s);
            assert((a as int / 2) * (2 * pow2(s)) == a * pow2(s)) by (nonlinear_arith)
                requires
                    a % 2 == 0,
            ;
            assert forall|g: int| #[trigger] is_gcd(g, a as int / 2, b as int / 2) implies is_gcd(
                g * pow2(s + 1),
                a0,
                b0,
            ) by {
                lemma_gcd_halve_both(g, a as int, b as int);
                assert(is_gcd(2 * g, a as int, b as int));
                assert(2 * g * pow2(s) == g * (2 * pow2(s))) by (nonlinear_arith);
            }
            if shift >= 63 {
                vstd::arithmetic::power2::lemma2_to64_rest();
                if shift > 63 {
                    vstd::arithmetic::power2::lemma_pow2_strictly_increases(63, s);
                }
                assert((a as int / 2) * (2 * pow2(s)) >= 2 * pow2(s)) by (nonlinear_arith)
                    requires
                        a as int / 2 >= 1,
                        pow2(s) > 0,
                ;
            }
        }
        a = a / 2;
        b = b / 2;
        shift = shift + 1;
    }
    a = strip_twos(a, Ghost(b as int), Ghost(shift as nat), Ghost(a0), Ghost(b0));
    proof {
        assert forall|g: int| #[trigger] is_gcd(g, b as int, a as int) implies is_gcd(
            g * pow2(shift as nat),
            a0,
            b0,
        ) by {
            lemma_gcd_symmetric(g, b as int, a as int);
        }
    }
    b = strip_twos(b, Ghost(a as int), Ghost(shift as nat), Ghost(a0), Ghost(b0));
    while a != b
        invariant
            a > 0,
            b > 0,
            a % 2 == 1,
            b % 2 == 1,
            reduces_to(b as int, a as int, shift as nat, a0, b0),
        decreases a + b,
    {
        if a < b {
            proof {
                assert forall|g: int| #[trigger] is_gcd(g, a as int, b as int) implies is_gcd(
                    g * pow2(shift as nat),
                    a0,
                    b0,
                ) by {
                    lemma_gcd_symmetric(g, a as int, b as int);
                }
            }
            let t = a;
            a = b;
            b = t;
        }
        proof {
            assert forall|g: int| #[trigger] is_gcd(g, a - b, b as int) implies is_gcd(
                g * pow2(shift as nat),
                a0,
                b0,
            ) by {
                lemma_gcd_subtract(g, a as int, b as int);
                lemma_gcd_symmetric(g, a as int, b as int);
            }
        }
        a = strip_twos(a - b, Ghost(b as int), Ghost(shift as nat), Ghost(a0), Ghost(b0));
        proof {
            assert forall|g: int| #[trigger] is_gcd(g, b as int, a as int) implies is_gcd(
                g * pow2(shift as nat),
                a0,
                b0,
            ) by {
                lemma_gcd_symmetric(g, b as int, a as int);
            }
        }
    }
    proof {
        lemma_gcd_self(a as int);
        assert(is_gcd(a as int, b as int, a as int));
        assert(is_gcd(a * pow2(shift as nat), a0, b0));
        lemma_divisor_bound(a * pow2(shift as nat), a0);
        lemma_pow2_pos(shift as nat);
    }
    let ghost full = a * pow2(shift as nat);
    while shift > 0
        invariant
            a * pow2(shift as nat) == full,
            0 < full <= u64::MAX,
        decreases shift,
    {
        proof {
            lemma_pow2_unfold(shift as nat);
            lemma_pow2_pos((shift - 1) as nat);
            assert(a * (2 * pow2((shift - 1) as nat)) == (2 * a) * pow2((shift - 1) as nat))
                by (nonlinear_arith);
            assert(2 * a <= (2 * a) * pow2((shift - 1) as nat)) by (nonlinear_arith)
                requires
                    pow2((shift - 1) as nat) >= 1,
                    a >= 0,
            ;
        }
        a = a * 2;
        shift = shift - 1;
    }
    proof {
        vstd::arithmetic::power2::lemma2_to64();
        assert(a * 1 == a) by (nonlinear_arith);
    }
    a
}

/// The absolute value of `x`.
pub open spec fn abs(x: int) -> int {
    if x < 0 {
        -x
    } else {
        x
    }
}

/// A divisor of a number divides its multiples.
pub proof fn lemma_divides_product(d: int, b: int, q: int)
    requires
        d > 0,
        b % d == 0,
    ensures
        (q * b) % d == 0,
{
    lemma_divides_witness(d, b);
    let k = b / d;
    assert(q * b == d * (q * k)) by (nonlinear_arith)
        requires
            b == d * k,
    ;
    lemma_divides_multiple(d, q * k);
}

/// Replacing the larger number by its remainder after taking away a
/// multiple of the smaller keeps the greatest common divisor.
pub proof fn lemma_gcd_remainder(g: int, a: int, b: int, q: int)
    requires
        b > 0,
        is_gcd(g, b, a - q * b),
    ensures
        is_gcd(g, a, b),
{
    lemma_divides_product(g, b, q);
    lemma_divides_combination(g, a - q * b, q * b);
    assert forall|d: int| #[trigger] common_divisor(d, a, b) implies d <= g by {
        lemma_divides_product(d, b, q);
        lemma_divides_combination(d, a, q * b);
        assert(common_divisor(d, b, a - q * b));
    }
}

/// What Euclid's algorithm keeps true of two consecutive remainders, with
/// the coefficients that express them in `a` and `b`.
pub open spec fn euclid_inv(
    a: int,
    b: int,
    prev_r: int,
    r: int,
    prev_x: int,
    x: int,
    prev_y: int,
    y: int,
) -> bool {
    &&& a > 0
    &&& b > 0
    &&& prev_r > 0
    &&& r >= 0
    &&& prev_r == a * prev_x + b * prev_y
    &&& r == a * x + b * y
    &&& (prev_x >= 0 && x <= 0 && prev_y <= 0 && y >= 0) || (prev_x <= 0 && x >= 0 && prev_y >= 0
        && y <= 0)
    &&& prev_r * abs(x) + r * abs(prev_x) == b
    &&& prev_r * abs(y) + r * abs(prev_y) == a
    &&& abs(prev_x) <= b
    &&& abs(prev_y) <= a
    &&& forall|g: int| #[trigger] is_gcd(g, prev_r, r) ==> is_gcd(g, a, b)
}

/// One division step of Euclid's algorithm keeps its invariant, and its
/// products stay within the bounds of the invariant.
pub proof fn lemma_euclid_step(
    a: int,
    b: int,
    prev_r: int,
    r: int,
    prev_x: int,
    x: int,
    prev_y: int,
    y: int,
)
    requires
        euclid_inv(a, b, prev_r, r, prev_x, x, prev_y, y),
        r > 0,
    ensures
        ({
            let q = prev_r / r;
            &&& 0 <= q <= prev_r
            &&& 0 <= q * r <= prev_r
            &&& prev_r - q * r == prev_r % r
            &&& abs(q * x) <= b
            &&& abs(prev_x - q * x) <= b
            &&& euclid_inv(a, b, r, prev_r - q * r, x, prev_x - q * x, y, prev_y - q * y)
        }),
{
    let q = prev_r / r;
    let r2 = prev_r - q * r;
    let x2 = prev_x - q * x;
    let y2 = prev_y - q * y;
    lemma_fundamental_div_mod(prev_r, r);
    vstd::arithmetic::div_mod::lemma_mod_bound(prev_r, r);
    vstd::arithmetic::div_mod::lemma_div_pos_is_pos(prev_r, r);
    assert(q * r == r * q) by (nonlinear_arith);
    assert(q <= prev_r) by (nonlinear_arith)
        requires
            q * r <= prev_r,
            r >= 1,
            q >= 0,
    ;
    assert(r2 == a * x2 + b * y2) by (nonlinear_arith)
        requires
            prev_r == a * prev_x + b * prev_y,
            r == a * x + b * y,
            r2 == prev_r - q * r,
            x2 == prev_x - q * x,
            y2 == prev_y - q * y,
    ;
    assert(abs(q * x) == q * abs(x) && abs(q * y) == q * abs(y)) by (nonlinear_arith)
        requires
            q >= 0,
    ;
    assert(q * abs(x) >= 0 && q * abs(y) >= 0) by (nonlinear_arith)
        requires
            q >= 0,
            abs(x) >= 0,
            abs(y) >= 0,
    ;
    assert((x >= 0 ==> q * x == q * abs(x)) && (x <= 0 ==> q * x == -(q * abs(x))))
        by (nonlinear_arith);
    assert((y >= 0 ==> q * y == q * abs(y)) && (y <= 0 ==> q * y == -(q * abs(y))))
        by (nonlinear_arith);
    if prev_x >= 0 && x <= 0 && prev_y <= 0 && y >= 0 {
        assert(x2 == prev_x + q * abs(x));
        assert(y2 == prev_y - q * abs(y));
    } else {
        assert(x2 == prev_x - q * abs(x));
        assert(y2 == prev_y + q * abs(y));
    }
    assert(abs(x2) == abs(prev_x) + q * abs(x));
    assert(abs(y2) == abs(prev_y) + q * abs(y));
    assert(r * abs(x2) + r2 * abs(x) == b) by (nonlinear_arith)
        requires
            prev_r * abs(x) + r * abs(prev_x) == b,
            abs(x2) == abs(prev_x) + q * abs(x),
            r2 == prev_r - q * r,
    ;
    assert(r * abs(y2) + r2 * abs(y) == a) by (nonlinear_arith)
        requires
            prev_r * abs(y) + r * abs(prev_y) == a,
            abs(y2) == abs(prev_y) + q * abs(y),
            r2 == prev_r - q * r,
    ;
    assert(abs(x2) <= b) by (nonlinear_arith)
        requires
            r * abs(x2) + r2 * abs(x) == b,
            r >= 1,
            r2 >= 0,
            abs(x) >= 0,
            abs(x2) >= 0,
    ;
    assert(abs(x) <= b) by (nonlinear_arith)
        requires
            prev_r * abs(x) + r * abs(prev_x) == b,
            prev_r >= 1,
            r >= 0,
            abs(x) >= 0,
            abs(prev_x) >= 0,
    ;
    assert(abs(y) <= a) by (nonlinear_arith)
        requires
            prev_r * abs(y) + r * abs(prev_y) == a,
            prev_r >= 1,
            r >= 0,
            abs(y) >= 0,
            abs(prev_y) >= 0,
    ;
    assert forall|g: int| #[trigger] is_gcd(g, r, r2) implies is_gcd(g, a, b) by {
        lemma_gcd_remainder(g, prev_r, r, q);
        assert(is_gcd(g, prev_r, r));
    }
}

/// Returns `(g, x, y)` such that `a * x + b * y == g` and `g` is the
/// greatest common divisor of `|a|` and `|b|`.  When both `a` and `b` are
/// zero, returns `(0, 0, 0)`.
pub fn ext_gcd(a: i64, b: i64) -> (res: (i64, i64, i64))
    requires
        a > i64::MIN,
        b > i64::MIN,
    ensures
        is_gcd(res.0 as int, abs(a as int), abs(b as int)),
        a * res.1 + b * res.2 == res.0,
        abs(res.1 as int) <= abs(b as int) || b == 0,
        abs(res.2 as int) <= abs(a as int) || a == 0,
        a == 0 && b == 0 ==> res == (0i64, 0i64, 0i64),
        a == 0 && b != 0 ==> res == (abs(b as int) as i64, 0i64, if b > 0 {
            1i64
        } else {
            -1i64
        }),
        a != 0 && b == 0 ==> res == (abs(a as int) as i64, if a > 0 {
            1i64
        } else {
            -1i64
        }, 0i64),
{
    if a == 0 && b == 0 {
        return (0, 0, 0);
    }
    if a == 0 {
        proof {
            lemma_gcd_zero(abs(b as int));
            assert(a * 0 + b * 1 == b && a * 0 + b * (-1) == -b) by (nonlinear_arith);
        }
        return if b > 0 {
            (b, 0, 1)
        } else {
            (-b, 0, -1)
        };
    }
    if b == 0 {
        proof {
            lemma_gcd_zero(abs(a as int));
            assert(a * 1 + b * 0 == a && a * (-1) + b * 0 == -a) by (nonlinear_arith);
        }
        return if a > 0 {
            (a, 1, 0)
        } else {
            (-a, -1, 0)
        };
    }
    let aa: i64 = if a > 0 {
        a
    } else {
        -a
    };
    let bb: i64 = if b > 0 {
        b
    } else {
        -b
    };
    let mut prev_r: i64 = aa;
    let mut r: i64 = bb;
    let mut prev_x: i64 = 1;
    let mut x: i64 = 0;
    let ghost mut prev_y: int = 0;
    let ghost mut y: int = 1;
    proof {
        assert(aa * 1 + bb * 0 == aa) by (nonlinear_arith);
        assert(aa * 0 + bb * 1 == bb) by (nonlinear_arith);
        assert(aa * abs(0) + bb * abs(1) == bb) by (nonlinear_arith);
        assert(aa * abs(1) + bb * abs(0) == aa) by (nonlinear_arith);
    }
    while r != 0
        invariant
            aa == abs(a as int),
            bb == abs(b as int),
            euclid_inv(aa as int, bb as int, prev_r as int, r as int, prev_x as int, x as int, prev_y, y),
        decreases r,
    {
        proof {
            lemma_euclid_step(
                aa as int,
                bb as int,
                prev_r as int,
                r as int,
                prev_x as int,
                x as int,
                prev_y,
                y,
            );
        }
        let q = prev_r / r;
        let next_r = prev_r - q * r;
        let next_x = prev_x - q * x;
        proof {
            let next_y = prev_y - q * y;
            prev_y = y;
            y = next_y;
        }
        prev_r = r;
        r = next_r;
        prev_x = x;
        x = next_x;
    }
    proof {
        lemma_gcd_zero(prev_r as int);
        assert(is_gcd(prev_r as int, prev_r as int, 0));
    }
    proof {
        assert(aa * prev_x <= aa * bb && aa * prev_x >= -(aa * bb)) by (nonlinear_arith)
            requires
                abs(prev_x as int) <= bb,
                aa > 0,
        ;
        assert(aa * bb <= 0x7fff_ffff_ffff_ffff * 0x7fff_ffff_ffff_ffff) by (nonlinear_arith)
            requires
                0 < aa <= 0x7fff_ffff_ffff_ffff,
                0 < bb <= 0x7fff_ffff_ffff_ffff,
        ;
    }
    let n: i128 = prev_r as i128 - aa as i128 * prev_x as i128;
    proof {
        assert(n == bb * prev_y);
        if prev_y >= 0 {
            vstd::arithmetic::div_mod::lemma_div_multiples_vanish(prev_y, bb as int);
        } else {
            vstd::arithmetic::div_mod::lemma_div_multiples_vanish(-prev_y, bb as int);
            assert(-(bb * prev_y) == bb * (-prev_y)) by (nonlinear_arith);
        }
    }
    let m: i128 = if n >= 0 {
        n / (bb as i128)
    } else {
        -((-n) / (bb as i128))
    };
    proof {
        assert(m == prev_y);
        assert(a * (if a > 0 {
            prev_x as int
        } else {
            -prev_x
        }) == aa * prev_x) by (nonlinear_arith)
            requires
                aa == abs(a as int),
        ;
        assert(b * (if b > 0 {
            m as int
        } else {
            -m
        }) == bb * m) by (nonlinear_arith)
            requires
                bb == abs(b as int),
        ;
    }
    (
        prev_r,
        if a > 0 {
            prev_x
        } else {
            -prev_x
        },
        if b > 0 {
            m as i64
        } else {
            (-m) as i64
        },
    )
}

} // verus!
